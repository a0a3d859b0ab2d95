//! How values flow through a body.

pub mod dependencies;
pub mod laws;
pub mod range_laws;
pub mod ranges;
