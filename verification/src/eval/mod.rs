//! Measuring how well slices are cut, over all the functions of a crate.

pub mod body;
pub mod laws;
pub mod tokens;
pub mod visitor;
