//! A slicer for Rust functions in their intermediate representation.

pub mod analysis;
pub mod config;
pub mod eval;
pub mod flow;
pub mod index_matrix;
pub mod index_set;
pub mod mir;
pub mod source;
