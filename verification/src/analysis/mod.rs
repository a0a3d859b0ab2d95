//! Analyses of single functions.

pub mod relevance;
