//! Which places matter to a set of chosen statements, found by walking a
//! function backward from them.

pub mod domain;
pub mod effect_laws;
pub mod laws;
pub mod place_laws;
pub mod places;
pub mod tables;
pub mod transfer;

pub use domain::{DomainModel, Relevant, RelevanceDomain, SliceSet};
pub use places::{BorrowData, PlaceFacts, RelevanceAnalysis};
pub use transfer::{CollectPlaceIndices, TransferFunction};
