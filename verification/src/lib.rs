//! Verified core of the trajecta meteorology query layer: byte budgets and
//! caches, batch layout and chunking, structure-of-arrays output columns,
//! observation counters, and tolerance-registry adjudication.

pub mod query;
pub mod digest;
pub mod field;
pub mod model;
pub mod text;
pub mod surface_layer;
pub mod validation;
