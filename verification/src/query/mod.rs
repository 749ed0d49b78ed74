//! Prepared meteorological queries: budgets, layout, output columns.

pub mod cache;
pub mod convection;
pub mod interpolate;
pub mod layout;
pub mod metrics;
pub mod output;
pub mod request;
