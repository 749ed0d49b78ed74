//! Tolerance registry selection and comparison adjudication.

pub mod report;
pub mod tolerance;
