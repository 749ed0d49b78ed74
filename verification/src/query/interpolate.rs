//! Field-specific interpolation policies and their failure vocabulary.
//!
//! Continuous scalars, categories, spherical vectors, pressure-level masks,
//! vertical coordinates, and temporal semantics are distinct contracts and
//! cannot be silently interchanged.

use vstd::prelude::*;

verus! {

/// Continuous scalar interpolation policy.
#[derive(Clone, Copy, Debug, Default)]
pub struct ScalarLinearPolicy;

/// Categorical or nearest-neighbor interpolation policy.
#[derive(Clone, Copy, Debug, Default)]
pub struct CategoricalPolicy;

/// Earth-centered tangent-vector wind interpolation policy.
#[derive(Clone, Copy, Debug, Default)]
pub struct SphericalVectorPolicy;

/// Mask-aware valid-triangle interpolation for pressure-level terrain.
#[derive(Clone, Copy, Debug, Default)]
pub struct MaskedTrianglePolicy;

/// Explicit vertical interpolation mode.
#[derive(Clone, Copy, Debug, PartialEq, Eq, Structural)]
pub enum VerticalPolicy {
    /// Linear in geometric height.
    LinearHeight,
    /// Linear in logarithmic pressure.
    LogPressure,
}

/// Explicit temporal interpolation mode.
#[derive(Clone, Copy, Debug, PartialEq, Eq, Structural)]
pub enum TimePolicy {
    /// Linear interpolation of instantaneous values.
    InstantaneousLinear,
    /// Piecewise constant interval-average rate.
    IntervalRate,
    /// Discrete state selected by a declared tie rule.
    Discrete,
}

/// Interpolation failure for one point.
#[derive(Clone, Copy, Debug, PartialEq, Eq, Structural)]
pub enum InterpolationError {
    /// Descriptor and selected policy are incompatible.
    WrongPolicy,
    /// No physically valid interpolation support exists.
    InvalidSupport,
    /// A numerical precondition failed.
    NumericalFailure,
    /// Exact pole has no unique local east direction.
    PolarSingularity,
}

/// Horizontal grid failure reported by geometry and weight computations.
#[derive(Clone, Debug, PartialEq, Eq)]
pub enum GridError {
    /// Exact pole has no unique local east direction.
    PolarSingularity,
    /// Interpolation weights are not a finite partition of unity.
    InvalidWeights,
    /// A coordinate is non-finite or outside its domain.
    InvalidCoordinate,
    /// A finite or monotonicity check failed.
    NumericalFailure,
    /// The point lies outside the grid domain.
    OutOfDomain,
    /// The grid geometry is structurally invalid.
    InvalidGeometry(String),
    /// A grid index does not fit the index type.
    IndexOverflow,
}

/// The interpolation failure each grid failure becomes.
pub open spec fn grid_error_class(error: GridError) -> InterpolationError {
    match error {
        GridError::PolarSingularity => InterpolationError::PolarSingularity,
        GridError::InvalidWeights | GridError::InvalidCoordinate | GridError::NumericalFailure => {
            InterpolationError::NumericalFailure
        },
        GridError::OutOfDomain | GridError::InvalidGeometry(_) | GridError::IndexOverflow => {
            InterpolationError::InvalidSupport
        },
    }
}

/// Maps a grid failure to the interpolation failure it represents.
pub fn map_grid_error(error: GridError) -> (mapped: InterpolationError)
    ensures
        mapped == grid_error_class(error),
{
    match error {
        GridError::PolarSingularity => InterpolationError::PolarSingularity,
        GridError::InvalidWeights | GridError::InvalidCoordinate | GridError::NumericalFailure => {
            InterpolationError::NumericalFailure
        },
        GridError::OutOfDomain | GridError::InvalidGeometry(_) | GridError::IndexOverflow => {
            InterpolationError::InvalidSupport
        },
    }
}

} // verus!
