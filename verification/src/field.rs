//! Field identities, qualities and capability sets used by query plans and
//! output provenance.

use vstd::prelude::*;
use crate::text::text_eq;

verus! {

/// Canonical meteorological field.
#[derive(Clone, Copy, Debug, PartialEq, Eq, Structural, PartialOrd, Ord, Hash)]
pub enum CanonicalField {
    EastwardWind,
    NorthwardWind,
    GeometricVerticalVelocity,
    PressureVerticalVelocity,
    HybridVerticalVelocity,
    AirPressure,
    AirTemperature,
    SpecificHumidity,
    AirDensity,
    GeometricHeight,
    GeopotentialHeight,
    GeometricTerrainHeight,
    SurfaceGeopotential,
    SurfacePressure,
    TenMetreEastwardWind,
    TenMetreNorthwardWind,
    TwoMetreAirTemperature,
    TwoMetreSpecificHumidity,
    BoundaryLayerHeight,
    AerodynamicRoughnessLength,
    FrictionVelocity,
    MoninObukhovLength,
    SensibleHeatFlux,
    LatentHeatFlux,
    EastwardSurfaceStress,
    NorthwardSurfaceStress,
    PotentialVorticity,
}

/// Namespaced extension field.
#[derive(Debug, PartialEq, Eq, PartialOrd, Ord, Hash)]
pub struct ExtensionFieldId {
    /// Owning namespace.
    pub namespace: String,
    /// Field name within the namespace.
    pub name: String,
}

impl Clone for ExtensionFieldId {
    fn clone(&self) -> (copy: Self)
        ensures
            copy == *self,
    {
        ExtensionFieldId { namespace: self.namespace.clone(), name: self.name.clone() }
    }
}

/// Exact identity of one output field.
#[derive(Debug, PartialEq, Eq, PartialOrd, Ord, Hash)]
pub enum FieldKey {
    /// A canonical field.
    Canonical(CanonicalField),
    /// A namespaced extension field.
    Extension(ExtensionFieldId),
}

impl Clone for FieldKey {
    fn clone(&self) -> (copy: Self)
        ensures
            copy == *self,
    {
        match self {
            FieldKey::Canonical(field) => FieldKey::Canonical(*field),
            FieldKey::Extension(id) => FieldKey::Extension(id.clone()),
        }
    }
}

/// Two keys name the same field: the same canonical field, or the same
/// namespace and name.
pub open spec fn same_field(a: FieldKey, b: FieldKey) -> bool {
    match (a, b) {
        (FieldKey::Canonical(x), FieldKey::Canonical(y)) => x == y,
        (FieldKey::Extension(x), FieldKey::Extension(y)) => x.namespace@ == y.namespace@ && x.name@ == y.name@,
        _ => false,
    }
}

impl FieldKey {
    /// Whether two keys name the same field.
    pub fn same_as(&self, other: &FieldKey) -> (same: bool)
        ensures
            same == same_field(*self, *other),
    {
        match (self, other) {
            (FieldKey::Canonical(x), FieldKey::Canonical(y)) => *x == *y,
            (FieldKey::Extension(x), FieldKey::Extension(y)) => {
                text_eq(x.namespace.as_str(), y.namespace.as_str()) && text_eq(x.name.as_str(), y.name.as_str())
            },
            _ => false,
        }
    }
}

/// Source, derived, or estimated quality of a value.
#[derive(Clone, Copy, Debug, PartialEq, Eq, Structural, Hash)]
pub enum FieldQuality {
    /// Read directly from a source.
    Source,
    /// Derived deterministically from sources.
    Derived,
    /// Estimated by a profiled fallback.
    Estimated,
}

/// Compact provenance identifier resolved through an output-level table.
#[derive(Clone, Copy, Debug, PartialEq, Eq, Structural, Hash)]
pub struct ProvenanceId(pub u32);

/// Stable identity of a physics model.
#[derive(Debug, PartialEq, Eq, Hash)]
pub struct ModelId(pub String);

impl Clone for ModelId {
    fn clone(&self) -> (copy: Self)
        ensures
            copy == *self,
    {
        ModelId(self.0.clone())
    }
}

/// Meteorological capability a catalog can guarantee.
#[derive(Clone, Copy, Debug, PartialEq, Eq, Structural, PartialOrd, Ord, Hash)]
pub enum Capability {
    /// Complete column transport support.
    Transport,
    /// Near-surface transport through a surface-layer model.
    NearSurfaceTransport,
    /// Diagnostic fields.
    Diagnostics,
}

/// Set of capabilities.
#[derive(Clone, Copy, Debug, Default, PartialEq, Eq, Structural, PartialOrd, Ord, Hash)]
pub struct CapabilitySet {
    transport: bool,
    near_surface_transport: bool,
    diagnostics: bool,
}

impl CapabilitySet {
    /// Whether the set holds `capability`.
    pub closed spec fn has(self, capability: Capability) -> bool {
        match capability {
            Capability::Transport => self.transport,
            Capability::NearSurfaceTransport => self.near_surface_transport,
            Capability::Diagnostics => self.diagnostics,
        }
    }

    /// Position of the set in the derived order: transport, then
    /// near-surface transport, then diagnostics, each absent before present.
    pub closed spec fn rank(self) -> int {
        (if self.transport { 4int } else { 0int }) + (if self.near_surface_transport { 2int } else { 0int })
            + (if self.diagnostics { 1int } else { 0int })
    }

    /// Position of the set in the derived order.
    pub fn rank_value(&self) -> (rank: u8)
        ensures
            rank == self.rank(),
    {
        (if self.transport { 4u8 } else { 0u8 }) + (if self.near_surface_transport { 2u8 } else { 0u8 })
            + (if self.diagnostics { 1u8 } else { 0u8 })
    }

    /// The empty set.
    pub fn new() -> (set: Self)
        ensures
            forall|c: Capability| !set.has(c),
    {
        CapabilitySet { transport: false, near_surface_transport: false, diagnostics: false }
    }

    /// Adds one capability.
    pub fn insert(&mut self, capability: Capability)
        ensures
            forall|c: Capability| final(self).has(c) == (old(self).has(c) || c == capability),
    {
        match capability {
            Capability::Transport => self.transport = true,
            Capability::NearSurfaceTransport => self.near_surface_transport = true,
            Capability::Diagnostics => self.diagnostics = true,
        }
    }

    /// This set with one more capability.
    pub fn with(self, capability: Capability) -> (set: Self)
        ensures
            forall|c: Capability| set.has(c) == (self.has(c) || c == capability),
    {
        let mut set = self;
        set.insert(capability);
        set
    }

    /// Whether the set holds `capability`.
    pub fn contains(&self, capability: Capability) -> (held: bool)
        ensures
            held == self.has(capability),
    {
        match capability {
            Capability::Transport => self.transport,
            Capability::NearSurfaceTransport => self.near_surface_transport,
            Capability::Diagnostics => self.diagnostics,
        }
    }

    /// Whether every capability of `required` is in this set.
    pub fn contains_all(&self, required: CapabilitySet) -> (all: bool)
        ensures
            all == forall|c: Capability| required.has(c) ==> self.has(c),
    {
        let all = (!required.transport || self.transport)
            && (!required.near_surface_transport || self.near_surface_transport)
            && (!required.diagnostics || self.diagnostics);
        proof {
            if !all {
                if required.transport && !self.transport {
                    assert(required.has(Capability::Transport));
                } else if required.near_surface_transport && !self.near_surface_transport {
                    assert(required.has(Capability::NearSurfaceTransport));
                } else {
                    assert(required.has(Capability::Diagnostics));
                }
            }
        }
        all
    }
}

} // verus!
