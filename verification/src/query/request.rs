//! Query request vocabulary: explanation policy, vertical coordinate kind,
//! the fixed transport field contract, and plan compilation against the
//! registered fields, capabilities and surface-layer models.

use vstd::prelude::*;
use vstd::std_specs::cmp::PartialEqSpec;
use crate::field::{Capability, CapabilitySet, CanonicalField, FieldKey, FieldQuality, ModelId, same_field};
use crate::surface_layer::{SurfaceLayerRegistry, model_position};
use crate::text::text_eq;
use vstd::string::*;

verus! {

/// Query explanation policy frozen into a compiled plan.
#[derive(Clone, Copy, Debug, Default, PartialEq, Eq, Structural, Hash)]
pub enum ExplainMode {
    /// Do not allocate or populate per-point explanation records.
    #[default]
    Disabled,
    /// Emit complete per-point interpolation and provenance explanations.
    Full,
}

/// Vertical coordinate shared by every point in a query batch.
#[derive(Clone, Copy, Debug, PartialEq, Eq, Structural, Hash)]
pub enum VerticalQuery {
    /// Geometric height above mean sea level in metres.
    AboveSeaLevel,
    /// Geometric height above local ground in metres.
    AboveGround,
    /// Pressure in pascals.
    Pressure,
}

/// The eight canonical fields of the transport contract, in contract order.
pub open spec fn transport_field_order() -> Seq<CanonicalField> {
    seq![
        CanonicalField::EastwardWind,
        CanonicalField::NorthwardWind,
        CanonicalField::GeometricVerticalVelocity,
        CanonicalField::AirPressure,
        CanonicalField::AirTemperature,
        CanonicalField::SpecificHumidity,
        CanonicalField::AirDensity,
        CanonicalField::GeometricTerrainHeight,
    ]
}

/// The canonical transport fields, in contract order.
pub fn transport_canonical_fields() -> (fields: [CanonicalField; 8])
    ensures
        fields@ == transport_field_order(),
{
    let fields = [
        CanonicalField::EastwardWind,
        CanonicalField::NorthwardWind,
        CanonicalField::GeometricVerticalVelocity,
        CanonicalField::AirPressure,
        CanonicalField::AirTemperature,
        CanonicalField::SpecificHumidity,
        CanonicalField::AirDensity,
        CanonicalField::GeometricTerrainHeight,
    ];
    proof {
        assert(fields@ =~= transport_field_order());
    }
    fields
}

/// The transport fields as field keys, in contract order.
pub fn transport_fields() -> (fields: [FieldKey; 8])
    ensures
        fields@ == transport_field_order().map_values(|f: CanonicalField| FieldKey::Canonical(f)),
{
    let c = transport_canonical_fields();
    let fields = [
        FieldKey::Canonical(c[0]),
        FieldKey::Canonical(c[1]),
        FieldKey::Canonical(c[2]),
        FieldKey::Canonical(c[3]),
        FieldKey::Canonical(c[4]),
        FieldKey::Canonical(c[5]),
        FieldKey::Canonical(c[6]),
        FieldKey::Canonical(c[7]),
    ];
    proof {
        assert(fields@ =~= transport_field_order().map_values(|f: CanonicalField| FieldKey::Canonical(f)));
    }
    fields
}


/// Query-plan or batch validation failure.
#[derive(Clone, Debug, PartialEq, Eq)]
pub enum QueryPlanError {
    /// No output fields were requested.
    EmptyFieldSet,
    /// SoA columns have inconsistent lengths.
    LengthMismatch,
    /// A coordinate is NaN or infinite.
    NonFiniteCoordinate(usize),
    /// Latitude lies outside [-90, 90] degrees.
    InvalidLatitude(usize),
    /// Pressure queries require a strictly positive pressure.
    NonPositivePressure(usize),
    /// A requested field occurs more than once.
    DuplicateField(FieldKey),
    /// A requested field is not registered.
    UnknownField(FieldKey),
    /// Required meteorological capabilities are missing.
    MissingCapabilities {
        /// Capabilities required by the plan.
        required: CapabilitySet,
        /// Capabilities guaranteed by the catalog.
        available: CapabilitySet,
    },
    /// An estimated field is forbidden by the caller.
    EstimatedFieldForbidden(FieldKey),
    /// The selected surface-layer model is unavailable.
    SurfaceLayerUnavailable(ModelId),
}

/// What plan compilation reads of one registered field.
#[derive(Clone, Debug, PartialEq, Eq)]
pub struct FieldRequirement {
    /// Registered field.
    pub key: FieldKey,
    /// Quality the registry guarantees for it.
    pub quality: FieldQuality,
    /// Capability its evaluation needs.
    pub required_capability: Capability,
}

/// Immutable field and dependency plan compiled before query execution.
#[derive(Clone, Debug, PartialEq, Eq)]
pub struct QueryPlan<D> {
    fields: Vec<FieldKey>,
    capabilities: CapabilitySet,
    allow_estimated: bool,
    surface_layer_model: Option<ModelId>,
    derivations: D,
    explain: ExplainMode,
}

impl<D> QueryPlan<D> {
    /// Requested fields.
    pub closed spec fn spec_fields(self) -> Seq<FieldKey> {
        self.fields@
    }

    /// Capabilities the plan requires.
    pub closed spec fn spec_capabilities(self) -> CapabilitySet {
        self.capabilities
    }

    /// Whether estimated fallbacks may be used.
    pub closed spec fn spec_allow_estimated(self) -> bool {
        self.allow_estimated
    }

    /// Selected near-surface model.
    pub closed spec fn spec_surface_layer_model(self) -> Option<ModelId> {
        self.surface_layer_model
    }

    /// Explanation policy.
    pub closed spec fn spec_explain(self) -> ExplainMode {
        self.explain
    }

    /// Derivation plan the fields are computed by.
    pub closed spec fn spec_derivations(self) -> D {
        self.derivations
    }

    /// Returns exact output fields in stable request order.
    pub fn fields(&self) -> (fields: &[FieldKey])
        ensures
            fields@ == self.spec_fields(),
    {
        self.fields.as_slice()
    }

    /// Returns all capabilities required by the plan.
    pub fn capabilities(&self) -> (capabilities: CapabilitySet)
        ensures
            capabilities == self.spec_capabilities(),
    {
        self.capabilities
    }

    /// Returns whether profiled estimated fallbacks may be used.
    pub fn allow_estimated(&self) -> (allowed: bool)
        ensures
            allowed == self.spec_allow_estimated(),
    {
        self.allow_estimated
    }

    /// Returns the selected near-surface model, if any.
    pub fn surface_layer_model(&self) -> (model: Option<&ModelId>)
        ensures
            match self.spec_surface_layer_model() {
                Some(m) => model == Some(&m),
                None => model is None,
            },
    {
        match &self.surface_layer_model {
            Some(model) => Some(model),
            None => None,
        }
    }

    /// Returns the explanation policy frozen into this plan.
    pub fn explain_mode(&self) -> (explain: ExplainMode)
        ensures
            explain == self.spec_explain(),
    {
        self.explain
    }

    /// Returns the derivation plan frozen into this plan.
    pub fn derivations(&self) -> (derivations: &D)
        ensures
            *derivations == self.spec_derivations(),
    {
        &self.derivations
    }
}

/// Two optional model identities name the same model, or both none.
pub open spec fn same_model(a: Option<ModelId>, b: Option<ModelId>) -> bool {
    match (a, b) {
        (Some(x), Some(y)) => x.0@ == y.0@,
        (None, None) => true,
        _ => false,
    }
}

/// Two plans request the same fields in the same order with the same
/// capabilities, estimation policy, surface model and explanation policy.
pub open spec fn same_request<D>(a: QueryPlan<D>, b: QueryPlan<D>) -> bool {
    &&& a.spec_fields().len() == b.spec_fields().len()
    &&& forall|i: int| 0 <= i < a.spec_fields().len() ==> same_field(#[trigger] a.spec_fields()[i], b.spec_fields()[i])
    &&& a.spec_capabilities() == b.spec_capabilities()
    &&& a.spec_allow_estimated() == b.spec_allow_estimated()
    &&& same_model(a.spec_surface_layer_model(), b.spec_surface_layer_model())
    &&& a.spec_explain() == b.spec_explain()
}

/// Two plans compile the same request with equal derivation plans.
pub open spec fn same_plan<D: PartialEq>(a: QueryPlan<D>, b: QueryPlan<D>) -> bool {
    &&& same_request(a, b)
    &&& a.spec_derivations().eq_spec(&b.spec_derivations())
}

impl<D: PartialEq> QueryPlan<D> {
    /// Whether two plans compile the same request with equal derivation
    /// plans; the derivation plans are compared by their type's `==`.
    pub fn same_as(&self, other: &QueryPlan<D>) -> (same: bool)
        ensures
            same ==> same_request(*self, *other),
            D::obeys_eq_spec() ==> same == same_plan(*self, *other),
    {
        if self.fields.len() != other.fields.len() {
            return false;
        }
        let mut k: usize = 0;
        while k < self.fields.len()
            invariant
                self.fields@.len() == other.fields@.len(),
                k <= self.fields@.len(),
                forall|i: int| 0 <= i < k ==> same_field(#[trigger] self.fields@[i], other.fields@[i]),
            decreases self.fields@.len() - k,
        {
            if !self.fields[k].same_as(&other.fields[k]) {
                return false;
            }
            k += 1;
        }
        let models = match (&self.surface_layer_model, &other.surface_layer_model) {
            (Some(x), Some(y)) => text_eq(x.0.as_str(), y.0.as_str()),
            (None, None) => true,
            _ => false,
        };
        models && self.capabilities == other.capabilities && self.allow_estimated == other.allow_estimated
            && self.explain == other.explain && self.derivations == other.derivations
    }
}

/// User-facing generic query-plan request.
#[derive(Clone, Debug, Default, PartialEq, Eq)]
pub struct QueryPlanRequest {
    /// Requested output fields in caller-selected stable order.
    pub fields: Vec<FieldKey>,
    /// Whether estimated fallbacks are acceptable.
    pub allow_estimated: bool,
    /// Optional named near-surface model.
    pub surface_layer_model: Option<ModelId>,
    /// Per-point explanation policy.
    pub explain: ExplainMode,
}

/// The first registered requirement for `field`.
pub open spec fn lookup_field(registry: Seq<FieldRequirement>, field: FieldKey) -> Option<FieldRequirement>
    decreases registry.len(),
{
    if registry.len() == 0 {
        None
    } else {
        match lookup_field(registry.drop_last(), field) {
            Some(found) => Some(found),
            None => if same_field(registry.last().key, field) {
                Some(registry.last())
            } else {
                None
            },
        }
    }
}

/// The capabilities a set holds.
pub open spec fn capability_set(set: CapabilitySet) -> Set<Capability> {
    Set::new(|c: Capability| set.has(c))
}

/// Checking the first `n` requested fields in order: the first duplicate,
/// unknown or forbidden estimated field, or else the capabilities they need
/// on top of transport.
pub open spec fn field_scan(registry: Seq<FieldRequirement>, fields: Seq<FieldKey>, allow_estimated: bool, n: int)
    -> Result<Set<Capability>, QueryPlanError>
    decreases n,
{
    if n <= 0 {
        Ok(set![Capability::Transport])
    } else {
        match field_scan(registry, fields, allow_estimated, n - 1) {
            Err(error) => Err(error),
            Ok(required) => {
                let field = fields[n - 1];
                if exists|j: int| 0 <= j < n - 1 && same_field(#[trigger] fields[j], field) {
                    Err(QueryPlanError::DuplicateField(field))
                } else {
                    match lookup_field(registry, field) {
                        None => Err(QueryPlanError::UnknownField(field)),
                        Some(descriptor) => if !allow_estimated && descriptor.quality == FieldQuality::Estimated {
                            Err(QueryPlanError::EstimatedFieldForbidden(field))
                        } else {
                            Ok(required.insert(descriptor.required_capability))
                        },
                    }
                }
            },
        }
    }
}

/// The capabilities that the first `n` fields need on top of transport.
pub open spec fn needed_capability(registry: Seq<FieldRequirement>, fields: Seq<FieldKey>, n: int, c: Capability) -> bool {
    c == Capability::Transport || exists|i: int| 0 <= i < n && (#[trigger] lookup_field(registry, fields[i])) is Some
        && lookup_field(registry, fields[i])->Some_0.required_capability == c
}

proof fn lemma_scan_accepts(registry: Seq<FieldRequirement>, fields: Seq<FieldKey>, allow_estimated: bool, n: int)
    requires
        0 <= n <= fields.len(),
        forall|i: int, j: int| 0 <= i < j < fields.len() ==> !same_field(#[trigger] fields[i], #[trigger] fields[j]),
        forall|i: int| 0 <= i < fields.len() ==> (#[trigger] lookup_field(registry, fields[i])) is Some,
        forall|i: int| 0 <= i < fields.len() ==> (#[trigger] lookup_field(registry, fields[i]))->Some_0.quality
            != FieldQuality::Estimated,
    ensures
        field_scan(registry, fields, allow_estimated, n) is Ok,
        forall|c: Capability| #[trigger] field_scan(registry, fields, allow_estimated, n)->Ok_0.contains(c)
            <==> needed_capability(registry, fields, n, c),
    decreases n,
{
    if n > 0 {
        lemma_scan_accepts(registry, fields, allow_estimated, n - 1);
        let field = fields[n - 1];
        assert(!exists|j: int| 0 <= j < n - 1 && same_field(#[trigger] fields[j], field)) by {
            if exists|j: int| 0 <= j < n - 1 && same_field(#[trigger] fields[j], field) {
                let j = choose|j: int| 0 <= j < n - 1 && same_field(#[trigger] fields[j], field);
                assert(!same_field(fields[j], fields[n - 1]));
            }
        }
        assert(lookup_field(registry, fields[n - 1]) is Some);
        let required = field_scan(registry, fields, allow_estimated, n - 1)->Ok_0;
        let d = lookup_field(registry, fields[n - 1])->Some_0;
        assert forall|c: Capability| #[trigger] required.insert(d.required_capability).contains(c)
            <==> needed_capability(registry, fields, n, c) by {
            if needed_capability(registry, fields, n, c) && c != Capability::Transport && c != d.required_capability {
                let i = choose|i: int| 0 <= i < n && (#[trigger] lookup_field(registry, fields[i])) is Some
                    && lookup_field(registry, fields[i])->Some_0.required_capability == c;
                assert(i != n - 1);
                assert(needed_capability(registry, fields, n - 1, c));
            }
            if required.contains(c) && c != Capability::Transport {
                let i = choose|i: int| 0 <= i < n - 1 && (#[trigger] lookup_field(registry, fields[i])) is Some
                    && lookup_field(registry, fields[i])->Some_0.required_capability == c;
                assert(needed_capability(registry, fields, n, c));
            }
        }
    }
}

/// A request is refused for a field's quality only when that field is
/// registered as estimated: whether estimates are allowed or not, distinct
/// registered fields of source or derived quality with no surface-layer
/// model compile to the capabilities that transport and those fields need,
/// and, when the catalog guarantees all of them, to a plan of exactly those
/// fields.
pub proof fn lemma_source_and_derived_fields_compile<D: Clone>(
    registry: Seq<FieldRequirement>,
    available: CapabilitySet,
    models: Seq<ModelId>,
    derivations: D,
    fields: Seq<FieldKey>,
    allow_estimated: bool,
    explain: ExplainMode,
    result: Result<QueryPlan<D>, QueryPlanError>,
)
    requires
        fields.len() > 0,
        forall|i: int, j: int| 0 <= i < j < fields.len() ==> !same_field(#[trigger] fields[i], #[trigger] fields[j]),
        forall|i: int| 0 <= i < fields.len() ==> (#[trigger] lookup_field(registry, fields[i])) is Some
            && (lookup_field(registry, fields[i])->Some_0.quality == FieldQuality::Source
                || lookup_field(registry, fields[i])->Some_0.quality == FieldQuality::Derived),
    ensures
        plan_requirements(registry, models, fields, allow_estimated, None) is Ok,
        forall|c: Capability| #[trigger] plan_requirements(registry, models, fields, allow_estimated, None)->Ok_0.contains(c)
            <==> needed_capability(registry, fields, fields.len() as int, c),
        (forall|c: Capability| needed_capability(registry, fields, fields.len() as int, c) ==> #[trigger] available.has(c))
            && plan_result(registry, available, models, derivations, fields, allow_estimated, None, explain, result)
            ==> (result matches Ok(plan) && plan.spec_fields() == fields),
{
    assert forall|i: int| 0 <= i < fields.len() implies (#[trigger] lookup_field(registry, fields[i])) is Some
        && lookup_field(registry, fields[i])->Some_0.quality != FieldQuality::Estimated by {
        assert(lookup_field(registry, fields[i]) is Some);
    }
    lemma_scan_accepts(registry, fields, allow_estimated, fields.len() as int);
    let required = field_scan(registry, fields, allow_estimated, fields.len() as int)->Ok_0;
    if forall|c: Capability| needed_capability(registry, fields, fields.len() as int, c) ==> #[trigger] available.has(c) {
        assert forall|c: Capability| required.contains(c) implies #[trigger] capability_set(available).contains(c) by {
            assert(needed_capability(registry, fields, fields.len() as int, c));
            assert(available.has(c));
        }
        assert(required.subset_of(capability_set(available)));
    }
}

/// Whether `model` is registered.
pub open spec fn model_registered(models: Seq<ModelId>, model: ModelId) -> bool {
    exists|i: int| 0 <= i < models.len() && (#[trigger] models[i]).0@ == model.0@
}

/// Every check of plan compilation before the capability test, in order:
/// the first failure, or the capabilities the plan requires.
pub open spec fn plan_requirements(
    registry: Seq<FieldRequirement>,
    models: Seq<ModelId>,
    fields: Seq<FieldKey>,
    allow_estimated: bool,
    surface_layer_model: Option<ModelId>,
) -> Result<Set<Capability>, QueryPlanError> {
    if fields.len() == 0 {
        Err(QueryPlanError::EmptyFieldSet)
    } else {
        match field_scan(registry, fields, allow_estimated, fields.len() as int) {
            Err(error) => Err(error),
            Ok(scanned) => match surface_layer_model {
                Some(model) => if model_registered(models, model) {
                    Ok(scanned.insert(Capability::NearSurfaceTransport))
                } else {
                    Err(QueryPlanError::SurfaceLayerUnavailable(model))
                },
                None => Ok(scanned),
            },
        }
    }
}

/// `result` is what compiling a request for `fields`, with its estimation,
/// model and explanation choices, yields when the catalog guarantees
/// `available`.
pub open spec fn plan_result<D: Clone>(
    registry: Seq<FieldRequirement>,
    available: CapabilitySet,
    models: Seq<ModelId>,
    derivations: D,
    fields: Seq<FieldKey>,
    allow_estimated: bool,
    surface_layer_model: Option<ModelId>,
    explain: ExplainMode,
    result: Result<QueryPlan<D>, QueryPlanError>,
) -> bool {
    match plan_requirements(registry, models, fields, allow_estimated, surface_layer_model) {
        Err(error) => result == Err::<QueryPlan<D>, QueryPlanError>(error),
        Ok(required) => if required.subset_of(capability_set(available)) {
            &&& result matches Ok(plan)
            &&& plan.spec_fields() == fields
            &&& capability_set(plan.spec_capabilities()) == required
            &&& plan.spec_allow_estimated() == allow_estimated
            &&& plan.spec_surface_layer_model() == surface_layer_model
            &&& plan.spec_explain() == explain
            &&& cloned(derivations, plan.spec_derivations())
        } else {
            &&& result matches Err(QueryPlanError::MissingCapabilities { required: r, available: a })
            &&& capability_set(r) == required
            &&& a == available
        },
    }
}

/// Builder backed by already-validated registries: the registered fields,
/// the capabilities the catalog guarantees, and the registered
/// surface-layer models.
pub struct QueryPlanBuilder<'a, M, D> {
    fields: &'a [FieldRequirement],
    available_capabilities: CapabilitySet,
    surface_layers: &'a SurfaceLayerRegistry<M>,
    derivations: &'a D,
}

impl<'a, M, D: Clone> QueryPlanBuilder<'a, M, D> {
    /// Registered field requirements.
    pub closed spec fn spec_registry(self) -> Seq<FieldRequirement> {
        self.fields@
    }

    /// Capabilities the catalog guarantees.
    pub closed spec fn spec_available(self) -> CapabilitySet {
        self.available_capabilities
    }

    /// Registered surface-layer models.
    pub closed spec fn spec_models(self) -> Seq<ModelId> {
        self.surface_layers.spec_ids()
    }

    /// The dependency plan every compiled plan carries.
    pub closed spec fn spec_derivations(self) -> D {
        *self.derivations
    }

    /// Creates a compiler over immutable registries and one dependency plan.
    pub fn new(
        fields: &'a [FieldRequirement],
        available_capabilities: CapabilitySet,
        surface_layers: &'a SurfaceLayerRegistry<M>,
        derivations: &'a D,
    ) -> (builder: Self)
        ensures
            builder.spec_registry() == fields@,
            builder.spec_available() == available_capabilities,
            builder.spec_models() == surface_layers.spec_ids(),
            builder.spec_derivations() == *derivations,
    {
        QueryPlanBuilder { fields, available_capabilities, surface_layers, derivations }
    }

    /// The registered requirement of `field`, if it is registered.
    fn lookup(&self, field: &FieldKey) -> (found: Option<&'a FieldRequirement>)
        ensures
            match lookup_field(self.fields@, *field) {
                Some(d) => found == Some(&d),
                None => found is None,
            },
    {
        let mut k: usize = 0;
        while k < self.fields.len()
            invariant
                k <= self.fields@.len(),
                lookup_field(self.fields@.take(k as int), *field) is None,
            decreases self.fields@.len() - k,
        {
            proof {
                assert(self.fields@.take(k + 1).drop_last() =~= self.fields@.take(k as int));
            }
            if self.fields[k].key.same_as(field) {
                proof {
                    lemma_lookup_prefix(self.fields@, *field, k + 1);
                }
                return Some(&self.fields[k]);
            }
            k += 1;
        }
        proof {
            assert(self.fields@.take(k as int) =~= self.fields@);
        }
        None
    }

    /// Whether `model` is registered.
    fn has_model(&self, model: &ModelId) -> (registered: bool)
        ensures
            registered == model_registered(self.spec_models(), *model),
    {
        let registered = self.surface_layers.contains(model);
        proof {
            let ids = self.surface_layers.spec_ids();
            let entries = self.surface_layers.spec_models();
            if registered {
                let i = model_position(entries, *model)->Some_0;
                assert(ids[i] == entries[i].0);
            } else if model_registered(ids, *model) {
                let i = choose|i: int| 0 <= i < ids.len() && (#[trigger] ids[i]).0@ == model.0@;
                assert(ids[i] == entries[i].0);
            }
        }
        registered
    }

    /// Compiles and validates all dependencies before preparation begins:
    /// a non-empty field list, no duplicate, every field registered, no
    /// estimated field unless admitted, a registered surface-layer model when
    /// one is named, and every required capability available.
    pub fn build(&self, request: QueryPlanRequest) -> (result: Result<QueryPlan<D>, QueryPlanError>)
        ensures
            plan_result(
                self.spec_registry(),
                self.spec_available(),
                self.spec_models(),
                self.spec_derivations(),
                request.fields@,
                request.allow_estimated,
                request.surface_layer_model,
                request.explain,
                result,
            ),
    {
        if request.fields.len() == 0 {
            return Err(QueryPlanError::EmptyFieldSet);
        }
        let ghost fields = request.fields@;
        let mut required = CapabilitySet::new().with(Capability::Transport);
        let mut k: usize = 0;
        proof {
            assert(capability_set(required) =~= set![Capability::Transport]);
        }
        while k < request.fields.len()
            invariant
                fields == request.fields@,
                k <= fields.len(),
                field_scan(self.fields@, fields, request.allow_estimated, k as int) == Ok::<Set<Capability>, QueryPlanError>(capability_set(required)),
            decreases fields.len() - k,
        {
            let field = &request.fields[k];
            let mut j: usize = 0;
            while j < k
                invariant
                    fields == request.fields@,
                    j <= k < fields.len(),
                    *field == fields[k as int],
                    forall|q: int| 0 <= q < j ==> !same_field(#[trigger] fields[q], fields[k as int]),
                    field_scan(self.fields@, fields, request.allow_estimated, k as int) == Ok::<Set<Capability>, QueryPlanError>(capability_set(required)),
                decreases k - j,
            {
                if request.fields[j].same_as(field) {
                    let duplicate = field.clone();
                    proof {
                        assert(same_field(fields[j as int], fields[k as int]));
                        assert(exists|q: int| 0 <= q < k && same_field(#[trigger] fields[q], fields[k as int]));
                        assert(field_scan(self.fields@, fields, request.allow_estimated, k + 1)
                            == Err::<Set<Capability>, QueryPlanError>(QueryPlanError::DuplicateField(fields[k as int])));
                        lemma_scan_failure_persists(self.fields@, fields, request.allow_estimated, k + 1, fields.len() as int);
                    }
                    return Err(QueryPlanError::DuplicateField(duplicate));
                }
                j += 1;
            }
            let descriptor = match self.lookup(field) {
                Some(descriptor) => descriptor,
                None => {
                    let unknown = field.clone();
                    proof {
                        lemma_scan_failure_persists(self.fields@, fields, request.allow_estimated, k + 1, fields.len() as int);
                    }
                    return Err(QueryPlanError::UnknownField(unknown));
                },
            };
            if !request.allow_estimated && descriptor.quality == FieldQuality::Estimated {
                let forbidden = field.clone();
                proof {
                    lemma_scan_failure_persists(self.fields@, fields, request.allow_estimated, k + 1, fields.len() as int);
                }
                return Err(QueryPlanError::EstimatedFieldForbidden(forbidden));
            }
            let ghost before = capability_set(required);
            required.insert(descriptor.required_capability);
            proof {
                assert(capability_set(required) =~= before.insert(descriptor.required_capability));
            }
            k += 1;
        }
        let ghost scanned = capability_set(required);
        match &request.surface_layer_model {
            Some(model) => {
                if !self.has_model(model) {
                    return Err(QueryPlanError::SurfaceLayerUnavailable(model.clone()));
                }
                required.insert(Capability::NearSurfaceTransport);
                proof {
                    assert(capability_set(required) =~= scanned.insert(Capability::NearSurfaceTransport));
                }
            },
            None => {},
        }
        if !self.available_capabilities.contains_all(required) {
            proof {
                let c = choose|c: Capability| required.has(c) && !self.available_capabilities.has(c);
                assert(capability_set(required).contains(c));
            }
            return Err(QueryPlanError::MissingCapabilities { required, available: self.available_capabilities });
        }
        Ok(QueryPlan {
            fields: request.fields,
            capabilities: required,
            allow_estimated: request.allow_estimated,
            surface_layer_model: request.surface_layer_model,
            derivations: self.derivations.clone(),
            explain: request.explain,
        })
    }
}

/// Request for the fixed complete transport plan.
#[derive(Clone, Debug, PartialEq, Eq)]
pub struct TransportPlanRequest {
    /// Whether explicitly profiled estimated inputs may be used.
    pub allow_estimated: bool,
    /// Selected near-surface implementation.
    pub surface_layer_model: ModelId,
    /// Per-point explanation policy.
    pub explain: ExplainMode,
}

/// Identity of the default near-surface model.
pub open spec fn default_surface_model_id() -> Seq<char> {
    "surface_layer/monin_obukhov_businger_dyer/v0"@
}

impl Default for TransportPlanRequest {
    fn default() -> (request: Self)
        ensures
            !request.allow_estimated,
            request.surface_layer_model.0@ == default_surface_model_id(),
            request.explain == ExplainMode::Disabled,
    {
        let id = String::from_str("surface_layer/monin_obukhov_businger_dyer/v0");
        TransportPlanRequest { allow_estimated: false, surface_layer_model: ModelId(id), explain: ExplainMode::Disabled }
    }
}

/// Strongly typed fixed field plan consumed by the transport integrator.
#[derive(Clone, Debug, PartialEq, Eq)]
pub struct TransportPlan<D> {
    query: QueryPlan<D>,
}

impl<D> TransportPlan<D> {
    /// The underlying generic query plan.
    pub closed spec fn spec_query(self) -> QueryPlan<D> {
        self.query
    }

    /// Returns the underlying immutable generic query plan.
    pub fn query_plan(&self) -> (plan: &QueryPlan<D>)
        ensures
            *plan == self.spec_query(),
    {
        &self.query
    }
}

impl<D: PartialEq> TransportPlan<D> {
    /// Whether two transport plans compile the same request with equal
    /// derivation plans.
    pub fn same_as(&self, other: &TransportPlan<D>) -> (same: bool)
        ensures
            same ==> same_request(self.spec_query(), other.spec_query()),
            D::obeys_eq_spec() ==> same == same_plan(self.spec_query(), other.spec_query()),
    {
        self.query.same_as(&other.query)
    }
}

/// The transport field keys, in contract order.
pub open spec fn transport_keys() -> Seq<FieldKey> {
    transport_field_order().map_values(|f: CanonicalField| FieldKey::Canonical(f))
}

/// The generic plan inside a transport result.
pub open spec fn transport_query<D>(result: Result<TransportPlan<D>, QueryPlanError>) -> Result<QueryPlan<D>, QueryPlanError> {
    match result {
        Ok(plan) => Ok(plan.spec_query()),
        Err(error) => Err(error),
    }
}

impl<'a, M, D: Clone> QueryPlanBuilder<'a, M, D> {
    /// Compiles the fixed transport contract: the eight transport fields with
    /// the requested near-surface model, which needs both transport
    /// capabilities.
    pub fn build_transport(&self, request: TransportPlanRequest) -> (result: Result<TransportPlan<D>, QueryPlanError>)
        ensures
            plan_result(
                self.spec_registry(),
                self.spec_available(),
                self.spec_models(),
                self.spec_derivations(),
                transport_keys(),
                request.allow_estimated,
                Some(request.surface_layer_model),
                request.explain,
                transport_query(result),
            ),
    {
        let keys = transport_fields();
        let mut fields: Vec<FieldKey> = Vec::new();
        let mut k: usize = 0;
        while k < 8
            invariant
                k <= 8,
                keys@ == transport_keys(),
                fields@ == keys@.take(k as int),
            decreases 8 - k,
        {
            fields.push(keys[k].clone());
            k += 1;
            proof {
                assert(fields@ =~= keys@.take(k as int));
            }
        }
        proof {
            assert(fields@ =~= transport_keys());
        }
        let query = match self.build(QueryPlanRequest {
            fields,
            allow_estimated: request.allow_estimated,
            surface_layer_model: Some(request.surface_layer_model),
            explain: request.explain,
        }) {
            Ok(query) => query,
            Err(error) => return Err(error),
        };
        let required = CapabilitySet::new().with(Capability::Transport).with(Capability::NearSurfaceTransport);
        if !query.capabilities.contains_all(required) {
            proof {
                let c = choose|c: Capability| required.has(c) && !query.capabilities.has(c);
                assert(capability_set(query.capabilities).contains(Capability::NearSurfaceTransport));
                lemma_scan_holds_transport(self.fields@, transport_keys(), request.allow_estimated, 8);
                assert(capability_set(query.capabilities).contains(Capability::Transport));
            }
            return Err(QueryPlanError::MissingCapabilities { required, available: query.capabilities });
        }
        Ok(TransportPlan { query })
    }
}

proof fn lemma_scan_ok_facts(registry: Seq<FieldRequirement>, fields: Seq<FieldKey>, allow_estimated: bool, n: int)
    requires
        0 <= n <= fields.len(),
        field_scan(registry, fields, allow_estimated, n) is Ok,
    ensures
        forall|i: int| 0 <= i < n ==> (#[trigger] lookup_field(registry, fields[i])) is Some,
        forall|i: int| 0 <= i < n ==> !allow_estimated ==> (#[trigger] lookup_field(registry, fields[i]))->Some_0.quality
            != FieldQuality::Estimated,
        forall|i: int, j: int| 0 <= i < j < n ==> !same_field(#[trigger] fields[i], #[trigger] fields[j]),
        field_scan(registry, fields, allow_estimated, n)->Ok_0.contains(Capability::Transport),
        forall|i: int| 0 <= i < n ==> field_scan(registry, fields, allow_estimated, n)->Ok_0.contains(
            (#[trigger] lookup_field(registry, fields[i]))->Some_0.required_capability),
    decreases n,
{
    if n > 0 {
        lemma_scan_ok_facts(registry, fields, allow_estimated, n - 1);
        assert forall|i: int, j: int| 0 <= i < j < n implies !same_field(#[trigger] fields[i], #[trigger] fields[j]) by {
            if j == n - 1 && same_field(fields[i], fields[j]) {
                assert(exists|q: int| 0 <= q < n - 1 && same_field(#[trigger] fields[q], fields[n - 1]));
            }
        }
    }
}

/// A compiled plan names each field once, every field registered, no
/// estimated field unless admitted, and requires transport, the capability of
/// each field, and near-surface transport when it names a surface model.
pub proof fn lemma_compiled_plan_is_consistent(
    registry: Seq<FieldRequirement>,
    models: Seq<ModelId>,
    fields: Seq<FieldKey>,
    allow_estimated: bool,
    surface_layer_model: Option<ModelId>,
)
    requires
        plan_requirements(registry, models, fields, allow_estimated, surface_layer_model) is Ok,
    ensures
        ({
            let required = plan_requirements(registry, models, fields, allow_estimated, surface_layer_model)->Ok_0;
            &&& fields.len() > 0
            &&& forall|i: int, j: int| 0 <= i < j < fields.len() ==> !same_field(#[trigger] fields[i], #[trigger] fields[j])
            &&& forall|i: int| 0 <= i < fields.len() ==> (#[trigger] lookup_field(registry, fields[i])) is Some
            &&& forall|i: int| 0 <= i < fields.len() && !allow_estimated
                ==> (#[trigger] lookup_field(registry, fields[i]))->Some_0.quality != FieldQuality::Estimated
            &&& forall|i: int| 0 <= i < fields.len()
                ==> required.contains((#[trigger] lookup_field(registry, fields[i]))->Some_0.required_capability)
            &&& required.contains(Capability::Transport)
            &&& surface_layer_model is Some ==> required.contains(Capability::NearSurfaceTransport)
                && model_registered(models, surface_layer_model->Some_0)
        }),
{
    lemma_scan_ok_facts(registry, fields, allow_estimated, fields.len() as int);
}

/// A successful scan always requires transport.
proof fn lemma_scan_holds_transport(registry: Seq<FieldRequirement>, fields: Seq<FieldKey>, allow_estimated: bool, n: int)
    ensures
        field_scan(registry, fields, allow_estimated, n) matches Ok(required) ==> required.contains(Capability::Transport),
    decreases n,
{
    if n > 0 {
        lemma_scan_holds_transport(registry, fields, allow_estimated, n - 1);
    }
}

/// Once a field fails the scan, the scan of every longer prefix fails the same way.
proof fn lemma_scan_failure_persists(registry: Seq<FieldRequirement>, fields: Seq<FieldKey>, allow_estimated: bool, m: int, n: int)
    requires
        0 <= m <= n,
        field_scan(registry, fields, allow_estimated, m) is Err,
    ensures
        field_scan(registry, fields, allow_estimated, n) == field_scan(registry, fields, allow_estimated, m),
    decreases n - m,
{
    if m < n {
        lemma_scan_failure_persists(registry, fields, allow_estimated, m, n - 1);
    }
}

/// The first `n` registry entries resolve `field` to the entry the whole
/// registry resolves it to, once a match lies among them.
proof fn lemma_lookup_prefix(registry: Seq<FieldRequirement>, field: FieldKey, n: int)
    requires
        0 < n <= registry.len(),
        lookup_field(registry.take(n - 1), field) is None,
        same_field(registry[n - 1].key, field),
    ensures
        lookup_field(registry, field) == Some(registry[n - 1]),
    decreases registry.len(),
{
    if registry.len() == n {
        assert(registry.drop_last() =~= registry.take(n - 1));
    } else {
        assert(registry.drop_last().take(n - 1) =~= registry.take(n - 1));
        assert(registry.drop_last()[n - 1] == registry[n - 1]);
        lemma_lookup_prefix(registry.drop_last(), field, n);
    }
}

} // verus!
