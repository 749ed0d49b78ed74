use trajecta_met::field::{CanonicalField, Capability, CapabilitySet, ExtensionFieldId, FieldKey, FieldQuality, ModelId};
use std::sync::Arc;

use trajecta_met::surface_layer::{SurfaceLayerError, SurfaceLayerRegistry};
use trajecta_met::query::request::{
    transport_canonical_fields, transport_fields, ExplainMode, FieldRequirement, QueryPlanBuilder, QueryPlanError,
    QueryPlanRequest, TransportPlanRequest,
};

const MODEL: &str = "surface_layer/monin_obukhov_businger_dyer/v0";

/// A stand-in dependency plan: the derived fields in evaluation order.
const DERIVATIONS: [&str; 2] = ["air_density", "potential_temperature"];

fn transport_registry() -> Vec<FieldRequirement> {
    transport_fields()
        .into_iter()
        .map(|key| FieldRequirement { key, quality: FieldQuality::Source, required_capability: Capability::Transport })
        .collect()
}

fn models() -> SurfaceLayerRegistry<u8> {
    let mut models = SurfaceLayerRegistry::new();
    models.register(ModelId(MODEL.into()), Arc::new(0u8)).unwrap();
    models
}

fn request(fields: Vec<FieldKey>) -> QueryPlanRequest {
    QueryPlanRequest { fields, allow_estimated: false, surface_layer_model: None, explain: ExplainMode::Disabled }
}

#[test]
fn transport_plan_requires_both_capabilities_and_surface_model() {
    let registry = transport_registry();
    let models = models();
    let only_transport = CapabilitySet::new().with(Capability::Transport);
    let builder = QueryPlanBuilder::new(&registry, only_transport, &models, &DERIVATIONS);
    assert!(matches!(
        builder.build_transport(TransportPlanRequest::default()),
        Err(QueryPlanError::MissingCapabilities { .. })
    ));

    let available = only_transport.with(Capability::NearSurfaceTransport);
    let builder = QueryPlanBuilder::new(&registry, available, &models, &DERIVATIONS);
    let plan = builder.build_transport(TransportPlanRequest::default()).unwrap();
    assert_eq!(plan.query_plan().fields(), transport_fields());
    assert!(!plan.query_plan().allow_estimated());
}

#[test]
fn generic_surface_field_still_requires_transport_column_support() {
    let canonical = CanonicalField::BoundaryLayerHeight;
    let registry = vec![FieldRequirement {
        key: FieldKey::Canonical(canonical),
        quality: FieldQuality::Source,
        required_capability: Capability::NearSurfaceTransport,
    }];
    let models: SurfaceLayerRegistry<u8> = SurfaceLayerRegistry::new();
    let builder = QueryPlanBuilder::new(&registry, CapabilitySet::new().with(Capability::NearSurfaceTransport), &models, &DERIVATIONS);
    assert!(matches!(
        builder.build(request(vec![FieldKey::Canonical(canonical)])),
        Err(QueryPlanError::MissingCapabilities { .. })
    ));
}

#[test]
fn plan_checks_fields_in_order() {
    let mut registry = transport_registry();
    let estimated = FieldKey::Extension(ExtensionFieldId { namespace: "lab".into(), name: "guess".into() });
    registry.push(FieldRequirement {
        key: estimated.clone(),
        quality: FieldQuality::Estimated,
        required_capability: Capability::Diagnostics,
    });
    let models = models();
    let all = CapabilitySet::new()
        .with(Capability::Transport)
        .with(Capability::NearSurfaceTransport)
        .with(Capability::Diagnostics);
    let builder = QueryPlanBuilder::new(&registry, all, &models, &DERIVATIONS);
    let wind = FieldKey::Canonical(CanonicalField::EastwardWind);
    assert_eq!(builder.build(request(Vec::new())), Err(QueryPlanError::EmptyFieldSet));
    assert_eq!(builder.build(request(vec![wind.clone(), wind.clone()])), Err(QueryPlanError::DuplicateField(wind.clone())));
    let unknown = FieldKey::Canonical(CanonicalField::PotentialVorticity);
    assert_eq!(builder.build(request(vec![unknown.clone(), wind.clone()])), Err(QueryPlanError::UnknownField(unknown)));
    assert_eq!(
        builder.build(request(vec![wind.clone(), estimated.clone()])),
        Err(QueryPlanError::EstimatedFieldForbidden(estimated.clone()))
    );
    let admitted = QueryPlanRequest { allow_estimated: true, ..request(vec![wind.clone(), estimated.clone()]) };
    let plan = builder.build(admitted).unwrap();
    assert_eq!(plan.capabilities(), CapabilitySet::new().with(Capability::Transport).with(Capability::Diagnostics));
    assert!(plan.allow_estimated());
    assert_eq!(plan.surface_layer_model(), None);
    assert_eq!(plan.explain_mode(), ExplainMode::Disabled);
}

#[test]
fn named_surface_model_must_be_registered() {
    let registry = transport_registry();
    let models = models();
    let all = CapabilitySet::new().with(Capability::Transport).with(Capability::NearSurfaceTransport);
    let builder = QueryPlanBuilder::new(&registry, all, &models, &DERIVATIONS);
    let wind = FieldKey::Canonical(CanonicalField::NorthwardWind);
    let missing = ModelId("other".into());
    let unavailable = QueryPlanRequest { surface_layer_model: Some(missing.clone()), ..request(vec![wind.clone()]) };
    assert_eq!(builder.build(unavailable), Err(QueryPlanError::SurfaceLayerUnavailable(missing)));
    let named = QueryPlanRequest {
        surface_layer_model: Some(ModelId(MODEL.into())),
        explain: ExplainMode::Full,
        ..request(vec![wind])
    };
    let plan = builder.build(named).unwrap();
    assert_eq!(plan.capabilities(), all);
    assert_eq!(plan.surface_layer_model(), Some(&ModelId(MODEL.into())));
    assert_eq!(plan.explain_mode(), ExplainMode::Full);
    let missing_caps = QueryPlanBuilder::new(&registry, CapabilitySet::new(), &models, &DERIVATIONS);
    assert_eq!(
        missing_caps.build(request(vec![FieldKey::Canonical(CanonicalField::AirDensity)])),
        Err(QueryPlanError::MissingCapabilities {
            required: CapabilitySet::new().with(Capability::Transport),
            available: CapabilitySet::new(),
        })
    );
}

#[test]
fn transport_contract_lists_eight_fields_in_order() {
    let fields = transport_canonical_fields();
    assert_eq!(fields[0], CanonicalField::EastwardWind);
    assert_eq!(fields[3], CanonicalField::AirPressure);
    assert_eq!(fields[7], CanonicalField::GeometricTerrainHeight);
    assert_eq!(transport_fields()[2], FieldKey::Canonical(CanonicalField::GeometricVerticalVelocity));
    let default = TransportPlanRequest::default();
    assert_eq!(default.surface_layer_model.0, MODEL);
    assert!(!default.allow_estimated);
}

#[test]
fn surface_registry_refuses_duplicate_identifiers() {
    let mut models = models();
    assert_eq!(
        models.register(ModelId(MODEL.into()), Arc::new(1u8)),
        Err(SurfaceLayerError::DuplicateModel(ModelId(MODEL.into())))
    );
    assert_eq!(models.get(&ModelId(MODEL.into())).map(|model| *model), Some(0));
    assert!(models.get(&ModelId("other".into())).is_none());
    models.register(ModelId("other".into()), Arc::new(2u8)).unwrap();
    assert_eq!(models.get(&ModelId("other".into())).map(|model| *model), Some(2));
    assert!(models.contains(&ModelId("other".into())));
}

#[test]
fn compiled_plan_carries_the_builder_dependency_plan() {
    let registry = transport_registry();
    let models = models();
    let all = CapabilitySet::new().with(Capability::Transport).with(Capability::NearSurfaceTransport);
    let plan = QueryPlanBuilder::new(&registry, all, &models, &DERIVATIONS).build_transport(TransportPlanRequest::default()).unwrap();
    assert_eq!(plan.query_plan().derivations(), &DERIVATIONS);
    let other_derivations = ["air_density"];
    let other = QueryPlanBuilder::new(&registry, all, &models, &other_derivations)
        .build(QueryPlanRequest {
            fields: transport_fields().to_vec(),
            allow_estimated: false,
            surface_layer_model: Some(ModelId(MODEL.into())),
            explain: ExplainMode::Disabled,
        })
        .unwrap();
    assert_eq!(other.derivations(), &other_derivations);
    let same = QueryPlanBuilder::new(&registry, all, &models, &DERIVATIONS)
        .build_transport(TransportPlanRequest::default())
        .unwrap();
    assert!(plan.same_as(&same));
}
