use std::sync::Arc;

use trajecta_met::field::{Capability, CapabilitySet, FieldQuality, ModelId};
use trajecta_met::model::{DomainId, LogicalFrameId, Timestamp};
use trajecta_met::query::cache::{select_ordered_subset, ExactTransportCacheKey, ExactTransportWindowKey};
use trajecta_met::query::request::{
    transport_fields, ExplainMode, FieldRequirement, QueryPlanBuilder, TransportPlan, TransportPlanRequest, VerticalQuery,
};
use trajecta_met::surface_layer::SurfaceLayerRegistry;

const MODEL: &str = "surface_layer/monin_obukhov_businger_dyer/v0";

fn frame(content: &str) -> LogicalFrameId {
    LogicalFrameId {
        domain: DomainId("global".into()),
        valid_time: Timestamp { seconds: 3_600, nanosecond: 0 },
        profile_sha256: "profile".into(),
        content_sha256: content.into(),
    }
}

fn window(after: &str) -> ExactTransportWindowKey {
    ExactTransportWindowKey {
        query_time: Timestamp { seconds: 1_800, nanosecond: 0 },
        domain: DomainId("global".into()),
        before_frame: frame("a"),
        after_frame: frame(after),
        previous_frame: None,
        next_frame: None,
        before_weight_bits: 0.5f64.to_bits(),
        after_weight_bits: 0.5f64.to_bits(),
    }
}

fn plan_with(explain: ExplainMode, derivations: &Vec<String>) -> TransportPlan<Vec<String>> {
    let registry: Vec<FieldRequirement> = transport_fields()
        .into_iter()
        .map(|key| FieldRequirement { key, quality: FieldQuality::Source, required_capability: Capability::Transport })
        .collect();
    let mut models = SurfaceLayerRegistry::new();
    models.register(ModelId(MODEL.into()), Arc::new(())).unwrap();
    let available = CapabilitySet::new().with(Capability::Transport).with(Capability::NearSurfaceTransport);
    QueryPlanBuilder::new(&registry, available, &models, derivations)
        .build_transport(TransportPlanRequest { explain, ..TransportPlanRequest::default() })
        .unwrap()
}

fn derivations() -> Vec<String> {
    vec!["air_density".to_string(), "potential_temperature".to_string()]
}

fn plan(explain: ExplainMode) -> TransportPlan<Vec<String>> {
    plan_with(explain, &derivations())
}

fn key(after: &str, explain: ExplainMode, longitude: &[f64]) -> ExactTransportCacheKey<Vec<String>> {
    let bits = |values: &[f64]| values.iter().map(|value| value.to_bits()).collect::<Vec<_>>();
    let latitude = vec![10.0; longitude.len()];
    let vertical = vec![100.0; longitude.len()];
    ExactTransportCacheKey::new(
        window(after),
        plan(explain),
        VerticalQuery::AboveGround,
        bits(longitude),
        bits(&latitude),
        bits(&vertical),
    )
}

#[test]
fn exact_request_reuses_every_row() {
    let cached = key("b", ExplainMode::Disabled, &[1.0, 2.0, 3.0]);
    assert_eq!(key("b", ExplainMode::Disabled, &[1.0, 2.0, 3.0]).selection_from_cached(&cached), Some(vec![0, 1, 2]));
    assert_eq!(key("b", ExplainMode::Disabled, &[1.0, 3.0]).selection_from_cached(&cached), Some(vec![0, 2]));
    assert_eq!(key("b", ExplainMode::Disabled, &[3.0, 1.0]).selection_from_cached(&cached), None);
    assert_eq!(key("b", ExplainMode::Disabled, &[1.0, 2.0, 3.0, 4.0]).selection_from_cached(&cached), None);
}

#[test]
fn window_plan_and_signed_zero_are_part_of_the_identity() {
    let cached = key("b", ExplainMode::Disabled, &[0.0, 2.0]);
    assert_eq!(key("c", ExplainMode::Disabled, &[0.0, 2.0]).selection_from_cached(&cached), None);
    assert_eq!(key("b", ExplainMode::Full, &[0.0, 2.0]).selection_from_cached(&cached), None);
    assert_eq!(key("b", ExplainMode::Disabled, &[-0.0]).selection_from_cached(&cached), None);
    assert_eq!(key("b", ExplainMode::Disabled, &[0.0]).selection_from_cached(&cached), Some(vec![0]));
}

#[test]
fn ordered_subset_selection_takes_the_leftmost_match() {
    let points = [5u64, 7, 5, 9];
    let same = [1u64, 1, 1, 1];
    assert_eq!(select_ordered_subset(&[5, 9], &[1, 1], &[1, 1], &points, &same, &same), Some(vec![0, 3]));
    assert_eq!(select_ordered_subset(&[5, 5], &[1, 1], &[1, 1], &points, &same, &same), Some(vec![0, 2]));
    assert_eq!(select_ordered_subset(&[9, 5], &[1, 1], &[1, 1], &points, &same, &same), None);
    assert_eq!(select_ordered_subset(&[5], &[1, 1], &[1], &points, &same, &same), None);
    assert_eq!(select_ordered_subset(&[], &[], &[], &points, &same, &same), Some(vec![]));
}

#[test]
fn plans_with_other_derivations_never_share_cached_rows() {
    let bits = |values: &[f64]| values.iter().map(|value| value.to_bits()).collect::<Vec<_>>();
    let cached = key("b", ExplainMode::Disabled, &[1.0, 2.0]);
    let other_plan = plan_with(ExplainMode::Disabled, &vec!["air_density".to_string()]);
    assert!(!other_plan.same_as(&plan(ExplainMode::Disabled)));
    let requested = ExactTransportCacheKey::new(
        window("b"),
        other_plan,
        VerticalQuery::AboveGround,
        bits(&[1.0]),
        bits(&[10.0]),
        bits(&[100.0]),
    );
    assert_eq!(requested.selection_from_cached(&cached), None);
    assert_eq!(key("b", ExplainMode::Disabled, &[2.0]).selection_from_cached(&cached), Some(vec![1]));
}
