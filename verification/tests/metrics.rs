use std::sync::Arc;

use sha2::Digest;
use trajecta_met::field::ModelId;
use trajecta_met::model::{DomainId, Timestamp};
use trajecta_met::query::metrics::{exact_key_preimage_bytes, exact_key_sha256, ExactKeyRequest};
use trajecta_met::query::request::ExplainMode;

use trajecta_met::query::metrics::{
    active_query_counters, active_query_origin, clear_query_counters, install_query_counters, vertical_tag,
    ExactQueryKey, QueryCallCounters, QueryCounterSlot, QueryOrigin, QueryOriginScope, QueryOriginSlot,
};
use trajecta_met::query::request::VerticalQuery;

#[test]
fn origin_scope_restores_previous_value() {
    let mut slot = QueryOriginSlot::new();
    assert_eq!(active_query_origin(&slot), QueryOrigin::Unclassified);
    {
        let scope = QueryOriginScope::enter(&mut slot, QueryOrigin::Integrator);
        assert_eq!(active_query_origin(&slot), QueryOrigin::Integrator);
        scope.exit(&mut slot);
    }
    assert_eq!(active_query_origin(&slot), QueryOrigin::Unclassified);
}

#[test]
fn particle_loop_exact_tracking_is_bounded_to_bulk_origins() {
    let mut counters = QueryCallCounters::new();
    let key = ExactQueryKey::new([7; 32], QueryOrigin::Integrator);
    counters.record_execution(key);
    counters.record_execution(key);
    counters.record_exact_key_reuse(ExactQueryKey::new([8; 32], QueryOrigin::Output));
    let boundary = ExactQueryKey::new([9; 32], QueryOrigin::Boundary);
    counters.record_execution(boundary);
    counters.record_execution(boundary);
    let snapshot = counters.snapshot();
    assert_eq!(snapshot.particle_loop_exact.repeated_exact_executions, 1);
    assert_eq!(snapshot.exact_key_reuses, 1);
    assert_eq!(snapshot.origin(QueryOrigin::Boundary).unwrap().executed_batches, 2);
}

#[test]
fn nested_scopes_unwind_in_order() {
    let mut slot = QueryOriginSlot::new();
    let outer = QueryOriginScope::enter(&mut slot, QueryOrigin::Boundary);
    let inner = QueryOriginScope::enter(&mut slot, QueryOrigin::BoundaryCorners);
    assert_eq!(slot.active(), QueryOrigin::BoundaryCorners);
    inner.exit(&mut slot);
    assert_eq!(slot.active(), QueryOrigin::Boundary);
    outer.exit(&mut slot);
    assert_eq!(slot.active(), QueryOrigin::Unclassified);
}

#[test]
fn origin_codes_and_categories_are_stable() {
    let expected = [
        (QueryOrigin::Unclassified, "unclassified", false, true),
        (QueryOrigin::Integrator, "integrator", true, true),
        (QueryOrigin::Output, "output", true, true),
        (QueryOrigin::OutputLifecycle, "output_lifecycle", false, false),
        (QueryOrigin::Boundary, "boundary", false, false),
        (QueryOrigin::BoundaryCorners, "boundary_corners", false, false),
        (QueryOrigin::PopulationVertical, "population_vertical", false, false),
    ];
    for (rank, (origin, code, particle, populates)) in expected.into_iter().enumerate() {
        assert_eq!(origin.code(), code);
        assert_eq!(origin.is_particle_loop(), particle);
        assert_eq!(origin.populates_transport_cache(), populates);
        assert_eq!(origin.rank(), rank);
        assert_eq!(QueryOrigin::from_rank(rank), origin);
    }
}

#[test]
fn counters_slot_installs_shares_and_clears() {
    let mut slot: QueryCounterSlot<u32> = QueryCounterSlot::new();
    assert!(active_query_counters(&slot).is_none());
    let counters = Arc::new(17u32);
    install_query_counters(&mut slot, Arc::clone(&counters));
    let active = active_query_counters(&slot).unwrap();
    assert!(Arc::ptr_eq(&active, &counters));
    assert_eq!(Arc::strong_count(&counters), 3);
    clear_query_counters(&mut slot);
    assert!(active_query_counters(&slot).is_none());
}

#[test]
fn logical_requests_keep_digests_only_for_the_particle_loop() {
    let mut counters = QueryCallCounters::new();
    let request = sample_request();
    let integrator = counters.record_logical_request(QueryOrigin::Integrator, &request);
    let boundary = counters.record_logical_request(QueryOrigin::Boundary, &request);
    assert_eq!(integrator.origin(), QueryOrigin::Integrator);
    let digest: [u8; 32] = sha2::Sha256::digest(exact_key_preimage_bytes(&request)).into();
    let expected: String = digest.iter().map(|byte| format!("{byte:02x}")).collect();
    assert_eq!(integrator.sha256(), expected);
    assert_eq!(boundary.sha256(), "00".repeat(32));
    let snapshot = counters.snapshot();
    assert_eq!(snapshot.logical_requests, 2);
    assert_eq!(snapshot.executed_batches, 0);
    assert_eq!(snapshot.by_origin.len(), 2);
    assert_eq!(snapshot.by_origin[0].0, QueryOrigin::Integrator);
    assert_eq!(snapshot.by_origin[1].0, QueryOrigin::Boundary);
    assert!(snapshot.origin(QueryOrigin::Output).is_none());
}

#[test]
fn first_repeated_particle_key_is_reported_in_hex() {
    let mut counters = QueryCallCounters::new();
    let mut digest = [0u8; 32];
    digest[0] = 0xab;
    digest[31] = 0x01;
    let key = ExactQueryKey::new(digest, QueryOrigin::Output);
    counters.record_execution(key);
    assert!(counters.snapshot().particle_loop_exact.first_repeated_executed_key.is_none());
    counters.record_execution(key);
    counters.record_execution(ExactQueryKey::new([5; 32], QueryOrigin::Integrator));
    let snapshot = counters.snapshot();
    let text = snapshot.particle_loop_exact.first_repeated_executed_key.unwrap();
    assert_eq!(text.len(), 64);
    assert!(text.starts_with("ab00"));
    assert!(text.ends_with("0001"));
    assert_eq!(snapshot.particle_loop_exact.unique_exact_keys, 2);
    assert_eq!(snapshot.executed_batches, 3);
}

#[test]
fn vertical_tags_are_frozen() {
    assert_eq!(vertical_tag(VerticalQuery::AboveSeaLevel), 1);
    assert_eq!(vertical_tag(VerticalQuery::AboveGround), 2);
    assert_eq!(vertical_tag(VerticalQuery::Pressure), 3);
}

fn framed(out: &mut Vec<u8>, bytes: &[u8]) {
    out.extend_from_slice(&(bytes.len() as u64).to_le_bytes());
    out.extend_from_slice(bytes);
}

fn sample_request() -> ExactKeyRequest {
    ExactKeyRequest {
        query_time: Timestamp { seconds: -5, nanosecond: 250 },
        domain: DomainId("global".into()),
        vertical_coordinate: VerticalQuery::Pressure,
        allow_estimated: true,
        explain: ExplainMode::Full,
        capabilities_text: "caps".into(),
        surface_layer_model: Some(ModelId("most".into())),
        derivations_text: "plan".into(),
        field_texts: vec!["u".into(), "v".into()],
        longitude_bits: vec![1.5f64.to_bits(), (-0.0f64).to_bits()],
        latitude_bits: vec![2.0f64.to_bits(), 0.0f64.to_bits()],
        vertical_bits: vec![85_000.0f64.to_bits(), 50_000.0f64.to_bits()],
    }
}

#[test]
fn exact_key_stream_frames_every_component() {
    let request = sample_request();
    let mut expected = b"trajecta.exact-batch-query-key/v2\0".to_vec();
    expected.extend_from_slice(&(-5i64).to_le_bytes());
    expected.extend_from_slice(&250u32.to_le_bytes());
    framed(&mut expected, b"global");
    expected.extend_from_slice(&[3, 1, 1]);
    framed(&mut expected, b"caps");
    framed(&mut expected, b"most");
    framed(&mut expected, b"plan");
    expected.extend_from_slice(&2u64.to_le_bytes());
    framed(&mut expected, b"u");
    framed(&mut expected, b"v");
    expected.extend_from_slice(&2u64.to_le_bytes());
    for i in 0..2 {
        expected.extend_from_slice(&request.longitude_bits[i].to_le_bytes());
        expected.extend_from_slice(&request.latitude_bits[i].to_le_bytes());
        expected.extend_from_slice(&request.vertical_bits[i].to_le_bytes());
    }
    assert_eq!(exact_key_preimage_bytes(&request), expected);
    let digest: [u8; 32] = sha2::Sha256::digest(&expected).into();
    assert_eq!(exact_key_sha256(&request), digest);
}

#[test]
fn exact_key_distinguishes_signed_zero() {
    let request = sample_request();
    let mut flipped = sample_request();
    flipped.longitude_bits[1] = 0.0f64.to_bits();
    assert_ne!(exact_key_sha256(&request), exact_key_sha256(&flipped));
    let mut without_model = sample_request();
    without_model.surface_layer_model = None;
    assert_ne!(exact_key_sha256(&request), exact_key_sha256(&without_model));
}
