use trajecta_met::validation::report::{
    adjudicate, compare_exact_metadata, finalize_status, is_config_error_reason, precheck_slab, route_slab, Adjudication, SlabShape,
    ComparisonIdentity, ComparisonStatus, ResultRow, ResultStatus, SampleContextOwned, SideMetadata, SlabOutcome,
    SlabRoute, SlabSummary,
};
use trajecta_met::validation::tolerance::{
    check_calibration_sha256, check_registry_header, check_rule_policy, list_matches, match_rule, ordered_binary64_key, ordered_ulp_distance,
    policy_ulp_distance, sha256_bytes, summarize_ulps,
    CalibrationReportRef, Decision, ExactMetadataName, RuleMatchError, SampleContext, Selector,
};

fn strings(items: &[&str]) -> Vec<String> {
    items.iter().map(|item| item.to_string()).collect()
}

fn selector(field: &str, coordinates: &[&str]) -> Selector {
    Selector {
        dataset_families: strings(&["analytic"]),
        comparison_target: "backend_equivalence".into(),
        comparison_variant: "exact".into(),
        sample_scope: "decoded_field".into(),
        field_namespace: "canonical".into(),
        fields: strings(&[field]),
        coordinates: strings(coordinates),
        vertical_regions: strings(&["all"]),
    }
}

fn context(field: &str) -> SampleContextOwned {
    SampleContextOwned {
        dataset_family: "analytic".into(),
        comparison_target: "backend_equivalence".into(),
        comparison_variant: "exact".into(),
        sample_scope: "decoded_field".into(),
        field_namespace: "canonical".into(),
        field: field.into(),
        coordinate: "asl".into(),
        vertical_region: "upper_air".into(),
    }
}

fn comparison() -> ComparisonIdentity {
    ComparisonIdentity {
        dataset_family: "analytic".into(),
        comparison_target: "backend_equivalence".into(),
        comparison_variant: "exact".into(),
        subject_sha256: "s".into(),
        reference_sha256: "r".into(),
    }
}

fn slab(id: &str, field: &str) -> SlabSummary {
    SlabSummary { slab_id: id.into(), context: context(field) }
}

fn outcome(status: ResultStatus, decision: Decision, worst: Option<&str>) -> Option<SlabOutcome> {
    Some(SlabOutcome {
        status,
        decision,
        worst_case_id: worst.map(|w| w.to_string()),
        compared_count: 1,
        invalid_count: 0,
        numeric_failure_count: if status == ResultStatus::Fail { 1 } else { 0 },
        metadata_failure_count: 0,
        non_finite_count: 0,
    })
}

fn run(expected: &[&str], slabs: &[SlabSummary], outcomes: &[Option<SlabOutcome>], extra: &[&str]) -> Adjudication {
    let selectors = vec![selector("t", &["asl"]), selector("u", &["all"]), selector("u", &["asl"])];
    adjudicate(&strings(expected), slabs, &selectors, &comparison(), outcomes, &strings(extra))
}

#[test]
fn clean_hard_gate_pass_passes() {
    let report = run(&["c1"], &[slab("c1", "t")], &[outcome(ResultStatus::Pass, Decision::HardGate, None)], &[]);
    assert_eq!(report.status, ComparisonStatus::Passed);
    assert!(report.blockers.is_empty());
    assert_eq!(report.rows, vec![ResultRow::Evaluated(0)]);
    assert_eq!(report.coverage.observed_case_ids, strings(&["c1"]));
    assert!(report.coverage.missing_case_ids.is_empty());
}

#[test]
fn missing_case_makes_the_report_incomplete() {
    let report = run(&["c2", "c1"], &[slab("c1", "t")], &[outcome(ResultStatus::Fail, Decision::HardGate, None)], &[]);
    assert_eq!(report.status, ComparisonStatus::Incomplete);
    assert_eq!(report.blockers, strings(&["missing_case:c2"]));
    assert_eq!(report.coverage.expected_case_ids, strings(&["c1", "c2"]));
    assert_eq!(report.coverage.missing_case_ids, strings(&["c2"]));
}

#[test]
fn slab_without_rule_is_unvalidated() {
    let report = run(&["c1"], &[slab("c1", "q")], &[None], &[]);
    assert_eq!(report.status, ComparisonStatus::Unvalidated);
    assert_eq!(report.blockers, strings(&["unvalidated_rule:c1"]));
    assert_eq!(report.rows, vec![ResultRow::Unvalidated { field: "q".into() }]);
}

#[test]
fn ambiguous_rules_and_duplicate_slabs_are_configuration_errors() {
    let report = run(
        &["c1"],
        &[slab("c1", "u"), slab("c1", "t")],
        &[None, outcome(ResultStatus::Pass, Decision::HardGate, None)],
        &[],
    );
    assert_eq!(report.status, ComparisonStatus::Incomplete);
    assert_eq!(report.blockers, strings(&["ambiguous_rule:c1", "duplicate_slab:c1"]));
    assert_eq!(report.rows, vec![ResultRow::Evaluated(1)]);
}

#[test]
fn identity_mismatch_and_unexpected_cases_are_incomplete() {
    let mut foreign = slab("c1", "t");
    foreign.context.comparison_variant = "other".into();
    let report = run(&["c1"], &[foreign, slab("x", "t")], &[None, outcome(ResultStatus::Pass, Decision::HardGate, None)], &[]);
    assert_eq!(report.status, ComparisonStatus::Incomplete);
    assert_eq!(report.blockers, strings(&["comparison_identity_mismatch:c1", "unexpected_case:x"]));
}

#[test]
fn hard_failure_fails_only_without_blockers() {
    let failed = run(&["c1"], &[slab("c1", "t")], &[outcome(ResultStatus::Fail, Decision::HardGate, Some("p3"))], &[]);
    assert_eq!(failed.status, ComparisonStatus::Failed);
    let blocked = run(
        &["c1"],
        &[slab("c1", "t")],
        &[outcome(ResultStatus::Fail, Decision::HardGate, Some("p3"))],
        &["external_blocker"],
    );
    assert_eq!(blocked.status, ComparisonStatus::Incomplete);
    assert_eq!(blocked.blockers, strings(&["external_blocker"]));
}

#[test]
fn report_only_results_never_pass() {
    let report = run(&["c1"], &[slab("c1", "t")], &[outcome(ResultStatus::Reported, Decision::ReportOnly, None)], &[]);
    assert_eq!(report.status, ComparisonStatus::Incomplete);
    assert!(report.blockers.is_empty());
    assert_eq!(finalize_status(Decision::ReportOnly, 0, 0, 0), ResultStatus::Reported);
    assert_eq!(finalize_status(Decision::HardGate, 0, 0, 0), ResultStatus::Pass);
    assert_eq!(finalize_status(Decision::HardGate, 0, 1, 0), ResultStatus::Fail);
}

#[test]
fn configuration_reasons_become_blockers() {
    let report = run(
        &["c1"],
        &[slab("c1", "t")],
        &[outcome(ResultStatus::Fail, Decision::HardGate, Some("config:length_mismatch"))],
        &[],
    );
    assert_eq!(report.status, ComparisonStatus::Incomplete);
    assert_eq!(report.blockers, strings(&["config:c1:config:length_mismatch"]));
    assert!(is_config_error_reason("config:x"));
    assert!(!is_config_error_reason("metadata:Unit"));
    assert!(!is_config_error_reason("config"));
    assert!(is_config_error_reason("length_or_structure"));
}

#[test]
fn empty_expected_matrix_is_a_blocker() {
    let report = run(&[], &[], &[], &[]);
    assert_eq!(report.status, ComparisonStatus::Incomplete);
    assert_eq!(report.blockers, strings(&["expected_case_ids_empty"]));
    assert!(report.rows.is_empty());
}

#[test]
fn rules_match_uniquely_with_all_wildcards() {
    let selectors = vec![selector("t", &["asl"]), selector("u", &["all"]), selector("u", &["asl"])];
    let ctx = SampleContext {
        dataset_family: "analytic",
        comparison_target: "backend_equivalence",
        comparison_variant: "exact",
        sample_scope: "decoded_field",
        field_namespace: "canonical",
        field: "t",
        coordinate: "asl",
        vertical_region: "upper_air",
    };
    assert_eq!(match_rule(&selectors, &ctx), Ok(0));
    assert_eq!(match_rule(&selectors, &SampleContext { field: "u", ..ctx }), Err(RuleMatchError::Ambiguous));
    assert_eq!(match_rule(&selectors, &SampleContext { field: "v", ..ctx }), Err(RuleMatchError::Unvalidated));
    assert_eq!(match_rule(&selectors, &SampleContext { coordinate: "agl", field: "u", ..ctx }), Ok(1));
    assert!(list_matches(&strings(&["all"]), "anything"));
    assert!(!list_matches(&strings(&["asl"]), "agl"));
    assert_eq!(route_slab(&selectors, &comparison(), &slab("c", "t")), SlabRoute::Rule(0));
}

#[test]
fn ordered_keys_measure_ulps_across_signed_zero() {
    let a = 1.0_f64.to_bits();
    assert_eq!(ordered_ulp_distance(a, a + 1), 1);
    assert_eq!(ordered_ulp_distance(a, a + 2), 2);
    assert_eq!(ordered_ulp_distance(a + 3, a), 3);
    let positive_zero = 0.0_f64.to_bits();
    let negative_zero = (-0.0_f64).to_bits();
    assert_eq!(ordered_ulp_distance(positive_zero, negative_zero), 1);
    assert_eq!(ordered_binary64_key(positive_zero), 1u64 << 63);
    assert_eq!(ordered_binary64_key(negative_zero), (1u64 << 63) - 1);
    assert!(ordered_binary64_key((-1.0_f64).to_bits()) < ordered_binary64_key((-0.5_f64).to_bits()));
}

#[test]
fn sha256_of_known_bytes() {
    assert_eq!(sha256_bytes(b"abc"), "ba7816bf8f01cfea414140de5dae2223b00361a396177a9cb410ff61f20015ad");
    assert_eq!(sha256_bytes(b""), "e3b0c44298fc1c149afbf4c8996fb92427ae41e4649b934ca495991b7852b855");
}

#[test]
fn calibration_digest_must_be_sixty_four_hex_digits() {
    let good = CalibrationReportRef { path: "p".into(), sha256: "ab".repeat(32), state: "measured".into() };
    assert_eq!(check_calibration_sha256(&good), Ok(()));
    let bad = CalibrationReportRef { sha256: "00".into(), ..good.clone() };
    assert_eq!(check_calibration_sha256(&bad), Err("calibration sha256 malformed: 00".to_string()));
    let wrong_char = CalibrationReportRef { sha256: "g".repeat(64), ..good };
    assert!(check_calibration_sha256(&wrong_char).is_err());
}

#[test]
fn exact_metadata_reports_the_first_disagreement() {
    let side = SideMetadata {
        valid_time_unix_seconds: 10,
        valid_time_nanosecond: 0,
        grid_signature: "g".into(),
        vertical_signature: "v".into(),
        layout_signature: "l".into(),
        unit: "K".into(),
        temporal_support: "instant".into(),
        status: None,
    };
    let names = [ExactMetadataName::Grid, ExactMetadataName::Unit, ExactMetadataName::Validity];
    assert_eq!(compare_exact_metadata(&names, &side, &side.clone(), &[true], &[true], 1), None);
    let other_unit = SideMetadata { unit: "C".into(), ..side.clone() };
    assert_eq!(
        compare_exact_metadata(&names, &side, &other_unit, &[true], &[false], 1),
        Some("metadata:Unit".to_string())
    );
    assert_eq!(
        compare_exact_metadata(&names, &side, &side.clone(), &[true], &[false], 1),
        Some("metadata:Validity".to_string())
    );
}

fn metadata() -> SideMetadata {
    SideMetadata {
        valid_time_unix_seconds: 0,
        valid_time_nanosecond: 0,
        grid_signature: "g".into(),
        vertical_signature: "v".into(),
        layout_signature: "l".into(),
        unit: "K".into(),
        temporal_support: "instant".into(),
        status: None,
    }
}

fn shape(values: usize, ids: usize, vector: Option<&[&str]>) -> SlabShape {
    SlabShape {
        expected_element_count: 2,
        subject_values: values,
        reference_values: values,
        element_case_ids: ids,
        vector_case_ids: vector.map(strings),
    }
}

fn precheck(decision: Decision, vector_rule: bool, shape: &SlabShape, reference: &SideMetadata, masks: (&[bool], &[bool])) -> Option<SlabOutcome> {
    let names = [ExactMetadataName::Unit, ExactMetadataName::Validity];
    precheck_slab(decision, vector_rule, &names, shape, &metadata(), reference, masks.0, masks.1)
}

#[test]
fn structure_is_checked_before_values() {
    let fine = metadata();
    let masks: (&[bool], &[bool]) = (&[true, true], &[true, true]);
    let reason = |outcome: Option<SlabOutcome>| outcome.and_then(|o| o.worst_case_id);
    assert_eq!(precheck(Decision::HardGate, false, &shape(2, 0, None), &fine, masks), None);
    assert_eq!(reason(precheck(Decision::HardGate, false, &shape(1, 0, None), &fine, masks)), Some("length_or_structure".into()));
    assert_eq!(reason(precheck(Decision::HardGate, false, &shape(2, 1, None), &fine, masks)), Some("element_case_id_length".into()));
    assert_eq!(
        reason(precheck(Decision::HardGate, false, &shape(2, 2, Some(&["a", "b"])), &fine, masks)),
        Some("scalar_rule_with_vector_data".into())
    );
    assert_eq!(reason(precheck(Decision::HardGate, true, &shape(0, 0, None), &fine, masks)), Some("missing_vector_elements".into()));
    assert_eq!(reason(precheck(Decision::HardGate, true, &shape(0, 0, Some(&["a"])), &fine, masks)), Some("length_or_structure".into()));
    assert_eq!(
        reason(precheck(Decision::HardGate, true, &shape(0, 0, Some(&["a", "a"])), &fine, masks)),
        Some("duplicate_vector_case_id".into())
    );
    assert_eq!(precheck(Decision::HardGate, true, &shape(0, 0, Some(&["a", "b"])), &fine, masks), None);
    let failed = precheck(Decision::ReportOnly, false, &shape(3, 0, None), &fine, masks).unwrap();
    assert_eq!(failed.status, ResultStatus::Fail);
    assert_eq!(failed.decision, Decision::ReportOnly);
}

#[test]
fn metadata_disagreement_fails_hard_gates_and_reports_otherwise() {
    let masks: (&[bool], &[bool]) = (&[true, false], &[true, true]);
    let hard = precheck(Decision::HardGate, false, &shape(2, 0, None), &metadata(), masks).unwrap();
    assert_eq!(
        hard,
        SlabOutcome {
            status: ResultStatus::Fail,
            decision: Decision::HardGate,
            worst_case_id: Some("metadata:Validity".into()),
            compared_count: 0,
            invalid_count: 0,
            numeric_failure_count: 0,
            metadata_failure_count: 1,
            non_finite_count: 0,
        }
    );
    let other_unit = SideMetadata { unit: "C".into(), ..metadata() };
    let report = precheck(Decision::ReportOnly, false, &shape(2, 0, None), &other_unit, masks).unwrap();
    assert_eq!(report.status, ResultStatus::Reported);
    assert_eq!(report.worst_case_id, Some("metadata:Unit".into()));
}

#[test]
fn registry_header_is_checked_in_order() {
    let ok = check_registry_header("trajecta.m3.tolerances/v1", "trajecta/met_query/m3/v0", "A", "measured_partial", 1, "reg.json");
    assert_eq!(ok, Ok(()));
    assert_eq!(
        check_registry_header("v0", "x", "B", "draft", 0, "reg.json"),
        Err("unsupported schema_version in reg.json: v0".to_string())
    );
    assert_eq!(
        check_registry_header("trajecta.m3.tolerances/v1", "x", "B", "draft", 0, "reg.json"),
        Err("unsupported algorithm_id in reg.json: x".to_string())
    );
    assert_eq!(
        check_registry_header("trajecta.m3.tolerances/v1", "trajecta/met_query/m3/v0", "B", "draft", 0, "reg.json"),
        Err("approval_authority must be A in reg.json".to_string())
    );
    assert_eq!(
        check_registry_header("trajecta.m3.tolerances/v1", "trajecta/met_query/m3/v0", "A", "draft", 0, "reg.json"),
        Err("unknown calibration state draft".to_string())
    );
    assert_eq!(
        check_registry_header("trajecta.m3.tolerances/v1", "trajecta/met_query/m3/v0", "A", "measured_complete", 0, "r"),
        Err("registry has no rules".to_string())
    );
}

#[test]
fn rule_policies_are_checked_in_order() {
    let reason = "a scientific reason that is long enough";
    assert_eq!(check_rule_policy("r1", "exact", "reject", 1, reason, Decision::HardGate, None), Ok(()));
    assert_eq!(
        check_rule_policy("r1", "loose", "keep", 0, "short", Decision::HardGate, None),
        Err("rule r1 mask_policy must be exact".to_string())
    );
    assert_eq!(
        check_rule_policy("r1", "exact", "keep", 0, "short", Decision::HardGate, None),
        Err("rule r1 non_finite_policy must be reject".to_string())
    );
    assert_eq!(
        check_rule_policy("r1", "exact", "reject", 0, "short", Decision::HardGate, None),
        Err("rule r1 exact_metadata empty".to_string())
    );
    assert_eq!(
        check_rule_policy("r1", "exact", "reject", 2, "short", Decision::HardGate, None),
        Err("rule r1 scientific_reason too short".to_string())
    );
    assert_eq!(
        check_rule_policy("r1", "exact", "reject", 2, reason, Decision::ReportOnly, Some("")),
        Err("rule r1 report_only requires allowlist_issue".to_string())
    );
    assert_eq!(check_rule_policy("r1", "exact", "reject", 2, reason, Decision::ReportOnly, Some("#12")), Ok(()));
    assert_eq!(
        check_rule_policy("r1", "exact", "reject", 2, reason, Decision::HardGate, Some("#12")),
        Err("rule r1 hard_gate must not carry allowlist_issue".to_string())
    );
}

fn test_meta(unit: &str) -> SideMetadata {
    SideMetadata {
        valid_time_unix_seconds: 1,
        valid_time_nanosecond: 0,
        grid_signature: "g1".into(),
        vertical_signature: "v1".into(),
        layout_signature: "l1".into(),
        unit: unit.into(),
        temporal_support: "instant:1".into(),
        status: Some("ok".into()),
    }
}

fn era5_ctx(field: &str) -> SampleContextOwned {
    SampleContextOwned {
        dataset_family: "era5_pressure".into(),
        comparison_target: "backend_equivalence".into(),
        comparison_variant: "rust-netcdf-vs-native-netcdf".into(),
        sample_scope: "decoded_field".into(),
        field_namespace: "source_identity".into(),
        field: field.into(),
        coordinate: "asl".into(),
        vertical_region: "upper_air".into(),
    }
}

fn cmp_id() -> ComparisonIdentity {
    ComparisonIdentity {
        dataset_family: "era5_pressure".into(),
        comparison_target: "backend_equivalence".into(),
        comparison_variant: "rust-netcdf-vs-native-netcdf".into(),
        subject_sha256: "0".repeat(64),
        reference_sha256: "1".repeat(64),
    }
}

fn era5_selector() -> Selector {
    Selector {
        dataset_families: strings(&["era5_pressure"]),
        comparison_target: "backend_equivalence".into(),
        comparison_variant: "rust-netcdf-vs-native-netcdf".into(),
        sample_scope: "decoded_field".into(),
        field_namespace: "source_identity".into(),
        fields: strings(&["pressure:t"]),
        coordinates: strings(&["asl"]),
        vertical_regions: strings(&["upper_air"]),
    }
}

#[test]
fn unit_mismatch_is_reported_before_values() {
    let names = [ExactMetadataName::ValidTimes, ExactMetadataName::Unit];
    let shape = SlabShape {
        expected_element_count: 1,
        subject_values: 1,
        reference_values: 1,
        element_case_ids: 0,
        vector_case_ids: None,
    };
    let outcome =
        precheck_slab(Decision::HardGate, false, &names, &shape, &test_meta("K"), &test_meta("degC"), &[true], &[true]);
    assert_eq!(outcome.unwrap().worst_case_id, Some("metadata:Unit".to_string()));
    let empty_unit = precheck_slab(Decision::HardGate, false, &names, &shape, &test_meta(""), &test_meta(""), &[true], &[true]);
    assert_eq!(empty_unit.unwrap().worst_case_id, Some("metadata:Unit".to_string()));
    assert_eq!(
        precheck_slab(Decision::HardGate, false, &names, &shape, &test_meta("K"), &test_meta("K"), &[true], &[true]),
        None
    );
}

#[test]
fn era5_slab_routes_to_its_rule() {
    let selectors = vec![era5_selector()];
    let slab = SlabSummary { slab_id: "t-850".into(), context: era5_ctx("pressure:t") };
    assert_eq!(route_slab(&selectors, &cmp_id(), &slab), SlabRoute::Rule(0));
    let other = SlabSummary { slab_id: "q-850".into(), context: era5_ctx("pressure:q") };
    assert_eq!(route_slab(&selectors, &cmp_id(), &other), SlabRoute::Unvalidated);
    let report = adjudicate(
        &strings(&["t-850"]),
        &[slab],
        &selectors,
        &cmp_id(),
        &[outcome(ResultStatus::Pass, Decision::HardGate, None)],
        &[],
    );
    assert_eq!(report.status, ComparisonStatus::Passed);
}

/// Exact metadata that the era5 `pressure:t` rule checks.
const ERA5_EXACT_METADATA: [ExactMetadataName; 6] = [
    ExactMetadataName::ValidTimes,
    ExactMetadataName::Grid,
    ExactMetadataName::VerticalTopology,
    ExactMetadataName::Layout,
    ExactMetadataName::Unit,
    ExactMetadataName::Validity,
];

/// A scalar slab of `n` elements in the era5 `pressure:t` context, as the
/// adjudication sees it, with its shape.
fn scalar_slab(id: &str, field: &str, n: usize) -> (SlabSummary, SlabShape) {
    (
        SlabSummary { slab_id: id.into(), context: era5_ctx(field) },
        SlabShape {
            expected_element_count: n,
            subject_values: n,
            reference_values: n,
            element_case_ids: n,
            vector_case_ids: None,
        },
    )
}

/// Prechecks an all-valid scalar slab under a hard gate.
fn precheck_scalar(shape: &SlabShape, subject: &SideMetadata, reference: &SideMetadata) -> Option<SlabOutcome> {
    let n = shape.expected_element_count;
    precheck_slab(Decision::HardGate, false, &ERA5_EXACT_METADATA, shape, subject, reference, &vec![true; n], &vec![true; n])
}

/// The outcome of comparing the values of a slab that passed its precheck.
fn compared(decision: Decision, compared: u64, numeric_fail: u64, worst: Option<&str>) -> Option<SlabOutcome> {
    Some(SlabOutcome {
        status: finalize_status(decision, numeric_fail, 0, 0),
        decision,
        worst_case_id: worst.map(|w| w.to_string()),
        compared_count: compared,
        invalid_count: 0,
        numeric_failure_count: numeric_fail,
        metadata_failure_count: 0,
        non_finite_count: 0,
    })
}

fn era5_adjudicate(expected: &[&str], slabs: &[SlabSummary], outcomes: &[Option<SlabOutcome>], extra: &[&str]) -> Adjudication {
    adjudicate(&strings(expected), slabs, &[era5_selector()], &cmp_id(), outcomes, &strings(extra))
}

fn evaluated_outcome<'a>(report: &Adjudication, outcomes: &'a [Option<SlabOutcome>], row: usize) -> &'a SlabOutcome {
    match &report.rows[row] {
        ResultRow::Evaluated(index) => outcomes[*index].as_ref().unwrap(),
        other => panic!("row {row} is not evaluated: {other:?}"),
    }
}

#[test]
fn exact_pass() {
    let (slab, shape) = scalar_slab("c0", "pressure:t", 1);
    assert_eq!(precheck_scalar(&shape, &test_meta("K"), &test_meta("K")), None);
    let outcomes = [compared(Decision::HardGate, 1, 0, None)];
    let report = era5_adjudicate(&["c0"], &[slab], &outcomes, &[]);
    assert_eq!(report.status, ComparisonStatus::Passed);
    assert!(report.blockers.is_empty());
    assert_eq!(evaluated_outcome(&report, &outcomes, 0).status, ResultStatus::Pass);
}

#[test]
fn missing_coverage_incomplete() {
    let (slab, _) = scalar_slab("c0", "pressure:t", 1);
    let report = era5_adjudicate(&["c0", "c1"], &[slab], &[compared(Decision::HardGate, 1, 0, None)], &[]);
    assert_eq!(report.status, ComparisonStatus::Incomplete);
    assert!(report.coverage.missing_case_ids.iter().any(|x| x == "c1"));
}

#[test]
fn length_mismatch_no_silent_truncate() {
    let (slab, mut shape) = scalar_slab("c0", "pressure:t", 2);
    shape.subject_values -= 1;
    let outcomes = [precheck_scalar(&shape, &test_meta("K"), &test_meta("K"))];
    let report = era5_adjudicate(&["c0"], &[slab], &outcomes, &[]);
    assert_eq!(report.status, ComparisonStatus::Incomplete);
    let row = evaluated_outcome(&report, &outcomes, 0);
    assert_eq!(row.metadata_failure_count, 1);
    assert_eq!(row.compared_count, 0);
    assert_eq!(row.worst_case_id.as_deref(), Some("length_or_structure"));
}

#[test]
fn unit_mismatch_before_numeric() {
    let (slab, shape) = scalar_slab("c0", "pressure:t", 1);
    let outcomes = [precheck_scalar(&shape, &test_meta("K"), &test_meta("degC"))];
    let report = era5_adjudicate(&["c0"], &[slab], &outcomes, &[]);
    assert_eq!(report.status, ComparisonStatus::Failed);
    let row = evaluated_outcome(&report, &outcomes, 0);
    assert_eq!(row.metadata_failure_count, 1);
    assert_eq!(row.compared_count, 0);
}

#[test]
fn grid_mismatch() {
    let (slab, shape) = scalar_slab("c0", "pressure:t", 1);
    let reference = SideMetadata { grid_signature: "other".into(), ..test_meta("K") };
    let outcomes = [precheck_scalar(&shape, &test_meta("K"), &reference)];
    let report = era5_adjudicate(&["c0"], &[slab], &outcomes, &[]);
    assert_eq!(report.status, ComparisonStatus::Failed);
    assert!(evaluated_outcome(&report, &outcomes, 0).worst_case_id.as_deref().unwrap().contains("Grid"));
}

#[test]
fn identity_mismatch_incomplete() {
    let (slab, _) = scalar_slab("c0", "pressure:t", 1);
    let mut comparison = cmp_id();
    comparison.comparison_variant = "other".into();
    assert_eq!(route_slab(&[era5_selector()], &comparison, &slab), SlabRoute::IdentityMismatch);
    let report = adjudicate(&strings(&["c0"]), &[slab], &[era5_selector()], &comparison, &[None], &[]);
    assert_eq!(report.status, ComparisonStatus::Incomplete);
}

#[test]
fn both_invalid_counts_as_invalid_not_compared() {
    let (slab, shape) = scalar_slab("c0", "pressure:t", 1);
    let masks = [false];
    assert_eq!(
        precheck_slab(Decision::HardGate, false, &ERA5_EXACT_METADATA, &shape, &test_meta("K"), &test_meta("K"), &masks, &masks),
        None
    );
    let outcomes = [Some(SlabOutcome {
        status: finalize_status(Decision::HardGate, 0, 0, 0),
        decision: Decision::HardGate,
        worst_case_id: None,
        compared_count: 0,
        invalid_count: 1,
        numeric_failure_count: 0,
        metadata_failure_count: 0,
        non_finite_count: 0,
    })];
    let report = era5_adjudicate(&["c0"], &[slab], &outcomes, &[]);
    let row = evaluated_outcome(&report, &outcomes, 0);
    assert_eq!(row.invalid_count, 1);
    assert_eq!(row.compared_count, 0);
    assert_eq!(report.status, ComparisonStatus::Passed);
}

#[test]
fn ulp_worst_tracks_max_ulp_not_abs() {
    let a = 1.0_f64.to_bits();
    let small = 1e-9_f64.to_bits();
    let distances = [
        Some(policy_ulp_distance(a, a + 2, true)),
        Some(policy_ulp_distance(small, small + 3, true)),
    ];
    let summary = summarize_ulps(&distances, 2);
    assert_eq!(summary.maximum_ulps, 3);
    assert_eq!(summary.worst_index, Some(1));
    assert_eq!(summary.failures, 1);
    let ids = ["u0#0", "u0#1"];
    let worst = summary.worst_index.map(|i| ids[i]);
    assert_eq!(worst, Some("u0#1"));
    let (slab, _) = scalar_slab("u0", "pressure:t", 2);
    let report = era5_adjudicate(&["u0"], &[slab], &[compared(Decision::HardGate, 2, summary.failures, worst)], &[]);
    assert_eq!(report.status, ComparisonStatus::Failed);
}

#[test]
fn report_only_only_is_incomplete_not_passed() {
    let context = SampleContextOwned {
        dataset_family: "era5_pressure".into(),
        comparison_target: "flexpart_difference_report".into(),
        comparison_variant: "trajecta-vs-flexpart-v11.1".into(),
        sample_scope: "modern_difference".into(),
        field_namespace: "transport_output".into(),
        field: "geometric_terrain_height".into(),
        coordinate: "agl".into(),
        vertical_region: "surface_layer".into(),
    };
    let selector = Selector {
        dataset_families: strings(&["era5_pressure"]),
        comparison_target: context.comparison_target.clone(),
        comparison_variant: context.comparison_variant.clone(),
        sample_scope: context.sample_scope.clone(),
        field_namespace: context.field_namespace.clone(),
        fields: strings(&["geometric_terrain_height"]),
        coordinates: strings(&["agl"]),
        vertical_regions: strings(&["surface_layer"]),
    };
    let comparison = ComparisonIdentity {
        dataset_family: context.dataset_family.clone(),
        comparison_target: context.comparison_target.clone(),
        comparison_variant: context.comparison_variant.clone(),
        subject_sha256: "0".repeat(64),
        reference_sha256: "1".repeat(64),
    };
    let slab = SlabSummary { slab_id: "ro0".into(), context };
    let outcomes = [compared(Decision::ReportOnly, 1, 0, None)];
    let report = adjudicate(&strings(&["ro0"]), &[slab], &[selector], &comparison, &outcomes, &[]);
    assert_eq!(evaluated_outcome(&report, &outcomes, 0).status, ResultStatus::Reported);
    assert_eq!(report.status, ComparisonStatus::Incomplete);
}

#[test]
fn hard_fail_with_blocker_is_incomplete() {
    let (slab, _) = scalar_slab("c0", "pressure:t", 1);
    let outcomes = [compared(Decision::HardGate, 1, 1, Some("c0#0"))];
    let report = era5_adjudicate(&["c0"], &[slab], &outcomes, &["extra_blocker_from_runner"]);
    assert!(
        (0..report.rows.len()).any(|row| evaluated_outcome(&report, &outcomes, row).status == ResultStatus::Fail),
        "numeric hard fail should still be recorded"
    );
    assert_eq!(report.status, ComparisonStatus::Incomplete);
    assert!(report.blockers.iter().any(|b| b.contains("extra_blocker")));
}

#[test]
fn duplicate_slab_is_config_incomplete() {
    let (a, _) = scalar_slab("dup", "pressure:t", 1);
    let (b, _) = scalar_slab("dup", "pressure:t", 1);
    let outcomes = [compared(Decision::HardGate, 1, 0, None), compared(Decision::HardGate, 1, 0, None)];
    let report = era5_adjudicate(&["dup"], &[a, b], &outcomes, &[]);
    assert_eq!(report.status, ComparisonStatus::Incomplete);
    assert!(report.blockers.iter().any(|x| x.starts_with("duplicate_slab:")));
}

#[test]
fn signed_zero_policy_sets_the_ulp_distance() {
    let positive_zero = 0.0_f64.to_bits();
    let negative_zero = (-0.0_f64).to_bits();
    assert_eq!(policy_ulp_distance(positive_zero, negative_zero, true), 0);
    assert_eq!(policy_ulp_distance(positive_zero, negative_zero, false), 1);
    assert_eq!(policy_ulp_distance(1.0_f64.to_bits(), 1.0_f64.to_bits() + 5, true), 5);
}

#[test]
fn ulp_summary_skips_uncompared_elements_and_keeps_the_first_maximum() {
    let summary = summarize_ulps(&[None, Some(4), Some(1), Some(4), None, Some(0)], 1);
    assert_eq!(summary.maximum_ulps, 4);
    assert_eq!(summary.worst_index, Some(1));
    assert_eq!(summary.failures, 2);
    let none = summarize_ulps(&[None, Some(0)], 0);
    assert_eq!(none.maximum_ulps, 0);
    assert_eq!(none.worst_index, None);
    assert_eq!(none.failures, 0);
}
