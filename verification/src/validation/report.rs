//! Comparison report adjudication: coverage against a frozen expected case
//! matrix, blockers, per-slab rule routing, and the overall report status.

use vstd::prelude::*;
use vstd::string::*;
use crate::text::{text_eq, text_lt, texts, strictly_sorted, set_holds, set_insert};
use crate::validation::tolerance::{
    Decision, ExactMetadataName, RuleMatchError, SampleContext, Selector, match_rule, matching_rules, selects, lists,
    list_admits,
};

verus! {

/// Overall report status.
#[derive(Clone, Copy, Debug, PartialEq, Eq, Structural)]
pub enum ComparisonStatus {
    Passed,
    Failed,
    Incomplete,
    Unvalidated,
}

/// Per-result row status.
#[derive(Clone, Copy, Debug, PartialEq, Eq, Structural)]
pub enum ResultStatus {
    Pass,
    Fail,
    Reported,
    Unvalidated,
}

/// Registry identity embedded in a report.
#[derive(Clone, Debug, PartialEq, Eq)]
pub struct RegistryIdentity {
    pub version: String,
    pub sha256: String,
}

/// Comparison identity (subject/reference digests are frozen combination hashes).
#[derive(Clone, Debug, PartialEq, Eq)]
pub struct ComparisonIdentity {
    pub dataset_family: String,
    pub comparison_target: String,
    pub comparison_variant: String,
    pub subject_sha256: String,
    pub reference_sha256: String,
}

/// Coverage relative to a frozen expected matrix (never reverse-derived from
/// observations alone).
#[derive(Clone, Debug, PartialEq, Eq)]
pub struct Coverage {
    pub expected_case_ids: Vec<String>,
    pub observed_case_ids: Vec<String>,
    pub missing_case_ids: Vec<String>,
}

/// Owned sample context used by slabs.
#[derive(Clone, Debug, PartialEq, Eq)]
pub struct SampleContextOwned {
    pub dataset_family: String,
    pub comparison_target: String,
    pub comparison_variant: String,
    pub sample_scope: String,
    pub field_namespace: String,
    pub field: String,
    pub coordinate: String,
    pub vertical_region: String,
}

/// The borrowed context viewing an owned one.
pub open spec fn context_view<'a>(owned: SampleContextOwned, ctx: SampleContext<'a>) -> bool {
    &&& ctx.dataset_family@ == owned.dataset_family@
    &&& ctx.comparison_target@ == owned.comparison_target@
    &&& ctx.comparison_variant@ == owned.comparison_variant@
    &&& ctx.sample_scope@ == owned.sample_scope@
    &&& ctx.field_namespace@ == owned.field_namespace@
    &&& ctx.field@ == owned.field@
    &&& ctx.coordinate@ == owned.coordinate@
    &&& ctx.vertical_region@ == owned.vertical_region@
}

impl SampleContextOwned {
    /// Borrows the context for rule matching.
    pub fn as_ctx(&self) -> (ctx: SampleContext<'_>)
        ensures
            context_view(*self, ctx),
    {
        SampleContext {
            dataset_family: self.dataset_family.as_str(),
            comparison_target: self.comparison_target.as_str(),
            comparison_variant: self.comparison_variant.as_str(),
            sample_scope: self.sample_scope.as_str(),
            field_namespace: self.field_namespace.as_str(),
            field: self.field.as_str(),
            coordinate: self.coordinate.as_str(),
            vertical_region: self.vertical_region.as_str(),
        }
    }
}

/// Exact metadata carried with one side of a slab (subject or reference).
#[derive(Clone, Debug, PartialEq, Eq)]
pub struct SideMetadata {
    /// Physical valid time as unix seconds (and optional nanosecond).
    pub valid_time_unix_seconds: i64,
    pub valid_time_nanosecond: u32,
    /// Canonical grid signature string (shape + coord digest + scan + period).
    pub grid_signature: String,
    /// Canonical vertical topology signature.
    pub vertical_signature: String,
    /// Canonical array layout signature.
    pub layout_signature: String,
    /// Source unit symbol.
    pub unit: String,
    /// Temporal support signature.
    pub temporal_support: String,
    /// Optional status token.
    pub status: Option<String>,
}

/// Worst-case reasons that mark a configuration or shape error rather than
/// a numeric result.
pub open spec fn config_error_reason(reason: Seq<char>) -> bool {
    ||| reason == "length_or_structure"@
    ||| reason == "vector_rule_without_vector_data"@
    ||| reason == "scalar_rule_with_vector_data"@
    ||| reason == "missing_vector_elements"@
    ||| reason == "duplicate_vector_case_id"@
    ||| reason == "element_case_id_length"@
    ||| (reason.len() >= 7 && reason.take(7) == "config:"@)
}

/// Whether a worst-case reason marks a configuration or shape error.
pub fn is_config_error_reason(reason: &str) -> (config: bool)
    ensures
        config == config_error_reason(reason@),
{
    proof {
        reveal_strlit("config:");
    }
    if text_eq(reason, "length_or_structure")
        || text_eq(reason, "vector_rule_without_vector_data")
        || text_eq(reason, "scalar_rule_with_vector_data")
        || text_eq(reason, "missing_vector_elements")
        || text_eq(reason, "duplicate_vector_case_id")
        || text_eq(reason, "element_case_id_length")
    {
        return true;
    }
    let len = reason.unicode_len();
    if len < 7 {
        return false;
    }
    let prefix = reason.substring_char(0, 7);
    text_eq(prefix, "config:")
}

/// Row status from a rule's decision and the failure counts of its slab:
/// report-only rules always report; hard gates pass only when clean.
pub open spec fn spec_finalize_status(decision: Decision, numeric_fail: u64, non_finite: u64, meta_fail: u64) -> ResultStatus {
    match decision {
        Decision::ReportOnly => ResultStatus::Reported,
        Decision::HardGate => if numeric_fail > 0 || non_finite > 0 || meta_fail > 0 {
            ResultStatus::Fail
        } else {
            ResultStatus::Pass
        },
    }
}

/// Row status from a rule's decision and the failure counts of its slab.
pub fn finalize_status(decision: Decision, numeric_fail: u64, non_finite: u64, meta_fail: u64) -> (status: ResultStatus)
    ensures
        status == spec_finalize_status(decision, numeric_fail, non_finite, meta_fail),
{
    let bad = numeric_fail > 0 || non_finite > 0 || meta_fail > 0;
    match decision {
        Decision::ReportOnly => ResultStatus::Reported,
        Decision::HardGate => if bad { ResultStatus::Fail } else { ResultStatus::Pass },
    }
}

/// Debug name of each exact metadata kind.
pub open spec fn metadata_name(name: ExactMetadataName) -> Seq<char> {
    match name {
        ExactMetadataName::ValidTimes => "ValidTimes"@,
        ExactMetadataName::Grid => "Grid"@,
        ExactMetadataName::VerticalTopology => "VerticalTopology"@,
        ExactMetadataName::Layout => "Layout"@,
        ExactMetadataName::Mask => "Mask"@,
        ExactMetadataName::Unit => "Unit"@,
        ExactMetadataName::TemporalSupport => "TemporalSupport"@,
        ExactMetadataName::Status => "Status"@,
        ExactMetadataName::Validity => "Validity"@,
    }
}

/// Optional texts are equal.
pub open spec fn same_optional_text(a: Option<String>, b: Option<String>) -> bool {
    match (a, b) {
        (Some(x), Some(y)) => x@ == y@,
        (None, None) => true,
        _ => false,
    }
}

/// Whether one exact metadata kind agrees between the two sides of a slab.
pub open spec fn metadata_agrees(
    name: ExactMetadataName,
    subject: SideMetadata,
    reference: SideMetadata,
    subject_mask: Seq<bool>,
    reference_mask: Seq<bool>,
    expected_element_count: usize,
) -> bool {
    match name {
        ExactMetadataName::ValidTimes => subject.valid_time_unix_seconds == reference.valid_time_unix_seconds
            && subject.valid_time_nanosecond == reference.valid_time_nanosecond,
        ExactMetadataName::Grid => subject.grid_signature@ == reference.grid_signature@,
        ExactMetadataName::VerticalTopology => subject.vertical_signature@ == reference.vertical_signature@,
        ExactMetadataName::Layout => subject.layout_signature@ == reference.layout_signature@,
        ExactMetadataName::Mask => subject_mask.len() == reference_mask.len() && subject_mask.len() == expected_element_count,
        ExactMetadataName::Unit => subject.unit@ == reference.unit@ && subject.unit@.len() > 0,
        ExactMetadataName::TemporalSupport => subject.temporal_support@ == reference.temporal_support@,
        ExactMetadataName::Status => same_optional_text(subject.status, reference.status),
        ExactMetadataName::Validity => subject_mask == reference_mask,
    }
}

fn optional_text_eq(a: &Option<String>, b: &Option<String>) -> (equal: bool)
    ensures
        equal == same_optional_text(*a, *b),
{
    match (a, b) {
        (Some(x), Some(y)) => text_eq(x.as_str(), y.as_str()),
        (None, None) => true,
        _ => false,
    }
}

fn masks_equal(a: &[bool], b: &[bool]) -> (equal: bool)
    ensures
        equal == (a@ == b@),
{
    if a.len() != b.len() {
        return false;
    }
    let mut k: usize = 0;
    while k < a.len()
        invariant
            a@.len() == b@.len(),
            k <= a@.len(),
            forall|q: int| 0 <= q < k ==> a@[q] == b@[q],
        decreases a@.len() - k,
    {
        if a[k] != b[k] {
            return false;
        }
        k += 1;
    }
    proof {
        assert(a@ =~= b@);
    }
    true
}

fn metadata_name_text(name: ExactMetadataName) -> (text: &'static str)
    ensures
        text@ == metadata_name(name),
{
    match name {
        ExactMetadataName::ValidTimes => "ValidTimes",
        ExactMetadataName::Grid => "Grid",
        ExactMetadataName::VerticalTopology => "VerticalTopology",
        ExactMetadataName::Layout => "Layout",
        ExactMetadataName::Mask => "Mask",
        ExactMetadataName::Unit => "Unit",
        ExactMetadataName::TemporalSupport => "TemporalSupport",
        ExactMetadataName::Status => "Status",
        ExactMetadataName::Validity => "Validity",
    }
}

/// The first named metadata kind, in rule order, on which the two sides
/// disagree.
pub open spec fn first_metadata_mismatch(
    names: Seq<ExactMetadataName>,
    subject: SideMetadata,
    reference: SideMetadata,
    subject_mask: Seq<bool>,
    reference_mask: Seq<bool>,
    expected_element_count: usize,
) -> Option<ExactMetadataName>
    decreases names.len(),
{
    if names.len() == 0 {
        None
    } else if !metadata_agrees(names[0], subject, reference, subject_mask, reference_mask, expected_element_count) {
        Some(names[0])
    } else {
        first_metadata_mismatch(names.drop_first(), subject, reference, subject_mask, reference_mask, expected_element_count)
    }
}

/// Checks the rule's exact metadata in order; the first disagreement is
/// reported as `metadata:<Name>`.
pub fn compare_exact_metadata(
    names: &[ExactMetadataName],
    subject: &SideMetadata,
    reference: &SideMetadata,
    subject_mask: &[bool],
    reference_mask: &[bool],
    expected_element_count: usize,
) -> (mismatch: Option<String>)
    ensures
        match first_metadata_mismatch(names@, *subject, *reference, subject_mask@, reference_mask@, expected_element_count) {
            None => mismatch is None,
            Some(name) => mismatch matches Some(text) && text@ == "metadata:"@ + metadata_name(name),
        },
{
    let mut k: usize = 0;
    proof {
        assert(names@.skip(0) =~= names@);
    }
    while k < names.len()
        invariant
            k <= names@.len(),
            first_metadata_mismatch(names@, *subject, *reference, subject_mask@, reference_mask@, expected_element_count)
                == first_metadata_mismatch(names@.skip(k as int), *subject, *reference, subject_mask@, reference_mask@, expected_element_count),
        decreases names@.len() - k,
    {
        let name = names[k];
        proof {
            assert(names@.skip(k as int)[0] == name);
            assert(names@.skip(k as int).drop_first() =~= names@.skip(k + 1));
        }
        let ok = match name {
            ExactMetadataName::ValidTimes => subject.valid_time_unix_seconds == reference.valid_time_unix_seconds
                && subject.valid_time_nanosecond == reference.valid_time_nanosecond,
            ExactMetadataName::Grid => text_eq(subject.grid_signature.as_str(), reference.grid_signature.as_str()),
            ExactMetadataName::VerticalTopology => text_eq(subject.vertical_signature.as_str(), reference.vertical_signature.as_str()),
            ExactMetadataName::Layout => text_eq(subject.layout_signature.as_str(), reference.layout_signature.as_str()),
            ExactMetadataName::Mask => subject_mask.len() == reference_mask.len() && subject_mask.len() == expected_element_count,
            ExactMetadataName::Unit => text_eq(subject.unit.as_str(), reference.unit.as_str()) && subject.unit.as_str().unicode_len() > 0,
            ExactMetadataName::TemporalSupport => text_eq(subject.temporal_support.as_str(), reference.temporal_support.as_str()),
            ExactMetadataName::Status => optional_text_eq(&subject.status, &reference.status),
            ExactMetadataName::Validity => masks_equal(subject_mask, reference_mask),
        };
        if !ok {
            let prefix = String::from_str("metadata:");
            proof {
                reveal_strlit("metadata:");
            }
            return Some(prefix.concat(metadata_name_text(name)));
        }
        k += 1;
    }
    None
}

/// What aggregation reads of one submitted slab.
#[derive(Clone, Debug, PartialEq, Eq)]
pub struct SlabSummary {
    /// Stable slab id (also the coverage case id).
    pub slab_id: String,
    /// Sample context used to select the rule.
    pub context: SampleContextOwned,
}

/// What evaluating a slab against its rule produced.
#[derive(Clone, Debug, PartialEq, Eq)]
pub struct SlabOutcome {
    /// Row status.
    pub status: ResultStatus,
    /// Decision class of the matched rule.
    pub decision: Decision,
    /// Worst case id, or the configuration/metadata reason of a failure.
    pub worst_case_id: Option<String>,
    /// Elements whose values were compared.
    pub compared_count: u64,
    /// Elements invalid on both sides, so not compared.
    pub invalid_count: u64,
    /// Compared elements outside the rule's tolerance.
    pub numeric_failure_count: u64,
    /// Structural, validity or exact-metadata failures.
    pub metadata_failure_count: u64,
    /// Non-finite values met among valid elements.
    pub non_finite_count: u64,
}

impl SlabOutcome {
    /// The outcome of a slab refused before any value is compared: one
    /// metadata failure and nothing compared.
    pub open spec fn is_precheck_failure(self) -> bool {
        &&& self.compared_count == 0
        &&& self.invalid_count == 0
        &&& self.numeric_failure_count == 0
        &&& self.metadata_failure_count == 1
        &&& self.non_finite_count == 0
    }
}

/// Lengths and element identities of a slab: what decides whether its
/// structure matches its rule before any value is compared.
#[derive(Clone, Debug, PartialEq, Eq)]
pub struct SlabShape {
    /// Element count from the frozen matrix.
    pub expected_element_count: usize,
    /// Number of subject scalar values.
    pub subject_values: usize,
    /// Number of reference scalar values.
    pub reference_values: usize,
    /// Number of per-element diagnostic case ids (zero when none are given).
    pub element_case_ids: usize,
    /// Case ids of the vector elements, when the slab carries vector data.
    pub vector_case_ids: Option<Vec<String>>,
}

/// No two texts are the same.
pub open spec fn distinct_texts(items: Seq<String>) -> bool {
    forall|i: int, j: int| 0 <= i < j < items.len() ==> (#[trigger] items[i])@ != (#[trigger] items[j])@
}

/// Why a slab's structure does not fit its rule, checked in order: vector
/// data for a vector rule (present, of the expected length, with distinct
/// case ids), or else scalar columns of the expected length, diagnostic ids
/// of the expected length when given, and no vector data.
pub open spec fn structure_reason(vector_rule: bool, shape: SlabShape, subject_mask: nat, reference_mask: nat) -> Option<Seq<char>> {
    let n = shape.expected_element_count;
    if vector_rule {
        match shape.vector_case_ids {
            None => Some("missing_vector_elements"@),
            Some(ids) => if ids@.len() != n {
                Some("length_or_structure"@)
            } else if !distinct_texts(ids@) {
                Some("duplicate_vector_case_id"@)
            } else {
                None
            },
        }
    } else if shape.subject_values != n || shape.reference_values != n || subject_mask != n || reference_mask != n {
        Some("length_or_structure"@)
    } else if shape.element_case_ids != 0 && shape.element_case_ids != n {
        Some("element_case_id_length"@)
    } else if shape.vector_case_ids is Some {
        Some("scalar_rule_with_vector_data"@)
    } else {
        None
    }
}

/// What a slab yields before any value is compared: a structural failure,
/// then an exact-metadata disagreement (a failure under a hard gate, a
/// report under a report-only rule), or nothing when values must be compared.
pub open spec fn spec_precheck(
    decision: Decision,
    vector_rule: bool,
    names: Seq<ExactMetadataName>,
    shape: SlabShape,
    subject: SideMetadata,
    reference: SideMetadata,
    subject_mask: Seq<bool>,
    reference_mask: Seq<bool>,
) -> Option<(ResultStatus, Seq<char>)> {
    match structure_reason(vector_rule, shape, subject_mask.len(), reference_mask.len()) {
        Some(reason) => Some((ResultStatus::Fail, reason)),
        None => match first_metadata_mismatch(names, subject, reference, subject_mask, reference_mask, shape.expected_element_count) {
            Some(name) => Some((
                match decision {
                    Decision::HardGate => ResultStatus::Fail,
                    Decision::ReportOnly => ResultStatus::Reported,
                },
                "metadata:"@ + metadata_name(name),
            )),
            None => None,
        },
    }
}

/// Whether every text of `ids` differs from every other.
fn all_distinct(ids: &Vec<String>) -> (distinct: bool)
    ensures
        distinct == distinct_texts(ids@),
{
    let mut seen: Vec<String> = Vec::new();
    let mut k: usize = 0;
    while k < ids.len()
        invariant
            k <= ids@.len(),
            strictly_sorted(texts(seen@)),
            forall|t: Seq<char>| #[trigger] texts(seen@).to_set().contains(t)
                <==> exists|q: int| 0 <= q < k && (#[trigger] ids@[q])@ == t,
            forall|i: int, j: int| 0 <= i < j < k ==> (#[trigger] ids@[i])@ != (#[trigger] ids@[j])@,
        decreases ids@.len() - k,
    {
        if set_holds(&seen, ids[k].as_str()) {
            proof {
                assert(texts(seen@).to_set().contains(ids@[k as int]@));
                let q = choose|q: int| 0 <= q < k && (#[trigger] ids@[q])@ == ids@[k as int]@;
                assert(!distinct_texts(ids@)) by {
                    assert((ids@[q])@ == (ids@[k as int])@);
                }
            }
            return false;
        }
        let ghost before = texts(seen@).to_set();
        set_insert(&mut seen, ids[k].clone());
        proof {
            assert forall|t: Seq<char>| #[trigger] texts(seen@).to_set().contains(t)
                <==> exists|q: int| 0 <= q < k + 1 && (#[trigger] ids@[q])@ == t by {
                if t == ids@[k as int]@ {
                    assert(ids@[k as int]@ == t);
                }
                if exists|q: int| 0 <= q < k + 1 && (#[trigger] ids@[q])@ == t {
                    let q = choose|q: int| 0 <= q < k + 1 && (#[trigger] ids@[q])@ == t;
                    if q < k {
                        assert(before.contains(t));
                    }
                }
            }
            assert forall|i: int, j: int| 0 <= i < j < k + 1 implies (#[trigger] ids@[i])@ != (#[trigger] ids@[j])@ by {
                if j == k && ids@[i]@ == ids@[j]@ {
                    assert(before.contains(ids@[i]@));
                }
            }
        }
        k += 1;
    }
    true
}

/// Decides a slab before any value is compared: structure against the
/// rule's metric kind, then the rule's exact metadata in order. `None`
/// means the values must be compared.
pub fn precheck_slab(
    decision: Decision,
    vector_rule: bool,
    names: &[ExactMetadataName],
    shape: &SlabShape,
    subject: &SideMetadata,
    reference: &SideMetadata,
    subject_mask: &[bool],
    reference_mask: &[bool],
) -> (outcome: Option<SlabOutcome>)
    ensures
        match spec_precheck(decision, vector_rule, names@, *shape, *subject, *reference, subject_mask@, reference_mask@) {
            Some((status, reason)) => {
                &&& outcome is Some
                &&& outcome->Some_0.status == status
                &&& outcome->Some_0.decision == decision
                &&& outcome->Some_0.worst_case_id matches Some(w) && w@ == reason
                &&& outcome->Some_0.is_precheck_failure()
            },
            None => outcome is None,
        },
{
    let n = shape.expected_element_count;
    let reason: Option<&str> = if vector_rule {
        match &shape.vector_case_ids {
            None => Some("missing_vector_elements"),
            Some(ids) => if ids.len() != n {
                Some("length_or_structure")
            } else if !all_distinct(ids) {
                Some("duplicate_vector_case_id")
            } else {
                None
            },
        }
    } else if shape.subject_values != n || shape.reference_values != n || subject_mask.len() != n
        || reference_mask.len() != n
    {
        Some("length_or_structure")
    } else if shape.element_case_ids != 0 && shape.element_case_ids != n {
        Some("element_case_id_length")
    } else if shape.vector_case_ids.is_some() {
        Some("scalar_rule_with_vector_data")
    } else {
        None
    };
    if let Some(text) = reason {
        return Some(SlabOutcome {
            status: ResultStatus::Fail,
            decision,
            worst_case_id: Some(String::from_str(text)),
            compared_count: 0,
            invalid_count: 0,
            numeric_failure_count: 0,
            metadata_failure_count: 1,
            non_finite_count: 0,
        });
    }
    match compare_exact_metadata(names, subject, reference, subject_mask, reference_mask, n) {
        Some(mismatch) => {
            let status = match decision {
                Decision::HardGate => ResultStatus::Fail,
                Decision::ReportOnly => ResultStatus::Reported,
            };
            Some(SlabOutcome {
                status,
                decision,
                worst_case_id: Some(mismatch),
                compared_count: 0,
                invalid_count: 0,
                numeric_failure_count: 0,
                metadata_failure_count: 1,
                non_finite_count: 0,
            })
        },
        None => None,
    }
}

/// How one slab is handled.
#[derive(Clone, Copy, Debug, PartialEq, Eq, Structural)]
pub enum SlabRoute {
    /// The slab's context names another comparison.
    IdentityMismatch,
    /// No rule applies to the slab.
    Unvalidated,
    /// Several rules apply to the slab.
    Ambiguous,
    /// Exactly one rule applies: its registry position.
    Rule(usize),
}

/// One row of the report's results, in slab order.
#[derive(Clone, Debug, PartialEq, Eq)]
pub enum ResultRow {
    /// No rule applied to a slab of this field.
    Unvalidated { field: String },
    /// The evaluation of the slab at this position.
    Evaluated(usize),
}

/// Report status, coverage, sorted blockers and result rows.
#[derive(Clone, Debug, PartialEq, Eq)]
pub struct Adjudication {
    pub status: ComparisonStatus,
    pub coverage: Coverage,
    pub blockers: Vec<String>,
    pub rows: Vec<ResultRow>,
}

/// Whether a selector applies to an owned sample context.
pub open spec fn selects_owned(selector: Selector, ctx: SampleContextOwned) -> bool {
    &&& lists(selector.dataset_families@, ctx.dataset_family@)
    &&& selector.comparison_target@ == ctx.comparison_target@
    &&& selector.comparison_variant@ == ctx.comparison_variant@
    &&& selector.sample_scope@ == ctx.sample_scope@
    &&& selector.field_namespace@ == ctx.field_namespace@
    &&& lists(selector.fields@, ctx.field@)
    &&& list_admits(selector.coordinates@, ctx.coordinate@)
    &&& list_admits(selector.vertical_regions@, ctx.vertical_region@)
}

/// Positions of the selectors that apply to an owned context, in order.
pub open spec fn matching_rules_owned(selectors: Seq<Selector>, ctx: SampleContextOwned) -> Seq<usize>
    decreases selectors.len(),
{
    if selectors.len() == 0 {
        Seq::empty()
    } else if selects_owned(selectors.last(), ctx) {
        matching_rules_owned(selectors.drop_last(), ctx).push((selectors.len() - 1) as usize)
    } else {
        matching_rules_owned(selectors.drop_last(), ctx)
    }
}

proof fn lemma_matching_rules_view<'a>(selectors: Seq<Selector>, owned: SampleContextOwned, ctx: SampleContext<'a>)
    requires
        context_view(owned, ctx),
    ensures
        matching_rules(selectors, ctx) == matching_rules_owned(selectors, owned),
    decreases selectors.len(),
{
    if selectors.len() > 0 {
        lemma_matching_rules_view(selectors.drop_last(), owned, ctx);
        assert(selects(selectors.last(), ctx) == selects_owned(selectors.last(), owned));
    }
}

/// The slab's context names the report's comparison.
pub open spec fn identity_matches(slab: SlabSummary, comparison: ComparisonIdentity) -> bool {
    &&& slab.context.dataset_family@ == comparison.dataset_family@
    &&& slab.context.comparison_target@ == comparison.comparison_target@
    &&& slab.context.comparison_variant@ == comparison.comparison_variant@
}

/// How a slab is handled: identity first, then unique rule selection.
pub open spec fn spec_route(selectors: Seq<Selector>, comparison: ComparisonIdentity, slab: SlabSummary) -> SlabRoute {
    let hits = matching_rules_owned(selectors, slab.context);
    if !identity_matches(slab, comparison) {
        SlabRoute::IdentityMismatch
    } else if hits.len() == 0 {
        SlabRoute::Unvalidated
    } else if hits.len() == 1 {
        SlabRoute::Rule(hits[0])
    } else {
        SlabRoute::Ambiguous
    }
}

/// Routes one slab: identity check, then unique rule selection.
pub fn route_slab(selectors: &[Selector], comparison: &ComparisonIdentity, slab: &SlabSummary) -> (route: SlabRoute)
    ensures
        route == spec_route(selectors@, *comparison, *slab),
{
    if !text_eq(slab.context.dataset_family.as_str(), comparison.dataset_family.as_str())
        || !text_eq(slab.context.comparison_target.as_str(), comparison.comparison_target.as_str())
        || !text_eq(slab.context.comparison_variant.as_str(), comparison.comparison_variant.as_str())
    {
        return SlabRoute::IdentityMismatch;
    }
    let ctx = slab.context.as_ctx();
    proof {
        lemma_matching_rules_view(selectors@, slab.context, ctx);
    }
    match match_rule(selectors, &ctx) {
        Ok(index) => SlabRoute::Rule(index),
        Err(RuleMatchError::Unvalidated) => SlabRoute::Unvalidated,
        Err(RuleMatchError::Ambiguous) => SlabRoute::Ambiguous,
    }
}

/// The outcome's worst case is a configuration or shape error.
pub open spec fn outcome_is_config(outcome: SlabOutcome) -> bool {
    outcome.worst_case_id matches Some(w) && config_error_reason(w@)
}

/// Inputs of one adjudication, as views.
pub struct AdjudicationInput {
    pub expected: Seq<String>,
    pub slabs: Seq<SlabSummary>,
    pub selectors: Seq<Selector>,
    pub comparison: ComparisonIdentity,
    pub outcomes: Seq<Option<SlabOutcome>>,
    pub extra_blockers: Seq<String>,
}

impl AdjudicationInput {
    /// Route of slab `i`.
    pub open spec fn route(self, i: int) -> SlabRoute {
        spec_route(self.selectors, self.comparison, self.slabs[i])
    }

    /// Outcomes are present exactly for the slabs that reach a rule.
    pub open spec fn aligned(self) -> bool {
        &&& self.outcomes.len() == self.slabs.len()
        &&& forall|i: int| 0 <= i < self.slabs.len() ==> (#[trigger] self.outcomes[i] is Some) == (self.route(i) is Rule)
    }

    /// Id text of slab `i`.
    pub open spec fn id(self, i: int) -> Seq<char> {
        self.slabs[i].slab_id@
    }

    /// Slab `i` repeats the id of an earlier slab.
    pub open spec fn duplicate_at(self, i: int) -> bool {
        exists|j: int| 0 <= j < i && #[trigger] self.id(j) == self.id(i)
    }

    /// The blocker that slab `i`'s routing contributes, if any.
    pub open spec fn routing_blocker(self, i: int, b: Seq<char>) -> bool {
        match self.route(i) {
            SlabRoute::IdentityMismatch => b == "comparison_identity_mismatch:"@ + self.id(i),
            SlabRoute::Unvalidated => b == "unvalidated_rule:"@ + self.id(i),
            SlabRoute::Ambiguous => b == "ambiguous_rule:"@ + self.id(i),
            SlabRoute::Rule(_) => self.outcomes[i] matches Some(o) && o.worst_case_id matches Some(w)
                && config_error_reason(w@) && b == "config:"@ + self.id(i) + ":"@ + w@,
        }
    }


    /// Duplicate-id blockers of the first `n` slabs.
    pub open spec fn dup_part(self, n: int) -> Set<Seq<char>> {
        Set::new(|b: Seq<char>| exists|i: int| 0 <= i < n && #[trigger] self.duplicate_at(i) && b == "duplicate_slab:"@ + self.id(i))
    }

    /// Routing blockers of the first `n` slabs.
    pub open spec fn route_part(self, n: int) -> Set<Seq<char>> {
        Set::new(|b: Seq<char>| exists|i: int| 0 <= i < n && #[trigger] self.routing_blocker(i, b))
    }

    /// Ids of the first `n` slabs.
    pub open spec fn ids_upto(self, n: int) -> Set<Seq<char>> {
        Set::new(|t: Seq<char>| exists|i: int| 0 <= i < n && #[trigger] self.id(i) == t)
    }

    /// Blockers that stand before any slab is read.
    pub open spec fn base_part(self) -> Set<Seq<char>> {
        if self.expected.len() == 0 {
            texts(self.extra_blockers).to_set().insert("expected_case_ids_empty"@)
        } else {
            texts(self.extra_blockers).to_set()
        }
    }

    /// Blocker that slab `i`'s routing contributes, as a value.
    pub open spec fn routing_blocker_text(self, i: int) -> Option<Seq<char>> {
        match self.route(i) {
            SlabRoute::IdentityMismatch => Some("comparison_identity_mismatch:"@ + self.id(i)),
            SlabRoute::Unvalidated => Some("unvalidated_rule:"@ + self.id(i)),
            SlabRoute::Ambiguous => Some("ambiguous_rule:"@ + self.id(i)),
            SlabRoute::Rule(_) => match self.outcomes[i] {
                Some(o) => match o.worst_case_id {
                    Some(w) => if config_error_reason(w@) {
                        Some("config:"@ + self.id(i) + ":"@ + w@)
                    } else {
                        None
                    },
                    None => None,
                },
                None => None,
            },
        }
    }

    /// Expected case ids.
    pub open spec fn expected_set(self) -> Set<Seq<char>> {
        texts(self.expected).to_set()
    }

    /// Observed case ids: the ids of every submitted slab.
    pub open spec fn observed_set(self) -> Set<Seq<char>> {
        Set::new(|t: Seq<char>| exists|i: int| 0 <= i < self.slabs.len() && #[trigger] self.id(i) == t)
    }

    /// Expected case ids that no slab submitted.
    pub open spec fn missing_set(self) -> Set<Seq<char>> {
        self.expected_set().difference(self.observed_set())
    }

    /// Submitted ids that the expected matrix does not hold.
    pub open spec fn unexpected_set(self) -> Set<Seq<char>> {
        self.observed_set().difference(self.expected_set())
    }

    /// Every blocker of the report.
    pub open spec fn blocker_set(self) -> Set<Seq<char>> {
        Set::new(|b: Seq<char>| {
            ||| texts(self.extra_blockers).contains(b)
            ||| self.expected.len() == 0 && b == "expected_case_ids_empty"@
            ||| exists|i: int| 0 <= i < self.slabs.len() && #[trigger] self.duplicate_at(i) && b == "duplicate_slab:"@ + self.id(i)
            ||| exists|i: int| 0 <= i < self.slabs.len() && #[trigger] self.routing_blocker(i, b)
            ||| exists|m: Seq<char>| self.missing_set().contains(m) && b == "missing_case:"@ + m
            ||| exists|x: Seq<char>| self.unexpected_set().contains(x) && b == "unexpected_case:"@ + x
        })
    }

    /// Slab `i`'s routing or evaluation is a configuration error.
    pub open spec fn slab_config(self, i: int) -> bool {
        match self.route(i) {
            SlabRoute::IdentityMismatch | SlabRoute::Ambiguous => true,
            SlabRoute::Unvalidated => false,
            SlabRoute::Rule(_) => self.outcomes[i] matches Some(o) && outcome_is_config(o),
        }
    }

    /// Slab `i` has no applicable rule, or its evaluation is unvalidated.
    pub open spec fn slab_unvalidated(self, i: int) -> bool {
        match self.route(i) {
            SlabRoute::Unvalidated => true,
            SlabRoute::Rule(_) => self.outcomes[i] matches Some(o) && o.status == ResultStatus::Unvalidated,
            _ => false,
        }
    }

    /// Slab `i`'s hard-gate rule failed numerically (not as a configuration error).
    pub open spec fn slab_hard_fail(self, i: int) -> bool {
        self.route(i) is Rule && (self.outcomes[i] matches Some(o) && o.status == ResultStatus::Fail
            && !outcome_is_config(o) && o.decision == Decision::HardGate)
    }

    /// Slab `i`'s hard-gate rule passed.
    pub open spec fn slab_pass(self, i: int) -> bool {
        self.route(i) is Rule && (self.outcomes[i] matches Some(o) && o.status == ResultStatus::Pass
            && o.decision == Decision::HardGate)
    }

    /// Some slab makes the report a configuration error.
    pub open spec fn config_error(self) -> bool {
        ||| exists|i: int| 0 <= i < self.slabs.len() && #[trigger] self.duplicate_at(i)
        ||| exists|i: int| 0 <= i < self.slabs.len() && #[trigger] self.slab_config(i)
        ||| !self.unexpected_set().is_empty()
    }

    /// Some slab has no applicable rule, or its evaluation is unvalidated.
    pub open spec fn any_unvalidated(self) -> bool {
        exists|i: int| 0 <= i < self.slabs.len() && #[trigger] self.slab_unvalidated(i)
    }

    /// Some hard-gate rule failed numerically.
    pub open spec fn hard_fail(self) -> bool {
        exists|i: int| 0 <= i < self.slabs.len() && #[trigger] self.slab_hard_fail(i)
    }

    /// Some hard-gate rule passed.
    pub open spec fn any_hard_gate_pass(self) -> bool {
        exists|i: int| 0 <= i < self.slabs.len() && #[trigger] self.slab_pass(i)
    }

    /// Overall status: configuration or coverage problems first, then
    /// unvalidated slabs, then any blocker, then hard failures; a pass needs
    /// a hard-gate pass and nothing else.
    pub open spec fn status(self) -> ComparisonStatus {
        if self.config_error() || !self.missing_set().is_empty() {
            ComparisonStatus::Incomplete
        } else if self.any_unvalidated() {
            ComparisonStatus::Unvalidated
        } else if !self.blocker_set().is_empty() {
            ComparisonStatus::Incomplete
        } else if self.hard_fail() {
            ComparisonStatus::Failed
        } else if self.any_hard_gate_pass() {
            ComparisonStatus::Passed
        } else {
            ComparisonStatus::Incomplete
        }
    }

    /// Result rows of the first `n` slabs, in slab order.
    pub open spec fn rows(self, n: int) -> Seq<ResultRow>
        decreases n,
    {
        if n <= 0 {
            Seq::empty()
        } else {
            match self.route(n - 1) {
                SlabRoute::Unvalidated => self.rows(n - 1).push(
                    ResultRow::Unvalidated { field: self.slabs[n - 1].context.field },
                ),
                SlabRoute::Rule(_) => self.rows(n - 1).push(ResultRow::Evaluated((n - 1) as usize)),
                _ => self.rows(n - 1),
            }
        }
    }
}

/// A report-only rule never yields a pass, and a hard gate passes only with
/// no numeric, non-finite or metadata failure.
pub proof fn lemma_report_only_never_passes(decision: Decision, numeric_fail: u64, non_finite: u64, meta_fail: u64)
    ensures
        decision == Decision::ReportOnly ==> spec_finalize_status(decision, numeric_fail, non_finite, meta_fail)
            == ResultStatus::Reported,
        spec_finalize_status(decision, numeric_fail, non_finite, meta_fail) == ResultStatus::Pass
            <==> (decision == Decision::HardGate && numeric_fail == 0 && non_finite == 0 && meta_fail == 0),
{
}

/// A scalar slab whose subject or reference value count, or either mask
/// length, differs from its expected element count is refused before any
/// value is compared, as a structural failure with `length_or_structure`;
/// so is a vector slab whose element list has another length.
pub proof fn lemma_length_mismatch_is_refused(
    decision: Decision,
    vector_rule: bool,
    names: Seq<ExactMetadataName>,
    shape: SlabShape,
    subject: SideMetadata,
    reference: SideMetadata,
    subject_mask: Seq<bool>,
    reference_mask: Seq<bool>,
)
    ensures
        ({
            let n = shape.expected_element_count as int;
            &&& !vector_rule && (shape.subject_values != n || shape.reference_values != n
                || subject_mask.len() != n || reference_mask.len() != n)
                ==> spec_precheck(decision, vector_rule, names, shape, subject, reference, subject_mask, reference_mask)
                    == Some((ResultStatus::Fail, "length_or_structure"@))
            &&& vector_rule && (shape.vector_case_ids matches Some(ids) && ids@.len() != n)
                ==> spec_precheck(decision, vector_rule, names, shape, subject, reference, subject_mask, reference_mask)
                    == Some((ResultStatus::Fail, "length_or_structure"@))
        }),
{
}

/// Every structural reason a precheck can give is a configuration error:
/// the reasons for a length mismatch, missing or duplicated vector elements,
/// diagnostic ids of the wrong length, and vector data under a scalar rule.
pub proof fn lemma_structural_reasons_are_configuration_errors(
    vector_rule: bool,
    shape: SlabShape,
    subject_mask: nat,
    reference_mask: nat,
)
    ensures
        config_error_reason("length_or_structure"@),
        config_error_reason("missing_vector_elements"@),
        config_error_reason("duplicate_vector_case_id"@),
        config_error_reason("element_case_id_length"@),
        config_error_reason("scalar_rule_with_vector_data"@),
        config_error_reason("vector_rule_without_vector_data"@),
        structure_reason(vector_rule, shape, subject_mask, reference_mask) matches Some(reason)
            ==> config_error_reason(reason),
{
}

/// A slab refused for its structure makes the report incomplete, never
/// failed, and leaves the blocker `config:<slab id>:<reason>`.
pub proof fn lemma_structural_refusal_makes_report_incomplete(
    input: AdjudicationInput,
    i: int,
    vector_rule: bool,
    shape: SlabShape,
    subject_mask: nat,
    reference_mask: nat,
)
    requires
        0 <= i < input.slabs.len(),
        input.route(i) is Rule,
        input.outcomes.len() == input.slabs.len(),
        input.outcomes[i] matches Some(o) && o.worst_case_id matches Some(w)
            && structure_reason(vector_rule, shape, subject_mask, reference_mask) == Some(w@),
    ensures
        input.status() == ComparisonStatus::Incomplete,
        input.blocker_set().contains("config:"@ + input.id(i) + ":"@ + input.outcomes[i]->Some_0.worst_case_id->Some_0@),
{
    let o = input.outcomes[i]->Some_0;
    let w = o.worst_case_id->Some_0;
    lemma_structural_reasons_are_configuration_errors(vector_rule, shape, subject_mask, reference_mask);
    assert(input.slab_config(i));
    assert(input.config_error());
    let b = "config:"@ + input.id(i) + ":"@ + w@;
    assert(input.routing_blocker(i, b));
}

/// A report passes only with complete coverage, no blocker, no configuration
/// error, no unvalidated slab, no hard failure and at least one hard-gate
/// pass; a report fails only with no blocker; every missing case is named
/// among the blockers; and a configuration error or a missing case makes the
/// report incomplete, whatever else holds.
pub proof fn lemma_status_priority(input: AdjudicationInput)
    ensures
        input.status() == ComparisonStatus::Passed ==> {
            &&& input.blocker_set().is_empty()
            &&& input.missing_set().is_empty()
            &&& !input.config_error()
            &&& !input.any_unvalidated()
            &&& !input.hard_fail()
            &&& input.any_hard_gate_pass()
        },
        input.status() == ComparisonStatus::Failed ==> input.blocker_set().is_empty() && input.hard_fail(),
        forall|m: Seq<char>| #[trigger] input.missing_set().contains(m)
            ==> input.blocker_set().contains("missing_case:"@ + m),
        input.config_error() || !input.missing_set().is_empty() ==> input.status() == ComparisonStatus::Incomplete,
{
}

/// `tag` followed by `id`.
fn tagged(tag: &str, id: &str) -> (text: String)
    ensures
        text@ == tag@ + id@,
{
    String::from_str(tag).concat(id)
}

/// `tag` prefixed to every text of `items`.
pub open spec fn tagged_set(tag: Seq<char>, items: Set<Seq<char>>) -> Set<Seq<char>> {
    Set::new(|b: Seq<char>| exists|m: Seq<char>| items.contains(m) && b == tag + m)
}

/// Sorted set of the texts of `items`.
fn text_set_of(items: &[String]) -> (set: Vec<String>)
    ensures
        strictly_sorted(texts(set@)),
        texts(set@).to_set() == texts(items@).to_set(),
{
    let mut set: Vec<String> = Vec::new();
    let mut k: usize = 0;
    proof {
        assert(texts(set@).to_set() =~= texts(items@.take(0)).to_set());
    }
    while k < items.len()
        invariant
            k <= items@.len(),
            strictly_sorted(texts(set@)),
            texts(set@).to_set() == texts(items@.take(k as int)).to_set(),
        decreases items@.len() - k,
    {
        set_insert(&mut set, items[k].clone());
        k += 1;
        proof {
            assert(texts(items@.take(k as int)) =~= texts(items@.take(k - 1)).push(items@[k - 1]@));
            texts(items@.take(k - 1)).lemma_push_to_set_commute(items@[k - 1]@);
        }
    }
    proof {
        assert(items@.take(k as int) =~= items@);
    }
    set
}

/// Adds `tag` + each text of a list to a sorted blocker set.
fn insert_tagged_all(blockers: &mut Vec<String>, tag: &str, items: &Vec<String>)
    requires
        strictly_sorted(texts(old(blockers)@)),
    ensures
        strictly_sorted(texts(final(blockers)@)),
        texts(final(blockers)@).to_set() == texts(old(blockers)@).to_set().union(tagged_set(tag@, texts(items@).to_set())),
{
    let ghost start = texts(blockers@).to_set();
    let mut k: usize = 0;
    proof {
        assert(tagged_set(tag@, texts(items@.take(0)).to_set()) =~= Set::<Seq<char>>::empty());
        assert(start.union(Set::<Seq<char>>::empty()) =~= start);
    }
    while k < items.len()
        invariant
            k <= items@.len(),
            strictly_sorted(texts(blockers@)),
            texts(blockers@).to_set() == start.union(tagged_set(tag@, texts(items@.take(k as int)).to_set())),
        decreases items@.len() - k,
    {
        let text = tagged(tag, items[k].as_str());
        set_insert(blockers, text);
        k += 1;
        proof {
            let before = tagged_set(tag@, texts(items@.take(k - 1)).to_set());
            let after = tagged_set(tag@, texts(items@.take(k as int)).to_set());
            assert(texts(items@.take(k as int)) =~= texts(items@.take(k - 1)).push(items@[k - 1]@));
            assert forall|b: Seq<char>| #[trigger] after.contains(b) <==> before.insert(tag@ + items@[k - 1]@).contains(b) by {
                if after.contains(b) {
                    let m = choose|m: Seq<char>| texts(items@.take(k as int)).to_set().contains(m) && b == tag@ + m;
                    let q = choose|q: int| 0 <= q < texts(items@.take(k as int)).len() && #[trigger] texts(items@.take(k as int))[q] == m;
                    if q < k - 1 {
                        assert(texts(items@.take(k - 1))[q] == m);
                        assert(texts(items@.take(k - 1)).to_set().contains(m));
                    }
                }
                if before.contains(b) {
                    let m = choose|m: Seq<char>| texts(items@.take(k - 1)).to_set().contains(m) && b == tag@ + m;
                    let q = choose|q: int| 0 <= q < texts(items@.take(k - 1)).len() && #[trigger] texts(items@.take(k - 1))[q] == m;
                    assert(texts(items@.take(k as int))[q] == m);
                    assert(texts(items@.take(k as int)).to_set().contains(m));
                }
                if b == tag@ + items@[k - 1]@ {
                    assert(texts(items@.take(k as int))[k - 1] == items@[k - 1]@);
                    assert(texts(items@.take(k as int)).to_set().contains(items@[k - 1]@));
                }
            }
            assert(after =~= before.insert(tag@ + items@[k - 1]@));
            assert(texts(blockers@).to_set() =~= start.union(after));
        }
    }
    proof {
        assert(items@.take(k as int) =~= items@);
    }
}

/// The texts of sorted set `a` that sorted set `b` lacks, in order.
fn sorted_difference(a: &Vec<String>, b: &Vec<String>) -> (difference: Vec<String>)
    requires
        strictly_sorted(texts(a@)),
    ensures
        strictly_sorted(texts(difference@)),
        texts(difference@).to_set() == texts(a@).to_set().difference(texts(b@).to_set()),
{
    let ghost ta = texts(a@);
    let mut difference: Vec<String> = Vec::new();
    let mut k: usize = 0;
    while k < a.len()
        invariant
            ta == texts(a@),
            strictly_sorted(ta),
            k <= a@.len(),
            strictly_sorted(texts(difference@)),
            forall|d: int, q: int| 0 <= d < difference@.len() && k <= q < a@.len() ==> text_lt(#[trigger] texts(difference@)[d], #[trigger] ta[q]),
            texts(difference@).to_set() == ta.take(k as int).to_set().difference(texts(b@).to_set()),
        decreases a@.len() - k,
    {
        let ghost before = texts(difference@);
        if !set_holds(b, a[k].as_str()) {
            difference.push(a[k].clone());
            proof {
                assert(texts(difference@) =~= before.push(ta[k as int]));
            }
        }
        k += 1;
        proof {
            assert(ta.take(k as int) =~= ta.take(k - 1).push(ta[k - 1]));
            ta.take(k - 1).lemma_push_to_set_commute(ta[k - 1]);
            before.lemma_push_to_set_commute(ta[k - 1]);
            assert(texts(difference@).to_set() =~= ta.take(k as int).to_set().difference(texts(b@).to_set()));
        }
    }
    proof {
        assert(ta.take(k as int) =~= ta);
    }
    difference
}

/// Adjudicates submitted slabs against the registry's rule selectors and the
/// frozen expected case ids. `outcomes` holds, for each slab that reaches a
/// rule, what evaluating it produced.
pub fn adjudicate(
    expected_case_ids: &[String],
    slabs: &[SlabSummary],
    selectors: &[Selector],
    comparison: &ComparisonIdentity,
    outcomes: &[Option<SlabOutcome>],
    extra_blockers: &[String],
) -> (adjudication: Adjudication)
    requires
        (AdjudicationInput {
            expected: expected_case_ids@,
            slabs: slabs@,
            selectors: selectors@,
            comparison: *comparison,
            outcomes: outcomes@,
            extra_blockers: extra_blockers@,
        }).aligned(),
    ensures
        ({
            let input = AdjudicationInput {
                expected: expected_case_ids@,
                slabs: slabs@,
                selectors: selectors@,
                comparison: *comparison,
                outcomes: outcomes@,
                extra_blockers: extra_blockers@,
            };
            &&& adjudication.status == input.status()
            &&& strictly_sorted(texts(adjudication.blockers@))
            &&& texts(adjudication.blockers@).to_set() == input.blocker_set()
            &&& strictly_sorted(texts(adjudication.coverage.expected_case_ids@))
            &&& texts(adjudication.coverage.expected_case_ids@).to_set() == input.expected_set()
            &&& strictly_sorted(texts(adjudication.coverage.observed_case_ids@))
            &&& texts(adjudication.coverage.observed_case_ids@).to_set() == input.observed_set()
            &&& strictly_sorted(texts(adjudication.coverage.missing_case_ids@))
            &&& texts(adjudication.coverage.missing_case_ids@).to_set() == input.missing_set()
            &&& adjudication.rows@ == input.rows(slabs@.len() as int)
        }),
{
    let ghost input = AdjudicationInput {
        expected: expected_case_ids@,
        slabs: slabs@,
        selectors: selectors@,
        comparison: *comparison,
        outcomes: outcomes@,
        extra_blockers: extra_blockers@,
    };
    let n = slabs.len();
    let mut blockers = text_set_of(extra_blockers);
    let expected = text_set_of(expected_case_ids);
    if expected_case_ids.len() == 0 {
        proof {
            reveal_strlit("expected_case_ids_empty");
        }
        set_insert(&mut blockers, String::from_str("expected_case_ids_empty"));
    }
    let ghost base = texts(blockers@).to_set();
    proof {
        assert(base == input.base_part());
        assert(input.dup_part(0) =~= Set::<Seq<char>>::empty());
        assert(base.union(input.dup_part(0)) =~= base);
        assert(input.ids_upto(0) =~= Set::<Seq<char>>::empty());
        assert(texts(Seq::<String>::empty()).to_set() =~= Set::<Seq<char>>::empty());
    }
    let mut seen: Vec<String> = Vec::new();
    let mut duplicate = false;
    let mut i: usize = 0;
    while i < n
        invariant
            n == slabs@.len(),
            input.slabs == slabs@,
            i <= n,
            strictly_sorted(texts(seen@)),
            texts(seen@).to_set() == input.ids_upto(i as int),
            strictly_sorted(texts(blockers@)),
            texts(blockers@).to_set() == base.union(input.dup_part(i as int)),
            duplicate == exists|j: int| 0 <= j < i && #[trigger] input.duplicate_at(j),
        decreases n - i,
    {
        let id = slabs[i].slab_id.as_str();
        let ghost before_blockers = texts(blockers@).to_set();
        let ghost before_seen = texts(seen@).to_set();
        proof {
            assert(input.id(i as int) == id@);
            assert(input.duplicate_at(i as int) == input.ids_upto(i as int).contains(id@)) by {
                if input.ids_upto(i as int).contains(id@) {
                    let j = choose|j: int| 0 <= j < i && #[trigger] input.id(j) == id@;
                    assert(input.id(j) == input.id(i as int));
                }
                if input.duplicate_at(i as int) {
                    let j = choose|j: int| 0 <= j < i && #[trigger] input.id(j) == input.id(i as int);
                    assert(input.ids_upto(i as int).contains(input.id(j)));
                }
            }
        }
        if set_holds(&seen, id) {
            proof {
                reveal_strlit("duplicate_slab:");
            }
            set_insert(&mut blockers, tagged("duplicate_slab:", id));
            duplicate = true;
            proof {
                assert(input.ids_upto(i + 1) =~= input.ids_upto(i as int).insert(id@));
                assert(input.ids_upto(i as int).insert(id@) =~= input.ids_upto(i as int));
                assert(input.dup_part(i + 1) =~= input.dup_part(i as int).insert("duplicate_slab:"@ + id@));
                assert(texts(blockers@).to_set() =~= base.union(input.dup_part(i + 1)));
            }
        } else {
            set_insert(&mut seen, slabs[i].slab_id.clone());
            proof {
                assert(input.ids_upto(i + 1) =~= input.ids_upto(i as int).insert(id@));
                assert(input.dup_part(i + 1) =~= input.dup_part(i as int));
            }
        }
        i += 1;
    }
    let ghost after_dups = texts(blockers@).to_set();
    proof {
        assert(input.route_part(0) =~= Set::<Seq<char>>::empty());
        assert(after_dups.union(input.route_part(0)) =~= after_dups);
        assert(input.rows(0) =~= Seq::<ResultRow>::empty());
    }
    let mut observed: Vec<String> = Vec::new();
    let mut rows: Vec<ResultRow> = Vec::new();
    let mut routing_config = false;
    let mut unvalidated = false;
    let mut hard_fail = false;
    let mut hard_pass = false;
    let mut i: usize = 0;
    while i < n
        invariant
            n == slabs@.len(),
            input.slabs == slabs@,
            input.outcomes == outcomes@,
            input.selectors == selectors@,
            input.comparison == *comparison,
            input.aligned(),
            i <= n,
            strictly_sorted(texts(observed@)),
            texts(observed@).to_set() == input.ids_upto(i as int),
            strictly_sorted(texts(blockers@)),
            texts(blockers@).to_set() == after_dups.union(input.route_part(i as int)),
            routing_config == exists|j: int| 0 <= j < i && #[trigger] input.slab_config(j),
            unvalidated == exists|j: int| 0 <= j < i && #[trigger] input.slab_unvalidated(j),
            hard_fail == exists|j: int| 0 <= j < i && #[trigger] input.slab_hard_fail(j),
            hard_pass == exists|j: int| 0 <= j < i && #[trigger] input.slab_pass(j),
            rows@ == input.rows(i as int),
        decreases n - i,
    {
        let slab = &slabs[i];
        let id = slab.slab_id.as_str();
        set_insert(&mut observed, slab.slab_id.clone());
        proof {
            assert(input.id(i as int) == id@);
            assert(input.ids_upto(i + 1) =~= input.ids_upto(i as int).insert(id@));
        }
        let ghost prior = texts(blockers@).to_set();
        let ghost config_before = routing_config;
        let ghost unvalidated_before = unvalidated;
        let ghost fail_before = hard_fail;
        let ghost pass_before = hard_pass;
        let route = route_slab(selectors, comparison, slab);
        let mut blocker: Option<String> = None;
        match route {
            SlabRoute::IdentityMismatch => {
                proof { reveal_strlit("comparison_identity_mismatch:"); }
                blocker = Some(tagged("comparison_identity_mismatch:", id));
                routing_config = true;
            },
            SlabRoute::Unvalidated => {
                proof { reveal_strlit("unvalidated_rule:"); }
                unvalidated = true;
                rows.push(ResultRow::Unvalidated { field: slab.context.field.clone() });
                blocker = Some(tagged("unvalidated_rule:", id));
            },
            SlabRoute::Ambiguous => {
                proof { reveal_strlit("ambiguous_rule:"); }
                routing_config = true;
                blocker = Some(tagged("ambiguous_rule:", id));
            },
            SlabRoute::Rule(_) => {
                match &outcomes[i] {
                    Some(outcome) => {
                        let config = match &outcome.worst_case_id {
                            Some(worst) => {
                                if is_config_error_reason(worst.as_str()) {
                                    proof {
                                        reveal_strlit("config:");
                                        reveal_strlit(":");
                                    }
                                    blocker = Some(tagged(tagged("config:", id).concat(":").as_str(), worst.as_str()));
                                    true
                                } else {
                                    false
                                }
                            },
                            None => false,
                        };
                        if config {
                            routing_config = true;
                        }
                        match outcome.status {
                            ResultStatus::Fail => {
                                if !config && outcome.decision == Decision::HardGate {
                                    hard_fail = true;
                                }
                            },
                            ResultStatus::Unvalidated => {
                                unvalidated = true;
                            },
                            ResultStatus::Pass => {
                                if outcome.decision == Decision::HardGate {
                                    hard_pass = true;
                                }
                            },
                            ResultStatus::Reported => {},
                        }
                    },
                    None => {},
                }
                rows.push(ResultRow::Evaluated(i));
            },
        }
        proof {
            assert(routing_config == (config_before || input.slab_config(i as int)));
            assert(unvalidated == (unvalidated_before || input.slab_unvalidated(i as int)));
            assert(hard_fail == (fail_before || input.slab_hard_fail(i as int)));
            assert(hard_pass == (pass_before || input.slab_pass(i as int)));
            if input.slab_config(i as int) {
                assert(exists|j: int| 0 <= j < i + 1 && #[trigger] input.slab_config(j));
            }
            if input.slab_unvalidated(i as int) {
                assert(exists|j: int| 0 <= j < i + 1 && #[trigger] input.slab_unvalidated(j));
            }
            if input.slab_hard_fail(i as int) {
                assert(exists|j: int| 0 <= j < i + 1 && #[trigger] input.slab_hard_fail(j));
            }
            if input.slab_pass(i as int) {
                assert(exists|j: int| 0 <= j < i + 1 && #[trigger] input.slab_pass(j));
            }
            assert(blocker matches Some(b) ==> input.routing_blocker_text(i as int) == Some(b@));
            assert(blocker is None ==> input.routing_blocker_text(i as int) is None);
        }
        match blocker {
            Some(text) => set_insert(&mut blockers, text),
            None => {},
        }
        proof {
            assert forall|b: Seq<char>| input.routing_blocker(i as int, b) <==> input.routing_blocker_text(i as int) == Some(b) by {}
            assert forall|b: Seq<char>| #[trigger] input.route_part(i + 1).contains(b) <==> (input.route_part(i as int).contains(b)
                || input.routing_blocker_text(i as int) == Some(b)) by {
                if input.route_part(i + 1).contains(b) {
                    let j = choose|j: int| 0 <= j < i + 1 && #[trigger] input.routing_blocker(j, b);
                    if j < i {
                        assert(input.route_part(i as int).contains(b));
                    }
                }
                if input.route_part(i as int).contains(b) {
                    let j = choose|j: int| 0 <= j < i && #[trigger] input.routing_blocker(j, b);
                    assert(input.routing_blocker(j, b));
                }
                if input.routing_blocker_text(i as int) == Some(b) {
                    assert(input.routing_blocker(i as int, b));
                }
            }
            assert(texts(blockers@).to_set() =~= after_dups.union(input.route_part(i + 1)));
            assert(rows@ =~= input.rows(i + 1));
        }
        i += 1;
    }
    let missing = sorted_difference(&expected, &observed);
    let unexpected = sorted_difference(&observed, &expected);
    proof {
        reveal_strlit("missing_case:");
        reveal_strlit("unexpected_case:");
    }
    insert_tagged_all(&mut blockers, "missing_case:", &missing);
    insert_tagged_all(&mut blockers, "unexpected_case:", &unexpected);
    let config_error = duplicate || routing_config || unexpected.len() > 0;
    proof {
        assert(input.ids_upto(n as int) =~= input.observed_set());
        assert(texts(unexpected@).to_set() == input.unexpected_set());
        assert(texts(missing@).to_set() == input.missing_set());
        assert((unexpected.len() > 0) == !input.unexpected_set().is_empty()) by {
            if unexpected.len() > 0 {
                assert(input.unexpected_set().contains(texts(unexpected@)[0]));
            } else {
                assert(texts(unexpected@).to_set() =~= Set::<Seq<char>>::empty());
            }
        }
        assert(config_error == input.config_error());
        assert(texts(blockers@).to_set() =~= input.blocker_set()) by {
            assert forall|b: Seq<char>| #[trigger] texts(blockers@).to_set().contains(b) <==> input.blocker_set().contains(b) by {
                if input.dup_part(n as int).contains(b) {
                    let j = choose|j: int| 0 <= j < n && #[trigger] input.duplicate_at(j) && b == "duplicate_slab:"@ + input.id(j);
                }
                if input.route_part(n as int).contains(b) {
                    let j = choose|j: int| 0 <= j < n && #[trigger] input.routing_blocker(j, b);
                }
            }
        }
    }
    let missing_count = missing.len();
    let status = if config_error || missing_count > 0 {
        ComparisonStatus::Incomplete
    } else if unvalidated {
        ComparisonStatus::Unvalidated
    } else if blockers.len() > 0 {
        ComparisonStatus::Incomplete
    } else if hard_fail {
        ComparisonStatus::Failed
    } else if hard_pass {
        ComparisonStatus::Passed
    } else {
        ComparisonStatus::Incomplete
    };
    proof {
        assert((missing_count > 0) == !input.missing_set().is_empty()) by {
            if missing_count > 0 {
                assert(input.missing_set().contains(texts(missing@)[0]));
            } else {
                assert(texts(missing@).to_set() =~= Set::<Seq<char>>::empty());
            }
        }
        assert((blockers.len() > 0) == !input.blocker_set().is_empty()) by {
            if blockers.len() > 0 {
                assert(input.blocker_set().contains(texts(blockers@)[0]));
            } else {
                assert(texts(blockers@).to_set() =~= Set::<Seq<char>>::empty());
            }
        }
    }
    Adjudication {
        status,
        coverage: Coverage { expected_case_ids: expected, observed_case_ids: observed, missing_case_ids: missing },
        blockers,
        rows,
    }
}

} // verus!
