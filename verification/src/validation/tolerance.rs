//! Tolerance registry vocabulary, unique rule matching, ordered binary64
//! distances, and integrity digests.

use vstd::prelude::*;
use vstd::string::*;
use crate::digest::{hex_lower, lower_hex, sha256, sha256_digest};
use crate::text::{text_eq, texts};

verus! {

/// Decision class for one matched rule.
#[derive(Clone, Copy, Debug, PartialEq, Eq, Structural)]
pub enum Decision {
    /// Failure makes the report fail.
    HardGate,
    /// Failure is recorded without flipping hard-gate overall status.
    ReportOnly,
}

/// Exact equality flavour for the `exact` metric.
#[derive(Clone, Copy, Debug, PartialEq, Eq, Structural)]
pub enum ExactEquality {
    /// Finite numeric equality (`+0`/`-0` may be equal by policy).
    Numeric,
    /// Bit-identical IEEE representation.
    Bitwise,
}

/// Named metadata that must match exactly before numeric metrics run.
#[derive(Clone, Copy, Debug, PartialEq, Eq, Structural)]
pub enum ExactMetadataName {
    ValidTimes,
    Grid,
    VerticalTopology,
    Layout,
    Mask,
    Unit,
    TemporalSupport,
    Status,
    Validity,
}

/// Rule selector fields.
#[derive(Clone, Debug, PartialEq, Eq)]
pub struct Selector {
    pub dataset_families: Vec<String>,
    pub comparison_target: String,
    pub comparison_variant: String,
    pub sample_scope: String,
    pub field_namespace: String,
    pub fields: Vec<String>,
    pub coordinates: Vec<String>,
    pub vertical_regions: Vec<String>,
}

/// Calibration report pointer inside the registry.
#[derive(Clone, Debug, PartialEq, Eq)]
pub struct CalibrationReportRef {
    pub path: String,
    pub sha256: String,
    pub state: String,
}

/// Sample context used for unique rule matching.
#[derive(Clone, Copy, Debug, PartialEq, Eq)]
pub struct SampleContext<'a> {
    pub dataset_family: &'a str,
    pub comparison_target: &'a str,
    pub comparison_variant: &'a str,
    pub sample_scope: &'a str,
    pub field_namespace: &'a str,
    pub field: &'a str,
    pub coordinate: &'a str,
    pub vertical_region: &'a str,
}

/// Rule match failure modes.
#[derive(Clone, Copy, Debug, PartialEq, Eq, Structural)]
pub enum RuleMatchError {
    /// Zero rules matched after selector expansion.
    Unvalidated,
    /// More than one rule matched.
    Ambiguous,
}

/// Whether some item of `items` is `value`.
pub open spec fn lists(items: Seq<String>, value: Seq<char>) -> bool {
    exists|i: int| 0 <= i < items.len() && (#[trigger] items[i])@ == value
}

/// A selector list matches a value when it names the value or `all`.
pub open spec fn list_admits(items: Seq<String>, value: Seq<char>) -> bool {
    lists(items, value) || lists(items, "all"@)
}

/// Whether `items` holds `value` exactly.
fn list_holds(items: &[String], value: &str) -> (held: bool)
    ensures
        held == lists(items@, value@),
{
    let mut k: usize = 0;
    while k < items.len()
        invariant
            k <= items@.len(),
            forall|q: int| 0 <= q < k ==> (#[trigger] items@[q])@ != value@,
        decreases items@.len() - k,
    {
        if text_eq(items[k].as_str(), value) {
            return true;
        }
        k += 1;
    }
    false
}

/// Whether a selector list admits `value`: it names it, or names `all`.
pub fn list_matches(items: &[String], value: &str) -> (admitted: bool)
    ensures
        admitted == list_admits(items@, value@),
{
    let mut k: usize = 0;
    while k < items.len()
        invariant
            k <= items@.len(),
            forall|q: int| 0 <= q < k ==> (#[trigger] items@[q])@ != value@ && items@[q]@ != "all"@,
        decreases items@.len() - k,
    {
        if text_eq(items[k].as_str(), "all") || text_eq(items[k].as_str(), value) {
            return true;
        }
        k += 1;
    }
    false
}

/// Whether a selector applies to a sample context.
pub open spec fn selects(selector: Selector, ctx: SampleContext) -> bool {
    &&& lists(selector.dataset_families@, ctx.dataset_family@)
    &&& selector.comparison_target@ == ctx.comparison_target@
    &&& selector.comparison_variant@ == ctx.comparison_variant@
    &&& selector.sample_scope@ == ctx.sample_scope@
    &&& selector.field_namespace@ == ctx.field_namespace@
    &&& lists(selector.fields@, ctx.field@)
    &&& list_admits(selector.coordinates@, ctx.coordinate@)
    &&& list_admits(selector.vertical_regions@, ctx.vertical_region@)
}

/// Whether one selector applies to a sample context.
pub fn selector_matches(selector: &Selector, ctx: &SampleContext) -> (selected: bool)
    ensures
        selected == selects(*selector, *ctx),
{
    list_holds(selector.dataset_families.as_slice(), ctx.dataset_family)
        && text_eq(selector.comparison_target.as_str(), ctx.comparison_target)
        && text_eq(selector.comparison_variant.as_str(), ctx.comparison_variant)
        && text_eq(selector.sample_scope.as_str(), ctx.sample_scope)
        && text_eq(selector.field_namespace.as_str(), ctx.field_namespace)
        && list_holds(selector.fields.as_slice(), ctx.field)
        && list_matches(selector.coordinates.as_slice(), ctx.coordinate)
        && list_matches(selector.vertical_regions.as_slice(), ctx.vertical_region)
}

/// Positions of the selectors that apply to `ctx`, in order.
pub open spec fn matching_rules(selectors: Seq<Selector>, ctx: SampleContext) -> Seq<usize>
    decreases selectors.len(),
{
    if selectors.len() == 0 {
        Seq::empty()
    } else if selects(selectors.last(), ctx) {
        matching_rules(selectors.drop_last(), ctx).push((selectors.len() - 1) as usize)
    } else {
        matching_rules(selectors.drop_last(), ctx)
    }
}

/// The unique rule whose selector applies to `ctx`: its position in the
/// registry, `Unvalidated` when none applies, `Ambiguous` when several do.
pub fn match_rule(selectors: &[Selector], ctx: &SampleContext) -> (matched: Result<usize, RuleMatchError>)
    ensures
        matching_rules(selectors@, *ctx).len() == 0 ==> matched == Err::<usize, RuleMatchError>(RuleMatchError::Unvalidated),
        matching_rules(selectors@, *ctx).len() == 1 ==> matched == Ok::<usize, RuleMatchError>(matching_rules(selectors@, *ctx)[0]),
        matching_rules(selectors@, *ctx).len() > 1 ==> matched == Err::<usize, RuleMatchError>(RuleMatchError::Ambiguous),
{
    let mut hits: Vec<usize> = Vec::new();
    let mut k: usize = 0;
    while k < selectors.len()
        invariant
            k <= selectors@.len(),
            hits@ == matching_rules(selectors@.take(k as int), *ctx),
        decreases selectors@.len() - k,
    {
        proof {
            assert(selectors@.take(k + 1).drop_last() =~= selectors@.take(k as int));
            assert(selectors@.take(k + 1).last() == selectors@[k as int]);
        }
        if selector_matches(&selectors[k], ctx) {
            hits.push(k);
        }
        k += 1;
    }
    proof {
        assert(selectors@.take(selectors@.len() as int) =~= selectors@);
    }
    if hits.len() == 0 {
        Err(RuleMatchError::Unvalidated)
    } else if hits.len() == 1 {
        Ok(hits[0])
    } else {
        Err(RuleMatchError::Ambiguous)
    }
}

/// Key that orders finite binary64 values (given by their bits) as numbers.
pub open spec fn spec_ordered_key(bits: u64) -> u64 {
    if bits & 0x8000_0000_0000_0000u64 == 0 {
        bits | 0x8000_0000_0000_0000u64
    } else {
        !bits
    }
}

/// Maps the bits of a finite binary64 value to an ordered unsigned integer
/// for ULP distance.
pub fn ordered_binary64_key(bits: u64) -> (key: u64)
    ensures
        key == spec_ordered_key(bits),
{
    assert(1u64 << 63u64 == 0x8000_0000_0000_0000u64) by (bit_vector);
    if bits & (1u64 << 63u64) == 0 {
        bits | (1u64 << 63u64)
    } else {
        !bits
    }
}

/// The ordered key follows numeric order: with the sign bit clear, larger
/// bits are larger numbers and get larger keys; with it set, larger bits are
/// more negative numbers and get smaller keys; every negative key lies below
/// every non-negative key; and distinct bits never share a key, so the ULP
/// distance is zero exactly for identical bits.
pub proof fn lemma_ordered_key_laws(a: u64, b: u64)
    ensures
        a & 0x8000_0000_0000_0000u64 == 0 && b & 0x8000_0000_0000_0000u64 == 0 && a < b
            ==> spec_ordered_key(a) < spec_ordered_key(b),
        a & 0x8000_0000_0000_0000u64 != 0 && b & 0x8000_0000_0000_0000u64 != 0 && a < b
            ==> spec_ordered_key(a) > spec_ordered_key(b),
        a & 0x8000_0000_0000_0000u64 != 0 && b & 0x8000_0000_0000_0000u64 == 0
            ==> spec_ordered_key(a) < spec_ordered_key(b),
        (spec_ordered_key(a) == spec_ordered_key(b)) == (a == b),
{
    assert(a & 0x8000_0000_0000_0000u64 == 0 && b & 0x8000_0000_0000_0000u64 == 0 && a < b
        ==> (a | 0x8000_0000_0000_0000u64) < (b | 0x8000_0000_0000_0000u64)) by (bit_vector);
    assert(a & 0x8000_0000_0000_0000u64 != 0 && b & 0x8000_0000_0000_0000u64 != 0 && a < b ==> !a > !b) by (bit_vector);
    assert(a & 0x8000_0000_0000_0000u64 != 0 && b & 0x8000_0000_0000_0000u64 == 0
        ==> !a < (b | 0x8000_0000_0000_0000u64)) by (bit_vector);
    assert(a & 0x8000_0000_0000_0000u64 == 0 && b & 0x8000_0000_0000_0000u64 != 0
        ==> (a | 0x8000_0000_0000_0000u64) != !b) by (bit_vector);
    assert(a & 0x8000_0000_0000_0000u64 == 0 && b & 0x8000_0000_0000_0000u64 == 0
        ==> ((a | 0x8000_0000_0000_0000u64) == (b | 0x8000_0000_0000_0000u64)) == (a == b)) by (bit_vector);
    assert((!a == !b) == (a == b)) by (bit_vector);
}

/// Distance between the ordered keys of two binary64 bit patterns.
pub open spec fn spec_ulp_distance(a_bits: u64, b_bits: u64) -> int {
    if spec_ordered_key(a_bits) >= spec_ordered_key(b_bits) {
        spec_ordered_key(a_bits) - spec_ordered_key(b_bits)
    } else {
        spec_ordered_key(b_bits) - spec_ordered_key(a_bits)
    }
}

/// Ordered binary64 ULP distance between two finite values, given by their bits.
pub fn ordered_ulp_distance(a_bits: u64, b_bits: u64) -> (distance: u64)
    ensures
        distance as int == spec_ulp_distance(a_bits, b_bits),
{
    let ka = ordered_binary64_key(a_bits);
    let kb = ordered_binary64_key(b_bits);
    if ka >= kb { ka - kb } else { kb - ka }
}

/// Whether binary64 bits encode a zero of either sign.
pub open spec fn is_zero_bits(bits: u64) -> bool {
    bits & 0x7fff_ffff_ffff_ffffu64 == 0
}

/// ULP distance under the rule's signed-zero policy: two zeros of any sign
/// are zero ULPs apart when the policy says so.
pub open spec fn spec_policy_ulps(a_bits: u64, b_bits: u64, signed_zero_equal: bool) -> int {
    if signed_zero_equal && is_zero_bits(a_bits) && is_zero_bits(b_bits) {
        0
    } else {
        spec_ulp_distance(a_bits, b_bits)
    }
}

/// ULP distance of two finite values, given by their bits, under the
/// signed-zero policy.
pub fn policy_ulp_distance(a_bits: u64, b_bits: u64, signed_zero_equal: bool) -> (distance: u64)
    ensures
        distance as int == spec_policy_ulps(a_bits, b_bits, signed_zero_equal),
{
    if signed_zero_equal && a_bits & 0x7fff_ffff_ffff_ffffu64 == 0 && b_bits & 0x7fff_ffff_ffff_ffffu64 == 0 {
        0
    } else {
        ordered_ulp_distance(a_bits, b_bits)
    }
}

/// Number of compared elements whose distance exceeds `limit`; `None`
/// marks an element that was not compared.
pub open spec fn ulp_excess_count(distances: Seq<Option<u64>>, limit: u64) -> nat
    decreases distances.len(),
{
    if distances.len() == 0 {
        0
    } else {
        ulp_excess_count(distances.drop_last(), limit) + match distances.last() {
            Some(d) => if d > limit { 1nat } else { 0nat },
            None => 0nat,
        }
    }
}

/// Largest distance, first element that reaches it, and the number of
/// distances over the rule's limit.
#[derive(Clone, Copy, Debug, PartialEq, Eq)]
pub struct UlpSummary {
    /// Largest compared distance (zero when nothing was compared).
    pub maximum_ulps: u64,
    /// First element whose distance is the largest, when that is above zero.
    pub worst_index: Option<usize>,
    /// Compared elements whose distance exceeds the limit.
    pub failures: u64,
}

/// Summarizes per-element ULP distances (`None` for an element not
/// compared): the largest distance, the first element that reaches it when
/// it is above zero, and how many distances exceed `limit`.
pub fn summarize_ulps(distances: &[Option<u64>], limit: u64) -> (summary: UlpSummary)
    ensures
        forall|i: int| 0 <= i < distances@.len() ==> (#[trigger] distances@[i] matches Some(d) ==> d <= summary.maximum_ulps),
        summary.maximum_ulps == 0 || exists|i: int| 0 <= i < distances@.len() && #[trigger] distances@[i] == Some(summary.maximum_ulps),
        summary.worst_index is Some <==> summary.maximum_ulps > 0,
        summary.worst_index matches Some(w) ==> {
            &&& w < distances@.len()
            &&& distances@[w as int] == Some(summary.maximum_ulps)
            &&& forall|j: int| 0 <= j < w ==> (#[trigger] distances@[j] matches Some(d) ==> d < summary.maximum_ulps)
        },
        summary.failures == ulp_excess_count(distances@, limit),
{
    let mut maximum: u64 = 0;
    let mut worst: Option<usize> = None;
    let mut failures: u64 = 0;
    let mut i: usize = 0;
    while i < distances.len()
        invariant
            i <= distances@.len(),
            forall|j: int| 0 <= j < i ==> (#[trigger] distances@[j] matches Some(d) ==> d <= maximum),
            maximum == 0 || exists|j: int| 0 <= j < i && #[trigger] distances@[j] == Some(maximum),
            worst is Some <==> maximum > 0,
            worst matches Some(w) ==> {
                &&& w < i
                &&& distances@[w as int] == Some(maximum)
                &&& forall|j: int| 0 <= j < w ==> (#[trigger] distances@[j] matches Some(d) ==> d < maximum)
            },
            failures == ulp_excess_count(distances@.take(i as int), limit),
            failures <= i,
        decreases distances@.len() - i,
    {
        proof {
            assert(distances@.take(i as int + 1).drop_last() =~= distances@.take(i as int));
        }
        if let Some(d) = distances[i] {
            if d > maximum {
                maximum = d;
                worst = Some(i);
            }
            if d > limit {
                failures = failures + 1;
            }
        }
        i = i + 1;
    }
    proof {
        assert(distances@.take(distances@.len() as int) =~= distances@);
    }
    UlpSummary { maximum_ulps: maximum, worst_index: worst, failures }
}

/// SHA-256 hex of an in-memory buffer.
pub fn sha256_bytes(bytes: &[u8]) -> (text: String)
    ensures
        text@ == lower_hex(sha256_digest(bytes@)),
{
    let digest = sha256(bytes);
    hex_lower(&digest)
}

/// Whether a character is an ASCII hexadecimal digit.
pub open spec fn is_hex_char(c: char) -> bool {
    ('0' <= c && c <= '9') || ('a' <= c && c <= 'f') || ('A' <= c && c <= 'F')
}

/// A calibration digest is sixty-four hexadecimal digits.
pub open spec fn well_formed_sha256(text: Seq<char>) -> bool {
    text.len() == 64 && forall|i: int| 0 <= i < text.len() ==> is_hex_char(#[trigger] text[i])
}

/// Checks that the calibration pointer carries a well-formed SHA-256 text.
pub fn check_calibration_sha256(cal: &CalibrationReportRef) -> (result: Result<(), String>)
    ensures
        well_formed_sha256(cal.sha256@) ==> result is Ok,
        !well_formed_sha256(cal.sha256@) ==> (result matches Err(message)
            && message@ == "calibration sha256 malformed: "@ + cal.sha256@),
{
    let text = cal.sha256.as_str();
    let len = text.unicode_len();
    let mut ok = len == 64;
    let mut k: usize = 0;
    while ok && k < len
        invariant
            len == text@.len(),
            text@ == cal.sha256@,
            ok ==> len == 64,
            k <= len,
            ok ==> forall|i: int| 0 <= i < k ==> is_hex_char(#[trigger] text@[i]),
            !ok ==> !well_formed_sha256(cal.sha256@),
        decreases len - k,
    {
        let c = text.get_char(k);
        if !(('0' <= c && c <= '9') || ('a' <= c && c <= 'f') || ('A' <= c && c <= 'F')) {
            ok = false;
        }
        k += 1;
    }
    if ok {
        Ok(())
    } else {
        let prefix = String::from_str("calibration sha256 malformed: ");
        proof {
            reveal_strlit("calibration sha256 malformed: ");
        }
        Err(prefix.concat(text))
    }
}


/// Why a registry document's header is refused, checked in order: schema,
/// algorithm, approving authority, calibration state, and a non-empty rule
/// list.
pub open spec fn registry_header_error(
    schema_version: Seq<char>,
    algorithm_id: Seq<char>,
    approval_authority: Seq<char>,
    calibration_state: Seq<char>,
    rule_count: nat,
    path: Seq<char>,
) -> Option<Seq<char>> {
    if schema_version != "trajecta.m3.tolerances/v1"@ {
        Some("unsupported schema_version in "@ + path + ": "@ + schema_version)
    } else if algorithm_id != "trajecta/met_query/m3/v0"@ {
        Some("unsupported algorithm_id in "@ + path + ": "@ + algorithm_id)
    } else if approval_authority != "A"@ {
        Some("approval_authority must be A in "@ + path)
    } else if calibration_state != "measured_partial"@ && calibration_state != "measured_complete"@ {
        Some("unknown calibration state "@ + calibration_state)
    } else if rule_count == 0 {
        Some("registry has no rules"@)
    } else {
        None
    }
}

/// Checks a registry document's header; `path` names the document in messages.
pub fn check_registry_header(
    schema_version: &str,
    algorithm_id: &str,
    approval_authority: &str,
    calibration_state: &str,
    rule_count: usize,
    path: &str,
) -> (result: Result<(), String>)
    ensures
        match registry_header_error(schema_version@, algorithm_id@, approval_authority@, calibration_state@, rule_count as nat, path@) {
            Some(message) => result matches Err(m) && m@ == message,
            None => result is Ok,
        },
{
    proof {
        reveal_strlit("trajecta.m3.tolerances/v1");
        reveal_strlit("trajecta/met_query/m3/v0");
        reveal_strlit("A");
        reveal_strlit("measured_partial");
        reveal_strlit("measured_complete");
    }
    if !text_eq(schema_version, "trajecta.m3.tolerances/v1") {
        let message = String::from_str("unsupported schema_version in ").concat(path).concat(": ").concat(schema_version);
        return Err(message);
    }
    if !text_eq(algorithm_id, "trajecta/met_query/m3/v0") {
        let message = String::from_str("unsupported algorithm_id in ").concat(path).concat(": ").concat(algorithm_id);
        return Err(message);
    }
    if !text_eq(approval_authority, "A") {
        return Err(String::from_str("approval_authority must be A in ").concat(path));
    }
    if !text_eq(calibration_state, "measured_partial") && !text_eq(calibration_state, "measured_complete") {
        return Err(String::from_str("unknown calibration state ").concat(calibration_state));
    }
    if rule_count == 0 {
        return Err(String::from_str("registry has no rules"));
    }
    Ok(())
}

/// Why one rule's policy fields are refused, checked in order: exact masks,
/// rejected non-finite values, some exact metadata, a scientific reason of
/// at least thirty bytes, and an allow-list issue exactly on report-only
/// rules.
pub open spec fn rule_policy_error(
    id: Seq<char>,
    mask_policy: Seq<char>,
    non_finite_policy: Seq<char>,
    metadata_count: nat,
    reason_bytes: usize,
    decision: Decision,
    allowlist_issue: Option<Seq<char>>,
) -> Option<Seq<char>> {
    if mask_policy != "exact"@ {
        Some("rule "@ + id + " mask_policy must be exact"@)
    } else if non_finite_policy != "reject"@ {
        Some("rule "@ + id + " non_finite_policy must be reject"@)
    } else if metadata_count == 0 {
        Some("rule "@ + id + " exact_metadata empty"@)
    } else if reason_bytes < 30 {
        Some("rule "@ + id + " scientific_reason too short"@)
    } else if decision == Decision::ReportOnly && (allowlist_issue is None || allowlist_issue->Some_0.len() == 0) {
        Some("rule "@ + id + " report_only requires allowlist_issue"@)
    } else if decision == Decision::HardGate && allowlist_issue is Some {
        Some("rule "@ + id + " hard_gate must not carry allowlist_issue"@)
    } else {
        None
    }
}

/// Checks one rule's policy fields.
pub fn check_rule_policy(
    id: &str,
    mask_policy: &str,
    non_finite_policy: &str,
    metadata_count: usize,
    scientific_reason: &str,
    decision: Decision,
    allowlist_issue: Option<&str>,
) -> (result: Result<(), String>)
    ensures
        match rule_policy_error(
            id@,
            mask_policy@,
            non_finite_policy@,
            metadata_count as nat,
            scientific_reason.len(),
            decision,
            match allowlist_issue { Some(issue) => Some(issue@), None => None },
        ) {
            Some(message) => result matches Err(m) && m@ == message,
            None => result is Ok,
        },
{
    proof {
        reveal_strlit("exact");
        reveal_strlit("reject");
    }
    let rule = String::from_str("rule ").concat(id);
    if !text_eq(mask_policy, "exact") {
        return Err(rule.concat(" mask_policy must be exact"));
    }
    if !text_eq(non_finite_policy, "reject") {
        return Err(rule.concat(" non_finite_policy must be reject"));
    }
    if metadata_count == 0 {
        return Err(rule.concat(" exact_metadata empty"));
    }
    if scientific_reason.len() < 30 {
        return Err(rule.concat(" scientific_reason too short"));
    }
    match decision {
        Decision::ReportOnly => {
            let missing = match allowlist_issue {
                Some(issue) => issue.unicode_len() == 0,
                None => true,
            };
            if missing {
                return Err(rule.concat(" report_only requires allowlist_issue"));
            }
        },
        Decision::HardGate => {
            if allowlist_issue.is_some() {
                return Err(rule.concat(" hard_gate must not carry allowlist_issue"));
            }
        },
    }
    Ok(())
}

} // verus!
