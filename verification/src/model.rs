//! Identifiers shared by the query layer: meteorology domains and
//! horizontal grid cells.

use vstd::prelude::*;
use crate::text::{text_eq, compare_text, TextOrder, text_lt, text_order, lemma_text_lt_transitive, lemma_text_lt_irreflexive, lemma_text_lt_total, lemma_text_lt_asymmetric};

verus! {

/// Stable name of one meteorology domain.
#[derive(Debug, Eq, Hash, PartialOrd, Ord)]
pub struct DomainId(pub String);

impl View for DomainId {
    type V = Seq<char>;

    open spec fn view(&self) -> Seq<char> {
        self.0@
    }
}

impl Clone for DomainId {
    fn clone(&self) -> (copy: Self)
        ensures
            copy == *self,
    {
        DomainId(self.0.clone())
    }
}

impl PartialEq for DomainId {
    fn eq(&self, other: &Self) -> (equal: bool) {
        text_eq(self.0.as_str(), other.0.as_str())
    }
}

impl vstd::std_specs::cmp::PartialEqSpecImpl for DomainId {
    open spec fn obeys_eq_spec() -> bool {
        true
    }

    open spec fn eq_spec(&self, other: &DomainId) -> bool {
        self@ == other@
    }
}

impl DomainId {
    /// Three-way comparison of domain names, in the order of their text.
    pub fn compare(&self, other: &DomainId) -> (order: TextOrder)
        ensures
            order == crate::text::text_order(self@, other@),
    {
        compare_text(self.0.as_str(), other.0.as_str())
    }
}

/// Stable identity of one horizontal grid cell.
#[derive(Clone, Copy, Debug, PartialEq, Eq, Structural, PartialOrd, Ord, Hash)]
pub struct CellId(pub u64);

/// Physical time: seconds since the Unix epoch and the nanosecond within it.
#[derive(Clone, Copy, Debug, PartialEq, Eq, Structural, PartialOrd, Ord, Hash)]
pub struct Timestamp {
    /// Whole seconds since 1970-01-01T00:00:00Z.
    pub seconds: i64,
    /// Nanoseconds within the second.
    pub nanosecond: u32,
}

/// Identity of one published source frame.
#[derive(Debug, PartialEq, Eq, PartialOrd, Ord, Hash)]
pub struct LogicalFrameId {
    /// Domain the frame covers.
    pub domain: DomainId,
    /// Physical valid time.
    pub valid_time: Timestamp,
    /// Digest of the decoding profile.
    pub profile_sha256: String,
    /// Digest of the frame content.
    pub content_sha256: String,
}

impl Clone for LogicalFrameId {
    fn clone(&self) -> (copy: Self)
        ensures
            copy == *self,
    {
        LogicalFrameId {
            domain: self.domain.clone(),
            valid_time: self.valid_time,
            profile_sha256: self.profile_sha256.clone(),
            content_sha256: self.content_sha256.clone(),
        }
    }
}

/// Lexicographic combination: the first order unless it is `Equal`.
pub open spec fn then_order(first: TextOrder, second: TextOrder) -> TextOrder {
    if first == TextOrder::Equal { second } else { first }
}

/// Three-way order of integers.
pub open spec fn int_order(a: int, b: int) -> TextOrder {
    if a < b {
        TextOrder::Less
    } else if a == b {
        TextOrder::Equal
    } else {
        TextOrder::Greater
    }
}

/// Order of frame identities: domain, valid time, profile digest, content digest.
pub open spec fn frame_order(a: LogicalFrameId, b: LogicalFrameId) -> TextOrder {
    then_order(text_order(a.domain@, b.domain@),
    then_order(int_order(a.valid_time.seconds as int, b.valid_time.seconds as int),
    then_order(int_order(a.valid_time.nanosecond as int, b.valid_time.nanosecond as int),
    then_order(text_order(a.profile_sha256@, b.profile_sha256@),
    text_order(a.content_sha256@, b.content_sha256@)))))
}

/// Three-way order of two integers, as a value.
pub fn compare_i64(a: i64, b: i64) -> (order: TextOrder)
    ensures
        order == int_order(a as int, b as int),
{
    if a < b { TextOrder::Less } else if a == b { TextOrder::Equal } else { TextOrder::Greater }
}

/// Three-way order of two unsigned integers, as a value.
pub fn compare_u64(a: u64, b: u64) -> (order: TextOrder)
    ensures
        order == int_order(a as int, b as int),
{
    if a < b { TextOrder::Less } else if a == b { TextOrder::Equal } else { TextOrder::Greater }
}

impl LogicalFrameId {
    /// Three-way order of frame identities.
    pub fn compare(&self, other: &LogicalFrameId) -> (order: TextOrder)
        ensures
            order == frame_order(*self, *other),
    {
        let by_domain = self.domain.compare(&other.domain);
        if by_domain != TextOrder::Equal {
            return by_domain;
        }
        let by_seconds = compare_i64(self.valid_time.seconds, other.valid_time.seconds);
        if by_seconds != TextOrder::Equal {
            return by_seconds;
        }
        let by_nanos = compare_u64(self.valid_time.nanosecond as u64, other.valid_time.nanosecond as u64);
        if by_nanos != TextOrder::Equal {
            return by_nanos;
        }
        let by_profile = compare_text(self.profile_sha256.as_str(), other.profile_sha256.as_str());
        if by_profile != TextOrder::Equal {
            return by_profile;
        }
        compare_text(self.content_sha256.as_str(), other.content_sha256.as_str())
    }
}

/// Two frame identities name the same frame.
pub open spec fn same_frame(a: LogicalFrameId, b: LogicalFrameId) -> bool {
    &&& a.domain@ == b.domain@
    &&& a.valid_time == b.valid_time
    &&& a.profile_sha256@ == b.profile_sha256@
    &&& a.content_sha256@ == b.content_sha256@
}

impl LogicalFrameId {
    /// Whether two identities name the same frame.
    pub fn same_as(&self, other: &LogicalFrameId) -> (same: bool)
        ensures
            same == same_frame(*self, *other),
    {
        text_eq(self.domain.0.as_str(), other.domain.0.as_str())
            && self.valid_time.seconds == other.valid_time.seconds
            && self.valid_time.nanosecond == other.valid_time.nanosecond
            && text_eq(self.profile_sha256.as_str(), other.profile_sha256.as_str())
            && text_eq(self.content_sha256.as_str(), other.content_sha256.as_str())
    }
}

/// The reverse of an order outcome.
pub open spec fn flip_order(o: TextOrder) -> TextOrder {
    match o {
        TextOrder::Less => TextOrder::Greater,
        TextOrder::Equal => TextOrder::Equal,
        TextOrder::Greater => TextOrder::Less,
    }
}

/// Outcomes `ab`, `bc`, `ac` of comparing three values pairwise are
/// consistent: strict steps chain, and an equal step changes nothing.
pub open spec fn coherent(ab: TextOrder, bc: TextOrder, ac: TextOrder) -> bool {
    &&& ab == TextOrder::Less && bc == TextOrder::Less ==> ac == TextOrder::Less
    &&& ab == TextOrder::Greater && bc == TextOrder::Greater ==> ac == TextOrder::Greater
    &&& ab == TextOrder::Equal ==> ac == bc
    &&& bc == TextOrder::Equal ==> ac == ab
}

/// Lexicographic combination keeps comparisons consistent.
pub proof fn lemma_then_coherent(
    ab1: TextOrder, bc1: TextOrder, ac1: TextOrder,
    ab2: TextOrder, bc2: TextOrder, ac2: TextOrder,
)
    requires
        coherent(ab1, bc1, ac1),
        coherent(ab2, bc2, ac2),
    ensures
        coherent(then_order(ab1, ab2), then_order(bc1, bc2), then_order(ac1, ac2)),
{
}

/// Lexicographic combination commutes with reversal.
pub proof fn lemma_then_flip(o1: TextOrder, o2: TextOrder)
    ensures
        flip_order(then_order(o1, o2)) == then_order(flip_order(o1), flip_order(o2)),
{
}

/// Text comparison is consistent across three texts and reverses with its arguments.
pub proof fn lemma_text_order_laws(a: Seq<char>, b: Seq<char>, c: Seq<char>)
    ensures
        coherent(text_order(a, b), text_order(b, c), text_order(a, c)),
        text_order(b, a) == flip_order(text_order(a, b)),
        (text_order(a, b) == TextOrder::Equal) == (a == b),
{
    lemma_text_lt_total(a, b);
    lemma_text_lt_total(b, c);
    lemma_text_lt_total(a, c);
    if text_lt(a, b) {
        lemma_text_lt_asymmetric(a, b);
    }
    if text_lt(b, a) {
        lemma_text_lt_asymmetric(b, a);
    }
    if text_lt(a, b) && text_lt(b, c) {
        lemma_text_lt_transitive(a, b, c);
    }
    if text_lt(b, a) && text_lt(c, b) {
        lemma_text_lt_transitive(c, b, a);
        lemma_text_lt_asymmetric(c, a);
    }
    lemma_text_lt_irreflexive(a);
    lemma_text_lt_irreflexive(b);
    if text_lt(a, c) {
        lemma_text_lt_asymmetric(a, c);
    }
}

/// Frame comparison is consistent across three frames and reverses with its arguments.
pub proof fn lemma_frame_order_laws(a: LogicalFrameId, b: LogicalFrameId, c: LogicalFrameId)
    ensures
        coherent(frame_order(a, b), frame_order(b, c), frame_order(a, c)),
        frame_order(b, a) == flip_order(frame_order(a, b)),
{
    lemma_text_order_laws(a.domain@, b.domain@, c.domain@);
    lemma_text_order_laws(a.profile_sha256@, b.profile_sha256@, c.profile_sha256@);
    lemma_text_order_laws(a.content_sha256@, b.content_sha256@, c.content_sha256@);
    let d = (text_order(a.domain@, b.domain@), text_order(b.domain@, c.domain@), text_order(a.domain@, c.domain@));
    let s = (int_order(a.valid_time.seconds as int, b.valid_time.seconds as int), int_order(b.valid_time.seconds as int, c.valid_time.seconds as int), int_order(a.valid_time.seconds as int, c.valid_time.seconds as int));
    let n = (int_order(a.valid_time.nanosecond as int, b.valid_time.nanosecond as int), int_order(b.valid_time.nanosecond as int, c.valid_time.nanosecond as int), int_order(a.valid_time.nanosecond as int, c.valid_time.nanosecond as int));
    let p = (text_order(a.profile_sha256@, b.profile_sha256@), text_order(b.profile_sha256@, c.profile_sha256@), text_order(a.profile_sha256@, c.profile_sha256@));
    let q = (text_order(a.content_sha256@, b.content_sha256@), text_order(b.content_sha256@, c.content_sha256@), text_order(a.content_sha256@, c.content_sha256@));
    lemma_then_coherent(p.0, p.1, p.2, q.0, q.1, q.2);
    let pq = (then_order(p.0, q.0), then_order(p.1, q.1), then_order(p.2, q.2));
    lemma_then_coherent(n.0, n.1, n.2, pq.0, pq.1, pq.2);
    let npq = (then_order(n.0, pq.0), then_order(n.1, pq.1), then_order(n.2, pq.2));
    lemma_then_coherent(s.0, s.1, s.2, npq.0, npq.1, npq.2);
    let snpq = (then_order(s.0, npq.0), then_order(s.1, npq.1), then_order(s.2, npq.2));
    lemma_then_coherent(d.0, d.1, d.2, snpq.0, snpq.1, snpq.2);
    lemma_then_flip(text_order(a.profile_sha256@, b.profile_sha256@), text_order(a.content_sha256@, b.content_sha256@));
    let ab_pq = then_order(text_order(a.profile_sha256@, b.profile_sha256@), text_order(a.content_sha256@, b.content_sha256@));
    let ab_n = int_order(a.valid_time.nanosecond as int, b.valid_time.nanosecond as int);
    lemma_then_flip(ab_n, ab_pq);
    let ab_s = int_order(a.valid_time.seconds as int, b.valid_time.seconds as int);
    lemma_then_flip(ab_s, then_order(ab_n, ab_pq));
    lemma_then_flip(text_order(a.domain@, b.domain@), then_order(ab_s, then_order(ab_n, ab_pq)));
}

} // verus!
