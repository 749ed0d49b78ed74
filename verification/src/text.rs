//! Lexicographic ordering of text by Unicode scalar values, which is the
//! order `String` itself uses.

use vstd::prelude::*;
use vstd::string::*;

verus! {

/// Three-way comparison outcome.
#[derive(Clone, Copy, Debug, PartialEq, Eq, Structural)]
pub enum TextOrder {
    Less,
    Equal,
    Greater,
}

/// Strict lexicographic order on character sequences.
pub open spec fn text_lt(a: Seq<char>, b: Seq<char>) -> bool
    decreases a.len(),
{
    if a.len() == 0 {
        b.len() > 0
    } else if b.len() == 0 {
        false
    } else if (a[0] as int) < (b[0] as int) {
        true
    } else if a[0] == b[0] {
        text_lt(a.drop_first(), b.drop_first())
    } else {
        false
    }
}

/// Three-way lexicographic comparison as a value.
pub open spec fn text_order(a: Seq<char>, b: Seq<char>) -> TextOrder {
    if a == b {
        TextOrder::Equal
    } else if text_lt(a, b) {
        TextOrder::Less
    } else {
        TextOrder::Greater
    }
}

pub proof fn lemma_text_lt_irreflexive(a: Seq<char>)
    ensures
        !text_lt(a, a),
    decreases a.len(),
{
    if a.len() > 0 {
        lemma_text_lt_irreflexive(a.drop_first());
    }
}

pub proof fn lemma_text_lt_transitive(a: Seq<char>, b: Seq<char>, c: Seq<char>)
    requires
        text_lt(a, b),
        text_lt(b, c),
    ensures
        text_lt(a, c),
    decreases a.len(),
{
    if a.len() > 0 && b.len() > 0 && c.len() > 0 {
        if a[0] == b[0] && b[0] == c[0] {
            lemma_text_lt_transitive(a.drop_first(), b.drop_first(), c.drop_first());
        }
    }
}

/// Any two distinct sequences are ordered one way or the other.
pub proof fn lemma_text_lt_total(a: Seq<char>, b: Seq<char>)
    ensures
        a == b || text_lt(a, b) || text_lt(b, a),
    decreases a.len(),
{
    if a.len() > 0 && b.len() > 0 {
        if a[0] == b[0] {
            lemma_text_lt_total(a.drop_first(), b.drop_first());
            if a.drop_first() == b.drop_first() {
                assert(a =~= seq![a[0]] + a.drop_first());
                assert(b =~= seq![b[0]] + b.drop_first());
            }
        } else {
            assert((a[0] as int) != (b[0] as int));
        }
    } else if a.len() == 0 && b.len() == 0 {
        assert(a =~= b);
    }
}

pub proof fn lemma_text_lt_asymmetric(a: Seq<char>, b: Seq<char>)
    requires
        text_lt(a, b),
    ensures
        !text_lt(b, a),
{
    if text_lt(b, a) {
        lemma_text_lt_transitive(a, b, a);
        lemma_text_lt_irreflexive(a);
    }
}

proof fn lemma_text_lt_suffix(a: Seq<char>, b: Seq<char>, i: int)
    requires
        0 <= i <= a.len(),
        i <= b.len(),
        a.subrange(0, i) == b.subrange(0, i),
    ensures
        text_lt(a, b) == text_lt(a.subrange(i, a.len() as int), b.subrange(i, b.len() as int)),
    decreases i,
{
    if i > 0 {
        assert(a[0] == a.subrange(0, i)[0]);
        assert(b[0] == b.subrange(0, i)[0]);
        assert(a.drop_first().subrange(0, i - 1) =~= a.subrange(0, i).drop_first());
        assert(b.drop_first().subrange(0, i - 1) =~= b.subrange(0, i).drop_first());
        lemma_text_lt_suffix(a.drop_first(), b.drop_first(), i - 1);
        assert(a.drop_first().subrange(i - 1, a.len() - 1) =~= a.subrange(i, a.len() as int));
        assert(b.drop_first().subrange(i - 1, b.len() - 1) =~= b.subrange(i, b.len() as int));
    } else {
        assert(a.subrange(0, a.len() as int) =~= a);
        assert(b.subrange(0, b.len() as int) =~= b);
    }
}

/// Compares two texts lexicographically by character.
pub fn compare_text(a: &str, b: &str) -> (order: TextOrder)
    ensures
        order == text_order(a@, b@),
{
    let a_len = a.unicode_len();
    let b_len = b.unicode_len();
    let mut i: usize = 0;
    while i < a_len && i < b_len
        invariant
            a_len == a@.len(),
            b_len == b@.len(),
            i <= a_len,
            i <= b_len,
            a@.subrange(0, i as int) == b@.subrange(0, i as int),
        decreases a_len - i,
    {
        let ca = a.get_char(i);
        let cb = b.get_char(i);
        if ca != cb {
            proof {
                lemma_text_lt_suffix(a@, b@, i as int);
                let sa = a@.subrange(i as int, a@.len() as int);
                let sb = b@.subrange(i as int, b@.len() as int);
                assert(sa[0] == ca);
                assert(sb[0] == cb);
                lemma_text_lt_suffix(b@, a@, i as int);
                assert(a@ != b@) by {
                    assert(a@[i as int] != b@[i as int]);
                }
            }
            if (ca as u32) < (cb as u32) {
                return TextOrder::Less;
            } else {
                return TextOrder::Greater;
            }
        }
        proof {
            assert(a@.subrange(0, i + 1) =~= a@.subrange(0, i as int).push(ca));
            assert(b@.subrange(0, i + 1) =~= b@.subrange(0, i as int).push(cb));
        }
        i += 1;
    }
    proof {
        lemma_text_lt_suffix(a@, b@, i as int);
        lemma_text_lt_suffix(b@, a@, i as int);
        let sa = a@.subrange(i as int, a@.len() as int);
        let sb = b@.subrange(i as int, b@.len() as int);
        if a_len == b_len {
            assert(a@ =~= a@.subrange(0, i as int));
            assert(b@ =~= b@.subrange(0, i as int));
        } else {
            assert(a@.len() != b@.len());
        }
    }
    if a_len == b_len {
        TextOrder::Equal
    } else if a_len < b_len {
        TextOrder::Less
    } else {
        TextOrder::Greater
    }
}

/// Whether two texts are equal.
pub fn text_eq(a: &str, b: &str) -> (equal: bool)
    ensures
        equal == (a@ == b@),
{
    let a_len = a.unicode_len();
    let b_len = b.unicode_len();
    if a_len != b_len {
        return false;
    }
    let mut i: usize = 0;
    while i < a_len
        invariant
            a_len == a@.len(),
            b_len == b@.len(),
            a_len == b_len,
            i <= a_len,
            forall|k: int| 0 <= k < i ==> a@[k] == b@[k],
        decreases a_len - i,
    {
        if a.get_char(i) != b.get_char(i) {
            return false;
        }
        i += 1;
    }
    proof {
        assert(a@ =~= b@);
    }
    true
}

/// Texts of a list of strings.
pub open spec fn texts(items: Seq<String>) -> Seq<Seq<char>> {
    Seq::new(items.len(), |i: int| items[i]@)
}

/// Texts strictly increasing in lexicographic order: a sorted set.
pub open spec fn strictly_sorted(items: Seq<Seq<char>>) -> bool {
    forall|a: int, b: int| 0 <= a < b < items.len() ==> text_lt(#[trigger] items[a], #[trigger] items[b])
}

/// Whether a sorted text set holds `item`.
pub fn set_holds(set: &Vec<String>, item: &str) -> (held: bool)
    ensures
        held == texts(set@).contains(item@),
{
    let mut k: usize = 0;
    while k < set.len()
        invariant
            k <= set@.len(),
            forall|q: int| 0 <= q < k ==> (#[trigger] set@[q])@ != item@,
        decreases set@.len() - k,
    {
        if text_eq(set[k].as_str(), item) {
            proof {
                assert(texts(set@)[k as int] == item@);
            }
            return true;
        }
        k += 1;
    }
    proof {
        if texts(set@).contains(item@) {
            let q = choose|q: int| 0 <= q < texts(set@).len() && texts(set@)[q] == item@;
            assert(set@[q]@ == item@);
        }
    }
    false
}

/// Adds `item` to a sorted text set, keeping it sorted.
pub fn set_insert(set: &mut Vec<String>, item: String)
    requires
        strictly_sorted(texts(old(set)@)),
    ensures
        strictly_sorted(texts(final(set)@)),
        texts(final(set)@).to_set() == texts(old(set)@).to_set().insert(item@),
{
    let ghost before = texts(set@);
    let mut position: usize = 0;
    while position < set.len() && compare_text(set[position].as_str(), item.as_str()) == TextOrder::Less
        invariant
            before == texts(set@),
            strictly_sorted(before),
            position <= set@.len(),
            forall|q: int| 0 <= q < position ==> text_lt(#[trigger] before[q], item@),
        decreases set@.len() - position,
    {
        position += 1;
    }
    if position < set.len() && text_eq(set[position].as_str(), item.as_str()) {
        proof {
            assert(before[position as int] == item@);
            assert(before.to_set().insert(item@) =~= before.to_set());
        }
        return;
    }
    proof {
        if position < set@.len() {
            let here = before[position as int];
            lemma_text_lt_total(here, item@);
            if text_lt(here, item@) {
                assert(text_order(here, item@) == TextOrder::Less);
            }
            assert(text_lt(item@, here));
        }
    }
    set.insert(position, item);
    proof {
        let after = texts(set@);
        assert(after =~= before.insert(position as int, item@));
        assert forall|a: int, b: int| 0 <= a < b < after.len() implies text_lt(#[trigger] after[a], #[trigger] after[b]) by {
            if b == position {
                assert(after[a] == before[a]);
            } else if a == position {
                assert(after[b] == before[b - 1]);
                if b - 1 > position {
                    lemma_text_lt_transitive(item@, before[position as int], before[b - 1]);
                }
            } else {
                let aa = if a < position { a } else { a - 1 };
                let bb = if b < position { b } else { b - 1 };
                assert(after[a] == before[aa]);
                assert(after[b] == before[bb]);
            }
        }
        assert forall|t: Seq<char>| #[trigger] after.to_set().contains(t) <==> before.to_set().insert(item@).contains(t) by {
            if after.to_set().contains(t) {
                let q = choose|q: int| 0 <= q < after.len() && after[q] == t;
                if q != position {
                    let qq = if q < position { q } else { q - 1 };
                    assert(after[q] == before[qq]);
                }
            }
            if before.to_set().contains(t) {
                let q = choose|q: int| 0 <= q < before.len() && before[q] == t;
                let qq = if q < position { q } else { q + 1 };
                assert(after[qq] == before[q]);
            }
            if t == item@ {
                assert(after[position as int] == item@);
            }
        }
        assert(after.to_set() =~= before.to_set().insert(item@));
    }
}

} // verus!
