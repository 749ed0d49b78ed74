//! Structure-of-arrays query output: typed statuses, packed validity bits,
//! and optional per-point bounds, all in caller order.

use vstd::prelude::*;
use crate::field::{FieldKey, FieldQuality, ProvenanceId};

verus! {

/// Recoverable status for one query point.
#[derive(Clone, Copy, Debug, PartialEq, Eq, Structural, Hash)]
pub enum SampleStatus {
    /// Every requested field is valid.
    Valid,
    /// No domain safely covers the point.
    OutOfDomain,
    /// Longitude has no unique local east direction at an exact pole.
    PolarSingularity,
    /// Requested AGL/ASL height or pressure lies below the local surface.
    BelowGround,
    /// The requested near-surface height is outside the surface model domain.
    SurfaceLayerUndefined,
    /// Requested coordinate lies above the highest level carried by the data.
    AboveAvailableTop,
    /// Requested coordinate lies above the declared physical model top.
    AboveModelTop,
    /// Native vertical support is structurally invalid.
    InvalidVerticalColumn,
    /// Deterministic arithmetic failed a finite or monotonicity check.
    NumericalFailure,
}

/// Number of bits in one packed validity word.
pub const WORD_BITS: usize = 64;

/// Whether bit `b` (least significant first) of `w` is set.
pub open spec fn bit_set(w: u64, b: u64) -> bool {
    (w >> b) & 1u64 == 1u64
}

/// Bit `j` of a packed word sequence, least significant bit of word 0 first.
pub open spec fn bit_at(words: Seq<u64>, j: int) -> bool {
    bit_set(words[j / 64], (j % 64) as u64)
}

/// Number of 64-bit words that hold `len` bits.
pub open spec fn words_for(len: nat) -> nat {
    (len + 63) / 64
}

/// Two words that agree on every bit from `i` up agree after shifting by `i`.
proof fn lemma_high_bits_equal(x: u64, y: u64, i: u64)
    requires
        i <= 64,
        forall|b: u64| i <= b < 64 ==> bit_set(x, b) == bit_set(y, b),
    ensures
        x >> i == y >> i,
    decreases 64 - i,
{
    if i == 64 {
        assert(x >> 64u64 == 0u64 && y >> 64u64 == 0u64) by (bit_vector);
    } else {
        let j: u64 = (i + 1) as u64;
        lemma_high_bits_equal(x, y, j);
        assert(bit_set(x, i) == bit_set(y, i));
        assert forall|w: u64| #![auto] (w >> i) == (((w >> j) << 1u64) | ((w >> i) & 1u64))
            && (((w >> i) & 1u64) == 1u64 || ((w >> i) & 1u64) == 0u64) by {
            assert((w >> i) == (((w >> j) << 1u64) | ((w >> i) & 1u64))
                && (((w >> i) & 1u64) == 1u64 || ((w >> i) & 1u64) == 0u64)) by (bit_vector)
                requires
                    i < 64,
                    j == i + 1,
            ;
        }
        assert((x >> i) == (((x >> j) << 1u64) | ((x >> i) & 1u64)));
        assert((y >> i) == (((y >> j) << 1u64) | ((y >> i) & 1u64)));
    }
}

/// The packed words of a flag sequence are determined by the flags: any two
/// packings that hold the flags and clear every bit past them are equal.
pub proof fn lemma_packing_is_canonical(first: Seq<u64>, second: Seq<u64>, flags: Seq<bool>)
    requires
        first.len() == words_for(flags.len()),
        second.len() == words_for(flags.len()),
        forall|j: int| 0 <= j < flags.len() ==> #[trigger] bit_at(first, j) == flags[j],
        forall|j: int| 0 <= j < flags.len() ==> #[trigger] bit_at(second, j) == flags[j],
        forall|j: int| flags.len() <= j < first.len() * 64 ==> !#[trigger] bit_at(first, j),
        forall|j: int| flags.len() <= j < second.len() * 64 ==> !#[trigger] bit_at(second, j),
    ensures
        first == second,
{
    assert forall|w: int| 0 <= w < first.len() implies first[w] == second[w] by {
        assert forall|b: u64| 0 <= b < 64 implies bit_set(first[w], b) == bit_set(second[w], b) by {
            let j = w * 64 + b;
            assert(j / 64 == w && j % 64 == b) by (nonlinear_arith)
                requires
                    j == w * 64 + b,
                    0 <= b < 64,
            ;
            assert(bit_at(first, j) == bit_set(first[w], b));
            assert(bit_at(second, j) == bit_set(second[w], b));
            assert(0 <= j < first.len() * 64) by (nonlinear_arith)
                requires
                    j == w * 64 + b,
                    0 <= b < 64,
                    0 <= w < first.len(),
            ;
            if j < flags.len() {
                assert(bit_at(first, j) == flags[j]);
                assert(bit_at(second, j) == flags[j]);
            } else {
                assert(!bit_at(first, j));
                assert(!bit_at(second, j));
            }
        }
        lemma_high_bits_equal(first[w], second[w], 0);
        let (x, y) = (first[w], second[w]);
        assert(x >> 0u64 == x && y >> 0u64 == y) by (bit_vector);
    }
    assert(first =~= second);
}

proof fn lemma_test_bit(w: u64, b: u64)
    requires
        b < 64,
    ensures
        (w & (1u64 << b) != 0u64) == bit_set(w, b),
{
    assert((w & (1u64 << b) != 0u64) == ((w >> b) & 1u64 == 1u64)) by (bit_vector)
        requires
            b < 64,
    ;
}

proof fn lemma_set_bit(w: u64, b: u64)
    requires
        b < 64,
    ensures
        forall|c: u64| c < 64 ==> #[trigger] bit_set(w | (1u64 << b), c) == (bit_set(w, c) || c == b),
{
    assert forall|c: u64| c < 64 implies #[trigger] bit_set(w | (1u64 << b), c) == (bit_set(w, c) || c == b) by {
        assert((((w | (1u64 << b)) >> c) & 1u64 == 1u64) == (((w >> c) & 1u64 == 1u64) || c == b)) by (bit_vector)
            requires
                b < 64,
                c < 64,
        ;
    }
}

proof fn lemma_clear_bit(w: u64, b: u64)
    requires
        b < 64,
    ensures
        forall|c: u64| c < 64 ==> #[trigger] bit_set(w & !(1u64 << b), c) == (bit_set(w, c) && c != b),
{
    assert forall|c: u64| c < 64 implies #[trigger] bit_set(w & !(1u64 << b), c) == (bit_set(w, c) && c != b) by {
        assert((((w & !(1u64 << b)) >> c) & 1u64 == 1u64) == (((w >> c) & 1u64 == 1u64) && c != b)) by (bit_vector)
            requires
                b < 64,
                c < 64,
        ;
    }
}

proof fn lemma_zero_word()
    ensures
        forall|c: u64| c < 64 ==> !bit_set(0u64, c),
{
    assert forall|c: u64| c < 64 implies !bit_set(0u64, c) by {
        assert((0u64 >> c) & 1u64 == 0u64) by (bit_vector);
    }
}

proof fn lemma_low_mask(u: u64)
    requires
        0 < u < 64,
    ensures
        forall|c: u64| c < 64 ==> #[trigger] bit_set(u64::MAX & (((1u64 << u) - 1u64) as u64), c) == (c < u),
{
    assert forall|c: u64| c < 64 implies #[trigger] bit_set(u64::MAX & (((1u64 << u) - 1u64) as u64), c) == (c < u) by {
        assert((((u64::MAX & (((1u64 << u) - 1u64) as u64)) >> c) & 1u64 == 1u64) == (c < u)) by (bit_vector)
            requires
                0 < u < 64,
                c < 64,
        ;
    }
}

proof fn lemma_full_word()
    ensures
        forall|c: u64| c < 64 ==> bit_set(u64::MAX, c),
{
    assert forall|c: u64| c < 64 implies bit_set(u64::MAX, c) by {
        assert((u64::MAX >> c) & 1u64 == 1u64) by (bit_vector)
            requires c < 64;
    }
}

/// Compact per-point validity bits for one value column, packed least
/// significant bit first; bits past the represented length are always clear.
#[derive(Debug, PartialEq, Eq)]
pub struct ValidityMask {
    len: usize,
    words: Vec<u64>,
}

impl View for ValidityMask {
    type V = Seq<bool>;

    /// The represented validity flags in caller order.
    closed spec fn view(&self) -> Seq<bool> {
        Seq::new(self.len as nat, |i: int| bit_at(self.words@, i))
    }
}

impl ValidityMask {
    /// Packed words: the right count for the length, and every bit past the
    /// represented length clear.
    pub closed spec fn canonical(self) -> bool {
        &&& self.words@.len() == words_for(self.len as nat)
        &&& forall|i: int| self.len <= i < self.words@.len() * 64 ==> !#[trigger] bit_at(self.words@, i)
    }

    #[verifier::type_invariant]
    spec fn inv(self) -> bool {
        &&& self.canonical()
        &&& self.len <= usize::MAX - 63
    }

    /// The packed word sequence.
    pub closed spec fn spec_words(self) -> Seq<u64> {
        self.words@
    }

    /// Creates a mask whose entries are all invalid.
    pub fn all_invalid(len: usize) -> (mask: Self)
        requires
            len <= usize::MAX - 63,
        ensures
            mask@ == Seq::new(len as nat, |i: int| false),
            mask.spec_words().len() == words_for(len as nat),
    {
        let words = vec![0u64; word_count(len)];
        proof {
            lemma_zero_word();
            assert forall|i: int| 0 <= i < words@.len() * 64 implies !#[trigger] bit_at(words@, i) by {
                assert(0 <= i / 64 < words@.len());
                assert(((i % 64) as u64) < 64);
            }
        }
        let mask = ValidityMask { len, words };
        proof {
            assert(mask@ =~= Seq::new(len as nat, |i: int| false));
        }
        mask
    }

    /// Creates a mask whose entries are all valid.
    pub fn all_valid(len: usize) -> (mask: Self)
        requires
            len <= usize::MAX - 63,
        ensures
            mask@ == Seq::new(len as nat, |i: int| true),
            mask.spec_words().len() == words_for(len as nat),
    {
        let mut words = vec![u64::MAX; word_count(len)];
        clear_unused_bits(&mut words, len);
        proof {
            lemma_full_word();
            if len % 64 != 0 {
                lemma_low_mask((len % 64) as u64);
            }
        }
        let mask = ValidityMask { len, words };
        proof {
            assert forall|i: int| 0 <= i < len implies #[trigger] bit_at(words@, i) by {
                assert(i / 64 < words@.len());
                if i / 64 + 1 == words@.len() && len % 64 != 0 {
                    assert(i % 64 < len % 64);
                    assert(bit_set(u64::MAX & (((1u64 << (len % 64) as u64) - 1u64) as u64), (i % 64) as u64));
                } else {
                    assert(words@[i / 64] == u64::MAX);
                    assert(((i % 64) as u64) < 64);
                }
            }
            assert(mask@ =~= Seq::new(len as nat, |i: int| true));
        }
        mask
    }

    /// Packs booleans into the stable least-significant-bit-first layout.
    pub fn from_bools(values: &[bool]) -> (mask: Self)
        requires
            values@.len() <= usize::MAX - 63,
        ensures
            mask@ == values@,
    {
        let mut mask = Self::all_invalid(values.len());
        let len = values.len();
        let mut words = mask.take_words();
        let mut index: usize = 0;
        while index < len
            invariant
                len == values@.len(),
                len <= usize::MAX - 63,
                index <= len,
                words@.len() == words_for(len as nat),
                forall|j: int| 0 <= j < words@.len() * 64 ==> #[trigger] bit_at(words@, j) == (j < index && values@[j]),
            decreases len - index,
        {
            if values[index] {
                set_packed_bit(&mut words, index);
            }
            index += 1;
        }
        let mask = ValidityMask { len, words };
        proof {
            assert(mask@ =~= values@);
        }
        mask
    }

    /// Takes the word storage of an all-invalid mask.
    fn take_words(self) -> (words: Vec<u64>)
        ensures
            words@ == self.spec_words(),
            forall|j: int| 0 <= j < words@.len() * 64 && j >= self@.len() ==> !#[trigger] bit_at(words@, j),
            forall|j: int| 0 <= j < self@.len() ==> #[trigger] bit_at(words@, j) == self@[j],
            words@.len() == words_for(self@.len()),
    {
        proof {
            use_type_invariant(&self);
        }
        self.words
    }

    /// Returns the number of represented samples.
    pub fn len(&self) -> (len: usize)
        ensures
            len == self@.len(),
    {
        self.len
    }

    /// Returns whether the mask contains no samples.
    pub fn is_empty(&self) -> (empty: bool)
        ensures
            empty == (self@.len() == 0),
    {
        self.len == 0
    }

    /// Returns one validity bit, or `None` when the index is out of range.
    pub fn get(&self, index: usize) -> (valid: Option<bool>)
        ensures
            index < self@.len() ==> valid == Some(self@[index as int]),
            index >= self@.len() ==> valid is None,
    {
        proof {
            use_type_invariant(self);
        }
        if index >= self.len {
            return None;
        }
        Some(read_packed_bit(&self.words, index))
    }

    /// Updates one validity bit while preserving canonical unused bits.
    pub fn set(&mut self, index: usize, valid: bool) -> (result: Result<(), OutputError>)
        ensures
            index < old(self)@.len() ==> result is Ok && final(self)@ == old(self)@.update(index as int, valid),
            index >= old(self)@.len() ==> result == Err::<(), OutputError>(
                OutputError::IndexOutOfBounds { index, len: old(self)@.len() as usize },
            ) && final(self)@ == old(self)@,
            final(self).spec_words().len() == old(self).spec_words().len(),
    {
        proof {
            use_type_invariant(&*self);
        }
        if index >= self.len {
            return Err(OutputError::IndexOutOfBounds { index, len: self.len });
        }
        let mut taken = ValidityMask { len: 0, words: Vec::new() };
        std::mem::swap(self, &mut taken);
        let len = taken.len;
        let mut words = taken.take_words();
        if valid {
            set_packed_bit(&mut words, index);
        } else {
            clear_packed_bit(&mut words, index);
        }
        *self = ValidityMask { len, words };
        proof {
            assert(self@ =~= old(self)@.update(index as int, valid));
        }
        Ok(())
    }

    /// Returns validity in caller order.
    pub fn iter(&self) -> (flags: Vec<bool>)
        ensures
            flags@ == self@,
    {
        proof {
            use_type_invariant(self);
        }
        let mut flags: Vec<bool> = Vec::new();
        let mut index: usize = 0;
        while index < self.len
            invariant
                index <= self.len,
                self.words@.len() == words_for(self.len as nat),
                flags@ == self@.take(index as int),
            decreases self.len - index,
        {
            flags.push(read_packed_bit(&self.words, index));
            index += 1;
            proof {
                assert(flags@ =~= self@.take(index as int));
            }
        }
        proof {
            assert(self@.take(self.len as int) =~= self@);
        }
        flags
    }

    /// Returns the number of valid samples.
    pub fn count_valid(&self) -> (count: usize)
        ensures
            count == count_true(self@),
    {
        proof {
            use_type_invariant(self);
        }
        let mut count: usize = 0;
        let mut index: usize = 0;
        while index < self.len
            invariant
                index <= self.len,
                self.words@.len() == words_for(self.len as nat),
                count == count_true(self@.take(index as int)),
            decreases self.len - index,
        {
            proof {
                assert(self@.take(index + 1).drop_last() =~= self@.take(index as int));
                lemma_count_true_bound(self@.take(index as int));
            }
            if read_packed_bit(&self.words, index) {
                count += 1;
            }
            index += 1;
        }
        proof {
            assert(self@.take(self.len as int) =~= self@);
        }
        count
    }

    /// Returns the canonical packed representation for hashing or backends.
    pub fn words(&self) -> (words: &[u64])
        ensures
            words@ == self.spec_words(),
            words@.len() == words_for(self@.len()),
            forall|j: int| 0 <= j < self@.len() ==> #[trigger] bit_at(words@, j) == self@[j],
            forall|j: int| self@.len() <= j < words@.len() * 64 ==> !#[trigger] bit_at(words@, j),
    {
        proof {
            use_type_invariant(self);
        }
        self.words.as_slice()
    }
}

impl Clone for ValidityMask {
    fn clone(&self) -> (copy: Self)
        ensures
            copy@ == self@,
            copy.spec_words() == self.spec_words(),
    {
        proof {
            use_type_invariant(self);
        }
        ValidityMask { len: self.len, words: self.words.clone() }
    }
}

/// Sets packed bit `index`, leaving every other bit unchanged.
fn set_packed_bit(words: &mut Vec<u64>, index: usize)
    requires
        index < old(words)@.len() * 64,
    ensures
        final(words)@.len() == old(words)@.len(),
        forall|j: int| 0 <= j < final(words)@.len() * 64 ==> #[trigger] bit_at(final(words)@, j) == (bit_at(old(words)@, j) || j == index),
{
    let word = index / WORD_BITS;
    let bit = (index % WORD_BITS) as u64;
    let w = words[word];
    proof {
        lemma_set_bit(w, bit);
    }
    words.set(word, w | (1u64 << bit));
    proof {
        assert forall|j: int| 0 <= j < words@.len() * 64 implies #[trigger] bit_at(words@, j) == (bit_at(old(words)@, j) || j == index) by {
            if j / 64 == word as int {
                assert(bit_set(w | (1u64 << bit), (j % 64) as u64) == (bit_set(w, (j % 64) as u64) || (j % 64) as u64 == bit));
            } else {
                assert(j != index);
            }
        }
    }
}

/// Clears packed bit `index`, leaving every other bit unchanged.
fn clear_packed_bit(words: &mut Vec<u64>, index: usize)
    requires
        index < old(words)@.len() * 64,
    ensures
        final(words)@.len() == old(words)@.len(),
        forall|j: int| 0 <= j < final(words)@.len() * 64 ==> #[trigger] bit_at(final(words)@, j) == (bit_at(old(words)@, j) && j != index),
{
    let word = index / WORD_BITS;
    let bit = (index % WORD_BITS) as u64;
    let w = words[word];
    proof {
        lemma_clear_bit(w, bit);
    }
    words.set(word, w & !(1u64 << bit));
    proof {
        assert forall|j: int| 0 <= j < words@.len() * 64 implies #[trigger] bit_at(words@, j) == (bit_at(old(words)@, j) && j != index) by {
            if j / 64 == word as int {
                assert(bit_set(w & !(1u64 << bit), (j % 64) as u64) == (bit_set(w, (j % 64) as u64) && (j % 64) as u64 != bit));
            } else {
                assert(j != index);
            }
        }
    }
}

/// Reads packed bit `index`.
fn read_packed_bit(words: &Vec<u64>, index: usize) -> (valid: bool)
    requires
        index < words@.len() * 64,
    ensures
        valid == bit_at(words@, index as int),
{
    let word = index / WORD_BITS;
    let bit = (index % WORD_BITS) as u64;
    proof {
        lemma_test_bit(words@[word as int], bit);
    }
    words[word] & (1u64 << bit) != 0
}

/// Number of set flags in a sequence.
pub open spec fn count_true(flags: Seq<bool>) -> nat
    decreases flags.len(),
{
    if flags.len() == 0 {
        0
    } else {
        count_true(flags.drop_last()) + if flags.last() { 1nat } else { 0nat }
    }
}

proof fn lemma_count_true_bound(flags: Seq<bool>)
    ensures
        count_true(flags) <= flags.len(),
    decreases flags.len(),
{
    if flags.len() > 0 {
        lemma_count_true_bound(flags.drop_last());
    }
}

/// Number of 64-bit words needed for `len` bits.
fn word_count(len: usize) -> (count: usize)
    requires
        len <= usize::MAX - 63,
    ensures
        count == words_for(len as nat),
{
    (len + (WORD_BITS - 1)) / WORD_BITS
}

/// Clears the bits of the last word that lie past `len`.
fn clear_unused_bits(words: &mut Vec<u64>, len: usize)
    requires
        old(words)@.len() == words_for(len as nat),
    ensures
        final(words)@.len() == old(words)@.len(),
        forall|k: int| 0 <= k < final(words)@.len() && !(k + 1 == final(words)@.len() && len % 64 != 0)
            ==> #[trigger] final(words)@[k] == old(words)@[k],
        len % 64 != 0 ==> final(words)@[final(words)@.len() - 1] == old(words)@[old(words)@.len() - 1] & (((1u64 << (len % 64) as u64) - 1u64) as u64),
{
    let used = len % WORD_BITS;
    if used != 0 {
        let last_index = words.len() - 1;
        let last = words[last_index];
        let shift = used as u64;
        assert(1u64 << shift >= 1u64) by (bit_vector)
            requires shift < 64;
        words.set(last_index, last & ((1u64 << shift) - 1));
    }
}

/// One typed status per input point.
#[derive(Clone, Debug, Default, PartialEq, Eq)]
pub struct StatusColumn {
    values: Vec<SampleStatus>,
}

impl View for StatusColumn {
    type V = Seq<SampleStatus>;

    closed spec fn view(&self) -> Seq<SampleStatus> {
        self.values@
    }
}

impl StatusColumn {
    /// Creates a status column in caller order.
    pub fn new(values: Vec<SampleStatus>) -> (column: Self)
        ensures
            column@ == values@,
    {
        StatusColumn { values }
    }

    /// Returns statuses in caller order.
    pub fn values(&self) -> (values: &[SampleStatus])
        ensures
            values@ == self@,
    {
        self.values.as_slice()
    }

    /// Returns the number of statuses.
    pub fn len(&self) -> (len: usize)
        ensures
            len == self@.len(),
    {
        self.values.len()
    }

    /// Returns whether the column is empty.
    pub fn is_empty(&self) -> (empty: bool)
        ensures
            empty == (self@.len() == 0),
    {
        self.values.len() == 0
    }

    /// Returns one status.
    pub fn get(&self, index: usize) -> (status: Option<SampleStatus>)
        ensures
            index < self@.len() ==> status == Some(self@[index as int]),
            index >= self@.len() ==> status is None,
    {
        if index < self.values.len() {
            Some(self.values[index])
        } else {
            None
        }
    }
}

/// Optional local vertical bounds per input point; `None` is reserved for
/// points with no domain.
#[derive(Clone, Debug, PartialEq)]
pub struct BoundsColumn<B> {
    values: Vec<Option<B>>,
}

impl<B> View for BoundsColumn<B> {
    type V = Seq<Option<B>>;

    closed spec fn view(&self) -> Seq<Option<B>> {
        self.values@
    }
}

impl<B> BoundsColumn<B> {
    /// Creates a bounds column in caller order.
    pub fn new(values: Vec<Option<B>>) -> (column: Self)
        ensures
            column@ == values@,
    {
        BoundsColumn { values }
    }

    /// Returns local bounds in caller order.
    pub fn values(&self) -> (values: &[Option<B>])
        ensures
            values@ == self@,
    {
        self.values.as_slice()
    }

    /// Returns one local bounds record.
    pub fn get(&self, index: usize) -> (bounds: Option<&B>)
        ensures
            index < self@.len() && self@[index as int] is Some ==> bounds == Some(&self@[index as int]->0),
            index >= self@.len() || self@[index as int] is None ==> bounds is None,
    {
        if index < self.values.len() {
            match &self.values[index] {
                Some(bounds) => Some(bounds),
                None => None,
            }
        } else {
            None
        }
    }

    /// Returns the number of entries.
    pub fn len(&self) -> (len: usize)
        ensures
            len == self@.len(),
    {
        self.values.len()
    }

    /// Returns whether the column is empty.
    pub fn is_empty(&self) -> (empty: bool)
        ensures
            empty == (self@.len() == 0),
    {
        self.values.len() == 0
    }
}

/// Horizontal interpolation method used by one explained level.
#[derive(Clone, Copy, Debug, PartialEq, Eq, Structural, Hash)]
pub enum ExplainHorizontalMethod {
    /// Ordinary four-corner bilinear support.
    Bilinear,
    /// Three valid corners forming a containing triangle.
    ValidTriangle,
    /// Endpoint supports differ and the displayed weights are time-blended.
    TimeBlended,
}

/// Vertical route selected for a point.
#[derive(Clone, Copy, Debug, PartialEq, Eq, Structural, Hash)]
pub enum ExplainVerticalPath {
    /// Linear interpolation in geometric height.
    LinearHeight,
    /// Linear interpolation in logarithmic pressure.
    LogPressure,
    /// Dedicated near-surface similarity model.
    SurfaceLayer,
    /// No valid bracket was available for this point.
    Unavailable,
}

/// Field-level quality and compact provenance identity.
#[derive(Clone, Debug, PartialEq)]
pub struct ExplainField {
    /// Exact output field.
    pub field: FieldKey,
    /// Source, derived, or estimated quality used at this point.
    pub quality: FieldQuality,
    /// Compact identifier resolved through the output provenance table.
    pub provenance: ProvenanceId,
}

/// Checks that one output component has the required point count.
pub fn ensure_length(component: String, expected: usize, actual: usize) -> (result: Result<(), OutputError>)
    ensures
        actual == expected ==> result is Ok,
        actual != expected ==> result == Err::<(), OutputError>(
            OutputError::OutputLengthMismatch { component, expected, actual },
        ),
{
    if actual != expected {
        return Err(OutputError::OutputLengthMismatch { component, expected, actual });
    }
    Ok(())
}

/// Output construction or indexing failure.
#[derive(Clone, Debug, PartialEq, Eq)]
pub enum OutputError {
    /// Values, validity, quality, and provenance have inconsistent lengths.
    ValueColumnLengthMismatch {
        /// Numeric value count.
        values: usize,
        /// Validity bit count.
        validity: usize,
        /// Quality count.
        quality: usize,
        /// Provenance count.
        provenance: usize,
    },
    /// A value slot contains NaN or infinity.
    NonFiniteValue,
    /// One query output component has the wrong point count.
    OutputLengthMismatch {
        /// Stable component name.
        component: String,
        /// Required point count.
        expected: usize,
        /// Actual component count.
        actual: usize,
    },
    /// The same field identity occurs more than once.
    DuplicateField(FieldKey),
    /// A compact provenance ID cannot be resolved by the output-level table.
    MissingProvenance(ProvenanceId),
    /// A provenance record names a different field or quality than its sample.
    ProvenanceMismatch {
        /// Output field whose sample metadata is inconsistent.
        field: FieldKey,
        /// Resolved compact identifier.
        id: ProvenanceId,
    },
    /// A validity index is outside the represented range.
    IndexOutOfBounds {
        /// Requested index.
        index: usize,
        /// Represented sample count.
        len: usize,
    },
}

} // verus!
