//! Byte-budgeted memory accounting, the deterministic column cache, and the
//! bit-exact identity of transport requests for exact reuse.
//!
//! Caches are performance devices only: a hit or miss cannot change values.
//! Preparation may update LRU state and pin entries; nothing evicts a pinned
//! entry, and resident bytes never exceed the hard budget.

use std::sync::Arc;
use vstd::prelude::*;
use vstd::std_specs::cmp::PartialEqSpec;
use crate::field::CapabilitySet;
use crate::model::{
    same_frame, Timestamp, CellId, DomainId, LogicalFrameId, frame_order, int_order, then_order, compare_u64, coherent, flip_order,
    lemma_then_coherent, lemma_then_flip, lemma_text_order_laws, lemma_frame_order_laws,
};
use crate::text::{TextOrder, text_order, compare_text, text_eq};
use crate::query::output::count_true;
use crate::query::request::{TransportPlan, VerticalQuery, same_plan, same_request};

verus! {

/// Cache preparation failure.
#[derive(Clone, Debug, PartialEq, Eq, Structural)]
pub enum CacheError {
    /// Fixed reservation exceeds total memory budget.
    InvalidBudget,
    /// An entry is larger than the available hard budget.
    EntryTooLarge { entry_bytes: u64, budget_bytes: u64 },
    /// An attempted operation would evict a pinned entry.
    PinnedEntry,
    /// The same stable key was reused for different immutable content.
    DuplicateKey,
    /// Enough unpinned entries do not exist to satisfy the hard budget.
    InsufficientBudget { required_bytes: u64, budget_bytes: u64 },
}

/// Hard byte budget and fixed reserved resources.
#[derive(Clone, Copy, Debug, PartialEq, Eq, Structural)]
pub struct MemoryBudget {
    /// Total bytes available to the meteorology runtime.
    pub total_bytes: u64,
    /// Bytes reserved for source frames and fixed structures.
    pub fixed_bytes: u64,
}

/// Total budget chosen from the available memory: half of it, lowered to the
/// hard cap when one is given and smaller.
pub open spec fn default_total_bytes(available_bytes: u64, hard_cap_bytes: Option<u64>) -> u64 {
    match hard_cap_bytes {
        Some(cap) if cap < available_bytes / 2 => cap,
        _ => available_bytes / 2,
    }
}

impl MemoryBudget {
    /// Validates a total budget and its fixed frame/resource reservation.
    pub fn new(total_bytes: u64, fixed_bytes: u64) -> (result: Result<Self, CacheError>)
        ensures
            fixed_bytes > total_bytes ==> result == Err::<Self, CacheError>(CacheError::InvalidBudget),
            fixed_bytes <= total_bytes ==> result == Ok::<Self, CacheError>(
                MemoryBudget { total_bytes, fixed_bytes },
            ),
    {
        if fixed_bytes > total_bytes {
            return Err(CacheError::InvalidBudget);
        }
        Ok(MemoryBudget { total_bytes, fixed_bytes })
    }

    /// Applies the default one-half policy and an optional lower hard cap.
    pub fn from_available_memory(
        available_bytes: u64,
        fixed_bytes: u64,
        hard_cap_bytes: Option<u64>,
    ) -> (result: Result<Self, CacheError>)
        ensures
            ({
                let total = default_total_bytes(available_bytes, hard_cap_bytes);
                &&& fixed_bytes > total ==> result == Err::<Self, CacheError>(
                    CacheError::InvalidBudget,
                )
                &&& fixed_bytes <= total ==> result == Ok::<Self, CacheError>(
                    MemoryBudget { total_bytes: total, fixed_bytes },
                )
            }),
    {
        let default_total = available_bytes / 2;
        let total_bytes = match hard_cap_bytes {
            Some(cap) => if cap < default_total { cap } else { default_total },
            None => default_total,
        };
        Self::new(total_bytes, fixed_bytes)
    }

    /// Returns bytes available to columns, workspaces, and chunk execution.
    pub fn dynamic_bytes(self) -> (bytes: u64)
        ensures
            bytes == (if self.total_bytes >= self.fixed_bytes {
                self.total_bytes - self.fixed_bytes
            } else {
                0
            }),
    {
        self.total_bytes.saturating_sub(self.fixed_bytes)
    }
}

/// Calls `Arc::clone`: the clone points to the same allocation, so it holds
/// the same value.
#[verifier::external_body]
pub(crate) fn share<T>(this: &Arc<T>) -> (copy: Arc<T>)
    ensures
        copy == *this,
{
    Arc::clone(this)
}

/// Calls `Arc::strong_count`. The count depends on every clone held
/// anywhere, so nothing is claimed of it but that it counts `this` itself.
#[verifier::external_body]
fn strong_count<T>(this: &Arc<T>) -> (count: usize)
    ensures
        count >= 1,
{
    Arc::strong_count(this)
}

/// Deterministic cache identity.
#[derive(Debug, PartialEq, Eq, PartialOrd, Ord)]
pub struct CacheKey {
    /// Source frame.
    pub frame: LogicalFrameId,
    /// Selected domain.
    pub domain: DomainId,
    /// Horizontal cell.
    pub cell: CellId,
    /// Capabilities represented by the entry.
    pub capabilities: CapabilitySet,
    /// Stable algorithm identifier and version.
    pub algorithm: String,
}

impl Clone for CacheKey {
    fn clone(&self) -> (copy: Self)
        ensures
            copy == *self,
    {
        CacheKey {
            frame: self.frame.clone(),
            domain: self.domain.clone(),
            cell: self.cell,
            capabilities: self.capabilities,
            algorithm: self.algorithm.clone(),
        }
    }
}

/// Order of cache keys: frame, domain, cell, capabilities, algorithm.
pub open spec fn key_order(a: CacheKey, b: CacheKey) -> TextOrder {
    then_order(frame_order(a.frame, b.frame),
    then_order(text_order(a.domain@, b.domain@),
    then_order(int_order(a.cell.0 as int, b.cell.0 as int),
    then_order(int_order(a.capabilities.rank() as int, b.capabilities.rank() as int),
    text_order(a.algorithm@, b.algorithm@)))))
}

/// Keys name the same entry.
pub open spec fn same_key(a: CacheKey, b: CacheKey) -> bool {
    key_order(a, b) == TextOrder::Equal
}

impl CacheKey {
    /// Three-way order of keys.
    pub fn compare(&self, other: &CacheKey) -> (order: TextOrder)
        ensures
            order == key_order(*self, *other),
    {
        let by_frame = self.frame.compare(&other.frame);
        if by_frame != TextOrder::Equal {
            return by_frame;
        }
        let by_domain = self.domain.compare(&other.domain);
        if by_domain != TextOrder::Equal {
            return by_domain;
        }
        let by_cell = compare_u64(self.cell.0, other.cell.0);
        if by_cell != TextOrder::Equal {
            return by_cell;
        }
        let by_capabilities = compare_u64(self.capabilities.rank_value() as u64, other.capabilities.rank_value() as u64);
        if by_capabilities != TextOrder::Equal {
            return by_capabilities;
        }
        compare_text(self.algorithm.as_str(), other.algorithm.as_str())
    }
}

/// Immutable measured cache value.
#[derive(Clone, Debug)]
pub struct CacheEntry<T> {
    /// Shared immutable value.
    pub value: Arc<T>,
    /// Measured resident byte size.
    pub size_bytes: u64,
}

impl<T> CacheEntry<T> {
    /// Creates one measured immutable cache entry.
    pub fn new(value: Arc<T>, size_bytes: u64) -> (entry: Self)
        ensures
            entry.value == value,
            entry.size_bytes == size_bytes,
    {
        CacheEntry { value, size_bytes }
    }
}

/// Guard that keeps an entry resident for the current prepared batch.
#[derive(Clone, Debug)]
pub struct PinGuard<T> {
    entry: Arc<CacheEntry<T>>,
}

impl<T> PinGuard<T> {
    /// The pinned entry.
    pub closed spec fn spec_entry(self) -> CacheEntry<T> {
        *self.entry
    }

    /// Pins an immutable measured entry.
    pub fn new(entry: Arc<CacheEntry<T>>) -> (guard: Self)
        ensures
            guard.spec_entry() == *entry,
    {
        PinGuard { entry }
    }

    /// Returns the pinned value.
    pub fn value(&self) -> (value: &T)
        ensures
            *value == *self.spec_entry().value,
    {
        &self.entry.value
    }

    /// Returns the measured resident size retained by this guard.
    pub fn size_bytes(&self) -> (size: u64)
        ensures
            size == self.spec_entry().size_bytes,
    {
        self.entry.size_bytes
    }
}

/// Observable deterministic cache counters.
#[derive(Clone, Copy, Debug, Default, PartialEq, Eq, Structural)]
pub struct CacheMetrics {
    /// Successful lookups.
    pub hits: u64,
    /// Missing lookups.
    pub misses: u64,
    /// Entries evicted during preparation.
    pub evictions: u64,
    /// Current resident bytes.
    pub resident_bytes: u64,
}

/// Key comparison is consistent across three keys and reverses with its arguments.
pub proof fn lemma_key_order_laws(a: CacheKey, b: CacheKey, c: CacheKey)
    ensures
        coherent(key_order(a, b), key_order(b, c), key_order(a, c)),
        key_order(b, a) == flip_order(key_order(a, b)),
        key_order(a, a) == TextOrder::Equal,
{
    lemma_frame_order_laws(a.frame, b.frame, c.frame);
    lemma_frame_order_laws(a.frame, a.frame, a.frame);
    lemma_text_order_laws(a.domain@, b.domain@, c.domain@);
    lemma_text_order_laws(a.algorithm@, b.algorithm@, c.algorithm@);
    lemma_text_order_laws(a.domain@, a.domain@, a.domain@);
    lemma_text_order_laws(a.algorithm@, a.algorithm@, a.algorithm@);
    let f = (frame_order(a.frame, b.frame), frame_order(b.frame, c.frame), frame_order(a.frame, c.frame));
    let d = (text_order(a.domain@, b.domain@), text_order(b.domain@, c.domain@), text_order(a.domain@, c.domain@));
    let e = (int_order(a.cell.0 as int, b.cell.0 as int), int_order(b.cell.0 as int, c.cell.0 as int), int_order(a.cell.0 as int, c.cell.0 as int));
    let r = (int_order(a.capabilities.rank(), b.capabilities.rank()), int_order(b.capabilities.rank(), c.capabilities.rank()), int_order(a.capabilities.rank(), c.capabilities.rank()));
    let g = (text_order(a.algorithm@, b.algorithm@), text_order(b.algorithm@, c.algorithm@), text_order(a.algorithm@, c.algorithm@));
    lemma_then_coherent(r.0, r.1, r.2, g.0, g.1, g.2);
    let rg = (then_order(r.0, g.0), then_order(r.1, g.1), then_order(r.2, g.2));
    lemma_then_coherent(e.0, e.1, e.2, rg.0, rg.1, rg.2);
    let erg = (then_order(e.0, rg.0), then_order(e.1, rg.1), then_order(e.2, rg.2));
    lemma_then_coherent(d.0, d.1, d.2, erg.0, erg.1, erg.2);
    let derg = (then_order(d.0, erg.0), then_order(d.1, erg.1), then_order(d.2, erg.2));
    lemma_then_coherent(f.0, f.1, f.2, derg.0, derg.1, derg.2);
    lemma_then_flip(r.0, g.0);
    lemma_then_flip(e.0, rg.0);
    lemma_then_flip(d.0, erg.0);
    lemma_then_flip(f.0, derg.0);
}

/// What the cache holds for one key.
pub struct ResidentEntry<V> {
    /// Entry identity.
    pub key: CacheKey,
    /// Cached value.
    pub value: V,
    /// Measured resident bytes.
    pub size_bytes: u64,
    /// Clock value of the last preparation-time access.
    pub last_access: u64,
}

struct ColumnCacheRecord<V> {
    key: CacheKey,
    entry: Arc<CacheEntry<V>>,
    last_access: u64,
}

/// Total resident bytes of entries.
pub open spec fn size_sum<V>(entries: Seq<ResidentEntry<V>>) -> int
    decreases entries.len(),
{
    if entries.len() == 0 {
        0
    } else {
        size_sum(entries.drop_last()) + entries.last().size_bytes
    }
}

/// LRU eviction order: least recently accessed first, ties by key.
pub open spec fn lru_order<V>(a: ResidentEntry<V>, b: ResidentEntry<V>) -> TextOrder {
    then_order(int_order(a.last_access as int, b.last_access as int), key_order(a.key, b.key))
}

/// `order` lists exactly the unpinned entries, each once, in LRU order.
pub open spec fn eviction_order<V>(entries: Seq<ResidentEntry<V>>, pinned: Seq<bool>, order: Seq<usize>) -> bool {
    &&& forall|k: int| 0 <= k < order.len() ==> (#[trigger] order[k]) < entries.len() && !pinned[order[k] as int]
    &&& forall|i: int| 0 <= i < entries.len() && !pinned[i] ==> #[trigger] order.contains(i as usize)
    &&& forall|a: int, b: int| 0 <= a < b < order.len() ==> lru_order(
        #[trigger] entries[order[a] as int],
        #[trigger] entries[order[b] as int],
    ) == TextOrder::Less
}

/// Byte-budgeted deterministic local-column LRU owner.
pub struct ColumnCache<V> {
    budget_bytes: u64,
    records: Vec<ColumnCacheRecord<V>>,
    access_clock: u64,
    metrics: CacheMetrics,
}

impl<V> ColumnCache<V> {
    /// The resident entries.
    pub closed spec fn entries(self) -> Seq<ResidentEntry<V>> {
        Seq::new(self.records@.len(), |i: int| ResidentEntry {
            key: self.records@[i].key,
            value: *self.records@[i].entry.value,
            size_bytes: self.records@[i].entry.size_bytes,
            last_access: self.records@[i].last_access,
        })
    }

    /// The configured hard budget.
    pub closed spec fn spec_budget(self) -> u64 {
        self.budget_bytes
    }

    /// The access clock.
    pub closed spec fn spec_clock(self) -> u64 {
        self.access_clock
    }

    /// The counters.
    pub closed spec fn spec_metrics(self) -> CacheMetrics {
        self.metrics
    }

    /// Keys are distinct and resident bytes are the entries' total, within
    /// the budget.
    pub open spec fn wf(self) -> bool {
        &&& forall|i: int, j: int| 0 <= i < j < self.entries().len() ==> !same_key(
            #[trigger] self.entries()[i].key,
            #[trigger] self.entries()[j].key,
        )
        &&& self.spec_metrics().resident_bytes == size_sum(self.entries())
        &&& self.spec_metrics().resident_bytes <= self.spec_budget()
    }

    /// Position of the entry for `key`, if resident.
    pub open spec fn position_of(self, key: CacheKey) -> Option<int> {
        if exists|i: int| 0 <= i < self.entries().len() && same_key(#[trigger] self.entries()[i].key, key) {
            Some(choose|i: int| 0 <= i < self.entries().len() && same_key(#[trigger] self.entries()[i].key, key))
        } else {
            None
        }
    }

    /// Creates an empty column cache with a hard byte budget.
    pub fn new(budget_bytes: u64) -> (cache: Self)
        ensures
            cache.wf(),
            cache.entries().len() == 0,
            cache.spec_budget() == budget_bytes,
            cache.spec_clock() == 0,
            cache.spec_metrics() == (CacheMetrics { hits: 0, misses: 0, evictions: 0, resident_bytes: 0 }),
    {
        let cache = ColumnCache {
            budget_bytes,
            records: Vec::new(),
            access_clock: 0,
            metrics: CacheMetrics { hits: 0, misses: 0, evictions: 0, resident_bytes: 0 },
        };
        proof {
            assert(cache.entries() =~= Seq::<ResidentEntry<V>>::empty());
        }
        cache
    }

    /// Returns the configured hard budget.
    pub fn budget_bytes(&self) -> (budget: u64)
        ensures
            budget == self.spec_budget(),
    {
        self.budget_bytes
    }

    /// Returns current metrics without mutating LRU state.
    pub fn metrics(&self) -> (metrics: CacheMetrics)
        ensures
            metrics == self.spec_metrics(),
    {
        self.metrics
    }

    /// Returns the number of resident entries.
    pub fn len(&self) -> (len: usize)
        ensures
            len == self.entries().len(),
    {
        self.records.len()
    }

    /// Returns whether no entries are resident.
    pub fn is_empty(&self) -> (empty: bool)
        ensures
            empty == (self.entries().len() == 0),
    {
        self.records.len() == 0
    }

    /// Position of the record for `key`.
    fn find(&self, key: &CacheKey) -> (position: Option<usize>)
        ensures
            position matches Some(i) ==> i < self.entries().len() && same_key(self.entries()[i as int].key, *key),
            position is None ==> forall|i: int| 0 <= i < self.entries().len() ==> !same_key(#[trigger] self.entries()[i].key, *key),
    {
        let mut i: usize = 0;
        while i < self.records.len()
            invariant
                i <= self.records@.len(),
                forall|q: int| 0 <= q < i ==> !same_key(#[trigger] self.entries()[q].key, *key),
            decreases self.records@.len() - i,
        {
            if self.records[i].key.compare(key) == TextOrder::Equal {
                return Some(i);
            }
            i += 1;
        }
        None
    }
}

/// Entries of `entries` whose mark in `drop` is clear, in order.
pub open spec fn kept<V>(entries: Seq<ResidentEntry<V>>, drop: Seq<bool>) -> Seq<ResidentEntry<V>>
    decreases entries.len(),
{
    if entries.len() == 0 {
        Seq::empty()
    } else if drop[entries.len() - 1] {
        kept(entries.drop_last(), drop)
    } else {
        kept(entries.drop_last(), drop).push(entries.last())
    }
}

proof fn lemma_size_sum_nonnegative<V>(entries: Seq<ResidentEntry<V>>)
    ensures
        size_sum(entries) >= 0,
    decreases entries.len(),
{
    if entries.len() > 0 {
        lemma_size_sum_nonnegative(entries.drop_last());
    }
}

proof fn lemma_size_sum_remove<V>(entries: Seq<ResidentEntry<V>>, i: int)
    requires
        0 <= i < entries.len(),
    ensures
        size_sum(entries.remove(i)) == size_sum(entries) - entries[i].size_bytes,
        size_sum(entries) >= entries[i].size_bytes,
    decreases entries.len(),
{
    lemma_size_sum_nonnegative(entries.drop_last());
    if i < entries.len() - 1 {
        lemma_size_sum_remove(entries.drop_last(), i);
        assert(entries.remove(i).drop_last() =~= entries.drop_last().remove(i));
        assert(entries.remove(i).last() == entries.last());
    } else {
        assert(entries.remove(i) =~= entries.drop_last());
    }
}

proof fn lemma_size_sum_push<V>(entries: Seq<ResidentEntry<V>>, e: ResidentEntry<V>)
    ensures
        size_sum(entries.push(e)) == size_sum(entries) + e.size_bytes,
{
    assert(entries.push(e).drop_last() =~= entries);
}

proof fn lemma_size_sum_update<V>(entries: Seq<ResidentEntry<V>>, i: int, e: ResidentEntry<V>)
    requires
        0 <= i < entries.len(),
        e.size_bytes == entries[i].size_bytes,
    ensures
        size_sum(entries.update(i, e)) == size_sum(entries),
    decreases entries.len(),
{
    if i < entries.len() - 1 {
        lemma_size_sum_update(entries.drop_last(), i, e);
        assert(entries.update(i, e).drop_last() =~= entries.drop_last().update(i, e));
    } else {
        assert(entries.update(i, e).drop_last() =~= entries.drop_last());
    }
}

impl<V> ColumnCache<V> {
    /// Pins one exact entry and updates preparation-time LRU state.
    pub fn get(&mut self, key: &CacheKey) -> (pin: Option<PinGuard<V>>)
        requires
            old(self).wf(),
        ensures
            final(self).wf(),
            final(self).spec_budget() == old(self).spec_budget(),
            final(self).spec_clock() == tick(old(self).spec_clock()),
            match old(self).position_of(*key) {
                Some(i) => pin matches Some(guard) && {
                    let e = old(self).entries()[i];
                    &&& *guard.spec_entry().value == e.value
                    &&& guard.spec_entry().size_bytes == e.size_bytes
                    &&& final(self).entries() == old(self).entries().update(i, ResidentEntry {
                        last_access: tick(old(self).spec_clock()),
                        ..e
                    })
                    &&& final(self).spec_metrics() == (CacheMetrics { hits: tick(old(self).spec_metrics().hits), ..old(self).spec_metrics() })
                },
                None => pin is None && final(self).entries() == old(self).entries()
                    && final(self).spec_metrics() == (CacheMetrics { misses: tick(old(self).spec_metrics().misses), ..old(self).spec_metrics() }),
            },
    {
        self.access_clock = self.access_clock.saturating_add(1);
        match self.find(key) {
            Some(i) => {
                proof {
                    lemma_position_unique(*old(self), *key, i as int);
                }
                let ghost before = self.entries();
                let record = ColumnCacheRecord {
                    key: self.records[i].key.clone(),
                    entry: share(&self.records[i].entry),
                    last_access: self.access_clock,
                };
                let guard = PinGuard::new(share(&self.records[i].entry));
                self.records.set(i, record);
                self.metrics.hits = self.metrics.hits.saturating_add(1);
                proof {
                    let updated = before.update(i as int, ResidentEntry { last_access: self.access_clock, ..before[i as int] });
                    assert(self.entries() =~= updated);
                    lemma_size_sum_update(before, i as int, updated[i as int]);
                    assert forall|a: int, b: int| 0 <= a < b < self.entries().len() implies !same_key(
                        #[trigger] self.entries()[a].key,
                        #[trigger] self.entries()[b].key,
                    ) by {
                        assert(self.entries()[a].key == before[a].key);
                        assert(self.entries()[b].key == before[b].key);
                    }
                }
                Some(guard)
            },
            None => {
                proof {
                    assert(self.entries() =~= old(self).entries());
                    assert(old(self).position_of(*key) is None);
                }
                self.metrics.misses = self.metrics.misses.saturating_add(1);
                None
            },
        }
    }
}

/// The position of a resident key is the one any matching position names.
proof fn lemma_position_unique<V>(cache: ColumnCache<V>, key: CacheKey, i: int)
    requires
        cache.wf(),
        0 <= i < cache.entries().len(),
        same_key(cache.entries()[i].key, key),
    ensures
        cache.position_of(key) == Some(i),
{
    let j = choose|j: int| 0 <= j < cache.entries().len() && same_key(#[trigger] cache.entries()[j].key, key);
    if j != i {
        lemma_key_order_laws(cache.entries()[i].key, key, cache.entries()[j].key);
        lemma_key_order_laws(cache.entries()[j].key, key, cache.entries()[i].key);
        lemma_key_order_laws(key, cache.entries()[j].key, cache.entries()[i].key);
        if i < j {
            assert(!same_key(cache.entries()[i].key, cache.entries()[j].key));
        } else {
            assert(!same_key(cache.entries()[j].key, cache.entries()[i].key));
        }
    }
}

/// LRU comparison is consistent across three entries and reverses with its arguments.
pub proof fn lemma_lru_order_laws<V>(a: ResidentEntry<V>, b: ResidentEntry<V>, c: ResidentEntry<V>)
    ensures
        coherent(lru_order(a, b), lru_order(b, c), lru_order(a, c)),
        lru_order(b, a) == flip_order(lru_order(a, b)),
        (lru_order(a, b) == TextOrder::Equal) == (a.last_access == b.last_access && same_key(a.key, b.key)),
{
    lemma_key_order_laws(a.key, b.key, c.key);
    let t = (int_order(a.last_access as int, b.last_access as int), int_order(b.last_access as int, c.last_access as int), int_order(a.last_access as int, c.last_access as int));
    lemma_then_coherent(t.0, t.1, t.2, key_order(a.key, b.key), key_order(b.key, c.key), key_order(a.key, c.key));
    lemma_then_flip(t.0, key_order(a.key, b.key));
}

impl<V> ColumnCache<V> {
    /// Whether each entry is pinned, read now: an entry is pinned exactly
    /// when its reference count, as read, is above one, that is when some
    /// guard besides the cache's own record holds it, whatever the number of
    /// guards. The counts read are returned beside the flags.
    fn pin_flags(&self) -> (result: (Vec<bool>, Ghost<Seq<usize>>))
        ensures
            result.0@.len() == self.entries().len(),
            result.1@.len() == self.entries().len(),
            forall|i: int| 0 <= i < result.1@.len() ==> #[trigger] result.1@[i] >= 1,
            forall|i: int| 0 <= i < result.0@.len() ==> (#[trigger] result.0@[i] <==> result.1@[i] > 1),
    {
        let mut pinned: Vec<bool> = Vec::new();
        let ghost mut counts: Seq<usize> = Seq::empty();
        let mut i: usize = 0;
        while i < self.records.len()
            invariant
                i <= self.records@.len(),
                pinned@.len() == i,
                counts.len() == i,
                forall|j: int| 0 <= j < i ==> #[trigger] counts[j] >= 1,
                forall|j: int| 0 <= j < i ==> (#[trigger] pinned@[j] <==> counts[j] > 1),
            decreases self.records@.len() - i,
        {
            let count = strong_count(&self.records[i].entry);
            pinned.push(count > 1);
            proof {
                counts = counts.push(count);
            }
            i += 1;
        }
        (pinned, Ghost(counts))
    }

    /// LRU comparison of two records.
    fn compare_records(&self, a: usize, b: usize) -> (order: TextOrder)
        requires
            a < self.entries().len(),
            b < self.entries().len(),
        ensures
            order == lru_order(self.entries()[a as int], self.entries()[b as int]),
    {
        let by_access = compare_u64(self.records[a].last_access, self.records[b].last_access);
        if by_access != TextOrder::Equal {
            return by_access;
        }
        self.records[a].key.compare(&self.records[b].key)
    }

    /// Unpinned entries in LRU eviction order.
    #[verifier::spinoff_prover]
    #[verifier::rlimit(50)]
    fn eviction_candidates(&self, pinned: &Vec<bool>) -> (order: Vec<usize>)
        requires
            self.wf(),
            pinned@.len() == self.entries().len(),
        ensures
            eviction_order(self.entries(), pinned@, order@),
    {
        let ghost entries = self.entries();
        let mut order: Vec<usize> = Vec::new();
        let mut next: usize = 0;
        while next < self.records.len()
            invariant
                self.wf(),
                entries == self.entries(),
                pinned@.len() == entries.len(),
                next <= entries.len(),
                forall|k: int| 0 <= k < order@.len() ==> (#[trigger] order@[k]) < next && !pinned@[order@[k] as int],
                forall|i: int| 0 <= i < next && !pinned@[i] ==> #[trigger] order@.contains(i as usize),
                forall|a: int, b: int| 0 <= a < b < order@.len() ==> lru_order(
                    #[trigger] entries[order@[a] as int],
                    #[trigger] entries[order@[b] as int],
                ) == TextOrder::Less,
            decreases entries.len() - next,
        {
            if !pinned[next] {
                let mut position: usize = 0;
                while position < order.len() && self.compare_records(order[position], next) == TextOrder::Less
                    invariant
                        self.wf(),
                        entries == self.entries(),
                        next < entries.len(),
                        position <= order@.len(),
                        forall|k: int| 0 <= k < order@.len() ==> (#[trigger] order@[k]) < next,
                        forall|q: int| 0 <= q < position ==> lru_order(#[trigger] entries[order@[q] as int], entries[next as int]) == TextOrder::Less,
                    decreases order@.len() - position,
                {
                    position += 1;
                }
                proof {
                    if position < order@.len() {
                        let here = entries[order@[position as int] as int];
                        lemma_lru_order_laws(here, entries[next as int], here);
                        assert(!same_key(here.key, entries[next as int].key));
                        assert(lru_order(entries[next as int], here) == TextOrder::Less);
                    }
                }
                let ghost before = order@;
                order.insert(position, next);
                proof {
                    assert forall|a: int, b: int| 0 <= a < b < order@.len() implies lru_order(
                        #[trigger] entries[order@[a] as int],
                        #[trigger] entries[order@[b] as int],
                    ) == TextOrder::Less by {
                        if b == position {
                            assert(order@[a] == before[a]);
                        } else if a == position {
                            let first = before[position as int];
                            assert(order@[b] == before[b - 1]);
                            if b - 1 > position {
                                lemma_lru_order_laws(entries[next as int], entries[first as int], entries[before[b - 1] as int]);
                            }
                        } else {
                            let aa = if a < position { a } else { a - 1 };
                            let bb = if b < position { b } else { b - 1 };
                            assert(order@[a] == before[aa]);
                            assert(order@[b] == before[bb]);
                        }
                    }
                    assert forall|k: int| 0 <= k < order@.len() implies (#[trigger] order@[k]) < next + 1 && !pinned@[order@[k] as int] by {
                        if k != position {
                            let kk = if k < position { k } else { k - 1 };
                            assert(order@[k] == before[kk]);
                        }
                    }
                    assert forall|i: int| 0 <= i < next + 1 && !pinned@[i] implies #[trigger] order@.contains(i as usize) by {
                        if i == next {
                            assert(order@[position as int] == next);
                        } else {
                            assert(before.contains(i as usize));
                            let q = choose|q: int| 0 <= q < before.len() && before[q] == i as usize;
                            let qq = if q < position { q } else { q + 1 };
                            assert(order@[qq] == i as usize);
                        }
                    }
                }
            }
            next += 1;
        }
        order
    }
}

proof fn lemma_kept_front<V>(entries: Seq<ResidentEntry<V>>, drop: Seq<bool>)
    requires
        entries.len() > 0,
        drop.len() == entries.len(),
    ensures
        kept(entries, drop) == (if drop[0] { Seq::empty() } else { seq![entries[0]] }) + kept(entries.drop_first(), drop.drop_first()),
    decreases entries.len(),
{
    if entries.len() == 1 {
        assert(entries.drop_first() =~= Seq::<ResidentEntry<V>>::empty());
        assert(kept(entries.drop_last(), drop) =~= Seq::<ResidentEntry<V>>::empty());
        if !drop[0] {
            assert(kept(entries, drop) =~= seq![entries[0]]);
        }
        assert(kept(entries, drop) =~= (if drop[0] { Seq::empty() } else { seq![entries[0]] }) + kept(entries.drop_first(), drop.drop_first()));
    } else {
        lemma_kept_front(entries.drop_last(), drop.drop_last());
        lemma_kept_prefix_marks(entries.drop_last(), drop, drop.drop_last());
        lemma_kept_prefix_marks(entries.drop_last().drop_first(), drop.drop_first(), drop.drop_last().drop_first());
        assert(entries.drop_first().drop_last() =~= entries.drop_last().drop_first());
        assert(entries.drop_first().last() == entries.last());
        assert(drop.drop_first()[entries.drop_first().len() - 1] == drop[entries.len() - 1]);
        assert(kept(entries, drop) =~= (if drop[0] { Seq::empty() } else { seq![entries[0]] }) + kept(entries.drop_first(), drop.drop_first()));
    }
}

/// Only the marks of positions that exist matter.
proof fn lemma_kept_prefix_marks<V>(entries: Seq<ResidentEntry<V>>, a: Seq<bool>, b: Seq<bool>)
    requires
        a.len() >= entries.len(),
        b.len() >= entries.len(),
        forall|i: int| 0 <= i < entries.len() ==> a[i] == b[i],
    ensures
        kept(entries, a) == kept(entries, b),
    decreases entries.len(),
{
    if entries.len() > 0 {
        lemma_kept_prefix_marks(entries.drop_last(), a, b);
    }
}

proof fn lemma_count_true_front(flags: Seq<bool>)
    requires
        flags.len() > 0,
    ensures
        count_true(flags) == (if flags[0] { 1nat } else { 0nat }) + count_true(flags.drop_first()),
    decreases flags.len(),
{
    if flags.len() > 1 {
        lemma_count_true_front(flags.drop_last());
        assert(flags.drop_first().drop_last() =~= flags.drop_last().drop_first());
    } else {
        assert(flags.drop_first() =~= Seq::<bool>::empty());
        assert(flags.drop_last() =~= Seq::<bool>::empty());
    }
}

/// `value`, capped at `u64::MAX`.
pub open spec fn capped(value: int) -> u64 {
    if value > u64::MAX { u64::MAX } else { value as u64 }
}

impl<V> ColumnCache<V> {
    /// Removes the marked entries, keeping the others in order.
    fn remove_marked(&mut self, drop: &Vec<bool>, count_evictions: bool) -> (removed: usize)
        requires
            old(self).wf(),
            drop@.len() == old(self).entries().len(),
        ensures
            final(self).entries() == kept(old(self).entries(), drop@),
            removed == count_true(drop@),
            final(self).spec_metrics().resident_bytes == size_sum(final(self).entries()),
            final(self).spec_metrics().resident_bytes <= old(self).spec_metrics().resident_bytes,
            forall|i: int, j: int| 0 <= i < j < final(self).entries().len() ==> !same_key(
                #[trigger] final(self).entries()[i].key,
                #[trigger] final(self).entries()[j].key,
            ),
            final(self).spec_metrics().evictions == (if count_evictions {
                capped(old(self).spec_metrics().evictions + count_true(drop@))
            } else {
                old(self).spec_metrics().evictions
            }),
            final(self).spec_metrics().hits == old(self).spec_metrics().hits,
            final(self).spec_metrics().misses == old(self).spec_metrics().misses,
            final(self).spec_budget() == old(self).spec_budget(),
            final(self).spec_clock() == old(self).spec_clock(),
    {
        let ghost entries = self.entries();
        let ghost d = drop@;
        let mut i: usize = self.records.len();
        let mut removed: usize = 0;
        proof {
            assert(entries.skip(i as int) =~= Seq::<ResidentEntry<V>>::empty());
            assert(d.skip(i as int) =~= Seq::<bool>::empty());
            assert(entries.take(i as int) =~= entries);
            assert(self.entries() =~= entries.take(i as int) + kept(entries.skip(i as int), d.skip(i as int)));
        }
        while i > 0
            invariant
                d == drop@,
                d.len() == entries.len(),
                entries.len() <= usize::MAX,
                i <= entries.len(),
                self.entries() == entries.take(i as int) + kept(entries.skip(i as int), d.skip(i as int)),
                removed == count_true(d.skip(i as int)),
                removed <= entries.len() - i,
                self.spec_metrics().resident_bytes == size_sum(self.entries()),
                self.spec_metrics().resident_bytes <= old(self).spec_metrics().resident_bytes,
                forall|a: int, b: int| 0 <= a < b < self.entries().len() ==> !same_key(
                    #[trigger] self.entries()[a].key,
                    #[trigger] self.entries()[b].key,
                ),
                self.spec_metrics().evictions == (if count_evictions {
                    capped(old(self).spec_metrics().evictions + removed)
                } else {
                    old(self).spec_metrics().evictions
                }),
                self.spec_metrics().hits == old(self).spec_metrics().hits,
                self.spec_metrics().misses == old(self).spec_metrics().misses,
                self.spec_budget() == old(self).spec_budget(),
                self.spec_clock() == old(self).spec_clock(),
            decreases i,
        {
            let ghost current = self.entries();
            proof {
                lemma_kept_front(entries.skip(i - 1), d.skip(i - 1));
                assert(entries.skip(i - 1).drop_first() =~= entries.skip(i as int));
                assert(d.skip(i - 1).drop_first() =~= d.skip(i as int));
                assert(entries.skip(i - 1)[0] == entries[i - 1]);
                lemma_count_true_front(d.skip(i - 1));
                assert(current[i - 1] == entries[i - 1]);
            }
            if drop[i - 1] {
                let record = self.records.remove(i - 1);
                proof {
                    lemma_size_sum_remove(current, i - 1);
                    assert(self.entries() =~= current.remove(i - 1));
                    assert(entries.take(i - 1) =~= entries.take(i as int).drop_last());
                    assert(self.entries() =~= entries.take(i - 1) + kept(entries.skip(i - 1), d.skip(i - 1)));
                    assert forall|a: int, b: int| 0 <= a < b < self.entries().len() implies !same_key(
                        #[trigger] self.entries()[a].key,
                        #[trigger] self.entries()[b].key,
                    ) by {
                        let aa = if a < i - 1 { a } else { a + 1 };
                        let bb = if b < i - 1 { b } else { b + 1 };
                        assert(self.entries()[a] == current[aa]);
                        assert(self.entries()[b] == current[bb]);
                    }
                }
                self.metrics.resident_bytes = self.metrics.resident_bytes - record.entry.size_bytes;
                if count_evictions {
                    self.metrics.evictions = self.metrics.evictions.saturating_add(1);
                }
                removed += 1;
            } else {
                proof {
                    assert(entries.take(i as int) =~= entries.take(i - 1).push(entries[i - 1]));
                    assert(self.entries() =~= entries.take(i - 1) + kept(entries.skip(i - 1), d.skip(i - 1)));
                }
            }
            i -= 1;
        }
        proof {
            assert(entries.skip(0) =~= entries);
            assert(d.skip(0) =~= d);
            assert(entries.take(0) + kept(entries, d) =~= kept(entries, d));
        }
        removed
    }
}

/// Total resident bytes of the marked entries.
pub open spec fn marked_sum<V>(entries: Seq<ResidentEntry<V>>, drop: Seq<bool>) -> int
    decreases entries.len(),
{
    if entries.len() == 0 {
        0
    } else if drop[entries.len() - 1] {
        marked_sum(entries.drop_last(), drop) + entries.last().size_bytes
    } else {
        marked_sum(entries.drop_last(), drop)
    }
}

/// Marks of the first `k` entries of an eviction order.
pub open spec fn evict_marks(n: nat, order: Seq<usize>, k: int) -> Seq<bool> {
    Seq::new(n, |i: int| order.take(k).contains(i as usize))
}

/// Growing a prefix by one position adds exactly that position's item.
proof fn lemma_take_contains(order: Seq<usize>, k: int, x: usize)
    requires
        0 < k <= order.len(),
    ensures
        order.take(k).contains(x) == (order.take(k - 1).contains(x) || order[k - 1] == x),
{
    if order.take(k).contains(x) {
        let q = choose|q: int| 0 <= q < order.take(k).len() && #[trigger] order.take(k)[q] == x;
        if q < k - 1 {
            assert(order.take(k - 1)[q] == x);
        }
    }
    if order.take(k - 1).contains(x) {
        let q = choose|q: int| 0 <= q < order.take(k - 1).len() && #[trigger] order.take(k - 1)[q] == x;
        assert(order.take(k)[q] == x);
    }
    if order[k - 1] == x {
        assert(order.take(k)[k - 1] == x);
    }
}

/// Total resident bytes of the first `k` entries of an eviction order.
pub open spec fn order_prefix_sum<V>(entries: Seq<ResidentEntry<V>>, order: Seq<usize>, k: int) -> int
    decreases k,
{
    if k <= 0 {
        0
    } else {
        order_prefix_sum(entries, order, k - 1) + entries[order[k - 1] as int].size_bytes
    }
}

/// `a - b`, or zero when that would be negative.
pub open spec fn saturating_sub_int(a: int, b: int) -> int {
    if a >= b { a - b } else { 0 }
}

/// Number of leading entries of `order` evicted until the projected bytes
/// fit the budget, starting at position `k`; `None` when evicting every
/// candidate is not enough.
pub open spec fn evict_count<V>(entries: Seq<ResidentEntry<V>>, order: Seq<usize>, projected: int, budget: int, k: int) -> Option<int>
    decreases order.len() - k,
{
    if projected <= budget {
        Some(k)
    } else if k < 0 || k >= order.len() {
        None
    } else {
        evict_count(entries, order, saturating_sub_int(projected, entries[order[k] as int].size_bytes as int), budget, k + 1)
    }
}

proof fn lemma_kept_sum<V>(entries: Seq<ResidentEntry<V>>, drop: Seq<bool>)
    requires
        drop.len() >= entries.len(),
    ensures
        size_sum(entries) == size_sum(kept(entries, drop)) + marked_sum(entries, drop),
    decreases entries.len(),
{
    if entries.len() > 0 {
        lemma_kept_sum(entries.drop_last(), drop);
        if !drop[entries.len() - 1] {
            lemma_size_sum_push(kept(entries.drop_last(), drop), entries.last());
        }
    }
}

proof fn lemma_marked_sum_update<V>(entries: Seq<ResidentEntry<V>>, drop: Seq<bool>, j: int)
    requires
        drop.len() == entries.len(),
        0 <= j < entries.len(),
        !drop[j],
    ensures
        marked_sum(entries, drop.update(j, true)) == marked_sum(entries, drop) + entries[j].size_bytes,
    decreases entries.len(),
{
    if j < entries.len() - 1 {
        lemma_marked_sum_update(entries.drop_last(), drop.drop_last(), j);
        lemma_marked_sum_prefix_marks(entries.drop_last(), drop, drop.drop_last());
        lemma_marked_sum_prefix_marks(entries.drop_last(), drop.update(j, true), drop.drop_last().update(j, true));
    } else {
        lemma_marked_sum_prefix_marks(entries.drop_last(), drop, drop.update(j, true));
    }
}

proof fn lemma_marked_sum_prefix_marks<V>(entries: Seq<ResidentEntry<V>>, a: Seq<bool>, b: Seq<bool>)
    requires
        a.len() >= entries.len(),
        b.len() >= entries.len(),
        forall|i: int| 0 <= i < entries.len() ==> a[i] == b[i],
    ensures
        marked_sum(entries, a) == marked_sum(entries, b),
    decreases entries.len(),
{
    if entries.len() > 0 {
        lemma_marked_sum_prefix_marks(entries.drop_last(), a, b);
    }
}

proof fn lemma_marked_sum_none<V>(entries: Seq<ResidentEntry<V>>, drop: Seq<bool>)
    requires
        drop.len() >= entries.len(),
        forall|i: int| 0 <= i < entries.len() ==> !drop[i],
    ensures
        marked_sum(entries, drop) == 0,
    decreases entries.len(),
{
    if entries.len() > 0 {
        lemma_marked_sum_none(entries.drop_last(), drop);
    }
}

/// Marking the first `k` entries of a repetition-free order marks their total bytes.
proof fn lemma_evict_marks_sum<V>(entries: Seq<ResidentEntry<V>>, order: Seq<usize>, k: int)
    requires
        0 <= k <= order.len(),
        entries.len() <= usize::MAX,
        forall|q: int| 0 <= q < order.len() ==> (#[trigger] order[q]) < entries.len(),
        forall|a: int, b: int| 0 <= a < b < order.len() ==> order[a] != order[b],
    ensures
        marked_sum(entries, evict_marks(entries.len(), order, k)) == order_prefix_sum(entries, order, k),
    decreases k,
{
    if k == 0 {
        lemma_marked_sum_none(entries, evict_marks(entries.len(), order, 0));
    } else {
        lemma_evict_marks_sum(entries, order, k - 1);
        let before = evict_marks(entries.len(), order, k - 1);
        let j = order[k - 1] as int;
        assert(!before[j]) by {
            if before[j] {
                let q = choose|q: int| 0 <= q < order.take(k - 1).len() && #[trigger] order.take(k - 1)[q] == j as usize;
                assert(order[q] == order[k - 1]);
            }
        }
        lemma_marked_sum_update(entries, before, j);
        assert(evict_marks(entries.len(), order, k) =~= before.update(j, true)) by {
            assert forall|i: int| 0 <= i < entries.len() implies #[trigger] evict_marks(entries.len(), order, k)[i] == before.update(j, true)[i] by {
                lemma_take_contains(order, k, i as usize);
            }
        }
    }
}

/// Saturating subtraction never lowers the projection below the exact remainder.
proof fn lemma_evict_count_bound<V>(entries: Seq<ResidentEntry<V>>, order: Seq<usize>, required: int, projected: int, budget: int, k: int)
    requires
        0 <= k <= order.len(),
        projected >= required - order_prefix_sum(entries, order, k),
    ensures
        evict_count(entries, order, projected, budget, k) matches Some(m) ==> k <= m <= order.len()
            && required - order_prefix_sum(entries, order, m) <= budget,
    decreases order.len() - k,
{
    if projected > budget && k < order.len() {
        lemma_evict_count_bound(entries, order, required,
            saturating_sub_int(projected, entries[order[k] as int].size_bytes as int), budget, k + 1);
    }
}

/// Marks the positions named by the first `k` items of `order`.
fn prefix_marks(order: &Vec<usize>, k: usize, n: usize) -> (marks: Vec<bool>)
    requires
        k <= order@.len(),
        forall|p: int| 0 <= p < order@.len() ==> (#[trigger] order@[p]) < n,
    ensures
        marks@ == evict_marks(n as nat, order@, k as int),
{
    let mut marks: Vec<bool> = vec![false; n];
    let mut q: usize = 0;
    proof {
        assert(marks@ =~= evict_marks(n as nat, order@, 0));
    }
    while q < k
        invariant
            q <= k,
            k <= order@.len(),
            n == marks@.len(),
            forall|p: int| 0 <= p < order@.len() ==> (#[trigger] order@[p]) < n,
            marks@ == evict_marks(n as nat, order@, q as int),
        decreases k - q,
    {
        let ghost prev = marks@;
        marks.set(order[q], true);
        q += 1;
        proof {
            assert forall|i: int| 0 <= i < n implies #[trigger] marks@[i] == evict_marks(n as nat, order@, q as int)[i] by {
                lemma_take_contains(order@, q as int, i as usize);
                assert(prev[i] == evict_marks(n as nat, order@, q - 1)[i]);
            }
            assert(marks@ =~= evict_marks(n as nat, order@, q as int));
        }
    }
    marks
}

impl<V: PartialEq> ColumnCache<V> {
    /// Inserts and pins one immutable column after transactional eviction
    /// planning: unpinned entries are evicted least recently used first, and
    /// only when the whole insertion then fits the budget.
    pub fn insert(&mut self, key: CacheKey, value: Arc<V>, size_bytes: u64) -> (result: Result<PinGuard<V>, CacheError>)
        requires
            old(self).wf(),
        ensures
            final(self).wf(),
            final(self).spec_budget() == old(self).spec_budget(),
            ({
                let before = *old(self);
                let after = *final(self);
                let unchanged = after.entries() == before.entries() && after.spec_metrics() == before.spec_metrics()
                    && after.spec_clock() == before.spec_clock();
                let required = before.spec_metrics().resident_bytes + size_bytes;
                match before.position_of(key) {
                    Some(i) => unchanged && (result is Ok || result == Err::<PinGuard<V>, CacheError>(CacheError::DuplicateKey))
                        && (V::obeys_eq_spec() ==> (result is Ok <==> before.entries()[i].value.eq_spec(&*value)))
                        && (result matches Ok(guard) ==> *guard.spec_entry().value == before.entries()[i].value
                            && guard.spec_entry().size_bytes == before.entries()[i].size_bytes),
                    None => if size_bytes > before.spec_budget() {
                        unchanged && result == Err::<PinGuard<V>, CacheError>(CacheError::EntryTooLarge {
                            entry_bytes: size_bytes,
                            budget_bytes: before.spec_budget(),
                        })
                    } else if required > u64::MAX {
                        unchanged && result == Err::<PinGuard<V>, CacheError>(CacheError::InsufficientBudget {
                            required_bytes: u64::MAX,
                            budget_bytes: before.spec_budget(),
                        })
                    } else {
                        exists|pinned: Seq<bool>, order: Seq<usize>| {
                            &&& pinned.len() == before.entries().len()
                            &&& eviction_order(before.entries(), pinned, order)
                            &&& match evict_count(before.entries(), order, required, before.spec_budget() as int, 0) {
                                None => unchanged && result == Err::<PinGuard<V>, CacheError>(CacheError::InsufficientBudget {
                                    required_bytes: required as u64,
                                    budget_bytes: before.spec_budget(),
                                }),
                                Some(k) => {
                                    let marks = evict_marks(before.entries().len(), order, k);
                                    &&& result matches Ok(guard)
                                    &&& *guard.spec_entry().value == *value
                                    &&& guard.spec_entry().size_bytes == size_bytes
                                    &&& after.entries() == kept(before.entries(), marks).push(ResidentEntry {
                                        key,
                                        value: *value,
                                        size_bytes,
                                        last_access: tick(before.spec_clock()),
                                    })
                                    &&& after.spec_clock() == tick(before.spec_clock())
                                    &&& after.spec_metrics().evictions == capped(before.spec_metrics().evictions + count_true(marks))
                                    &&& after.spec_metrics().hits == before.spec_metrics().hits
                                    &&& after.spec_metrics().misses == before.spec_metrics().misses
                                },
                            }
                        }
                    }
                }
            }),
    {
        if let Some(i) = self.find(&key) {
            proof {
                lemma_position_unique(*self, key, i as int);
            }
            if *self.records[i].entry.value == *value {
                return Ok(PinGuard::new(share(&self.records[i].entry)));
            }
            return Err(CacheError::DuplicateKey);
        }
        proof {
            assert(self.position_of(key) is None);
        }
        if size_bytes > self.budget_bytes {
            return Err(CacheError::EntryTooLarge { entry_bytes: size_bytes, budget_bytes: self.budget_bytes });
        }
        let required = match self.metrics.resident_bytes.checked_add(size_bytes) {
            Some(total) => total,
            None => {
                return Err(CacheError::InsufficientBudget { required_bytes: u64::MAX, budget_bytes: self.budget_bytes });
            },
        };
        let ghost entries = self.entries();
        let (pinned, _counts) = self.pin_flags();
        let order = self.eviction_candidates(&pinned);
        proof {
            assert forall|a: int, b: int| 0 <= a < b < order@.len() implies order@[a] != order@[b] by {
                lemma_lru_order_laws(entries[order@[a] as int], entries[order@[b] as int], entries[order@[a] as int]);
            }
        }
        let mut projected = required;
        let mut k: usize = 0;
        proof {
            assert(order_prefix_sum(entries, order@, 0) == 0);
        }
        while k < order.len() && projected > self.budget_bytes
            invariant
                entries == self.entries(),
                k <= order@.len(),
                forall|q: int| 0 <= q < order@.len() ==> (#[trigger] order@[q]) < entries.len(),
                evict_count(entries, order@, required as int, self.budget_bytes as int, 0)
                    == evict_count(entries, order@, projected as int, self.budget_bytes as int, k as int),
                projected >= required - order_prefix_sum(entries, order@, k as int),
            decreases order@.len() - k,
        {
            let size = self.records[order[k]].entry.size_bytes;
            projected = projected.saturating_sub(size);
            k += 1;
        }
        proof {
            lemma_evict_count_bound(entries, order@, required as int, projected as int, self.budget_bytes as int, k as int);
        }
        if projected > self.budget_bytes {
            proof {
                assert(evict_count(entries, order@, required as int, self.budget_bytes as int, 0) is None);
            }
            return Err(CacheError::InsufficientBudget { required_bytes: required, budget_bytes: self.budget_bytes });
        }
        let ghost evicted = k as int;
        proof {
            assert(evict_count(entries, order@, required as int, self.budget_bytes as int, 0) == Some(evicted));
        }
        let marks = prefix_marks(&order, k, self.records.len());
        proof {
            lemma_evict_marks_sum(entries, order@, evicted);
            lemma_kept_sum(entries, marks@);
        }
        self.remove_marked(&marks, true);
        self.access_clock = self.access_clock.saturating_add(1);
        let entry = Arc::new(CacheEntry::new(value, size_bytes));
        let ghost kept_entries = self.entries();
        self.records.push(ColumnCacheRecord { key, entry: share(&entry), last_access: self.access_clock });
        self.metrics.resident_bytes = self.metrics.resident_bytes + size_bytes;
        proof {
            let new_entry = self.entries().last();
            assert(new_entry.key == key && new_entry.size_bytes == size_bytes);
            assert(self.entries() =~= kept_entries.push(new_entry));
            lemma_size_sum_push(kept_entries, new_entry);
            assert forall|a: int, b: int| 0 <= a < b < self.entries().len() implies !same_key(
                #[trigger] self.entries()[a].key,
                #[trigger] self.entries()[b].key,
            ) by {
                if b == self.entries().len() - 1 {
                    lemma_kept_member(entries, marks@, a);
                    let o = choose|o: int| 0 <= o < entries.len() && entries[o] == kept_entries[a];
                    lemma_key_order_laws(kept_entries[a].key, key, kept_entries[a].key);
                } else {
                    assert(self.entries()[a] == kept_entries[a]);
                    assert(self.entries()[b] == kept_entries[b]);
                }
            }
        }
        Ok(PinGuard::new(entry))
    }
}

/// Which entries were derived from `frame`.
pub open spec fn frame_marks<V>(entries: Seq<ResidentEntry<V>>, frame: LogicalFrameId) -> Seq<bool> {
    Seq::new(entries.len(), |i: int| frame_order(entries[i].key.frame, frame) == TextOrder::Equal)
}

/// Number of leading candidates of `order` evicted, from position `k`, until
/// the bytes left resident are at most `target` or no candidate is left.
pub open spec fn trim_count<V>(entries: Seq<ResidentEntry<V>>, order: Seq<usize>, target: int, k: nat) -> nat
    decreases order.len() - k,
{
    if k >= order.len() || size_sum(entries) - order_prefix_sum(entries, order, k as int) <= target {
        k
    } else {
        trim_count(entries, order, target, k + 1)
    }
}

impl<V> ColumnCache<V> {
    /// Invalidates every entry derived from one frame; refuses, changing
    /// nothing, when any of them is pinned. Invalidation is no eviction.
    pub fn invalidate_frame(&mut self, frame: &LogicalFrameId) -> (result: Result<usize, CacheError>)
        requires
            old(self).wf(),
        ensures
            final(self).wf(),
            final(self).spec_budget() == old(self).spec_budget(),
            final(self).spec_clock() == old(self).spec_clock(),
            final(self).spec_metrics().hits == old(self).spec_metrics().hits,
            final(self).spec_metrics().misses == old(self).spec_metrics().misses,
            final(self).spec_metrics().evictions == old(self).spec_metrics().evictions,
            ({
                let entries = old(self).entries();
                let marks = frame_marks(entries, *frame);
                exists|pinned: Seq<bool>| {
                    &&& pinned.len() == entries.len()
                    &&& if exists|i: int| 0 <= i < entries.len() && #[trigger] marks[i] && pinned[i] {
                        &&& result == Err::<usize, CacheError>(CacheError::PinnedEntry)
                        &&& final(self).entries() == entries
                    } else {
                        &&& result == Ok::<usize, CacheError>(count_true(marks) as usize)
                        &&& final(self).entries() == kept(entries, marks)
                    }
                }
            }),
    {
        let ghost entries = self.entries();
        let (pinned, _counts) = self.pin_flags();
        let mut marks: Vec<bool> = Vec::new();
        let mut blocked = false;
        let mut i: usize = 0;
        while i < self.records.len()
            invariant
                entries == self.entries(),
                pinned@.len() == entries.len(),
                i <= entries.len(),
                marks@ == frame_marks(entries, *frame).take(i as int),
                blocked == exists|j: int| 0 <= j < i && #[trigger] marks@[j] && pinned@[j],
            decreases entries.len() - i,
        {
            let matches = self.records[i].key.frame.compare(frame) == TextOrder::Equal;
            let ghost prev = marks@;
            let ghost was = blocked;
            marks.push(matches);
            if matches && pinned[i] {
                blocked = true;
            }
            proof {
                assert(marks@ =~= frame_marks(entries, *frame).take(i + 1));
                if was {
                    let j = choose|j: int| 0 <= j < i && #[trigger] prev[j] && pinned@[j];
                    assert(marks@[j]);
                }
                if matches && pinned@[i as int] {
                    assert(marks@[i as int]);
                }
                if exists|j: int| 0 <= j < i + 1 && #[trigger] marks@[j] && pinned@[j] {
                    let j = choose|j: int| 0 <= j < i + 1 && #[trigger] marks@[j] && pinned@[j];
                    if j < i {
                        assert(prev[j]);
                    }
                }
            }
            i += 1;
        }
        proof {
            assert(marks@ =~= frame_marks(entries, *frame));
        }
        if blocked {
            return Err(CacheError::PinnedEntry);
        }
        let removed = self.remove_marked(&marks, false);
        Ok(removed)
    }

    /// Evicts unpinned entries in LRU order until at most `target_bytes`
    /// remain resident. Evictions made stay made when the target is still
    /// missed, and the error then carries the bytes left resident.
    pub fn trim_unpinned_to(&mut self, target_bytes: u64) -> (result: Result<usize, CacheError>)
        requires
            old(self).wf(),
        ensures
            final(self).wf(),
            final(self).spec_budget() == old(self).spec_budget(),
            final(self).spec_clock() == old(self).spec_clock(),
            final(self).spec_metrics().hits == old(self).spec_metrics().hits,
            final(self).spec_metrics().misses == old(self).spec_metrics().misses,
            old(self).spec_metrics().resident_bytes <= target_bytes ==> result == Ok::<usize, CacheError>(0)
                && final(self).entries() == old(self).entries()
                && final(self).spec_metrics() == old(self).spec_metrics(),
            ({
                let entries = old(self).entries();
                exists|pinned: Seq<bool>, order: Seq<usize>| #![trigger eviction_order(entries, pinned, order)] {
                    let k = trim_count(entries, order, target_bytes as int, 0);
                    let marks = evict_marks(entries.len(), order, k as int);
                    let left = final(self).spec_metrics().resident_bytes;
                    &&& pinned.len() == entries.len()
                    &&& eviction_order(entries, pinned, order)
                    &&& final(self).entries() == kept(entries, marks)
                    &&& left == size_sum(entries) - order_prefix_sum(entries, order, k as int)
                    &&& final(self).spec_metrics().evictions == capped(old(self).spec_metrics().evictions + k)
                    &&& result == if left <= target_bytes {
                        Ok::<usize, CacheError>(k as usize)
                    } else {
                        Err::<usize, CacheError>(CacheError::InsufficientBudget {
                            required_bytes: left,
                            budget_bytes: target_bytes,
                        })
                    }
                }
            }),
    {
        let ghost entries = self.entries();
        if self.metrics.resident_bytes <= target_bytes {
            proof {
                let pinned = Seq::new(entries.len(), |i: int| true);
                let order = Seq::<usize>::empty();
                assert(eviction_order(entries, pinned, order));
                assert(evict_marks(entries.len(), order, 0) =~= Seq::new(entries.len(), |i: int| false));
                lemma_kept_none(entries, evict_marks(entries.len(), order, 0));
                assert(capped(self.metrics.evictions + 0) == self.metrics.evictions);
            }
            return Ok(0);
        }
        let (pinned, _counts) = self.pin_flags();
        let order = self.eviction_candidates(&pinned);
        proof {
            assert forall|a: int, b: int| 0 <= a < b < order@.len() implies order@[a] != order@[b] by {
                lemma_lru_order_laws(entries[order@[a] as int], entries[order@[b] as int], entries[order@[a] as int]);
            }
        }
        let mut left = self.metrics.resident_bytes;
        let mut k: usize = 0;
        let n = self.records.len();
        while k < order.len() && left > target_bytes
            invariant
                entries == self.entries(),
                entries.len() <= usize::MAX,
                k <= order@.len(),
                forall|q: int| 0 <= q < order@.len() ==> (#[trigger] order@[q]) < entries.len(),
                forall|a: int, b: int| 0 <= a < b < order@.len() ==> order@[a] != order@[b],
                left == size_sum(entries) - order_prefix_sum(entries, order@, k as int),
                trim_count(entries, order@, target_bytes as int, 0) == trim_count(entries, order@, target_bytes as int, k as nat),
            decreases order@.len() - k,
        {
            proof {
                lemma_evict_marks_sum(entries, order@, k + 1);
                lemma_kept_sum(entries, evict_marks(entries.len(), order@, k + 1));
                lemma_size_sum_nonnegative(kept(entries, evict_marks(entries.len(), order@, k + 1)));
            }
            left = left - self.records[order[k]].entry.size_bytes;
            k += 1;
        }
        proof {
            assert(trim_count(entries, order@, target_bytes as int, 0) == k);
            lemma_evict_marks_sum(entries, order@, k as int);
        }
        let marks = prefix_marks(&order, k, n);
        proof {
            lemma_kept_sum(entries, marks@);
            lemma_count_evict_marks(entries.len(), order@, k as int);
        }
        self.remove_marked(&marks, true);
        if self.metrics.resident_bytes > target_bytes {
            return Err(CacheError::InsufficientBudget {
                required_bytes: self.metrics.resident_bytes,
                budget_bytes: target_bytes,
            });
        }
        Ok(k)
    }
}

/// Dropping nothing keeps every entry.
proof fn lemma_kept_none<V>(entries: Seq<ResidentEntry<V>>, drop: Seq<bool>)
    requires
        drop.len() >= entries.len(),
        forall|i: int| 0 <= i < entries.len() ==> !drop[i],
    ensures
        kept(entries, drop) == entries,
    decreases entries.len(),
{
    if entries.len() > 0 {
        lemma_kept_none(entries.drop_last(), drop);
        assert(entries.drop_last().push(entries.last()) =~= entries);
    }
}

/// No flag set counts zero.
proof fn lemma_count_true_none(flags: Seq<bool>)
    requires
        forall|i: int| 0 <= i < flags.len() ==> !flags[i],
    ensures
        count_true(flags) == 0,
    decreases flags.len(),
{
    if flags.len() > 0 {
        lemma_count_true_none(flags.drop_last());
    }
}

/// Setting one clear flag counts one more.
proof fn lemma_count_true_update(flags: Seq<bool>, j: int)
    requires
        0 <= j < flags.len(),
        !flags[j],
    ensures
        count_true(flags.update(j, true)) == count_true(flags) + 1,
    decreases flags.len(),
{
    if j < flags.len() - 1 {
        lemma_count_true_update(flags.drop_last(), j);
        assert(flags.update(j, true).drop_last() =~= flags.drop_last().update(j, true));
    } else {
        assert(flags.update(j, true).drop_last() =~= flags.drop_last());
    }
}

/// Marking the first `k` items of a repetition-free order marks `k` positions.
proof fn lemma_count_evict_marks(n: nat, order: Seq<usize>, k: int)
    requires
        0 <= k <= order.len(),
        n <= usize::MAX,
        forall|q: int| 0 <= q < order.len() ==> (#[trigger] order[q]) < n,
        forall|a: int, b: int| 0 <= a < b < order.len() ==> order[a] != order[b],
    ensures
        count_true(evict_marks(n, order, k)) == k,
    decreases k,
{
    if k == 0 {
        lemma_count_true_none(evict_marks(n, order, 0));
    } else {
        lemma_count_evict_marks(n, order, k - 1);
        let before = evict_marks(n, order, k - 1);
        let j = order[k - 1] as int;
        assert(!before[j]) by {
            if before[j] {
                let q = choose|q: int| 0 <= q < order.take(k - 1).len() && #[trigger] order.take(k - 1)[q] == j as usize;
                assert(order[q] == order[k - 1]);
            }
        }
        assert forall|i: int| 0 <= i < n implies #[trigger] evict_marks(n, order, k)[i] == before.update(j, true)[i] by {
            lemma_take_contains(order, k, i as usize);
        }
        assert(evict_marks(n, order, k) =~= before.update(j, true));
        lemma_count_true_update(before, j);
    }
}

/// Eviction never touches a pinned entry: whatever prefix of an eviction
/// order is evicted, every evicted entry was unpinned when the order was read.
pub proof fn lemma_eviction_spares_pins<V>(entries: Seq<ResidentEntry<V>>, pinned: Seq<bool>, order: Seq<usize>, k: int)
    requires
        eviction_order(entries, pinned, order),
        0 <= k <= order.len(),
        entries.len() <= usize::MAX,
    ensures
        forall|i: int| 0 <= i < entries.len() && #[trigger] evict_marks(entries.len(), order, k)[i] ==> !pinned[i],
{
    assert forall|i: int| 0 <= i < entries.len() && #[trigger] evict_marks(entries.len(), order, k)[i] implies !pinned[i] by {
        let q = choose|q: int| 0 <= q < order.take(k).len() && #[trigger] order.take(k)[q] == i as usize;
        assert(order[q] == i as usize);
        assert(!pinned[order[q] as int]);
    }
}

/// A lookup finds what an insertion appended: in a well-formed cache whose
/// entries end with `entry`, the key of `entry` resolves to that last entry.
pub proof fn lemma_inserted_entry_resolves<V>(cache: ColumnCache<V>, before: Seq<ResidentEntry<V>>, entry: ResidentEntry<V>)
    requires
        cache.wf(),
        cache.entries() == before.push(entry),
    ensures
        cache.position_of(entry.key) == Some(before.len() as int),
        cache.entries()[before.len() as int] == entry,
{
    lemma_key_order_laws(entry.key, entry.key, entry.key);
    lemma_position_unique(cache, entry.key, before.len() as int);
}

/// Every kept entry is one of the original entries.
proof fn lemma_kept_member<V>(entries: Seq<ResidentEntry<V>>, drop: Seq<bool>, a: int)
    requires
        drop.len() >= entries.len(),
        0 <= a < kept(entries, drop).len(),
    ensures
        exists|o: int| 0 <= o < entries.len() && entries[o] == kept(entries, drop)[a],
    decreases entries.len(),
{
    if entries.len() > 0 {
        if drop[entries.len() - 1] {
            lemma_kept_member(entries.drop_last(), drop, a);
            let o = choose|o: int| 0 <= o < entries.drop_last().len() && entries.drop_last()[o] == kept(entries.drop_last(), drop)[a];
            assert(entries[o] == entries.drop_last()[o]);
        } else if a < kept(entries.drop_last(), drop).len() {
            lemma_kept_member(entries.drop_last(), drop, a);
            let o = choose|o: int| 0 <= o < entries.drop_last().len() && entries.drop_last()[o] == kept(entries.drop_last(), drop)[a];
            assert(entries[o] == entries.drop_last()[o]);
        } else {
            assert(kept(entries, drop)[a] == entries.last());
            assert(entries[entries.len() - 1] == entries.last());
        }
    }
}

/// `a + 1`, or `u64::MAX` when that overflows.
pub open spec fn tick(a: u64) -> u64 {
    if a == u64::MAX { a } else { (a + 1) as u64 }
}

/// Byte-budgeted derived-tile owner.
pub struct TileCache<T> {
    entries: Vec<(CacheKey, Arc<CacheEntry<T>>)>,
    metrics: CacheMetrics,
}

impl<T> TileCache<T> {
    /// Resident tiles.
    pub closed spec fn spec_entries(self) -> Seq<(CacheKey, Arc<CacheEntry<T>>)> {
        self.entries@
    }

    /// Current counters.
    pub closed spec fn spec_metrics(self) -> CacheMetrics {
        self.metrics
    }

    /// An empty tile cache with zero counters.
    pub fn new() -> (cache: Self)
        ensures
            cache.spec_entries().len() == 0,
            cache.spec_metrics() == (CacheMetrics { hits: 0, misses: 0, evictions: 0, resident_bytes: 0 }),
    {
        TileCache { entries: Vec::new(), metrics: CacheMetrics { hits: 0, misses: 0, evictions: 0, resident_bytes: 0 } }
    }

    /// Returns current metrics without mutating LRU state.
    pub fn metrics(&self) -> (metrics: CacheMetrics)
        ensures
            metrics == self.spec_metrics(),
    {
        self.metrics
    }

    /// Returns the number of resident entries.
    pub fn len(&self) -> (len: usize)
        ensures
            len == self.spec_entries().len(),
    {
        self.entries.len()
    }

    /// Returns whether no entries are resident.
    pub fn is_empty(&self) -> (empty: bool)
        ensures
            empty == (self.spec_entries().len() == 0),
    {
        self.entries.len() == 0
    }
}

/// Pinned frame-window identity for exact transport reuse.
#[derive(Clone, Debug, PartialEq, Eq)]
pub struct ExactTransportWindowKey {
    /// Exact physical query time.
    pub query_time: Timestamp,
    /// Selected meteorology domain.
    pub domain: DomainId,
    /// Earlier pinned frame identity.
    pub before_frame: LogicalFrameId,
    /// Later pinned frame identity.
    pub after_frame: LogicalFrameId,
    /// Previous derivative-support frame identity on an exact-frame query.
    pub previous_frame: Option<LogicalFrameId>,
    /// Next derivative-support frame identity on an exact-frame query.
    pub next_frame: Option<LogicalFrameId>,
    /// IEEE-754 bits of the earlier-frame temporal weight.
    pub before_weight_bits: u64,
    /// IEEE-754 bits of the later-frame temporal weight.
    pub after_weight_bits: u64,
}

/// Two optional frames are the same frame, or both absent.
pub open spec fn same_optional_frame(a: Option<LogicalFrameId>, b: Option<LogicalFrameId>) -> bool {
    match (a, b) {
        (Some(x), Some(y)) => same_frame(x, y),
        (None, None) => true,
        _ => false,
    }
}

/// Two windows pin the same time, domain, frames and weights.
pub open spec fn same_window(a: ExactTransportWindowKey, b: ExactTransportWindowKey) -> bool {
    &&& a.query_time == b.query_time
    &&& a.domain@ == b.domain@
    &&& same_frame(a.before_frame, b.before_frame)
    &&& same_frame(a.after_frame, b.after_frame)
    &&& same_optional_frame(a.previous_frame, b.previous_frame)
    &&& same_optional_frame(a.next_frame, b.next_frame)
    &&& a.before_weight_bits == b.before_weight_bits
    &&& a.after_weight_bits == b.after_weight_bits
}

fn same_optional_frame_exec(a: &Option<LogicalFrameId>, b: &Option<LogicalFrameId>) -> (same: bool)
    ensures
        same == same_optional_frame(*a, *b),
{
    match (a, b) {
        (Some(x), Some(y)) => x.same_as(y),
        (None, None) => true,
        _ => false,
    }
}

impl ExactTransportWindowKey {
    /// Whether two windows pin the same time, domain, frames and weights.
    pub fn same_as(&self, other: &ExactTransportWindowKey) -> (same: bool)
        ensures
            same == same_window(*self, *other),
    {
        self.query_time.seconds == other.query_time.seconds
            && self.query_time.nanosecond == other.query_time.nanosecond
            && text_eq(self.domain.0.as_str(), other.domain.0.as_str())
            && self.before_frame.same_as(&other.before_frame)
            && self.after_frame.same_as(&other.after_frame)
            && same_optional_frame_exec(&self.previous_frame, &other.previous_frame)
            && same_optional_frame_exec(&self.next_frame, &other.next_frame)
            && self.before_weight_bits == other.before_weight_bits
            && self.after_weight_bits == other.after_weight_bits
    }
}

/// Bit-exact request identity. Coordinates enter as IEEE-754 bits, so a
/// negative zero is never merged with a positive one.
#[derive(Clone, Debug, PartialEq, Eq)]
pub struct ExactTransportCacheKey<D> {
    window: ExactTransportWindowKey,
    plan: TransportPlan<D>,
    vertical_coordinate: VerticalQuery,
    longitude_bits: Vec<u64>,
    latitude_bits: Vec<u64>,
    vertical_bits: Vec<u64>,
}

impl<D> ExactTransportCacheKey<D> {
    /// The pinned window.
    pub closed spec fn spec_window(self) -> ExactTransportWindowKey {
        self.window
    }

    /// The compiled transport plan.
    pub closed spec fn spec_plan(self) -> TransportPlan<D> {
        self.plan
    }

    /// The batch's vertical coordinate kind.
    pub closed spec fn spec_vertical_coordinate(self) -> VerticalQuery {
        self.vertical_coordinate
    }

    /// The request points' bit patterns, in caller order; `None` when the
    /// coordinate columns differ in length.
    pub closed spec fn spec_points(self) -> Option<Seq<PointBits>> {
        if self.latitude_bits@.len() == self.longitude_bits@.len() && self.vertical_bits@.len() == self.longitude_bits@.len() {
            Some(zip_points(self.longitude_bits@, self.latitude_bits@, self.vertical_bits@))
        } else {
            None
        }
    }

    /// A key for one batch under one window and plan, its coordinates given
    /// by their IEEE-754 bits.
    pub fn new(
        window: ExactTransportWindowKey,
        plan: TransportPlan<D>,
        vertical_coordinate: VerticalQuery,
        longitude_bits: Vec<u64>,
        latitude_bits: Vec<u64>,
        vertical_bits: Vec<u64>,
    ) -> (key: Self)
        ensures
            key.spec_window() == window,
            key.spec_plan() == plan,
            key.spec_vertical_coordinate() == vertical_coordinate,
            key.spec_points() == (if latitude_bits@.len() == longitude_bits@.len()
                && vertical_bits@.len() == longitude_bits@.len() {
                Some(zip_points(longitude_bits@, latitude_bits@, vertical_bits@))
            } else {
                None
            }),
    {
        ExactTransportCacheKey { window, plan, vertical_coordinate, longitude_bits, latitude_bits, vertical_bits }
    }
}

impl<D: PartialEq> ExactTransportCacheKey<D> {
    /// The cached row of each requested point, when this request is an exact
    /// ordered subset of a previous request with the same window, plan and
    /// vertical coordinate.
    pub fn selection_from_cached(&self, cached: &Self) -> (selection: Option<Vec<usize>>)
        ensures
            !same_window(self.spec_window(), cached.spec_window())
                || !same_request(self.spec_plan().spec_query(), cached.spec_plan().spec_query())
                || self.spec_vertical_coordinate() != cached.spec_vertical_coordinate()
                || self.spec_points() is None || cached.spec_points() is None ==> selection is None,
            D::obeys_eq_spec() && !same_plan(self.spec_plan().spec_query(), cached.spec_plan().spec_query())
                ==> selection is None,
            selection matches Some(found) ==> {
                &&& same_window(self.spec_window(), cached.spec_window())
                &&& same_request(self.spec_plan().spec_query(), cached.spec_plan().spec_query())
                &&& self.spec_vertical_coordinate() == cached.spec_vertical_coordinate()
                &&& self.spec_points() is Some && cached.spec_points() is Some
                &&& leftmost_selection(self.spec_points()->Some_0, cached.spec_points()->Some_0, 0) == Some(found@)
            },
            D::obeys_eq_spec() && same_window(self.spec_window(), cached.spec_window())
                && same_plan(self.spec_plan().spec_query(), cached.spec_plan().spec_query())
                && self.spec_vertical_coordinate() == cached.spec_vertical_coordinate()
                && self.spec_points() is Some && cached.spec_points() is Some
                ==> match leftmost_selection(self.spec_points()->Some_0, cached.spec_points()->Some_0, 0) {
                    None => selection is None,
                    Some(expected) => selection matches Some(found) && found@ == expected,
                },
    {
        if !self.window.same_as(&cached.window) || !self.plan.same_as(&cached.plan)
            || self.vertical_coordinate != cached.vertical_coordinate
        {
            return None;
        }
        select_ordered_subset(
            self.longitude_bits.as_slice(),
            self.latitude_bits.as_slice(),
            self.vertical_bits.as_slice(),
            cached.longitude_bits.as_slice(),
            cached.latitude_bits.as_slice(),
            cached.vertical_bits.as_slice(),
        )
    }
}

/// One request point's coordinate bit patterns: longitude, latitude, vertical.
pub type PointBits = (u64, u64, u64);

/// Points of three equal-length coordinate columns, in order.
pub open spec fn zip_points(longitude: Seq<u64>, latitude: Seq<u64>, vertical: Seq<u64>) -> Seq<PointBits> {
    Seq::new(longitude.len(), |i: int| (longitude[i], latitude[i], vertical[i]))
}

/// The first position at or after `cursor` that holds `point`.
pub open spec fn first_match_from(point: PointBits, cached: Seq<PointBits>, cursor: int) -> Option<int>
    decreases cached.len() - cursor,
{
    if cursor < 0 || cursor >= cached.len() {
        None
    } else if cached[cursor] == point {
        Some(cursor)
    } else {
        first_match_from(point, cached, cursor + 1)
    }
}

/// Greedy leftmost placement of each requested point, in order, after
/// `cursor`; `None` when some point finds no later match.
pub open spec fn leftmost_selection(requested: Seq<PointBits>, cached: Seq<PointBits>, cursor: int) -> Option<Seq<usize>>
    decreases requested.len(),
{
    if requested.len() == 0 {
        Some(Seq::empty())
    } else {
        match first_match_from(requested[0], cached, cursor) {
            None => None,
            Some(found) => match leftmost_selection(requested.drop_first(), cached, found + 1) {
                None => None,
                Some(rest) => Some(seq![found as usize] + rest),
            },
        }
    }
}

/// `selection` places each requested point on an equal cached point, at
/// strictly increasing positions.
pub open spec fn ordered_embedding(requested: Seq<PointBits>, cached: Seq<PointBits>, selection: Seq<usize>) -> bool {
    &&& selection.len() == requested.len()
    &&& forall|i: int| 0 <= i < selection.len() ==> (#[trigger] selection[i]) < cached.len()
    &&& forall|i: int| 0 <= i < selection.len() ==> cached[#[trigger] selection[i] as int] == requested[i]
    &&& forall|i: int, j: int| 0 <= i < j < selection.len() ==> selection[i] < selection[j]
}

proof fn lemma_first_match_bounds(point: PointBits, cached: Seq<PointBits>, cursor: int)
    requires
        0 <= cursor,
    ensures
        first_match_from(point, cached, cursor) matches Some(found) ==> cursor <= found < cached.len()
            && cached[found] == point
            && forall|k: int| cursor <= k < found ==> cached[k] != point,
        first_match_from(point, cached, cursor) is None ==> forall|k: int| cursor <= k < cached.len() && 0 <= k ==> cached[k] != point,
    decreases cached.len() - cursor,
{
    if 0 <= cursor < cached.len() && cached[cursor] != point {
        lemma_first_match_bounds(point, cached, cursor + 1);
    }
}

/// A leftmost selection places its points in order, after the cursor.
proof fn lemma_selection_shape(requested: Seq<PointBits>, cached: Seq<PointBits>, cursor: int)
    requires
        0 <= cursor,
        cached.len() <= usize::MAX,
    ensures
        leftmost_selection(requested, cached, cursor) matches Some(selection) ==> {
            &&& ordered_embedding(requested, cached, selection)
            &&& forall|i: int| 0 <= i < selection.len() ==> (#[trigger] selection[i]) >= cursor + i
        },
    decreases requested.len(),
{
    if requested.len() > 0 {
        lemma_first_match_bounds(requested[0], cached, cursor);
        match first_match_from(requested[0], cached, cursor) {
            None => {},
            Some(found) => {
                lemma_selection_shape(requested.drop_first(), cached, found + 1);
                match leftmost_selection(requested.drop_first(), cached, found + 1) {
                    None => {},
                    Some(rest) => {
                        let selection = seq![found as usize] + rest;
                        assert(selection[0] == found as usize);
                        assert forall|i: int| 1 <= i < selection.len() implies selection[i] == rest[i - 1]
                            && requested[i] == requested.drop_first()[i - 1] by {}
                        assert forall|i: int| 0 <= i < selection.len() implies cached[#[trigger] selection[i] as int] == requested[i] by {
                            if i > 0 {
                                assert(selection[i] == rest[i - 1]);
                            }
                        }
                        assert forall|i: int, j: int| 0 <= i < j < selection.len() implies selection[i] < selection[j] by {
                            if i > 0 {
                                assert(selection[i] == rest[i - 1]);
                            }
                            assert(selection[j] == rest[j - 1]);
                        }
                        assert forall|i: int| 0 <= i < selection.len() implies (#[trigger] selection[i]) >= cursor + i by {
                            if i > 0 {
                                assert(selection[i] == rest[i - 1]);
                            }
                        }
                    },
                }
            },
        }
    }
}

proof fn lemma_selection_needs_room(requested: Seq<PointBits>, cached: Seq<PointBits>, cursor: int)
    requires
        0 <= cursor <= cached.len(),
        cached.len() <= usize::MAX,
        requested.len() > cached.len() - cursor,
    ensures
        leftmost_selection(requested, cached, cursor) is None,
{
    lemma_selection_shape(requested, cached, cursor);
    if let Some(selection) = leftmost_selection(requested, cached, cursor) {
        let last = selection.len() - 1;
        assert(selection[last] >= cursor + last);
        assert(selection[last] < cached.len());
    }
}

proof fn lemma_selection_complete(requested: Seq<PointBits>, cached: Seq<PointBits>, cursor: int, embedding: Seq<usize>)
    requires
        0 <= cursor,
        ordered_embedding(requested, cached, embedding),
        forall|i: int| 0 <= i < embedding.len() ==> (#[trigger] embedding[i]) >= cursor,
    ensures
        leftmost_selection(requested, cached, cursor) is Some,
    decreases requested.len(),
{
    if requested.len() > 0 {
        lemma_first_match_bounds(requested[0], cached, cursor);
        let target = embedding[0] as int;
        assert(cached[target] == requested[0]);
        let found = first_match_from(requested[0], cached, cursor)->Some_0;
        assert(found <= target);
        let rest = embedding.drop_first();
        assert forall|i: int| 0 <= i < rest.len() implies (#[trigger] rest[i]) >= found + 1 by {
            assert(rest[i] == embedding[i + 1]);
            assert(embedding[0] < embedding[i + 1]);
        }
        assert(ordered_embedding(requested.drop_first(), cached, rest)) by {
            assert forall|i: int| 0 <= i < rest.len() implies cached[#[trigger] rest[i] as int] == requested.drop_first()[i] by {
                assert(rest[i] == embedding[i + 1]);
            }
            assert forall|i: int, j: int| 0 <= i < j < rest.len() implies rest[i] < rest[j] by {
                assert(rest[i] == embedding[i + 1]);
                assert(rest[j] == embedding[j + 1]);
            }
        }
        lemma_selection_complete(requested.drop_first(), cached, found + 1, rest);
    }
}

/// The ordered-subset selection is exact: what it finds places every
/// requested point on an equal cached point at strictly increasing positions,
/// and it finds a selection whenever any such placement exists.
pub proof fn lemma_ordered_subset_selection(requested: Seq<PointBits>, cached: Seq<PointBits>)
    requires
        cached.len() <= usize::MAX,
    ensures
        leftmost_selection(requested, cached, 0) matches Some(selection) ==> ordered_embedding(requested, cached, selection),
        (exists|embedding: Seq<usize>| ordered_embedding(requested, cached, embedding))
            ==> leftmost_selection(requested, cached, 0) is Some,
{
    lemma_selection_shape(requested, cached, 0);
    if exists|embedding: Seq<usize>| ordered_embedding(requested, cached, embedding) {
        let embedding = choose|embedding: Seq<usize>| ordered_embedding(requested, cached, embedding);
        lemma_selection_complete(requested, cached, 0, embedding);
    }
}

proof fn lemma_first_match_step(point: PointBits, cached: Seq<PointBits>, cursor: int)
    requires
        0 <= cursor < cached.len(),
        cached[cursor] != point,
    ensures
        first_match_from(point, cached, cursor) == first_match_from(point, cached, cursor + 1),
{
}

/// Positions, in the cached columns, of each requested point when the
/// request is an exact ordered subset of the cached request.
pub fn select_ordered_subset(
    requested_longitude: &[u64],
    requested_latitude: &[u64],
    requested_vertical: &[u64],
    cached_longitude: &[u64],
    cached_latitude: &[u64],
    cached_vertical: &[u64],
) -> (selection: Option<Vec<usize>>)
    ensures
        requested_latitude@.len() != requested_longitude@.len() || requested_vertical@.len() != requested_longitude@.len()
            || cached_latitude@.len() != cached_longitude@.len() || cached_vertical@.len() != cached_longitude@.len()
            ==> selection is None,
        requested_latitude@.len() == requested_longitude@.len() && requested_vertical@.len() == requested_longitude@.len()
            && cached_latitude@.len() == cached_longitude@.len() && cached_vertical@.len() == cached_longitude@.len()
            ==> match leftmost_selection(
                zip_points(requested_longitude@, requested_latitude@, requested_vertical@),
                zip_points(cached_longitude@, cached_latitude@, cached_vertical@),
                0,
            ) {
                None => selection is None,
                Some(expected) => selection matches Some(found) && found@ == expected,
            },
{
    let requested_len = requested_longitude.len();
    if requested_latitude.len() != requested_len || requested_vertical.len() != requested_len {
        return None;
    }
    let cached_len = cached_longitude.len();
    if cached_latitude.len() != cached_len || cached_vertical.len() != cached_len {
        return None;
    }
    let ghost req = zip_points(requested_longitude@, requested_latitude@, requested_vertical@);
    let ghost cac = zip_points(cached_longitude@, cached_latitude@, cached_vertical@);
    if requested_len > cached_len {
        proof {
            lemma_selection_needs_room(req, cac, 0);
        }
        return None;
    }
    let mut selection: Vec<usize> = Vec::new();
    proof {
        assert(req.skip(0) =~= req);
        if let Some(rest) = leftmost_selection(req, cac, 0) {
            assert(selection@ + rest =~= rest);
        }
    }
    let mut cursor: usize = 0;
    let mut requested: usize = 0;
    while requested < requested_len
        invariant
            requested_len == requested_longitude@.len(),
            requested_latitude@.len() == requested_len,
            requested_vertical@.len() == requested_len,
            cached_len == cached_longitude@.len(),
            cached_latitude@.len() == cached_len,
            cached_vertical@.len() == cached_len,
            req == zip_points(requested_longitude@, requested_latitude@, requested_vertical@),
            cac == zip_points(cached_longitude@, cached_latitude@, cached_vertical@),
            requested <= requested_len,
            cursor <= cached_len,
            leftmost_selection(req, cac, 0) == match leftmost_selection(req.skip(requested as int), cac, cursor as int) {
                None => None::<Seq<usize>>,
                Some(rest) => Some(selection@ + rest),
            },
        decreases requested_len - requested,
    {
        let ghost here = req.skip(requested as int);
        proof {
            assert(here[0] == req[requested as int]);
            assert(here.drop_first() =~= req.skip(requested + 1));
        }
        let ghost start = cursor as int;
        let ghost point = req[requested as int];
        let mut found: Option<usize> = None;
        while cursor < cached_len
            invariant_except_break
                found is None,
                first_match_from(point, cac, start) == first_match_from(point, cac, cursor as int),
            invariant
                requested < requested_len,
                requested_len == requested_longitude@.len(),
                requested_latitude@.len() == requested_len,
                requested_vertical@.len() == requested_len,
                cached_len == cached_longitude@.len(),
                cached_latitude@.len() == cached_len,
                cached_vertical@.len() == cached_len,
                req == zip_points(requested_longitude@, requested_latitude@, requested_vertical@),
                cac == zip_points(cached_longitude@, cached_latitude@, cached_vertical@),
                point == req[requested as int],
                0 <= start <= cursor <= cached_len,
            ensures
                found matches Some(position) ==> position + 1 == cursor
                    && first_match_from(point, cac, start) == Some(position as int),
                found is None ==> first_match_from(point, cac, start) is None,
            decreases cached_len - cursor,
        {
            if requested_longitude[requested] == cached_longitude[cursor]
                && requested_latitude[requested] == cached_latitude[cursor]
                && requested_vertical[requested] == cached_vertical[cursor]
            {
                proof {
                    assert(cac[cursor as int] == point);
                }
                found = Some(cursor);
                cursor += 1;
                break;
            }
            proof {
                assert(cac[cursor as int] != point);
                lemma_first_match_step(point, cac, cursor as int);
            }
            cursor += 1;
        }
        match found {
            Some(position) => {
                let ghost before = selection@;
                selection.push(position);
                proof {
                    lemma_first_match_bounds(point, cac, start);
                    match leftmost_selection(here.drop_first(), cac, cursor as int) {
                        None => {},
                        Some(rest) => {
                            assert(before + (seq![position] + rest) =~= selection@ + rest);
                        },
                    }
                }
            },
            None => return None,
        }
        requested += 1;
    }
    proof {
        assert(req.skip(requested as int).len() == 0);
        assert(selection@ + Seq::<usize>::empty() =~= selection@);
    }
    Some(selection)
}

} // verus!
