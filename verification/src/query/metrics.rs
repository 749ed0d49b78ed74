//! Exact-key observation counters for production meteorology batches.
//!
//! The counters are observational: they distinguish the vectorized particle
//! loop from boundary certification and helper queries, count logical
//! requests, executed batches and exact-cache reuses per caller category,
//! and audit repeated exact executions of the bulk particle loop.

use std::sync::Arc;
use vstd::prelude::*;
use crate::query::cache::share;
use crate::digest::{hex_encode, lower_hex, sha256, sha256_digest};
use crate::field::ModelId;
use crate::model::{DomainId, Timestamp};
use vstd::string::*;
use crate::query::request::{ExplainMode, VerticalQuery};

verus! {

/// Stable caller category for one prepared query.
#[derive(Clone, Copy, Debug, PartialEq, Eq, Structural, PartialOrd, Ord, Hash)]
pub enum QueryOrigin {
    /// Caller did not install a more precise scope.
    Unclassified,
    /// Vectorized RK2 particle query.
    Integrator,
    /// Vectorized particle-state output query.
    Output,
    /// Birth/termination-only particle-state output query.
    OutputLifecycle,
    /// Continuous boundary-path certification or root sampling.
    Boundary,
    /// Four-corner terrain/model-top probes used by boundary certification.
    BoundaryCorners,
    /// Population vertical-coordinate helper.
    PopulationVertical,
}

/// Number of caller categories.
pub const ORIGIN_COUNT: usize = 7;

/// Position of a caller category in declaration order.
pub open spec fn origin_rank(origin: QueryOrigin) -> int {
    match origin {
        QueryOrigin::Unclassified => 0,
        QueryOrigin::Integrator => 1,
        QueryOrigin::Output => 2,
        QueryOrigin::OutputLifecycle => 3,
        QueryOrigin::Boundary => 4,
        QueryOrigin::BoundaryCorners => 5,
        QueryOrigin::PopulationVertical => 6,
    }
}

/// The caller category at a position in declaration order.
pub open spec fn origin_at(rank: int) -> QueryOrigin {
    if rank == 0 {
        QueryOrigin::Unclassified
    } else if rank == 1 {
        QueryOrigin::Integrator
    } else if rank == 2 {
        QueryOrigin::Output
    } else if rank == 3 {
        QueryOrigin::OutputLifecycle
    } else if rank == 4 {
        QueryOrigin::Boundary
    } else if rank == 5 {
        QueryOrigin::BoundaryCorners
    } else {
        QueryOrigin::PopulationVertical
    }
}

/// Whether the origin belongs to the vectorized integrator/output loop.
pub open spec fn spec_particle_loop(origin: QueryOrigin) -> bool {
    origin == QueryOrigin::Integrator || origin == QueryOrigin::Output
}

impl QueryOrigin {
    /// Stable machine label.
    pub fn code(self) -> (code: &'static str)
        ensures
            code@ == origin_code(self)@,
    {
        match self {
            QueryOrigin::Unclassified => "unclassified",
            QueryOrigin::Integrator => "integrator",
            QueryOrigin::Output => "output",
            QueryOrigin::OutputLifecycle => "output_lifecycle",
            QueryOrigin::Boundary => "boundary",
            QueryOrigin::BoundaryCorners => "boundary_corners",
            QueryOrigin::PopulationVertical => "population_vertical",
        }
    }

    /// Whether the origin belongs to the vectorized integrator/output loop.
    pub fn is_particle_loop(self) -> (particle: bool)
        ensures
            particle == spec_particle_loop(self),
    {
        match self {
            QueryOrigin::Integrator | QueryOrigin::Output => true,
            _ => false,
        }
    }

    /// Whether a completed request may replace the engine's bulk transport
    /// cache entry. Lifecycle and helper queries may still consume an exact
    /// cached result but never displace it.
    pub fn populates_transport_cache(self) -> (populates: bool)
        ensures
            populates == (self == QueryOrigin::Unclassified || spec_particle_loop(self)),
    {
        match self {
            QueryOrigin::Unclassified | QueryOrigin::Integrator | QueryOrigin::Output => true,
            _ => false,
        }
    }

    /// Position in declaration order.
    pub fn rank(self) -> (rank: usize)
        ensures
            rank == origin_rank(self),
            origin_at(rank as int) == self,
    {
        match self {
            QueryOrigin::Unclassified => 0,
            QueryOrigin::Integrator => 1,
            QueryOrigin::Output => 2,
            QueryOrigin::OutputLifecycle => 3,
            QueryOrigin::Boundary => 4,
            QueryOrigin::BoundaryCorners => 5,
            QueryOrigin::PopulationVertical => 6,
        }
    }

    /// The category at a position in declaration order.
    pub fn from_rank(rank: usize) -> (origin: QueryOrigin)
        requires
            rank < ORIGIN_COUNT,
        ensures
            origin == origin_at(rank as int),
            origin_rank(origin) == rank,
    {
        if rank == 0 {
            QueryOrigin::Unclassified
        } else if rank == 1 {
            QueryOrigin::Integrator
        } else if rank == 2 {
            QueryOrigin::Output
        } else if rank == 3 {
            QueryOrigin::OutputLifecycle
        } else if rank == 4 {
            QueryOrigin::Boundary
        } else if rank == 5 {
            QueryOrigin::BoundaryCorners
        } else {
            QueryOrigin::PopulationVertical
        }
    }
}

/// Stable machine label of each caller category.
pub open spec fn origin_code(origin: QueryOrigin) -> &'static str {
    match origin {
        QueryOrigin::Unclassified => "unclassified",
        QueryOrigin::Integrator => "integrator",
        QueryOrigin::Output => "output",
        QueryOrigin::OutputLifecycle => "output_lifecycle",
        QueryOrigin::Boundary => "boundary",
        QueryOrigin::BoundaryCorners => "boundary_corners",
        QueryOrigin::PopulationVertical => "population_vertical",
    }
}

/// The caller category in force, with the scopes entered around it.
#[derive(Clone, Copy, Debug, PartialEq, Eq, Structural)]
pub struct QueryOriginSlot {
    current: QueryOrigin,
}

impl QueryOriginSlot {
    /// The category currently in force.
    pub closed spec fn spec_active(self) -> QueryOrigin {
        self.current
    }

    /// A slot with no scope entered: `Unclassified`.
    pub fn new() -> (slot: Self)
        ensures
            slot.spec_active() == QueryOrigin::Unclassified,
    {
        QueryOriginSlot { current: QueryOrigin::Unclassified }
    }

    /// Returns the current caller category.
    pub fn active(&self) -> (origin: QueryOrigin)
        ensures
            origin == self.spec_active(),
    {
        self.current
    }
}

/// Restores the previous query origin when a caller scope ends.
#[derive(Debug, PartialEq, Eq, Structural)]
pub struct QueryOriginScope {
    previous: QueryOrigin,
}

impl QueryOriginScope {
    /// The category that was in force when the scope was entered.
    pub closed spec fn spec_previous(self) -> QueryOrigin {
        self.previous
    }

    /// Enters one caller category on `slot`.
    pub fn enter(slot: &mut QueryOriginSlot, origin: QueryOrigin) -> (scope: Self)
        ensures
            final(slot).spec_active() == origin,
            scope.spec_previous() == old(slot).spec_active(),
    {
        let previous = slot.current;
        slot.current = origin;
        QueryOriginScope { previous }
    }

    /// Ends the scope, restoring the category that was in force before it.
    pub fn exit(self, slot: &mut QueryOriginSlot)
        ensures
            final(slot).spec_active() == self.spec_previous(),
    {
        slot.current = self.previous;
    }
}

/// Entering a scope and then leaving it restores the category in force
/// before, whatever category the scope entered.
pub proof fn lemma_scope_restores(before: QueryOriginSlot, inside: QueryOriginSlot, scope: QueryOriginScope, after: QueryOriginSlot)
    requires
        scope.spec_previous() == before.spec_active(),
        after.spec_active() == scope.spec_previous(),
    ensures
        after.spec_active() == before.spec_active(),
{
}

/// Returns the caller category in force on `slot`.
pub fn active_query_origin(slot: &QueryOriginSlot) -> (origin: QueryOrigin)
    ensures
        origin == slot.spec_active(),
{
    slot.active()
}

/// Where one thread keeps the observation counters it reports to.
pub struct QueryCounterSlot<T> {
    installed: Option<Arc<T>>,
}

impl<T> QueryCounterSlot<T> {
    /// The counters installed, if any.
    pub closed spec fn spec_installed(self) -> Option<Arc<T>> {
        self.installed
    }

    /// A slot with no counters installed.
    pub fn new() -> (slot: Self)
        ensures
            slot.spec_installed() is None,
    {
        QueryCounterSlot { installed: None }
    }
}

/// Installs observation counters on `slot`, replacing any installed before.
pub fn install_query_counters<T>(slot: &mut QueryCounterSlot<T>, counters: Arc<T>)
    ensures
        final(slot).spec_installed() == Some(counters),
{
    slot.installed = Some(counters);
}

/// Clears the observation counters of `slot`.
pub fn clear_query_counters<T>(slot: &mut QueryCounterSlot<T>)
    ensures
        final(slot).spec_installed() is None,
{
    slot.installed = None;
}

/// Returns a shared handle to the installed counters, when there are any.
pub fn active_query_counters<T>(slot: &QueryCounterSlot<T>) -> (counters: Option<Arc<T>>)
    ensures
        counters == slot.spec_installed(),
{
    match &slot.installed {
        Some(counters) => Some(share(counters)),
        None => None,
    }
}

/// Exact digest and caller category retained by a prepared batch.
#[derive(Clone, Copy, Debug, PartialEq, Eq)]
pub struct ExactQueryKey {
    digest: [u8; 32],
    origin: QueryOrigin,
}

impl ExactQueryKey {
    /// The retained digest bytes.
    pub closed spec fn spec_digest(self) -> Seq<u8> {
        self.digest@
    }

    /// The caller category.
    pub closed spec fn spec_origin(self) -> QueryOrigin {
        self.origin
    }

    /// A key for an already computed digest.
    pub fn new(digest: [u8; 32], origin: QueryOrigin) -> (key: Self)
        ensures
            key.spec_digest() == digest@,
            key.spec_origin() == origin,
    {
        ExactQueryKey { digest, origin }
    }

    /// Hex-encoded SHA-256 identity.
    pub fn sha256(&self) -> (text: String)
        ensures
            text@ == lower_hex(self.spec_digest()),
    {
        hex_encode(&self.digest)
    }

    /// The caller category.
    pub fn origin(&self) -> (origin: QueryOrigin)
        ensures
            origin == self.spec_origin(),
    {
        self.origin
    }
}

/// Request, execution and reuse counts of one caller category.
#[derive(Clone, Copy, Debug, Default, PartialEq, Eq, Structural)]
pub struct QueryOriginSnapshot {
    /// Logical requests prepared by this caller category.
    pub logical_requests: u64,
    /// Batches that performed actual interpolation work.
    pub executed_batches: u64,
    /// Requests served by the production exact transport cache.
    pub exact_key_reuses: u64,
}

/// Exact-key audit for the vectorized integrator/output particle loop.
#[derive(Clone, Debug, Default, PartialEq, Eq)]
pub struct ParticleLoopExactSnapshot {
    /// Distinct exact bulk request keys.
    pub unique_exact_keys: u64,
    /// Exact keys that performed interpolation more than once.
    pub repeated_exact_executions: u64,
    /// First repeated executed key, if any.
    pub first_repeated_executed_key: Option<String>,
}

/// Immutable snapshot of query execution observation.
#[derive(Clone, Debug, Default, PartialEq, Eq)]
pub struct QueryCallSnapshot {
    /// Aggregate logical requests across all caller categories.
    pub logical_requests: u64,
    /// Aggregate batches that performed interpolation.
    pub executed_batches: u64,
    /// Aggregate exact-cache reuses.
    pub exact_key_reuses: u64,
    /// Exact audit limited to the bounded vectorized particle loop.
    pub particle_loop_exact: ParticleLoopExactSnapshot,
    /// Per-caller counts, in category order, for every category that
    /// recorded anything.
    pub by_origin: Vec<(QueryOrigin, QueryOriginSnapshot)>,
}

impl QueryCallSnapshot {
    /// Counts recorded for one caller category, if it recorded anything.
    pub fn origin(&self, origin: QueryOrigin) -> (counts: Option<QueryOriginSnapshot>)
        ensures
            counts matches Some(c) ==> exists|k: int| 0 <= k < self.by_origin@.len() && self.by_origin@[k] == (origin, c),
            counts is None ==> forall|k: int| 0 <= k < self.by_origin@.len() ==> (#[trigger] self.by_origin@[k]).0 != origin,
    {
        let mut k: usize = 0;
        while k < self.by_origin.len()
            invariant
                k <= self.by_origin@.len(),
                forall|q: int| 0 <= q < k ==> (#[trigger] self.by_origin@[q]).0 != origin,
            decreases self.by_origin@.len() - k,
        {
            if self.by_origin[k].0 == origin {
                return Some(self.by_origin[k].1);
            }
            k += 1;
        }
        None
    }
}

/// `a + 1`, or `u64::MAX` when that overflows.
pub open spec fn bump(a: u64) -> u64 {
    if a == u64::MAX { a } else { (a + 1) as u64 }
}

/// Shareable query counters: per-category counts and the exact-key audit.
#[derive(Debug)]
pub struct QueryCallCounters {
    by_origin: Vec<Option<QueryOriginSnapshot>>,
    executed_keys: Vec<[u8; 32]>,
    repeated_exact_executions: u64,
    first_repeated_executed_key: Option<[u8; 32]>,
}

impl QueryCallCounters {
    /// Counts per caller category, by rank; `None` until the category records anything.
    pub closed spec fn spec_by_origin(self) -> Seq<Option<QueryOriginSnapshot>> {
        self.by_origin@
    }

    /// Distinct digests executed by the particle loop, in first-execution order.
    pub closed spec fn spec_executed_keys(self) -> Seq<Seq<u8>> {
        self.executed_keys@.map_values(|d: [u8; 32]| d@)
    }

    /// Particle-loop executions of an already executed digest.
    pub closed spec fn spec_repeated(self) -> u64 {
        self.repeated_exact_executions
    }

    /// The first digest executed twice by the particle loop.
    pub closed spec fn spec_first_repeated(self) -> Option<Seq<u8>> {
        match self.first_repeated_executed_key {
            Some(d) => Some(d@),
            None => None,
        }
    }

    /// One slot per category and no digest executed twice in the list.
    pub closed spec fn wf(self) -> bool {
        &&& self.by_origin@.len() == ORIGIN_COUNT
        &&& forall|a: int, b: int| 0 <= a < b < self.executed_keys@.len() ==> self.executed_keys@[a]@ != self.executed_keys@[b]@
    }

    /// Counts of one category, zero until it records anything.
    pub open spec fn counts_of(self, origin: QueryOrigin) -> QueryOriginSnapshot {
        match self.spec_by_origin()[origin_rank(origin)] {
            Some(c) => c,
            None => QueryOriginSnapshot { logical_requests: 0, executed_batches: 0, exact_key_reuses: 0 },
        }
    }

    /// Creates an empty counter set.
    pub fn new() -> (counters: Self)
        ensures
            counters.wf(),
            counters.spec_by_origin() == Seq::new(ORIGIN_COUNT as nat, |i: int| None::<QueryOriginSnapshot>),
            counters.spec_executed_keys().len() == 0,
            counters.spec_repeated() == 0,
            counters.spec_first_repeated() is None,
    {
        let mut by_origin: Vec<Option<QueryOriginSnapshot>> = Vec::new();
        let mut k: usize = 0;
        while k < ORIGIN_COUNT
            invariant
                k <= ORIGIN_COUNT,
                by_origin@ == Seq::new(k as nat, |i: int| None::<QueryOriginSnapshot>),
            decreases ORIGIN_COUNT - k,
        {
            by_origin.push(None);
            k += 1;
            proof {
                assert(by_origin@ =~= Seq::new(k as nat, |i: int| None::<QueryOriginSnapshot>));
            }
        }
        let counters = QueryCallCounters {
            by_origin,
            executed_keys: Vec::new(),
            repeated_exact_executions: 0,
            first_repeated_executed_key: None,
        };
        proof {
            assert(counters.spec_executed_keys() =~= Seq::<Seq<u8>>::empty());
        }
        counters
    }

    fn counts_mut_update(&mut self, origin: QueryOrigin, update: QueryOriginSnapshot)
        requires
            old(self).wf(),
        ensures
            final(self).wf(),
            final(self).spec_by_origin() == old(self).spec_by_origin().update(origin_rank(origin), Some(update)),
            final(self).spec_executed_keys() == old(self).spec_executed_keys(),
            final(self).spec_repeated() == old(self).spec_repeated(),
            final(self).spec_first_repeated() == old(self).spec_first_repeated(),
    {
        let rank = origin.rank();
        self.by_origin.set(rank, Some(update));
    }

    fn current_counts(&self, origin: QueryOrigin) -> (counts: QueryOriginSnapshot)
        requires
            self.wf(),
        ensures
            counts == self.counts_of(origin),
    {
        match self.by_origin[origin.rank()] {
            Some(c) => c,
            None => QueryOriginSnapshot { logical_requests: 0, executed_batches: 0, exact_key_reuses: 0 },
        }
    }

    /// Records a logical request and returns its exact identity. Only the
    /// particle loop hashes its request; other categories disclose counts but
    /// never retain or compare keys, and get an all-zero digest.
    pub fn record_logical_request(&mut self, origin: QueryOrigin, request: &ExactKeyRequest) -> (key: ExactQueryKey)
        requires
            old(self).wf(),
            spec_particle_loop(origin) ==> request.latitude_bits@.len() == request.longitude_bits@.len()
                && request.vertical_bits@.len() == request.longitude_bits@.len(),
        ensures
            final(self).wf(),
            key.spec_origin() == origin,
            spec_particle_loop(origin) ==> key.spec_digest() == sha256_digest(exact_key_preimage(*request)),
            !spec_particle_loop(origin) ==> key.spec_digest() == Seq::new(32, |i: int| 0u8),
            final(self).spec_by_origin() == old(self).spec_by_origin().update(
                origin_rank(origin),
                Some(QueryOriginSnapshot {
                    logical_requests: bump(old(self).counts_of(origin).logical_requests),
                    ..old(self).counts_of(origin)
                }),
            ),
            final(self).spec_executed_keys() == old(self).spec_executed_keys(),
            final(self).spec_repeated() == old(self).spec_repeated(),
            final(self).spec_first_repeated() == old(self).spec_first_repeated(),
    {
        let digest: [u8; 32] = if origin.is_particle_loop() { exact_key_sha256(request) } else { [0u8; 32] };
        let mut counts = self.current_counts(origin);
        counts.logical_requests = counts.logical_requests.saturating_add(1);
        self.counts_mut_update(origin, counts);
        proof {
            if !spec_particle_loop(origin) {
                assert(digest@ =~= Seq::new(32, |i: int| 0u8));
            }
        }
        ExactQueryKey { digest, origin }
    }

    /// Records that interpolation work actually executed for a prepared batch.
    pub fn record_execution(&mut self, key: ExactQueryKey)
        requires
            old(self).wf(),
        ensures
            final(self).wf(),
            execution_recorded(*old(self), *final(self), key),
    {
        let mut counts = self.current_counts(key.origin);
        counts.executed_batches = counts.executed_batches.saturating_add(1);
        self.counts_mut_update(key.origin, counts);
        if key.origin.is_particle_loop() {
            let ghost keys = self.spec_executed_keys();
            if !self.holds_executed(&key.digest) {
                self.executed_keys.push(key.digest);
                proof {
                    assert(self.spec_executed_keys() =~= keys.push(key.digest@));
                    assert forall|a: int, b: int| 0 <= a < b < self.executed_keys@.len()
                        implies self.executed_keys@[a]@ != self.executed_keys@[b]@ by {
                        if b == self.executed_keys@.len() - 1 {
                            assert(keys[a] == self.executed_keys@[a]@);
                        }
                    }
                }
            } else {
                self.repeated_exact_executions = self.repeated_exact_executions.saturating_add(1);
                if self.first_repeated_executed_key.is_none() {
                    self.first_repeated_executed_key = Some(key.digest);
                }
            }
        }
    }

    /// Whether the particle loop already executed `digest`.
    fn holds_executed(&self, digest: &[u8; 32]) -> (held: bool)
        ensures
            held == self.spec_executed_keys().contains(digest@),
    {
        let mut k: usize = 0;
        while k < self.executed_keys.len()
            invariant
                k <= self.executed_keys@.len(),
                forall|q: int| 0 <= q < k ==> (#[trigger] self.executed_keys@[q])@ != digest@,
            decreases self.executed_keys@.len() - k,
        {
            if digests_equal(&self.executed_keys[k], digest) {
                proof {
                    assert(self.spec_executed_keys()[k as int] == digest@);
                }
                return true;
            }
            k += 1;
        }
        proof {
            if self.spec_executed_keys().contains(digest@) {
                let q = choose|q: int| 0 <= q < self.spec_executed_keys().len() && self.spec_executed_keys()[q] == digest@;
                assert(self.executed_keys@[q]@ == digest@);
            }
        }
        false
    }

    /// Records a production cache hit for one exact prepared request.
    pub fn record_exact_key_reuse(&mut self, key: ExactQueryKey)
        requires
            old(self).wf(),
        ensures
            final(self).wf(),
            reuse_recorded(*old(self), *final(self), key),
    {
        let mut counts = self.current_counts(key.origin);
        counts.exact_key_reuses = counts.exact_key_reuses.saturating_add(1);
        self.counts_mut_update(key.origin, counts);
    }
}

/// What recording an execution of `key` does: the executed batches of the
/// key's category go up by one (saturating); the particle loop remembers a
/// new digest, or counts a repeat and keeps the first repeated digest; other
/// categories leave the exact-key audit alone.
pub open spec fn execution_recorded(before: QueryCallCounters, after: QueryCallCounters, key: ExactQueryKey) -> bool {
    let origin = key.spec_origin();
    &&& after.spec_by_origin() == before.spec_by_origin().update(
        origin_rank(origin),
        Some(QueryOriginSnapshot {
            executed_batches: bump(before.counts_of(origin).executed_batches),
            ..before.counts_of(origin)
        }),
    )
    &&& !spec_particle_loop(origin) ==> {
        &&& after.spec_executed_keys() == before.spec_executed_keys()
        &&& after.spec_repeated() == before.spec_repeated()
        &&& after.spec_first_repeated() == before.spec_first_repeated()
    }
    &&& spec_particle_loop(origin) && !before.spec_executed_keys().contains(key.spec_digest()) ==> {
        &&& after.spec_executed_keys() == before.spec_executed_keys().push(key.spec_digest())
        &&& after.spec_repeated() == before.spec_repeated()
        &&& after.spec_first_repeated() == before.spec_first_repeated()
    }
    &&& spec_particle_loop(origin) && before.spec_executed_keys().contains(key.spec_digest()) ==> {
        &&& after.spec_executed_keys() == before.spec_executed_keys()
        &&& after.spec_repeated() == bump(before.spec_repeated())
        &&& after.spec_first_repeated() == (match before.spec_first_repeated() {
            Some(first) => Some(first),
            None => Some(key.spec_digest()),
        })
    }
}

/// What recording an exact-cache reuse of `key` does: the reuses of the
/// key's category go up by one (saturating), and nothing else changes.
pub open spec fn reuse_recorded(before: QueryCallCounters, after: QueryCallCounters, key: ExactQueryKey) -> bool {
    let origin = key.spec_origin();
    &&& after.spec_by_origin() == before.spec_by_origin().update(
        origin_rank(origin),
        Some(QueryOriginSnapshot {
            exact_key_reuses: bump(before.counts_of(origin).exact_key_reuses),
            ..before.counts_of(origin)
        }),
    )
    &&& after.spec_executed_keys() == before.spec_executed_keys()
    &&& after.spec_repeated() == before.spec_repeated()
    &&& after.spec_first_repeated() == before.spec_first_repeated()
}

/// One of the three counts of a category: requests (0), executions (1), reuses (2).
pub open spec fn count_field(counts: QueryOriginSnapshot, which: int) -> int {
    if which == 0 {
        counts.logical_requests as int
    } else if which == 1 {
        counts.executed_batches as int
    } else {
        counts.exact_key_reuses as int
    }
}

/// Sum of one count over the first `n` category slots.
pub open spec fn count_sum(slots: Seq<Option<QueryOriginSnapshot>>, which: int, n: int) -> int
    decreases n,
{
    if n <= 0 {
        0
    } else {
        count_sum(slots, which, n - 1) + match slots[n - 1] {
            Some(c) => count_field(c, which),
            None => 0,
        }
    }
}

/// `value`, capped at `u64::MAX`.
pub open spec fn cap_u64(value: int) -> u64 {
    if value > u64::MAX { u64::MAX } else { value as u64 }
}

/// The recorded categories in rank order, with their counts.
pub open spec fn recorded_origins(slots: Seq<Option<QueryOriginSnapshot>>, n: int) -> Seq<(QueryOrigin, QueryOriginSnapshot)>
    decreases n,
{
    if n <= 0 {
        Seq::empty()
    } else {
        match slots[n - 1] {
            Some(c) => recorded_origins(slots, n - 1).push((origin_at(n - 1), c)),
            None => recorded_origins(slots, n - 1),
        }
    }
}

proof fn lemma_count_sum_nonnegative(slots: Seq<Option<QueryOriginSnapshot>>, which: int, n: int)
    ensures
        count_sum(slots, which, n) >= 0,
    decreases n,
{
    if n > 0 {
        lemma_count_sum_nonnegative(slots, which, n - 1);
    }
}

impl QueryCallCounters {
    /// Takes an immutable snapshot without changing execution behavior.
    /// Aggregate counts are capped at `u64::MAX`.
    pub fn snapshot(&self) -> (snapshot: QueryCallSnapshot)
        requires
            self.wf(),
        ensures
            snapshot.logical_requests == cap_u64(count_sum(self.spec_by_origin(), 0, ORIGIN_COUNT as int)),
            snapshot.executed_batches == cap_u64(count_sum(self.spec_by_origin(), 1, ORIGIN_COUNT as int)),
            snapshot.exact_key_reuses == cap_u64(count_sum(self.spec_by_origin(), 2, ORIGIN_COUNT as int)),
            snapshot.particle_loop_exact.unique_exact_keys == cap_u64(self.spec_executed_keys().len() as int),
            snapshot.particle_loop_exact.repeated_exact_executions == self.spec_repeated(),
            match self.spec_first_repeated() {
                Some(first) => snapshot.particle_loop_exact.first_repeated_executed_key matches Some(text)
                    && text@ == lower_hex(first),
                None => snapshot.particle_loop_exact.first_repeated_executed_key is None,
            },
            snapshot.by_origin@ == recorded_origins(self.spec_by_origin(), ORIGIN_COUNT as int),
    {
        let mut logical: u64 = 0;
        let mut executed: u64 = 0;
        let mut reuses: u64 = 0;
        let mut by_origin: Vec<(QueryOrigin, QueryOriginSnapshot)> = Vec::new();
        let mut k: usize = 0;
        while k < ORIGIN_COUNT
            invariant
                self.wf(),
                k <= ORIGIN_COUNT,
                logical == cap_u64(count_sum(self.spec_by_origin(), 0, k as int)),
                executed == cap_u64(count_sum(self.spec_by_origin(), 1, k as int)),
                reuses == cap_u64(count_sum(self.spec_by_origin(), 2, k as int)),
                by_origin@ == recorded_origins(self.spec_by_origin(), k as int),
            decreases ORIGIN_COUNT - k,
        {
            proof {
                lemma_count_sum_nonnegative(self.spec_by_origin(), 0, k as int);
                lemma_count_sum_nonnegative(self.spec_by_origin(), 1, k as int);
                lemma_count_sum_nonnegative(self.spec_by_origin(), 2, k as int);
            }
            match self.by_origin[k] {
                Some(counts) => {
                    logical = logical.saturating_add(counts.logical_requests);
                    executed = executed.saturating_add(counts.executed_batches);
                    reuses = reuses.saturating_add(counts.exact_key_reuses);
                    by_origin.push((QueryOrigin::from_rank(k), counts));
                },
                None => {},
            }
            k += 1;
        }
        let count = self.executed_keys.len();
        let unique_exact_keys: u64 = if count as u128 > u64::MAX as u128 { u64::MAX } else { count as u64 };
        let first_repeated_executed_key = match &self.first_repeated_executed_key {
            Some(digest) => Some(hex_encode(digest)),
            None => None,
        };
        QueryCallSnapshot {
            logical_requests: logical,
            executed_batches: executed,
            exact_key_reuses: reuses,
            particle_loop_exact: ParticleLoopExactSnapshot {
                unique_exact_keys,
                repeated_exact_executions: self.repeated_exact_executions,
                first_repeated_executed_key,
            },
            by_origin,
        }
    }
}

/// The count of one slot, zero when the slot recorded nothing.
pub open spec fn slot_count(slot: Option<QueryOriginSnapshot>, which: int) -> int {
    match slot {
        Some(c) => count_field(c, which),
        None => 0,
    }
}

proof fn lemma_count_sum_update(
    slots: Seq<Option<QueryOriginSnapshot>>,
    which: int,
    n: int,
    r: int,
    counts: QueryOriginSnapshot,
)
    requires
        0 <= r < slots.len(),
        n <= slots.len(),
    ensures
        count_sum(slots.update(r, Some(counts)), which, n) == count_sum(slots, which, n) + if r < n {
            count_field(counts, which) - slot_count(slots[r], which)
        } else {
            0
        },
    decreases n,
{
    if n > 0 {
        lemma_count_sum_update(slots, which, n - 1, r, counts);
    }
}

proof fn lemma_recorded_lists(slots: Seq<Option<QueryOriginSnapshot>>, n: int, r: int)
    requires
        0 <= r < n,
        n <= slots.len(),
        slots[r] is Some,
    ensures
        exists|k: int| 0 <= k < recorded_origins(slots, n).len()
            && #[trigger] recorded_origins(slots, n)[k] == (origin_at(r), slots[r]->Some_0),
    decreases n,
{
    if r == n - 1 {
        let k = recorded_origins(slots, n - 1).len() as int;
        assert(recorded_origins(slots, n)[k] == (origin_at(r), slots[r]->Some_0));
    } else {
        lemma_recorded_lists(slots, n - 1, r);
        let k = choose|k: int| 0 <= k < recorded_origins(slots, n - 1).len()
            && #[trigger] recorded_origins(slots, n - 1)[k] == (origin_at(r), slots[r]->Some_0);
        assert(recorded_origins(slots, n)[k] == (origin_at(r), slots[r]->Some_0));
    }
}

proof fn lemma_counts_after_update(before: QueryCallCounters, after: QueryCallCounters, origin: QueryOrigin, counts: QueryOriginSnapshot)
    requires
        before.wf(),
        after.spec_by_origin() == before.spec_by_origin().update(origin_rank(origin), Some(counts)),
    ensures
        after.counts_of(origin) == counts,
        forall|other: QueryOrigin| other != origin ==> #[trigger] after.counts_of(other) == before.counts_of(other),
        forall|which: int| #[trigger] count_sum(after.spec_by_origin(), which, ORIGIN_COUNT as int)
            == count_sum(before.spec_by_origin(), which, ORIGIN_COUNT as int) + count_field(counts, which)
                - count_field(before.counts_of(origin), which),
        exists|k: int| 0 <= k < recorded_origins(after.spec_by_origin(), ORIGIN_COUNT as int).len()
            && #[trigger] recorded_origins(after.spec_by_origin(), ORIGIN_COUNT as int)[k] == (origin, counts),
{
    let r = origin_rank(origin);
    assert forall|which: int| #[trigger] count_sum(after.spec_by_origin(), which, ORIGIN_COUNT as int)
        == count_sum(before.spec_by_origin(), which, ORIGIN_COUNT as int) + count_field(counts, which)
            - count_field(before.counts_of(origin), which) by {
        lemma_count_sum_update(before.spec_by_origin(), which, ORIGIN_COUNT as int, r, counts);
    }
    assert forall|other: QueryOrigin| other != origin implies #[trigger] after.counts_of(other) == before.counts_of(other) by {
        assert(origin_rank(other) != r);
    }
    lemma_recorded_lists(after.spec_by_origin(), ORIGIN_COUNT as int, r);
    assert(origin_at(r) == origin);
}

/// Recording an execution, seen in two snapshots taken before and after it:
/// the key's category executes one more batch (saturating) with its requests
/// and reuses unchanged and is listed with its new counts; every other
/// category keeps its counts; the aggregate executed count goes up by one
/// unless the category's count had saturated, and the aggregate requests and
/// reuses stay; a particle-loop digest seen for the first time adds one
/// unique exact key, a repeated one adds one repeated execution and becomes
/// the first repeated key if there was none; other categories leave the
/// exact-key audit alone.
pub proof fn lemma_execution_in_snapshots(before: QueryCallCounters, after: QueryCallCounters, key: ExactQueryKey)
    requires
        before.wf(),
        execution_recorded(before, after, key),
    ensures
        ({
            let origin = key.spec_origin();
            let old_counts = before.counts_of(origin);
            let new_counts = after.counts_of(origin);
            let n = ORIGIN_COUNT as int;
            &&& new_counts.executed_batches == bump(old_counts.executed_batches)
            &&& new_counts.logical_requests == old_counts.logical_requests
            &&& new_counts.exact_key_reuses == old_counts.exact_key_reuses
            &&& exists|k: int| 0 <= k < recorded_origins(after.spec_by_origin(), n).len()
                && #[trigger] recorded_origins(after.spec_by_origin(), n)[k] == (origin, new_counts)
            &&& forall|other: QueryOrigin| other != origin ==> #[trigger] after.counts_of(other) == before.counts_of(other)
            &&& old_counts.executed_batches < u64::MAX ==> cap_u64(count_sum(after.spec_by_origin(), 1, n))
                == bump(cap_u64(count_sum(before.spec_by_origin(), 1, n)))
            &&& old_counts.executed_batches == u64::MAX ==> count_sum(after.spec_by_origin(), 1, n)
                == count_sum(before.spec_by_origin(), 1, n)
            &&& count_sum(after.spec_by_origin(), 0, n) == count_sum(before.spec_by_origin(), 0, n)
            &&& count_sum(after.spec_by_origin(), 2, n) == count_sum(before.spec_by_origin(), 2, n)
            &&& !spec_particle_loop(origin) ==> {
                &&& cap_u64(after.spec_executed_keys().len() as int) == cap_u64(before.spec_executed_keys().len() as int)
                &&& after.spec_repeated() == before.spec_repeated()
                &&& after.spec_first_repeated() == before.spec_first_repeated()
            }
            &&& spec_particle_loop(origin) && !before.spec_executed_keys().contains(key.spec_digest()) ==> {
                &&& cap_u64(after.spec_executed_keys().len() as int) == bump(cap_u64(before.spec_executed_keys().len() as int))
                &&& after.spec_repeated() == before.spec_repeated()
                &&& after.spec_first_repeated() == before.spec_first_repeated()
            }
            &&& spec_particle_loop(origin) && before.spec_executed_keys().contains(key.spec_digest()) ==> {
                &&& cap_u64(after.spec_executed_keys().len() as int) == cap_u64(before.spec_executed_keys().len() as int)
                &&& after.spec_repeated() == bump(before.spec_repeated())
                &&& after.spec_first_repeated() == (match before.spec_first_repeated() {
                    Some(first) => Some(first),
                    None => Some(key.spec_digest()),
                })
            }
        }),
{
    let origin = key.spec_origin();
    let counts = QueryOriginSnapshot {
        executed_batches: bump(before.counts_of(origin).executed_batches),
        ..before.counts_of(origin)
    };
    lemma_counts_after_update(before, after, origin, counts);
    let n = ORIGIN_COUNT as int;
    assert(count_sum(after.spec_by_origin(), 0, n) == count_sum(before.spec_by_origin(), 0, n) + count_field(counts, 0)
        - count_field(before.counts_of(origin), 0));
    assert(count_sum(after.spec_by_origin(), 1, n) == count_sum(before.spec_by_origin(), 1, n) + count_field(counts, 1)
        - count_field(before.counts_of(origin), 1));
    assert(count_sum(after.spec_by_origin(), 2, n) == count_sum(before.spec_by_origin(), 2, n) + count_field(counts, 2)
        - count_field(before.counts_of(origin), 2));
    lemma_count_sum_nonnegative(before.spec_by_origin(), 1, n);
}

/// Recording an exact-cache reuse, seen in two snapshots taken before and
/// after it: the key's category reuses one more request (saturating) with
/// its requests and executions unchanged and is listed with its new counts;
/// every other category keeps its counts; the aggregate reuse count goes up
/// by one unless the category's count had saturated, the aggregate requests
/// and executions stay, and the exact-key audit is unchanged.
pub proof fn lemma_reuse_in_snapshots(before: QueryCallCounters, after: QueryCallCounters, key: ExactQueryKey)
    requires
        before.wf(),
        reuse_recorded(before, after, key),
    ensures
        ({
            let origin = key.spec_origin();
            let old_counts = before.counts_of(origin);
            let new_counts = after.counts_of(origin);
            let n = ORIGIN_COUNT as int;
            &&& new_counts.exact_key_reuses == bump(old_counts.exact_key_reuses)
            &&& new_counts.logical_requests == old_counts.logical_requests
            &&& new_counts.executed_batches == old_counts.executed_batches
            &&& exists|k: int| 0 <= k < recorded_origins(after.spec_by_origin(), n).len()
                && #[trigger] recorded_origins(after.spec_by_origin(), n)[k] == (origin, new_counts)
            &&& forall|other: QueryOrigin| other != origin ==> #[trigger] after.counts_of(other) == before.counts_of(other)
            &&& old_counts.exact_key_reuses < u64::MAX ==> cap_u64(count_sum(after.spec_by_origin(), 2, n))
                == bump(cap_u64(count_sum(before.spec_by_origin(), 2, n)))
            &&& old_counts.exact_key_reuses == u64::MAX ==> count_sum(after.spec_by_origin(), 2, n)
                == count_sum(before.spec_by_origin(), 2, n)
            &&& count_sum(after.spec_by_origin(), 0, n) == count_sum(before.spec_by_origin(), 0, n)
            &&& count_sum(after.spec_by_origin(), 1, n) == count_sum(before.spec_by_origin(), 1, n)
            &&& after.spec_executed_keys() == before.spec_executed_keys()
            &&& after.spec_repeated() == before.spec_repeated()
            &&& after.spec_first_repeated() == before.spec_first_repeated()
        }),
{
    let origin = key.spec_origin();
    let counts = QueryOriginSnapshot {
        exact_key_reuses: bump(before.counts_of(origin).exact_key_reuses),
        ..before.counts_of(origin)
    };
    lemma_counts_after_update(before, after, origin, counts);
    let n = ORIGIN_COUNT as int;
    assert(count_sum(after.spec_by_origin(), 0, n) == count_sum(before.spec_by_origin(), 0, n) + count_field(counts, 0)
        - count_field(before.counts_of(origin), 0));
    assert(count_sum(after.spec_by_origin(), 1, n) == count_sum(before.spec_by_origin(), 1, n) + count_field(counts, 1)
        - count_field(before.counts_of(origin), 1));
    assert(count_sum(after.spec_by_origin(), 2, n) == count_sum(before.spec_by_origin(), 2, n) + count_field(counts, 2)
        - count_field(before.counts_of(origin), 2));
    lemma_count_sum_nonnegative(before.spec_by_origin(), 2, n);
}

/// Stable one-byte tag of each vertical coordinate kind in exact request keys.
pub open spec fn spec_vertical_tag(value: VerticalQuery) -> u8 {
    match value {
        VerticalQuery::AboveSeaLevel => 1,
        VerticalQuery::AboveGround => 2,
        VerticalQuery::Pressure => 3,
    }
}

/// Stable one-byte tag of each vertical coordinate kind in exact request keys.
pub fn vertical_tag(value: VerticalQuery) -> (tag: u8)
    ensures
        tag == spec_vertical_tag(value),
{
    match value {
        VerticalQuery::AboveSeaLevel => 1,
        VerticalQuery::AboveGround => 2,
        VerticalQuery::Pressure => 3,
    }
}

/// Little-endian bytes of a 64-bit word.
pub open spec fn le_u64(value: u64) -> Seq<u8> {
    Seq::new(8, |i: int| ((value >> ((8 * i) as u64)) & 0xffu64) as u8)
}

/// Little-endian bytes of a 32-bit word.
pub open spec fn le_u32(value: u32) -> Seq<u8> {
    Seq::new(4, |i: int| ((value >> ((8 * i) as u32)) & 0xffu32) as u8)
}

/// Bytes preceded by their count as a little-endian 64-bit word.
pub open spec fn framed(bytes: Seq<u8>) -> Seq<u8> {
    le_u64(bytes.len() as u64) + bytes
}

/// Each text's UTF-8 bytes, framed, in order.
pub open spec fn framed_texts(texts: Seq<String>) -> Seq<u8>
    decreases texts.len(),
{
    if texts.len() == 0 {
        Seq::empty()
    } else {
        framed_texts(texts.drop_last()) + framed(vstd::utf8::encode_utf8(texts.last()@))
    }
}

/// Longitude, latitude and vertical bit patterns of the first `n` points,
/// each as little-endian bytes.
pub open spec fn point_bytes(longitude: Seq<u64>, latitude: Seq<u64>, vertical: Seq<u64>, n: int) -> Seq<u8>
    decreases n,
{
    if n <= 0 {
        Seq::empty()
    } else {
        point_bytes(longitude, latitude, vertical, n - 1) + le_u64(longitude[n - 1]) + le_u64(latitude[n - 1])
            + le_u64(vertical[n - 1])
    }
}

/// Everything an exact production request is identified by: the window
/// time and domain, the compiled plan's result-relevant identity, and every
/// coordinate bit pattern in caller order.
pub struct ExactKeyRequest {
    /// Exact physical query time.
    pub query_time: Timestamp,
    /// Selected domain.
    pub domain: DomainId,
    /// Vertical coordinate kind of the batch.
    pub vertical_coordinate: VerticalQuery,
    /// Whether the plan admits estimated fallbacks.
    pub allow_estimated: bool,
    /// Explanation policy of the plan.
    pub explain: ExplainMode,
    /// Debug text of the plan's capability set.
    pub capabilities_text: String,
    /// Selected near-surface model, if any.
    pub surface_layer_model: Option<ModelId>,
    /// Debug text of the plan's derivation graph.
    pub derivations_text: String,
    /// Debug text of each requested field, in request order.
    pub field_texts: Vec<String>,
    /// IEEE-754 bits of each longitude.
    pub longitude_bits: Vec<u64>,
    /// IEEE-754 bits of each latitude.
    pub latitude_bits: Vec<u64>,
    /// IEEE-754 bits of each vertical coordinate.
    pub vertical_bits: Vec<u64>,
}

/// Version tag that opens every exact request key.
pub open spec fn exact_key_tag() -> Seq<char> {
    "trajecta.exact-batch-query-key/v2\0"@
}

/// Everything an exact request key hashes before the coordinate bits: the
/// version tag, time, domain, plan identity, field texts and point count.
pub open spec fn exact_key_head(request: ExactKeyRequest) -> Seq<u8> {
    let surface = match request.surface_layer_model {
        Some(model) => vstd::utf8::encode_utf8(model.0@),
        None => Seq::empty(),
    };
    vstd::utf8::encode_utf8(exact_key_tag())
        + le_u64(request.query_time.seconds as u64)
        + le_u32(request.query_time.nanosecond)
        + framed(vstd::utf8::encode_utf8(request.domain@))
        + seq![spec_vertical_tag(request.vertical_coordinate)]
        + seq![if request.allow_estimated { 1u8 } else { 0u8 }]
        + seq![match request.explain { ExplainMode::Disabled => 0u8, ExplainMode::Full => 1u8 }]
        + framed(vstd::utf8::encode_utf8(request.capabilities_text@))
        + framed(surface)
        + framed(vstd::utf8::encode_utf8(request.derivations_text@))
        + le_u64(request.field_texts@.len() as u64)
        + framed_texts(request.field_texts@)
        + le_u64(request.longitude_bits@.len() as u64)
}

/// The byte stream hashed into an exact request key.
pub open spec fn exact_key_preimage(request: ExactKeyRequest) -> Seq<u8> {
    exact_key_head(request)
        + point_bytes(request.longitude_bits@, request.latitude_bits@, request.vertical_bits@, request.longitude_bits@.len() as int)
}

/// A little-endian word's bytes determine the word.
proof fn lemma_le_u64_injective(x: u64, y: u64)
    requires
        le_u64(x) == le_u64(y),
    ensures
        x == y,
{
    assert(le_u64(x)[0] == ((x >> 0u64) & 0xffu64) as u8 && le_u64(y)[0] == ((y >> 0u64) & 0xffu64) as u8) by {
        assert((8 * 0int) as u64 == 0u64);
    }
    assert(le_u64(x)[1] == ((x >> 8u64) & 0xffu64) as u8 && le_u64(y)[1] == ((y >> 8u64) & 0xffu64) as u8) by {
        assert((8 * 1int) as u64 == 8u64);
    }
    assert(le_u64(x)[2] == ((x >> 16u64) & 0xffu64) as u8 && le_u64(y)[2] == ((y >> 16u64) & 0xffu64) as u8) by {
        assert((8 * 2int) as u64 == 16u64);
    }
    assert(le_u64(x)[3] == ((x >> 24u64) & 0xffu64) as u8 && le_u64(y)[3] == ((y >> 24u64) & 0xffu64) as u8) by {
        assert((8 * 3int) as u64 == 24u64);
    }
    assert(le_u64(x)[4] == ((x >> 32u64) & 0xffu64) as u8 && le_u64(y)[4] == ((y >> 32u64) & 0xffu64) as u8) by {
        assert((8 * 4int) as u64 == 32u64);
    }
    assert(le_u64(x)[5] == ((x >> 40u64) & 0xffu64) as u8 && le_u64(y)[5] == ((y >> 40u64) & 0xffu64) as u8) by {
        assert((8 * 5int) as u64 == 40u64);
    }
    assert(le_u64(x)[6] == ((x >> 48u64) & 0xffu64) as u8 && le_u64(y)[6] == ((y >> 48u64) & 0xffu64) as u8) by {
        assert((8 * 6int) as u64 == 48u64);
    }
    assert(le_u64(x)[7] == ((x >> 56u64) & 0xffu64) as u8 && le_u64(y)[7] == ((y >> 56u64) & 0xffu64) as u8) by {
        assert((8 * 7int) as u64 == 56u64);
    }
    assert(x == y) by (bit_vector)
        requires
            ((x >> 0u64) & 0xffu64) as u8 == ((y >> 0u64) & 0xffu64) as u8,
            ((x >> 8u64) & 0xffu64) as u8 == ((y >> 8u64) & 0xffu64) as u8,
            ((x >> 16u64) & 0xffu64) as u8 == ((y >> 16u64) & 0xffu64) as u8,
            ((x >> 24u64) & 0xffu64) as u8 == ((y >> 24u64) & 0xffu64) as u8,
            ((x >> 32u64) & 0xffu64) as u8 == ((y >> 32u64) & 0xffu64) as u8,
            ((x >> 40u64) & 0xffu64) as u8 == ((y >> 40u64) & 0xffu64) as u8,
            ((x >> 48u64) & 0xffu64) as u8 == ((y >> 48u64) & 0xffu64) as u8,
            ((x >> 56u64) & 0xffu64) as u8 == ((y >> 56u64) & 0xffu64) as u8,
    ;
}

proof fn lemma_point_bytes_len(longitude: Seq<u64>, latitude: Seq<u64>, vertical: Seq<u64>, n: int)
    requires
        n >= 0,
    ensures
        point_bytes(longitude, latitude, vertical, n).len() == 24 * n,
    decreases n,
{
    if n > 0 {
        lemma_point_bytes_len(longitude, latitude, vertical, n - 1);
    }
}

/// Equal coordinate streams of `n` points hold equal bit patterns.
proof fn lemma_point_bytes_injective(
    first: (Seq<u64>, Seq<u64>, Seq<u64>),
    second: (Seq<u64>, Seq<u64>, Seq<u64>),
    n: int,
)
    requires
        n >= 0,
        point_bytes(first.0, first.1, first.2, n) == point_bytes(second.0, second.1, second.2, n),
    ensures
        forall|i: int| 0 <= i < n ==> first.0[i] == second.0[i] && first.1[i] == second.1[i] && first.2[i] == second.2[i],
    decreases n,
{
    if n > 0 {
        let all_first = point_bytes(first.0, first.1, first.2, n);
        let rest_first = point_bytes(first.0, first.1, first.2, n - 1);
        let rest_second = point_bytes(second.0, second.1, second.2, n - 1);
        lemma_point_bytes_len(first.0, first.1, first.2, n - 1);
        lemma_point_bytes_len(second.0, second.1, second.2, n - 1);
        let m = 24 * (n - 1);
        assert(rest_first =~= all_first.subrange(0, m));
        assert(rest_second =~= all_first.subrange(0, m));
        lemma_point_bytes_injective(first, second, n - 1);
        let k = n - 1;
        assert(le_u64(first.0[k]) =~= all_first.subrange(m, m + 8));
        assert(le_u64(second.0[k]) =~= all_first.subrange(m, m + 8));
        assert(le_u64(first.1[k]) =~= all_first.subrange(m + 8, m + 16));
        assert(le_u64(second.1[k]) =~= all_first.subrange(m + 8, m + 16));
        assert(le_u64(first.2[k]) =~= all_first.subrange(m + 16, m + 24));
        assert(le_u64(second.2[k]) =~= all_first.subrange(m + 16, m + 24));
        lemma_le_u64_injective(first.0[k], second.0[k]);
        lemma_le_u64_injective(first.1[k], second.1[k]);
        lemma_le_u64_injective(first.2[k], second.2[k]);
    }
}

/// The exact key keeps every coordinate bit pattern: two requests that agree
/// on everything but their coordinates, with as many points, hash the same
/// byte stream only when every longitude, latitude and vertical bit pattern
/// agrees, so a negative zero never shares a key with a positive one.
pub proof fn lemma_exact_key_keeps_coordinates(first: ExactKeyRequest, second: ExactKeyRequest)
    requires
        first.query_time == second.query_time,
        first.domain == second.domain,
        first.vertical_coordinate == second.vertical_coordinate,
        first.allow_estimated == second.allow_estimated,
        first.explain == second.explain,
        first.capabilities_text == second.capabilities_text,
        first.surface_layer_model == second.surface_layer_model,
        first.derivations_text == second.derivations_text,
        first.field_texts == second.field_texts,
        first.latitude_bits@.len() == first.longitude_bits@.len(),
        first.vertical_bits@.len() == first.longitude_bits@.len(),
        second.longitude_bits@.len() == first.longitude_bits@.len(),
        second.latitude_bits@.len() == first.longitude_bits@.len(),
        second.vertical_bits@.len() == first.longitude_bits@.len(),
        exact_key_preimage(first) == exact_key_preimage(second),
    ensures
        first.longitude_bits@ == second.longitude_bits@,
        first.latitude_bits@ == second.latitude_bits@,
        first.vertical_bits@ == second.vertical_bits@,
{
    let n = first.longitude_bits@.len() as int;
    let head = exact_key_head(first);
    assert(exact_key_head(second) == head);
    let first_points = point_bytes(first.longitude_bits@, first.latitude_bits@, first.vertical_bits@, n);
    let second_points = point_bytes(second.longitude_bits@, second.latitude_bits@, second.vertical_bits@, n);
    lemma_point_bytes_len(first.longitude_bits@, first.latitude_bits@, first.vertical_bits@, n);
    lemma_point_bytes_len(second.longitude_bits@, second.latitude_bits@, second.vertical_bits@, n);
    assert(first_points =~= exact_key_preimage(first).subrange(head.len() as int, head.len() + 24 * n));
    assert(second_points =~= exact_key_preimage(second).subrange(head.len() as int, head.len() + 24 * n));
    lemma_point_bytes_injective(
        (first.longitude_bits@, first.latitude_bits@, first.vertical_bits@),
        (second.longitude_bits@, second.latitude_bits@, second.vertical_bits@),
        n,
    );
    assert(first.longitude_bits@ =~= second.longitude_bits@);
    assert(first.latitude_bits@ =~= second.latitude_bits@);
    assert(first.vertical_bits@ =~= second.vertical_bits@);
}

fn append_bytes(out: &mut Vec<u8>, bytes: &[u8])
    ensures
        final(out)@ == old(out)@ + bytes@,
{
    let mut k: usize = 0;
    while k < bytes.len()
        invariant
            k <= bytes@.len(),
            out@ == old(out)@ + bytes@.take(k as int),
        decreases bytes@.len() - k,
    {
        out.push(bytes[k]);
        k += 1;
        proof {
            assert(bytes@.take(k as int) =~= bytes@.take(k - 1).push(bytes@[k - 1]));
        }
    }
    proof {
        assert(bytes@.take(k as int) =~= bytes@);
    }
}

fn append_le_u64(out: &mut Vec<u8>, value: u64)
    ensures
        final(out)@ == old(out)@ + le_u64(value),
{
    let mut k: u64 = 0;
    while k < 8
        invariant
            k <= 8,
            out@ == old(out)@ + le_u64(value).take(k as int),
        decreases 8 - k,
    {
        let byte = ((value >> (8 * k)) & 0xff) as u8;
        out.push(byte);
        k += 1;
        proof {
            assert(le_u64(value).take(k as int) =~= le_u64(value).take(k - 1).push(le_u64(value)[k - 1]));
        }
    }
    proof {
        assert(le_u64(value).take(8) =~= le_u64(value));
    }
}

fn append_le_u32(out: &mut Vec<u8>, value: u32)
    ensures
        final(out)@ == old(out)@ + le_u32(value),
{
    let mut k: u32 = 0;
    while k < 4
        invariant
            k <= 4,
            out@ == old(out)@ + le_u32(value).take(k as int),
        decreases 4 - k,
    {
        let byte = ((value >> (8 * k)) & 0xff) as u8;
        out.push(byte);
        k += 1;
        proof {
            assert(le_u32(value).take(k as int) =~= le_u32(value).take(k - 1).push(le_u32(value)[k - 1]));
        }
    }
    proof {
        assert(le_u32(value).take(4) =~= le_u32(value));
    }
}

fn append_framed(out: &mut Vec<u8>, text: &str)
    ensures
        final(out)@ == old(out)@ + framed(text.spec_bytes()),
{
    let bytes = text.as_bytes();
    append_le_u64(out, bytes.len() as u64);
    append_bytes(out, bytes);
    proof {
        assert(old(out)@ + le_u64(bytes@.len() as u64) + bytes@ =~= old(out)@ + framed(text.spec_bytes()));
    }
}

/// The byte stream of an exact request key: version tag, time, domain,
/// plan identity, field texts and coordinate bits, counts and texts framed.
pub fn exact_key_preimage_bytes(request: &ExactKeyRequest) -> (bytes: Vec<u8>)
    requires
        request.latitude_bits@.len() == request.longitude_bits@.len(),
        request.vertical_bits@.len() == request.longitude_bits@.len(),
    ensures
        bytes@ == exact_key_preimage(*request),
{
    let mut out: Vec<u8> = Vec::new();
    let tag = "trajecta.exact-batch-query-key/v2\0";
    append_bytes(&mut out, tag.as_bytes());
    append_le_u64(&mut out, request.query_time.seconds as u64);
    append_le_u32(&mut out, request.query_time.nanosecond);
    append_framed(&mut out, request.domain.0.as_str());
    out.push(vertical_tag(request.vertical_coordinate));
    out.push(if request.allow_estimated { 1u8 } else { 0u8 });
    out.push(match request.explain {
        ExplainMode::Disabled => 0u8,
        ExplainMode::Full => 1u8,
    });
    append_framed(&mut out, request.capabilities_text.as_str());
    match &request.surface_layer_model {
        Some(model) => append_framed(&mut out, model.0.as_str()),
        None => append_framed(&mut out, ""),
    }
    append_framed(&mut out, request.derivations_text.as_str());
    let ghost head = out@;
    append_le_u64(&mut out, request.field_texts.len() as u64);
    let mut k: usize = 0;
    while k < request.field_texts.len()
        invariant
            k <= request.field_texts@.len(),
            out@ == head + le_u64(request.field_texts@.len() as u64) + framed_texts(request.field_texts@.take(k as int)),
        decreases request.field_texts@.len() - k,
    {
        append_framed(&mut out, request.field_texts[k].as_str());
        k += 1;
        proof {
            assert(request.field_texts@.take(k as int).drop_last() =~= request.field_texts@.take(k - 1));
        }
    }
    proof {
        assert(request.field_texts@.take(k as int) =~= request.field_texts@);
    }
    let ghost middle = out@;
    let n = request.longitude_bits.len();
    append_le_u64(&mut out, n as u64);
    let mut i: usize = 0;
    while i < n
        invariant
            n == request.longitude_bits@.len(),
            n == request.latitude_bits@.len(),
            n == request.vertical_bits@.len(),
            i <= n,
            out@ == middle + le_u64(n as u64) + point_bytes(request.longitude_bits@, request.latitude_bits@, request.vertical_bits@, i as int),
        decreases n - i,
    {
        append_le_u64(&mut out, request.longitude_bits[i]);
        append_le_u64(&mut out, request.latitude_bits[i]);
        append_le_u64(&mut out, request.vertical_bits[i]);
        i += 1;
    }
    proof {
        reveal_strlit("trajecta.exact-batch-query-key/v2\0");
        reveal_strlit("");
        assert(out@ =~= exact_key_preimage(*request));
    }
    out
}

/// Stable SHA-256 identity of one exact production batch request.
pub fn exact_key_sha256(request: &ExactKeyRequest) -> (digest: [u8; 32])
    requires
        request.latitude_bits@.len() == request.longitude_bits@.len(),
        request.vertical_bits@.len() == request.longitude_bits@.len(),
    ensures
        digest@ == sha256_digest(exact_key_preimage(*request)),
{
    let bytes = exact_key_preimage_bytes(request);
    sha256(bytes.as_slice())
}

/// Whether two digests hold the same bytes.
fn digests_equal(a: &[u8; 32], b: &[u8; 32]) -> (equal: bool)
    ensures
        equal == (a@ == b@),
{
    let mut k: usize = 0;
    while k < 32
        invariant
            k <= 32,
            a@.len() == 32,
            b@.len() == 32,
            forall|q: int| 0 <= q < k ==> a@[q] == b@[q],
        decreases 32 - k,
    {
        if a[k] != b[k] {
            return false;
        }
        k += 1;
    }
    proof {
        assert(a@ =~= b@);
    }
    true
}

} // verus!
