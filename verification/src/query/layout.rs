//! Backend-neutral batch layout: points grouped by domain, horizontal cell,
//! derived tile and original index, with exact forward and inverse
//! permutations, and execution chunks that obey a hard memory budget.

use vstd::prelude::*;
use crate::model::{CellId, DomainId};
use crate::text::{TextOrder, text_lt, lemma_text_lt_irreflexive, lemma_text_lt_transitive, lemma_text_lt_total, lemma_text_lt_asymmetric};

verus! {

/// Layout construction failure.
#[derive(Clone, Debug, PartialEq, Eq)]
pub enum LayoutError {
    /// Original indices are duplicated, missing, or outside `0..point_count`.
    InvalidPermutation,
    /// No domain safely covers one or more points.
    OutOfDomain(Vec<usize>),
    /// Fixed resources plus one point exceed the hard memory budget.
    InsufficientMemory {
        /// Minimum required bytes.
        required_bytes: u64,
        /// Frozen hard budget.
        budget_bytes: u64,
    },
}

/// Mapping between caller order and internal grouped order.
#[derive(Clone, Debug, Default, PartialEq, Eq)]
pub struct Permutation {
    /// Internal index to original caller index.
    pub forward: Vec<usize>,
    /// Original caller index to internal index.
    pub inverse: Vec<Option<usize>>,
}

impl Permutation {
    /// Every internal point names a caller slot that exists.
    pub open spec fn targets_in_range(&self) -> bool {
        forall|k: int| 0 <= k < self.forward@.len() ==> #[trigger] self.forward@[k] < self.inverse@.len()
    }

    /// Scatters executable internal results into a prefilled caller-order slice.
    pub fn scatter_into<T: Copy>(&self, internal: &[T], output: &mut [T]) -> (result: Result<(), LayoutError>)
        requires
            internal@.len() == self.forward@.len() && old(output)@.len() == self.inverse@.len() ==> self.targets_in_range(),
        ensures
            internal@.len() != self.forward@.len() ==> result == Err::<(), LayoutError>(LayoutError::InvalidPermutation)
                && final(output)@ == old(output)@,
            internal@.len() == self.forward@.len() && old(output)@.len() != self.inverse@.len()
                ==> result == Err::<(), LayoutError>(LayoutError::InvalidPermutation) && final(output)@ == old(output)@,
            internal@.len() == self.forward@.len() && old(output)@.len() == self.inverse@.len() ==> {
                &&& result is Ok
                &&& final(output)@ == scattered(old(output)@, self.forward@, internal@, internal@.len() as int)
            },
    {
        if internal.len() != self.forward.len() {
            return Err(LayoutError::InvalidPermutation);
        }
        if output.len() != self.inverse.len() {
            return Err(LayoutError::InvalidPermutation);
        }
        let mut k: usize = 0;
        while k < self.forward.len()
            invariant
                self.targets_in_range(),
                internal@.len() == self.forward@.len(),
                output@.len() == self.inverse@.len(),
                k <= self.forward@.len(),
                output@ == scattered(old(output)@, self.forward@, internal@, k as int),
            decreases self.forward@.len() - k,
        {
            let original = self.forward[k];
            output[original] = internal[k];
            k += 1;
        }
        Ok(())
    }
}

/// The caller-order slots after the first `count` internal results have been
/// written, in internal order, over `output`.
pub open spec fn scattered<T>(output: Seq<T>, forward: Seq<usize>, internal: Seq<T>, count: int) -> Seq<T>
    decreases count,
{
    if count <= 0 {
        output
    } else {
        scattered(output, forward, internal, count - 1).update(forward[count - 1] as int, internal[count - 1])
    }
}

/// Scattering through a permutation whose internal points name distinct caller
/// slots puts each internal result in its caller slot and leaves every slot
/// that no internal point names as it was prefilled.
pub proof fn lemma_scatter_places<T>(output: Seq<T>, forward: Seq<usize>, internal: Seq<T>, count: int)
    requires
        0 <= count <= forward.len(),
        internal.len() == forward.len(),
        forall|k: int| 0 <= k < forward.len() ==> #[trigger] forward[k] < output.len(),
        forall|a: int, b: int| 0 <= a < b < forward.len() ==> forward[a] != forward[b],
    ensures
        scattered(output, forward, internal, count).len() == output.len(),
        forall|k: int| 0 <= k < count ==> scattered(output, forward, internal, count)[#[trigger] forward[k] as int] == internal[k],
        forall|j: int| 0 <= j < output.len() && !forward.take(count).contains(j as usize)
            ==> #[trigger] scattered(output, forward, internal, count)[j] == output[j],
    decreases count,
{
    if count > 0 {
        lemma_scatter_places(output, forward, internal, count - 1);
        let before = scattered(output, forward, internal, count - 1);
        assert forall|k: int| 0 <= k < count implies scattered(output, forward, internal, count)[#[trigger] forward[k] as int] == internal[k] by {
            if k < count - 1 {
                assert(forward[k] != forward[count - 1]);
                assert(before[forward[k] as int] == internal[k]);
            }
        }
        assert forall|j: int| 0 <= j < output.len() && !forward.take(count).contains(j as usize)
            implies #[trigger] scattered(output, forward, internal, count)[j] == output[j] by {
            assert(forward.take(count)[count - 1] == forward[count - 1]);
            assert(j != forward[count - 1] as int);
            if forward.take(count - 1).contains(j as usize) {
                let m = choose|m: int| 0 <= m < forward.take(count - 1).len() && #[trigger] forward.take(count - 1)[m] == j as usize;
                assert(forward.take(count)[m] == j as usize);
            }
        }
    }
}

/// Domain/cell/tile placement already computed during preparation.
#[derive(Debug, PartialEq, Eq)]
pub struct PointPlacement {
    /// Original caller index.
    pub original_index: usize,
    /// Selected domain.
    pub domain: DomainId,
    /// Located horizontal cell.
    pub cell: CellId,
    /// Stable derived-tile identity.
    pub tile_id: u64,
}

impl Clone for PointPlacement {
    fn clone(&self) -> (copy: Self)
        ensures
            copy == *self,
    {
        PointPlacement {
            original_index: self.original_index,
            domain: self.domain.clone(),
            cell: self.cell,
            tile_id: self.tile_id,
        }
    }
}

/// Execution order: by domain name, then cell, then tile, then original index.
pub open spec fn placement_before(a: PointPlacement, b: PointPlacement) -> bool {
    ||| text_lt(a.domain@, b.domain@)
    ||| a.domain@ == b.domain@ && a.cell.0 < b.cell.0
    ||| a.domain@ == b.domain@ && a.cell == b.cell && a.tile_id < b.tile_id
    ||| a.domain@ == b.domain@ && a.cell == b.cell && a.tile_id == b.tile_id && a.original_index < b.original_index
}

proof fn lemma_before_transitive(a: PointPlacement, b: PointPlacement, c: PointPlacement)
    requires
        placement_before(a, b),
        placement_before(b, c),
    ensures
        placement_before(a, c),
{
    if text_lt(a.domain@, b.domain@) && text_lt(b.domain@, c.domain@) {
        lemma_text_lt_transitive(a.domain@, b.domain@, c.domain@);
    }
}

proof fn lemma_before_total(a: PointPlacement, b: PointPlacement)
    requires
        a.original_index != b.original_index,
    ensures
        placement_before(a, b) || placement_before(b, a),
{
    lemma_text_lt_total(a.domain@, b.domain@);
}

proof fn lemma_before_irreflexive(a: PointPlacement, b: PointPlacement)
    requires
        placement_before(a, b),
    ensures
        !placement_before(b, a),
{
    if text_lt(a.domain@, b.domain@) {
        lemma_text_lt_asymmetric(a.domain@, b.domain@);
    } else if a.domain@ == b.domain@ {
        lemma_text_lt_irreflexive(a.domain@);
    }
}

/// Whether `a` comes before `b` in execution order.
fn placement_precedes(a: &PointPlacement, b: &PointPlacement) -> (before: bool)
    ensures
        before == placement_before(*a, *b),
{
    match a.domain.compare(&b.domain) {
        TextOrder::Less => true,
        TextOrder::Greater => {
            proof {
                lemma_text_lt_total(a.domain@, b.domain@);
                if text_lt(a.domain@, b.domain@) {
                    lemma_text_lt_asymmetric(a.domain@, b.domain@);
                }
            }
            false
        },
        TextOrder::Equal => {
            proof {
                lemma_text_lt_irreflexive(a.domain@);
            }
            if a.cell.0 != b.cell.0 {
                a.cell.0 < b.cell.0
            } else if a.tile_id != b.tile_id {
                a.tile_id < b.tile_id
            } else {
                a.original_index < b.original_index
            }
        },
    }
}

/// Original indices are pairwise distinct.
pub open spec fn distinct_indices(placements: Seq<PointPlacement>) -> bool {
    forall|a: int, b: int| 0 <= a < b < placements.len() ==> placements[a].original_index != placements[b].original_index
}

/// `order` lists every placement exactly once, in execution order.
pub open spec fn arranged(placements: Seq<PointPlacement>, order: Seq<usize>) -> bool {
    &&& order.len() == placements.len()
    &&& forall|k: int| 0 <= k < order.len() ==> #[trigger] order[k] < placements.len()
    &&& forall|a: int, b: int| 0 <= a < b < order.len() ==> order[a] != order[b]
    &&& forall|a: int, b: int| 0 <= a < b < order.len() ==> placement_before(
        #[trigger] placements[order[a] as int],
        #[trigger] placements[order[b] as int],
    )
}

/// Execution order is lexicographic by domain name, cell, tile and original
/// index: in any arrangement, a placement in a lower-named domain runs
/// first; in one domain, the one in the lower cell runs first whatever the
/// tiles; in one cell, the lower tile; in one tile, the lower original index.
pub proof fn lemma_execution_order_is_lexicographic(placements: Seq<PointPlacement>, order: Seq<usize>, a: int, b: int)
    requires
        arranged(placements, order),
        0 <= a < order.len(),
        0 <= b < order.len(),
    ensures
        ({
            let p = placements[order[a] as int];
            let q = placements[order[b] as int];
            &&& text_lt(p.domain@, q.domain@) ==> a < b
            &&& p.domain@ == q.domain@ && p.cell.0 < q.cell.0 ==> a < b
            &&& p.domain@ == q.domain@ && p.cell.0 == q.cell.0 && p.tile_id < q.tile_id ==> a < b
            &&& p.domain@ == q.domain@ && p.cell.0 == q.cell.0 && p.tile_id == q.tile_id
                && p.original_index < q.original_index ==> a < b
        }),
{
    let p = placements[order[a] as int];
    let q = placements[order[b] as int];
    lemma_text_lt_irreflexive(p.domain@);
    if text_lt(p.domain@, q.domain@) {
        lemma_text_lt_asymmetric(p.domain@, q.domain@);
    }
    if b < a {
        assert(placement_before(q, p));
    }
}

/// `n` distinct positions below `n` name every position below `n`.
proof fn lemma_order_covers(order: Seq<usize>)
    requires
        forall|k: int| 0 <= k < order.len() ==> #[trigger] order[k] < order.len(),
        forall|a: int, b: int| 0 <= a < b < order.len() ==> order[a] != order[b],
    ensures
        forall|i: usize| (i as int) < order.len() ==> #[trigger] order.contains(i),
{
    let n = order.len() as int;
    let values = order.map_values(|x: usize| x as int);
    assert(values.no_duplicates()) by {
        assert forall|a: int, b: int| 0 <= a < values.len() && 0 <= b < values.len() && a != b implies values[a] != values[b] by {
            if a < b {
                assert(order[a] != order[b]);
            } else {
                assert(order[b] != order[a]);
            }
        }
    }
    values.unique_seq_to_set();
    vstd::set_lib::lemma_int_range(0, n);
    assert forall|i: usize| (i as int) < n implies #[trigger] order.contains(i) by {
        if !order.contains(i) {
            let rest = vstd::set_lib::set_int_range(0, n).remove(i as int);
            assert forall|v: int| values.to_set().contains(v) implies rest.contains(v) by {
                let m = choose|m: int| 0 <= m < values.len() && values[m] == v;
                assert(order[m] as int == v);
                if v == i as int {
                    assert(order[m] == i);
                }
            }
            assert(values.to_set().subset_of(rest));
            vstd::set_lib::lemma_len_subset(values.to_set(), rest);
        }
    }
}

/// Execution order is a function of the placements: two arrangements of the
/// same placements with distinct original indices are the same order.
pub proof fn lemma_arrangement_unique(placements: Seq<PointPlacement>, first: Seq<usize>, second: Seq<usize>)
    requires
        distinct_indices(placements),
        arranged(placements, first),
        arranged(placements, second),
    ensures
        first == second,
{
    lemma_order_covers(second);
    assert forall|k: int| 0 <= k < first.len() implies first[k] == second[k] by {
        lemma_arrangement_prefix(placements, first, second, k + 1);
    }
    assert(first =~= second);
}

proof fn lemma_arrangement_prefix(placements: Seq<PointPlacement>, first: Seq<usize>, second: Seq<usize>, k: int)
    requires
        distinct_indices(placements),
        arranged(placements, first),
        arranged(placements, second),
        0 <= k <= first.len(),
        forall|i: usize| (i as int) < second.len() ==> #[trigger] second.contains(i),
    ensures
        forall|j: int| 0 <= j < k ==> first[j] == second[j],
    decreases k,
{
    lemma_order_covers(first);
    if k > 0 {
        lemma_arrangement_prefix(placements, first, second, k - 1);
        let j = k - 1;
        let x = first[j];
        let y = second[j];
        if x != y {
            let px = placements[x as int];
            let py = placements[y as int];
            assert(px.original_index != py.original_index) by {
                if (x as int) < (y as int) {
                    assert(placements[x as int].original_index != placements[y as int].original_index);
                } else {
                    assert(placements[y as int].original_index != placements[x as int].original_index);
                }
            }
            lemma_before_total(px, py);
            if placement_before(px, py) {
                assert(second.contains(x));
                let m = choose|m: int| 0 <= m < second.len() && second[m] == x;
                if m < j {
                    assert(first[m] == x);
                    assert(first[m] != first[j]);
                }
                assert(m > j);
                assert(placement_before(placements[second[j] as int], placements[second[m] as int]));
                lemma_before_irreflexive(px, py);
            } else {
                assert(first.contains(y));
                let m = choose|m: int| 0 <= m < first.len() && first[m] == y;
                if m < j {
                    assert(second[m] == y);
                    assert(second[m] != second[j]);
                }
                assert(m > j);
                assert(placement_before(placements[first[j] as int], placements[first[m] as int]));
                lemma_before_irreflexive(py, px);
            }
        }
    }
}

/// Computes the execution order of placements with distinct original indices.
fn arrange(placements: &Vec<PointPlacement>) -> (order: Vec<usize>)
    requires
        distinct_indices(placements@),
    ensures
        arranged(placements@, order@),
{
    let ghost p = placements@;
    let mut order: Vec<usize> = Vec::new();
    let mut next: usize = 0;
    while next < placements.len()
        invariant
            p == placements@,
            distinct_indices(p),
            next <= p.len(),
            order@.len() == next,
            forall|k: int| 0 <= k < order@.len() ==> #[trigger] order@[k] < next,
            forall|a: int, b: int| 0 <= a < b < order@.len() ==> order@[a] != order@[b],
            forall|a: int, b: int| 0 <= a < b < order@.len() ==> placement_before(
                #[trigger] p[order@[a] as int],
                #[trigger] p[order@[b] as int],
            ),
        decreases p.len() - next,
    {
        let mut position: usize = 0;
        while position < order.len() && !placement_precedes(&placements[next], &placements[order[position]])
            invariant
                p == placements@,
                distinct_indices(p),
                next < p.len(),
                position <= order@.len(),
                forall|k: int| 0 <= k < order@.len() ==> #[trigger] order@[k] < next,
                forall|q: int| 0 <= q < position ==> placement_before(#[trigger] p[order@[q] as int], p[next as int]),
            decreases order@.len() - position,
        {
            proof {
                let other = order@[position as int];
                assert(p[other as int].original_index != p[next as int].original_index);
                lemma_before_total(p[other as int], p[next as int]);
            }
            position += 1;
        }
        let ghost before = order@;
        order.insert(position, next);
        proof {
            assert forall|a: int, b: int| 0 <= a < b < order@.len() implies placement_before(
                #[trigger] p[order@[a] as int],
                #[trigger] p[order@[b] as int],
            ) by {
                if b == position {
                    assert(placement_before(p[before[a] as int], p[next as int]));
                } else if a == position {
                    let first = before[position as int];
                    assert(placement_before(p[next as int], p[first as int]));
                    if b - 1 > position {
                        assert(placement_before(p[first as int], p[before[b - 1] as int]));
                        lemma_before_transitive(p[next as int], p[first as int], p[before[b - 1] as int]);
                    }
                } else {
                    let aa = if a < position { a } else { a - 1 };
                    let bb = if b < position { b } else { b - 1 };
                    assert(order@[a] == before[aa]);
                    assert(order@[b] == before[bb]);
                }
            }
            assert forall|a: int, b: int| 0 <= a < b < order@.len() implies order@[a] != order@[b] by {
                if a != position && b != position {
                    let aa = if a < position { a } else { a - 1 };
                    let bb = if b < position { b } else { b - 1 };
                    assert(order@[a] == before[aa]);
                    assert(order@[b] == before[bb]);
                }
            }
        }
        next += 1;
    }
    order
}

/// Points share a domain (level 1), also a cell (level 2), also a tile (level 3).
pub open spec fn same_group(level: int, a: PointPlacement, b: PointPlacement) -> bool {
    &&& a.domain@ == b.domain@
    &&& level >= 2 ==> a.cell == b.cell
    &&& level >= 3 ==> a.tile_id == b.tile_id
}

/// `runs` are the maximal consecutive ranges of `s` whose points share a
/// group at `level`, in order.
pub open spec fn maximal_runs(level: int, s: Seq<PointPlacement>, runs: Seq<(usize, usize)>) -> bool {
    &&& (runs.len() == 0) == (s.len() == 0)
    &&& runs.len() > 0 ==> runs[0].0 == 0 && runs[runs.len() - 1].1 == s.len()
    &&& forall|g: int| 0 <= g < runs.len() ==> (#[trigger] runs[g]).0 < runs[g].1
    &&& forall|g: int| 0 <= g < runs.len() - 1 ==> (#[trigger] runs[g]).1 == runs[g + 1].0
    &&& forall|g: int, j: int| 0 <= g < runs.len() && (#[trigger] runs[g]).0 <= j < runs[g].1
        ==> same_group(level, s[runs[g].0 as int], #[trigger] s[j])
    &&& forall|g: int| 0 < g < runs.len() ==> !same_group(level, s[(#[trigger] runs[g]).0 - 1], s[runs[g].0 as int])
}

fn same_group_exec(level: u8, a: &PointPlacement, b: &PointPlacement) -> (same: bool)
    ensures
        same == same_group(level as int, *a, *b),
{
    if a.domain != b.domain {
        return false;
    }
    if level >= 2 && a.cell.0 != b.cell.0 {
        return false;
    }
    if level >= 3 && a.tile_id != b.tile_id {
        return false;
    }
    true
}

/// Maximal runs of points sharing a group at `level`.
fn group_runs(sorted: &Vec<PointPlacement>, level: u8) -> (runs: Vec<(usize, usize)>)
    ensures
        maximal_runs(level as int, sorted@, runs@),
{
    let ghost s = sorted@;
    let mut runs: Vec<(usize, usize)> = Vec::new();
    let mut start: usize = 0;
    while start < sorted.len()
        invariant
            s == sorted@,
            start <= s.len(),
            (runs@.len() == 0) == (start == 0),
            runs@.len() > 0 ==> runs@[0].0 == 0 && runs@[runs@.len() - 1].1 == start,
            forall|g: int| 0 <= g < runs@.len() ==> (#[trigger] runs@[g]).0 < runs@[g].1,
            forall|g: int| 0 <= g < runs@.len() - 1 ==> (#[trigger] runs@[g]).1 == runs@[g + 1].0,
            forall|g: int, j: int| 0 <= g < runs@.len() && (#[trigger] runs@[g]).0 <= j < runs@[g].1
                ==> same_group(level as int, s[runs@[g].0 as int], #[trigger] s[j]),
            forall|g: int| 0 < g < runs@.len() ==> !same_group(level as int, s[(#[trigger] runs@[g]).0 - 1], s[runs@[g].0 as int]),
            runs@.len() > 0 && start < s.len() ==> !same_group(level as int, s[start - 1], s[start as int]),
        decreases s.len() - start,
    {
        let mut end = start + 1;
        while end < sorted.len() && same_group_exec(level, &sorted[start], &sorted[end])
            invariant
                s == sorted@,
                start < end <= s.len(),
                forall|j: int| start <= j < end ==> same_group(level as int, s[start as int], #[trigger] s[j]),
            decreases s.len() - end,
        {
            end += 1;
        }
        proof {
            assert(same_group(level as int, s[start as int], s[start as int]));
        }
        let ghost before = runs@;
        runs.push((start, end));
        proof {
            assert forall|g: int, j: int| 0 <= g < runs@.len() && (#[trigger] runs@[g]).0 <= j < runs@[g].1
                implies same_group(level as int, s[runs@[g].0 as int], #[trigger] s[j]) by {
                if g < before.len() {
                    assert(runs@[g] == before[g]);
                }
            }
            assert forall|g: int| 0 < g < runs@.len() implies !same_group(level as int, s[(#[trigger] runs@[g]).0 - 1], s[runs@[g].0 as int]) by {
                if g < before.len() {
                    assert(runs@[g] == before[g]);
                }
            }
            if end < s.len() {
                assert(!same_group(level as int, s[start as int], s[end as int]));
                assert(same_group(level as int, s[start as int], s[end - 1]));
                if same_group(level as int, s[end - 1], s[end as int]) {
                    assert(same_group(level as int, s[start as int], s[end as int]));
                }
            }
        }
        start = end;
    }
    runs
}

/// The `(start, end)` range of each domain group.
pub open spec fn domain_spans(groups: Seq<DomainGroup>) -> Seq<(usize, usize)> {
    Seq::new(groups.len(), |i: int| (groups[i].start, groups[i].end))
}

/// The `(start, end)` range of each cell group.
pub open spec fn cell_spans(groups: Seq<CellGroup>) -> Seq<(usize, usize)> {
    Seq::new(groups.len(), |i: int| (groups[i].start, groups[i].end))
}

/// The `(start, end)` range of each tile group.
pub open spec fn tile_spans(groups: Seq<TileGroup>) -> Seq<(usize, usize)> {
    Seq::new(groups.len(), |i: int| (groups[i].start, groups[i].end))
}

fn group_domains(sorted: &Vec<PointPlacement>) -> (groups: Vec<DomainGroup>)
    ensures
        maximal_runs(1, sorted@, domain_spans(groups@)),
        forall|g: int| 0 <= g < groups@.len() ==> (#[trigger] groups@[g]).domain@ == sorted@[groups@[g].start as int].domain@,
{
    let runs = group_runs(sorted, 1);
    let mut groups: Vec<DomainGroup> = Vec::new();
    let mut g: usize = 0;
    while g < runs.len()
        invariant
            maximal_runs(1, sorted@, runs@),
            g <= runs@.len(),
            domain_spans(groups@) == runs@.take(g as int),
            forall|h: int| 0 <= h < groups@.len() ==> (#[trigger] groups@[h]).domain@ == sorted@[groups@[h].start as int].domain@,
        decreases runs@.len() - g,
    {
        let (start, end) = runs[g];
        proof {
            assert(runs@[g as int].0 < sorted@.len()) by {
                if g + 1 < runs@.len() {
                    assert(runs@[g as int].1 == runs@[g + 1].0);
                }
                assert(runs@[g as int].1 <= sorted@.len()) by {
                    lemma_runs_within(1, sorted@, runs@, g as int);
                }
            }
        }
        let ghost prev = groups@;
        groups.push(DomainGroup { domain: sorted[start].domain.clone(), start, end });
        g += 1;
        proof {
            assert(domain_spans(groups@) =~= domain_spans(prev).push((start, end)));
            assert(runs@.take(g as int) =~= runs@.take(g - 1).push(runs@[g - 1]));
        }
    }
    proof {
        assert(runs@.take(g as int) =~= runs@);
    }
    groups
}

fn group_cells(sorted: &Vec<PointPlacement>) -> (groups: Vec<CellGroup>)
    ensures
        maximal_runs(2, sorted@, cell_spans(groups@)),
        forall|g: int| 0 <= g < groups@.len() ==> (#[trigger] groups@[g]).cell == sorted@[groups@[g].start as int].cell,
{
    let runs = group_runs(sorted, 2);
    let mut groups: Vec<CellGroup> = Vec::new();
    let mut g: usize = 0;
    while g < runs.len()
        invariant
            maximal_runs(2, sorted@, runs@),
            g <= runs@.len(),
            cell_spans(groups@) == runs@.take(g as int),
            forall|h: int| 0 <= h < groups@.len() ==> (#[trigger] groups@[h]).cell == sorted@[groups@[h].start as int].cell,
        decreases runs@.len() - g,
    {
        let (start, end) = runs[g];
        proof {
            assert(runs@[g as int].0 < sorted@.len()) by {
                if g + 1 < runs@.len() {
                    assert(runs@[g as int].1 == runs@[g + 1].0);
                }
                assert(runs@[g as int].1 <= sorted@.len()) by {
                    lemma_runs_within(2, sorted@, runs@, g as int);
                }
            }
        }
        let ghost prev = groups@;
        groups.push(CellGroup { cell: sorted[start].cell, start, end });
        g += 1;
        proof {
            assert(cell_spans(groups@) =~= cell_spans(prev).push((start, end)));
            assert(runs@.take(g as int) =~= runs@.take(g - 1).push(runs@[g - 1]));
        }
    }
    proof {
        assert(runs@.take(g as int) =~= runs@);
    }
    groups
}

fn group_tiles(sorted: &Vec<PointPlacement>) -> (groups: Vec<TileGroup>)
    ensures
        maximal_runs(3, sorted@, tile_spans(groups@)),
        forall|g: int| 0 <= g < groups@.len() ==> (#[trigger] groups@[g]).tile_id == sorted@[groups@[g].start as int].tile_id,
{
    let runs = group_runs(sorted, 3);
    let mut groups: Vec<TileGroup> = Vec::new();
    let mut g: usize = 0;
    while g < runs.len()
        invariant
            maximal_runs(3, sorted@, runs@),
            g <= runs@.len(),
            tile_spans(groups@) == runs@.take(g as int),
            forall|h: int| 0 <= h < groups@.len() ==> (#[trigger] groups@[h]).tile_id == sorted@[groups@[h].start as int].tile_id,
        decreases runs@.len() - g,
    {
        let (start, end) = runs[g];
        proof {
            assert(runs@[g as int].0 < sorted@.len()) by {
                if g + 1 < runs@.len() {
                    assert(runs@[g as int].1 == runs@[g + 1].0);
                }
                assert(runs@[g as int].1 <= sorted@.len()) by {
                    lemma_runs_within(3, sorted@, runs@, g as int);
                }
            }
        }
        let ghost prev = groups@;
        groups.push(TileGroup { tile_id: sorted[start].tile_id, start, end });
        g += 1;
        proof {
            assert(tile_spans(groups@) =~= tile_spans(prev).push((start, end)));
            assert(runs@.take(g as int) =~= runs@.take(g - 1).push(runs@[g - 1]));
        }
    }
    proof {
        assert(runs@.take(g as int) =~= runs@);
    }
    groups
}

proof fn lemma_runs_within(level: int, s: Seq<PointPlacement>, runs: Seq<(usize, usize)>, g: int)
    requires
        maximal_runs(level, s, runs),
        0 <= g < runs.len(),
    ensures
        runs[g].1 <= s.len(),
    decreases runs.len() - g,
{
    if g + 1 < runs.len() {
        lemma_runs_within(level, s, runs, g + 1);
        assert(runs[g].1 == runs[g + 1].0);
        assert(runs[g + 1].0 < runs[g + 1].1);
    }
}

/// Contiguous range of points assigned to one selected domain.
#[derive(Clone, Debug, PartialEq, Eq)]
pub struct DomainGroup {
    /// Selected domain.
    pub domain: DomainId,
    /// Inclusive start in internal order.
    pub start: usize,
    /// Exclusive end in internal order.
    pub end: usize,
}

/// Contiguous range assigned to one horizontal cell.
#[derive(Clone, Debug, PartialEq, Eq)]
pub struct CellGroup {
    /// Horizontal cell.
    pub cell: CellId,
    /// Inclusive start in internal order.
    pub start: usize,
    /// Exclusive end in internal order.
    pub end: usize,
}

/// Contiguous range sharing one halo-derived tile.
#[derive(Clone, Debug, PartialEq, Eq)]
pub struct TileGroup {
    /// Stable tile identifier within the selected backend.
    pub tile_id: u64,
    /// Inclusive start in internal order.
    pub start: usize,
    /// Exclusive end in internal order.
    pub end: usize,
}

/// Frozen execution-memory estimate used to choose chunks.
#[derive(Clone, Copy, Debug, PartialEq, Eq, Structural)]
pub struct ChunkMemoryModel {
    /// Fixed bytes retained for the complete prepared batch.
    pub fixed_bytes: u64,
    /// Additional scratch/output bytes required per point in one chunk.
    pub bytes_per_point: u64,
    /// Preferred maximum points per chunk; zero means budget capacity.
    pub preferred_chunk_points: usize,
}

/// Deterministic execution chunk boundaries.
#[derive(Clone, Debug, Default, PartialEq, Eq)]
pub struct ChunkPlan {
    /// Monotonic boundaries including zero and total point count.
    pub boundaries: Vec<usize>,
    /// Frozen hard budget used to create this plan.
    pub budget_bytes: u64,
    /// Maximum measured bytes for any planned chunk.
    pub maximum_chunk_bytes: u64,
}

/// Points that fit in one chunk by budget alone, capped at the point count;
/// with no per-point cost every point fits.
pub open spec fn chunk_capacity(point_count: usize, budget_bytes: u64, memory: ChunkMemoryModel) -> int {
    if memory.bytes_per_point == 0 {
        point_count as int
    } else {
        let raw = (budget_bytes - memory.fixed_bytes) / (memory.bytes_per_point as int);
        let fitted = if raw > usize::MAX { usize::MAX as int } else { raw };
        if fitted < point_count { fitted } else { point_count as int }
    }
}

/// Points per chunk: the capacity, lowered to the preferred size when one is set.
pub open spec fn chunk_points(point_count: usize, budget_bytes: u64, memory: ChunkMemoryModel) -> int {
    let capacity = chunk_capacity(point_count, budget_bytes, memory);
    if memory.preferred_chunk_points == 0 || capacity <= memory.preferred_chunk_points {
        capacity
    } else {
        memory.preferred_chunk_points as int
    }
}

/// Number of chunks of `chunk` points that cover `point_count` points.
pub open spec fn chunk_count(point_count: int, chunk: int) -> int {
    (point_count + chunk - 1) / chunk
}

/// Boundaries `0, chunk, 2 chunk, ...` closed by the point count.
pub open spec fn chunk_boundaries(point_count: int, chunk: int) -> Seq<usize> {
    Seq::new(
        (chunk_count(point_count, chunk) + 1) as nat,
        |i: int| if i * chunk < point_count { (i * chunk) as usize } else { point_count as usize },
    )
}

/// `a + b`, or `u64::MAX` when that overflows.
pub open spec fn saturating_add_u64(a: int, b: int) -> int {
    if a + b > u64::MAX { u64::MAX as int } else { a + b }
}

proof fn lemma_chunk_count_bounds(n: int, c: int)
    requires
        0 < c <= n,
    ensures
        1 <= chunk_count(n, c),
        (chunk_count(n, c) - 1) * c < n,
        n <= chunk_count(n, c) * c,
{
    let m = chunk_count(n, c);
    assert((n + c - 1) / c * c <= n + c - 1 < ((n + c - 1) / c + 1) * c) by (nonlinear_arith)
        requires 0 < c;
    assert(m >= 1) by (nonlinear_arith)
        requires m == (n + c - 1) / c, 0 < c <= n;
    assert((m - 1) * c == m * c - c) by (nonlinear_arith);
    assert((m + 1) * c == m * c + c) by (nonlinear_arith);
}

/// What planning `point_count` points under `budget_bytes` yields: the
/// boundaries and the largest chunk's bytes, or the failure.
pub open spec fn chunk_plan_spec(point_count: usize, budget_bytes: u64, memory: ChunkMemoryModel) -> Result<(Seq<usize>, int), LayoutError> {
    if memory.fixed_bytes > budget_bytes {
        Err(LayoutError::InsufficientMemory { required_bytes: memory.fixed_bytes, budget_bytes })
    } else if point_count == 0 {
        Ok((seq![0usize], memory.fixed_bytes as int))
    } else if chunk_capacity(point_count, budget_bytes, memory) == 0 {
        Err(LayoutError::InsufficientMemory {
            required_bytes: saturating_add_u64(memory.fixed_bytes as int, memory.bytes_per_point as int) as u64,
            budget_bytes,
        })
    } else {
        let chunk = chunk_points(point_count, budget_bytes, memory);
        Ok((chunk_boundaries(point_count as int, chunk), memory.fixed_bytes + memory.bytes_per_point * chunk))
    }
}

/// `result` is the plan (or failure) that `expected` describes.
pub open spec fn plan_matches(result: Result<ChunkPlan, LayoutError>, expected: Result<(Seq<usize>, int), LayoutError>, budget_bytes: u64) -> bool {
    match expected {
        Err(error) => result == Err::<ChunkPlan, LayoutError>(error),
        Ok((boundaries, maximum)) => result matches Ok(plan) && plan.boundaries@ == boundaries
            && plan.budget_bytes == budget_bytes && plan.maximum_chunk_bytes == maximum,
    }
}

proof fn lemma_chunk_fits(dynamic: int, per_point: int, points: int)
    requires
        per_point > 0,
        0 <= points <= dynamic / per_point,
        dynamic >= 0,
    ensures
        per_point * points <= dynamic,
{
    assert(per_point * points <= per_point * (dynamic / per_point)) by (nonlinear_arith)
        requires per_point > 0, points <= dynamic / per_point;
    assert(per_point * (dynamic / per_point) <= dynamic) by (nonlinear_arith)
        requires per_point > 0, dynamic >= 0;
}

/// Every planned chunk fits the hard budget: boundaries run strictly upward
/// from 0 to the point count, and the fixed bytes plus the per-point bytes of
/// any one chunk stay within the recorded maximum, itself within the budget.
pub proof fn lemma_chunks_fit_budget(point_count: usize, budget_bytes: u64, memory: ChunkMemoryModel)
    requires
        chunk_plan_spec(point_count, budget_bytes, memory) is Ok,
    ensures
        ({
            let (boundaries, maximum) = chunk_plan_spec(point_count, budget_bytes, memory)->Ok_0;
            &&& boundaries.len() >= 1
            &&& boundaries[0] == 0
            &&& boundaries[boundaries.len() - 1] == point_count
            &&& maximum <= budget_bytes
            &&& forall|i: int| 0 <= i < boundaries.len() - 1 ==> {
                &&& #[trigger] boundaries[i] < boundaries[i + 1]
                &&& memory.fixed_bytes + memory.bytes_per_point * (boundaries[i + 1] - boundaries[i]) <= maximum
            }
        }),
{
    if point_count > 0 {
        let n = point_count as int;
        let c = chunk_points(point_count, budget_bytes, memory);
        let dynamic = budget_bytes - memory.fixed_bytes;
        let per = memory.bytes_per_point as int;
        assert(0 < c <= n);
        lemma_chunk_count_bounds(n, c);
        let b = chunk_boundaries(n, c);
        let m = chunk_count(n, c);
        assert(per * c <= dynamic) by {
            if per > 0 {
                lemma_chunk_fits(dynamic, per, c);
            }
        }
        assert(b[m] == n) by {
            assert(!(m * c < n));
        }
        assert forall|i: int| 0 <= i < b.len() - 1 implies {
            &&& #[trigger] b[i] < b[i + 1]
            &&& memory.fixed_bytes + per * (b[i + 1] - b[i]) <= memory.fixed_bytes + per * c
        } by {
            assert(i * c <= (m - 1) * c) by (nonlinear_arith)
                requires 0 <= i <= m - 1, 0 < c;
            assert(b[i] == i * c);
            assert((i + 1) * c == i * c + c) by (nonlinear_arith);
            assert(0 < b[i + 1] - b[i] <= c);
            assert(per * (b[i + 1] - b[i]) <= per * c) by (nonlinear_arith)
                requires 0 < b[i + 1] - b[i] <= c, per >= 0;
        }
    }
}

impl ChunkPlan {
    /// Builds deterministic chunks that fit the declared hard budget.
    pub fn build(point_count: usize, budget_bytes: u64, memory: ChunkMemoryModel) -> (result: Result<Self, LayoutError>)
        ensures
            plan_matches(result, chunk_plan_spec(point_count, budget_bytes, memory), budget_bytes),
            result matches Ok(plan) ==> plan.maximum_chunk_bytes <= plan.budget_bytes,
    {
        if memory.fixed_bytes > budget_bytes {
            return Err(LayoutError::InsufficientMemory { required_bytes: memory.fixed_bytes, budget_bytes });
        }
        if point_count == 0 {
            let mut boundaries: Vec<usize> = Vec::new();
            boundaries.push(0);
            return Ok(ChunkPlan { boundaries, budget_bytes, maximum_chunk_bytes: memory.fixed_bytes });
        }
        let dynamic = budget_bytes - memory.fixed_bytes;
        let capacity: usize = if memory.bytes_per_point == 0 {
            point_count
        } else {
            let raw = dynamic / memory.bytes_per_point;
            let fitted: usize = if raw > usize::MAX as u64 { usize::MAX } else { raw as usize };
            if fitted < point_count { fitted } else { point_count }
        };
        if capacity == 0 {
            return Err(LayoutError::InsufficientMemory {
                required_bytes: memory.fixed_bytes.saturating_add(memory.bytes_per_point),
                budget_bytes,
            });
        }
        let chunk: usize = if memory.preferred_chunk_points == 0 || capacity <= memory.preferred_chunk_points {
            capacity
        } else {
            memory.preferred_chunk_points
        };
        let ghost n = point_count as int;
        let ghost c = chunk as int;
        let ghost target = chunk_boundaries(n, c);
        proof {
            lemma_chunk_count_bounds(n, c);
        }
        let mut boundaries: Vec<usize> = Vec::new();
        boundaries.push(0);
        let mut end: usize = chunk;
        let ghost mut i: int = 1;
        while end < point_count
            invariant
                0 < c <= n,
                n == point_count,
                c == chunk,
                target == chunk_boundaries(n, c),
                1 <= i,
                end == (if i * c <= usize::MAX { i * c } else { usize::MAX as int }),
                (i - 1) * c < n,
                boundaries@ == target.subrange(0, i),
                target.len() == chunk_count(n, c) + 1,
                (chunk_count(n, c) - 1) * c < n,
                n <= chunk_count(n, c) * c,
            decreases chunk_count(n, c) - i,
        {
            proof {
                assert(end == i * c);
                assert(i < chunk_count(n, c)) by (nonlinear_arith)
                    requires i * c < n, n <= chunk_count(n, c) * c, 0 < c;
                assert(target[i] == end);
                assert(boundaries@.push(end) =~= target.subrange(0, i + 1));
            }
            boundaries.push(end);
            proof {
                assert((i + 1) * c == i * c + c) by (nonlinear_arith);
            }
            end = end.saturating_add(chunk);
            proof {
                i = i + 1;
            }
        }
        proof {
            assert(i * c >= n);
            assert(i == chunk_count(n, c)) by (nonlinear_arith)
                requires i * c >= n, (i - 1) * c < n, (chunk_count(n, c) - 1) * c < n,
                    n <= chunk_count(n, c) * c, 0 < c, 1 <= i;
            assert(target[i] == point_count);
            assert(boundaries@.push(point_count) =~= target);
        }
        boundaries.push(point_count);
        proof {
            if memory.bytes_per_point > 0 {
                lemma_chunk_fits(dynamic as int, memory.bytes_per_point as int, c);
            } else {
                assert(memory.bytes_per_point * c == 0);
            }
            assert(memory.bytes_per_point * c <= dynamic);
        }
        let maximum_chunk_bytes = memory.fixed_bytes + memory.bytes_per_point * (chunk as u64);
        Ok(ChunkPlan { boundaries, budget_bytes, maximum_chunk_bytes })
    }
}

/// Complete backend-neutral grouping result.
#[derive(Clone, Debug, Default, PartialEq, Eq)]
pub struct BatchLayout {
    /// Domain ID per internal point.
    pub domain_ids: Vec<DomainId>,
    /// Cell ID per internal point.
    pub cell_ids: Vec<CellId>,
    /// Domain groups.
    pub domain_groups: Vec<DomainGroup>,
    /// Cell groups.
    pub cell_groups: Vec<CellGroup>,
    /// Tile groups.
    pub tile_groups: Vec<TileGroup>,
    /// Caller/internal order mapping.
    pub permutation: Permutation,
    /// Hard-budget chunking plan.
    pub chunks: ChunkPlan,
}

/// Placements listed in the order `order` gives.
pub open spec fn in_order(placements: Seq<PointPlacement>, order: Seq<usize>) -> Seq<PointPlacement> {
    Seq::new(order.len(), |k: int| placements[order[k] as int])
}

/// Original indices are distinct and name caller slots below `point_count`.
pub open spec fn valid_placements(point_count: usize, placements: Seq<PointPlacement>) -> bool {
    &&& distinct_indices(placements)
    &&& forall|k: int| 0 <= k < placements.len() ==> (#[trigger] placements[k]).original_index < point_count
}

/// `inverse` maps each caller slot to the internal position that holds it,
/// and to nothing when no internal position does.
pub open spec fn inverse_of(forward: Seq<usize>, inverse: Seq<Option<usize>>, point_count: usize) -> bool {
    &&& inverse.len() == point_count
    &&& forall|k: int| 0 <= k < forward.len() ==> inverse[#[trigger] forward[k] as int] == Some(k as usize)
    &&& forall|j: int| 0 <= j < point_count && (#[trigger] inverse[j]) is Some
        ==> inverse[j]->0 < forward.len() && forward[inverse[j]->0 as int] == j
}

/// The layout lists `placements` in the order `order` gives, with every
/// derived column, group and chunk consistent with that order.
pub open spec fn layout_follows(
    point_count: usize,
    placements: Seq<PointPlacement>,
    order: Seq<usize>,
    budget_bytes: u64,
    memory: ChunkMemoryModel,
    layout: BatchLayout,
) -> bool {
    let sorted = in_order(placements, order);
    &&& layout.permutation.forward@ == Seq::new(sorted.len(), |k: int| sorted[k].original_index)
    &&& inverse_of(layout.permutation.forward@, layout.permutation.inverse@, point_count)
    &&& layout.domain_ids@.len() == sorted.len()
    &&& forall|k: int| 0 <= k < sorted.len() ==> (#[trigger] layout.domain_ids@[k])@ == sorted[k].domain@
    &&& layout.cell_ids@ == Seq::new(sorted.len(), |k: int| sorted[k].cell)
    &&& maximal_runs(1, sorted, domain_spans(layout.domain_groups@))
    &&& forall|g: int| 0 <= g < layout.domain_groups@.len()
        ==> (#[trigger] layout.domain_groups@[g]).domain@ == sorted[layout.domain_groups@[g].start as int].domain@
    &&& maximal_runs(2, sorted, cell_spans(layout.cell_groups@))
    &&& forall|g: int| 0 <= g < layout.cell_groups@.len()
        ==> (#[trigger] layout.cell_groups@[g]).cell == sorted[layout.cell_groups@[g].start as int].cell
    &&& maximal_runs(3, sorted, tile_spans(layout.tile_groups@))
    &&& forall|g: int| 0 <= g < layout.tile_groups@.len()
        ==> (#[trigger] layout.tile_groups@[g]).tile_id == sorted[layout.tile_groups@[g].start as int].tile_id
    &&& plan_matches(Ok(layout.chunks), chunk_plan_spec(sorted.len() as usize, budget_bytes, memory), budget_bytes)
}

/// Checks that original indices are distinct and below `point_count`.
fn check_placements(point_count: usize, placements: &Vec<PointPlacement>) -> (valid: bool)
    ensures
        valid == valid_placements(point_count, placements@),
{
    let mut seen: Vec<bool> = vec![false; point_count];
    let mut k: usize = 0;
    while k < placements.len()
        invariant
            seen@.len() == point_count,
            k <= placements@.len(),
            valid_placements(point_count, placements@.take(k as int)),
            forall|j: int| 0 <= j < point_count ==> (#[trigger] seen@[j]
                <==> exists|q: int| 0 <= q < k && placements@[q].original_index == j),
        decreases placements@.len() - k,
    {
        let index = placements[k].original_index;
        if index >= point_count {
            return false;
        }
        if seen[index] {
            proof {
                let q = choose|q: int| 0 <= q < k && placements@[q].original_index == index;
                assert(placements@.take(k + 1)[q].original_index == placements@.take(k + 1)[k as int].original_index);
            }
            return false;
        }
        let ghost prefix = placements@.take(k as int);
        seen.set(index, true);
        k += 1;
        proof {
            let next = placements@.take(k as int);
            assert forall|a: int, b: int| 0 <= a < b < next.len() implies next[a].original_index != next[b].original_index by {
                if b == k - 1 {
                    if next[a].original_index == index {
                        assert(seen@[index as int]);
                    }
                } else {
                    assert(next[a] == prefix[a]);
                    assert(next[b] == prefix[b]);
                }
            }
            assert forall|q: int| 0 <= q < next.len() implies (#[trigger] next[q]).original_index < point_count by {
                if q < k - 1 {
                    assert(next[q] == prefix[q]);
                }
            }
            assert forall|j: int| 0 <= j < point_count implies (#[trigger] seen@[j]
                <==> exists|q: int| 0 <= q < k && placements@[q].original_index == j) by {
                if j == index {
                    assert(placements@[k - 1].original_index == j);
                }
            }
        }
    }
    proof {
        assert(placements@.take(k as int) =~= placements@);
    }
    true
}

impl BatchLayout {
    /// Sorts placements by stable execution keys and freezes chunk boundaries.
    pub fn build(
        point_count: usize,
        placements: Vec<PointPlacement>,
        budget_bytes: u64,
        memory: ChunkMemoryModel,
    ) -> (result: Result<Self, LayoutError>)
        ensures
            !valid_placements(point_count, placements@) ==> result == Err::<Self, LayoutError>(LayoutError::InvalidPermutation),
            valid_placements(point_count, placements@) && chunk_plan_spec(placements@.len() as usize, budget_bytes, memory) is Err
                ==> result == Err::<Self, LayoutError>(chunk_plan_spec(placements@.len() as usize, budget_bytes, memory)->Err_0),
            valid_placements(point_count, placements@) && chunk_plan_spec(placements@.len() as usize, budget_bytes, memory) is Ok
                ==> (result matches Ok(layout) && exists|order: Seq<usize>|
                    arranged(placements@, order) && layout_follows(point_count, placements@, order, budget_bytes, memory, layout)),
    {
        if !check_placements(point_count, &placements) {
            return Err(LayoutError::InvalidPermutation);
        }
        let order = arrange(&placements);
        let ghost p = placements@;
        let n = order.len();
        let mut sorted: Vec<PointPlacement> = Vec::new();
        let mut forward: Vec<usize> = Vec::new();
        let mut domain_ids: Vec<DomainId> = Vec::new();
        let mut cell_ids: Vec<CellId> = Vec::new();
        let mut k: usize = 0;
        while k < n
            invariant
                p == placements@,
                n == order@.len(),
                arranged(p, order@),
                k <= n,
                sorted@.len() == k,
                sorted@ == in_order(p, order@).take(k as int),
                forward@ == Seq::new(k as nat, |q: int| p[order@[q] as int].original_index),
                domain_ids@.len() == k,
                forall|q: int| 0 <= q < k ==> (#[trigger] domain_ids@[q])@ == p[order@[q] as int].domain@,
                cell_ids@ == Seq::new(k as nat, |q: int| p[order@[q] as int].cell),
            decreases n - k,
        {
            let placement = placements[order[k]].clone();
            forward.push(placement.original_index);
            domain_ids.push(placement.domain.clone());
            cell_ids.push(placement.cell);
            sorted.push(placement);
            k += 1;
            proof {
                assert(sorted@ =~= in_order(p, order@).take(k as int));
                assert(forward@ =~= Seq::new(k as nat, |q: int| p[order@[q] as int].original_index));
                assert(cell_ids@ =~= Seq::new(k as nat, |q: int| p[order@[q] as int].cell));
            }
        }
        proof {
            assert(sorted@ =~= in_order(p, order@));
        }
        let mut inverse: Vec<Option<usize>> = vec![None; point_count];
        let mut k: usize = 0;
        while k < n
            invariant
                p == placements@,
                n == order@.len(),
                arranged(p, order@),
                valid_placements(point_count, p),
                k <= n,
                forward@ == Seq::new(n as nat, |q: int| p[order@[q] as int].original_index),
                inverse@.len() == point_count,
                forall|q: int| 0 <= q < k ==> inverse@[#[trigger] forward@[q] as int] == Some(q as usize),
                forall|j: int| 0 <= j < point_count && (#[trigger] inverse@[j]) is Some
                    ==> inverse@[j]->0 < k && forward@[inverse@[j]->0 as int] == j,
            decreases n - k,
        {
            let target = forward[k];
            proof {
                assert forall|q: int| 0 <= q < k implies forward@[q] != target by {
                    assert(order@[q] != order@[k as int]);
                    if order@[q] < order@[k as int] {
                        assert(p[order@[q] as int].original_index != p[order@[k as int] as int].original_index);
                    } else {
                        assert(p[order@[k as int] as int].original_index != p[order@[q] as int].original_index);
                    }
                }
            }
            inverse.set(target, Some(k));
            k += 1;
        }
        let domain_groups = group_domains(&sorted);
        let cell_groups = group_cells(&sorted);
        let tile_groups = group_tiles(&sorted);
        let chunks = match ChunkPlan::build(n, budget_bytes, memory) {
            Ok(plan) => plan,
            Err(error) => return Err(error),
        };
        let layout = BatchLayout {
            domain_ids,
            cell_ids,
            domain_groups,
            cell_groups,
            tile_groups,
            permutation: Permutation { forward, inverse },
            chunks,
        };
        proof {
            let sorted_view = in_order(p, order@);
            assert(layout.permutation.forward@ =~= Seq::new(sorted_view.len(), |k: int| sorted_view[k].original_index));
            assert(layout.cell_ids@ =~= Seq::new(sorted_view.len(), |k: int| sorted_view[k].cell));
            assert(inverse_of(layout.permutation.forward@, layout.permutation.inverse@, point_count));
            assert(plan_matches(Ok(layout.chunks), chunk_plan_spec(sorted_view.len() as usize, budget_bytes, memory), budget_bytes));
            assert(layout_follows(point_count, p, order@, budget_bytes, memory, layout));
        }
        Ok(layout)
    }
}

} // verus!
