use trajecta_met::model::{CellId, DomainId};
use trajecta_met::query::layout::{BatchLayout, ChunkMemoryModel, ChunkPlan, LayoutError, Permutation, PointPlacement};

fn placement(original_index: usize, domain: &str, cell: u64, tile_id: u64) -> PointPlacement {
    PointPlacement { original_index, domain: DomainId(domain.into()), cell: CellId(cell), tile_id }
}

#[test]
fn grouping_and_inverse_permutation_are_stable() {
    let placements = vec![
        placement(0, "outer", 3, 1),
        placement(1, "inner", 2, 0),
        placement(2, "inner", 1, 0),
        placement(3, "inner", 1, 0),
    ];
    let layout = BatchLayout::build(
        4,
        placements,
        1_000,
        ChunkMemoryModel { fixed_bytes: 100, bytes_per_point: 100, preferred_chunk_points: 2 },
    )
    .unwrap();
    assert_eq!(layout.permutation.forward, vec![2, 3, 1, 0]);
    assert_eq!(layout.permutation.inverse, vec![Some(3), Some(2), Some(0), Some(1)]);
    let mut restored = vec![-1; 4];
    layout.permutation.scatter_into(&[20, 30, 10, 0], &mut restored).unwrap();
    assert_eq!(restored, vec![0, 10, 20, 30]);
    assert_eq!(layout.chunks.boundaries, vec![0, 2, 4]);
}

#[test]
fn chunk_plan_never_crosses_the_hard_budget() {
    let plan = ChunkPlan::build(
        1_000_000,
        10_000,
        ChunkMemoryModel { fixed_bytes: 1_000, bytes_per_point: 9, preferred_chunk_points: 0 },
    )
    .unwrap();
    assert!(plan.boundaries.len() > 2);
    assert!(plan.maximum_chunk_bytes <= plan.budget_bytes);
    assert_eq!(plan.boundaries[0], 0);
    assert_eq!(plan.boundaries.last().copied(), Some(1_000_000));
}

#[test]
fn minimum_one_point_failure_reports_required_bytes() {
    assert_eq!(
        ChunkPlan::build(1, 100, ChunkMemoryModel { fixed_bytes: 90, bytes_per_point: 20, preferred_chunk_points: 0 }),
        Err(LayoutError::InsufficientMemory { required_bytes: 110, budget_bytes: 100 })
    );
}

#[test]
fn rejected_points_have_no_internal_index_and_keep_prefilled_output() {
    let layout = BatchLayout::build(
        3,
        vec![placement(1, "global", 0, 0)],
        1_000,
        ChunkMemoryModel { fixed_bytes: 0, bytes_per_point: 1, preferred_chunk_points: 0 },
    )
    .unwrap();
    assert_eq!(layout.permutation.inverse, vec![None, Some(0), None]);
    let mut output = vec![99; 3];
    layout.permutation.scatter_into(&[7], &mut output).unwrap();
    assert_eq!(output, vec![99, 7, 99]);
}

#[test]
fn groups_are_maximal_runs_in_execution_order() {
    let layout = BatchLayout::build(
        4,
        vec![placement(0, "b", 1, 0), placement(1, "a", 2, 5), placement(2, "a", 2, 4), placement(3, "b", 1, 0)],
        1_000,
        ChunkMemoryModel { fixed_bytes: 0, bytes_per_point: 1, preferred_chunk_points: 0 },
    )
    .unwrap();
    assert_eq!(layout.permutation.forward, vec![2, 1, 0, 3]);
    assert_eq!(layout.domain_groups.len(), 2);
    assert_eq!(layout.domain_groups[0].domain, DomainId("a".into()));
    assert_eq!((layout.domain_groups[0].start, layout.domain_groups[0].end), (0, 2));
    assert_eq!((layout.domain_groups[1].start, layout.domain_groups[1].end), (2, 4));
    assert_eq!(layout.cell_groups.len(), 2);
    assert_eq!(layout.tile_groups.len(), 3);
    assert_eq!(layout.cell_ids, vec![CellId(2), CellId(2), CellId(1), CellId(1)]);
    assert_eq!(layout.chunks.boundaries, vec![0, 4]);
}

#[test]
fn duplicate_or_out_of_range_indices_are_an_invalid_permutation() {
    let memory = ChunkMemoryModel { fixed_bytes: 0, bytes_per_point: 1, preferred_chunk_points: 0 };
    assert_eq!(
        BatchLayout::build(2, vec![placement(0, "a", 0, 0), placement(0, "a", 1, 0)], 100, memory),
        Err(LayoutError::InvalidPermutation)
    );
    assert_eq!(BatchLayout::build(2, vec![placement(2, "a", 0, 0)], 100, memory), Err(LayoutError::InvalidPermutation));
}

#[test]
fn scatter_refuses_mismatched_lengths_and_leaves_output() {
    let permutation = Permutation { forward: vec![1, 0], inverse: vec![Some(1), Some(0)] };
    let mut output = vec![5, 6];
    assert_eq!(permutation.scatter_into(&[1], &mut output), Err(LayoutError::InvalidPermutation));
    let mut short = vec![5];
    assert_eq!(permutation.scatter_into(&[1, 2], &mut short), Err(LayoutError::InvalidPermutation));
    assert_eq!(output, vec![5, 6]);
    permutation.scatter_into(&[1, 2], &mut output).unwrap();
    assert_eq!(output, vec![2, 1]);
}

#[test]
fn scatter_checks_lengths_before_any_target() {
    let stray = Permutation { forward: vec![9], inverse: vec![None] };
    let mut output = vec![5];
    assert_eq!(stray.scatter_into(&[1, 2], &mut output), Err(LayoutError::InvalidPermutation));
    let mut long = vec![5, 6];
    assert_eq!(stray.scatter_into(&[1], &mut long), Err(LayoutError::InvalidPermutation));
    assert_eq!(output, vec![5]);
    assert_eq!(long, vec![5, 6]);
}

#[test]
fn chunk_sizes_follow_capacity_preference_and_empty_batches() {
    let memory = ChunkMemoryModel { fixed_bytes: 10, bytes_per_point: 10, preferred_chunk_points: 0 };
    let plan = ChunkPlan::build(10, 45, memory).unwrap();
    assert_eq!(plan.boundaries, vec![0, 3, 6, 9, 10]);
    assert_eq!(plan.maximum_chunk_bytes, 40);
    let preferred = ChunkPlan::build(10, 1_000, ChunkMemoryModel { preferred_chunk_points: 4, ..memory }).unwrap();
    assert_eq!(preferred.boundaries, vec![0, 4, 8, 10]);
    assert_eq!(preferred.maximum_chunk_bytes, 50);
    let empty = ChunkPlan::build(0, 10, memory).unwrap();
    assert_eq!(empty.boundaries, vec![0]);
    assert_eq!(empty.maximum_chunk_bytes, 10);
    assert_eq!(
        ChunkPlan::build(5, 5, memory),
        Err(LayoutError::InsufficientMemory { required_bytes: 10, budget_bytes: 5 })
    );
}
