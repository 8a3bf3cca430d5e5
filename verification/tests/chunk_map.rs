use ophelia::chunk_map::{
    scaled_boundary, snapshot_changed, snapshot_from_covered_ranges, snapshot_from_slot_arrays,
    ChunkMapCellState, HttpChunkMapSnapshot, HTTP_CHUNK_MAP_CELLS,
};
use ophelia::ranges::{covered_len_in_range, merge_ranges};

fn complete_cells(snapshot: &HttpChunkMapSnapshot) -> usize {
    snapshot
        .cells
        .iter()
        .filter(|&&cell| cell == ChunkMapCellState::Complete)
        .count()
}

#[test]
fn empty_coverage_yields_empty_cells() {
    let snapshot = snapshot_from_covered_ranges(1_280, Vec::new());
    assert_eq!(snapshot.cells.len(), HTTP_CHUNK_MAP_CELLS);
    assert!(snapshot.cells.iter().all(|&cell| cell == ChunkMapCellState::Empty));
}

#[test]
fn full_coverage_yields_complete_cells() {
    let snapshot = snapshot_from_covered_ranges(128, vec![(0, 128)]);
    assert!(snapshot.cells.iter().all(|&cell| cell == ChunkMapCellState::Complete));
}

#[test]
fn partial_coverage_marks_partial_cells() {
    let snapshot = snapshot_from_covered_ranges(1_280, vec![(0, 5)]);
    assert_eq!(snapshot.cells[0], ChunkMapCellState::Partial);
    assert!(snapshot.cells[1..].iter().all(|&cell| cell == ChunkMapCellState::Empty));
}

#[test]
fn resumed_chunk_progress_seeds_initial_coverage() {
    let snapshot = snapshot_from_covered_ranges(1_280, vec![(0, 640), (640, 965)]);
    assert_eq!(complete_cells(&snapshot), 96);
    assert_eq!(snapshot.cells[96], ChunkMapCellState::Partial);
    assert!(snapshot.cells[97..].iter().all(|&cell| cell == ChunkMapCellState::Empty));
}

#[test]
fn overlapping_hedge_ranges_do_not_overcount() {
    let snapshot = snapshot_from_covered_ranges(128, vec![(0, 64), (32, 96)]);
    assert_eq!(complete_cells(&snapshot), 96);
    assert!(snapshot.cells[96..].iter().all(|&cell| cell == ChunkMapCellState::Empty));
}

#[test]
fn stolen_ranges_render_as_contiguous_coverage() {
    let snapshot = snapshot_from_covered_ranges(128, vec![(0, 32), (32, 64), (64, 96)]);
    assert_eq!(complete_cells(&snapshot), 96);
    assert!(snapshot.cells[96..].iter().all(|&cell| cell == ChunkMapCellState::Empty));
}

#[test]
fn merge_sorts_joins_and_drops_empty_ranges() {
    let merged = merge_ranges(vec![(50, 60), (10, 20), (5, 5), (15, 30), (30, 40), (70, 65)]);
    assert_eq!(merged, vec![(10, 40), (50, 60)]);
}

#[test]
fn merge_keeps_separated_ranges_apart() {
    let merged = merge_ranges(vec![(0, 10), (11, 20)]);
    assert_eq!(merged, vec![(0, 10), (11, 20)]);
}

#[test]
fn merge_is_idempotent_and_order_free() {
    let a = merge_ranges(vec![(3, 9), (0, 4), (20, 25), (8, 12)]);
    let b = merge_ranges(vec![(20, 25), (8, 12), (3, 9), (0, 4)]);
    assert_eq!(a, b);
    assert_eq!(merge_ranges(a.clone()), a);
}

#[test]
fn covered_len_counts_overlap_with_window() {
    let merged = vec![(0, 10), (20, 30), (40, 50)];
    assert_eq!(covered_len_in_range(&merged, 5, 45), 5 + 10 + 5);
    assert_eq!(covered_len_in_range(&merged, 10, 20), 0);
    assert_eq!(covered_len_in_range(&merged, 0, 100), 30);
    assert_eq!(covered_len_in_range(&merged, 60, 70), 0);
}

#[test]
fn scaled_boundary_divides_total_into_cells() {
    assert_eq!(scaled_boundary(1_280, 0), 0);
    assert_eq!(scaled_boundary(1_280, 1), 10);
    assert_eq!(scaled_boundary(1_280, 128), 1_280);
    assert_eq!(scaled_boundary(100, 3), 2);
    assert_eq!(scaled_boundary(u64::MAX, 128), u64::MAX);
}

#[test]
fn small_files_have_empty_width_cells() {
    // 10 bytes over 128 cells: most cells have no width and stay empty.
    let snapshot = snapshot_from_covered_ranges(10, vec![(0, 10)]);
    assert_eq!(complete_cells(&snapshot), 10);
    assert_eq!(snapshot.cells.len(), HTTP_CHUNK_MAP_CELLS);
}

#[test]
fn slot_arrays_clamp_to_slot_end_and_skip_unpopulated() {
    let starts = [0u64, 64, 96];
    let ends = [64u64, 96, 128];
    // Slot 0 reports more than its range; slot 2 is past the populated count.
    let downloaded = [100u64, 16, 32];
    let snapshot = snapshot_from_slot_arrays(128, &starts, &ends, &downloaded, 2);
    assert_eq!(complete_cells(&snapshot), 80);
    assert!(snapshot.cells[80..].iter().all(|&cell| cell == ChunkMapCellState::Empty));
}

#[test]
fn slot_arrays_saturate_instead_of_overflowing() {
    let starts = [u64::MAX - 4];
    let ends = [u64::MAX];
    let downloaded = [u64::MAX];
    let snapshot = snapshot_from_slot_arrays(128, &starts, &ends, &downloaded, 5);
    assert!(snapshot.cells.iter().all(|&cell| cell == ChunkMapCellState::Empty));
}

#[test]
fn snapshot_changes_are_detected() {
    let a = snapshot_from_covered_ranges(128, vec![(0, 64)]);
    let b = snapshot_from_covered_ranges(128, vec![(0, 64)]);
    let c = snapshot_from_covered_ranges(128, vec![(0, 65)]);
    assert!(snapshot_changed(&None, &a));
    assert!(!snapshot_changed(&Some(a.clone()), &b));
    assert!(snapshot_changed(&Some(a), &c));
}
