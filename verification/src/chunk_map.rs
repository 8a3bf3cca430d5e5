//! Chunk-map snapshots for the Transfers view.
//!
//! The executor keeps per-slot counters for chunking, stealing and hedging.
//! This module turns those counters into a compact fixed-width read model:
//! the file is cut into `HTTP_CHUNK_MAP_CELLS` equal cells and each cell
//! is reported as empty, partially downloaded or complete.

use vstd::prelude::*;
use crate::plan::lemma_floor_step;
use crate::ranges::{
    covered_count, covers, in_range, lemma_covers_push, is_canonical, merge_ranges, lemma_canonical_is_sorted_disjoint, covered_len_in_range, lemma_covered_count_ext,
    lemma_covered_count_zero, lemma_covered_count_full, lemma_covered_count_bound,
};

verus! {

/// Number of cells in a chunk map.
pub const HTTP_CHUNK_MAP_CELLS: usize = 128;

/// Interval between two chunk-map reports, in milliseconds.
pub const HTTP_CHUNK_MAP_INTERVAL_MS: u64 = 250;

/// Download state of one cell of the chunk map.
#[derive(Debug, Clone, Copy, PartialEq, Eq, Structural)]
pub enum ChunkMapCellState {
    Empty,
    Partial,
    Complete,
}

/// A fixed-width picture of which parts of a file have been downloaded.
#[derive(Debug, Clone, PartialEq, Eq)]
pub struct HttpChunkMapSnapshot {
    pub total_bytes: u64,
    pub cells: Vec<ChunkMapCellState>,
}

/// The byte offset at which cell `step` begins: `total * step / cells`.
pub open spec fn cell_boundary(total_bytes: u64, step: int) -> int {
    (total_bytes as int * step) / (HTTP_CHUNK_MAP_CELLS as int)
}

/// State of the window `[lo, hi)` given the covered bytes: a window with no
/// width or no covered byte is empty, a window whose every byte is covered is
/// complete, anything else is partial.
pub open spec fn cell_state(rs: Seq<(u64, u64)>, lo: int, hi: int) -> ChunkMapCellState {
    if hi <= lo {
        ChunkMapCellState::Empty
    } else if covered_count(rs, lo, hi) == 0 {
        ChunkMapCellState::Empty
    } else if covered_count(rs, lo, hi) >= hi - lo {
        ChunkMapCellState::Complete
    } else {
        ChunkMapCellState::Partial
    }
}

/// The cells of the chunk map of a file of `total_bytes` bytes whose
/// downloaded bytes are those covered by `rs`.
pub open spec fn expected_cells(total_bytes: u64, rs: Seq<(u64, u64)>) -> Seq<ChunkMapCellState> {
    Seq::new(
        HTTP_CHUNK_MAP_CELLS as nat,
        |i: int| cell_state(rs, cell_boundary(total_bytes, i), cell_boundary(total_bytes, i + 1)),
    )
}

/// The range a slot has downloaded: from its start, as many bytes as its
/// counter says (saturating), but never past its end.
pub open spec fn slot_covered_end(start: u64, end: u64, downloaded: u64) -> u64 {
    let covered_end: int = if start + downloaded > u64::MAX {
        u64::MAX as int
    } else {
        start + downloaded
    };
    if covered_end <= end {
        covered_end as u64
    } else {
        end
    }
}

/// The non-empty downloaded ranges of the first `n` slots, in slot order.
pub open spec fn slot_ranges(starts: Seq<u64>, ends: Seq<u64>, downloaded: Seq<u64>, n: int) -> Seq<
    (u64, u64),
>
    decreases n,
{
    if n <= 0 {
        Seq::empty()
    } else {
        let prev = slot_ranges(starts, ends, downloaded, n - 1);
        let start = starts[n - 1];
        let clamped_end = slot_covered_end(start, ends[n - 1], downloaded[n - 1]);
        if clamped_end > start {
            prev.push((start, clamped_end))
        } else {
            prev
        }
    }
}

pub proof fn lemma_cell_boundary_fits(total_bytes: u64, step: int)
    requires
        0 <= step <= HTTP_CHUNK_MAP_CELLS,
    ensures
        0 <= cell_boundary(total_bytes, step) <= total_bytes,
{
    assert(0 <= total_bytes as int * step <= total_bytes as int * 128) by (nonlinear_arith)
        requires
            0 <= step <= 128,
            total_bytes >= 0,
    ;
    assert((total_bytes as int * step) / 128 <= total_bytes) by (nonlinear_arith)
        requires
            0 <= total_bytes as int * step <= total_bytes as int * 128,
    ;
}

/// Cell boundaries never decrease as the step grows.
pub proof fn lemma_cell_boundary_monotone(total_bytes: u64, a: int, b: int)
    requires
        0 <= a <= b,
    ensures
        cell_boundary(total_bytes, a) <= cell_boundary(total_bytes, b),
{
    assert(total_bytes as int * a <= total_bytes as int * b) by (nonlinear_arith)
        requires
            0 <= a <= b,
            total_bytes >= 0,
    ;
    vstd::arithmetic::div_mod::lemma_div_is_ordered(
        total_bytes as int * a,
        total_bytes as int * b,
        128,
    );
}

/// Byte `p` counts as downloaded by the first `n` slots exactly when some
/// slot `i` among them has it at or past its start, before its start plus
/// its counter, and before its end.
pub proof fn lemma_slot_ranges_cover(starts: Seq<u64>, ends: Seq<u64>, downloaded: Seq<u64>, n: int, p: int)
    requires
        0 <= n <= starts.len(),
        n <= ends.len(),
        n <= downloaded.len(),
    ensures
        covers(slot_ranges(starts, ends, downloaded, n), p) == exists|i: int|
            0 <= i < n && starts[i] <= p && p < starts[i] + downloaded[i] && p < #[trigger] ends[i],
    decreases n,
{
    if n > 0 {
        lemma_slot_ranges_cover(starts, ends, downloaded, n - 1, p);
        let prev = slot_ranges(starts, ends, downloaded, n - 1);
        let cur = slot_ranges(starts, ends, downloaded, n);
        let k = n - 1;
        let here = starts[k] <= p && p < starts[k] + downloaded[k] && p < ends[k];
        let ce = slot_covered_end(starts[k], ends[k], downloaded[k]);
        if ce > starts[k] {
            let x = (starts[k], ce);
            assert(cur == prev.push(x));
            lemma_covers_push(prev, x, p);
            assert(in_range(x, p) == here);
        } else {
            assert(!here);
        }
        if exists|i: int| 0 <= i < n && starts[i] <= p && p < starts[i] + downloaded[i] && p < #[trigger] ends[i] {
            let i = choose|i: int| 0 <= i < n && starts[i] <= p && p < starts[i] + downloaded[i] && p < #[trigger] ends[i];
            if i < k {
                assert(exists|j: int| 0 <= j < n - 1 && starts[j] <= p && p < starts[j] + downloaded[j] && p < #[trigger] ends[j]);
            }
        }
    }
}

/// The cells tile the file: the first begins at byte 0, the last ends at
/// `total_bytes`, each begins where the one before ends, and every cell is
/// `total_bytes / HTTP_CHUNK_MAP_CELLS` bytes wide or one byte wider.
pub proof fn lemma_cells_tile_file(total_bytes: u64, i: int)
    requires
        0 <= i < HTTP_CHUNK_MAP_CELLS,
    ensures
        cell_boundary(total_bytes, 0) == 0,
        cell_boundary(total_bytes, HTTP_CHUNK_MAP_CELLS as int) == total_bytes,
        (total_bytes as int) / 128 <= cell_boundary(total_bytes, i + 1) - cell_boundary(total_bytes, i)
            <= (total_bytes as int) / 128 + 1,
{
    assert(total_bytes as int * 128 / 128 == total_bytes as int) by (nonlinear_arith);
    assert(total_bytes as int * (i + 1) == total_bytes as int * i + total_bytes) by (nonlinear_arith);
    assert(total_bytes as int * i >= 0) by (nonlinear_arith)
        requires
            i >= 0,
            total_bytes >= 0,
    ;
    lemma_floor_step(total_bytes as int * i, total_bytes as int, 128);
}

/// What a cell's state means: a cell is empty exactly when it has no width
/// or none of its bytes is covered, complete exactly when it has width and
/// every one of its bytes is covered, and partial otherwise.
pub proof fn lemma_cell_state_meaning(rs: Seq<(u64, u64)>, lo: int, hi: int)
    ensures
        (cell_state(rs, lo, hi) == ChunkMapCellState::Empty) == (hi <= lo || forall|p: int|
            lo <= p < hi ==> !covers(rs, p)),
        (cell_state(rs, lo, hi) == ChunkMapCellState::Complete) == (lo < hi && forall|p: int|
            lo <= p < hi ==> covers(rs, p)),
{
    if lo < hi {
        lemma_covered_count_zero(rs, lo, hi);
        lemma_covered_count_full(rs, lo, hi);
        lemma_covered_count_bound(rs, lo, hi);
        if forall|p: int| lo <= p < hi ==> covers(rs, p) {
            assert(covers(rs, lo));
        }
    }
}

/// With nothing downloaded, every cell is empty.
pub proof fn lemma_no_coverage_all_empty(total_bytes: u64)
    ensures
        forall|i: int| 0 <= i < HTTP_CHUNK_MAP_CELLS ==> #[trigger] expected_cells(total_bytes, Seq::empty())[i]
            == ChunkMapCellState::Empty,
{
    assert forall|i: int| 0 <= i < HTTP_CHUNK_MAP_CELLS implies #[trigger] expected_cells(
        total_bytes,
        Seq::empty(),
    )[i] == ChunkMapCellState::Empty by {
        let lo = cell_boundary(total_bytes, i);
        let hi = cell_boundary(total_bytes, i + 1);
        lemma_cell_state_meaning(Seq::empty(), lo, hi);
    }
}

/// With every byte of the file downloaded, every cell that has any width
/// is complete.
pub proof fn lemma_full_coverage_all_complete(total_bytes: u64, rs: Seq<(u64, u64)>)
    requires
        forall|p: int| 0 <= p < total_bytes ==> covers(rs, p),
    ensures
        forall|i: int|
            0 <= i < HTTP_CHUNK_MAP_CELLS && cell_boundary(total_bytes, i) < cell_boundary(total_bytes, i + 1)
                ==> #[trigger] expected_cells(total_bytes, rs)[i] == ChunkMapCellState::Complete,
{
    assert forall|i: int|
        0 <= i < HTTP_CHUNK_MAP_CELLS && cell_boundary(total_bytes, i) < cell_boundary(total_bytes, i + 1)
        implies #[trigger] expected_cells(total_bytes, rs)[i] == ChunkMapCellState::Complete by {
        let lo = cell_boundary(total_bytes, i);
        let hi = cell_boundary(total_bytes, i + 1);
        lemma_cell_boundary_fits(total_bytes, i);
        lemma_cell_boundary_fits(total_bytes, i + 1);
        lemma_cell_state_meaning(rs, lo, hi);
        assert forall|p: int| lo <= p < hi implies covers(rs, p) by {}
    }
}

/// Covering more bytes never makes a cell less downloaded: a complete cell
/// stays complete and a cell that was not empty stays not empty.
pub proof fn lemma_more_coverage_monotone(a: Seq<(u64, u64)>, b: Seq<(u64, u64)>, lo: int, hi: int)
    requires
        forall|p: int| covers(a, p) ==> covers(b, p),
    ensures
        cell_state(a, lo, hi) == ChunkMapCellState::Complete ==> cell_state(b, lo, hi)
            == ChunkMapCellState::Complete,
        cell_state(a, lo, hi) != ChunkMapCellState::Empty ==> cell_state(b, lo, hi)
            != ChunkMapCellState::Empty,
{
    lemma_cell_state_meaning(a, lo, hi);
    lemma_cell_state_meaning(b, lo, hi);
    if cell_state(a, lo, hi) != ChunkMapCellState::Empty {
        let p = choose|p: int| lo <= p < hi && covers(a, p);
        assert(covers(b, p));
    }
}

/// `floor(total_bytes * step / HTTP_CHUNK_MAP_CELLS)`, computed without
/// overflow and cut to 64 bits (which loses nothing for steps up to the cell
/// count).
pub fn scaled_boundary(total_bytes: u64, step: usize) -> (boundary: u64)
    ensures
        boundary == ((total_bytes as int * step as int) / (HTTP_CHUNK_MAP_CELLS as int)) as u64,
        step <= HTTP_CHUNK_MAP_CELLS ==> boundary == cell_boundary(total_bytes, step as int),
{
    assert(total_bytes as int * step as int <= u128::MAX) by (nonlinear_arith)
        requires
            total_bytes <= u64::MAX,
            step <= u64::MAX,
    ;
    let product: u128 = total_bytes as u128 * step as u128;
    let boundary = (product / HTTP_CHUNK_MAP_CELLS as u128) as u64;
    proof {
        if step <= HTTP_CHUNK_MAP_CELLS {
            lemma_cell_boundary_fits(total_bytes, step as int);
        }
    }
    boundary
}

/// Builds the chunk map of a file of `total_bytes` bytes of which the bytes
/// covered by `covered_ranges` have been downloaded. Overlapping ranges are
/// counted once.
pub fn snapshot_from_covered_ranges(total_bytes: u64, covered_ranges: Vec<(u64, u64)>) -> (snapshot:
    HttpChunkMapSnapshot)
    ensures
        snapshot.total_bytes == total_bytes,
        snapshot.cells@ == expected_cells(total_bytes, covered_ranges@),
{
    let ghost input = covered_ranges@;
    let merged = merge_ranges(covered_ranges);
    let mut cells: Vec<ChunkMapCellState> = Vec::with_capacity(HTTP_CHUNK_MAP_CELLS);
    let mut index: usize = 0;
    while index < HTTP_CHUNK_MAP_CELLS
        invariant
            index <= HTTP_CHUNK_MAP_CELLS,
            is_canonical(merged@),
            forall|p: int| covers(merged@, p) == covers(input, p),
            cells@.len() == index,
            forall|t: int|
                0 <= t < index ==> #[trigger] cells@[t] == cell_state(
                    input,
                    cell_boundary(total_bytes, t),
                    cell_boundary(total_bytes, t + 1),
                ),
        decreases HTTP_CHUNK_MAP_CELLS - index,
    {
        let cell_start = scaled_boundary(total_bytes, index);
        let cell_end = scaled_boundary(total_bytes, index + 1);

        if cell_end <= cell_start {
            cells.push(ChunkMapCellState::Empty);
        } else {
            proof {
                lemma_canonical_is_sorted_disjoint(merged@);
            }
            let covered = covered_len_in_range(merged.as_slice(), cell_start, cell_end);
            proof {
                lemma_covered_count_ext(merged@, input, cell_start as int, cell_end as int);
            }
            let cell_width = cell_end - cell_start;
            let state = if covered == 0 {
                ChunkMapCellState::Empty
            } else if covered >= cell_width {
                ChunkMapCellState::Complete
            } else {
                ChunkMapCellState::Partial
            };
            cells.push(state);
        }
        index += 1;
    }
    assert(cells@ =~= expected_cells(total_bytes, input));
    HttpChunkMapSnapshot { total_bytes, cells }
}

/// Builds the chunk map from the executor's per-slot arrays. Only the first
/// `populated_slots` slots are read (never more than any array holds); slot
/// `i` has downloaded `[starts[i], min(starts[i] + downloaded[i], ends[i]))`.
pub fn snapshot_from_slot_arrays(
    total_bytes: u64,
    starts: &[u64],
    ends: &[u64],
    downloaded: &[u64],
    populated_slots: usize,
) -> (snapshot: HttpChunkMapSnapshot)
    ensures
        snapshot.total_bytes == total_bytes,
        snapshot.cells@ == expected_cells(
            total_bytes,
            slot_ranges(
                starts@,
                ends@,
                downloaded@,
                populated_count(populated_slots, starts@.len(), ends@.len(), downloaded@.len()),
            ),
        ),
{
    let mut populated = populated_slots;
    if starts.len() < populated {
        populated = starts.len();
    }
    if ends.len() < populated {
        populated = ends.len();
    }
    if downloaded.len() < populated {
        populated = downloaded.len();
    }
    let mut covered_ranges: Vec<(u64, u64)> = Vec::new();
    let mut index: usize = 0;
    while index < populated
        invariant
            index <= populated,
            populated <= starts@.len(),
            populated <= ends@.len(),
            populated <= downloaded@.len(),
            covered_ranges@ == slot_ranges(starts@, ends@, downloaded@, index as int),
        decreases populated - index,
    {
        let start = starts[index];
        let end = ends[index];
        let covered_end = start.saturating_add(downloaded[index]);
        let clamped_end = if covered_end <= end {
            covered_end
        } else {
            end
        };
        if clamped_end > start {
            covered_ranges.push((start, clamped_end));
        }
        index += 1;
    }
    snapshot_from_covered_ranges(total_bytes, covered_ranges)
}

/// How many slots a snapshot reads: the populated count, cut to the length
/// of the shortest array.
pub open spec fn populated_count(populated_slots: usize, a: nat, b: nat, c: nat) -> int {
    let m1: int = if a < populated_slots { a as int } else { populated_slots as int };
    let m2: int = if b < m1 { b as int } else { m1 };
    if c < m2 { c as int } else { m2 }
}

/// A snapshot reads no more slots than are populated or than any array
/// holds, and no fewer than the smallest of these.
pub proof fn lemma_populated_count_is_least(populated_slots: usize, a: nat, b: nat, c: nat)
    ensures
        populated_count(populated_slots, a, b, c) <= populated_slots,
        populated_count(populated_slots, a, b, c) <= a,
        populated_count(populated_slots, a, b, c) <= b,
        populated_count(populated_slots, a, b, c) <= c,
        populated_count(populated_slots, a, b, c) == populated_slots || populated_count(populated_slots, a, b, c) == a
            || populated_count(populated_slots, a, b, c) == b || populated_count(populated_slots, a, b, c) == c,
{
}

/// Whether a new snapshot differs from the last one reported (and so must
/// be reported).
pub fn snapshot_changed(last: &Option<HttpChunkMapSnapshot>, snapshot: &HttpChunkMapSnapshot) -> (changed: bool)
    ensures
        changed == !(last matches Some(prev) && prev.total_bytes == snapshot.total_bytes
            && prev.cells@ == snapshot.cells@),
{
    match last {
        None => true,
        Some(prev) => {
            if prev.total_bytes != snapshot.total_bytes {
                return true;
            }
            if prev.cells.len() != snapshot.cells.len() {
                return true;
            }
            let n = prev.cells.len();
            let mut i: usize = 0;
            while i < n
                invariant
                    i <= n,
                    n == prev.cells@.len(),
                    n == snapshot.cells@.len(),
                    *last == Some(*prev),
                    prev.total_bytes == snapshot.total_bytes,
                    forall|t: int| 0 <= t < i ==> prev.cells@[t] == snapshot.cells@[t],
                decreases n - i,
            {
                if prev.cells[i] != snapshot.cells[i] {
                    assert(prev.cells@[i as int] != snapshot.cells@[i as int]);
                    return true;
                }
                i += 1;
            }
            assert(prev.cells@ =~= snapshot.cells@);
            false
        }
    }
}

} // verus!
