//! Work stealing: when a worker is idle and nothing is queued, the active
//! chunk with the most remaining bytes is split and its back half becomes a
//! new chunk in the next free slot.

use vstd::prelude::*;
use std::collections::VecDeque;
use crate::ranges::{covers, in_range};
use crate::chunk_map::{slot_covered_end, slot_ranges};
use crate::plan::slots_reach;

verus! {

/// Split points are aligned to this many bytes.
pub const STEAL_ALIGN: u64 = 4096;

/// Where the stealable part of slot `i` begins: `safe_zone` bytes past the
/// slot's current position, but not past its end.
pub open spec fn stealable_start(starts: Seq<u64>, ends: Seq<u64>, downloaded: Seq<u64>, safe_zone: u64, i: int) -> int {
    let ahead = starts[i] + downloaded[i] + safe_zone;
    if ahead <= ends[i] { ahead } else { ends[i] as int }
}

/// How many bytes of slot `i` may be stolen.
pub open spec fn stealable(starts: Seq<u64>, ends: Seq<u64>, downloaded: Seq<u64>, safe_zone: u64, i: int) -> int {
    ends[i] - stealable_start(starts, ends, downloaded, safe_zone, i)
}

/// Slot `i` has at least twice the minimum stealable bytes.
pub open spec fn steal_eligible(
    starts: Seq<u64>,
    ends: Seq<u64>,
    downloaded: Seq<u64>,
    safe_zone: u64,
    min_steal_bytes: u64,
    i: int,
) -> bool {
    stealable(starts, ends, downloaded, safe_zone, i) >= 2 * min_steal_bytes
}

/// Position in `active` (among its first `n` entries) of the victim: an
/// eligible slot with the most stealable bytes, the last such one on ties.
pub open spec fn victim_position(
    starts: Seq<u64>,
    ends: Seq<u64>,
    downloaded: Seq<u64>,
    active: Seq<usize>,
    safe_zone: u64,
    min_steal_bytes: u64,
    n: int,
) -> Option<int>
    decreases n,
{
    if n <= 0 {
        None
    } else {
        let best = victim_position(starts, ends, downloaded, active, safe_zone, min_steal_bytes, n - 1);
        let i = active[n - 1] as int;
        if steal_eligible(starts, ends, downloaded, safe_zone, min_steal_bytes, i) && (best is None
            || stealable(starts, ends, downloaded, safe_zone, i) >= stealable(
            starts,
            ends,
            downloaded,
            safe_zone,
            active[best->0] as int,
        )) {
            Some(n - 1)
        } else {
            best
        }
    }
}

/// `x` rounded up to a multiple of `STEAL_ALIGN`.
pub open spec fn align_up(x: int) -> int {
    (x + STEAL_ALIGN - 1) / (STEAL_ALIGN as int) * (STEAL_ALIGN as int)
}

/// The split point proposed for victim slot `v`: the middle of its stealable
/// part, rounded up to the alignment.
pub open spec fn split_point(starts: Seq<u64>, ends: Seq<u64>, downloaded: Seq<u64>, safe_zone: u64, v: int) -> int {
    let from = stealable_start(starts, ends, downloaded, safe_zone, v);
    align_up(from + stealable(starts, ends, downloaded, safe_zone, v) / 2)
}

/// The steal that is made, if any: the victim slot, the split point and the
/// new slot. None when no slot is eligible, when the aligned split leaves
/// the back half shorter than `min_steal_bytes`, or when no slot is free.
pub open spec fn planned_steal(
    starts: Seq<u64>,
    ends: Seq<u64>,
    downloaded: Seq<u64>,
    active: Seq<usize>,
    next_slot: usize,
    safe_zone: u64,
    min_steal_bytes: u64,
) -> Option<(int, int, int)> {
    match victim_position(starts, ends, downloaded, active, safe_zone, min_steal_bytes, active.len() as int) {
        None => None,
        Some(pos) => {
            let v = active[pos] as int;
            let mid = split_point(starts, ends, downloaded, safe_zone, v);
            if mid >= ends[v] || ends[v] - mid < min_steal_bytes {
                None
            } else if next_slot >= starts.len() {
                None
            } else {
                Some((v, mid, next_slot as int))
            }
        },
    }
}

/// The search for a victim stays within 64 bits: each active slot's
/// position plus the safe zone fits, and so does twice the minimum.
pub open spec fn steal_scan_fits(
    starts: Seq<u64>,
    downloaded: Seq<u64>,
    active: Seq<usize>,
    safe_zone: u64,
    min_steal_bytes: u64,
) -> bool {
    &&& active.len() > 0 ==> 2 * min_steal_bytes <= u64::MAX
    &&& forall|k: int| #![trigger active[k]] 0 <= k < active.len() ==>
        starts[active[k] as int] + downloaded[active[k] as int] + safe_zone <= u64::MAX
}

/// No arithmetic in a steal attempt leaves 64 bits: the search fits, and
/// rounding the victim's midpoint up to the alignment fits.
pub open spec fn steal_arithmetic_fits(
    starts: Seq<u64>,
    ends: Seq<u64>,
    downloaded: Seq<u64>,
    active: Seq<usize>,
    safe_zone: u64,
    min_steal_bytes: u64,
) -> bool {
    &&& steal_scan_fits(starts, downloaded, active, safe_zone, min_steal_bytes)
    &&& victim_position(starts, ends, downloaded, active, safe_zone, min_steal_bytes, active.len() as int)
        matches Some(pos) ==> {
            let v = active[pos] as int;
            stealable_start(starts, ends, downloaded, safe_zone, v) + stealable(starts, ends, downloaded, safe_zone, v) / 2
                + STEAL_ALIGN - 1 <= u64::MAX
        }
}

proof fn lemma_victim_position_bounds(
    starts: Seq<u64>,
    ends: Seq<u64>,
    downloaded: Seq<u64>,
    active: Seq<usize>,
    safe_zone: u64,
    min_steal_bytes: u64,
    n: int,
)
    requires
        0 <= n <= active.len(),
    ensures
        victim_position(starts, ends, downloaded, active, safe_zone, min_steal_bytes, n) matches Some(
            pos,
        ) ==> 0 <= pos < n && steal_eligible(
            starts,
            ends,
            downloaded,
            safe_zone,
            min_steal_bytes,
            active[pos] as int,
        ),
    decreases n,
{
    if n > 0 {
        lemma_victim_position_bounds(starts, ends, downloaded, active, safe_zone, min_steal_bytes, n - 1);
    }
}

/// `best` describes the victim that `victim_position` picks: its slot,
/// where its stealable part begins, how long that part is, and its end.
pub open spec fn victim_found(
    starts: Seq<u64>,
    ends: Seq<u64>,
    downloaded: Seq<u64>,
    active: Seq<usize>,
    safe_zone: u64,
    min_steal_bytes: u64,
    best: Option<(usize, u64, u64, u64)>,
) -> bool {
    match best {
        None => victim_position(starts, ends, downloaded, active, safe_zone, min_steal_bytes, active.len() as int) is None,
        Some((i, from, amount, end)) => victim_position(starts, ends, downloaded, active, safe_zone, min_steal_bytes, active.len() as int)
            matches Some(pos) && 0 <= pos < active.len() && i == active[pos]
            && from == stealable_start(starts, ends, downloaded, safe_zone, i as int)
            && amount == stealable(starts, ends, downloaded, safe_zone, i as int)
            && end == ends[i as int],
    }
}

/// The victim of a steal: the active slot chosen by `victim_position`, with
/// where its stealable part begins, how long it is, and the slot's end.
fn find_victim(
    starts: &Vec<u64>,
    ends: &Vec<u64>,
    downloaded: &[u64],
    active: &[usize],
    safe_zone: u64,
    min_steal_bytes: u64,
) -> (best: Option<(usize, u64, u64, u64)>)
    requires
        forall|q: int| #![trigger active@[q]] 0 <= q < active@.len() ==> (active@[q] as int) < starts@.len()
            && (active@[q] as int) < ends@.len() && (active@[q] as int) < downloaded@.len(),
        steal_scan_fits(starts@, downloaded@, active@, safe_zone, min_steal_bytes),
    ensures
        victim_found(starts@, ends@, downloaded@, active@, safe_zone, min_steal_bytes, best),
{
    let ghost s0 = starts@;
    let ghost e0 = ends@;
    // Find the active slot with the most stealable bytes.
    let mut best: Option<(usize, u64, u64, u64)> = None;
    let mut best_pos: Ghost<Option<int>> = Ghost(None);
    let n = active.len();
    let mut k: usize = 0;
    while k < n
        invariant
            k <= n,
            n == active@.len(),
            starts@ == s0,
            ends@ == e0,
            forall|q: int| #![trigger active@[q]] 0 <= q < active@.len() ==> (active@[q] as int) < s0.len()
                && (active@[q] as int) < e0.len() && (active@[q] as int) < downloaded@.len(),
            steal_scan_fits(s0, downloaded@, active@, safe_zone, min_steal_bytes),
            best_pos@ == victim_position(s0, e0, downloaded@, active@, safe_zone, min_steal_bytes, k as int),
            match best {
                None => (best_pos@ is None),
                Some((i, from, amount, end)) => best_pos@ matches Some(pos) && 0 <= pos < k && i == active@[pos]
                    && from == stealable_start(s0, e0, downloaded@, safe_zone, i as int)
                    && amount == stealable(s0, e0, downloaded@, safe_zone, i as int)
                    && end == e0[i as int],
            },
        decreases n - k,
    {
        let i = active[k];
        let start = starts[i];
        let end = ends[i];
        let dl = downloaded[i];
        let current = start + dl;
        let ahead = current + safe_zone;
        let from = if ahead <= end {
            ahead
        } else {
            end
        };
        let amount = end - from;
        if amount >= 2 * min_steal_bytes {
            let replace = match best {
                None => true,
                Some((_, _, best_amount, _)) => amount >= best_amount,
            };
            if replace {
                best = Some((i, from, amount, end));
                proof {
                    best_pos@ = Some(k as int);
                }
            }
        }
        k += 1;
    }
    proof {
        assert(active@.len() == n);
        lemma_victim_position_bounds(s0, e0, downloaded@, active@, safe_zone, min_steal_bytes, n as int);
    }
    best
}

/// Whether a steal attempt on these slots stays within 64 bits (what
/// `try_steal` requires); a caller tests this before stealing.
pub fn steal_arithmetic_check(
    starts: &Vec<u64>,
    ends: &Vec<u64>,
    downloaded: &[u64],
    active: &[usize],
    safe_zone: u64,
    min_steal_bytes: u64,
) -> (ok: bool)
    requires
        forall|q: int| #![trigger active@[q]] 0 <= q < active@.len() ==> (active@[q] as int) < starts@.len()
            && (active@[q] as int) < ends@.len() && (active@[q] as int) < downloaded@.len(),
    ensures
        ok == steal_arithmetic_fits(starts@, ends@, downloaded@, active@, safe_zone, min_steal_bytes),
{
    let n = active.len();
    if n > 0 && min_steal_bytes > u64::MAX / 2 {
        return false;
    }
    let mut k: usize = 0;
    while k < n
        invariant
            k <= n,
            n == active@.len(),
            forall|q: int| #![trigger active@[q]] 0 <= q < active@.len() ==> (active@[q] as int) < starts@.len()
                && (active@[q] as int) < downloaded@.len(),
            forall|q: int| #![trigger active@[q]] 0 <= q < k ==>
                starts@[active@[q] as int] + downloaded@[active@[q] as int] + safe_zone <= u64::MAX,
        decreases n - k,
    {
        let i = active[k];
        if starts[i] > u64::MAX - downloaded[i] || starts[i] + downloaded[i] > u64::MAX - safe_zone {
            assert(active@[k as int] == i);
            return false;
        }
        k += 1;
    }
    match find_victim(starts, ends, downloaded, active, safe_zone, min_steal_bytes) {
        None => true,
        Some((_, from, amount, _)) => from <= u64::MAX - (STEAL_ALIGN - 1) - amount / 2,
    }
}

/// Bytes of slot `i`'s range that lie past its current position plus the
/// safe zone.
pub open spec fn bytes_past_safe_zone(starts: Seq<u64>, ends: Seq<u64>, downloaded: Seq<u64>, safe_zone: u64, i: int) -> int {
    let ahead = starts[i] + downloaded[i] + safe_zone;
    if ahead >= ends[i] { 0 } else { ends[i] - ahead }
}

proof fn lemma_victim_position_is_max(
    starts: Seq<u64>,
    ends: Seq<u64>,
    downloaded: Seq<u64>,
    active: Seq<usize>,
    safe_zone: u64,
    min_steal_bytes: u64,
    n: int,
)
    requires
        0 <= n <= active.len(),
    ensures
        match victim_position(starts, ends, downloaded, active, safe_zone, min_steal_bytes, n) {
            None => forall|k: int| 0 <= k < n ==> bytes_past_safe_zone(starts, ends, downloaded, safe_zone, #[trigger] active[k] as int) < 2 * min_steal_bytes,
            Some(pos) => {
                &&& 0 <= pos < n
                &&& bytes_past_safe_zone(starts, ends, downloaded, safe_zone, active[pos] as int) >= 2 * min_steal_bytes
                &&& forall|k: int| 0 <= k < n && bytes_past_safe_zone(starts, ends, downloaded, safe_zone, #[trigger] active[k] as int) >= 2 * min_steal_bytes
                    ==> bytes_past_safe_zone(starts, ends, downloaded, safe_zone, active[k] as int)
                        <= bytes_past_safe_zone(starts, ends, downloaded, safe_zone, active[pos] as int)
            },
        },
    decreases n,
{
    if n > 0 {
        lemma_victim_position_is_max(starts, ends, downloaded, active, safe_zone, min_steal_bytes, n - 1);
    }
}

/// The chunk a steal splits is the one with the most stealable bytes: the
/// victim is an active slot with at least twice the minimum past its
/// position and safe zone, and no other active slot with that much has
/// more. When no active slot has twice the minimum, nothing is stolen.
pub proof fn lemma_steal_takes_most_stealable(
    starts: Seq<u64>,
    ends: Seq<u64>,
    downloaded: Seq<u64>,
    active: Seq<usize>,
    next_slot: usize,
    safe_zone: u64,
    min_steal_bytes: u64,
)
    ensures
        planned_steal(starts, ends, downloaded, active, next_slot, safe_zone, min_steal_bytes) matches Some((v, mid, slot)) ==> {
            &&& exists|pos: int| 0 <= pos < active.len() && active[pos] as int == v
            &&& bytes_past_safe_zone(starts, ends, downloaded, safe_zone, v) >= 2 * min_steal_bytes
            &&& forall|k: int| 0 <= k < active.len() && bytes_past_safe_zone(starts, ends, downloaded, safe_zone, #[trigger] active[k] as int) >= 2 * min_steal_bytes
                ==> bytes_past_safe_zone(starts, ends, downloaded, safe_zone, active[k] as int)
                    <= bytes_past_safe_zone(starts, ends, downloaded, safe_zone, v)
        },
        (forall|k: int| 0 <= k < active.len() ==> bytes_past_safe_zone(starts, ends, downloaded, safe_zone, #[trigger] active[k] as int) < 2 * min_steal_bytes)
            ==> planned_steal(starts, ends, downloaded, active, next_slot, safe_zone, min_steal_bytes) is None,
{
    lemma_victim_position_is_max(starts, ends, downloaded, active, safe_zone, min_steal_bytes, active.len() as int);
    match victim_position(starts, ends, downloaded, active, safe_zone, min_steal_bytes, active.len() as int) {
        None => {},
        Some(pos) => {
            if forall|k: int| 0 <= k < active.len() ==> bytes_past_safe_zone(starts, ends, downloaded, safe_zone, #[trigger] active[k] as int) < 2 * min_steal_bytes {
                assert(bytes_past_safe_zone(starts, ends, downloaded, safe_zone, active[pos] as int) < 2 * min_steal_bytes);
            }
        },
    }
}

/// Where a steal splits: at a multiple of `STEAL_ALIGN`, the first one at
/// or past the middle of the bytes that lie beyond the victim's position
/// plus the safe zone; the victim keeps its start, the new slot runs from
/// the split point to the victim's old end, and that new slot is not empty.
pub proof fn lemma_steal_splits_at_aligned_middle(
    starts: Seq<u64>,
    ends: Seq<u64>,
    downloaded: Seq<u64>,
    active: Seq<usize>,
    next_slot: usize,
    safe_zone: u64,
    min_steal_bytes: u64,
)
    ensures
        planned_steal(starts, ends, downloaded, active, next_slot, safe_zone, min_steal_bytes) matches Some((v, mid, slot)) ==> {
            let ahead: int = starts[v] + downloaded[v] + safe_zone;
            let middle: int = ahead + bytes_past_safe_zone(starts, ends, downloaded, safe_zone, v) / 2;
            &&& mid % 4096 == 0
            &&& middle <= mid < middle + 4096
            &&& starts[v] <= mid < ends[v]
            &&& ends[v] - mid >= min_steal_bytes
            &&& slot == next_slot && next_slot < starts.len()
        },
{
    lemma_victim_position_bounds(starts, ends, downloaded, active, safe_zone, min_steal_bytes, active.len() as int);
    match planned_steal(starts, ends, downloaded, active, next_slot, safe_zone, min_steal_bytes) {
        None => {},
        Some((v, mid, slot)) => {
            let from = stealable_start(starts, ends, downloaded, safe_zone, v);
            let amount = stealable(starts, ends, downloaded, safe_zone, v);
            let x = from + amount / 2;
            assert(amount >= 0);
            assert(x >= 0);
            assert(mid == (x + 4095) / 4096 * 4096);
            assert((x + 4095) / 4096 * 4096 >= x && (x + 4095) / 4096 * 4096 < x + 4096 && ((x + 4095) / 4096 * 4096) % 4096 == 0) by (nonlinear_arith)
                requires
                    x >= 0,
            ;
            if starts[v] + downloaded[v] + safe_zone > ends[v] {
                assert(from == ends[v]);
                assert(mid >= ends[v]);
            }
            assert(amount == bytes_past_safe_zone(starts, ends, downloaded, safe_zone, v));
        },
    }
}

/// A steal is made whenever there is room for one: when a free slot is
/// left and some active slot has at least twice the minimum plus twice the
/// alignment past its position and safe zone (so that rounding the split
/// point up cannot leave the stolen half short).
pub proof fn lemma_steal_made_when_room(
    starts: Seq<u64>,
    ends: Seq<u64>,
    downloaded: Seq<u64>,
    active: Seq<usize>,
    next_slot: usize,
    safe_zone: u64,
    min_steal_bytes: u64,
    k: int,
)
    requires
        0 <= k < active.len(),
        next_slot < starts.len(),
        bytes_past_safe_zone(starts, ends, downloaded, safe_zone, active[k] as int) >= 2 * min_steal_bytes + 2 * STEAL_ALIGN,
    ensures
        planned_steal(starts, ends, downloaded, active, next_slot, safe_zone, min_steal_bytes) is Some,
{
    lemma_victim_position_is_max(starts, ends, downloaded, active, safe_zone, min_steal_bytes, active.len() as int);
    let pos = victim_position(starts, ends, downloaded, active, safe_zone, min_steal_bytes, active.len() as int)->0;
    let v = active[pos] as int;
    let from = stealable_start(starts, ends, downloaded, safe_zone, v);
    let amount = stealable(starts, ends, downloaded, safe_zone, v);
    assert(amount == bytes_past_safe_zone(starts, ends, downloaded, safe_zone, v));
    assert(amount >= 2 * min_steal_bytes + 2 * STEAL_ALIGN);
    let x = from + amount / 2;
    assert(x >= 0);
    assert((x + 4095) / 4096 * 4096 < x + 4096) by (nonlinear_arith)
        requires
            x >= 0,
    ;
    assert(from + amount == ends[v]);
}

/// Splits the active chunk with the most stealable bytes. The part of the
/// victim that lies within `safe_zone` bytes of its current position (bytes
/// it may hold in its write buffer) is never stolen; the split point is the
/// middle of the rest, rounded up to `STEAL_ALIGN`; each half must keep at
/// least `min_steal_bytes`. On success the victim's end becomes the split
/// point, the next free slot gets `[split point, old end)`, the slot counter
/// advances and the new slot is queued at the front of `pending`.
pub fn try_steal(
    starts: &mut Vec<u64>,
    ends: &mut Vec<u64>,
    downloaded: &[u64],
    active: &[usize],
    next_slot: &mut usize,
    pending: &mut VecDeque<usize>,
    safe_zone: u64,
    min_steal_bytes: u64,
)
    requires
        old(ends)@.len() >= old(starts)@.len(),
        forall|k: int| #![trigger active@[k]] 0 <= k < active@.len() ==> (active@[k] as int) < old(starts)@.len()
            && (active@[k] as int) < downloaded@.len(),
        steal_arithmetic_fits(old(starts)@, old(ends)@, downloaded@, active@, safe_zone, min_steal_bytes),
    ensures
        match planned_steal(old(starts)@, old(ends)@, downloaded@, active@, *old(next_slot), safe_zone, min_steal_bytes) {
            None => {
                &&& final(starts)@ == old(starts)@
                &&& final(ends)@ == old(ends)@
                &&& *final(next_slot) == *old(next_slot)
                &&& final(pending)@ == old(pending)@
            },
            Some((v, mid, slot)) => {
                &&& final(ends)@ == old(ends)@.update(v, mid as u64).update(slot, old(ends)@[v])
                &&& final(starts)@ == old(starts)@.update(slot, mid as u64)
                &&& *final(next_slot) == *old(next_slot) + 1
                &&& final(pending)@ == seq![slot as usize] + old(pending)@
            },
        },
{
    let ghost s0 = starts@;
    let ghost e0 = ends@;
    let ghost n0 = *next_slot;
    let ghost p0 = pending@;

    proof {
        lemma_victim_position_bounds(s0, e0, downloaded@, active@, safe_zone, min_steal_bytes, active@.len() as int);
    }
    let (victim_i, from, amount, victim_end) = match find_victim(starts, ends, downloaded, active, safe_zone, min_steal_bytes) {
        Some(v) => v,
        None => return,
    };

    // Steal the back half, aligned up to STEAL_ALIGN.
    let raw_midpoint = from + amount / 2;
    let rounded = raw_midpoint + (STEAL_ALIGN - 1);
    assert(rounded / 4096 * 4096 <= rounded) by (nonlinear_arith)
        requires
            rounded >= 0,
    ;
    let midpoint = rounded / STEAL_ALIGN * STEAL_ALIGN;
    if midpoint >= victim_end || victim_end - midpoint < min_steal_bytes {
        return;
    }

    let slot = *next_slot;
    if slot >= starts.len() {
        // The pre-allocated slots are used up.
        return;
    }
    *next_slot = slot + 1;

    // Shrink the victim, then initialise the new slot.
    ends.set(victim_i, midpoint);
    starts.set(slot, midpoint);
    ends.set(slot, victim_end);
    pending.push_front(slot);
}

/// The union of the ranges `[starts[i], ends[i])` of the first `n` slots.
pub open spec fn slot_segments(starts: Seq<u64>, ends: Seq<u64>, n: int) -> Seq<(u64, u64)> {
    Seq::new(n as nat, |i: int| (starts[i], ends[i]))
}

/// A steal neither loses nor duplicates work: the bytes assigned to the
/// populated slots are the same before and after, and the victim and the
/// new slot do not overlap. It never takes bytes the victim has fetched or
/// may still hold in its buffer (its position plus the safe zone), and both
/// the stolen half and the part of the stealable range the victim keeps
/// hold at least `min_steal_bytes`.
pub proof fn lemma_steal_preserves_assigned_bytes(
    starts: Seq<u64>,
    ends: Seq<u64>,
    downloaded: Seq<u64>,
    active: Seq<usize>,
    next_slot: usize,
    safe_zone: u64,
    min_steal_bytes: u64,
)
    requires
        ends.len() >= starts.len(),
        forall|k: int| #![trigger active[k]] 0 <= k < active.len() ==> (active[k] as int) < next_slot
            && (active[k] as int) < downloaded.len(),
        next_slot <= starts.len(),
        steal_arithmetic_fits(starts, ends, downloaded, active, safe_zone, min_steal_bytes),
    ensures
        planned_steal(starts, ends, downloaded, active, next_slot, safe_zone, min_steal_bytes) matches Some(
            (v, mid, slot),
        ) ==> {
            let new_ends = ends.update(v, mid as u64).update(slot, ends[v]);
            let new_starts = starts.update(slot, mid as u64);
            &&& slot == next_slot
            &&& mid >= starts[v] + downloaded[v] + safe_zone
            &&& ends[v] - mid >= min_steal_bytes
            &&& mid - stealable_start(starts, ends, downloaded, safe_zone, v) >= min_steal_bytes
            &&& forall|p: int| covers(slot_segments(starts, ends, next_slot as int), p) == covers(
                slot_segments(new_starts, new_ends, next_slot + 1),
                p,
            )
            &&& !(exists|p: int| in_range((new_starts[v], new_ends[v]), p) && in_range(
                (new_starts[slot], new_ends[slot]),
                p,
            ))
        },
{
    lemma_victim_position_bounds(starts, ends, downloaded, active, safe_zone, min_steal_bytes, active.len() as int);
    match planned_steal(starts, ends, downloaded, active, next_slot, safe_zone, min_steal_bytes) {
        None => {},
        Some((v, mid, slot)) => {
            let pos = victim_position(starts, ends, downloaded, active, safe_zone, min_steal_bytes, active.len() as int)->0;
            assert(active[pos] as int == v);
            assert(v < next_slot);
            let new_ends = ends.update(v, mid as u64).update(slot, ends[v]);
            let new_starts = starts.update(slot, mid as u64);
            let before = slot_segments(starts, ends, next_slot as int);
            let after = slot_segments(new_starts, new_ends, next_slot + 1);
            let from = stealable_start(starts, ends, downloaded, safe_zone, v);
            let amount = stealable(starts, ends, downloaded, safe_zone, v);
            assert(starts[v] <= from);
            assert(from + amount / 2 <= mid) by {
                let x = from + amount / 2;
                assert(x >= 0);
                assert((x + 4095) / 4096 * 4096 >= x) by (nonlinear_arith)
                    requires
                        x >= 0,
                ;
            }
            assert(starts[v] <= mid < ends[v]);
            assert(after[v] == (starts[v], mid as u64));
            assert(after[slot] == (mid as u64, ends[v]));
            assert forall|p: int| covers(before, p) == covers(after, p) by {
                if covers(before, p) {
                    let i = choose|i: int| 0 <= i < before.len() && #[trigger] in_range(before[i], p);
                    if i == v {
                        if p < mid {
                            assert(in_range(after[v], p));
                        } else {
                            assert(in_range(after[slot], p));
                        }
                    } else {
                        assert(after[i] == before[i]);
                        assert(in_range(after[i], p));
                    }
                }
                if covers(after, p) {
                    let i = choose|i: int| 0 <= i < after.len() && #[trigger] in_range(after[i], p);
                    if i == v || i == slot {
                        assert(in_range(before[v], p));
                    } else {
                        assert(after[i] == before[i]);
                        assert(in_range(before[i], p));
                    }
                }
            }
        },
    }
}

proof fn lemma_slot_ranges_agree(
    s1: Seq<u64>,
    e1: Seq<u64>,
    s2: Seq<u64>,
    e2: Seq<u64>,
    downloaded: Seq<u64>,
    k: int,
)
    requires
        forall|i: int| 0 <= i < k ==> #[trigger] s1[i] == s2[i] && slot_covered_end(s1[i], e1[i], downloaded[i])
            == slot_covered_end(s2[i], e2[i], downloaded[i]),
    ensures
        slot_ranges(s1, e1, downloaded, k) == slot_ranges(s2, e2, downloaded, k),
    decreases k,
{
    if k > 0 {
        lemma_slot_ranges_agree(s1, e1, s2, e2, downloaded, k - 1);
        assert(s1[k - 1] == s2[k - 1]);
    }
}

/// A steal does not change the chunk map: the victim keeps every byte it
/// has downloaded, and the new slot (whose counter starts at zero) has
/// downloaded nothing yet, so the downloaded ranges of the populated slots
/// are the same before and after.
pub proof fn lemma_steal_keeps_downloaded_ranges(
    starts: Seq<u64>,
    ends: Seq<u64>,
    downloaded: Seq<u64>,
    active: Seq<usize>,
    next_slot: usize,
    safe_zone: u64,
    min_steal_bytes: u64,
)
    requires
        ends.len() >= starts.len(),
        downloaded.len() >= starts.len(),
        forall|k: int| #![trigger active[k]] 0 <= k < active.len() ==> (active[k] as int) < next_slot,
        next_slot <= starts.len(),
        steal_arithmetic_fits(starts, ends, downloaded, active, safe_zone, min_steal_bytes),
        next_slot < starts.len() ==> downloaded[next_slot as int] == 0,
    ensures
        planned_steal(starts, ends, downloaded, active, next_slot, safe_zone, min_steal_bytes) matches Some(
            (v, mid, slot),
        ) ==> slot_ranges(
            starts.update(slot, mid as u64),
            ends.update(v, mid as u64).update(slot, ends[v]),
            downloaded,
            next_slot + 1,
        ) == slot_ranges(starts, ends, downloaded, next_slot as int),
{
    lemma_steal_preserves_assigned_bytes(starts, ends, downloaded, active, next_slot, safe_zone, min_steal_bytes);
    match planned_steal(starts, ends, downloaded, active, next_slot, safe_zone, min_steal_bytes) {
        None => {},
        Some((v, mid, slot)) => {
            lemma_victim_position_bounds(starts, ends, downloaded, active, safe_zone, min_steal_bytes, active.len() as int);
            let pos = victim_position(starts, ends, downloaded, active, safe_zone, min_steal_bytes, active.len() as int)->0;
            assert(active[pos] as int == v);
            assert(0 <= v < next_slot);
            assert(slot == next_slot);
            assert(downloaded[slot] == 0);
            assert(starts[v] + downloaded[v] + safe_zone <= u64::MAX);
            let new_starts = starts.update(slot, mid as u64);
            let new_ends = ends.update(v, mid as u64).update(slot, ends[v]);
            assert forall|i: int| 0 <= i < next_slot implies #[trigger] new_starts[i] == starts[i]
                && slot_covered_end(new_starts[i], new_ends[i], downloaded[i]) == slot_covered_end(
                starts[i],
                ends[i],
                downloaded[i],
            ) by {
                if i == v {
                    assert(new_ends[i] == mid as u64);
                }
            }
            lemma_slot_ranges_agree(new_starts, new_ends, starts, ends, downloaded, next_slot as int);
            assert(new_starts[slot] == mid as u64);
            assert(slot_covered_end(new_starts[slot], new_ends[slot], downloaded[slot]) == mid as u64);
        },
    }
}

/// A steal keeps the slots reaching the file's size: the victim's end only
/// shrinks, and the new slot takes over the victim's old end, so the slot
/// holding the file's last byte is still among the populated ones. Hence
/// a pause after any number of steals saves slots whose largest end is the
/// file's size.
pub proof fn lemma_steal_keeps_size_reached(
    starts: Seq<u64>,
    ends: Seq<u64>,
    downloaded: Seq<u64>,
    active: Seq<usize>,
    next_slot: usize,
    safe_zone: u64,
    min_steal_bytes: u64,
    size: u64,
)
    requires
        ends.len() >= starts.len(),
        forall|k: int| #![trigger active[k]] 0 <= k < active.len() ==> (active[k] as int) < next_slot
            && (active[k] as int) < downloaded.len(),
        next_slot <= starts.len(),
        steal_arithmetic_fits(starts, ends, downloaded, active, safe_zone, min_steal_bytes),
        slots_reach(ends, next_slot as int, size),
    ensures
        planned_steal(starts, ends, downloaded, active, next_slot, safe_zone, min_steal_bytes) matches Some(
            (v, mid, slot),
        ) ==> slots_reach(ends.update(v, mid as u64).update(slot, ends[v]), next_slot + 1, size),
{
    lemma_steal_preserves_assigned_bytes(starts, ends, downloaded, active, next_slot, safe_zone, min_steal_bytes);
    match planned_steal(starts, ends, downloaded, active, next_slot, safe_zone, min_steal_bytes) {
        None => {},
        Some((v, mid, slot)) => {
            lemma_victim_position_bounds(starts, ends, downloaded, active, safe_zone, min_steal_bytes, active.len() as int);
            let pos = victim_position(starts, ends, downloaded, active, safe_zone, min_steal_bytes, active.len() as int)->0;
            assert(active[pos] as int == v);
            assert(0 <= v < next_slot);
            assert(slot == next_slot);
            let new_ends = ends.update(v, mid as u64).update(slot, ends[v]);
            assert(ends[v] <= size);
            assert forall|i: int| 0 <= i < next_slot + 1 implies #[trigger] new_ends[i] <= size by {
                if i < next_slot {
                    assert(ends[i] <= size);
                }
            }
            let k = choose|k: int| 0 <= k < next_slot && #[trigger] ends[k] == size;
            if k == v {
                assert(new_ends[slot] == size);
            } else {
                assert(new_ends[k] == size);
            }
        },
    }
}

} // verus!
