//! Half-open byte ranges `[start, end)`: which bytes a set of ranges covers,
//! the canonical (sorted, separated) form of such a set, and how many bytes
//! of a window are covered.

use vstd::prelude::*;

verus! {

/// Byte `p` lies in the half-open range `r`.
pub open spec fn in_range(r: (u64, u64), p: int) -> bool {
    r.0 <= p && p < r.1
}

/// Byte `p` lies in at least one of the ranges.
pub open spec fn covers(rs: Seq<(u64, u64)>, p: int) -> bool {
    exists|i: int| 0 <= i < rs.len() && #[trigger] in_range(rs[i], p)
}

/// Number of bytes `p` with `lo <= p < hi` that the ranges cover.
pub open spec fn covered_count(rs: Seq<(u64, u64)>, lo: int, hi: int) -> nat
    decreases hi - lo,
{
    if hi <= lo {
        0
    } else {
        covered_count(rs, lo, hi - 1) + if covers(rs, hi - 1) { 1nat } else { 0nat }
    }
}

/// Every range is non-empty.
pub open spec fn all_nonempty(rs: Seq<(u64, u64)>) -> bool {
    forall|i: int| #![trigger rs[i]] 0 <= i < rs.len() ==> rs[i].0 < rs[i].1
}

/// Ranges appear in non-decreasing order of their start.
pub open spec fn sorted_by_start(rs: Seq<(u64, u64)>) -> bool {
    forall|i: int, j: int| #![trigger rs[i], rs[j]] 0 <= i < j < rs.len() ==> rs[i].0 <= rs[j].0
}

/// Canonical form: non-empty ranges in increasing order, each one ending
/// strictly before the next one starts (so no two touch or overlap).
pub open spec fn is_canonical(rs: Seq<(u64, u64)>) -> bool {
    &&& all_nonempty(rs)
    &&& forall|i: int, j: int| #![trigger rs[i], rs[j]] 0 <= i < j < rs.len() ==> rs[i].1 < rs[j].0
}

/// Non-empty ranges in increasing order that do not overlap (they may
/// touch: one may end where the next begins).
pub open spec fn is_sorted_disjoint(rs: Seq<(u64, u64)>) -> bool {
    &&& all_nonempty(rs)
    &&& forall|i: int, j: int| #![trigger rs[i], rs[j]] 0 <= i < j < rs.len() ==> rs[i].1 <= rs[j].0
}

/// The canonical form is sorted and disjoint.
pub proof fn lemma_canonical_is_sorted_disjoint(rs: Seq<(u64, u64)>)
    requires
        is_canonical(rs),
    ensures
        is_sorted_disjoint(rs),
{
    assert forall|i: int, j: int| #![trigger rs[i], rs[j]] 0 <= i < j < rs.len() implies rs[i].1
        <= rs[j].0 by {}
}

/// Bytes of the window `[lo, hi)` that fall in `r`.
pub open spec fn overlap(r: (u64, u64), lo: int, hi: int) -> int {
    let a = if r.0 >= lo { r.0 as int } else { lo };
    let b = if r.1 <= hi { r.1 as int } else { hi };
    if b > a { b - a } else { 0 }
}

/// Sum of the overlaps of every range with the window `[lo, hi)`.
pub open spec fn overlap_sum(rs: Seq<(u64, u64)>, lo: int, hi: int) -> int
    decreases rs.len(),
{
    if rs.len() == 0 {
        0
    } else {
        overlap_sum(rs.drop_last(), lo, hi) + overlap(rs.last(), lo, hi)
    }
}

pub proof fn lemma_covers_push(s: Seq<(u64, u64)>, x: (u64, u64), p: int)
    ensures
        covers(s.push(x), p) == (covers(s, p) || in_range(x, p)),
{
    let t = s.push(x);
    if covers(s, p) {
        let i = choose|i: int| 0 <= i < s.len() && #[trigger] in_range(s[i], p);
        assert(t[i] == s[i]);
        assert(in_range(t[i], p));
    }
    if in_range(x, p) {
        assert(t[s.len() as int] == x);
    }
    if covers(t, p) {
        let i = choose|i: int| 0 <= i < t.len() && #[trigger] in_range(t[i], p);
        if i < s.len() {
            assert(t[i] == s[i]);
        }
    }
}

pub proof fn lemma_covers_split_last(s: Seq<(u64, u64)>, p: int)
    requires
        s.len() > 0,
    ensures
        covers(s, p) == (covers(s.drop_last(), p) || in_range(s.last(), p)),
{
    assert(s =~= s.drop_last().push(s.last()));
    lemma_covers_push(s.drop_last(), s.last(), p);
}

pub proof fn lemma_covers_insert(s: Seq<(u64, u64)>, pos: int, x: (u64, u64), p: int)
    requires
        0 <= pos <= s.len(),
    ensures
        covers(s.insert(pos, x), p) == (covers(s, p) || in_range(x, p)),
{
    let t = s.insert(pos, x);
    s.insert_ensures(pos, x);
    if covers(s, p) {
        let i = choose|i: int| 0 <= i < s.len() && #[trigger] in_range(s[i], p);
        if i < pos {
            assert(t[i] == s[i]);
            assert(in_range(t[i], p));
        } else {
            assert(t[i + 1] == s[i]);
            assert(in_range(t[i + 1], p));
        }
    }
    if in_range(x, p) {
        assert(in_range(t[pos], p));
    }
    if covers(t, p) {
        let i = choose|i: int| 0 <= i < t.len() && #[trigger] in_range(t[i], p);
        if i < pos {
            assert(t[i] == s[i]);
            assert(in_range(s[i], p));
        } else if i > pos {
            assert(t[(i - 1) + 1] == s[i - 1]);
            assert(in_range(s[i - 1], p));
        }
    }
}

pub proof fn lemma_covers_take_step(s: Seq<(u64, u64)>, k: int, p: int)
    requires
        0 <= k < s.len(),
    ensures
        covers(s.take(k + 1), p) == (covers(s.take(k), p) || in_range(s[k], p)),
{
    assert(s.take(k + 1) =~= s.take(k).push(s[k]));
    lemma_covers_push(s.take(k), s[k], p);
}

/// The covered count depends only on which bytes are covered.
pub proof fn lemma_covered_count_ext(a: Seq<(u64, u64)>, b: Seq<(u64, u64)>, lo: int, hi: int)
    requires
        forall|p: int| lo <= p < hi ==> covers(a, p) == covers(b, p),
    ensures
        covered_count(a, lo, hi) == covered_count(b, lo, hi),
    decreases hi - lo,
{
    if hi > lo {
        lemma_covered_count_ext(a, b, lo, hi - 1);
        assert(covers(a, hi - 1) == covers(b, hi - 1));
    }
}

/// At most `hi - lo` bytes of a window can be covered.
pub proof fn lemma_covered_count_bound(rs: Seq<(u64, u64)>, lo: int, hi: int)
    ensures
        lo <= hi ==> covered_count(rs, lo, hi) <= hi - lo,
        hi <= lo ==> covered_count(rs, lo, hi) == 0,
    decreases hi - lo,
{
    if hi > lo {
        lemma_covered_count_bound(rs, lo, hi - 1);
    }
}

/// No byte of the window is covered exactly when the covered count is zero.
pub proof fn lemma_covered_count_zero(rs: Seq<(u64, u64)>, lo: int, hi: int)
    ensures
        (covered_count(rs, lo, hi) == 0) == (forall|p: int| lo <= p < hi ==> !covers(rs, p)),
    decreases hi - lo,
{
    if hi > lo {
        lemma_covered_count_zero(rs, lo, hi - 1);
        if covered_count(rs, lo, hi) == 0 {
            assert forall|p: int| lo <= p < hi implies !covers(rs, p) by {
                if p < hi - 1 {
                    assert(lo <= p < hi - 1);
                }
            }
        }
    }
}

/// Every byte of a non-empty window is covered exactly when the covered
/// count equals the window's width.
pub proof fn lemma_covered_count_full(rs: Seq<(u64, u64)>, lo: int, hi: int)
    requires
        lo <= hi,
    ensures
        (covered_count(rs, lo, hi) == hi - lo) == (forall|p: int| lo <= p < hi ==> covers(rs, p)),
    decreases hi - lo,
{
    lemma_covered_count_bound(rs, lo, hi);
    if hi > lo {
        lemma_covered_count_full(rs, lo, hi - 1);
        lemma_covered_count_bound(rs, lo, hi - 1);
        if covered_count(rs, lo, hi) == hi - lo {
            assert forall|p: int| lo <= p < hi implies covers(rs, p) by {
                if p < hi - 1 {
                    assert(lo <= p < hi - 1);
                }
            }
        }
    }
}

pub proof fn lemma_sorted_disjoint_drop_last(rs: Seq<(u64, u64)>)
    requires
        is_sorted_disjoint(rs),
        rs.len() > 0,
    ensures
        is_sorted_disjoint(rs.drop_last()),
{
    let d = rs.drop_last();
    assert forall|i: int| #![trigger d[i]] 0 <= i < d.len() implies d[i].0 < d[i].1 by {
        assert(d[i] == rs[i]);
    }
    assert forall|i: int, j: int| #![trigger d[i], d[j]] 0 <= i < j < d.len() implies d[i].1
        <= d[j].0 by {
        assert(d[i] == rs[i]);
        assert(d[j] == rs[j]);
    }
}

pub proof fn lemma_sorted_disjoint_take(rs: Seq<(u64, u64)>, k: int)
    requires
        is_sorted_disjoint(rs),
        0 <= k <= rs.len(),
    ensures
        is_sorted_disjoint(rs.take(k)),
{
    let d = rs.take(k);
    assert forall|i: int| #![trigger d[i]] 0 <= i < d.len() implies d[i].0 < d[i].1 by {
        assert(d[i] == rs[i]);
    }
    assert forall|i: int, j: int| #![trigger d[i], d[j]] 0 <= i < j < d.len() implies d[i].1
        <= d[j].0 by {
        assert(d[i] == rs[i]);
        assert(d[j] == rs[j]);
    }
}

/// Adding a range whose bytes are disjoint from those already covered adds
/// exactly its overlap with the window.
proof fn lemma_covered_count_add_disjoint(
    init: Seq<(u64, u64)>,
    r: (u64, u64),
    lo: int,
    hi: int,
)
    requires
        forall|p: int| covers(init, p) ==> p < r.0,
    ensures
        covered_count(init.push(r), lo, hi) == covered_count(init, lo, hi) + overlap(r, lo, hi),
    decreases hi - lo,
{
    if hi > lo {
        lemma_covered_count_add_disjoint(init, r, lo, hi - 1);
        lemma_covers_push(init, r, hi - 1);
        if covers(init, hi - 1) {
            assert(hi - 1 < r.0);
        }
    }
}

/// For sorted, non-overlapping ranges, the sum of the per-range overlaps with a
/// window is the number of covered bytes in that window.
pub proof fn lemma_overlap_sum_is_covered_count(rs: Seq<(u64, u64)>, lo: int, hi: int)
    requires
        is_sorted_disjoint(rs),
    ensures
        overlap_sum(rs, lo, hi) == covered_count(rs, lo, hi),
    decreases rs.len(),
{
    if rs.len() == 0 {
        lemma_covered_count_zero(rs, lo, hi);
        lemma_covered_count_bound(rs, lo, hi);
        if hi > lo {
            assert forall|p: int| lo <= p < hi implies !covers(rs, p) by {}
        }
    } else {
        let init = rs.drop_last();
        let r = rs.last();
        lemma_sorted_disjoint_drop_last(rs);
        lemma_overlap_sum_is_covered_count(init, lo, hi);
        assert forall|p: int| covers(init, p) implies p < r.0 by {
            let i = choose|i: int| 0 <= i < init.len() && #[trigger] in_range(init[i], p);
            assert(init[i] == rs[i]);
            assert(rs[i].1 <= rs[rs.len() - 1].0);
        }
        assert(rs =~= init.push(r));
        lemma_covered_count_add_disjoint(init, r, lo, hi);
    }
}

/// Ranges past index `k` that miss the window add nothing to the sum.
proof fn lemma_overlap_sum_tail_zero(rs: Seq<(u64, u64)>, k: int, lo: int, hi: int)
    requires
        0 <= k <= rs.len(),
        forall|t: int| k <= t < rs.len() ==> overlap(#[trigger] rs[t], lo, hi) == 0,
    ensures
        overlap_sum(rs.take(k), lo, hi) == overlap_sum(rs, lo, hi),
    decreases rs.len(),
{
    if rs.len() == k {
        assert(rs.take(k) =~= rs);
    } else {
        let d = rs.drop_last();
        assert forall|t: int| k <= t < d.len() implies overlap(#[trigger] d[t], lo, hi) == 0 by {
            assert(d[t] == rs[t]);
        }
        lemma_overlap_sum_tail_zero(d, k, lo, hi);
        assert(d.take(k) =~= rs.take(k));
        assert(overlap(rs[rs.len() - 1], lo, hi) == 0);
    }
}

/// Facts about the first range of a canonical sequence: it starts at the
/// first covered byte, ends at the first byte after it that is not covered,
/// and the other ranges cover exactly the covered bytes past its end.
proof fn lemma_canonical_first(s: Seq<(u64, u64)>)
    requires
        is_canonical(s),
        s.len() > 0,
    ensures
        covers(s, s[0].0 as int),
        forall|p: int| covers(s, p) ==> p >= s[0].0,
        forall|p: int| s[0].0 <= p < s[0].1 ==> covers(s, p),
        !covers(s, s[0].1 as int),
        is_canonical(s.drop_first()),
        forall|p: int| covers(s.drop_first(), p) == (covers(s, p) && p >= s[0].1),
{
    assert(in_range(s[0], s[0].0 as int));
    assert forall|p: int| covers(s, p) implies p >= s[0].0 by {
        let i = choose|i: int| 0 <= i < s.len() && #[trigger] in_range(s[i], p);
        if i > 0 {
            assert(s[0].1 < s[i].0);
        }
    }
    assert forall|p: int| s[0].0 <= p < s[0].1 implies covers(s, p) by {
        assert(in_range(s[0], p));
    }
    if covers(s, s[0].1 as int) {
        let i = choose|i: int| 0 <= i < s.len() && #[trigger] in_range(s[i], s[0].1 as int);
        if i > 0 {
            assert(s[0].1 < s[i].0);
        }
    }
    let d = s.drop_first();
    assert forall|i: int| #![trigger d[i]] 0 <= i < d.len() implies d[i].0 < d[i].1 by {
        assert(d[i] == s[i + 1]);
    }
    assert forall|i: int, j: int| #![trigger d[i], d[j]] 0 <= i < j < d.len() implies d[i].1
        < d[j].0 by {
        assert(d[i] == s[i + 1]);
        assert(d[j] == s[j + 1]);
    }
    assert forall|p: int| covers(d, p) == (covers(s, p) && p >= s[0].1) by {
        if covers(d, p) {
            let i = choose|i: int| 0 <= i < d.len() && #[trigger] in_range(d[i], p);
            assert(d[i] == s[i + 1]);
            assert(in_range(s[i + 1], p));
            assert(s[0].1 < s[i + 1].0);
        }
        if covers(s, p) && p >= s[0].1 {
            let i = choose|i: int| 0 <= i < s.len() && #[trigger] in_range(s[i], p);
            assert(i != 0);
            assert(d[i - 1] == s[i]);
            assert(in_range(d[i - 1], p));
        }
    }
}

/// The canonical form of a set of bytes is unique: two canonical sequences
/// that cover the same bytes are equal. So merging gives the same result
/// for any inputs that cover the same bytes (whatever their order, overlaps
/// or duplicates), and merging a merged sequence changes nothing.
pub proof fn lemma_canonical_unique(a: Seq<(u64, u64)>, b: Seq<(u64, u64)>)
    requires
        is_canonical(a),
        is_canonical(b),
        forall|p: int| covers(a, p) == covers(b, p),
    ensures
        a == b,
    decreases a.len(),
{
    if a.len() == 0 || b.len() == 0 {
        if a.len() > 0 {
            lemma_canonical_first(a);
            assert(covers(b, a[0].0 as int));
        }
        if b.len() > 0 {
            lemma_canonical_first(b);
            assert(covers(a, b[0].0 as int));
        }
        assert(a =~= b);
    } else {
        lemma_canonical_first(a);
        lemma_canonical_first(b);
        assert(a[0].0 == b[0].0) by {
            assert(covers(b, a[0].0 as int));
            assert(covers(a, b[0].0 as int));
        }
        assert(a[0].1 == b[0].1) by {
            if a[0].1 < b[0].1 {
                assert(covers(b, a[0].1 as int));
            }
            if b[0].1 < a[0].1 {
                assert(covers(a, b[0].1 as int));
            }
        }
        assert forall|p: int| covers(a.drop_first(), p) == covers(b.drop_first(), p) by {
            assert(covers(a, p) == covers(b, p));
        }
        lemma_canonical_unique(a.drop_first(), b.drop_first());
        assert(a =~= seq![a[0]] + a.drop_first());
        assert(b =~= seq![b[0]] + b.drop_first());
    }
}

/// Merges possibly overlapping ranges into canonical form: empty ranges are
/// dropped, the rest are sorted by start, and ranges that overlap or touch
/// are joined. The result covers exactly the bytes that the input covers.
pub fn merge_ranges(covered_ranges: Vec<(u64, u64)>) -> (merged: Vec<(u64, u64)>)
    ensures
        is_canonical(merged@),
        forall|p: int| covers(merged@, p) == covers(covered_ranges@, p),
{
    // Keep the non-empty ranges, sorted by start.
    let mut ranges: Vec<(u64, u64)> = Vec::new();
    let n = covered_ranges.len();
    let mut k: usize = 0;
    while k < n
        invariant
            k <= n,
            n == covered_ranges.len(),
            all_nonempty(ranges@),
            sorted_by_start(ranges@),
            forall|p: int| covers(ranges@, p) == covers(covered_ranges@.take(k as int), p),
        decreases n - k,
    {
        let (start, end) = covered_ranges[k];
        let ghost before = ranges@;
        if end > start {
            let mut pos: usize = 0;
            while pos < ranges.len() && ranges[pos].0 <= start
                invariant
                    pos <= ranges.len(),
                    ranges@ == before,
                    forall|t: int| 0 <= t < pos ==> (#[trigger] ranges@[t]).0 <= start,
                decreases ranges.len() - pos,
            {
                pos += 1;
            }
            assert forall|t: int| pos <= t < before.len() implies (#[trigger] before[t]).0 > start by {
                if t > pos {
                    assert(before[pos as int].0 <= before[t].0);
                }
            }
            ranges.insert(pos, (start, end));
            proof {
                let x = (start, end);
                before.insert_ensures(pos as int, x);
                let after = ranges@;
                assert forall|i: int| #![trigger after[i]] 0 <= i < after.len() implies after[i].0
                    < after[i].1 by {
                    if i < pos {
                        assert(after[i] == before[i]);
                    } else if i > pos {
                        assert(after[(i - 1) + 1] == before[i - 1]);
                    }
                }
                assert forall|i: int, j: int| #![trigger after[i], after[j]] 0 <= i < j < after.len()
                    implies after[i].0 <= after[j].0 by {
                    if j < pos {
                        assert(after[i] == before[i]);
                        assert(after[j] == before[j]);
                    } else if j == pos {
                        assert(after[i] == before[i]);
                    } else if i < pos {
                        assert(after[i] == before[i]);
                        assert(after[(j - 1) + 1] == before[j - 1]);
                    } else if i == pos {
                        assert(after[(j - 1) + 1] == before[j - 1]);
                    } else {
                        assert(after[(i - 1) + 1] == before[i - 1]);
                        assert(after[(j - 1) + 1] == before[j - 1]);
                    }
                }
                assert forall|p: int| covers(after, p) == covers(
                    covered_ranges@.take(k + 1),
                    p,
                ) by {
                    lemma_covers_insert(before, pos as int, x, p);
                    lemma_covers_take_step(covered_ranges@, k as int, p);
                }
            }
        } else {
            proof {
                assert forall|p: int| covers(ranges@, p) == covers(
                    covered_ranges@.take(k + 1),
                    p,
                ) by {
                    lemma_covers_take_step(covered_ranges@, k as int, p);
                }
            }
        }
        k += 1;
    }
    assert(covered_ranges@.take(n as int) =~= covered_ranges@);

    // Join ranges that overlap or touch.
    let mut merged: Vec<(u64, u64)> = Vec::with_capacity(ranges.len());
    let m = ranges.len();
    let mut j: usize = 0;
    while j < m
        invariant
            j <= m,
            m == ranges.len(),
            all_nonempty(ranges@),
            sorted_by_start(ranges@),
            is_canonical(merged@),
            j > 0 ==> merged.len() > 0,
            merged.len() > 0 ==> forall|t: int|
                j <= t < m ==> merged@.last().0 <= (#[trigger] ranges@[t]).0,
            forall|p: int| covers(merged@, p) == covers(ranges@.take(j as int), p),
        decreases m - j,
    {
        let (start, end) = ranges[j];
        let len = merged.len();
        let ghost before = merged@;
        assert(ranges@[j as int].0 < ranges@[j as int].1);
        if len > 0 && start <= merged[len - 1].1 {
            let prev = merged[len - 1];
            let new_end = if end > prev.1 {
                end
            } else {
                prev.1
            };
            merged.set(len - 1, (prev.0, new_end));
            proof {
                let after = merged@;
                assert(after.drop_last() =~= before.drop_last());
                assert forall|i: int| #![trigger after[i]] 0 <= i < after.len() implies after[i].0
                    < after[i].1 by {
                    if i < len - 1 {
                        assert(after[i] == before[i]);
                    }
                }
                assert forall|i: int, jj: int| #![trigger after[i], after[jj]] 0 <= i < jj
                    < after.len() implies after[i].1 < after[jj].0 by {
                    assert(after[i] == before[i]);
                    if jj < len - 1 {
                        assert(after[jj] == before[jj]);
                    } else {
                        assert(before[i].1 < before[jj].0);
                    }
                }
                assert forall|t: int| j + 1 <= t < m implies after.last().0 <= (#[trigger] ranges@[
                    t]).0 by {
                    assert(before.last().0 <= ranges@[t].0);
                }
                assert forall|p: int| covers(after, p) == covers(ranges@.take(j + 1), p) by {
                    lemma_covers_split_last(after, p);
                    lemma_covers_split_last(before, p);
                    lemma_covers_take_step(ranges@, j as int, p);
                    assert(before.last().0 <= start);
                }
            }
        } else {
            merged.push((start, end));
            proof {
                let after = merged@;
                assert forall|i: int| #![trigger after[i]] 0 <= i < after.len() implies after[i].0
                    < after[i].1 by {
                    if i < len {
                        assert(after[i] == before[i]);
                    }
                }
                assert forall|i: int, jj: int| #![trigger after[i], after[jj]] 0 <= i < jj
                    < after.len() implies after[i].1 < after[jj].0 by {
                    assert(after[i] == before[i]);
                    if jj < len {
                        assert(after[jj] == before[jj]);
                    } else {
                        if i < len - 1 {
                            assert(before[i].1 < before[len - 1].0);
                        }
                        assert(before.last().0 <= start);
                    }
                }
                assert forall|t: int| j + 1 <= t < m implies after.last().0 <= (#[trigger] ranges@[
                    t]).0 by {
                    assert(ranges@[j as int].0 <= ranges@[t].0);
                }
                assert forall|p: int| covers(after, p) == covers(ranges@.take(j + 1), p) by {
                    lemma_covers_push(before, (start, end), p);
                    lemma_covers_take_step(ranges@, j as int, p);
                }
            }
        }
        j += 1;
    }
    assert(ranges@.take(m as int) =~= ranges@);
    merged
}

/// Number of bytes of `[start, end)` covered by sorted, non-overlapping
/// ranges (such as those `merge_ranges` returns).
pub fn covered_len_in_range(merged: &[(u64, u64)], start: u64, end: u64) -> (covered: u64)
    requires
        is_sorted_disjoint(merged@),
    ensures
        covered == covered_count(merged@, start as int, end as int),
        covered == overlap_sum(merged@, start as int, end as int),
        start <= end ==> covered <= end - start,
        start >= end ==> covered == 0,
{
    let mut covered: u64 = 0;
    let n = merged.len();
    let mut i: usize = 0;
    assert(merged@.take(n as int) =~= merged@);
    while i < n
        invariant_except_break
            i <= n,
            n == merged@.len(),
            is_sorted_disjoint(merged@),
            merged@.take(n as int) == merged@,
            covered == overlap_sum(merged@.take(i as int), start as int, end as int),
        ensures
            covered == overlap_sum(merged@, start as int, end as int),
        decreases n - i,
    {
        let (range_start, range_end) = merged[i];
        proof {
            assert(merged@.take(i + 1).drop_last() =~= merged@.take(i as int));
            assert(merged@.take(i + 1).last() == merged@[i as int]);
        }
        if range_end <= start {
            i += 1;
            continue;
        }
        if range_start >= end {
            proof {
                assert forall|t: int| i <= t < n implies overlap(
                    #[trigger] merged@[t],
                    start as int,
                    end as int,
                ) == 0 by {
                    if t > i {
                        assert(merged@[i as int].1 <= merged@[t].0);
                    }
                }
                lemma_overlap_sum_tail_zero(merged@, i as int, start as int, end as int);
            }
            break;
        }
        let overlap_start = if range_start >= start {
            range_start
        } else {
            start
        };
        let overlap_end = if range_end <= end {
            range_end
        } else {
            end
        };
        if overlap_end > overlap_start {
            proof {
                lemma_sorted_disjoint_take(merged@, i + 1);
                lemma_overlap_sum_is_covered_count(merged@.take(i + 1), start as int, end as int);
                lemma_covered_count_bound(merged@.take(i + 1), start as int, end as int);
            }
            covered += overlap_end - overlap_start;
        }
        i += 1;
    }
    proof {
        lemma_overlap_sum_is_covered_count(merged@, start as int, end as int);
        lemma_covered_count_bound(merged@, start as int, end as int);
    }
    covered
}

} // verus!
