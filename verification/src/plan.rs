//! Planning a chunked download: splitting a file into chunks, restoring the
//! chunks of a paused download, the slots that work stealing fills, what to
//! request for a chunk, what a probe tells us, and how a download ends.

use vstd::prelude::*;
use vstd::arithmetic::div_mod::{lemma_fundamental_div_mod, lemma_mod_pos_bound, lemma_fundamental_div_mod_converse};
use std::collections::VecDeque;
use crate::text::{parse_u64, parse_u64_spec, after_last, split_after_last, lemma_split_around_separator};
use crate::types::{DownloadId, DownloadStatus, ProgressUpdate};

verus! {

/// Saved progress of one chunk: its byte range and how many of its bytes,
/// counted from its start, are on disk.
#[derive(Debug, Clone, Copy, PartialEq, Eq, Structural)]
pub struct ChunkSnapshot {
    pub start: u64,
    pub end: u64,
    pub downloaded: u64,
}

#[derive(Debug, Clone, Copy, PartialEq, Eq, Structural)]
pub enum ChunkStatus {
    Pending,
    Finished,
}

/// The chunks of a download, one entry per chunk in each array.
pub struct ChunkList {
    pub starts: Vec<u64>,
    pub ends: Vec<u64>,
    pub downloaded: Vec<u64>,
    pub statuses: Vec<ChunkStatus>,
}

impl ChunkList {
    /// All four arrays describe the same chunks.
    pub open spec fn wf(&self) -> bool {
        &&& self.starts@.len() == self.ends@.len()
        &&& self.starts@.len() == self.downloaded@.len()
        &&& self.starts@.len() == self.statuses@.len()
    }

    pub fn len(&self) -> (n: usize)
        ensures
            n == self.starts@.len(),
    {
        self.starts.len()
    }
}

/// Boundary `i` of a split of `total` bytes into `n` near-equal chunks.
pub open spec fn split_boundary(total: u64, n: int, i: int) -> int {
    (total as int * i) / n
}

/// Splits `[0, total)` into `num_chunks` contiguous chunks (one when
/// `num_chunks` is zero); chunk `i` is `[total*i/n, total*(i+1)/n)`. Every
/// chunk starts pending with nothing downloaded.
pub fn split(total: u64, num_chunks: usize) -> (chunks: ChunkList)
    ensures
        chunks.wf(),
        chunks.starts@.len() == (if num_chunks == 0 { 1 } else { num_chunks as int }),
        forall|i: int| 0 <= i < chunks.starts@.len() ==> #[trigger] chunks.starts@[i] == split_boundary(total, chunks.starts@.len() as int, i),
        forall|i: int| 0 <= i < chunks.starts@.len() ==> #[trigger] chunks.ends@[i] == split_boundary(total, chunks.starts@.len() as int, i + 1),
        forall|i: int| 0 <= i < chunks.starts@.len() ==> #[trigger] chunks.downloaded@[i] == 0,
        forall|i: int| 0 <= i < chunks.starts@.len() ==> #[trigger] chunks.statuses@[i] == ChunkStatus::Pending,
{
    let n: usize = if num_chunks == 0 {
        1
    } else {
        num_chunks
    };
    let mut starts: Vec<u64> = Vec::new();
    let mut ends: Vec<u64> = Vec::new();
    let mut downloaded: Vec<u64> = Vec::new();
    let mut statuses: Vec<ChunkStatus> = Vec::new();
    let mut i: usize = 0;
    while i < n
        invariant
            i <= n,
            n >= 1,
            starts@.len() == i,
            ends@.len() == i,
            downloaded@.len() == i,
            statuses@.len() == i,
            forall|t: int| 0 <= t < i ==> #[trigger] starts@[t] == split_boundary(total, n as int, t),
            forall|t: int| 0 <= t < i ==> #[trigger] ends@[t] == split_boundary(total, n as int, t + 1),
            forall|t: int| 0 <= t < i ==> #[trigger] downloaded@[t] == 0,
            forall|t: int| 0 <= t < i ==> #[trigger] statuses@[t] == ChunkStatus::Pending,
        decreases n - i,
    {
        let start = boundary(total, i, n);
        let end = boundary(total, i + 1, n);
        starts.push(start);
        ends.push(end);
        downloaded.push(0);
        statuses.push(ChunkStatus::Pending);
        i += 1;
    }
    ChunkList { starts, ends, downloaded, statuses }
}

/// `total * i / n` for `i <= n`.
fn boundary(total: u64, i: usize, n: usize) -> (b: u64)
    requires
        i <= n,
        n >= 1,
    ensures
        b == split_boundary(total, n as int, i as int),
{
    assert(total as int * i as int <= u128::MAX) by (nonlinear_arith)
        requires
            total <= u64::MAX,
            i <= u64::MAX,
    ;
    assert((total as int * i as int) / (n as int) <= total) by (nonlinear_arith)
        requires
            0 <= i <= n,
            n >= 1,
            total >= 0,
    ;
    let product: u128 = total as u128 * i as u128;
    (product / n as u128) as u64
}

/// A chunk is finished when at least its length has been downloaded.
pub open spec fn snapshot_status(s: ChunkSnapshot) -> ChunkStatus {
    if s.downloaded >= s.end - s.start { ChunkStatus::Finished } else { ChunkStatus::Pending }
}

/// The largest value of a sequence (zero when it is empty).
pub open spec fn seq_max(s: Seq<u64>) -> u64
    decreases s.len(),
{
    if s.len() == 0 {
        0
    } else {
        let m = seq_max(s.drop_last());
        if s.last() > m { s.last() } else { m }
    }
}

/// The total size recorded by saved chunks: the largest end among them.
/// (After a steal the stolen slot is saved last, but the slot that holds
/// the file's last byte still ends at the file's size.)
pub open spec fn snapshots_total(snapshots: Seq<ChunkSnapshot>) -> u64 {
    seq_max(snapshots.map_values(|s: ChunkSnapshot| s.end))
}

/// Restores the chunk list of a paused download from its saved chunks, and
/// the download's total size (the largest end among them, zero when none).
pub fn chunk_list_from_snapshots(snapshots: &[ChunkSnapshot]) -> (r: (u64, ChunkList))
    requires
        forall|i: int| 0 <= i < snapshots@.len() ==> (#[trigger] snapshots@[i]).start <= snapshots@[i].end,
    ensures
        r.0 == snapshots_total(snapshots@),
        r.1.wf(),
        r.1.starts@.len() == snapshots@.len(),
        r.1.starts@ == snapshots@.map_values(|s: ChunkSnapshot| s.start),
        r.1.ends@ == snapshots@.map_values(|s: ChunkSnapshot| s.end),
        r.1.downloaded@ == snapshots@.map_values(|s: ChunkSnapshot| s.downloaded),
        r.1.statuses@ == snapshots@.map_values(|s: ChunkSnapshot| snapshot_status(s)),
{
    let n = snapshots.len();
    let ghost ends_all = snapshots@.map_values(|s: ChunkSnapshot| s.end);
    let mut total: u64 = 0;
    let mut starts: Vec<u64> = Vec::new();
    let mut ends: Vec<u64> = Vec::new();
    let mut downloaded: Vec<u64> = Vec::new();
    let mut statuses: Vec<ChunkStatus> = Vec::new();
    let mut i: usize = 0;
    while i < n
        invariant
            i <= n,
            n == snapshots@.len(),
            forall|t: int| 0 <= t < snapshots@.len() ==> (#[trigger] snapshots@[t]).start <= snapshots@[t].end,
            starts@.len() == i,
            ends@.len() == i,
            downloaded@.len() == i,
            statuses@.len() == i,
            ends_all == snapshots@.map_values(|s: ChunkSnapshot| s.end),
            total == seq_max(ends_all.take(i as int)),
            forall|t: int| 0 <= t < i ==> #[trigger] starts@[t] == snapshots@[t].start,
            forall|t: int| 0 <= t < i ==> #[trigger] ends@[t] == snapshots@[t].end,
            forall|t: int| 0 <= t < i ==> #[trigger] downloaded@[t] == snapshots@[t].downloaded,
            forall|t: int| 0 <= t < i ==> #[trigger] statuses@[t] == snapshot_status(snapshots@[t]),
        decreases n - i,
    {
        let s = snapshots[i];
        proof {
            assert(ends_all.take(i + 1).drop_last() =~= ends_all.take(i as int));
            assert(ends_all.take(i + 1).last() == s.end);
        }
        if s.end > total {
            total = s.end;
        }
        starts.push(s.start);
        ends.push(s.end);
        downloaded.push(s.downloaded);
        let status = if s.downloaded >= s.end - s.start {
            ChunkStatus::Finished
        } else {
            ChunkStatus::Pending
        };
        statuses.push(status);
        i += 1;
    }
    assert(ends_all.take(n as int) =~= ends_all);
    assert(starts@ =~= snapshots@.map_values(|s: ChunkSnapshot| s.start));
    assert(ends@ =~= snapshots@.map_values(|s: ChunkSnapshot| s.end));
    assert(downloaded@ =~= snapshots@.map_values(|s: ChunkSnapshot| s.downloaded));
    assert(statuses@ =~= snapshots@.map_values(|s: ChunkSnapshot| snapshot_status(s)));
    (total, ChunkList { starts, ends, downloaded, statuses })
}

/// The chunks among the first `n` that still need work, in order.
pub open spec fn unfinished(statuses: Seq<ChunkStatus>, n: int) -> Seq<usize>
    decreases n,
{
    if n <= 0 {
        Seq::empty()
    } else if statuses[n - 1] == ChunkStatus::Finished {
        unfinished(statuses, n - 1)
    } else {
        unfinished(statuses, n - 1).push((n - 1) as usize)
    }
}

/// The queue holds every unfinished chunk and nothing else: index `i` is in
/// it exactly when chunk `i` is not finished, the indices are in strictly
/// increasing order (so none is queued twice), and all are chunk indices.
pub proof fn lemma_unfinished_meaning(statuses: Seq<ChunkStatus>, n: int)
    requires
        0 <= n <= statuses.len(),
        n <= usize::MAX,
    ensures
        forall|i: int| 0 <= i < n ==> (unfinished(statuses, n).contains(i as usize) == (statuses[i]
            != ChunkStatus::Finished)),
        forall|a: int, b: int| 0 <= a < b < unfinished(statuses, n).len() ==> #[trigger] unfinished(statuses, n)[a]
            < #[trigger] unfinished(statuses, n)[b],
        forall|a: int| 0 <= a < unfinished(statuses, n).len() ==> 0 <= (#[trigger] unfinished(statuses, n)[a] as int) < n,
    decreases n,
{
    if n > 0 {
        lemma_unfinished_meaning(statuses, n - 1);
        let prev = unfinished(statuses, n - 1);
        let cur = unfinished(statuses, n);
        if statuses[n - 1] != ChunkStatus::Finished {
            assert(cur == prev.push((n - 1) as usize));
            assert(cur[prev.len() as int] == (n - 1) as usize);
            assert forall|i: int| 0 <= i < n implies (cur.contains(i as usize) == (statuses[i]
                != ChunkStatus::Finished)) by {
                if i == n - 1 {
                    assert(cur[prev.len() as int] == i as usize);
                } else {
                    if prev.contains(i as usize) {
                        let w = choose|w: int| 0 <= w < prev.len() && prev[w] == i as usize;
                        assert(cur[w] == prev[w]);
                    }
                    if cur.contains(i as usize) {
                        let w = choose|w: int| 0 <= w < cur.len() && cur[w] == i as usize;
                        if w < prev.len() {
                            assert(cur[w] == prev[w]);
                            assert(prev.contains(i as usize));
                        } else {
                            assert(cur[w] == (n - 1) as usize);
                        }
                    }
                }
            }
            assert forall|a: int, b: int| 0 <= a < b < cur.len() implies #[trigger] cur[a] < #[trigger] cur[b] by {
                assert(cur[a] == prev[a]);
                assert((prev[a] as int) < n - 1);
                if b < prev.len() {
                    assert(cur[b] == prev[b]);
                }
            }
            assert forall|a: int| 0 <= a < cur.len() implies 0 <= (#[trigger] cur[a] as int) < n by {
                if a < prev.len() {
                    assert(cur[a] == prev[a]);
                    assert((prev[a] as int) < n - 1);
                }
            }
        } else {
            assert forall|i: int| 0 <= i < n implies (cur.contains(i as usize) == (statuses[i]
                != ChunkStatus::Finished)) by {
                if i == n - 1 && cur.contains(i as usize) {
                    let w = choose|w: int| 0 <= w < cur.len() && cur[w] == i as usize;
                    assert((cur[w] as int) < n - 1);
                }
            }
        }
    }
}

/// The queue of chunks to download: every chunk that is not finished, in
/// chunk order.
pub fn pending_chunks(statuses: &[ChunkStatus]) -> (queue: VecDeque<usize>)
    ensures
        queue@ == unfinished(statuses@, statuses@.len() as int),
        forall|i: int| 0 <= i < statuses@.len() ==> (queue@.contains(i as usize) == (statuses@[i]
            != ChunkStatus::Finished)),
        forall|a: int, b: int| 0 <= a < b < queue@.len() ==> #[trigger] queue@[a] < #[trigger] queue@[b],
        forall|a: int| 0 <= a < queue@.len() ==> (#[trigger] queue@[a] as int) < statuses@.len(),
{
    let len = statuses.len();
    proof {
        lemma_unfinished_meaning(statuses@, len as int);
    }
    let mut queue: VecDeque<usize> = VecDeque::new();
    let n = statuses.len();
    let mut i: usize = 0;
    while i < n
        invariant
            i <= n,
            n == statuses@.len(),
            queue@ == unfinished(statuses@, i as int),
        decreases n - i,
    {
        if statuses[i] != ChunkStatus::Finished {
            queue.push_back(i);
        }
        i += 1;
    }
    queue
}

/// Sum of a sequence of byte counts.
pub open spec fn seq_sum(s: Seq<u64>) -> int
    decreases s.len(),
{
    if s.len() == 0 { 0 } else { seq_sum(s.drop_last()) + s.last() }
}

/// Summing adds: nothing sums to zero, a single count sums to itself, and
/// the sum of two sequences one after the other is the sum of their sums.
pub proof fn lemma_seq_sum_adds(a: Seq<u64>, b: Seq<u64>, x: u64)
    ensures
        seq_sum(Seq::empty()) == 0,
        seq_sum(seq![x]) == x,
        seq_sum(a + b) == seq_sum(a) + seq_sum(b),
    decreases b.len(),
{
    assert(seq![x].drop_last() =~= Seq::<u64>::empty());
    if b.len() == 0 {
        assert(a + b =~= a);
    } else {
        lemma_seq_sum_adds(a, b.drop_last(), x);
        assert((a + b).drop_last() =~= a + b.drop_last());
        assert((a + b).last() == b.last());
    }
}

/// The largest value is one of the values and no value exceeds it.
pub proof fn lemma_seq_max_is_largest(s: Seq<u64>)
    ensures
        forall|i: int| 0 <= i < s.len() ==> #[trigger] s[i] <= seq_max(s),
        s.len() > 0 ==> exists|i: int| 0 <= i < s.len() && #[trigger] s[i] == seq_max(s),
    decreases s.len(),
{
    if s.len() > 0 {
        let d = s.drop_last();
        lemma_seq_max_is_largest(d);
        assert forall|i: int| 0 <= i < s.len() implies #[trigger] s[i] <= seq_max(s) by {
            if i < d.len() {
                assert(s[i] == d[i]);
            }
        }
        if s.last() > seq_max(d) || d.len() == 0 {
            assert(s[s.len() - 1] == seq_max(s));
        } else {
            let j = choose|j: int| 0 <= j < d.len() && #[trigger] d[j] == seq_max(d);
            assert(s[j] == d[j]);
        }
    }
}

proof fn lemma_seq_sum_prefix_monotone(s: Seq<u64>, k: int)
    requires
        0 <= k <= s.len(),
    ensures
        seq_sum(s.take(k)) <= seq_sum(s),
    decreases s.len() - k,
{
    if k < s.len() {
        lemma_seq_sum_prefix_monotone(s, k + 1);
        assert(s.take(k + 1).drop_last() =~= s.take(k));
    } else {
        assert(s.take(k) =~= s);
    }
}

/// Total bytes downloaded by the first `count` slots.
pub fn downloaded_total(downloaded: &[u64], count: usize) -> (total: u64)
    requires
        count <= downloaded@.len(),
        seq_sum(downloaded@.take(count as int)) <= u64::MAX,
    ensures
        total == seq_sum(downloaded@.take(count as int)),
{
    let mut total: u64 = 0;
    let mut i: usize = 0;
    while i < count
        invariant
            i <= count <= downloaded@.len(),
            seq_sum(downloaded@.take(count as int)) <= u64::MAX,
            total == seq_sum(downloaded@.take(i as int)),
        decreases count - i,
    {
        proof {
            assert(downloaded@.take(i + 1).drop_last() =~= downloaded@.take(i as int));
            assert(downloaded@.take(count as int).take(i + 1) =~= downloaded@.take(i + 1));
            lemma_seq_sum_prefix_monotone(downloaded@.take(count as int), i + 1);
        }
        total = total + downloaded[i];
        i += 1;
    }
    total
}

/// `values` followed by `extra` zeros: the per-slot array of a download
/// whose chunks may gain up to `extra` stolen chunks.
pub fn with_spare_slots(values: &[u64], extra: usize) -> (slots: Vec<u64>)
    requires
        values@.len() + extra <= usize::MAX,
    ensures
        slots@ == values@ + Seq::new(extra as nat, |i: int| 0u64),
{
    let mut slots: Vec<u64> = Vec::new();
    let n = values.len();
    let mut i: usize = 0;
    while i < n
        invariant
            i <= n,
            n == values@.len(),
            slots@ == values@.take(i as int),
        decreases n - i,
    {
        slots.push(values[i]);
        i += 1;
        assert(slots@ =~= values@.take(i as int));
    }
    let mut k: usize = 0;
    while k < extra
        invariant
            k <= extra,
            n == values@.len(),
            slots@ == values@ + Seq::new(k as nat, |i: int| 0u64),
        decreases extra - k,
    {
        slots.push(0);
        k += 1;
        assert(slots@ =~= values@ + Seq::new(k as nat, |i: int| 0u64));
    }
    assert(values@.take(n as int) =~= values@);
    slots
}

/// Saved progress of the first `populated` slots, for resuming later.
pub fn pause_snapshots(starts: &[u64], ends: &[u64], downloaded: &[u64], populated: usize) -> (snapshots: Vec<ChunkSnapshot>)
    requires
        populated <= starts@.len(),
        populated <= ends@.len(),
        populated <= downloaded@.len(),
    ensures
        snapshots@ == saved_chunks(starts@, ends@, downloaded@, populated as int),
{
    let mut snapshots: Vec<ChunkSnapshot> = Vec::new();
    let mut i: usize = 0;
    while i < populated
        invariant
            i <= populated,
            populated <= starts@.len(),
            populated <= ends@.len(),
            populated <= downloaded@.len(),
            snapshots@.len() == i,
            forall|t: int| 0 <= t < i ==> #[trigger] snapshots@[t] == (ChunkSnapshot {
                start: starts@[t],
                end: ends@[t],
                downloaded: downloaded@[t],
            }),
        decreases populated - i,
    {
        snapshots.push(ChunkSnapshot { start: starts[i], end: ends[i], downloaded: downloaded[i] });
        i += 1;
    }
    assert(snapshots@ =~= saved_chunks(starts@, ends@, downloaded@, populated as int));
    snapshots
}

/// The saved progress of the first `n` slots.
pub open spec fn saved_chunks(starts: Seq<u64>, ends: Seq<u64>, downloaded: Seq<u64>, n: int) -> Seq<ChunkSnapshot> {
    Seq::new(n as nat, |i: int| ChunkSnapshot { start: starts[i], end: ends[i], downloaded: downloaded[i] })
}

/// Restoring what a pause saved gives back the slot arrays it was saved
/// from (their first `n` entries), and the total size is the largest end
/// among the saved slots; a restored chunk counts as finished exactly when its
/// slot had downloaded its whole range.
pub proof fn lemma_restore_after_pause(starts: Seq<u64>, ends: Seq<u64>, downloaded: Seq<u64>, n: int)
    requires
        0 <= n <= starts.len(),
        n <= ends.len(),
        n <= downloaded.len(),
    ensures
        ({
            let saved = saved_chunks(starts, ends, downloaded, n);
            &&& saved.map_values(|s: ChunkSnapshot| s.start) == starts.take(n)
            &&& saved.map_values(|s: ChunkSnapshot| s.end) == ends.take(n)
            &&& saved.map_values(|s: ChunkSnapshot| s.downloaded) == downloaded.take(n)
            &&& snapshots_total(saved) == seq_max(ends.take(n))
            &&& forall|i: int| 0 <= i < n ==> (snapshot_status(#[trigger] saved[i])
                == ChunkStatus::Finished) == (downloaded[i] >= ends[i] - starts[i])
        }),
{
    let saved = saved_chunks(starts, ends, downloaded, n);
    assert(saved.map_values(|s: ChunkSnapshot| s.start) =~= starts.take(n));
    assert(saved.map_values(|s: ChunkSnapshot| s.end) =~= ends.take(n));
    assert(saved.map_values(|s: ChunkSnapshot| s.downloaded) =~= downloaded.take(n));
}

/// A split tiles the file: the first chunk starts at 0, the last ends at
/// `total`, each chunk ends where the next begins, and no chunk runs
/// backwards.
pub proof fn lemma_split_tiles(total: u64, n: int)
    requires
        n >= 1,
    ensures
        split_boundary(total, n, 0) == 0,
        split_boundary(total, n, n) == total,
        forall|i: int, j: int| 0 <= i <= j <= n ==> #[trigger] split_boundary(total, n, i) <= #[trigger] split_boundary(total, n, j),
{
    assert((total as int * n) / n == total as int) by (nonlinear_arith)
        requires
            n >= 1,
    ;
    assert forall|i: int, j: int| 0 <= i <= j <= n implies #[trigger] split_boundary(total, n, i) <= #[trigger] split_boundary(total, n, j) by {
        assert(total as int * i <= total as int * j) by (nonlinear_arith)
            requires
                0 <= i <= j,
                total >= 0,
        ;
        vstd::arithmetic::div_mod::lemma_div_is_ordered(total as int * i, total as int * j, n);
    }
}

/// Going from `a` to `a + t` raises the floor of the quotient by `n` by
/// `t / n` or by one more.
pub(crate) proof fn lemma_floor_step(a: int, t: int, n: int)
    requires
        a >= 0,
        t >= 0,
        n >= 1,
    ensures
        t / n <= (a + t) / n - a / n <= t / n + 1,
{
    lemma_fundamental_div_mod(a, n);
    lemma_fundamental_div_mod(t, n);
    lemma_mod_pos_bound(a, n);
    lemma_mod_pos_bound(t, n);
    let q1 = a / n;
    let r1 = a % n;
    let q = t / n;
    let r = t % n;
    assert(a + t == (q1 + q) * n + (r1 + r)) by (nonlinear_arith)
        requires
            a == n * q1 + r1,
            t == n * q + r,
    ;
    if r1 + r < n {
        lemma_fundamental_div_mod_converse(a + t, n, q1 + q, r1 + r);
    } else {
        assert(a + t == (q1 + q + 1) * n + (r1 + r - n)) by (nonlinear_arith)
            requires
                a + t == (q1 + q) * n + (r1 + r),
        ;
        lemma_fundamental_div_mod_converse(a + t, n, q1 + q + 1, r1 + r - n);
    }
}

/// A split is as even as it can be: every chunk holds `total / n` bytes
/// or one more.
pub proof fn lemma_split_near_equal(total: u64, n: int, i: int)
    requires
        n >= 1,
        0 <= i < n,
    ensures
        (total as int) / n <= split_boundary(total, n, i + 1) - split_boundary(total, n, i) <= (total as int) / n + 1,
{
    assert(total as int * (i + 1) == total as int * i + total) by (nonlinear_arith);
    assert(total as int * i >= 0) by (nonlinear_arith)
        requires
            i >= 0,
            total >= 0,
    ;
    lemma_floor_step(total as int * i, total as int, n);
}

/// The byte range to request for a chunk `[chunk_start, chunk_end)` of which
/// `resume_from` bytes are already on disk, as inclusive bounds for a
/// `Range: bytes=a-b` header; None when nothing is left to fetch (after a
/// steal shrank the chunk).
pub fn chunk_request_range(chunk_start: u64, chunk_end: u64, resume_from: u64) -> (r: Option<(u64, u64)>)
    requires
        chunk_start + resume_from <= u64::MAX,
    ensures
        chunk_start + resume_from >= chunk_end ==> r is None,
        chunk_start + resume_from < chunk_end ==> r == Some(((chunk_start + resume_from) as u64, (chunk_end - 1) as u64)),
{
    let byte_start = chunk_start + resume_from;
    if byte_start >= chunk_end {
        None
    } else {
        Some((byte_start, chunk_end - 1))
    }
}

/// What a one-byte range probe tells us about the server.
#[derive(Debug, Clone, Copy, PartialEq, Eq, Structural)]
pub struct ProbeResult {
    pub content_length: Option<u64>,
    pub accepts_ranges: bool,
}

/// A 206 answer means the server honours ranges, and the total size is
/// what follows the last `/` of its Content-Range header; any other answer
/// means it does not, and the size is its Content-Length, if any.
pub open spec fn probe_result_spec(status: u16, content_range: Option<Seq<char>>, content_length: Option<u64>) -> ProbeResult {
    if status == 206 {
        ProbeResult {
            content_length: match content_range {
                Some(v) => parse_u64_spec(after_last(v, '/')),
                None => None,
            },
            accepts_ranges: true,
        }
    } else {
        ProbeResult { content_length, accepts_ranges: false }
    }
}

/// What a probe tells: the server honours ranges exactly when it answered
/// 206; any other answer passes its Content-Length on as the size; a 206
/// answer whose Content-Range ends in `/` and then a number without `/`
/// (as in `bytes 0-0/12345`) has that number as the size, and one without
/// a Content-Range has no known size.
pub proof fn lemma_probe_meaning(status: u16, content_range: Option<Seq<char>>, content_length: Option<u64>, head: Seq<char>, size: Seq<char>)
    requires
        forall|i: int| 0 <= i < size.len() ==> #[trigger] size[i] != '/',
    ensures
        probe_result_spec(status, content_range, content_length).accepts_ranges == (status == 206),
        status != 206 ==> probe_result_spec(status, content_range, content_length).content_length == content_length,
        (status == 206 && content_range is None) ==> probe_result_spec(status, content_range, content_length).content_length is None,
        (status == 206 && content_range == Some(head + seq!['/'] + size)) ==> probe_result_spec(
            status,
            content_range,
            content_length,
        ).content_length == parse_u64_spec(size),
{
    lemma_split_around_separator(head, size, '/');
}

/// Interprets the answer to a `Range: bytes=0-0` probe. `content_range` is
/// the Content-Range header as text (when present and valid text),
/// `content_length` the answer's Content-Length.
pub fn probe_result_from_response(status: u16, content_range: Option<&str>, content_length: Option<u64>) -> (r: ProbeResult)
    ensures
        r == probe_result_spec(
            status,
            match content_range {
                Some(v) => Some(v@),
                None => None,
            },
            content_length,
        ),
{
    if status == 206 {
        let total = match content_range {
            Some(v) => parse_u64(split_after_last(v, '/')),
            None => None,
        };
        ProbeResult { content_length: total, accepts_ranges: true }
    } else {
        ProbeResult { content_length, accepts_ranges: false }
    }
}

/// How many chunks a fresh download uses: the configured number of
/// connections when the server honours ranges, one otherwise.
pub fn initial_chunk_count(accepts_ranges: bool, max_connections: usize) -> (n: usize)
    ensures
        n == (if accepts_ranges { max_connections } else { 1 }),
{
    if accepts_ranges {
        max_connections
    } else {
        1
    }
}

/// Name of the partial file a download writes to: the destination's file
/// name followed by `.ophelia_part`, or `download.ophelia_part` when the
/// destination has no file name.
pub fn part_file_name(file_name: Option<&str>) -> (name: String)
    ensures
        name@ == (match file_name {
            Some(n) => n@ + ".ophelia_part"@,
            None => "download.ophelia_part"@,
        }),
{
    match file_name {
        Some(n) => {
            let mut name = String::from_str(n);
            name.append(".ophelia_part");
            name
        },
        None => String::from_str("download.ophelia_part"),
    }
}

/// How a chunked download ends once no chunk task is left.
#[derive(Debug, Clone, Copy, PartialEq, Eq, Structural)]
pub enum Completion {
    /// Save the chunk offsets and report the pause.
    SavePause,
    /// Move the partial file into place, then report the result.
    Rename,
    /// Report the failure.
    Fail,
}

/// A pause wins over everything; otherwise the download is complete when no
/// chunk failed.
pub fn completion(paused: bool, all_ok: bool) -> (c: Completion)
    ensures
        c == (if paused { Completion::SavePause } else if all_ok { Completion::Rename } else { Completion::Fail }),
{
    if paused {
        Completion::SavePause
    } else if all_ok {
        Completion::Rename
    } else {
        Completion::Fail
    }
}

/// The last progress report of a chunked download. `renamed` says whether
/// moving the partial file into place worked (only read for `Rename`).
pub fn completion_update(id: DownloadId, c: Completion, renamed: bool, downloaded_bytes: u64, total_bytes: u64) -> (u: ProgressUpdate)
    ensures
        u.id == id,
        u.total_bytes == Some(total_bytes),
        u.speed_bytes_per_sec == 0,
        c == Completion::SavePause ==> u.status == DownloadStatus::Paused && u.downloaded_bytes == downloaded_bytes,
        c == Completion::Rename && renamed ==> u.status == DownloadStatus::Finished && u.downloaded_bytes == total_bytes,
        c == Completion::Rename && !renamed ==> u.status == DownloadStatus::Error && u.downloaded_bytes == total_bytes,
        c == Completion::Fail ==> u.status == DownloadStatus::Error && u.downloaded_bytes == downloaded_bytes,
{
    let (status, downloaded) = match c {
        Completion::SavePause => (DownloadStatus::Paused, downloaded_bytes),
        Completion::Rename => if renamed {
            (DownloadStatus::Finished, total_bytes)
        } else {
            (DownloadStatus::Error, total_bytes)
        },
        Completion::Fail => (DownloadStatus::Error, downloaded_bytes),
    };
    ProgressUpdate {
        id,
        status,
        downloaded_bytes: downloaded,
        total_bytes: Some(total_bytes),
        speed_bytes_per_sec: 0,
    }
}

/// How a chunked download ends: its last progress report and, on a pause,
/// the saved progress of its slots.
pub struct DownloadEnding {
    pub update: ProgressUpdate,
    pub saved: Option<Vec<ChunkSnapshot>>,
}

/// Ends a chunked download whose first `populated` slots are described by
/// the arrays. The slots are saved exactly when the download pauses, and a
/// pause or a failure reports the sum of the slots' counters as downloaded,
/// so the reported bytes are those the saved slots account for. A finished
/// download (`renamed` says whether moving the file into place worked)
/// reports its total size.
pub fn download_ending(
    id: DownloadId,
    c: Completion,
    renamed: bool,
    starts: &[u64],
    ends: &[u64],
    downloaded: &[u64],
    populated: usize,
    total_bytes: u64,
) -> (e: DownloadEnding)
    requires
        populated <= starts@.len(),
        populated <= ends@.len(),
        populated <= downloaded@.len(),
        c != Completion::Rename ==> seq_sum(downloaded@.take(populated as int)) <= u64::MAX,
    ensures
        e.update.id == id,
        e.update.total_bytes == Some(total_bytes),
        e.update.speed_bytes_per_sec == 0,
        (e.saved is Some) == (c == Completion::SavePause),
        (e.saved is Some) == (e.update.status == DownloadStatus::Paused),
        c == Completion::SavePause ==> (e.saved matches Some(v) && v@ == saved_chunks(
            starts@,
            ends@,
            downloaded@,
            populated as int,
        )),
        c != Completion::Rename ==> e.update.downloaded_bytes == seq_sum(downloaded@.take(populated as int)),
        c == Completion::Rename ==> e.update.downloaded_bytes == total_bytes && e.update.status == (
        if renamed {
            DownloadStatus::Finished
        } else {
            DownloadStatus::Error
        }),
        c == Completion::Fail ==> e.update.status == DownloadStatus::Error,
        e.saved matches Some(v) ==> seq_sum(v@.map_values(|s: ChunkSnapshot| s.downloaded))
            == e.update.downloaded_bytes,
{
    match c {
        Completion::SavePause => {
            let sum = downloaded_total(downloaded, populated);
            let saved = pause_snapshots(starts, ends, downloaded, populated);
            proof {
                lemma_restore_after_pause(starts@, ends@, downloaded@, populated as int);
            }
            DownloadEnding { update: completion_update(id, c, renamed, sum, total_bytes), saved: Some(saved) }
        },
        Completion::Rename => DownloadEnding {
            update: completion_update(id, c, renamed, 0, total_bytes),
            saved: None,
        },
        Completion::Fail => {
            let sum = downloaded_total(downloaded, populated);
            DownloadEnding { update: completion_update(id, c, renamed, sum, total_bytes), saved: None }
        },
    }
}

/// When every saved slot ends within the file and one of them ends at its
/// last byte, the restored total is the file's size: this holds after any
/// steals, since a steal hands the victim's old end to the new slot.
pub proof fn lemma_restored_total_is_file_size(snapshots: Seq<ChunkSnapshot>, size: u64, k: int)
    requires
        0 <= k < snapshots.len(),
        snapshots[k].end == size,
        forall|i: int| 0 <= i < snapshots.len() ==> (#[trigger] snapshots[i]).end <= size,
    ensures
        snapshots_total(snapshots) == size,
{
    let e = snapshots.map_values(|s: ChunkSnapshot| s.end);
    lemma_seq_max_reaches_bound(e, size, k);
}

proof fn lemma_seq_max_reaches_bound(s: Seq<u64>, bound: u64, k: int)
    requires
        0 <= k < s.len(),
        s[k] == bound,
        forall|i: int| 0 <= i < s.len() ==> #[trigger] s[i] <= bound,
    ensures
        seq_max(s) == bound,
    decreases s.len(),
{
    lemma_seq_max_bounded(s.drop_last(), bound);
    if k < s.len() - 1 {
        lemma_seq_max_reaches_bound(s.drop_last(), bound, k);
    }
}

proof fn lemma_seq_max_bounded(s: Seq<u64>, bound: u64)
    requires
        forall|i: int| 0 <= i < s.len() ==> #[trigger] s[i] <= bound,
    ensures
        seq_max(s) <= bound,
    decreases s.len(),
{
    if s.len() > 0 {
        lemma_seq_max_bounded(s.drop_last(), bound);
    }
}

/// Every one of the first `n` slots ends within `size`, and one of them
/// ends exactly at `size` (it holds the file's last byte).
pub open spec fn slots_reach(ends: Seq<u64>, n: int, size: u64) -> bool {
    &&& forall|i: int| 0 <= i < n ==> #[trigger] ends[i] <= size
    &&& exists|k: int| 0 <= k < n && #[trigger] ends[k] == size
}

/// The chunks of a split reach the file's size: each ends within it and
/// the last one ends at it.
pub proof fn lemma_split_reaches_size(total: u64, m: int, ends: Seq<u64>)
    requires
        m >= 1,
        ends.len() >= m,
        forall|i: int| 0 <= i < m ==> #[trigger] ends[i] == split_boundary(total, m, i + 1),
    ensures
        slots_reach(ends, m, total),
{
    lemma_split_tiles(total, m);
    assert forall|i: int| 0 <= i < m implies #[trigger] ends[i] <= total by {
        assert(split_boundary(total, m, i + 1) <= split_boundary(total, m, m));
    }
    assert(ends[m - 1] == total);
}

/// Adding spare slots after the first `n` keeps them reaching the size.
pub proof fn lemma_spare_slots_keep_reach(values: Seq<u64>, extra: nat, n: int, size: u64)
    requires
        0 <= n <= values.len(),
        slots_reach(values, n, size),
    ensures
        slots_reach(values + Seq::new(extra, |i: int| 0u64), n, size),
{
    let slots = values + Seq::new(extra, |i: int| 0u64);
    assert forall|i: int| 0 <= i < n implies #[trigger] slots[i] <= size by {
        assert(slots[i] == values[i]);
    }
    let k = choose|k: int| 0 <= k < n && #[trigger] values[k] == size;
    assert(slots[k] == values[k]);
}

/// What a pause saves from slots that reach the file's size restores to
/// that size, and the saved slots reach it again, so the next pause and
/// resume keep it too.
pub proof fn lemma_pause_saves_file_size(starts: Seq<u64>, ends: Seq<u64>, downloaded: Seq<u64>, n: int, size: u64)
    requires
        0 <= n <= starts.len(),
        n <= ends.len(),
        n <= downloaded.len(),
        slots_reach(ends, n, size),
    ensures
        snapshots_total(saved_chunks(starts, ends, downloaded, n)) == size,
        slots_reach(saved_chunks(starts, ends, downloaded, n).map_values(|s: ChunkSnapshot| s.end), n, size),
{
    let saved = saved_chunks(starts, ends, downloaded, n);
    let k = choose|k: int| 0 <= k < n && #[trigger] ends[k] == size;
    assert forall|i: int| 0 <= i < saved.len() implies (#[trigger] saved[i]).end <= size by {
        assert(ends[i] <= size);
    }
    lemma_restored_total_is_file_size(saved, size, k);
    let e = saved.map_values(|s: ChunkSnapshot| s.end);
    assert forall|i: int| 0 <= i < n implies #[trigger] e[i] <= size by {
        assert(ends[i] <= size);
    }
    assert(e[k] == size);
}

} // verus!
