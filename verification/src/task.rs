//! Decisions of the HTTP download pipeline: how a failed chunk request is
//! classified, when and after how long it is retried, and how the drain
//! loop ramps up concurrency and records pauses and failures.

use vstd::prelude::*;
use crate::text::{parse_u64, parse_u64_spec};

verus! {

/// Classification of chunk-level errors, used to decide whether to retry.
#[derive(Debug, Clone, PartialEq, Eq)]
pub enum ChunkError {
    /// Transient failure; `retry_after_secs` comes from the Retry-After
    /// header of a 429 answer.
    Retryable { retry_after_secs: Option<u64> },
    /// The server refused definitively (403, 404, 410); retrying won't help.
    NonRetryable,
    /// Local failure (disk full, permission denied); stops the whole download.
    Fatal(String),
    /// A soft pause was requested; exit cleanly and save state.
    Paused,
    /// The health monitor killed this connection for being too slow; retry
    /// on a fresh connection.
    Killed,
}

/// The kind of a local input/output failure, as far as classification cares.
#[derive(Debug, Clone, Copy, PartialEq, Eq, Structural)]
pub enum IoErrorKind {
    StorageFull,
    PermissionDenied,
    Other,
}

/// How a chunk task ended, as reported to the drain loop.
#[derive(Debug, Clone, Copy, PartialEq, Eq, Structural)]
pub enum ChunkOutcome {
    Finished,
    Paused,
    Failed,
}

/// The error a non-success HTTP status stands for.
pub open spec fn classify_status_spec(status: u16, retry_after: Option<Seq<char>>) -> ChunkError {
    if status == 403 || status == 404 || status == 410 {
        ChunkError::NonRetryable
    } else if status == 429 {
        ChunkError::Retryable {
            retry_after_secs: match retry_after {
                Some(v) => parse_u64_spec(v),
                None => None,
            },
        }
    } else if 500 <= status <= 599 {
        ChunkError::Retryable { retry_after_secs: None }
    } else {
        ChunkError::NonRetryable
    }
}

/// Classifies a non-success HTTP status. `retry_after` is the text of the
/// Retry-After header, when there is one and it is valid text.
pub fn classify_status(status: u16, retry_after: Option<&str>) -> (e: ChunkError)
    ensures
        e == classify_status_spec(
            status,
            match retry_after {
                Some(v) => Some(v@),
                None => None,
            },
        ),
        500 <= status <= 599 ==> e == (ChunkError::Retryable { retry_after_secs: None }),
        (e == ChunkError::NonRetryable) == (status == 403 || status == 404 || status == 410 || !(
        status == 429 || 500 <= status <= 599)),
        status == 429 ==> e is Retryable,
{
    if status == 403 || status == 404 || status == 410 {
        ChunkError::NonRetryable
    } else if status == 429 {
        let retry_after_secs = match retry_after {
            Some(v) => parse_u64(v),
            None => None,
        };
        ChunkError::Retryable { retry_after_secs }
    } else if 500 <= status && status <= 599 {
        ChunkError::Retryable { retry_after_secs: None }
    } else {
        ChunkError::NonRetryable
    }
}

/// What classification means for every status: a server error (500-599)
/// is always retried with the back-off (no Retry-After), 429 is retried,
/// and the answer is "not retryable" exactly for 403, 404, 410 and for the
/// statuses that are neither 429 nor a server error.
pub proof fn lemma_classify_status_meaning(status: u16, retry_after: Option<Seq<char>>)
    ensures
        500 <= status <= 599 ==> classify_status_spec(status, retry_after) == (ChunkError::Retryable {
            retry_after_secs: None,
        }),
        (classify_status_spec(status, retry_after) == ChunkError::NonRetryable) == (status == 403 || status
            == 404 || status == 410 || !(status == 429 || 500 <= status <= 599)),
        status == 429 ==> classify_status_spec(status, retry_after) is Retryable,
        !(classify_status_spec(status, retry_after) is Fatal),
{
}

/// Classifies a local write failure: a full disk or a refused permission is
/// fatal (carrying the error's message), anything else is worth a retry.
pub fn classify_io_error(kind: IoErrorKind, message: String) -> (e: ChunkError)
    ensures
        (kind == IoErrorKind::StorageFull || kind == IoErrorKind::PermissionDenied) ==> e
            == ChunkError::Fatal(message),
        kind == IoErrorKind::Other ==> e == (ChunkError::Retryable { retry_after_secs: None }),
{
    match kind {
        IoErrorKind::StorageFull | IoErrorKind::PermissionDenied => ChunkError::Fatal(message),
        IoErrorKind::Other => ChunkError::Retryable { retry_after_secs: None },
    }
}

/// Longest back-off between two attempts, in seconds.
pub const MAX_BACKOFF_SECS: u64 = 30;

/// `2^n` for small `n`.
pub open spec fn pow2(n: nat) -> nat
    decreases n,
{
    if n == 0 { 1 } else { 2 * pow2((n - 1) as nat) }
}

/// Exponential back-off after `attempt` consecutive failures:
/// `2^min(attempt, 5)` seconds, at most `MAX_BACKOFF_SECS`.
pub open spec fn backoff_secs(attempt: u32) -> u64 {
    let e: nat = if attempt < 5 { attempt as nat } else { 5 };
    if pow2(e) < MAX_BACKOFF_SECS { pow2(e) as u64 } else { MAX_BACKOFF_SECS }
}

/// Computes `backoff_secs`.
pub fn backoff_delay_secs(attempt: u32) -> (secs: u64)
    ensures
        secs == backoff_secs(attempt),
        1 <= secs <= MAX_BACKOFF_SECS,
{
    let e: u32 = if attempt < 5 {
        attempt
    } else {
        5
    };
    let mut p: u64 = 1;
    let mut k: u32 = 0;
    while k < e
        invariant
            k <= e <= 5,
            p == pow2(k as nat),
            1 <= p <= 32,
        decreases e - k,
    {
        p = p * 2;
        k += 1;
        proof {
            assert(pow2(k as nat) == 2 * pow2((k - 1) as nat));
            if k <= 5 {
                reveal_with_fuel(pow2, 6);
            }
        }
    }
    if p < MAX_BACKOFF_SECS {
        p
    } else {
        MAX_BACKOFF_SECS
    }
}

/// What the retry loop of one chunk does next.
#[derive(Debug, Clone, Copy, PartialEq, Eq, Structural)]
pub enum RetryStep {
    /// Stop and report this outcome.
    Done(ChunkOutcome),
    /// Reconnect at once (the health monitor killed a slow connection).
    Reconnect,
    /// Wait `delay_secs`, then try again; `attempt` is the new count of
    /// consecutive attempts that made no progress.
    Retry { attempt: u32, delay_secs: u64 },
}

/// The next step of a chunk's retry loop after one attempt.
pub open spec fn retry_step_spec(
    result: Result<(), ChunkError>,
    attempt: u32,
    progressed: bool,
    max_retries: u32,
) -> RetryStep {
    match result {
        Ok(()) => RetryStep::Done(ChunkOutcome::Finished),
        Err(ChunkError::Paused) => RetryStep::Done(ChunkOutcome::Paused),
        Err(ChunkError::Killed) => RetryStep::Reconnect,
        Err(ChunkError::Fatal(_)) => RetryStep::Done(ChunkOutcome::Failed),
        Err(ChunkError::NonRetryable) => RetryStep::Done(ChunkOutcome::Failed),
        Err(ChunkError::Retryable { retry_after_secs }) => {
            let next: int = if progressed { 0 } else { attempt + 1 };
            if next >= max_retries {
                RetryStep::Done(ChunkOutcome::Failed)
            } else {
                RetryStep::Retry {
                    attempt: next as u32,
                    delay_secs: match retry_after_secs {
                        Some(s) => s,
                        None => backoff_secs(next as u32),
                    },
                }
            }
        },
    }
}

/// Back-off doubles from one second per fruitless attempt and is capped at
/// thirty seconds from the fifth on.
pub proof fn lemma_backoff_doubles(attempt: u32)
    ensures
        backoff_secs(0) == 1,
        attempt < 4 ==> backoff_secs((attempt + 1) as u32) == 2 * backoff_secs(attempt),
        attempt >= 5 ==> backoff_secs(attempt) == MAX_BACKOFF_SECS,
        backoff_secs(4) == 16,
        1 <= backoff_secs(attempt) <= MAX_BACKOFF_SECS,
{
    reveal_with_fuel(pow2, 6);
}

/// What the retry loop does after an attempt: a finished, paused, killed,
/// fatal or refused attempt never waits; a killed connection is retried at
/// once without touching the count; a transient failure counts one more
/// fruitless attempt (or restarts the count after progress), fails once
/// the count reaches `max_retries`, and otherwise waits the server's
/// Retry-After when given, else the back-off for the new count.
pub proof fn lemma_retry_step_meaning(result: Result<(), ChunkError>, attempt: u32, progressed: bool, max_retries: u32)
    requires
        attempt < u32::MAX,
    ensures
        result is Ok ==> retry_step_spec(result, attempt, progressed, max_retries) == RetryStep::Done(ChunkOutcome::Finished),
        result == Err::<(), ChunkError>(ChunkError::Paused) ==> retry_step_spec(result, attempt, progressed, max_retries)
            == RetryStep::Done(ChunkOutcome::Paused),
        result == Err::<(), ChunkError>(ChunkError::Killed) ==> retry_step_spec(result, attempt, progressed, max_retries)
            == RetryStep::Reconnect,
        result == Err::<(), ChunkError>(ChunkError::NonRetryable) ==> retry_step_spec(result, attempt, progressed, max_retries)
            == RetryStep::Done(ChunkOutcome::Failed),
        (result matches Err(ChunkError::Fatal(_))) ==> retry_step_spec(result, attempt, progressed, max_retries)
            == RetryStep::Done(ChunkOutcome::Failed),
        result matches Err(ChunkError::Retryable { retry_after_secs: ra }) ==> {
            let next: int = if progressed { 0 } else { attempt + 1 };
            &&& next >= max_retries ==> retry_step_spec(result, attempt, progressed, max_retries) == RetryStep::Done(ChunkOutcome::Failed)
            &&& next < max_retries ==> (retry_step_spec(result, attempt, progressed, max_retries) matches RetryStep::Retry {
                attempt: a,
                delay_secs: d,
            } && a == next && (ra matches Some(sa) ==> d == sa) && (ra is None
                ==> d == backoff_secs(a) && 1 <= d <= MAX_BACKOFF_SECS))
        },
{
    match result {
        Err(ChunkError::Retryable { retry_after_secs }) => {
            let next: int = if progressed { 0 } else { attempt + 1 };
            if next < max_retries {
                lemma_backoff_doubles(next as u32);
            }
        },
        _ => {},
    }
}

/// Decides what a chunk's retry loop does after an attempt ended with
/// `result`. `attempt` counts the consecutive attempts that made no
/// progress; an attempt that wrote bytes (`progressed`) resets the count.
/// After `max_retries` fruitless attempts the chunk fails; otherwise it waits
/// for the server's Retry-After, or else for the exponential back-off.
pub fn next_retry_step(result: Result<(), ChunkError>, attempt: u32, progressed: bool, max_retries: u32) -> (step: RetryStep)
    requires
        attempt < u32::MAX,
    ensures
        step == retry_step_spec(result, attempt, progressed, max_retries),
{
    match result {
        Ok(()) => RetryStep::Done(ChunkOutcome::Finished),
        Err(ChunkError::Paused) => RetryStep::Done(ChunkOutcome::Paused),
        Err(ChunkError::Killed) => RetryStep::Reconnect,
        Err(ChunkError::Fatal(_)) => RetryStep::Done(ChunkOutcome::Failed),
        Err(ChunkError::NonRetryable) => RetryStep::Done(ChunkOutcome::Failed),
        Err(ChunkError::Retryable { retry_after_secs }) => {
            let next = if progressed {
                0
            } else {
                attempt + 1
            };
            if next >= max_retries {
                RetryStep::Done(ChunkOutcome::Failed)
            } else {
                let delay_secs = match retry_after_secs {
                    Some(s) => s,
                    None => backoff_delay_secs(next),
                };
                RetryStep::Retry { attempt: next, delay_secs }
            }
        },
    }
}

/// State of the drain loop that collects finished chunk tasks.
#[derive(Debug, Clone, Copy, PartialEq, Eq, Structural)]
pub struct DrainState {
    /// How many chunk tasks may run at once.
    pub current_limit: usize,
    /// A chunk reported a pause; no new work is started.
    pub paused: bool,
    /// No chunk has failed (or panicked) so far.
    pub all_ok: bool,
}

/// What ended one chunk task: its outcome, or a panic.
#[derive(Debug, Clone, Copy, PartialEq, Eq, Structural)]
pub enum DrainEvent {
    Ended(ChunkOutcome),
    Panicked,
}

/// The drain loop's response to one ended chunk task.
#[derive(Debug, Clone, Copy, PartialEq, Eq, Structural)]
pub struct DrainDecision {
    pub state: DrainState,
    /// Try to split the largest active chunk (nothing is queued).
    pub try_steal: bool,
    /// Start queued chunks until `state.current_limit` tasks run.
    pub refill: bool,
}

/// The loop starts with one task allowed at a time.
pub open spec fn initial_drain_state() -> DrainState {
    DrainState { current_limit: 1, paused: false, all_ok: true }
}

pub open spec fn drain_step_spec(
    state: DrainState,
    event: DrainEvent,
    total_slots: usize,
    pending_empty: bool,
) -> DrainDecision {
    match event {
        DrainEvent::Panicked => DrainDecision {
            state: DrainState { all_ok: false, ..state },
            try_steal: false,
            refill: false,
        },
        DrainEvent::Ended(outcome) => {
            let state2 = match outcome {
                ChunkOutcome::Finished => if state.paused {
                    state
                } else {
                    let doubled = state.current_limit * 2;
                    DrainState {
                        current_limit: if doubled < total_slots { doubled as usize } else { total_slots },
                        ..state
                    }
                },
                ChunkOutcome::Paused => DrainState { paused: true, ..state },
                ChunkOutcome::Failed => if state.paused { state } else { DrainState { all_ok: false, ..state } },
            };
            DrainDecision {
                state: state2,
                try_steal: outcome == ChunkOutcome::Finished && !state.paused && pending_empty,
                refill: !state2.paused,
            }
        },
    }
}

/// What one drain step does: a finished chunk (before any pause) doubles
/// the limit up to the number of slots and asks for a steal exactly when
/// nothing is queued; a pause sets the pause flag and stops new work; a
/// failure before a pause, or a panic, marks the download failed; a panic
/// starts nothing; after a pause nothing but the pause changes.
pub proof fn lemma_drain_step_meaning(state: DrainState, event: DrainEvent, total_slots: usize, pending_empty: bool)
    requires
        state.current_limit * 2 <= usize::MAX,
    ensures
        ({
            let d = drain_step_spec(state, event, total_slots, pending_empty);
            &&& (event == DrainEvent::Ended(ChunkOutcome::Finished) && !state.paused) ==> (d.state.current_limit
                == if 2 * state.current_limit < total_slots { 2 * state.current_limit } else { total_slots as int })
                && d.state.paused == state.paused && d.state.all_ok == state.all_ok
            &&& d.try_steal == (event == DrainEvent::Ended(ChunkOutcome::Finished) && !state.paused && pending_empty)
            &&& event == DrainEvent::Ended(ChunkOutcome::Paused) ==> d.state.paused && !d.refill
                && d.state.current_limit == state.current_limit && d.state.all_ok == state.all_ok
            &&& (event == DrainEvent::Ended(ChunkOutcome::Failed) && !state.paused) ==> !d.state.all_ok && d.refill
                && d.state.current_limit == state.current_limit
            &&& event == DrainEvent::Panicked ==> !d.state.all_ok && !d.refill && d.state.paused == state.paused
                && d.state.current_limit == state.current_limit
            &&& state.paused ==> d.state.current_limit == state.current_limit && d.state.paused && !d.refill
                && (event != DrainEvent::Panicked ==> d.state.all_ok == state.all_ok)
            &&& (event != DrainEvent::Panicked && !state.paused && event != DrainEvent::Ended(ChunkOutcome::Paused)) ==> d.refill
        }),
{
}

/// One step of the drain loop. A finished chunk doubles the concurrency
/// limit (up to the number of slots) and, when nothing is queued, asks for a
/// steal; a pause stops all new work; a failure (or panic) marks the download
/// as failed. Outcomes that arrive after a pause change nothing but the pause
/// itself.
pub fn drain_step(state: DrainState, event: DrainEvent, total_slots: usize, pending_empty: bool) -> (d: DrainDecision)
    requires
        state.current_limit * 2 <= usize::MAX,
    ensures
        d == drain_step_spec(state, event, total_slots, pending_empty),
        state.current_limit <= total_slots ==> d.state.current_limit <= total_slots,
        state.paused ==> d.state.paused,
        !state.all_ok ==> !d.state.all_ok,
{
    match event {
        DrainEvent::Panicked => DrainDecision {
            state: DrainState { all_ok: false, ..state },
            try_steal: false,
            refill: false,
        },
        DrainEvent::Ended(outcome) => {
            let state2 = match outcome {
                ChunkOutcome::Finished => if state.paused {
                    state
                } else {
                    let doubled = state.current_limit * 2;
                    DrainState {
                        current_limit: if doubled < total_slots {
                            doubled
                        } else {
                            total_slots
                        },
                        ..state
                    }
                },
                ChunkOutcome::Paused => DrainState { paused: true, ..state },
                ChunkOutcome::Failed => if state.paused {
                    state
                } else {
                    DrainState { all_ok: false, ..state }
                },
            };
            let finished = match outcome {
                ChunkOutcome::Finished => true,
                _ => false,
            };
            DrainDecision {
                state: state2,
                try_steal: finished && !state.paused && pending_empty,
                refill: !state2.paused,
            }
        },
    }
}

/// How many queued chunks to start so that at most `limit` tasks run.
pub open spec fn refill_spec(running: int, limit: int, queued: int) -> int {
    if running >= limit { 0 } else if limit - running < queued { limit - running } else { queued }
}

/// Refilling starts as many queued chunks as the limit allows: nothing when
/// the limit is already reached, otherwise `min(limit - running, queued)`,
/// so at least one whenever there is room and something is queued, and
/// never more than there is room for or than is queued.
pub proof fn lemma_refill_fills_free_places(running: int, limit: int, queued: int)
    requires
        0 <= running,
        0 <= queued,
    ensures
        running >= limit ==> refill_spec(running, limit, queued) == 0,
        running < limit ==> refill_spec(running, limit, queued) == (if limit - running < queued {
            limit - running
        } else {
            queued
        }),
        running < limit && queued > 0 ==> refill_spec(running, limit, queued) > 0,
        0 <= refill_spec(running, limit, queued) <= queued,
        running < limit ==> running + refill_spec(running, limit, queued) <= limit,
        running < limit ==> (refill_spec(running, limit, queued) == queued || running + refill_spec(running, limit, queued) == limit),
{
}

/// How many queued chunks to start so that at most `limit` tasks run.
pub fn refill_count(running: usize, limit: usize, queued: usize) -> (n: usize)
    ensures
        n as int == refill_spec(running as int, limit as int, queued as int),
        running < limit && queued > 0 ==> n > 0,
        running < limit ==> (n == queued || running + n == limit),
        running + n <= limit || n == 0,
        n <= queued,
{
    if running >= limit {
        0
    } else if limit - running < queued {
        limit - running
    } else {
        queued
    }
}

/// Write progress of one chunk request: bytes already written to the file
/// (and counted in the slot's counter) and bytes received but still held
/// in the write buffer.
#[derive(Debug, Clone, Copy, PartialEq, Eq, Structural)]
pub struct ChunkWriteState {
    pub written: u64,
    pub buffered: u64,
}

/// What happened while a chunk's response was streaming in. A stalled or
/// broken stream is `StreamFailed`.
#[derive(Debug, Clone, Copy, PartialEq, Eq, Structural)]
pub enum ChunkStreamEvent {
    PauseRequested,
    KillRequested,
    Received(u64),
    StreamEnded,
    StreamFailed,
}

/// Why a chunk request stops.
#[derive(Debug, Clone, Copy, PartialEq, Eq, Structural)]
pub enum ChunkStreamStop {
    Finished,
    Paused,
    Killed,
    Retry,
}

/// The response to one streaming event: whether to write the buffer out
/// (at the chunk's first requested byte plus `written`), the state once
/// that write has been made, and whether the request stops.
#[derive(Debug, Clone, Copy, PartialEq, Eq, Structural)]
pub struct ChunkStreamStep {
    pub flush: bool,
    pub next: ChunkWriteState,
    pub stop: Option<ChunkStreamStop>,
}

/// The state after writing out the whole buffer.
pub open spec fn flushed(s: ChunkWriteState) -> ChunkWriteState {
    ChunkWriteState { written: (s.written + s.buffered) as u64, buffered: 0 }
}

pub open spec fn chunk_stream_step_spec(state: ChunkWriteState, event: ChunkStreamEvent, write_buffer_size: u64) -> ChunkStreamStep {
    match event {
        ChunkStreamEvent::PauseRequested => ChunkStreamStep {
            flush: state.buffered > 0,
            next: flushed(state),
            stop: Some(ChunkStreamStop::Paused),
        },
        ChunkStreamEvent::KillRequested => ChunkStreamStep {
            flush: state.buffered > 0,
            next: flushed(state),
            stop: Some(ChunkStreamStop::Killed),
        },
        ChunkStreamEvent::Received(n) => {
            let held = state.buffered + n;
            if held >= write_buffer_size {
                ChunkStreamStep {
                    flush: true,
                    next: ChunkWriteState { written: (state.written + held) as u64, buffered: 0 },
                    stop: None,
                }
            } else {
                ChunkStreamStep {
                    flush: false,
                    next: ChunkWriteState { written: state.written, buffered: held as u64 },
                    stop: None,
                }
            }
        },
        ChunkStreamEvent::StreamEnded => ChunkStreamStep {
            flush: state.buffered > 0,
            next: flushed(state),
            stop: Some(ChunkStreamStop::Finished),
        },
        ChunkStreamEvent::StreamFailed => ChunkStreamStep {
            flush: false,
            next: state,
            stop: Some(ChunkStreamStop::Retry),
        },
    }
}

/// Buffering decision for a chunk's response: received bytes are held
/// until the buffer reaches `write_buffer_size`, then written out. On a
/// pause or a kill, and at the end of the stream, whatever is held is
/// written before stopping, so the counter the pause saves matches the
/// bytes on disk. A failed stream stops without writing the held bytes (they
/// are fetched again), so the counter never counts bytes not on disk.
pub fn chunk_stream_step(state: ChunkWriteState, event: ChunkStreamEvent, write_buffer_size: u64) -> (step: ChunkStreamStep)
    requires
        state.written + state.buffered + (match event {
            ChunkStreamEvent::Received(n) => n,
            _ => 0,
        }) <= u64::MAX,
    ensures
        step == chunk_stream_step_spec(state, event, write_buffer_size),
{
    match event {
        ChunkStreamEvent::PauseRequested => ChunkStreamStep {
            flush: state.buffered > 0,
            next: ChunkWriteState { written: state.written + state.buffered, buffered: 0 },
            stop: Some(ChunkStreamStop::Paused),
        },
        ChunkStreamEvent::KillRequested => ChunkStreamStep {
            flush: state.buffered > 0,
            next: ChunkWriteState { written: state.written + state.buffered, buffered: 0 },
            stop: Some(ChunkStreamStop::Killed),
        },
        ChunkStreamEvent::Received(n) => {
            let held = state.buffered + n;
            if held >= write_buffer_size {
                ChunkStreamStep {
                    flush: true,
                    next: ChunkWriteState { written: state.written + held, buffered: 0 },
                    stop: None,
                }
            } else {
                ChunkStreamStep {
                    flush: false,
                    next: ChunkWriteState { written: state.written, buffered: held },
                    stop: None,
                }
            }
        },
        ChunkStreamEvent::StreamEnded => ChunkStreamStep {
            flush: state.buffered > 0,
            next: ChunkWriteState { written: state.written + state.buffered, buffered: 0 },
            stop: Some(ChunkStreamStop::Finished),
        },
        ChunkStreamEvent::StreamFailed => ChunkStreamStep { flush: false, next: state, stop: Some(ChunkStreamStop::Retry) },
    }
}

/// Nothing received is lost or counted twice: every step keeps
/// `written + buffered` equal to the bytes received (a failed stream drops
/// only what was never written); a flush writes exactly the held bytes; and
/// a request that stops because of a pause, a kill or the stream's end
/// holds nothing back, so the written count (the slot's counter, which a
/// pause saves) covers every byte received.
pub proof fn lemma_chunk_stream_accounting(state: ChunkWriteState, event: ChunkStreamEvent, write_buffer_size: u64)
    requires
        state.written + state.buffered + (match event {
            ChunkStreamEvent::Received(n) => n,
            _ => 0,
        }) <= u64::MAX,
    ensures
        ({
            let step = chunk_stream_step_spec(state, event, write_buffer_size);
            let received: int = match event {
                ChunkStreamEvent::Received(n) => n as int,
                _ => 0,
            };
            &&& event != ChunkStreamEvent::StreamFailed ==> step.next.written + step.next.buffered
                == state.written + state.buffered + received
            &&& event == ChunkStreamEvent::StreamFailed ==> step.next == state
            &&& step.flush ==> step.next.buffered == 0 && step.next.written == state.written + state.buffered + received
            &&& !step.flush ==> step.next.written == state.written
            &&& (step.stop == Some(ChunkStreamStop::Paused) || step.stop == Some(ChunkStreamStop::Killed)
                || step.stop == Some(ChunkStreamStop::Finished)) ==> step.next.buffered == 0
        }),
{
}

/// When received bytes are written: exactly when the held bytes reach the
/// write buffer's size, and then all of them; below that size nothing is
/// written and the bytes are held.
pub proof fn lemma_chunk_stream_flush_threshold(state: ChunkWriteState, n: u64, write_buffer_size: u64)
    requires
        state.written + state.buffered + n <= u64::MAX,
    ensures
        ({
            let step = chunk_stream_step_spec(state, ChunkStreamEvent::Received(n), write_buffer_size);
            &&& step.flush == (state.buffered + n >= write_buffer_size)
            &&& step.stop is None
            &&& !step.flush ==> step.next.buffered == state.buffered + n && step.next.written == state.written
            &&& step.flush ==> step.next.buffered == 0 && step.next.written == state.written + state.buffered + n
        }),
{
}

/// One turn of the drain loop once a chunk task has ended: of `running`
/// tasks (the ended one included) one is gone, a steal (when asked for and
/// made: `stole`) queues one new slot, and queued chunks are started up to
/// the new limit. Gives the new state, running count and queue length.
pub open spec fn drain_turn(
    state: DrainState,
    running: int,
    queued: int,
    event: DrainEvent,
    total_slots: usize,
    stole: bool,
) -> (DrainState, int, int) {
    let d = drain_step_spec(state, event, total_slots, queued == 0);
    let q1 = queued + if stole && d.try_steal { 1int } else { 0int };
    let r1 = running - 1;
    let n = if d.refill { refill_spec(r1, d.state.current_limit as int, q1) } else { 0 };
    (d.state, r1 + n, q1 - n)
}

/// The drain loop starts one chunk (when there is one) with a limit of one.
pub proof fn lemma_in_flight_initially(initial_chunks: int)
    requires
        0 <= initial_chunks,
    ensures
        ({
            let running = if initial_chunks > 0 { 1int } else { 0int };
            &&& running <= initial_drain_state().current_limit
            &&& running + (initial_chunks - running) <= initial_chunks
        }),
{
}

/// Tasks in flight never exceed the number `n` of chunks the download
/// started with: running and queued chunks together stay within `n` (a
/// steal only queues a slot after a task has ended), running tasks stay
/// within the concurrency limit, and the limit stays within the slots. In
/// particular, until the first task ends at most one runs.
pub proof fn lemma_in_flight_bound(
    n: int,
    state: DrainState,
    running: int,
    queued: int,
    event: DrainEvent,
    total_slots: usize,
    stole: bool,
)
    requires
        1 <= running,
        0 <= queued,
        running + queued <= n,
        running <= state.current_limit,
        state.current_limit <= total_slots,
    ensures
        ({
            let (s2, r2, q2) = drain_turn(state, running, queued, event, total_slots, stole);
            &&& 0 <= r2
            &&& 0 <= q2
            &&& r2 + q2 <= n
            &&& r2 <= s2.current_limit
            &&& s2.current_limit <= total_slots
        }),
{
}

/// Where a run of the drain loop starts: limit one, the first of the
/// `pending` chunks running (if any) and the rest queued.
pub open spec fn initial_run_state(pending: int) -> (DrainState, int, int) {
    let running: int = if pending > 0 { 1 } else { 0 };
    (initial_drain_state(), running, pending - running)
}

/// The state (drain state, running tasks, queued chunks) after the first
/// `k` turns of a run; turn `j` is the ending event and whether a steal
/// queued a slot.
pub open spec fn run_after(
    start: (DrainState, int, int),
    turns: Seq<(DrainEvent, bool)>,
    total_slots: usize,
    k: int,
) -> (DrainState, int, int)
    decreases k,
{
    if k <= 0 {
        start
    } else {
        let prev = run_after(start, turns, total_slots, k - 1);
        drain_turn(prev.0, prev.1, prev.2, turns[k - 1].0, total_slots, turns[k - 1].1)
    }
}

/// Running and queued chunks stay within `n`, running ones within the
/// limit, the limit within the slots.
pub open spec fn in_flight_within(st: (DrainState, int, int), n: int, total_slots: usize) -> bool {
    &&& 0 <= st.1
    &&& 0 <= st.2
    &&& st.1 + st.2 <= n
    &&& st.1 <= st.0.current_limit
    &&& st.0.current_limit <= total_slots
}

/// Over a whole run of the drain loop (any sequence of turns, each taken
/// when a task has ended, so at least one was running), tasks in flight
/// never exceed the `n` chunks the download started with (of which
/// `pending` were unfinished): stolen slots only take the place of finished
/// tasks. Before the first turn at most one task runs.
pub proof fn lemma_in_flight_whole_run(
    n: int,
    pending: int,
    total_slots: usize,
    turns: Seq<(DrainEvent, bool)>,
    k: int,
)
    requires
        0 <= pending <= n,
        total_slots >= 1,
        0 <= k <= turns.len(),
        forall|j: int| 0 <= j < k ==> (#[trigger] run_after(initial_run_state(pending), turns, total_slots, j)).1 >= 1,
    ensures
        in_flight_within(run_after(initial_run_state(pending), turns, total_slots, k), n, total_slots),
        run_after(initial_run_state(pending), turns, total_slots, 0).1 <= 1,
    decreases k,
{
    if k > 0 {
        lemma_in_flight_whole_run(n, pending, total_slots, turns, k - 1);
        let prev = run_after(initial_run_state(pending), turns, total_slots, k - 1);
        assert(prev.1 >= 1);
        lemma_in_flight_bound(n, prev.0, prev.1, prev.2, turns[k - 1].0, total_slots, turns[k - 1].1);
    }
}

} // verus!
