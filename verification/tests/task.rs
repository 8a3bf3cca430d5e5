use ophelia::task::{
    backoff_delay_secs, classify_io_error, classify_status, drain_step, next_retry_step, refill_count,
    chunk_stream_step, ChunkError, ChunkOutcome, ChunkStreamEvent, ChunkStreamStop, ChunkWriteState,
    DrainDecision, DrainEvent, DrainState, IoErrorKind, RetryStep,
};

#[test]
fn refused_statuses_are_not_retried() {
    for status in [403u16, 404, 410, 400, 301] {
        assert_eq!(classify_status(status, None), ChunkError::NonRetryable);
    }
}

#[test]
fn server_errors_are_retried() {
    assert_eq!(classify_status(500, Some("7")), ChunkError::Retryable { retry_after_secs: None });
    assert_eq!(classify_status(503, None), ChunkError::Retryable { retry_after_secs: None });
    assert_eq!(classify_status(599, None), ChunkError::Retryable { retry_after_secs: None });
}

#[test]
fn too_many_requests_reads_retry_after() {
    assert_eq!(classify_status(429, Some("12")), ChunkError::Retryable { retry_after_secs: Some(12) });
    assert_eq!(classify_status(429, Some("+3")), ChunkError::Retryable { retry_after_secs: Some(3) });
    assert_eq!(classify_status(429, Some("soon")), ChunkError::Retryable { retry_after_secs: None });
    assert_eq!(classify_status(429, Some(" 5")), ChunkError::Retryable { retry_after_secs: None });
    assert_eq!(classify_status(429, None), ChunkError::Retryable { retry_after_secs: None });
}

#[test]
fn disk_errors_are_fatal_others_retried() {
    assert_eq!(
        classify_io_error(IoErrorKind::StorageFull, "disk full".to_string()),
        ChunkError::Fatal("disk full".to_string())
    );
    assert_eq!(
        classify_io_error(IoErrorKind::PermissionDenied, "denied".to_string()),
        ChunkError::Fatal("denied".to_string())
    );
    assert_eq!(
        classify_io_error(IoErrorKind::Other, "reset".to_string()),
        ChunkError::Retryable { retry_after_secs: None }
    );
}

#[test]
fn backoff_doubles_up_to_thirty_seconds() {
    let delays: Vec<u64> = (0..8).map(backoff_delay_secs).collect();
    assert_eq!(delays, vec![1, 2, 4, 8, 16, 30, 30, 30]);
    assert_eq!(backoff_delay_secs(u32::MAX), 30);
}

#[test]
fn retry_loop_outcomes() {
    assert_eq!(next_retry_step(Ok(()), 2, false, 3), RetryStep::Done(ChunkOutcome::Finished));
    assert_eq!(next_retry_step(Err(ChunkError::Paused), 0, false, 3), RetryStep::Done(ChunkOutcome::Paused));
    assert_eq!(next_retry_step(Err(ChunkError::Killed), 2, false, 3), RetryStep::Reconnect);
    assert_eq!(next_retry_step(Err(ChunkError::NonRetryable), 0, false, 3), RetryStep::Done(ChunkOutcome::Failed));
    assert_eq!(
        next_retry_step(Err(ChunkError::Fatal("x".to_string())), 0, true, 3),
        RetryStep::Done(ChunkOutcome::Failed)
    );
}

#[test]
fn retries_count_only_fruitless_attempts() {
    let retryable = || Err(ChunkError::Retryable { retry_after_secs: None });
    assert_eq!(next_retry_step(retryable(), 0, false, 3), RetryStep::Retry { attempt: 1, delay_secs: 2 });
    assert_eq!(next_retry_step(retryable(), 1, false, 3), RetryStep::Retry { attempt: 2, delay_secs: 4 });
    assert_eq!(next_retry_step(retryable(), 2, false, 3), RetryStep::Done(ChunkOutcome::Failed));
    // Progress resets the count.
    assert_eq!(next_retry_step(retryable(), 2, true, 3), RetryStep::Retry { attempt: 0, delay_secs: 1 });
    // The server's Retry-After wins over the back-off.
    assert_eq!(
        next_retry_step(Err(ChunkError::Retryable { retry_after_secs: Some(9) }), 0, false, 3),
        RetryStep::Retry { attempt: 1, delay_secs: 9 }
    );
}

#[test]
fn drain_ramps_up_and_steals_when_queue_is_empty() {
    let s = DrainState { current_limit: 1, paused: false, all_ok: true };
    let d = drain_step(s, DrainEvent::Ended(ChunkOutcome::Finished), 8, false);
    assert_eq!(d, DrainDecision { state: DrainState { current_limit: 2, ..s }, try_steal: false, refill: true });
    let d = drain_step(DrainState { current_limit: 6, ..s }, DrainEvent::Ended(ChunkOutcome::Finished), 8, true);
    assert_eq!(d.state.current_limit, 8);
    assert!(d.try_steal);
}

#[test]
fn drain_pause_and_failure_are_sticky() {
    let s = DrainState { current_limit: 4, paused: false, all_ok: true };
    let d = drain_step(s, DrainEvent::Ended(ChunkOutcome::Paused), 8, true);
    assert!(d.state.paused);
    assert!(!d.refill);
    let d2 = drain_step(d.state, DrainEvent::Ended(ChunkOutcome::Failed), 8, true);
    assert!(d2.state.paused && d2.state.all_ok);
    let d3 = drain_step(d.state, DrainEvent::Ended(ChunkOutcome::Finished), 8, true);
    assert_eq!(d3.state.current_limit, 4);
    assert!(!d3.try_steal);
    let f = drain_step(s, DrainEvent::Ended(ChunkOutcome::Failed), 8, true);
    assert!(!f.state.all_ok && f.refill);
    let p = drain_step(s, DrainEvent::Panicked, 8, true);
    assert!(!p.state.all_ok && !p.refill);
}

#[test]
fn refill_fills_up_to_limit() {
    assert_eq!(refill_count(1, 4, 10), 3);
    assert_eq!(refill_count(1, 4, 2), 2);
    assert_eq!(refill_count(5, 4, 2), 0);
}

#[test]
fn chunk_stream_buffers_and_flushes() {
    let s0 = ChunkWriteState { written: 0, buffered: 0 };
    let a = chunk_stream_step(s0, ChunkStreamEvent::Received(10), 16);
    assert!(!a.flush && a.stop.is_none());
    assert_eq!(a.next, ChunkWriteState { written: 0, buffered: 10 });
    let b = chunk_stream_step(a.next, ChunkStreamEvent::Received(10), 16);
    assert!(b.flush);
    assert_eq!(b.next, ChunkWriteState { written: 20, buffered: 0 });
}

#[test]
fn pause_and_kill_flush_before_stopping() {
    let held = ChunkWriteState { written: 32, buffered: 5 };
    let p = chunk_stream_step(held, ChunkStreamEvent::PauseRequested, 16);
    assert!(p.flush);
    assert_eq!(p.next, ChunkWriteState { written: 37, buffered: 0 });
    assert_eq!(p.stop, Some(ChunkStreamStop::Paused));
    let k = chunk_stream_step(held, ChunkStreamEvent::KillRequested, 16);
    assert_eq!((k.flush, k.stop), (true, Some(ChunkStreamStop::Killed)));
    let e = chunk_stream_step(held, ChunkStreamEvent::StreamEnded, 16);
    assert_eq!((e.flush, e.stop), (true, Some(ChunkStreamStop::Finished)));
    let empty = chunk_stream_step(ChunkWriteState { written: 3, buffered: 0 }, ChunkStreamEvent::PauseRequested, 16);
    assert!(!empty.flush);
    let f = chunk_stream_step(held, ChunkStreamEvent::StreamFailed, 16);
    assert_eq!((f.flush, f.next, f.stop), (false, held, Some(ChunkStreamStop::Retry)));
}
