use ophelia::plan::{
    chunk_list_from_snapshots, chunk_request_range, completion, completion_update, download_ending, downloaded_total,
    initial_chunk_count, part_file_name, pause_snapshots, pending_chunks, probe_result_from_response,
    split, with_spare_slots, ChunkSnapshot, ChunkStatus, Completion, ProbeResult,
};
use ophelia::types::{DownloadId, DownloadStatus};

#[test]
fn split_tiles_the_file() {
    let chunks = split(100, 3);
    assert_eq!(chunks.starts, vec![0, 33, 66]);
    assert_eq!(chunks.ends, vec![33, 66, 100]);
    assert_eq!(chunks.downloaded, vec![0, 0, 0]);
    assert!(chunks.statuses.iter().all(|s| *s == ChunkStatus::Pending));
    let one = split(50, 0);
    assert_eq!((one.starts, one.ends), (vec![0], vec![50]));
}

#[test]
fn resume_restores_chunks_and_total() {
    let snapshots = vec![
        ChunkSnapshot { start: 0, end: 50, downloaded: 50 },
        ChunkSnapshot { start: 50, end: 100, downloaded: 20 },
        ChunkSnapshot { start: 100, end: 100, downloaded: 0 },
    ];
    let (total, chunks) = chunk_list_from_snapshots(&snapshots);
    assert_eq!(total, 100);
    assert_eq!(chunks.len(), 3);
    assert_eq!(chunks.starts, vec![0, 50, 100]);
    assert_eq!(chunks.downloaded, vec![50, 20, 0]);
    assert_eq!(chunks.statuses, vec![ChunkStatus::Finished, ChunkStatus::Pending, ChunkStatus::Finished]);
    assert_eq!(pending_chunks(&chunks.statuses), vec![1]);
    let (empty_total, empty) = chunk_list_from_snapshots(&[]);
    assert_eq!(empty_total, 0);
    assert_eq!(empty.len(), 0);
}

#[test]
fn pause_then_resume_round_trips() {
    let starts = [0u64, 40, 70, 0];
    let ends = [40u64, 70, 100, 0];
    let downloaded = [40u64, 10, 0, 0];
    let saved = pause_snapshots(&starts, &ends, &downloaded, 3);
    assert_eq!(saved.len(), 3);
    let (total, chunks) = chunk_list_from_snapshots(&saved);
    assert_eq!(total, 100);
    assert_eq!(chunks.starts, starts[..3].to_vec());
    assert_eq!(chunks.ends, ends[..3].to_vec());
    assert_eq!(chunks.downloaded, downloaded[..3].to_vec());
}

#[test]
fn totals_and_spare_slots() {
    assert_eq!(downloaded_total(&[5, 6, 7], 2), 11);
    assert_eq!(downloaded_total(&[5, 6, 7], 0), 0);
    assert_eq!(with_spare_slots(&[3, 4], 2), vec![3, 4, 0, 0]);
}

#[test]
fn request_range_is_inclusive_and_skips_done_chunks() {
    assert_eq!(chunk_request_range(100, 200, 0), Some((100, 199)));
    assert_eq!(chunk_request_range(100, 200, 50), Some((150, 199)));
    assert_eq!(chunk_request_range(100, 200, 100), None);
    assert_eq!(chunk_request_range(100, 150, 80), None);
}

#[test]
fn probe_reads_total_from_content_range() {
    assert_eq!(
        probe_result_from_response(206, Some("bytes 0-0/12345"), Some(1)),
        ProbeResult { content_length: Some(12345), accepts_ranges: true }
    );
    assert_eq!(
        probe_result_from_response(206, Some("bytes 0-0/*"), Some(1)),
        ProbeResult { content_length: None, accepts_ranges: true }
    );
    assert_eq!(
        probe_result_from_response(206, None, Some(1)),
        ProbeResult { content_length: None, accepts_ranges: true }
    );
    assert_eq!(
        probe_result_from_response(200, Some("bytes 0-0/12345"), Some(777)),
        ProbeResult { content_length: Some(777), accepts_ranges: false }
    );
}

#[test]
fn chunk_count_follows_range_support() {
    assert_eq!(initial_chunk_count(true, 8), 8);
    assert_eq!(initial_chunk_count(false, 8), 1);
}

#[test]
fn part_file_names() {
    assert_eq!(part_file_name(Some("movie.mkv")), "movie.mkv.ophelia_part");
    assert_eq!(part_file_name(None), "download.ophelia_part");
}

#[test]
fn completion_reports() {
    assert_eq!(completion(true, false), Completion::SavePause);
    assert_eq!(completion(false, true), Completion::Rename);
    assert_eq!(completion(false, false), Completion::Fail);
    let id = DownloadId(4);
    let u = completion_update(id, Completion::SavePause, false, 30, 100);
    assert_eq!((u.status, u.downloaded_bytes, u.total_bytes), (DownloadStatus::Paused, 30, Some(100)));
    let u = completion_update(id, Completion::Rename, true, 30, 100);
    assert_eq!((u.status, u.downloaded_bytes), (DownloadStatus::Finished, 100));
    let u = completion_update(id, Completion::Rename, false, 30, 100);
    assert_eq!((u.status, u.downloaded_bytes), (DownloadStatus::Error, 100));
    let u = completion_update(id, Completion::Fail, false, 30, 100);
    assert_eq!((u.status, u.downloaded_bytes, u.speed_bytes_per_sec), (DownloadStatus::Error, 30, 0));
}

#[test]
fn resume_after_steal_reports_file_size() {
    // The middle chunk was split by a steal; the stolen slot is saved last.
    let snapshots = vec![
        ChunkSnapshot { start: 0, end: 65536, downloaded: 65536 },
        ChunkSnapshot { start: 65536, end: 102400, downloaded: 8192 },
        ChunkSnapshot { start: 131072, end: 196608, downloaded: 65536 },
        ChunkSnapshot { start: 102400, end: 131072, downloaded: 0 },
    ];
    let (total, chunks) = chunk_list_from_snapshots(&snapshots);
    assert_eq!(total, 196608);
    assert_eq!(pending_chunks(&chunks.statuses), vec![1, 3]);
}

#[test]
fn download_ending_saves_exactly_on_pause() {
    let starts = [0u64, 40, 70];
    let ends = [40u64, 70, 100];
    let downloaded = [40u64, 10, 5];
    let id = DownloadId(9);
    let paused = download_ending(id, Completion::SavePause, false, &starts, &ends, &downloaded, 3, 100);
    assert_eq!(paused.update.status, DownloadStatus::Paused);
    assert_eq!(paused.update.downloaded_bytes, 55);
    let saved = paused.saved.expect("a pause saves the slots");
    assert_eq!(saved.iter().map(|s| s.downloaded).sum::<u64>(), 55);
    assert_eq!(saved[1], ChunkSnapshot { start: 40, end: 70, downloaded: 10 });

    let failed = download_ending(id, Completion::Fail, false, &starts, &ends, &downloaded, 2, 100);
    assert_eq!((failed.update.status, failed.update.downloaded_bytes), (DownloadStatus::Error, 50));
    assert!(failed.saved.is_none());

    let done = download_ending(id, Completion::Rename, true, &starts, &ends, &downloaded, 3, 100);
    assert_eq!((done.update.status, done.update.downloaded_bytes), (DownloadStatus::Finished, 100));
    assert!(done.saved.is_none());
}
