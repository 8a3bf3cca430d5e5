use ophelia::config::HttpDownloadConfig;
use ophelia::types::DownloadConfig;

#[test]
fn http_defaults() {
    let c = HttpDownloadConfig::default();
    assert_eq!(c.max_connections, 8);
    assert_eq!(c.write_buffer_size, 64 * 1024);
    assert_eq!(c.progress_interval_ms, 100);
    assert_eq!(c.stall_timeout_secs, 30);
    assert_eq!(c.max_retries_per_chunk, 3);
    assert_eq!(c.min_steal_bytes, 4 * 1024 * 1024);
}

#[test]
fn engine_defaults() {
    let c = DownloadConfig::default();
    assert_eq!(c.max_connections, 8);
    assert_eq!(c.write_buffer_size, 64 * 1024);
    assert_eq!(c.progress_interval_ms, 30);
    assert_eq!(c.stall_timeout_secs, 100);
    assert_eq!(c.max_retries_per_chunk, 5);
}
