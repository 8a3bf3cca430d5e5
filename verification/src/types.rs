use vstd::prelude::*;

verus! {

/// Identifies one download across the engine and the interface.
#[derive(Debug, Clone, Copy, PartialEq, Eq, Structural, Hash)]
pub struct DownloadId(pub u64);

/// Lifecycle state of a download.
#[derive(Debug, Clone, Copy, PartialEq, Eq, Structural)]
pub enum DownloadStatus {
    Pending,
    Downloading,
    Paused,
    Finished,
    Error,
}

/// Per-download settings handed to the engine with an `Add` command.
pub struct DownloadConfig {
    pub max_connections: usize,
    pub write_buffer_size: usize,
    pub progress_interval_ms: u64,
    pub stall_timeout_secs: u64,
    pub max_retries_per_chunk: u32,
}

impl Default for DownloadConfig {
    fn default() -> (r: Self)
        ensures
            r.max_connections == 8,
            r.write_buffer_size == 64 * 1024,
            r.progress_interval_ms == 30,
            r.stall_timeout_secs == 100,
            r.max_retries_per_chunk == 5,
    {
        DownloadConfig {
            max_connections: 8,
            write_buffer_size: 64 * 1024,
            progress_interval_ms: 30,
            stall_timeout_secs: 100,
            max_retries_per_chunk: 5,
        }
    }
}

/// A request sent from the interface to the engine.
/// The destination is the target path written out as text.
pub enum EngineCommand {
    Add { id: DownloadId, url: String, destination: String, config: DownloadConfig },
    Pause { id: DownloadId },
    Resume { id: DownloadId },
    Cancel { id: DownloadId },
    Shutdown,
}

/// A progress report sent from the engine to the interface.
#[derive(Debug, Clone)]
pub struct ProgressUpdate {
    pub id: DownloadId,
    pub status: DownloadStatus,
    pub downloaded_bytes: u64,
    pub total_bytes: Option<u64>,
    pub speed_bytes_per_sec: u64,
}

} // verus!
