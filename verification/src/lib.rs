//! Ophelia's download engine: the logic that decides how a file is split
//! into byte ranges, how progress is summarised for display, how failures
//! are classified and retried, and how idle workers steal work.

pub mod types;
pub mod config;
pub mod ranges;
pub mod chunk_map;
pub mod steal;
pub mod text;
pub mod task;
pub mod plan;
pub mod transfers;
pub mod links;
pub mod icon;
