//! Incremental tailing of log files: per-path byte offsets, the start of tailing,
//! complete-line detection and the registry of watched paths.
//!
//! File and notification I/O stays with the caller, which hands this library the
//! bytes it read and receives the line to deliver.
pub mod error;
pub mod lines;
pub mod paths;
pub mod watcher;

pub use error::{ErrorKind, LogError};
pub use watcher::{LogWatcher, WatchOptions};
