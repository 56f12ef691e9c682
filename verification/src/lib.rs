//! A live view over several growing log files: incremental tailing with
//! truncation handling, an append-only record store, and a line-wrap-aware
//! scrollback engine for a fixed-size viewport.
pub mod file_watch;
pub mod store;
pub mod ui;
