//! Verified core of a multi-repository diff review tool: calendar time
//! arithmetic, history record decoding, repository ordering, a bounded
//! admission gate, and the state aggregation applied by the event loop.
pub mod app;
pub mod calendar;
pub mod cli;
pub mod config;
pub mod datetime;
pub mod difftool;
pub mod manifest;
pub mod repo;
pub mod repomap;
pub mod semaphore;
pub mod sync;
pub mod theme;
pub mod time;
