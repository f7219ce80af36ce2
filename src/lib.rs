//! Tracks the lifetime of operating-system processes across periodic
//! snapshots and rolls the lifecycle records up into a per-name usage report.
//!
//! `tracker` turns snapshots into open/close records, `summary` groups the
//! records by name, `history` states what a whole run of samples guarantees,
//! `schedule` decides when to sample and when to report, and `clock` reads
//! the wall clock.
pub mod clock;
pub mod history;
pub mod schedule;
pub mod summary;
pub mod tracker;
