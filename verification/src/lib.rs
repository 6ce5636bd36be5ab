//! Verified core of a shared karaoke queue: an ordered pending list with
//! derived wait-time predictions, a bounded play history, intermission
//! statistics, a listener registry for snapshot fan-out, and a persistable
//! whole-state encoding.
//!
//! All I/O (files, channels, clocks, the song search engine) lives outside
//! this crate; the functions here compute next states, snapshots and audit
//! records from plain values.

pub mod audit;
pub mod catalog;
pub mod codec;
pub mod entry;
pub mod laws;
pub mod predict;
pub mod store;
