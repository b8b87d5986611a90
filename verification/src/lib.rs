//! A change-detection engine for a watched directory tree.
//!
//! The crate keeps an append-only history of what was seen at each path and,
//! given the paths that are on disk now, works out which of them were
//! added, changed or deleted since the history was last brought up to date.
//! It reads no disk and writes none: the caller hands it a snapshot and
//! persists the entries that come back.
//!
//! - [`db`]: the entries, and the store that holds them in memory.
//! - [`history`]: the history as a sequence, and the queries on it, as
//!   mathematics.
//! - [`snapshot`]: what is on disk at one instant.
//! - [`utils`]: fingerprints of content, the clock, lines of the log.
//! - [`reconcile`]: the three passes of a cycle.
//! - [`watch`]: the loop that runs the cycles, as a state machine.
//! - [`lifelines`] and [`laws`]: what is proved of every cycle.

pub mod db;
pub mod history;
pub mod laws;
pub mod lifelines;
pub mod reconcile;
pub mod snapshot;
pub mod utils;
pub mod watch;
