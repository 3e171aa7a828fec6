//! A reversible file-deletion library: instead of permanently unlinking
//! files, entries are relocated into a holding area (the trash directory)
//! together with a restore record that maps each trashed name back to its
//! original absolute path.
//!
//! The library is pure logic over names, paths and records: the caller
//! probes the filesystem, hands the observations in as plain values, and
//! carries out the moves and deletions that the engines decide on.
//! Existence probes followed by moves are check-then-act, so concurrent
//! processes racing on one trash directory can interleave; that window is
//! accepted for a single-user local tool and not papered over with locks.

pub mod bytes;
pub mod engine;
pub mod locations;
pub mod name;
pub mod paths;
pub mod store;
