//! BusyNCR: content-defined chunking, keyed chunk identity, compression
//! policy, client-side encryption, snapshot manifests, the retention grid and
//! the decisions of the backup client, with their behaviour stated as
//! contracts and proved.
//!
//! Everything here is a function of its arguments. Files, sockets, clocks and
//! randomness belong to the program around the library, which hands in plain
//! values and acts on the plain values it gets back.

pub mod backup;
pub mod bench;
pub mod bench_cmd;
pub mod bytes;
pub mod chunking;
pub mod compression;
pub mod config;
pub mod crypto;
pub mod enroll;
pub mod history;
pub mod idset;
pub mod index;
pub mod keys;
pub mod manifest;
pub mod policy_bench;
pub mod progress;
pub mod ratio;
pub mod restore;
pub mod retention;
pub mod run;
pub mod scheduler;
pub mod service;
pub mod snapshot_id;
pub mod snapshots;
pub mod sort;
pub mod span;
pub mod status;
pub mod summary;
pub mod text;
pub mod units;

use vstd::prelude::*;

verus! {

/// Crate version, for diagnostics.
pub const VERSION: &'static str = "0.1.0";

} // verus!
