//! Livery-keyed persistence engine for per-aircraft configuration state.
//!
//! The library models a configuration snapshot (fuel quantities and a small
//! set of equipment switches), encodes a store of snapshots keyed by livery
//! into a deterministic textual format, parses that format tolerantly, and
//! drives the reconciliation state machine that decides when snapshots are
//! captured and restored.

pub mod bridge;
pub mod bytes;
pub mod codec;
pub mod controller;
pub mod laws;
pub mod livery;
pub mod locator;
pub mod numtok;
pub mod roundtrip;
pub mod snapshot;
pub mod store;

use vstd::prelude::*;

verus! {

/// Errors surfaced by the engine. Gate failures leave the engine disabled
/// for the session; they never abort the host process.
#[derive(Debug)]
pub enum PluginError {
    /// The reported aircraft model is not one of the supported variants.
    UnsupportedAircraft(Vec<u8>),
    /// The vehicle was not started fully powered down.
    NotColdAndDark,
    /// A required live-state cell could not be located in the host.
    LiveStateUnavailable,
}

} // verus!
