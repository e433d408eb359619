//! Core of a peer-to-peer file synchronisation node: a persistent, mergeable
//! directory of peer addresses, codecs for the identifiers that cross the
//! process boundary, a classifier for the replication engine's live event
//! feed, and the decision logic of the replication orchestrator.
//!
//! The replicated document store, the content-addressed blob store and the
//! network transport are external collaborators: this crate holds the logic
//! that drives them and interprets their answers.
//!
//! - `hexid`: the opaque identifiers and their hex codec.
//! - `node_data`, `node_storage`: one peer's addresses and the mergeable
//!   directory of peers.
//! - `snapshot`: the persisted form of the directory and its round trip.
//! - `events`: the live event feed and the drain policy.
//! - `entry`: one entry of a namespace listing.
//! - `manager`: the orchestrator's decisions around the collaborators.
//! - `model`: what the operations mean end to end, and the laws they obey.
//! - `errors`: the typed failures every operation reports.
use vstd::prelude::*;

pub mod entry;
pub mod errors;
pub mod events;
pub mod hexid;
pub mod order;
pub mod snapshot;
pub mod manager;
pub mod model;
pub mod node_data;
pub mod node_storage;

verus! {

/// Entry point mirroring the construction side of the node: a factory from
/// which the surrounding runtime builds a manager around this core.
pub struct IrohFactory;

impl IrohFactory {
    pub fn new() -> (r: Self)
        ensures
            r == (IrohFactory {}),
    {
        Self {}
    }
}

} // verus!
