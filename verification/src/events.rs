//! The replication engine's live event feed, and the drain policy that
//! turns an observed sequence of events into a terminal outcome.
//!
//! The policy, applied event by event: informational events are passed
//! over; a failed `SyncFinished` ends the drain with that failure; a
//! successful `SyncFinished` is itself informational; `PendingContentReady`
//! ends the drain successfully even though full settlement may not have
//! completed — a deliberate early exit; a feed that errs or closes without
//! a terminal signal reports its own error, or completes silently.
use vstd::prelude::*;

use crate::entry::UEntry;
use crate::errors::SharedError;
use crate::hexid::{UHash, UNodeId};

verus! {

/// How far the content of a remotely inserted entry has travelled.
#[derive(Debug, PartialEq, Eq, Structural, Clone, Copy)]
pub enum ContentStatus {
    Complete,
    Incomplete,
    Missing,
}

/// One notification from a namespace's live event feed.
#[derive(Debug)]
pub enum LiveEvent {
    /// An entry was written locally.
    InsertLocal { entry: UEntry },
    /// A peer's entry arrived, with the availability of its content.
    InsertRemote { from: UNodeId, entry: UEntry, content_status: ContentStatus },
    /// The content of a previously announced entry finished downloading.
    ContentReady { hash: UHash },
    /// A peer joined the namespace's gossip neighbourhood.
    NeighborUp(UNodeId),
    /// A peer left the namespace's gossip neighbourhood.
    NeighborDown(UNodeId),
    /// A sync run with one peer ended; `error` carries its failure, if any.
    SyncFinished { error: Option<String> },
    /// All content pending at subscription time is now ready.
    PendingContentReady,
}

/// What the drain loop does after one event.
#[derive(Debug, PartialEq, Eq)]
pub enum DrainStep {
    /// Informational: record it and keep draining.
    Continue,
    /// Terminal success: stop draining early.
    Stop,
    /// Terminal failure, carrying the reported message.
    Fail(String),
}

/// The drain policy on a single event.
pub open spec fn classify_spec(e: LiveEvent) -> DrainStep {
    match e {
        LiveEvent::SyncFinished { error } => match error {
            Some(m) => DrainStep::Fail(m),
            None => DrainStep::Continue,
        },
        LiveEvent::PendingContentReady => DrainStep::Stop,
        _ => DrainStep::Continue,
    }
}

/// Applies the drain policy to one event.
pub fn classify_event(e: &LiveEvent) -> (r: DrainStep)
    ensures
        r == classify_spec(*e),
{
    match e {
        LiveEvent::SyncFinished { error } => match error {
            Some(m) => DrainStep::Fail(m.clone()),
            None => DrainStep::Continue,
        },
        LiveEvent::PendingContentReady => DrainStep::Stop,
        _ => DrainStep::Continue,
    }
}

/// One observation taken from the feed: an event, or the feed's own error.
#[derive(Debug)]
pub enum FeedItem {
    Event(LiveEvent),
    Failed(String),
}

/// Terminal outcome of draining a feed.
#[derive(Debug, PartialEq, Eq)]
pub enum DrainOutcome {
    /// The feed closed without a terminal signal.
    Completed,
    /// `PendingContentReady` fired: success, possibly before full settlement.
    EarlyExit,
    /// A sync run reported failure.
    SyncFailed(String),
    /// The feed itself erred before any terminal signal.
    FeedError(String),
}

/// The outcome of draining a sequence of feed observations in order.
pub open spec fn drain_spec(items: Seq<FeedItem>) -> DrainOutcome
    decreases items.len(),
{
    if items.len() == 0 {
        DrainOutcome::Completed
    } else {
        match items[0] {
            FeedItem::Failed(m) => DrainOutcome::FeedError(m),
            FeedItem::Event(e) => match classify_spec(e) {
                DrainStep::Fail(m) => DrainOutcome::SyncFailed(m),
                DrainStep::Stop => DrainOutcome::EarlyExit,
                DrainStep::Continue => drain_spec(items.drop_first()),
            },
        }
    }
}

/// Drains a recorded feed to its terminal outcome.
pub fn drain_feed(items: &Vec<FeedItem>) -> (r: DrainOutcome)
    ensures
        r == drain_spec(items@),
{
    let mut i: usize = 0;
    proof {
        assert(items@.skip(0) =~= items@);
    }
    while i < items.len()
        invariant
            i <= items@.len(),
            drain_spec(items@) == drain_spec(items@.skip(i as int)),
        decreases items@.len() - i,
    {
        let ghost rest = items@.skip(i as int);
        proof {
            assert(rest[0] == items@[i as int]);
            assert(rest.drop_first() =~= items@.skip(i as int + 1));
        }
        match &items[i] {
            FeedItem::Failed(m) => {
                return DrainOutcome::FeedError(m.clone());
            },
            FeedItem::Event(e) => {
                match classify_event(e) {
                    DrainStep::Fail(m) => {
                        return DrainOutcome::SyncFailed(m);
                    },
                    DrainStep::Stop => {
                        return DrainOutcome::EarlyExit;
                    },
                    DrainStep::Continue => {
                        i += 1;
                    },
                }
            },
        }
    }
    proof {
        assert(items@.skip(items@.len() as int).len() == 0);
    }
    DrainOutcome::Completed
}

/// The operation result an outcome maps to: both terminal successes are
/// success, a sync failure surfaces as `SyncFailed`, a feed error as the
/// collaborator's own error.
pub open spec fn outcome_result_spec(o: DrainOutcome) -> Result<(), SharedError> {
    match o {
        DrainOutcome::Completed => Ok(()),
        DrainOutcome::EarlyExit => Ok(()),
        DrainOutcome::SyncFailed(m) => Err(SharedError::SyncFailed(m)),
        DrainOutcome::FeedError(m) => Err(SharedError::Iroh(m)),
    }
}

/// Maps a drain outcome to the result the operation reports.
pub fn outcome_result(o: DrainOutcome) -> (r: Result<(), SharedError>)
    ensures
        r == outcome_result_spec(o),
{
    match o {
        DrainOutcome::Completed => Ok(()),
        DrainOutcome::EarlyExit => Ok(()),
        DrainOutcome::SyncFailed(m) => Err(SharedError::SyncFailed(m)),
        DrainOutcome::FeedError(m) => Err(SharedError::Iroh(m)),
    }
}

} // verus!
