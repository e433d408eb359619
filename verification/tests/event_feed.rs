use unimusic_sync::entry::UEntry;
use unimusic_sync::errors::SharedError;
use unimusic_sync::events::{
    classify_event, drain_feed, outcome_result, ContentStatus, DrainOutcome, DrainStep, FeedItem,
    LiveEvent,
};
use unimusic_sync::hexid::{UAuthorId, UHash, UNamespaceId, UNodeId};

fn hash(fill: u8) -> UHash {
    UHash::from_bytes(vec![fill; 32]).unwrap()
}

fn peer(fill: u8) -> UNodeId {
    UNodeId::from_bytes(vec![fill; 32]).unwrap()
}

fn entry(path: &str) -> UEntry {
    UEntry {
        key: path.as_bytes().to_vec(),
        author: UAuthorId::parse(&b"aa".repeat(32)).unwrap(),
        timestamp: 7,
        content_hash: hash(0x11),
        content_len: 4,
        namespace: UNamespaceId::from_bytes(vec![0x22; 32]).unwrap(),
    }
}

#[test]
fn informational_events_continue_the_drain() {
    assert_eq!(classify_event(&LiveEvent::InsertLocal { entry: entry("a.txt") }), DrainStep::Continue);
    assert_eq!(
        classify_event(&LiveEvent::InsertRemote {
            from: peer(1),
            entry: entry("b.txt"),
            content_status: ContentStatus::Complete,
        }),
        DrainStep::Continue
    );
    assert_eq!(classify_event(&LiveEvent::ContentReady { hash: hash(3) }), DrainStep::Continue);
    assert_eq!(classify_event(&LiveEvent::NeighborUp(peer(4))), DrainStep::Continue);
    assert_eq!(classify_event(&LiveEvent::NeighborDown(peer(5))), DrainStep::Continue);
}

#[test]
fn successful_sync_finished_does_not_stop_the_drain() {
    assert_eq!(classify_event(&LiveEvent::SyncFinished { error: None }), DrainStep::Continue);
}

#[test]
fn failed_sync_finished_fails_the_drain() {
    assert_eq!(
        classify_event(&LiveEvent::SyncFinished { error: Some("peer hung up".to_string()) }),
        DrainStep::Fail("peer hung up".to_string())
    );
}

#[test]
fn pending_content_ready_stops_the_drain() {
    assert_eq!(classify_event(&LiveEvent::PendingContentReady), DrainStep::Stop);
}

#[test]
fn empty_feed_completes_silently() {
    assert_eq!(drain_feed(&Vec::new()), DrainOutcome::Completed);
}

#[test]
fn feed_without_terminal_signal_completes() {
    let feed = vec![
        FeedItem::Event(LiveEvent::NeighborUp(peer(1))),
        FeedItem::Event(LiveEvent::SyncFinished { error: None }),
        FeedItem::Event(LiveEvent::ContentReady { hash: hash(2) }),
    ];
    assert_eq!(drain_feed(&feed), DrainOutcome::Completed);
}

#[test]
fn pending_content_ready_exits_early() {
    let feed = vec![
        FeedItem::Event(LiveEvent::InsertLocal { entry: entry("dog.txt") }),
        FeedItem::Event(LiveEvent::PendingContentReady),
        FeedItem::Event(LiveEvent::SyncFinished { error: Some("too late".to_string()) }),
    ];
    assert_eq!(drain_feed(&feed), DrainOutcome::EarlyExit);
}

#[test]
fn failed_sync_wins_over_later_events() {
    let feed = vec![
        FeedItem::Event(LiveEvent::SyncFinished { error: Some("boom".to_string()) }),
        FeedItem::Event(LiveEvent::PendingContentReady),
    ];
    assert_eq!(drain_feed(&feed), DrainOutcome::SyncFailed("boom".to_string()));
}

#[test]
fn feed_error_propagates() {
    let feed = vec![
        FeedItem::Event(LiveEvent::NeighborUp(peer(9))),
        FeedItem::Failed("connection reset".to_string()),
        FeedItem::Event(LiveEvent::PendingContentReady),
    ];
    assert_eq!(drain_feed(&feed), DrainOutcome::FeedError("connection reset".to_string()));
}

#[test]
fn outcomes_map_to_operation_results() {
    assert!(outcome_result(DrainOutcome::Completed).is_ok());
    assert!(outcome_result(DrainOutcome::EarlyExit).is_ok());
    match outcome_result(DrainOutcome::SyncFailed("m".to_string())) {
        Err(SharedError::SyncFailed(m)) => assert_eq!(m, "m"),
        other => panic!("expected SyncFailed, got {other:?}"),
    }
    match outcome_result(DrainOutcome::FeedError("n".to_string())) {
        Err(SharedError::Iroh(m)) => assert_eq!(m, "n"),
        other => panic!("expected Iroh, got {other:?}"),
    }
}
