use unimusic_sync::entry::UEntry;
use unimusic_sync::errors::SharedError;
use unimusic_sync::events::{FeedItem, LiveEvent};
use unimusic_sync::manager::sync_session;
use unimusic_sync::hexid::{UAuthorId, UHash, UNamespaceId, UNodeId};
use unimusic_sync::manager::{
    plan_sync, read_decision, shutdown_outcome, tombstone_hash, tombstone_payload, visible_files,
    SyncPlan,
};
use unimusic_sync::node_data::UNodeData;
use unimusic_sync::node_storage::NodeStorage;
use unimusic_sync::IrohFactory;

fn ns() -> UNamespaceId {
    UNamespaceId::from_bytes(vec![0x33; 32]).unwrap()
}

fn entry(path: &str, content_hash: UHash) -> UEntry {
    UEntry {
        key: path.as_bytes().to_vec(),
        author: UAuthorId::from_bytes(vec![0x44; 32]).unwrap(),
        timestamp: 1,
        content_hash,
        content_len: 5,
        namespace: ns(),
    }
}

#[test]
fn tombstone_payload_is_one_reserved_byte() {
    assert_eq!(tombstone_payload(), vec![0u8]);
}

#[test]
fn tombstone_hash_is_the_digest_of_the_payload() {
    let sentinel = tombstone_hash();
    let direct = blake3::hash(&[0u8]);
    assert_eq!(sentinel.bytes, direct.as_bytes().to_vec());
    assert_eq!(sentinel.bytes.len(), 32);
    assert_ne!(sentinel.bytes, tombstone_payload());
}

#[test]
fn reading_an_absent_entry_is_entry_missing() {
    match read_decision(None, &ns(), b"a.txt") {
        Err(SharedError::EntryMissing(n, p)) => {
            assert_eq!(n.bytes, vec![0x33; 32]);
            assert_eq!(p, b"a.txt".to_vec());
        },
        other => panic!("expected EntryMissing, got {other:?}"),
    }
}

#[test]
fn reading_a_tombstoned_entry_is_entry_tombstoned() {
    let e = entry("a.txt", tombstone_hash());
    match read_decision(Some(&e), &ns(), b"a.txt") {
        Err(SharedError::EntryTombstoned(n, p)) => {
            assert_eq!(n.bytes, vec![0x33; 32]);
            assert_eq!(p, b"a.txt".to_vec());
        },
        other => panic!("expected EntryTombstoned, got {other:?}"),
    }
}

#[test]
fn reading_a_live_entry_yields_its_content_hash() {
    let h = UHash::from_bytes(vec![0x77; 32]).unwrap();
    let e = entry("a.txt", h);
    let got = read_decision(Some(&e), &ns(), b"a.txt").unwrap();
    assert_eq!(got.bytes, vec![0x77; 32]);
}

#[test]
fn listing_omits_tombstoned_entries_and_keeps_order() {
    let live1 = entry("a.txt", UHash::from_bytes(vec![1; 32]).unwrap());
    let dead = entry("b.txt", tombstone_hash());
    let live2 = entry("c.txt", UHash::from_bytes(vec![2; 32]).unwrap());
    let all = vec![live1, dead, live2];
    let visible = visible_files(&all);
    let keys: Vec<&[u8]> = visible.iter().map(|e| e.key.as_slice()).collect();
    assert_eq!(keys, vec![b"a.txt".as_slice(), b"c.txt".as_slice()]);
}

#[test]
fn sync_with_no_known_peers_is_planned_as_immediate_success() {
    let st = NodeStorage::new();
    let plan = plan_sync(&st);
    assert!(plan.is_no_peers());
    assert!(matches!(plan, SyncPlan::NoPeers));
}

#[test]
fn sync_with_known_peers_contacts_all_of_them() {
    let mut st = NodeStorage::new();
    let a = UNodeId::from_bytes(vec![1; 32]).unwrap();
    let b = UNodeId::from_bytes(vec![2; 32]).unwrap();
    let rec = UNodeData::new(None, vec![b"peer.example:1".to_vec()]).unwrap();
    st.upsert_node(&a, &rec);
    st.upsert_node(&b, &rec);
    match plan_sync(&st) {
        SyncPlan::Contact(peers) => {
            assert_eq!(peers.len(), 2);
            assert_eq!(peers[0].0.bytes, vec![1; 32]);
            assert_eq!(peers[1].0.bytes, vec![2; 32]);
            assert_eq!(peers[0].1.direct_addresses, vec![b"peer.example:1".to_vec()]);
        },
        SyncPlan::NoPeers => panic!("expected a contact plan"),
    }
}

#[test]
fn shutdown_reports_the_first_error_and_tries_both_steps() {
    assert!(shutdown_outcome(Ok(()), Ok(())).is_ok());
    match shutdown_outcome(Err(SharedError::Iroh("router".to_string())), Ok(())) {
        Err(SharedError::Iroh(m)) => assert_eq!(m, "router"),
        other => panic!("expected the transport error, got {other:?}"),
    }
    match shutdown_outcome(Ok(()), Err(SharedError::IO("save".to_string()))) {
        Err(SharedError::IO(m)) => assert_eq!(m, "save"),
        other => panic!("expected the save error, got {other:?}"),
    }
    match shutdown_outcome(
        Err(SharedError::Iroh("router".to_string())),
        Err(SharedError::IO("save".to_string())),
    ) {
        Err(SharedError::Iroh(m)) => assert_eq!(m, "router"),
        other => panic!("expected the first error, got {other:?}"),
    }
}

#[test]
fn entry_getters_report_the_snapshot() {
    let e = entry("dog.txt", UHash::from_bytes(vec![9; 32]).unwrap());
    assert_eq!(e.key(), b"dog.txt".to_vec());
    assert_eq!(e.content_hash().bytes, vec![9; 32]);
    assert_eq!(e.content_len(), 5);
    assert_eq!(e.timestamp(), 1);
    assert_eq!(e.namespace().bytes, vec![0x33; 32]);
    assert_eq!(e.author().bytes, vec![0x44; 32]);
    assert!(!e.is_empty());
}

#[test]
fn error_kind_helpers_tell_the_read_outcomes_apart() {
    let missing = SharedError::EntryMissing(ns(), b"p".to_vec());
    let dead = SharedError::EntryTombstoned(ns(), b"p".to_vec());
    let gone = SharedError::ReplicaMissing(ns());
    assert!(missing.is_missing() && !missing.is_tombstoned() && !missing.is_replica_missing());
    assert!(dead.is_tombstoned() && !dead.is_missing());
    assert!(gone.is_replica_missing() && !gone.is_tombstoned());
}

#[test]
fn factory_builds() {
    let _ = IrohFactory::new();
}

#[test]
fn empty_plan_succeeds_whatever_the_feed_would_have_said() {
    let failing_feed = vec![FeedItem::Event(LiveEvent::SyncFinished {
        error: Some("never consulted".to_string()),
    })];
    assert!(sync_session(&SyncPlan::NoPeers, &failing_feed).is_ok());
}

#[test]
fn contact_plan_reports_what_the_drained_feed_decided() {
    let peers = vec![(
        UNodeId::from_bytes(vec![1; 32]).unwrap(),
        UNodeData::new(None, Vec::new()).unwrap(),
    )];
    let plan = SyncPlan::Contact(peers);
    let early = vec![FeedItem::Event(LiveEvent::PendingContentReady)];
    assert!(sync_session(&plan, &early).is_ok());
    let failed = vec![FeedItem::Event(LiveEvent::SyncFinished { error: Some("boom".to_string()) })];
    match sync_session(&plan, &failed) {
        Err(SharedError::SyncFailed(m)) => assert_eq!(m, "boom"),
        other => panic!("expected SyncFailed, got {other:?}"),
    }
}
