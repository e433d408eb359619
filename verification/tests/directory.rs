use unimusic_sync::hexid::{UNamespaceId, UNodeId};
use unimusic_sync::manager::UDocTicket;
use unimusic_sync::node_data::UNodeData;
use unimusic_sync::node_storage::NodeStorage;

fn node(fill: u8) -> UNodeId {
    UNodeId::from_bytes(vec![fill; 32]).unwrap()
}

fn record(relay: Option<&str>, addrs: &[&str]) -> UNodeData {
    UNodeData::new(
        relay.map(|r| r.as_bytes().to_vec()),
        addrs.iter().map(|a| a.as_bytes().to_vec()).collect(),
    )
    .unwrap()
}

fn addr_strings(d: &UNodeData) -> Vec<String> {
    d.direct_addresses
        .iter()
        .map(|a| String::from_utf8(a.clone()).unwrap())
        .collect()
}

#[test]
fn fresh_node_is_stored_verbatim() {
    let mut st = NodeStorage::new();
    let id = node(9);
    st.upsert_node(&id, &record(Some("relay.example:443"), &["10.0.0.1:4433"]));
    let got = st.get_node_data(&id).unwrap();
    assert_eq!(got.relay_url.as_deref(), Some(b"relay.example:443".as_slice()));
    assert_eq!(addr_strings(got), vec!["10.0.0.1:4433"]);
}

#[test]
fn unknown_node_is_absent() {
    let st = NodeStorage::new();
    assert!(st.get_node_data(&node(1)).is_none());
    assert!(st.get_unode_data(&node(1)).is_none());
    assert!(st.is_empty());
    assert_eq!(st.len(), 0);
}

#[test]
fn merge_unions_addresses_and_replaces_relay() {
    let mut st = NodeStorage::new();
    let id = node(3);
    st.upsert_node(&id, &record(Some("old.relay:1"), &["b.example:2", "a.example:1"]));
    st.upsert_node(&id, &record(Some("new.relay:9"), &["c.example:3", "a.example:1"]));
    let got = st.get_node_data(&id).unwrap();
    assert_eq!(got.relay_url.as_deref(), Some(b"new.relay:9".as_slice()));
    assert_eq!(addr_strings(got), vec!["a.example:1", "b.example:2", "c.example:3"]);
}

#[test]
fn merge_keeps_relay_when_new_observation_has_none() {
    let mut st = NodeStorage::new();
    let id = node(4);
    st.upsert_node(&id, &record(Some("kept.relay:1"), &[]));
    st.upsert_node(&id, &record(None, &["x.example:5"]));
    let got = st.get_node_data(&id).unwrap();
    assert_eq!(got.relay_url.as_deref(), Some(b"kept.relay:1".as_slice()));
    assert_eq!(addr_strings(got), vec!["x.example:5"]);
}

#[test]
fn merge_is_idempotent() {
    let mut st = NodeStorage::new();
    let id = node(5);
    let obs = record(Some("r.example:7"), &["one.example:1", "two.example:2"]);
    st.upsert_node(&id, &obs);
    let once_relay = st.get_node_data(&id).unwrap().relay_url.clone();
    let once_addrs = addr_strings(st.get_node_data(&id).unwrap());
    st.upsert_node(&id, &obs);
    let got = st.get_node_data(&id).unwrap();
    assert_eq!(got.relay_url, once_relay);
    assert_eq!(addr_strings(got), once_addrs);
    assert_eq!(st.len(), 1);
}

#[test]
fn known_nodes_are_sorted_by_identifier() {
    let mut st = NodeStorage::new();
    for fill in [7u8, 2, 9, 4] {
        st.upsert_node(&node(fill), &record(None, &[]));
    }
    let ids: Vec<Vec<u8>> = st.get_known_nodes().into_iter().map(|n| n.bytes).collect();
    assert_eq!(ids, vec![vec![2u8; 32], vec![4u8; 32], vec![7u8; 32], vec![9u8; 32]]);
    assert_eq!(st.len(), 4);
}

#[test]
fn snapshot_peers_copies_every_record() {
    let mut st = NodeStorage::new();
    st.upsert_node(&node(1), &record(None, &["p.example:1"]));
    st.upsert_node(&node(2), &record(Some("q.relay:2"), &[]));
    let peers = st.snapshot_peers();
    assert_eq!(peers.len(), 2);
    assert_eq!(peers[0].0.bytes, vec![1u8; 32]);
    assert_eq!(addr_strings(&peers[0].1), vec!["p.example:1"]);
    assert_eq!(peers[1].1.relay_url.as_deref(), Some(b"q.relay:2".as_slice()));
}

#[test]
fn new_record_sorts_and_deduplicates_addresses() {
    let d = record(None, &["z.example:9", "a.example:1", "z.example:9"]);
    assert_eq!(addr_strings(&d), vec!["a.example:1", "z.example:9"]);
}

#[test]
fn new_record_rejects_text_a_snapshot_cannot_hold() {
    assert!(UNodeData::new(None, vec![b"with\"quote".to_vec()]).is_err());
    assert!(UNodeData::new(Some(b"back\\slash".to_vec()), Vec::new()).is_err());
    assert!(UNodeData::new(None, vec![vec![0x07u8]]).is_err());
}

#[test]
fn default_directory_is_empty() {
    let st: NodeStorage = Default::default();
    assert!(st.is_empty());
}

#[test]
fn ticket_preseeding_merges_every_embedded_peer() {
    let mut st = NodeStorage::new();
    st.upsert_node(&node(1), &record(Some("old.relay:1"), &["a.example:1"]));
    let ticket_peers = vec![
        (node(1), record(Some("new.relay:2"), &["b.example:2"])),
        (node(6), record(None, &["c.example:3"])),
    ];
    st.upsert_all(&ticket_peers);
    assert_eq!(st.len(), 2);
    let merged = st.get_node_data(&node(1)).unwrap();
    assert_eq!(merged.relay_url.as_deref(), Some(b"new.relay:2".as_slice()));
    assert_eq!(addr_strings(merged), vec!["a.example:1", "b.example:2"]);
    let fresh = st.get_node_data(&node(6)).unwrap();
    assert_eq!(fresh.relay_url, None);
    assert_eq!(addr_strings(fresh), vec!["c.example:3"]);
}

#[test]
fn ticket_contents_preseed_the_directory() {
    let ticket = UDocTicket {
        namespace: UNamespaceId::from_bytes(vec![0x55; 32]).unwrap(),
        peers: vec![
            (node(8), record(Some("t.relay:1"), &["t.example:1"])),
            (node(2), record(None, &["u.example:2"])),
        ],
    };
    let mut st = NodeStorage::new();
    ticket.preseed(&mut st);
    assert_eq!(st.len(), 2);
    assert!(st.get_node_data(&node(8)).is_some());
    assert!(st.get_node_data(&node(2)).is_some());
}
