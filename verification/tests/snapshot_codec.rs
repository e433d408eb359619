use unimusic_sync::hexid::UNodeId;
use unimusic_sync::node_data::UNodeData;
use unimusic_sync::node_storage::NodeStorage;

fn node(fill: u8) -> UNodeId {
    UNodeId::from_bytes(vec![fill; 32]).unwrap()
}

fn record(relay: Option<&str>, addrs: &[&str]) -> UNodeData {
    UNodeData::new(
        relay.map(|r| r.as_bytes().to_vec()),
        addrs.iter().map(|a| a.as_bytes().to_vec()).collect(),
    )
    .unwrap()
}

#[test]
fn empty_directory_encodes_to_empty_object() {
    let st = NodeStorage::new();
    let bytes = st.to_json_bytes();
    assert_eq!(bytes, b"{}".to_vec());
    let back = NodeStorage::from_json_bytes(&bytes).unwrap();
    assert!(back.is_empty());
}

#[test]
fn one_record_has_the_documented_layout() {
    let mut st = NodeStorage::new();
    st.upsert_node(&node(1), &record(Some("relay.example:443"), &["10.0.0.1:4433"]));
    let bytes = st.to_json_bytes();
    let expected = format!(
        "{{\"{}\":{{\"relayUrl\":\"relay.example:443\",\"directAddresses\":[\"10.0.0.1:4433\"]}}}}",
        "01".repeat(32)
    );
    assert_eq!(String::from_utf8(bytes).unwrap(), expected);
}

#[test]
fn missing_relay_encodes_as_null() {
    let mut st = NodeStorage::new();
    st.upsert_node(&node(2), &record(None, &[]));
    let bytes = st.to_json_bytes();
    let expected = format!(
        "{{\"{}\":{{\"relayUrl\":null,\"directAddresses\":[]}}}}",
        "02".repeat(32)
    );
    assert_eq!(String::from_utf8(bytes).unwrap(), expected);
}

#[test]
fn save_load_round_trip_reproduces_the_mapping() {
    let mut st = NodeStorage::new();
    st.upsert_node(&node(5), &record(Some("r.example:1"), &["b.example:2", "a.example:1"]));
    st.upsert_node(&node(3), &record(None, &["c.example:3"]));
    st.upsert_node(&node(9), &record(Some("s.example:4"), &[]));
    let bytes = st.to_json_bytes();

    let back = NodeStorage::from_json_bytes(&bytes).unwrap();
    assert_eq!(back.len(), 3);
    for fill in [3u8, 5, 9] {
        let id = node(fill);
        let a = st.get_node_data(&id).unwrap();
        let b = back.get_node_data(&id).unwrap();
        assert_eq!(a.relay_url, b.relay_url);
        assert_eq!(a.direct_addresses, b.direct_addresses);
    }
    assert_eq!(back.to_json_bytes(), bytes);
}

#[test]
fn decoder_rejects_what_the_encoder_never_writes() {
    assert!(NodeStorage::from_json_bytes(b"").is_none());
    assert!(NodeStorage::from_json_bytes(b"null").is_none());
    assert!(NodeStorage::from_json_bytes(b"{").is_none());
    assert!(NodeStorage::from_json_bytes(b"{ }").is_none());
    assert!(NodeStorage::from_json_bytes(b"{}x").is_none());
    let key = "0a".repeat(32);
    let one = format!("{{\"{key}\":{{\"relayUrl\":null,\"directAddresses\":[]}}}}");
    assert!(NodeStorage::from_json_bytes(one.as_bytes()).is_some());
    let spaced = format!("{{\"{key}\": {{\"relayUrl\":null,\"directAddresses\":[]}}}}");
    assert!(NodeStorage::from_json_bytes(spaced.as_bytes()).is_none());
    let trailing = format!("{one} ");
    assert!(NodeStorage::from_json_bytes(trailing.as_bytes()).is_none());
    let upper_key = format!(
        "{{\"{}\":{{\"relayUrl\":null,\"directAddresses\":[]}}}}",
        "0A".repeat(32)
    );
    assert!(NodeStorage::from_json_bytes(upper_key.as_bytes()).is_none());
    let short_key = format!("{{\"{}\":{{\"relayUrl\":null,\"directAddresses\":[]}}}}", "0a".repeat(31));
    assert!(NodeStorage::from_json_bytes(short_key.as_bytes()).is_none());
}

#[test]
fn decoder_rejects_unsorted_or_duplicate_keys() {
    let k1 = "01".repeat(32);
    let k2 = "02".repeat(32);
    let body = "{\"relayUrl\":null,\"directAddresses\":[]}";
    let sorted = format!("{{\"{k1}\":{body},\"{k2}\":{body}}}");
    assert!(NodeStorage::from_json_bytes(sorted.as_bytes()).is_some());
    let unsorted = format!("{{\"{k2}\":{body},\"{k1}\":{body}}}");
    assert!(NodeStorage::from_json_bytes(unsorted.as_bytes()).is_none());
    let duplicate = format!("{{\"{k1}\":{body},\"{k1}\":{body}}}");
    assert!(NodeStorage::from_json_bytes(duplicate.as_bytes()).is_none());
}

#[test]
fn decoder_rejects_unsorted_addresses() {
    let key = "0c".repeat(32);
    let sorted = format!(
        "{{\"{key}\":{{\"relayUrl\":null,\"directAddresses\":[\"a:1\",\"b:2\"]}}}}"
    );
    assert!(NodeStorage::from_json_bytes(sorted.as_bytes()).is_some());
    let unsorted = format!(
        "{{\"{key}\":{{\"relayUrl\":null,\"directAddresses\":[\"b:2\",\"a:1\"]}}}}"
    );
    assert!(NodeStorage::from_json_bytes(unsorted.as_bytes()).is_none());
}

#[test]
fn decoded_directory_keeps_merging() {
    let key = "0d".repeat(32);
    let one = format!(
        "{{\"{key}\":{{\"relayUrl\":\"r.example:1\",\"directAddresses\":[\"a:1\"]}}}}"
    );
    let mut st = NodeStorage::from_json_bytes(one.as_bytes()).unwrap();
    st.upsert_node(&node(0x0d), &record(None, &["b:2"]));
    let got = st.get_node_data(&node(0x0d)).unwrap();
    assert_eq!(got.relay_url.as_deref(), Some(b"r.example:1".as_slice()));
    assert_eq!(got.direct_addresses, vec![b"a:1".to_vec(), b"b:2".to_vec()]);
}
