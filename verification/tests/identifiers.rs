use unimusic_sync::hexid::{UAuthorId, UHash, UNamespaceId, UNodeId};

fn raw_id(fill: u8) -> Vec<u8> {
    vec![fill; 32]
}

#[test]
fn format_is_lower_hex() {
    let id = UNodeId::from_bytes(raw_id(0xab)).unwrap();
    let text = id.format();
    assert_eq!(text.len(), 64);
    assert_eq!(text, b"ab".repeat(32));
}

#[test]
fn parse_format_round_trip() {
    let mut bytes = Vec::new();
    for i in 0..32u8 {
        bytes.push(i.wrapping_mul(7) ^ 0x5c);
    }
    let id = UNamespaceId::from_bytes(bytes.clone()).unwrap();
    let text = id.format();
    let back = UNamespaceId::parse(&text).unwrap();
    assert_eq!(back.bytes, bytes);
}

#[test]
fn parse_accepts_upper_case() {
    let lower = UHash::parse(b"00ff00ff00ff00ff00ff00ff00ff00ff00ff00ff00ff00ff00ff00ff00ff00ff")
        .unwrap();
    let upper = UHash::parse(b"00FF00FF00FF00FF00FF00FF00FF00FF00FF00FF00FF00FF00FF00FF00FF00FF")
        .unwrap();
    assert_eq!(lower.bytes, upper.bytes);
}

#[test]
fn parse_rejects_wrong_length() {
    assert!(UNodeId::parse(b"abcd").is_err());
    assert!(UNodeId::parse(b"").is_err());
    let too_long = b"00".repeat(33);
    assert!(UNodeId::parse(&too_long).is_err());
}

#[test]
fn parse_rejects_non_hex() {
    let mut text = b"00".repeat(32);
    text[10] = b'g';
    assert!(UAuthorId::parse(&text).is_err());
}

#[test]
fn from_bytes_rejects_wrong_width() {
    assert!(UNodeId::from_bytes(vec![1, 2, 3]).is_err());
    assert!(UHash::from_bytes(vec![0u8; 31]).is_err());
    assert!(UHash::from_bytes(vec![0u8; 33]).is_err());
}

#[test]
fn equality_is_by_raw_bytes() {
    let a = UNodeId::from_bytes(raw_id(1)).unwrap();
    let b = UNodeId::from_bytes(raw_id(1)).unwrap();
    let c = UNodeId::from_bytes(raw_id(2)).unwrap();
    assert!(a == b);
    assert!(a != c);
    assert!(a == a.dup());
}
