use std::collections::BTreeMap;

use dtn7::codec::{decode_announcement, AnnouncementPkt};
use serde_cbor::Value;

fn text(s: &str) -> Value {
    Value::Text(s.to_string())
}

#[test]
fn encode_decode_round_trip() {
    let pkt = AnnouncementPkt {
        eid: Some("dtn://node1".to_string()),
        cl: vec!["mtcp".to_string(), "dummy".to_string()],
    };
    let bytes = pkt.encode();
    let back = decode_announcement(&bytes).unwrap();
    assert_eq!(back.eid, Some("dtn://node1".to_string()));
    assert_eq!(back.cl, vec!["mtcp".to_string(), "dummy".to_string()]);
}

#[test]
fn encode_decode_round_trip_no_eid() {
    let pkt = AnnouncementPkt { eid: None, cl: vec![] };
    let bytes = pkt.encode();
    let back = decode_announcement(&bytes).unwrap();
    assert_eq!(back.eid, None);
    assert!(back.cl.is_empty());
}

#[test]
fn encoding_is_standard_cbor() {
    let pkt = AnnouncementPkt { eid: None, cl: vec!["mtcp".to_string()] };
    let bytes = pkt.encode();
    let value: Value = serde_cbor::from_slice(&bytes).unwrap();
    let mut expected = BTreeMap::new();
    expected.insert(text("eid"), Value::Null);
    expected.insert(text("cl"), Value::Array(vec![text("mtcp")]));
    assert_eq!(value, Value::Map(expected));
}

#[test]
fn encoding_with_eid_is_standard_cbor() {
    let pkt = AnnouncementPkt { eid: Some("dtn://a".to_string()), cl: vec![] };
    let bytes = pkt.encode();
    let value: Value = serde_cbor::from_slice(&bytes).unwrap();
    let mut expected = BTreeMap::new();
    expected.insert(text("eid"), text("dtn://a"));
    expected.insert(text("cl"), Value::Array(vec![]));
    assert_eq!(value, Value::Map(expected));
}

#[test]
fn decodes_foreign_encoder_output_any_key_order() {
    // BTreeMap orders keys "cl" before "eid": the reverse of this encoder
    let mut map = BTreeMap::new();
    map.insert(text("eid"), text("dtn://nodeX"));
    map.insert(text("cl"), Value::Array(vec![text("mtcp"), text("dummy")]));
    let bytes = serde_cbor::to_vec(&Value::Map(map)).unwrap();
    let pkt = decode_announcement(&bytes).unwrap();
    assert_eq!(pkt.eid, Some("dtn://nodeX".to_string()));
    assert_eq!(pkt.cl, vec!["mtcp".to_string(), "dummy".to_string()]);
}

#[test]
fn decoder_tolerates_unknown_fields() {
    let mut map = BTreeMap::new();
    map.insert(text("cl"), Value::Array(vec![text("mtcp")]));
    map.insert(text("eid"), Value::Null);
    map.insert(text("zz-future"), Value::Array(vec![Value::Integer(7), text("x")]));
    let bytes = serde_cbor::to_vec(&Value::Map(map)).unwrap();
    let pkt = decode_announcement(&bytes).unwrap();
    assert_eq!(pkt.eid, None);
    assert_eq!(pkt.cl, vec!["mtcp".to_string()]);
}

#[test]
fn decoder_rejects_garbage() {
    assert!(decode_announcement(&vec![]).is_none());
    assert!(decode_announcement(&vec![0xff, 0x13, 0x37]).is_none());
    // a map missing the "cl" entry is not an announcement
    let mut map = BTreeMap::new();
    map.insert(text("eid"), Value::Null);
    let bytes = serde_cbor::to_vec(&Value::Map(map)).unwrap();
    assert!(decode_announcement(&bytes).is_none());
}

#[test]
fn decoder_rejects_trailing_bytes() {
    let pkt = AnnouncementPkt { eid: None, cl: vec![] };
    let mut bytes = pkt.encode();
    assert!(decode_announcement(&bytes).is_some());
    bytes.push(0x00);
    assert!(decode_announcement(&bytes).is_none());
}

#[test]
fn decoder_rejects_invalid_text_bytes() {
    // major 5, 2 entries; "eid" => null; "cl" => ["\xff"]: not UTF-8
    let bytes = vec![
        0xa2, 0x63, b'e', b'i', b'd', 0xf6, 0x62, b'c', b'l', 0x81, 0x61, 0xff,
    ];
    assert!(decode_announcement(&bytes).is_none());
}

#[test]
fn long_text_uses_wider_length_header() {
    let long_name = "x".repeat(300);
    let pkt = AnnouncementPkt { eid: None, cl: vec![long_name.clone()] };
    let bytes = pkt.encode();
    let value: Value = serde_cbor::from_slice(&bytes).unwrap();
    let mut expected = BTreeMap::new();
    expected.insert(text("eid"), Value::Null);
    expected.insert(text("cl"), Value::Array(vec![text(&long_name)]));
    assert_eq!(value, Value::Map(expected));
    let back = decode_announcement(&bytes).unwrap();
    assert_eq!(back.cl, vec![long_name]);
}
