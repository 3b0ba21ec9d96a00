use std::collections::HashMap;

use dtn7::directory::{process_peers, PeerDirectory};
use dtn7::discovery::handle_announcement;
use dtn7::codec::AnnouncementPkt;
use dtn7::peer::{DtnPeer, PeerAddress, PeerType};
use dtn7::PEER_STALENESS_SECS;

fn dynamic_peer(ip: &str, last_seen: u64) -> DtnPeer {
    DtnPeer::new(
        Some(format!("dtn://{}", ip)),
        PeerAddress::Ip(ip.to_string()),
        PeerType::Dynamic,
        vec![("mtcp".to_string(), None)],
        HashMap::new(),
        last_seen,
    )
}

#[test]
fn liveness_static_always_valid() {
    let mut peer = dynamic_peer("10.0.0.1", 0);
    peer.con_type = PeerType::Static;
    assert!(peer.still_valid(u64::MAX));
}

#[test]
fn liveness_dynamic_threshold() {
    let peer = dynamic_peer("10.0.0.1", 100);
    assert!(peer.still_valid(100));
    assert!(peer.still_valid(100 + PEER_STALENESS_SECS));
    assert!(!peer.still_valid(101 + PEER_STALENESS_SECS));
    // a record seen "in the future" is not stale
    assert!(peer.still_valid(99));
}

#[test]
fn expiry_never_removes_static_peer() {
    let mut dir = PeerDirectory::new();
    let mut ancient = dynamic_peer("10.0.0.1", 0);
    ancient.con_type = PeerType::Static;
    dir.register_static(ancient);
    dir.insert_or_update(dynamic_peer("10.0.0.2", 0));
    let removed = process_peers(&mut dir, 1_000_000);
    assert_eq!(dir.len(), 1);
    assert_eq!(removed.len(), 1);
    match &removed[0].addr {
        PeerAddress::Ip(host) => assert_eq!(host, "10.0.0.2"),
        PeerAddress::Generic(host) => panic!("unexpected generic address {}", host),
    }
    assert!(dir.find(&PeerAddress::Ip("10.0.0.1".to_string())).is_some());
    assert!(dir.find(&PeerAddress::Ip("10.0.0.2".to_string())).is_none());
}

#[test]
fn expiry_keeps_fresh_dynamic_peer() {
    let mut dir = PeerDirectory::new();
    dir.insert_or_update(dynamic_peer("10.0.0.2", 100));
    let removed = process_peers(&mut dir, 105);
    assert_eq!(dir.len(), 1);
    assert!(removed.is_empty());
}

#[test]
fn upsert_same_address_twice_keeps_one_entry() {
    let mut dir = PeerDirectory::new();
    let pkt = AnnouncementPkt { eid: Some("dtn://n1".to_string()), cl: vec!["mtcp".to_string()] };
    let bytes = pkt.encode();
    assert!(handle_announcement(&mut dir, "192.168.2.7".to_string(), &bytes, 100));
    assert!(handle_announcement(&mut dir, "192.168.2.7".to_string(), &bytes, 140));
    assert_eq!(dir.len(), 1);
    let entry = dir.find(&PeerAddress::Ip("192.168.2.7".to_string())).unwrap();
    assert_eq!(entry.last_seen, 140);
    assert_eq!(entry.eid, Some("dtn://n1".to_string()));
    assert_eq!(entry.con_type, PeerType::Dynamic);
    assert_eq!(entry.cla_list, vec![("mtcp".to_string(), None)]);
}

#[test]
fn upsert_keeps_known_eid_when_new_one_absent() {
    let mut dir = PeerDirectory::new();
    let named = AnnouncementPkt { eid: Some("dtn://n1".to_string()), cl: vec!["mtcp".to_string()] };
    let anonymous = AnnouncementPkt { eid: None, cl: vec!["mtcp".to_string()] };
    assert!(handle_announcement(&mut dir, "10.1.1.1".to_string(), &named.encode(), 10));
    assert!(handle_announcement(&mut dir, "10.1.1.1".to_string(), &anonymous.encode(), 20));
    let entry = dir.find(&PeerAddress::Ip("10.1.1.1".to_string())).unwrap();
    assert_eq!(entry.eid, Some("dtn://n1".to_string()));
    assert_eq!(entry.last_seen, 20);
}

#[test]
fn upsert_preserves_static_type() {
    let mut dir = PeerDirectory::new();
    let mut configured = dynamic_peer("10.9.9.9", 0);
    configured.con_type = PeerType::Static;
    dir.register_static(configured);
    let pkt = AnnouncementPkt { eid: None, cl: vec!["mtcp".to_string()] };
    assert!(handle_announcement(&mut dir, "10.9.9.9".to_string(), &pkt.encode(), 50));
    let entry = dir.find(&PeerAddress::Ip("10.9.9.9".to_string())).unwrap();
    assert_eq!(entry.con_type, PeerType::Static);
    assert_eq!(entry.last_seen, 50);
}

#[test]
fn bad_payload_leaves_directory_unchanged() {
    let mut dir = PeerDirectory::new();
    let pkt = AnnouncementPkt { eid: None, cl: vec!["mtcp".to_string()] };
    assert!(handle_announcement(&mut dir, "10.0.0.5".to_string(), &pkt.encode(), 10));
    assert_eq!(dir.len(), 1);

    let garbage = vec![0xffu8, 0x00, 0x13, 0x37];
    assert!(!handle_announcement(&mut dir, "10.0.0.6".to_string(), &garbage, 11));
    assert_eq!(dir.len(), 1);
    assert!(dir.find(&PeerAddress::Ip("10.0.0.6".to_string())).is_none());

    // the loop goes on: a later good packet is still processed
    assert!(handle_announcement(&mut dir, "10.0.0.6".to_string(), &pkt.encode(), 12));
    assert_eq!(dir.len(), 2);
}

#[test]
fn malformed_eid_in_announcement_is_dropped() {
    let mut dir = PeerDirectory::new();
    let pkt = AnnouncementPkt { eid: Some("junk-without-scheme".to_string()), cl: vec![] };
    assert!(!handle_announcement(&mut dir, "10.0.0.9".to_string(), &pkt.encode(), 5));
    assert_eq!(dir.len(), 0);
}
