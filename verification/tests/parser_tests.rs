use dtn7::helpers::{parse_peer_url, PeerUrlError};
use dtn7::peer::{PeerAddress, PeerType};

#[test]
fn parse_static_peer_with_port() {
    let peer = parse_peer_url("mtcp://192.168.2.1:2342/node1").unwrap();
    assert_eq!(peer.eid, Some("dtn://node1".to_string()));
    match &peer.addr {
        PeerAddress::Ip(host) => assert_eq!(host, "192.168.2.1"),
        PeerAddress::Generic(host) => panic!("host {} should be tagged as an IP literal", host),
    }
    assert_eq!(peer.con_type, PeerType::Static);
    assert_eq!(peer.cla_list, vec![("mtcp".to_string(), Some(2342))]);
    assert!(peer.services.is_empty());
}

#[test]
fn parse_unknown_convergence_layer() {
    let err = parse_peer_url("nosuchcla://192.168.2.1/node1").unwrap_err();
    assert_eq!(err, PeerUrlError::UnknownConvergenceLayer);
}

#[test]
fn parse_missing_node_id() {
    let err = parse_peer_url("mtcp://192.168.2.1").unwrap_err();
    assert_eq!(err, PeerUrlError::MissingNodeId);
}

#[test]
fn parse_missing_node_id_slash_only() {
    let err = parse_peer_url("mtcp://192.168.2.1:2342/").unwrap_err();
    assert_eq!(err, PeerUrlError::MissingNodeId);
}

#[test]
fn parse_not_a_url() {
    let err = parse_peer_url("not a url at all").unwrap_err();
    assert_eq!(err, PeerUrlError::MalformedPeerSpec);
}

#[test]
fn parse_generic_host() {
    let peer = parse_peer_url("dummy://somehost/nodeA").unwrap();
    match &peer.addr {
        PeerAddress::Generic(host) => assert_eq!(host, "somehost"),
        PeerAddress::Ip(host) => panic!("host {} should not be tagged as an IP literal", host),
    }
    assert_eq!(peer.eid, Some("dtn://nodeA".to_string()));
    assert_eq!(peer.cla_list, vec![("dummy".to_string(), None)]);
}

#[test]
fn parse_without_port() {
    let peer = parse_peer_url("mtcp://10.0.0.7/n2").unwrap();
    assert_eq!(peer.cla_list, vec![("mtcp".to_string(), None)]);
    match &peer.addr {
        PeerAddress::Ip(host) => assert_eq!(host, "10.0.0.7"),
        PeerAddress::Generic(host) => panic!("host {} should be tagged as an IP literal", host),
    }
}

#[test]
fn host_with_bad_octet_is_generic() {
    let peer = parse_peer_url("mtcp://999.2.3.4/n").unwrap();
    match &peer.addr {
        PeerAddress::Generic(host) => assert_eq!(host, "999.2.3.4"),
        PeerAddress::Ip(host) => panic!("host {} should not be tagged as an IP literal", host),
    }
}
