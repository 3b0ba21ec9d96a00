use vstd::prelude::*;
use std::collections::HashMap;

verus! {

/// How a peer entered the directory: configured by the operator (never
/// expires) or learned from a discovery announcement (expires when stale).
#[derive(Clone, Copy, Debug, PartialEq, Eq, Structural)]
pub enum PeerType {
    Static,
    Dynamic,
}

/// The network address a peer is reachable at: a literal IP address, or an
/// opaque host name for convergence layers that are not IP-addressed.
#[derive(Clone, Debug)]
pub enum PeerAddress {
    Ip(String),
    Generic(String),
}

/// Mathematical value of a `PeerAddress`.
pub enum PeerAddressView {
    Ip(Seq<char>),
    Generic(Seq<char>),
}

impl View for PeerAddress {
    type V = PeerAddressView;

    open spec fn view(&self) -> PeerAddressView {
        match self {
            PeerAddress::Ip(s) => PeerAddressView::Ip(s@),
            PeerAddress::Generic(s) => PeerAddressView::Generic(s@),
        }
    }
}

impl PeerAddress {
    /// True when both addresses are the same kind and the same host text.
    pub fn matches(&self, other: &PeerAddress) -> (r: bool)
        ensures
            r == (self@ == other@),
    {
        match (self, other) {
            (PeerAddress::Ip(a), PeerAddress::Ip(b)) => a.eq(b),
            (PeerAddress::Generic(a), PeerAddress::Generic(b)) => a.eq(b),
            _ => false,
        }
    }
}

/// One known neighbor: immutable identity (address, how it was learned)
/// plus the liveness state that discovery announcements refresh.
#[derive(Debug)]
pub struct DtnPeer {
    /// Endpoint identifier of the peer, if known yet.
    pub eid: Option<String>,
    /// Network address the peer was configured with or announced from.
    pub addr: PeerAddress,
    /// Static peers never expire; dynamic ones do.
    pub con_type: PeerType,
    /// Transports the peer is reachable through: (scheme name, optional port).
    pub cla_list: Vec<(String, Option<u16>)>,
    /// Side-channel service advertisements, tag to value.
    pub services: HashMap<u8, String>,
    /// Timestamp (seconds) of the last announcement received from this peer.
    pub last_seen: u64,
}

/// Mathematical value of a `DtnPeer`.
pub struct DtnPeerView {
    pub eid: Option<Seq<char>>,
    pub addr: PeerAddressView,
    pub con_type: PeerType,
    pub cla_list: Seq<(Seq<char>, Option<u16>)>,
    pub services: Map<u8, Seq<char>>,
    pub last_seen: u64,
}

impl View for DtnPeer {
    type V = DtnPeerView;

    open spec fn view(&self) -> DtnPeerView {
        DtnPeerView {
            eid: match self.eid {
                Some(e) => Some(e@),
                None => None,
            },
            addr: self.addr@,
            con_type: self.con_type,
            cla_list: self.cla_list@.map_values(|c: (String, Option<u16>)| (c.0@, c.1)),
            services: self.services@.map_values(|v: String| v@),
            last_seen: self.last_seen,
        }
    }
}

impl DtnPeerView {
    /// The sole expiry policy: a static peer is always valid; a dynamic peer
    /// is valid exactly while `now - last_seen` does not exceed the
    /// staleness threshold.
    pub open spec fn still_valid(self, now: u64) -> bool {
        self.con_type is Static || now - self.last_seen <= crate::PEER_STALENESS_SECS
    }
}

impl DtnPeer {
    pub fn new(
        eid: Option<String>,
        addr: PeerAddress,
        con_type: PeerType,
        cla_list: Vec<(String, Option<u16>)>,
        services: HashMap<u8, String>,
        last_seen: u64,
    ) -> (p: DtnPeer)
        ensures
            p.eid == eid,
            p.addr == addr,
            p.con_type == con_type,
            p.cla_list == cla_list,
            p.services == services,
            p.last_seen == last_seen,
    {
        DtnPeer { eid, addr, con_type, cla_list, services, last_seen }
    }

    /// Liveness check against the staleness threshold at time `now`.
    pub fn still_valid(&self, now: u64) -> (r: bool)
        ensures
            r == self@.still_valid(now),
            self.con_type is Static ==> r,
            self.con_type is Dynamic ==> r == (now - self.last_seen <= crate::PEER_STALENESS_SECS),
    {
        match self.con_type {
            PeerType::Static => true,
            PeerType::Dynamic => now <= self.last_seen || now - self.last_seen <= crate::PEER_STALENESS_SECS,
        }
    }
}

} // verus!
