use vstd::prelude::*;
use std::collections::HashMap;
use crate::codec::{AnnouncementPkt, AnnouncementPktView, decode_announcement, spec_decode_announcement};
use crate::directory::{PeerDirectory, upsert_post};
use crate::eid::{eid_ok, check_eid};
use crate::peer::{DtnPeer, DtnPeerView, PeerAddress, PeerAddressView, PeerType};
use crate::registry::{CLAEnum, DtnCore};
use vstd::string::StringExecFns;

verus! {

/// The packet one broadcast tick sends: no endpoint identifier (receivers
/// key peers by source address) and the scheme names of the node's active
/// convergence layers, in registry order.
pub fn make_announcement(core: &DtnCore) -> (r: AnnouncementPkt)
    ensures
        r@.eid is None,
        r@.cl == core.cl_list@.map_values(|c: CLAEnum| c.spec_name()),
{
    let mut cls: Vec<String> = Vec::new();
    let mut i: usize = 0;
    while i < core.cl_list.len()
        invariant
            i <= core.cl_list@.len(),
            cls@.len() == i,
            forall|j: int| 0 <= j < i ==> (#[trigger] cls@[j])@ == core.cl_list@[j].spec_name(),
        decreases core.cl_list@.len() - i,
    {
        cls.push(String::from_str(core.cl_list[i].name()));
        i = i + 1;
    }
    let pkt = AnnouncementPkt { eid: None, cl: cls };
    proof {
        assert(pkt@.cl =~= core.cl_list@.map_values(|c: CLAEnum| c.spec_name()));
    }
    pkt
}

/// The dynamic peer record an announcement from source address `src`
/// received at `now` turns into.
pub open spec fn announced_peer_view(pkt: AnnouncementPktView, src: Seq<char>, now: u64) -> DtnPeerView {
    DtnPeerView {
        eid: pkt.eid,
        addr: PeerAddressView::Ip(src),
        con_type: PeerType::Dynamic,
        cla_list: pkt.cl.map_values(|s: Seq<char>| (s, None::<u16>)),
        services: Map::empty(),
        last_seen: now,
    }
}

/// A decoded announcement is accepted only if the endpoint identifier it
/// advertises, when it advertises one, is well formed.
pub open spec fn announcement_acceptable(pkt: AnnouncementPktView) -> bool {
    match pkt.eid {
        None => true,
        Some(e) => eid_ok(e),
    }
}

/// Handle one received discovery datagram: decode the payload and, on
/// success, upsert a dynamic peer record for the sender's address with
/// `last_seen = now`. A payload that does not decode (or advertises a
/// malformed endpoint identifier) leaves the directory unchanged and is
/// reported as dropped, so the caller can log it and keep receiving.
pub fn handle_announcement(dir: &mut PeerDirectory, src_ip: String, payload: &Vec<u8>, now: u64) -> (r: bool)
    requires
        old(dir).wf(),
    ensures
        final(dir).wf(),
        (match spec_decode_announcement(payload@) {
            None => !r && final(dir)@ == old(dir)@,
            Some(pkt) => {
                if announcement_acceptable(pkt) {
                    r && upsert_post(old(dir)@, final(dir)@, announced_peer_view(pkt, src_ip@, now))
                } else {
                    !r && final(dir)@ == old(dir)@
                }
            },
        }),
{
    match decode_announcement(payload) {
        None => false,
        Some(pkt) => {
            let ghost pktv = pkt@;
            let ghost cl0: Seq<String> = pkt.cl@;
            let eid: Option<String> = match pkt.eid {
                None => None,
                Some(e) => {
                    if check_eid(e.as_str()) {
                        Some(e)
                    } else {
                        return false;
                    }
                },
            };
            let mut cl = pkt.cl;
            let mut cla_list: Vec<(String, Option<u16>)> = Vec::new();
            let ghost mut k: int = 0;
            proof {
                assert(cl@ =~= cl0.skip(0));
            }
            while cl.len() > 0
                invariant
                    0 <= k <= pktv.cl.len(),
                    pktv.cl.len() == cl0.len(),
                    forall|j: int| 0 <= j < pktv.cl.len() ==> #[trigger] pktv.cl[j] == cl0[j]@,
                    cl@ =~= cl0.skip(k),
                    cla_list@.len() == k,
                    forall|j: int| 0 <= j < k ==> (#[trigger] cla_list@[j]).0@ == pktv.cl[j]
                        && cla_list@[j].1 is None,
                decreases cl@.len(),
            {
                let s = cl.remove(0);
                proof {
                    assert(s@ == pktv.cl[k]);
                    assert(cl@ =~= cl0.skip(k + 1));
                }
                cla_list.push((s, None));
                proof {
                    k = k + 1;
                }
            }
            let peer = DtnPeer {
                eid,
                addr: PeerAddress::Ip(src_ip),
                con_type: PeerType::Dynamic,
                cla_list,
                services: HashMap::new(),
                last_seen: now,
            };
            proof {
                assert(peer@.cla_list =~= pktv.cl.map_values(|s: Seq<char>| (s, None::<u16>)));
                assert(peer@.services =~= Map::<u8, Seq<char>>::empty());
                assert(peer@ == announced_peer_view(pktv, src_ip@, now));
            }
            dir.insert_or_update(peer);
            true
        },
    }
}

} // verus!
