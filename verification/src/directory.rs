use vstd::prelude::*;
use crate::peer::{DtnPeer, DtnPeerView, PeerAddress, PeerAddressView, PeerType};

verus! {

/// No two entries share an address: the directory is a mapping.
pub open spec fn addr_unique(s: Seq<DtnPeerView>) -> bool {
    forall|i: int, j: int| 0 <= i < j < s.len() ==> s[i].addr != s[j].addr
}

/// The record stored under `addr`, if any (the first match; under
/// `addr_unique` it is the only one).
pub open spec fn spec_find(s: Seq<DtnPeerView>, addr: PeerAddressView) -> Option<DtnPeerView>
    decreases s.len(),
{
    if s.len() == 0 {
        None
    } else if s[0].addr == addr {
        Some(s[0])
    } else {
        spec_find(s.drop_first(), addr)
    }
}

/// What an upsert stores when a record already exists for the address:
/// the mutable fields (last seen, convergence layers, services, and the
/// eid once newly known) are replaced, while the peer type is preserved.
pub open spec fn merged_peer(existing: DtnPeerView, incoming: DtnPeerView) -> DtnPeerView {
    DtnPeerView {
        eid: if incoming.eid is Some { incoming.eid } else { existing.eid },
        addr: existing.addr,
        con_type: existing.con_type,
        cla_list: incoming.cla_list,
        services: incoming.services,
        last_seen: incoming.last_seen,
    }
}

/// Relation between the directory before and after `insert_or_update(peer)`.
pub open spec fn upsert_post(pre: Seq<DtnPeerView>, post: Seq<DtnPeerView>, peer: DtnPeerView) -> bool {
    &&& match spec_find(pre, peer.addr) {
        None => spec_find(post, peer.addr) == Some(peer),
        Some(existing) => spec_find(post, peer.addr) == Some(merged_peer(existing, peer)),
    }
    &&& forall|a: PeerAddressView| a != peer.addr ==> #[trigger] spec_find(post, a) == spec_find(pre, a)
}

proof fn lemma_find_push(s: Seq<DtnPeerView>, p: DtnPeerView, a: PeerAddressView)
    ensures
        spec_find(s.push(p), a) == (if spec_find(s, a) is Some {
            spec_find(s, a)
        } else if p.addr == a {
            Some(p)
        } else {
            None::<DtnPeerView>
        }),
    decreases s.len(),
{
    if s.len() == 0 {
        assert(s.push(p)[0] == p);
        assert(s.push(p).drop_first() =~= Seq::<DtnPeerView>::empty());
    } else {
        assert(s.push(p)[0] == s[0]);
        assert(s.push(p).drop_first() =~= s.drop_first().push(p));
        lemma_find_push(s.drop_first(), p, a);
    }
}

proof fn lemma_find_update_at(s: Seq<DtnPeerView>, i: int, p: DtnPeerView, a: PeerAddressView)
    requires
        0 <= i < s.len(),
        addr_unique(s),
        p.addr == s[i].addr,
    ensures
        spec_find(s.update(i, p), a) == (if a == p.addr {
            Some(p)
        } else {
            spec_find(s, a)
        }),
    decreases s.len(),
{
    let t = s.update(i, p);
    if i == 0 {
        assert(t[0] == p);
        if a != p.addr {
            assert(t.drop_first() =~= s.drop_first());
        }
    } else {
        assert(t[0] == s[0]);
        assert(s[0].addr != s[i].addr);
        assert(t.drop_first() =~= s.drop_first().update(i - 1, p));
        assert(addr_unique(s.drop_first())) by {
            assert forall|x: int, y: int| 0 <= x < y < s.drop_first().len() implies s.drop_first()[x].addr != s.drop_first()[y].addr by {
                assert(s.drop_first()[x] == s[x + 1]);
                assert(s.drop_first()[y] == s[y + 1]);
            }
        }
        assert(s.drop_first()[i - 1] == s[i]);
        lemma_find_update_at(s.drop_first(), i - 1, p, a);
    }
}

/// The process-wide mapping from network address to peer record.
pub struct PeerDirectory {
    peers: Vec<DtnPeer>,
}

impl View for PeerDirectory {
    type V = Seq<DtnPeerView>;

    closed spec fn view(&self) -> Seq<DtnPeerView> {
        self.peers@.map_values(|p: DtnPeer| p@)
    }
}

impl PeerDirectory {
    /// Directory invariant: at most one record per address.
    pub open spec fn wf(self) -> bool {
        addr_unique(self@)
    }

    pub fn new() -> (d: PeerDirectory)
        ensures
            d.wf(),
            d@ == Seq::<DtnPeerView>::empty(),
    {
        let d = PeerDirectory { peers: Vec::new() };
        proof {
            assert(d@ =~= Seq::<DtnPeerView>::empty());
        }
        d
    }

    /// Number of records in the directory.
    pub fn len(&self) -> (n: usize)
        ensures
            n == self@.len(),
    {
        self.peers.len()
    }

    fn find_index(&self, addr: &PeerAddress) -> (r: Option<usize>)
        ensures
            match r {
                Some(i) => i < self@.len() && self@[i as int].addr == addr@
                    && forall|j: int| 0 <= j < i ==> self@[j].addr != addr@,
                None => forall|j: int| 0 <= j < self@.len() ==> self@[j].addr != addr@,
            },
    {
        let mut i: usize = 0;
        while i < self.peers.len()
            invariant
                i <= self@.len(),
                self@.len() == self.peers@.len(),
                forall|j: int| 0 <= j < i ==> self@[j].addr != addr@,
            decreases self.peers@.len() - i,
        {
            if self.peers[i].addr.matches(addr) {
                return Some(i);
            }
            i = i + 1;
        }
        None
    }

    /// Look up the record stored for an address.
    pub fn find(&self, addr: &PeerAddress) -> (r: Option<&DtnPeer>)
        ensures
            match r {
                Some(p) => spec_find(self@, addr@) == Some(p@),
                None => spec_find(self@, addr@) is None,
            },
    {
        match self.find_index(addr) {
            Some(i) => {
                proof {
                    lemma_find_at(self@, i as int, addr@);
                }
                Some(&self.peers[i])
            },
            None => {
                proof {
                    lemma_find_absent(self@, addr@);
                }
                None
            },
        }
    }

    /// Insert a record for a new address, or refresh the existing record:
    /// the mutable fields are replaced (the eid only once newly known) and
    /// the peer type of an existing record is preserved.
    pub fn insert_or_update(&mut self, peer: DtnPeer)
        requires
            old(self).wf(),
        ensures
            final(self).wf(),
            upsert_post(old(self)@, final(self)@, peer@),
    {
        let ghost pre = self@;
        match self.find_index(&peer.addr) {
            None => {
                proof {
                    lemma_find_absent(pre, peer@.addr);
                }
                self.peers.push(peer);
                proof {
                    assert(self@ =~= pre.push(peer@));
                    lemma_find_push_all(pre, peer@);
                }
            },
            Some(i) => {
                proof {
                    lemma_find_at(pre, i as int, peer@.addr);
                }
                let existing = self.peers.remove(i);
                let merged = DtnPeer {
                    eid: if peer.eid.is_some() { peer.eid } else { existing.eid },
                    addr: existing.addr,
                    con_type: existing.con_type,
                    cla_list: peer.cla_list,
                    services: peer.services,
                    last_seen: peer.last_seen,
                };
                proof {
                    assert(merged@ == merged_peer(pre[i as int], peer@));
                }
                self.peers.insert(i, merged);
                proof {
                    assert(self@ =~= pre.update(i as int, merged@));
                    lemma_find_update_all(pre, i as int, merged@);
                }
            },
        }
    }

    /// Store an operator-configured peer: its type is forced to `Static`
    /// and the whole record replaces any record at that address.
    pub fn register_static(&mut self, peer: DtnPeer)
        requires
            old(self).wf(),
        ensures
            final(self).wf(),
            spec_find(final(self)@, peer@.addr) == Some((DtnPeerView { con_type: PeerType::Static, ..peer@ })),
            forall|a: PeerAddressView| a != peer@.addr ==> #[trigger] spec_find(final(self)@, a) == spec_find(old(self)@, a),
    {
        let ghost pre = self@;
        let mut p = peer;
        p.con_type = PeerType::Static;
        match self.find_index(&p.addr) {
            None => {
                proof {
                    lemma_find_absent(pre, p@.addr);
                }
                self.peers.push(p);
                proof {
                    assert(self@ =~= pre.push(p@));
                    lemma_find_push_all(pre, p@);
                }
            },
            Some(i) => {
                let _existing = self.peers.remove(i);
                self.peers.insert(i, p);
                proof {
                    assert(self@ =~= pre.update(i as int, p@));
                    lemma_find_update_all(pre, i as int, p@);
                }
            },
        }
    }
}

proof fn lemma_find_at(s: Seq<DtnPeerView>, i: int, a: PeerAddressView)
    requires
        0 <= i < s.len(),
        s[i].addr == a,
        forall|j: int| 0 <= j < i ==> s[j].addr != a,
    ensures
        spec_find(s, a) == Some(s[i]),
    decreases i,
{
    if i == 0 {
    } else {
        assert(s.drop_first()[i - 1] == s[i]);
        assert forall|j: int| 0 <= j < i - 1 implies s.drop_first()[j].addr != a by {
            assert(s.drop_first()[j] == s[j + 1]);
        }
        lemma_find_at(s.drop_first(), i - 1, a);
    }
}

proof fn lemma_find_absent(s: Seq<DtnPeerView>, a: PeerAddressView)
    requires
        forall|j: int| 0 <= j < s.len() ==> s[j].addr != a,
    ensures
        spec_find(s, a) is None,
    decreases s.len(),
{
    if s.len() > 0 {
        assert forall|j: int| 0 <= j < s.drop_first().len() implies s.drop_first()[j].addr != a by {
            assert(s.drop_first()[j] == s[j + 1]);
        }
        lemma_find_absent(s.drop_first(), a);
    }
}

proof fn lemma_find_push_all(s: Seq<DtnPeerView>, p: DtnPeerView)
    requires
        addr_unique(s),
        forall|j: int| 0 <= j < s.len() ==> s[j].addr != p.addr,
    ensures
        addr_unique(s.push(p)),
        spec_find(s.push(p), p.addr) == Some(p),
        forall|a: PeerAddressView| a != p.addr ==> #[trigger] spec_find(s.push(p), a) == spec_find(s, a),
{
    lemma_find_absent(s, p.addr);
    lemma_find_push(s, p, p.addr);
    assert forall|a: PeerAddressView| a != p.addr implies #[trigger] spec_find(s.push(p), a) == spec_find(s, a) by {
        lemma_find_push(s, p, a);
    }
    assert forall|x: int, y: int| 0 <= x < y < s.push(p).len() implies s.push(p)[x].addr != s.push(p)[y].addr by {
        if y < s.len() {
            assert(s.push(p)[x] == s[x]);
            assert(s.push(p)[y] == s[y]);
        } else {
            assert(s.push(p)[x] == s[x]);
            assert(s.push(p)[y] == p);
        }
    }
}

/// Removes every stale dynamic peer from the directory and returns the
/// removed records, so the caller can report each removed peer's identity
/// and address.
pub fn process_peers(dir: &mut PeerDirectory, now: u64) -> (removed: Vec<DtnPeer>)
    requires
        old(dir).wf(),
    ensures
        final(dir).wf(),
        final(dir)@ == old(dir)@.filter(|p: DtnPeerView| p.still_valid(now)),
        removed@.map_values(|p: DtnPeer| p@) == old(dir)@.filter(|p: DtnPeerView| !p.still_valid(now)),
{
    let ghost pre = dir@;
    let removed = dir.partition_valid(now);
    proof {
        lemma_filter_unique(pre, |p: DtnPeerView| p.still_valid(now));
    }
    removed
}

impl PeerDirectory {
    fn partition_valid(&mut self, now: u64) -> (removed: Vec<DtnPeer>)
        ensures
            final(self)@ == old(self)@.filter(|p: DtnPeerView| p.still_valid(now)),
            removed@.map_values(|p: DtnPeer| p@) == old(self)@.filter(|p: DtnPeerView| !p.still_valid(now)),
    {
        let ghost pre = self@;
        let mut kept: Vec<DtnPeer> = Vec::new();
        let mut removed: Vec<DtnPeer> = Vec::new();
        let ghost mut done: Seq<DtnPeerView> = Seq::empty();
        proof {
            reveal(Seq::filter);
            assert(kept@.map_values(|p: DtnPeer| p@) =~= done.filter(|p: DtnPeerView| p.still_valid(now)));
            assert(removed@.map_values(|p: DtnPeer| p@) =~= done.filter(|p: DtnPeerView| !p.still_valid(now)));
            assert(pre =~= done + self@);
        }
        while self.peers.len() > 0
            invariant
                pre == done + self@,
                kept@.map_values(|p: DtnPeer| p@) == done.filter(|p: DtnPeerView| p.still_valid(now)),
                removed@.map_values(|p: DtnPeer| p@) == done.filter(|p: DtnPeerView| !p.still_valid(now)),
            decreases self.peers@.len(),
        {
            let ghost prev = self@;
            let p = self.peers.remove(0);
            let ghost pv = p@;
            proof {
                assert(pv == prev[0]);
                assert(self@ =~= prev.drop_first());
                assert(done + prev =~= done.push(pv) + self@);
            }
            let valid = p.still_valid(now);
            proof {
                lemma_filter_push(done, pv, |q: DtnPeerView| q.still_valid(now));
                lemma_filter_push(done, pv, |q: DtnPeerView| !q.still_valid(now));
            }
            if valid {
                kept.push(p);
            } else {
                removed.push(p);
            }
            proof {
                done = done.push(pv);
                assert(kept@.map_values(|q: DtnPeer| q@) =~= done.filter(|q: DtnPeerView| q.still_valid(now)));
                assert(removed@.map_values(|q: DtnPeer| q@) =~= done.filter(|q: DtnPeerView| !q.still_valid(now)));
            }
        }
        self.peers = kept;
        proof {
            assert(pre =~= done);
            assert(self@ =~= done.filter(|p: DtnPeerView| p.still_valid(now)));
        }
        removed
    }
}

proof fn lemma_filter_push(s: Seq<DtnPeerView>, x: DtnPeerView, pred: spec_fn(DtnPeerView) -> bool)
    ensures
        s.push(x).filter(pred) == (if pred(x) {
            s.filter(pred).push(x)
        } else {
            s.filter(pred)
        }),
{
    reveal(Seq::filter);
    assert(s.push(x).drop_last() =~= s);
    assert(s.push(x).last() == x);
}

proof fn lemma_filter_sub(s: Seq<DtnPeerView>, pred: spec_fn(DtnPeerView) -> bool)
    ensures
        forall|k: int| 0 <= k < s.filter(pred).len() ==> s.contains(#[trigger] s.filter(pred)[k]),
    decreases s.len(),
{
    reveal(Seq::filter);
    if s.len() > 0 {
        lemma_filter_sub(s.drop_last(), pred);
        assert forall|k: int| 0 <= k < s.filter(pred).len() implies s.contains(#[trigger] s.filter(pred)[k]) by {
            let sub = s.drop_last().filter(pred);
            if k < sub.len() {
                assert(s.drop_last().contains(sub[k]));
                let j = choose|j: int| 0 <= j < s.drop_last().len() && s.drop_last()[j] == sub[k];
                assert(s[j] == sub[k]);
            } else {
                assert(s[s.len() - 1] == s.filter(pred)[k]);
            }
        }
    }
}

proof fn lemma_filter_unique(s: Seq<DtnPeerView>, pred: spec_fn(DtnPeerView) -> bool)
    requires
        addr_unique(s),
    ensures
        addr_unique(s.filter(pred)),
    decreases s.len(),
{
    reveal(Seq::filter);
    if s.len() > 0 {
        assert forall|x: int, y: int| 0 <= x < y < s.drop_last().len() implies s.drop_last()[x].addr != s.drop_last()[y].addr by {
            assert(s.drop_last()[x] == s[x]);
            assert(s.drop_last()[y] == s[y]);
        }
        lemma_filter_unique(s.drop_last(), pred);
        lemma_filter_sub(s.drop_last(), pred);
        let out = s.filter(pred);
        let sub = s.drop_last().filter(pred);
        assert forall|x: int, y: int| 0 <= x < y < out.len() implies out[x].addr != out[y].addr by {
            if y < sub.len() {
                assert(out[x] == sub[x]);
                assert(out[y] == sub[y]);
            } else if y == sub.len() && pred(s.last()) {
                assert(out[x] == sub[x]);
                assert(s.drop_last().contains(sub[x]));
                let j = choose|j: int| 0 <= j < s.drop_last().len() && s.drop_last()[j] == sub[x];
                assert(s[j] == sub[x]);
                assert(s[j].addr != s[s.len() - 1].addr);
            }
        }
    }
}

/// Law: the expiry sweep never removes a static peer. Every static record
/// present before the sweep is still present in the swept directory,
/// whatever its `last_seen`.
pub proof fn lemma_expiry_keeps_static(pre: Seq<DtnPeerView>, now: u64, i: int)
    requires
        0 <= i < pre.len(),
        pre[i].con_type is Static,
    ensures
        pre.filter(|p: DtnPeerView| p.still_valid(now)).contains(pre[i]),
{
    pre.lemma_filter_contains(|p: DtnPeerView| p.still_valid(now), i);
}

/// How many entries the directory holds for an address.
pub open spec fn count_addr(s: Seq<DtnPeerView>, a: PeerAddressView) -> nat {
    s.filter(|p: DtnPeerView| p.addr == a).len()
}

proof fn lemma_find_exists(s: Seq<DtnPeerView>, a: PeerAddressView)
    requires
        spec_find(s, a) is Some,
    ensures
        exists|i: int| 0 <= i < s.len() && (#[trigger] s[i]).addr == a,
    decreases s.len(),
{
    if s[0].addr == a {
        assert((s[0]).addr == a);
    } else {
        lemma_find_exists(s.drop_first(), a);
        let j = choose|j: int| 0 <= j < s.drop_first().len() && (#[trigger] s.drop_first()[j]).addr
            == a;
        assert((s[j + 1]).addr == a);
    }
}

proof fn lemma_count_unique(s: Seq<DtnPeerView>, a: PeerAddressView)
    requires
        addr_unique(s),
    ensures
        count_addr(s, a) == (if exists|i: int| 0 <= i < s.len() && (#[trigger] s[i]).addr == a {
            1nat
        } else {
            0nat
        }),
    decreases s.len(),
{
    reveal(Seq::filter);
    let pred = |p: DtnPeerView| p.addr == a;
    if s.len() > 0 {
        let butlast = s.drop_last();
        assert forall|x: int, y: int| 0 <= x < y < butlast.len() implies butlast[x].addr
            != butlast[y].addr by {
            assert(butlast[x] == s[x]);
            assert(butlast[y] == s[y]);
        }
        lemma_count_unique(butlast, a);
        if pred(s.last()) {
            assert((s[s.len() - 1]).addr == a);
            assert(!(exists|i: int| 0 <= i < butlast.len() && (#[trigger] butlast[i]).addr == a))
                by {
                if exists|i: int| 0 <= i < butlast.len() && (#[trigger] butlast[i]).addr == a {
                    let i = choose|i: int| 0 <= i < butlast.len() && (#[trigger] butlast[i]).addr
                        == a;
                    assert(s[i].addr == s[s.len() - 1].addr);
                    assert(false);
                }
            }
        } else {
            assert forall|i: int| 0 <= i < s.len() && (#[trigger] s[i]).addr == a implies i < s.len()
                - 1 && (butlast[i]).addr == a by {
                assert(s[i] != s.last() || !pred(s.last()));
            }
        }
    }
}

/// Law: upserting records for the same address twice (as the discovery
/// receiver does for two announcements from one source) leaves one record
/// at that address carrying the second upsert's timestamp, and leaves
/// records at every other address exactly as they were at the start.
pub proof fn lemma_upsert_twice(
    d0: Seq<DtnPeerView>,
    d1: Seq<DtnPeerView>,
    d2: Seq<DtnPeerView>,
    p1: DtnPeerView,
    p2: DtnPeerView,
)
    requires
        addr_unique(d2),
        upsert_post(d0, d1, p1),
        upsert_post(d1, d2, p2),
        p1.addr == p2.addr,
    ensures
        spec_find(d2, p2.addr) is Some,
        spec_find(d2, p2.addr)->Some_0.last_seen == p2.last_seen,
        count_addr(d2, p2.addr) == 1,
        forall|a: PeerAddressView| a != p2.addr ==> #[trigger] spec_find(d2, a) == spec_find(d0, a),
{
    lemma_find_exists(d2, p2.addr);
    lemma_count_unique(d2, p2.addr);
}

proof fn lemma_find_update_all(s: Seq<DtnPeerView>, i: int, p: DtnPeerView)
    requires
        addr_unique(s),
        0 <= i < s.len(),
        p.addr == s[i].addr,
    ensures
        addr_unique(s.update(i, p)),
        spec_find(s.update(i, p), p.addr) == Some(p),
        forall|a: PeerAddressView| a != p.addr ==> #[trigger] spec_find(s.update(i, p), a) == spec_find(s, a),
{
    lemma_find_update_at(s, i, p, p.addr);
    assert forall|a: PeerAddressView| a != p.addr implies #[trigger] spec_find(s.update(i, p), a) == spec_find(s, a) by {
        lemma_find_update_at(s, i, p, a);
    }
    assert forall|x: int, y: int| 0 <= x < y < s.update(i, p).len() implies s.update(i, p)[x].addr != s.update(i, p)[y].addr by {
        assert(s.update(i, p)[x] == (if x == i { p } else { s[x] }));
        assert(s.update(i, p)[y] == (if y == i { p } else { s[y] }));
    }
}

} // verus!
