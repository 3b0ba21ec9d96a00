use vstd::prelude::*;
use vstd::multiset::Multiset;
use vstd::seq_lib::group_to_multiset_ensures;

verus! {

broadcast use group_to_multiset_ensures;

/// The metadata of one stored bundle the dispatcher works from: its bundle
/// identifier and its creation timestamp.
#[derive(Debug, Clone, PartialEq, Eq)]
pub struct BundlePack {
    pub bid: String,
    pub creation_time: u64,
}

/// Oldest first: the order one forwarding sweep processes bundles in.
pub open spec fn sorted_by_creation(s: Seq<BundlePack>) -> bool {
    forall|i: int, j: int| 0 <= i <= j < s.len() ==> s[i].creation_time <= s[j].creation_time
}

proof fn lemma_insert_multiset(s: Seq<BundlePack>, j: int, x: BundlePack)
    requires
        0 <= j <= s.len(),
    ensures
        s.insert(j, x).to_multiset() == s.to_multiset().insert(x),
{
    let t = s.insert(j, x);
    assert(t.remove(j) =~= s);
    assert(t[j] == x);
    assert(t.remove(j).to_multiset() =~= t.to_multiset().remove(t[j]));
    assert(t.contains(x));
    assert(t.to_multiset().count(x) > 0);
    assert(t.to_multiset() =~= s.to_multiset().insert(x));
}

/// Sort bundle metadata by creation timestamp ascending; the result holds
/// exactly the given bundles.
pub fn sort_by_creation_time(v: Vec<BundlePack>) -> (r: Vec<BundlePack>)
    ensures
        sorted_by_creation(r@),
        r@.to_multiset() == v@.to_multiset(),
        r@.len() == v@.len(),
{
    let mut input = v;
    let mut out: Vec<BundlePack> = Vec::new();
    proof {
        assert(out@.to_multiset().add(input@.to_multiset()) =~= v@.to_multiset());
        assert(out@.len() + input@.len() == v@.len());
    }
    while input.len() > 0
        invariant
            sorted_by_creation(out@),
            out@.to_multiset().add(input@.to_multiset()) == v@.to_multiset(),
            out@.len() + input@.len() == v@.len(),
        decreases input@.len(),
    {
        let ghost in_pre = input@;
        let ghost out_pre = out@;
        let x = input.remove(0);
        proof {
            assert(in_pre.remove(0).to_multiset() =~= in_pre.to_multiset().remove(in_pre[0]));
            assert(in_pre.to_multiset().count(x) > 0) by {
                assert(in_pre.contains(x));
            }
        }
        let mut j: usize = 0;
        while j < out.len() && out[j].creation_time <= x.creation_time
            invariant
                j <= out@.len(),
                out@ == out_pre,
                forall|t: int| 0 <= t < j ==> out@[t].creation_time <= x.creation_time,
            decreases out@.len() - j,
        {
            j = j + 1;
        }
        proof {
            lemma_insert_multiset(out@, j as int, x);
            assert(out@.insert(j as int, x).to_multiset().add(input@.to_multiset())
                =~= v@.to_multiset());
        }
        out.insert(j, x);
    }
    proof {
        assert(input@.to_multiset() =~= Multiset::<BundlePack>::empty());
        assert(out@.to_multiset() =~= v@.to_multiset());
    }
    out
}

/// The forward operation the dispatcher drives: owned by the processing
/// collaborator, which consults the routing agent and a convergence layer
/// and reports failure per bundle. Implementations live with the caller.
pub trait ForwardSink {
    /// Attempt to forward one bundle; an error describes why the attempt
    /// failed and leaves the bundle eligible for the next sweep.
    fn forward(&mut self, bundle: &BundlePack) -> Result<(), String>;
}

/// One forwarding sweep: sort the bundles flagged "forwarding" by creation
/// timestamp ascending and attempt to forward each in that order. Every
/// bundle of the batch is attempted exactly once, whatever earlier attempts
/// returned; each result records the attempted bundle and whether its
/// forward succeeded, in attempt order.
pub fn process_bundles<S: ForwardSink>(bundles: Vec<BundlePack>, sink: &mut S) -> (r: Vec<(
    BundlePack,
    bool,
)>)
    ensures
        r@.len() == bundles@.len(),
        sorted_by_creation(r@.map_values(|t: (BundlePack, bool)| t.0)),
        r@.map_values(|t: (BundlePack, bool)| t.0).to_multiset() == bundles@.to_multiset(),
{
    let ghost total = bundles@.to_multiset();
    let mut queue = sort_by_creation_time(bundles);
    let ghost sorted = queue@;
    let mut attempts: Vec<(BundlePack, bool)> = Vec::new();
    let ghost mut k: int = 0;
    proof {
        assert(queue@ =~= sorted.skip(0));
        assert(attempts@.map_values(|t: (BundlePack, bool)| t.0) =~= sorted.take(0));
    }
    while queue.len() > 0
        invariant
            0 <= k <= sorted.len(),
            queue@ =~= sorted.skip(k),
            attempts@.len() == k,
            attempts@.map_values(|t: (BundlePack, bool)| t.0) == sorted.take(k),
            sorted_by_creation(sorted),
            sorted.to_multiset() == total,
        decreases queue@.len(),
    {
        let b = queue.remove(0);
        proof {
            assert(b == sorted[k]);
            assert(queue@ =~= sorted.skip(k + 1));
        }
        let outcome = sink.forward(&b);
        let ok = outcome.is_ok();
        attempts.push((b, ok));
        proof {
            assert(attempts@.map_values(|t: (BundlePack, bool)| t.0) =~= sorted.take(k + 1));
            k = k + 1;
        }
    }
    proof {
        assert(sorted.take(k) =~= sorted);
    }
    attempts
}

} // verus!
