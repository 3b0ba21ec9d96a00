use vstd::prelude::*;
use std::collections::HashMap;
use crate::eid::{eid_ok, check_eid};
use crate::peer::{DtnPeer, DtnPeerView, PeerAddress, PeerAddressView, PeerType};
use crate::registry::known_cla;
use vstd::string::{StrSliceExecFns, StringExecFns};

verus! {

/// Why a static peer specification string was rejected.
#[derive(Clone, Copy, Debug, PartialEq, Eq, Structural)]
pub enum PeerUrlError {
    /// The string is not a URL with a host, or the node id does not form a
    /// well-formed endpoint identifier.
    MalformedPeerSpec,
    /// The URL scheme names no convergence layer of this node.
    UnknownConvergenceLayer,
    /// The URL path holds no node id.
    MissingNodeId,
}

/// The components URL parsing extracts from a peer specification string —
/// scheme, optional host text, optional port, path — or nothing when the
/// string is not a well-formed URL.
pub uninterp spec fn url_parts_of(s: Seq<char>) -> Option<(Seq<char>, Option<Seq<char>>, Option<u16>, Seq<char>)>;

/// Relies on the url crate's `Url::parse` and its accessors `scheme`,
/// `host_str`, `port` and `path`: what they return depends on the input
/// string alone.
#[verifier::external_body]
fn split_url(s: &str) -> (r: Option<(String, Option<String>, Option<u16>, String)>)
    ensures
        r is Some <==> url_parts_of(s@) is Some,
        r matches Some((scheme, host, port, path)) ==> url_parts_of(s@) == Some(
            (scheme@, match host {
                Some(h) => Some(h@),
                None => None,
            }, port, path@),
        ),
{
    match url::Url::parse(s) {
        Ok(u) => Some((
            u.scheme().to_string(),
            u.host_str().map(|h| h.to_string()),
            u.port(),
            u.path().to_string(),
        )),
        Err(_) => None,
    }
}

/// The sequence with its leading slashes removed.
pub open spec fn strip_leading(s: Seq<char>) -> Seq<char>
    decreases s.len(),
{
    if s.len() > 0 && s[0] == '/' {
        strip_leading(s.drop_first())
    } else {
        s
    }
}

/// The sequence with its trailing slashes removed.
pub open spec fn strip_trailing(s: Seq<char>) -> Seq<char>
    decreases s.len(),
{
    if s.len() > 0 && s.last() == '/' {
        strip_trailing(s.drop_last())
    } else {
        s
    }
}

/// The node id inside a URL path: the path with leading and trailing
/// slashes removed.
pub open spec fn strip_slashes(s: Seq<char>) -> Seq<char> {
    strip_trailing(strip_leading(s))
}

#[verifier::loop_isolation(false)]
fn strip_slashes_str(s: &str) -> (r: &str)
    ensures
        r@ == strip_slashes(s@),
{
    let n = s.unicode_len();
    let mut lo: usize = 0;
    proof {
        assert(s@.skip(0) =~= s@);
    }
    while lo < n && s.get_char(lo) == '/'
        invariant
            lo <= n,
            strip_leading(s@) == strip_leading(s@.skip(lo as int)),
        decreases n - lo,
    {
        proof {
            assert(s@.skip(lo as int)[0] == s@[lo as int]);
            assert(s@.skip(lo as int).drop_first() =~= s@.skip(lo + 1));
        }
        lo = lo + 1;
    }
    proof {
        if lo == n {
            assert(s@.skip(lo as int) =~= Seq::<char>::empty());
        } else {
            assert(s@.skip(lo as int)[0] == s@[lo as int]);
        }
        assert(strip_leading(s@) == s@.skip(lo as int));
    }
    let mut hi: usize = n;
    while hi > lo && s.get_char(hi - 1) == '/'
        invariant
            lo <= hi <= n,
            strip_trailing(s@.skip(lo as int)) == strip_trailing(s@.subrange(lo as int, hi as int)),
        decreases hi,
    {
        proof {
            assert(s@.subrange(lo as int, hi as int).last() == s@[hi - 1]);
            assert(s@.subrange(lo as int, hi as int).drop_last() =~= s@.subrange(
                lo as int,
                hi - 1,
            ));
        }
        hi = hi - 1;
    }
    proof {
        assert(s@.skip(lo as int) =~= s@.subrange(lo as int, n as int));
        if hi == lo {
            assert(s@.subrange(lo as int, hi as int) =~= Seq::<char>::empty());
        } else {
            assert(s@.subrange(lo as int, hi as int).last() == s@[hi - 1]);
        }
        assert(strip_trailing(s@.subrange(lo as int, hi as int)) == s@.subrange(
            lo as int,
            hi as int,
        ));
    }
    s.substring_char(lo, hi)
}

/// A decimal digit.
pub open spec fn is_digit(c: char) -> bool {
    48 <= c as u32 <= 57
}

/// The numeric value of a decimal digit.
pub open spec fn digit_val(c: char) -> int {
    c as u32 - 48
}

/// One octet of a dotted-quad IPv4 literal, as the standard library's
/// address parser accepts it: one to three digits, no leading zero, value
/// at most 255.
pub open spec fn is_dec_octet(s: Seq<char>) -> bool {
    if s.len() == 1 {
        is_digit(s[0])
    } else if s.len() == 2 {
        is_digit(s[0]) && is_digit(s[1]) && digit_val(s[0]) >= 1
    } else if s.len() == 3 {
        is_digit(s[0]) && is_digit(s[1]) && is_digit(s[2]) && digit_val(s[0]) >= 1 && digit_val(
            s[0],
        ) * 100 + digit_val(s[1]) * 10 + digit_val(s[2]) <= 255
    } else {
        false
    }
}

/// A host string that is a literal IPv4 address: four octets joined by
/// dots.
pub open spec fn is_ipv4_literal(s: Seq<char>) -> bool {
    exists|i: int, j: int, k: int|
        #![trigger s[i], s[j], s[k]]
        {
            &&& 0 < i < j < k < s.len()
            &&& s[i] == '.'
            &&& s[j] == '.'
            &&& s[k] == '.'
            &&& is_dec_octet(s.subrange(0, i))
            &&& is_dec_octet(s.subrange(i + 1, j))
            &&& is_dec_octet(s.subrange(j + 1, k))
            &&& is_dec_octet(s.subrange(k + 1, s.len() as int))
        }
}

fn check_octet(s: &str) -> (r: bool)
    ensures
        r == is_dec_octet(s@),
{
    let n = s.unicode_len();
    if n == 1 {
        let c0 = s.get_char(0);
        48 <= c0 as u32 && c0 as u32 <= 57
    } else if n == 2 {
        let c0 = s.get_char(0);
        let c1 = s.get_char(1);
        49 <= c0 as u32 && c0 as u32 <= 57 && 48 <= c1 as u32 && c1 as u32 <= 57
    } else if n == 3 {
        let c0 = s.get_char(0);
        let c1 = s.get_char(1);
        let c2 = s.get_char(2);
        if 49 <= c0 as u32 && c0 as u32 <= 57 && 48 <= c1 as u32 && c1 as u32 <= 57 && 48
            <= c2 as u32 && c2 as u32 <= 57 {
            (c0 as u32 - 48) * 100 + (c1 as u32 - 48) * 10 + (c2 as u32 - 48) <= 255
        } else {
            false
        }
    } else {
        false
    }
}

proof fn lemma_octet_digits(s: Seq<char>, p: int)
    requires
        is_dec_octet(s),
        0 <= p < s.len(),
    ensures
        s[p] != '.',
{
    assert(is_digit(s[p]));
    assert('.' as u32 == 46);
}

#[verifier::loop_isolation(false)]
fn is_ipv4_host(s: &str) -> (r: bool)
    ensures
        r == is_ipv4_literal(s@),
{
    let n = s.unicode_len();
    let mut dots: Vec<usize> = Vec::new();
    let mut i: usize = 0;
    while i < n
        invariant
            i <= n,
            forall|a: int| 0 <= a < dots@.len() ==> #[trigger] dots@[a] < i && s@[dots@[a] as int]
                == '.',
            forall|a: int, b: int| 0 <= a < b < dots@.len() ==> dots@[a] < dots@[b],
            forall|p: int|
                0 <= p < i && s@[p] == '.' ==> exists|a: int|
                    0 <= a < dots@.len() && #[trigger] dots@[a] == p,
        decreases n - i,
    {
        let ghost prev = dots@;
        let c = s.get_char(i);
        if c == '.' {
            dots.push(i);
        }
        proof {
            assert forall|p: int| 0 <= p < i + 1 && s@[p] == '.' implies exists|a: int|
                0 <= a < dots@.len() && #[trigger] dots@[a] == p by {
                if p == i {
                    assert(dots@[dots@.len() - 1] == p);
                } else {
                    let a = choose|a: int| 0 <= a < prev.len() && #[trigger] prev[a] == p;
                    assert(dots@[a] == p);
                }
            }
        }
        i = i + 1;
    }
    if dots.len() != 3 {
        proof {
            assert(!is_ipv4_literal(s@)) by {
                if is_ipv4_literal(s@) {
                    let (wi, wj, wk) = choose|wi: int, wj: int, wk: int|
                        #![trigger s@[wi], s@[wj], s@[wk]]
                        {
                            &&& 0 < wi < wj < wk < s@.len()
                            &&& s@[wi] == '.'
                            &&& s@[wj] == '.'
                            &&& s@[wk] == '.'
                            &&& is_dec_octet(s@.subrange(0, wi))
                            &&& is_dec_octet(s@.subrange(wi + 1, wj))
                            &&& is_dec_octet(s@.subrange(wj + 1, wk))
                            &&& is_dec_octet(s@.subrange(wk + 1, s@.len() as int))
                        };
                    assert forall|a: int| 0 <= a < dots@.len() implies dots@[a] == wi || dots@[a]
                        == wj || dots@[a] == wk by {
                        let p = dots@[a] as int;
                        if p < wi {
                            assert(s@.subrange(0, wi)[p] == s@[p]);
                            lemma_octet_digits(s@.subrange(0, wi), p);
                        } else if wi < p < wj {
                            assert(s@.subrange(wi + 1, wj)[p - wi - 1] == s@[p]);
                            lemma_octet_digits(s@.subrange(wi + 1, wj), p - wi - 1);
                        } else if wj < p < wk {
                            assert(s@.subrange(wj + 1, wk)[p - wj - 1] == s@[p]);
                            lemma_octet_digits(s@.subrange(wj + 1, wk), p - wj - 1);
                        } else if wk < p {
                            assert(s@.subrange(wk + 1, s@.len() as int)[p - wk - 1] == s@[p]);
                            lemma_octet_digits(s@.subrange(wk + 1, s@.len() as int), p - wk - 1);
                        }
                    }
                    let a1 = choose|a: int| 0 <= a < dots@.len() && #[trigger] dots@[a] == wi;
                    let a2 = choose|a: int| 0 <= a < dots@.len() && #[trigger] dots@[a] == wj;
                    let a3 = choose|a: int| 0 <= a < dots@.len() && #[trigger] dots@[a] == wk;
                    if dots@.len() < 3 {
                        assert(a1 != a2 && a2 != a3 && a1 != a3);
                        assert(false);
                    } else {
                        assert(dots@[3] == wi || dots@[3] == wj || dots@[3] == wk);
                        assert(dots@[0] < dots@[1] < dots@[2] < dots@[3]);
                        assert(false);
                    }
                }
            }
        }
        return false;
    }
    let d0 = dots[0];
    let d1 = dots[1];
    let d2 = dots[2];
    if !(0 < d0 && d1 > d0 + 1 && d2 > d1 + 1 && n > d2 + 1) {
        proof {
            assert(!is_ipv4_literal(s@)) by {
                if is_ipv4_literal(s@) {
                    lemma_three_dots(s@, dots@);
                }
            }
        }
        return false;
    }
    let o0 = check_octet(s.substring_char(0, d0));
    let o1 = check_octet(s.substring_char(d0 + 1, d1));
    let o2 = check_octet(s.substring_char(d1 + 1, d2));
    let o3 = check_octet(s.substring_char(d2 + 1, n));
    if o0 && o1 && o2 && o3 {
        proof {
            assert(is_ipv4_literal(s@)) by {
                let wi = d0 as int;
                let wj = d1 as int;
                let wk = d2 as int;
                assert(s@[wi] == '.' && s@[wj] == '.' && s@[wk] == '.');
                assert(is_dec_octet(s@.subrange(0, wi)));
                assert(is_dec_octet(s@.subrange(wi + 1, wj)));
                assert(is_dec_octet(s@.subrange(wj + 1, wk)));
                assert(is_dec_octet(s@.subrange(wk + 1, s@.len() as int)));
            }
        }
        true
    } else {
        proof {
            assert(!is_ipv4_literal(s@)) by {
                if is_ipv4_literal(s@) {
                    lemma_three_dots(s@, dots@);
                }
            }
        }
        false
    }
}

/// The record a static peer specification with these URL parts yields, per
/// failure cause and in validation order: the scheme must name a known
/// convergence layer, the URL must carry a host, the path must hold a node
/// id once slashes are stripped, and the endpoint identifier formed from
/// the node id must be well formed.
pub open spec fn spec_peer_from_parts(
    scheme: Seq<char>,
    host: Option<Seq<char>>,
    port: Option<u16>,
    path: Seq<char>,
) -> Result<DtnPeerView, PeerUrlError> {
    if !known_cla(scheme) {
        Err(PeerUrlError::UnknownConvergenceLayer)
    } else if host is None {
        Err(PeerUrlError::MalformedPeerSpec)
    } else if strip_slashes(path).len() == 0 {
        Err(PeerUrlError::MissingNodeId)
    } else if !eid_ok("dtn://"@ + strip_slashes(path)) {
        Err(PeerUrlError::MalformedPeerSpec)
    } else {
        Ok(
            DtnPeerView {
                eid: Some("dtn://"@ + strip_slashes(path)),
                addr: if is_ipv4_literal(host->Some_0) {
                    PeerAddressView::Ip(host->Some_0)
                } else {
                    PeerAddressView::Generic(host->Some_0)
                },
                con_type: PeerType::Static,
                cla_list: seq![(scheme, port)],
                services: Map::empty(),
                last_seen: 0u64,
            },
        )
    }
}

/// What parsing a static peer specification string yields.
pub open spec fn spec_parse_peer_url(s: Seq<char>) -> Result<DtnPeerView, PeerUrlError> {
    match url_parts_of(s) {
        None => Err(PeerUrlError::MalformedPeerSpec),
        Some((scheme, host, port, path)) => spec_peer_from_parts(scheme, host, port, path),
    }
}

/// Build a static peer record from already-split URL parts.
pub fn peer_from_url_parts(
    scheme: String,
    host: Option<String>,
    port: Option<u16>,
    path: String,
) -> (r: Result<DtnPeer, PeerUrlError>)
    ensures
        (match (r, spec_peer_from_parts(scheme@, match host {
            Some(h) => Some(h@),
            None => None,
        }, port, path@)) {
            (Ok(p), Ok(v)) => p@ == v,
            (Err(e), Err(f)) => e == f,
            _ => false,
        }),
{
    let known = scheme.eq(&String::from_str("dummy")) || scheme.eq(&String::from_str("mtcp"));
    if !known {
        return Err(PeerUrlError::UnknownConvergenceLayer);
    }
    let hostname = match host {
        None => {
            return Err(PeerUrlError::MalformedPeerSpec);
        },
        Some(h) => h,
    };
    let node = strip_slashes_str(path.as_str());
    if node.unicode_len() == 0 {
        return Err(PeerUrlError::MissingNodeId);
    }
    let eid = String::from_str("dtn://").concat(node);
    if !check_eid(eid.as_str()) {
        return Err(PeerUrlError::MalformedPeerSpec);
    }
    let addr = if is_ipv4_host(hostname.as_str()) {
        PeerAddress::Ip(hostname)
    } else {
        PeerAddress::Generic(hostname)
    };
    let mut cla_list: Vec<(String, Option<u16>)> = Vec::new();
    cla_list.push((scheme, port));
    let peer = DtnPeer {
        eid: Some(eid),
        addr,
        con_type: PeerType::Static,
        cla_list,
        services: HashMap::new(),
        last_seen: 0,
    };
    proof {
        assert(peer@.cla_list =~= seq![(scheme@, port)]);
        assert(peer@.services =~= Map::<u8, Seq<char>>::empty());
    }
    Ok(peer)
}

/// Parse a static peer specification of the form
/// `scheme://host[:port]/node-id` into a static peer record, or report
/// which of the three validations rejected it.
pub fn parse_peer_url(peer_url: &str) -> (r: Result<DtnPeer, PeerUrlError>)
    ensures
        (match (r, spec_parse_peer_url(peer_url@)) {
            (Ok(p), Ok(v)) => p@ == v,
            (Err(e), Err(f)) => e == f,
            _ => false,
        }),
{
    match split_url(peer_url) {
        None => Err(PeerUrlError::MalformedPeerSpec),
        Some((scheme, host, port, path)) => peer_from_url_parts(scheme, host, port, path),
    }
}

/// With exactly three dot positions recorded, any witness decomposition of
/// an IPv4 literal uses exactly those three positions, so its octet checks
/// are the ones the recognizer ran.
proof fn lemma_three_dots(s: Seq<char>, dots: Seq<usize>)
    requires
        dots.len() == 3,
        forall|a: int| 0 <= a < dots.len() ==> #[trigger] dots[a] < s.len() && s[dots[a] as int]
            == '.',
        forall|a: int, b: int| 0 <= a < b < dots.len() ==> dots[a] < dots[b],
        forall|p: int|
            0 <= p < s.len() && s[p] == '.' ==> exists|a: int|
                0 <= a < dots.len() && #[trigger] dots[a] == p,
        is_ipv4_literal(s),
    ensures
        dots[0] < s.len() && 0 < dots[0],
        dots[1] > dots[0] + 1,
        dots[2] > dots[1] + 1,
        s.len() > dots[2] + 1,
        is_dec_octet(s.subrange(0, dots[0] as int)),
        is_dec_octet(s.subrange(dots[0] + 1, dots[1] as int)),
        is_dec_octet(s.subrange(dots[1] + 1, dots[2] as int)),
        is_dec_octet(s.subrange(dots[2] + 1, s.len() as int)),
{
    let (wi, wj, wk) = choose|wi: int, wj: int, wk: int|
        #![trigger s[wi], s[wj], s[wk]]
        {
            &&& 0 < wi < wj < wk < s.len()
            &&& s[wi] == '.'
            &&& s[wj] == '.'
            &&& s[wk] == '.'
            &&& is_dec_octet(s.subrange(0, wi))
            &&& is_dec_octet(s.subrange(wi + 1, wj))
            &&& is_dec_octet(s.subrange(wj + 1, wk))
            &&& is_dec_octet(s.subrange(wk + 1, s.len() as int))
        };
    assert forall|a: int| 0 <= a < dots.len() implies dots[a] == wi || dots[a] == wj || dots[a]
        == wk by {
        let p = dots[a] as int;
        if p < wi {
            assert(s.subrange(0, wi)[p] == s[p]);
            lemma_octet_digits(s.subrange(0, wi), p);
        } else if wi < p < wj {
            assert(s.subrange(wi + 1, wj)[p - wi - 1] == s[p]);
            lemma_octet_digits(s.subrange(wi + 1, wj), p - wi - 1);
        } else if wj < p < wk {
            assert(s.subrange(wj + 1, wk)[p - wj - 1] == s[p]);
            lemma_octet_digits(s.subrange(wj + 1, wk), p - wj - 1);
        } else if wk < p {
            assert(s.subrange(wk + 1, s.len() as int)[p - wk - 1] == s[p]);
            lemma_octet_digits(s.subrange(wk + 1, s.len() as int), p - wk - 1);
        }
    }
    let b1 = choose|a: int| 0 <= a < dots.len() && #[trigger] dots[a] == wi;
    let b2 = choose|a: int| 0 <= a < dots.len() && #[trigger] dots[a] == wj;
    let b3 = choose|a: int| 0 <= a < dots.len() && #[trigger] dots[a] == wk;
    assert(b1 != b2 && b2 != b3 && b1 != b3);
    assert(dots[0] == wi && dots[1] == wj && dots[2] == wk);
}

} // verus!
