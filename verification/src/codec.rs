use vstd::prelude::*;
use vstd::string::StrSliceExecFns;
use vstd::utf8::{decode_utf8, valid_utf8};
use vstd::utf8::encode_utf8;

verus! {

/// One discovery broadcast: the sender's endpoint identifier, if it chooses
/// to disclose one, and the scheme names of its active convergence layers.
///
/// On the wire the packet is a binary map with two text keys, carrying a
/// null-or-text value and an array of text values; a compliant decoder
/// skips map entries under keys it does not know.
pub struct AnnouncementPkt {
    pub eid: Option<String>,
    pub cl: Vec<String>,
}

/// Mathematical value of an `AnnouncementPkt`.
pub struct AnnouncementPktView {
    pub eid: Option<Seq<char>>,
    pub cl: Seq<Seq<char>>,
}

impl View for AnnouncementPkt {
    type V = AnnouncementPktView;

    open spec fn view(&self) -> AnnouncementPktView {
        AnnouncementPktView {
            eid: match self.eid {
                Some(e) => Some(e@),
                None => None,
            },
            cl: self.cl@.map_values(|s: String| s@),
        }
    }
}

/// Initial byte plus minimal-length argument encoding for one wire item:
/// three bits of major type, then the argument (a length or small value).
pub open spec fn len_header(major: u8, n: nat) -> Seq<u8>
    recommends
        major < 8,
{
    if n < 24 {
        seq![(major * 32 + n) as u8]
    } else if n < 256 {
        seq![(major * 32 + 24) as u8, n as u8]
    } else if n < 65536 {
        seq![(major * 32 + 25) as u8, (n / 256) as u8, (n % 256) as u8]
    } else if n < 4294967296 {
        seq![
            (major * 32 + 26) as u8,
            (n / 16777216) as u8,
            ((n / 65536) % 256) as u8,
            ((n / 256) % 256) as u8,
            (n % 256) as u8,
        ]
    } else {
        seq![
            (major * 32 + 27) as u8,
            (n / 0x100000000000000) as u8,
            ((n / 0x1000000000000) % 256) as u8,
            ((n / 0x10000000000) % 256) as u8,
            ((n / 0x100000000) % 256) as u8,
            ((n / 16777216) % 256) as u8,
            ((n / 65536) % 256) as u8,
            ((n / 256) % 256) as u8,
            (n % 256) as u8,
        ]
    }
}

/// A text item: its header, then the UTF-8 bytes of the text.
pub open spec fn text_bytes(s: Seq<char>) -> Seq<u8> {
    len_header(3, encode_utf8(s).len()) + encode_utf8(s)
}

/// The elements of an array of text items, in order.
pub open spec fn text_array_bytes(items: Seq<Seq<char>>) -> Seq<u8>
    decreases items.len(),
{
    if items.len() == 0 {
        Seq::empty()
    } else {
        text_array_bytes(items.drop_last()) + text_bytes(items.last())
    }
}

/// The full wire encoding of an announcement: a two-entry map holding the
/// optional endpoint identifier under the key "eid" and the array of
/// convergence-layer scheme names under the key "cl".
pub open spec fn announcement_bytes(p: AnnouncementPktView) -> Seq<u8> {
    seq![0xa2u8, 0x63u8, 0x65u8, 0x69u8, 0x64u8] + (match p.eid {
        None => seq![0xf6u8],
        Some(e) => text_bytes(e),
    }) + seq![0x62u8, 0x63u8, 0x6cu8] + len_header(4, p.cl.len()) + text_array_bytes(p.cl)
}

fn push_len_header(out: &mut Vec<u8>, major: u8, n: usize)
    requires
        major < 8,
    ensures
        final(out)@ == old(out)@ + len_header(major, n as nat),
{
    let m: u64 = n as u64;
    if m < 24 {
        out.push(major * 32 + (n as u8));
    } else if m < 256 {
        out.push(major * 32 + 24);
        out.push(n as u8);
    } else if m < 65536 {
        out.push(major * 32 + 25);
        out.push((m / 256) as u8);
        out.push((m % 256) as u8);
    } else if m < 4294967296 {
        out.push(major * 32 + 26);
        out.push((m / 16777216) as u8);
        out.push(((m / 65536) % 256) as u8);
        out.push(((m / 256) % 256) as u8);
        out.push((m % 256) as u8);
    } else {
        out.push(major * 32 + 27);
        out.push((m / 0x100000000000000) as u8);
        out.push(((m / 0x1000000000000) % 256) as u8);
        out.push(((m / 0x10000000000) % 256) as u8);
        out.push(((m / 0x100000000) % 256) as u8);
        out.push(((m / 16777216) % 256) as u8);
        out.push(((m / 65536) % 256) as u8);
        out.push(((m / 256) % 256) as u8);
        out.push((m % 256) as u8);
    }
    proof {
        assert(out@ =~= old(out)@ + len_header(major, n as nat));
    }
}

fn push_text(out: &mut Vec<u8>, s: &String)
    ensures
        final(out)@ == old(out)@ + text_bytes(s@),
{
    let mut b = s.as_str().as_bytes_vec();
    push_len_header(out, 3, b.len());
    out.append(&mut b);
    proof {
        assert(out@ =~= old(out)@ + text_bytes(s@));
    }
}

impl AnnouncementPkt {
    /// Encode this announcement for broadcast.
    pub fn encode(&self) -> (r: Vec<u8>)
        ensures
            r@ == announcement_bytes(self@),
    {
        let mut out: Vec<u8> = Vec::new();
        out.push(0xa2);
        out.push(0x63);
        out.push(0x65);
        out.push(0x69);
        out.push(0x64);
        match &self.eid {
            None => {
                out.push(0xf6);
            },
            Some(e) => {
                push_text(&mut out, e);
            },
        }
        out.push(0x62);
        out.push(0x63);
        out.push(0x6c);
        push_len_header(&mut out, 4, self.cl.len());
        let ghost head = out@;
        let mut i: usize = 0;
        while i < self.cl.len()
            invariant
                i <= self.cl@.len(),
                out@ == head + text_array_bytes(self@.cl.take(i as int)),
                self@.cl == self.cl@.map_values(|s: String| s@),
            decreases self.cl@.len() - i,
        {
            push_text(&mut out, &self.cl[i]);
            proof {
                let cls = self@.cl;
                assert(cls.take(i + 1).drop_last() =~= cls.take(i as int));
                assert(cls.take(i + 1).last() == cls[i as int]);
                assert(text_array_bytes(cls.take(i + 1)) == text_array_bytes(cls.take(i as int))
                    + text_bytes(cls[i as int]));
                assert(out@ =~= head + text_array_bytes(cls.take(i + 1)));
            }
            i = i + 1;
        }
        proof {
            assert(self@.cl.take(self.cl@.len() as int) =~= self@.cl);
            assert(out@ =~= announcement_bytes(self@));
        }
        out
    }
}

/// The major type, argument value, and position after the header of the
/// wire item starting at `pos`, or nothing if the bytes do not begin with
/// a well-formed definite-length header.
pub open spec fn spec_parse_header(b: Seq<u8>, pos: int) -> Option<(u8, u64, int)> {
    if !(0 <= pos < b.len()) {
        None
    } else {
        let major: u8 = ((b[pos] as int) / 32) as u8;
        let ai: int = (b[pos] as int) % 32;
        if ai < 24 {
            Some((major, ai as u64, pos + 1))
        } else if ai == 24 {
            if pos + 2 <= b.len() {
                Some((major, b[pos + 1] as u64, pos + 2))
            } else {
                None
            }
        } else if ai == 25 {
            if pos + 3 <= b.len() {
                Some((major, (b[pos + 1] * 256 + b[pos + 2]) as u64, pos + 3))
            } else {
                None
            }
        } else if ai == 26 {
            if pos + 5 <= b.len() {
                Some((major, (b[pos + 1] * 16777216 + b[pos + 2] * 65536 + b[pos + 3] * 256
                    + b[pos + 4]) as u64, pos + 5))
            } else {
                None
            }
        } else if ai == 27 {
            if pos + 9 <= b.len() {
                Some((major, (b[pos + 1] * 0x100000000000000 + b[pos + 2] * 0x1000000000000
                    + b[pos + 3] * 0x10000000000 + b[pos + 4] * 0x100000000 + b[pos + 5] * 16777216
                    + b[pos + 6] * 65536 + b[pos + 7] * 256 + b[pos + 8]) as u64, pos + 9))
            } else {
                None
            }
        } else {
            None
        }
    }
}

fn parse_header(b: &Vec<u8>, pos: usize) -> (r: Option<(u8, u64, usize)>)
    ensures
        r is None ==> spec_parse_header(b@, pos as int) is None,
        r matches Some((major, arg, newpos)) ==> spec_parse_header(b@, pos as int) == Some(
            (major, arg, newpos as int),
        ) && pos < newpos <= b@.len(),
{
    if pos >= b.len() {
        return None;
    }
    let ib = b[pos];
    let major: u8 = ib / 32;
    let ai: u8 = ib % 32;
    if ai < 24 {
        Some((major, ai as u64, pos + 1))
    } else if ai == 24 {
        if b.len() - pos >= 2 {
            Some((major, b[pos + 1] as u64, pos + 2))
        } else {
            None
        }
    } else if ai == 25 {
        if b.len() - pos >= 3 {
            Some((major, (b[pos + 1] as u64) * 256 + (b[pos + 2] as u64), pos + 3))
        } else {
            None
        }
    } else if ai == 26 {
        if b.len() - pos >= 5 {
            Some((major, (b[pos + 1] as u64) * 16777216 + (b[pos + 2] as u64) * 65536 + (b[pos
                + 3] as u64) * 256 + (b[pos + 4] as u64), pos + 5))
        } else {
            None
        }
    } else if ai == 27 {
        if b.len() - pos >= 9 {
            Some((major, (b[pos + 1] as u64) * 0x100000000000000 + (b[pos + 2] as u64)
                * 0x1000000000000 + (b[pos + 3] as u64) * 0x10000000000 + (b[pos + 4] as u64)
                * 0x100000000 + (b[pos + 5] as u64) * 16777216 + (b[pos + 6] as u64) * 65536 + (b[
                pos + 7] as u64) * 256 + (b[pos + 8] as u64), pos + 9))
        } else {
            None
        }
    } else {
        None
    }
}

/// Position just past the single wire value starting at `pos`, whatever its
/// type; used to tolerate announcement fields this decoder does not know.
pub open spec fn spec_skip_value(b: Seq<u8>, pos: int) -> Option<int>
    decreases b.len() - pos, 0int, 0int,
{
    match spec_parse_header(b, pos) {
        None => None,
        Some((major, arg, p1)) => {
            if !(pos < p1 <= b.len()) {
                None
            } else if major == 0 || major == 1 || major == 7 {
                Some(p1)
            } else if major == 2 || major == 3 {
                if arg <= b.len() - p1 {
                    Some(p1 + arg)
                } else {
                    None
                }
            } else if major == 4 {
                spec_skip_n(b, p1, arg as nat)
            } else if major == 5 {
                spec_skip_n(b, p1, (arg as nat) * 2)
            } else {
                spec_skip_value(b, p1)
            }
        },
    }
}

/// Position just past `n` consecutive wire values starting at `pos`.
pub open spec fn spec_skip_n(b: Seq<u8>, pos: int, n: nat) -> Option<int>
    decreases b.len() - pos, 1int, n,
{
    if !(0 <= pos <= b.len()) {
        None
    } else if n == 0 {
        Some(pos)
    } else {
        match spec_skip_value(b, pos) {
            None => None,
            Some(p2) => {
                if pos < p2 <= b.len() {
                    spec_skip_n(b, p2, (n - 1) as nat)
                } else {
                    None
                }
            },
        }
    }
}

proof fn lemma_skip_n_exhaust(b: Seq<u8>, pos: int, n: nat)
    requires
        n > b.len() - pos,
    ensures
        spec_skip_n(b, pos, n) is None,
    decreases n,
{
    if 0 <= pos <= b.len() && n > 0 {
        match spec_skip_value(b, pos) {
            None => {},
            Some(p2) => {
                if pos < p2 <= b.len() {
                    lemma_skip_n_exhaust(b, p2, (n - 1) as nat);
                }
            },
        }
    }
}

fn skip_value(b: &Vec<u8>, pos: usize) -> (r: Option<usize>)
    ensures
        r is None ==> spec_skip_value(b@, pos as int) is None,
        r matches Some(p) ==> spec_skip_value(b@, pos as int) == Some(p as int) && pos < p
            <= b@.len(),
    decreases b@.len() - pos, 0int, 0int,
{
    match parse_header(b, pos) {
        None => None,
        Some((major, arg, p1)) => {
            if major == 0 || major == 1 || major == 7 {
                Some(p1)
            } else if major == 2 || major == 3 {
                if arg <= (b.len() - p1) as u64 {
                    Some(p1 + arg as usize)
                } else {
                    None
                }
            } else if major == 4 {
                if arg <= (b.len() - p1) as u64 {
                    skip_n(b, p1, arg)
                } else {
                    proof {
                        lemma_skip_n_exhaust(b@, p1 as int, arg as nat);
                    }
                    None
                }
            } else if major == 5 {
                if arg <= ((b.len() - p1) / 2) as u64 {
                    skip_n(b, p1, arg * 2)
                } else {
                    proof {
                        lemma_skip_n_exhaust(b@, p1 as int, (arg as nat) * 2);
                    }
                    None
                }
            } else {
                skip_value(b, p1)
            }
        },
    }
}

fn skip_n(b: &Vec<u8>, pos: usize, n: u64) -> (r: Option<usize>)
    requires
        pos <= b@.len(),
    ensures
        r is None ==> spec_skip_n(b@, pos as int, n as nat) is None,
        r matches Some(p) ==> spec_skip_n(b@, pos as int, n as nat) == Some(p as int) && pos <= p
            <= b@.len(),
    decreases b@.len() - pos, 1int, n,
{
    if n == 0 {
        Some(pos)
    } else {
        match skip_value(b, pos) {
            None => None,
            Some(p2) => skip_n(b, p2, n - 1),
        }
    }
}

/// The payload bytes and end position of the text item starting at `pos`.
pub open spec fn spec_parse_text(b: Seq<u8>, pos: int) -> Option<(Seq<u8>, int)> {
    match spec_parse_header(b, pos) {
        None => None,
        Some((major, arg, p1)) => {
            if major == 3 && p1 <= b.len() && arg <= b.len() - p1 {
                Some((b.subrange(p1, p1 + arg), p1 + arg))
            } else {
                None
            }
        },
    }
}

fn parse_text(b: &Vec<u8>, pos: usize) -> (r: Option<(Vec<u8>, usize)>)
    ensures
        r is None ==> spec_parse_text(b@, pos as int) is None,
        r matches Some((t, p)) ==> spec_parse_text(b@, pos as int) == Some((t@, p as int)) && pos
            < p <= b@.len(),
{
    match parse_header(b, pos) {
        None => None,
        Some((major, arg, p1)) => {
            if major == 3 && arg <= (b.len() - p1) as u64 {
                let end: usize = p1 + arg as usize;
                let mut t: Vec<u8> = Vec::new();
                let mut i: usize = p1;
                while i < end
                    invariant
                        p1 <= i <= end <= b@.len(),
                        t@ == b@.subrange(p1 as int, i as int),
                    decreases end - i,
                {
                    t.push(b[i]);
                    proof {
                        assert(b@.subrange(p1 as int, i + 1) =~= b@.subrange(p1 as int, i as int).push(
                            b@[i as int],
                        ));
                    }
                    i = i + 1;
                }
                Some((t, end))
            } else {
                None
            }
        },
    }
}

/// The payloads and end position of `n` consecutive text items.
pub open spec fn spec_parse_texts(b: Seq<u8>, pos: int, n: nat) -> Option<(Seq<Seq<u8>>, int)>
    decreases n,
{
    if n == 0 {
        Some((Seq::empty(), pos))
    } else {
        match spec_parse_text(b, pos) {
            None => None,
            Some((t, p2)) => {
                match spec_parse_texts(b, p2, (n - 1) as nat) {
                    None => None,
                    Some((ts, p3)) => Some((ts.insert(0, t), p3)),
                }
            },
        }
    }
}

/// The byte payloads of a sequence of decoded text items.
pub open spec fn texts_view(ts: Seq<Vec<u8>>) -> Seq<Seq<u8>> {
    ts.map_values(|v: Vec<u8>| v@)
}

fn parse_texts(b: &Vec<u8>, pos: usize, n: u64) -> (r: Option<(Vec<Vec<u8>>, usize)>)
    requires
        pos <= b@.len(),
    ensures
        r is None ==> spec_parse_texts(b@, pos as int, n as nat) is None,
        r matches Some((ts, p)) ==> spec_parse_texts(b@, pos as int, n as nat) == Some(
            (texts_view(ts@), p as int),
        ) && p <= b@.len(),
    decreases n,
{
    if n == 0 {
        proof {
            assert(texts_view(Seq::<Vec<u8>>::empty()) =~= Seq::<Seq<u8>>::empty());
        }
        Some((Vec::new(), pos))
    } else {
        match parse_text(b, pos) {
            None => None,
            Some((t, p2)) => {
                match parse_texts(b, p2, n - 1) {
                    None => None,
                    Some((mut ts, p3)) => {
                        let ghost oldts = ts@;
                        let ghost tv = t@;
                        ts.insert(0, t);
                        proof {
                            assert(texts_view(ts@) =~= texts_view(oldts).insert(0, tv));
                        }
                        Some((ts, p3))
                    },
                }
            },
        }
    }
}

/// What has been collected for the optional "eid" entry while walking the
/// map: not seen yet, or seen with an absent (null) or present value.
pub open spec fn eid_acc_view(o: Option<Option<Vec<u8>>>) -> Option<Option<Seq<u8>>> {
    match o {
        None => None,
        Some(None) => Some(None),
        Some(Some(v)) => Some(Some(v@)),
    }
}

/// What has been collected for the "cl" entry while walking the map.
pub open spec fn cl_acc_view(o: Option<Vec<Vec<u8>>>) -> Option<Seq<Seq<u8>>> {
    match o {
        None => None,
        Some(v) => Some(texts_view(v@)),
    }
}

/// Walks the remaining `n` map entries. Each known key may occur once, with
/// a value of its declared shape; entries under unknown keys are skipped.
/// Succeeds when, at the end, both known keys have been seen.
pub open spec fn spec_decode_fields(
    b: Seq<u8>,
    pos: int,
    n: nat,
    eid: Option<Option<Seq<u8>>>,
    cl: Option<Seq<Seq<u8>>>,
) -> Option<(Option<Seq<u8>>, Seq<Seq<u8>>, int)>
    decreases n,
{
    if n == 0 {
        match (eid, cl) {
            (Some(e), Some(c)) => Some((e, c, pos)),
            _ => None,
        }
    } else {
        match spec_parse_text(b, pos) {
            None => None,
            Some((key, p1)) => {
                if key == seq![101u8, 105u8, 100u8] {
                    if eid is Some {
                        None
                    } else if 0 <= p1 < b.len() && b[p1] == 0xf6 {
                        spec_decode_fields(b, p1 + 1, (n - 1) as nat, Some(None), cl)
                    } else {
                        match spec_parse_text(b, p1) {
                            None => None,
                            Some((v, p2)) => spec_decode_fields(
                                b,
                                p2,
                                (n - 1) as nat,
                                Some(Some(v)),
                                cl,
                            ),
                        }
                    }
                } else if key == seq![99u8, 108u8] {
                    if cl is Some {
                        None
                    } else {
                        match spec_parse_header(b, p1) {
                            None => None,
                            Some((major, arg, p2)) => {
                                if major == 4 {
                                    match spec_parse_texts(b, p2, arg as nat) {
                                        None => None,
                                        Some((ts, p3)) => spec_decode_fields(
                                            b,
                                            p3,
                                            (n - 1) as nat,
                                            eid,
                                            Some(ts),
                                        ),
                                    }
                                } else {
                                    None
                                }
                            },
                        }
                    }
                } else {
                    match spec_skip_value(b, p1) {
                        None => None,
                        Some(p2) => spec_decode_fields(b, p2, (n - 1) as nat, eid, cl),
                    }
                }
            },
        }
    }
}

fn decode_fields(
    b: &Vec<u8>,
    pos: usize,
    n: u64,
    eid: Option<Option<Vec<u8>>>,
    cl: Option<Vec<Vec<u8>>>,
) -> (r: Option<(Option<Vec<u8>>, Vec<Vec<u8>>, usize)>)
    requires
        pos <= b@.len(),
    ensures
        r is None ==> spec_decode_fields(b@, pos as int, n as nat, eid_acc_view(eid), cl_acc_view(cl))
            is None,
        r matches Some((e, c, p)) ==> spec_decode_fields(
            b@,
            pos as int,
            n as nat,
            eid_acc_view(eid),
            cl_acc_view(cl),
        ) == Some((eid_acc_view(Some(e))->Some_0, texts_view(c@), p as int)) && p <= b@.len(),
    decreases n,
{
    if n == 0 {
        match (eid, cl) {
            (Some(e), Some(c)) => Some((e, c, pos)),
            _ => None,
        }
    } else {
        match parse_text(b, pos) {
            None => None,
            Some((key, p1)) => {
                if key.len() == 3 && key[0] == 101 && key[1] == 105 && key[2] == 100 {
                    proof {
                        assert(key@ =~= seq![101u8, 105u8, 100u8]);
                    }
                    if eid.is_some() {
                        None
                    } else if p1 < b.len() && b[p1] == 0xf6 {
                        decode_fields(b, p1 + 1, n - 1, Some(None), cl)
                    } else {
                        match parse_text(b, p1) {
                            None => None,
                            Some((v, p2)) => decode_fields(b, p2, n - 1, Some(Some(v)), cl),
                        }
                    }
                } else if key.len() == 2 && key[0] == 99 && key[1] == 108 {
                    proof {
                        assert(key@ =~= seq![99u8, 108u8]);
                        assert(key@ != seq![101u8, 105u8, 100u8]);
                    }
                    if cl.is_some() {
                        None
                    } else {
                        match parse_header(b, p1) {
                            None => None,
                            Some((major, arg, p2)) => {
                                if major == 4 {
                                    match parse_texts(b, p2, arg) {
                                        None => None,
                                        Some((ts, p3)) => decode_fields(b, p3, n - 1, eid, Some(ts)),
                                    }
                                } else {
                                    None
                                }
                            },
                        }
                    }
                } else {
                    proof {
                        assert(key@ != seq![101u8, 105u8, 100u8]);
                        assert(key@ != seq![99u8, 108u8]);
                    }
                    match skip_value(b, p1) {
                        None => None,
                        Some(p2) => decode_fields(b, p2, n - 1, eid, cl),
                    }
                }
            },
        }
    }
}

/// The announcement a payload decodes to, or nothing when the payload is
/// not a well-formed announcement (then the receiver drops the datagram).
pub open spec fn spec_decode_announcement(b: Seq<u8>) -> Option<AnnouncementPktView> {
    match spec_parse_header(b, 0) {
        None => None,
        Some((major, arg, p1)) => {
            if major != 5 {
                None
            } else {
                match spec_decode_fields(b, p1, arg as nat, None, None) {
                    None => None,
                    Some((eidb, clb, end)) => {
                        if end != b.len() {
                            None
                        } else {
                            let eidv: Option<Option<Seq<char>>> = match eidb {
                                None => Some(None),
                                Some(e) => if valid_utf8(e) {
                                    Some(Some(decode_utf8(e)))
                                } else {
                                    None
                                },
                            };
                            let clv: Option<Seq<Seq<char>>> = if forall|i: int|
                                0 <= i < clb.len() ==> valid_utf8(#[trigger] clb[i]) {
                                Some(clb.map_values(|t: Seq<u8>| decode_utf8(t)))
                            } else {
                                None
                            };
                            match (eidv, clv) {
                                (Some(e), Some(c)) => Some(AnnouncementPktView { eid: e, cl: c }),
                                _ => None,
                            }
                        }
                    },
                }
            }
        },
    }
}

/// Every field of the packet fits a discovery datagram: each text, and the
/// list itself, is shorter than 65536, so each wire header is at most three
/// bytes long.
pub open spec fn announcement_sized(p: AnnouncementPktView) -> bool {
    &&& (match p.eid {
        Some(e) => encode_utf8(e).len() < 65536,
        None => true,
    })
    &&& p.cl.len() < 65536
    &&& forall|i: int| 0 <= i < p.cl.len() ==> encode_utf8(#[trigger] p.cl[i]).len() < 65536
}

proof fn lemma_skip_concat(b: Seq<u8>, pos: int, front: Seq<u8>, rest: Seq<u8>)
    requires
        0 <= pos <= b.len(),
        b.skip(pos) == front + rest,
    ensures
        0 <= pos + front.len() <= b.len(),
        b.skip(pos + front.len()) == rest,
        forall|i: int| 0 <= i < front.len() ==> b[pos + i] == front[i],
{
    assert(b.skip(pos).len() == b.len() - pos);
    assert forall|i: int| 0 <= i < front.len() implies b[pos + i] == front[i] by {
        assert(b.skip(pos)[i] == b[pos + i]);
        assert((front + rest)[i] == front[i]);
    }
    assert(b.skip(pos + front.len()) =~= rest) by {
        assert forall|i: int| 0 <= i < rest.len() implies b[pos + front.len() + i] == rest[i] by {
            assert(b.skip(pos)[front.len() + i] == b[pos + front.len() + i]);
            assert((front + rest)[front.len() + i] == rest[i]);
        }
    }
}

proof fn lemma_parse_header_at(b: Seq<u8>, pos: int, major: u8, n: nat, rest: Seq<u8>)
    requires
        major < 8,
        n < 65536,
        0 <= pos <= b.len(),
        b.skip(pos) == len_header(major, n) + rest,
    ensures
        spec_parse_header(b, pos) == Some((major, n as u64, pos + len_header(major, n).len())),
        b.skip(pos + len_header(major, n).len()) == rest,
{
    let h = len_header(major, n);
    lemma_skip_concat(b, pos, h, rest);
    if n < 24 {
        assert(b[pos + 0] == h[0]);
        assert(b[pos] as int == major * 32 + n);
        assert((b[pos] as int) / 32 == major as int && (b[pos] as int) % 32 == n as int) by (nonlinear_arith)
            requires
                b[pos] as int == (major as int) * 32 + (n as int),
                0 <= n < 24,
                0 <= major < 8,
        ;
    } else if n < 256 {
        assert(b[pos + 0] == h[0]);
        assert(b[pos + 1] == h[1]);
        assert(b[pos] as int == major * 32 + 24);
        assert((b[pos] as int) / 32 == major as int && (b[pos] as int) % 32 == 24) by (nonlinear_arith)
            requires
                b[pos] as int == (major as int) * 32 + 24,
                0 <= major < 8,
        ;
        assert(b[pos + 1] as int == n as int);
    } else {
        assert(b[pos + 0] == h[0]);
        assert(b[pos + 1] == h[1]);
        assert(b[pos + 2] == h[2]);
        assert(b[pos] as int == major * 32 + 25);
        assert((b[pos] as int) / 32 == major as int && (b[pos] as int) % 32 == 25) by (nonlinear_arith)
            requires
                b[pos] as int == (major as int) * 32 + 25,
                0 <= major < 8,
        ;
        assert(n as int / 256 < 256 && (n as int / 256) * 256 + n as int % 256 == n as int) by (nonlinear_arith)
            requires
                0 <= n < 65536,
        ;
        assert(b[pos + 1] as int == n as int / 256);
        assert(b[pos + 2] as int == n as int % 256);
    }
}

proof fn lemma_parse_text_bytes_at(b: Seq<u8>, pos: int, u: Seq<u8>, rest: Seq<u8>)
    requires
        u.len() < 65536,
        0 <= pos <= b.len(),
        b.skip(pos) == len_header(3, u.len()) + (u + rest),
    ensures
        spec_parse_text(b, pos) == Some((u, pos + len_header(3, u.len()).len() + u.len())),
        pos + len_header(3, u.len()).len() + u.len() <= b.len(),
        b.skip(pos + len_header(3, u.len()).len() + u.len()) == rest,
{
    let h = len_header(3, u.len());
    lemma_parse_header_at(b, pos, 3, u.len(), u + rest);
    let p1 = pos + h.len();
    lemma_skip_concat(b, p1, u, rest);
    assert(b.subrange(p1, p1 + u.len()) =~= u);
}

/// The byte stream of a text array starts with its first element.
proof fn lemma_text_array_first(items: Seq<Seq<char>>)
    requires
        items.len() > 0,
    ensures
        text_array_bytes(items) == text_bytes(items[0]) + text_array_bytes(items.drop_first()),
    decreases items.len(),
{
    if items.len() == 1 {
        assert(items.drop_last() =~= Seq::<Seq<char>>::empty());
        assert(items.drop_first() =~= Seq::<Seq<char>>::empty());
        assert(text_array_bytes(items) =~= text_bytes(items[0]) + text_array_bytes(
            items.drop_first(),
        ));
    } else {
        let butlast = items.drop_last();
        lemma_text_array_first(butlast);
        assert(butlast[0] == items[0]);
        assert(items.drop_first().drop_last() =~= butlast.drop_first());
        assert(items.drop_first().last() == items.last());
        assert(text_array_bytes(items.drop_first()) == text_array_bytes(butlast.drop_first())
            + text_bytes(items.last()));
        assert(text_array_bytes(items) =~= text_bytes(items[0]) + text_array_bytes(
            items.drop_first(),
        ));
    }
}

proof fn lemma_parse_texts_at(b: Seq<u8>, pos: int, items: Seq<Seq<char>>, rest: Seq<u8>)
    requires
        forall|i: int| 0 <= i < items.len() ==> encode_utf8(#[trigger] items[i]).len() < 65536,
        0 <= pos <= b.len(),
        b.skip(pos) == text_array_bytes(items) + rest,
    ensures
        spec_parse_texts(b, pos, items.len()) == Some(
            (items.map_values(|s: Seq<char>| encode_utf8(s)), pos + text_array_bytes(items).len()),
        ),
        pos + text_array_bytes(items).len() <= b.len(),
        b.skip(pos + text_array_bytes(items).len()) == rest,
    decreases items.len(),
{
    assert(b.skip(pos).len() == b.len() - pos);
    if items.len() == 0 {
        assert(text_array_bytes(items) =~= Seq::<u8>::empty());
        assert(items.map_values(|s: Seq<char>| encode_utf8(s)) =~= Seq::<Seq<u8>>::empty());
        assert(b.skip(pos) =~= rest);
    } else {
        lemma_text_array_first(items);
        let tail = items.drop_first();
        let u = encode_utf8(items[0]);
        assert(b.skip(pos) =~= len_header(3, u.len()) + (u + (text_array_bytes(tail) + rest)));
        lemma_parse_text_bytes_at(b, pos, u, text_array_bytes(tail) + rest);
        let p2 = pos + text_bytes(items[0]).len();
        assert(b.skip(p2) == text_array_bytes(tail) + rest);
        assert forall|i: int| 0 <= i < tail.len() implies encode_utf8(#[trigger] tail[i]).len()
            < 65536 by {
            assert(tail[i] == items[i + 1]);
        }
        lemma_parse_texts_at(b, p2, tail, rest);
        assert(items.map_values(|s: Seq<char>| encode_utf8(s)) =~= tail.map_values(
            |s: Seq<char>| encode_utf8(s),
        ).insert(0, u));
    }
}

/// The bytes a canonical encoding stores under the "eid" key.
pub open spec fn eid_field_bytes(p: AnnouncementPktView) -> Option<Seq<u8>> {
    match p.eid {
        None => None,
        Some(e) => Some(encode_utf8(e)),
    }
}

/// The bytes a canonical encoding stores under the "cl" key.
pub open spec fn cl_field_bytes(p: AnnouncementPktView) -> Seq<Seq<u8>> {
    p.cl.map_values(|s: Seq<char>| encode_utf8(s))
}

proof fn lemma_decode_cl_entry(b: Seq<u8>, pos: int, p: AnnouncementPktView, eacc: Option<Option<Seq<u8>>>)
    requires
        announcement_sized(p),
        eacc is Some,
        0 <= pos <= b.len(),
        b.skip(pos) == seq![0x62u8, 0x63u8, 0x6cu8] + (len_header(4, p.cl.len())
            + text_array_bytes(p.cl)),
        pos + 3 + len_header(4, p.cl.len()).len() + text_array_bytes(p.cl).len() == b.len(),
    ensures
        spec_decode_fields(b, pos, 1, eacc, None) == Some(
            (eacc->Some_0, cl_field_bytes(p), b.len() as int),
        ),
{
    let key = seq![0x63u8, 0x6cu8];
    assert(seq![0x62u8, 0x63u8, 0x6cu8] =~= len_header(3, 2) + (key + Seq::<u8>::empty()));
    assert(b.skip(pos) =~= len_header(3, 2) + (key + (len_header(4, p.cl.len())
        + text_array_bytes(p.cl))));
    lemma_parse_text_bytes_at(b, pos, key, len_header(4, p.cl.len()) + text_array_bytes(p.cl));
    assert(key != seq![101u8, 105u8, 100u8]);
    assert(key == seq![99u8, 108u8]);
    let pa = pos + 3;
    lemma_parse_header_at(b, pa, 4, p.cl.len(), text_array_bytes(p.cl));
    let pt = pa + len_header(4, p.cl.len()).len();
    assert(b.skip(pt) =~= text_array_bytes(p.cl) + Seq::<u8>::empty());
    lemma_parse_texts_at(b, pt, p.cl, Seq::<u8>::empty());
    let end = pt + text_array_bytes(p.cl).len();
    assert(end == b.len()) by {
        assert(b.skip(pt).len() == b.len() - pt);
    }
    assert(spec_decode_fields(b, end, 0, eacc, Some(cl_field_bytes(p))) == Some(
        (eacc->Some_0, cl_field_bytes(p), end),
    ));
}

#[verifier::rlimit(100)]
proof fn lemma_decode_fields_canonical(b: Seq<u8>, p: AnnouncementPktView)
    requires
        announcement_sized(p),
        b == announcement_bytes(p),
    ensures
        spec_decode_fields(b, 1, 2, None, None) == Some(
            (eid_field_bytes(p), cl_field_bytes(p), b.len() as int),
        ),
{
    let key_eid = seq![0x65u8, 0x69u8, 0x64u8];
    let eid_bytes = match p.eid {
        None => seq![0xf6u8],
        Some(e) => text_bytes(e),
    };
    let tail_cl = seq![0x62u8, 0x63u8, 0x6cu8] + (len_header(4, p.cl.len()) + text_array_bytes(
        p.cl,
    ));
    assert(b.skip(0) =~= b);
    assert(b =~= seq![0xa2u8] + ((len_header(3, 3) + (key_eid + (eid_bytes + tail_cl))))) by {
        assert(len_header(3, 3) =~= seq![0x63u8]);
    }
    lemma_skip_concat(b, 0, seq![0xa2u8], len_header(3, 3) + (key_eid + (eid_bytes + tail_cl)));
    lemma_parse_text_bytes_at(b, 1, key_eid, eid_bytes + tail_cl);
    let pv: int = 5;
    assert(1 + len_header(3, 3).len() + 3 == 5);
    let pk2: int = match p.eid {
        None => {
            lemma_skip_concat(b, pv, seq![0xf6u8], tail_cl);
            assert(b[pv] == 0xf6);
            pv + 1
        },
        Some(e) => {
            let u = encode_utf8(e);
            assert(b.skip(pv) =~= len_header(3, u.len()) + (u + tail_cl));
            lemma_parse_text_bytes_at(b, pv, u, tail_cl);
            assert(b[pv] != 0xf6) by {
                assert(b.skip(pv)[0] == b[pv]);
                assert((len_header(3, u.len()) + (u + tail_cl))[0] == len_header(3, u.len())[0]);
            }
            pv + text_bytes(e).len()
        },
    };
    assert(b.skip(pk2) == tail_cl);
    assert(b.len() == pk2 + 3 + len_header(4, p.cl.len()).len() + text_array_bytes(p.cl).len()) by {
        assert(b.skip(pk2).len() == b.len() - pk2);
    }
    lemma_decode_cl_entry(b, pk2, p, Some(eid_field_bytes(p)));
    assert(key_eid == seq![101u8, 105u8, 100u8]);
    assert(spec_decode_fields(b, 1, 2, None, None) == Some(
        (eid_field_bytes(p), cl_field_bytes(p), b.len() as int),
    ));
}

/// Law: an announcement that fits a discovery datagram, encoded and then
/// decoded, comes back exactly as it went out.
pub proof fn lemma_announcement_round_trip(p: AnnouncementPktView)
    requires
        announcement_sized(p),
    ensures
        spec_decode_announcement(announcement_bytes(p)) == Some(p),
{
    broadcast use vstd::utf8::encode_utf8_valid_utf8;
    broadcast use vstd::utf8::encode_utf8_decode_utf8;

    let b = announcement_bytes(p);
    assert(b[0] == 0xa2) by {
        assert(b =~= seq![0xa2u8, 0x63u8, 0x65u8, 0x69u8, 0x64u8] + (match p.eid {
            None => seq![0xf6u8],
            Some(e) => text_bytes(e),
        }) + seq![0x62u8, 0x63u8, 0x6cu8] + len_header(4, p.cl.len()) + text_array_bytes(p.cl));
    }
    assert((0xa2 as int) / 32 == 5 && (0xa2 as int) % 32 == 2);
    assert(b.len() >= 1);
    assert(spec_parse_header(b, 0) == Some((5u8, 2u64, 1int)));
    lemma_decode_fields_canonical(b, p);
    let clb = cl_field_bytes(p);
    match p.eid {
        None => {},
        Some(e) => {
            assert(valid_utf8(encode_utf8(e)));
            assert(decode_utf8(encode_utf8(e)) == e);
        },
    }
    assert forall|i: int| 0 <= i < clb.len() implies valid_utf8(#[trigger] clb[i]) by {
        assert(clb[i] == encode_utf8(p.cl[i]));
    }
    assert(clb.map_values(|t: Seq<u8>| decode_utf8(t)) =~~= p.cl);
    assert(spec_decode_announcement(b) == Some(p));
}

/// Relies on `String::from_utf8`: it succeeds exactly on input that is
/// valid UTF-8, and then returns the string those bytes encode.
#[verifier::external_body]
fn bytes_to_string(b: Vec<u8>) -> (r: Option<String>)
    ensures
        r is Some <==> valid_utf8(b@),
        r matches Some(s) ==> s@ == decode_utf8(b@),
{
    match String::from_utf8(b) {
        Ok(s) => Some(s),
        Err(_) => None,
    }
}

/// Decode a received datagram payload into an announcement. Returns nothing
/// on any payload that is not a well-formed announcement; the caller treats
/// that as a decode failure to be logged and ignored.
#[verifier::loop_isolation(false)]
pub fn decode_announcement(b: &Vec<u8>) -> (r: Option<AnnouncementPkt>)
    ensures
        r is None ==> spec_decode_announcement(b@) is None,
        r matches Some(p) ==> spec_decode_announcement(b@) == Some(p@),
{
    let hdr = parse_header(b, 0);
    match hdr {
        None => None,
        Some((major, arg, p1)) => {
            if major != 5 {
                None
            } else {
                match decode_fields(b, p1, arg, None, None) {
                    None => None,
                    Some((eidb, clb, end)) => {
                        if end != b.len() {
                            None
                        } else {
                            let ghost eidbv = eid_acc_view(Some(eidb))->Some_0;
                            let eid: Option<String> = match eidb {
                                None => None,
                                Some(ebytes) => {
                                    match bytes_to_string(ebytes) {
                                        None => {
                                            return None;
                                        },
                                        Some(s) => Some(s),
                                    }
                                },
                            };
                            let ghost clbv = texts_view(clb@);
                            let mut rest = clb;
                            let mut cls: Vec<String> = Vec::new();
                            let ghost mut k: int = 0;
                            proof {
                                assert(rest@ =~= clb@.skip(0));
                            }
                            while rest.len() > 0
                                invariant
                                    0 <= k <= clbv.len(),
                                    clbv == texts_view(clb@),
                                    rest@ =~= clb@.skip(k),
                                    cls@.len() == k,
                                    forall|j: int| 0 <= j < k ==> valid_utf8(#[trigger] clbv[j])
                                        && cls@[j]@ == decode_utf8(clbv[j]),
                                decreases rest@.len(),
                            {
                                let t = rest.remove(0);
                                proof {
                                    assert(t@ == clbv[k]);
                                    assert(rest@ =~= clb@.skip(k + 1));
                                }
                                match bytes_to_string(t) {
                                    None => {
                                        proof {
                                            assert(!valid_utf8(clbv[k]));
                                            assert(!(forall|i: int|
                                                0 <= i < clbv.len() ==> valid_utf8(
                                                    #[trigger] clbv[i],
                                                )));
                                        }
                                        return None;
                                    },
                                    Some(s) => {
                                        cls.push(s);
                                    },
                                }
                                proof {
                                    k = k + 1;
                                }
                            }
                            proof {
                                assert(k == clbv.len());
                            }
                            let pkt = AnnouncementPkt { eid, cl: cls };
                            proof {
                                assert(pkt@.cl =~= clbv.map_values(|t: Seq<u8>| decode_utf8(t)));
                                assert(spec_decode_announcement(b@) == Some(pkt@));
                            }
                            Some(pkt)
                        }
                    },
                }
            }
        },
    }
}

} // verus!
