//! DNS header and name decoding.
//!
//! A domain name on the wire is a run of length-prefixed labels closed by a
//! zero byte, or a two-byte compression pointer (top two bits of the first
//! byte set). The decoder walks at most `MAX_NAME_LABELS` labels and reports
//! how many bytes the encoding occupies; a pointer is accounted as two bytes
//! and never followed.

use crate::packet::{be16, read_u8, read_u16_be};
use vstd::prelude::*;

verus! {

/// DNS message header, RFC 1035 section 4.1.1.
#[allow(non_camel_case_types)]
#[derive(Copy, Clone)]
pub struct dnshdr {
    pub trans_id: u16,
    pub flags: u16,
    pub qcount: [u8; 2],
    pub acount: [u8; 2],
    pub nscount: [u8; 2],
    pub arcount: [u8; 2],
}

/// Fixed bound on the labels one name decoding walks.
pub const MAX_NAME_LABELS: usize = 5;

/// Largest byte count one name decoding can report: each of the
/// `MAX_NAME_LABELS` steps advances past one length byte and at most 255
/// label bytes.
pub const NAME_LEN_MAX: usize = 1280;

/// Cursor position after walking labels from `j`: one length byte and that
/// many label bytes per step, stopping at a zero length byte, at the buffer's
/// end (insufficient data), or when the step bound runs out.
pub open spec fn name_end_rec(p: Seq<u8>, j: int, fuel: nat) -> Option<int>
    decreases fuel,
{
    if fuel == 0 {
        Some(j)
    } else if j + 1 > p.len() {
        None
    } else if p[j] == 0 {
        Some(j + 1)
    } else {
        name_end_rec(p, j + 1 + p[j], (fuel - 1) as nat)
    }
}

/// Number of bytes the name encoding at `off` occupies, or `None` for
/// insufficient data. A compression pointer occupies two bytes; the decoder
/// must be able to read both before classifying the encoding.
pub open spec fn name_len_at(p: Seq<u8>, off: int) -> Option<int> {
    if off + 2 > p.len() {
        None
    } else if p[off] & 0xc0 == 0xc0 {
        Some(2)
    } else {
        match name_end_rec(p, off, MAX_NAME_LABELS as nat) {
            Some(j) => Some(j - off),
            None => None,
        }
    }
}

/// The walk only moves forward, and each step covers at most 256 bytes.
pub proof fn lemma_name_end_rec_bounds(p: Seq<u8>, j: int, fuel: nat)
    requires
        name_end_rec(p, j, fuel) is Some,
    ensures
        j <= name_end_rec(p, j, fuel)->0,
        name_end_rec(p, j, fuel)->0 <= j + fuel * 256,
        fuel > 0 ==> j + 1 <= name_end_rec(p, j, fuel)->0,
    decreases fuel,
{
    if fuel == 0 {
    } else if j + 1 > p.len() {
    } else if p[j] == 0 {
    } else {
        lemma_name_end_rec_bounds(p, j + 1 + p[j], (fuel - 1) as nat);
        assert((fuel - 1) * 256 == fuel * 256 - 256) by (nonlinear_arith);
    }
}

/// A name length is at least 1 and at most `NAME_LEN_MAX`.
pub proof fn lemma_name_len_bounds(p: Seq<u8>, off: int)
    requires
        name_len_at(p, off) is Some,
    ensures
        1 <= name_len_at(p, off)->0 <= NAME_LEN_MAX,
{
    if off + 2 <= p.len() && p[off] & 0xc0 != 0xc0 {
        lemma_name_end_rec_bounds(p, off, MAX_NAME_LABELS as nat);
    }
}

/// The walk reads only the bytes it passes over: two equally long buffers
/// that agree on them decode alike.
pub proof fn lemma_name_end_rec_agree(p1: Seq<u8>, p2: Seq<u8>, j: int, fuel: nat)
    requires
        p1.len() == p2.len(),
        name_end_rec(p1, j, fuel) is Some,
        forall|i: int| j <= i < name_end_rec(p1, j, fuel)->0 ==> p1[i] == p2[i],
    ensures
        name_end_rec(p2, j, fuel) == name_end_rec(p1, j, fuel),
    decreases fuel,
{
    if fuel == 0 {
    } else if j + 1 > p1.len() {
    } else if p1[j] == 0 {
    } else {
        lemma_name_end_rec_bounds(p1, j, fuel);
        let j1 = j + 1 + p1[j];
        lemma_name_end_rec_bounds(p1, j1, (fuel - 1) as nat);
        lemma_name_end_rec_agree(p1, p2, j1, (fuel - 1) as nat);
    }
}

/// A name decoding depends only on the bytes it occupies: two equally long
/// buffers that agree on them report the same length.
pub proof fn lemma_name_len_at_agree(p1: Seq<u8>, p2: Seq<u8>, off: int)
    requires
        p1.len() == p2.len(),
        name_len_at(p1, off) is Some,
        forall|i: int| off <= i < off + name_len_at(p1, off)->0 ==> p1[i] == p2[i],
    ensures
        name_len_at(p2, off) == name_len_at(p1, off),
{
    lemma_name_len_bounds(p1, off);
    if p1[off] & 0xc0 == 0xc0 {
    } else {
        lemma_name_end_rec_agree(p1, p2, off, MAX_NAME_LABELS as nat);
    }
}

/// DNS name decoder: returns the number of bytes the encoding at `offset`
/// occupies in the buffer, or `None` when the data runs out.
pub fn parse_dns_host(p: &Vec<u8>, offset: usize) -> (r: Option<usize>)
    requires
        offset + NAME_LEN_MAX <= usize::MAX,
    ensures
        match r {
            Some(n) => name_len_at(p@, offset as int) == Some(n as int),
            None => name_len_at(p@, offset as int) is None,
        },
        r is Some ==> 1 <= r->0 <= NAME_LEN_MAX,
{
    let first = match read_u16_be(p, offset) {
        Some(v) => v,
        None => {
            return None;
        },
    };
    if first & 0xc000 == 0xc000 {
        proof {
            let b: u8 = p@[offset as int];
            let c: u8 = p@[offset as int + 1];
            assert(((b * 0x100 + c) as u16 & 0xc000 == 0xc000) == (b & 0xc0 == 0xc0))
                by (bit_vector);
        }
        return Some(2);
    }
    proof {
        let b: u8 = p@[offset as int];
        let c: u8 = p@[offset as int + 1];
        assert(((b * 0x100 + c) as u16 & 0xc000 == 0xc000) == (b & 0xc0 == 0xc0)) by (bit_vector);
    }
    let mut j = offset;
    for i in 0..MAX_NAME_LABELS
        invariant
            offset + i <= j <= offset + i * 256,
            offset + NAME_LEN_MAX <= usize::MAX,
            i <= MAX_NAME_LABELS,
            offset + 2 <= p@.len(),
            p@[offset as int] & 0xc0 != 0xc0,
            name_end_rec(p@, j as int, (MAX_NAME_LABELS - i) as nat) == name_end_rec(
                p@,
                offset as int,
                MAX_NAME_LABELS as nat,
            ),
    {
        let b = match read_u8(p, j) {
            Some(b) => b,
            None => {
                return None;
            },
        };
        j = j + 1;
        if b == 0 {
            proof {
                lemma_name_end_rec_bounds(p@, offset as int, MAX_NAME_LABELS as nat);
            }
            return Some(j - offset);
        }
        j = j + b as usize;
    }
    proof {
        lemma_name_end_rec_bounds(p@, offset as int, MAX_NAME_LABELS as nat);
    }
    Some(j - offset)
}

/// Wire encoding of a label run, without the closing zero byte: one length
/// byte before each label.
pub open spec fn encode_body(labels: Seq<Seq<u8>>) -> Seq<u8>
    decreases labels.len(),
{
    if labels.len() == 0 {
        Seq::empty()
    } else {
        seq![labels[0].len() as u8] + labels[0] + encode_body(labels.drop_first())
    }
}

/// Wire encoding of a domain name given as its labels: length-prefixed
/// labels closed by a zero byte.
pub open spec fn encode_labels(labels: Seq<Seq<u8>>) -> Seq<u8> {
    encode_body(labels) + seq![0u8]
}

/// The labels encoded at `j`, walked back out of the buffer: the inverse
/// reading of [`encode_labels`], bounded like the decoder itself.
pub open spec fn decode_labels(p: Seq<u8>, j: int, fuel: nat) -> Option<Seq<Seq<u8>>>
    decreases fuel,
{
    if fuel == 0 {
        None
    } else if j + 1 > p.len() {
        None
    } else if p[j] == 0 {
        Some(Seq::empty())
    } else if j + 1 + p[j] > p.len() {
        None
    } else {
        match decode_labels(p, j + 1 + p[j], (fuel - 1) as nat) {
            None => None,
            Some(rest) => Some(seq![p.subrange(j + 1, j + 1 + p[j])] + rest),
        }
    }
}

proof fn lemma_round_trip_rec(labels: Seq<Seq<u8>>, p: Seq<u8>, off: int, fuel: nat)
    requires
        labels.len() + 1 <= fuel,
        forall|i: int| 0 <= i < labels.len() ==> 1 <= (#[trigger] labels[i]).len() <= 63,
        0 <= off,
        off + encode_labels(labels).len() <= p.len(),
        p.subrange(off, off + encode_labels(labels).len()) == encode_labels(labels),
    ensures
        name_end_rec(p, off, fuel) == Some(off + encode_labels(labels).len()),
        decode_labels(p, off, fuel) == Some(labels),
        labels.len() == 0 ==> p[off] == 0,
        labels.len() > 0 ==> p[off] == labels[0].len() as u8,
    decreases labels.len(),
{
    let enc = encode_labels(labels);
    if labels.len() == 0 {
        assert(p[off] == enc[0]);
    } else {
        let l = labels[0];
        let rest = labels.drop_first();
        let renc = encode_labels(rest);
        assert(enc =~= seq![l.len() as u8] + l + renc);
        assert(p[off] == enc[0] && enc[0] == l.len() as u8);
        let off1 = off + 1 + l.len();
        assert forall|i: int| 0 <= i < renc.len() implies p.subrange(off1, off1 + renc.len())[i]
            == renc[i] by {
            assert(p[off1 + i] == p.subrange(off, off + enc.len())[1 + l.len() + i]);
        }
        assert(p.subrange(off1, off1 + renc.len()) =~= renc);
        lemma_round_trip_rec(rest, p, off1, (fuel - 1) as nat);
        assert forall|i: int| 0 <= i < l.len() implies p.subrange(off + 1, off + 1 + p[off])[i]
            == l[i] by {
            assert(p[off + 1 + i] == p.subrange(off, off + enc.len())[1 + i]);
        }
        assert(p.subrange(off + 1, off + 1 + p[off]) =~= l);
    }
}

/// Round trip: a name encoded by the label scheme, placed in a buffer, is
/// decoded by the DNS name decoder to exactly its encoded length, and
/// walking the length-prefixed labels back out yields the original label
/// sequence. It holds for names of at most 4 nonempty labels of at most 63
/// bytes each — the decoder's label bound walks 4 labels and the closing
/// zero byte, and a longer first label would look like a compression
/// pointer.
pub proof fn lemma_name_round_trip(labels: Seq<Seq<u8>>, p: Seq<u8>, off: int)
    requires
        labels.len() <= MAX_NAME_LABELS - 1,
        forall|i: int| 0 <= i < labels.len() ==> 1 <= (#[trigger] labels[i]).len() <= 63,
        0 <= off,
        off + 2 <= p.len(),
        off + encode_labels(labels).len() <= p.len(),
        p.subrange(off, off + encode_labels(labels).len()) == encode_labels(labels),
    ensures
        name_len_at(p, off) == Some(encode_labels(labels).len() as int),
        decode_labels(p, off, MAX_NAME_LABELS as nat) == Some(labels),
{
    lemma_round_trip_rec(labels, p, off, MAX_NAME_LABELS as nat);
    if labels.len() == 0 {
        let b = p[off];
        assert(b == 0 ==> b & 0xc0 != 0xc0) by (bit_vector);
    } else {
        let b = p[off];
        assert(b <= 63 ==> b & 0xc0 != 0xc0) by (bit_vector);
    }
}

/// Reads the DNS header at `off`: `Some` exactly when all 12 header bytes lie
/// within the buffer, with each field taken big-endian from its fixed offset.
pub fn parse_dns_header(p: &Vec<u8>, off: usize) -> (r: Option<dnshdr>)
    requires
        off + 12 <= usize::MAX,
    ensures
        r is Some <==> off + 12 <= p@.len(),
        r matches Some(h) ==> {
            &&& h.trans_id == be16(p@, off as int)
            &&& h.flags == be16(p@, off as int + 2)
            &&& h.qcount@ == p@.subrange(off as int + 4, off as int + 6)
            &&& h.acount@ == p@.subrange(off as int + 6, off as int + 8)
            &&& h.nscount@ == p@.subrange(off as int + 8, off as int + 10)
            &&& h.arcount@ == p@.subrange(off as int + 10, off as int + 12)
        },
{
    if p.len() < 12 || off > p.len() - 12 {
        return None;
    }
    let trans_id = read_u16_be(p, off).unwrap();
    let flags = read_u16_be(p, off + 2).unwrap();
    let h = dnshdr {
        trans_id,
        flags,
        qcount: [p[off + 4], p[off + 5]],
        acount: [p[off + 6], p[off + 7]],
        nscount: [p[off + 8], p[off + 9]],
        arcount: [p[off + 10], p[off + 11]],
    };
    proof {
        assert(h.qcount@ =~= p@.subrange(off as int + 4, off as int + 6));
        assert(h.acount@ =~= p@.subrange(off as int + 6, off as int + 8));
        assert(h.nscount@ =~= p@.subrange(off as int + 8, off as int + 10));
        assert(h.arcount@ =~= p@.subrange(off as int + 10, off as int + 12));
    }
    Some(h)
}

} // verus!
