//! Packet-path core: protocol filter chain, question lookup, answer-record
//! scan, and the in-place address rewrite.
//!
//! One invocation inspects one frame. The whole transformation is specified
//! by [`rewrite_packet`]: a frame that is not an IPv4/UDP packet from source
//! port 53, or whose DNS content does not name a host of the table, or that
//! holds no address-type answer within the scan bound, passes through
//! byte-identical. Only when a rewrite is committed are the four address
//! bytes overwritten and the UDP checksum cleared (an in-place rewrite would
//! otherwise leave a stale checksum behind); clearing it for traffic that is
//! merely inspected would alter packets the rewriter does not act on, so it
//! is deliberately confined to the rewritten ones.
//!
//! The disposition is always "pass": the mutation, if any, is already
//! committed into the buffer.

use crate::dns::{
    lemma_name_len_at_agree, lemma_name_len_bounds, name_len_at, parse_dns_header, parse_dns_host,
};
use crate::packet::{be16, read_u16_be, read_u8, write_u8};
use crate::table::HostTable;
use vstd::prelude::*;

verus! {

/// Disposition: forward the frame (possibly rewritten in place).
pub const XDP_PASS: u32 = 2;

/// Disposition: drop the frame; reserved for unreachable internal states.
pub const XDP_ABORTED: u32 = 0;

/// EtherType of IPv4.
pub const ETH_P_IP: u16 = 0x0800;

/// IP protocol number of UDP.
pub const IPPROTO_UDP: u8 = 17;

/// UDP source port a DNS response comes from.
pub const DNS_PORT: u16 = 53;

/// Answer-record type of an IPv4 address record.
pub const TYPE_A: u16 = 1;

pub const ETH_HDR_LEN: usize = 14;

pub const IP_HDR_LEN: usize = 20;

pub const UDP_HDR_LEN: usize = 8;

pub const DNS_HDR_LEN: usize = 12;

/// Offset of the UDP header.
pub const UDP_OFF: usize = ETH_HDR_LEN + IP_HDR_LEN;

/// Offset of the DNS header.
pub const DNS_OFF: usize = ETH_HDR_LEN + IP_HDR_LEN + UDP_HDR_LEN;

/// Offset of the DNS question section.
pub const QUESTION_OFF: usize = ETH_HDR_LEN + IP_HDR_LEN + UDP_HDR_LEN + DNS_HDR_LEN;

/// Most answer records one scan walks.
pub const ANSWER_SCAN_BOUND: usize = 20;

/// Largest cursor advance one scanned record can cause: its name, the fixed
/// fields, and a data section of at most 255 bytes.
pub const RECORD_ADVANCE_MAX: usize = 520;

/// The frame is an IPv4/UDP packet from source port 53, with every header
/// field it takes to decide that within the buffer.
pub open spec fn is_dns_response(p: Seq<u8>) -> bool {
    &&& p.len() >= 14
    &&& be16(p, 12) == ETH_P_IP
    &&& p.len() >= 34
    &&& p[23] == IPPROTO_UDP
    &&& p.len() >= 42
    &&& be16(p, 34) == DNS_PORT
}

/// How many question bytes the lookup key copies: up to the fixed bound of
/// 255, the buffer's end, or the question name's decoded length, whichever
/// comes first.
pub open spec fn copied_len(p: Seq<u8>, q_len: int) -> int
    recommends
        p.len() >= 55,
        q_len >= 1,
{
    let avail = p.len() - 54;
    let c = if q_len < avail {
        q_len
    } else {
        avail
    };
    if c > 255 {
        255
    } else {
        c
    }
}

/// The 256-byte lookup key: the question's raw wire bytes, zero-padded.
pub open spec fn question_key(p: Seq<u8>, q_len: int) -> Seq<u8> {
    Seq::new(
        256,
        |i: int|
            if i < copied_len(p, q_len) {
                p[54 + i]
            } else {
                0u8
            },
    )
}

/// Answer-record scan from cursor `j` (relative to the question section's
/// start): the cursor where the first address-type record's type field
/// begins, or `None` when the record bound, the data, or a length bound runs
/// out and the frame passes unmodified.
pub open spec fn scan_rec(p: Seq<u8>, j: int, fuel: nat) -> Option<int>
    decreases fuel,
{
    if fuel == 0 {
        None
    } else {
        match name_len_at(p, j + 54) {
            None => None,
            Some(a_len) => {
                if a_len > 255 {
                    None
                } else {
                    let j1 = j + a_len;
                    if j1 + 56 > p.len() {
                        None
                    } else if be16(p, j1 + 54) == TYPE_A {
                        Some(j1)
                    } else {
                        let j2 = j1 + 8;
                        if j2 + 56 > p.len() {
                            None
                        } else {
                            let dl = be16(p, j2 + 54);
                            if dl > 255 {
                                None
                            } else {
                                scan_rec(p, j2 + 2 + dl, (fuel - 1) as nat)
                            }
                        }
                    }
                }
            },
        }
    }
}

/// Where the rewrite lands and what is written: `Some((w, v))` means the 4
/// bytes at `w` become `v`; `None` means the frame passes unmodified.
pub open spec fn rewrite_target(p: Seq<u8>, table: Map<Seq<u8>, Seq<u8>>) -> Option<(int, Seq<u8>)> {
    if !is_dns_response(p) {
        None
    } else if p.len() < 54 {
        None
    } else if be16(p, 46) != 1 {
        None
    } else if be16(p, 48) == 0 {
        None
    } else {
        match name_len_at(p, 54) {
            None => None,
            Some(q_len) => {
                if p.len() < 55 {
                    None
                } else if p.len() < 55 + q_len {
                    None
                } else {
                    let key = question_key(p, q_len);
                    if !table.contains_key(key) {
                        None
                    } else {
                        match scan_rec(p, q_len + 4, ANSWER_SCAN_BOUND as nat) {
                            None => None,
                            Some(jf) => {
                                let w = jf + 64;
                                if w + 4 > p.len() {
                                    None
                                } else {
                                    Some((w, table[key]))
                                }
                            },
                        }
                    }
                }
            },
        }
    }
}

/// The UDP checksum field, cleared: zero means "no checksum" for UDP over
/// IPv4.
pub open spec fn clear_checksum(p: Seq<u8>) -> Seq<u8> {
    p.update(40, 0u8).update(41, 0u8)
}

/// The 4 bytes at `w` replaced by `v`.
pub open spec fn write4(p: Seq<u8>, w: int, v: Seq<u8>) -> Seq<u8> {
    p.update(w, v[0]).update(w + 1, v[1]).update(w + 2, v[2]).update(w + 3, v[3])
}

/// The frame as forwarded: untouched, or with the first address record's
/// data replaced by the table's value and the UDP checksum cleared.
pub open spec fn rewrite_packet(p: Seq<u8>, table: Map<Seq<u8>, Seq<u8>>) -> Seq<u8> {
    match rewrite_target(p, table) {
        None => p,
        Some((w, v)) => write4(clear_checksum(p), w, v),
    }
}

/// The scan only moves forward, and each skipped record advances the cursor
/// by at most [`RECORD_ADVANCE_MAX`] bytes.
pub proof fn lemma_scan_rec_bounds(p: Seq<u8>, j: int, fuel: nat)
    requires
        scan_rec(p, j, fuel) is Some,
    ensures
        j <= scan_rec(p, j, fuel)->0,
        scan_rec(p, j, fuel)->0 <= j + fuel * RECORD_ADVANCE_MAX,
    decreases fuel,
{
    if fuel > 0 {
        if let Some(a_len) = name_len_at(p, j + 54) {
            if a_len <= 255 {
                let j1 = j + a_len;
                lemma_name_len_bounds(p, j + 54);
                if j1 + 56 <= p.len() && be16(p, j1 + 54) != TYPE_A {
                    let j2 = j1 + 8;
                    if j2 + 56 <= p.len() {
                        let dl = be16(p, j2 + 54);
                        if dl <= 255 {
                            lemma_scan_rec_bounds(p, j2 + 2 + dl, (fuel - 1) as nat);
                            assert((fuel - 1) * RECORD_ADVANCE_MAX == fuel * RECORD_ADVANCE_MAX
                                - RECORD_ADVANCE_MAX) by (nonlinear_arith);
                        }
                    }
                }
            }
        }
    }
}

/// The scan reads only the bytes between its start and the end of the found
/// record's type field: two equally long buffers that agree on them find the
/// same record.
pub proof fn lemma_scan_rec_agree(p1: Seq<u8>, p2: Seq<u8>, j: int, fuel: nat)
    requires
        p1.len() == p2.len(),
        scan_rec(p1, j, fuel) is Some,
        forall|i: int| j + 54 <= i < scan_rec(p1, j, fuel)->0 + 56 ==> p1[i] == p2[i],
    ensures
        scan_rec(p2, j, fuel) == scan_rec(p1, j, fuel),
    decreases fuel,
{
    if fuel > 0 {
        let jf = scan_rec(p1, j, fuel)->0;
        let a_len = name_len_at(p1, j + 54)->0;
        lemma_name_len_bounds(p1, j + 54);
        let j1 = j + a_len;
        assert(a_len <= 255 && j1 + 56 <= p1.len());
        if be16(p1, j1 + 54) == TYPE_A {
            assert(j1 == jf);
            lemma_name_len_at_agree(p1, p2, j + 54);
            assert(p2[j1 + 54] == p1[j1 + 54] && p2[j1 + 55] == p1[j1 + 55]);
            assert(be16(p2, j1 + 54) == be16(p1, j1 + 54));
        } else {
            let j2 = j1 + 8;
            let dl = be16(p1, j2 + 54);
            let j3 = j2 + 2 + dl;
            assert(scan_rec(p1, j3, (fuel - 1) as nat) == Some(jf));
            lemma_scan_rec_bounds(p1, j3, (fuel - 1) as nat);
            assert(j1 <= j3 <= jf);
            lemma_name_len_at_agree(p1, p2, j + 54);
            assert(p2[j1 + 54] == p1[j1 + 54] && p2[j1 + 55] == p1[j1 + 55]);
            assert(be16(p2, j1 + 54) == be16(p1, j1 + 54));
            assert(p2[j2 + 54] == p1[j2 + 54] && p2[j2 + 55] == p1[j2 + 55]);
            assert(be16(p2, j2 + 54) == be16(p1, j2 + 54));
            lemma_scan_rec_agree(p1, p2, j3, (fuel - 1) as nat);
        }
    }
}

/// For all frames that are not IPv4/UDP with source port 53, the rewriter's
/// output is byte-identical to its input (and the disposition, per
/// [`github_hosts`], is "pass").
pub proof fn lemma_pass_when_not_dns_response(p: Seq<u8>, table: Map<Seq<u8>, Seq<u8>>)
    requires
        !is_dns_response(p),
    ensures
        rewrite_packet(p, table) == p,
{
}

/// For all DNS responses whose question name is absent from the host table,
/// the output frame is byte-identical to the input.
pub proof fn lemma_pass_on_miss(p: Seq<u8>, table: Map<Seq<u8>, Seq<u8>>)
    requires
        match name_len_at(p, 54) {
            Some(q_len) => !table.contains_key(question_key(p, q_len)),
            None => true,
        },
    ensures
        rewrite_packet(p, table) == p,
{
}

/// For all DNS responses whose question name matches a table entry and which
/// hold an address-type answer record within the scan bound, the four
/// address-data bytes of the first such record become the table's stored
/// value and the UDP checksum field is cleared; every other byte is
/// unchanged. When the input's checksum field is already clear — as it is on
/// any frame this rewriter has produced — exactly those four bytes change.
pub proof fn lemma_rewrite_hit(p: Seq<u8>, table: Map<Seq<u8>, Seq<u8>>, w: int, v: Seq<u8>)
    requires
        rewrite_target(p, table) == Some((w, v)),
    ensures
        rewrite_packet(p, table).len() == p.len(),
        69 <= w && w + 4 <= p.len(),
        v == table[question_key(p, name_len_at(p, 54)->0)],
        forall|k: int| 0 <= k < 4 ==> rewrite_packet(p, table)[w + k] == v[k],
        rewrite_packet(p, table)[40] == 0 && rewrite_packet(p, table)[41] == 0,
        forall|i: int|
            0 <= i < p.len() && i != 40 && i != 41 && !(w <= i < w + 4) ==> rewrite_packet(
                p,
                table,
            )[i] == p[i],
        p[40] == 0 && p[41] == 0 ==> forall|i: int|
            0 <= i < p.len() && !(w <= i < w + 4) ==> rewrite_packet(p, table)[i] == p[i],
{
    let q_len = name_len_at(p, 54)->0;
    lemma_name_len_bounds(p, 54);
    lemma_scan_rec_bounds(p, q_len + 4, ANSWER_SCAN_BOUND as nat);
}

/// Rewriting an already-rewritten frame a second time against the same table
/// is a no-op: the checksum is already clear and the address bytes already
/// hold the stored value, and no decision of the rewriter reads either.
pub proof fn lemma_rewrite_idempotent(p: Seq<u8>, table: Map<Seq<u8>, Seq<u8>>)
    ensures
        rewrite_packet(rewrite_packet(p, table), table) == rewrite_packet(p, table),
{
    if let Some((w, v)) = rewrite_target(p, table) {
        let p1 = rewrite_packet(p, table);
        let q_len = name_len_at(p, 54)->0;
        lemma_name_len_bounds(p, 54);
        let jf = scan_rec(p, q_len + 4, ANSWER_SCAN_BOUND as nat)->0;
        lemma_scan_rec_bounds(p, q_len + 4, ANSWER_SCAN_BOUND as nat);
        assert(w == jf + 64 && jf >= q_len + 4);
        assert(p1.len() == p.len());
        assert(forall|i: int|
            0 <= i < p.len() && i != 40 && i != 41 && !(w <= i < w + 4) ==> p1[i] == p[i]);
        assert(is_dns_response(p1));
        assert(be16(p1, 46) == be16(p, 46) && be16(p1, 48) == be16(p, 48));
        lemma_name_len_at_agree(p, p1, 54);
        assert(question_key(p1, q_len) =~= question_key(p, q_len));
        lemma_scan_rec_agree(p, p1, q_len + 4, ANSWER_SCAN_BOUND as nat);
        assert(rewrite_target(p1, table) == Some((w, v)));
        assert(p1[40] == 0 && p1[41] == 0);
        assert(forall|k: int| 0 <= k < 4 ==> p1[w + k] == v[k]);
        assert(write4(clear_checksum(p1), w, v) =~= p1);
    }
}

/// A question name exactly at the 255-byte copy bound is carried into the
/// key whole; a longer one is cut at the bound (and the copy never reaches
/// past the bytes below the buffer's end).
pub proof fn lemma_key_boundary(p: Seq<u8>, q_len: int)
    requires
        55 <= p.len(),
        1 <= q_len,
        55 + q_len <= p.len(),
    ensures
        question_key(p, q_len).len() == 256,
        q_len <= 255 ==> forall|i: int|
            0 <= i < q_len ==> question_key(p, q_len)[i] == p[54 + i],
        q_len <= 255 ==> forall|i: int| q_len <= i < 256 ==> question_key(p, q_len)[i] == 0,
        q_len > 255 ==> forall|i: int| 0 <= i < 255 ==> question_key(p, q_len)[i] == p[54 + i],
        q_len > 255 ==> forall|i: int| 255 <= i < 256 ==> question_key(p, q_len)[i] == 0,
{
}

/// Copies the question's wire bytes into a zero-initialized 256-byte key,
/// stopping at the fixed bound, the buffer's end, or the name's length.
fn copy_question_key(p: &Vec<u8>, q_len: usize) -> (key: [u8; 256])
    requires
        55 <= p@.len(),
        1 <= q_len,
    ensures
        key@ == question_key(p@, q_len as int),
{
    let mut key = [0u8; 256];
    let mut copied: usize = p.len() - 54;
    if q_len < copied {
        copied = q_len;
    }
    if copied > 255 {
        copied = 255;
    }
    for i in 0..copied
        invariant
            copied == copied_len(p@, q_len as int),
            copied <= 255,
            copied + 54 <= p@.len(),
            forall|m: int| 0 <= m < i ==> key@[m] == p@[54 + m],
            forall|m: int| i <= m < 256 ==> key@[m] == 0u8,
    {
        key[i] = p[54 + i];
    }
    proof {
        assert(key@ =~= question_key(p@, q_len as int));
    }
    key
}

/// Walks the answer section: decodes each record's name, stops at the first
/// address-type record, and otherwise skips the record by its declared data
/// length, up to the fixed record bound.
fn scan_answers(p: &Vec<u8>, j0: usize) -> (r: Option<usize>)
    requires
        j0 + 0x4000 <= usize::MAX,
    ensures
        match r {
            Some(jf) => scan_rec(p@, j0 as int, ANSWER_SCAN_BOUND as nat) == Some(jf as int),
            None => scan_rec(p@, j0 as int, ANSWER_SCAN_BOUND as nat) is None,
        },
        r matches Some(jf) ==> j0 <= jf <= j0 + ANSWER_SCAN_BOUND * RECORD_ADVANCE_MAX,
{
    let mut j = j0;
    for i in 0..ANSWER_SCAN_BOUND
        invariant
            j0 <= j <= j0 + i * RECORD_ADVANCE_MAX,
            j0 + 0x4000 <= usize::MAX,
            scan_rec(p@, j as int, (ANSWER_SCAN_BOUND - i) as nat) == scan_rec(
                p@,
                j0 as int,
                ANSWER_SCAN_BOUND as nat,
            ),
    {
        let a_len = match parse_dns_host(p, j + 54) {
            Some(n) => n,
            None => {
                return None;
            },
        };
        if a_len > 255 {
            return None;
        }
        j = j + a_len;
        let a_type = match read_u16_be(p, j + 54) {
            Some(v) => v,
            None => {
                return None;
            },
        };
        if a_type == TYPE_A {
            return Some(j);
        }
        j = j + 8;
        let a_data_len = match read_u16_be(p, j + 54) {
            Some(v) => v,
            None => {
                return None;
            },
        };
        if a_data_len > 255 {
            return None;
        }
        j = j + 2 + a_data_len as usize;
    }
    None
}

/// One invocation of the rewriter. The frame leaves exactly as
/// [`rewrite_packet`] says, and the disposition is always "pass": every
/// malformed, unmatched or unsupported frame is forwarded untouched, and a
/// matched one is forwarded with its first address record rewritten.
pub fn try_github_hosts(packet: &mut Vec<u8>, table: &HostTable) -> (r: Result<u32, u32>)
    requires
        table.wf(),
    ensures
        r == Ok::<u32, u32>(XDP_PASS),
        final (packet)@ == rewrite_packet(old(packet)@, table@),
{
    let eth_proto = match read_u16_be(packet, 12) {
        Some(v) => v,
        None => {
            return Ok(XDP_PASS);
        },
    };
    if eth_proto != ETH_P_IP {
        return Ok(XDP_PASS);
    }
    if packet.len() < ETH_HDR_LEN + IP_HDR_LEN {
        return Ok(XDP_PASS);
    }
    let ip_proto = match read_u8(packet, 23) {
        Some(v) => v,
        None => {
            return Ok(XDP_PASS);
        },
    };
    if ip_proto != IPPROTO_UDP {
        return Ok(XDP_PASS);
    }
    if packet.len() < DNS_OFF {
        return Ok(XDP_PASS);
    }
    let src_port = match read_u16_be(packet, UDP_OFF) {
        Some(v) => v,
        None => {
            return Ok(XDP_PASS);
        },
    };
    if src_port != DNS_PORT {
        return Ok(XDP_PASS);
    }
    let h = match parse_dns_header(packet, DNS_OFF) {
        Some(h) => h,
        None => {
            return Ok(XDP_PASS);
        },
    };
    let qcount = h.qcount[0] as u16 * 0x100 + h.qcount[1] as u16;
    let acount = h.acount[0] as u16 * 0x100 + h.acount[1] as u16;
    if qcount != 1 {
        return Ok(XDP_PASS);
    }
    if acount == 0 {
        return Ok(XDP_PASS);
    }
    let q_len = match parse_dns_host(packet, QUESTION_OFF) {
        Some(n) => n,
        None => {
            return Ok(XDP_PASS);
        },
    };
    if packet.len() < QUESTION_OFF + 1 {
        return Ok(XDP_PASS);
    }
    if packet.len() < QUESTION_OFF + 1 + q_len {
        return Ok(XDP_PASS);
    }
    let key = copy_question_key(packet, q_len);
    let ip = match table.get(&key) {
        Some(v) => v,
        None => {
            return Ok(XDP_PASS);
        },
    };
    let jf = match scan_answers(packet, q_len + 4) {
        Some(j) => j,
        None => {
            return Ok(XDP_PASS);
        },
    };
    let w = jf + 64;
    if packet.len() < w + 4 {
        return Ok(XDP_PASS);
    }
    write_u8(packet, 40, 0);
    write_u8(packet, 41, 0);
    write_u8(packet, w, ip[0]);
    write_u8(packet, w + 1, ip[1]);
    write_u8(packet, w + 2, ip[2]);
    write_u8(packet, w + 3, ip[3]);
    Ok(XDP_PASS)
}

/// Entry point per frame: runs the rewriter and turns an internal error into
/// the "drop" disposition. The rewriter never errs, so the disposition is
/// always "pass".
pub fn github_hosts(packet: &mut Vec<u8>, table: &HostTable) -> (r: u32)
    requires
        table.wf(),
    ensures
        r == XDP_PASS,
        final (packet)@ == rewrite_packet(old(packet)@, table@),
{
    match try_github_hosts(packet, table) {
        Ok(ret) => ret,
        Err(_) => XDP_ABORTED,
    }
}

} // verus!
