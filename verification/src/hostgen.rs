//! Host-table entry construction.
//!
//! The control plane hands hostnames as dotted strings ("a.b.c") and
//! addresses as dotted decimal quads ("1.2.3.4"). These become a 256-byte
//! zero-padded wire-encoded name key and a 4-byte address value. A config
//! file holds one "<ipv4> <hostname>" entry per line; blank lines and lines
//! starting with `#` carry no entry.

use crate::dns::{encode_body, encode_labels};
use vstd::prelude::*;
use vstd::slice::{slice_index_get, slice_subrange};
use vstd::string::StringSliceAdditionalSpecFns;

verus! {

/// The fields of `s` split on the byte `sep`: every run between two
/// separators is one field, and there is always at least one field.
pub open spec fn split_on(s: Seq<u8>, sep: u8) -> Seq<Seq<u8>>
    decreases s.len(),
{
    if s.len() == 0 {
        seq![Seq::<u8>::empty()]
    } else if s[0] == sep {
        seq![Seq::<u8>::empty()] + split_on(s.drop_first(), sep)
    } else {
        let rest = split_on(s.drop_first(), sep);
        seq![seq![s[0]] + rest[0]] + rest.drop_first()
    }
}

/// The dot.
pub const DOT: u8 = 46;

/// The labels of a dotted hostname.
pub open spec fn host_labels(s: Seq<u8>) -> Seq<Seq<u8>> {
    split_on(s, DOT)
}

/// The name fits the key: every label's length fits its length byte, and the
/// whole encoding fits the 256-byte key.
pub open spec fn host_encodable(s: Seq<u8>) -> bool {
    let labels = host_labels(s);
    &&& forall|i: int| 0 <= i < labels.len() ==> (#[trigger] labels[i]).len() <= 255
    &&& encode_labels(labels).len() <= 256
}

/// `s` cut or zero-padded to exactly 256 bytes.
pub open spec fn padded_256(s: Seq<u8>) -> Seq<u8> {
    Seq::new(
        256,
        |i: int|
            if i < s.len() {
                s[i]
            } else {
                0u8
            },
    )
}

/// The table key of a dotted hostname: its wire encoding, left-aligned in
/// 256 zeroed bytes.
pub open spec fn host_key(s: Seq<u8>) -> Seq<u8> {
    padded_256(encode_labels(host_labels(s)))
}

/// A decimal digit.
pub open spec fn is_digit(b: u8) -> bool {
    48 <= b <= 57
}

/// Value of a run of decimal digits.
pub open spec fn dec_value(s: Seq<u8>) -> int
    decreases s.len(),
{
    if s.len() == 0 {
        0
    } else {
        dec_value(s.drop_last()) * 10 + (s.last() - 48)
    }
}

/// A nonempty, all-digit run whose value fits one address byte.
pub open spec fn is_dec_u8(s: Seq<u8>) -> bool {
    &&& 1 <= s.len()
    &&& forall|i: int| 0 <= i < s.len() ==> is_digit(#[trigger] s[i])
    &&& dec_value(s) <= 255
}

/// A dotted decimal quad.
pub open spec fn valid_ipv4(s: Seq<u8>) -> bool {
    let parts = split_on(s, DOT);
    &&& parts.len() == 4
    &&& forall|i: int| 0 <= i < parts.len() ==> is_dec_u8(#[trigger] parts[i])
}

/// The 4 address bytes of a dotted decimal quad.
pub open spec fn ipv4_bytes(s: Seq<u8>) -> Seq<u8> {
    let parts = split_on(s, DOT);
    Seq::new(4, |i: int| dec_value(parts[i]) as u8)
}

/// Splitting walks to the first separator: a prefix free of `sep`, closed by
/// `sep` or the end, is the first field.
proof fn lemma_split_on_step(s: Seq<u8>, sep: u8, d: int)
    requires
        0 <= d <= s.len(),
        forall|i: int| 0 <= i < d ==> s[i] != sep,
        d < s.len() ==> s[d] == sep,
    ensures
        d == s.len() ==> split_on(s, sep) == seq![s],
        d < s.len() ==> split_on(s, sep) == seq![s.take(d)] + split_on(s.skip(d + 1), sep),
    decreases d,
{
    if d == 0 {
        if s.len() == 0 {
            assert(s =~= Seq::<u8>::empty());
        } else {
            assert(s.take(0) =~= Seq::<u8>::empty());
            assert(s.skip(1) =~= s.drop_first());
        }
    } else {
        let t = s.drop_first();
        lemma_split_on_step(t, sep, d - 1);
        let rest = split_on(t, sep);
        if d == s.len() {
            assert(rest == seq![t]);
            assert(seq![s[0]] + t =~= s);
            assert(rest.drop_first() =~= Seq::<Seq<u8>>::empty());
            assert(split_on(s, sep) =~= seq![s]);
        } else {
            assert(rest == seq![t.take(d - 1)] + split_on(t.skip(d), sep));
            assert(rest[0] == t.take(d - 1));
            assert(seq![s[0]] + t.take(d - 1) =~= s.take(d));
            assert(t.skip(d) =~= s.skip(d + 1));
            assert(rest.drop_first() =~= split_on(s.skip(d + 1), sep));
            assert(split_on(s, sep) =~= seq![s.take(d)] + split_on(s.skip(d + 1), sep));
        }
    }
}

/// Encoding label runs piecewise is encoding their concatenation.
proof fn lemma_encode_body_concat(a: Seq<Seq<u8>>, b: Seq<Seq<u8>>)
    ensures
        encode_body(a + b) == encode_body(a) + encode_body(b),
    decreases a.len(),
{
    if a.len() == 0 {
        assert(a + b =~= b);
        assert(encode_body(a) + encode_body(b) =~= encode_body(b));
    } else {
        assert((a + b).drop_first() =~= a.drop_first() + b);
        lemma_encode_body_concat(a.drop_first(), b);
        assert((a + b)[0] == a[0]);
        assert(encode_body(a + b) =~= encode_body(a) + encode_body(b));
    }
}

/// A run of digits is worth no less than any of its prefixes.
proof fn lemma_dec_value_prefix(s: Seq<u8>, k: int)
    requires
        0 <= k <= s.len(),
        forall|i: int| 0 <= i < s.len() ==> is_digit(#[trigger] s[i]),
    ensures
        dec_value(s.take(k)) >= 0,
        dec_value(s) >= dec_value(s.take(k)),
    decreases s.len() - k, k,
{
    lemma_dec_value_nonneg(s.take(k));
    if k == s.len() {
        assert(s.take(k) =~= s);
    } else {
        assert(s.take(k + 1).drop_last() =~= s.take(k));
        assert(s.take(k + 1).last() == s[k]);
        lemma_dec_value_prefix(s, k + 1);
    }
}

/// Digits never make a negative value.
proof fn lemma_dec_value_nonneg(s: Seq<u8>)
    requires
        forall|i: int| 0 <= i < s.len() ==> is_digit(#[trigger] s[i]),
    ensures
        dec_value(s) >= 0,
    decreases s.len(),
{
    if s.len() > 0 {
        lemma_dec_value_nonneg(s.drop_last());
    }
}

/// Parses the digits at `lo..hi` as one address byte: `Some` exactly when
/// the run is nonempty, all digits, and no more than 255.
fn parse_dec_u8(pb: &[u8], lo: usize, hi: usize) -> (r: Option<u8>)
    requires
        lo <= hi <= pb@.len(),
    ensures
        r is Some <==> is_dec_u8(pb@.subrange(lo as int, hi as int)),
        r matches Some(v) ==> v as int == dec_value(pb@.subrange(lo as int, hi as int)),
{
    let ghost tok = pb@.subrange(lo as int, hi as int);
    if lo == hi {
        return None;
    }
    let mut val: u32 = 0;
    for i in lo..hi
        invariant
            lo < hi <= pb@.len(),
            tok == pb@.subrange(lo as int, hi as int),
            forall|m: int| lo <= m < i ==> is_digit(#[trigger] pb@[m]),
            val == dec_value(pb@.subrange(lo as int, i as int)),
            val <= 255,
    {
        let b = *slice_index_get(pb, i);
        if b < 48 || b > 57 {
            proof {
                assert(tok[i - lo] == pb@[i as int]);
            }
            return None;
        }
        let nv = val * 10 + (b - 48) as u32;
        proof {
            assert(pb@.subrange(lo as int, i + 1).drop_last() =~= pb@.subrange(lo as int, i as int));
            assert(pb@.subrange(lo as int, i + 1).last() == pb@[i as int]);
        }
        if nv > 255 {
            proof {
                if is_dec_u8(tok) {
                    assert(forall|m: int| 0 <= m < tok.len() ==> is_digit(#[trigger] tok[m]));
                    assert(tok.take(i + 1 - lo) =~= pb@.subrange(lo as int, i + 1));
                    lemma_dec_value_prefix(tok, i + 1 - lo);
                }
            }
            return None;
        }
        val = nv;
    }
    proof {
        assert(tok =~= pb@.subrange(lo as int, hi as int));
        assert(forall|m: int| 0 <= m < tok.len() ==> is_digit(#[trigger] tok[m]));
    }
    Some(val as u8)
}

/// Encodes a dotted hostname as its zero-padded 256-byte table key:
/// length-prefixed labels, a closing zero byte, zeros to the end. `None`
/// exactly when a label cannot fit its length byte or the whole encoding
/// cannot fit the key.
fn encode_host(hb: &[u8]) -> (r: Option<[u8; 256]>)
    ensures
        r is Some <==> host_encodable(hb@),
        r matches Some(k) ==> k@ == host_key(hb@),
{
    let n = hb.len();
    let mut key = [0u8; 256];
    let mut pos: usize = 0;
    let mut start: usize = 0;
    let ghost labels = host_labels(hb@);
    let ghost mut done: Seq<Seq<u8>> = Seq::empty();
    proof {
        assert(hb@.skip(0) =~= hb@);
        assert(labels =~= done + split_on(hb@.skip(0), DOT));
    }
    loop
        invariant_except_break
            n == hb@.len(),
            start <= n,
            pos <= 255,
            labels == host_labels(hb@),
            labels == done + split_on(hb@.skip(start as int), DOT),
            encode_body(done).len() == pos,
            forall|m: int| 0 <= m < pos ==> key@[m] == encode_body(done)[m],
            forall|m: int| pos <= m < 256 ==> key@[m] == 0u8,
            forall|i: int| 0 <= i < done.len() ==> (#[trigger] done[i]).len() <= 255,
        ensures
            pos <= 255,
            labels == host_labels(hb@),
            labels == done,
            encode_body(done).len() == pos,
            forall|m: int| 0 <= m < pos ==> key@[m] == encode_body(done)[m],
            forall|m: int| pos <= m < 256 ==> key@[m] == 0u8,
            forall|i: int| 0 <= i < done.len() ==> (#[trigger] done[i]).len() <= 255,
        decreases n - start,
    {
        let mut end = start;
        while end < n && *slice_index_get(hb, end) != DOT
            invariant
                n == hb@.len(),
                start <= end <= n,
                forall|m: int| start <= m < end ==> hb@[m] != DOT,
            decreases n - end,
        {
            end = end + 1;
        }
        let ghost t = hb@.skip(start as int);
        let ghost d = end - start;
        let ghost label = hb@.subrange(start as int, end as int);
        proof {
            assert(forall|i: int| 0 <= i < d ==> t[i] == hb@[start + i]);
            lemma_split_on_step(t, DOT, d);
            assert(t.take(d) =~= label);
            if end < n {
                assert(t.skip(d + 1) =~= hb@.skip(end + 1));
                assert(labels == done + (seq![label] + split_on(hb@.skip(end + 1), DOT)));
                assert(labels[done.len() as int] == label);
            } else {
                assert(labels == done + seq![label]);
                assert(labels[done.len() as int] == label);
            }
        }
        let label_len = end - start;
        if label_len > 255 {
            proof {
                assert(!host_encodable(hb@));
            }
            return None;
        }
        if pos + 1 + label_len > 255 {
            proof {
                let rest = split_on(hb@.skip(start as int), DOT);
                lemma_encode_body_concat(done, rest);
                assert(encode_body(rest).len() >= 1 + label.len()) by {
                    assert(rest[0] == label);
                    assert(encode_body(rest) == seq![label.len() as u8] + label + encode_body(
                        rest.drop_first(),
                    ));
                }
                assert(encode_labels(labels).len() > 256);
            }
            return None;
        }
        key[pos] = label_len as u8;
        let ghost mid = key@;
        proof {
            assert(forall|m: int| 0 <= m < pos ==> mid[m] == encode_body(done)[m]);
            assert(mid[pos as int] == label_len as u8);
            assert(forall|m: int| pos < m < 256 ==> mid[m] == 0u8);
        }
        for i in 0..label_len
            invariant
                n == hb@.len(),
                start + label_len <= n,
                pos + 1 + label_len <= 256,
                forall|m: int| 0 <= m <= pos ==> key@[m] == mid[m],
                forall|m: int| 0 <= m < i ==> #[trigger] key@[pos + 1 + m] == hb@[start + m],
                forall|m: int| pos + 1 + i <= m < 256 ==> key@[m] == 0u8,
        {
            key[pos + 1 + i] = *slice_index_get(hb, start + i);
        }
        proof {
            let done2 = done + seq![label];
            lemma_encode_body_concat(done, seq![label]);
            assert(seq![label][0] == label);
            assert(seq![label].drop_first() =~= Seq::<Seq<u8>>::empty());
            assert(encode_body(seq![label]) == seq![label.len() as u8] + label + encode_body(
                seq![label].drop_first(),
            ));
            assert(encode_body(seq![label]) =~= seq![label.len() as u8] + label);
            let eb2 = encode_body(done2);
            assert(eb2 == encode_body(done) + (seq![label.len() as u8] + label));
            assert(eb2.len() == pos + 1 + label.len());
            assert forall|m: int| 0 <= m < pos + 1 + label.len() implies key@[m] == eb2[m] by {
                if m < pos {
                    assert(key@[m] == mid[m]);
                    assert(eb2[m] == encode_body(done)[m]);
                } else if m == pos {
                    assert(key@[m] == mid[m]);
                    assert(eb2[m] == (seq![label.len() as u8] + label)[m - pos]);
                } else {
                    assert(key@[pos + 1 + (m - pos - 1)] == hb@[start + (m - pos - 1)]);
                    assert(eb2[m] == (seq![label.len() as u8] + label)[m - pos]);
                    assert((seq![label.len() as u8] + label)[m - pos] == label[m - pos - 1]);
                    assert(label[m - pos - 1] == hb@[start + (m - pos - 1)]);
                }
            }
            done = done2;
        }
        pos = pos + 1 + label_len;
        if end == n {
            break ;
        }
        start = end + 1;
        proof {
            assert(labels == done + split_on(hb@.skip(start as int), DOT));
        }
    }
    proof {
        let enc = encode_labels(labels);
        assert(enc.len() == pos + 1);
        assert forall|m: int| 0 <= m < 256 implies key@[m] == padded_256(enc)[m] by {
            if m < pos {
                assert(enc[m] == encode_body(done)[m]);
            } else if m == pos {
                assert(enc[m] == seq![0u8][0]);
            }
        }
        assert(key@ =~= padded_256(enc));
        assert(host_encodable(hb@));
    }
    Some(key)
}

/// Parses a dotted decimal quad: `Some` exactly when there are four fields,
/// each a nonempty digit run no more than 255.
fn parse_ipv4(pb: &[u8]) -> (r: Option<[u8; 4]>)
    ensures
        r is Some <==> valid_ipv4(pb@),
        r matches Some(a) ==> a@ == ipv4_bytes(pb@),
{
    let n = pb.len();
    let mut out = [0u8; 4];
    let mut start: usize = 0;
    let mut idx: usize = 0;
    let ghost parts = split_on(pb@, DOT);
    proof {
        assert(pb@.skip(0) =~= pb@);
        assert(parts.skip(0) =~= split_on(pb@.skip(0), DOT));
    }
    loop
        invariant_except_break
            n == pb@.len(),
            start <= n,
            idx <= 4,
            parts == split_on(pb@, DOT),
            idx <= parts.len(),
            parts.skip(idx as int) == split_on(pb@.skip(start as int), DOT),
            forall|m: int|
                0 <= m < idx ==> is_dec_u8(#[trigger] parts[m]) && out@[m] as int == dec_value(
                    parts[m],
                ),
        ensures
            idx <= 4,
            parts == split_on(pb@, DOT),
            idx == parts.len(),
            forall|m: int|
                0 <= m < idx ==> is_dec_u8(#[trigger] parts[m]) && out@[m] as int == dec_value(
                    parts[m],
                ),
        decreases n - start,
    {
        let mut end = start;
        while end < n && *slice_index_get(pb, end) != DOT
            invariant
                n == pb@.len(),
                start <= end <= n,
                forall|m: int| start <= m < end ==> pb@[m] != DOT,
            decreases n - end,
        {
            end = end + 1;
        }
        let ghost t = pb@.skip(start as int);
        let ghost d = end - start;
        let ghost tok = pb@.subrange(start as int, end as int);
        proof {
            assert(forall|i: int| 0 <= i < d ==> t[i] == pb@[start + i]);
            lemma_split_on_step(t, DOT, d);
            assert(t.take(d) =~= tok);
            if end < n {
                assert(t.skip(d + 1) =~= pb@.skip(end + 1));
                let x = split_on(pb@.skip(end + 1), DOT);
                assert(parts.skip(idx as int) == seq![tok] + x);
                assert(parts.skip(idx as int).len() == parts.len() - idx);
                assert(parts.len() == idx + 1 + x.len());
                assert(parts.skip(idx as int)[0] == tok);
                assert(parts[idx as int] == tok);
                assert forall|k: int| 0 <= k < x.len() implies parts.skip(idx + 1)[k] == x[k] by {
                    assert(parts.skip(idx as int)[k + 1] == x[k]);
                    assert(parts.skip(idx + 1)[k] == parts[idx + 1 + k]);
                    assert(parts.skip(idx as int)[k + 1] == parts[idx + 1 + k]);
                }
                assert(parts.skip(idx + 1) =~= x);
                assert(parts.len() > idx + 1);
            } else {
                assert(parts.skip(idx as int) == seq![tok]);
                assert(parts.skip(idx as int)[0] == tok);
                assert(parts[idx as int] == tok);
                assert(parts.len() == idx + 1);
            }
        }
        if idx == 4 {
            proof {
                assert(parts.len() >= 5);
            }
            return None;
        }
        let v = match parse_dec_u8(pb, start, end) {
            Some(v) => v,
            None => {
                proof {
                    assert(!is_dec_u8(parts[idx as int]));
                }
                return None;
            },
        };
        out[idx] = v;
        idx = idx + 1;
        if end == n {
            break ;
        }
        start = end + 1;
    }
    if idx != 4 {
        return None;
    }
    proof {
        assert(out@ =~= ipv4_bytes(pb@));
    }
    Some(out)
}

/// `input` cut or zero-padded to exactly 256 bytes.
pub fn to_256(input: &[u8]) -> (r: [u8; 256])
    ensures
        r@ == padded_256(input@),
{
    let mut out = [0u8; 256];
    let n = if input.len() < 256 {
        input.len()
    } else {
        256
    };
    for i in 0..n
        invariant
            n <= 256,
            n <= input@.len(),
            forall|m: int| 0 <= m < i ==> out@[m] == input@[m],
            forall|m: int| i <= m < 256 ==> out@[m] == 0u8,
    {
        out[i] = *slice_index_get(input, i);
    }
    proof {
        assert(out@ =~= padded_256(input@));
    }
    out
}

/// Builds one table entry from a dotted hostname and a dotted decimal quad:
/// the 256-byte zero-padded wire-encoded name key and the 4 address bytes.
/// `None` exactly when the name cannot be encoded or the quad is malformed.
pub fn gen(host: &str, ip: &str) -> (r: Option<([u8; 256], [u8; 4])>)
    ensures
        r is Some <==> host_encodable(host.spec_bytes()) && valid_ipv4(ip.spec_bytes()),
        r matches Some(e) ==> e.0@ == host_key(host.spec_bytes()) && e.1@ == ipv4_bytes(
            ip.spec_bytes(),
        ),
{
    let key = match encode_host(host.as_bytes()) {
        Some(k) => k,
        None => {
            return None;
        },
    };
    let addr = match parse_ipv4(ip.as_bytes()) {
        Some(a) => a,
        None => {
            return None;
        },
    };
    Some((key, addr))
}

/// The space.
pub const SPACE: u8 = 32;

/// First index at or after `i` whose byte is not a space, or the end.
pub open spec fn next_non_space(s: Seq<u8>, i: int) -> int
    recommends
        0 <= i <= s.len(),
    decreases s.len() - i,
{
    if i < 0 || i >= s.len() {
        s.len() as int
    } else if s[i] != SPACE {
        i
    } else {
        next_non_space(s, i + 1)
    }
}

/// First index at or after `i` whose byte is a space, or the end.
pub open spec fn next_space(s: Seq<u8>, i: int) -> int
    recommends
        0 <= i <= s.len(),
    decreases s.len() - i,
{
    if i < 0 || i >= s.len() {
        s.len() as int
    } else if s[i] == SPACE {
        i
    } else {
        next_space(s, i + 1)
    }
}

/// The entry one config line carries: its first space-separated token (the
/// address) and its second (the hostname), or nothing for a blank line, a
/// line starting with `#`, or a line of fewer than two tokens. Tokens past
/// the second carry nothing.
pub open spec fn line_entry(s: Seq<u8>) -> Option<(Seq<u8>, Seq<u8>)> {
    if s.len() == 0 || s[0] == 35 {
        None
    } else {
        let a = next_non_space(s, 0);
        if a >= s.len() {
            None
        } else {
            let b = next_space(s, a);
            let c = next_non_space(s, b);
            if c >= s.len() {
                None
            } else {
                let d = next_space(s, c);
                Some((s.subrange(a, b), s.subrange(c, d)))
            }
        }
    }
}

/// A scan that stops at the first non-space finds `next_non_space`.
proof fn lemma_next_non_space(s: Seq<u8>, i: int, k: int)
    requires
        0 <= i <= k <= s.len(),
        forall|m: int| i <= m < k ==> s[m] == SPACE,
        k < s.len() ==> s[k] != SPACE,
    ensures
        next_non_space(s, i) == k,
    decreases k - i,
{
    if i < k {
        lemma_next_non_space(s, i + 1, k);
    }
}

/// A scan that stops at the first space finds `next_space`.
proof fn lemma_next_space(s: Seq<u8>, i: int, k: int)
    requires
        0 <= i <= k <= s.len(),
        forall|m: int| i <= m < k ==> s[m] != SPACE,
        k < s.len() ==> s[k] == SPACE,
    ensures
        next_space(s, i) == k,
    decreases k - i,
{
    if i < k {
        lemma_next_space(s, i + 1, k);
    }
}

/// Reads one config line: `None` for a blank line, a comment line (leading
/// `#`), a line of fewer than two tokens, or an entry whose hostname or
/// address [`gen`] would reject; otherwise the entry built from the line's
/// first token (the address) and second token (the hostname).
pub fn parse_line(line: &str) -> (r: Option<([u8; 256], [u8; 4])>)
    ensures
        match line_entry(line.spec_bytes()) {
            None => r is None,
            Some(toks) => {
                &&& (r is Some <==> host_encodable(toks.1) && valid_ipv4(toks.0))
                &&& (r matches Some(e) ==> e.0@ == host_key(toks.1) && e.1@ == ipv4_bytes(toks.0))
            },
        },
{
    let lb = line.as_bytes();
    let n = lb.len();
    if n == 0 {
        return None;
    }
    if *slice_index_get(lb, 0) == 35 {
        return None;
    }
    let mut a: usize = 0;
    while a < n && *slice_index_get(lb, a) == SPACE
        invariant
            n == lb@.len(),
            a <= n,
            forall|m: int| 0 <= m < a ==> lb@[m] == SPACE,
        decreases n - a,
    {
        a = a + 1;
    }
    proof {
        lemma_next_non_space(lb@, 0, a as int);
    }
    if a == n {
        return None;
    }
    let mut b = a;
    while b < n && *slice_index_get(lb, b) != SPACE
        invariant
            n == lb@.len(),
            a <= b <= n,
            forall|m: int| a <= m < b ==> lb@[m] != SPACE,
        decreases n - b,
    {
        b = b + 1;
    }
    proof {
        lemma_next_space(lb@, a as int, b as int);
    }
    let mut c = b;
    while c < n && *slice_index_get(lb, c) == SPACE
        invariant
            n == lb@.len(),
            b <= c <= n,
            forall|m: int| b <= m < c ==> lb@[m] == SPACE,
        decreases n - c,
    {
        c = c + 1;
    }
    proof {
        lemma_next_non_space(lb@, b as int, c as int);
    }
    if c == n {
        return None;
    }
    let mut d = c;
    while d < n && *slice_index_get(lb, d) != SPACE
        invariant
            n == lb@.len(),
            c <= d <= n,
            forall|m: int| c <= m < d ==> lb@[m] != SPACE,
        decreases n - d,
    {
        d = d + 1;
    }
    proof {
        lemma_next_space(lb@, c as int, d as int);
    }
    let ip_tok = slice_subrange(lb, a, b);
    let host_tok = slice_subrange(lb, c, d);
    let key = match encode_host(host_tok) {
        Some(k) => k,
        None => {
            return None;
        },
    };
    let addr = match parse_ipv4(ip_tok) {
        Some(v) => v,
        None => {
            return None;
        },
    };
    Some((key, addr))
}

} // verus!
