//! Bounded packet accessor.
//!
//! A frame is a byte buffer whose extent is known only for one invocation.
//! Every read and every write of the rewriter goes through the functions of
//! this module: each returns "insufficient data" (`None`, or `false` for the
//! write form) instead of touching bytes beyond the buffer's end.

use vstd::prelude::*;

verus! {

/// The big-endian 16-bit value formed by the two bytes at `off`.
pub open spec fn be16(p: Seq<u8>, off: int) -> u16
    recommends
        0 <= off,
        off + 2 <= p.len(),
{
    (p[off] * 0x100 + p[off + 1]) as u16
}

/// Read form of the accessor, one byte: `Some` exactly when the byte lies
/// within the buffer.
pub fn read_u8(p: &Vec<u8>, off: usize) -> (r: Option<u8>)
    ensures
        off + 1 <= p@.len() ==> r == Some(p@[off as int]),
        off + 1 > p@.len() ==> r is None,
{
    if off < p.len() {
        Some(p[off])
    } else {
        None
    }
}

/// Read form of the accessor, two bytes taken big-endian: `Some` exactly when
/// both bytes lie within the buffer.
pub fn read_u16_be(p: &Vec<u8>, off: usize) -> (r: Option<u16>)
    ensures
        off + 2 <= p@.len() ==> r == Some(be16(p@, off as int)),
        off + 2 > p@.len() ==> r is None,
{
    if p.len() >= 2 && off <= p.len() - 2 {
        let hi = p[off];
        let lo = p[off + 1];
        Some(hi as u16 * 0x100 + lo as u16)
    } else {
        None
    }
}

/// Write form of the accessor, one byte: the buffer changes only when the
/// byte lies within it, and then only at `off`.
pub fn write_u8(p: &mut Vec<u8>, off: usize, v: u8) -> (r: bool)
    ensures
        r <==> off + 1 <= old(p)@.len(),
        r ==> final(p)@ == old(p)@.update(off as int, v),
        !r ==> final(p)@ == old(p)@,
{
    if off < p.len() {
        p.set(off, v);
        true
    } else {
        false
    }
}

} // verus!
