//! Reading big-endian integers off the front of a byte slice.
//!
//! The executable functions forward to `bytes::Buf` as implemented for
//! `&[u8]`. Each returns the value read together with the slice that is left,
//! which is what the cursor of the crate has moved to.

use bytes::Buf;
use vstd::prelude::*;

verus! {

/// The number that the bytes of `s` spell in big-endian order.
pub open spec fn big_endian(s: Seq<u8>) -> nat
    decreases s.len(),
{
    if s.len() == 0 {
        0
    } else {
        big_endian(s.drop_last()) * 256 + s.last() as nat
    }
}

/// The big-endian number in the two bytes of `s` that start at `i`.
pub open spec fn be16(s: Seq<u8>, i: int) -> int {
    s[i] as int * 0x100 + s[i + 1] as int
}

/// The big-endian number in the four bytes of `s` that start at `i`.
pub open spec fn be32(s: Seq<u8>, i: int) -> int {
    be16(s, i) * 0x1_0000 + be16(s, i + 2)
}

/// The big-endian number in the six bytes of `s` that start at `i`.
pub open spec fn be48(s: Seq<u8>, i: int) -> int {
    be16(s, i) * 0x1_0000_0000 + be32(s, i + 2)
}

/// `big_endian` of a two-byte prefix, written out.
pub proof fn lemma_big_endian_2(s: Seq<u8>)
    requires
        s.len() >= 2,
    ensures
        big_endian(s.take(2)) == be16(s, 0),
{
    let t = s.take(2);
    assert(t.drop_last().drop_last().len() == 0);
    assert(big_endian(t.drop_last().drop_last()) == 0);
    assert(big_endian(t.drop_last()) == t[0]);
}

/// `big_endian` of a four-byte prefix, written out.
pub proof fn lemma_big_endian_4(s: Seq<u8>)
    requires
        s.len() >= 4,
    ensures
        big_endian(s.take(4)) == be32(s, 0),
{
    let t = s.take(4);
    assert(t.drop_last().drop_last() =~= s.take(2));
    lemma_big_endian_2(s);
    assert(big_endian(t.drop_last()) == big_endian(s.take(2)) * 256 + t[2]);
}

/// `big_endian` of a six-byte prefix, written out.
pub proof fn lemma_big_endian_6(s: Seq<u8>)
    requires
        s.len() >= 6,
    ensures
        big_endian(s.take(6)) == be48(s, 0),
{
    let t = s.take(6);
    assert(t.drop_last().drop_last() =~= s.take(4));
    lemma_big_endian_4(s);
    assert(big_endian(t.drop_last()) == big_endian(s.take(4)) * 256 + t[4]);
}

/// Trusted: `Buf::get_u8` on a byte slice. It returns the first byte and
/// moves the slice past it; it panics on an empty slice.
#[verifier::external_body]
pub(crate) fn get_u8<'a>(buf: &'a [u8]) -> (r: (u8, &'a [u8]))
    requires
        buf@.len() >= 1,
    ensures
        r.0 == buf@[0],
        r.1@ == buf@.skip(1),
{
    let mut rest = buf;
    let v = rest.get_u8();
    (v, rest)
}

/// Trusted: `Buf::get_u16` on a byte slice. It reads two bytes in big-endian
/// order and moves the slice past them; it panics on a shorter slice.
#[verifier::external_body]
pub(crate) fn get_u16<'a>(buf: &'a [u8]) -> (r: (u16, &'a [u8]))
    requires
        buf@.len() >= 2,
    ensures
        r.0 as nat == big_endian(buf@.take(2)),
        r.1@ == buf@.skip(2),
{
    let mut rest = buf;
    let v = rest.get_u16();
    (v, rest)
}

/// Trusted: `Buf::get_u32` on a byte slice. It reads four bytes in big-endian
/// order and moves the slice past them; it panics on a shorter slice.
#[verifier::external_body]
pub(crate) fn get_u32<'a>(buf: &'a [u8]) -> (r: (u32, &'a [u8]))
    requires
        buf@.len() >= 4,
    ensures
        r.0 as nat == big_endian(buf@.take(4)),
        r.1@ == buf@.skip(4),
{
    let mut rest = buf;
    let v = rest.get_u32();
    (v, rest)
}

/// Trusted: `Buf::get_uint` on a byte slice. It reads `nbytes` bytes in
/// big-endian order and moves the slice past them; it panics on a shorter
/// slice and on more than eight bytes.
#[verifier::external_body]
pub(crate) fn get_uint<'a>(buf: &'a [u8], nbytes: usize) -> (r: (u64, &'a [u8]))
    requires
        nbytes <= 8,
        nbytes <= buf@.len(),
    ensures
        r.0 as nat == big_endian(buf@.take(nbytes as int)),
        r.1@ == buf@.skip(nbytes as int),
{
    let mut rest = buf;
    let v = rest.get_uint(nbytes);
    (v, rest)
}

/// Trusted: `Buf::advance` on a byte slice. It drops the first `cnt` bytes;
/// it panics where the slice holds fewer.
#[verifier::external_body]
pub(crate) fn advance<'a>(buf: &'a [u8], cnt: usize) -> (rest: &'a [u8])
    requires
        cnt <= buf@.len(),
    ensures
        rest@ == buf@.skip(cnt as int),
{
    let mut rest = buf;
    rest.advance(cnt);
    rest
}

} // verus!
