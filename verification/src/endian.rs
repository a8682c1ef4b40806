//! Big-endian byte encodings of unsigned integers.
use vstd::prelude::*;

verus! {

/// The big-endian bytes of a 32-bit value.
#[verifier::opaque]
pub open spec fn u32_be(v: u32) -> Seq<u8> {
    seq![
        (v / 0x1000000) as u8,
        ((v / 0x10000) % 0x100) as u8,
        ((v / 0x100) % 0x100) as u8,
        (v % 0x100) as u8,
    ]
}

/// The 32-bit value whose big-endian bytes are the first four of `b`.
pub open spec fn u32_of_be(b: Seq<u8>) -> u32 {
    (b[0] * 0x1000000 + b[1] * 0x10000 + b[2] * 0x100 + b[3]) as u32
}

/// Encodes `v` as four big-endian bytes.
pub fn u32_to_be_bytes(v: u32) -> (res: [u8; 4])
    ensures
        res@ == u32_be(v),
{
    let b0 = (v >> 24) as u8;
    let b1 = ((v >> 16) & 0xff) as u8;
    let b2 = ((v >> 8) & 0xff) as u8;
    let b3 = (v & 0xff) as u8;
    assert(b0 == (v / 0x1000000) as u8) by (bit_vector)
        requires b0 == (v >> 24) as u8;
    assert(b1 == ((v / 0x10000) % 0x100) as u8) by (bit_vector)
        requires b1 == ((v >> 16) & 0xff) as u8;
    assert(b2 == ((v / 0x100) % 0x100) as u8) by (bit_vector)
        requires b2 == ((v >> 8) & 0xff) as u8;
    assert(b3 == (v % 0x100) as u8) by (bit_vector)
        requires b3 == (v & 0xff) as u8;
    let res = [b0, b1, b2, b3];
    proof {
        reveal(u32_be);
    }
    assert(res@ =~= u32_be(v));
    res
}

/// Decodes four big-endian bytes.
pub fn u32_from_be_bytes(b: [u8; 4]) -> (res: u32)
    ensures
        res == u32_of_be(b@),
{
    let b0 = b[0];
    let b1 = b[1];
    let b2 = b[2];
    let b3 = b[3];
    let res = ((b0 as u32) << 24) | ((b1 as u32) << 16) | ((b2 as u32) << 8) | (b3 as u32);
    assert(res == (b0 * 0x1000000 + b1 * 0x10000 + b2 * 0x100 + b3) as u32) by (bit_vector)
        requires res == ((b0 as u32) << 24) | ((b1 as u32) << 16) | ((b2 as u32) << 8) | (b3 as u32);
    res
}

/// Decoding the encoding of a value gives the value back.
pub proof fn lemma_u32_be_roundtrip(v: u32)
    ensures
        u32_of_be(u32_be(v)) == v,
        u32_be(v).len() == 4,
{
    reveal(u32_be);
    assert(((v / 0x1000000) as u8) * 0x1000000 + (((v / 0x10000) % 0x100) as u8) * 0x10000
        + (((v / 0x100) % 0x100) as u8) * 0x100 + ((v % 0x100) as u8) == v) by (nonlinear_arith);
}

/// The big-endian bytes of a 64-bit value.
#[verifier::opaque]
pub open spec fn u64_be(v: u64) -> Seq<u8> {
    u32_be((v / 0x1_0000_0000) as u32) + u32_be((v % 0x1_0000_0000) as u32)
}

/// The 64-bit value whose big-endian bytes are the first eight of `b`.
pub open spec fn u64_of_be(b: Seq<u8>) -> u64 {
    (u32_of_be(b.subrange(0, 4)) * 0x1_0000_0000 + u32_of_be(b.subrange(4, 8))) as u64
}

/// Encodes `v` as eight big-endian bytes.
pub fn u64_to_be_bytes(v: u64) -> (res: [u8; 8])
    ensures
        res@ == u64_be(v),
{
    let hi = (v >> 32) as u32;
    let lo = (v & 0xffff_ffff) as u32;
    assert(hi == (v / 0x1_0000_0000) as u32) by (bit_vector)
        requires hi == (v >> 32) as u32;
    assert(lo == (v % 0x1_0000_0000) as u32) by (bit_vector)
        requires lo == (v & 0xffff_ffff) as u32;
    let h = u32_to_be_bytes(hi);
    let l = u32_to_be_bytes(lo);
    let res = [h[0], h[1], h[2], h[3], l[0], l[1], l[2], l[3]];
    proof {
        lemma_u32_be_roundtrip(hi);
        lemma_u32_be_roundtrip(lo);
        reveal(u64_be);
    }
    assert(res@ =~= u64_be(v));
    res
}

/// Decodes eight big-endian bytes.
pub fn u64_from_be_bytes(b: [u8; 8]) -> (res: u64)
    ensures
        res == u64_of_be(b@),
{
    let hi = u32_from_be_bytes([b[0], b[1], b[2], b[3]]);
    let lo = u32_from_be_bytes([b[4], b[5], b[6], b[7]]);
    assert(b@.subrange(0, 4) =~= seq![b[0], b[1], b[2], b[3]]);
    assert(b@.subrange(4, 8) =~= seq![b[4], b[5], b[6], b[7]]);
    let res = ((hi as u64) << 32) | (lo as u64);
    assert(res == (hi * 0x1_0000_0000 + lo) as u64) by (bit_vector)
        requires res == ((hi as u64) << 32) | (lo as u64);
    res
}

/// Decoding the encoding of a 64-bit value gives the value back.
pub proof fn lemma_u64_be_roundtrip(v: u64)
    ensures
        u64_of_be(u64_be(v)) == v,
        u64_be(v).len() == 8,
{
    let hi = (v / 0x1_0000_0000) as u32;
    let lo = (v % 0x1_0000_0000) as u32;
    lemma_u32_be_roundtrip(hi);
    lemma_u32_be_roundtrip(lo);
    reveal(u64_be);
    assert(u64_be(v).subrange(0, 4) =~= u32_be(hi));
    assert(u64_be(v).subrange(4, 8) =~= u32_be(lo));
    assert(hi * 0x1_0000_0000 + lo == v) by (nonlinear_arith)
        requires hi == (v / 0x1_0000_0000) as u32, lo == (v % 0x1_0000_0000) as u32;
}

/// The encoding of a 32-bit value has four bytes.
pub broadcast proof fn lemma_u32_be_len(a: u32)
    ensures
        #[trigger] u32_be(a).len() == 4,
{
    lemma_u32_be_roundtrip(a);
}

/// The encoding of a 64-bit value has eight bytes.
pub broadcast proof fn lemma_u64_be_len(b: u64)
    ensures
        #[trigger] u64_be(b).len() == 8,
{
    lemma_u64_be_roundtrip(b);
}

/// The lengths of the big-endian encodings.
pub broadcast group group_be_lengths {
    lemma_u32_be_len,
    lemma_u64_be_len,
}

} // verus!
