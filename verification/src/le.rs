//! Little-endian integer encodings shared by the binary formats.

use vstd::prelude::*;

verus! {

/// Little-endian bytes of a u16.
pub open spec fn le16(x: u16) -> Seq<u8> {
    seq![(x & 0xff) as u8, ((x >> 8u16) & 0xff) as u8]
}

/// Little-endian bytes of a u32.
pub open spec fn le32(x: u32) -> Seq<u8> {
    seq![
        (x & 0xff) as u8,
        ((x >> 8u32) & 0xff) as u8,
        ((x >> 16u32) & 0xff) as u8,
        ((x >> 24u32) & 0xff) as u8,
    ]
}

/// The u16 whose little-endian bytes start at `at`.
pub open spec fn u16_at(b: Seq<u8>, at: int) -> u16 {
    (b[at] as u16) | ((b[at + 1] as u16) << 8u16)
}

/// The u32 whose little-endian bytes start at `at`.
pub open spec fn u32_at(b: Seq<u8>, at: int) -> u32 {
    (b[at] as u32) | ((b[at + 1] as u32) << 8u32) | ((b[at + 2] as u32) << 16u32) | ((b[at
        + 3] as u32) << 24u32)
}

/// The u32 whose low three little-endian bytes start at `at` (a u24).
pub open spec fn u24_at(b: Seq<u8>, at: int) -> u32 {
    (b[at] as u32) | ((b[at + 1] as u32) << 8u32) | ((b[at + 2] as u32) << 16u32)
}

pub proof fn lemma_le16_round_trip(x: u16)
    ensures
        u16_at(le16(x), 0) == x,
{
    assert(((x & 0xff) as u8 as u16) | ((((x >> 8u16) & 0xff) as u8 as u16) << 8u16) == x)
        by (bit_vector);
}

pub proof fn lemma_le32_round_trip(x: u32)
    ensures
        u32_at(le32(x), 0) == x,
        x < 0x100_0000 ==> u24_at(le32(x), 0) == x,
        u24_at(le32(x), 0) == x & 0xff_ffff,
{
    let s = le32(x);
    assert(((x & 0xff) as u8 as u32) | ((((x >> 8u32) & 0xff) as u8 as u32) << 8u32) | ((((x
        >> 16u32) & 0xff) as u8 as u32) << 16u32) | ((((x >> 24u32) & 0xff) as u8 as u32)
        << 24u32) == x) by (bit_vector);
    assert(((x & 0xff) as u8 as u32) | ((((x >> 8u32) & 0xff) as u8 as u32) << 8u32) | ((((x
        >> 16u32) & 0xff) as u8 as u32) << 16u32) == x & 0xff_ffff) by (bit_vector);
    assert(x < 0x100_0000 ==> x & 0xff_ffff == x) by (bit_vector);
}

/// Reading a u16 / u32 back from where its bytes were placed.
pub proof fn lemma_u16_at_placed(b: Seq<u8>, at: int, x: u16)
    requires
        0 <= at,
        at + 2 <= b.len(),
        b.subrange(at, at + 2) == le16(x),
    ensures
        u16_at(b, at) == x,
{
    lemma_le16_round_trip(x);
    assert(b[at] == le16(x)[0] && b[at + 1] == le16(x)[1]) by {
        assert(b.subrange(at, at + 2)[0] == b[at]);
        assert(b.subrange(at, at + 2)[1] == b[at + 1]);
    }
}

pub proof fn lemma_u32_at_placed(b: Seq<u8>, at: int, x: u32)
    requires
        0 <= at,
        at + 4 <= b.len(),
        b.subrange(at, at + 4) == le32(x),
    ensures
        u32_at(b, at) == x,
        u24_at(b, at) == x & 0xff_ffff,
{
    lemma_le32_round_trip(x);
    assert(b[at] == le32(x)[0] && b[at + 1] == le32(x)[1] && b[at + 2] == le32(x)[2] && b[at
        + 3] == le32(x)[3]) by {
        assert(b.subrange(at, at + 4)[0] == b[at]);
        assert(b.subrange(at, at + 4)[1] == b[at + 1]);
        assert(b.subrange(at, at + 4)[2] == b[at + 2]);
        assert(b.subrange(at, at + 4)[3] == b[at + 3]);
    }
}

/// Appends the little-endian bytes of `x`.
pub fn push_u16(out: &mut Vec<u8>, x: u16)
    ensures
        final(out)@ == old(out)@ + le16(x),
{
    out.push((x & 0xff) as u8);
    out.push(((x >> 8u16) & 0xff) as u8);
    assert(final_view(out@) =~= old(out)@ + le16(x));
}

/// Appends the little-endian bytes of `x`.
pub fn push_u32(out: &mut Vec<u8>, x: u32)
    ensures
        final(out)@ == old(out)@ + le32(x),
{
    out.push((x & 0xff) as u8);
    out.push(((x >> 8u32) & 0xff) as u8);
    out.push(((x >> 16u32) & 0xff) as u8);
    out.push(((x >> 24u32) & 0xff) as u8);
    assert(final_view(out@) =~= old(out)@ + le32(x));
}

/// Identity, to name the current contents in an assertion.
pub open spec fn final_view(s: Seq<u8>) -> Seq<u8> {
    s
}

/// The u16 at `at` of `b`.
pub fn read_u16(b: &[u8], at: usize) -> (r: u16)
    requires
        at + 2 <= b@.len(),
    ensures
        r == u16_at(b@, at as int),
{
    (b[at] as u16) | ((b[at + 1] as u16) << 8u16)
}

/// The u32 at `at` of `b`.
pub fn read_u32(b: &[u8], at: usize) -> (r: u32)
    requires
        at + 4 <= b@.len(),
    ensures
        r == u32_at(b@, at as int),
{
    (b[at] as u32) | ((b[at + 1] as u32) << 8u32) | ((b[at + 2] as u32) << 16u32) | ((b[at
        + 3] as u32) << 24u32)
}

/// The u24 at `at` of `b`.
pub fn read_u24(b: &[u8], at: usize) -> (r: u32)
    requires
        at + 3 <= b@.len(),
    ensures
        r == u24_at(b@, at as int),
{
    (b[at] as u32) | ((b[at + 1] as u32) << 8u32) | ((b[at + 2] as u32) << 16u32)
}

} // verus!
