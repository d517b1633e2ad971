//! Unsigned LEB128 varints: the decoder used by every reader of the
//! automaton format and the encoder used by the builders.

use vstd::prelude::*;

verus! {

/// Decoding state of an unsigned LEB128 read at position `p`, having
/// accumulated `acc` from the bytes before it at bit offset `shift`.
/// A read is `None` when it runs off the end of `b` or needs more than
/// ten bytes (the shift would reach 64).
pub open spec fn uvarint_rec(b: Seq<u8>, p: int, acc: u64, shift: u64) -> Option<(u64, int)>
    decreases 64 - shift,
{
    if shift >= 64 || p < 0 || p >= b.len() {
        None
    } else {
        let byte = b[p];
        let acc2 = acc | (((byte & 0x7f) as u64) << shift);
        if byte & 0x80 == 0 {
            Some((acc2, p + 1))
        } else if shift + 7 >= 64 {
            None
        } else {
            uvarint_rec(b, p + 1, acc2, (shift + 7) as u64)
        }
    }
}

/// The varint starting at byte `p` of `b`: its value and the position
/// just past it, or `None` when it is truncated or malformed.
pub open spec fn uvarint_at(b: Seq<u8>, p: int) -> Option<(u64, int)> {
    uvarint_rec(b, p, 0, 0)
}

/// The LEB128 encoding of `v`: seven bits per byte, least significant
/// group first, the high bit set on every byte but the last.
pub open spec fn uvarint_enc(v: u64) -> Seq<u8>
    decreases v,
{
    if v >> 7u64 == 0 {
        seq![(v & 0x7f) as u8]
    } else {
        proof {
            lemma_shr7_decreases(v);
        }
        seq![((v & 0x7f) | 0x80) as u8] + uvarint_enc(v >> 7u64)
    }
}

pub proof fn lemma_shr7_decreases(v: u64)
    ensures
        v >> 7u64 != 0 ==> v >> 7u64 < v,
{
    assert(v >> 7u64 != 0 ==> v >> 7u64 < v) by (bit_vector);
}

/// An encoding has between one and ten bytes.
pub proof fn lemma_uvarint_enc_len(v: u64)
    ensures
        1 <= uvarint_enc(v).len() <= 10,
        v <= 0x7f ==> uvarint_enc(v).len() == 1,
{
    assert(v <= 0x7f ==> v >> 7u64 == 0) by (bit_vector);
    assert(v <= u64::MAX >> 0u64) by (bit_vector);
    lemma_enc_len_shift(v, 0);
}

/// Bytes of the encoding of `v` needed when `v` fits in `64 - shift` bits.
proof fn lemma_enc_len_shift(v: u64, shift: u64)
    requires
        shift <= 63,
        shift % 7 == 0,
        v <= u64::MAX >> shift,
    ensures
        uvarint_enc(v).len() * 7 + shift <= 70,
    decreases v,
{
    if v >> 7u64 != 0 {
        lemma_shr7_decreases(v);
        assert(v >> 7u64 != 0 && v <= u64::MAX >> shift && shift <= 63 ==> shift + 7 <= 63)
            by (bit_vector);
        assert(v <= u64::MAX >> shift && shift + 7 <= 63 ==> v >> 7u64 <= u64::MAX >> ((shift
            + 7) as u64)) by (bit_vector);
        lemma_enc_len_shift(v >> 7u64, (shift + 7) as u64);
    }
}

/// Decoding an encoding placed at `p` gives the value back and ends
/// right after it, whatever follows.
pub proof fn lemma_uvarint_roundtrip(b: Seq<u8>, p: int, v: u64)
    requires
        0 <= p,
        p + uvarint_enc(v).len() <= b.len(),
        b.subrange(p, p + uvarint_enc(v).len()) == uvarint_enc(v),
    ensures
        uvarint_at(b, p) == Some((v, p + uvarint_enc(v).len())),
{
    assert(v <= u64::MAX >> 0u64 && 0u64 < 1u64 << 0u64) by (bit_vector);
    lemma_roundtrip_rec(b, p, v, 0, 0);
    assert(0u64 | (v << 0u64) == v) by (bit_vector);
}

proof fn lemma_roundtrip_rec(b: Seq<u8>, p: int, v: u64, acc: u64, shift: u64)
    requires
        0 <= p,
        p + uvarint_enc(v).len() <= b.len(),
        b.subrange(p, p + uvarint_enc(v).len()) == uvarint_enc(v),
        shift <= 63,
        v <= u64::MAX >> shift,
        acc < 1u64 << shift,
    ensures
        uvarint_rec(b, p, acc, shift) == Some((acc | (v << shift), p + uvarint_enc(v).len())),
    decreases v,
{
    let e = uvarint_enc(v);
    assert(b[p] == e[0]);
    if v >> 7u64 == 0 {
        let byte = (v & 0x7f) as u8;
        assert(e[0] == byte);
        assert(v >> 7u64 == 0 ==> (v & 0x7f) as u8 & 0x80 == 0 && ((((v & 0x7f) as u8) & 0x7f)
            as u64) << shift == v << shift) by (bit_vector);
    } else {
        let byte = ((v & 0x7f) | 0x80) as u8;
        assert(e[0] == byte);
        lemma_shr7_decreases(v);
        assert(v >> 7u64 != 0 && v <= u64::MAX >> shift && shift <= 63 ==> shift + 7 <= 63)
            by (bit_vector);
        let acc2 = acc | ((((byte & 0x7f) as u8) as u64) << shift);
        assert(((((v & 0x7f) | 0x80) as u8) & 0x80) != 0 && ((((((v & 0x7f) | 0x80) as u8)
            & 0x7f) as u8) as u64) == v & 0x7f) by (bit_vector);
        assert(v <= u64::MAX >> shift && shift + 7 <= 63 ==> v >> 7u64 <= u64::MAX >> ((shift
            + 7) as u64)) by (bit_vector);
        assert(acc < 1u64 << shift && shift + 7 <= 63 ==> (acc | ((v & 0x7f) << shift)) < 1u64
            << ((shift + 7) as u64)) by (bit_vector);
        assert(shift + 7 <= 63 ==> (acc | ((v & 0x7f) << shift)) | ((v >> 7u64) << ((shift
            + 7) as u64)) == acc | (v << shift)) by (bit_vector);
        let rest = uvarint_enc(v >> 7u64);
        assert(e == seq![byte] + rest);
        assert(b.subrange(p + 1, p + 1 + rest.len()) == rest) by {
            assert forall|i: int| 0 <= i < rest.len() implies b.subrange(
                p + 1,
                p + 1 + rest.len(),
            )[i] == rest[i] by {
                assert(b.subrange(p, p + e.len())[i + 1] == e[i + 1]);
            }
        }
        lemma_roundtrip_rec(b, p + 1, v >> 7u64, acc | ((v & 0x7f) << shift), (shift + 7) as u64);
    }
}

/// Reads an unsigned LEB128 starting at `*p`, advancing `*p` past it.
/// Returns `None` if the varint runs off the end of `b` or is longer
/// than ten bytes, so a corrupt buffer degrades instead of panicking.
pub fn rd_uvarint(b: &[u8], p: &mut usize) -> (r: Option<u64>)
    ensures
        match uvarint_at(b@, *old(p) as int) {
            None => r is None,
            Some((v, q)) => r == Some(v) && *final(p) as int == q,
        },
{
    let ghost p0 = *p as int;
    let mut v: u64 = 0;
    let mut shift: u64 = 0;
    loop
        invariant
            p0 == *old(p) as int,
            shift < 64,
            shift % 7 == 0,
            uvarint_at(b@, p0) == uvarint_rec(b@, *p as int, v, shift),
        decreases 64 - shift,
    {
        if *p >= b.len() {
            return None;
        }
        let byte = b[*p];
        assert(byte == b@[*p as int]);
        let ghost pp = *p as int;
        let ghost v_before = v;
        *p = *p + 1;
        v = v | (((byte & 0x7f) as u64) << shift);
        assert(uvarint_rec(b@, pp, v_before, shift) == if byte & 0x80 == 0 {
            Some((v, pp + 1))
        } else if shift + 7 >= 64 {
            None
        } else {
            uvarint_rec(b@, pp + 1, v, (shift + 7) as u64)
        });
        if byte & 0x80 == 0 {
            return Some(v);
        }
        if shift + 7 >= 64 {
            return None;
        }
        shift = shift + 7;
    }
}

/// Appends the unsigned LEB128 encoding of `v` to `out`.
pub fn write_uvarint(out: &mut Vec<u8>, v: u64)
    ensures
        final(out)@ == old(out)@ + uvarint_enc(v),
{
    let ghost v0 = v;
    let ghost start = out@;
    let mut v = v;
    loop
        invariant_except_break
            start + uvarint_enc(v0) == out@ + uvarint_enc(v),
        ensures
            out@ == start + uvarint_enc(v0),
        decreases v,
    {
        let mut byte: u8 = (v & 0x7f) as u8;
        let ghost vv = v;
        v = v >> 7;
        if v != 0 {
            byte = byte | 0x80;
        }
        proof {
            lemma_shr7_decreases(vv);
            assert(vv >> 7u64 != 0 ==> (((vv & 0x7f) as u8) | 0x80) as u8 == ((vv & 0x7f) | 0x80)
                as u8) by (bit_vector);
        }
        let ghost before = out@;
        out.push(byte);
        if v == 0 {
            assert(uvarint_enc(vv) == seq![byte]);
            assert(out@ == before + uvarint_enc(vv));
            break;
        }
        assert(uvarint_enc(vv) == seq![byte] + uvarint_enc(v));
        assert(before + uvarint_enc(vv) == out@ + uvarint_enc(v));
    }
}

} // verus!

verus! {

/// A varint read ends after where it started and within the buffer.
pub proof fn lemma_uvarint_at_bound(b: Seq<u8>, p: int)
    ensures
        uvarint_at(b, p) matches Some((v, q)) ==> p < q <= b.len(),
{
    lemma_uvarint_rec_bound(b, p, 0, 0);
}

proof fn lemma_uvarint_rec_bound(b: Seq<u8>, p: int, acc: u64, shift: u64)
    ensures
        uvarint_rec(b, p, acc, shift) matches Some((v, q)) ==> p < q <= b.len(),
    decreases 64 - shift,
{
    if !(shift >= 64 || p < 0 || p >= b.len()) {
        let byte = b[p];
        let acc2 = acc | (((byte & 0x7f) as u64) << shift);
        if byte & 0x80 != 0 && shift + 7 < 64 {
            lemma_uvarint_rec_bound(b, p + 1, acc2, (shift + 7) as u64);
        }
    }
}

} // verus!
