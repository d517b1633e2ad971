//! The last phase of the automaton build: writing the canonical states
//! into the byte format the reader walks. States go out in creation
//! order, which puts every target before the states pointing at it, so
//! each transition is a backward distance.

use vstd::prelude::*;

use crate::fsa::canon::{canon_ok, state_ok, trans_total, CanonState};
use crate::fsa::varint::{lemma_uvarint_enc_len, uvarint_enc, write_uvarint};

verus! {

/// Flags byte of a state: bit 0 for accepting, bit 1 for the
/// single-transition form.
pub open spec fn flag_byte(f: bool, single: bool) -> u8 {
    ((if f {
        1int
    } else {
        0int
    }) + (if single {
        2int
    } else {
        0int
    })) as u8
}

/// The transition records `i..` of state `c` in the multi form:
/// label, backward distance, and the target's number of keys.
pub open spec fn enc_recs(t: Seq<CanonState>, num: Seq<u64>, off: Seq<u32>, c: int, i: int) -> Seq<
    u8,
>
    decreases t[c].trans@.len() - i,
{
    if 0 <= i < t[c].trans@.len() {
        let d = t[c].trans@[i].1 as int;
        seq![t[c].trans@[i].0] + uvarint_enc((off[c] - off[d]) as u64) + uvarint_enc(num[d])
            + enc_recs(t, num, off, c, i + 1)
    } else {
        Seq::empty()
    }
}

/// The bytes of state `c` when the states sit at the offsets `off`.
pub open spec fn enc_state(t: Seq<CanonState>, num: Seq<u64>, off: Seq<u32>, c: int) -> Seq<u8> {
    let st = t[c];
    if st.trans@.len() == 1 {
        let d = st.trans@[0].1 as int;
        seq![flag_byte(st.final_, true), st.trans@[0].0] + uvarint_enc((off[c] - off[d]) as u64)
    } else {
        seq![flag_byte(st.final_, false)] + uvarint_enc(st.trans@.len() as u64) + enc_recs(
            t,
            num,
            off,
            c,
            0,
        )
    }
}

/// `s` sits in `b` at `at`.
pub open spec fn placed(b: Seq<u8>, at: int, s: Seq<u8>) -> bool {
    0 <= at && at + s.len() <= b.len() && b.subrange(at, at + s.len()) == s
}

/// The first `n` states are written in `blob` at the increasing offsets
/// `off`.
pub open spec fn blob_ok(t: Seq<CanonState>, num: Seq<u64>, off: Seq<u32>, blob: Seq<u8>, n: int) -> bool {
    &&& off.len() == n
    &&& forall|c: int| 0 <= c < n ==> placed(blob, off[c] as int, #[trigger] enc_state(t, num, off, c))
    &&& forall|c1: int, c2: int| 0 <= c1 < c2 < n ==> #[trigger] off[c1] < #[trigger] off[c2]
}

/// A state's bytes depend only on the offsets of it and its targets.
proof fn lemma_enc_state_prefix(t: Seq<CanonState>, num: Seq<u64>, off: Seq<u32>, off2: Seq<u32>, c: int)
    requires
        state_ok(t, c),
        c < off.len() <= off2.len(),
        forall|j: int| 0 <= j < off.len() ==> off2[j] == off[j],
    ensures
        enc_state(t, num, off2, c) == enc_state(t, num, off, c),
{
    lemma_enc_recs_prefix(t, num, off, off2, c, 0);
    if t[c].trans@.len() == 1 {
        assert(t[c].trans@[0].1 < c);
    }
}

proof fn lemma_enc_recs_prefix(t: Seq<CanonState>, num: Seq<u64>, off: Seq<u32>, off2: Seq<u32>, c: int, i: int)
    requires
        state_ok(t, c),
        c < off.len() <= off2.len(),
        forall|j: int| 0 <= j < off.len() ==> off2[j] == off[j],
    ensures
        enc_recs(t, num, off2, c, i) == enc_recs(t, num, off, c, i),
    decreases t[c].trans@.len() - i,
{
    if 0 <= i < t[c].trans@.len() {
        assert(t[c].trans@[i].1 < c);
        lemma_enc_recs_prefix(t, num, off, off2, c, i + 1);
    }
}

/// Records take at most 21 bytes each.
proof fn lemma_enc_recs_len(t: Seq<CanonState>, num: Seq<u64>, off: Seq<u32>, c: int, i: int)
    requires
        0 <= i <= t[c].trans@.len(),
    ensures
        enc_recs(t, num, off, c, i).len() <= 21 * (t[c].trans@.len() - i),
    decreases t[c].trans@.len() - i,
{
    if i < t[c].trans@.len() {
        let d = t[c].trans@[i].1 as int;
        lemma_uvarint_enc_len((off[c] - off[d]) as u64);
        lemma_uvarint_enc_len(num[d]);
        lemma_enc_recs_len(t, num, off, c, i + 1);
    }
}

/// A state takes between 2 and `12 + 21 × transitions` bytes.
pub proof fn lemma_enc_state_len(t: Seq<CanonState>, num: Seq<u64>, off: Seq<u32>, c: int)
    ensures
        2 <= enc_state(t, num, off, c).len() <= 12 + 21 * t[c].trans@.len(),
{
    let st = t[c];
    if st.trans@.len() == 1 {
        lemma_uvarint_enc_len((off[c] - off[st.trans@[0].1 as int]) as u64);
    } else {
        lemma_uvarint_enc_len(st.trans@.len() as u64);
        lemma_enc_recs_len(t, num, off, c, 0);
    }
}

/// Append the bytes of state `c`, whose offset is the last of `off`.
fn write_state(blob: &mut Vec<u8>, canon: &Vec<CanonState>, num: &Vec<u64>, off: &Vec<u32>, c: usize)
    requires
        canon_ok(canon@),
        c < canon@.len(),
        num@.len() == canon@.len(),
        off@.len() == c + 1,
        forall|d: int| 0 <= d < c ==> #[trigger] off@[d] < off@[c as int],
    ensures
        final(blob)@ == old(blob)@ + enc_state(canon@, num@, off@, c as int),
{
    let ghost t = canon@;
    assert(state_ok(t, c as int));
    let st = &canon[c];
    let flag: u8 = if st.final_ {
        1
    } else {
        0
    };
    if st.trans.len() == 1 {
        let (label, d) = st.trans[0];
        let delta: u64 = (off[c] - off[d]) as u64;
        blob.push(flag | 2);
        blob.push(label);
        write_uvarint(blob, delta);
        proof {
            let fb = flag_byte(st.final_, true);
            assert(fb == flag + 2);
            assert(flag | 2 == fb) by (bit_vector)
                requires
                    flag == 0 || flag == 1,
                    fb == flag + 2,
            ;
            assert(final(blob)@ =~= old(blob)@ + enc_state(t, num@, off@, c as int));
        }
    } else {
        blob.push(flag);
        write_uvarint(blob, st.trans.len() as u64);
        let ghost head = blob@;
        let mut i: usize = 0;
        while i < st.trans.len()
            invariant
                t == canon@,
                state_ok(t, c as int),
                *st == t[c as int],
                num@.len() == t.len(),
                off@.len() == c + 1,
                forall|d: int| 0 <= d < c ==> #[trigger] off@[d] < off@[c as int],
                i <= st.trans@.len(),
                head + enc_recs(t, num@, off@, c as int, 0) == blob@ + enc_recs(
                    t,
                    num@,
                    off@,
                    c as int,
                    i as int,
                ),
            decreases st.trans@.len() - i,
        {
            let (label, d) = st.trans[i];
            assert(d < c);
            let ghost before = blob@;
            blob.push(label);
            write_uvarint(blob, (off[c] - off[d]) as u64);
            write_uvarint(blob, num[d]);
            proof {
                let rec = seq![label] + uvarint_enc((off@[c as int] - off@[d as int]) as u64)
                    + uvarint_enc(num@[d as int]);
                assert(enc_recs(t, num@, off@, c as int, i as int) == rec + enc_recs(
                    t,
                    num@,
                    off@,
                    c as int,
                    i + 1,
                ));
                assert(blob@ =~= before + rec);
                assert(blob@ + enc_recs(t, num@, off@, c as int, i + 1) =~= before + enc_recs(
                    t,
                    num@,
                    off@,
                    c as int,
                    i as int,
                ));
            }
            i = i + 1;
        }
        proof {
            assert(enc_recs(t, num@, off@, c as int, i as int) =~= Seq::<u8>::empty());
            assert(final(blob)@ =~= old(blob)@ + enc_state(t, num@, off@, c as int));
        }
    }
}

} // verus!

verus! {

/// Appending keeps what was placed.
pub proof fn lemma_placed_append(b: Seq<u8>, x: Seq<u8>, at: int, s: Seq<u8>)
    requires
        placed(b, at, s),
    ensures
        placed(b + x, at, s),
{
    assert((b + x).subrange(at, at + s.len()) =~= b.subrange(at, at + s.len()));
}

/// Prepending shifts what was placed.
pub proof fn lemma_placed_prepend(h: Seq<u8>, b: Seq<u8>, at: int, s: Seq<u8>)
    requires
        placed(b, at, s),
    ensures
        placed(h + b, h.len() + at, s),
{
    assert((h + b).subrange(h.len() + at, h.len() + at + s.len()) =~= b.subrange(at, at + s.len()));
}

pub proof fn lemma_trans_total_mono(t: Seq<CanonState>, j: int, k: int)
    requires
        0 <= j <= k <= t.len(),
    ensures
        trans_total(t, j) <= trans_total(t, k),
    decreases k - j,
{
    if j < k {
        lemma_trans_total_mono(t, j, k - 1);
    }
}

/// Write every state, in id order, returning the bytes and each state's
/// offset in them.
pub fn write_states(canon: &Vec<CanonState>, num: &Vec<u64>) -> (r: (Vec<u8>, Vec<u32>))
    requires
        canon_ok(canon@),
        num@.len() == canon@.len(),
        12 * canon@.len() + 21 * trans_total(canon@, canon@.len() as int) <= u32::MAX,
    ensures
        blob_ok(canon@, num@, r.1@, r.0@, canon@.len() as int),
        r.0@.len() <= 12 * canon@.len() + 21 * trans_total(canon@, canon@.len() as int),
{
    let ghost t = canon@;
    let mut blob: Vec<u8> = Vec::new();
    let mut off: Vec<u32> = Vec::new();
    let mut c: usize = 0;
    while c < canon.len()
        invariant
            t == canon@,
            canon_ok(t),
            num@.len() == t.len(),
            12 * t.len() + 21 * trans_total(t, t.len() as int) <= u32::MAX,
            c <= t.len(),
            blob_ok(t, num@, off@, blob@, c as int),
            blob@.len() <= 12 * c + 21 * trans_total(t, c as int),
            forall|d: int| 0 <= d < c ==> #[trigger] off@[d] < blob@.len(),
        decreases t.len() - c,
    {
        proof {
            lemma_trans_total_mono(t, c as int, t.len() as int);
        }
        let o = blob.len() as u32;
        let ghost off0 = off@;
        let ghost blob0 = blob@;
        off.push(o);
        write_state(&mut blob, canon, num, &off, c);
        proof {
            let ci = c as int;
            lemma_enc_state_len(t, num@, off@, ci);
            assert(trans_total(t, ci + 1) == trans_total(t, ci) + t[ci].trans@.len());
            let e = enc_state(t, num@, off@, ci);
            assert(blob@ == blob0 + e);
            assert forall|d: int| 0 <= d <= ci implies placed(blob@, off@[d] as int, #[trigger] enc_state(
                t,
                num@,
                off@,
                d,
            )) by {
                if d < ci {
                    assert(state_ok(t, d));
                    lemma_enc_state_prefix(t, num@, off0, off@, d);
                    assert(placed(blob0, off0[d] as int, enc_state(t, num@, off0, d)));
                    lemma_placed_append(blob0, e, off0[d] as int, enc_state(t, num@, off0, d));
                } else {
                    assert(blob@.subrange(blob0.len() as int, (blob0.len() + e.len()) as int) =~= e);
                }
            }
            assert forall|c1: int, c2: int| 0 <= c1 < c2 < ci + 1 implies #[trigger] off@[c1]
                < #[trigger] off@[c2] by {
                if c2 < ci {
                    assert(off0[c1] < off0[c2]);
                } else {
                    assert(off0[c1] < blob0.len());
                }
            }
        }
        c = c + 1;
    }
    (blob, off)
}

} // verus!

verus! {

// ─── The value table ──────────────────────────────────────────────────

/// The `w` low little-endian bytes of `v`.
pub open spec fn le_bytes(v: u64, w: int) -> Seq<u8> {
    Seq::new(w as nat, |j: int| ((v >> ((8 * j) as u64)) & 0xff) as u8)
}

/// The value table: each value as `w` little-endian bytes, in order.
pub open spec fn vals_enc(s: Seq<u64>, w: int) -> Seq<u8>
    decreases s.len(),
{
    if s.len() == 0 {
        Seq::empty()
    } else {
        vals_enc(s.drop_last(), w) + le_bytes(s.last(), w)
    }
}

/// `v` fits in `w` bytes.
pub open spec fn fits(v: u64, w: int) -> bool {
    (w == 1 && v <= 0xff) || (w == 2 && v <= 0xffff) || (w == 4 && v <= 0xffff_ffff) || w == 8
}

/// The largest of `s`, or 0.
pub open spec fn seq_max(s: Seq<u64>) -> u64
    decreases s.len(),
{
    if s.len() == 0 {
        0
    } else {
        let m = seq_max(s.drop_last());
        if s.last() > m {
            s.last()
        } else {
            m
        }
    }
}

/// Narrowest of 1, 2, 4 or 8 bytes that holds `m`.
pub open spec fn width_for(m: u64) -> u8 {
    if m <= 0xff {
        1
    } else if m <= 0xffff {
        2
    } else if m <= 0xffff_ffff {
        4
    } else {
        8
    }
}

proof fn lemma_seq_max(s: Seq<u64>, i: int)
    requires
        0 <= i < s.len(),
    ensures
        s[i] <= seq_max(s),
    decreases s.len(),
{
    if i < s.len() - 1 {
        lemma_seq_max(s.drop_last(), i);
    }
}

/// Each value sits at `o × w` in the table.
pub proof fn lemma_vals_enc(s: Seq<u64>, w: int, o: int)
    requires
        1 <= w <= 8,
        0 <= o < s.len(),
    ensures
        vals_enc(s, w).len() == s.len() * w,
        placed(vals_enc(s, w), o * w, le_bytes(s[o], w)),
    decreases s.len(),
{
    let prev = s.drop_last();
    lemma_vals_enc_len(prev, w);
    assert(prev.len() * w + w == s.len() * w) by (nonlinear_arith)
        requires
            prev.len() + 1 == s.len(),
    ;
    if o == s.len() - 1 {
        let e = vals_enc(s, w);
        assert(e.subrange(o * w, o * w + w) =~= le_bytes(s[o], w));
    } else {
        lemma_vals_enc(prev, w, o);
        assert(prev[o] == s[o]);
        lemma_placed_append(vals_enc(prev, w), le_bytes(s.last(), w), o * w, le_bytes(s[o], w));
    }
}

pub proof fn lemma_vals_enc_len(s: Seq<u64>, w: int)
    requires
        0 <= w,
    ensures
        vals_enc(s, w).len() == s.len() * w,
    decreases s.len(),
{
    if s.len() > 0 {
        lemma_vals_enc_len(s.drop_last(), w);
        assert(s.drop_last().len() * w + w == s.len() * w) by (nonlinear_arith)
            requires
                s.drop_last().len() + 1 == s.len(),
        ;
    }
}

/// The narrowest width holding every value.
pub fn value_width(vals: &Vec<u64>) -> (w: u8)
    ensures
        w == width_for(seq_max(vals@)),
        forall|i: int| 0 <= i < vals@.len() ==> fits(#[trigger] vals@[i], w as int),
{
    let mut m: u64 = 0;
    let mut i: usize = 0;
    while i < vals.len()
        invariant
            i <= vals@.len(),
            m == seq_max(vals@.take(i as int)),
        decreases vals@.len() - i,
    {
        assert(vals@.take(i + 1).drop_last() =~= vals@.take(i as int));
        if vals[i] > m {
            m = vals[i];
        }
        i = i + 1;
    }
    assert(vals@.take(vals@.len() as int) =~= vals@);
    proof {
        assert forall|i: int| 0 <= i < vals@.len() implies fits(#[trigger] vals@[i], width_for(m) as int) by {
            lemma_seq_max(vals@, i);
        }
    }
    if m <= 0xff {
        1
    } else if m <= 0xffff {
        2
    } else if m <= 0xffff_ffff {
        4
    } else {
        8
    }
}

/// Append the value table for `vals` at width `w`.
pub fn write_values(out: &mut Vec<u8>, vals: &Vec<u64>, w: u8)
    requires
        1 <= w <= 8,
    ensures
        final(out)@ == old(out)@ + vals_enc(vals@, w as int),
{
    let ghost out0 = out@;
    let mut i: usize = 0;
    while i < vals.len()
        invariant
            1 <= w <= 8,
            i <= vals@.len(),
            out@ == out0 + vals_enc(vals@.take(i as int), w as int),
        decreases vals@.len() - i,
    {
        let v = vals[i];
        let ghost before = out@;
        let mut j: u8 = 0;
        while j < w
            invariant
                j <= w <= 8,
                out@ == before + le_bytes(v, j as int),
            decreases w - j,
        {
            out.push(((v >> (8 * j as u64)) & 0xff) as u8);
            assert(out@ =~= before + le_bytes(v, j + 1));
            j = j + 1;
        }
        assert(vals@.take(i + 1).drop_last() =~= vals@.take(i as int));
        assert(vals@.take(i + 1).last() == v);
        assert(out@ =~= out0 + vals_enc(vals@.take(i + 1), w as int));
        i = i + 1;
    }
    assert(vals@.take(vals@.len() as int) =~= vals@);
}

} // verus!
