//! Reading back what the encoder wrote: on bytes that hold the encoded
//! states, every step, walk and depth-first visit of the reader follows
//! the canonical states, and the running ordinal is the rank of the key.

use vstd::prelude::*;

use crate::fsa::canon::{canon_ok, state_ok, CanonState};
use crate::fsa::encode::{enc_recs, enc_state, fits, flag_byte, le_bytes, placed};
use crate::fsa::lang::{
    before, cheight, cheight_from, clist, clist_from, cidx, cpath, has_trans, here,
    lemma_block, lemma_from_is_tail, lemma_height_from_ge, lemma_trans_index, prepend,
    trans_index,
};
use crate::fsa::reader::{
    back_target, byte_at, byte_or_zero, children_spec, dfs_target, is_final_spec, read_value_spec,
    step_multi, step_spec, subtree_spec, value_rec, walk_spec, wadd, FsaLayout, MAX_WALK_DEPTH,
};
use crate::fsa::varint::{lemma_uvarint_enc_len, lemma_uvarint_roundtrip, uvarint_at, uvarint_enc};

verus! {

/// The states of `t` sit in `b` after the 18-byte header, at the
/// increasing offsets `off`, and `num` holds each state's key count.
pub open spec fn states_in(b: Seq<u8>, t: Seq<CanonState>, num: Seq<u64>, off: Seq<u32>) -> bool {
    &&& off.len() == t.len()
    &&& num.len() == t.len()
    &&& forall|c: int|
        0 <= c < t.len() ==> placed(b, 18 + off[c], #[trigger] enc_state(t, num, off, c))
    &&& forall|c1: int, c2: int| 0 <= c1 < c2 < t.len() ==> #[trigger] off[c1] < #[trigger] off[c2]
    &&& forall|c: int| 0 <= c < t.len() ==> #[trigger] num[c] == clist(t, c).len()
}

/// The pairs a visit of the keys `ks` under `cur` yields, values read
/// from ordinal `ord` on.
pub open spec fn visit_pairs(b: Seq<u8>, lay: FsaLayout, cur: Seq<u8>, ks: Seq<Seq<u8>>, ord: int) -> Seq<
    (Seq<u8>, u64),
> {
    Seq::new(ks.len(), |j: int| (cur + ks[j], read_value_spec(b, lay, (ord + j) as u64)))
}

proof fn lemma_flag_bits(f: bool, s: bool)
    ensures
        (flag_byte(f, s) & 1 != 0) == f,
        (flag_byte(f, s) & 2 != 0) == s,
{
    let x = flag_byte(f, s);
    assert(x == 0 || x == 1 || x == 2 || x == 3);
    assert(x == 0 || x == 1 || x == 2 || x == 3 ==> ((x & 1 != 0) == (x == 1 || x == 3)) && ((x
        & 2 != 0) == (x == 2 || x == 3))) by (bit_vector);
}

proof fn lemma_placed_split(b: Seq<u8>, at: int, s1: Seq<u8>, s2: Seq<u8>)
    requires
        placed(b, at, s1 + s2),
    ensures
        placed(b, at, s1),
        placed(b, at + s1.len(), s2),
{
    let w = b.subrange(at, at + (s1 + s2).len());
    assert(w == s1 + s2);
    assert(b.subrange(at, at + s1.len()) =~= w.subrange(0, s1.len() as int));
    assert(w.subrange(0, s1.len() as int) =~= s1);
    assert(b.subrange(at + s1.len(), at + s1.len() + s2.len()) =~= w.subrange(
        s1.len() as int,
        (s1.len() + s2.len()) as int,
    ));
    assert(w.subrange(s1.len() as int, (s1.len() + s2.len()) as int) =~= s2);
}

proof fn lemma_placed_byte(b: Seq<u8>, at: int, s: Seq<u8>)
    requires
        placed(b, at, s),
        s.len() > 0,
    ensures
        byte_at(b, at) == Some(s[0]),
{
    assert(b.subrange(at, at + s.len())[0] == b[at]);
}

proof fn lemma_placed_varint(b: Seq<u8>, at: int, v: u64)
    requires
        placed(b, at, uvarint_enc(v)),
    ensures
        uvarint_at(b, at) == Some((v, at + uvarint_enc(v).len())),
{
    lemma_uvarint_roundtrip(b, at, v);
}

/// Key counts add up: `before(t, c, i + 1)` is `before(t, c, i)` plus
/// the keys through transition `i`.
proof fn lemma_before_next(t: Seq<CanonState>, num: Seq<u64>, c: int, i: int)
    requires
        canon_ok(t),
        0 <= c < t.len(),
        0 <= i < t[c].trans@.len(),
        forall|x: int| 0 <= x < t.len() ==> #[trigger] num[x] == clist(t, x).len(),
        num.len() == t.len(),
    ensures
        before(t, c, i + 1) == before(t, c, i) + num[t[c].trans@[i].1 as int],
        before(t, c, i + 1) <= clist(t, c).len(),
        0 <= before(t, c, i),
{
    assert(state_ok(t, c));
    lemma_block(t, c, i);
    lemma_from_is_tail(t, c, i + 1);
    lemma_from_is_tail(t, c, i);
    assert(t[c].trans@[i].1 < c);
}

// ─── One step ─────────────────────────────────────────────────────────

/// Whether the transition labelled `x` of `c` is at `i` or later.
pub open spec fn found_from(t: Seq<CanonState>, c: int, x: u8, i: int) -> bool {
    has_trans(t, c, x) && i <= trans_index(t, c, x)
}

/// Position of the record `i` of the multi-transition state `c`.
pub open spec fn rec_pos(t: Seq<CanonState>, num: Seq<u64>, off: Seq<u32>, c: int, i: int) -> int {
    18 + off[c] + 1 + uvarint_enc(t[c].trans@.len() as u64).len() + enc_recs(t, num, off, c, 0).len()
        - enc_recs(t, num, off, c, i).len()
}

proof fn lemma_recs_placed(b: Seq<u8>, t: Seq<CanonState>, num: Seq<u64>, off: Seq<u32>, c: int, i: int)
    requires
        states_in(b, t, num, off),
        0 <= c < t.len(),
        t[c].trans@.len() != 1,
        0 <= i <= t[c].trans@.len(),
    ensures
        placed(b, rec_pos(t, num, off, c, i), enc_recs(t, num, off, c, i)),
    decreases i,
{
    let p = 18 + off[c];
    let hd = seq![flag_byte(t[c].final_, false)] + uvarint_enc(t[c].trans@.len() as u64);
    assert(placed(b, p, enc_state(t, num, off, c)));
    assert(enc_state(t, num, off, c) == hd + enc_recs(t, num, off, c, 0));
    if i == 0 {
        lemma_placed_split(b, p, hd, enc_recs(t, num, off, c, 0));
    } else {
        lemma_recs_placed(b, t, num, off, c, i - 1);
        let d = t[c].trans@[i - 1].1 as int;
        let rec = seq![t[c].trans@[i - 1].0] + uvarint_enc((off[c] - off[d]) as u64) + uvarint_enc(
            num[d],
        );
        assert(enc_recs(t, num, off, c, i - 1) == rec + enc_recs(t, num, off, c, i));
        lemma_placed_split(b, rec_pos(t, num, off, c, i - 1), rec, enc_recs(t, num, off, c, i));
    }
}

/// The scan over the records `i..` of a multi-transition state.
proof fn lemma_step_multi(
    b: Seq<u8>,
    t: Seq<CanonState>,
    num: Seq<u64>,
    off: Seq<u32>,
    c: int,
    x: u8,
    ord: u64,
    i: int,
)
    requires
        canon_ok(t),
        states_in(b, t, num, off),
        0 <= c < t.len(),
        t[c].trans@.len() != 1,
        0 <= i <= t[c].trans@.len(),
        ord + clist(t, c).len() <= u64::MAX,
    ensures
        step_multi(
            b,
            off[c],
            rec_pos(t, num, off, c, i),
            (t[c].trans@.len() - i) as u64,
            x,
            (ord + before(t, c, i)) as u64,
        ) == if found_from(t, c, x, i) {
            Some((off[t[c].trans@[trans_index(t, c, x)].1 as int], (ord + before(t, c, trans_index(t, c, x))) as u64))
        } else {
            None::<(u32, u64)>
        },
    decreases t[c].trans@.len() - i,
{
    assert(state_ok(t, c));
    let n = t[c].trans@.len();
    assert(t[c].trans.len() == n);
    assert(n <= usize::MAX);
    if i == n {
        if has_trans(t, c, x) {
            assert(trans_index(t, c, x) < n);
        }
    } else {
        lemma_recs_placed(b, t, num, off, c, i);
        lemma_before_next(t, num, c, i);
        let q = rec_pos(t, num, off, c, i);
        let l = t[c].trans@[i].0;
        let d = t[c].trans@[i].1 as int;
        assert(d < c);
        assert(off[d] < off[c]);
        let delta = (off[c] - off[d]) as u64;
        let e1 = uvarint_enc(delta);
        let e2 = uvarint_enc(num[d]);
        let rest = enc_recs(t, num, off, c, i + 1);
        assert(enc_recs(t, num, off, c, i) == seq![l] + e1 + e2 + rest);
        assert(seq![l] + e1 + e2 + rest == seq![l] + (e1 + (e2 + rest)));
        lemma_placed_split(b, q, seq![l], e1 + (e2 + rest));
        lemma_placed_split(b, q + 1, e1, e2 + rest);
        lemma_placed_split(b, q + 1 + e1.len(), e2, rest);
        lemma_placed_byte(b, q, seq![l]);
        lemma_placed_varint(b, q + 1, delta);
        lemma_placed_varint(b, q + 1 + e1.len(), num[d]);
        assert(rec_pos(t, num, off, c, i + 1) == q + 1 + e1.len() + e2.len());
        let ordi = (ord + before(t, c, i)) as u64;
        assert(wadd(ordi, num[d]) == (ord + before(t, c, i + 1)) as u64);
        lemma_trans_index(t, c, i);
        let nn = (n - i) as u64;
        assert(byte_at(b, q) == Some(l));
        assert(uvarint_at(b, q + 1) == Some((delta, q + 1 + e1.len())));
        assert(uvarint_at(b, q + 1 + e1.len()) == Some((num[d], q + 1 + e1.len() + e2.len())));
        assert(nn != 0);
        assert(step_multi(b, off[c], q, nn, x, ordi) == if l < x {
            step_multi(b, off[c], q + 1 + e1.len() + e2.len(), (nn - 1) as u64, x, wadd(ordi, num[d]))
        } else if l == x {
            match back_target(off[c], delta) {
                Some(tt) => Some((tt, ordi)),
                None => None,
            }
        } else {
            None
        });
        if l < x {
            lemma_step_multi(b, t, num, off, c, x, ord, i + 1);
            if has_trans(t, c, x) {
                assert(trans_index(t, c, x) != i);
            }
        } else if l == x {
            assert(back_target(off[c], delta) == Some(off[d]));
        } else {
            if has_trans(t, c, x) && i <= trans_index(t, c, x) {
                let j = trans_index(t, c, x);
                if j > i {
                    assert(t[c].trans@[i].0 < t[c].trans@[j].0);
                }
            }
        }
    }
}

/// One step from the encoded state `c` follows its transition.
pub proof fn lemma_step(
    b: Seq<u8>,
    lay: FsaLayout,
    t: Seq<CanonState>,
    num: Seq<u64>,
    off: Seq<u32>,
    c: int,
    x: u8,
    ord: u64,
)
    requires
        canon_ok(t),
        states_in(b, t, num, off),
        lay.blob_start == 18,
        0 <= c < t.len(),
        ord + clist(t, c).len() <= u64::MAX,
    ensures
        step_spec(b, lay, off[c], x, ord) == if has_trans(t, c, x) {
            Some((off[t[c].trans@[trans_index(t, c, x)].1 as int], (ord + before(t, c, trans_index(t, c, x))) as u64))
        } else {
            None::<(u32, u64)>
        },
{
    assert(state_ok(t, c));
    let st = t[c];
    let p = 18 + off[c];
    let e = enc_state(t, num, off, c);
    assert(placed(b, p, e));
    let h = here(t, c);
    assert(before(t, c, 0) == h.len());
    let ord1 = (ord + h.len()) as u64;
    assert(clist(t, c).len() >= h.len());
    if st.trans@.len() == 1 {
        let l = st.trans@[0].0;
        let d = st.trans@[0].1 as int;
        assert(d < c);
        assert(off[d] < off[c]);
        let delta = (off[c] - off[d]) as u64;
        let hd = seq![flag_byte(st.final_, true), l];
        assert(e == hd + uvarint_enc(delta));
        lemma_placed_split(b, p, hd, uvarint_enc(delta));
        lemma_placed_byte(b, p, e);
        assert(b.subrange(p, p + 2)[1] == b[p + 1]);
        assert(byte_at(b, p + 1) == Some(l));
        lemma_placed_varint(b, p + 2, delta);
        lemma_flag_bits(st.final_, true);
        lemma_trans_index(t, c, 0);
        if has_trans(t, c, x) {
            assert(trans_index(t, c, x) == 0);
        }
    } else {
        let n = st.trans@.len();
        let hd = seq![flag_byte(st.final_, false)] + uvarint_enc(n as u64);
        assert(e == hd + enc_recs(t, num, off, c, 0));
        lemma_placed_split(b, p, hd, enc_recs(t, num, off, c, 0));
        lemma_placed_split(b, p, seq![flag_byte(st.final_, false)], uvarint_enc(n as u64));
        lemma_placed_byte(b, p, e);
        lemma_placed_varint(b, p + 1, n as u64);
        lemma_flag_bits(st.final_, false);
        lemma_step_multi(b, t, num, off, c, x, ord, 0);
        assert(rec_pos(t, num, off, c, 0) == p + 1 + uvarint_enc(n as u64).len());
    }
}

/// Walking `k` from the encoded state `c` follows `cpath`, the ordinal
/// growing by `cidx`.
pub proof fn lemma_walk(
    b: Seq<u8>,
    lay: FsaLayout,
    t: Seq<CanonState>,
    num: Seq<u64>,
    off: Seq<u32>,
    c: int,
    k: Seq<u8>,
    ord: u64,
)
    requires
        canon_ok(t),
        states_in(b, t, num, off),
        lay.blob_start == 18,
        0 <= c < t.len(),
        ord + clist(t, c).len() <= u64::MAX,
    ensures
        walk_spec(b, lay, off[c], k, ord) == match cpath(t, c, k) {
            Some(e) => Some((off[e], (ord + cidx(t, c, k)) as u64)),
            None => None,
        },
        cpath(t, c, k) matches Some(e) ==> 0 <= e < t.len() && 0 <= cidx(t, c, k) && cidx(t, c, k)
            + clist(t, e).len() <= clist(t, c).len(),
    decreases k.len(),
{
    if k.len() > 0 {
        lemma_step(b, lay, t, num, off, c, k[0], ord);
        if has_trans(t, c, k[0]) {
            assert(state_ok(t, c));
            let i = trans_index(t, c, k[0]);
            let d = t[c].trans@[i].1 as int;
            assert(d < c);
            lemma_block(t, c, i);
            lemma_from_is_tail(t, c, i);
            let o2 = (ord + before(t, c, i)) as u64;
            lemma_walk(b, lay, t, num, off, d, k.drop_first(), o2);
        }
    }
}

} // verus!

verus! {

// ─── Depth-first visits ───────────────────────────────────────────────

proof fn lemma_visit_concat(b: Seq<u8>, lay: FsaLayout, cur: Seq<u8>, a: Seq<Seq<u8>>, c: Seq<Seq<u8>>, o: int)
    ensures
        visit_pairs(b, lay, cur, a + c, o) == visit_pairs(b, lay, cur, a, o) + visit_pairs(
            b,
            lay,
            cur,
            c,
            o + a.len(),
        ),
{
    let l = visit_pairs(b, lay, cur, a + c, o);
    let r = visit_pairs(b, lay, cur, a, o) + visit_pairs(b, lay, cur, c, o + a.len());
    assert forall|j: int| 0 <= j < l.len() implies l[j] == r[j] by {
        if j >= a.len() {
            assert((a + c)[j] == c[j - a.len()]);
            assert(o + j == (o + a.len()) + (j - a.len()));
        }
    }
    assert(l =~= r);
}

proof fn lemma_visit_push(b: Seq<u8>, lay: FsaLayout, cur: Seq<u8>, l: u8, ks: Seq<Seq<u8>>, o: int)
    ensures
        visit_pairs(b, lay, cur.push(l), ks, o) == visit_pairs(b, lay, cur, prepend(l, ks), o),
{
    let x = visit_pairs(b, lay, cur.push(l), ks, o);
    let y = visit_pairs(b, lay, cur, prepend(l, ks), o);
    assert forall|j: int| 0 <= j < x.len() implies x[j] == y[j] by {
        assert(cur.push(l) + ks[j] =~= cur + (seq![l] + ks[j]));
    }
    assert(x =~= y);
}

/// The depth-first visit of the encoded state `c` lists its keys under
/// `cur` in order, reading values from ordinal `ord` on.
pub proof fn lemma_subtree(
    b: Seq<u8>,
    lay: FsaLayout,
    t: Seq<CanonState>,
    num: Seq<u64>,
    off: Seq<u32>,
    c: int,
    cur: Seq<u8>,
    ord: u64,
)
    requires
        canon_ok(t),
        states_in(b, t, num, off),
        lay.blob_start == 18,
        0 <= c < t.len(),
        ord + clist(t, c).len() <= u64::MAX,
        cur.len() + cheight(t, c) <= MAX_WALK_DEPTH,
    ensures
        subtree_spec(b, lay, off[c], cur, ord) == (
            visit_pairs(b, lay, cur, clist(t, c), ord as int),
            (ord + clist(t, c).len()) as u64,
        ),
    decreases c, 1int,
{
    assert(state_ok(t, c));
    let st = t[c];
    let p = 18 + off[c];
    let e = enc_state(t, num, off, c);
    assert(placed(b, p, e));
    let h = here(t, c);
    lemma_placed_byte(b, p, e);
    let ord1 = (ord + h.len()) as u64;
    let hp = visit_pairs(b, lay, cur, h, ord as int);
    assert(clist(t, c) == h + clist_from(t, c, 0));
    lemma_visit_concat(b, lay, cur, h, clist_from(t, c, 0), ord as int);
    if st.final_ {
        assert(cur + h[0] =~= cur);
        assert(hp =~= seq![(cur, read_value_spec(b, lay, ord))]);
    } else {
        assert(hp =~= Seq::<(Seq<u8>, u64)>::empty());
    }
    if st.trans@.len() == 1 {
        lemma_flag_bits(st.final_, true);
        let l = st.trans@[0].0;
        let d = st.trans@[0].1 as int;
        assert(d < c);
        assert(off[d] < off[c]);
        let delta = (off[c] - off[d]) as u64;
        let hd = seq![flag_byte(st.final_, true), l];
        assert(e == hd + uvarint_enc(delta));
        lemma_placed_split(b, p, hd, uvarint_enc(delta));
        assert(b.subrange(p, p + 2)[1] == b[p + 1]);
        assert(byte_at(b, p + 1) == Some(l));
        lemma_placed_varint(b, p + 2, delta);
        assert(dfs_target(off[c], delta) == Some(off[d]));
        lemma_height_from_ge(t, c, 0, 0);
        lemma_block(t, c, 0);
        lemma_from_is_tail(t, c, 0);
        lemma_subtree(b, lay, t, num, off, d, cur.push(l), ord1);
        lemma_visit_push(b, lay, cur, l, clist(t, d), ord1 as int);
        assert(clist_from(t, c, 1) =~= Seq::<Seq<u8>>::empty());
        assert(clist_from(t, c, 0) =~= prepend(l, clist(t, d)));
    } else {
        lemma_flag_bits(st.final_, false);
        let n = st.trans@.len();
        assert(st.trans.len() == n);
        let hd = seq![flag_byte(st.final_, false)] + uvarint_enc(n as u64);
        assert(e == hd + enc_recs(t, num, off, c, 0));
        lemma_placed_split(b, p, hd, enc_recs(t, num, off, c, 0));
        lemma_placed_split(b, p, seq![flag_byte(st.final_, false)], uvarint_enc(n as u64));
        lemma_placed_varint(b, p + 1, n as u64);
        assert(rec_pos(t, num, off, c, 0) == p + 1 + uvarint_enc(n as u64).len());
        assert(before(t, c, 0) == h.len());
        lemma_children(b, lay, t, num, off, c, cur, ord, 0);
    }
}

/// The visit of the transitions `i..` of the multi-transition state `c`.
proof fn lemma_children(
    b: Seq<u8>,
    lay: FsaLayout,
    t: Seq<CanonState>,
    num: Seq<u64>,
    off: Seq<u32>,
    c: int,
    cur: Seq<u8>,
    ord: u64,
    i: int,
)
    requires
        canon_ok(t),
        states_in(b, t, num, off),
        lay.blob_start == 18,
        0 <= c < t.len(),
        t[c].trans@.len() != 1,
        0 <= i <= t[c].trans@.len(),
        ord + clist(t, c).len() <= u64::MAX,
        cur.len() + cheight(t, c) <= MAX_WALK_DEPTH,
    ensures
        children_spec(
            b,
            lay,
            off[c],
            rec_pos(t, num, off, c, i),
            (t[c].trans@.len() - i) as u64,
            cur,
            (ord + before(t, c, i)) as u64,
        ) == (
            visit_pairs(b, lay, cur, clist_from(t, c, i), ord + before(t, c, i)),
            (ord + clist(t, c).len()) as u64,
        ),
    decreases c, 0int, t[c].trans@.len() - i,
{
    assert(state_ok(t, c));
    let n = t[c].trans@.len();
    assert(t[c].trans.len() == n);
    lemma_from_is_tail(t, c, i);
    if i == n {
        assert(clist_from(t, c, i) =~= Seq::<Seq<u8>>::empty());
        assert(visit_pairs(b, lay, cur, clist_from(t, c, i), ord + before(t, c, i)) =~= Seq::<
            (Seq<u8>, u64),
        >::empty());
    } else {
        lemma_recs_placed(b, t, num, off, c, i);
        lemma_before_next(t, num, c, i);
        let q = rec_pos(t, num, off, c, i);
        let l = t[c].trans@[i].0;
        let d = t[c].trans@[i].1 as int;
        assert(d < c);
        assert(off[d] < off[c]);
        let delta = (off[c] - off[d]) as u64;
        let e1 = uvarint_enc(delta);
        let e2 = uvarint_enc(num[d]);
        let rest = enc_recs(t, num, off, c, i + 1);
        assert(enc_recs(t, num, off, c, i) == seq![l] + e1 + e2 + rest);
        assert(seq![l] + e1 + e2 + rest == seq![l] + (e1 + (e2 + rest)));
        lemma_placed_split(b, q, seq![l], e1 + (e2 + rest));
        lemma_placed_split(b, q + 1, e1, e2 + rest);
        lemma_placed_split(b, q + 1 + e1.len(), e2, rest);
        lemma_placed_byte(b, q, seq![l]);
        lemma_placed_varint(b, q + 1, delta);
        lemma_placed_varint(b, q + 1 + e1.len(), num[d]);
        assert(rec_pos(t, num, off, c, i + 1) == q + 1 + e1.len() + e2.len());
        assert(dfs_target(off[c], delta) == Some(off[d]));
        lemma_height_from_ge(t, c, 0, i);
        lemma_block(t, c, i);
        let ordi = (ord + before(t, c, i)) as u64;
        lemma_subtree(b, lay, t, num, off, d, cur.push(l), ordi);
        lemma_children(b, lay, t, num, off, c, cur, ord, i + 1);
        lemma_visit_push(b, lay, cur, l, clist(t, d), ordi as int);
        let blk = prepend(l, clist(t, d));
        assert(clist_from(t, c, i) == blk + clist_from(t, c, i + 1));
        lemma_visit_concat(b, lay, cur, blk, clist_from(t, c, i + 1), ordi as int);
        assert((ord + before(t, c, i + 1)) as u64 == ordi + clist(t, d).len());
    }
}

} // verus!

verus! {

/// The accepting bit of the encoded state `c`.
pub proof fn lemma_final(b: Seq<u8>, lay: FsaLayout, t: Seq<CanonState>, num: Seq<u64>, off: Seq<u32>, c: int)
    requires
        states_in(b, t, num, off),
        lay.blob_start == 18,
        0 <= c < t.len(),
    ensures
        is_final_spec(b, lay, off[c]) == t[c].final_,
{
    let e = enc_state(t, num, off, c);
    assert(placed(b, 18 + off[c], e));
    lemma_placed_byte(b, 18 + off[c], e);
    lemma_flag_bits(t[c].final_, true);
    lemma_flag_bits(t[c].final_, false);
}

/// A value written as `w` little-endian bytes reads back.
pub proof fn lemma_value_read(b: Seq<u8>, at: int, w: int, v: u64)
    requires
        w == 1 || w == 2 || w == 4 || w == 8,
        fits(v, w),
        placed(b, at, le_bytes(v, w)),
    ensures
        value_rec(b, at, 0, w, 0) == v,
{
    reveal_with_fuel(value_rec, 9);
    let e = le_bytes(v, w);
    assert forall|j: int| 0 <= j < w implies #[trigger] byte_or_zero(b, at + j) == ((v >> ((8 * j) as u64)) & 0xff) as u8 by {
        assert(b.subrange(at, at + w)[j] == b[at + j]);
        assert(e[j] == ((v >> ((8 * j) as u64)) & 0xff) as u8);
    }
    let b0 = byte_or_zero(b, at + 0);
    assert(b0 == ((v >> 0u64) & 0xff) as u8);
    let a1 = 0u64 | ((b0 as u64) << 0u64);
    if w == 1 {
        assert(a1 == v) by (bit_vector)
            requires
                v <= 0xff,
                b0 == ((v >> 0u64) & 0xff) as u8,
                a1 == 0u64 | ((b0 as u64) << 0u64),
        ;
    } else {
        let b1 = byte_or_zero(b, at + 1);
        assert(b1 == ((v >> 8u64) & 0xff) as u8);
        let a2 = a1 | ((b1 as u64) << 8u64);
        if w == 2 {
            assert(a2 == v) by (bit_vector)
                requires
                    v <= 0xffff,
                    b0 == ((v >> 0u64) & 0xff) as u8,
                    b1 == ((v >> 8u64) & 0xff) as u8,
                    a1 == 0u64 | ((b0 as u64) << 0u64),
                    a2 == a1 | ((b1 as u64) << 8u64),
            ;
        } else {
            let b2 = byte_or_zero(b, at + 2);
            let b3 = byte_or_zero(b, at + 3);
            assert(b2 == ((v >> 16u64) & 0xff) as u8);
            assert(b3 == ((v >> 24u64) & 0xff) as u8);
            let a3 = a2 | ((b2 as u64) << 16u64);
            let a4 = a3 | ((b3 as u64) << 24u64);
            if w == 4 {
                assert(a4 == v) by (bit_vector)
                    requires
                        v <= 0xffff_ffff,
                        b0 == ((v >> 0u64) & 0xff) as u8,
                        b1 == ((v >> 8u64) & 0xff) as u8,
                        b2 == ((v >> 16u64) & 0xff) as u8,
                        b3 == ((v >> 24u64) & 0xff) as u8,
                        a1 == 0u64 | ((b0 as u64) << 0u64),
                        a2 == a1 | ((b1 as u64) << 8u64),
                        a3 == a2 | ((b2 as u64) << 16u64),
                        a4 == a3 | ((b3 as u64) << 24u64),
                ;
            } else {
                let b4 = byte_or_zero(b, at + 4);
                let b5 = byte_or_zero(b, at + 5);
                let b6 = byte_or_zero(b, at + 6);
                let b7 = byte_or_zero(b, at + 7);
                assert(b4 == ((v >> 32u64) & 0xff) as u8);
                assert(b5 == ((v >> 40u64) & 0xff) as u8);
                assert(b6 == ((v >> 48u64) & 0xff) as u8);
                assert(b7 == ((v >> 56u64) & 0xff) as u8);
                let a5 = a4 | ((b4 as u64) << 32u64);
                let a6 = a5 | ((b5 as u64) << 40u64);
                let a7 = a6 | ((b6 as u64) << 48u64);
                let a8 = a7 | ((b7 as u64) << 56u64);
                assert(a8 == v) by (bit_vector)
                    requires
                        b0 == ((v >> 0u64) & 0xff) as u8,
                        b1 == ((v >> 8u64) & 0xff) as u8,
                        b2 == ((v >> 16u64) & 0xff) as u8,
                        b3 == ((v >> 24u64) & 0xff) as u8,
                        b4 == ((v >> 32u64) & 0xff) as u8,
                        b5 == ((v >> 40u64) & 0xff) as u8,
                        b6 == ((v >> 48u64) & 0xff) as u8,
                        b7 == ((v >> 56u64) & 0xff) as u8,
                        a1 == 0u64 | ((b0 as u64) << 0u64),
                        a2 == a1 | ((b1 as u64) << 8u64),
                        a3 == a2 | ((b2 as u64) << 16u64),
                        a4 == a3 | ((b3 as u64) << 24u64),
                        a5 == a4 | ((b4 as u64) << 32u64),
                        a6 == a5 | ((b5 as u64) << 40u64),
                        a7 == a6 | ((b6 as u64) << 48u64),
                        a8 == a7 | ((b7 as u64) << 56u64),
                ;
            }
        }
    }
}

} // verus!
