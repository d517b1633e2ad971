//! Build side: collect (key, value) pairs and serialize a minimal
//! automaton plus the value table. Three phases: a trie over the keys
//! (later inserts of a key win), bottom-up minimization by sharing equal
//! sub-automata, and encoding the states so that every target comes
//! before the states pointing at it.

use vstd::prelude::*;
use std::collections::HashMap;

use crate::fsa::canon::{canon_ok, minimize, reps, state_ok, trans_total, CanonState};
use crate::fsa::decode::{
    lemma_final, lemma_subtree, lemma_value_read, lemma_walk, states_in, visit_pairs,
};
use crate::fsa::encode::{
    blob_ok, fits, le_bytes, lemma_placed_append, lemma_placed_prepend, lemma_vals_enc, placed,
    value_width, vals_enc, width_for, seq_max, write_states, write_values,
};
use crate::fsa::lang::{
    before, cheight, clist, clist_from, cidx, cpath, has_trans, here, lemma_block, prepend, trans_index, lemma_from_is_tail, lemma_member,
    lemma_path_height, lemma_path_slice, lemma_prefix_member, lemma_reps_accepts,
    lemma_reps_height, lemma_reps_vals, lemma_sorted, strictly_sorted,
};
use crate::fsa::reader::{
    bytes_get, bytes_has_prefix, bytes_prefix, get_spec, le_u32_at, parse_layout, prefix_spec, read_value_spec,
    walk_to_spec, FsaError, FsaLayout, MAX_WALK_DEPTH,
};
use crate::fsa::trie::{insert_at, kids_live, nat_max, tget, theight, tlive, tsize, tvals, tvals_kids, twf, TrieNode};
use crate::le::{le32, lemma_u32_at_placed, push_u32, u32_at};
use crate::text::{lemma_seq_lt_irreflexive, lemma_seq_lt_trans, seq_lt};

verus! {

/// Upper bound on the total length of the keys given to one build: the
/// format addresses states with 32-bit offsets, and a build writes at
/// most 59 + 41 bytes per key byte, so this is the most whose encoding
/// is sure to stay below 2^32 bytes.
pub const MAX_TOTAL_KEY_BYTES: usize = 104_755_298;

/// The map the pairs describe, later pairs overriding earlier ones.
pub open spec fn pairs_map(s: Seq<(Seq<u8>, u64)>) -> Map<Seq<u8>, u64>
    decreases s.len(),
{
    if s.len() == 0 {
        Map::empty()
    } else {
        pairs_map(s.drop_last()).insert(s.last().0, s.last().1)
    }
}

/// `m[k]` as an option.
pub open spec fn map_get(m: Map<Seq<u8>, u64>, k: Seq<u8>) -> Option<u64> {
    if m.dom().contains(k) {
        Some(m[k])
    } else {
        None
    }
}

/// Total length of the keys.
pub open spec fn total_key_len(s: Seq<(Seq<u8>, u64)>) -> nat
    decreases s.len(),
{
    if s.len() == 0 {
        0
    } else {
        total_key_len(s.drop_last()) + s.last().0.len()
    }
}

/// Length of the longest key.
pub open spec fn max_key_len(s: Seq<(Seq<u8>, u64)>) -> nat
    decreases s.len(),
{
    if s.len() == 0 {
        0
    } else {
        nat_max(max_key_len(s.drop_last()), s.last().0.len())
    }
}

/// `s` starts with `p`.
pub open spec fn has_prefix(s: Seq<u8>, p: Seq<u8>) -> bool {
    p.len() <= s.len() && s.subrange(0, p.len() as int) == p
}

/// The keys of the pairs `r`.
pub open spec fn pair_keys(r: Seq<(Seq<u8>, u64)>) -> Seq<Seq<u8>> {
    r.map_values(|x: (Seq<u8>, u64)| x.0)
}

/// `r` lists, in strictly increasing key order, exactly the entries of
/// `m` whose key starts with `p`.
pub open spec fn is_prefix_listing(r: Seq<(Seq<u8>, u64)>, m: Map<Seq<u8>, u64>, p: Seq<u8>) -> bool {
    &&& strictly_sorted(pair_keys(r))
    &&& forall|j: int|
        0 <= j < r.len() ==> has_prefix(#[trigger] r[j].0, p) && map_get(m, r[j].0) == Some(r[j].1)
    &&& forall|k: Seq<u8>|
        #![trigger map_get(m, k)]
        has_prefix(k, p) && m.dom().contains(k) ==> exists|j: int| 0 <= j < r.len() && #[trigger] r[j].0 == k
}

/// Accumulates (key, value) pairs and serializes a minimal automaton.
pub struct Builder {
    pairs: Vec<(Vec<u8>, u64)>,
}

/// The pairs as plain sequences.
pub open spec fn pairs_view(v: Seq<(Vec<u8>, u64)>) -> Seq<(Seq<u8>, u64)> {
    v.map_values(|x: (Vec<u8>, u64)| (x.0@, x.1))
}

impl Builder {
    /// The pairs inserted so far, in insertion order.
    pub closed spec fn entries(&self) -> Seq<(Seq<u8>, u64)> {
        pairs_view(self.pairs@)
    }

    pub fn new() -> (r: Builder)
        ensures
            r.entries() == Seq::<(Seq<u8>, u64)>::empty(),
    {
        let r = Builder { pairs: Vec::new() };
        assert(r.entries() =~= Seq::<(Seq<u8>, u64)>::empty());
        r
    }

    /// Add a key→value entry. Keys may come in any order; for a key
    /// inserted more than once the last value wins.
    pub fn insert(&mut self, key: &[u8], value: u64)
        ensures
            final(self).entries() == old(self).entries().push((key@, value)),
    {
        let k = crate::fsa::reader::slice_to_vec_u8(key);
        self.pairs.push((k, value));
        assert(self.entries() =~= old(self).entries().push((key@, value)));
    }
}

} // verus!

verus! {

/// Append the values of the trie rooted at `n`, in key order.
fn collect_values(n: &TrieNode, out: &mut Vec<u64>)
    ensures
        final(out)@ == old(out)@ + tvals(*n),
    decreases *n,
{
    let ghost out0 = out@;
    let ghost own = match n.value {
        Some(v) => seq![v],
        None => Seq::<u64>::empty(),
    };
    match n.value {
        Some(v) => out.push(v),
        None => {},
    }
    assert(out@ == out0 + own);
    let mut i: usize = 0;
    while i < n.kids.len()
        invariant
            i <= n.kids@.len(),
            out@ + tvals_kids(n.kids@, i as int) == out0 + own + tvals_kids(n.kids@, 0),
        decreases n.kids@.len() - i,
    {
        let ghost before = out@;
        collect_values(&n.kids[i].1, out);
        proof {
            assert(tvals_kids(n.kids@, i as int) == tvals(n.kids@[i as int].1) + tvals_kids(
                n.kids@,
                i + 1,
            ));
            assert(out@ + tvals_kids(n.kids@, i + 1) =~= before + tvals_kids(n.kids@, i as int));
        }
        i = i + 1;
    }
    assert(tvals_kids(n.kids@, i as int) =~= Seq::<u64>::empty());
    assert(out@ =~= out0 + tvals(*n));
}

/// Number of keys accepted from each state.
fn count_keys(canon: &Vec<CanonState>, bound: u64) -> (num: Vec<u64>)
    requires
        canon_ok(canon@),
        forall|c: int| 0 <= c < canon@.len() ==> #[trigger] clist(canon@, c).len() <= bound,
    ensures
        num@.len() == canon@.len(),
        forall|c: int| 0 <= c < canon@.len() ==> #[trigger] num@[c] == clist(canon@, c).len(),
{
    let ghost t = canon@;
    let mut num: Vec<u64> = Vec::new();
    let mut c: usize = 0;
    while c < canon.len()
        invariant
            t == canon@,
            canon_ok(t),
            forall|x: int| 0 <= x < t.len() ==> #[trigger] clist(t, x).len() <= bound,
            c <= t.len(),
            num@.len() == c,
            forall|x: int| 0 <= x < c ==> #[trigger] num@[x] == clist(t, x).len(),
        decreases t.len() - c,
    {
        assert(state_ok(t, c as int));
        let st = &canon[c];
        let mut n: u64 = if st.final_ {
            1
        } else {
            0
        };
        let mut i: usize = 0;
        proof {
            lemma_from_is_tail(t, c as int, 0);
        }
        while i < st.trans.len()
            invariant
                t == canon@,
                canon_ok(t),
                state_ok(t, c as int),
                *st == t[c as int],
                forall|x: int| 0 <= x < t.len() ==> #[trigger] clist(t, x).len() <= bound,
                num@.len() == c,
                forall|x: int| 0 <= x < c ==> #[trigger] num@[x] == clist(t, x).len(),
                i <= st.trans@.len(),
                n == before(t, c as int, i as int),
                before(t, c as int, i as int) <= clist(t, c as int).len(),
            decreases st.trans@.len() - i,
        {
            let d = st.trans[i].1;
            proof {
                lemma_block(t, c as int, i as int);
                lemma_from_is_tail(t, c as int, i + 1);
            }
            n = n + num[d];
            i = i + 1;
        }
        proof {
            lemma_from_is_tail(t, c as int, i as int);
            assert(crate::fsa::lang::clist_from(t, c as int, i as int).len() == 0);
        }
        num.push(n);
        c = c + 1;
    }
    num
}

} // verus!

verus! {

/// What the reader needs of serialized bytes `b` of the states `t`
/// (rooted at `root`) and values `vals`.
pub open spec fn encoded(b: Seq<u8>, t: Seq<CanonState>, num: Seq<u64>, off: Seq<u32>, root: int, vals: Seq<u64>) -> bool {
    &&& 0 <= root < t.len()
    &&& states_in(b, t, num, off)
    &&& parse_layout(b) matches Ok(lay) && {
        &&& lay.blob_start == 18
        &&& lay.root_rel == off[root]
        &&& lay.value_count == vals.len()
        &&& lay.state_count == t.len()
        &&& forall|o: int| 0 <= o < vals.len() ==> #[trigger] read_value_spec(b, lay, o as u64) == vals[o]
    }
}

/// Header, states, then the value table.
fn serialize(canon: &Vec<CanonState>, num: &Vec<u64>, root: usize, vals: &Vec<u64>) -> (r: (Vec<u8>, Ghost<Seq<u32>>))
    requires
        canon_ok(canon@),
        num@.len() == canon@.len(),
        forall|c: int| 0 <= c < canon@.len() ==> #[trigger] num@[c] == clist(canon@, c).len(),
        root < canon@.len(),
        canon@.len() <= u32::MAX,
        vals@.len() <= u32::MAX,
        12 * canon@.len() + 21 * trans_total(canon@, canon@.len() as int) <= u32::MAX,
    ensures
        encoded(r.0@, canon@, num@, r.1@, root as int, vals@),
        r.0@.len() <= 18 + 12 * canon@.len() + 21 * trans_total(canon@, canon@.len() as int) + 8
            * vals@.len(),
{
    let ghost t = canon@;
    let (blob, off) = write_states(canon, num);
    let w = value_width(vals);
    let mut out: Vec<u8> = Vec::new();
    out.push(0x49);
    out.push(0x58);
    out.push(0x46);
    out.push(0x41);
    out.push(3);
    out.push(w);
    push_u32(&mut out, vals.len() as u32);
    push_u32(&mut out, off[root]);
    push_u32(&mut out, canon.len() as u32);
    let ghost hdr = out@;
    assert(hdr.len() == 18);
    let mut i: usize = 0;
    while i < blob.len()
        invariant
            i <= blob@.len(),
            out@ == hdr + blob@.take(i as int),
        decreases blob@.len() - i,
    {
        out.push(blob[i]);
        assert(blob@.take(i + 1) =~= blob@.take(i as int).push(blob@[i as int]));
        i = i + 1;
    }
    assert(blob@.take(blob@.len() as int) =~= blob@);
    let ghost hb = out@;
    write_values(&mut out, vals, w);
    proof {
        let b = out@;
        let ve = vals_enc(vals@, w as int);
        assert(b == hdr + blob@ + ve);
        crate::fsa::encode::lemma_vals_enc_len(vals@, w as int);
        // header fields
        assert(b.subrange(6, 10) =~= le32(vals@.len() as u32));
        assert(b.subrange(10, 14) =~= le32(off@[root as int]));
        assert(b.subrange(14, 18) =~= le32(t.len() as u32));
        lemma_u32_at_placed(b, 6, vals@.len() as u32);
        lemma_u32_at_placed(b, 10, off@[root as int]);
        lemma_u32_at_placed(b, 14, t.len() as u32);
        assert(le_u32_at(b, 6) == u32_at(b, 6));
        assert(le_u32_at(b, 10) == u32_at(b, 10));
        assert(le_u32_at(b, 14) == u32_at(b, 14));
        assert(b[0] == 0x49 && b[1] == 0x58 && b[2] == 0x46 && b[3] == 0x41 && b[4] == 3 && b[5] == w);
        assert((vals@.len() as u32) * (w as usize) == vals@.len() * w);
        assert(b.len() == 18 + blob@.len() + vals@.len() * w);
        assert(vals@.len() * w <= 8 * vals@.len()) by (nonlinear_arith)
            requires
                w <= 8,
        ;
        assert(out.len() == b.len());
        assert(b.len() <= usize::MAX);
        assert(b[5] as usize == w);
        assert(le_u32_at(b, 6) == vals@.len());
        let vl = le_u32_at(b, 6) * (b[5] as usize);
        assert(vl == vals@.len() * w);
        assert(b.len() >= 18 + vl);
        assert(parse_layout(b) is Ok);
        let lay = parse_layout(b)->Ok_0;
        assert(lay.values_start == (b.len() - vl) as usize);
        assert(lay.values_start == 18 + blob@.len());
        // states
        assert forall|c: int| 0 <= c < t.len() implies placed(
            b,
            18 + off@[c],
            #[trigger] crate::fsa::encode::enc_state(t, num@, off@, c),
        ) by {
            let e = crate::fsa::encode::enc_state(t, num@, off@, c);
            assert(placed(blob@, off@[c] as int, e));
            lemma_placed_prepend(hdr, blob@, off@[c] as int, e);
            lemma_placed_append(hdr + blob@, ve, 18 + off@[c], e);
        }
        // values
        assert forall|o: int| 0 <= o < vals@.len() implies #[trigger] read_value_spec(
            b,
            lay,
            o as u64,
        ) == vals@[o] by {
            lemma_vals_enc(vals@, w as int, o);
            lemma_placed_prepend(hdr + blob@, ve, o * w, le_bytes(vals@[o], w as int));
            assert((hdr + blob@).len() + o * w == lay.values_start + (o as u64) * lay.value_width);
            lemma_value_read(b, lay.values_start + (o as u64) * lay.value_width, w as int, vals@[o]);
        }
    }
    (out, Ghost(off@))
}

} // verus!

verus! {

/// Encoded bytes answer `get` as the trie they were built from.
proof fn lemma_encoded_get(
    b: Seq<u8>,
    t: Seq<CanonState>,
    num: Seq<u64>,
    off: Seq<u32>,
    root: int,
    vals: Seq<u64>,
    trie: TrieNode,
    k: Seq<u8>,
)
    requires
        canon_ok(t),
        encoded(b, t, num, off, root, vals),
        reps(t, root, trie),
        twf(trie),
        vals == tvals(trie),
    ensures
        bytes_get(b, k) == tget(trie, k),
{
    let lay = parse_layout(b)->Ok_0;
    lemma_reps_vals(t, root, trie);
    lemma_reps_accepts(t, root, trie, k);
    lemma_member(t, root, k);
    if vals.len() == 0 {
        if tget(trie, k) is Some {
            assert(clist(t, root).contains(k));
        }
    } else {
        lemma_walk(b, lay, t, num, off, root, k, 0);
        match cpath(t, root, k) {
            Some(e) => {
                lemma_final(b, lay, t, num, off, e);
                if t[e].final_ {
                    lemma_path_slice(t, root, k);
                    let o = cidx(t, root, k);
                    assert(clist(t, e).len() > 0) by {
                        lemma_member(t, e, Seq::<u8>::empty());
                        assert(cpath(t, e, Seq::<u8>::empty()) == Some(e));
                    }
                    assert(read_value_spec(b, lay, o as u64) == vals[o]);
                    assert(tget(trie, clist(t, root)[o]) == Some(tvals(trie)[o]));
                }
            },
            None => {},
        }
    }
}

/// A state with the shape of a live trie node accepts some key.
proof fn lemma_live_clist(t: Seq<CanonState>, c: int, n: TrieNode)
    requires
        canon_ok(t),
        reps(t, c, n),
        tlive(n),
    ensures
        clist(t, c).len() > 0,
    decreases n,
{
    assert(state_ok(t, c));
    if n.value is None {
        assert(n.kids@.len() > 0);
        let kid = n.kids@[0].1;
        let d = t[c].trans@[0].1 as int;
        assert(t[c].trans@.len() == n.kids@.len());
        assert(t[c].trans@[0].0 == n.kids@[0].0);
        assert(reps(t, d, kid));
        assert(tlive(kid));
        lemma_live_clist(t, d, kid);
        assert(0 <= d < c);
        assert(clist_from(t, c, 0) == prepend(t[c].trans@[0].0, clist(t, d)) + clist_from(t, c, 1));
        assert(clist(t, c) == here(t, c) + clist_from(t, c, 0));
    } else {
        assert(here(t, c).len() == 1);
        assert(clist(t, c) == here(t, c) + clist_from(t, c, 0));
    }
}

/// Reading any path from a state with the shape of a live trie node
/// leads, if anywhere, to a state that accepts some key.
proof fn lemma_path_live(t: Seq<CanonState>, c: int, n: TrieNode, p: Seq<u8>)
    requires
        canon_ok(t),
        reps(t, c, n),
        tlive(n),
    ensures
        cpath(t, c, p) matches Some(e) ==> clist(t, e).len() > 0,
    decreases p.len(),
{
    if p.len() == 0 {
        lemma_live_clist(t, c, n);
    } else if has_trans(t, c, p[0]) {
        let i = trans_index(t, c, p[0]);
        assert(0 <= i < t[c].trans@.len());
        assert(reps(t, t[c].trans@[i].1 as int, n.kids@[i].1));
        assert(tlive(n.kids@[i].1));
        lemma_path_live(t, t[c].trans@[i].1 as int, n.kids@[i].1, p.drop_first());
    }
}

/// In encoded bytes of a live trie, a prefix can be walked exactly when
/// the trie holds a key that starts with it, however long the keys.
proof fn lemma_encoded_has_key(
    b: Seq<u8>,
    t: Seq<CanonState>,
    num: Seq<u64>,
    off: Seq<u32>,
    root: int,
    vals: Seq<u64>,
    trie: TrieNode,
    p: Seq<u8>,
)
    requires
        canon_ok(t),
        encoded(b, t, num, off, root, vals),
        reps(t, root, trie),
        twf(trie),
        vals == tvals(trie),
        vals.len() > 0 ==> tlive(trie),
    ensures
        bytes_has_prefix(b, p) == exists|k: Seq<u8>| #[trigger] tget(trie, k) is Some && has_prefix(k, p),
{
    let lay = parse_layout(b)->Ok_0;
    lemma_reps_vals(t, root, trie);
    if exists|k: Seq<u8>| #[trigger] tget(trie, k) is Some && has_prefix(k, p) {
        let k = choose|k: Seq<u8>| #[trigger] tget(trie, k) is Some && has_prefix(k, p);
        lemma_reps_accepts(t, root, trie, k);
        lemma_member(t, root, k);
        lemma_prefix_member(t, root, p, k);
        assert(vals.len() > 0);
        lemma_walk(b, lay, t, num, off, root, p, 0);
    } else if vals.len() > 0 {
        lemma_walk(b, lay, t, num, off, root, p, 0);
        if cpath(t, root, p) is Some {
            let e = cpath(t, root, p)->0;
            lemma_path_live(t, root, trie, p);
            lemma_path_slice(t, root, p);
            let o = cidx(t, root, p);
            let y = clist(t, e)[0];
            let k = clist(t, root)[o + 0];
            assert(k == p + y);
            assert(tget(trie, k) == Some(tvals(trie)[o]));
            assert(k.subrange(0, p.len() as int) =~= p);
            assert(has_prefix(k, p));
        }
    }
}

/// Encoded bytes list the keys under a prefix as the trie they were
/// built from, in increasing order.
proof fn lemma_encoded_prefix(
    b: Seq<u8>,
    t: Seq<CanonState>,
    num: Seq<u64>,
    off: Seq<u32>,
    root: int,
    vals: Seq<u64>,
    trie: TrieNode,
    p: Seq<u8>,
)
    requires
        canon_ok(t),
        encoded(b, t, num, off, root, vals),
        reps(t, root, trie),
        twf(trie),
        vals == tvals(trie),
        theight(trie) <= MAX_WALK_DEPTH,
    ensures
        ({
            let r = bytes_prefix(b, p);
            &&& strictly_sorted(pair_keys(r))
            &&& forall|j: int|
                0 <= j < r.len() ==> has_prefix(#[trigger] r[j].0, p) && tget(trie, r[j].0) == Some(
                    r[j].1,
                )
            &&& forall|k: Seq<u8>|
                has_prefix(k, p) && #[trigger] tget(trie, k) is Some ==> exists|j: int|
                    0 <= j < r.len() && #[trigger] r[j].0 == k
        }),
{
    let lay = parse_layout(b)->Ok_0;
    let r = bytes_prefix(b, p);
    lemma_reps_vals(t, root, trie);
    lemma_sorted(t, root);
    let all = clist(t, root);
    assert forall|k: Seq<u8>| has_prefix(k, p) && #[trigger] tget(trie, k) is Some implies exists|
        j: int,
    | 0 <= j < r.len() && #[trigger] r[j].0 == k by {
        lemma_reps_accepts(t, root, trie, k);
        lemma_member(t, root, k);
        lemma_prefix_member(t, root, p, k);
        let e = cpath(t, root, p)->0;
        let y = k.skip(p.len() as int);
        let j = choose|j: int| 0 <= j < clist(t, e).len() && clist(t, e)[j] == y;
        lemma_path_slice(t, root, p);
        lemma_walk(b, lay, t, num, off, root, p, 0);
        lemma_path_height(t, root, p);
        lemma_reps_height(t, root, trie);
        lemma_subtree(b, lay, t, num, off, e, p, cidx(t, root, p) as u64);
        assert(vals.len() > 0);
        assert(p + y =~= k);
        assert(r[j].0 == k);
    }
    if vals.len() > 0 {
        lemma_walk(b, lay, t, num, off, root, p, 0);
        match cpath(t, root, p) {
            Some(e) => {
                lemma_path_slice(t, root, p);
                lemma_path_height(t, root, p);
                lemma_reps_height(t, root, trie);
                let o = cidx(t, root, p);
                lemma_subtree(b, lay, t, num, off, e, p, o as u64);
                assert(r == visit_pairs(b, lay, p, clist(t, e), o));
                assert forall|j: int| 0 <= j < r.len() implies has_prefix(#[trigger] r[j].0, p)
                    && tget(trie, r[j].0) == Some(r[j].1) by {
                    assert(r[j].0 == p + clist(t, e)[j]);
                    assert(r[j].0 == all[o + j]);
                    assert((p + clist(t, e)[j]).subrange(0, p.len() as int) =~= p);
                    assert(read_value_spec(b, lay, (o + j) as u64) == vals[o + j]);
                }
                assert forall|x: int, y: int| 0 <= x < y < pair_keys(r).len() implies seq_lt(
                    #[trigger] pair_keys(r)[x],
                    #[trigger] pair_keys(r)[y],
                ) by {
                    assert(pair_keys(r)[x] == all[o + x]);
                    assert(pair_keys(r)[y] == all[o + y]);
                }
            },
            None => {
                assert(r =~= Seq::<(Seq<u8>, u64)>::empty());
            },
        }
    } else {
        assert(r =~= Seq::<(Seq<u8>, u64)>::empty());
    }
}

} // verus!

verus! {

proof fn lemma_total_key_len_take(s: Seq<(Seq<u8>, u64)>, i: int)
    requires
        0 <= i <= s.len(),
    ensures
        total_key_len(s.take(i)) <= total_key_len(s),
    decreases s.len() - i,
{
    if i < s.len() {
        lemma_total_key_len_take(s, i + 1);
        assert(s.take(i + 1).drop_last() =~= s.take(i));
    } else {
        assert(s.take(i) =~= s);
    }
}

proof fn lemma_max_key_len_take(s: Seq<(Seq<u8>, u64)>, i: int)
    requires
        0 <= i <= s.len(),
    ensures
        max_key_len(s.take(i)) <= max_key_len(s),
    decreases s.len() - i,
{
    if i < s.len() {
        lemma_max_key_len_take(s, i + 1);
        assert(s.take(i + 1).drop_last() =~= s.take(i));
    } else {
        assert(s.take(i) =~= s);
    }
}

/// Strictly increasing keys hold no key twice.
proof fn lemma_sorted_no_dup(s: Seq<Seq<u8>>)
    requires
        strictly_sorted(s),
    ensures
        s.no_duplicates(),
{
    assert forall|i: int, j: int| 0 <= i < s.len() && 0 <= j < s.len() && i != j implies s[i]
        != s[j] by {
        if i < j {
            assert(seq_lt(s[i], s[j]));
            lemma_seq_lt_irreflexive(s[i]);
        } else {
            assert(seq_lt(s[j], s[i]));
            lemma_seq_lt_irreflexive(s[j]);
        }
    }
}

impl Builder {
    /// Consume the builder and return the serialized automaton. Reading
    /// it back gives, for every key, the value last inserted for it, and
    /// as many keys as were distinct; when no key is longer than the
    /// reader's walk depth, the keys under any prefix come back in
    /// increasing order with their values.
    pub fn finish(self) -> (r: Vec<u8>)
        requires
            total_key_len(self.entries()) <= MAX_TOTAL_KEY_BYTES,
        ensures
            parse_layout(r@) is Ok,
            parse_layout(r@)->Ok_0.value_count == pairs_map(self.entries()).dom().len(),
            forall|k: Seq<u8>| #[trigger] bytes_get(r@, k) == map_get(pairs_map(self.entries()), k),
            r@.len() <= 59 + 41 * total_key_len(self.entries()),
            max_key_len(self.entries()) <= MAX_WALK_DEPTH ==> forall|p: Seq<u8>|
                #[trigger] is_prefix_listing(bytes_prefix(r@, p), pairs_map(self.entries()), p),
            forall|p: Seq<u8>|
                #[trigger] bytes_has_prefix(r@, p) == exists|k: Seq<u8>|
                    pairs_map(self.entries()).dom().contains(k) && #[trigger] has_prefix(k, p),
    {
        let ghost e = self.entries();
        let mut trie = TrieNode::empty();
        let mut i: usize = 0;
        proof {
            assert(e.take(0) =~= Seq::<(Seq<u8>, u64)>::empty());
        }
        while i < self.pairs.len()
            invariant
                e == pairs_view(self.pairs@),
                i <= self.pairs@.len(),
                twf(trie),
                kids_live(trie),
                i > 0 ==> tlive(trie),
                i == 0 ==> trie.value is None && trie.kids@.len() == 0,
                forall|k: Seq<u8>| #[trigger] tget(trie, k) == map_get(pairs_map(e.take(i as int)), k),
                tsize(trie) <= 1 + total_key_len(e.take(i as int)),
                theight(trie) <= max_key_len(e.take(i as int)),
            decreases self.pairs@.len() - i,
        {
            let ghost before = trie;
            let key = self.pairs[i].0.as_slice();
            insert_at(&mut trie, key, 0, self.pairs[i].1);
            proof {
                let ei = e.take(i + 1);
                assert(ei.drop_last() =~= e.take(i as int));
                assert(ei.last() == (key@, self.pairs@[i as int].1));
                assert(key@.skip(0) =~= key@);
                assert forall|k: Seq<u8>| #[trigger] tget(trie, k) == map_get(pairs_map(ei), k) by {
                    assert(tget(trie, k) == if k == key@ {
                        Some(self.pairs@[i as int].1)
                    } else {
                        tget(before, k)
                    });
                }
            }
            i = i + 1;
        }
        proof {
            assert(e.take(i as int) =~= e);
        }
        let mut canon: Vec<CanonState> = Vec::new();
        let mut register: HashMap<u64, Vec<usize>> = HashMap::new();
        let root = minimize(&trie, &mut canon, &mut register);
        let mut vals: Vec<u64> = Vec::new();
        collect_values(&trie, &mut vals);
        proof {
            assert(vals@ =~= tvals(trie));
            crate::fsa::trie::lemma_tvals_len(trie);
            assert(trans_total(Seq::<CanonState>::empty(), 0) == 0);
        }
        let bound: u64 = MAX_TOTAL_KEY_BYTES as u64 + 1;
        let num = count_keys(&canon, bound);
        let (out, Ghost(off)) = serialize(&canon, &num, root, &vals);
        proof {
            let t = canon@;
            let b = out@;
            let m = pairs_map(e);
            assert forall|k: Seq<u8>| #[trigger] bytes_get(b, k) == map_get(m, k) by {
                lemma_encoded_get(b, t, num@, off, root as int, vals@, trie, k);
            }
            // key count
            lemma_reps_vals(t, root as int, trie);
            lemma_sorted(t, root as int);
            let all = clist(t, root as int);
            lemma_sorted_no_dup(all);
            all.unique_seq_to_set();
            assert forall|k: Seq<u8>| all.to_set().contains(k) <==> m.dom().contains(k) by {
                lemma_reps_accepts(t, root as int, trie, k);
                lemma_member(t, root as int, k);
                assert(tget(trie, k) == map_get(m, k));
            }
            assert(all.to_set() =~= m.dom());
            // prefix listing
            if max_key_len(e) <= MAX_WALK_DEPTH {
                assert forall|p: Seq<u8>| #[trigger] is_prefix_listing(bytes_prefix(b, p), m, p) by {
                    lemma_encoded_prefix(b, t, num@, off, root as int, vals@, trie, p);
                    let r = bytes_prefix(b, p);
                    assert forall|k: Seq<u8>| has_prefix(k, p) && m.dom().contains(k) implies exists|
                        j: int,
                    | 0 <= j < r.len() && #[trigger] r[j].0 == k by {
                        assert(tget(trie, k) == map_get(m, k));
                    }
                    assert forall|j: int| 0 <= j < r.len() implies has_prefix(#[trigger] r[j].0, p)
                        && map_get(m, r[j].0) == Some(r[j].1) by {
                        assert(tget(trie, r[j].0) == map_get(m, r[j].0));
                    }
                }
            }
            assert forall|p: Seq<u8>| #[trigger] bytes_has_prefix(b, p) == exists|k: Seq<u8>|
                m.dom().contains(k) && #[trigger] has_prefix(k, p) by {
                if vals@.len() > 0 {
                    assert(i > 0);
                }
                lemma_encoded_has_key(b, t, num@, off, root as int, vals@, trie, p);
                if exists|k: Seq<u8>| m.dom().contains(k) && #[trigger] has_prefix(k, p) {
                    let k = choose|k: Seq<u8>| m.dom().contains(k) && #[trigger] has_prefix(k, p);
                    assert(tget(trie, k) == map_get(m, k));
                }
                if exists|k: Seq<u8>| #[trigger] tget(trie, k) is Some && has_prefix(k, p) {
                    let k = choose|k: Seq<u8>| #[trigger] tget(trie, k) is Some && has_prefix(k, p);
                    assert(tget(trie, k) == map_get(m, k));
                }
            }
        }
        out
    }
}

} // verus!
