//! What a table of canonical states recognizes: the keys accepted from a
//! state in increasing order, the path a key takes, and the rank of a key
//! among the accepted ones. These are the terms in which the builder's
//! output is related to the reader's walk.

use vstd::prelude::*;

use crate::fsa::canon::{canon_ok, extends, reps, state_ok, CanonState};
use crate::fsa::trie::{
    has_kid, kid_index, lemma_kid_index, tget, theight, theight_kids, tvals, tvals_kids, twf,
    TrieNode,
};
use crate::text::{lemma_seq_lt_irreflexive, lemma_seq_lt_trans, seq_lt};

verus! {

/// Every key of `s` with `l` in front.
pub open spec fn prepend(l: u8, s: Seq<Seq<u8>>) -> Seq<Seq<u8>> {
    s.map_values(|k: Seq<u8>| seq![l] + k)
}

/// `[ε]` for an accepting state, else nothing.
pub open spec fn here(t: Seq<CanonState>, c: int) -> Seq<Seq<u8>> {
    if t[c].final_ {
        seq![Seq::<u8>::empty()]
    } else {
        Seq::empty()
    }
}

/// The keys accepted from state `c`, in increasing order.
pub open spec fn clist(t: Seq<CanonState>, c: int) -> Seq<Seq<u8>>
    decreases c, 1int, 0int,
{
    if 0 <= c < t.len() {
        here(t, c) + clist_from(t, c, 0)
    } else {
        Seq::empty()
    }
}

/// The keys accepted through transitions `i..` of state `c`.
pub open spec fn clist_from(t: Seq<CanonState>, c: int, i: int) -> Seq<Seq<u8>>
    decreases c, 0int, t[c].trans@.len() - i,
{
    if 0 <= c < t.len() && 0 <= i < t[c].trans@.len() {
        let d = t[c].trans@[i].1 as int;
        (if 0 <= d < c {
            prepend(t[c].trans@[i].0, clist(t, d))
        } else {
            Seq::empty()
        }) + clist_from(t, c, i + 1)
    } else {
        Seq::empty()
    }
}

/// State `c` has a transition labelled `b`.
pub open spec fn has_trans(t: Seq<CanonState>, c: int, b: u8) -> bool {
    exists|i: int| 0 <= i < t[c].trans@.len() && #[trigger] t[c].trans@[i].0 == b
}

/// Position of the transition labelled `b` of state `c`.
pub open spec fn trans_index(t: Seq<CanonState>, c: int, b: u8) -> int {
    choose|i: int| 0 <= i < t[c].trans@.len() && #[trigger] t[c].trans@[i].0 == b
}

/// The state reached from `c` by reading `k`.
pub open spec fn cpath(t: Seq<CanonState>, c: int, k: Seq<u8>) -> Option<int>
    decreases k.len(),
{
    if k.len() == 0 {
        Some(c)
    } else if has_trans(t, c, k[0]) {
        cpath(t, t[c].trans@[trans_index(t, c, k[0])].1 as int, k.drop_first())
    } else {
        None
    }
}

/// Position in `clist(t, c)` where the keys through transition `i` start.
pub open spec fn before(t: Seq<CanonState>, c: int, i: int) -> int {
    here(t, c).len() + clist_from(t, c, 0).len() - clist_from(t, c, i).len()
}

/// Number of accepted keys of `clist(t, c)` that sort before every key
/// starting with `k` (when `k` is a path from `c`).
pub open spec fn cidx(t: Seq<CanonState>, c: int, k: Seq<u8>) -> int
    decreases k.len(),
{
    if k.len() == 0 {
        0
    } else if has_trans(t, c, k[0]) {
        let i = trans_index(t, c, k[0]);
        before(t, c, i) + cidx(t, t[c].trans@[i].1 as int, k.drop_first())
    } else {
        0
    }
}

/// Keys strictly increase.
pub open spec fn strictly_sorted(s: Seq<Seq<u8>>) -> bool {
    forall|i: int, j: int| 0 <= i < j < s.len() ==> seq_lt(#[trigger] s[i], #[trigger] s[j])
}

/// Longest path out of state `c`.
pub open spec fn cheight(t: Seq<CanonState>, c: int) -> nat
    decreases c, 1int, 0int,
{
    if 0 <= c < t.len() {
        cheight_from(t, c, 0)
    } else {
        0
    }
}

pub open spec fn cheight_from(t: Seq<CanonState>, c: int, i: int) -> nat
    decreases c, 0int, t[c].trans@.len() - i,
{
    if 0 <= c < t.len() && 0 <= i < t[c].trans@.len() {
        let d = t[c].trans@[i].1 as int;
        let h = if 0 <= d < c {
            1 + cheight(t, d)
        } else {
            0
        };
        let r = cheight_from(t, c, i + 1);
        if h > r {
            h
        } else {
            r
        }
    } else {
        0
    }
}

// ─── Basic facts ──────────────────────────────────────────────────────

/// With increasing labels, the transition under the label at `j` is `j`.
pub proof fn lemma_trans_index(t: Seq<CanonState>, c: int, j: int)
    requires
        state_ok(t, c),
        0 <= j < t[c].trans@.len(),
    ensures
        has_trans(t, c, t[c].trans@[j].0),
        trans_index(t, c, t[c].trans@[j].0) == j,
{
    let b = t[c].trans@[j].0;
    assert(t[c].trans@[j].0 == b);
    let i = trans_index(t, c, b);
    if i < j {
        assert(t[c].trans@[i].0 < t[c].trans@[j].0);
    } else if i > j {
        assert(t[c].trans@[j].0 < t[c].trans@[i].0);
    }
}

/// Adding states after `c` changes nothing about `c`.
pub proof fn lemma_clist_extends(t: Seq<CanonState>, u: Seq<CanonState>, c: int)
    requires
        extends(t, u),
        0 <= c < t.len(),
    ensures
        clist(u, c) == clist(t, c),
    decreases c, 1int,
{
    assert(u[c] == t[c]);
    lemma_clist_from_extends(t, u, c, 0);
}

pub proof fn lemma_clist_from_extends(t: Seq<CanonState>, u: Seq<CanonState>, c: int, i: int)
    requires
        extends(t, u),
        0 <= c < t.len(),
        0 <= i,
    ensures
        clist_from(u, c, i) == clist_from(t, c, i),
    decreases c, 0int, t[c].trans@.len() - i,
{
    assert(u[c] == t[c]);
    if i < t[c].trans@.len() {
        let d = t[c].trans@[i].1 as int;
        if 0 <= d < c {
            lemma_clist_extends(t, u, d);
        }
        lemma_clist_from_extends(t, u, c, i + 1);
    }
}

/// `clist_from(t, c, i)` is the tail of `clist(t, c)` from `before(t, c, i)`.
pub proof fn lemma_from_is_tail(t: Seq<CanonState>, c: int, i: int)
    requires
        0 <= c < t.len(),
        0 <= i <= t[c].trans@.len(),
    ensures
        0 <= before(t, c, i) <= clist(t, c).len(),
        clist(t, c).skip(before(t, c, i)) == clist_from(t, c, i),
    decreases i,
{
    if i == 0 {
        assert(clist(t, c).skip(before(t, c, 0)) =~= clist_from(t, c, 0));
    } else {
        lemma_from_is_tail(t, c, i - 1);
        let d = t[c].trans@[i - 1].1 as int;
        let blk = if 0 <= d < c {
            prepend(t[c].trans@[i - 1].0, clist(t, d))
        } else {
            Seq::empty()
        };
        assert(clist_from(t, c, i - 1) == blk + clist_from(t, c, i));
        assert(before(t, c, i) == before(t, c, i - 1) + blk.len());
        let whole = clist(t, c);
        assert(whole.skip(before(t, c, i)) =~= whole.skip(before(t, c, i - 1)).skip(blk.len() as int));
        assert((blk + clist_from(t, c, i)).skip(blk.len() as int) =~= clist_from(t, c, i));
    }
}

/// The keys through transition `i` sit at `before(t, c, i)` in
/// `clist(t, c)`, each with the label in front.
pub proof fn lemma_block(t: Seq<CanonState>, c: int, i: int)
    requires
        state_ok(t, c),
        0 <= i < t[c].trans@.len(),
    ensures
        ({
            let d = t[c].trans@[i].1 as int;
            let l = t[c].trans@[i].0;
            &&& before(t, c, i) + clist(t, d).len() <= clist(t, c).len()
            &&& before(t, c, i + 1) == before(t, c, i) + clist(t, d).len()
            &&& forall|j: int|
                0 <= j < clist(t, d).len() ==> #[trigger] clist(t, c)[before(t, c, i) + j] == seq![l]
                    + clist(t, d)[j]
        }),
{
    lemma_from_is_tail(t, c, i);
    lemma_from_is_tail(t, c, i + 1);
    let d = t[c].trans@[i].1 as int;
    let l = t[c].trans@[i].0;
    assert(d < c);
    let blk = prepend(l, clist(t, d));
    assert(clist_from(t, c, i) == blk + clist_from(t, c, i + 1));
    assert forall|j: int| 0 <= j < clist(t, d).len() implies #[trigger] clist(t, c)[before(t, c, i)
        + j] == seq![l] + clist(t, d)[j] by {
        assert(clist(t, c).skip(before(t, c, i))[j] == clist_from(t, c, i)[j]);
    }
}

/// Every key through a transition is non-empty.
proof fn lemma_from_nonempty(t: Seq<CanonState>, c: int, i: int, x: int)
    requires
        0 <= c < t.len(),
        0 <= i,
        0 <= x < clist_from(t, c, i).len(),
    ensures
        clist_from(t, c, i)[x].len() > 0,
    decreases t[c].trans@.len() - i,
{
    if i < t[c].trans@.len() {
        let d = t[c].trans@[i].1 as int;
        let blk = if 0 <= d < c {
            prepend(t[c].trans@[i].0, clist(t, d))
        } else {
            Seq::empty()
        };
        if x >= blk.len() {
            lemma_from_nonempty(t, c, i + 1, x - blk.len());
        }
    }
}

/// A key through transitions `i..` starts with the label of one of them
/// and continues with a key of that transition's target.
proof fn lemma_from_member(t: Seq<CanonState>, c: int, i: int, x: int)
    requires
        state_ok(t, c),
        0 <= i,
        0 <= x < clist_from(t, c, i).len(),
    ensures
        ({
            let k = clist_from(t, c, i)[x];
            &&& k.len() > 0
            &&& has_trans(t, c, k[0])
            &&& i <= trans_index(t, c, k[0])
            &&& clist(t, t[c].trans@[trans_index(t, c, k[0])].1 as int).contains(k.drop_first())
        }),
    decreases t[c].trans@.len() - i,
{
    let d = t[c].trans@[i].1 as int;
    let l = t[c].trans@[i].0;
    let blk = prepend(l, clist(t, d));
    assert(d < c);
    assert(clist_from(t, c, i) == blk + clist_from(t, c, i + 1));
    if x < blk.len() {
        let k = clist_from(t, c, i)[x];
        assert(k == seq![l] + clist(t, d)[x]);
        assert(k[0] == l);
        lemma_trans_index(t, c, i);
        assert(k.drop_first() =~= clist(t, d)[x]);
    } else {
        lemma_from_member(t, c, i + 1, x - blk.len());
    }
}

// ─── Paths and ranks ──────────────────────────────────────────────────

/// Following a path `k` from `c` to `e`, the keys of `e` with `k` in
/// front sit at `cidx(t, c, k)` in the keys of `c`.
pub proof fn lemma_path_slice(t: Seq<CanonState>, c: int, k: Seq<u8>)
    requires
        canon_ok(t),
        0 <= c < t.len(),
        cpath(t, c, k) is Some,
    ensures
        ({
            let e = cpath(t, c, k)->0;
            &&& 0 <= e < t.len()
            &&& 0 <= cidx(t, c, k)
            &&& cidx(t, c, k) + clist(t, e).len() <= clist(t, c).len()
            &&& forall|j: int|
                0 <= j < clist(t, e).len() ==> #[trigger] clist(t, c)[cidx(t, c, k) + j] == k + clist(
                    t,
                    e,
                )[j]
        }),
    decreases k.len(),
{
    if k.len() == 0 {
        assert forall|j: int| 0 <= j < clist(t, c).len() implies #[trigger] clist(t, c)[cidx(
            t,
            c,
            k,
        ) + j] == k + clist(t, c)[j] by {
            assert(k + clist(t, c)[j] =~= clist(t, c)[j]);
        }
    } else {
        assert(state_ok(t, c));
        let i = trans_index(t, c, k[0]);
        let d = t[c].trans@[i].1 as int;
        let rest = k.drop_first();
        assert(d < c);
        lemma_path_slice(t, d, rest);
        lemma_block(t, c, i);
        lemma_from_is_tail(t, c, i);
        let e = cpath(t, d, rest)->0;
        assert(cpath(t, c, k) == cpath(t, d, rest));
        assert(k[0] == t[c].trans@[i].0);
        assert forall|j: int| 0 <= j < clist(t, e).len() implies #[trigger] clist(t, c)[cidx(
            t,
            c,
            k,
        ) + j] == k + clist(t, e)[j] by {
            let jj = cidx(t, d, rest) + j;
            assert(clist(t, d)[jj] == rest + clist(t, e)[j]);
            assert(clist(t, c)[before(t, c, i) + jj] == seq![k[0]] + clist(t, d)[jj]);
            assert(seq![k[0]] + (rest + clist(t, e)[j]) =~= k + clist(t, e)[j]);
        }
    }
}

/// `k` is accepted from `c` exactly when its path ends in an accepting
/// state; it then sits at `cidx(t, c, k)`.
pub proof fn lemma_member(t: Seq<CanonState>, c: int, k: Seq<u8>)
    requires
        canon_ok(t),
        0 <= c < t.len(),
    ensures
        clist(t, c).contains(k) <==> (cpath(t, c, k) matches Some(e) && t[e].final_),
        (cpath(t, c, k) matches Some(e) && t[e].final_) ==> clist(t, c)[cidx(t, c, k)] == k,
    decreases k.len(),
{
    assert(state_ok(t, c));
    if cpath(t, c, k) is Some && t[cpath(t, c, k)->0].final_ {
        let e = cpath(t, c, k)->0;
        lemma_path_slice(t, c, k);
        assert(clist(t, e)[0] == Seq::<u8>::empty());
        assert(clist(t, c)[cidx(t, c, k) + 0] == k + clist(t, e)[0]);
        assert(k + Seq::<u8>::empty() =~= k);
    }
    if clist(t, c).contains(k) {
        let x = choose|x: int| 0 <= x < clist(t, c).len() && clist(t, c)[x] == k;
        let h = here(t, c);
        if x < h.len() {
            assert(k == Seq::<u8>::empty());
        } else {
            lemma_from_member(t, c, 0, x - h.len());
            assert(clist_from(t, c, 0)[x - h.len()] == k);
            let i = trans_index(t, c, k[0]);
            let d = t[c].trans@[i].1 as int;
            assert(d < c);
            lemma_member(t, d, k.drop_first());
        }
    }
}

/// Every key through the path `p` from `c` has `p` in front.
pub proof fn lemma_prefix_member(t: Seq<CanonState>, c: int, p: Seq<u8>, k: Seq<u8>)
    requires
        canon_ok(t),
        0 <= c < t.len(),
        clist(t, c).contains(k),
        p.len() <= k.len(),
        k.subrange(0, p.len() as int) == p,
    ensures
        cpath(t, c, p) is Some,
        clist(t, cpath(t, c, p)->0).contains(k.skip(p.len() as int)),
    decreases p.len(),
{
    assert(state_ok(t, c));
    if p.len() == 0 {
        assert(k.skip(0) =~= k);
    } else {
        let x = choose|x: int| 0 <= x < clist(t, c).len() && clist(t, c)[x] == k;
        let h = here(t, c);
        assert(k[0] == p[0]);
        if x < h.len() {
            assert(k.len() == 0);
        } else {
            lemma_from_member(t, c, 0, x - h.len());
            assert(clist_from(t, c, 0)[x - h.len()] == k);
            let i = trans_index(t, c, k[0]);
            let d = t[c].trans@[i].1 as int;
            assert(d < c);
            assert(k.drop_first().subrange(0, p.drop_first().len() as int) =~= p.drop_first());
            lemma_prefix_member(t, d, p.drop_first(), k.drop_first());
            assert(k.drop_first().skip(p.drop_first().len() as int) =~= k.skip(p.len() as int));
        }
    }
}

// ─── Order ────────────────────────────────────────────────────────────

proof fn lemma_lt_cons(l: u8, a: Seq<u8>, m: u8, c: Seq<u8>)
    requires
        l < m || (l == m && seq_lt(a, c)),
    ensures
        seq_lt(seq![l] + a, seq![m] + c),
{
    assert((seq![l] + a).drop_first() =~= a);
    assert((seq![m] + c).drop_first() =~= c);
}

/// The keys of every state strictly increase.
pub proof fn lemma_sorted(t: Seq<CanonState>, c: int)
    requires
        canon_ok(t),
        0 <= c < t.len(),
    ensures
        strictly_sorted(clist(t, c)),
        forall|x: int|
            0 <= x < clist_from(t, c, 0).len() ==> #[trigger] clist_from(t, c, 0)[x].len() > 0,
    decreases c, 1int,
{
    assert(state_ok(t, c));
    lemma_sorted_from(t, c, 0);
    let h = here(t, c);
    let f = clist_from(t, c, 0);
    assert forall|x: int| 0 <= x < f.len() implies #[trigger] f[x].len() > 0 by {
        lemma_from_nonempty(t, c, 0, x);
    }
    assert forall|i: int, j: int| 0 <= i < j < clist(t, c).len() implies seq_lt(
        #[trigger] clist(t, c)[i],
        #[trigger] clist(t, c)[j],
    ) by {
        if i < h.len() {
            assert(clist(t, c)[i].len() == 0);
            assert(clist(t, c)[j] == f[j - h.len()]);
            lemma_from_nonempty(t, c, 0, j - h.len());
        } else {
            assert(clist(t, c)[i] == f[i - h.len()]);
            assert(clist(t, c)[j] == f[j - h.len()]);
        }
    }
}

/// Keys through transitions `i..` strictly increase, and all start
/// with a label at least that of transition `i`.
proof fn lemma_sorted_from(t: Seq<CanonState>, c: int, i: int)
    requires
        canon_ok(t),
        0 <= c < t.len(),
        0 <= i,
    ensures
        strictly_sorted(clist_from(t, c, i)),
        forall|x: int|
            0 <= x < clist_from(t, c, i).len() ==> clist_from(t, c, i)[x].len() > 0
                && t[c].trans@[i].0 <= (#[trigger] clist_from(t, c, i)[x])[0],
    decreases c, 0int, t[c].trans@.len() - i,
{
    assert(state_ok(t, c));
    if i < t[c].trans@.len() {
        let d = t[c].trans@[i].1 as int;
        let l = t[c].trans@[i].0;
        assert(d < c);
        lemma_sorted(t, d);
        lemma_sorted_from(t, c, i + 1);
        let blk = prepend(l, clist(t, d));
        let rest = clist_from(t, c, i + 1);
        let all = clist_from(t, c, i);
        assert(all == blk + rest);
        assert forall|x: int| 0 <= x < all.len() implies all[x].len() > 0 && l <= (
        #[trigger] all[x])[0] by {
            if x < blk.len() {
                assert(all[x] == seq![l] + clist(t, d)[x]);
            } else {
                lemma_from_nonempty(t, c, i + 1, x - blk.len());
                if i + 1 < t[c].trans@.len() {
                    assert(t[c].trans@[i].0 < t[c].trans@[i + 1].0);
                } else {
                    assert(rest.len() == 0);
                }
            }
        }
        assert forall|x: int, y: int| 0 <= x < y < all.len() implies seq_lt(
            #[trigger] all[x],
            #[trigger] all[y],
        ) by {
            if y < blk.len() {
                assert(seq_lt(clist(t, d)[x], clist(t, d)[y]));
                lemma_lt_cons(l, clist(t, d)[x], l, clist(t, d)[y]);
            } else if x < blk.len() {
                assert(all[x] == seq![l] + clist(t, d)[x]);
                let ky = all[y];
                assert(ky == rest[y - blk.len()]);
                assert(i + 1 < t[c].trans@.len());
                assert(t[c].trans@[i].0 < t[c].trans@[i + 1].0);
                assert(l < ky[0]);
                assert(ky =~= seq![ky[0]] + ky.drop_first());
                lemma_lt_cons(l, clist(t, d)[x], ky[0], ky.drop_first());
            } else {
                assert(seq_lt(rest[x - blk.len()], rest[y - blk.len()]));
            }
        }
    }
}

} // verus!

verus! {

// ─── The minimized automaton against its trie ─────────────────────────

/// A state shaped like a trie node lists exactly that node's keys, in
/// the order of the node's values.
pub proof fn lemma_reps_vals(t: Seq<CanonState>, c: int, n: TrieNode)
    requires
        canon_ok(t),
        reps(t, c, n),
        twf(n),
    ensures
        tvals(n).len() == clist(t, c).len(),
        forall|j: int|
            0 <= j < clist(t, c).len() ==> tget(n, #[trigger] clist(t, c)[j]) == Some(tvals(n)[j]),
    decreases n, 1int,
{
    lemma_reps_vals_from(t, c, n, 0);
    let h = here(t, c);
    let hv = match n.value {
        Some(v) => seq![v],
        None => Seq::<u64>::empty(),
    };
    assert(tvals(n) == hv + tvals_kids(n.kids@, 0));
    assert forall|j: int| 0 <= j < clist(t, c).len() implies tget(
        n,
        #[trigger] clist(t, c)[j],
    ) == Some(tvals(n)[j]) by {
        if j < h.len() {
            assert(clist(t, c)[j] == Seq::<u8>::empty());
        } else {
            assert(clist(t, c)[j] == clist_from(t, c, 0)[j - h.len()]);
            assert(tvals(n)[j] == tvals_kids(n.kids@, 0)[j - hv.len()]);
        }
    }
}

proof fn lemma_reps_vals_from(t: Seq<CanonState>, c: int, n: TrieNode, i: int)
    requires
        canon_ok(t),
        reps(t, c, n),
        twf(n),
        0 <= i,
    ensures
        tvals_kids(n.kids@, i).len() == clist_from(t, c, i).len(),
        forall|j: int|
            0 <= j < clist_from(t, c, i).len() ==> tget(n, #[trigger] clist_from(t, c, i)[j]) == Some(
                tvals_kids(n.kids@, i)[j],
            ),
    decreases n, 0int, n.kids@.len() - i,
{
    assert(state_ok(t, c));
    if i < n.kids@.len() {
        let kid = n.kids@[i].1;
        let l = n.kids@[i].0;
        let d = t[c].trans@[i].1 as int;
        assert(t[c].trans@[i].0 == l && reps(t, d, kid));
        assert(d < c);
        assert(twf(kid));
        lemma_reps_vals(t, d, kid);
        lemma_reps_vals_from(t, c, n, i + 1);
        lemma_kid_index(n, i);
        let blk = prepend(l, clist(t, d));
        let all = clist_from(t, c, i);
        assert(all == blk + clist_from(t, c, i + 1));
        let vs = tvals_kids(n.kids@, i);
        assert(vs == tvals(kid) + tvals_kids(n.kids@, i + 1));
        assert forall|j: int| 0 <= j < all.len() implies tget(n, #[trigger] all[j]) == Some(vs[j]) by {
            if j < blk.len() {
                let k = all[j];
                assert(k == seq![l] + clist(t, d)[j]);
                assert(k[0] == l);
                assert(k.drop_first() =~= clist(t, d)[j]);
                assert(tget(n, k) == tget(kid, k.drop_first()));
            } else {
                assert(all[j] == clist_from(t, c, i + 1)[j - blk.len()]);
            }
        }
    }
}

/// A state shaped like a trie node accepts exactly the node's keys.
pub proof fn lemma_reps_accepts(t: Seq<CanonState>, c: int, n: TrieNode, k: Seq<u8>)
    requires
        canon_ok(t),
        reps(t, c, n),
        twf(n),
    ensures
        (tget(n, k) is Some) <==> (cpath(t, c, k) is Some && t[cpath(t, c, k)->0].final_),
    decreases k.len(),
{
    if k.len() > 0 {
        assert(state_ok(t, c));
        if has_kid(n, k[0]) {
            let i = kid_index(n, k[0]);
            lemma_kid_index(n, i);
            let kid = n.kids@[i].1;
            assert(reps(t, c, n));
            assert(t[c].trans@.len() == n.kids@.len());
            assert(t[c].trans@[i].0 == n.kids@[i].0);
            assert(reps(t, t[c].trans@[i].1 as int, kid));
            lemma_trans_index(t, c, i);
            assert(twf(kid));
            lemma_reps_accepts(t, t[c].trans@[i].1 as int, kid, k.drop_first());
        } else if has_trans(t, c, k[0]) {
            let i = trans_index(t, c, k[0]);
            assert(t[c].trans@[i].0 == n.kids@[i].0);
            assert(has_kid(n, k[0]));
        }
    }
}

/// A state shaped like a trie node is exactly as high.
pub proof fn lemma_reps_height(t: Seq<CanonState>, c: int, n: TrieNode)
    requires
        canon_ok(t),
        reps(t, c, n),
    ensures
        cheight(t, c) == theight(n),
    decreases n, 1int,
{
    lemma_reps_height_from(t, c, n, 0);
}

proof fn lemma_reps_height_from(t: Seq<CanonState>, c: int, n: TrieNode, i: int)
    requires
        canon_ok(t),
        reps(t, c, n),
        0 <= i,
    ensures
        cheight_from(t, c, i) == theight_kids(n.kids@, i),
    decreases n, 0int, n.kids@.len() - i,
{
    assert(state_ok(t, c));
    if i < n.kids@.len() {
        let kid = n.kids@[i].1;
        let d = t[c].trans@[i].1 as int;
        assert(reps(t, c, n));
        assert(t[c].trans@.len() == n.kids@.len());
        assert(t[c].trans@[i].0 == n.kids@[i].0);
        assert(reps(t, d, kid));
        lemma_reps_height(t, d, kid);
        lemma_reps_height_from(t, c, n, i + 1);
    }
}

/// Following a path costs its length in height.
pub proof fn lemma_path_height(t: Seq<CanonState>, c: int, k: Seq<u8>)
    requires
        canon_ok(t),
        0 <= c < t.len(),
        cpath(t, c, k) is Some,
    ensures
        k.len() + cheight(t, cpath(t, c, k)->0) <= cheight(t, c),
    decreases k.len(),
{
    if k.len() > 0 {
        assert(state_ok(t, c));
        let i = trans_index(t, c, k[0]);
        let d = t[c].trans@[i].1 as int;
        lemma_path_height(t, d, k.drop_first());
        lemma_height_from_ge(t, c, 0, i);
    }
}

/// A transition's target is lower by at least one.
pub proof fn lemma_height_from_ge(t: Seq<CanonState>, c: int, j: int, i: int)
    requires
        canon_ok(t),
        0 <= c < t.len(),
        0 <= j <= i < t[c].trans@.len(),
    ensures
        1 + cheight(t, t[c].trans@[i].1 as int) <= cheight_from(t, c, j),
    decreases i - j,
{
    assert(state_ok(t, c));
    if j < i {
        lemma_height_from_ge(t, c, j + 1, i);
    }
}

} // verus!
