//! The second phase of the automaton build: minimization. Walking the
//! trie bottom-up, every node becomes a canonical state identified by its
//! finality and its (label, canonical target) transitions; a node whose
//! signature was already registered reuses that state, which merges all
//! equal sub-automata.

use vstd::prelude::*;
use std::collections::HashMap;

use crate::fsa::lang::{clist, lemma_clist_extends, lemma_reps_vals};
use crate::fsa::trie::{labels_sorted, lemma_tvals_len, tsize, tsize_kids, twf, TrieNode};

verus! {

/// A state of the minimized automaton: whether it accepts, and its
/// transitions (label, target id) by increasing label.
pub struct CanonState {
    pub final_: bool,
    pub trans: Vec<(u8, usize)>,
}

/// State `c` of `t` is well formed: labels strictly increase and every
/// target was created before it.
pub open spec fn state_ok(t: Seq<CanonState>, c: int) -> bool {
    &&& 0 <= c < t.len()
    &&& forall|i: int, j: int|
        0 <= i < j < t[c].trans@.len() ==> #[trigger] t[c].trans@[i].0 < #[trigger] t[c].trans@[j].0
    &&& forall|i: int| 0 <= i < t[c].trans@.len() ==> #[trigger] t[c].trans@[i].1 < c
}

pub open spec fn canon_ok(t: Seq<CanonState>) -> bool {
    forall|c: int| 0 <= c < t.len() ==> #[trigger] state_ok(t, c)
}

/// `u` extends `t`: the states of `t` are kept, in place.
pub open spec fn extends(t: Seq<CanonState>, u: Seq<CanonState>) -> bool {
    t.len() <= u.len() && forall|c: int| 0 <= c < t.len() ==> #[trigger] u[c] == t[c]
}

/// State `c` of `t` has the shape of the trie node `n`: same finality,
/// same labels, and each target has the shape of the matching child.
pub open spec fn reps(t: Seq<CanonState>, c: int, n: TrieNode) -> bool
    decreases n,
{
    &&& 0 <= c < t.len()
    &&& t[c].final_ == (n.value is Some)
    &&& t[c].trans@.len() == n.kids@.len()
    &&& forall|i: int|
        0 <= i < n.kids@.len() ==> #[trigger] t[c].trans@[i].0 == n.kids@[i].0 && reps(
            t,
            t[c].trans@[i].1 as int,
            n.kids@[i].1,
        )
}

/// Total number of transitions of the states `t[..k]`.
pub open spec fn trans_total(t: Seq<CanonState>, k: int) -> nat
    decreases k,
{
    if k <= 0 || k > t.len() {
        0
    } else {
        trans_total(t, k - 1) + t[k - 1].trans@.len()
    }
}

pub proof fn lemma_reps_extends(t: Seq<CanonState>, u: Seq<CanonState>, c: int, n: TrieNode)
    requires
        reps(t, c, n),
        extends(t, u),
    ensures
        reps(u, c, n),
    decreases n,
{
    assert(u[c] == t[c]);
    assert forall|i: int| 0 <= i < n.kids@.len() implies #[trigger] u[c].trans@[i].0
        == n.kids@[i].0 && reps(u, u[c].trans@[i].1 as int, n.kids@[i].1) by {
        assert(t[c].trans@[i].0 == n.kids@[i].0 && reps(t, t[c].trans@[i].1 as int, n.kids@[i].1));
        lemma_reps_extends(t, u, t[c].trans@[i].1 as int, n.kids@[i].1);
    }
    assert(0 <= c < u.len());
    assert(u[c].final_ == (n.value is Some));
    assert(u[c].trans@.len() == n.kids@.len());
}

proof fn lemma_trans_total_extends(t: Seq<CanonState>, u: Seq<CanonState>, k: int)
    requires
        extends(t, u),
        0 <= k <= t.len(),
    ensures
        trans_total(u, k) == trans_total(t, k),
    decreases k,
{
    if k > 0 {
        lemma_trans_total_extends(t, u, k - 1);
    }
}

/// Each child accounts for at least one node.
pub proof fn lemma_tsize_kids_ge(kids: Seq<(u8, TrieNode)>, i: int)
    requires
        0 <= i <= kids.len(),
    ensures
        tsize_kids(kids, i) >= kids.len() - i,
    decreases kids.len() - i,
{
    if i < kids.len() {
        lemma_tsize_kids_ge(kids, i + 1);
        assert(tsize(kids[i].1) >= 1);
    }
}

/// A child has no more nodes than all the children from `j` on.
proof fn lemma_tsize_kid(kids: Seq<(u8, TrieNode)>, j: int, i: int)
    requires
        0 <= j <= i < kids.len(),
    ensures
        tsize(kids[i].1) <= tsize_kids(kids, j),
    decreases i - j,
{
    if j < i {
        lemma_tsize_kid(kids, j + 1, i);
    }
}

/// The hash of a signature: starting from 1 for a final state and 2
/// otherwise, each transition (label, target) in turn mixes in as
/// `h = (h * 257 + label) % M; h = (h * 1_000_003 + target % M) % M`
/// with `M = 2^61 - 1`.
pub open spec fn sig_hash(final_: bool, trans: Seq<(u8, usize)>) -> int
    decreases trans.len(),
{
    if trans.len() == 0 {
        if final_ {
            1
        } else {
            2
        }
    } else {
        let m: int = 0x1fff_ffff_ffff_ffff;
        let h = sig_hash(final_, trans.drop_last());
        let x = trans.last();
        (((h * 257 + x.0) % m) * 1_000_003 + (x.1 as int) % m) % m
    }
}

/// A hash of a state's signature, used only to find candidates for
/// sharing; every candidate is compared in full before it is reused.
fn signature_hash(final_: bool, trans: &Vec<(u8, usize)>) -> (h: u64)
    ensures
        h == sig_hash(final_, trans@),
{
    let m: u128 = 0x1fff_ffff_ffff_ffff;
    let mut h: u128 = if final_ {
        1
    } else {
        2
    };
    let mut i: usize = 0;
    proof {
        assert(trans@.take(0) =~= Seq::<(u8, usize)>::empty());
    }
    while i < trans.len()
        invariant
            m == 0x1fff_ffff_ffff_ffffu128,
            i <= trans@.len(),
            h < m,
            h == sig_hash(final_, trans@.take(i as int)),
        decreases trans@.len() - i,
    {
        let ghost h0 = h;
        let a: u128 = trans[i].0 as u128;
        let t: u128 = trans[i].1 as u128;
        assert(h0 * 257 + a < 0x1_0000_0000_0000_0000_0000_0000_0000_0000) by (nonlinear_arith)
            requires
                h0 < 0x1fff_ffff_ffff_ffff,
                a < 256,
        ;
        h = (h * 257 + a) % m;
        let tm: u128 = t % m;
        assert(h * 1_000_003 + tm < 0x1_0000_0000_0000_0000_0000_0000_0000_0000) by (nonlinear_arith)
            requires
                h < 0x1fff_ffff_ffff_ffff,
                tm < 0x1fff_ffff_ffff_ffff,
        ;
        h = (h * 1_000_003 + tm) % m;
        proof {
            let p = trans@.take(i + 1);
            assert(p.drop_last() =~= trans@.take(i as int));
            assert(p.last() == trans@[i as int]);
        }
        i = i + 1;
    }
    proof {
        assert(trans@.take(i as int) =~= trans@);
    }
    h as u64
}

/// Whether two transition lists are equal.
fn trans_eq(a: &Vec<(u8, usize)>, c: &Vec<(u8, usize)>) -> (r: bool)
    ensures
        r == (a@ == c@),
{
    if a.len() != c.len() {
        return false;
    }
    let mut i: usize = 0;
    while i < a.len()
        invariant
            a@.len() == c@.len(),
            i <= a@.len(),
            forall|j: int| 0 <= j < i ==> a@[j] == c@[j],
        decreases a@.len() - i,
    {
        if a[i].0 != c[i].0 || a[i].1 != c[i].1 {
            return false;
        }
        i = i + 1;
    }
    assert(a@ =~= c@);
    true
}

/// Canonical id of the trie node `n`: the states of its sub-automaton
/// are added to `canon` bottom-up, reusing any state of equal signature
/// already present.
pub fn minimize(n: &TrieNode, canon: &mut Vec<CanonState>, register: &mut HashMap<u64, Vec<usize>>) -> (r:
    usize)
    requires
        twf(*n),
        canon_ok(old(canon)@),
    ensures
        canon_ok(final(canon)@),
        extends(old(canon)@, final(canon)@),
        reps(final(canon)@, r as int, *n),
        final(canon)@.len() <= old(canon)@.len() + tsize(*n),
        trans_total(final(canon)@, final(canon)@.len() as int) + 1 <= trans_total(
            old(canon)@,
            old(canon)@.len() as int,
        ) + tsize(*n),
        forall|c: int|
            old(canon)@.len() <= c < final(canon)@.len() ==> #[trigger] clist(final(canon)@, c).len()
                <= tsize(*n),
    decreases *n,
{
    let ghost t0 = canon@;
    let ghost kids = n.kids@;
    let mut trans: Vec<(u8, usize)> = Vec::new();
    let mut i: usize = 0;
    proof {
        lemma_tsize_kids_ge(kids, 0);
    }
    while i < n.kids.len()
        invariant
            kids == n.kids@,
            twf(*n),
            canon_ok(canon@),
            extends(t0, canon@),
            i <= kids.len(),
            trans@.len() == i,
            forall|j: int|
                0 <= j < i ==> #[trigger] trans@[j].0 == kids[j].0 && trans@[j].1 < canon@.len()
                    && reps(canon@, trans@[j].1 as int, kids[j].1),
            canon@.len() + tsize_kids(kids, i as int) <= t0.len() + tsize_kids(kids, 0),
            trans_total(canon@, canon@.len() as int) + tsize_kids(kids, i as int) + i <= trans_total(
                t0,
                t0.len() as int,
            ) + tsize_kids(kids, 0),
            forall|c: int| t0.len() <= c < canon@.len() ==> #[trigger] clist(canon@, c).len() <= tsize(*n),
        decreases kids.len() - i,
    {
        let ghost t1 = canon@;
        assert(twf(kids[i as int].1));
        let cid = minimize(&n.kids[i].1, canon, register);
        proof {
            lemma_tsize_kid(kids, 0, i as int);
            assert forall|c: int| t0.len() <= c < canon@.len() implies #[trigger] clist(canon@, c).len()
                <= tsize(*n) by {
                if c < t1.len() {
                    lemma_clist_extends(t1, canon@, c);
                }
            }
            assert forall|j: int| 0 <= j < i implies #[trigger] trans@[j].0 == kids[j].0
                && trans@[j].1 < canon@.len() && reps(canon@, trans@[j].1 as int, kids[j].1) by {
                assert(trans@[j].0 == kids[j].0 && trans@[j].1 < t1.len() && reps(t1, trans@[j].1 as int, kids[j].1));
                lemma_reps_extends(t1, canon@, trans@[j].1 as int, kids[j].1);
            }
        }
        trans.push((n.kids[i].0, cid));
        i = i + 1;
    }
    let final_ = n.value.is_some();
    proof {
        assert(labels_sorted(*n));
        assert forall|x: int, y: int| 0 <= x < y < trans@.len() implies #[trigger] trans@[x].0
            < #[trigger] trans@[y].0 by {
            assert(kids[x].0 < kids[y].0);
        }
    }
    let h = signature_hash(final_, &trans);
    if let Some(bucket) = register.get(&h) {
        let mut k: usize = 0;
        #[verifier::loop_isolation(false)]
        while k < bucket.len()
            invariant
                canon_ok(canon@),
                extends(t0, canon@),
            decreases bucket@.len() - k,
        {
            let id = bucket[k];
            if id < canon.len() && canon[id].final_ == final_ && trans_eq(&canon[id].trans, &trans) {
                proof {
                    assert(canon@[id as int].trans@ == trans@);
                    assert forall|j: int| 0 <= j < kids.len() implies #[trigger] canon@[id as int].trans@[j].0
                        == kids[j].0 && reps(canon@, canon@[id as int].trans@[j].1 as int, kids[j].1) by {
                        assert(trans@[j].0 == kids[j].0);
                    }
                    assert(reps(canon@, id as int, *n));
                }
                return id;
            }
            k = k + 1;
        }
    }
    let id = canon.len();
    let ghost t2 = canon@;
    let ghost tr = trans@;
    canon.push(CanonState { final_, trans });
    proof {
        let t3 = canon@;
        assert(extends(t2, t3));
        assert(extends(t0, t3));
        assert forall|c: int| 0 <= c < t3.len() implies #[trigger] state_ok(t3, c) by {
            if c < t2.len() {
                assert(state_ok(t2, c));
                assert(t3[c] == t2[c]);
            } else {
                assert(t3[c].trans@ == tr);
                assert forall|j: int| 0 <= j < tr.len() implies #[trigger] tr[j].1 < c by {
                    assert(tr[j].0 == kids[j].0);
                }
            }
        }
        assert forall|j: int| 0 <= j < kids.len() implies #[trigger] t3[id as int].trans@[j].0
            == kids[j].0 && reps(t3, t3[id as int].trans@[j].1 as int, kids[j].1) by {
            assert(tr[j].0 == kids[j].0);
            lemma_reps_extends(t2, t3, tr[j].1 as int, kids[j].1);
        }
        lemma_trans_total_extends(t2, t3, t2.len() as int);
        lemma_reps_vals(t3, id as int, *n);
        lemma_tvals_len(*n);
        assert forall|c: int| t0.len() <= c < t3.len() implies #[trigger] clist(t3, c).len() <= tsize(*n) by {
            if c < t2.len() {
                lemma_clist_extends(t2, t3, c);
            }
        }
    }
    let mut ids = match register.remove(&h) {
        Some(v) => v,
        None => Vec::new(),
    };
    ids.push(id);
    register.insert(h, ids);
    id
}

} // verus!
