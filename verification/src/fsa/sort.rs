//! Sorting (code, item, value) triples, in one of two orders: codes
//! ascending, then values descending, then items ascending (the
//! dictionary builder's order); or codes, items and values all
//! ascending.

use vstd::prelude::*;

use crate::fsa::dict::deep_triples;
use crate::fsa::reader::slice_to_vec_u8;
use crate::text::{compare_bytes, lemma_seq_lt_irreflexive, lemma_seq_lt_total, lemma_seq_lt_trans, seq_lt};

verus! {

/// `a` sorts strictly before `c`: by code, then by value descending,
/// then by item.
pub open spec fn tri_lt(a: (Seq<u8>, Seq<u8>, u64), c: (Seq<u8>, Seq<u8>, u64)) -> bool {
    seq_lt(a.0, c.0) || (a.0 == c.0 && (a.2 > c.2 || (a.2 == c.2 && seq_lt(a.1, c.1))))
}

/// Nothing later sorts strictly before anything earlier.
pub open spec fn tri_sorted(s: Seq<(Seq<u8>, Seq<u8>, u64)>) -> bool {
    forall|i: int, j: int| 0 <= i < j < s.len() ==> !tri_lt(#[trigger] s[j], #[trigger] s[i])
}

/// `a` sorts strictly before `c`: by code, then by item, then by value,
/// all ascending.
pub open spec fn pair_lt(a: (Seq<u8>, Seq<u8>, u64), c: (Seq<u8>, Seq<u8>, u64)) -> bool {
    seq_lt(a.0, c.0) || (a.0 == c.0 && (seq_lt(a.1, c.1) || (a.1 == c.1 && a.2 < c.2)))
}

/// Nothing later sorts strictly before anything earlier, by code, item
/// and value ascending.
pub open spec fn pair_sorted(s: Seq<(Seq<u8>, Seq<u8>, u64)>) -> bool {
    forall|i: int, j: int| 0 <= i < j < s.len() ==> !pair_lt(#[trigger] s[j], #[trigger] s[i])
}

/// The order picked by `by_item`: `pair_lt` when set, `tri_lt` otherwise.
pub open spec fn lt_by(by_item: bool, a: (Seq<u8>, Seq<u8>, u64), c: (Seq<u8>, Seq<u8>, u64)) -> bool {
    if by_item {
        pair_lt(a, c)
    } else {
        tri_lt(a, c)
    }
}

/// Sorted in the order picked by `by_item`.
pub open spec fn sorted_by(by_item: bool, s: Seq<(Seq<u8>, Seq<u8>, u64)>) -> bool {
    forall|i: int, j: int| 0 <= i < j < s.len() ==> !lt_by(by_item, #[trigger] s[j], #[trigger] s[i])
}

/// How often `x` occurs in `s`.
pub open spec fn count_of<A>(s: Seq<A>, x: A) -> nat
    decreases s.len(),
{
    if s.len() == 0 {
        0
    } else {
        count_of(s.drop_last(), x) + if s.last() == x {
            1nat
        } else {
            0nat
        }
    }
}

/// Total length of the codes of `s`.
pub open spec fn code_total(s: Seq<(Seq<u8>, Seq<u8>, u64)>) -> nat
    decreases s.len(),
{
    if s.len() == 0 {
        0
    } else {
        code_total(s.drop_last()) + s.last().0.len()
    }
}

pub proof fn lemma_code_total_concat(a: Seq<(Seq<u8>, Seq<u8>, u64)>, c: Seq<(Seq<u8>, Seq<u8>, u64)>)
    ensures
        code_total(a + c) == code_total(a) + code_total(c),
    decreases c.len(),
{
    if c.len() > 0 {
        lemma_code_total_concat(a, c.drop_last());
        assert((a + c).drop_last() =~= a + c.drop_last());
    } else {
        assert(a + c =~= a);
    }
}

pub proof fn lemma_count_concat<A>(a: Seq<A>, c: Seq<A>, x: A)
    ensures
        count_of(a + c, x) == count_of(a, x) + count_of(c, x),
    decreases c.len(),
{
    if c.len() > 0 {
        lemma_count_concat(a, c.drop_last(), x);
        assert((a + c).drop_last() =~= a + c.drop_last());
    } else {
        assert(a + c =~= a);
    }
}

pub proof fn lemma_count_cons<A>(y: A, c: Seq<A>, x: A)
    ensures
        count_of(seq![y] + c, x) == count_of(c, x) + if y == x {
            1nat
        } else {
            0nat
        },
{
    lemma_count_concat(seq![y], c, x);
    assert(seq![y].drop_last() =~= Seq::<A>::empty());
    assert(seq![y].last() == y);
    assert(count_of(Seq::<A>::empty(), x) == 0);
}

pub proof fn lemma_tri_total(a: (Seq<u8>, Seq<u8>, u64), c: (Seq<u8>, Seq<u8>, u64))
    ensures
        tri_lt(a, c) || tri_lt(c, a) || a == c,
        !(tri_lt(a, c) && tri_lt(c, a)),
        !tri_lt(a, a),
{
    lemma_seq_lt_total(a.0, c.0);
    lemma_seq_lt_total(a.1, c.1);
    lemma_seq_lt_irreflexive(a.0);
    lemma_seq_lt_irreflexive(a.1);
}

pub proof fn lemma_tri_trans(a: (Seq<u8>, Seq<u8>, u64), c: (Seq<u8>, Seq<u8>, u64), d: (Seq<u8>, Seq<u8>, u64))
    requires
        tri_lt(a, c),
        tri_lt(c, d),
    ensures
        tri_lt(a, d),
{
    lemma_seq_lt_total(a.0, c.0);
    lemma_seq_lt_total(c.0, d.0);
    lemma_seq_lt_total(a.0, d.0);
    if seq_lt(a.0, c.0) && seq_lt(c.0, d.0) {
        lemma_seq_lt_trans(a.0, c.0, d.0);
    }
    if a.0 == c.0 && c.0 == d.0 && a.2 == c.2 && c.2 == d.2 {
        lemma_seq_lt_trans(a.1, c.1, d.1);
    }
}

pub proof fn lemma_by_total(by_item: bool, a: (Seq<u8>, Seq<u8>, u64), c: (Seq<u8>, Seq<u8>, u64))
    ensures
        lt_by(by_item, a, c) || lt_by(by_item, c, a) || a == c,
        !(lt_by(by_item, a, c) && lt_by(by_item, c, a)),
        !lt_by(by_item, a, a),
{
    lemma_seq_lt_total(a.0, c.0);
    lemma_seq_lt_total(a.1, c.1);
    lemma_seq_lt_irreflexive(a.0);
    lemma_seq_lt_irreflexive(a.1);
}

pub proof fn lemma_by_trans(
    by_item: bool,
    a: (Seq<u8>, Seq<u8>, u64),
    c: (Seq<u8>, Seq<u8>, u64),
    d: (Seq<u8>, Seq<u8>, u64),
)
    requires
        lt_by(by_item, a, c),
        lt_by(by_item, c, d),
    ensures
        lt_by(by_item, a, d),
{
    if !by_item {
        lemma_tri_trans(a, c, d);
    } else {
        lemma_seq_lt_total(a.0, c.0);
        lemma_seq_lt_total(c.0, d.0);
        lemma_seq_lt_total(a.0, d.0);
        if seq_lt(a.0, c.0) && seq_lt(c.0, d.0) {
            lemma_seq_lt_trans(a.0, c.0, d.0);
        }
        if a.0 == c.0 && c.0 == d.0 && seq_lt(a.1, c.1) && seq_lt(c.1, d.1) {
            lemma_seq_lt_trans(a.1, c.1, d.1);
        }
    }
}

/// Whether `a` may precede `c` in the order picked by `by_item`.
fn le_by_exec(by_item: bool, a: &(Vec<u8>, Vec<u8>, u64), c: &(Vec<u8>, Vec<u8>, u64)) -> (r: bool)
    ensures
        r == !lt_by(by_item, (c.0@, c.1@, c.2), (a.0@, a.1@, a.2)),
{
    let k = compare_bytes(a.0.as_slice(), c.0.as_slice());
    if k != 0 {
        return k < 0;
    }
    if by_item {
        let m = compare_bytes(a.1.as_slice(), c.1.as_slice());
        if m != 0 {
            return m < 0;
        }
        return a.2 <= c.2;
    }
    if a.2 != c.2 {
        return a.2 > c.2;
    }
    compare_bytes(a.1.as_slice(), c.1.as_slice()) <= 0
}

fn copy_triple(x: &(Vec<u8>, Vec<u8>, u64)) -> (r: (Vec<u8>, Vec<u8>, u64))
    ensures
        (r.0@, r.1@, r.2) == (x.0@, x.1@, x.2),
{
    (slice_to_vec_u8(x.0.as_slice()), slice_to_vec_u8(x.1.as_slice()), x.2)
}

/// Merge two sorted lists.
fn merge(by_item: bool, l: &Vec<(Vec<u8>, Vec<u8>, u64)>, r: &Vec<(Vec<u8>, Vec<u8>, u64)>) -> (out: Vec<
    (Vec<u8>, Vec<u8>, u64),
>)
    requires
        sorted_by(by_item, deep_triples(l@)),
        sorted_by(by_item, deep_triples(r@)),
    ensures
        sorted_by(by_item, deep_triples(out@)),
        forall|x: (Seq<u8>, Seq<u8>, u64)| #[trigger]
            count_of(deep_triples(out@), x) == count_of(deep_triples(l@), x) + count_of(
                deep_triples(r@),
                x,
            ),
        code_total(deep_triples(out@)) == code_total(deep_triples(l@)) + code_total(deep_triples(r@)),
        out@.len() == l@.len() + r@.len(),
{
    let ghost dl = deep_triples(l@);
    let ghost dr = deep_triples(r@);
    let mut out: Vec<(Vec<u8>, Vec<u8>, u64)> = Vec::new();
    let mut i: usize = 0;
    let mut j: usize = 0;
    proof {
        assert(dl.skip(0) =~= dl);
        assert(dr.skip(0) =~= dr);
    }
    while i < l.len() || j < r.len()
        invariant
            dl == deep_triples(l@),
            dr == deep_triples(r@),
            sorted_by(by_item, dl),
            sorted_by(by_item, dr),
            i <= l@.len(),
            j <= r@.len(),
            out@.len() == i + j,
            sorted_by(by_item, deep_triples(out@)),
            out@.len() > 0 && i < l@.len() ==> !lt_by(by_item, dl[i as int], deep_triples(out@).last()),
            out@.len() > 0 && j < r@.len() ==> !lt_by(by_item, dr[j as int], deep_triples(out@).last()),
            forall|x: (Seq<u8>, Seq<u8>, u64)| #[trigger]
                count_of(deep_triples(out@), x) + count_of(dl.skip(i as int), x) + count_of(
                    dr.skip(j as int),
                    x,
                ) == count_of(dl, x) + count_of(dr, x),
            code_total(deep_triples(out@)) + code_total(dl.skip(i as int)) + code_total(dr.skip(j as int))
                == code_total(dl) + code_total(dr),
        decreases l@.len() + r@.len() - i - j,
    {
        let take_left = if i < l.len() && j < r.len() {
            le_by_exec(by_item, &l[i], &r[j])
        } else {
            i < l.len()
        };
        let ghost before = deep_triples(out@);
        let ghost y: (Seq<u8>, Seq<u8>, u64) = if take_left {
            dl[i as int]
        } else {
            dr[j as int]
        };
        if take_left {
            let t = copy_triple(&l[i]);
            out.push(t);
        } else {
            let t = copy_triple(&r[j]);
            out.push(t);
        }
        proof {
            let o = deep_triples(out@);
            assert(o =~= before.push(y));
            assert forall|a: int, b: int| 0 <= a < b < o.len() implies !lt_by(by_item, #[trigger] o[b], #[trigger] o[a]) by {
                if b == o.len() - 1 && a < b {
                    let last = before.last();
                    assert(!lt_by(by_item, y, last));
                    if a < before.len() - 1 {
                        assert(!lt_by(by_item, last, before[a]));
                        lemma_by_total(by_item, y, before[a]);
                        lemma_by_total(by_item, last, before[a]);
                        if lt_by(by_item, y, before[a]) {
                            if before[a] == last {
                            } else {
                                lemma_by_trans(by_item, y, before[a], last);
                            }
                        }
                    }
                }
            }
            assert(o.drop_last() =~= before);
            if take_left {
                assert(dl.skip(i as int) =~= seq![y] + dl.skip(i + 1));
                lemma_code_total_concat(seq![y], dl.skip(i + 1));
                assert(code_total(seq![y]) == y.0.len()) by {
                    assert(seq![y].drop_last() =~= Seq::<(Seq<u8>, Seq<u8>, u64)>::empty());
                    assert(seq![y].last() == y);
                    assert(code_total(Seq::<(Seq<u8>, Seq<u8>, u64)>::empty()) == 0);
                }
                assert forall|x: (Seq<u8>, Seq<u8>, u64)| #[trigger]
                    count_of(o, x) + count_of(dl.skip(i + 1), x) + count_of(dr.skip(j as int), x)
                        == count_of(dl, x) + count_of(dr, x) by {
                    lemma_count_cons(y, dl.skip(i + 1), x);
                    assert(count_of(o, x) == count_of(before, x) + if y == x {
                        1nat
                    } else {
                        0nat
                    }) by {
                        assert(o.drop_last() =~= before);
                    }
                }
                if i + 1 < l@.len() {
                    assert(!lt_by(by_item, dl[i + 1], dl[i as int]));
                }
                if j < r@.len() {
                    assert(!lt_by(by_item, dr[j as int], dl[i as int]));
                }
            } else {
                assert(dr.skip(j as int) =~= seq![y] + dr.skip(j + 1));
                lemma_code_total_concat(seq![y], dr.skip(j + 1));
                assert(code_total(seq![y]) == y.0.len()) by {
                    assert(seq![y].drop_last() =~= Seq::<(Seq<u8>, Seq<u8>, u64)>::empty());
                    assert(seq![y].last() == y);
                    assert(code_total(Seq::<(Seq<u8>, Seq<u8>, u64)>::empty()) == 0);
                }
                assert forall|x: (Seq<u8>, Seq<u8>, u64)| #[trigger]
                    count_of(o, x) + count_of(dl.skip(i as int), x) + count_of(dr.skip(j + 1), x)
                        == count_of(dl, x) + count_of(dr, x) by {
                    lemma_count_cons(y, dr.skip(j + 1), x);
                    assert(count_of(o, x) == count_of(before, x) + if y == x {
                        1nat
                    } else {
                        0nat
                    }) by {
                        assert(o.drop_last() =~= before);
                    }
                }
                if j + 1 < r@.len() {
                    assert(!lt_by(by_item, dr[j + 1], dr[j as int]));
                }
                if i < l@.len() {
                    lemma_by_total(by_item, dl[i as int], dr[j as int]);
                }
            }
        }
        if take_left {
            i = i + 1;
        } else {
            j = j + 1;
        }
    }
    proof {
        assert(dl.skip(i as int) =~= Seq::<(Seq<u8>, Seq<u8>, u64)>::empty());
        assert(dr.skip(j as int) =~= Seq::<(Seq<u8>, Seq<u8>, u64)>::empty());
    }
    out
}

/// The triples in the order picked by `by_item`.
fn sort_by(by_item: bool, v: Vec<(Vec<u8>, Vec<u8>, u64)>) -> (r: Vec<(Vec<u8>, Vec<u8>, u64)>)
    ensures
        sorted_by(by_item, deep_triples(r@)),
        forall|x: (Seq<u8>, Seq<u8>, u64)| #[trigger]
            count_of(deep_triples(r@), x) == count_of(deep_triples(v@), x),
        code_total(deep_triples(r@)) == code_total(deep_triples(v@)),
        r@.len() == v@.len(),
    decreases v@.len(),
{
    if v.len() <= 1 {
        return v;
    }
    let mid = v.len() / 2;
    let mut left = v;
    let ghost whole = deep_triples(left@);
    let right = left.split_off(mid);
    proof {
        assert(whole =~= deep_triples(left@) + deep_triples(right@));
    }
    let sl = sort_by(by_item, left);
    let sr = sort_by(by_item, right);
    let out = merge(by_item, &sl, &sr);
    proof {
        assert forall|x: (Seq<u8>, Seq<u8>, u64)| #[trigger] count_of(deep_triples(out@), x) == count_of(whole, x) by {
            lemma_count_concat(deep_triples(left@), deep_triples(right@), x);
        }
        lemma_code_total_concat(deep_triples(left@), deep_triples(right@));
    }
    out
}

/// The triples in sorted order: codes ascending, then values
/// descending, then items ascending.
pub fn sort_triples(v: Vec<(Vec<u8>, Vec<u8>, u64)>) -> (r: Vec<(Vec<u8>, Vec<u8>, u64)>)
    ensures
        tri_sorted(deep_triples(r@)),
        forall|x: (Seq<u8>, Seq<u8>, u64)| #[trigger]
            count_of(deep_triples(r@), x) == count_of(deep_triples(v@), x),
        code_total(deep_triples(r@)) == code_total(deep_triples(v@)),
        r@.len() == v@.len(),
{
    let r = sort_by(false, v);
    let ghost d = deep_triples(r@);
    assert forall|i: int, j: int| 0 <= i < j < d.len() implies !tri_lt(#[trigger] d[j], #[trigger] d[i]) by {
        assert(!lt_by(false, d[j], d[i]));
    }
    r
}

/// The triples with codes, items and values all ascending.
pub fn sort_pairs(v: Vec<(Vec<u8>, Vec<u8>, u64)>) -> (r: Vec<(Vec<u8>, Vec<u8>, u64)>)
    ensures
        pair_sorted(deep_triples(r@)),
        forall|x: (Seq<u8>, Seq<u8>, u64)| #[trigger]
            count_of(deep_triples(r@), x) == count_of(deep_triples(v@), x),
        code_total(deep_triples(r@)) == code_total(deep_triples(v@)),
        r@.len() == v@.len(),
{
    let r = sort_by(true, v);
    let ghost d = deep_triples(r@);
    assert forall|i: int, j: int| 0 <= i < j < d.len() implies !pair_lt(#[trigger] d[j], #[trigger] d[i]) by {
        assert(!lt_by(true, d[j], d[i]));
    }
    r
}


/// Two lists sorted in the order picked by `by_item` that hold the same
/// items, each as often, are the same list.
pub proof fn lemma_sorted_perm_unique(
    by_item: bool,
    s: Seq<(Seq<u8>, Seq<u8>, u64)>,
    t: Seq<(Seq<u8>, Seq<u8>, u64)>,
)
    requires
        sorted_by(by_item, s),
        sorted_by(by_item, t),
        forall|x: (Seq<u8>, Seq<u8>, u64)| #[trigger] count_of(s, x) == count_of(t, x),
    ensures
        s == t,
    decreases s.len(),
{
    if s.len() == 0 {
        if t.len() > 0 {
            assert(t.contains(t[0]));
            crate::pool::lemma_count_contains(t, t[0]);
            crate::pool::lemma_count_contains(s, t[0]);
        }
        assert(s =~= t);
    } else {
        assert(s.contains(s[0]));
        crate::pool::lemma_count_contains(s, s[0]);
        crate::pool::lemma_count_contains(t, s[0]);
        let j = choose|j: int| 0 <= j < t.len() && t[j] == s[0];
        assert(t.contains(t[0]));
        crate::pool::lemma_count_contains(t, t[0]);
        crate::pool::lemma_count_contains(s, t[0]);
        let i = choose|i: int| 0 <= i < s.len() && s[i] == t[0];
        if i > 0 {
            assert(!lt_by(by_item, s[i], s[0]));
        }
        if j > 0 {
            assert(!lt_by(by_item, t[j], t[0]));
        }
        lemma_by_total(by_item, s[0], t[0]);
        let s1 = s.drop_first();
        let t1 = t.drop_first();
        assert(s =~= seq![s[0]] + s1);
        assert(t =~= seq![t[0]] + t1);
        assert forall|x: (Seq<u8>, Seq<u8>, u64)| #[trigger] count_of(s1, x) == count_of(t1, x) by {
            lemma_count_cons(s[0], s1, x);
            lemma_count_cons(t[0], t1, x);
        }
        assert forall|a: int, b: int| 0 <= a < b < s1.len() implies !lt_by(by_item, #[trigger] s1[b], #[trigger] s1[a]) by {
            assert(s1[b] == s[b + 1] && s1[a] == s[a + 1]);
        }
        assert forall|a: int, b: int| 0 <= a < b < t1.len() implies !lt_by(by_item, #[trigger] t1[b], #[trigger] t1[a]) by {
            assert(t1[b] == t[b + 1] && t1[a] == t[a + 1]);
        }
        lemma_sorted_perm_unique(by_item, s1, t1);
    }
}

/// The items of `k` in the order picked by `by_item`, each as often as
/// in `k`.
pub open spec fn sorted_of(by_item: bool, k: Seq<(Seq<u8>, Seq<u8>, u64)>) -> Seq<(Seq<u8>, Seq<u8>, u64)> {
    choose|s: Seq<(Seq<u8>, Seq<u8>, u64)>|
        sorted_by(by_item, s) && forall|x: (Seq<u8>, Seq<u8>, u64)| #[trigger] count_of(s, x) == count_of(k, x)
}

/// A sorted rearrangement of `k` is the one `sorted_of` names.
pub proof fn lemma_sorted_of(by_item: bool, k: Seq<(Seq<u8>, Seq<u8>, u64)>, s: Seq<(Seq<u8>, Seq<u8>, u64)>)
    requires
        sorted_by(by_item, s),
        forall|x: (Seq<u8>, Seq<u8>, u64)| #[trigger] count_of(s, x) == count_of(k, x),
    ensures
        sorted_of(by_item, k) == s,
{
    let c = sorted_of(by_item, k);
    assert(sorted_by(by_item, c) && forall|x: (Seq<u8>, Seq<u8>, u64)| #[trigger] count_of(c, x) == count_of(k, x));
    lemma_sorted_perm_unique(by_item, c, s);
}

} // verus!
