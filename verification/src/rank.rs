//! Stable ranking by a score (descending) and then a byte string
//! (ascending), and the first `k` of such a ranking.
use vstd::prelude::*;
use crate::text::seq_lt;

verus! {

/// Key `a` ranks strictly above key `c`: higher score, then smaller bytes.
pub open spec fn key_above(a: (i16, Seq<u8>), c: (i16, Seq<u8>)) -> bool {
    a.0 > c.0 || (a.0 == c.0 && seq_lt(a.1, c.1))
}

/// `a` ranks strictly above `c` by their keys.
pub open spec fn above<T>(key: spec_fn(T) -> (i16, Seq<u8>), a: T, c: T) -> bool {
    key_above(key(a), key(c))
}

/// Insert `x` into the ranked `s` after every item it does not rank
/// above (so equal-ranked items keep their order).
pub open spec fn rank_insert<T>(s: Seq<T>, x: T, key: spec_fn(T) -> (i16, Seq<u8>)) -> Seq<T>
    decreases s.len(),
{
    if s.len() == 0 {
        seq![x]
    } else if above(key, x, s.last()) {
        rank_insert(s.drop_last(), x, key).push(s.last())
    } else {
        s.push(x)
    }
}

/// `s` ranked by key, items of equal rank in their original order.
pub open spec fn ranked<T>(s: Seq<T>, key: spec_fn(T) -> (i16, Seq<u8>)) -> Seq<T>
    decreases s.len(),
{
    if s.len() == 0 {
        Seq::empty()
    } else {
        rank_insert(ranked(s.drop_last(), key), s.last(), key)
    }
}

/// First `k` of `s` (all of it when shorter).
pub open spec fn first_k<T>(s: Seq<T>, k: int) -> Seq<T> {
    if k < s.len() {
        s.take(k)
    } else {
        s
    }
}

/// No item ranks above an earlier one.
pub open spec fn rank_sorted<T>(s: Seq<T>, key: spec_fn(T) -> (i16, Seq<u8>)) -> bool {
    forall|i: int, j: int| 0 <= i < j < s.len() ==> !above(key, #[trigger] s[j], #[trigger] s[i])
}

pub proof fn lemma_above_asym<T>(key: spec_fn(T) -> (i16, Seq<u8>), a: T, c: T)
    ensures
        !(above(key, a, c) && above(key, c, a)),
        !above(key, a, a),
{
    crate::text::lemma_seq_lt_total(key(a).1, key(c).1);
    crate::text::lemma_seq_lt_irreflexive(key(a).1);
}

/// If `x` ranks above `a` and `c` does not rank above `a`, then `x`
/// ranks above `c`.
pub proof fn lemma_rank_order<T>(key: spec_fn(T) -> (i16, Seq<u8>), x: T, a: T, c: T)
    requires
        above(key, x, a),
        !above(key, c, a),
    ensures
        above(key, x, c),
{
    crate::text::lemma_seq_lt_total(key(a).1, key(c).1);
    crate::text::lemma_seq_lt_total(key(x).1, key(c).1);
    if key(x).0 == key(a).0 && key(a).0 == key(c).0 {
        if seq_lt(key(a).1, key(c).1) {
            crate::text::lemma_seq_lt_trans(key(x).1, key(a).1, key(c).1);
        }
    }
}

/// Where `rank_insert` puts `x`: after the last item it does not rank
/// above.
pub proof fn lemma_rank_insert_split<T>(s: Seq<T>, x: T, key: spec_fn(T) -> (i16, Seq<u8>), pos: int)
    requires
        0 <= pos <= s.len(),
        forall|j: int| pos <= j < s.len() ==> above(key, x, #[trigger] s[j]),
        pos == 0 || !above(key, x, s[pos - 1]),
    ensures
        rank_insert(s, x, key) == s.take(pos).push(x) + s.skip(pos),
    decreases s.len(),
{
    if s.len() == 0 {
        assert(rank_insert(s, x, key) =~= s.take(pos).push(x) + s.skip(pos));
    } else if pos == s.len() {
        assert(!above(key, x, s.last()));
        assert(s.take(pos) =~= s);
        assert(s.skip(pos) =~= Seq::<T>::empty());
        assert(rank_insert(s, x, key) =~= s.take(pos).push(x) + s.skip(pos));
    } else {
        assert(above(key, x, s[s.len() - 1]));
        let p = s.drop_last();
        assert forall|j: int| pos <= j < p.len() implies above(key, x, #[trigger] p[j]) by {
            assert(p[j] == s[j]);
        }
        if pos > 0 {
            assert(p[pos - 1] == s[pos - 1]);
        }
        lemma_rank_insert_split(p, x, key, pos);
        assert(p.take(pos) =~= s.take(pos));
        assert(rank_insert(s, x, key) =~= s.take(pos).push(x) + s.skip(pos));
    }
}

/// Every item of a ranked insertion is `x` or came from `s`.
pub proof fn lemma_rank_insert_members<T>(s: Seq<T>, x: T, key: spec_fn(T) -> (i16, Seq<u8>), i: int)
    requires
        0 <= i < rank_insert(s, x, key).len(),
    ensures
        rank_insert(s, x, key)[i] == x || exists|m: int| 0 <= m < s.len() && s[m] == rank_insert(s, x, key)[i],
    decreases s.len(),
{
    if s.len() > 0 && above(key, x, s.last()) {
        let p = s.drop_last();
        if i < rank_insert(p, x, key).len() {
            lemma_rank_insert_members(p, x, key, i);
            if rank_insert(p, x, key)[i] != x {
                let m = choose|m: int| 0 <= m < p.len() && p[m] == rank_insert(p, x, key)[i];
                assert(s[m] == p[m]);
            }
        } else {
            assert(rank_insert(s, x, key)[i] == s[s.len() - 1]);
        }
    } else if s.len() > 0 {
        if i < s.len() {
            assert(rank_insert(s, x, key)[i] == s[i]);
        }
    }
}

/// Ranked insertion keeps ranked order.
pub proof fn lemma_rank_insert_sorted<T>(s: Seq<T>, x: T, key: spec_fn(T) -> (i16, Seq<u8>))
    requires
        rank_sorted(s, key),
    ensures
        rank_sorted(rank_insert(s, x, key), key),
        rank_insert(s, x, key).len() == s.len() + 1,
    decreases s.len(),
{
    if s.len() > 0 && above(key, x, s.last()) {
        let p = s.drop_last();
        assert forall|i: int, j: int| 0 <= i < j < p.len() implies !above(key, #[trigger] p[j], #[trigger] p[i]) by {
            assert(p[i] == s[i] && p[j] == s[j]);
        }
        lemma_rank_insert_sorted(p, x, key);
        let r = rank_insert(p, x, key);
        let out = r.push(s.last());
        assert forall|i: int, j: int| 0 <= i < j < out.len() implies !above(key, #[trigger] out[j], #[trigger] out[i]) by {
            if j == out.len() - 1 {
                lemma_rank_insert_members(p, x, key, i);
                if out[i] == x {
                    lemma_above_asym(key, x, s.last());
                } else {
                    let m = choose|m: int| 0 <= m < p.len() && p[m] == out[i];
                    assert(p[m] == s[m]);
                    assert(!above(key, s[s.len() - 1], s[m]));
                }
            }
        }
    } else if s.len() > 0 {
        let out = s.push(x);
        assert forall|i: int, j: int| 0 <= i < j < out.len() implies !above(key, #[trigger] out[j], #[trigger] out[i]) by {
            if j == out.len() - 1 {
                assert(!above(key, x, s.last()));
                if i < s.len() - 1 {
                    assert(!above(key, s[s.len() - 1], s[i]));
                    if above(key, x, s[i]) {
                        lemma_above_asym(key, x, s[i]);
                        lemma_rank_order(key, x, s[i], s.last());
                    }
                }
            } else {
                assert(out[i] == s[i] && out[j] == s[j]);
            }
        }
    } else {
        assert(rank_insert(s, x, key) =~= seq![x]);
    }
}

pub proof fn lemma_ranked_sorted<T>(s: Seq<T>, key: spec_fn(T) -> (i16, Seq<u8>))
    ensures
        rank_sorted(ranked(s, key), key),
        ranked(s, key).len() == s.len(),
    decreases s.len(),
{
    if s.len() > 0 {
        lemma_ranked_sorted(s.drop_last(), key);
        lemma_rank_insert_sorted(ranked(s.drop_last(), key), s.last(), key);
    }
}

/// The position at which `rank_insert` places `x` in a ranked list.
spec fn rank_pos<T>(s: Seq<T>, x: T, key: spec_fn(T) -> (i16, Seq<u8>)) -> int
    decreases s.len(),
{
    if s.len() == 0 {
        0
    } else if above(key, x, s.last()) {
        rank_pos(s.drop_last(), x, key)
    } else {
        s.len() as int
    }
}

proof fn lemma_rank_pos<T>(s: Seq<T>, x: T, key: spec_fn(T) -> (i16, Seq<u8>))
    requires
        rank_sorted(s, key),
    ensures
        0 <= rank_pos(s, x, key) <= s.len(),
        forall|j: int| rank_pos(s, x, key) <= j < s.len() ==> above(key, x, #[trigger] s[j]),
        forall|j: int| 0 <= j < rank_pos(s, x, key) ==> !above(key, x, #[trigger] s[j]),
    decreases s.len(),
{
    if s.len() > 0 {
        let p = s.drop_last();
        assert forall|i: int, j: int| 0 <= i < j < p.len() implies !above(key, #[trigger] p[j], #[trigger] p[i]) by {
            assert(p[i] == s[i] && p[j] == s[j]);
        }
        lemma_rank_pos(p, x, key);
        if above(key, x, s.last()) {
            assert forall|j: int| rank_pos(s, x, key) <= j < s.len() implies above(key, x, #[trigger] s[j]) by {
                if j < s.len() - 1 {
                    assert(p[j] == s[j]);
                }
            }
            assert forall|j: int| 0 <= j < rank_pos(s, x, key) implies !above(key, x, #[trigger] s[j]) by {
                assert(p[j] == s[j]);
            }
        } else {
            assert forall|j: int| 0 <= j < rank_pos(s, x, key) implies !above(key, x, #[trigger] s[j]) by {
                if j < s.len() - 1 {
                    assert(!above(key, s[s.len() - 1], s[j]));
                    if above(key, x, s[j]) {
                        lemma_rank_order(key, x, s[j], s[s.len() - 1]);
                    }
                }
            }
        }
    }
}

/// Only the first `k` of a ranked list matter for the first `k` after
/// an insertion.
pub proof fn lemma_first_k_insert<T>(s: Seq<T>, x: T, key: spec_fn(T) -> (i16, Seq<u8>), k: int)
    requires
        rank_sorted(s, key),
        k > 0,
    ensures
        first_k(rank_insert(s, x, key), k) == first_k(rank_insert(first_k(s, k), x, key), k),
{
    let pos = rank_pos(s, x, key);
    lemma_rank_pos(s, x, key);
    lemma_rank_insert_split(s, x, key, pos);
    let t = first_k(s, k);
    let pt = if pos <= t.len() { pos } else { t.len() as int };
    assert forall|j: int| pt <= j < t.len() implies above(key, x, #[trigger] t[j]) by {
        assert(t[j] == s[j]);
    }
    if pt > 0 {
        assert(t[pt - 1] == s[pt - 1]);
        assert(!above(key, x, s[pt - 1]));
    }
    lemma_rank_insert_split(t, x, key, pt);
    let a = rank_insert(s, x, key);
    let c = rank_insert(t, x, key);
    assert(first_k(a, k) =~= first_k(c, k));
}

/// One step of a top-`k` scan: with `best` the first `k` of the ranking
/// of `f`, the first `k` of the ranking of `f.push(x)` is `best` with
/// `x` inserted at `pos` (the first place it ranks above everything
/// after), cut to `k`.
pub proof fn lemma_top_k_step<T>(f: Seq<T>, x: T, key: spec_fn(T) -> (i16, Seq<u8>), k: int, best: Seq<T>, pos: int)
    requires
        k > 0,
        best == first_k(ranked(f, key), k),
        0 <= pos <= best.len(),
        forall|j: int| pos <= j < best.len() ==> above(key, x, #[trigger] best[j]),
        pos == 0 || !above(key, x, best[pos - 1]),
    ensures
        first_k(ranked(f.push(x), key), k) == first_k(best.take(pos).push(x) + best.skip(pos), k),
{
    lemma_ranked_sorted(f, key);
    assert forall|a: int, b: int| 0 <= a < b < best.len() implies !above(key, #[trigger] best[b], #[trigger] best[a]) by {
        assert(best[a] == ranked(f, key)[a] && best[b] == ranked(f, key)[b]);
    }
    lemma_first_k_insert(ranked(f, key), x, key, k);
    lemma_rank_insert_split(best, x, key, pos);
    assert(f.push(x).drop_last() =~= f);
    assert(ranked(f.push(x), key) == rank_insert(ranked(f, key), x, key));
}

} // verus!
