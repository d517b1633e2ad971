//! Reading back what the n-gram writer laid out: for every context and
//! next word, the table answers the highest log prob queued for them.

use vstd::prelude::*;

use crate::fsa::builder::{map_get, pairs_map};
use crate::fsa::reader::{bytes_get, parse_layout};
use crate::fsa::sort::{count_of, tri_lt, tri_sorted};
use crate::ngram::{
    ctx_range, fit, fst_section, has_fst, lemma_triplet_round_trip, next_scan, ngm_log_prob,
    ngm_pool, ngm_triplet, pool_bytes, range_end, section, triplet_at_bytes, triplet_image, Header,
    Triplet,
};
use crate::ngram_build::{
    bias, ctx_runs, dedup_pairs, first_pairs, has_pair, keyed, pack, row_triplet, rows_image, runs_from, str_idx, unbias,
    Keyed, Row,
};
use crate::pool::{flat, lemma_count_contains, lemma_flat_read, no_nul, off_of, pool_fits, strictly_sorted};
use crate::text::{lemma_seq_lt_irreflexive, lemma_seq_lt_total, lemma_seq_lt_trans, seq_lt};

verus! {

/// The highest log prob queued for context `c` and next word `n`.
pub open spec fn max_lp(e: Seq<Row>, c: Seq<u8>, n: Seq<u8>) -> Option<i16>
    decreases e.len(),
{
    if e.len() == 0 {
        None
    } else {
        let r = max_lp(e.drop_last(), c, n);
        let x = e.last();
        if x.0 == c && x.1 == n {
            match r {
                None => Some(x.2),
                Some(v) => Some(if x.2 > v { x.2 } else { v }),
            }
        } else {
            r
        }
    }
}

/// `max_lp` is the value attained by some queued row and bounding all
/// of them.
pub proof fn lemma_max_lp(e: Seq<Row>, c: Seq<u8>, n: Seq<u8>, x: i16)
    requires
        exists|q: int| 0 <= q < e.len() && e[q] == (c, n, x),
        forall|q: int| 0 <= q < e.len() && (#[trigger] e[q]).0 == c && e[q].1 == n ==> e[q].2 <= x,
    ensures
        max_lp(e, c, n) == Some(x),
    decreases e.len(),
{
    let p = e.drop_last();
    assert forall|q: int| 0 <= q < p.len() && (#[trigger] p[q]).0 == c && p[q].1 == n implies p[q].2 <= x by {
        assert(p[q] == e[q]);
    }
    if exists|q: int| 0 <= q < p.len() && p[q] == (c, n, x) {
        lemma_max_lp(p, c, n, x);
        let y = e.last();
        if y.0 == c && y.1 == n {
            assert(e[e.len() - 1] == y);
        }
    } else {
        let q = choose|q: int| 0 <= q < e.len() && e[q] == (c, n, x);
        if q < e.len() - 1 {
            assert(p[q] == e[q]);
        }
        assert(q == e.len() - 1);
        lemma_max_lp_none_or_below(p, c, n, x);
    }
}

/// Over rows whose log probs for (c, n) are at most `x`, `max_lp` is
/// `None` or at most `x`.
pub proof fn lemma_max_lp_none_or_below(e: Seq<Row>, c: Seq<u8>, n: Seq<u8>, x: i16)
    requires
        forall|q: int| 0 <= q < e.len() && (#[trigger] e[q]).0 == c && e[q].1 == n ==> e[q].2 <= x,
    ensures
        match max_lp(e, c, n) {
            None => true,
            Some(v) => v <= x,
        },
    decreases e.len(),
{
    if e.len() > 0 {
        let p = e.drop_last();
        assert forall|q: int| 0 <= q < p.len() && (#[trigger] p[q]).0 == c && p[q].1 == n implies p[q].2 <= x by {
            assert(p[q] == e[q]);
        }
        lemma_max_lp_none_or_below(p, c, n, x);
        assert(e[e.len() - 1] == e.last());
    }
}

/// No queued row has context `c` and next word `n`.
pub proof fn lemma_max_lp_absent(e: Seq<Row>, c: Seq<u8>, n: Seq<u8>)
    requires
        forall|q: int| 0 <= q < e.len() ==> !((#[trigger] e[q]).0 == c && e[q].1 == n),
    ensures
        max_lp(e, c, n) is None,
    decreases e.len(),
{
    if e.len() > 0 {
        let p = e.drop_last();
        assert forall|q: int| 0 <= q < p.len() implies !((#[trigger] p[q]).0 == c && p[q].1 == n) by {
            assert(p[q] == e[q]);
        }
        lemma_max_lp_absent(p, c, n);
        assert(e[e.len() - 1] == e.last());
    }
}

/// Every kept row is a row of `s`.
pub proof fn lemma_dedup_member(s: Seq<Keyed>, m: int)
    requires
        0 <= m < dedup_pairs(s).len(),
    ensures
        exists|j: int| 0 <= j < s.len() && s[j] == dedup_pairs(s)[m],
    decreases s.len(),
{
    if s.len() <= 1 {
        assert(s[m] == dedup_pairs(s)[m]);
    } else {
        let p = s.drop_last();
        let dp = dedup_pairs(p);
        if m < dp.len() {
            lemma_dedup_member(p, m);
            let j = choose|j: int| 0 <= j < p.len() && p[j] == dp[m];
            assert(s[j] == p[j]);
            if !(s.last().0 == s[s.len() - 2].0 && s.last().1 == s[s.len() - 2].1) {
                assert(dp.push(s.last())[m] == dp[m]);
            }
        } else {
            assert(s[s.len() - 1] == dedup_pairs(s)[m]);
        }
    }
}

/// Every row kept by `first_pairs` is a row of `s`.
pub proof fn lemma_first_member(s: Seq<Keyed>, m: int)
    requires
        0 <= m < first_pairs(s).len(),
    ensures
        exists|j: int| 0 <= j < s.len() && s[j] == first_pairs(s)[m],
    decreases s.len(),
{
    let p = s.drop_last();
    let dp = first_pairs(p);
    if m < dp.len() {
        lemma_first_member(p, m);
        let j = choose|j: int| 0 <= j < p.len() && p[j] == dp[m];
        assert(s[j] == p[j]);
        if !has_pair(p, s.last().0, s.last().1) {
            assert(dp.push(s.last())[m] == dp[m]);
        }
    } else {
        assert(s[s.len() - 1] == first_pairs(s)[m]);
    }
}

/// `first_pairs` keeps a row of every pair `s` has, and no other pairs.
pub proof fn lemma_first_has(s: Seq<Keyed>, c: Seq<u8>, n: Seq<u8>)
    ensures
        has_pair(first_pairs(s), c, n) == has_pair(s, c, n),
    decreases s.len(),
{
    if s.len() > 0 {
        let p = s.drop_last();
        lemma_first_has(p, c, n);
        let dp = first_pairs(p);
        let d = first_pairs(s);
        if has_pair(d, c, n) {
            let m = choose|m: int| 0 <= m < d.len() && (#[trigger] d[m]).0 == c && d[m].1 == n;
            lemma_first_member(s, m);
            let j = choose|j: int| 0 <= j < s.len() && s[j] == d[m];
        }
        if has_pair(s, c, n) {
            let j = choose|j: int| 0 <= j < s.len() && (#[trigger] s[j]).0 == c && s[j].1 == n;
            if j < p.len() {
                assert(p[j] == s[j]);
                let m = choose|m: int| 0 <= m < dp.len() && (#[trigger] dp[m]).0 == c && dp[m].1 == n;
                if !has_pair(p, s.last().0, s.last().1) {
                    assert(d[m] == dp[m]);
                }
            } else if has_pair(p, s.last().0, s.last().1) {
                let k = choose|k: int| 0 <= k < p.len() && (#[trigger] p[k]).0 == s.last().0 && p[k].1 == s.last().1;
                assert(has_pair(p, c, n));
            } else {
                assert(d[d.len() - 1] == s.last());
            }
        }
    }
}

/// Keeping rows of a sorted list keeps it sorted.
pub proof fn lemma_first_sorted(s: Seq<Keyed>)
    requires
        tri_sorted(s),
    ensures
        tri_sorted(first_pairs(s)),
    decreases s.len(),
{
    if s.len() > 0 {
        let p = s.drop_last();
        assert forall|i: int, j: int| 0 <= i < j < p.len() implies !tri_lt(#[trigger] p[j], #[trigger] p[i]) by {
            assert(p[i] == s[i] && p[j] == s[j]);
        }
        lemma_first_sorted(p);
        let dp = first_pairs(p);
        if !has_pair(p, s.last().0, s.last().1) {
            let o = dp.push(s.last());
            assert forall|i: int, j: int| 0 <= i < j < o.len() implies !tri_lt(#[trigger] o[j], #[trigger] o[i]) by {
                if j == o.len() - 1 {
                    lemma_first_member(p, i);
                    let q = choose|q: int| 0 <= q < p.len() && p[q] == dp[i];
                    assert(s[q] == p[q]);
                    assert(o[i] == dp[i]);
                    assert(!tri_lt(s[s.len() - 1], s[q]));
                } else {
                    assert(o[i] == dp[i] && o[j] == dp[j]);
                }
            }
        }
    }
}

/// Every row of a sorted `s` is covered by a kept row with the same
/// context and next word and a key at least as large.
pub proof fn lemma_first_covers(s: Seq<Keyed>, j: int)
    requires
        tri_sorted(s),
        0 <= j < s.len(),
    ensures
        exists|m: int| 0 <= m < first_pairs(s).len() && (#[trigger] first_pairs(s)[m]).0 == s[j].0
            && first_pairs(s)[m].1 == s[j].1 && first_pairs(s)[m].2 >= s[j].2,
    decreases s.len(),
{
    let d = first_pairs(s);
    let p = s.drop_last();
    assert forall|a: int, b: int| 0 <= a < b < p.len() implies !tri_lt(#[trigger] p[b], #[trigger] p[a]) by {
        assert(p[a] == s[a] && p[b] == s[b]);
    }
    let dp = first_pairs(p);
    let seen = has_pair(p, s.last().0, s.last().1);
    if j < s.len() - 1 {
        lemma_first_covers(p, j);
        let m = choose|m: int| 0 <= m < dp.len() && (#[trigger] dp[m]).0 == p[j].0 && dp[m].1 == p[j].1 && dp[m].2 >= p[j].2;
        assert(p[j] == s[j]);
        if !seen {
            assert(dp.push(s.last())[m] == dp[m]);
        }
        assert(d[m] == dp[m]);
    } else if seen {
        let k = choose|k: int| 0 <= k < p.len() && (#[trigger] p[k]).0 == s.last().0 && p[k].1 == s.last().1;
        assert(p[k] == s[k]);
        assert(!tri_lt(s[j], s[k]));
        lemma_seq_lt_irreflexive(s[j].0);
        lemma_seq_lt_irreflexive(s[j].1);
        assert(s[j].2 <= s[k].2);
        lemma_first_covers(p, k);
        let m = choose|m: int| 0 <= m < dp.len() && (#[trigger] dp[m]).0 == p[k].0 && dp[m].1 == p[k].1 && dp[m].2 >= p[k].2;
        assert(d[m] == dp[m]);
    } else {
        assert(d[d.len() - 1] == s[j]);
    }
}

/// No two rows kept by `first_pairs` share a context and next word.
pub proof fn lemma_first_distinct(s: Seq<Keyed>)
    ensures
        forall|a: int, b: int|
            0 <= a < b < first_pairs(s).len() ==> !(#[trigger] first_pairs(s)[a].0 == #[trigger] first_pairs(s)[b].0
                && first_pairs(s)[a].1 == first_pairs(s)[b].1),
    decreases s.len(),
{
    if s.len() > 0 {
        let p = s.drop_last();
        lemma_first_distinct(p);
        let dp = first_pairs(p);
        let d = first_pairs(s);
        if !has_pair(p, s.last().0, s.last().1) {
            assert forall|a: int, b: int| 0 <= a < b < d.len() implies !(#[trigger] d[a].0 == #[trigger] d[b].0 && d[a].1
                == d[b].1) by {
                if b == d.len() - 1 {
                    assert(d[a] == dp[a]);
                    lemma_first_has(p, s.last().0, s.last().1);
                    if d[a].0 == d[b].0 && d[a].1 == d[b].1 {
                        assert(has_pair(dp, s.last().0, s.last().1));
                    }
                } else {
                    assert(d[a] == dp[a] && d[b] == dp[b]);
                }
            }
        }
    }
}

/// `[a, z)` is a maximal run of rows with one context.
pub open spec fn is_run(d: Seq<Keyed>, a: int, z: int) -> bool {
    &&& 0 <= a < z <= d.len()
    &&& forall|m: int| a <= m < z ==> (#[trigger] d[m]).0 == d[a].0
    &&& (a == 0 || d[a - 1].0 != d[a].0)
    &&& (z == d.len() || d[z].0 != d[a].0)
}

/// Each automaton pair names a maximal run.
pub proof fn lemma_runs_elems(d: Seq<Keyed>, i: int, st: int, q: int)
    requires
        0 <= st <= i <= d.len(),
        st < i || i == 0,
        forall|m: int| st <= m < i ==> (#[trigger] d[m]).0 == d[st].0,
        st == 0 || d[st - 1].0 != d[st].0,
        0 <= q < runs_from(d, i, st).len(),
    ensures
        exists|a: int, z: int| is_run(d, a, z) && runs_from(d, i, st)[q] == (d[a].0, pack(a, z - a)),
    decreases d.len() - i,
{
    if i >= d.len() {
        assert(is_run(d, st, d.len() as int));
        assert(runs_from(d, i, st)[q] == (d[st].0, pack(st, d.len() - st)));
    } else if d[i].0 != d[st].0 {
        let rest = runs_from(d, i + 1, i);
        assert(runs_from(d, i, st) == seq![(d[st].0, pack(st, i - st))] + rest);
        if q == 0 {
            assert(is_run(d, st, i));
        } else {
            if i > 0 {
                assert(d[i - 1].0 == d[st].0);
            }
            lemma_runs_elems(d, i + 1, i, q - 1);
            assert(runs_from(d, i, st)[q] == rest[q - 1]);
        }
    } else {
        lemma_runs_elems(d, i + 1, st, q);
    }
}

/// Every row's context is the key of some automaton pair.
pub proof fn lemma_runs_cover(d: Seq<Keyed>, i: int, st: int, m: int)
    requires
        0 <= st <= i <= d.len(),
        st < i || i == 0,
        forall|k: int| st <= k < i ==> (#[trigger] d[k]).0 == d[st].0,
        st <= m < d.len(),
    ensures
        exists|q: int| 0 <= q < runs_from(d, i, st).len() && (#[trigger] runs_from(d, i, st)[q]).0 == d[m].0,
    decreases d.len() - i,
{
    if i >= d.len() {
        assert(runs_from(d, i, st)[0].0 == d[m].0);
    } else if d[i].0 != d[st].0 {
        let rest = runs_from(d, i + 1, i);
        assert(runs_from(d, i, st) == seq![(d[st].0, pack(st, i - st))] + rest);
        if m < i {
            assert(runs_from(d, i, st)[0].0 == d[m].0);
        } else {
            lemma_runs_cover(d, i + 1, i, m);
            let q = choose|q: int| 0 <= q < rest.len() && (#[trigger] rest[q]).0 == d[m].0;
            assert(runs_from(d, i, st)[q + 1] == rest[q]);
        }
    } else {
        lemma_runs_cover(d, i + 1, st, m);
        let q = choose|q: int| 0 <= q < runs_from(d, i + 1, st).len() && (#[trigger] runs_from(d, i + 1, st)[q]).0 == d[m].0;
        assert(runs_from(d, i, st) == runs_from(d, i + 1, st));
        assert(runs_from(d, i, st)[q] == runs_from(d, i + 1, st)[q]);
    }
}

/// A value found in the map of pairs comes from one of the pairs.
pub proof fn lemma_pairs_map_found(p: Seq<(Seq<u8>, u64)>, c: Seq<u8>)
    requires
        map_get(pairs_map(p), c) is Some,
    ensures
        exists|j: int| 0 <= j < p.len() && p[j] == (c, map_get(pairs_map(p), c)->Some_0),
    decreases p.len(),
{
    if p.len() > 0 {
        if p.last().0 == c {
            assert(p[p.len() - 1] == (c, map_get(pairs_map(p), c)->Some_0));
        } else {
            lemma_pairs_map_found(p.drop_last(), c);
            let j = choose|j: int| 0 <= j < p.drop_last().len() && p.drop_last()[j] == (c, map_get(pairs_map(p.drop_last()), c)->Some_0);
            assert(p[j] == p.drop_last()[j]);
        }
    }
}

/// A key of some pair is in the map.
pub proof fn lemma_pairs_map_has(p: Seq<(Seq<u8>, u64)>, c: Seq<u8>, j: int)
    requires
        0 <= j < p.len(),
        p[j].0 == c,
    ensures
        map_get(pairs_map(p), c) is Some,
    decreases p.len(),
{
    if j < p.len() - 1 {
        assert(p.drop_last()[j] == p[j]);
        lemma_pairs_map_has(p.drop_last(), c, j);
    }
}

/// No pair has key `c`: it is not in the map.
pub proof fn lemma_pairs_map_absent(p: Seq<(Seq<u8>, u64)>, c: Seq<u8>)
    requires
        forall|j: int| 0 <= j < p.len() ==> (#[trigger] p[j]).0 != c,
    ensures
        map_get(pairs_map(p), c) is None,
    decreases p.len(),
{
    if p.len() > 0 {
        assert forall|j: int| 0 <= j < p.drop_last().len() implies (#[trigger] p.drop_last()[j]).0 != c by {
            assert(p.drop_last()[j] == p[j]);
        }
        lemma_pairs_map_absent(p.drop_last(), c);
        assert(p[p.len() - 1] == p.last());
    }
}

/// In rows sorted by context, a maximal run holds every row of its
/// context.
pub proof fn lemma_run_holds_all(d: Seq<Keyed>, a: int, z: int, m: int)
    requires
        tri_sorted(d),
        is_run(d, a, z),
        0 <= m < d.len(),
        d[m].0 == d[a].0,
    ensures
        a <= m < z,
{
    let c = d[a].0;
    if m < a {
        assert(d[a - 1].0 != c);
        if m < a - 1 {
            assert(!tri_lt(d[a - 1], d[m]));
        }
        assert(!tri_lt(d[a], d[a - 1]));
        lemma_seq_lt_total(d[a - 1].0, c);
    }
    if m >= z {
        assert(d[z].0 != c);
        if m > z {
            assert(!tri_lt(d[m], d[z]));
        }
        assert(!tri_lt(d[z], d[a]));
        lemma_seq_lt_total(d[z].0, c);
    }
}

/// Triplet `i` of a triplet table sits at `8 i`.
pub proof fn lemma_rows_image_at(d: Seq<Keyed>, u: Seq<Seq<u8>>, i: int)
    requires
        0 <= i < d.len(),
    ensures
        rows_image(d, u).len() == 8 * d.len(),
        rows_image(d, u).subrange(8 * i, 8 * i + 8) == triplet_image(row_triplet(u, d[i])),
    decreases d.len(),
{
    crate::ngram_build::lemma_rows_image_len(d, u);
    let p = d.drop_last();
    crate::ngram_build::lemma_rows_image_len(p, u);
    let rp = rows_image(p, u);
    let t = triplet_image(row_triplet(u, d.last()));
    assert(rows_image(d, u) == rp + t);
    if i < d.len() - 1 {
        lemma_rows_image_at(p, u, i);
        assert(p[i] == d[i]);
        assert(rows_image(d, u).subrange(8 * i, 8 * i + 8) =~= rp.subrange(8 * i, 8 * i + 8));
    } else {
        assert(d[i] == d.last());
        assert(rows_image(d, u).subrange(8 * i, 8 * i + 8) =~= t);
    }
}

/// Reading a triplet in place.
pub proof fn lemma_triplet_in_place(b: Seq<u8>, at: int, t: Triplet)
    requires
        0 <= at,
        at + 8 <= b.len(),
        b.subrange(at, at + 8) == triplet_image(t),
        t.ctx_offset < 0x100_0000,
        t.next_offset < 0x100_0000,
    ensures
        triplet_at_bytes(b, at) == t,
{
    let w = b.subrange(at, at + 8);
    lemma_triplet_round_trip(t);
    assert forall|j: int| 0 <= j < 8 implies b[at + j] == w[j] by {}
    assert(triplet_at_bytes(b, at) == triplet_at_bytes(w, 0));
}

/// Every kept row comes from a queued row.
pub proof fn lemma_row_origin(e: Seq<Row>, s: Seq<Keyed>, m: int) -> (q: int)
    requires
        forall|x: Keyed| #[trigger] count_of(s, x) == count_of(keyed(e), x),
        0 <= m < first_pairs(s).len(),
    ensures
        0 <= q < e.len(),
        keyed(e)[q] == first_pairs(s)[m],
{
    lemma_first_member(s, m);
    let j = choose|j: int| 0 <= j < s.len() && s[j] == first_pairs(s)[m];
    let x = s[j];
    lemma_count_contains(s, x);
    lemma_count_contains(keyed(e), x);
    assert(count_of(s, x) == count_of(keyed(e), x));
    choose|q: int| 0 <= q < keyed(e).len() && keyed(e)[q] == x
}

/// Each queued row sits somewhere in the sorted rows.
pub proof fn lemma_row_sorted_at(e: Seq<Row>, s: Seq<Keyed>, q: int) -> (p: int)
    requires
        forall|x: Keyed| #[trigger] count_of(s, x) == count_of(keyed(e), x),
        0 <= q < e.len(),
    ensures
        0 <= p < s.len(),
        s[p] == keyed(e)[q],
{
    let x = keyed(e)[q];
    lemma_count_contains(s, x);
    lemma_count_contains(keyed(e), x);
    assert(count_of(s, x) == count_of(keyed(e), x));
    choose|p: int| 0 <= p < s.len() && s[p] == x
}

/// Scanning rows `[i, z)` for next word `n`: the first row holding it,
/// when one does.
pub proof fn lemma_next_scan(b: Seq<u8>, h: Header, d: Seq<Keyed>, n: Seq<u8>, i: int, z: int) -> (k0: int)
    requires
        0 <= i <= z <= d.len(),
        forall|k: int| i <= k < z ==> pool_bytes(ngm_pool(b, h), (#[trigger] ngm_triplet(b, h, k)).next_offset) == d[k].1
            && ngm_triplet(b, h, k).log_prob == unbias(d[k].2),
    ensures
        (forall|k: int| i <= k < z ==> (#[trigger] d[k]).1 != n) ==> next_scan(b, h, n, i, z) is None,
        (exists|k: int| i <= k < z && (#[trigger] d[k]).1 == n) ==> {
            &&& i <= k0 < z
            &&& d[k0].1 == n
            &&& forall|k: int| i <= k < k0 ==> (#[trigger] d[k]).1 != n
            &&& next_scan(b, h, n, i, z) == Some(unbias(d[k0].2))
        },
    decreases z - i,
{
    if i >= z {
        0
    } else {
        let t = ngm_triplet(b, h, i);
        if d[i].1 == n {
            i
        } else {
            let k1 = lemma_next_scan(b, h, d, n, i + 1, z);
            if exists|k: int| i <= k < z && (#[trigger] d[k]).1 == n {
                let k = choose|k: int| i <= k < z && (#[trigger] d[k]).1 == n;
                assert(k != i);
                assert(d[k].1 == n);
            }
            k1
        }
    }
}

/// The layout the writer produces, as far as the log prob lookup reads
/// it: the sorted rows `s` of the queued rows `e`, the kept rows `d`,
/// the pool of the strings `u`, the triplet table, and the automaton `f`.
pub open spec fn laid_out(b: Seq<u8>, h: Header, e: Seq<Row>, s: Seq<Keyed>, u: Seq<Seq<u8>>, f: Seq<u8>) -> bool {
    let d = first_pairs(s);
    &&& tri_sorted(s)
    &&& forall|x: Keyed| #[trigger] count_of(s, x) == count_of(keyed(e), x)
    &&& strictly_sorted(u)
    &&& pool_fits(u)
    &&& forall|m: int| 0 <= m < d.len() ==> u.contains(#[trigger] d[m].1) && u.contains(d[m].0)
    &&& h.string_pool_offset == 96
    &&& h.string_pool_size == flat(u).len()
    &&& 96 + flat(u).len() <= b.len()
    &&& b.subrange(96, 96 + flat(u).len() as int) == flat(u)
    &&& h.triplet_table_offset + 8 * d.len() <= b.len()
    &&& b.subrange(h.triplet_table_offset as int, h.triplet_table_offset + 8 * d.len()) == rows_image(d, u)
    &&& h.fst_ctx_index_size == f.len()
    &&& f.len() > 0
    &&& h.fst_ctx_index_offset + f.len() <= b.len()
    &&& b.subrange(h.fst_ctx_index_offset as int, h.fst_ctx_index_offset + f.len()) == f
    &&& parse_layout(f) is Ok
    &&& forall|k: Seq<u8>| #[trigger] bytes_get(f, k) == map_get(pairs_map(ctx_runs(d)), k)
    &&& d.len() < 0x1_0000_0000
}

/// Every queued next word is free of zero bytes.
pub open spec fn nexts_no_nul(e: Seq<Row>) -> bool {
    forall|q: int| 0 <= q < e.len() ==> no_nul(#[trigger] e[q].1)
}

/// Read after write: in a table laid out from the queued rows `e`, the
/// log prob found for context `c` and next word `n` is the highest one
/// queued for them, and none when none was.
pub proof fn lemma_ngram_read_back(
    b: Seq<u8>,
    h: Header,
    e: Seq<Row>,
    s: Seq<Keyed>,
    u: Seq<Seq<u8>>,
    f: Seq<u8>,
    c: Seq<u8>,
    n: Seq<u8>,
)
    requires
        laid_out(b, h, e, s, u, f),
        nexts_no_nul(e),
    ensures
        ngm_log_prob(b, h, c, n) == max_lp(e, c, n),
{
    let d = first_pairs(s);
    lemma_first_sorted(s);
    crate::ngram_build::lemma_rows_image_len(d, u);
    assert(section(b, h.fst_ctx_index_offset, h.fst_ctx_index_size) =~= f);
    assert(has_fst(b, h));
    assert(ngm_pool(b, h) =~= flat(u));
    let tto = h.triplet_table_offset as int;
    assert(fit(b, h) >= d.len()) by (nonlinear_arith)
        requires
            fit(b, h) == (b.len() - tto) / 8,
            tto + 8 * d.len() <= b.len(),
            tto >= 0;
    // Rows read back as laid out.
    assert forall|k: int| 0 <= k < d.len() implies pool_bytes(ngm_pool(b, h), (#[trigger] ngm_triplet(b, h, k)).next_offset) == d[k].1
        && ngm_triplet(b, h, k).log_prob == unbias(d[k].2) by {
        lemma_rows_image_at(d, u, k);
        let t = row_triplet(u, d[k]);
        assert(u.contains(d[k].1));
        let ic = str_idx(u, d[k].0);
        let inx = str_idx(u, d[k].1);
        assert(0 <= inx < u.len() && u[inx] == d[k].1);
        let q = lemma_row_origin(e, s, k);
        assert(keyed(e)[q].1 == e[q].1);
        assert(no_nul(e[q].1));
        assert(off_of(u, inx) <= 0xFF_FFFF);
        lemma_flat_read(u, inx);
        crate::pool::lemma_off_mono(u, 0, inx);
        assert(u.contains(d[k].0));
        assert(0 <= ic < u.len() && u[ic] == d[k].0);
        assert(off_of(u, ic) <= 0xFF_FFFF);
        crate::pool::lemma_off_mono(u, 0, ic);
        assert(b.subrange(tto + 8 * k, tto + 8 * k + 8) =~= rows_image(d, u).subrange(8 * k, 8 * k + 8));
        lemma_triplet_in_place(b, tto + 8 * k, t);
    }
    let mg = map_get(pairs_map(ctx_runs(d)), c);
    assert(bytes_get(f, c) == mg);
    if exists|q: int| 0 <= q < e.len() && (#[trigger] e[q]).0 == c && e[q].1 == n {
        let q = choose|q: int| 0 <= q < e.len() && (#[trigger] e[q]).0 == c && e[q].1 == n;
        let p = lemma_row_sorted_at(e, s, q);
        lemma_first_covers(s, p);
        let m = choose|m: int| 0 <= m < d.len() && (#[trigger] d[m]).0 == s[p].0 && d[m].1 == s[p].1 && d[m].2 >= s[p].2;
        lemma_runs_cover(d, 0, 0, m);
        let qq = choose|qq: int| 0 <= qq < runs_from(d, 0, 0).len() && (#[trigger] runs_from(d, 0, 0)[qq]).0 == d[m].0;
        lemma_pairs_map_has(ctx_runs(d), c, qq);
        lemma_pairs_map_found(ctx_runs(d), c);
        let v = mg->Some_0;
        let j = choose|j: int| 0 <= j < ctx_runs(d).len() && ctx_runs(d)[j] == (c, v);
        lemma_runs_elems(d, 0, 0, j);
        let (a, z) = choose|a: int, z: int| is_run(d, a, z) && runs_from(d, 0, 0)[j] == (d[a].0, pack(a, z - a));
        lemma_unpack(a, z - a);
        assert(ctx_range(b, h, c) == Some((a as u32, (z - a) as u32)));
        assert(range_end(b, h, a as u32, (z - a) as u32) == z);
        lemma_run_holds_all(d, a, z, m);
        let k0 = lemma_next_scan(b, h, d, n, a, z);
        assert(d[m].1 == n);
        assert(next_scan(b, h, n, a, z) == Some(unbias(d[k0].2)));
        let q0 = lemma_row_origin(e, s, k0);
        assert(d[k0].0 == c);
        assert(e[q0] == (c, n, unbias(d[k0].2)));
        assert forall|q2: int| 0 <= q2 < e.len() && (#[trigger] e[q2]).0 == c && e[q2].1 == n implies e[q2].2 <= unbias(d[k0].2) by {
            let p2 = lemma_row_sorted_at(e, s, q2);
            lemma_first_covers(s, p2);
            let m2 = choose|m2: int| 0 <= m2 < d.len() && (#[trigger] d[m2]).0 == s[p2].0 && d[m2].1 == s[p2].1 && d[m2].2 >= s[p2].2;
            lemma_run_holds_all(d, a, z, m2);
            if m2 > k0 {
                assert(!tri_lt(d[m2], d[k0]));
                lemma_seq_lt_irreflexive(c);
            }
            assert(m2 >= k0);
            assert(d[m2].2 <= d[k0].2);
        }
        lemma_max_lp(e, c, n, unbias(d[k0].2));
    } else {
        lemma_max_lp_absent(e, c, n);
        if mg is Some {
            lemma_pairs_map_found(ctx_runs(d), c);
            let v = mg->Some_0;
            let j = choose|j: int| 0 <= j < ctx_runs(d).len() && ctx_runs(d)[j] == (c, v);
            lemma_runs_elems(d, 0, 0, j);
            let (a, z) = choose|a: int, z: int| is_run(d, a, z) && runs_from(d, 0, 0)[j] == (d[a].0, pack(a, z - a));
            lemma_unpack(a, z - a);
            assert(ctx_range(b, h, c) == Some((a as u32, (z - a) as u32)));
            assert(range_end(b, h, a as u32, (z - a) as u32) == z);
            assert forall|k: int| a <= k < z implies (#[trigger] d[k]).1 != n by {
                if d[k].1 == n {
                    let q = lemma_row_origin(e, s, k);
                    assert(e[q].0 == c && e[q].1 == n);
                }
            }
            let k0 = lemma_next_scan(b, h, d, n, a, z);
        }
    }
}

/// Unpacking the automaton value.
pub proof fn lemma_unpack(a: int, c: int)
    requires
        0 <= a < 0x1_0000_0000,
        0 <= c < 0x1_0000_0000,
    ensures
        pack(a, c) == a + c * 0x1_0000_0000,
        pack(a, c) % 0x1_0000_0000 == a,
        pack(a, c) / 0x1_0000_0000 == c,
{
    assert(0 <= a + c * 0x1_0000_0000 < 0x1_0000_0000_0000_0000) by (nonlinear_arith)
        requires
            0 <= a < 0x1_0000_0000,
            0 <= c < 0x1_0000_0000;
    let v = a + c * 0x1_0000_0000;
    assert(v % 0x1_0000_0000 == a && v / 0x1_0000_0000 == c) by (nonlinear_arith)
        requires
            v == a + c * 0x1_0000_0000,
            0 <= a < 0x1_0000_0000,
            0 <= c;
}

} // verus!
