//! Reading back what the dictionary writer laid out: one entry per
//! queued code and word, in code and word order, each the queued entry
//! with the lowest log prior (the earliest among equal ones).

use vstd::prelude::*;
use vstd::utf8::valid_utf8;

use crate::codec::{
    entry_image, entry_of_bytes, lemma_entry_round_trip, match_kind_byte, match_kind_of_byte,
    Header, MatchKind,
};
use crate::fsa::sort::{count_of, pair_lt, pair_sorted};
use crate::idf::{idf_entries, idf_entry, pool_of, pool_str, rec_bytes};
use crate::idf_build::{
    code_word_lt, draft_entry, draft_key, drafts_no_nul, keyed_drafts, kept_at, rec_of, recs_image,
    table_of, Draft,
};
use crate::ngram_build::{bias, dedup_pairs, str_idx, Keyed};
use crate::ngram_law::{lemma_dedup_member, lemma_unpack};
use crate::pool::{flat, lemma_count_contains, lemma_flat_read, no_nul, off_of, pool_fits, strictly_sorted};
use crate::text::{lemma_seq_lt_irreflexive, lemma_seq_lt_total, lemma_seq_lt_trans, seq_lt};

verus! {

/// `x` and `y` have the same code and word.
pub open spec fn cw_eq(x: Keyed, y: Keyed) -> bool {
    x.0 == y.0 && x.1 == y.1
}

/// `x` comes strictly before `y` by code, then word.
pub open spec fn cw_lt(x: Keyed, y: Keyed) -> bool {
    seq_lt(x.0, y.0) || (x.0 == y.0 && seq_lt(x.1, y.1))
}

/// What "not after" means in the code, word, key order.
pub proof fn lemma_pair_le(x: Keyed, y: Keyed)
    requires
        !pair_lt(y, x),
    ensures
        cw_lt(x, y) || (cw_eq(x, y) && x.2 <= y.2),
{
    lemma_seq_lt_total(x.0, y.0);
    lemma_seq_lt_total(x.1, y.1);
}

/// Between two entries with one code and word, every entry in sorted
/// order has that code and word too.
pub proof fn lemma_sandwich(x: Keyed, y: Keyed, z: Keyed)
    requires
        !pair_lt(y, x),
        !pair_lt(z, y),
        cw_eq(x, z),
    ensures
        cw_eq(x, y),
{
    lemma_pair_le(x, y);
    lemma_pair_le(y, z);
    lemma_seq_lt_irreflexive(x.0);
    lemma_seq_lt_irreflexive(x.1);
    if seq_lt(x.0, y.0) {
        if seq_lt(y.0, z.0) {
            lemma_seq_lt_trans(x.0, y.0, z.0);
        }
    } else if x.0 == y.0 && seq_lt(x.1, y.1) {
        if y.0 == z.0 && seq_lt(y.1, z.1) {
            lemma_seq_lt_trans(x.1, y.1, z.1);
        }
        lemma_seq_lt_total(y.0, z.0);
    }
}

proof fn lemma_prefix_sorted(s: Seq<Keyed>)
    requires
        pair_sorted(s),
        s.len() > 0,
    ensures
        pair_sorted(s.drop_last()),
{
    let p = s.drop_last();
    assert forall|i: int, j: int| 0 <= i < j < p.len() implies !pair_lt(#[trigger] p[j], #[trigger] p[i]) by {
        assert(p[i] == s[i] && p[j] == s[j]);
    }
}

/// A kept entry has the smallest key among the sorted entries with its
/// code and word.
pub proof fn lemma_dedup_min(s: Seq<Keyed>, m: int)
    requires
        pair_sorted(s),
        0 <= m < dedup_pairs(s).len(),
    ensures
        forall|j: int| 0 <= j < s.len() && cw_eq(#[trigger] s[j], dedup_pairs(s)[m]) ==> dedup_pairs(s)[m].2 <= s[j].2,
    decreases s.len(),
{
    let d = dedup_pairs(s);
    if s.len() <= 1 {
        assert(d[m] == s[m]);
    } else {
        let n = s.len() - 1;
        let p = s.drop_last();
        let dp = dedup_pairs(p);
        lemma_prefix_sorted(s);
        assert(s.last() == s[n]);
        assert(p[n - 1] == s[n - 1]);
        let dropped = s.last().0 == s[s.len() - 2].0 && s.last().1 == s[s.len() - 2].1;
        if dropped {
            assert(d == dp);
            lemma_dedup_min(p, m);
            assert forall|j: int| 0 <= j < s.len() && cw_eq(#[trigger] s[j], d[m]) implies d[m].2 <= s[j].2 by {
                if j < n {
                    assert(p[j] == s[j]);
                } else {
                    assert(!pair_lt(s[n], s[n - 1]));
                    lemma_pair_le(s[n - 1], s[n]);
                    lemma_seq_lt_irreflexive(s[n].0);
                    lemma_seq_lt_irreflexive(s[n].1);
                    assert(cw_eq(p[n - 1], dp[m]));
                }
            }
        } else {
            assert(d == dp.push(s[n]));
            if m < dp.len() {
                assert(d[m] == dp[m]);
                lemma_dedup_min(p, m);
                lemma_dedup_member(p, m);
                let j1 = choose|j1: int| 0 <= j1 < p.len() && p[j1] == dp[m];
                assert(s[j1] == p[j1]);
                assert forall|j: int| 0 <= j < s.len() && cw_eq(#[trigger] s[j], d[m]) implies d[m].2 <= s[j].2 by {
                    if j < n {
                        assert(p[j] == s[j]);
                    } else if j1 < n - 1 {
                        assert(!pair_lt(s[n - 1], s[j1]));
                        assert(!pair_lt(s[n], s[n - 1]));
                        lemma_sandwich(s[j1], s[n - 1], s[n]);
                    }
                }
            } else {
                assert(d[m] == s[n]);
                assert forall|j: int| 0 <= j < s.len() && cw_eq(#[trigger] s[j], d[m]) implies d[m].2 <= s[j].2 by {
                    if j < n - 1 {
                        assert(!pair_lt(s[n - 1], s[j]));
                        assert(!pair_lt(s[n], s[n - 1]));
                        lemma_sandwich(s[j], s[n - 1], s[n]);
                    }
                }
            }
        }
    }
}

/// The kept entries strictly increase by code and word.
pub proof fn lemma_dedup_strict(s: Seq<Keyed>)
    requires
        pair_sorted(s),
    ensures
        forall|i: int, j: int| 0 <= i < j < dedup_pairs(s).len() ==> cw_lt(#[trigger] dedup_pairs(s)[i], #[trigger] dedup_pairs(s)[j]),
    decreases s.len(),
{
    let d = dedup_pairs(s);
    if s.len() > 1 {
        let n = s.len() - 1;
        let p = s.drop_last();
        let dp = dedup_pairs(p);
        lemma_prefix_sorted(s);
        lemma_dedup_strict(p);
        assert(s.last() == s[n]);
        assert(p[n - 1] == s[n - 1]);
        let dropped = s.last().0 == s[s.len() - 2].0 && s.last().1 == s[s.len() - 2].1;
        if !dropped {
            assert(d == dp.push(s[n]));
            assert forall|i: int, j: int| 0 <= i < j < d.len() implies cw_lt(#[trigger] d[i], #[trigger] d[j]) by {
                if j < dp.len() {
                    assert(d[i] == dp[i] && d[j] == dp[j]);
                } else {
                    assert(d[i] == dp[i]);
                    lemma_dedup_member(p, i);
                    let j1 = choose|j1: int| 0 <= j1 < p.len() && p[j1] == dp[i];
                    assert(s[j1] == p[j1]);
                    assert(!pair_lt(s[n], s[j1]));
                    lemma_pair_le(s[j1], s[n]);
                    if cw_eq(s[j1], s[n]) && j1 < n - 1 {
                        assert(!pair_lt(s[n - 1], s[j1]));
                        assert(!pair_lt(s[n], s[n - 1]));
                        lemma_sandwich(s[j1], s[n - 1], s[n]);
                    }
                }
            }
        }
    }
}

/// Every entry's code and word is kept.
pub proof fn lemma_dedup_covers_cw(s: Seq<Keyed>, j: int)
    requires
        0 <= j < s.len(),
    ensures
        exists|m: int| 0 <= m < dedup_pairs(s).len() && cw_eq(#[trigger] dedup_pairs(s)[m], s[j]),
    decreases s.len(),
{
    let d = dedup_pairs(s);
    if s.len() <= 1 {
        assert(d[j] == s[j]);
    } else {
        let n = s.len() - 1;
        let p = s.drop_last();
        let dp = dedup_pairs(p);
        let dropped = s.last().0 == s[s.len() - 2].0 && s.last().1 == s[s.len() - 2].1;
        assert(s.last() == s[n]);
        if j < n {
            lemma_dedup_covers_cw(p, j);
            let m = choose|m: int| 0 <= m < dp.len() && cw_eq(#[trigger] dp[m], p[j]);
            assert(p[j] == s[j]);
            if !dropped {
                assert(dp.push(s.last())[m] == dp[m]);
            }
            assert(d[m] == dp[m]);
        } else if dropped {
            lemma_dedup_covers_cw(p, n - 1);
            let m = choose|m: int| 0 <= m < dp.len() && cw_eq(#[trigger] dp[m], p[n - 1]);
            assert(p[n - 1] == s[n - 1]);
            assert(d[m] == dp[m]);
        } else {
            assert(d[d.len() - 1] == s[j]);
        }
    }
}

/// `kept_at` names an entry with the code and word asked for.
pub proof fn lemma_kept_at_valid(e: Seq<Draft>, c: Seq<u8>, w: Seq<u8>)
    ensures
        kept_at(e, c, w) matches Some(q) ==> 0 <= q < e.len() && e[q].0 == c && e[q].1 == w,
    decreases e.len(),
{
    if e.len() > 0 {
        let p = e.drop_last();
        lemma_kept_at_valid(p, c, w);
        if let Some(q) = kept_at(p, c, w) {
            assert(p[q] == e[q]);
        }
    }
}

/// The entry with the lowest log prior, the earliest among equals, is
/// the one `kept_at` names.
pub proof fn lemma_kept_at(e: Seq<Draft>, c: Seq<u8>, w: Seq<u8>, q: int)
    requires
        0 <= q < e.len(),
        e[q].0 == c,
        e[q].1 == w,
        forall|q2: int| 0 <= q2 < e.len() && (#[trigger] e[q2]).0 == c && e[q2].1 == w ==> e[q].2 < e[q2].2 || (e[q].2
            == e[q2].2 && q <= q2),
    ensures
        kept_at(e, c, w) == Some(q),
    decreases e.len(),
{
    let n = e.len() - 1;
    let p = e.drop_last();
    lemma_kept_at_valid(p, c, w);
    if q < n {
        assert(p[q] == e[q]);
        assert forall|q2: int| 0 <= q2 < p.len() && (#[trigger] p[q2]).0 == c && p[q2].1 == w implies p[q].2 < p[q2].2 || (p[q].2
            == p[q2].2 && q <= q2) by {
            assert(p[q2] == e[q2]);
        }
        lemma_kept_at(p, c, w, q);
    } else {
        if let Some(p0) = kept_at(p, c, w) {
            assert(p[p0] == e[p0]);
            assert(e[p0].0 == c && e[p0].1 == w);
        }
    }
}

/// Draft keys order by log prior, then position.
pub proof fn lemma_draft_key(la: i16, qa: int, lb: i16, qb: int)
    requires
        0 <= qa < 0x1_0000_0000,
        0 <= qb < 0x1_0000_0000,
    ensures
        draft_key(la, qa) % 0x1_0000_0000 == qa,
        draft_key(la, qa) <= draft_key(lb, qb) ==> la < lb || (la == lb && qa <= qb),
{
    lemma_unpack(qa, bias(la) as int);
    lemma_unpack(qb, bias(lb) as int);
}

/// Record `i` of an entry table sits at `16 i`.
pub proof fn lemma_recs_image_at(d: Seq<Keyed>, u: Seq<Seq<u8>>, e: Seq<Draft>, i: int)
    requires
        0 <= i < d.len(),
    ensures
        recs_image(d, u, e).len() == 16 * d.len(),
        recs_image(d, u, e).subrange(16 * i, 16 * i + 16) == entry_image(rec_of(u, e, d[i])),
    decreases d.len(),
{
    crate::idf_build::lemma_recs_image_len(d, u, e);
    let p = d.drop_last();
    crate::idf_build::lemma_recs_image_len(p, u, e);
    let rp = recs_image(p, u, e);
    let t = entry_image(rec_of(u, e, d.last()));
    assert(recs_image(d, u, e) == rp + t);
    if i < d.len() - 1 {
        lemma_recs_image_at(p, u, e, i);
        assert(p[i] == d[i]);
        assert(recs_image(d, u, e).subrange(16 * i, 16 * i + 16) =~= rp.subrange(16 * i, 16 * i + 16));
    } else {
        assert(d[i] == d.last());
        assert(recs_image(d, u, e).subrange(16 * i, 16 * i + 16) =~= t);
    }
}

pub proof fn lemma_match_kind_round_trip(m: MatchKind)
    ensures
        match_kind_of_byte(match_kind_byte(m)) == m,
{
}

/// Every kept entry is a queued entry: the one at the position its key
/// holds.
pub proof fn lemma_kept_origin(e: Seq<Draft>, s: Seq<Keyed>, m: int) -> (q: int)
    requires
        forall|x: Keyed| #[trigger] count_of(s, x) == count_of(keyed_drafts(e), x),
        e.len() < 0x1_0000_0000,
        0 <= m < dedup_pairs(s).len(),
    ensures
        0 <= q < e.len(),
        keyed_drafts(e)[q] == dedup_pairs(s)[m],
        dedup_pairs(s)[m].2 % 0x1_0000_0000 == q,
{
    lemma_dedup_member(s, m);
    let j = choose|j: int| 0 <= j < s.len() && s[j] == dedup_pairs(s)[m];
    let x = s[j];
    let k = keyed_drafts(e);
    lemma_count_contains(s, x);
    lemma_count_contains(k, x);
    assert(count_of(s, x) == count_of(k, x));
    let q = choose|q: int| 0 <= q < k.len() && k[q] == x;
    lemma_draft_key(e[q].2, q, e[q].2, q);
    q
}

/// Each queued entry sits somewhere in the sorted entries.
pub proof fn lemma_draft_sorted_at(e: Seq<Draft>, s: Seq<Keyed>, q: int) -> (p: int)
    requires
        forall|x: Keyed| #[trigger] count_of(s, x) == count_of(keyed_drafts(e), x),
        0 <= q < e.len(),
    ensures
        0 <= p < s.len(),
        s[p] == keyed_drafts(e)[q],
{
    let k = keyed_drafts(e);
    let x = k[q];
    lemma_count_contains(s, x);
    lemma_count_contains(k, x);
    assert(count_of(s, x) == count_of(k, x));
    choose|p: int| 0 <= p < s.len() && s[p] == x
}

/// The layout the writer produces, as far as reading entries goes: the
/// sorted entries `s` of the queued entries `e`, the kept entries, the
/// pool of the strings `u`, and the entry table.
pub open spec fn idf_laid_out(b: Seq<u8>, h: Header, e: Seq<Draft>, s: Seq<Keyed>, u: Seq<Seq<u8>>) -> bool {
    let d = dedup_pairs(s);
    &&& pair_sorted(s)
    &&& forall|x: Keyed| #[trigger] count_of(s, x) == count_of(keyed_drafts(e), x)
    &&& e.len() < 0x1_0000_0000
    &&& strictly_sorted(u)
    &&& pool_fits(u)
    &&& forall|m: int| 0 <= m < d.len() ==> u.contains(#[trigger] d[m].1) && u.contains(d[m].0)
    &&& h.string_pool_offset == 96
    &&& h.string_pool_size == flat(u).len()
    &&& 96 + flat(u).len() <= b.len()
    &&& b.subrange(96, 96 + flat(u).len() as int) == flat(u)
    &&& h.entry_count == d.len()
    &&& h.entry_table_offset + 16 * d.len() <= b.len()
    &&& b.subrange(h.entry_table_offset as int, h.entry_table_offset + 16 * d.len()) == recs_image(d, u, e)
}

/// Every queued code and word is UTF-8.
pub open spec fn drafts_utf8(e: Seq<Draft>) -> bool {
    forall|q: int| 0 <= q < e.len() ==> valid_utf8((#[trigger] e[q]).0) && valid_utf8(e[q].1)
}

/// Reading a pool string back.
proof fn lemma_pool_str_back(u: Seq<Seq<u8>>, k: int)
    requires
        0 <= k < u.len(),
        no_nul(u[k]),
        valid_utf8(u[k]),
        off_of(u, k) <= 0xFF_FFFF,
    ensures
        pool_str(flat(u), off_of(u, k) as u32) == u[k],
{
    lemma_flat_read(u, k);
}

/// Read after write: the entries of a dictionary laid out from the
/// queued entries `e` are the table `table_of` describes.
pub proof fn lemma_idf_read_back(b: Seq<u8>, h: Header, e: Seq<Draft>, s: Seq<Keyed>, u: Seq<Seq<u8>>)
    requires
        idf_laid_out(b, h, e, s, u),
        drafts_no_nul(e),
        drafts_utf8(e),
    ensures
        table_of(idf_entries(b, h), e),
{
    let d = dedup_pairs(s);
    let t = idf_entries(b, h);
    let k = keyed_drafts(e);
    let eto = h.entry_table_offset as int;
    crate::idf_build::lemma_recs_image_len(d, u, e);
    assert(pool_of(b, h) =~= flat(u));
    assert forall|m: int| 0 <= m < d.len() implies #[trigger] t[m] == draft_entry(e[(d[m].2 % 0x1_0000_0000) as int])
        && keyed_drafts(e)[(d[m].2 % 0x1_0000_0000) as int] == d[m] by {
        let q = lemma_kept_origin(e, s, m);
        assert(k[q] == (e[q].0, e[q].1, draft_key(e[q].2, q)));
        lemma_recs_image_at(d, u, e, m);
        let rec = rec_of(u, e, d[m]);
        let ic = str_idx(u, d[m].0);
        let iw = str_idx(u, d[m].1);
        assert(u.contains(d[m].1));
        assert(u.contains(d[m].0));
        assert(0 <= iw < u.len() && u[iw] == d[m].1);
        assert(0 <= ic < u.len() && u[ic] == d[m].0);
        assert(off_of(u, iw) <= 0xFF_FFFF);
        assert(off_of(u, ic) <= 0xFF_FFFF);
        crate::pool::lemma_off_mono(u, 0, iw);
        crate::pool::lemma_off_mono(u, 0, ic);
        assert(no_nul(e[q].0) && no_nul(e[q].1));
        assert(valid_utf8(e[q].0) && valid_utf8(e[q].1));
        lemma_pool_str_back(u, iw);
        lemma_pool_str_back(u, ic);
        assert(rec_bytes(b, h, m) =~= entry_image(rec)) by {
            assert forall|j: int| 0 <= j < 16 implies rec_bytes(b, h, m)[j] == entry_image(rec)[j] by {
                assert(b[eto + m * 16 + j] == b.subrange(eto, eto + 16 * d.len())[16 * m + j]);
                assert(recs_image(d, u, e).subrange(16 * m, 16 * m + 16)[j] == recs_image(d, u, e)[16 * m + j]);
            }
        }
        lemma_entry_round_trip(rec);
        lemma_match_kind_round_trip(e[q].4);
        assert(t[m] == idf_entry(b, h, m));
    }
    // Order.
    lemma_dedup_strict(s);
    assert forall|i: int, j: int| 0 <= i < j < t.len() implies code_word_lt(#[trigger] t[i], #[trigger] t[j]) by {
        assert(cw_lt(d[i], d[j]));
        let qi = lemma_kept_origin(e, s, i);
        let qj = lemma_kept_origin(e, s, j);
        assert(t[i] == draft_entry(e[qi]));
        assert(t[j] == draft_entry(e[qj]));
        assert(k[qi] == (e[qi].0, e[qi].1, draft_key(e[qi].2, qi)));
        assert(k[qj] == (e[qj].0, e[qj].1, draft_key(e[qj].2, qj)));
    }
    // Each entry is the one kept.
    assert forall|m: int| 0 <= m < t.len() implies (kept_at(e, (#[trigger] t[m]).1, t[m].0) matches Some(q) && 0 <= q
        < e.len() && t[m] == draft_entry(e[q])) by {
        let q = lemma_kept_origin(e, s, m);
        assert(t[m] == draft_entry(e[q]));
        lemma_dedup_min(s, m);
        assert forall|q2: int| 0 <= q2 < e.len() && (#[trigger] e[q2]).0 == e[q].0 && e[q2].1 == e[q].1 implies e[q].2
            < e[q2].2 || (e[q].2 == e[q2].2 && q <= q2) by {
            let p2 = lemma_draft_sorted_at(e, s, q2);
            assert(k[q2] == (e[q2].0, e[q2].1, draft_key(e[q2].2, q2)));
            assert(cw_eq(s[p2], d[m]));
            assert(d[m].2 <= s[p2].2);
            lemma_draft_key(e[q].2, q, e[q2].2, q2);
        }
        lemma_kept_at(e, e[q].0, e[q].1, q);
    }
    // Every queued code and word is there.
    assert forall|q: int| 0 <= q < e.len() implies exists|i: int| 0 <= i < t.len() && (#[trigger] t[i]).1 == (#[trigger] e[q]).0
        && t[i].0 == e[q].1 by {
        let p = lemma_draft_sorted_at(e, s, q);
        assert(k[q] == (e[q].0, e[q].1, draft_key(e[q].2, q)));
        lemma_dedup_covers_cw(s, p);
        let m = choose|m: int| 0 <= m < d.len() && cw_eq(#[trigger] d[m], s[p]);
        let q0 = lemma_kept_origin(e, s, m);
        assert(t[m] == draft_entry(e[q0]));
        assert(t[m].1 == e[q].0 && t[m].0 == e[q].1);
    }
}

} // verus!
