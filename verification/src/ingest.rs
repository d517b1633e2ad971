//! Corpus ingest planning: the upstream rows de-duplicated by code and
//! word, cleared of garbage, and diffed against the library. Reading,
//! fetching and writing files are the caller's.

use vstd::prelude::*;
use vstd::string::StringSliceAdditionalSpecFns;

use crate::fsa::dict::deep_triples;
use crate::fsa::reader::slice_to_vec_u8;
use crate::fsa::sort::{count_of, pair_lt, pair_sorted, sort_pairs};
use crate::idf_law::{
    cw_eq, cw_lt, lemma_dedup_covers_cw, lemma_dedup_min, lemma_dedup_strict, lemma_pair_le,
};
use crate::ngram_build::{dedup_pairs, dedup_rows, pack, Keyed};
use crate::ngram_law::{lemma_dedup_member, lemma_unpack};
use crate::pool::lemma_count_contains;
use crate::text::{bytes_eq, sbytes, seq_lt};

verus! {

/// One upstream row: code, word, engine-specific column, frequency.
#[derive(Debug, Clone, PartialEq, Eq)]
pub struct IngestRow {
    pub code: String,
    pub word: String,
    pub extra: Option<String>,
    pub freq: u32,
}

/// An optional string's bytes.
pub open spec fn opt_bytes(s: Option<String>) -> Option<Seq<u8>> {
    match s {
        Some(t) => Some(sbytes(t)),
        None => None,
    }
}

/// A row as plain values.
pub type RowView = (Seq<u8>, Seq<u8>, Option<Seq<u8>>, u32);

pub open spec fn row_view(r: IngestRow) -> RowView {
    (sbytes(r.code), sbytes(r.word), opt_bytes(r.extra), r.freq)
}

pub open spec fn rows_view(s: Seq<IngestRow>) -> Seq<RowView> {
    s.map_values(|r: IngestRow| row_view(r))
}

/// Sort key of the row at position `q`: frequency descending in the
/// high 32 bits, `q` in the low 32.
pub open spec fn row_key(f: u32, q: int) -> u64 {
    pack(q, (0xFFFF_FFFFu32 - f) as int)
}

/// The rows keyed for sorting.
pub open spec fn keyed_rows(e: Seq<RowView>) -> Seq<Keyed> {
    Seq::new(e.len(), |q: int| (e[q].0, e[q].1, row_key(e[q].3, q)))
}

/// Position of the row kept for code `c` and word `w`: the highest
/// frequency, the earliest among equal ones.
pub open spec fn best_at(e: Seq<RowView>, c: Seq<u8>, w: Seq<u8>) -> Option<int>
    decreases e.len(),
{
    if e.len() == 0 {
        None
    } else {
        let r = best_at(e.drop_last(), c, w);
        let q = e.len() - 1;
        if e[q].0 == c && e[q].1 == w {
            match r {
                None => Some(q),
                Some(p) => if e[q].3 > e[p].3 {
                    Some(q)
                } else {
                    Some(p)
                },
            }
        } else {
            r
        }
    }
}

/// What a kept row becomes: a zero frequency carries no extra column.
pub open spec fn kept_row(x: RowView) -> RowView {
    (x.0, x.1, if x.3 > 0 { x.2 } else { None }, x.3)
}

/// `t` is `e` de-duplicated: one row per code and word, in increasing
/// code and word order, each the one `best_at` picks.
pub open spec fn deduped_of(t: Seq<RowView>, e: Seq<RowView>) -> bool {
    &&& forall|i: int, j: int| 0 <= i < j < t.len() ==> seq_lt((#[trigger] t[i]).0, (#[trigger] t[j]).0) || (t[i].0
        == t[j].0 && seq_lt(t[i].1, t[j].1))
    &&& forall|i: int| 0 <= i < t.len() ==> (best_at(e, (#[trigger] t[i]).0, t[i].1) matches Some(q) && 0 <= q < e.len()
        && t[i] == kept_row(e[q]))
    &&& forall|q: int| 0 <= q < e.len() ==> exists|i: int| 0 <= i < t.len() && (#[trigger] t[i]).0 == (#[trigger] e[q]).0
        && t[i].1 == e[q].1
}

/// `best_at` names a row with the code and word asked for.
pub proof fn lemma_best_at_valid(e: Seq<RowView>, c: Seq<u8>, w: Seq<u8>)
    ensures
        best_at(e, c, w) matches Some(q) ==> 0 <= q < e.len() && e[q].0 == c && e[q].1 == w,
    decreases e.len(),
{
    if e.len() > 0 {
        let p = e.drop_last();
        lemma_best_at_valid(p, c, w);
        if let Some(q) = best_at(p, c, w) {
            assert(p[q] == e[q]);
        }
    }
}

/// The row with the highest frequency, the earliest among equals, is
/// the one `best_at` names.
pub proof fn lemma_best_at(e: Seq<RowView>, c: Seq<u8>, w: Seq<u8>, q: int)
    requires
        0 <= q < e.len(),
        e[q].0 == c,
        e[q].1 == w,
        forall|q2: int| 0 <= q2 < e.len() && (#[trigger] e[q2]).0 == c && e[q2].1 == w ==> e[q].3 > e[q2].3 || (e[q].3
            == e[q2].3 && q <= q2),
    ensures
        best_at(e, c, w) == Some(q),
    decreases e.len(),
{
    let n = e.len() - 1;
    let p = e.drop_last();
    lemma_best_at_valid(p, c, w);
    if q < n {
        assert(p[q] == e[q]);
        assert forall|q2: int| 0 <= q2 < p.len() && (#[trigger] p[q2]).0 == c && p[q2].1 == w implies p[q].3 > p[q2].3 || (p[q].3
            == p[q2].3 && q <= q2) by {
            assert(p[q2] == e[q2]);
        }
        lemma_best_at(p, c, w, q);
    } else {
        if let Some(p0) = best_at(p, c, w) {
            assert(p[p0] == e[p0]);
        }
    }
}

/// Row keys order by frequency descending, then position.
pub proof fn lemma_row_key(fa: u32, qa: int, fb: u32, qb: int)
    requires
        0 <= qa < 0x1_0000_0000,
        0 <= qb < 0x1_0000_0000,
    ensures
        row_key(fa, qa) % 0x1_0000_0000 == qa,
        row_key(fa, qa) <= row_key(fb, qb) ==> fa > fb || (fa == fb && qa <= qb),
{
    lemma_unpack(qa, (0xFFFF_FFFFu32 - fa) as int);
    lemma_unpack(qb, (0xFFFF_FFFFu32 - fb) as int);
}

/// Every kept key is a row's: the one at the position its key holds.
pub proof fn lemma_row_origin(e: Seq<RowView>, s: Seq<Keyed>, m: int) -> (q: int)
    requires
        forall|x: Keyed| #[trigger] count_of(s, x) == count_of(keyed_rows(e), x),
        e.len() < 0x1_0000_0000,
        0 <= m < dedup_pairs(s).len(),
    ensures
        0 <= q < e.len(),
        keyed_rows(e)[q] == dedup_pairs(s)[m],
        dedup_pairs(s)[m].2 % 0x1_0000_0000 == q,
{
    lemma_dedup_member(s, m);
    let j = choose|j: int| 0 <= j < s.len() && s[j] == dedup_pairs(s)[m];
    let x = s[j];
    let k = keyed_rows(e);
    lemma_count_contains(s, x);
    lemma_count_contains(k, x);
    assert(count_of(s, x) == count_of(k, x));
    let q = choose|q: int| 0 <= q < k.len() && k[q] == x;
    lemma_row_key(e[q].3, q, e[q].3, q);
    q
}

/// Each row sits somewhere in the sorted keys.
pub proof fn lemma_row_sorted_at(e: Seq<RowView>, s: Seq<Keyed>, q: int) -> (p: int)
    requires
        forall|x: Keyed| #[trigger] count_of(s, x) == count_of(keyed_rows(e), x),
        0 <= q < e.len(),
    ensures
        0 <= p < s.len(),
        s[p] == keyed_rows(e)[q],
{
    let k = keyed_rows(e);
    let x = k[q];
    lemma_count_contains(s, x);
    lemma_count_contains(k, x);
    assert(count_of(s, x) == count_of(k, x));
    choose|p: int| 0 <= p < s.len() && s[p] == x
}

/// The de-duplicated rows are the table `deduped_of` describes.
pub proof fn lemma_dedupe(e: Seq<RowView>, s: Seq<Keyed>, t: Seq<RowView>)
    requires
        pair_sorted(s),
        forall|x: Keyed| #[trigger] count_of(s, x) == count_of(keyed_rows(e), x),
        e.len() < 0x1_0000_0000,
        t.len() == dedup_pairs(s).len(),
        forall|m: int| 0 <= m < t.len() ==> #[trigger] t[m] == kept_row(e[(dedup_pairs(s)[m].2 % 0x1_0000_0000) as int]),
    ensures
        deduped_of(t, e),
{
    let d = dedup_pairs(s);
    let k = keyed_rows(e);
    lemma_dedup_strict(s);
    assert forall|i: int, j: int| 0 <= i < j < t.len() implies seq_lt((#[trigger] t[i]).0, (#[trigger] t[j]).0) || (t[i].0
        == t[j].0 && seq_lt(t[i].1, t[j].1)) by {
        assert(cw_lt(d[i], d[j]));
        let qi = lemma_row_origin(e, s, i);
        let qj = lemma_row_origin(e, s, j);
        assert(k[qi] == (e[qi].0, e[qi].1, row_key(e[qi].3, qi)));
        assert(k[qj] == (e[qj].0, e[qj].1, row_key(e[qj].3, qj)));
    }
    assert forall|m: int| 0 <= m < t.len() implies (best_at(e, (#[trigger] t[m]).0, t[m].1) matches Some(q) && 0 <= q
        < e.len() && t[m] == kept_row(e[q])) by {
        let q = lemma_row_origin(e, s, m);
        assert(k[q] == (e[q].0, e[q].1, row_key(e[q].3, q)));
        lemma_dedup_min(s, m);
        assert forall|q2: int| 0 <= q2 < e.len() && (#[trigger] e[q2]).0 == e[q].0 && e[q2].1 == e[q].1 implies e[q].3
            > e[q2].3 || (e[q].3 == e[q2].3 && q <= q2) by {
            let p2 = lemma_row_sorted_at(e, s, q2);
            assert(k[q2] == (e[q2].0, e[q2].1, row_key(e[q2].3, q2)));
            assert(cw_eq(s[p2], d[m]));
            assert(d[m].2 <= s[p2].2);
            lemma_row_key(e[q].3, q, e[q2].3, q2);
        }
        lemma_best_at(e, e[q].0, e[q].1, q);
    }
    assert forall|q: int| 0 <= q < e.len() implies exists|i: int| 0 <= i < t.len() && (#[trigger] t[i]).0 == (#[trigger] e[q]).0
        && t[i].1 == e[q].1 by {
        let p = lemma_row_sorted_at(e, s, q);
        assert(k[q] == (e[q].0, e[q].1, row_key(e[q].3, q)));
        lemma_dedup_covers_cw(s, p);
        let m = choose|m: int| 0 <= m < d.len() && cw_eq(#[trigger] d[m], s[p]);
        let q0 = lemma_row_origin(e, s, m);
        assert(k[q0] == (e[q0].0, e[q0].1, row_key(e[q0].3, q0)));
        assert(t[m] == kept_row(e[q0]));
    }
}

/// Copy of an optional string.
pub(crate) fn copy_opt(s: &Option<String>) -> (r: Option<String>)
    ensures
        opt_bytes(r) == opt_bytes(*s),
{
    match s {
        Some(t) => Some(t.clone()),
        None => None,
    }
}

/// The rows keyed for sorting.
fn key_rows(rows: &Vec<IngestRow>) -> (r: Vec<(Vec<u8>, Vec<u8>, u64)>)
    requires
        rows@.len() < 0x1_0000_0000,
    ensures
        deep_triples(r@) == keyed_rows(rows_view(rows@)),
{
    let ghost want = keyed_rows(rows_view(rows@));
    let mut r: Vec<(Vec<u8>, Vec<u8>, u64)> = Vec::new();
    let mut i: usize = 0;
    while i < rows.len()
        invariant
            i <= rows@.len(),
            rows@.len() < 0x1_0000_0000,
            want == keyed_rows(rows_view(rows@)),
            deep_triples(r@) == want.take(i as int),
        decreases rows@.len() - i,
    {
        let hi: u64 = (0xFFFF_FFFFu32 - rows[i].freq) as u64;
        let v: u64 = i as u64 + hi * 0x1_0000_0000;
        proof {
            lemma_unpack(i as int, hi as int);
        }
        let t = (slice_to_vec_u8(rows[i].code.as_str().as_bytes()), slice_to_vec_u8(rows[i].word.as_str().as_bytes()), v);
        let ghost before = deep_triples(r@);
        r.push(t);
        assert(deep_triples(r@) =~= before.push(want[i as int]));
        assert(want.take(i + 1) =~= want.take(i as int).push(want[i as int]));
        i = i + 1;
    }
    assert(want.take(i as int) =~= want);
    r
}

/// STAGE 4: one row per code and word, the highest frequency winning
/// (the earliest among equal ones, a zero frequency carrying no extra
/// column), in increasing code and word order.
pub fn dedupe_max(rows: &Vec<IngestRow>) -> (r: Vec<IngestRow>)
    requires
        rows@.len() < 0x1_0000_0000,
    ensures
        deduped_of(rows_view(r@), rows_view(rows@)),
{
    let ghost e = rows_view(rows@);
    let kv = key_rows(rows);
    let ghost k = deep_triples(kv@);
    let sorted = sort_pairs(kv);
    let ghost s = deep_triples(sorted@);
    let d = dedup_rows(&sorted);
    let ghost dd = deep_triples(d@);
    let mut out: Vec<IngestRow> = Vec::new();
    let mut m: usize = 0;
    while m < d.len()
        invariant
            e == rows_view(rows@),
            e.len() < 0x1_0000_0000,
            pair_sorted(s),
            forall|x: Keyed| #[trigger] count_of(s, x) == count_of(keyed_rows(e), x),
            dd == deep_triples(d@),
            dd == dedup_pairs(s),
            m <= d@.len(),
            out@.len() == m,
            forall|j: int| 0 <= j < m ==> #[trigger] rows_view(out@)[j] == kept_row(e[(dd[j].2 % 0x1_0000_0000) as int]),
        decreases d@.len() - m,
    {
        let ghost q0 = lemma_row_origin(e, s, m as int);
        let q: usize = (d[m].2 % 0x1_0000_0000) as usize;
        assert(q == q0);
        let extra = if rows[q].freq > 0 {
            copy_opt(&rows[q].extra)
        } else {
            None
        };
        let row = IngestRow { code: rows[q].code.clone(), word: rows[q].word.clone(), extra, freq: rows[q].freq };
        let ghost before = out@;
        out.push(row);
        proof {
            assert(out@ == before.push(row));
            assert forall|j: int| 0 <= j < m + 1 implies #[trigger] rows_view(out@)[j] == kept_row(e[(dd[j].2 % 0x1_0000_0000) as int]) by {
                if j < m {
                    assert(out@[j] == before[j]);
                    assert(rows_view(before)[j] == kept_row(e[(dd[j].2 % 0x1_0000_0000) as int]));
                }
            }
        }
        m = m + 1;
    }
    proof {
        lemma_dedupe(e, s, rows_view(out@));
    }
    out
}

} // verus!

verus! {

/// A library row: code, word, engine-specific column, frequency, and
/// where it came from (`digested` or `polish`).
#[derive(Debug, Clone, PartialEq, Eq)]
pub struct LibraryRow {
    pub code: String,
    pub word: String,
    pub extra: Option<String>,
    pub freq: u32,
    pub source: String,
}

/// A library row as plain values.
pub type LibView = (Seq<u8>, Seq<u8>, Option<Seq<u8>>, u32, Seq<char>);

pub open spec fn lib_view(r: LibraryRow) -> LibView {
    (sbytes(r.code), sbytes(r.word), opt_bytes(r.extra), r.freq, r.source@)
}

pub open spec fn libs_view(s: Seq<LibraryRow>) -> Seq<LibView> {
    s.map_values(|r: LibraryRow| lib_view(r))
}

/// The last library row with code `c` and word `w`.
pub open spec fn last_at(lib: Seq<LibView>, c: Seq<u8>, w: Seq<u8>) -> Option<int>
    decreases lib.len(),
{
    if lib.len() == 0 {
        None
    } else {
        let n = lib.len() - 1;
        if lib[n].0 == c && lib[n].1 == w {
            Some(n)
        } else {
            last_at(lib.drop_last(), c, w)
        }
    }
}

/// What the diff does with an upstream row.
#[derive(Copy, Clone, Debug, PartialEq, Eq, Structural)]
pub enum Outcome {
    /// A new word: added with its frequency folded into the library's
    /// scale.
    Add,
    /// The library's row is hand-polished: it wins.
    SkipPolish,
    /// The library already has this frequency.
    SkipSame,
    /// The library digested it at another frequency: the library wins.
    SkipLibraryWins,
}

/// The diff's decision for row `x` against the library.
pub open spec fn outcome(lib: Seq<LibView>, x: RowView) -> Outcome {
    match last_at(lib, x.0, x.1) {
        None => Outcome::Add,
        Some(i) => if lib[i].4 == "polish"@ {
            Outcome::SkipPolish
        } else if lib[i].3 == x.3 {
            Outcome::SkipSame
        } else {
            Outcome::SkipLibraryWins
        },
    }
}

/// How many rows of `t` the diff decides `o` for.
pub open spec fn count_outcome(t: Seq<RowView>, lib: Seq<LibView>, o: Outcome) -> nat
    decreases t.len(),
{
    if t.len() == 0 {
        0
    } else {
        count_outcome(t.drop_last(), lib, o) + if outcome(lib, t.last()) == o {
            1nat
        } else {
            0nat
        }
    }
}

/// The rows of `t` the diff adds, in order.
pub open spec fn adds(t: Seq<RowView>, lib: Seq<LibView>) -> Seq<RowView>
    decreases t.len(),
{
    if t.len() == 0 {
        Seq::empty()
    } else if outcome(lib, t.last()) == Outcome::Add {
        adds(t.drop_last(), lib).push(t.last())
    } else {
        adds(t.drop_last(), lib)
    }
}

/// The diff of upstream rows against the library.
#[derive(Debug, Clone)]
pub struct IngestPlan {
    /// New rows, their frequency folded into the library's scale.
    pub added: Vec<IngestRow>,
    pub skipped_same: u64,
    pub skipped_library_wins: u64,
    pub skipped_polish: u64,
    /// Rows dropped before the diff (parse drops and garbage).
    pub rejected_garbage: u64,
}

/// Code and word `(a0, a1)` sort no later than `(b0, b1)`.
pub open spec fn cw_le2(a0: Seq<u8>, a1: Seq<u8>, b0: Seq<u8>, b1: Seq<u8>) -> bool {
    seq_lt(a0, b0) || (a0 == b0 && (seq_lt(a1, b1) || a1 == b1))
}

proof fn lemma_cw_le2_trans(a0: Seq<u8>, a1: Seq<u8>, b0: Seq<u8>, b1: Seq<u8>, c0: Seq<u8>, c1: Seq<u8>)
    requires
        cw_le2(a0, a1, b0, b1),
        cw_le2(b0, b1, c0, c1),
    ensures
        cw_le2(a0, a1, c0, c1),
{
    if seq_lt(a0, b0) && seq_lt(b0, c0) {
        crate::text::lemma_seq_lt_trans(a0, b0, c0);
    }
    if a0 == b0 && b0 == c0 && seq_lt(a1, b1) && seq_lt(b1, c1) {
        crate::text::lemma_seq_lt_trans(a1, b1, c1);
    }
}

proof fn lemma_cw_le2_total(a0: Seq<u8>, a1: Seq<u8>, b0: Seq<u8>, b1: Seq<u8>)
    ensures
        cw_le2(a0, a1, b0, b1) || cw_le2(b0, b1, a0, a1),
        cw_le2(a0, a1, b0, b1) && cw_le2(b0, b1, a0, a1) ==> a0 == b0 && a1 == b1,
{
    crate::text::lemma_seq_lt_total(a0, b0);
    crate::text::lemma_seq_lt_total(a1, b1);
}

/// Sorted keys: an earlier one's code and word are no later.
proof fn lemma_sorted_cw(s: Seq<Keyed>, i: int, j: int)
    requires
        pair_sorted(s),
        0 <= i <= j < s.len(),
    ensures
        cw_le2(s[i].0, s[i].1, s[j].0, s[j].1),
{
    if i < j {
        lemma_pair_le(s[i], s[j]);
    }
}

/// Position of the last of the sorted keys `s` with code `c` and word
/// `w`; its key is the largest among those.
fn find_last_cw(s: &Vec<(Vec<u8>, Vec<u8>, u64)>, c: &[u8], w: &[u8]) -> (r: Option<usize>)
    requires
        pair_sorted(deep_triples(s@)),
    ensures
        r is None <==> forall|j: int| 0 <= j < s@.len() ==> !((#[trigger] deep_triples(s@)[j]).0 == c@ && deep_triples(s@)[j].1 == w@),
        r matches Some(i) ==> i < s@.len() && deep_triples(s@)[i as int].0 == c@ && deep_triples(s@)[i as int].1 == w@
            && forall|j: int| 0 <= j < s@.len() && (#[trigger] deep_triples(s@)[j]).0 == c@ && deep_triples(s@)[j].1 == w@
                ==> deep_triples(s@)[j].2 <= deep_triples(s@)[i as int].2,
{
    let ghost ss = deep_triples(s@);
    let mut lo: usize = 0;
    let mut hi: usize = s.len();
    while lo < hi
        invariant
            ss == deep_triples(s@),
            pair_sorted(ss),
            0 <= lo <= hi <= s@.len(),
            forall|j: int| 0 <= j < lo ==> cw_le2((#[trigger] ss[j]).0, ss[j].1, c@, w@),
            forall|j: int| hi <= j < s@.len() ==> !cw_le2((#[trigger] ss[j]).0, ss[j].1, c@, w@),
        decreases hi - lo,
    {
        let mid = lo + (hi - lo) / 2;
        let k = crate::text::compare_bytes(s[mid].0.as_slice(), c);
        let le = if k != 0 {
            k < 0
        } else {
            crate::text::compare_bytes(s[mid].1.as_slice(), w) <= 0
        };
        assert(le == cw_le2(ss[mid as int].0, ss[mid as int].1, c@, w@));
        if le {
            proof {
                assert forall|j: int| 0 <= j < mid + 1 implies cw_le2((#[trigger] ss[j]).0, ss[j].1, c@, w@) by {
                    lemma_sorted_cw(ss, j, mid as int);
                    lemma_cw_le2_trans(ss[j].0, ss[j].1, ss[mid as int].0, ss[mid as int].1, c@, w@);
                }
            }
            lo = mid + 1;
        } else {
            proof {
                assert forall|j: int| mid <= j < s@.len() implies !cw_le2((#[trigger] ss[j]).0, ss[j].1, c@, w@) by {
                    lemma_sorted_cw(ss, mid as int, j);
                    if cw_le2(ss[j].0, ss[j].1, c@, w@) {
                        lemma_cw_le2_trans(ss[mid as int].0, ss[mid as int].1, ss[j].0, ss[j].1, c@, w@);
                    }
                }
            }
            hi = mid;
        }
    }
    if lo > 0 && bytes_eq(s[lo - 1].0.as_slice(), c) && bytes_eq(s[lo - 1].1.as_slice(), w) {
        let i = lo - 1;
        proof {
            assert(deep_triples(s@)[i as int].0 == c@ && deep_triples(s@)[i as int].1 == w@);
            assert forall|j: int| 0 <= j < s@.len() && (#[trigger] ss[j]).0 == c@ && ss[j].1 == w@ implies ss[j].2 <= ss[i as int].2 by {
                lemma_cw_le2_total(c@, w@, c@, w@);
                crate::text::lemma_seq_lt_irreflexive(c@);
                crate::text::lemma_seq_lt_irreflexive(w@);
                assert(cw_le2(ss[j].0, ss[j].1, c@, w@));
                assert(j < lo);
                if j < i {
                    lemma_pair_le(ss[j], ss[i as int]);
                }
            }
        }
        Some(i)
    } else {
        proof {
            assert forall|j: int| 0 <= j < s@.len() implies !((#[trigger] ss[j]).0 == c@ && ss[j].1 == w@) by {
                if ss[j].0 == c@ && ss[j].1 == w@ {
                    crate::text::lemma_seq_lt_irreflexive(c@);
                    crate::text::lemma_seq_lt_irreflexive(w@);
                    assert(cw_le2(ss[j].0, ss[j].1, c@, w@));
                    assert(j < lo);
                    lemma_sorted_cw(ss, j, lo - 1);
                    lemma_cw_le2_total(ss[lo - 1].0, ss[lo - 1].1, c@, w@);
                }
            }
        }
        None
    }
}

/// The library keyed for lookup: code, word, position.
pub open spec fn keyed_lib(lib: Seq<LibView>) -> Seq<Keyed> {
    Seq::new(lib.len(), |q: int| (lib[q].0, lib[q].1, q as u64))
}

fn key_library(lib: &Vec<LibraryRow>) -> (r: Vec<(Vec<u8>, Vec<u8>, u64)>)
    ensures
        deep_triples(r@) == keyed_lib(libs_view(lib@)),
{
    let ghost want = keyed_lib(libs_view(lib@));
    let mut r: Vec<(Vec<u8>, Vec<u8>, u64)> = Vec::new();
    let mut i: usize = 0;
    while i < lib.len()
        invariant
            i <= lib@.len(),
            want == keyed_lib(libs_view(lib@)),
            deep_triples(r@) == want.take(i as int),
        decreases lib@.len() - i,
    {
        let t = (slice_to_vec_u8(lib[i].code.as_str().as_bytes()), slice_to_vec_u8(lib[i].word.as_str().as_bytes()), i as u64);
        let ghost before = deep_triples(r@);
        r.push(t);
        assert(deep_triples(r@) =~= before.push(want[i as int]));
        assert(want.take(i + 1) =~= want.take(i as int).push(want[i as int]));
        i = i + 1;
    }
    assert(want.take(i as int) =~= want);
    r
}

/// The last library row with a given code and word is the one with the
/// largest position among them.
proof fn lemma_last_at(lib: Seq<LibView>, c: Seq<u8>, w: Seq<u8>, q: int)
    requires
        0 <= q < lib.len(),
        lib[q].0 == c && lib[q].1 == w,
        forall|q2: int| 0 <= q2 < lib.len() && (#[trigger] lib[q2]).0 == c && lib[q2].1 == w ==> q2 <= q,
    ensures
        last_at(lib, c, w) == Some(q),
    decreases lib.len(),
{
    let n = lib.len() - 1;
    if q < n {
        let p = lib.drop_last();
        assert(p[q] == lib[q]);
        assert forall|q2: int| 0 <= q2 < p.len() && (#[trigger] p[q2]).0 == c && p[q2].1 == w implies q2 <= q by {
            assert(p[q2] == lib[q2]);
        }
        lemma_last_at(p, c, w, q);
    }
}

proof fn lemma_last_at_none(lib: Seq<LibView>, c: Seq<u8>, w: Seq<u8>)
    requires
        forall|q2: int| 0 <= q2 < lib.len() ==> !((#[trigger] lib[q2]).0 == c && lib[q2].1 == w),
    ensures
        last_at(lib, c, w) is None,
    decreases lib.len(),
{
    if lib.len() > 0 {
        let p = lib.drop_last();
        assert forall|q2: int| 0 <= q2 < p.len() implies !((#[trigger] p[q2]).0 == c && p[q2].1 == w) by {
            assert(p[q2] == lib[q2]);
        }
        assert(lib[lib.len() - 1] == lib.last());
        lemma_last_at_none(p, c, w);
    }
}

/// The library row an upstream row collides with, if any.
fn lookup_library(
    keys: &Vec<(Vec<u8>, Vec<u8>, u64)>,
    lib: &Vec<LibraryRow>,
    c: &str,
    w: &str,
) -> (r: Option<usize>)
    requires
        pair_sorted(deep_triples(keys@)),
        forall|x: Keyed| #[trigger] count_of(deep_triples(keys@), x) == count_of(keyed_lib(libs_view(lib@)), x),
    ensures
        r matches Some(i) ==> last_at(libs_view(lib@), c.spec_bytes(), w.spec_bytes()) == Some(i as int) && i < lib@.len(),
        r is None ==> last_at(libs_view(lib@), c.spec_bytes(), w.spec_bytes()) is None,
{
    let ghost lv = libs_view(lib@);
    let ghost kl = keyed_lib(lv);
    let ghost ss = deep_triples(keys@);
    let n = lib.len();
    let found = find_last_cw(keys, c.as_bytes(), w.as_bytes());
    match found {
        None => {
            proof {
                assert forall|q2: int| 0 <= q2 < lv.len() implies !((#[trigger] lv[q2]).0 == c.spec_bytes() && lv[q2].1 == w.spec_bytes()) by {
                    if lv[q2].0 == c.spec_bytes() && lv[q2].1 == w.spec_bytes() {
                        let x = kl[q2];
                        lemma_count_contains(ss, x);
                        lemma_count_contains(kl, x);
                        assert(count_of(ss, x) == count_of(kl, x));
                        let p = choose|p: int| 0 <= p < ss.len() && ss[p] == x;
                        assert(!(ss[p].0 == c.spec_bytes() && ss[p].1 == w.spec_bytes()));
                    }
                }
                lemma_last_at_none(lv, c.spec_bytes(), w.spec_bytes());
            }
            None
        },
        Some(i) => {
            let ghost x = ss[i as int];
            proof {
                lemma_count_contains(ss, x);
                lemma_count_contains(kl, x);
                assert(count_of(ss, x) == count_of(kl, x));
            }
            let ghost q = choose|q: int| 0 <= q < kl.len() && kl[q] == x;
            proof {
                assert(q < n);
                assert(kl[q] == (lv[q].0, lv[q].1, q as u64));
                assert(keys@[i as int].2 == x.2);
            }
            let idx: usize = keys[i].2 as usize;
            proof {
                assert(idx == q);
                assert forall|q2: int| 0 <= q2 < lv.len() && (#[trigger] lv[q2]).0 == c.spec_bytes() && lv[q2].1 == w.spec_bytes() implies q2 <= q by {
                    let y = kl[q2];
                    lemma_count_contains(ss, y);
                    lemma_count_contains(kl, y);
                    assert(count_of(ss, y) == count_of(kl, y));
                    let p = choose|p: int| 0 <= p < ss.len() && ss[p] == y;
                    assert(ss[p].2 <= ss[i as int].2);
                }
                lemma_last_at(lv, c.spec_bytes(), w.spec_bytes(), q);
            }
            Some(idx)
        },
    }
}

/// STAGE 6: diff the de-duplicated upstream rows against the library.
/// A row with no library row of its code and word is added, its
/// frequency passed through `fold`; otherwise a polished library row
/// wins, an equal frequency is skipped, and a different one leaves the
/// library as it is. `rejected` is carried into the plan.
pub fn plan_ingest<F: Fn(u32) -> u32>(rows: &Vec<IngestRow>, library: &Vec<LibraryRow>, fold: &F, rejected: u64) -> (r: IngestPlan)
    requires
        forall|x: u32| #[trigger] fold.requires((x,)),
    ensures
        r.rejected_garbage == rejected,
        r.skipped_same == count_outcome(rows_view(rows@), libs_view(library@), Outcome::SkipSame),
        r.skipped_polish == count_outcome(rows_view(rows@), libs_view(library@), Outcome::SkipPolish),
        r.skipped_library_wins == count_outcome(rows_view(rows@), libs_view(library@), Outcome::SkipLibraryWins),
        r.added@.len() == adds(rows_view(rows@), libs_view(library@)).len(),
        forall|i: int| 0 <= i < r.added@.len() ==> {
            let a = adds(rows_view(rows@), libs_view(library@))[i];
            &&& (#[trigger] row_view(r.added@[i])).0 == a.0
            &&& row_view(r.added@[i]).1 == a.1
            &&& row_view(r.added@[i]).2 == a.2
            &&& fold.ensures((a.3,), r.added@[i].freq)
        },
{
    let ghost t = rows_view(rows@);
    let ghost lv = libs_view(library@);
    let kv = key_library(library);
    let keys = sort_pairs(kv);
    let mut added: Vec<IngestRow> = Vec::new();
    let mut same: u64 = 0;
    let mut wins: u64 = 0;
    let mut polish: u64 = 0;
    let mut i: usize = 0;
    while i < rows.len()
        invariant
            t == rows_view(rows@),
            lv == libs_view(library@),
            forall|x: u32| #[trigger] fold.requires((x,)),
            pair_sorted(deep_triples(keys@)),
            forall|x: Keyed| #[trigger] count_of(deep_triples(keys@), x) == count_of(keyed_lib(libs_view(library@)), x),
            i <= rows@.len(),
            same == count_outcome(t.take(i as int), lv, Outcome::SkipSame),
            polish == count_outcome(t.take(i as int), lv, Outcome::SkipPolish),
            wins == count_outcome(t.take(i as int), lv, Outcome::SkipLibraryWins),
            same <= i && polish <= i && wins <= i,
            added@.len() == adds(t.take(i as int), lv).len(),
            forall|j: int| 0 <= j < added@.len() ==> {
                let a = adds(t.take(i as int), lv)[j];
                &&& (#[trigger] row_view(added@[j])).0 == a.0
                &&& row_view(added@[j]).1 == a.1
                &&& row_view(added@[j]).2 == a.2
                &&& fold.ensures((a.3,), added@[j].freq)
            },
        decreases rows@.len() - i,
    {
        let ghost p = t.take(i + 1);
        proof {
            assert(p.drop_last() =~= t.take(i as int));
            assert(p.last() == t[i as int]);
            assert(t[i as int] == row_view(rows@[i as int]));
        }
        let row = &rows[i];
        let hit = lookup_library(&keys, library, row.code.as_str(), row.word.as_str());
        match hit {
            None => {
                let f = fold(row.freq);
                let ghost before = added@;
                added.push(IngestRow { code: row.code.clone(), word: row.word.clone(), extra: copy_opt(&row.extra), freq: f });
                proof {
                    assert(outcome(lv, t[i as int]) == Outcome::Add);
                    assert(adds(p, lv) == adds(t.take(i as int), lv).push(t[i as int]));
                    assert forall|j: int| 0 <= j < added@.len() implies {
                        let a = adds(p, lv)[j];
                        &&& (#[trigger] row_view(added@[j])).0 == a.0
                        &&& row_view(added@[j]).1 == a.1
                        &&& row_view(added@[j]).2 == a.2
                        &&& fold.ensures((a.3,), added@[j].freq)
                    } by {
                        if j < before.len() {
                            assert(added@[j] == before[j]);
                        }
                    }
                }
            },
            Some(k) => {
                let is_polish = crate::text::str_eq(library[k].source.as_str(), "polish");
                if is_polish {
                    polish = polish + 1;
                } else if library[k].freq == row.freq {
                    same = same + 1;
                } else {
                    wins = wins + 1;
                }
                proof {
                    assert(lv[k as int] == lib_view(library@[k as int]));
                    assert(outcome(lv, t[i as int]) != Outcome::Add);
                    assert(adds(p, lv) == adds(t.take(i as int), lv));
                }
            },
        }
        i = i + 1;
    }
    proof {
        assert(t.take(i as int) =~= t);
    }
    IngestPlan { added, skipped_same: same, skipped_library_wins: wins, skipped_polish: polish, rejected_garbage: rejected }
}

/// STAGE 9: how many library rows were digested.
pub fn digested_count(library: &Vec<LibraryRow>) -> (r: u64)
    ensures
        r == digested_total(libs_view(library@)),
{
    let ghost lv = libs_view(library@);
    let mut n: u64 = 0;
    let mut i: usize = 0;
    while i < library.len()
        invariant
            lv == libs_view(library@),
            i <= library@.len(),
            n == digested_total(lv.take(i as int)),
            n <= i,
        decreases library@.len() - i,
    {
        proof {
            assert(lv.take(i + 1).drop_last() =~= lv.take(i as int));
            assert(lv.take(i + 1).last() == lib_view(library@[i as int]));
        }
        if crate::text::str_eq(library[i].source.as_str(), "digested") {
            n = n + 1;
        }
        i = i + 1;
    }
    assert(lv.take(i as int) =~= lv);
    n
}

/// Library rows marked `digested`.
pub open spec fn digested_total(lib: Seq<LibView>) -> nat
    decreases lib.len(),
{
    if lib.len() == 0 {
        0
    } else {
        digested_total(lib.drop_last()) + if lib.last().4 == "digested"@ {
            1nat
        } else {
            0nat
        }
    }
}


/// The library rows a frequency fold is calibrated on: digested rows
/// with a non-zero frequency, in library order.
pub open spec fn fold_anchors(lib: Seq<LibView>) -> Seq<LibView>
    decreases lib.len(),
{
    if lib.len() == 0 {
        Seq::empty()
    } else {
        let p = fold_anchors(lib.drop_last());
        let x = lib.last();
        if x.4 == "digested"@ && x.3 > 0 {
            p.push(x)
        } else {
            p
        }
    }
}

/// The (upstream, library) frequency pairs of the upstream rows with a
/// non-zero frequency whose code and word an anchor also has; the last
/// such anchor gives the library side.
pub open spec fn consensus(t: Seq<RowView>, a: Seq<LibView>) -> Seq<(u32, u32)>
    decreases t.len(),
{
    if t.len() == 0 {
        Seq::empty()
    } else {
        let p = consensus(t.drop_last(), a);
        let x = t.last();
        if x.3 > 0 && last_at(a, x.0, x.1) is Some {
            p.push((x.3, a[last_at(a, x.0, x.1)->0].3))
        } else {
            p
        }
    }
}

pub(crate) fn copy_library_row(r: &LibraryRow) -> (c: LibraryRow)
    ensures
        lib_view(c) == lib_view(*r),
{
    LibraryRow {
        code: r.code.clone(),
        word: r.word.clone(),
        extra: copy_opt(&r.extra),
        freq: r.freq,
        source: r.source.clone(),
    }
}

/// STAGE 3.5: the frequency pairs a fold of upstream frequencies into
/// the library's scale is fitted on.
pub fn consensus_pairs(library: &Vec<LibraryRow>, upstream: &Vec<IngestRow>) -> (r: Vec<(u32, u32)>)
    ensures
        r@ == consensus(rows_view(upstream@), fold_anchors(libs_view(library@))),
{
    let ghost lv = libs_view(library@);
    let mut anchors: Vec<LibraryRow> = Vec::new();
    let mut i: usize = 0;
    while i < library.len()
        invariant
            lv == libs_view(library@),
            i <= library@.len(),
            libs_view(anchors@) == fold_anchors(lv.take(i as int)),
        decreases library@.len() - i,
    {
        proof {
            assert(lv.take(i + 1).drop_last() =~= lv.take(i as int));
            assert(lv.take(i + 1).last() == lib_view(library@[i as int]));
        }
        if library[i].freq > 0 && crate::text::str_eq(library[i].source.as_str(), "digested") {
            let c = copy_library_row(&library[i]);
            let ghost before = libs_view(anchors@);
            anchors.push(c);
            proof {
                assert(libs_view(anchors@) =~= before.push(lib_view(c)));
            }
        }
        i = i + 1;
    }
    assert(lv.take(i as int) =~= lv);
    let ghost av = libs_view(anchors@);
    let ghost t = rows_view(upstream@);
    let kv = key_library(&anchors);
    let keys = sort_pairs(kv);
    let mut out: Vec<(u32, u32)> = Vec::new();
    let mut j: usize = 0;
    while j < upstream.len()
        invariant
            av == libs_view(anchors@),
            t == rows_view(upstream@),
            pair_sorted(deep_triples(keys@)),
            forall|x: Keyed| #[trigger] count_of(deep_triples(keys@), x) == count_of(keyed_lib(libs_view(anchors@)), x),
            j <= upstream@.len(),
            out@ == consensus(t.take(j as int), av),
        decreases upstream@.len() - j,
    {
        proof {
            assert(t.take(j + 1).drop_last() =~= t.take(j as int));
            assert(t.take(j + 1).last() == row_view(upstream@[j as int]));
        }
        let row = &upstream[j];
        if row.freq > 0 {
            let hit = lookup_library(&keys, &anchors, row.code.as_str(), row.word.as_str());
            if let Some(k) = hit {
                proof {
                    assert(av[k as int] == lib_view(anchors@[k as int]));
                }
                out.push((row.freq, anchors[k].freq));
            }
        }
        j = j + 1;
    }
    assert(t.take(j as int) =~= t);
    out
}


/// A row the diff added, as the library stores it: marked `digested`.
pub open spec fn as_digested(x: RowView) -> LibView {
    (x.0, x.1, x.2, x.3, "digested"@)
}

/// STAGE 7: append the added rows to the library, each marked
/// `digested`. Rows already in the library are kept as they were: the
/// library only grows.
pub fn append_digested(library: &mut Vec<LibraryRow>, added: &Vec<IngestRow>)
    ensures
        libs_view(final(library)@) == libs_view(old(library)@) + rows_view(added@).map_values(
            |x: RowView| as_digested(x),
        ),
{
    let ghost start = libs_view(library@);
    let ghost want = rows_view(added@).map_values(|x: RowView| as_digested(x));
    let mut i: usize = 0;
    while i < added.len()
        invariant
            i <= added@.len(),
            want == rows_view(added@).map_values(|x: RowView| as_digested(x)),
            libs_view(library@) == start + want.take(i as int),
        decreases added@.len() - i,
    {
        let r = &added[i];
        let row = LibraryRow {
            code: r.code.clone(),
            word: r.word.clone(),
            extra: copy_opt(&r.extra),
            freq: r.freq,
            source: crate::text::owned("digested"),
        };
        let ghost before = libs_view(library@);
        library.push(row);
        proof {
            assert(libs_view(library@) =~= before.push(lib_view(row)));
            assert(want[i as int] == as_digested(row_view(added@[i as int])));
            assert(want.take(i + 1) =~= want.take(i as int).push(want[i as int]));
        }
        i = i + 1;
    }
    assert(want.take(i as int) =~= want);
}

/// Whether a fetched source is the one already ingested: the registry
/// records a digest (not empty, not `n/a`) and it equals the fetched one.
/// Re-ingesting such a source changes nothing.
pub fn source_unchanged(recorded: &str, fetched: &str) -> (r: bool)
    ensures
        r == (recorded@ == fetched@ && recorded@.len() > 0 && recorded@ != "n/a"@),
{
    let same = crate::text::str_eq(recorded, fetched);
    let na = crate::text::str_eq(recorded, "n/a");
    same && recorded.as_bytes().len() > 0 && !na
}

} // verus!
