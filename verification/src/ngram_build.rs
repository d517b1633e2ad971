//! NGMv1 writer: sorts and de-duplicates the queued (context, next,
//! log prob) rows and lays out the header, string pool, triplet table
//! and context automaton.

use vstd::prelude::*;
use vstd::string::StringSliceAdditionalSpecFns;

use crate::digest::{sha256_from, sha256_spec};
use crate::fsa::builder::{map_get, pairs_map, total_key_len, Builder, MAX_TOTAL_KEY_BYTES};
use crate::fsa::dict::deep_triples;
use crate::fsa::reader::{bytes_get, parse_layout, slice_to_vec_u8};
use crate::fsa::sort::{count_of, lemma_count_concat, lemma_sorted_of, lt_by, sort_triples, sorted_by, tri_lt, tri_sorted};
use crate::ngram::{
    ctx_blob, ctx_words, encode_ctx, has_ngm_magic, header_image, ngm_error, Header, Triplet,
    triplet_image, MAGIC,
};
use crate::pool::{
    find_string, flat, lemma_count_contains, lemma_pool_strings, off_of, pad8, pool_fits, pool_fits_exec,
    pool_strings, row_has_string, sorted_unique, strings_total, strictly_sorted, vviews, write_pool,
};
use crate::ngram::{header_decodes, ngm_log_prob};
use crate::ngram_law::{laid_out, lemma_first_member, lemma_ngram_read_back, max_lp, nexts_no_nul};
use crate::text::{bytes_eq, lemma_seq_lt_irreflexive, lemma_seq_lt_total, lemma_seq_lt_trans, sbytes};

verus! {

/// Why a table could not be laid out.
#[derive(Debug, PartialEq, Eq)]
pub enum BuildError {
    /// Some pool string would start at or past 2^24 (16 MiB).
    PoolTooLarge,
    /// The pool fits, but the rows kept hold more than 32 MiB of context
    /// and next-word bytes (two more per row), past what the layout's
    /// 32-bit sections are laid out for.
    TooLarge,
}

/// A queued row: context bytes, next word bytes, log prob.
pub type Row = (Seq<u8>, Seq<u8>, i16);

/// A row keyed for sorting: the log prob moved to `0..65536` so that
/// larger stays larger.
pub type Keyed = (Seq<u8>, Seq<u8>, u64);

pub open spec fn bias(lp: i16) -> u64 {
    (lp + 32768) as u64
}

pub open spec fn unbias(v: u64) -> i16 {
    (v - 32768) as i16
}

pub open spec fn keyed(e: Seq<Row>) -> Seq<Keyed> {
    e.map_values(|x: Row| (x.0, x.1, bias(x.2)))
}

/// Rows with the same context and next word as the row before them
/// dropped.
pub open spec fn dedup_pairs(s: Seq<Keyed>) -> Seq<Keyed>
    decreases s.len(),
{
    if s.len() <= 1 {
        s
    } else if s.last().0 == s[s.len() - 2].0 && s.last().1 == s[s.len() - 2].1 {
        dedup_pairs(s.drop_last())
    } else {
        dedup_pairs(s.drop_last()).push(s.last())
    }
}

/// Some row of `s` has context `c` and next word `n`.
pub open spec fn has_pair(s: Seq<Keyed>, c: Seq<u8>, n: Seq<u8>) -> bool {
    exists|j: int| 0 <= j < s.len() && (#[trigger] s[j]).0 == c && s[j].1 == n
}

/// The rows of `s` whose context and next word no earlier row has: the
/// first row of each (context, next word) pair, in order.
pub open spec fn first_pairs(s: Seq<Keyed>) -> Seq<Keyed>
    decreases s.len(),
{
    if s.len() == 0 {
        Seq::empty()
    } else {
        let p = first_pairs(s.drop_last());
        if has_pair(s.drop_last(), s.last().0, s.last().1) {
            p
        } else {
            p.push(s.last())
        }
    }
}

/// `f` summed over `s`.
pub open spec fn sum_of<A>(s: Seq<A>, f: spec_fn(A) -> nat) -> nat
    decreases s.len(),
{
    if s.len() == 0 {
        0
    } else {
        sum_of(s.drop_last(), f) + f(s.last())
    }
}

/// Bytes a row adds to the pool at most: both strings and their
/// terminators.
pub open spec fn row_size() -> spec_fn(Keyed) -> nat {
    |x: Keyed| x.0.len() + x.1.len() + 2
}

pub proof fn lemma_sum_concat<A>(a: Seq<A>, c: Seq<A>, f: spec_fn(A) -> nat)
    ensures
        sum_of(a + c, f) == sum_of(a, f) + sum_of(c, f),
    decreases c.len(),
{
    if c.len() > 0 {
        lemma_sum_concat(a, c.drop_last(), f);
        assert((a + c).drop_last() =~= a + c.drop_last());
    } else {
        assert(a + c =~= a);
    }
}

/// Sums agree on sequences holding the same items equally often.
pub proof fn lemma_sum_perm<A>(a: Seq<A>, c: Seq<A>, f: spec_fn(A) -> nat)
    requires
        forall|x: A| #[trigger] count_of(a, x) == count_of(c, x),
    ensures
        sum_of(a, f) == sum_of(c, f),
        a.len() == c.len(),
    decreases a.len(),
{
    if a.len() == 0 {
        if c.len() > 0 {
            assert(count_of(c, c.last()) > 0) by {
                lemma_count_contains(c, c.last());
                assert(c[c.len() - 1] == c.last());
            }
            assert(count_of(a, c.last()) == count_of(c, c.last()));
            assert(false);
        }
    } else {
        let y = a.last();
        lemma_count_contains(c, y);
        assert(count_of(a, y) > 0);
        let m = choose|m: int| 0 <= m < c.len() && c[m] == y;
        let c2 = c.remove(m);
        assert(c =~= c.take(m) + seq![y] + c.skip(m + 1));
        assert(c2 =~= c.take(m) + c.skip(m + 1));
        assert(seq![y].drop_last() =~= Seq::<A>::empty());
        assert(seq![y].last() == y);
        assert forall|x: A| #[trigger] count_of(a.drop_last(), x) == count_of(c2, x) by {
            lemma_count_concat(c.take(m) + seq![y], c.skip(m + 1), x);
            lemma_count_concat(c.take(m), seq![y], x);
            lemma_count_concat(c.take(m), c.skip(m + 1), x);
            assert(count_of(Seq::<A>::empty(), x) == 0);
            assert(count_of(seq![y], x) == if y == x { 1nat } else { 0nat });
            assert(count_of(a, x) == count_of(c, x));
            assert(count_of(a, x) == count_of(a.drop_last(), x) + if a.last() == x { 1nat } else { 0nat });
        }
        lemma_sum_perm(a.drop_last(), c2, f);
        lemma_sum_concat(c.take(m) + seq![y], c.skip(m + 1), f);
        lemma_sum_concat(c.take(m), seq![y], f);
        lemma_sum_concat(c.take(m), c.skip(m + 1), f);
        assert(sum_of(Seq::<A>::empty(), f) == 0);
        assert(sum_of(seq![y], f) == f(y));
        assert(c2.len() == c.len() - 1);
        assert(sum_of(c, f) == sum_of(c2, f) + f(y));
        assert(sum_of(a, f) == sum_of(a.drop_last(), f) + f(y));
    }
}

/// A prefix sums to no more than the whole.
pub proof fn lemma_sum_prefix_mono(s: Seq<Keyed>, i: int)
    requires
        0 <= i <= s.len(),
    ensures
        sum_of(s.take(i), row_size()) <= sum_of(s, row_size()),
    decreases s.len() - i,
{
    if i < s.len() {
        lemma_sum_prefix_mono(s, i + 1);
        assert(s.take(i + 1).drop_last() =~= s.take(i));
    } else {
        assert(s.take(i) =~= s);
    }
}

pub proof fn lemma_dedup_sum(s: Seq<Keyed>, f: spec_fn(Keyed) -> nat)
    ensures
        sum_of(dedup_pairs(s), f) <= sum_of(s, f),
        dedup_pairs(s).len() <= s.len(),
    decreases s.len(),
{
    if s.len() > 1 {
        lemma_dedup_sum(s.drop_last(), f);
        let d = dedup_pairs(s.drop_last());
        assert(d.push(s.last()).drop_last() =~= d);
    }
}

pub proof fn lemma_dedup_bound(s: Seq<Keyed>)
    requires
        forall|j: int| 0 <= j < s.len() ==> #[trigger] s[j].2 <= 65535,
    ensures
        forall|m: int| 0 <= m < dedup_pairs(s).len() ==> #[trigger] dedup_pairs(s)[m].2 <= 65535,
    decreases s.len(),
{
    if s.len() > 1 {
        let p = s.drop_last();
        assert forall|j: int| 0 <= j < p.len() implies #[trigger] p[j].2 <= 65535 by {
            assert(p[j] == s[j]);
        }
        lemma_dedup_bound(p);
        let dp = dedup_pairs(p);
        assert(s.last() == s[s.len() - 1]);
        assert forall|m: int| 0 <= m < dedup_pairs(s).len() implies #[trigger] dedup_pairs(s)[m].2 <= 65535 by {
            if m < dp.len() {
                assert(dp.push(s.last())[m] == dp[m]);
            }
        }
    }
}

/// Deterministic NGMv1 writer.
pub struct NgramBuilder {
    max_n: u8,
    entries: Vec<(Vec<u8>, Vec<u8>, i16)>,
}

/// Rows as plain values.
pub open spec fn rows_view(v: Seq<(Vec<u8>, Vec<u8>, i16)>) -> Seq<Row> {
    v.map_values(|x: (Vec<u8>, Vec<u8>, i16)| (x.0@, x.1@, x.2))
}

impl NgramBuilder {
    #[verifier::type_invariant]
    spec fn inv(&self) -> bool {
        2 <= self.max_n <= 4
    }

    /// The queued rows, in the order added.
    pub closed spec fn rows(&self) -> Seq<Row> {
        rows_view(self.entries@)
    }

    /// The order of the table (2 bigram, 3 trigram, 4).
    pub closed spec fn order(&self) -> u8 {
        self.max_n
    }

    /// A writer for tables of order `max_n` (2 to 4).
    pub fn new(max_n: u8) -> (r: NgramBuilder)
        requires
            2 <= max_n <= 4,
        ensures
            r.rows() == Seq::<Row>::empty(),
            r.order() == max_n,
    {
        let r = NgramBuilder { max_n, entries: Vec::new() };
        assert(r.rows() =~= Seq::<Row>::empty());
        r
    }

    /// Queue one row; the context has 1 to `max_n - 1` words.
    pub fn add(&mut self, ctx: &[&str], next: &str, log_prob: i16)
        requires
            1 <= ctx@.len() <= old(self).order() - 1,
        ensures
            final(self).rows() == old(self).rows().push((ctx_blob(ctx_words(ctx@)), next.spec_bytes(), log_prob)),
            final(self).order() == old(self).order(),
    {
        proof {
            use_type_invariant(&*self);
        }
        let blob = encode_ctx(ctx);
        let cb = slice_to_vec_u8(blob.as_str().as_bytes());
        let nb = slice_to_vec_u8(next.as_bytes());
        let mut v: Vec<(Vec<u8>, Vec<u8>, i16)> = Vec::new();
        std::mem::swap(&mut v, &mut self.entries);
        let ghost before = rows_view(v@);
        v.push((cb, nb, log_prob));
        assert(rows_view(v@) =~= before.push((ctx_blob(ctx_words(ctx@)), next.spec_bytes(), log_prob)));
        self.entries = v;
    }


    /// Rows queued so far (before de-duplication).
    pub fn pending_count(&self) -> (r: usize)
        ensures
            r == self.rows().len(),
    {
        self.entries.len()
    }
}

} // verus!

verus! {

/// `(a, c)` packed into one automaton value: `a` in the low 32 bits,
/// `c` in the high 32.
pub open spec fn pack(a: int, c: int) -> u64 {
    (a + c * 0x1_0000_0000) as u64
}

/// The runs of equal contexts of `d` from row `i` on, the current run
/// having started at `st`: (context, pack(first row, row count)).
pub open spec fn runs_from(d: Seq<Keyed>, i: int, st: int) -> Seq<(Seq<u8>, u64)>
    decreases d.len() - i,
{
    if i >= d.len() {
        if st < d.len() {
            seq![(d[st].0, pack(st, d.len() - st))]
        } else {
            Seq::empty()
        }
    } else if d[i].0 != d[st].0 {
        seq![(d[st].0, pack(st, i - st))] + runs_from(d, i + 1, i)
    } else {
        runs_from(d, i + 1, st)
    }
}

/// The context automaton's pairs for the rows `d`.
pub open spec fn ctx_runs(d: Seq<Keyed>) -> Seq<(Seq<u8>, u64)> {
    runs_from(d, 0, 0)
}

/// Index of `s` in `u` (meaningful when `u` holds it).
pub open spec fn str_idx(u: Seq<Seq<u8>>, s: Seq<u8>) -> int {
    choose|k: int| 0 <= k < u.len() && u[k] == s
}

/// The triplet of row `x`, its strings placed as in the pool of `u`.
pub open spec fn row_triplet(u: Seq<Seq<u8>>, x: Keyed) -> Triplet {
    Triplet {
        ctx_offset: off_of(u, str_idx(u, x.0)) as u32,
        next_offset: off_of(u, str_idx(u, x.1)) as u32,
        log_prob: unbias(x.2),
    }
}

/// The triplet table for rows `d` over the pool of `u`.
pub open spec fn rows_image(d: Seq<Keyed>, u: Seq<Seq<u8>>) -> Seq<u8>
    decreases d.len(),
{
    if d.len() == 0 {
        Seq::empty()
    } else {
        rows_image(d.drop_last(), u) + triplet_image(row_triplet(u, d.last()))
    }
}

pub proof fn lemma_rows_image_len(d: Seq<Keyed>, u: Seq<Seq<u8>>)
    ensures
        rows_image(d, u).len() == 8 * d.len(),
    decreases d.len(),
{
    if d.len() > 0 {
        lemma_rows_image_len(d.drop_last(), u);
    }
}

/// The rows keyed for sorting.
fn keyed_rows(e: &Vec<(Vec<u8>, Vec<u8>, i16)>) -> (r: Vec<(Vec<u8>, Vec<u8>, u64)>)
    ensures
        deep_triples(r@) == keyed(rows_view(e@)),
{
    let ghost want = keyed(rows_view(e@));
    let mut r: Vec<(Vec<u8>, Vec<u8>, u64)> = Vec::new();
    let mut i: usize = 0;
    while i < e.len()
        invariant
            i <= e@.len(),
            want == keyed(rows_view(e@)),
            deep_triples(r@) == want.take(i as int),
        decreases e@.len() - i,
    {
        let v: u64 = (e[i].2 as i32 + 32768) as u64;
        let t = (slice_to_vec_u8(e[i].0.as_slice()), slice_to_vec_u8(e[i].1.as_slice()), v);
        let ghost before = deep_triples(r@);
        r.push(t);
        assert(deep_triples(r@) =~= before.push(want[i as int]));
        assert(want.take(i + 1) =~= want.take(i as int).push(want[i as int]));
        i = i + 1;
    }
    assert(want.take(i as int) =~= want);
    r
}

/// Drop rows whose context and next word equal the kept row before.
pub(crate) fn dedup_rows(s: &Vec<(Vec<u8>, Vec<u8>, u64)>) -> (r: Vec<(Vec<u8>, Vec<u8>, u64)>)
    ensures
        deep_triples(r@) == dedup_pairs(deep_triples(s@)),
{
    let ghost ds = deep_triples(s@);
    let mut out: Vec<(Vec<u8>, Vec<u8>, u64)> = Vec::new();
    let mut i: usize = 0;
    while i < s.len()
        invariant
            i <= s@.len(),
            ds == deep_triples(s@),
            deep_triples(out@) == dedup_pairs(ds.take(i as int)),
            i > 0 ==> out@.len() > 0 && deep_triples(out@).last().0 == ds[i - 1].0
                && deep_triples(out@).last().1 == ds[i - 1].1,
        decreases s@.len() - i,
    {
        let ghost p = ds.take(i + 1);
        assert(p.drop_last() =~= ds.take(i as int));
        assert(p.last() == ds[i as int]);
        let keep = out.len() == 0 || !(bytes_eq(out[out.len() - 1].0.as_slice(), s[i].0.as_slice())
            && bytes_eq(out[out.len() - 1].1.as_slice(), s[i].1.as_slice()));
        if keep {
            let t = (slice_to_vec_u8(s[i].0.as_slice()), slice_to_vec_u8(s[i].1.as_slice()), s[i].2);
            let ghost before = deep_triples(out@);
            out.push(t);
            assert(deep_triples(out@) =~= before.push(ds[i as int]));
            proof {
                if i > 0 {
                    assert(p[p.len() - 2] == ds[i - 1]);
                }
            }
        } else {
            proof {
                assert(p[p.len() - 2] == ds[i - 1]);
            }
        }
        i = i + 1;
    }
    assert(ds.take(i as int) =~= ds);
    out
}

/// Keep the first row of each (context, next word) pair of the sorted
/// rows `s`.
pub(crate) fn first_rows(s: &Vec<(Vec<u8>, Vec<u8>, u64)>) -> (r: Vec<(Vec<u8>, Vec<u8>, u64)>)
    requires
        tri_sorted(deep_triples(s@)),
    ensures
        deep_triples(r@) == first_pairs(deep_triples(s@)),
{
    let ghost ds = deep_triples(s@);
    let mut out: Vec<(Vec<u8>, Vec<u8>, u64)> = Vec::new();
    let mut i: usize = 0;
    while i < s.len()
        invariant
            i <= s@.len(),
            ds == deep_triples(s@),
            tri_sorted(ds),
            deep_triples(out@) == first_pairs(ds.take(i as int)),
        decreases s@.len() - i,
    {
        let ghost p = ds.take(i + 1);
        let ghost pi = ds.take(i as int);
        let ghost dout = deep_triples(out@);
        let ghost c = ds[i as int].0;
        let ghost n = ds[i as int].1;
        proof {
            assert(p.drop_last() =~= pi);
            assert(p.last() == ds[i as int]);
            assert forall|a: int, b: int| 0 <= a < b < pi.len() implies !tri_lt(#[trigger] pi[b], #[trigger] pi[a]) by {
                assert(pi[a] == ds[a] && pi[b] == ds[b]);
            }
            crate::ngram_law::lemma_first_sorted(pi);
            crate::ngram_law::lemma_first_has(pi, c, n);
        }
        let mut j: usize = out.len();
        let mut found = false;
        let mut stop = false;
        while j > 0 && !found && !stop
            invariant
                i < s@.len(),
                j <= out@.len(),
                dout == deep_triples(out@),
                dout == first_pairs(pi),
                c == ds[i as int].0,
                n == ds[i as int].1,
                c == s@[i as int].0@,
                n == s@[i as int].1@,
                found ==> has_pair(dout, c, n),
                !found ==> forall|t: int| j <= t < dout.len() ==> !((#[trigger] dout[t]).0 == c && dout[t].1 == n),
                stop ==> j > 0 && dout[j - 1].0 != c,
            decreases 2 * j + if stop {
                0int
            } else {
                1int
            },
        {
            if !bytes_eq(out[j - 1].0.as_slice(), s[i].0.as_slice()) {
                stop = true;
            } else {
                if bytes_eq(out[j - 1].1.as_slice(), s[i].1.as_slice()) {
                    found = true;
                    assert(dout[j - 1].0 == c && dout[j - 1].1 == n);
                }
                j = j - 1;
            }
        }
        proof {
            if !found && stop {
                // Rows before `j - 1` hold contexts below it, so none is `c`.
                lemma_first_member(pi, j - 1);
                let q = choose|q: int| 0 <= q < pi.len() && pi[q] == dout[j - 1];
                assert(pi[q] == ds[q]);
                assert(!tri_lt(ds[i as int], ds[q]));
                lemma_seq_lt_total(dout[j - 1].0, c);
                assert forall|t: int| 0 <= t < dout.len() implies !((#[trigger] dout[t]).0 == c && dout[t].1 == n) by {
                    if t < j - 1 {
                        assert(!tri_lt(dout[j - 1], dout[t]));
                        lemma_seq_lt_total(dout[t].0, dout[j - 1].0);
                        if dout[t].0 == c {
                            lemma_seq_lt_trans(c, dout[j - 1].0, c);
                            lemma_seq_lt_irreflexive(c);
                        }
                    }
                }
            }
        }
        if !found {
            let t = (slice_to_vec_u8(s[i].0.as_slice()), slice_to_vec_u8(s[i].1.as_slice()), s[i].2);
            out.push(t);
            assert(deep_triples(out@) =~= dout.push(ds[i as int]));
        }
        i = i + 1;
    }
    assert(ds.take(i as int) =~= ds);
    out
}

/// Every context and next word of the rows `d`, in row order.
pub(crate) fn row_strings(d: &Vec<(Vec<u8>, Vec<u8>, u64)>) -> (r: Vec<Vec<u8>>)
    ensures
        vviews(r@).len() == 2 * d@.len(),
        forall|m: int| 0 <= m < d@.len() ==> vviews(r@)[2 * m] == (#[trigger] deep_triples(d@)[m]).0
            && vviews(r@)[2 * m + 1] == deep_triples(d@)[m].1,
        strings_total(vviews(r@)) == sum_of(deep_triples(d@), row_size()),
{
    let ghost dd = deep_triples(d@);
    let mut r: Vec<Vec<u8>> = Vec::new();
    let mut i: usize = 0;
    while i < d.len()
        invariant
            i <= d@.len(),
            dd == deep_triples(d@),
            forall|m: int| 0 <= m < i ==> vviews(r@)[2 * m] == (#[trigger] deep_triples(d@)[m]).0 && vviews(r@)[2 * m + 1] == deep_triples(d@)[m].1,
            strings_total(vviews(r@)) == sum_of(dd.take(i as int), row_size()),
            r@.len() == 2 * i,
        decreases d@.len() - i,
    {
        let ghost before = vviews(r@);
        r.push(slice_to_vec_u8(d[i].0.as_slice()));
        r.push(slice_to_vec_u8(d[i].1.as_slice()));
        proof {
            let now = vviews(r@);
            assert(now =~= before.push(dd[i as int].0).push(dd[i as int].1));
            assert(now.drop_last() =~= before.push(dd[i as int].0));
            assert(now.drop_last().drop_last() =~= before);
            assert(dd.take(i + 1).drop_last() =~= dd.take(i as int));
            assert(now.last() == dd[i as int].1);
            assert(now.drop_last().last() == dd[i as int].0);
            assert(strings_total(now) == strings_total(now.drop_last()) + dd[i as int].1.len() + 1);
            assert(strings_total(now.drop_last()) == strings_total(before) + dd[i as int].0.len() + 1);
            assert(dd.take(i + 1).last() == dd[i as int]);
            assert(sum_of(dd.take(i + 1), row_size()) == sum_of(dd.take(i as int), row_size()) + dd[i as int].0.len() + dd[i as int].1.len() + 2);
            assert forall|m: int| 0 <= m < i + 1 implies now[2 * m] == (#[trigger] deep_triples(d@)[m]).0 && now[2 * m + 1] == deep_triples(d@)[m].1 by {
                if m < i {
                    assert(now[2 * m] == before[2 * m]);
                    assert(now[2 * m + 1] == before[2 * m + 1]);
                }
            }
        }
        i = i + 1;
    }
    assert(dd.take(i as int) =~= dd);
    r
}

/// The triplet table for the rows `d` over the pool of `u`.
fn write_triplets(
    d: &Vec<(Vec<u8>, Vec<u8>, u64)>,
    u: &Vec<Vec<u8>>,
    offs: &Vec<u32>,
    Ghost(ss): Ghost<Seq<Seq<u8>>>,
) -> (r: Vec<u8>)
    requires
        strictly_sorted(vviews(u@)),
        ss.len() == 2 * d@.len(),
        forall|m: int| 0 <= m < d@.len() ==> ss[2 * m] == (#[trigger] deep_triples(d@)[m]).0 && ss[2 * m + 1] == deep_triples(d@)[m].1,
        forall|s: Seq<u8>| #[trigger] vviews(u@).contains(s) == ss.contains(s),
        forall|m: int| 0 <= m < d@.len() ==> #[trigger] deep_triples(d@)[m].2 <= 65535,
        offs@.len() == u@.len(),
        forall|k: int| 0 <= k < u@.len() ==> #[trigger] offs@[k] == off_of(vviews(u@), k),
    ensures
        r@ == rows_image(deep_triples(d@), vviews(u@)),
{
    let ghost dd = deep_triples(d@);
    let ghost us = vviews(u@);
    let mut r: Vec<u8> = Vec::new();
    let mut i: usize = 0;
    while i < d.len()
        invariant
            i <= d@.len(),
            dd == deep_triples(d@),
            us == vviews(u@),
            strictly_sorted(us),
            ss.len() == 2 * d@.len(),
            forall|m: int| 0 <= m < d@.len() ==> ss[2 * m] == (#[trigger] deep_triples(d@)[m]).0 && ss[2 * m + 1] == deep_triples(d@)[m].1,
            forall|s: Seq<u8>| #[trigger] vviews(u@).contains(s) == ss.contains(s),
            forall|m: int| 0 <= m < d@.len() ==> #[trigger] deep_triples(d@)[m].2 <= 65535,
            offs@.len() == u@.len(),
            forall|k: int| 0 <= k < u@.len() ==> #[trigger] offs@[k] == off_of(us, k),
            r@ == rows_image(dd.take(i as int), us),
        decreases d@.len() - i,
    {
        assert(ss[2 * i] == deep_triples(d@)[i as int].0 && ss[2 * i + 1] == deep_triples(d@)[i as int].1);
        assert(ss.contains(deep_triples(d@)[i as int].0));
        assert(ss.contains(deep_triples(d@)[i as int].1));
        assert(vviews(u@).contains(deep_triples(d@)[i as int].0) && vviews(u@).contains(deep_triples(d@)[i as int].1));
        assert(deep_triples(d@)[i as int].2 <= 65535);
        let kc = find_string(u, d[i].0.as_slice());
        let kn = find_string(u, d[i].1.as_slice());
        proof {
            assert forall|a: int, c: int| 0 <= a < us.len() && 0 <= c < us.len() && us[a] == us[c] implies a == c by {
                if a < c {
                    crate::text::lemma_seq_lt_irreflexive(us[a]);
                } else if c < a {
                    crate::text::lemma_seq_lt_irreflexive(us[a]);
                }
            }
            assert(us[kc as int] == dd[i as int].0);
            assert(kc == str_idx(us, dd[i as int].0));
            assert(us[kn as int] == dd[i as int].1);
            assert(kn == str_idx(us, dd[i as int].1));
        }
        let lp: i16 = (d[i].2 as i32 - 32768) as i16;
        let t = Triplet { ctx_offset: offs[kc], next_offset: offs[kn], log_prob: lp };
        assert(t == row_triplet(us, dd[i as int]));
        let b = t.to_bytes();
        let ghost before = r@;
        let mut j: usize = 0;
        while j < 8
            invariant
                j <= 8,
                b@.len() == 8,
                r@ == before + b@.subrange(0, j as int),
            decreases 8 - j,
        {
            r.push(b[j]);
            assert(r@ =~= before + b@.subrange(0, j + 1));
            j = j + 1;
        }
        proof {
            assert(b@.subrange(0, 8) =~= b@);
            assert(dd.take(i + 1).drop_last() =~= dd.take(i as int));
            assert(dd.take(i + 1).last() == dd[i as int]);
        }
        i = i + 1;
    }
    assert(dd.take(i as int) =~= dd);
    r
}

} // verus!

verus! {

pub proof fn lemma_code_total_prefix(s: Seq<Keyed>, a: int, b: int)
    requires
        0 <= a < b <= s.len(),
    ensures
        crate::fsa::sort::code_total(s.take(a)) + s[a].0.len() <= crate::fsa::sort::code_total(s.take(b)),
    decreases b - a,
{
    assert(s.take(a + 1).drop_last() =~= s.take(a));
    assert(s.take(a + 1).last() == s[a]);
    if b > a + 1 {
        lemma_code_total_prefix(s, a, b - 1);
        assert(s.take(b).drop_last() =~= s.take(b - 1));
    }
}

proof fn lemma_pack(a: u64, c: u64)
    requires
        a < 0x1_0000_0000,
        c < 0x1_0000_0000,
    ensures
        a | (c << 32u64) == pack(a as int, c as int),
{
    assert(a | (c << 32u64) == a + c * 0x1_0000_0000) by (bit_vector)
        requires
            a < 0x1_0000_0000,
            c < 0x1_0000_0000;
}

/// The context automaton: each context's rows as pack(first, count).
fn ctx_index(d: &Vec<(Vec<u8>, Vec<u8>, u64)>) -> (r: Vec<u8>)
    requires
        crate::fsa::sort::code_total(deep_triples(d@)) <= MAX_TOTAL_KEY_BYTES,
        d@.len() < 0x1_0000_0000,
    ensures
        parse_layout(r@) is Ok,
        forall|k: Seq<u8>| #[trigger] bytes_get(r@, k) == map_get(pairs_map(ctx_runs(deep_triples(d@))), k),
        r@.len() <= 59 + 41 * crate::fsa::sort::code_total(deep_triples(d@)),
{
    let ghost dd = deep_triples(d@);
    let mut fb = Builder::new();
    if d.len() == 0 {
        assert(ctx_runs(dd) =~= Seq::<(Seq<u8>, u64)>::empty());
        assert(fb.entries() =~= ctx_runs(dd));
        assert(total_key_len(fb.entries()) == 0);
        return fb.finish();
    }
    let mut st: usize = 0;
    let mut i: usize = 1;
    proof {
        assert(ctx_runs(dd) == runs_from(dd, 1, 0));
        assert(fb.entries() + runs_from(dd, 1, 0) =~= runs_from(dd, 1, 0));
        assert(dd.take(0) =~= Seq::<Keyed>::empty());
    }
    while i < d.len()
        invariant
            dd == deep_triples(d@),
            d@.len() < 0x1_0000_0000,
            crate::fsa::sort::code_total(dd) <= MAX_TOTAL_KEY_BYTES,
            st < i <= d@.len(),
            fb.entries() + runs_from(dd, i as int, st as int) == ctx_runs(dd),
            total_key_len(fb.entries()) <= crate::fsa::sort::code_total(dd.take(st as int)),
        decreases d@.len() - i,
    {
        if !bytes_eq(d[i].0.as_slice(), d[st].0.as_slice()) {
            let v: u64 = (st as u64) | (((i - st) as u64) << 32u64);
            proof {
                lemma_pack(st as u64, (i - st) as u64);
                lemma_code_total_prefix(dd, st as int, i as int);
            }
            let ghost before = fb.entries();
            fb.insert(d[st].0.as_slice(), v);
            proof {
                assert(runs_from(dd, i as int, st as int) == seq![(dd[st as int].0, pack(st as int, i - st))] + runs_from(dd, i + 1, i as int));
                assert(fb.entries() + runs_from(dd, i + 1, i as int) =~= before + runs_from(dd, i as int, st as int));
                assert(fb.entries().drop_last() =~= before);
            }
            st = i;
        }
        i = i + 1;
    }
    let v: u64 = (st as u64) | (((d.len() - st) as u64) << 32u64);
    proof {
        lemma_pack(st as u64, (d.len() - st) as u64);
        lemma_code_total_prefix(dd, st as int, d@.len() as int);
        assert(dd.take(d@.len() as int) =~= dd);
    }
    let ghost before = fb.entries();
    fb.insert(d[st].0.as_slice(), v);
    proof {
        assert(fb.entries() =~= before + runs_from(dd, i as int, st as int));
        assert(fb.entries().drop_last() =~= before);
    }
    fb.finish()
}

/// Append `s` to `out`.
pub(crate) fn append_bytes(out: &mut Vec<u8>, s: &[u8])
    ensures
        final(out)@ == old(out)@ + s@,
{
    let ghost before = out@;
    let mut i: usize = 0;
    while i < s.len()
        invariant
            i <= s@.len(),
            out@ == before + s@.subrange(0, i as int),
        decreases s@.len() - i,
    {
        out.push(s[i]);
        assert(out@ =~= before + s@.subrange(0, i + 1));
        i = i + 1;
    }
    assert(s@.subrange(0, i as int) =~= s@);
}

} // verus!

verus! {

pub proof fn lemma_sum_len(s: Seq<Keyed>)
    ensures
        2 * s.len() <= sum_of(s, row_size()),
        crate::fsa::sort::code_total(s) <= sum_of(s, row_size()),
    decreases s.len(),
{
    if s.len() > 0 {
        lemma_sum_len(s.drop_last());
    }
}

/// The 96 header bytes of a table with header `h` and digest `sha`
/// decode to it.
#[verifier::spinoff_prover]
#[verifier::rlimit(40)]
proof fn lemma_header_fields(b: Seq<u8>, h: Header, sha: Seq<u8>)
    requires
        b.len() >= 96,
        b.subrange(0, 64) == header_image(h),
        b.subrange(64, 96) == sha,
    ensures
        b[4] == h.format_version,
        b[5] == h.max_n,
        has_ngm_magic(b) == (h.magic@ == MAGIC@),
        crate::le::u32_at(b, 8) == h.entry_count,
        crate::le::u32_at(b, 12) == h.string_pool_offset,
        crate::le::u32_at(b, 16) == h.string_pool_size,
        crate::le::u32_at(b, 20) == h.triplet_table_offset,
        crate::le::u32_at(b, 24) == h.triplet_table_size,
        crate::le::u32_at(b, 28) == h.fst_ctx_index_offset,
        crate::le::u32_at(b, 32) == h.fst_ctx_index_size,
{
    let hi = header_image(h);
    assert forall|j: int| 0 <= j < 64 implies b[j] == hi[j] by {
        assert(b.subrange(0, 64)[j] == b[j]);
    }
    assert(hi.subrange(8, 12) =~= crate::le::le32(h.entry_count));
    assert(hi.subrange(12, 16) =~= crate::le::le32(h.string_pool_offset));
    assert(hi.subrange(16, 20) =~= crate::le::le32(h.string_pool_size));
    assert(hi.subrange(20, 24) =~= crate::le::le32(h.triplet_table_offset));
    assert(hi.subrange(24, 28) =~= crate::le::le32(h.triplet_table_size));
    assert(hi.subrange(28, 32) =~= crate::le::le32(h.fst_ctx_index_offset));
    assert(hi.subrange(32, 36) =~= crate::le::le32(h.fst_ctx_index_size));
    assert(b.subrange(8, 12) =~= hi.subrange(8, 12));
    assert(b.subrange(12, 16) =~= hi.subrange(12, 16));
    assert(b.subrange(16, 20) =~= hi.subrange(16, 20));
    assert(b.subrange(20, 24) =~= hi.subrange(20, 24));
    assert(b.subrange(24, 28) =~= hi.subrange(24, 28));
    assert(b.subrange(28, 32) =~= hi.subrange(28, 32));
    assert(b.subrange(32, 36) =~= hi.subrange(32, 36));
    crate::le::lemma_u32_at_placed(b, 8, h.entry_count);
    crate::le::lemma_u32_at_placed(b, 12, h.string_pool_offset);
    crate::le::lemma_u32_at_placed(b, 16, h.string_pool_size);
    crate::le::lemma_u32_at_placed(b, 20, h.triplet_table_offset);
    crate::le::lemma_u32_at_placed(b, 24, h.triplet_table_size);
    crate::le::lemma_u32_at_placed(b, 28, h.fst_ctx_index_offset);
    crate::le::lemma_u32_at_placed(b, 32, h.fst_ctx_index_size);
    if h.magic@ == MAGIC@ {
        assert(hi[0] == h.magic@[0]);
    }
    assert(b[0] == h.magic@[0] && b[1] == h.magic@[1] && b[2] == h.magic@[2] && b[3] == h.magic@[3]);
    if has_ngm_magic(b) {
        assert(h.magic@ =~= MAGIC@);
    }
}

/// The queued rows in table order: by context, then log prob
/// descending, then next word.
pub open spec fn sorted_rows(e: Seq<Row>) -> Seq<Keyed> {
    crate::fsa::sort::sorted_of(false, keyed(e))
}

/// The rows a table built from `e` holds, in order: of the rows with
/// one context and next word only the first, which has the highest log
/// prob of them.
pub open spec fn table_rows(e: Seq<Row>) -> Seq<Keyed> {
    first_pairs(sorted_rows(e))
}

/// Whether the rows `d` hold at most 32 MiB of strings, two bytes per
/// row included.
pub(crate) fn rows_within_limit(d: &Vec<(Vec<u8>, Vec<u8>, u64)>) -> (r: bool)
    ensures
        r == (sum_of(deep_triples(d@), row_size()) <= 0x200_0000),
{
    let ghost k = deep_triples(d@);
    let mut total: u64 = 0;
    let mut i: usize = 0;
    while i < d.len()
        invariant
            i <= d@.len(),
            k == deep_triples(d@),
            total == sum_of(k.take(i as int), row_size()),
            total <= 0x200_0000,
        decreases d@.len() - i,
    {
        assert(k.take(i + 1).drop_last() =~= k.take(i as int));
        assert(k.take(i + 1).last() == k[i as int]);
        let a: u64 = d[i].0.len() as u64;
        let b: u64 = d[i].1.len() as u64;
        if a > 0x200_0000 || b > 0x200_0000 || a + b + 2 > 0x200_0000 - total {
            proof {
                lemma_sum_prefix_mono(k, i + 1);
            }
            return false;
        }
        total = total + a + b + 2;
        i = i + 1;
    }
    assert(k.take(i as int) =~= k);
    true
}

/// The rows the build keeps and the strings of its pool are the ones
/// `table_rows` and `pool_strings` name.
proof fn lemma_table_layout(
    e: Seq<Row>,
    k: Seq<Keyed>,
    s: Seq<Keyed>,
    dd: Seq<Keyed>,
    ss: Seq<Seq<u8>>,
    us: Seq<Seq<u8>>,
)
    requires
        k == keyed(e),
        tri_sorted(s),
        forall|x: Keyed| #[trigger] count_of(s, x) == count_of(k, x),
        dd == first_pairs(s),
        ss.len() == 2 * dd.len(),
        forall|m: int| 0 <= m < dd.len() ==> ss[2 * m] == (#[trigger] dd[m]).0 && ss[2 * m + 1] == dd[m].1,
        strictly_sorted(us),
        forall|x: Seq<u8>| #[trigger] us.contains(x) == ss.contains(x),
    ensures
        table_rows(e) == dd,
        pool_strings(dd) == us,
{
    assert(sorted_by(false, s)) by {
        assert forall|i: int, j: int| 0 <= i < j < s.len() implies !lt_by(false, #[trigger] s[j], #[trigger] s[i]) by {
            assert(!tri_lt(s[j], s[i]));
        }
    }
    lemma_sorted_of(false, k, s);
    assert forall|x: Seq<u8>| #[trigger] us.contains(x) == row_has_string(dd, x) by {
        if ss.contains(x) {
            let p = choose|p: int| 0 <= p < ss.len() && ss[p] == x;
            let m = p / 2;
            assert(ss[2 * m] == dd[m].0 && ss[2 * m + 1] == dd[m].1);
        }
        if row_has_string(dd, x) {
            let m = choose|m: int| 0 <= m < dd.len() && (dd[m].0 == x || dd[m].1 == x);
            assert(ss[2 * m] == dd[m].0 && ss[2 * m + 1] == dd[m].1);
        }
    }
    lemma_pool_strings(dd, us);
}

impl NgramBuilder {
    /// Lay out the table: rows sorted by context, then log prob
    /// descending, then next word; one row per context and next word,
    /// the one with the highest log prob; the pool of the
    /// distinct strings; the triplet table; the context automaton; the
    /// header with the SHA-256 of everything after byte 96. `Err` when a
    /// pool string would start past 16 MiB, or when the kept rows hold
    /// more than 32 MiB.
    #[verifier::spinoff_prover]
    #[verifier::rlimit(100)]
    pub fn build_bytes(self) -> (r: Result<Vec<u8>, BuildError>)
        ensures
            r matches Err(BuildError::PoolTooLarge) <==> !pool_fits(pool_strings(table_rows(self.rows()))),
            r matches Err(BuildError::TooLarge) <==> pool_fits(pool_strings(table_rows(self.rows())))
                && sum_of(table_rows(self.rows()), row_size()) > 0x200_0000,
            r matches Ok(b) ==> forall|h: Header| #[trigger] header_decodes(b@, h) ==> {
                let d = table_rows(self.rows());
                let u = pool_strings(d);
                &&& h.entry_count == d.len()
                &&& h.string_pool_offset == 96
                &&& b@.subrange(96, 96 + flat(u).len() as int) == flat(u)
                &&& b@.subrange(h.triplet_table_offset as int, h.triplet_table_offset + 8 * d.len()) == rows_image(d, u)
            },
            r is Ok ==> forall|a: int, c: int|
                0 <= a < c < table_rows(self.rows()).len() ==> !(#[trigger] table_rows(self.rows())[a].0
                    == #[trigger] table_rows(self.rows())[c].0 && table_rows(self.rows())[a].1 == table_rows(
                    self.rows(),
                )[c].1),
            r is Ok ==> forall|q: int|
                0 <= q < self.rows().len() ==> #[trigger] has_pair(
                    table_rows(self.rows()),
                    self.rows()[q].0,
                    self.rows()[q].1,
                ),
            r matches Ok(b) ==> ngm_error(b@, sha256_spec(b@.skip(96))) is None,
            r matches Ok(b) ==> b@[5] == self.order(),
            r matches Ok(b) ==> forall|h: Header, c: Seq<u8>, n: Seq<u8>|
                header_decodes(b@, h) && nexts_no_nul(self.rows()) ==> #[trigger] ngm_log_prob(b@, h, c, n)
                    == max_lp(self.rows(), c, n),
    {
        proof {
            use_type_invariant(&self);
        }
        let ghost e = self.rows();
        let kv = keyed_rows(&self.entries);
        let ghost k = deep_triples(kv@);
        let sorted = sort_triples(kv);
        let ghost s = deep_triples(sorted@);
        let d = first_rows(&sorted);
        let ghost dd = deep_triples(d@);
        proof {
            lemma_sum_len(dd);
        }
        let strings = row_strings(&d);
        let u = sorted_unique(&strings);
        proof {
            lemma_table_layout(e, k, s, dd, vviews(strings@), vviews(u@));
            crate::ngram_law::lemma_first_distinct(s);
            assert forall|q: int| 0 <= q < e.len() implies #[trigger] has_pair(dd, e[q].0, e[q].1) by {
                let p = crate::ngram_law::lemma_row_sorted_at(e, s, q);
                crate::ngram_law::lemma_first_has(s, e[q].0, e[q].1);
                assert(s[p].0 == e[q].0 && s[p].1 == e[q].1);
            }
        }
        if !pool_fits_exec(&u) {
            return Err(BuildError::PoolTooLarge);
        }
        if !rows_within_limit(&d) {
            return Err(BuildError::TooLarge);
        }
        proof {
            lemma_sum_len(dd);
        }
        let (pool, pool_size, offs) = match write_pool(&u) {
            Ok(x) => x,
            Err(_) => {
                return Err(BuildError::PoolTooLarge);
            },
        };
        proof {
            assert forall|j: int| 0 <= j < s.len() implies #[trigger] s[j].2 <= 65535 by {
                lemma_count_contains(s, s[j]);
                lemma_count_contains(k, s[j]);
                assert(count_of(s, s[j]) == count_of(k, s[j]));
                let q = choose|q: int| 0 <= q < k.len() && k[q] == s[j];
                assert(k[q].2 == bias(e[q].2));
            }
            assert forall|m: int| 0 <= m < d@.len() implies #[trigger] deep_triples(d@)[m].2 <= 65535 by {
                assert(deep_triples(d@)[m] == dd[m]);
                lemma_first_member(s, m);
            }
        }
        let trip = write_triplets(&d, &u, &offs, Ghost(vviews(strings@)));
        let fst = ctx_index(&d);
        proof {
            lemma_rows_image_len(dd, vviews(u@));
            crate::pool::lemma_flat_len(vviews(u@));
        }
        let tto: u32 = 96 + pool.len() as u32;
        let fo: u32 = tto + trip.len() as u32;
        let h = Header {
            magic: MAGIC,
            format_version: 1,
            max_n: self.max_n,
            reserved_a: [0u8; 2],
            entry_count: d.len() as u32,
            string_pool_offset: 96,
            string_pool_size: pool_size,
            triplet_table_offset: tto,
            triplet_table_size: trip.len() as u32,
            fst_ctx_index_offset: fo,
            fst_ctx_index_size: fst.len() as u32,
            reserved_b: [0u8; 24],
            sha256_of_payload: [0u8; 32],
        };
        let hb = h.to_bytes();
        let mut out: Vec<u8> = Vec::new();
        append_bytes(&mut out, hb.as_slice());
        let zeros = [0u8; 32];
        append_bytes(&mut out, zeros.as_slice());
        append_bytes(&mut out, pool.as_slice());
        append_bytes(&mut out, trip.as_slice());
        append_bytes(&mut out, fst.as_slice());
        let ghost body = out@.skip(96);
        let sha = sha256_from(out.as_slice(), 96);
        let mut i: usize = 0;
        while i < 32
            invariant
                i <= 32,
                out@.len() >= 96,
                out@.skip(96) == body,
                out@.subrange(0, 64) == header_image(h),
                forall|j: int| 0 <= j < i ==> out@[64 + j] == sha@[j],
            decreases 32 - i,
        {
            out.set(64 + i, sha[i]);
            assert(out@.skip(96) =~= body);
            assert(out@.subrange(0, 64) =~= header_image(h));
            i = i + 1;
        }
        proof {
            let b = out@;
            let us = vviews(u@);
            assert(b.subrange(64, 96) =~= sha@);
            lemma_header_fields(b, h, sha@);
            assert(parse_layout(fst@) is Ok ==> fst@.len() >= 18);
            assert(body == pool@ + trip@ + fst@);
            let fl = flat(us);
            assert(b.subrange(96, 96 + fl.len() as int) =~= fl) by {
                assert forall|j: int| 0 <= j < fl.len() implies b.subrange(96, 96 + fl.len() as int)[j] == fl[j] by {
                    assert(b[96 + j] == body[j]);
                    assert(body[j] == pool@[j]);
                }
            }
            let tto: int = 96 + pool@.len() as int;
            assert(b.subrange(tto, tto + 8 * dd.len()) =~= trip@) by {
                assert forall|j: int| 0 <= j < trip@.len() implies b.subrange(tto, tto + 8 * dd.len())[j] == trip@[j] by {
                    assert(b[tto + j] == body[pool@.len() + j]);
                }
            }
            let fo: int = tto + trip@.len() as int;
            assert(b.subrange(fo, fo + fst@.len()) =~= fst@) by {
                assert forall|j: int| 0 <= j < fst@.len() implies b.subrange(fo, fo + fst@.len())[j] == fst@[j] by {
                    assert(b[fo + j] == body[pool@.len() + trip@.len() + j]);
                }
            }
            let ss = vviews(strings@);
            assert forall|m: int| 0 <= m < dd.len() implies us.contains(#[trigger] dd[m].1) && us.contains(dd[m].0) by {
                assert(ss[2 * m] == deep_triples(d@)[m].0 && ss[2 * m + 1] == deep_triples(d@)[m].1);
                assert(ss.contains(dd[m].0));
                assert(ss.contains(dd[m].1));
            }
            assert forall|hh: Header, c: Seq<u8>, n: Seq<u8>| header_decodes(b, hh) && nexts_no_nul(e) implies #[trigger] ngm_log_prob(b, hh, c, n) == max_lp(e, c, n) by {
                assert(laid_out(b, hh, e, s, us, fst@));
                lemma_ngram_read_back(b, hh, e, s, us, fst@, c, n);
            }
        }
        Ok(out)
    }
}

} // verus!
