//! IDFv1 writer: sorts the queued entries by code, word and log prior,
//! keeps one entry per code and word, and lays out the header, string
//! pool, entry table and code index.

use vstd::prelude::*;
use vstd::string::StringSliceAdditionalSpecFns;
use vstd::utf8::valid_utf8;

use crate::codec::{
    encode_match_type, engine_kind_byte, entry_image, has_idf_magic, header_decodes, header_image,
    match_kind_byte, EngineKind, EntryFlags, EntryRecord, Header, MatchKind, MAGIC,
};
use crate::digest::{sha256_from, sha256_spec};
use crate::idf::{file_len32, idf_entries, idf_error, idf_shape_error};
use crate::idf_law::{drafts_utf8, idf_laid_out, lemma_idf_read_back};
use crate::le::{le32, lemma_u32_at_placed, u32_at};
use crate::ngram_build::{
    append_bytes, dedup_pairs, dedup_rows, lemma_dedup_sum, lemma_sum_len, lemma_sum_perm, row_strings,
    rows_within_limit, BuildError,
};
use crate::pool::{
    flat, lemma_flat_prefix, lemma_pool_strings, pool_fits, pool_fits_exec, pool_strings, row_has_string,
    sorted_unique, write_pool,
};
use crate::fsa::sort::{lemma_sorted_of, lt_by, pair_lt, sort_pairs, sorted_by};
use crate::fsa::builder::{map_get, pairs_map, total_key_len, Builder, MAX_TOTAL_KEY_BYTES};
use crate::fsa::dict::deep_triples;
use crate::fsa::reader::{bytes_get, parse_layout, slice_to_vec_u8};
use crate::fsa::sort::{code_total, count_of};
use crate::idf::EntryView;
use crate::ngram_build::{bias, lemma_code_total_prefix, pack, row_size, str_idx, sum_of, Keyed};
use crate::pool::{find_string, no_nul, off_of, strictly_sorted, vviews};
use crate::text::{bytes_eq, seq_lt};

verus! {

/// A queued entry as plain values: code, word, log prior, raw corpus
/// frequency, match kind, flags.
pub type Draft = (Seq<u8>, Seq<u8>, i16, u32, MatchKind, u8);

/// The sort key of the entry queued at position `q`: its log prior
/// (moved to `0..65536`) in the high 32 bits, `q` in the low 32.
pub open spec fn draft_key(lp: i16, q: int) -> u64 {
    pack(q, bias(lp) as int)
}

/// The queued entries keyed for sorting.
pub open spec fn keyed_drafts(e: Seq<Draft>) -> Seq<Keyed> {
    Seq::new(e.len(), |q: int| (e[q].0, e[q].1, draft_key(e[q].2, q)))
}

/// Position of the entry kept for code `c` and word `w`: the lowest log
/// prior, the earliest queued among equal ones.
pub open spec fn kept_at(e: Seq<Draft>, c: Seq<u8>, w: Seq<u8>) -> Option<int>
    decreases e.len(),
{
    if e.len() == 0 {
        None
    } else {
        let r = kept_at(e.drop_last(), c, w);
        let q = e.len() - 1;
        if e[q].0 == c && e[q].1 == w {
            match r {
                None => Some(q),
                Some(p) => if e[q].2 < e[p].2 {
                    Some(q)
                } else {
                    Some(p)
                },
            }
        } else {
            r
        }
    }
}

/// A queued entry as the dictionary gives it back.
pub open spec fn draft_entry(x: Draft) -> EntryView {
    (x.1, x.0, x.2, x.4, x.5, x.3)
}

/// Entry `a` comes strictly before entry `c`: by code, then by word.
pub open spec fn code_word_lt(a: EntryView, c: EntryView) -> bool {
    seq_lt(a.1, c.1) || (a.1 == c.1 && seq_lt(a.0, c.0))
}

/// `t` is the entry table written for the queued entries `e`: one entry
/// per distinct code and word, in increasing code and word order, each
/// the one `kept_at` picks.
pub open spec fn table_of(t: Seq<EntryView>, e: Seq<Draft>) -> bool {
    &&& forall|i: int, j: int| 0 <= i < j < t.len() ==> code_word_lt(#[trigger] t[i], #[trigger] t[j])
    &&& forall|i: int| 0 <= i < t.len() ==> (kept_at(e, (#[trigger] t[i]).1, t[i].0) matches Some(q) && 0 <= q
        < e.len() && t[i] == draft_entry(e[q]))
    &&& forall|q: int| 0 <= q < e.len() ==> exists|i: int| 0 <= i < t.len() && (#[trigger] t[i]).1 == (#[trigger] e[q]).0 && t[i].0 == e[q].1
}

/// No queued code or word holds a zero byte.
pub open spec fn drafts_no_nul(e: Seq<Draft>) -> bool {
    forall|q: int| 0 <= q < e.len() ==> no_nul((#[trigger] e[q]).0) && no_nul(e[q].1)
}

/// Stored form of a queued entry.
pub type DraftRow = (Vec<u8>, Vec<u8>, i16, u32, MatchKind, u8);

/// Stored entries as plain values.
pub open spec fn drafts_view(v: Seq<DraftRow>) -> Seq<Draft> {
    v.map_values(|x: DraftRow| (x.0@, x.1@, x.2, x.3, x.4, x.5))
}

/// Deterministic IDFv1 writer.
pub struct IdfBuilder {
    engine_kind: EngineKind,
    flags: u16,
    entries: Vec<DraftRow>,
}

impl IdfBuilder {
    #[verifier::type_invariant]
    spec fn inv(&self) -> bool {
        &&& self.flags == 0
        &&& forall|q: int| 0 <= q < self.entries@.len() ==> valid_utf8((#[trigger] self.entries@[q]).0@) && valid_utf8(
            self.entries@[q].1@,
        )
    }

    /// The queued entries, in the order added.
    pub closed spec fn drafts(&self) -> Seq<Draft> {
        drafts_view(self.entries@)
    }

    /// The engine the dictionary is for.
    pub closed spec fn kind(&self) -> EngineKind {
        self.engine_kind
    }

    /// A writer for a dictionary of engine `engine_kind`, with no
    /// auxiliary blocks.
    pub fn new(engine_kind: EngineKind) -> (r: IdfBuilder)
        ensures
            r.drafts() == Seq::<Draft>::empty(),
            r.kind() == engine_kind,
    {
        let r = IdfBuilder { engine_kind, flags: 0, entries: Vec::new() };
        assert(r.drafts() =~= Seq::<Draft>::empty());
        r
    }

    /// Queue one entry: lookup code, displayed word, Q4 log prior, raw
    /// corpus frequency (0 when none is known), match kind, flags.
    pub fn add_entry(
        &mut self,
        code: &str,
        word: &str,
        log_prior: i16,
        raw_freq: u32,
        match_type: MatchKind,
        flags: EntryFlags,
    )
        ensures
            final(self).drafts() == old(self).drafts().push(
                (code.spec_bytes(), word.spec_bytes(), log_prior, raw_freq, match_type, flags.0),
            ),
            final(self).kind() == old(self).kind(),
    {
        proof {
            use_type_invariant(&*self);
            vstd::utf8::encode_utf8_valid_utf8(code@);
            vstd::utf8::encode_utf8_valid_utf8(word@);
        }
        let c = slice_to_vec_u8(code.as_bytes());
        let w = slice_to_vec_u8(word.as_bytes());
        let mut v: Vec<DraftRow> = Vec::new();
        std::mem::swap(&mut v, &mut self.entries);
        let ghost before = v@;
        v.push((c, w, log_prior, raw_freq, match_type, flags.0));
        assert(drafts_view(v@) =~= drafts_view(before).push(
            (code.spec_bytes(), word.spec_bytes(), log_prior, raw_freq, match_type, flags.0),
        ));
        assert forall|q: int| 0 <= q < v@.len() implies valid_utf8((#[trigger] v@[q]).0@) && valid_utf8(v@[q].1@) by {
            if q < before.len() {
                assert(v@[q] == before[q]);
            }
        }
        self.entries = v;
    }

    /// Entries queued so far (before de-duplication).
    pub fn pending_count(&self) -> (r: usize)
        ensures
            r == self.drafts().len(),
    {
        self.entries.len()
    }
}

} // verus!

verus! {

/// The record written for the kept entry `x` (its position in the low
/// 32 bits of its key), its strings placed as in the pool of `u`.
pub open spec fn rec_of(u: Seq<Seq<u8>>, e: Seq<Draft>, x: Keyed) -> EntryRecord {
    let q = (x.2 % 0x1_0000_0000) as int;
    EntryRecord {
        word_offset: off_of(u, str_idx(u, x.1)) as u32,
        code_offset: off_of(u, str_idx(u, x.0)) as u32,
        log_prior: e[q].2,
        match_type: match_kind_byte(e[q].4),
        flags: e[q].5,
        raw_freq: e[q].3,
        embedding_offset: 0,
    }
}

/// The entry table for the kept entries `d`.
pub open spec fn recs_image(d: Seq<Keyed>, u: Seq<Seq<u8>>, e: Seq<Draft>) -> Seq<u8>
    decreases d.len(),
{
    if d.len() == 0 {
        Seq::empty()
    } else {
        recs_image(d.drop_last(), u, e) + entry_image(rec_of(u, e, d.last()))
    }
}

pub proof fn lemma_recs_image_len(d: Seq<Keyed>, u: Seq<Seq<u8>>, e: Seq<Draft>)
    ensures
        recs_image(d, u, e).len() == 16 * d.len(),
    decreases d.len(),
{
    if d.len() > 0 {
        lemma_recs_image_len(d.drop_last(), u, e);
    }
}

/// The code index pairs for the kept entries `d`: each code with the
/// position of its first entry.
pub open spec fn code_firsts(d: Seq<Keyed>) -> Seq<(Seq<u8>, u64)>
    decreases d.len(),
{
    if d.len() == 0 {
        Seq::empty()
    } else {
        let p = code_firsts(d.drop_last());
        let m = d.len() - 1;
        if m > 0 && d[m].0 == d[m - 1].0 {
            p
        } else {
            p.push((d[m].0, m as u64))
        }
    }
}

/// The queued entries keyed for sorting.
fn keyed_entries(e: &Vec<DraftRow>) -> (r: Vec<(Vec<u8>, Vec<u8>, u64)>)
    requires
        e@.len() < 0x1_0000_0000,
    ensures
        deep_triples(r@) == keyed_drafts(drafts_view(e@)),
{
    let ghost want = keyed_drafts(drafts_view(e@));
    let mut r: Vec<(Vec<u8>, Vec<u8>, u64)> = Vec::new();
    let mut i: usize = 0;
    while i < e.len()
        invariant
            i <= e@.len(),
            e@.len() < 0x1_0000_0000,
            want == keyed_drafts(drafts_view(e@)),
            deep_triples(r@) == want.take(i as int),
        decreases e@.len() - i,
    {
        let hi: u64 = (e[i].2 as i32 + 32768) as u64;
        let v: u64 = i as u64 + hi * 0x1_0000_0000;
        proof {
            crate::ngram_law::lemma_unpack(i as int, hi as int);
            assert(v == draft_key(drafts_view(e@)[i as int].2, i as int));
        }
        let t = (slice_to_vec_u8(e[i].0.as_slice()), slice_to_vec_u8(e[i].1.as_slice()), v);
        let ghost before = deep_triples(r@);
        r.push(t);
        assert(deep_triples(r@) =~= before.push(want[i as int]));
        assert(want.take(i + 1) =~= want.take(i as int).push(want[i as int]));
        i = i + 1;
    }
    assert(want.take(i as int) =~= want);
    r
}

/// The code index: each code of the kept entries `d` with the position
/// of its first entry.
fn code_index(d: &Vec<(Vec<u8>, Vec<u8>, u64)>) -> (r: Vec<u8>)
    requires
        code_total(deep_triples(d@)) <= MAX_TOTAL_KEY_BYTES,
    ensures
        parse_layout(r@) is Ok,
        forall|k: Seq<u8>| #[trigger] bytes_get(r@, k) == map_get(pairs_map(code_firsts(deep_triples(d@))), k),
        r@.len() <= 59 + 41 * code_total(deep_triples(d@)),
{
    let ghost dd = deep_triples(d@);
    let mut fb = Builder::new();
    let mut i: usize = 0;
    proof {
        assert(dd.take(0) =~= Seq::<Keyed>::empty());
        assert(fb.entries() =~= code_firsts(dd.take(0)));
    }
    while i < d.len()
        invariant
            dd == deep_triples(d@),
            code_total(dd) <= MAX_TOTAL_KEY_BYTES,
            i <= d@.len(),
            fb.entries() == code_firsts(dd.take(i as int)),
            total_key_len(fb.entries()) <= code_total(dd.take(i as int)),
        decreases d@.len() - i,
    {
        let ghost t = dd.take(i + 1);
        assert(t.drop_last() =~= dd.take(i as int));
        assert(t[i as int] == dd[i as int]);
        if i > 0 {
            assert(t[i - 1] == dd[i - 1]);
        }
        if i == 0 || !bytes_eq(d[i].0.as_slice(), d[i - 1].0.as_slice()) {
            let ghost before = fb.entries();
            fb.insert(d[i].0.as_slice(), i as u64);
            assert(fb.entries().drop_last() =~= before);
        }
        i = i + 1;
    }
    assert(dd.take(i as int) =~= dd);
    fb.finish()
}

/// The entry table for the kept entries `d` of the queued entries `e`,
/// over the pool of `u`.
fn write_records(
    e: &Vec<DraftRow>,
    d: &Vec<(Vec<u8>, Vec<u8>, u64)>,
    u: &Vec<Vec<u8>>,
    offs: &Vec<u32>,
    Ghost(ss): Ghost<Seq<Seq<u8>>>,
) -> (r: Vec<u8>)
    requires
        strictly_sorted(vviews(u@)),
        ss.len() == 2 * d@.len(),
        forall|m: int| 0 <= m < d@.len() ==> ss[2 * m] == (#[trigger] deep_triples(d@)[m]).0 && ss[2 * m + 1] == deep_triples(d@)[m].1,
        forall|s: Seq<u8>| #[trigger] vviews(u@).contains(s) == ss.contains(s),
        forall|m: int| 0 <= m < d@.len() ==> (#[trigger] deep_triples(d@)[m]).2 % 0x1_0000_0000 < e@.len(),
        offs@.len() == u@.len(),
        forall|k: int| 0 <= k < u@.len() ==> #[trigger] offs@[k] == off_of(vviews(u@), k),
    ensures
        r@ == recs_image(deep_triples(d@), vviews(u@), drafts_view(e@)),
{
    let ghost dd = deep_triples(d@);
    let ghost us = vviews(u@);
    let ghost ev = drafts_view(e@);
    let mut r: Vec<u8> = Vec::new();
    let mut i: usize = 0;
    while i < d.len()
        invariant
            i <= d@.len(),
            dd == deep_triples(d@),
            us == vviews(u@),
            ev == drafts_view(e@),
            strictly_sorted(us),
            ss.len() == 2 * d@.len(),
            forall|m: int| 0 <= m < d@.len() ==> ss[2 * m] == (#[trigger] deep_triples(d@)[m]).0 && ss[2 * m + 1] == deep_triples(d@)[m].1,
            forall|s: Seq<u8>| #[trigger] vviews(u@).contains(s) == ss.contains(s),
            forall|m: int| 0 <= m < d@.len() ==> (#[trigger] deep_triples(d@)[m]).2 % 0x1_0000_0000 < e@.len(),
            offs@.len() == u@.len(),
            forall|k: int| 0 <= k < u@.len() ==> #[trigger] offs@[k] == off_of(us, k),
            r@ == recs_image(dd.take(i as int), us, ev),
        decreases d@.len() - i,
    {
        assert(ss[2 * i] == deep_triples(d@)[i as int].0 && ss[2 * i + 1] == deep_triples(d@)[i as int].1);
        assert(ss.contains(deep_triples(d@)[i as int].0));
        assert(ss.contains(deep_triples(d@)[i as int].1));
        assert(vviews(u@).contains(deep_triples(d@)[i as int].0) && vviews(u@).contains(deep_triples(d@)[i as int].1));
        let kc = find_string(u, d[i].0.as_slice());
        let kw = find_string(u, d[i].1.as_slice());
        proof {
            assert forall|a: int, c: int| 0 <= a < us.len() && 0 <= c < us.len() && us[a] == us[c] implies a == c by {
                if a != c {
                    crate::text::lemma_seq_lt_irreflexive(us[a]);
                }
            }
            assert(us[kc as int] == dd[i as int].0);
            assert(kc == str_idx(us, dd[i as int].0));
            assert(us[kw as int] == dd[i as int].1);
            assert(kw == str_idx(us, dd[i as int].1));
        }
        let q: usize = (d[i].2 % 0x1_0000_0000) as usize;
        assert(dd[i as int].2 % 0x1_0000_0000 < e@.len());
        let rec = EntryRecord {
            word_offset: offs[kw],
            code_offset: offs[kc],
            log_prior: e[q].2,
            match_type: encode_match_type(e[q].4),
            flags: e[q].5,
            raw_freq: e[q].3,
            embedding_offset: 0,
        };
        assert(rec == rec_of(us, ev, dd[i as int]));
        let b = rec.to_bytes();
        let ghost before = r@;
        crate::ngram_build::append_bytes(&mut r, b.as_slice());
        proof {
            assert(dd.take(i + 1).drop_last() =~= dd.take(i as int));
            assert(dd.take(i + 1).last() == dd[i as int]);
        }
        i = i + 1;
    }
    assert(dd.take(i as int) =~= dd);
    r
}

} // verus!

verus! {

/// The 96 header bytes of a dictionary with header `h` and digest `sha`
/// decode to it.
#[verifier::spinoff_prover]
#[verifier::rlimit(40)]
proof fn lemma_header_fields(b: Seq<u8>, h: Header, sha: Seq<u8>)
    requires
        b.len() >= 96,
        b.subrange(0, 64) == header_image(h),
        b.subrange(64, 96) == sha,
    ensures
        b[4] == h.format_version,
        b[5] == h.engine_kind,
        has_idf_magic(b) == (h.magic@ == MAGIC@),
        u32_at(b, 8) == h.entry_count,
        u32_at(b, 12) == h.string_pool_offset,
        u32_at(b, 16) == h.string_pool_size,
        u32_at(b, 20) == h.entry_table_offset,
        u32_at(b, 24) == h.fst_code_index_offset,
        u32_at(b, 28) == h.fst_code_index_size,
        u32_at(b, 32) == h.fst_word_index_offset,
        u32_at(b, 36) == h.fst_word_index_size,
{
    let hi = header_image(h);
    assert forall|j: int| 0 <= j < 64 implies b[j] == hi[j] by {
        assert(b.subrange(0, 64)[j] == b[j]);
    }
    assert(hi.subrange(8, 12) =~= le32(h.entry_count));
    assert(hi.subrange(12, 16) =~= le32(h.string_pool_offset));
    assert(hi.subrange(16, 20) =~= le32(h.string_pool_size));
    assert(hi.subrange(20, 24) =~= le32(h.entry_table_offset));
    assert(hi.subrange(24, 28) =~= le32(h.fst_code_index_offset));
    assert(hi.subrange(28, 32) =~= le32(h.fst_code_index_size));
    assert(hi.subrange(32, 36) =~= le32(h.fst_word_index_offset));
    assert(hi.subrange(36, 40) =~= le32(h.fst_word_index_size));
    assert(b.subrange(8, 12) =~= hi.subrange(8, 12));
    assert(b.subrange(12, 16) =~= hi.subrange(12, 16));
    assert(b.subrange(16, 20) =~= hi.subrange(16, 20));
    assert(b.subrange(20, 24) =~= hi.subrange(20, 24));
    assert(b.subrange(24, 28) =~= hi.subrange(24, 28));
    assert(b.subrange(28, 32) =~= hi.subrange(28, 32));
    assert(b.subrange(32, 36) =~= hi.subrange(32, 36));
    assert(b.subrange(36, 40) =~= hi.subrange(36, 40));
    lemma_u32_at_placed(b, 8, h.entry_count);
    lemma_u32_at_placed(b, 12, h.string_pool_offset);
    lemma_u32_at_placed(b, 16, h.string_pool_size);
    lemma_u32_at_placed(b, 20, h.entry_table_offset);
    lemma_u32_at_placed(b, 24, h.fst_code_index_offset);
    lemma_u32_at_placed(b, 28, h.fst_code_index_size);
    lemma_u32_at_placed(b, 32, h.fst_word_index_offset);
    lemma_u32_at_placed(b, 36, h.fst_word_index_size);
    assert(b[0] == h.magic@[0] && b[1] == h.magic@[1] && b[2] == h.magic@[2] && b[3] == h.magic@[3]);
    if has_idf_magic(b) {
        assert(h.magic@ =~= MAGIC@);
    }
}

/// A pool string starts no later than the pool's total length.
pub(crate) proof fn lemma_off_below_total(u: Seq<Seq<u8>>, k: int)
    requires
        0 <= k < u.len(),
    ensures
        off_of(u, k) + u[k].len() + 1 <= flat(u).len(),
{
    lemma_flat_prefix(u, k + 1);
    assert(u.take(k + 1).drop_last() =~= u.take(k));
    assert(u.take(k + 1).last() == u[k]);
}

/// The queued entries in table order: by code, then word, then log
/// prior, equal ones in the order added.
pub open spec fn sorted_drafts(e: Seq<Draft>) -> Seq<Keyed> {
    crate::fsa::sort::sorted_of(true, keyed_drafts(e))
}

/// The entries a dictionary built from `e` keeps, in order: of the
/// entries with one code and word only the first.
pub open spec fn kept_drafts(e: Seq<Draft>) -> Seq<Keyed> {
    dedup_pairs(sorted_drafts(e))
}

/// The entries the build keeps and the strings of its pool are the ones
/// `kept_drafts` and `pool_strings` name.
proof fn lemma_kept_layout(
    e: Seq<Draft>,
    k: Seq<Keyed>,
    s: Seq<Keyed>,
    dd: Seq<Keyed>,
    ss: Seq<Seq<u8>>,
    us: Seq<Seq<u8>>,
)
    requires
        k == keyed_drafts(e),
        crate::fsa::sort::pair_sorted(s),
        forall|x: Keyed| #[trigger] count_of(s, x) == count_of(k, x),
        dd == dedup_pairs(s),
        ss.len() == 2 * dd.len(),
        forall|m: int| 0 <= m < dd.len() ==> ss[2 * m] == (#[trigger] dd[m]).0 && ss[2 * m + 1] == dd[m].1,
        strictly_sorted(us),
        forall|x: Seq<u8>| #[trigger] us.contains(x) == ss.contains(x),
    ensures
        kept_drafts(e) == dd,
        pool_strings(dd) == us,
{
    assert(sorted_by(true, s)) by {
        assert forall|i: int, j: int| 0 <= i < j < s.len() implies !lt_by(true, #[trigger] s[j], #[trigger] s[i]) by {
            assert(!pair_lt(s[j], s[i]));
        }
    }
    lemma_sorted_of(true, k, s);
    assert forall|x: Seq<u8>| #[trigger] us.contains(x) == row_has_string(dd, x) by {
        if ss.contains(x) {
            let p = choose|p: int| 0 <= p < ss.len() && ss[p] == x;
            let m = p / 2;
            assert(ss[2 * m] == dd[m].0 && ss[2 * m + 1] == dd[m].1);
        }
        if row_has_string(dd, x) {
            let m = choose|m: int| 0 <= m < dd.len() && (dd[m].0 == x || dd[m].1 == x);
            assert(ss[2 * m] == dd[m].0 && ss[2 * m + 1] == dd[m].1);
        }
    }
    lemma_pool_strings(dd, us);
}

impl IdfBuilder {
    /// Lay out the dictionary: entries sorted by code, then word, then
    /// log prior, equal ones in the order added; of the entries with one
    /// code and word only the first kept; the pool of the distinct
    /// strings; the entry table; the code index, each code mapped to its
    /// first entry; an empty word index; the header with the SHA-256 of
    /// everything after byte 96. `Err` when a pool string would start
    /// past 16 MiB, or when the kept entries hold more than 32 MiB or
    /// 2^32 entries are queued.
    #[verifier::spinoff_prover]
    #[verifier::rlimit(100)]
    pub fn build_bytes(self) -> (r: Result<Vec<u8>, BuildError>)
        ensures
            r matches Err(BuildError::PoolTooLarge) <==> self.drafts().len() < 0x1_0000_0000 && !pool_fits(
                pool_strings(kept_drafts(self.drafts())),
            ),
            r matches Err(BuildError::TooLarge) <==> self.drafts().len() >= 0x1_0000_0000 || (pool_fits(
                pool_strings(kept_drafts(self.drafts())),
            ) && sum_of(kept_drafts(self.drafts()), row_size()) > 0x200_0000),
            r matches Ok(b) ==> idf_error(b@, sha256_spec(b@.skip(96))) is None,
            r matches Ok(b) ==> b@[5] == engine_kind_byte(self.kind()),
            r matches Ok(b) ==> forall|h: Header|
                header_decodes(b@, h) && drafts_no_nul(self.drafts()) ==> #[trigger] table_of(idf_entries(b@, h), self.drafts()),
            r matches Ok(b) ==> forall|h: Header| #[trigger] header_decodes(b@, h) ==> h.entry_count == kept_drafts(self.drafts()).len(),
            r is Ok ==> forall|a: int, c: int|
                0 <= a < c < kept_drafts(self.drafts()).len() ==> crate::idf_law::cw_lt(
                    #[trigger] kept_drafts(self.drafts())[a],
                    #[trigger] kept_drafts(self.drafts())[c],
                ),
            r is Ok ==> forall|q: int|
                0 <= q < self.drafts().len() ==> #[trigger] crate::ngram_build::has_pair(
                    kept_drafts(self.drafts()),
                    self.drafts()[q].0,
                    self.drafts()[q].1,
                ),
    {
        proof {
            use_type_invariant(&self);
        }
        let ghost e = self.drafts();
        proof {
            crate::ngram_build::lemma_sum_len(keyed_drafts(e));
        }
        if self.entries.len() as u64 >= 0x1_0000_0000u64 {
            return Err(BuildError::TooLarge);
        }
        let kv = keyed_entries(&self.entries);
        let ghost k = deep_triples(kv@);
        let sorted = sort_pairs(kv);
        let ghost s = deep_triples(sorted@);
        let d = dedup_rows(&sorted);
        let ghost dd = deep_triples(d@);
        proof {
            lemma_sum_perm(s, k, row_size());
            lemma_dedup_sum(s, row_size());
            lemma_sum_len(dd);
        }
        let strings = row_strings(&d);
        let u = sorted_unique(&strings);
        proof {
            lemma_kept_layout(e, k, s, dd, vviews(strings@), vviews(u@));
            crate::idf_law::lemma_dedup_strict(s);
            assert forall|q: int| 0 <= q < e.len() implies #[trigger] crate::ngram_build::has_pair(dd, e[q].0, e[q].1) by {
                let x = k[q];
                crate::pool::lemma_count_contains(s, x);
                crate::pool::lemma_count_contains(k, x);
                assert(count_of(s, x) == count_of(k, x));
                let p = choose|p: int| 0 <= p < s.len() && s[p] == x;
                crate::idf_law::lemma_dedup_covers_cw(s, p);
                let m = choose|m: int| 0 <= m < dd.len() && crate::idf_law::cw_eq(#[trigger] dd[m], s[p]);
            }
        }
        if !pool_fits_exec(&u) {
            return Err(BuildError::PoolTooLarge);
        }
        if !rows_within_limit(&d) {
            return Err(BuildError::TooLarge);
        }
        proof {
            lemma_sum_len(dd);
        }
        let (pool, pool_size, offs) = match write_pool(&u) {
            Ok(x) => x,
            Err(_) => {
                return Err(BuildError::PoolTooLarge);
            },
        };
        proof {
            assert forall|m: int| 0 <= m < d@.len() implies (#[trigger] deep_triples(d@)[m]).2 % 0x1_0000_0000 < self.entries@.len() by {
                let q = crate::idf_law::lemma_kept_origin(e, s, m);
            }
        }
        let recs = write_records(&self.entries, &d, &u, &offs, Ghost(vviews(strings@)));
        let fst = code_index(&d);
        proof {
            lemma_recs_image_len(dd, vviews(u@), e);
            crate::pool::lemma_flat_len(vviews(u@));
        }
        let eto: u32 = 96 + pool.len() as u32;
        let fco: u32 = eto + recs.len() as u32;
        let fwo: u32 = fco + fst.len() as u32;
        let h = Header {
            magic: MAGIC,
            format_version: 1,
            engine_kind: self.engine_kind.as_byte(),
            flags: self.flags,
            entry_count: d.len() as u32,
            string_pool_offset: 96,
            string_pool_size: pool_size,
            entry_table_offset: eto,
            fst_code_index_offset: fco,
            fst_code_index_size: fst.len() as u32,
            fst_word_index_offset: fwo,
            fst_word_index_size: 0,
            bigram_offset: 0,
            bigram_size: 0,
            embedding_offset: 0,
            embedding_dim: 0,
            embedding_dtype: 0,
            reserved: 0,
            sha256_of_payload: [0u8; 32],
        };
        let hb = h.to_bytes();
        let mut out: Vec<u8> = Vec::new();
        append_bytes(&mut out, hb.as_slice());
        let zeros = [0u8; 32];
        append_bytes(&mut out, zeros.as_slice());
        append_bytes(&mut out, pool.as_slice());
        append_bytes(&mut out, recs.as_slice());
        append_bytes(&mut out, fst.as_slice());
        let ghost body = out@.skip(96);
        let sha = sha256_from(out.as_slice(), 96);
        let mut i: usize = 0;
        while i < 32
            invariant
                i <= 32,
                out@.len() >= 96,
                out@.skip(96) == body,
                out@.subrange(0, 64) == header_image(h),
                forall|j: int| 0 <= j < i ==> out@[64 + j] == sha@[j],
            decreases 32 - i,
        {
            out.set(64 + i, sha[i]);
            assert(out@.skip(96) =~= body);
            assert(out@.subrange(0, 64) =~= header_image(h));
            i = i + 1;
        }
        proof {
            let b = out@;
            let us = vviews(u@);
            assert(b.subrange(64, 96) =~= sha@);
            lemma_header_fields(b, h, sha@);
            assert(body == pool@ + recs@ + fst@);
            assert(b.len() == 96 + pool@.len() + recs@.len() + fst@.len());
            assert(file_len32(b) == b.len());
            assert(idf_shape_error(b) is None);
            let fl = flat(us);
            assert(b.subrange(96, 96 + fl.len() as int) =~= fl) by {
                assert forall|j: int| 0 <= j < fl.len() implies b.subrange(96, 96 + fl.len() as int)[j] == fl[j] by {
                    assert(b[96 + j] == body[j]);
                    assert(body[j] == pool@[j]);
                }
            }
            let et: int = 96 + pool@.len() as int;
            assert(b.subrange(et, et + 16 * dd.len()) =~= recs@) by {
                assert forall|j: int| 0 <= j < recs@.len() implies b.subrange(et, et + 16 * dd.len())[j] == recs@[j] by {
                    assert(b[et + j] == body[pool@.len() + j]);
                }
            }
            let ss = vviews(strings@);
            assert forall|m: int| 0 <= m < dd.len() implies us.contains(#[trigger] dd[m].1) && us.contains(dd[m].0) by {
                assert(ss[2 * m] == deep_triples(d@)[m].0 && ss[2 * m + 1] == deep_triples(d@)[m].1);
                assert(ss.contains(dd[m].0));
                assert(ss.contains(dd[m].1));
            }
            assert forall|hh: Header| header_decodes(b, hh) && drafts_no_nul(e) implies #[trigger] table_of(idf_entries(b, hh), e) by {
                assert(idf_laid_out(b, hh, e, s, us));
                lemma_idf_read_back(b, hh, e, s, us);
            }
        }
        Ok(out)
    }
}

} // verus!
