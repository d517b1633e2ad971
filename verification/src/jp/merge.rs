//! The Japanese engine's candidate list for one buffer: composed
//! sentences, then compounds read exactly as typed (most frequent
//! first), then — only when there is no such compound and at least three
//! letters are typed — up to eight compounds whose reading extends the
//! buffer, then single kanji, then the kana renderings.

use vstd::prelude::*;
use vstd::string::{StrSliceExecFns, StringSliceAdditionalSpecFns};

use super::KanaKind;

verus! {

/// A Japanese candidate as the composite engine ranks it.
#[derive(Clone, Debug, PartialEq, Eq)]
pub struct JpCandidate {
    pub word: String,
    pub kind: KanaKind,
    pub freq: u32,
    pub composed: bool,
    /// How much of the candidate's reading was typed, in thousandths.
    pub proximity_milli: u16,
}

/// A candidate as plain values.
pub type CandView = (Seq<char>, KanaKind, u32, bool, u16);

pub open spec fn cand_view(c: JpCandidate) -> CandView {
    (c.word@, c.kind, c.freq, c.composed, c.proximity_milli)
}

pub open spec fn cands_view(s: Seq<JpCandidate>) -> Seq<CandView> {
    s.map_values(|c: JpCandidate| cand_view(c))
}

/// Position `i` added to the order `o`: after every position whose
/// frequency is at least its own, before the rest.
pub open spec fn insert_by_freq(o: Seq<usize>, f: Seq<u32>, i: usize) -> Seq<usize>
    decreases o.len(),
{
    if o.len() == 0 {
        seq![i]
    } else if f[o.last() as int] >= f[i as int] {
        o.push(i)
    } else {
        insert_by_freq(o.drop_last(), f, i).push(o.last())
    }
}

/// The first `n` positions of `f` by frequency, highest first, equal
/// frequencies in their original order (a stable sort).
pub open spec fn freq_order(f: Seq<u32>, n: nat) -> Seq<usize>
    decreases n,
{
    if n == 0 {
        Seq::empty()
    } else {
        insert_by_freq(freq_order(f, (n - 1) as nat), f, (n - 1) as usize)
    }
}

proof fn lemma_insert_shape(o: Seq<usize>, f: Seq<u32>, i: usize)
    ensures
        insert_by_freq(o, f, i).len() == o.len() + 1,
        forall|k: int| 0 <= k < insert_by_freq(o, f, i).len() ==> #[trigger] insert_by_freq(o, f, i)[k] == i
            || o.contains(insert_by_freq(o, f, i)[k]),
    decreases o.len(),
{
    if o.len() > 0 && f[o.last() as int] < f[i as int] {
        let p = o.drop_last();
        lemma_insert_shape(p, f, i);
        let r = insert_by_freq(o, f, i);
        assert forall|k: int| 0 <= k < r.len() implies #[trigger] r[k] == i || o.contains(r[k]) by {
            if k < r.len() - 1 {
                let q = insert_by_freq(p, f, i);
                assert(r[k] == q[k]);
                if q[k] != i {
                    let j = choose|j: int| 0 <= j < p.len() && p[j] == q[k];
                    assert(o[j] == p[j]);
                }
            } else {
                assert(o[o.len() - 1] == o.last());
            }
        }
    } else if o.len() > 0 {
        let r = insert_by_freq(o, f, i);
        assert forall|k: int| 0 <= k < r.len() implies #[trigger] r[k] == i || o.contains(r[k]) by {
            if k < o.len() {
                assert(r[k] == o[k]);
            }
        }
    }
}

proof fn lemma_order_shape(f: Seq<u32>, n: nat)
    requires
        n <= f.len(),
    ensures
        freq_order(f, n).len() == n,
        forall|k: int| 0 <= k < n ==> #[trigger] freq_order(f, n)[k] < n,
    decreases n,
{
    if n > 0 {
        let m = (n - 1) as nat;
        lemma_order_shape(f, m);
        let o = freq_order(f, m);
        lemma_insert_shape(o, f, m as usize);
        assert forall|k: int| 0 <= k < n implies #[trigger] freq_order(f, n)[k] < n by {
            let r = freq_order(f, n);
            if r[k] != m as usize {
                let j = choose|j: int| 0 <= j < o.len() && o[j] == r[k];
            }
        }
    }
}

fn insert_by_freq_exec(o: &mut Vec<usize>, f: &Vec<u32>, i: usize)
    requires
        i < f@.len(),
        forall|k: int| 0 <= k < old(o)@.len() ==> #[trigger] old(o)@[k] < f@.len(),
    ensures
        final(o)@ == insert_by_freq(old(o)@, f@, i),
    decreases old(o)@.len(),
{
    if o.len() == 0 {
        o.push(i);
        return;
    }
    let last = o[o.len() - 1];
    if f[last] >= f[i] {
        o.push(i);
    } else {
        let ghost before = o@;
        let x = o.pop().unwrap();
        assert(o@ == before.drop_last());
        assert(x == before.last());
        insert_by_freq_exec(o, f, i);
        o.push(x);
    }
}

/// The positions of `f` by frequency, highest first, ties in order.
fn freq_order_exec(f: &Vec<u32>) -> (r: Vec<usize>)
    ensures
        r@ == freq_order(f@, f@.len()),
        forall|k: int| 0 <= k < r@.len() ==> #[trigger] r@[k] < f@.len(),
        r@.len() == f@.len(),
{
    let mut o: Vec<usize> = Vec::new();
    let mut n: usize = 0;
    while n < f.len()
        invariant
            n <= f@.len(),
            o@ == freq_order(f@, n as nat),
        decreases f@.len() - n,
    {
        proof {
            lemma_order_shape(f@, n as nat);
        }
        insert_by_freq_exec(&mut o, f, n);
        n = n + 1;
    }
    proof {
        lemma_order_shape(f@, n as nat);
    }
    o
}

/// Compounds read exactly as typed, most frequent first.
pub open spec fn exact_part(exact: Seq<(String, u32)>) -> Seq<CandView> {
    let f = exact.map_values(|x: (String, u32)| x.1);
    freq_order(f, f.len()).map_values(|q: usize| (exact[q as int].0@, KanaKind::Kanji, exact[q as int].1, false, 1000u16))
}

/// The proximity of a compound of reading length `rl` to a buffer of
/// `blen` bytes, in thousandths, kept to 16 bits.
pub open spec fn proximity(blen: nat, rl: usize) -> u16 {
    (((blen * 1000) as int / (if rl == 0 { 1int } else { rl as int })) % 0x1_0000) as u16
}

/// Up to eight compounds whose reading extends the buffer, most frequent
/// first; only without an exact compound and with three or more bytes.
pub open spec fn prefix_part(blen: nat, had_exact: bool, prefix: Seq<(String, u32, usize)>) -> Seq<CandView> {
    if had_exact || blen < 3 {
        Seq::empty()
    } else {
        let f = prefix.map_values(|x: (String, u32, usize)| x.1);
        let o = freq_order(f, f.len());
        let o8 = if o.len() > 8 { o.take(8) } else { o };
        o8.map_values(|q: usize| (prefix[q as int].0@, KanaKind::Kanji, prefix[q as int].1, false, proximity(blen, prefix[q as int].2)))
    }
}

/// `o` lists positions by falling frequency in `f`.
spec fn falls_by_freq(o: Seq<usize>, f: Seq<u32>) -> bool {
    forall|a: int, b: int| 0 <= a <= b < o.len() ==> f[#[trigger] o[a] as int] >= f[#[trigger] o[b] as int]
}

proof fn lemma_insert_keeps(o: Seq<usize>, f: Seq<u32>, i: usize)
    ensures
        insert_by_freq(o, f, i).contains(i),
        forall|x: usize| o.contains(x) ==> #[trigger] insert_by_freq(o, f, i).contains(x),
        falls_by_freq(o, f) ==> falls_by_freq(insert_by_freq(o, f, i), f),
    decreases o.len(),
{
    let r = insert_by_freq(o, f, i);
    if o.len() == 0 {
        assert(r[0] == i);
    } else if f[o.last() as int] >= f[i as int] {
        assert(r[o.len() as int] == i);
        assert forall|x: usize| o.contains(x) implies #[trigger] r.contains(x) by {
            let j = choose|j: int| 0 <= j < o.len() && o[j] == x;
            assert(r[j] == x);
        }
        if falls_by_freq(o, f) {
            assert forall|a: int, b: int| 0 <= a <= b < r.len() implies f[#[trigger] r[a] as int] >= f[#[trigger] r[b] as int] by {
                if b == o.len() {
                    if a < o.len() {
                        assert(f[o[a] as int] >= f[o[o.len() - 1] as int]);
                    }
                }
            }
        }
    } else {
        let p = o.drop_last();
        let q = insert_by_freq(p, f, i);
        lemma_insert_keeps(p, f, i);
        lemma_insert_shape(p, f, i);
        assert(r == q.push(o.last()));
        let m = choose|m: int| 0 <= m < q.len() && q[m] == i;
        assert(r[m] == i);
        assert forall|x: usize| o.contains(x) implies #[trigger] r.contains(x) by {
            let j = choose|j: int| 0 <= j < o.len() && o[j] == x;
            if j == o.len() - 1 {
                assert(r[r.len() - 1] == x);
            } else {
                assert(p[j] == x);
                assert(p.contains(x));
                assert(q.contains(x));
                let k = choose|k: int| 0 <= k < q.len() && q[k] == x;
                assert(r[k] == x);
            }
        }
        if falls_by_freq(o, f) {
            assert(falls_by_freq(p, f)) by {
                assert forall|a: int, b: int| 0 <= a <= b < p.len() implies f[#[trigger] p[a] as int] >= f[#[trigger] p[b] as int] by {
                    assert(p[a] == o[a] && p[b] == o[b]);
                }
            }
            assert forall|a: int, b: int| 0 <= a <= b < r.len() implies f[#[trigger] r[a] as int] >= f[#[trigger] r[b] as int] by {
                if b == r.len() - 1 && a < b {
                    assert(r[a] == q[a]);
                    if q[a] != i {
                        let j = choose|j: int| 0 <= j < p.len() && p[j] == q[a];
                        assert(f[o[j] as int] >= f[o[o.len() - 1] as int]);
                    }
                } else if b < r.len() - 1 {
                    assert(r[a] == q[a] && r[b] == q[b]);
                }
            }
        }
    }
}

/// The order lists every position below `n`, by falling frequency.
proof fn lemma_order_falls(f: Seq<u32>, n: nat)
    ensures
        falls_by_freq(freq_order(f, n), f),
        forall|q: usize| q < n ==> #[trigger] freq_order(f, n).contains(q),
    decreases n,
{
    if n > 0 {
        let m = (n - 1) as nat;
        lemma_order_falls(f, m);
        lemma_insert_keeps(freq_order(f, m), f, m as usize);
        assert forall|q: usize| q < n implies #[trigger] freq_order(f, n).contains(q) by {
            if q < m {
                assert(freq_order(f, m).contains(q));
            }
        }
    }
}

/// A compound whose reading extends a buffer of `blen` bytes, as the
/// candidate it becomes.
pub open spec fn extension_cand(e: (String, u32, usize), blen: nat) -> CandView {
    (e.0@, KanaKind::Kanji, e.1, false, proximity(blen, e.2))
}

/// Extending compounds are offered exactly when no compound reads as
/// typed and three or more bytes are typed. Then the list holds the
/// eight (or all, when fewer) most frequent of them, highest first:
/// each entry is one of the compounds, frequencies never rise, and a
/// compound left out is no more frequent than the last one listed.
pub proof fn lemma_prefix_part_top(blen: nat, had_exact: bool, prefix: Seq<(String, u32, usize)>)
    requires
        prefix.len() <= usize::MAX,
    ensures
        had_exact || blen < 3 ==> prefix_part(blen, had_exact, prefix).len() == 0,
        !had_exact && blen >= 3 ==> {
            let pp = prefix_part(blen, had_exact, prefix);
            &&& pp.len() == (if prefix.len() > 8 { 8 } else { prefix.len() })
            &&& forall|t: int| 0 <= t < pp.len() ==> exists|q: int| 0 <= q < prefix.len() && #[trigger] pp[t] == extension_cand(prefix[q], blen)
            &&& forall|a: int, b: int| 0 <= a <= b < pp.len() ==> (#[trigger] pp[a]).2 >= (#[trigger] pp[b]).2
            &&& forall|q: int| 0 <= q < prefix.len() && !pp.contains(#[trigger] extension_cand(prefix[q], blen))
                ==> prefix.len() > 8 && prefix[q].1 <= pp[7].2
        },
{
    if !had_exact && blen >= 3 {
        let pp = prefix_part(blen, had_exact, prefix);
        let f = prefix.map_values(|x: (String, u32, usize)| x.1);
        let o = freq_order(f, f.len());
        lemma_order_shape(f, f.len());
        lemma_order_falls(f, f.len());
        let o8 = if o.len() > 8 { o.take(8) } else { o };
        assert(pp == o8.map_values(|q: usize| extension_cand(prefix[q as int], blen)));
        assert forall|t: int| 0 <= t < pp.len() implies exists|q: int| 0 <= q < prefix.len() && #[trigger] pp[t] == extension_cand(prefix[q], blen) by {
            assert(o8[t] == o[t]);
            assert(pp[t] == extension_cand(prefix[o[t] as int], blen));
        }
        assert forall|a: int, b: int| 0 <= a <= b < pp.len() implies (#[trigger] pp[a]).2 >= (#[trigger] pp[b]).2 by {
            assert(o8[a] == o[a] && o8[b] == o[b]);
            assert(f[o[a] as int] >= f[o[b] as int]);
        }
        assert forall|q: int| 0 <= q < prefix.len() && !pp.contains(#[trigger] extension_cand(prefix[q], blen))
            implies prefix.len() > 8 && prefix[q].1 <= pp[7].2 by {
            let qu = q as usize;
            assert(qu as int == q);
            assert(o.contains(qu));
            let p = choose|p: int| 0 <= p < o.len() && o[p] == qu;
            if p < pp.len() {
                assert(o8[p] == o[p]);
                assert(pp[p] == extension_cand(prefix[o8[p] as int], blen));
                assert(pp[p] == extension_cand(prefix[q], blen));
                assert(false);
            }
            assert(o8[7] == o[7]);
            assert(pp[7] == extension_cand(prefix[o[7] as int], blen));
            assert(f[o[7] as int] >= f[o[p] as int]);
            assert(f[q] == prefix[q].1);
            assert(f[o[7] as int] == prefix[o[7] as int].1);
        }
    }
}

/// Single kanji read as typed, most frequent first.
pub open spec fn kanji_part(kanji: Seq<(String, u32)>) -> Seq<CandView> {
    let f = kanji.map_values(|x: (String, u32)| x.1);
    freq_order(f, f.len()).map_values(|q: usize| (kanji[q as int].0@, KanaKind::Kanji, kanji[q as int].1, false, 1000u16))
}

/// The kana renderings: hiragana unless empty or equal to the buffer,
/// katakana unless empty or equal to the buffer or the hiragana.
pub open spec fn kana_part(buffer: Seq<char>, blen: nat, h: Seq<char>, k: Seq<char>) -> Seq<CandView> {
    let kf: u32 = if blen <= 2 { 100 } else { 30 };
    let hs = if h.len() > 0 && h != buffer { seq![(h, KanaKind::Hiragana, kf, false, 1000u16)] } else { Seq::empty() };
    let ks = if k.len() > 0 && k != buffer && k != h { seq![(k, KanaKind::Katakana, kf, false, 1000u16)] } else { Seq::empty() };
    hs + ks
}

/// A compound or kanji read as typed, as the candidate it becomes.
pub open spec fn typed_cand(e: (String, u32)) -> CandView {
    (e.0@, KanaKind::Kanji, e.1, false, 1000u16)
}

/// The compounds read as typed are all listed, each as itself, most
/// frequent first; the single kanji likewise.
pub proof fn lemma_typed_parts_ranked(exact: Seq<(String, u32)>)
    requires
        exact.len() <= usize::MAX,
    ensures
        kanji_part(exact) == exact_part(exact),
        exact_part(exact).len() == exact.len(),
        forall|t: int| 0 <= t < exact.len() ==> exists|q: int| 0 <= q < exact.len() && #[trigger] exact_part(exact)[t] == typed_cand(exact[q]),
        forall|a: int, b: int| 0 <= a <= b < exact.len() ==> (#[trigger] exact_part(exact)[a]).2 >= (#[trigger] exact_part(exact)[b]).2,
        forall|q: int| 0 <= q < exact.len() ==> exact_part(exact).contains(#[trigger] typed_cand(exact[q])),
{
    let ep = exact_part(exact);
    let f = exact.map_values(|x: (String, u32)| x.1);
    let o = freq_order(f, f.len());
    lemma_order_shape(f, f.len());
    lemma_order_falls(f, f.len());
    assert(ep == o.map_values(|q: usize| typed_cand(exact[q as int])));
    assert forall|t: int| 0 <= t < exact.len() implies exists|q: int| 0 <= q < exact.len() && #[trigger] ep[t] == typed_cand(exact[q]) by {
        assert(ep[t] == typed_cand(exact[o[t] as int]));
    }
    assert forall|a: int, b: int| 0 <= a <= b < exact.len() implies (#[trigger] ep[a]).2 >= (#[trigger] ep[b]).2 by {
        assert(f[o[a] as int] >= f[o[b] as int]);
    }
    assert forall|q: int| 0 <= q < exact.len() implies ep.contains(#[trigger] typed_cand(exact[q])) by {
        let qu = q as usize;
        assert(qu as int == q);
        assert(o.contains(qu));
        let p = choose|p: int| 0 <= p < o.len() && o[p] == qu;
        assert(ep[p] == typed_cand(exact[q]));
    }
}

/// The kana renderings carry frequency 100 for a buffer of up to two
/// bytes and 30 for a longer one; the hiragana is offered unless empty
/// or the buffer itself, the katakana unless empty, the buffer or the
/// hiragana; hiragana first, at most the two of them.
pub proof fn lemma_kana_part_rules(buffer: Seq<char>, blen: nat, h: Seq<char>, k: Seq<char>)
    ensures
        kana_part(buffer, blen, h, k).len() <= 2,
        forall|t: int| 0 <= t < kana_part(buffer, blen, h, k).len() ==> {
            &&& (#[trigger] kana_part(buffer, blen, h, k)[t]).2 == (if blen <= 2 { 100u32 } else { 30u32 })
            &&& !kana_part(buffer, blen, h, k)[t].3
            &&& kana_part(buffer, blen, h, k)[t].4 == 1000
        },
        (h.len() > 0 && h != buffer) <==> kana_part(buffer, blen, h, k).len() > 0
            && kana_part(buffer, blen, h, k)[0] == (h, KanaKind::Hiragana, (if blen <= 2 { 100u32 } else { 30u32 }), false, 1000u16),
        (k.len() > 0 && k != buffer && k != h) <==> kana_part(buffer, blen, h, k).len() > 0
            && kana_part(buffer, blen, h, k).last() == (k, KanaKind::Katakana, (if blen <= 2 { 100u32 } else { 30u32 }), false, 1000u16),
{
}

/// The candidate list for `buffer` from its composed sentences, exact
/// compounds, extending compounds, single kanji (each a one-character
/// string) and kana renderings.
pub open spec fn jp_list(
    buffer: &str,
    composed: Seq<JpCandidate>,
    exact: Seq<(String, u32)>,
    prefix: Seq<(String, u32, usize)>,
    kanji: Seq<(String, u32)>,
    h: Seq<char>,
    k: Seq<char>,
) -> Seq<CandView> {
    let blen = buffer.spec_bytes().len();
    cands_view(composed) + exact_part(exact) + prefix_part(blen, exact.len() > 0, prefix) + kanji_part(kanji)
        + kana_part(buffer@, blen, h, k)
}

fn push_cand(out: &mut Vec<JpCandidate>, c: JpCandidate)
    ensures
        cands_view(final(out)@) == cands_view(old(out)@).push(cand_view(c)),
{
    let ghost before = cands_view(out@);
    out.push(c);
    assert(cands_view(out@) =~= before.push(cand_view(c)));
}

/// The Japanese engine's candidates for `buffer`, in the order it shows
/// them: the composed sentences as given, the exact compounds (most
/// frequent first, ties in lookup order), then — with no exact compound
/// and a buffer of three bytes or more — the eight most frequent
/// compounds whose reading extends the buffer, with the typed share of
/// their reading as proximity, then the single kanji by frequency, then
/// the hiragana and katakana renderings (frequency 100 for a buffer of
/// up to two bytes, 30 otherwise) unless empty or repeating the buffer.
pub fn jp_candidates(
    buffer: &str,
    composed: Vec<JpCandidate>,
    exact: Vec<(String, u32)>,
    prefix: Vec<(String, u32, usize)>,
    kanji: Vec<(String, u32)>,
    hiragana: String,
    katakana: String,
) -> (r: Vec<JpCandidate>)
    ensures
        cands_view(r@) == jp_list(buffer, composed@, exact@, prefix@, kanji@, hiragana@, katakana@),
        exact@.len() == 0 && buffer.spec_bytes().len() >= 3 && prefix@.len() <= 8 ==> forall|q: int|
            0 <= q < prefix@.len() ==> cands_view(r@).contains(
                #[trigger] extension_cand(prefix@[q], buffer.spec_bytes().len() as nat),
            ),
        exact@.len() == 0 && buffer.spec_bytes().len() >= 3 && prefix@.len() > 0 ==> {
            &&& r@.len() > composed@.len()
            &&& cands_view(r@)[composed@.len() as int].1 == KanaKind::Kanji
            &&& forall|q: int| 0 <= q < prefix@.len() ==> (#[trigger] prefix@[q]).1 <= r@[composed@.len() as int].freq
        },
{
    let blen = buffer.as_bytes().len();
    let mut out: Vec<JpCandidate> = composed;
    let ghost base = cands_view(out@);
    // Exact compounds.
    let mut f: Vec<u32> = Vec::new();
    let mut i: usize = 0;
    while i < exact.len()
        invariant
            i <= exact@.len(),
            f@ == exact@.take(i as int).map_values(|x: (String, u32)| x.1),
        decreases exact@.len() - i,
    {
        f.push(exact[i].1);
        assert(exact@.take(i + 1).map_values(|x: (String, u32)| x.1) =~= exact@.take(i as int).map_values(
            |x: (String, u32)| x.1,
        ).push(exact[i as int].1));
        i = i + 1;
    }
    assert(exact@.take(i as int) =~= exact@);
    let o = freq_order_exec(&f);
    let ghost ep = exact_part(exact@);
    let mut j: usize = 0;
    while j < o.len()
        invariant
            j <= o@.len(),
            o@.len() == exact@.len(),
            f@.len() == exact@.len(),
            forall|k: int| 0 <= k < o@.len() ==> #[trigger] o@[k] < exact@.len(),
            o@ == freq_order(f@, f@.len()),
            f@ == exact@.map_values(|x: (String, u32)| x.1),
            ep == exact_part(exact@),
            cands_view(out@) == base + ep.take(j as int),
        decreases o@.len() - j,
    {
        let q = o[j];
        let c = JpCandidate { word: exact[q].0.clone(), kind: KanaKind::Kanji, freq: exact[q].1, composed: false, proximity_milli: 1000 };
        push_cand(&mut out, c);
        assert(ep.take(j + 1) =~= ep.take(j as int).push(ep[j as int]));
        j = j + 1;
    }
    assert(ep.take(j as int) =~= ep);
    let ghost after_exact = cands_view(out@);
    // Extending compounds.
    let ghost pp = prefix_part(blen as nat, exact@.len() > 0, prefix@);
    if exact.len() == 0 && blen >= 3 {
        let mut g: Vec<u32> = Vec::new();
        let mut i: usize = 0;
        while i < prefix.len()
            invariant
                i <= prefix@.len(),
                g@ == prefix@.take(i as int).map_values(|x: (String, u32, usize)| x.1),
            decreases prefix@.len() - i,
        {
            g.push(prefix[i].1);
            assert(prefix@.take(i + 1).map_values(|x: (String, u32, usize)| x.1) =~= prefix@.take(i as int).map_values(
                |x: (String, u32, usize)| x.1,
            ).push(prefix[i as int].1));
            i = i + 1;
        }
        assert(prefix@.take(i as int) =~= prefix@);
        let po = freq_order_exec(&g);
        let n = if po.len() > 8 {
            8
        } else {
            po.len()
        };
        let mut j: usize = 0;
        while j < n
            invariant
                j <= n,
                n <= po@.len(),
                n == (if po@.len() > 8 { 8 } else { po@.len() }),
                po@.len() == prefix@.len(),
                forall|k: int| 0 <= k < po@.len() ==> #[trigger] po@[k] < prefix@.len(),
                po@ == freq_order(g@, g@.len()),
                g@ == prefix@.map_values(|x: (String, u32, usize)| x.1),
                exact@.len() == 0,
                blen >= 3,
                pp == prefix_part(blen as nat, false, prefix@),
                pp.len() == n,
                forall|t: int| 0 <= t < n ==> #[trigger] pp[t] == (
                    prefix@[po@[t] as int].0@,
                    KanaKind::Kanji,
                    prefix@[po@[t] as int].1,
                    false,
                    proximity(blen as nat, prefix@[po@[t] as int].2),
                ),
                cands_view(out@) == after_exact + pp.take(j as int),
            decreases n - j,
        {
            let q = po[j];
            let rl: usize = if prefix[q].2 == 0 {
                1
            } else {
                prefix[q].2
            };
            let prox: u128 = (blen as u128 * 1000) / (rl as u128);
            let pm: u16 = (prox % 0x1_0000) as u16;
            let c = JpCandidate { word: prefix[q].0.clone(), kind: KanaKind::Kanji, freq: prefix[q].1, composed: false, proximity_milli: pm };
            push_cand(&mut out, c);
            assert(pp.take(j + 1) =~= pp.take(j as int).push(pp[j as int]));
            j = j + 1;
        }
        assert(pp.take(j as int) =~= pp);
    } else {
        assert(pp =~= Seq::<CandView>::empty());
        assert(after_exact + pp =~= after_exact);
    }
    let ghost after_prefix = cands_view(out@);
    // Single kanji.
    let mut kf: Vec<u32> = Vec::new();
    let mut i: usize = 0;
    while i < kanji.len()
        invariant
            i <= kanji@.len(),
            kf@ == kanji@.take(i as int).map_values(|x: (String, u32)| x.1),
        decreases kanji@.len() - i,
    {
        kf.push(kanji[i].1);
        assert(kanji@.take(i + 1).map_values(|x: (String, u32)| x.1) =~= kanji@.take(i as int).map_values(
            |x: (String, u32)| x.1,
        ).push(kanji[i as int].1));
        i = i + 1;
    }
    assert(kanji@.take(i as int) =~= kanji@);
    let ko = freq_order_exec(&kf);
    let ghost kp = kanji_part(kanji@);
    let mut j: usize = 0;
    while j < ko.len()
        invariant
            j <= ko@.len(),
            ko@.len() == kanji@.len(),
            forall|k: int| 0 <= k < ko@.len() ==> #[trigger] ko@[k] < kanji@.len(),
            ko@ == freq_order(kf@, kf@.len()),
            kf@ == kanji@.map_values(|x: (String, u32)| x.1),
            kp == kanji_part(kanji@),
            cands_view(out@) == after_prefix + kp.take(j as int),
        decreases ko@.len() - j,
    {
        let q = ko[j];
        let c = JpCandidate { word: kanji[q].0.clone(), kind: KanaKind::Kanji, freq: kanji[q].1, composed: false, proximity_milli: 1000 };
        push_cand(&mut out, c);
        assert(kp.take(j + 1) =~= kp.take(j as int).push(kp[j as int]));
        j = j + 1;
    }
    assert(kp.take(j as int) =~= kp);
    let ghost after_kanji = cands_view(out@);
    // Kana renderings.
    let kana_freq: u32 = if blen <= 2 {
        100
    } else {
        30
    };
    let ghost hs: Seq<CandView> = if hiragana@.len() > 0 && hiragana@ != buffer@ {
        seq![(hiragana@, KanaKind::Hiragana, kana_freq, false, 1000u16)]
    } else {
        Seq::empty()
    };
    let h_is_buffer = crate::text::str_eq(hiragana.as_str(), buffer);
    if hiragana.as_str().unicode_len() > 0 && !h_is_buffer {
        let c = JpCandidate { word: hiragana.clone(), kind: KanaKind::Hiragana, freq: kana_freq, composed: false, proximity_milli: 1000 };
        push_cand(&mut out, c);
    }
    assert(cands_view(out@) =~= after_kanji + hs);
    let k_is_buffer = crate::text::str_eq(katakana.as_str(), buffer);
    let k_is_h = crate::text::str_eq(katakana.as_str(), hiragana.as_str());
    if katakana.as_str().unicode_len() > 0 && !k_is_buffer && !k_is_h {
        let c = JpCandidate { word: katakana, kind: KanaKind::Katakana, freq: kana_freq, composed: false, proximity_milli: 1000 };
        push_cand(&mut out, c);
    }
    let plen = prefix.len();
    proof {
        let l = jp_list(buffer, composed@, exact@, prefix@, kanji@, hiragana@, katakana@);
        assert(cands_view(out@) =~= l);
        assert(prefix@.len() == plen);
        lemma_prefix_part_top(blen as nat, exact@.len() > 0, prefix@);
        if exact@.len() == 0 && blen >= 3 {
            let c0 = cands_view(composed@);
            assert(ep.len() == 0);
            assert forall|t: int| 0 <= t < pp.len() implies l[c0.len() + t] == #[trigger] pp[t] by {}
            if prefix@.len() <= 8 {
                assert forall|q: int| 0 <= q < prefix@.len() implies l.contains(
                    #[trigger] extension_cand(prefix@[q], blen as nat),
                ) by {
                    let x = extension_cand(prefix@[q], blen as nat);
                    assert(pp.contains(x));
                    let t = choose|t: int| 0 <= t < pp.len() && pp[t] == x;
                    assert(l[c0.len() + t] == x);
                }
            }
            if prefix@.len() > 0 {
                assert(l[c0.len() as int] == pp[0]);
                assert(cands_view(out@)[composed@.len() as int] == cand_view(out@[composed@.len() as int]));
                assert forall|q: int| 0 <= q < prefix@.len() implies (#[trigger] prefix@[q]).1 <= pp[0].2 by {
                    let x = extension_cand(prefix@[q], blen as nat);
                    if pp.contains(x) {
                        let t = choose|t: int| 0 <= t < pp.len() && pp[t] == x;
                        assert(pp[0].2 >= pp[t].2);
                    } else {
                        assert(pp[0].2 >= pp[7].2);
                    }
                }
            }
        }
    }
    out
}

} // verus!
