//! Japanese lookups over IDF dictionaries: compounds by exact reading,
//! compounds by a longer reading, single kanji by reading.

use vstd::prelude::*;
use vstd::string::{StrSliceExecFns, StringSliceAdditionalSpecFns};
use vstd::utf8::decode_utf8;

use crate::idf::{idf_entries, with_code_eq, with_code_prefix, Entry, EntryView, IdfReader, entries_view};
use crate::text::sbytes;

verus! {

/// (word, frequency) of entries.
pub open spec fn word_freqs(es: Seq<EntryView>) -> Seq<(Seq<u8>, u32)> {
    es.map_values(|e: EntryView| (e.0, e.5))
}

/// (word, frequency, code length) of the entries whose code is longer
/// than `n` bytes.
pub open spec fn longer_codes(es: Seq<EntryView>, n: int) -> Seq<(Seq<u8>, u32, int)>
    decreases es.len(),
{
    if es.len() == 0 {
        Seq::empty()
    } else if es.last().1.len() > n {
        longer_codes(es.drop_last(), n).push((es.last().0, es.last().5, es.last().1.len() as int))
    } else {
        longer_codes(es.drop_last(), n)
    }
}

/// (first char of the word, frequency) of the entries whose word has
/// one.
pub open spec fn first_chars(es: Seq<EntryView>) -> Seq<(char, u32)>
    decreases es.len(),
{
    if es.len() == 0 {
        Seq::empty()
    } else if decode_utf8(es.last().0).len() > 0 {
        first_chars(es.drop_last()).push((decode_utf8(es.last().0)[0], es.last().5))
    } else {
        first_chars(es.drop_last())
    }
}

/// (word, frequency) of each compound read exactly `romaji`.
pub fn lookup_jukugo_by_reading(reader: &IdfReader, romaji: &str) -> (r: Vec<(String, u32)>)
    ensures
        r@.map_values(|x: (String, u32)| (sbytes(x.0), x.1)) == word_freqs(
            with_code_eq(idf_entries(reader.bytes(), reader.header_spec()), romaji.spec_bytes()),
        ),
{
    let hits = reader.lookup(romaji.as_bytes());
    let ghost es = entries_view(hits@);
    let mut out: Vec<(String, u32)> = Vec::new();
    let mut i: usize = 0;
    while i < hits.len()
        invariant
            i <= hits@.len(),
            es == entries_view(hits@),
            out@.map_values(|x: (String, u32)| (sbytes(x.0), x.1)) == word_freqs(es.take(i as int)),
        decreases hits@.len() - i,
    {
        let ghost before = out@;
        out.push((hits[i].word.clone(), hits[i].raw_freq));
        assert(es[i as int] == crate::idf::entry_view(hits@[i as int]));
        assert(es.take(i + 1) =~= es.take(i as int).push(es[i as int]));
        assert(word_freqs(es.take(i + 1)) =~= word_freqs(es.take(i as int)).push((es[i as int].0, es[i as int].5)));
        assert(out@.map_values(|x: (String, u32)| (sbytes(x.0), x.1)) =~= before.map_values(|x: (String, u32)| (sbytes(x.0), x.1)).push((es[i as int].0, es[i as int].5)));
        i = i + 1;
    }
    assert(es.take(i as int) =~= es);
    out
}

/// (word, frequency, reading length) of each compound whose reading
/// starts with `romaji` and is longer, in table order.
pub fn lookup_jukugo_by_reading_prefix(reader: &IdfReader, romaji: &str) -> (r: Vec<(String, u32, usize)>)
    ensures
        r@.map_values(|x: (String, u32, usize)| (sbytes(x.0), x.1, x.2 as int)) == longer_codes(
            with_code_prefix(idf_entries(reader.bytes(), reader.header_spec()), romaji.spec_bytes()),
            romaji.spec_bytes().len() as int,
        ),
{
    let all = reader.entries();
    let ghost es = entries_view(all@);
    let p = romaji.as_bytes();
    let n = p.len();
    let mut out: Vec<(String, u32, usize)> = Vec::new();
    let mut i: usize = 0;
    while i < all.len()
        invariant
            i <= all@.len(),
            es == entries_view(all@),
            es.len() == all@.len(),
            p@ == romaji.spec_bytes(),
            n == p@.len(),
            out@.map_values(|x: (String, u32, usize)| (sbytes(x.0), x.1, x.2 as int)) == longer_codes(
                with_code_prefix(es.take(i as int), p@),
                n as int,
            ),
        decreases all@.len() - i,
    {
        assert(es.take(i + 1).drop_last() =~= es.take(i as int));
        assert(es.take(i + 1).last() == crate::idf::entry_view(all@[i as int]));
        let code = all[i].code.as_str().as_bytes();
        let ghost x = es[i as int];
        let ghost f = with_code_prefix(es.take(i as int), p@);
        assert(x == crate::idf::entry_view(all@[i as int]));
        assert(code@ == x.1);
        proof {
            if crate::text::seq_starts_with(x.1, p@) {
                assert(with_code_prefix(es.take(i + 1), p@) == f.push(x));
                assert(f.push(x).drop_last() =~= f);
                assert(f.push(x).last() == x);
            } else {
                assert(with_code_prefix(es.take(i + 1), p@) == f);
            }
        }
        if crate::text::starts_with(code, p) && code.len() > n {
            let ghost before = out@;
            out.push((all[i].word.clone(), all[i].raw_freq, code.len()));
            assert(out@.map_values(|x: (String, u32, usize)| (sbytes(x.0), x.1, x.2 as int)) =~= before.map_values(
                |x: (String, u32, usize)| (sbytes(x.0), x.1, x.2 as int),
            ).push((sbytes(all@[i as int].word), all@[i as int].raw_freq, code@.len() as int)));
        }
        i = i + 1;
    }
    assert(es.take(i as int) =~= es);
    out
}

/// (kanji, frequency) of each single kanji read exactly `romaji`.
pub fn lookup_kanji_by_reading(reader: &IdfReader, romaji: &str) -> (r: Vec<(char, u32)>)
    ensures
        r@ == first_chars(with_code_eq(idf_entries(reader.bytes(), reader.header_spec()), romaji.spec_bytes())),
{
    let hits = reader.lookup(romaji.as_bytes());
    let ghost es = entries_view(hits@);
    let mut out: Vec<(char, u32)> = Vec::new();
    let mut i: usize = 0;
    while i < hits.len()
        invariant
            i <= hits@.len(),
            es == entries_view(hits@),
            out@ == first_chars(es.take(i as int)),
        decreases hits@.len() - i,
    {
        assert(es.take(i + 1).drop_last() =~= es.take(i as int));
        assert(es.take(i + 1).last() == crate::idf::entry_view(hits@[i as int]));
        let w = hits[i].word.as_str();
        proof {
            vstd::utf8::encode_utf8_decode_utf8(w@);
        }
        if w.unicode_len() > 0 {
            let c = w.get_char(0);
            out.push((c, hits[i].raw_freq));
        }
        i = i + 1;
    }
    assert(es.take(i as int) =~= es);
    out
}

} // verus!
