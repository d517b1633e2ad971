//! The `jieba_phrase` upstream format: `<word> <freq> <pos>` per line,
//! whitespace-separated, pinyin only. A word's code is derived from
//! the readings of its characters, and only when every character has
//! exactly one reading; the readings themselves come from the pinyin
//! data, which the caller consults.

use vstd::prelude::*;
use vstd::string::StringSliceAdditionalSpecFns;
use vstd::utf8::valid_utf8;

use crate::ingest::{row_view, rows_view, IngestRow, RowView};
use crate::ingest_parse::{engine_code, err_view, EngineKind, ErrView, IngestError};
use crate::text::sbytes;
use crate::tsv::{
    lemma_lines_from, lemma_next_ws, lemma_vs_next_ws, lemma_vs_trim_end, lemma_vs_trim_start,
    line_ranges, lines_from, next_ws, next_ws_pos, parse_u32, parse_u32_at, sub_string, trim_end_at,
    trim_end_pos, trim_start_at, trim_start_pos, vs,
};

verus! {

/// A `jieba_phrase` line with at least two tokens.
#[derive(Debug, Clone, PartialEq, Eq)]
pub enum JiebaLine {
    /// The word and its frequency.
    Entry { word: String, freq: u32 },
    /// The word, and the frequency text that is not a `u32`.
    BadFreq { word: String, text: String },
}

/// A line as plain values: word, frequency (`None` when bad), the bad
/// frequency's text.
pub type JLineView = (Seq<u8>, Option<u32>, Seq<u8>);

pub open spec fn jline_view(l: JiebaLine) -> JLineView {
    match l {
        JiebaLine::Entry { word, freq } => (sbytes(word), Some(freq), Seq::empty()),
        JiebaLine::BadFreq { word, text } => (sbytes(word), None, sbytes(text)),
    }
}

pub open spec fn jlines_view(s: Seq<JiebaLine>) -> Seq<JLineView> {
    s.map_values(|l: JiebaLine| jline_view(l))
}

/// The entry lines of `b` from line `i`: each trimmed; blank and `#`
/// lines skipped; the first whitespace token is the word, the second
/// its frequency; lines with fewer than two tokens skipped.
pub open spec fn jieba_lines_spec(b: Seq<u8>, ls: Seq<(int, int)>, i: int) -> Seq<JLineView>
    decreases ls.len() - i,
{
    if i >= ls.len() || i < 0 {
        Seq::empty()
    } else {
        let st = trim_start_at(b, ls[i].0, ls[i].1);
        let en = trim_end_at(b, st, ls[i].1);
        let rest = jieba_lines_spec(b, ls, i + 1);
        if st == en || b[st] == 0x23 {
            rest
        } else {
            let w_end = next_ws(b, st, en);
            let f_st = trim_start_at(b, w_end, en);
            if f_st >= en {
                rest
            } else {
                let f_end = next_ws(b, f_st, en);
                let word = b.subrange(st, w_end);
                match parse_u32_at(b, f_st, f_end) {
                    Some(f) => seq![(word, Some(f), Seq::<u8>::empty())] + rest,
                    None => seq![(word, None, b.subrange(f_st, f_end))] + rest,
                }
            }
        }
    }
}

/// The entry lines of a `jieba_phrase` text; refused for any engine but
/// pinyin.
pub fn jieba_lines(raw: &str, engine: EngineKind) -> (r: Result<Vec<JiebaLine>, IngestError>)
    ensures
        engine != EngineKind::Pinyin ==> (r matches Err(e) && err_view(e) == (6u8, engine_code(engine), 0int, 0int, Seq::<u8>::empty())),
        engine == EngineKind::Pinyin ==> (r matches Ok(v) && jlines_view(v@) == jieba_lines_spec(raw.spec_bytes(), lines_from(raw.spec_bytes(), 0), 0)),
{
    if engine != EngineKind::Pinyin {
        return Err(IngestError::JiebaEngine(engine));
    }
    let b = raw.as_bytes();
    let ghost bb = b@;
    let ls = line_ranges(b);
    let ghost lv = lines_from(bb, 0);
    proof {
        vstd::utf8::encode_utf8_valid_utf8(raw@);
        assert(bb.subrange(0, bb.len() as int) =~= bb);
        lemma_lines_from(bb, 0);
    }
    let mut out: Vec<JiebaLine> = Vec::new();
    let mut i: usize = 0;
    proof {
        assert(jlines_view(out@) + jieba_lines_spec(bb, lv, 0) =~= jieba_lines_spec(bb, lv, 0));
    }
    while i < ls.len()
        invariant
            bb == b@,
            valid_utf8(bb),
            lv == lines_from(bb, 0),
            ls@.len() == lv.len(),
            forall|k: int| 0 <= k < ls@.len() ==> (#[trigger] ls@[k]).0 == lv[k].0 && ls@[k].1 == lv[k].1,
            forall|k: int| 0 <= k < lv.len() ==> {
                let x = #[trigger] lv[k];
                &&& 0 <= x.0 <= x.1 <= bb.len()
                &&& vs(bb, x.0)
                &&& vs(bb, x.1)
            },
            i <= ls@.len(),
            jlines_view(out@) + jieba_lines_spec(bb, lv, i as int) == jieba_lines_spec(bb, lv, 0),
        decreases ls@.len() - i,
    {
        let lo = ls[i].0;
        let hi = ls[i].1;
        assert(lv[i as int] == (lo as int, hi as int));
        let st = trim_start_pos(b, lo, hi);
        let en = trim_end_pos(b, st, hi);
        proof {
            lemma_vs_trim_start(bb, lo as int, hi as int);
            lemma_vs_trim_end(bb, st as int, hi as int);
        }
        let ghost rest = jieba_lines_spec(bb, lv, i + 1);
        if st == en || b[st] == 0x23 {
            i = i + 1;
            continue;
        }
        let w_end = next_ws_pos(b, st, en);
        let f_st = trim_start_pos(b, w_end, en);
        proof {
            lemma_vs_next_ws(bb, st as int, en as int);
            lemma_vs_trim_start(bb, w_end as int, en as int);
        }
        if f_st >= en {
            i = i + 1;
            continue;
        }
        let f_end = next_ws_pos(b, f_st, en);
        proof {
            lemma_vs_next_ws(bb, f_st as int, en as int);
        }
        let word = sub_string(b, st, w_end);
        let line = match parse_u32(b, f_st, f_end) {
            Some(f) => JiebaLine::Entry { word, freq: f },
            None => JiebaLine::BadFreq { word, text: sub_string(b, f_st, f_end) },
        };
        let ghost before = jlines_view(out@);
        let ghost x = jline_view(line);
        out.push(line);
        proof {
            assert(jlines_view(out@) =~= before.push(x));
            assert(jieba_lines_spec(bb, lv, i as int) == seq![x] + rest);
            assert(before.push(x) + rest =~= before + (seq![x] + rest));
        }
        i = i + 1;
    }
    proof {
        assert(jieba_lines_spec(bb, lv, i as int) =~= Seq::<JLineView>::empty());
        assert(jlines_view(out@) + jieba_lines_spec(bb, lv, i as int) =~= jlines_view(out@));
    }
    Ok(out)
}

/// The code from the readings of a word's characters from `j` on: the
/// single reading of each concatenated; `Err(1)` at the first character
/// with no reading, `Err(2)` at the first with several.
pub open spec fn derive_from(rs: Seq<Seq<Seq<u8>>>, j: int) -> Result<Seq<u8>, u8>
    decreases rs.len() - j,
{
    if j >= rs.len() || j < 0 {
        Ok(Seq::empty())
    } else if rs[j].len() == 0 {
        Err(1u8)
    } else if rs[j].len() > 1 {
        Err(2u8)
    } else {
        match derive_from(rs, j + 1) {
            Ok(c) => Ok(rs[j][0] + c),
            Err(e) => Err(e),
        }
    }
}

/// Why a `jieba_phrase` line gave no row.
#[derive(Debug, Clone, PartialEq, Eq)]
pub enum JiebaDrop {
    /// The frequency text is not a `u32`.
    BadFreq(String),
    /// Some character has several readings.
    Ambiguous,
    /// Some character has no reading.
    Uncovered,
}

/// What a line comes to: 0 a row with code `c`, 1 a bad frequency, 2
/// an ambiguous reading, 3 an uncovered character, 4 an empty code.
pub type JOut = (u8, Seq<u8>);

/// What line `l` comes to, given its characters' readings `rs`.
pub open spec fn jout(l: JLineView, rs: Seq<Seq<Seq<u8>>>) -> JOut {
    match l.1 {
        None => (1u8, Seq::empty()),
        Some(_) => match derive_from(rs, 0) {
            Ok(c) => if c.len() > 0 {
                (0u8, c)
            } else {
                (4u8, Seq::empty())
            },
            Err(e) => if e == 2 {
                (2u8, Seq::empty())
            } else {
                (3u8, Seq::empty())
            },
        },
    }
}

/// The rows the lines give.
pub open spec fn jrows(ls: Seq<JLineView>, rs: Seq<Seq<Seq<Seq<u8>>>>) -> Seq<RowView>
    decreases ls.len(),
{
    if ls.len() == 0 {
        Seq::empty()
    } else {
        let n = ls.len() - 1;
        let o = jout(ls[n], rs[n]);
        let p = jrows(ls.drop_last(), rs);
        if o.0 == 0 {
            p.push((o.1, ls[n].0, None, ls[n].1->Some_0))
        } else {
            p
        }
    }
}

/// How many lines come to outcome `k`.
pub open spec fn jcount(ls: Seq<JLineView>, rs: Seq<Seq<Seq<Seq<u8>>>>, k: u8) -> nat
    decreases ls.len(),
{
    if ls.len() == 0 {
        0
    } else {
        let n = ls.len() - 1;
        jcount(ls.drop_last(), rs, k) + if jout(ls[n], rs[n]).0 == k {
            1nat
        } else {
            0nat
        }
    }
}

/// The drops worth showing, in line order: the word, the outcome, the
/// bad frequency's text.
pub open spec fn jdrops(ls: Seq<JLineView>, rs: Seq<Seq<Seq<Seq<u8>>>>) -> Seq<(Seq<u8>, u8, Seq<u8>)>
    decreases ls.len(),
{
    if ls.len() == 0 {
        Seq::empty()
    } else {
        let n = ls.len() - 1;
        let o = jout(ls[n], rs[n]);
        let p = jdrops(ls.drop_last(), rs);
        if 1 <= o.0 <= 3 {
            p.push((ls[n].0, o.0, ls[n].2))
        } else {
            p
        }
    }
}

/// Readings as plain values.
pub open spec fn readings_view(r: Seq<Vec<Vec<String>>>) -> Seq<Seq<Seq<Seq<u8>>>> {
    r.map_values(|x: Vec<Vec<String>>| x@.map_values(|y: Vec<String>| y@.map_values(|s: String| sbytes(s))))
}

/// A drop as plain values.
pub open spec fn drop_view(x: (String, JiebaDrop)) -> (Seq<u8>, u8, Seq<u8>) {
    match x.1 {
        JiebaDrop::BadFreq(t) => (sbytes(x.0), 1u8, sbytes(t)),
        JiebaDrop::Ambiguous => (sbytes(x.0), 2u8, Seq::empty()),
        JiebaDrop::Uncovered => (sbytes(x.0), 3u8, Seq::empty()),
    }
}

/// What a `jieba_phrase` input came to.
#[derive(Debug, Clone)]
pub struct JiebaResult {
    pub rows: Vec<IngestRow>,
    /// Lines that gave no row.
    pub dropped: u64,
    /// Of those, for a character with several readings.
    pub dropped_ambiguous: u64,
    /// Of those, for a character with no reading.
    pub dropped_uncovered: u64,
    /// The first five drops, in line order.
    pub samples: Vec<(String, JiebaDrop)>,
}

/// Derive a word's code from its characters' readings.
fn derive_code(rs: &Vec<Vec<String>>) -> (r: Result<String, u8>)
    ensures
        ({
            let v = rs@.map_values(|y: Vec<String>| y@.map_values(|s: String| sbytes(s)));
            match derive_from(v, 0) {
                Ok(c) => r matches Ok(s) && sbytes(s) == c,
                Err(e) => r == Err::<String, u8>(e),
            }
        }),
{
    let ghost v = rs@.map_values(|y: Vec<String>| y@.map_values(|s: String| sbytes(s)));
    let mut code: Vec<u8> = Vec::new();
    let mut j: usize = 0;
    proof {
        assert(valid_utf8(code@)) by {
            assert(code@ =~= Seq::<u8>::empty());
        }
        match derive_from(v, 0) {
            Ok(c) => {
                assert(code@ + c =~= c);
            },
            Err(_) => {},
        }
    }
    while j < rs.len()
        invariant
            v == rs@.map_values(|y: Vec<String>| y@.map_values(|s: String| sbytes(s))),
            j <= rs@.len(),
            valid_utf8(code@),
            derive_from(v, 0) == (match derive_from(v, j as int) {
                Ok(c) => Ok(code@ + c),
                Err(e) => Err(e),
            }),
        decreases rs@.len() - j,
    {
        if rs[j].len() == 0 {
            return Err(1);
        }
        if rs[j].len() > 1 {
            return Err(2);
        }
        let piece = rs[j][0].as_str();
        assert(piece.spec_bytes() == v[j as int][0]);
        let ghost before = code@;
        crate::ngram_build::append_bytes(&mut code, piece.as_bytes());
        proof {
            vstd::utf8::encode_utf8_valid_utf8(piece@);
            vstd::utf8::valid_utf8_concat(before, piece.spec_bytes());
            match derive_from(v, j + 1) {
                Ok(c) => {
                    assert(before + (v[j as int][0] + c) =~= code@ + c);
                },
                Err(_) => {},
            }
        }
        j = j + 1;
    }
    proof {
        assert(derive_from(v, j as int) == Ok::<Seq<u8>, u8>(Seq::empty()));
        assert(code@ + Seq::<u8>::empty() =~= code@);
    }
    Ok(crate::text::string_or_empty(code.as_slice()))
}

/// The rows the entry lines give, `readings[k]` holding the readings of
/// each character of line `k`'s word: a row when every character has
/// exactly one reading and the code is not empty; otherwise the line is
/// dropped and counted, and the first five drops (bad frequency,
/// ambiguous, uncovered) are kept as samples.
pub fn jieba_rows(lines: &Vec<JiebaLine>, readings: &Vec<Vec<Vec<String>>>) -> (r: JiebaResult)
    requires
        readings@.len() == lines@.len(),
    ensures
        rows_view(r.rows@) == jrows(jlines_view(lines@), readings_view(readings@)),
        r.dropped == lines@.len() - jcount(jlines_view(lines@), readings_view(readings@), 0),
        r.dropped_ambiguous == jcount(jlines_view(lines@), readings_view(readings@), 2),
        r.dropped_uncovered == jcount(jlines_view(lines@), readings_view(readings@), 3),
        r.samples@.map_values(|x: (String, JiebaDrop)| drop_view(x)) == jdrops(jlines_view(lines@), readings_view(readings@)).take(
            if jdrops(jlines_view(lines@), readings_view(readings@)).len() < 5 { jdrops(jlines_view(lines@), readings_view(readings@)).len() as int } else { 5 },
        ),
{
    let ghost lv = jlines_view(lines@);
    let ghost rv = readings_view(readings@);
    let mut rows: Vec<IngestRow> = Vec::new();
    let mut kept: u64 = 0;
    let mut amb: u64 = 0;
    let mut unc: u64 = 0;
    let mut samples: Vec<(String, JiebaDrop)> = Vec::new();
    let mut k: usize = 0;
    while k < lines.len()
        invariant
            lv == jlines_view(lines@),
            rv == readings_view(readings@),
            readings@.len() == lines@.len(),
            k <= lines@.len(),
            rows_view(rows@) == jrows(lv.take(k as int), rv),
            kept == jcount(lv.take(k as int), rv, 0),
            amb == jcount(lv.take(k as int), rv, 2),
            unc == jcount(lv.take(k as int), rv, 3),
            kept <= k && amb <= k && unc <= k,
            samples@.map_values(|x: (String, JiebaDrop)| drop_view(x)) == jdrops(lv.take(k as int), rv).take(
                if jdrops(lv.take(k as int), rv).len() < 5 { jdrops(lv.take(k as int), rv).len() as int } else { 5 },
            ),
        decreases lines@.len() - k,
    {
        let ghost p = lv.take(k + 1);
        proof {
            assert(p.drop_last() =~= lv.take(k as int));
            assert(p[k as int] == jline_view(lines@[k as int]));
            assert(rv[k as int] == readings@[k as int]@.map_values(|y: Vec<String>| y@.map_values(|s: String| sbytes(s))));
        }
        let ghost o = jout(p[k as int], rv[k as int]);
        let ghost ds = jdrops(lv.take(k as int), rv);
        let ghost sv = samples@.map_values(|x: (String, JiebaDrop)| drop_view(x));
        match &lines[k] {
            JiebaLine::BadFreq { word, text } => {
                assert(o.0 == 1);
                if samples.len() < 5 {
                    let ghost before = samples@;
                    samples.push((word.clone(), JiebaDrop::BadFreq(text.clone())));
                    proof {
                        assert(samples@.map_values(|x: (String, JiebaDrop)| drop_view(x)) =~= sv.push(
                            (sbytes(*word), 1u8, sbytes(*text)),
                        ));
                        assert(jdrops(p, rv) == ds.push((sbytes(*word), 1u8, sbytes(*text))));
                        assert(ds.push((sbytes(*word), 1u8, sbytes(*text))).take(ds.len() + 1int) =~= ds.push(
                            (sbytes(*word), 1u8, sbytes(*text)),
                        ));
                        assert(ds.take(ds.len() as int) =~= ds);
                    }
                } else {
                    proof {
                        assert(sv.len() == samples@.len());
                        assert(ds.len() >= 5);
                        assert(jdrops(p, rv) == ds.push((sbytes(*word), 1u8, sbytes(*text))));
                        assert(ds.push((sbytes(*word), 1u8, sbytes(*text))).take(5) =~= ds.take(5));
                    }
                }
            },
            JiebaLine::Entry { word, freq } => {
                let d = derive_code(&readings[k]);
                match d {
                    Ok(code) => {
                        if code.as_str().as_bytes().len() > 0 {
                            let row = IngestRow { code, word: word.clone(), extra: None, freq: *freq };
                            let ghost before = rows_view(rows@);
                            rows.push(row);
                            kept = kept + 1;
                            proof {
                                assert(rows_view(rows@) =~= before.push(row_view(row)));
                                assert(jdrops(p, rv) == ds);
                            }
                        } else {
                            proof {
                                assert(jdrops(p, rv) == ds);
                            }
                        }
                    },
                    Err(e) => {
                        let kind = if e == 2 {
                            amb = amb + 1;
                            JiebaDrop::Ambiguous
                        } else {
                            unc = unc + 1;
                            JiebaDrop::Uncovered
                        };
                        let ghost kv: u8 = if e == 2 { 2u8 } else { 3u8 };
                        if samples.len() < 5 {
                            samples.push((word.clone(), kind));
                            proof {
                                assert(samples@.map_values(|x: (String, JiebaDrop)| drop_view(x)) =~= sv.push(
                                    (sbytes(*word), kv, Seq::<u8>::empty()),
                                ));
                                assert(jdrops(p, rv) == ds.push((sbytes(*word), kv, Seq::<u8>::empty())));
                                assert(ds.push((sbytes(*word), kv, Seq::<u8>::empty())).take(ds.len() + 1int) =~= ds.push(
                                    (sbytes(*word), kv, Seq::<u8>::empty()),
                                ));
                                assert(ds.take(ds.len() as int) =~= ds);
                            }
                        } else {
                            proof {
                                assert(sv.len() == samples@.len());
                                assert(ds.len() >= 5);
                                assert(jdrops(p, rv) == ds.push((sbytes(*word), kv, Seq::<u8>::empty())));
                                assert(ds.push((sbytes(*word), kv, Seq::<u8>::empty())).take(5) =~= ds.take(5));
                            }
                        }
                    },
                }
            },
        }
        k = k + 1;
    }
    assert(lv.take(k as int) =~= lv);
    JiebaResult { rows, dropped: (lines.len() as u64) - kept, dropped_ambiguous: amb, dropped_uncovered: unc, samples }
}

} // verus!
