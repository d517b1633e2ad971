//! Reading the corpus tool's text inputs: `simple_tsv` upstream rows,
//! the library table and the garbage filter; trimming and filtering
//! upstream rows.

use vstd::prelude::*;
use vstd::string::StringSliceAdditionalSpecFns;
use vstd::utf8::{encode_utf8, valid_utf8};

use crate::ingest::{lib_view, libs_view, opt_bytes, row_view, rows_view, IngestRow, LibraryRow, RowView};
use crate::text::{sbytes, str_eq};
use crate::tsv::{
    field_ranges, fields_from, lemma_fields_from, lemma_lines_from, lemma_vs_end, lemma_vs_trim_end,
    lemma_vs_trim_start, line_ranges, lines_from, parse_u32, parse_u32_at, sub_string, trim_bytes,
    trim_end_at, trim_end_pos, trim_start_at, trim_start_pos, trim_string, vs,
};

verus! {

/// The library a corpus feeds.
#[derive(Copy, Clone, Debug, PartialEq, Eq, Structural)]
pub enum EngineKind {
    Pinyin,
    Wubi,
    Nihongo,
}

/// The engine's name.
pub open spec fn engine_name(e: EngineKind) -> Seq<char> {
    match e {
        EngineKind::Pinyin => "pinyin"@,
        EngineKind::Wubi => "wubi"@,
        EngineKind::Nihongo => "nihongo"@,
    }
}

/// Fields of a library row: code, word, the engine's own column (not
/// for pinyin), frequency, source.
pub open spec fn library_cols(e: EngineKind) -> usize {
    match e {
        EngineKind::Pinyin => 4,
        _ => 5,
    }
}

/// Fields of a `simple_tsv` row: a library row without its source.
pub open spec fn simple_cols(e: EngineKind) -> usize {
    (library_cols(e) - 1) as usize
}

/// Why a corpus input was refused.
#[derive(Debug, Clone, PartialEq, Eq)]
pub enum IngestError {
    /// No engine has this name.
    UnknownEngine(String),
    /// A `simple_tsv` line has too few fields.
    TsvColumns { line: usize, want: usize, got: usize },
    /// A `simple_tsv` line's frequency is not a `u32`.
    TsvFreq { line: usize, text: String },
    /// A library line has too few fields.
    LibraryColumns { line: usize, want: usize, got: usize },
    /// A library line's frequency is not a `u32`.
    LibraryFreq { line: usize, text: String },
    /// A library line's source is neither `digested` nor `polish`.
    LibrarySource { line: usize, source: String },
    /// The `jieba_phrase` format feeds pinyin only.
    JiebaEngine(EngineKind),
    /// A library row's extra column does not match the engine.
    RowShape { extra: Option<String>, engine: EngineKind },
}

/// An error as plain values: kind, line, wanted, got, text.
pub type ErrView = (u8, int, int, int, Seq<u8>);

pub open spec fn engine_code(e: EngineKind) -> int {
    match e {
        EngineKind::Pinyin => 0,
        EngineKind::Wubi => 1,
        EngineKind::Nihongo => 2,
    }
}

pub open spec fn err_view(e: IngestError) -> ErrView {
    match e {
        IngestError::UnknownEngine(s) => (0, 0, 0, 0, sbytes(s)),
        IngestError::TsvColumns { line, want, got } => (1, line as int, want as int, got as int, Seq::empty()),
        IngestError::TsvFreq { line, text } => (2, line as int, 0, 0, sbytes(text)),
        IngestError::LibraryColumns { line, want, got } => (3, line as int, want as int, got as int, Seq::empty()),
        IngestError::LibraryFreq { line, text } => (4, line as int, 0, 0, sbytes(text)),
        IngestError::LibrarySource { line, source } => (5, line as int, 0, 0, sbytes(source)),
        IngestError::JiebaEngine(k) => (6, engine_code(k), 0, 0, Seq::empty()),
        IngestError::RowShape { extra, engine } => (7, engine_code(engine), 0, 0, match opt_bytes(extra) {
            Some(x) => x,
            None => Seq::empty(),
        }),
    }
}

impl EngineKind {
    /// The engine named `s`.
    pub fn parse(s: &str) -> (r: Result<EngineKind, IngestError>)
        ensures
            r matches Ok(e) ==> engine_name(e) == s@,
            r is Err ==> (forall|e: EngineKind| engine_name(e) != s@) && err_view(r->Err_0) == (0u8, 0int, 0int, 0int, s.spec_bytes()),
    {
        if str_eq(s, "pinyin") {
            Ok(EngineKind::Pinyin)
        } else if str_eq(s, "wubi") {
            Ok(EngineKind::Wubi)
        } else if str_eq(s, "nihongo") {
            Ok(EngineKind::Nihongo)
        } else {
            let t = crate::text::owned(s);
            proof {
                assert forall|e: EngineKind| engine_name(e) != s@ by {
                    match e {
                        EngineKind::Pinyin => {},
                        EngineKind::Wubi => {},
                        EngineKind::Nihongo => {},
                    }
                }
            }
            Err(IngestError::UnknownEngine(t))
        }
    }

    /// The engine's name.
    pub fn name(&self) -> (r: &'static str)
        ensures
            r@ == engine_name(*self),
    {
        match self {
            EngineKind::Pinyin => "pinyin",
            EngineKind::Wubi => "wubi",
            EngineKind::Nihongo => "nihongo",
        }
    }

    /// How many tab-separated fields a library row has.
    pub fn library_col_count(&self) -> (r: usize)
        ensures
            r == library_cols(*self),
    {
        match self {
            EngineKind::Pinyin => 4,
            _ => 5,
        }
    }

    /// How many tab-separated fields a `simple_tsv` row has.
    pub fn simple_tsv_col_count(&self) -> (r: usize)
        ensures
            r == simple_cols(*self),
    {
        self.library_col_count() - 1
    }
}

/// Rows parsed so far followed by what the rest gives.
pub open spec fn glue<A>(acc: Seq<A>, r: Result<Seq<A>, ErrView>) -> Result<Seq<A>, ErrView> {
    match r {
        Ok(rest) => Ok(acc + rest),
        Err(e) => Err(e),
    }
}

/// The `simple_tsv` rows of the lines `ls` of `b` from line `i`: each
/// line trimmed; blank and `#` lines skipped; code, word, the engine's
/// column (not for pinyin), frequency; the first bad line refuses the
/// whole input.
pub open spec fn simple_rows(b: Seq<u8>, ls: Seq<(int, int)>, i: int, eng: EngineKind) -> Result<Seq<RowView>, ErrView>
    decreases ls.len() - i,
{
    if i >= ls.len() || i < 0 {
        Ok(Seq::empty())
    } else {
        let st = trim_start_at(b, ls[i].0, ls[i].1);
        let en = trim_end_at(b, st, ls[i].1);
        if st == en || b[st] == 0x23 {
            simple_rows(b, ls, i + 1, eng)
        } else {
            let fs = fields_from(b, st, en);
            let fi: int = if eng == EngineKind::Pinyin {
                2
            } else {
                3
            };
            if fs.len() < simple_cols(eng) {
                Err((1u8, i + 1, simple_cols(eng) as int, fs.len() as int, Seq::empty()))
            } else {
                match parse_u32_at(b, fs[fi].0, fs[fi].1) {
                    None => Err((2u8, i + 1, 0, 0, b.subrange(fs[fi].0, fs[fi].1))),
                    Some(f) => glue(
                        seq![
                            (
                                b.subrange(fs[0].0, fs[0].1),
                                b.subrange(fs[1].0, fs[1].1),
                                if eng == EngineKind::Pinyin {
                                    None
                                } else {
                                    Some(b.subrange(fs[2].0, fs[2].1))
                                },
                                f,
                            ),
                        ],
                        simple_rows(b, ls, i + 1, eng),
                    ),
                }
            }
        }
    }
}

/// Rows an upstream parser produced, and how many it dropped.
#[derive(Debug, Clone)]
pub struct ParseResult {
    pub rows: Vec<IngestRow>,
    pub dropped: u64,
}

proof fn lemma_glue_assoc<A>(a: Seq<A>, x: Seq<A>, r: Result<Seq<A>, ErrView>)
    ensures
        glue(a, glue(x, r)) == glue(a + x, r),
{
    match r {
        Ok(rest) => {
            assert(a + (x + rest) =~= (a + x) + rest);
        },
        Err(_) => {},
    }
}

/// `simple_tsv`: each non-blank, non-`#` line is a library row without
/// its source column; nothing is dropped.
pub fn parse_simple_tsv(raw: &str, engine: EngineKind) -> (r: Result<ParseResult, IngestError>)
    ensures
        match simple_rows(raw.spec_bytes(), lines_from(raw.spec_bytes(), 0), 0, engine) {
            Ok(rows) => r matches Ok(p) && rows_view(p.rows@) == rows && p.dropped == 0,
            Err(e) => r matches Err(x) && err_view(x) == e,
        },
{
    let b = raw.as_bytes();
    let ghost bb = b@;
    let ls = line_ranges(b);
    let ghost lv = lines_from(bb, 0);
    proof {
        vstd::utf8::encode_utf8_valid_utf8(raw@);
        assert(bb.subrange(0, bb.len() as int) =~= bb);
        lemma_lines_from(bb, 0);
    }
    let want = engine.simple_tsv_col_count();
    let fi: usize = if engine == EngineKind::Pinyin {
        2
    } else {
        3
    };
    let mut rows: Vec<IngestRow> = Vec::new();
    let mut i: usize = 0;
    proof {
        assert(rows_view(rows@) =~= Seq::<RowView>::empty());
        assert(glue(Seq::<RowView>::empty(), simple_rows(bb, lv, 0, engine)) == simple_rows(bb, lv, 0, engine)) by {
            match simple_rows(bb, lv, 0, engine) {
                Ok(x) => {
                    assert(Seq::<RowView>::empty() + x =~= x);
                },
                Err(_) => {},
            }
        }
    }
    while i < ls.len()
        invariant
            bb == b@,
            bb == raw.spec_bytes(),
            valid_utf8(bb),
            lv == lines_from(bb, 0),
            ls@.len() == lv.len(),
            forall|k: int| 0 <= k < ls@.len() ==> (#[trigger] ls@[k]).0 == lv[k].0 && ls@[k].1 == lv[k].1,
            forall|k: int| 0 <= k < lv.len() ==> {
                let x = #[trigger] lv[k];
                &&& 0 <= x.0 <= x.1 <= bb.len()
                &&& vs(bb, x.0)
                &&& vs(bb, x.1)
            },
            want == simple_cols(engine),
            fi == (if engine == EngineKind::Pinyin { 2int } else { 3int }),
            i <= ls@.len(),
            simple_rows(bb, lv, 0, engine) == glue(rows_view(rows@), simple_rows(bb, lv, i as int, engine)),
        decreases ls@.len() - i,
    {
        let lo = ls[i].0;
        let hi = ls[i].1;
        assert(lv[i as int] == (lo as int, hi as int));
        let st = trim_start_pos(b, lo, hi);
        let en = trim_end_pos(b, st, hi);
        proof {
            lemma_vs_trim_start(bb, lo as int, hi as int);
            lemma_vs_trim_end(bb, st as int, hi as int);
        }
        if st == en || b[st] == 0x23 {
            i = i + 1;
            continue;
        }
        let fs = field_ranges(b, st, en);
        proof {
            lemma_fields_from(bb, st as int, en as int);
        }
        let ghost fv = fields_from(bb, st as int, en as int);
        if fs.len() < want {
            let e = IngestError::TsvColumns { line: i + 1, want, got: fs.len() };
            return Err(e);
        }
        assert(fv[fi as int] == (fs@[fi as int].0 as int, fs@[fi as int].1 as int));
        match parse_u32(b, fs[fi].0, fs[fi].1) {
            None => {
                let text = sub_string(b, fs[fi].0, fs[fi].1);
                return Err(IngestError::TsvFreq { line: i + 1, text });
            },
            Some(f) => {
                assert(fv[0] == (fs@[0].0 as int, fs@[0].1 as int));
                assert(fv[1] == (fs@[1].0 as int, fs@[1].1 as int));
                let code = sub_string(b, fs[0].0, fs[0].1);
                let word = sub_string(b, fs[1].0, fs[1].1);
                let extra = if engine == EngineKind::Pinyin {
                    None
                } else {
                    assert(fv[2] == (fs@[2].0 as int, fs@[2].1 as int));
                    Some(sub_string(b, fs[2].0, fs[2].1))
                };
                let row = IngestRow { code, word, extra, freq: f };
                let ghost before = rows_view(rows@);
                rows.push(row);
                proof {
                    assert(rows_view(rows@) =~= before + seq![row_view(row)]);
                    lemma_glue_assoc(before, seq![row_view(row)], simple_rows(bb, lv, i + 1, engine));
                }
            },
        }
        i = i + 1;
    }
    proof {
        match simple_rows(bb, lv, i as int, engine) {
            Ok(x) => {
                assert(x =~= Seq::<RowView>::empty());
                assert(rows_view(rows@) + x =~= rows_view(rows@));
            },
            Err(_) => {},
        }
    }
    Ok(ParseResult { rows, dropped: 0 })
}

} // verus!

verus! {

/// Line `k` belongs to the leading header: blank or `#`-led once
/// trailing whitespace is dropped.
pub open spec fn header_like(b: Seq<u8>, ls: Seq<(int, int)>, k: int) -> bool {
    let en = trim_end_at(b, ls[k].0, ls[k].1);
    en == ls[k].0 || b[ls[k].0] == 0x23
}

/// First line at or after `i` that is not header-like.
pub open spec fn header_end(b: Seq<u8>, ls: Seq<(int, int)>, i: int) -> int
    decreases ls.len() - i,
{
    if i >= ls.len() || i < 0 {
        ls.len() as int
    } else if header_like(b, ls, i) {
        header_end(b, ls, i + 1)
    } else {
        i
    }
}

pub proof fn lemma_header_end(b: Seq<u8>, ls: Seq<(int, int)>, i: int)
    requires
        0 <= i <= ls.len(),
    ensures
        i <= header_end(b, ls, i) <= ls.len(),
        i < ls.len() && header_like(b, ls, i) ==> header_end(b, ls, i) == header_end(b, ls, i + 1),
        i < ls.len() && !header_like(b, ls, i) ==> header_end(b, ls, i) == i,
    decreases ls.len() - i,
{
    if i < ls.len() && header_like(b, ls, i) {
        lemma_header_end(b, ls, i + 1);
    }
}

/// Lines `i..h`, each followed by `\n`.
pub open spec fn header_text(b: Seq<u8>, ls: Seq<(int, int)>, i: int, h: int) -> Seq<u8>
    decreases h - i,
{
    if i >= h || i < 0 {
        Seq::empty()
    } else {
        b.subrange(ls[i].0, ls[i].1) + seq![0x0Au8] + header_text(b, ls, i + 1, h)
    }
}

/// A library row as plain values (see `lib_view`).
pub type LibRowView = (Seq<u8>, Seq<u8>, Option<Seq<u8>>, u32, Seq<char>);

/// The library rows of the lines `ls` of `b` from line `i`: trailing
/// whitespace dropped; blank and `#` lines skipped; code, word, the
/// engine's column (not for pinyin), frequency, source (`digested` or
/// `polish`); the first bad line refuses the whole table.
pub open spec fn library_rows(b: Seq<u8>, ls: Seq<(int, int)>, i: int, eng: EngineKind) -> Result<Seq<LibRowView>, ErrView>
    decreases ls.len() - i,
{
    if i >= ls.len() || i < 0 {
        Ok(Seq::empty())
    } else {
        let lo = ls[i].0;
        let en = trim_end_at(b, lo, ls[i].1);
        if en == lo || b[lo] == 0x23 {
            library_rows(b, ls, i + 1, eng)
        } else {
            let fs = fields_from(b, lo, en);
            let fi: int = if eng == EngineKind::Pinyin {
                2
            } else {
                3
            };
            if fs.len() < library_cols(eng) {
                Err((3u8, i + 1, library_cols(eng) as int, fs.len() as int, Seq::empty()))
            } else {
                match parse_u32_at(b, fs[fi].0, fs[fi].1) {
                    None => Err((4u8, i + 1, 0, 0, b.subrange(fs[fi].0, fs[fi].1))),
                    Some(f) => {
                        let src = b.subrange(fs[fi + 1].0, fs[fi + 1].1);
                        if src != encode_utf8("digested"@) && src != encode_utf8("polish"@) {
                            Err((5u8, i + 1, 0, 0, src))
                        } else {
                            glue(
                                seq![
                                    (
                                        b.subrange(fs[0].0, fs[0].1),
                                        b.subrange(fs[1].0, fs[1].1),
                                        if eng == EngineKind::Pinyin {
                                            None
                                        } else {
                                            Some(b.subrange(fs[2].0, fs[2].1))
                                        },
                                        f,
                                        if src == encode_utf8("digested"@) {
                                            "digested"@
                                        } else {
                                            "polish"@
                                        },
                                    ),
                                ],
                                library_rows(b, ls, i + 1, eng),
                            )
                        }
                    },
                }
            }
        }
    }
}

/// A parsed library table: the leading header lines kept verbatim, and
/// the rows.
#[derive(Debug, Clone)]
pub struct ParsedLibrary {
    pub header: String,
    pub rows: Vec<LibraryRow>,
}

proof fn lemma_header_text_valid(b: Seq<u8>, ls: Seq<(int, int)>, i: int, h: int)
    requires
        forall|k: int| 0 <= k < ls.len() ==> {
            let x = #[trigger] ls[k];
            &&& 0 <= x.0 <= x.1 <= b.len()
            &&& vs(b, x.0)
            &&& vs(b, x.1)
        },
        h <= ls.len(),
    ensures
        valid_utf8(header_text(b, ls, i, h)),
    decreases h - i,
{
    if 0 <= i < h {
        let x = ls[i];
        crate::tsv::lemma_valid_between(b, x.0, x.1);
        lemma_header_text_valid(b, ls, i + 1, h);
        let nl = seq![0x0Au8];
        assert(valid_utf8(nl)) by {
            crate::text::lemma_ascii_valid_utf8(nl);
        }
        vstd::utf8::valid_utf8_concat(b.subrange(x.0, x.1), nl);
        vstd::utf8::valid_utf8_concat(b.subrange(x.0, x.1) + nl, header_text(b, ls, i + 1, h));
        assert(header_text(b, ls, i, h) == (b.subrange(x.0, x.1) + nl) + header_text(b, ls, i + 1, h));
    } else {
        assert(header_text(b, ls, i, h) =~= Seq::<u8>::empty());
    }
}

/// Whether the line `b[lo..hi]` is blank or `#`-led once trailing
/// whitespace is dropped.
fn header_line(b: &[u8], lo: usize, hi: usize) -> (r: bool)
    requires
        lo <= hi <= b@.len(),
    ensures
        r == (trim_end_at(b@, lo as int, hi as int) == lo || b@[lo as int] == 0x23),
{
    let en = trim_end_pos(b, lo, hi);
    en == lo || b[lo] == 0x23
}

/// The leading header lines of the lines `ls` of `b`, each followed by
/// `\n`, and the first line after them.
fn header_lines(b: &[u8], ls: &Vec<(usize, usize)>) -> (r: (Vec<u8>, usize))
    requires
        valid_utf8(b@),
        ls@.len() == lines_from(b@, 0).len(),
        forall|k: int| 0 <= k < ls@.len() ==> (#[trigger] ls@[k]).0 == lines_from(b@, 0)[k].0 && ls@[k].1 == lines_from(b@, 0)[k].1,
        forall|k: int| 0 <= k < lines_from(b@, 0).len() ==> {
            let x = #[trigger] lines_from(b@, 0)[k];
            &&& 0 <= x.0 <= x.1 <= b@.len()
            &&& vs(b@, x.0)
            &&& vs(b@, x.1)
        },
    ensures
        r.0@ == header_text(b@, lines_from(b@, 0), 0, header_end(b@, lines_from(b@, 0), 0)),
        r.1 == header_end(b@, lines_from(b@, 0), 0),
        r.1 <= ls@.len(),
        valid_utf8(r.0@),
{
    let ghost bb = b@;
    let ghost lv = lines_from(bb, 0);
    let ghost hend = header_end(bb, lv, 0);
    proof {
        lemma_header_end(bb, lv, 0);
        assert(header_text(bb, lv, 0, hend) =~= Seq::<u8>::empty() + header_text(bb, lv, 0, hend));
    }
    let mut head: Vec<u8> = Vec::new();
    let mut i: usize = 0;
    while i < ls.len() && header_line(b, ls[i].0, ls[i].1)
        invariant
            bb == b@,
            lv == lines_from(bb, 0),
            ls@.len() == lv.len(),
            forall|k: int| 0 <= k < ls@.len() ==> (#[trigger] ls@[k]).0 == lv[k].0 && ls@[k].1 == lv[k].1,
            forall|k: int| 0 <= k < lv.len() ==> {
                let x = #[trigger] lv[k];
                &&& 0 <= x.0 <= x.1 <= bb.len()
                &&& vs(bb, x.0)
                &&& vs(bb, x.1)
            },
            i <= ls@.len(),
            header_end(bb, lv, 0) == header_end(bb, lv, i as int),
            head@ + header_text(bb, lv, i as int, hend) == header_text(bb, lv, 0, hend),
            hend == header_end(bb, lv, 0),
            i <= hend,
        decreases ls@.len() - i,
    {
        let lo = ls[i].0;
        let hi = ls[i].1;
        assert(lv[i as int] == (lo as int, hi as int));
        proof {
            lemma_header_end(bb, lv, i as int);
            lemma_header_end(bb, lv, i + 1);
        }
        let ghost before = head@;
        let piece = crate::fsa::dict::copy_range(b, lo, hi);
        crate::ngram_build::append_bytes(&mut head, piece.as_slice());
        head.push(0x0A);
        proof {
            assert(header_end(bb, lv, i as int) == header_end(bb, lv, i + 1));
            assert(header_text(bb, lv, i as int, hend) == bb.subrange(lo as int, hi as int) + seq![0x0Au8] + header_text(
                bb,
                lv,
                i + 1,
                hend,
            ));
            assert(head@ =~= before + bb.subrange(lo as int, hi as int) + seq![0x0Au8]);
            assert(head@ + header_text(bb, lv, i + 1, hend) =~= before + header_text(bb, lv, i as int, hend));
        }
        i = i + 1;
    }
    proof {
        lemma_header_end(bb, lv, i as int);
        assert(i == hend);
        assert(header_text(bb, lv, i as int, hend) =~= Seq::<u8>::empty());
        assert(head@ =~= header_text(bb, lv, 0, hend));
        lemma_header_text_valid(bb, lv, 0, hend);
    }
    (head, i)
}

/// A library table: leading blank and `#` lines are its header, kept
/// verbatim; later blank and `#` lines are dropped; every other line
/// must be a full row with a `u32` frequency and a `digested` or
/// `polish` source.
#[verifier::rlimit(40)]
pub fn parse_library(raw: &str, engine: EngineKind) -> (r: Result<ParsedLibrary, IngestError>)
    ensures
        ({
            let b = raw.spec_bytes();
            let ls = lines_from(b, 0);
            let h = header_end(b, ls, 0);
            match library_rows(b, ls, h, engine) {
                Ok(rows) => r matches Ok(p) && sbytes(p.header) == header_text(b, ls, 0, h) && libs_view(p.rows@) == rows,
                Err(e) => r matches Err(x) && err_view(x) == e,
            }
        }),
{
    let b = raw.as_bytes();
    let ghost bb = b@;
    let ls = line_ranges(b);
    let ghost lv = lines_from(bb, 0);
    proof {
        vstd::utf8::encode_utf8_valid_utf8(raw@);
        assert(bb.subrange(0, bb.len() as int) =~= bb);
        lemma_lines_from(bb, 0);
    }
    let (head, hstart) = header_lines(b, &ls);
    let ghost hend = header_end(bb, lv, 0);
    let mut i: usize = hstart;
    let header = crate::text::string_or_empty(head.as_slice());
    let want = engine.library_col_count();
    let fi: usize = if engine == EngineKind::Pinyin {
        2
    } else {
        3
    };
    let mut rows: Vec<LibraryRow> = Vec::new();
    proof {
        assert(libs_view(rows@) =~= Seq::<LibRowView>::empty());
        match library_rows(bb, lv, i as int, engine) {
            Ok(x) => {
                assert(Seq::<LibRowView>::empty() + x =~= x);
            },
            Err(_) => {},
        }
    }
    let ghost start = i as int;
    while i < ls.len()
        invariant
            start == header_end(bb, lv, 0),
            bb == b@,
            bb == raw.spec_bytes(),
            valid_utf8(bb),
            lv == lines_from(bb, 0),
            ls@.len() == lv.len(),
            forall|k: int| 0 <= k < ls@.len() ==> (#[trigger] ls@[k]).0 == lv[k].0 && ls@[k].1 == lv[k].1,
            forall|k: int| 0 <= k < lv.len() ==> {
                let x = #[trigger] lv[k];
                &&& 0 <= x.0 <= x.1 <= bb.len()
                &&& vs(bb, x.0)
                &&& vs(bb, x.1)
            },
            want == library_cols(engine),
            fi == (if engine == EngineKind::Pinyin { 2int } else { 3int }),
            i <= ls@.len(),
            library_rows(bb, lv, start, engine) == glue(libs_view(rows@), library_rows(bb, lv, i as int, engine)),
        decreases ls@.len() - i,
    {
        let lo = ls[i].0;
        let hi = ls[i].1;
        assert(lv[i as int] == (lo as int, hi as int));
        let en = trim_end_pos(b, lo, hi);
        proof {
            lemma_vs_trim_end(bb, lo as int, hi as int);
        }
        if en == lo || b[lo] == 0x23 {
            i = i + 1;
            continue;
        }
        let fs = field_ranges(b, lo, en);
        proof {
            lemma_fields_from(bb, lo as int, en as int);
        }
        let ghost fv = fields_from(bb, lo as int, en as int);
        if fs.len() < want {
            return Err(IngestError::LibraryColumns { line: i + 1, want, got: fs.len() });
        }
        assert(fv[fi as int] == (fs@[fi as int].0 as int, fs@[fi as int].1 as int));
        assert(fv[fi + 1] == (fs@[fi + 1].0 as int, fs@[fi + 1].1 as int));
        match parse_u32(b, fs[fi].0, fs[fi].1) {
            None => {
                let text = sub_string(b, fs[fi].0, fs[fi].1);
                return Err(IngestError::LibraryFreq { line: i + 1, text });
            },
            Some(f) => {
                let src = crate::fsa::dict::copy_range(b, fs[fi + 1].0, fs[fi + 1].1);
                let is_dig = crate::text::bytes_eq(src.as_slice(), "digested".as_bytes());
                let is_pol = crate::text::bytes_eq(src.as_slice(), "polish".as_bytes());
                if !is_dig && !is_pol {
                    let source = sub_string(b, fs[fi + 1].0, fs[fi + 1].1);
                    return Err(IngestError::LibrarySource { line: i + 1, source });
                }
                assert(fv[0] == (fs@[0].0 as int, fs@[0].1 as int));
                assert(fv[1] == (fs@[1].0 as int, fs@[1].1 as int));
                let code = sub_string(b, fs[0].0, fs[0].1);
                let word = sub_string(b, fs[1].0, fs[1].1);
                let extra = if engine == EngineKind::Pinyin {
                    None
                } else {
                    assert(fv[2] == (fs@[2].0 as int, fs@[2].1 as int));
                    Some(sub_string(b, fs[2].0, fs[2].1))
                };
                let source = if is_dig {
                    crate::text::owned("digested")
                } else {
                    crate::text::owned("polish")
                };
                let row = LibraryRow { code, word, extra, freq: f, source };
                let ghost before = libs_view(rows@);
                rows.push(row);
                proof {
                    assert(libs_view(rows@) =~= before + seq![lib_view(row)]);
                    lemma_glue_assoc(before, seq![lib_view(row)], library_rows(bb, lv, i + 1, engine));
                }
            },
        }
        i = i + 1;
    }
    proof {
        match library_rows(bb, lv, i as int, engine) {
            Ok(x) => {
                assert(x =~= Seq::<LibRowView>::empty());
                assert(libs_view(rows@) + x =~= libs_view(rows@));
            },
            Err(_) => {},
        }
    }
    Ok(ParsedLibrary { header, rows })
}

/// The (code, word) pairs of the garbage filter's lines from `i`: each
/// line trimmed; blank and `#` lines skipped; lines with fewer than two
/// tab fields skipped; code and word each trimmed.
pub open spec fn garbage_pairs(b: Seq<u8>, ls: Seq<(int, int)>, i: int) -> Seq<(Seq<u8>, Seq<u8>)>
    decreases ls.len() - i,
{
    if i >= ls.len() || i < 0 {
        Seq::empty()
    } else {
        let st = trim_start_at(b, ls[i].0, ls[i].1);
        let en = trim_end_at(b, st, ls[i].1);
        if st == en || b[st] == 0x23 {
            garbage_pairs(b, ls, i + 1)
        } else {
            let fs = fields_from(b, st, en);
            if fs.len() < 2 {
                garbage_pairs(b, ls, i + 1)
            } else {
                seq![(crate::tsv::trimmed(b, fs[0].0, fs[0].1), crate::tsv::trimmed(b, fs[1].0, fs[1].1))] + garbage_pairs(
                    b,
                    ls,
                    i + 1,
                )
            }
        }
    }
}

/// Pairs of strings as plain values.
pub open spec fn pairs_view(g: Seq<(String, String)>) -> Seq<(Seq<u8>, Seq<u8>)> {
    g.map_values(|x: (String, String)| (sbytes(x.0), sbytes(x.1)))
}

/// The trimmed text of `b[lo..hi]`.
fn trimmed_field(b: &[u8], lo: usize, hi: usize) -> (r: String)
    requires
        lo <= hi <= b@.len(),
        valid_utf8(b@),
        vs(b@, lo as int),
        vs(b@, hi as int),
    ensures
        sbytes(r) == crate::tsv::trimmed(b@, lo as int, hi as int),
{
    let st = trim_start_pos(b, lo, hi);
    let en = trim_end_pos(b, st, hi);
    proof {
        lemma_vs_trim_start(b@, lo as int, hi as int);
        lemma_vs_trim_end(b@, st as int, hi as int);
    }
    sub_string(b, st, en)
}

/// The garbage filter: tab-separated (code, word) pairs, one per line.
pub fn parse_garbage(raw: &str) -> (r: Vec<(String, String)>)
    ensures
        pairs_view(r@) == garbage_pairs(raw.spec_bytes(), lines_from(raw.spec_bytes(), 0), 0),
{
    let b = raw.as_bytes();
    let ghost bb = b@;
    let ls = line_ranges(b);
    let ghost lv = lines_from(bb, 0);
    proof {
        vstd::utf8::encode_utf8_valid_utf8(raw@);
        assert(bb.subrange(0, bb.len() as int) =~= bb);
        lemma_lines_from(bb, 0);
    }
    let mut out: Vec<(String, String)> = Vec::new();
    let mut i: usize = 0;
    proof {
        assert(pairs_view(out@) + garbage_pairs(bb, lv, 0) =~= garbage_pairs(bb, lv, 0));
    }
    while i < ls.len()
        invariant
            bb == b@,
            valid_utf8(bb),
            lv == lines_from(bb, 0),
            ls@.len() == lv.len(),
            forall|k: int| 0 <= k < ls@.len() ==> (#[trigger] ls@[k]).0 == lv[k].0 && ls@[k].1 == lv[k].1,
            forall|k: int| 0 <= k < lv.len() ==> {
                let x = #[trigger] lv[k];
                &&& 0 <= x.0 <= x.1 <= bb.len()
                &&& vs(bb, x.0)
                &&& vs(bb, x.1)
            },
            i <= ls@.len(),
            pairs_view(out@) + garbage_pairs(bb, lv, i as int) == garbage_pairs(bb, lv, 0),
        decreases ls@.len() - i,
    {
        let lo = ls[i].0;
        let hi = ls[i].1;
        assert(lv[i as int] == (lo as int, hi as int));
        let st = trim_start_pos(b, lo, hi);
        let en = trim_end_pos(b, st, hi);
        proof {
            lemma_vs_trim_start(bb, lo as int, hi as int);
            lemma_vs_trim_end(bb, st as int, hi as int);
        }
        if st == en || b[st] == 0x23 {
            i = i + 1;
            continue;
        }
        let fs = field_ranges(b, st, en);
        proof {
            lemma_fields_from(bb, st as int, en as int);
        }
        let ghost fv = fields_from(bb, st as int, en as int);
        if fs.len() < 2 {
            i = i + 1;
            continue;
        }
        assert(fv[0] == (fs@[0].0 as int, fs@[0].1 as int));
        assert(fv[1] == (fs@[1].0 as int, fs@[1].1 as int));
        let code = trimmed_field(b, fs[0].0, fs[0].1);
        let word = trimmed_field(b, fs[1].0, fs[1].1);
        let ghost before = pairs_view(out@);
        out.push((code, word));
        proof {
            let x = (crate::tsv::trimmed(bb, fv[0].0, fv[0].1), crate::tsv::trimmed(bb, fv[1].0, fv[1].1));
            assert(pairs_view(out@) =~= before.push(x));
            assert(garbage_pairs(bb, lv, i as int) == seq![x] + garbage_pairs(bb, lv, i + 1));
            assert(before.push(x) + garbage_pairs(bb, lv, i + 1) =~= before + (seq![x] + garbage_pairs(bb, lv, i + 1)));
        }
        i = i + 1;
    }
    proof {
        assert(garbage_pairs(bb, lv, i as int) =~= Seq::<(Seq<u8>, Seq<u8>)>::empty());
        assert(pairs_view(out@) + garbage_pairs(bb, lv, i as int) =~= pairs_view(out@));
    }
    out
}

/// An optional field trimmed.
pub open spec fn trim_opt(e: Option<Seq<u8>>) -> Option<Seq<u8>> {
    match e {
        Some(x) => Some(trim_bytes(x)),
        None => None,
    }
}

/// STAGE 3: every field trimmed; rows with an empty code or word
/// dropped.
pub open spec fn normalized(t: Seq<RowView>) -> Seq<RowView>
    decreases t.len(),
{
    if t.len() == 0 {
        Seq::empty()
    } else {
        let x = t.last();
        let c = trim_bytes(x.0);
        let w = trim_bytes(x.1);
        if c.len() > 0 && w.len() > 0 {
            normalized(t.drop_last()).push((c, w, trim_opt(x.2), x.3))
        } else {
            normalized(t.drop_last())
        }
    }
}

/// STAGE 3: trim every field; drop rows left with an empty code or
/// word.
pub fn normalize(rows: &Vec<IngestRow>) -> (r: Vec<IngestRow>)
    ensures
        rows_view(r@) == normalized(rows_view(rows@)),
{
    let ghost t = rows_view(rows@);
    let mut out: Vec<IngestRow> = Vec::new();
    let mut i: usize = 0;
    while i < rows.len()
        invariant
            t == rows_view(rows@),
            i <= rows@.len(),
            rows_view(out@) == normalized(t.take(i as int)),
        decreases rows@.len() - i,
    {
        proof {
            assert(t.take(i + 1).drop_last() =~= t.take(i as int));
            assert(t.take(i + 1).last() == row_view(rows@[i as int]));
        }
        let cs = rows[i].code.as_str();
        let ws = rows[i].word.as_str();
        assert(cs.spec_bytes() == sbytes(rows@[i as int].code));
        assert(ws.spec_bytes() == sbytes(rows@[i as int].word));
        let c = trim_string(cs);
        let w = trim_string(ws);
        let e = match &rows[i].extra {
            Some(x) => {
                let xs = x.as_str();
                assert(xs.spec_bytes() == sbytes(*x));
                Some(trim_string(xs))
            },
            None => None,
        };
        assert(opt_bytes(e) == trim_opt(opt_bytes(rows@[i as int].extra)));
        let cl = c.as_str().as_bytes().len();
        let wl = w.as_str().as_bytes().len();
        assert(cl == sbytes(c).len());
        assert(wl == sbytes(w).len());
        proof {
            let x = t.take(i + 1).last();
            assert(x == row_view(rows@[i as int]));
            assert(sbytes(c) == trim_bytes(x.0));
            assert(sbytes(w) == trim_bytes(x.1));
        }
        if cl > 0 && wl > 0 {
            let row = IngestRow { code: c, word: w, extra: e, freq: rows[i].freq };
            let ghost before = rows_view(out@);
            out.push(row);
            proof {
                assert(rows_view(out@) =~= before.push(row_view(row)));
            }
        }
        i = i + 1;
    }
    assert(t.take(i as int) =~= t);
    out
}

/// `(c, w)` is among the garbage pairs.
pub open spec fn in_garbage(g: Seq<(Seq<u8>, Seq<u8>)>, c: Seq<u8>, w: Seq<u8>) -> bool {
    exists|j: int| 0 <= j < g.len() && (#[trigger] g[j]).0 == c && g[j].1 == w
}

/// The rows of `t` whose code and word are not garbage.
pub open spec fn clean(t: Seq<RowView>, g: Seq<(Seq<u8>, Seq<u8>)>) -> Seq<RowView>
    decreases t.len(),
{
    if t.len() == 0 {
        Seq::empty()
    } else if in_garbage(g, t.last().0, t.last().1) {
        clean(t.drop_last(), g)
    } else {
        clean(t.drop_last(), g).push(t.last())
    }
}

/// The garbage filter drops a row only for a pair with both its code and
/// its word: a row that no pair matches on both stays, and every row
/// that stays is a row of `t` that no pair matches on both.
pub proof fn lemma_clean_matches_both(t: Seq<RowView>, g: Seq<(Seq<u8>, Seq<u8>)>)
    ensures
        forall|i: int|
            0 <= i < t.len() && (forall|j: int| 0 <= j < g.len() ==> !((#[trigger] g[j]).0 == t[i].0 && g[j].1 == t[i].1))
                ==> clean(t, g).contains(#[trigger] t[i]),
        forall|x: RowView|
            #[trigger] clean(t, g).contains(x) ==> t.contains(x) && (forall|j: int|
                0 <= j < g.len() ==> !((#[trigger] g[j]).0 == x.0 && g[j].1 == x.1)),
    decreases t.len(),
{
    if t.len() > 0 {
        let s = t.drop_last();
        let last = t.last();
        lemma_clean_matches_both(s, g);
        assert forall|i: int|
            0 <= i < t.len() && (forall|j: int| 0 <= j < g.len() ==> !((#[trigger] g[j]).0 == t[i].0 && g[j].1 == t[i].1))
                implies clean(t, g).contains(#[trigger] t[i]) by {
            if i < t.len() - 1 {
                assert(s[i] == t[i]);
                let k = choose|k: int| 0 <= k < clean(s, g).len() && clean(s, g)[k] == s[i];
                if !in_garbage(g, last.0, last.1) {
                    assert(clean(t, g)[k] == t[i]);
                }
            } else {
                assert(!in_garbage(g, last.0, last.1));
                assert(clean(t, g)[clean(s, g).len() as int] == t[i]);
            }
        }
        assert forall|x: RowView| #[trigger] clean(t, g).contains(x) implies t.contains(x) && (forall|j: int|
            0 <= j < g.len() ==> !((#[trigger] g[j]).0 == x.0 && g[j].1 == x.1)) by {
            let k = choose|k: int| 0 <= k < clean(t, g).len() && clean(t, g)[k] == x;
            if in_garbage(g, last.0, last.1) || k < clean(s, g).len() {
                assert(clean(s, g)[k] == x);
                assert(clean(s, g).contains(x));
                let m = choose|m: int| 0 <= m < s.len() && s[m] == x;
                assert(t[m] == x);
            } else {
                assert(x == last);
                assert(t[t.len() - 1] == x);
            }
        }
    }
}

/// The rows that stay are the rows of `t`, in their order, that no
/// garbage pair matches on both code and word.
pub proof fn lemma_clean_is_filter(t: Seq<RowView>, g: Seq<(Seq<u8>, Seq<u8>)>)
    ensures
        clean(t, g) == t.filter(
            |x: RowView| forall|j: int| 0 <= j < g.len() ==> !((#[trigger] g[j]).0 == x.0 && g[j].1 == x.1),
        ),
    decreases t.len(),
{
    reveal(Seq::filter);
    let pred = |x: RowView| forall|j: int| 0 <= j < g.len() ==> !((#[trigger] g[j]).0 == x.0 && g[j].1 == x.1);
    if t.len() > 0 {
        lemma_clean_is_filter(t.drop_last(), g);
        assert(in_garbage(g, t.last().0, t.last().1) <==> !pred(t.last()));
    }
}

/// STAGE 5: drop the rows whose code and word are a garbage pair;
/// also how many were dropped.
pub fn drop_garbage(rows: &Vec<IngestRow>, garbage: &Vec<(String, String)>) -> (r: (Vec<IngestRow>, u64))
    ensures
        rows_view(r.0@) == clean(rows_view(rows@), pairs_view(garbage@)),
        rows_view(r.0@) == rows_view(rows@).filter(
            |x: RowView| forall|j: int| 0 <= j < garbage@.len() ==> !((#[trigger] pairs_view(garbage@)[j]).0 == x.0 && pairs_view(garbage@)[j].1 == x.1),
        ),
        r.1 == rows@.len() - r.0@.len(),
        forall|i: int|
            0 <= i < rows@.len() && (forall|j: int|
                0 <= j < garbage@.len() ==> !((#[trigger] pairs_view(garbage@)[j]).0 == sbytes(rows@[i].code)
                    && pairs_view(garbage@)[j].1 == sbytes(rows@[i].word)))
                ==> rows_view(r.0@).contains(#[trigger] row_view(rows@[i])),
        forall|x: RowView| #[trigger] rows_view(r.0@).contains(x) ==> rows_view(rows@).contains(x) && (forall|j: int|
            0 <= j < garbage@.len() ==> !((#[trigger] pairs_view(garbage@)[j]).0 == x.0 && pairs_view(garbage@)[j].1 == x.1)),
{
    let ghost t = rows_view(rows@);
    let ghost g = pairs_view(garbage@);
    let mut out: Vec<IngestRow> = Vec::new();
    let mut dropped: u64 = 0;
    let mut i: usize = 0;
    while i < rows.len()
        invariant
            t == rows_view(rows@),
            g == pairs_view(garbage@),
            i <= rows@.len(),
            rows_view(out@) == clean(t.take(i as int), g),
            dropped == i - out@.len(),
            out@.len() <= i,
        decreases rows@.len() - i,
    {
        proof {
            assert(t.take(i + 1).drop_last() =~= t.take(i as int));
            assert(t.take(i + 1).last() == row_view(rows@[i as int]));
        }
        let mut hit = false;
        let mut j: usize = 0;
        while j < garbage.len()
            invariant
                t == rows_view(rows@),
                g == pairs_view(garbage@),
                i < rows@.len(),
                j <= garbage@.len(),
                hit == exists|k: int| 0 <= k < j && (#[trigger] g[k]).0 == t[i as int].0 && g[k].1 == t[i as int].1,
            decreases garbage@.len() - j,
        {
            if str_eq(garbage[j].0.as_str(), rows[i].code.as_str()) && str_eq(garbage[j].1.as_str(), rows[i].word.as_str()) {
                proof {
                    vstd::utf8::encode_utf8_decode_utf8(garbage@[j as int].0@);
                    assert(g[j as int].0 == t[i as int].0 && g[j as int].1 == t[i as int].1);
                }
                hit = true;
            } else {
                proof {
                    if g[j as int].0 == t[i as int].0 && g[j as int].1 == t[i as int].1 {
                        vstd::utf8::encode_utf8_decode_utf8(garbage@[j as int].0@);
                        vstd::utf8::encode_utf8_decode_utf8(garbage@[j as int].1@);
                        vstd::utf8::encode_utf8_decode_utf8(rows@[i as int].code@);
                        vstd::utf8::encode_utf8_decode_utf8(rows@[i as int].word@);
                    }
                }
            }
            j = j + 1;
        }
        if hit {
            dropped = dropped + 1;
        } else {
            let row = IngestRow {
                code: rows[i].code.clone(),
                word: rows[i].word.clone(),
                extra: crate::ingest::copy_opt(&rows[i].extra),
                freq: rows[i].freq,
            };
            let ghost before = rows_view(out@);
            out.push(row);
            proof {
                assert(rows_view(out@) =~= before.push(t[i as int]));
            }
        }
        i = i + 1;
    }
    assert(t.take(i as int) =~= t);
    proof {
        lemma_clean_matches_both(t, g);
        lemma_clean_is_filter(t, g);
        assert forall|k: int| 0 <= k < rows@.len() implies #[trigger] row_view(rows@[k]) == t[k] by {}
    }
    (out, dropped)
}

} // verus!
