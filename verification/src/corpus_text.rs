//! Text the corpus tool writes: decimal numbers, lowercase hex digests,
//! TOML string literals and library table lines.

use vstd::prelude::*;
use vstd::string::StringSliceAdditionalSpecFns;
use vstd::utf8::{encode_utf8, valid_utf8};

use crate::ingest::{lib_view, opt_bytes, LibraryRow};
use crate::ingest_parse::{EngineKind, IngestError};
use crate::ngram_build::append_bytes;
use crate::text::{is_ascii_bytes, lemma_ascii_valid_utf8, sbytes, string_or_empty};

verus! {

/// Decimal digits of `n`.
pub open spec fn dec_digits(n: nat) -> Seq<u8>
    decreases n,
{
    if n < 10 {
        seq![(0x30 + n) as u8]
    } else {
        dec_digits(n / 10).push((0x30 + n % 10) as u8)
    }
}

proof fn lemma_dec_ascii(n: nat)
    ensures
        is_ascii_bytes(dec_digits(n)),
    decreases n,
{
    if n >= 10 {
        lemma_dec_ascii(n / 10);
    }
}

fn push_decimal(out: &mut Vec<u8>, n: u64)
    ensures
        final(out)@ == old(out)@ + dec_digits(n as nat),
    decreases n,
{
    if n >= 10 {
        push_decimal(out, n / 10);
    }
    out.push(0x30 + (n % 10) as u8);
    proof {
        if n >= 10 {
            assert(dec_digits(n as nat) == dec_digits((n / 10) as nat).push((0x30 + n % 10) as u8));
        }
    }
}

/// `n` in decimal.
pub fn decimal(n: u64) -> (r: String)
    ensures
        sbytes(r) == dec_digits(n as nat),
{
    let mut v: Vec<u8> = Vec::new();
    push_decimal(&mut v, n);
    proof {
        assert(v@ =~= dec_digits(n as nat));
        lemma_dec_ascii(n as nat);
        lemma_ascii_valid_utf8(v@);
    }
    string_or_empty(v.as_slice())
}

/// A lowercase hex digit.
pub open spec fn hex_digit(x: u8) -> u8 {
    if x < 10 {
        (0x30 + x) as u8
    } else {
        (0x61 + x - 10) as u8
    }
}

/// Two lowercase hex digits per byte.
pub open spec fn hex_bytes(b: Seq<u8>) -> Seq<u8>
    decreases b.len(),
{
    if b.len() == 0 {
        Seq::empty()
    } else {
        hex_bytes(b.drop_last()) + seq![hex_digit(b.last() / 16), hex_digit(b.last() % 16)]
    }
}

fn hex_digit_exec(x: u8) -> (r: u8)
    requires
        x < 16,
    ensures
        r == hex_digit(x),
{
    if x < 10 {
        0x30 + x
    } else {
        0x61 + x - 10
    }
}

/// Lowercase hex of `bytes`, two digits a byte.
pub fn hex_encode(bytes: &[u8]) -> (r: String)
    ensures
        sbytes(r) == hex_bytes(bytes@),
{
    let mut v: Vec<u8> = Vec::new();
    let mut i: usize = 0;
    while i < bytes.len()
        invariant
            i <= bytes@.len(),
            v@ == hex_bytes(bytes@.take(i as int)),
            is_ascii_bytes(v@),
        decreases bytes@.len() - i,
    {
        let x = bytes[i];
        v.push(hex_digit_exec(x / 16));
        v.push(hex_digit_exec(x % 16));
        proof {
            assert(bytes@.take(i + 1).drop_last() =~= bytes@.take(i as int));
            assert(bytes@.take(i + 1).last() == x);
            assert(v@ =~= hex_bytes(bytes@.take(i + 1)));
        }
        i = i + 1;
    }
    proof {
        assert(bytes@.take(i as int) =~= bytes@);
        lemma_ascii_valid_utf8(v@);
    }
    string_or_empty(v.as_slice())
}

/// An uppercase hex digit.
pub open spec fn hex_upper(x: u8) -> u8 {
    if x < 10 {
        (0x30 + x) as u8
    } else {
        (0x41 + x - 10) as u8
    }
}

/// A byte inside a TOML basic string: backslash, quote, newline,
/// carriage return and tab escaped by name, other control bytes as
/// `\uXXXX`, the rest as is.
pub open spec fn esc_byte(x: u8) -> Seq<u8> {
    if x == 0x5C {
        seq![0x5Cu8, 0x5Cu8]
    } else if x == 0x22 {
        seq![0x5Cu8, 0x22u8]
    } else if x == 0x0A {
        seq![0x5Cu8, 0x6Eu8]
    } else if x == 0x0D {
        seq![0x5Cu8, 0x72u8]
    } else if x == 0x09 {
        seq![0x5Cu8, 0x74u8]
    } else if x < 0x20 {
        seq![0x5Cu8, 0x75u8, 0x30u8, 0x30u8, hex_upper(x / 16), hex_upper(x % 16)]
    } else {
        seq![x]
    }
}

/// A byte in the fallback basic form of a multi-line string: only
/// backslash, quote and newline escaped.
pub open spec fn esc3_byte(x: u8) -> Seq<u8> {
    if x == 0x5C {
        seq![0x5Cu8, 0x5Cu8]
    } else if x == 0x22 {
        seq![0x5Cu8, 0x22u8]
    } else if x == 0x0A {
        seq![0x5Cu8, 0x6Eu8]
    } else {
        seq![x]
    }
}

/// Every byte of `b` mapped by `f`, concatenated.
pub open spec fn esc_all(b: Seq<u8>, full: bool) -> Seq<u8>
    decreases b.len(),
{
    if b.len() == 0 {
        Seq::empty()
    } else {
        esc_all(b.drop_last(), full) + if full {
            esc_byte(b.last())
        } else {
            esc3_byte(b.last())
        }
    }
}

/// `b` holds byte `x`.
pub open spec fn has_byte(b: Seq<u8>, x: u8) -> bool {
    exists|i: int| 0 <= i < b.len() && b[i] == x
}

/// `b` holds three quotes in a row.
pub open spec fn has_triple_quote(b: Seq<u8>) -> bool {
    exists|i: int| 0 <= i && i + 2 < b.len() && #[trigger] b[i] == 0x22 && b[i + 1] == 0x22 && b[i + 2] == 0x22
}

/// `"""` then a newline.
pub open spec fn triple_open() -> Seq<u8> {
    seq![0x22u8, 0x22u8, 0x22u8, 0x0Au8]
}

/// The TOML multi-line literal for `b`: `"""`, newline, the text, a
/// newline unless it ends with one, `"""`; when the text holds `"""`,
/// a basic string with backslash, quote and newline escaped instead.
pub open spec fn toml_multi_bytes(b: Seq<u8>) -> Seq<u8> {
    if has_triple_quote(b) {
        seq![0x22u8] + esc_all(b, false) + seq![0x22u8]
    } else {
        triple_open() + b + (if b.len() > 0 && b.last() == 0x0A {
            Seq::empty()
        } else {
            seq![0x0Au8]
        }) + seq![0x22u8, 0x22u8, 0x22u8]
    }
}

/// The TOML literal for `b`: multi-line when it holds a newline, a
/// basic string otherwise.
pub open spec fn toml_str_bytes(b: Seq<u8>) -> Seq<u8> {
    if has_byte(b, 0x0A) {
        toml_multi_bytes(b)
    } else {
        seq![0x22u8] + esc_all(b, true) + seq![0x22u8]
    }
}

pub proof fn lemma_esc_concat(a: Seq<u8>, c: Seq<u8>, full: bool)
    ensures
        esc_all(a + c, full) == esc_all(a, full) + esc_all(c, full),
    decreases c.len(),
{
    if c.len() == 0 {
        assert(a + c =~= a);
        assert(esc_all(a, full) + esc_all(c, full) =~= esc_all(a, full));
    } else {
        lemma_esc_concat(a, c.drop_last(), full);
        assert((a + c).drop_last() =~= a + c.drop_last());
        assert((a + c).last() == c.last());
        assert(esc_all(a + c, full) =~= esc_all(a, full) + esc_all(c, full));
    }
}

proof fn lemma_esc_high(b: Seq<u8>, full: bool)
    requires
        forall|i: int| 0 <= i < b.len() ==> b[i] >= 0x80,
    ensures
        esc_all(b, full) == b,
    decreases b.len(),
{
    if b.len() > 0 {
        lemma_esc_high(b.drop_last(), full);
        assert(b.drop_last() + seq![b.last()] =~= b);
    } else {
        assert(esc_all(b, full) =~= b);
    }
}

proof fn lemma_esc_ascii(b: Seq<u8>, full: bool)
    requires
        is_ascii_bytes(b),
    ensures
        is_ascii_bytes(esc_all(b, full)),
    decreases b.len(),
{
    if b.len() > 0 {
        lemma_esc_ascii(b.drop_last(), full);
        let e = esc_all(b.drop_last(), full);
        let x = b.last();
        assert(x == b[b.len() - 1]);
        let t = if full {
            esc_byte(x)
        } else {
            esc3_byte(x)
        };
        assert(is_ascii_bytes(t));
        assert(esc_all(b, full) == e + t);
    }
}

/// Escaping keeps UTF-8 valid: it only touches ASCII bytes, and puts
/// ASCII in their place.
pub proof fn lemma_esc_valid(b: Seq<u8>, full: bool)
    requires
        valid_utf8(b),
    ensures
        valid_utf8(esc_all(b, full)),
    decreases b.len(),
{
    if b.len() > 0 {
        let k = vstd::utf8::length_of_first_scalar(b);
        let head = b.subrange(0, k);
        let tail = b.subrange(k, b.len() as int);
        assert(tail == vstd::utf8::pop_first_scalar(b));
        lemma_esc_valid(tail, full);
        assert(b =~= head + tail);
        lemma_esc_concat(head, tail, full);
        if k == 1 {
            assert(is_ascii_bytes(head));
            lemma_esc_ascii(head, full);
            lemma_ascii_valid_utf8(esc_all(head, full));
        } else {
            assert(forall|i: int| 0 <= i < head.len() ==> head[i] >= 0x80);
            lemma_esc_high(head, full);
            assert(vstd::utf8::is_char_boundary(b, k)) by {
                reveal_with_fuel(vstd::utf8::is_char_boundary, 2);
            }
            vstd::utf8::valid_utf8_split(b, k);
        }
        vstd::utf8::valid_utf8_concat(esc_all(head, full), esc_all(tail, full));
    }
}

fn push_esc(out: &mut Vec<u8>, x: u8, full: bool)
    ensures
        final(out)@ == old(out)@ + if full {
            esc_byte(x)
        } else {
            esc3_byte(x)
        },
{
    let ghost before = out@;
    if x == 0x5C {
        out.push(0x5C);
        out.push(0x5C);
    } else if x == 0x22 {
        out.push(0x5C);
        out.push(0x22);
    } else if x == 0x0A {
        out.push(0x5C);
        out.push(0x6E);
    } else if full && x == 0x0D {
        out.push(0x5C);
        out.push(0x72);
    } else if full && x == 0x09 {
        out.push(0x5C);
        out.push(0x74);
    } else if full && x < 0x20 {
        out.push(0x5C);
        out.push(0x75);
        out.push(0x30);
        out.push(0x30);
        let hi = x / 16;
        let lo = x % 16;
        out.push(if hi < 10 { 0x30 + hi } else { 0x41 + hi - 10 });
        out.push(if lo < 10 { 0x30 + lo } else { 0x41 + lo - 10 });
    } else {
        out.push(x);
    }
    proof {
        let t = if full {
            esc_byte(x)
        } else {
            esc3_byte(x)
        };
        assert(out@ =~= before + t);
    }
}

fn escaped(b: &[u8], full: bool) -> (r: Vec<u8>)
    ensures
        r@ == esc_all(b@, full),
{
    let mut v: Vec<u8> = Vec::new();
    let mut i: usize = 0;
    while i < b.len()
        invariant
            i <= b@.len(),
            v@ == esc_all(b@.take(i as int), full),
        decreases b@.len() - i,
    {
        push_esc(&mut v, b[i], full);
        proof {
            assert(b@.take(i + 1).drop_last() =~= b@.take(i as int));
            assert(b@.take(i + 1).last() == b@[i as int]);
        }
        i = i + 1;
    }
    assert(b@.take(i as int) =~= b@);
    v
}

fn find_byte(b: &[u8], x: u8) -> (r: bool)
    ensures
        r == has_byte(b@, x),
{
    let mut i: usize = 0;
    while i < b.len()
        invariant
            i <= b@.len(),
            forall|j: int| 0 <= j < i ==> b@[j] != x,
        decreases b@.len() - i,
    {
        if b[i] == x {
            return true;
        }
        i = i + 1;
    }
    false
}

fn find_triple_quote(b: &[u8]) -> (r: bool)
    ensures
        r == has_triple_quote(b@),
{
    if b.len() < 3 {
        return false;
    }
    let mut i: usize = 0;
    while i < b.len() - 2
        invariant
            b@.len() >= 3,
            forall|j: int| 0 <= j < i && j + 2 < b@.len() ==> !(#[trigger] b@[j] == 0x22 && b@[j + 1] == 0x22 && b@[j + 2] == 0x22),
        decreases b@.len() - i,
    {
        if b[i] == 0x22 && b[i + 1] == 0x22 && b[i + 2] == 0x22 {
            return true;
        }
        i = i + 1;
    }
    false
}

/// Quote `s` as a TOML multi-line string.
pub fn toml_multiline(s: &str) -> (r: String)
    ensures
        sbytes(r) == toml_multi_bytes(s.spec_bytes()),
{
    let b = s.as_bytes();
    proof {
        vstd::utf8::encode_utf8_valid_utf8(s@);
    }
    let ghost q = seq![0x22u8];
    let mut v: Vec<u8> = Vec::new();
    if find_triple_quote(b) {
        v.push(0x22);
        let e = escaped(b, false);
        append_bytes(&mut v, e.as_slice());
        v.push(0x22);
        proof {
            assert(v@ =~= q + esc_all(b@, false) + q);
            lemma_esc_valid(b@, false);
            lemma_ascii_valid_utf8(q);
            vstd::utf8::valid_utf8_concat(q, esc_all(b@, false));
            vstd::utf8::valid_utf8_concat(q + esc_all(b@, false), q);
        }
    } else {
        v.push(0x22);
        v.push(0x22);
        v.push(0x22);
        v.push(0x0A);
        append_bytes(&mut v, b);
        let nl = b.len() > 0 && b[b.len() - 1] == 0x0A;
        if !nl {
            v.push(0x0A);
        }
        v.push(0x22);
        v.push(0x22);
        v.push(0x22);
        proof {
            let tail: Seq<u8> = if nl {
                Seq::empty()
            } else {
                seq![0x0Au8]
            };
            let close = seq![0x22u8, 0x22u8, 0x22u8];
            assert(v@ =~= triple_open() + b@ + tail + close);
            lemma_ascii_valid_utf8(triple_open());
            lemma_ascii_valid_utf8(tail);
            lemma_ascii_valid_utf8(close);
            vstd::utf8::valid_utf8_concat(triple_open(), b@);
            vstd::utf8::valid_utf8_concat(triple_open() + b@, tail);
            vstd::utf8::valid_utf8_concat(triple_open() + b@ + tail, close);
        }
    }
    string_or_empty(v.as_slice())
}

/// Quote `s` as a TOML string: a multi-line string when it holds a
/// newline, otherwise a basic string with `\`, `"`, control characters
/// escaped.
pub fn toml_str(s: &str) -> (r: String)
    ensures
        sbytes(r) == toml_str_bytes(s.spec_bytes()),
{
    let b = s.as_bytes();
    if find_byte(b, 0x0A) {
        return toml_multiline(s);
    }
    proof {
        vstd::utf8::encode_utf8_valid_utf8(s@);
    }
    let ghost q = seq![0x22u8];
    let mut v: Vec<u8> = Vec::new();
    v.push(0x22);
    let e = escaped(b, true);
    append_bytes(&mut v, e.as_slice());
    v.push(0x22);
    proof {
        assert(v@ =~= q + esc_all(b@, true) + q);
        lemma_esc_valid(b@, true);
        lemma_ascii_valid_utf8(q);
        vstd::utf8::valid_utf8_concat(q, esc_all(b@, true));
        vstd::utf8::valid_utf8_concat(q + esc_all(b@, true), q);
    }
    string_or_empty(v.as_slice())
}

/// The library table line for a row: code, word, the engine's column
/// (wubi and nihongo only), frequency, source, tab-separated, then a
/// newline.
pub open spec fn library_line_bytes(x: (Seq<u8>, Seq<u8>, Option<Seq<u8>>, u32, Seq<char>)) -> Seq<u8> {
    let ghost tab = seq![0x09u8];
    let head = x.0 + tab + x.1 + tab;
    let mid = match x.2 {
        Some(e) => e + tab,
        None => Seq::empty(),
    };
    head + mid + dec_digits(x.3 as nat) + tab + encode_utf8(x.4) + seq![0x0Au8]
}

/// The row's extra column matches the engine: none for pinyin, one for
/// wubi and nihongo.
pub open spec fn row_fits(x: (Seq<u8>, Seq<u8>, Option<Seq<u8>>, u32, Seq<char>), e: EngineKind) -> bool {
    (x.2 is None) == (e == EngineKind::Pinyin)
}

/// The library table line for `row`; `Err` when its extra column does
/// not match the engine.
pub fn library_line(row: &LibraryRow, engine: EngineKind) -> (r: Result<String, IngestError>)
    ensures
        row_fits(lib_view(*row), engine) ==> (r matches Ok(s) && sbytes(s) == library_line_bytes(lib_view(*row))),
        !row_fits(lib_view(*row), engine) ==> (r matches Err(IngestError::RowShape { extra, engine: k }) && opt_bytes(extra)
            == opt_bytes(row.extra) && k == engine),
{
    let pinyin = engine == EngineKind::Pinyin;
    if row.extra.is_some() == pinyin {
        let extra = crate::ingest::copy_opt(&row.extra);
        return Err(IngestError::RowShape { extra, engine });
    }
    let ghost tab = seq![0x09u8];
    let mut v: Vec<u8> = Vec::new();
    append_bytes(&mut v, row.code.as_str().as_bytes());
    v.push(0x09);
    append_bytes(&mut v, row.word.as_str().as_bytes());
    v.push(0x09);
    let ghost head = v@;
    match &row.extra {
        Some(e) => {
            append_bytes(&mut v, e.as_str().as_bytes());
            v.push(0x09);
        },
        None => {},
    }
    let ghost mid_end = v@;
    let num = decimal(row.freq as u64);
    append_bytes(&mut v, num.as_str().as_bytes());
    v.push(0x09);
    append_bytes(&mut v, row.source.as_str().as_bytes());
    v.push(0x0A);
    proof {
        let x = lib_view(*row);
        assert(v@ =~= library_line_bytes(x));
        vstd::utf8::encode_utf8_valid_utf8(row.code@);
        vstd::utf8::encode_utf8_valid_utf8(row.word@);
        vstd::utf8::encode_utf8_valid_utf8(row.source@);
        lemma_dec_ascii(row.freq as nat);
        lemma_ascii_valid_utf8(dec_digits(row.freq as nat));
        lemma_ascii_valid_utf8(tab);
        lemma_ascii_valid_utf8(seq![0x0Au8]);
        vstd::utf8::valid_utf8_concat(x.0, tab);
        vstd::utf8::valid_utf8_concat(x.0 + tab, x.1);
        vstd::utf8::valid_utf8_concat(x.0 + tab + x.1, tab);
        let mid: Seq<u8> = match x.2 {
            Some(e) => e + tab,
            None => Seq::empty(),
        };
        match x.2 {
            Some(e) => {
                vstd::utf8::encode_utf8_valid_utf8(row.extra->Some_0@);
                vstd::utf8::valid_utf8_concat(e, tab);
            },
            None => {
                assert(valid_utf8(mid)) by {
                    assert(mid =~= Seq::<u8>::empty());
                }
            },
        }
        let h = x.0 + tab + x.1 + tab;
        vstd::utf8::valid_utf8_concat(h, mid);
        vstd::utf8::valid_utf8_concat(h + mid, dec_digits(x.3 as nat));
        vstd::utf8::valid_utf8_concat(h + mid + dec_digits(x.3 as nat), tab);
        vstd::utf8::valid_utf8_concat(h + mid + dec_digits(x.3 as nat) + tab, encode_utf8(x.4));
        vstd::utf8::valid_utf8_concat(h + mid + dec_digits(x.3 as nat) + tab + encode_utf8(x.4), seq![0x0Au8]);
    }
    Ok(string_or_empty(v.as_slice()))
}

} // verus!
