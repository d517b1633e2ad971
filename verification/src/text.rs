//! Byte-string helpers shared by the dictionary formats and engines:
//! equality, prefixes, byte-wise ordering, and UTF-8 views.

use vstd::prelude::*;
use vstd::string::StringSliceAdditionalSpecFns;
use vstd::utf8::{decode_utf8, encode_utf8, valid_utf8};

verus! {

/// `str::from_utf8`: the text `b` encodes, when `b` is valid UTF-8.
/// Claims: `Some` exactly for valid UTF-8, and then the text's bytes are
/// `b` and its chars are the decoding of `b`.
#[verifier::external_body]
pub(crate) fn utf8_str(b: &[u8]) -> (r: Option<&str>)
    ensures
        r is Some <==> valid_utf8(b@),
        r matches Some(s) ==> s.spec_bytes() == b@ && s@ == decode_utf8(b@),
{
    core::str::from_utf8(b).ok()
}

/// UTF-8 bytes of a string.
pub open spec fn sbytes(s: String) -> Seq<u8> {
    encode_utf8(s@)
}

/// A `&str` turned into an owned string keeps its text.
pub fn owned(s: &str) -> (r: String)
    ensures
        r@ == s@,
        sbytes(r) == s.spec_bytes(),
{
    s.to_owned()
}

/// Owned string for UTF-8 bytes, or the empty string when they are not
/// UTF-8.
pub fn string_or_empty(b: &[u8]) -> (r: String)
    ensures
        sbytes(r) == if valid_utf8(b@) {
            b@
        } else {
            Seq::<u8>::empty()
        },
{
    match utf8_str(b) {
        Some(s) => {
            proof {
                vstd::utf8::decode_utf8_encode_utf8(b@);
            }
            owned(s)
        },
        None => {
            let r = String::new();
            assert(encode_utf8(r@) =~= Seq::<u8>::empty()) by {
                assert(r@ =~= Seq::<char>::empty());
            }
            r
        },
    }
}

/// Every byte is below 0x80.
pub open spec fn is_ascii_bytes(b: Seq<u8>) -> bool {
    forall|i: int| 0 <= i < b.len() ==> b[i] < 0x80
}

/// ASCII bytes are valid UTF-8.
pub proof fn lemma_ascii_valid_utf8(b: Seq<u8>)
    requires
        is_ascii_bytes(b),
    ensures
        valid_utf8(b),
    decreases b.len(),
{
    if b.len() != 0 {
        let rest = b.subrange(1, b.len() as int);
        assert(is_ascii_bytes(rest));
        lemma_ascii_valid_utf8(rest);
        assert(vstd::utf8::pop_first_scalar(b) == rest);
    }
}

/// Whether `a` and `c` hold the same bytes.
pub fn bytes_eq(a: &[u8], c: &[u8]) -> (r: bool)
    ensures
        r == (a@ == c@),
{
    if a.len() != c.len() {
        return false;
    }
    let mut i: usize = 0;
    while i < a.len()
        invariant
            a@.len() == c@.len(),
            i <= a@.len(),
            forall|j: int| 0 <= j < i ==> a@[j] == c@[j],
        decreases a@.len() - i,
    {
        if a[i] != c[i] {
            return false;
        }
        i = i + 1;
    }
    assert(a@ =~= c@);
    true
}

/// Whether `s` starts with `p`.
pub open spec fn seq_starts_with(s: Seq<u8>, p: Seq<u8>) -> bool {
    p.len() <= s.len() && s.subrange(0, p.len() as int) == p
}

pub fn starts_with(s: &[u8], p: &[u8]) -> (r: bool)
    ensures
        r == seq_starts_with(s@, p@),
{
    if p.len() > s.len() {
        return false;
    }
    let mut i: usize = 0;
    while i < p.len()
        invariant
            p@.len() <= s@.len(),
            i <= p@.len(),
            forall|j: int| 0 <= j < i ==> s@[j] == p@[j],
        decreases p@.len() - i,
    {
        if s[i] != p[i] {
            assert(s@.subrange(0, p@.len() as int)[i as int] != p@[i as int]);
            return false;
        }
        i = i + 1;
    }
    assert(s@.subrange(0, p@.len() as int) =~= p@);
    true
}

/// Byte-wise lexicographic order: `a` sorts strictly before `c` (a
/// proper prefix sorts first).
pub open spec fn seq_lt(a: Seq<u8>, c: Seq<u8>) -> bool
    decreases a.len(),
{
    if a.len() == 0 {
        c.len() > 0
    } else if c.len() == 0 {
        false
    } else if a[0] != c[0] {
        a[0] < c[0]
    } else {
        seq_lt(a.drop_first(), c.drop_first())
    }
}

pub proof fn lemma_seq_lt_irreflexive(a: Seq<u8>)
    ensures
        !seq_lt(a, a),
    decreases a.len(),
{
    if a.len() > 0 {
        lemma_seq_lt_irreflexive(a.drop_first());
    }
}

pub proof fn lemma_seq_lt_trans(a: Seq<u8>, c: Seq<u8>, d: Seq<u8>)
    requires
        seq_lt(a, c),
        seq_lt(c, d),
    ensures
        seq_lt(a, d),
    decreases a.len(),
{
    if a.len() > 0 && c.len() > 0 && d.len() > 0 && a[0] == c[0] && c[0] == d[0] {
        lemma_seq_lt_trans(a.drop_first(), c.drop_first(), d.drop_first());
    }
}

/// Exactly one of `a < c`, `a == c`, `c < a`.
pub proof fn lemma_seq_lt_total(a: Seq<u8>, c: Seq<u8>)
    ensures
        seq_lt(a, c) || a == c || seq_lt(c, a),
        !(seq_lt(a, c) && seq_lt(c, a)),
        !(seq_lt(a, c) && a == c),
    decreases a.len(),
{
    if a.len() == 0 && c.len() == 0 {
        assert(a =~= c);
    } else if a.len() > 0 && c.len() > 0 && a[0] == c[0] {
        lemma_seq_lt_total(a.drop_first(), c.drop_first());
        if a.drop_first() == c.drop_first() {
            assert(a =~= seq![a[0]] + a.drop_first());
            assert(c =~= seq![c[0]] + c.drop_first());
        }
    }
    if a == c {
        lemma_seq_lt_irreflexive(a);
    }
}

/// Byte-wise comparison of two byte strings: `-1`, `0` or `1` as `a`
/// sorts before, equal to or after `c`.
pub fn compare_bytes(a: &[u8], c: &[u8]) -> (r: i8)
    ensures
        r == -1 || r == 0 || r == 1,
        r == -1 <==> seq_lt(a@, c@),
        r == 0 <==> a@ == c@,
        r == 1 <==> seq_lt(c@, a@),
{
    let mut i: usize = 0;
    proof {
        lemma_seq_lt_total(a@, c@);
        assert(a@.skip(0) =~= a@);
        assert(c@.skip(0) =~= c@);
    }
    while i < a.len() && i < c.len()
        invariant
            i <= a@.len(),
            i <= c@.len(),
            forall|j: int| 0 <= j < i ==> a@[j] == c@[j],
            seq_lt(a@, c@) == seq_lt(a@.skip(i as int), c@.skip(i as int)),
            seq_lt(c@, a@) == seq_lt(c@.skip(i as int), a@.skip(i as int)),
        decreases a@.len() - i,
    {
        assert(a@.skip(i as int).drop_first() =~= a@.skip(i + 1));
        assert(c@.skip(i as int).drop_first() =~= c@.skip(i + 1));
        if a[i] < c[i] {
            proof {
                lemma_seq_lt_total(a@, c@);
            }
            return -1;
        }
        if a[i] > c[i] {
            proof {
                lemma_seq_lt_total(a@, c@);
            }
            return 1;
        }
        i = i + 1;
    }
    proof {
        lemma_seq_lt_total(a@, c@);
    }
    if a.len() == c.len() {
        assert(a@ =~= c@);
        0
    } else if a.len() < c.len() {
        -1
    } else {
        1
    }
}

/// UTF-8 encoding distributes over concatenation.
pub proof fn lemma_encode_concat(a: Seq<char>, c: Seq<char>)
    ensures
        encode_utf8(a + c) == encode_utf8(a) + encode_utf8(c),
    decreases a.len(),
{
    if a.len() == 0 {
        assert(a + c =~= c);
        assert(encode_utf8(a) =~= Seq::<u8>::empty());
        assert(encode_utf8(a) + encode_utf8(c) =~= encode_utf8(c));
    } else {
        lemma_encode_concat(a.drop_first(), c);
        assert((a + c).drop_first() =~= a.drop_first() + c);
        assert((a + c)[0] == a[0]);
        assert(encode_utf8(a + c) =~= encode_utf8(a) + encode_utf8(c));
    }
}

/// Whether two texts are equal.
pub fn str_eq(a: &str, c: &str) -> (r: bool)
    ensures
        r == (a@ == c@),
{
    let r = bytes_eq(a.as_bytes(), c.as_bytes());
    proof {
        vstd::utf8::encode_utf8_decode_utf8(a@);
        vstd::utf8::encode_utf8_decode_utf8(c@);
    }
    r
}

} // verus!
