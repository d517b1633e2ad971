//! Tab-separated text: lines, Unicode whitespace trimming, tab fields,
//! whitespace tokens and decimal `u32` fields, over UTF-8 bytes.

use vstd::prelude::*;
use vstd::string::StringSliceAdditionalSpecFns;
use vstd::utf8::valid_utf8;

use crate::fsa::dict::copy_range;
use crate::text::{sbytes, string_or_empty};

verus! {

/// Length of the Unicode whitespace character whose UTF-8 encoding
/// starts at `i` and ends by `hi`, or 0: tab to carriage return,
/// space, U+0085, U+00A0, U+1680, U+2000 to U+200A, U+2028, U+2029,
/// U+202F, U+205F, U+3000.
pub open spec fn ws_at(b: Seq<u8>, i: int, hi: int) -> int {
    if !(0 <= i < hi && hi <= b.len()) {
        0
    } else if (0x09 <= b[i] <= 0x0D) || b[i] == 0x20 {
        1
    } else if b[i] == 0xC2 && i + 1 < hi && (b[i + 1] == 0x85 || b[i + 1] == 0xA0) {
        2
    } else if i + 2 < hi && ((b[i] == 0xE1 && b[i + 1] == 0x9A && b[i + 2] == 0x80) || (b[i] == 0xE2 && b[i + 1]
        == 0x80 && ((0x80 <= b[i + 2] <= 0x8A) || b[i + 2] == 0xA8 || b[i + 2] == 0xA9 || b[i + 2] == 0xAF)) || (
    b[i] == 0xE2 && b[i + 1] == 0x81 && b[i + 2] == 0x9F) || (b[i] == 0xE3 && b[i + 1] == 0x80 && b[i + 2] == 0x80)) {
        3
    } else {
        0
    }
}

/// Length of the whitespace character whose encoding ends at `j`
/// (within `lo..j`), or 0.
pub open spec fn ws_before(b: Seq<u8>, lo: int, j: int) -> int {
    if j - 1 >= lo && ws_at(b, j - 1, j) == 1 {
        1
    } else if j - 2 >= lo && ws_at(b, j - 2, j) == 2 {
        2
    } else if j - 3 >= lo && ws_at(b, j - 3, j) == 3 {
        3
    } else {
        0
    }
}

/// Start of `b[lo..hi]` once leading whitespace is dropped.
pub open spec fn trim_start_at(b: Seq<u8>, lo: int, hi: int) -> int
    decreases hi - lo,
{
    if lo < hi && ws_at(b, lo, hi) > 0 {
        trim_start_at(b, lo + ws_at(b, lo, hi), hi)
    } else {
        lo
    }
}

/// End of `b[lo..hi]` once trailing whitespace is dropped.
pub open spec fn trim_end_at(b: Seq<u8>, lo: int, hi: int) -> int
    decreases hi - lo,
{
    if lo < hi && ws_before(b, lo, hi) > 0 {
        trim_end_at(b, lo, hi - ws_before(b, lo, hi))
    } else {
        hi
    }
}

/// `b[lo..hi]` with leading and trailing whitespace dropped.
pub open spec fn trimmed(b: Seq<u8>, lo: int, hi: int) -> Seq<u8> {
    let s = trim_start_at(b, lo, hi);
    b.subrange(s, trim_end_at(b, s, hi))
}

/// Whitespace trimming of a whole byte string.
pub open spec fn trim_bytes(s: Seq<u8>) -> Seq<u8> {
    trimmed(s, 0, s.len() as int)
}

/// The suffix of `b` from `p` is valid UTF-8: `p` starts a character.
pub open spec fn vs(b: Seq<u8>, p: int) -> bool {
    0 <= p <= b.len() && valid_utf8(b.subrange(p, b.len() as int))
}

/// A byte that starts a character.
pub open spec fn lead_byte(x: u8) -> bool {
    x <= 0x7F || (0xC0 <= x <= 0xF7)
}

/// Width of the character a lead byte starts.
pub open spec fn lead_width(x: u8) -> int {
    if x <= 0x7F {
        1
    } else if x <= 0xDF {
        2
    } else if x <= 0xEF {
        3
    } else {
        4
    }
}

/// In valid UTF-8, a lead byte starts a valid suffix.
pub proof fn lemma_vs_at_lead(b: Seq<u8>, i: int)
    requires
        valid_utf8(b),
        0 <= i < b.len(),
        lead_byte(b[i]),
    ensures
        vs(b, i),
{
    vstd::utf8::is_char_boundary_iff_is_leading_byte(b, i);
    vstd::utf8::valid_utf8_split(b, i);
}

/// The end of a valid string starts the empty suffix.
pub proof fn lemma_vs_end(b: Seq<u8>)
    ensures
        vs(b, b.len() as int),
{
    assert(b.subrange(b.len() as int, b.len() as int) =~= Seq::<u8>::empty());
}

/// Past the character starting a valid suffix is a valid suffix.
pub proof fn lemma_vs_next(b: Seq<u8>, p: int)
    requires
        vs(b, p),
        p < b.len(),
    ensures
        lead_byte(b[p]),
        p + lead_width(b[p]) <= b.len(),
        vs(b, p + lead_width(b[p])),
{
    let s = b.subrange(p, b.len() as int);
    assert(s[0] == b[p]);
    assert(s.subrange(vstd::utf8::length_of_first_scalar(s), s.len() as int) =~= b.subrange(
        p + lead_width(b[p]),
        b.len() as int,
    ));
}

/// Between two valid suffix starts lies valid UTF-8.
pub proof fn lemma_valid_between(b: Seq<u8>, lo: int, hi: int)
    requires
        vs(b, lo),
        vs(b, hi),
        lo <= hi,
    ensures
        valid_utf8(b.subrange(lo, hi)),
{
    let s = b.subrange(lo, b.len() as int);
    let k = hi - lo;
    if hi == b.len() {
        assert(s.subrange(0, k) =~= b.subrange(lo, hi));
        assert(s =~= b.subrange(lo, hi));
    } else {
        let t = b.subrange(hi, b.len() as int);
        assert(t[0] == b[hi]);
        assert(s[k] == b[hi]);
        vstd::utf8::is_char_boundary_iff_not_is_continuation_byte(s, k);
        vstd::utf8::valid_utf8_split(s, k);
        assert(s.subrange(0, k) =~= b.subrange(lo, hi));
    }
}

/// Whitespace starts with a lead byte, of its width.
pub proof fn lemma_ws_lead(b: Seq<u8>, i: int, hi: int)
    requires
        ws_at(b, i, hi) > 0,
    ensures
        lead_byte(b[i]),
        lead_width(b[i]) == ws_at(b, i, hi),
        i + ws_at(b, i, hi) <= hi,
{
}

/// `ws_at(b, i, hi)`.
pub fn ws_len(b: &[u8], i: usize, hi: usize) -> (r: usize)
    requires
        hi <= b@.len(),
    ensures
        r == ws_at(b@, i as int, hi as int),
{
    if i >= hi {
        return 0;
    }
    let x = b[i];
    if (0x09 <= x && x <= 0x0D) || x == 0x20 {
        return 1;
    }
    if x == 0xC2 && hi - i > 1 && (b[i + 1] == 0x85 || b[i + 1] == 0xA0) {
        return 2;
    }
    if hi - i > 2 {
        let y = b[i + 1];
        let z = b[i + 2];
        if (x == 0xE1 && y == 0x9A && z == 0x80) || (x == 0xE2 && y == 0x80 && ((0x80 <= z && z <= 0x8A) || z == 0xA8
            || z == 0xA9 || z == 0xAF)) || (x == 0xE2 && y == 0x81 && z == 0x9F) || (x == 0xE3 && y == 0x80 && z
            == 0x80) {
            return 3;
        }
    }
    0
}

/// `ws_before(b, lo, j)`.
fn ws_len_before(b: &[u8], lo: usize, j: usize) -> (r: usize)
    requires
        lo <= j <= b@.len(),
    ensures
        r == ws_before(b@, lo as int, j as int),
{
    if j - lo >= 1 && ws_len(b, j - 1, j) == 1 {
        1
    } else if j - lo >= 2 && ws_len(b, j - 2, j) == 2 {
        2
    } else if j - lo >= 3 && ws_len(b, j - 3, j) == 3 {
        3
    } else {
        0
    }
}

/// Start of `b[lo..hi]` without leading whitespace.
pub fn trim_start_pos(b: &[u8], lo: usize, hi: usize) -> (r: usize)
    requires
        lo <= hi <= b@.len(),
    ensures
        r == trim_start_at(b@, lo as int, hi as int),
        lo <= r <= hi,
{
    let mut p = lo;
    while p < hi
        invariant
            lo <= p <= hi <= b@.len(),
            trim_start_at(b@, lo as int, hi as int) == trim_start_at(b@, p as int, hi as int),
        decreases hi - p,
    {
        let k = ws_len(b, p, hi);
        if k == 0 {
            return p;
        }
        p = p + k;
    }
    p
}

/// End of `b[lo..hi]` without trailing whitespace.
pub fn trim_end_pos(b: &[u8], lo: usize, hi: usize) -> (r: usize)
    requires
        lo <= hi <= b@.len(),
    ensures
        r == trim_end_at(b@, lo as int, hi as int),
        lo <= r <= hi,
{
    let mut q = hi;
    while lo < q
        invariant
            lo <= q <= hi <= b@.len(),
            trim_end_at(b@, lo as int, hi as int) == trim_end_at(b@, lo as int, q as int),
        decreases q - lo,
    {
        let k = ws_len_before(b, lo, q);
        if k == 0 {
            return q;
        }
        q = q - k;
    }
    q
}

/// Valid suffix starts survive trimming from the front.
pub proof fn lemma_vs_trim_start(b: Seq<u8>, lo: int, hi: int)
    requires
        valid_utf8(b),
        vs(b, lo),
        lo <= hi <= b.len(),
    ensures
        vs(b, trim_start_at(b, lo, hi)),
        lo <= trim_start_at(b, lo, hi) <= hi,
    decreases hi - lo,
{
    if lo < hi && ws_at(b, lo, hi) > 0 {
        lemma_ws_lead(b, lo, hi);
        lemma_vs_next(b, lo);
        lemma_vs_trim_start(b, lo + ws_at(b, lo, hi), hi);
    }
}

/// Valid suffix starts survive trimming from the back.
pub proof fn lemma_vs_trim_end(b: Seq<u8>, lo: int, hi: int)
    requires
        valid_utf8(b),
        vs(b, hi),
        lo <= hi <= b.len(),
    ensures
        vs(b, trim_end_at(b, lo, hi)),
        lo <= trim_end_at(b, lo, hi) <= hi,
    decreases hi - lo,
{
    if lo < hi && ws_before(b, lo, hi) > 0 {
        let k = ws_before(b, lo, hi);
        lemma_ws_lead(b, hi - k, hi);
        lemma_vs_at_lead(b, hi - k);
        lemma_vs_trim_end(b, lo, hi - k);
    }
}

/// The text of `b[lo..hi]`, which lies between two character starts.
pub fn sub_string(b: &[u8], lo: usize, hi: usize) -> (r: String)
    requires
        lo <= hi <= b@.len(),
        valid_utf8(b@),
        vs(b@, lo as int),
        vs(b@, hi as int),
    ensures
        sbytes(r) == b@.subrange(lo as int, hi as int),
{
    proof {
        lemma_valid_between(b@, lo as int, hi as int);
    }
    let v = copy_range(b, lo, hi);
    string_or_empty(v.as_slice())
}

/// `s` with leading and trailing Unicode whitespace removed.
pub fn trim_string(s: &str) -> (r: String)
    ensures
        sbytes(r) == trim_bytes(s.spec_bytes()),
{
    let b = s.as_bytes();
    proof {
        vstd::utf8::encode_utf8_valid_utf8(s@);
        assert(b@.subrange(0, b@.len() as int) =~= b@);
        lemma_vs_end(b@);
    }
    let st = trim_start_pos(b, 0, b.len());
    let en = trim_end_pos(b, st, b.len());
    proof {
        lemma_vs_trim_start(b@, 0, b@.len() as int);
        lemma_vs_trim_end(b@, st as int, b@.len() as int);
    }
    sub_string(b, st, en)
}

} // verus!

verus! {

/// First `\n` at or after `p`, or the end.
pub open spec fn next_nl(b: Seq<u8>, p: int) -> int
    decreases b.len() - p,
{
    if p >= b.len() || p < 0 {
        b.len() as int
    } else if b[p] == 0x0A {
        p
    } else {
        next_nl(b, p + 1)
    }
}

/// The lines of `b` from `p`, as byte ranges: split at `\n`, a `\r`
/// before the `\n` dropped, no empty last line after a final `\n`.
pub open spec fn lines_from(b: Seq<u8>, p: int) -> Seq<(int, int)>
    decreases b.len() - p,
{
    if p >= b.len() || p < 0 {
        Seq::empty()
    } else {
        let e = next_nl(b, p);
        proof {
            lemma_next_nl(b, p);
        }
        if e >= b.len() {
            seq![(p, b.len() as int)]
        } else {
            let end = if e > p && b[e - 1] == 0x0D {
                e - 1
            } else {
                e
            };
            seq![(p, end)] + lines_from(b, e + 1)
        }
    }
}

pub proof fn lemma_next_nl(b: Seq<u8>, p: int)
    requires
        0 <= p <= b.len(),
    ensures
        p <= next_nl(b, p) <= b.len(),
        next_nl(b, p) < b.len() ==> b[next_nl(b, p)] == 0x0A,
    decreases b.len() - p,
{
    if p < b.len() && b[p] != 0x0A {
        lemma_next_nl(b, p + 1);
    }
}

/// The line ranges lie in order within `p..`, between character
/// starts.
pub proof fn lemma_lines_from(b: Seq<u8>, p: int)
    requires
        valid_utf8(b),
        vs(b, p),
    ensures
        forall|k: int| 0 <= k < lines_from(b, p).len() ==> {
            let r = #[trigger] lines_from(b, p)[k];
            &&& p <= r.0 <= r.1 <= b.len()
            &&& vs(b, r.0)
            &&& vs(b, r.1)
        },
    decreases b.len() - p,
{
    if p < b.len() {
        let e = next_nl(b, p);
        lemma_next_nl(b, p);
        if e < b.len() {
            lemma_vs_at_lead(b, e);
            lemma_vs_next(b, e);
            if e > p && b[e - 1] == 0x0D {
                lemma_vs_at_lead(b, e - 1);
            }
            lemma_lines_from(b, e + 1);
            let rest = lines_from(b, e + 1);
            let end = if e > p && b[e - 1] == 0x0D {
                e - 1
            } else {
                e
            };
            assert(lines_from(b, p) == seq![(p, end)] + rest);
            assert forall|k: int| 0 <= k < lines_from(b, p).len() implies {
                let r = #[trigger] lines_from(b, p)[k];
                &&& p <= r.0 <= r.1 <= b.len()
                &&& vs(b, r.0)
                &&& vs(b, r.1)
            } by {
                if k > 0 {
                    assert(lines_from(b, p)[k] == rest[k - 1]);
                }
            }
        } else {
            lemma_vs_end(b);
        }
    }
}

/// The line ranges of `b`.
pub fn line_ranges(b: &[u8]) -> (r: Vec<(usize, usize)>)
    ensures
        r@.len() == lines_from(b@, 0).len(),
        forall|k: int| 0 <= k < r@.len() ==> (#[trigger] r@[k]).0 == lines_from(b@, 0)[k].0 && r@[k].1 == lines_from(
            b@,
            0,
        )[k].1,
{
    let ghost want = lines_from(b@, 0);
    let mut out: Vec<(usize, usize)> = Vec::new();
    let mut p: usize = 0;
    while p < b.len()
        invariant
            p <= b@.len(),
            want == lines_from(b@, 0),
            out@.len() + lines_from(b@, p as int).len() == want.len(),
            forall|k: int| 0 <= k < out@.len() ==> (#[trigger] out@[k]).0 == want[k].0 && out@[k].1 == want[k].1,
            forall|k: int| 0 <= k < lines_from(b@, p as int).len() ==> #[trigger] lines_from(b@, p as int)[k] == want[out@.len() + k],
        decreases b@.len() - p,
    {
        let mut e = p;
        while e < b.len() && b[e] != 0x0A
            invariant
                p <= e <= b@.len(),
                next_nl(b@, p as int) == next_nl(b@, e as int),
            decreases b@.len() - e,
        {
            e = e + 1;
        }
        let ghost rest_before = lines_from(b@, p as int);
        if e >= b.len() {
            assert(rest_before == seq![(p as int, b@.len() as int)]);
            assert(rest_before[0] == want[out@.len() as int]);
            let ghost before = out@;
            out.push((p, b.len()));
            assert(lines_from(b@, b@.len() as int) == Seq::<(int, int)>::empty());
            assert forall|k: int| 0 <= k < out@.len() implies (#[trigger] out@[k]).0 == want[k].0 && out@[k].1 == want[k].1 by {
                if k < before.len() {
                    assert(out@[k] == before[k]);
                }
            }
            p = b.len();
        } else {
            let end = if e > p && b[e - 1] == 0x0D {
                e - 1
            } else {
                e
            };
            let ghost rest = lines_from(b@, e + 1);
            assert(rest_before == seq![(p as int, end as int)] + rest);
            assert(rest_before[0] == want[out@.len() as int]);
            let ghost before = out@;
            out.push((p, end));
            proof {
                assert forall|k: int| 0 <= k < out@.len() implies (#[trigger] out@[k]).0 == want[k].0 && out@[k].1 == want[k].1 by {
                    if k < before.len() {
                        assert(out@[k] == before[k]);
                    }
                }
                assert forall|k: int| 0 <= k < rest.len() implies #[trigger] rest[k] == want[out@.len() + k] by {
                    assert(rest_before[k + 1] == rest[k]);
                }
            }
            p = e + 1;
        }
    }
    proof {
        assert(lines_from(b@, p as int) == Seq::<(int, int)>::empty());
    }
    out
}

/// First tab in `p..hi`, or `hi`.
pub open spec fn next_tab(b: Seq<u8>, p: int, hi: int) -> int
    decreases hi - p,
{
    if p >= hi {
        hi
    } else if b[p] == 0x09 {
        p
    } else {
        next_tab(b, p + 1, hi)
    }
}

/// The tab-separated fields of `b[p..hi]`, as byte ranges: one more
/// than there are tabs, empty ones included.
pub open spec fn fields_from(b: Seq<u8>, p: int, hi: int) -> Seq<(int, int)>
    decreases hi - p, 1int,
{
    let e = next_tab(b, p, hi);
    if e >= hi || e < p {
        seq![(p, hi)]
    } else {
        seq![(p, e)] + fields_from(b, e + 1, hi)
    }
}

pub proof fn lemma_next_tab(b: Seq<u8>, p: int, hi: int)
    requires
        p <= hi,
    ensures
        p <= next_tab(b, p, hi) <= hi,
        next_tab(b, p, hi) < hi ==> b[next_tab(b, p, hi)] == 0x09,
    decreases hi - p,
{
    if p < hi && b[p] != 0x09 {
        lemma_next_tab(b, p + 1, hi);
    }
}

/// The field ranges lie in order within `p..hi`, between character
/// starts.
pub proof fn lemma_fields_from(b: Seq<u8>, p: int, hi: int)
    requires
        valid_utf8(b),
        vs(b, p),
        vs(b, hi),
        p <= hi <= b.len(),
    ensures
        fields_from(b, p, hi).len() >= 1,
        forall|k: int| 0 <= k < fields_from(b, p, hi).len() ==> {
            let r = #[trigger] fields_from(b, p, hi)[k];
            &&& p <= r.0 <= r.1 <= hi
            &&& vs(b, r.0)
            &&& vs(b, r.1)
        },
    decreases hi - p,
{
    let e = next_tab(b, p, hi);
    lemma_next_tab(b, p, hi);
    if e < hi {
        lemma_vs_at_lead(b, e);
        lemma_vs_next(b, e);
        lemma_fields_from(b, e + 1, hi);
        let rest = fields_from(b, e + 1, hi);
        assert(fields_from(b, p, hi) == seq![(p, e)] + rest);
        assert forall|k: int| 0 <= k < fields_from(b, p, hi).len() implies {
            let r = #[trigger] fields_from(b, p, hi)[k];
            &&& p <= r.0 <= r.1 <= hi
            &&& vs(b, r.0)
            &&& vs(b, r.1)
        } by {
            if k > 0 {
                assert(fields_from(b, p, hi)[k] == rest[k - 1]);
            }
        }
    }
}

/// The tab field ranges of `b[lo..hi]`.
pub fn field_ranges(b: &[u8], lo: usize, hi: usize) -> (r: Vec<(usize, usize)>)
    requires
        lo <= hi <= b@.len(),
    ensures
        r@.len() == fields_from(b@, lo as int, hi as int).len(),
        forall|k: int| 0 <= k < r@.len() ==> (#[trigger] r@[k]).0 == fields_from(b@, lo as int, hi as int)[k].0 && r@[k].1
            == fields_from(b@, lo as int, hi as int)[k].1,
{
    let ghost want = fields_from(b@, lo as int, hi as int);
    let mut out: Vec<(usize, usize)> = Vec::new();
    let mut p: usize = lo;
    loop
        invariant
            lo <= p <= hi <= b@.len(),
            want == fields_from(b@, lo as int, hi as int),
            out@.len() + fields_from(b@, p as int, hi as int).len() == want.len(),
            forall|k: int| 0 <= k < out@.len() ==> (#[trigger] out@[k]).0 == want[k].0 && out@[k].1 == want[k].1,
            forall|k: int| 0 <= k < fields_from(b@, p as int, hi as int).len() ==> #[trigger] fields_from(b@, p as int, hi as int)[k]
                == want[out@.len() + k],
        decreases hi - p,
    {
        let mut e = p;
        while e < hi && b[e] != 0x09
            invariant
                p <= e <= hi <= b@.len(),
                next_tab(b@, p as int, hi as int) == next_tab(b@, e as int, hi as int),
            decreases hi - e,
        {
            e = e + 1;
        }
        let ghost rest_before = fields_from(b@, p as int, hi as int);
        if e >= hi {
            assert(rest_before == seq![(p as int, hi as int)]);
            assert(rest_before[0] == want[out@.len() as int]);
            let ghost before = out@;
            out.push((p, hi));
            assert forall|k: int| 0 <= k < out@.len() implies (#[trigger] out@[k]).0 == want[k].0 && out@[k].1 == want[k].1 by {
                if k < before.len() {
                    assert(out@[k] == before[k]);
                }
            }
            return out;
        }
        let ghost rest = fields_from(b@, e + 1, hi as int);
        assert(rest_before == seq![(p as int, e as int)] + rest);
        assert(rest_before[0] == want[out@.len() as int]);
        let ghost before = out@;
        out.push((p, e));
        proof {
            assert forall|k: int| 0 <= k < out@.len() implies (#[trigger] out@[k]).0 == want[k].0 && out@[k].1 == want[k].1 by {
                if k < before.len() {
                    assert(out@[k] == before[k]);
                }
            }
            assert forall|k: int| 0 <= k < rest.len() implies #[trigger] rest[k] == want[out@.len() + k] by {
                assert(rest_before[k + 1] == rest[k]);
            }
        }
        p = e + 1;
    }
}

/// Value of the decimal digits `b[lo..hi]`.
pub open spec fn digits_value(b: Seq<u8>, lo: int, hi: int) -> int
    decreases hi - lo,
{
    if hi <= lo {
        0
    } else {
        digits_value(b, lo, hi - 1) * 10 + (b[hi - 1] - 0x30)
    }
}

/// `b[lo..hi]` is all ASCII digits.
pub open spec fn all_digits(b: Seq<u8>, lo: int, hi: int) -> bool {
    forall|i: int| lo <= i < hi ==> 0x30 <= #[trigger] b[i] <= 0x39
}

/// `u32` parsing of `b[lo..hi]`: an optional `+`, then one or more
/// ASCII digits whose value fits.
pub open spec fn parse_u32_at(b: Seq<u8>, lo: int, hi: int) -> Option<u32> {
    let d = if hi > lo && b[lo] == 0x2B {
        lo + 1
    } else {
        lo
    };
    if d >= hi || !all_digits(b, d, hi) || digits_value(b, d, hi) > u32::MAX {
        None
    } else {
        Some(digits_value(b, d, hi) as u32)
    }
}

pub proof fn lemma_digits_mono(b: Seq<u8>, lo: int, m: int, hi: int)
    requires
        lo <= m <= hi,
        all_digits(b, lo, hi),
    ensures
        0 <= digits_value(b, lo, m) <= digits_value(b, lo, hi),
    decreases hi - m,
{
    if m < hi {
        lemma_digits_mono(b, lo, m, hi - 1);
        lemma_digits_nonneg(b, lo, hi - 1);
    } else {
        lemma_digits_nonneg(b, lo, m);
    }
}

pub proof fn lemma_digits_nonneg(b: Seq<u8>, lo: int, hi: int)
    requires
        all_digits(b, lo, hi),
    ensures
        digits_value(b, lo, hi) >= 0,
    decreases hi - lo,
{
    if hi > lo {
        lemma_digits_nonneg(b, lo, hi - 1);
    }
}

/// Parse `b[lo..hi]` as a `u32`.
pub fn parse_u32(b: &[u8], lo: usize, hi: usize) -> (r: Option<u32>)
    requires
        lo <= hi <= b@.len(),
    ensures
        r == parse_u32_at(b@, lo as int, hi as int),
{
    let d = if hi > lo && b[lo] == 0x2B {
        lo + 1
    } else {
        lo
    };
    assert(parse_u32_at(b@, lo as int, hi as int) == (if d >= hi || !all_digits(b@, d as int, hi as int) || digits_value(b@, d as int, hi as int) > u32::MAX {
        None
    } else {
        Some(digits_value(b@, d as int, hi as int) as u32)
    }));
    if d >= hi {
        return None;
    }
    let mut i = d;
    while i < hi
        invariant
            d <= i <= hi <= b@.len(),
            all_digits(b@, d as int, i as int),
            parse_u32_at(b@, lo as int, hi as int) == (if d >= hi || !all_digits(b@, d as int, hi as int) || digits_value(b@, d as int, hi as int) > u32::MAX {
                None
            } else {
                Some(digits_value(b@, d as int, hi as int) as u32)
            }),
        decreases hi - i,
    {
        if !(0x30 <= b[i] && b[i] <= 0x39) {
            assert(!all_digits(b@, d as int, hi as int)) by {
                assert(!(0x30 <= b@[i as int] <= 0x39));
            }
            return None;
        }
        i = i + 1;
    }
    let mut v: u64 = 0;
    let mut j = d;
    while j < hi
        invariant
            d <= j <= hi <= b@.len(),
            all_digits(b@, d as int, hi as int),
            parse_u32_at(b@, lo as int, hi as int) == (if d >= hi || !all_digits(b@, d as int, hi as int) || digits_value(b@, d as int, hi as int) > u32::MAX {
                None
            } else {
                Some(digits_value(b@, d as int, hi as int) as u32)
            }),
            v == digits_value(b@, d as int, j as int),
            v <= u32::MAX,
        decreases hi - j,
    {
        let nv: u64 = v * 10 + (b[j] - 0x30) as u64;
        if nv > 0xFFFF_FFFF {
            proof {
                assert(digits_value(b@, d as int, j + 1) == v * 10 + (b@[j as int] - 0x30));
                lemma_digits_mono(b@, d as int, j + 1, hi as int);
            }
            return None;
        }
        assert(digits_value(b@, d as int, j + 1) == v * 10 + (b@[j as int] - 0x30));
        v = nv;
        j = j + 1;
    }
    Some(v as u32)
}

/// First whitespace in `p..hi`, or `hi`.
pub open spec fn next_ws(b: Seq<u8>, p: int, hi: int) -> int
    decreases hi - p,
{
    if p >= hi {
        hi
    } else if ws_at(b, p, hi) > 0 {
        p
    } else {
        next_ws(b, p + 1, hi)
    }
}

pub proof fn lemma_next_ws(b: Seq<u8>, p: int, hi: int)
    requires
        p <= hi <= b.len(),
    ensures
        p <= next_ws(b, p, hi) <= hi,
        next_ws(b, p, hi) < hi ==> ws_at(b, next_ws(b, p, hi), hi) > 0,
    decreases hi - p,
{
    if p < hi && ws_at(b, p, hi) == 0 {
        lemma_next_ws(b, p + 1, hi);
    }
}

/// `next_ws(b, p, hi)`.
pub fn next_ws_pos(b: &[u8], p: usize, hi: usize) -> (r: usize)
    requires
        p <= hi <= b@.len(),
    ensures
        r == next_ws(b@, p as int, hi as int),
        p <= r <= hi,
{
    let mut q = p;
    while q < hi && ws_len(b, q, hi) == 0
        invariant
            p <= q <= hi <= b@.len(),
            next_ws(b@, p as int, hi as int) == next_ws(b@, q as int, hi as int),
        decreases hi - q,
    {
        q = q + 1;
    }
    q
}

/// A whitespace start begins a valid suffix.
pub proof fn lemma_vs_next_ws(b: Seq<u8>, p: int, hi: int)
    requires
        valid_utf8(b),
        vs(b, hi),
        p <= hi <= b.len(),
    ensures
        vs(b, next_ws(b, p, hi)),
{
    lemma_next_ws(b, p, hi);
    let q = next_ws(b, p, hi);
    if q < hi {
        lemma_ws_lead(b, q, hi);
        lemma_vs_at_lead(b, q);
    }
}

} // verus!
