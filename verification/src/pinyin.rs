//! Pinyin buffer helpers: the initials heuristic and dialect-tolerant
//! variants of a buffer.

use vstd::prelude::*;
use vstd::string::{StrSliceExecFns, StringExecFns, StringSliceAdditionalSpecFns};

use crate::text::str_eq;

verus! {

/// A pinyin vowel (a/e/i/o/u/v).
pub open spec fn is_vowel(c: char) -> bool {
    c == 'a' || c == 'e' || c == 'i' || c == 'o' || c == 'u' || c == 'v'
}

/// At least two bytes and no pinyin vowel: likely first-letter
/// abbreviations.
pub open spec fn initials_like(s: &str) -> bool {
    s.spec_bytes().len() >= 2 && forall|i: int| 0 <= i < s@.len() ==> !is_vowel(#[trigger] s@[i])
}

/// Whether `s` looks like typed initials: two or more bytes, no vowel.
pub fn looks_like_initials(s: &str) -> (r: bool)
    ensures
        r == initials_like(s),
{
    if s.as_bytes().len() < 2 {
        return false;
    }
    let n = s.unicode_len();
    let mut i: usize = 0;
    while i < n
        invariant
            n == s@.len(),
            i <= n,
            s.spec_bytes().len() >= 2,
            forall|j: int| 0 <= j < i ==> !is_vowel(#[trigger] s@[j]),
        decreases n - i,
    {
        let c = s.get_char(i);
        if c == 'a' || c == 'e' || c == 'i' || c == 'o' || c == 'u' || c == 'v' {
            assert(is_vowel(s@[i as int]));
            return false;
        }
        i = i + 1;
    }
    true
}

/// Initial swaps (zh↔z, ch↔c, sh↔s, n↔l, f↔h, r→l), in the order tried.
pub open spec fn initial_swaps() -> Seq<(Seq<char>, Seq<char>)> {
    seq![
        ("zh"@, "z"@),
        ("z"@, "zh"@),
        ("ch"@, "c"@),
        ("c"@, "ch"@),
        ("sh"@, "s"@),
        ("s"@, "sh"@),
        ("n"@, "l"@),
        ("l"@, "n"@),
        ("f"@, "h"@),
        ("h"@, "f"@),
        ("r"@, "l"@),
    ]
}

/// Final swaps (ing↔in, eng↔en, ang↔an), in the order tried.
pub open spec fn final_swaps() -> Seq<(Seq<char>, Seq<char>)> {
    seq![("ing"@, "in"@), ("in"@, "ing"@), ("eng"@, "en"@), ("en"@, "eng"@), ("ang"@, "an"@), ("an"@, "ang"@)]
}

/// `out` with `x` added unless already there.
pub open spec fn add_new(out: Seq<Seq<char>>, x: Seq<char>) -> Seq<Seq<char>> {
    if out.contains(x) {
        out
    } else {
        out.push(x)
    }
}

/// Apply the initial swaps `sw` to `b` in turn, collecting new variants.
pub open spec fn prefix_pass(b: Seq<char>, sw: Seq<(Seq<char>, Seq<char>)>, out: Seq<Seq<char>>) -> Seq<Seq<char>>
    decreases sw.len(),
{
    if sw.len() == 0 {
        out
    } else {
        let f = sw[0].0;
        let t = sw[0].1;
        let out2 = if f.len() <= b.len() && b.subrange(0, f.len() as int) == f {
            add_new(out, t + b.subrange(f.len() as int, b.len() as int))
        } else {
            out
        };
        prefix_pass(b, sw.drop_first(), out2)
    }
}

/// Apply the final swaps `sw` to `b` in turn (only with a non-empty
/// stem), collecting new variants.
pub open spec fn suffix_pass(b: Seq<char>, sw: Seq<(Seq<char>, Seq<char>)>, out: Seq<Seq<char>>) -> Seq<Seq<char>>
    decreases sw.len(),
{
    if sw.len() == 0 {
        out
    } else {
        let f = sw[0].0;
        let t = sw[0].1;
        let out2 = if f.len() < b.len() && b.subrange(b.len() - f.len(), b.len() as int) == f {
            add_new(out, b.subrange(0, b.len() - f.len()) + t)
        } else {
            out
        };
        suffix_pass(b, sw.drop_first(), out2)
    }
}

/// The buffer and its single-swap dialect variants, first the initial
/// swaps then the final ones, each new variant once.
pub open spec fn variants_of(b: Seq<char>) -> Seq<Seq<char>> {
    suffix_pass(b, final_swaps(), prefix_pass(b, initial_swaps(), seq![b]))
}

/// What a pass collects only grows: everything already collected stays,
/// in place.
proof fn lemma_prefix_pass_keeps(b: Seq<char>, sw: Seq<(Seq<char>, Seq<char>)>, out: Seq<Seq<char>>)
    ensures
        prefix_pass(b, sw, out).len() >= out.len(),
        forall|i: int| 0 <= i < out.len() ==> #[trigger] prefix_pass(b, sw, out)[i] == out[i],
    decreases sw.len(),
{
    if sw.len() > 0 {
        let f = sw[0].0;
        let t = sw[0].1;
        let out2 = if f.len() <= b.len() && b.subrange(0, f.len() as int) == f {
            add_new(out, t + b.subrange(f.len() as int, b.len() as int))
        } else {
            out
        };
        lemma_prefix_pass_keeps(b, sw.drop_first(), out2);
        assert forall|i: int| 0 <= i < out.len() implies #[trigger] prefix_pass(b, sw, out)[i] == out[i] by {
            assert(out2[i] == out[i]);
        }
    }
}

proof fn lemma_suffix_pass_keeps(b: Seq<char>, sw: Seq<(Seq<char>, Seq<char>)>, out: Seq<Seq<char>>)
    ensures
        suffix_pass(b, sw, out).len() >= out.len(),
        forall|i: int| 0 <= i < out.len() ==> #[trigger] suffix_pass(b, sw, out)[i] == out[i],
    decreases sw.len(),
{
    if sw.len() > 0 {
        let f = sw[0].0;
        let t = sw[0].1;
        let out2 = if f.len() < b.len() && b.subrange(b.len() - f.len(), b.len() as int) == f {
            add_new(out, b.subrange(0, b.len() - f.len()) + t)
        } else {
            out
        };
        lemma_suffix_pass_keeps(b, sw.drop_first(), out2);
        assert forall|i: int| 0 <= i < out.len() implies #[trigger] suffix_pass(b, sw, out)[i] == out[i] by {
            assert(out2[i] == out[i]);
        }
    }
}

/// A swap whose source begins `b` puts its variant among what the pass
/// collects.
proof fn lemma_prefix_pass_hit(b: Seq<char>, sw: Seq<(Seq<char>, Seq<char>)>, out: Seq<Seq<char>>, k: int)
    requires
        0 <= k < sw.len(),
        sw[k].0.len() <= b.len(),
        b.subrange(0, sw[k].0.len() as int) == sw[k].0,
    ensures
        prefix_pass(b, sw, out).contains(sw[k].1 + b.subrange(sw[k].0.len() as int, b.len() as int)),
    decreases sw.len(),
{
    let f = sw[0].0;
    let t = sw[0].1;
    let out2 = if f.len() <= b.len() && b.subrange(0, f.len() as int) == f {
        add_new(out, t + b.subrange(f.len() as int, b.len() as int))
    } else {
        out
    };
    if k == 0 {
        let x = t + b.subrange(f.len() as int, b.len() as int);
        if !out.contains(x) {
            assert(out.push(x)[out.len() as int] == x);
        }
        assert(out2.contains(x));
        let m = choose|m: int| 0 <= m < out2.len() && out2[m] == x;
        lemma_prefix_pass_keeps(b, sw.drop_first(), out2);
        assert(prefix_pass(b, sw, out)[m] == x);
    } else {
        assert(sw.drop_first()[k - 1] == sw[k]);
        lemma_prefix_pass_hit(b, sw.drop_first(), out2, k - 1);
    }
}

/// A swap whose source ends `b`, with a stem left before it, puts its
/// variant among what the pass collects.
proof fn lemma_suffix_pass_hit(b: Seq<char>, sw: Seq<(Seq<char>, Seq<char>)>, out: Seq<Seq<char>>, k: int)
    requires
        0 <= k < sw.len(),
        sw[k].0.len() < b.len(),
        b.subrange(b.len() - sw[k].0.len(), b.len() as int) == sw[k].0,
    ensures
        suffix_pass(b, sw, out).contains(b.subrange(0, b.len() - sw[k].0.len()) + sw[k].1),
    decreases sw.len(),
{
    let f = sw[0].0;
    let t = sw[0].1;
    let out2 = if f.len() < b.len() && b.subrange(b.len() - f.len(), b.len() as int) == f {
        add_new(out, b.subrange(0, b.len() - f.len()) + t)
    } else {
        out
    };
    if k == 0 {
        let x = b.subrange(0, b.len() - f.len()) + t;
        if !out.contains(x) {
            assert(out.push(x)[out.len() as int] == x);
        }
        assert(out2.contains(x));
        let m = choose|m: int| 0 <= m < out2.len() && out2[m] == x;
        lemma_suffix_pass_keeps(b, sw.drop_first(), out2);
        assert(suffix_pass(b, sw, out)[m] == x);
    } else {
        assert(sw.drop_first()[k - 1] == sw[k]);
        lemma_suffix_pass_hit(b, sw.drop_first(), out2, k - 1);
    }
}

/// Initial swap `k` applied to `b` is among its variants.
proof fn lemma_initial_swap_listed(b: Seq<char>, k: int)
    requires
        0 <= k < initial_swaps().len(),
        initial_swaps()[k].0.len() <= b.len(),
        b.subrange(0, initial_swaps()[k].0.len() as int) == initial_swaps()[k].0,
    ensures
        variants_of(b).contains(initial_swaps()[k].1 + b.subrange(initial_swaps()[k].0.len() as int, b.len() as int)),
{
    let p = prefix_pass(b, initial_swaps(), seq![b]);
    lemma_prefix_pass_hit(b, initial_swaps(), seq![b], k);
    let x = initial_swaps()[k].1 + b.subrange(initial_swaps()[k].0.len() as int, b.len() as int);
    let m = choose|m: int| 0 <= m < p.len() && p[m] == x;
    lemma_suffix_pass_keeps(b, final_swaps(), p);
    assert(variants_of(b)[m] == x);
}

/// Final swap `k` applied to `b` is among its variants.
proof fn lemma_final_swap_listed(b: Seq<char>, k: int)
    requires
        0 <= k < final_swaps().len(),
        final_swaps()[k].0.len() < b.len(),
        b.subrange(b.len() - final_swaps()[k].0.len(), b.len() as int) == final_swaps()[k].0,
    ensures
        variants_of(b).contains(b.subrange(0, b.len() - final_swaps()[k].0.len()) + final_swaps()[k].1),
{
    lemma_suffix_pass_hit(b, final_swaps(), prefix_pass(b, initial_swaps(), seq![b]), k);
}

/// The buffer comes first among its variants, and each single swap that
/// applies is among them: `zh`↔`z`, `ch`↔`c`, `sh`↔`s`, `n`↔`l`, `f`↔`h`
/// and `r`→`l` on the first letters (the rest kept), `ing`↔`in`,
/// `eng`↔`en`, `ang`↔`an` on the last letters when a stem remains.
pub proof fn lemma_variants_hold_each_swap(b: Seq<char>)
    ensures
        variants_of(b).len() >= 1,
        variants_of(b)[0] == b,
        b.len() >= 2 && b[0] == 'z' && b[1] == 'h' ==> variants_of(b).contains(seq!['z'] + b.skip(2)),
        b.len() >= 1 && b[0] == 'z' ==> variants_of(b).contains(seq!['z', 'h'] + b.skip(1)),
        b.len() >= 2 && b[0] == 'c' && b[1] == 'h' ==> variants_of(b).contains(seq!['c'] + b.skip(2)),
        b.len() >= 1 && b[0] == 'c' ==> variants_of(b).contains(seq!['c', 'h'] + b.skip(1)),
        b.len() >= 2 && b[0] == 's' && b[1] == 'h' ==> variants_of(b).contains(seq!['s'] + b.skip(2)),
        b.len() >= 1 && b[0] == 's' ==> variants_of(b).contains(seq!['s', 'h'] + b.skip(1)),
        b.len() >= 1 && b[0] == 'n' ==> variants_of(b).contains(seq!['l'] + b.skip(1)),
        b.len() >= 1 && b[0] == 'l' ==> variants_of(b).contains(seq!['n'] + b.skip(1)),
        b.len() >= 1 && b[0] == 'f' ==> variants_of(b).contains(seq!['h'] + b.skip(1)),
        b.len() >= 1 && b[0] == 'h' ==> variants_of(b).contains(seq!['f'] + b.skip(1)),
        b.len() >= 1 && b[0] == 'r' ==> variants_of(b).contains(seq!['l'] + b.skip(1)),
        b.len() > 3 && b.skip(b.len() - 3) == seq!['i', 'n', 'g'] ==> variants_of(b).contains(
            b.take(b.len() - 3) + seq!['i', 'n'],
        ),
        b.len() > 2 && b.skip(b.len() - 2) == seq!['i', 'n'] ==> variants_of(b).contains(
            b.take(b.len() - 2) + seq!['i', 'n', 'g'],
        ),
        b.len() > 3 && b.skip(b.len() - 3) == seq!['e', 'n', 'g'] ==> variants_of(b).contains(
            b.take(b.len() - 3) + seq!['e', 'n'],
        ),
        b.len() > 2 && b.skip(b.len() - 2) == seq!['e', 'n'] ==> variants_of(b).contains(
            b.take(b.len() - 2) + seq!['e', 'n', 'g'],
        ),
        b.len() > 3 && b.skip(b.len() - 3) == seq!['a', 'n', 'g'] ==> variants_of(b).contains(
            b.take(b.len() - 3) + seq!['a', 'n'],
        ),
        b.len() > 2 && b.skip(b.len() - 2) == seq!['a', 'n'] ==> variants_of(b).contains(
            b.take(b.len() - 2) + seq!['a', 'n', 'g'],
        ),
{
    reveal_strlit("zh");
    reveal_strlit("z");
    reveal_strlit("ch");
    reveal_strlit("c");
    reveal_strlit("sh");
    reveal_strlit("s");
    reveal_strlit("n");
    reveal_strlit("l");
    reveal_strlit("f");
    reveal_strlit("h");
    reveal_strlit("r");
    reveal_strlit("ing");
    reveal_strlit("in");
    reveal_strlit("eng");
    reveal_strlit("en");
    reveal_strlit("ang");
    reveal_strlit("an");
    let p = prefix_pass(b, initial_swaps(), seq![b]);
    lemma_prefix_pass_keeps(b, initial_swaps(), seq![b]);
    lemma_suffix_pass_keeps(b, final_swaps(), p);
    assert(p[0] == b);
    let sw = initial_swaps();
    let fw = final_swaps();
    if b.len() >= 2 && b[0] == 'z' && b[1] == 'h' {
        assert(b.subrange(0, 2) =~= sw[0].0);
        lemma_initial_swap_listed(b, 0);
        assert(sw[0].1 + b.subrange(2, b.len() as int) =~= seq!['z'] + b.skip(2));
    }
    if b.len() >= 1 && b[0] == 'z' {
        assert(b.subrange(0, 1) =~= sw[1].0);
        lemma_initial_swap_listed(b, 1);
        assert(sw[1].1 + b.subrange(1, b.len() as int) =~= seq!['z', 'h'] + b.skip(1));
    }
    if b.len() >= 2 && b[0] == 'c' && b[1] == 'h' {
        assert(b.subrange(0, 2) =~= sw[2].0);
        lemma_initial_swap_listed(b, 2);
        assert(sw[2].1 + b.subrange(2, b.len() as int) =~= seq!['c'] + b.skip(2));
    }
    if b.len() >= 1 && b[0] == 'c' {
        assert(b.subrange(0, 1) =~= sw[3].0);
        lemma_initial_swap_listed(b, 3);
        assert(sw[3].1 + b.subrange(1, b.len() as int) =~= seq!['c', 'h'] + b.skip(1));
    }
    if b.len() >= 2 && b[0] == 's' && b[1] == 'h' {
        assert(b.subrange(0, 2) =~= sw[4].0);
        lemma_initial_swap_listed(b, 4);
        assert(sw[4].1 + b.subrange(2, b.len() as int) =~= seq!['s'] + b.skip(2));
    }
    if b.len() >= 1 && b[0] == 's' {
        assert(b.subrange(0, 1) =~= sw[5].0);
        lemma_initial_swap_listed(b, 5);
        assert(sw[5].1 + b.subrange(1, b.len() as int) =~= seq!['s', 'h'] + b.skip(1));
    }
    if b.len() >= 1 && b[0] == 'n' {
        assert(b.subrange(0, 1) =~= sw[6].0);
        lemma_initial_swap_listed(b, 6);
        assert(sw[6].1 + b.subrange(1, b.len() as int) =~= seq!['l'] + b.skip(1));
    }
    if b.len() >= 1 && b[0] == 'l' {
        assert(b.subrange(0, 1) =~= sw[7].0);
        lemma_initial_swap_listed(b, 7);
        assert(sw[7].1 + b.subrange(1, b.len() as int) =~= seq!['n'] + b.skip(1));
    }
    if b.len() >= 1 && b[0] == 'f' {
        assert(b.subrange(0, 1) =~= sw[8].0);
        lemma_initial_swap_listed(b, 8);
        assert(sw[8].1 + b.subrange(1, b.len() as int) =~= seq!['h'] + b.skip(1));
    }
    if b.len() >= 1 && b[0] == 'h' {
        assert(b.subrange(0, 1) =~= sw[9].0);
        lemma_initial_swap_listed(b, 9);
        assert(sw[9].1 + b.subrange(1, b.len() as int) =~= seq!['f'] + b.skip(1));
    }
    if b.len() >= 1 && b[0] == 'r' {
        assert(b.subrange(0, 1) =~= sw[10].0);
        lemma_initial_swap_listed(b, 10);
        assert(sw[10].1 + b.subrange(1, b.len() as int) =~= seq!['l'] + b.skip(1));
    }
    let n = b.len() as int;
    if b.len() > 3 && b.skip(n - 3) == seq!['i', 'n', 'g'] {
        assert(b.subrange(n - 3, n) =~= fw[0].0);
        lemma_final_swap_listed(b, 0);
        assert(b.subrange(0, n - 3) + fw[0].1 =~= b.take(n - 3) + seq!['i', 'n']);
    }
    if b.len() > 2 && b.skip(n - 2) == seq!['i', 'n'] {
        assert(b.subrange(n - 2, n) =~= fw[1].0);
        lemma_final_swap_listed(b, 1);
        assert(b.subrange(0, n - 2) + fw[1].1 =~= b.take(n - 2) + seq!['i', 'n', 'g']);
    }
    if b.len() > 3 && b.skip(n - 3) == seq!['e', 'n', 'g'] {
        assert(b.subrange(n - 3, n) =~= fw[2].0);
        lemma_final_swap_listed(b, 2);
        assert(b.subrange(0, n - 3) + fw[2].1 =~= b.take(n - 3) + seq!['e', 'n']);
    }
    if b.len() > 2 && b.skip(n - 2) == seq!['e', 'n'] {
        assert(b.subrange(n - 2, n) =~= fw[3].0);
        lemma_final_swap_listed(b, 3);
        assert(b.subrange(0, n - 2) + fw[3].1 =~= b.take(n - 2) + seq!['e', 'n', 'g']);
    }
    if b.len() > 3 && b.skip(n - 3) == seq!['a', 'n', 'g'] {
        assert(b.subrange(n - 3, n) =~= fw[4].0);
        lemma_final_swap_listed(b, 4);
        assert(b.subrange(0, n - 3) + fw[4].1 =~= b.take(n - 3) + seq!['a', 'n']);
    }
    if b.len() > 2 && b.skip(n - 2) == seq!['a', 'n'] {
        assert(b.subrange(n - 2, n) =~= fw[5].0);
        lemma_final_swap_listed(b, 5);
        assert(b.subrange(0, n - 2) + fw[5].1 =~= b.take(n - 2) + seq!['a', 'n', 'g']);
    }
}

proof fn lemma_add_new_distinct(out: Seq<Seq<char>>, x: Seq<char>)
    requires
        out.no_duplicates(),
    ensures
        add_new(out, x).no_duplicates(),
{
    if !out.contains(x) {
        let r = out.push(x);
        assert forall|i: int, j: int| 0 <= i < r.len() && 0 <= j < r.len() && i != j implies r[i] != r[j] by {
            if i == out.len() && j < out.len() {
                assert(out[j] != x);
            } else if j == out.len() && i < out.len() {
                assert(out[i] != x);
            }
        }
    }
}

proof fn lemma_prefix_pass_distinct(b: Seq<char>, sw: Seq<(Seq<char>, Seq<char>)>, out: Seq<Seq<char>>)
    requires
        out.no_duplicates(),
    ensures
        prefix_pass(b, sw, out).no_duplicates(),
    decreases sw.len(),
{
    if sw.len() > 0 {
        let f = sw[0].0;
        let t = sw[0].1;
        let x = t + b.subrange(f.len() as int, b.len() as int);
        lemma_add_new_distinct(out, x);
        let out2 = if f.len() <= b.len() && b.subrange(0, f.len() as int) == f {
            add_new(out, x)
        } else {
            out
        };
        lemma_prefix_pass_distinct(b, sw.drop_first(), out2);
    }
}

proof fn lemma_suffix_pass_distinct(b: Seq<char>, sw: Seq<(Seq<char>, Seq<char>)>, out: Seq<Seq<char>>)
    requires
        out.no_duplicates(),
    ensures
        suffix_pass(b, sw, out).no_duplicates(),
    decreases sw.len(),
{
    if sw.len() > 0 {
        let f = sw[0].0;
        let t = sw[0].1;
        let x = b.subrange(0, b.len() - f.len()) + t;
        lemma_add_new_distinct(out, x);
        let out2 = if f.len() < b.len() && b.subrange(b.len() - f.len(), b.len() as int) == f {
            add_new(out, x)
        } else {
            out
        };
        lemma_suffix_pass_distinct(b, sw.drop_first(), out2);
    }
}

/// No variant is listed twice.
pub proof fn lemma_variants_distinct(b: Seq<char>)
    ensures
        variants_of(b).no_duplicates(),
{
    lemma_prefix_pass_distinct(b, initial_swaps(), seq![b]);
    lemma_suffix_pass_distinct(b, final_swaps(), prefix_pass(b, initial_swaps(), seq![b]));
}

/// Texts of strings.
pub open spec fn texts(v: Seq<String>) -> Seq<Seq<char>> {
    v.map_values(|s: String| s@)
}

/// Push `alt` unless `out` already holds it.
fn push_new(out: &mut Vec<String>, alt: String)
    ensures
        texts(final(out)@) == add_new(texts(old(out)@), alt@),
{
    let ghost o = texts(out@);
    let mut i: usize = 0;
    while i < out.len()
        invariant
            i <= out@.len(),
            o == texts(out@),
            forall|j: int| 0 <= j < i ==> (#[trigger] o[j]) != alt@,
        decreases out@.len() - i,
    {
        if str_eq(out[i].as_str(), alt.as_str()) {
            assert(o[i as int] == alt@);
            assert(o.contains(alt@));
            return;
        }
        i = i + 1;
    }
    assert(!o.contains(alt@));
    out.push(alt);
    assert(texts(out@) =~= o.push(alt@));
}

/// `buffer` and its dialect-tolerant single-swap variants: initial
/// swaps zh↔z, ch↔c, sh↔s, n↔l, f↔h, r→l on the first letters, then
/// final swaps ing↔in, eng↔en, ang↔an on the last letters when a stem
/// remains; each variant once, the buffer first.
pub fn fuzzy_buffer_variants(buffer: &str) -> (r: Vec<String>)
    ensures
        texts(r@) == variants_of(buffer@),
        r@.len() >= 1 && r@[0]@ == buffer@,
        texts(r@).no_duplicates(),
        buffer@.len() >= 1 && buffer@[0] == 'h' ==> texts(r@).contains(seq!['f'] + buffer@.skip(1)),
        buffer@.len() >= 1 && buffer@[0] == 'f' ==> texts(r@).contains(seq!['h'] + buffer@.skip(1)),
        buffer@.len() >= 1 && buffer@[0] == 'n' ==> texts(r@).contains(seq!['l'] + buffer@.skip(1)),
        buffer@.len() >= 1 && buffer@[0] == 'l' ==> texts(r@).contains(seq!['n'] + buffer@.skip(1)),
        buffer@.len() >= 1 && buffer@[0] == 'r' ==> texts(r@).contains(seq!['l'] + buffer@.skip(1)),
{
    let b = buffer;
    let n = b.unicode_len();
    let mut out: Vec<String> = Vec::new();
    out.push(crate::text::owned(b));
    assert(texts(out@) =~= seq![b@]);
    let isw: Vec<(&'static str, &'static str)> = vec![
        ("zh", "z"),
        ("z", "zh"),
        ("ch", "c"),
        ("c", "ch"),
        ("sh", "s"),
        ("s", "sh"),
        ("n", "l"),
        ("l", "n"),
        ("f", "h"),
        ("h", "f"),
        ("r", "l"),
    ];
    let ghost isv = isw@.map_values(|x: (&'static str, &'static str)| (x.0@, x.1@));
    assert(isv =~= initial_swaps());
    let mut i: usize = 0;
    assert(isv.skip(0) =~= isv);
    while i < isw.len()
        invariant
            n == b@.len(),
            i <= isw@.len(),
            isv == isw@.map_values(|x: (&'static str, &'static str)| (x.0@, x.1@)),
            prefix_pass(b@, isv, seq![b@]) == prefix_pass(b@, isv.skip(i as int), texts(out@)),
        decreases isw@.len() - i,
    {
        let f = isw[i].0;
        let t = isw[i].1;
        let fl = f.unicode_len();
        assert(isv.skip(i as int)[0] == (f@, t@));
        assert(isv.skip(i as int).drop_first() =~= isv.skip(i + 1));
        if fl <= n && str_eq(b.substring_char(0, fl), f) {
            let rest = b.substring_char(fl, n);
            let mut alt = String::new();
            alt.append(t);
            alt.append(rest);
            assert(alt@ =~= t@ + b@.subrange(f@.len() as int, b@.len() as int));
            push_new(&mut out, alt);
        }
        i = i + 1;
    }
    let fsw: Vec<(&'static str, &'static str)> = vec![
        ("ing", "in"),
        ("in", "ing"),
        ("eng", "en"),
        ("en", "eng"),
        ("ang", "an"),
        ("an", "ang"),
    ];
    let ghost fsv = fsw@.map_values(|x: (&'static str, &'static str)| (x.0@, x.1@));
    assert(fsv =~= final_swaps());
    assert(isv.skip(i as int) =~= Seq::<(Seq<char>, Seq<char>)>::empty());
    let mut k: usize = 0;
    assert(fsv.skip(0) =~= fsv);
    while k < fsw.len()
        invariant
            n == b@.len(),
            k <= fsw@.len(),
            fsv == fsw@.map_values(|x: (&'static str, &'static str)| (x.0@, x.1@)),
            fsv == final_swaps(),
            suffix_pass(b@, fsv, prefix_pass(b@, initial_swaps(), seq![b@])) == suffix_pass(b@, fsv.skip(k as int), texts(out@)),
        decreases fsw@.len() - k,
    {
        let f = fsw[k].0;
        let t = fsw[k].1;
        let fl = f.unicode_len();
        assert(fsv.skip(k as int)[0] == (f@, t@));
        assert(fsv.skip(k as int).drop_first() =~= fsv.skip(k + 1));
        if fl < n && str_eq(b.substring_char(n - fl, n), f) {
            let stem = b.substring_char(0, n - fl);
            let mut alt = String::new();
            alt.append(stem);
            alt.append(t);
            push_new(&mut out, alt);
        }
        k = k + 1;
    }
    assert(fsv.skip(k as int) =~= Seq::<(Seq<char>, Seq<char>)>::empty());
    proof {
        lemma_variants_hold_each_swap(b@);
        lemma_variants_distinct(b@);
    }
    out
}

} // verus!
