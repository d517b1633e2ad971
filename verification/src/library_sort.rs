//! The order in which a library file lists its rows: by code, word,
//! engine column and source (for wubi the engine column comes first),
//! rows whose keys are equal keeping the order they came in.

use vstd::prelude::*;
use vstd::utf8::encode_utf8;

use crate::ingest::{as_digested, copy_library_row, lib_view, libs_view, opt_bytes, LibView, LibraryRow, RowView};
use crate::ingest_parse::EngineKind;
use crate::text::{compare_bytes, lemma_seq_lt_irreflexive, lemma_seq_lt_total, lemma_seq_lt_trans, sbytes, seq_lt};

verus! {

/// One key field: an absent field sorts before any present one, present
/// fields compare byte-wise.
pub open spec fn field_lt(a: Option<Seq<u8>>, c: Option<Seq<u8>>) -> bool {
    match a {
        None => c is Some,
        Some(x) => match c {
            None => false,
            Some(y) => seq_lt(x, y),
        },
    }
}

/// The four fields a row sorts by, most significant first.
pub type SortKey = (Option<Seq<u8>>, Option<Seq<u8>>, Option<Seq<u8>>, Option<Seq<u8>>);

/// The key of a row: code, word, engine column, source; for wubi the
/// engine column (the row's rank) leads.
pub open spec fn sort_key(engine: EngineKind, r: LibView) -> SortKey {
    match engine {
        EngineKind::Wubi => (r.2, Some(r.0), Some(r.1), Some(encode_utf8(r.4))),
        _ => (Some(r.0), Some(r.1), r.2, Some(encode_utf8(r.4))),
    }
}

/// Lexicographic order on keys.
pub open spec fn key_lt(a: SortKey, c: SortKey) -> bool {
    field_lt(a.0, c.0) || (a.0 == c.0 && (field_lt(a.1, c.1) || (a.1 == c.1 && (field_lt(a.2, c.2) || (a.2
        == c.2 && field_lt(a.3, c.3))))))
}

/// Row `i` of `rows` goes before row `j`: its key sorts first, or the
/// keys are equal and it came first.
pub open spec fn goes_before(engine: EngineKind, rows: Seq<LibView>, i: int, j: int) -> bool {
    let a = sort_key(engine, rows[i]);
    let c = sort_key(engine, rows[j]);
    key_lt(a, c) || (a == c && i < j)
}

/// `p` lists positions of `rows` in library order and `out` is the rows
/// at those positions.
pub open spec fn orders(engine: EngineKind, rows: Seq<LibView>, out: Seq<LibView>, p: Seq<int>) -> bool {
    &&& p.len() == rows.len()
    &&& out.len() == rows.len()
    &&& forall|k: int| 0 <= k < p.len() ==> 0 <= #[trigger] p[k] < rows.len() && out[k] == rows[p[k]]
    &&& forall|k: int, l: int| 0 <= k < l < p.len() ==> goes_before(engine, rows, #[trigger] p[k], #[trigger] p[l])
}

/// `out` is `rows` rearranged into library order (a stable sort by key).
pub open spec fn in_library_order(engine: EngineKind, rows: Seq<LibView>, out: Seq<LibView>) -> bool {
    exists|p: Seq<int>| orders(engine, rows, out, p)
}

pub proof fn lemma_field_total(a: Option<Seq<u8>>, c: Option<Seq<u8>>)
    ensures
        field_lt(a, c) || a == c || field_lt(c, a),
        !(field_lt(a, c) && field_lt(c, a)),
        !field_lt(a, a),
{
    if let Some(x) = a {
        lemma_seq_lt_irreflexive(x);
    }
    match (a, c) {
        (Some(x), Some(y)) => {
            lemma_seq_lt_total(x, y);
        },
        (Some(x), None) => {
            lemma_seq_lt_irreflexive(x);
        },
        _ => {},
    }
}

pub proof fn lemma_field_trans(a: Option<Seq<u8>>, c: Option<Seq<u8>>, d: Option<Seq<u8>>)
    requires
        field_lt(a, c),
        field_lt(c, d),
    ensures
        field_lt(a, d),
{
    match (a, c, d) {
        (Some(x), Some(y), Some(z)) => {
            lemma_seq_lt_trans(x, y, z);
        },
        _ => {},
    }
}

pub proof fn lemma_key_total(a: SortKey, c: SortKey)
    ensures
        key_lt(a, c) || a == c || key_lt(c, a),
        !(key_lt(a, c) && key_lt(c, a)),
        !key_lt(a, a),
{
    lemma_field_total(a.0, c.0);
    lemma_field_total(a.1, c.1);
    lemma_field_total(a.2, c.2);
    lemma_field_total(a.3, c.3);
}

pub proof fn lemma_key_trans(a: SortKey, c: SortKey, d: SortKey)
    requires
        key_lt(a, c),
        key_lt(c, d),
    ensures
        key_lt(a, d),
{
    lemma_key_total(a, c);
    lemma_key_total(c, d);
    lemma_field_total(a.0, d.0);
    if field_lt(a.0, c.0) && field_lt(c.0, d.0) {
        lemma_field_trans(a.0, c.0, d.0);
    }
    if a.0 == c.0 && c.0 == d.0 {
        if field_lt(a.1, c.1) && field_lt(c.1, d.1) {
            lemma_field_trans(a.1, c.1, d.1);
        }
        if a.1 == c.1 && c.1 == d.1 {
            if field_lt(a.2, c.2) && field_lt(c.2, d.2) {
                lemma_field_trans(a.2, c.2, d.2);
            }
            if a.2 == c.2 && c.2 == d.2 {
                lemma_field_trans(a.3, c.3, d.3);
            }
        }
    }
}

/// `goes_before` is a strict total order on the positions of `rows`.
pub proof fn lemma_before_total(engine: EngineKind, rows: Seq<LibView>, i: int, j: int)
    ensures
        i != j ==> goes_before(engine, rows, i, j) || goes_before(engine, rows, j, i),
        !(goes_before(engine, rows, i, j) && goes_before(engine, rows, j, i)),
        !goes_before(engine, rows, i, i),
{
    lemma_key_total(sort_key(engine, rows[i]), sort_key(engine, rows[j]));
}

pub proof fn lemma_before_trans(engine: EngineKind, rows: Seq<LibView>, i: int, j: int, k: int)
    requires
        goes_before(engine, rows, i, j),
        goes_before(engine, rows, j, k),
    ensures
        goes_before(engine, rows, i, k),
{
    let a = sort_key(engine, rows[i]);
    let c = sort_key(engine, rows[j]);
    let d = sort_key(engine, rows[k]);
    lemma_key_total(a, c);
    lemma_key_total(c, d);
    lemma_key_total(a, d);
    if key_lt(a, c) && key_lt(c, d) {
        lemma_key_trans(a, c, d);
    }
}

/// Byte-wise comparison of two present fields.
fn text_order(a: &String, c: &String) -> (r: i8)
    ensures
        r == -1 <==> field_lt(Some(sbytes(*a)), Some(sbytes(*c))),
        r == 0 <==> sbytes(*a) == sbytes(*c),
        r == 1 <==> field_lt(Some(sbytes(*c)), Some(sbytes(*a))),
{
    compare_bytes(a.as_str().as_bytes(), c.as_str().as_bytes())
}

/// Comparison of two fields that may be absent.
fn field_order(a: &Option<String>, c: &Option<String>) -> (r: i8)
    ensures
        r == -1 <==> field_lt(opt_bytes(*a), opt_bytes(*c)),
        r == 0 <==> opt_bytes(*a) == opt_bytes(*c),
        r == 1 <==> field_lt(opt_bytes(*c), opt_bytes(*a)),
{
    match (a, c) {
        (None, None) => 0,
        (None, Some(_)) => -1,
        (Some(_), None) => 1,
        (Some(x), Some(y)) => text_order(x, y),
    }
}

/// Comparison of the keys of two rows: `-1`, `0` or `1` as the first
/// key sorts before, equal to or after the second.
fn key_order(engine: EngineKind, a: &LibraryRow, c: &LibraryRow) -> (r: i8)
    ensures
        r == -1 <==> key_lt(sort_key(engine, lib_view(*a)), sort_key(engine, lib_view(*c))),
        r == 0 <==> sort_key(engine, lib_view(*a)) == sort_key(engine, lib_view(*c)),
        r == 1 <==> key_lt(sort_key(engine, lib_view(*c)), sort_key(engine, lib_view(*a))),
{
    let ghost ka = sort_key(engine, lib_view(*a));
    let ghost kc = sort_key(engine, lib_view(*c));
    proof {
        lemma_key_total(ka, kc);
        lemma_field_total(ka.0, kc.0);
        lemma_field_total(ka.1, kc.1);
        lemma_field_total(ka.2, kc.2);
        lemma_field_total(ka.3, kc.3);
    }
    let r0 = match engine {
        EngineKind::Wubi => field_order(&a.extra, &c.extra),
        _ => text_order(&a.code, &c.code),
    };
    if r0 != 0 {
        return r0;
    }
    let r1 = match engine {
        EngineKind::Wubi => text_order(&a.code, &c.code),
        _ => text_order(&a.word, &c.word),
    };
    if r1 != 0 {
        return r1;
    }
    let r2 = match engine {
        EngineKind::Wubi => text_order(&a.word, &c.word),
        _ => field_order(&a.extra, &c.extra),
    };
    if r2 != 0 {
        return r2;
    }
    let r3 = text_order(&a.source, &c.source);
    proof {
        if r3 == 0 {
            assert(ka == kc);
        }
    }
    r3
}

/// Whether row `i` goes before row `j`.
fn before_at(engine: EngineKind, rows: &Vec<LibraryRow>, i: usize, j: usize) -> (r: bool)
    requires
        i < rows@.len(),
        j < rows@.len(),
    ensures
        r == goes_before(engine, libs_view(rows@), i as int, j as int),
{
    let k = key_order(engine, &rows[i], &rows[j]);
    k == -1 || (k == 0 && i < j)
}

/// Every pair of positions in `s` is in library order.
pub open spec fn strictly_ordered(engine: EngineKind, rows: Seq<LibView>, s: Seq<usize>) -> bool {
    forall|a: int, b: int| 0 <= a < b < s.len() ==> goes_before(engine, rows, #[trigger] s[a] as int, #[trigger] s[b] as int)
}

/// Every entry of `s` is a position of `rows`.
pub open spec fn in_range(s: Seq<usize>, n: int) -> bool {
    forall|a: int| 0 <= a < s.len() ==> #[trigger] s[a] < n
}

/// Merge two position lists that are each in library order and share no
/// position.
fn merge_positions(engine: EngineKind, rows: &Vec<LibraryRow>, l: &Vec<usize>, r: &Vec<usize>) -> (out: Vec<usize>)
    requires
        strictly_ordered(engine, libs_view(rows@), l@),
        strictly_ordered(engine, libs_view(rows@), r@),
        in_range(l@, rows@.len() as int),
        in_range(r@, rows@.len() as int),
        forall|a: int, b: int| 0 <= a < l@.len() && 0 <= b < r@.len() ==> #[trigger] l@[a] != #[trigger] r@[b],
    ensures
        strictly_ordered(engine, libs_view(rows@), out@),
        in_range(out@, rows@.len() as int),
        out@.len() == l@.len() + r@.len(),
        forall|k: int| 0 <= k < out@.len() ==> l@.contains(#[trigger] out@[k]) || r@.contains(out@[k]),
{
    let ghost v = libs_view(rows@);
    let mut out: Vec<usize> = Vec::new();
    let mut i: usize = 0;
    let mut j: usize = 0;
    while i < l.len() || j < r.len()
        invariant
            v == libs_view(rows@),
            strictly_ordered(engine, v, l@),
            strictly_ordered(engine, v, r@),
            in_range(l@, rows@.len() as int),
            in_range(r@, rows@.len() as int),
            forall|a: int, b: int| 0 <= a < l@.len() && 0 <= b < r@.len() ==> #[trigger] l@[a] != #[trigger] r@[b],
            i <= l@.len(),
            j <= r@.len(),
            out@.len() == i + j,
            strictly_ordered(engine, v, out@),
            in_range(out@, rows@.len() as int),
            forall|k: int| 0 <= k < out@.len() ==> l@.contains(#[trigger] out@[k]) || r@.contains(out@[k]),
            out@.len() > 0 && i < l@.len() ==> goes_before(engine, v, out@.last() as int, l@[i as int] as int),
            out@.len() > 0 && j < r@.len() ==> goes_before(engine, v, out@.last() as int, r@[j as int] as int),
        decreases l@.len() + r@.len() - i - j,
    {
        let take_left = if i < l.len() && j < r.len() {
            before_at(engine, rows, l[i], r[j])
        } else {
            i < l.len()
        };
        let ghost before = out@;
        let y = if take_left {
            l[i]
        } else {
            r[j]
        };
        out.push(y);
        proof {
            let o = out@;
            assert(o =~= before.push(y));
            assert forall|a: int, b: int| 0 <= a < b < o.len() implies goes_before(
                engine,
                v,
                #[trigger] o[a] as int,
                #[trigger] o[b] as int,
            ) by {
                if b == o.len() - 1 && a < before.len() - 1 {
                    assert(goes_before(engine, v, before[a] as int, before.last() as int));
                    lemma_before_trans(engine, v, before[a] as int, before.last() as int, y as int);
                }
            }
            if take_left {
                assert(l@.contains(o[o.len() - 1]));
                if i + 1 < l@.len() {
                    assert(goes_before(engine, v, l@[i as int] as int, l@[i + 1] as int));
                }
            } else {
                assert(r@.contains(o[o.len() - 1]));
                if j + 1 < r@.len() {
                    assert(goes_before(engine, v, r@[j as int] as int, r@[j + 1] as int));
                }
                if i < l@.len() {
                    assert(l@[i as int] != r@[j as int]);
                    lemma_before_total(engine, v, l@[i as int] as int, r@[j as int] as int);
                }
            }
            assert forall|k: int| 0 <= k < o.len() implies l@.contains(#[trigger] o[k]) || r@.contains(o[k]) by {
                if k < before.len() {
                    assert(o[k] == before[k]);
                }
            }
        }
        if take_left {
            i = i + 1;
        } else {
            j = j + 1;
        }
    }
    out
}

/// The positions `v` of `rows`, rearranged into library order.
fn sort_positions(engine: EngineKind, rows: &Vec<LibraryRow>, v: Vec<usize>) -> (out: Vec<usize>)
    requires
        in_range(v@, rows@.len() as int),
        forall|a: int, b: int| 0 <= a < b < v@.len() ==> #[trigger] v@[a] != #[trigger] v@[b],
    ensures
        strictly_ordered(engine, libs_view(rows@), out@),
        in_range(out@, rows@.len() as int),
        out@.len() == v@.len(),
        forall|k: int| 0 <= k < out@.len() ==> v@.contains(#[trigger] out@[k]),
    decreases v@.len(),
{
    if v.len() <= 1 {
        proof {
            assert forall|k: int| 0 <= k < v@.len() implies v@.contains(#[trigger] v@[k]) by {}
        }
        return v;
    }
    let mid = v.len() / 2;
    let mut left = v;
    let ghost whole = left@;
    let right = left.split_off(mid);
    proof {
        assert(whole =~= left@ + right@);
        assert forall|a: int, b: int| 0 <= a < b < left@.len() implies #[trigger] left@[a] != #[trigger] left@[b] by {
            assert(left@[a] == whole[a] && left@[b] == whole[b]);
        }
        assert forall|a: int, b: int| 0 <= a < b < right@.len() implies #[trigger] right@[a] != #[trigger] right@[b] by {
            assert(right@[a] == whole[mid + a] && right@[b] == whole[mid + b]);
        }
        assert forall|a: int| 0 <= a < left@.len() implies #[trigger] left@[a] < rows@.len() by {
            assert(left@[a] == whole[a]);
        }
        assert forall|a: int| 0 <= a < right@.len() implies #[trigger] right@[a] < rows@.len() by {
            assert(right@[a] == whole[mid + a]);
        }
    }
    let ghost lv = left@;
    let ghost rv = right@;
    let sl = sort_positions(engine, rows, left);
    let sr = sort_positions(engine, rows, right);
    proof {
        assert forall|a: int, b: int| 0 <= a < sl@.len() && 0 <= b < sr@.len() implies #[trigger] sl@[a]
            != #[trigger] sr@[b] by {
            assert(lv.contains(sl@[a]));
            assert(rv.contains(sr@[b]));
            let x = choose|x: int| 0 <= x < lv.len() && lv[x] == sl@[a];
            let y = choose|y: int| 0 <= y < rv.len() && rv[y] == sr@[b];
            assert(lv[x] == whole[x]);
            assert(rv[y] == whole[mid + y]);
        }
    }
    let out = merge_positions(engine, rows, &sl, &sr);
    proof {
        assert forall|k: int| 0 <= k < out@.len() implies whole.contains(#[trigger] out@[k]) by {
            if sl@.contains(out@[k]) {
                let a = choose|a: int| 0 <= a < sl@.len() && sl@[a] == out@[k];
                assert(lv.contains(sl@[a]));
                let x = choose|x: int| 0 <= x < lv.len() && lv[x] == sl@[a];
                assert(whole[x] == lv[x]);
            } else {
                let b = choose|b: int| 0 <= b < sr@.len() && sr@[b] == out@[k];
                assert(rv.contains(sr@[b]));
                let y = choose|y: int| 0 <= y < rv.len() && rv[y] == sr@[b];
                assert(whole[mid + y] == rv[y]);
            }
        }
    }
    out
}

/// Put library rows in the order the library file lists them: by code,
/// word, engine column and source, or for wubi by engine column, code,
/// word and source; rows with equal keys keep their order.
pub fn sort_rows(rows: &mut Vec<LibraryRow>, engine: EngineKind)
    ensures
        in_library_order(engine, libs_view(old(rows)@), libs_view(final(rows)@)),
        forall|k: int, l: int|
            0 <= k < l < final(rows)@.len() ==> !key_lt(
                sort_key(engine, #[trigger] libs_view(final(rows)@)[l]),
                sort_key(engine, #[trigger] libs_view(final(rows)@)[k]),
            ),
{
    let n = rows.len();
    let ghost v = libs_view(rows@);
    let mut idx: Vec<usize> = Vec::new();
    let mut i: usize = 0;
    while i < n
        invariant
            n == rows@.len(),
            i <= n,
            idx@.len() == i,
            forall|a: int| 0 <= a < i ==> #[trigger] idx@[a] == a,
        decreases n - i,
    {
        idx.push(i);
        i = i + 1;
    }
    let order = sort_positions(engine, rows, idx);
    let mut out: Vec<LibraryRow> = Vec::new();
    let mut k: usize = 0;
    while k < n
        invariant
            n == rows@.len(),
            v == libs_view(rows@),
            order@.len() == n,
            in_range(order@, n as int),
            k <= n,
            out@.len() == k,
            forall|a: int| 0 <= a < k ==> #[trigger] libs_view(out@)[a] == v[order@[a] as int],
        decreases n - k,
    {
        let row = copy_library_row(&rows[order[k]]);
        let ghost before = libs_view(out@);
        out.push(row);
        proof {
            assert(libs_view(out@) =~= before.push(lib_view(row)));
            assert forall|a: int| 0 <= a < k + 1 implies #[trigger] libs_view(out@)[a] == v[order@[a] as int] by {
                assert(libs_view(out@)[a] == lib_view(out@[a]));
            }
        }
        k = k + 1;
    }
    let ghost p: Seq<int> = order@.map_values(|x: usize| x as int);
    proof {
        let o = libs_view(out@);
        assert(orders(engine, v, o, p));
        assert forall|a: int, b: int| 0 <= a < b < o.len() implies !key_lt(
            sort_key(engine, #[trigger] o[b]),
            sort_key(engine, #[trigger] o[a]),
        ) by {
            assert(goes_before(engine, v, p[a], p[b]));
            lemma_key_total(sort_key(engine, v[p[a]]), sort_key(engine, v[p[b]]));
        }
    }
    *rows = out;
}


/// Sorting into library order loses no row: every row of `rows` is a
/// row of `out`.
pub proof fn lemma_library_order_keeps_rows(engine: EngineKind, rows: Seq<LibView>, out: Seq<LibView>)
    requires
        in_library_order(engine, rows, out),
    ensures
        forall|i: int| 0 <= i < rows.len() ==> out.contains(#[trigger] rows[i]),
{
    let p = choose|p: Seq<int>| orders(engine, rows, out, p);
    let n = rows.len() as int;
    assert(p.no_duplicates()) by {
        assert forall|k: int, l: int| 0 <= k < p.len() && 0 <= l < p.len() && k != l implies p[k] != p[l] by {
            if k < l {
                assert(goes_before(engine, rows, p[k], p[l]));
            } else {
                assert(goes_before(engine, rows, p[l], p[k]));
            }
            lemma_before_total(engine, rows, p[k], p[l]);
        }
    }
    p.unique_seq_to_set();
    vstd::set_lib::lemma_int_range(0, n);
    let r = vstd::set_lib::set_int_range(0, n);
    assert(p.to_set().subset_of(r)) by {
        assert forall|x: int| p.to_set().contains(x) implies r.contains(x) by {
            let k = choose|k: int| 0 <= k < p.len() && p[k] == x;
        }
    }
    vstd::set_lib::lemma_subset_equality(p.to_set(), r);
    assert forall|i: int| 0 <= i < rows.len() implies out.contains(#[trigger] rows[i]) by {
        assert(r.contains(i));
        assert(p.to_set().contains(i));
        let k = choose|k: int| 0 <= k < p.len() && p[k] == i;
        assert(out[k] == rows[p[k]]);
    }
}

/// Ingesting deletes nothing: once the added rows are appended as
/// digested rows and the library is put back in order, every row it
/// held before is still there.
pub proof fn lemma_ingest_keeps_library(
    engine: EngineKind,
    library: Seq<LibView>,
    added: Seq<RowView>,
    out: Seq<LibView>,
)
    requires
        in_library_order(engine, library + added.map_values(|x: RowView| as_digested(x)), out),
    ensures
        forall|i: int| 0 <= i < library.len() ==> out.contains(#[trigger] library[i]),
{
    let all = library + added.map_values(|x: RowView| as_digested(x));
    lemma_library_order_keeps_rows(engine, all, out);
    assert forall|i: int| 0 <= i < library.len() implies out.contains(#[trigger] library[i]) by {
        assert(all[i] == library[i]);
    }
}

} // verus!
