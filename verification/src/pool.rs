//! The string pool shared by the dictionary and n-gram writers: the
//! distinct strings in byte order, each followed by a zero byte, padded
//! with zeros to a multiple of 8. Offsets into it must fit in 24 bits.

use vstd::prelude::*;

use crate::fsa::dict::deep_triples;
use crate::fsa::reader::slice_to_vec_u8;
use crate::fsa::sort::{count_of, lemma_count_concat, sort_triples, tri_lt, tri_sorted};
use crate::idf::zero_end;
use crate::ngram::pool_bytes;
use crate::text::{bytes_eq, compare_bytes, lemma_seq_lt_total, lemma_seq_lt_trans, seq_lt};

verus! {

/// The strings of `u`, each followed by a zero byte.
pub open spec fn flat(u: Seq<Seq<u8>>) -> Seq<u8>
    decreases u.len(),
{
    if u.len() == 0 {
        Seq::empty()
    } else {
        flat(u.drop_last()) + u.last() + seq![0u8]
    }
}

/// Offset of string `k` of `u` in `flat(u)`.
pub open spec fn off_of(u: Seq<Seq<u8>>, k: int) -> int {
    flat(u.take(k)).len() as int
}

/// Strictly increasing in byte order.
pub open spec fn strictly_sorted(u: Seq<Seq<u8>>) -> bool {
    forall|i: int, j: int| 0 <= i < j < u.len() ==> seq_lt(#[trigger] u[i], #[trigger] u[j])
}

/// No zero byte in `s`.
pub open spec fn no_nul(s: Seq<u8>) -> bool {
    forall|i: int| 0 <= i < s.len() ==> s[i] != 0
}

/// Every string of `u` starts below 2^24.
pub open spec fn pool_fits(u: Seq<Seq<u8>>) -> bool {
    forall|k: int| 0 <= k < u.len() ==> off_of(u, k) <= 0xFF_FFFF
}

/// `p` padded with zeros to a multiple of 8.
pub open spec fn pad8(p: Seq<u8>) -> Seq<u8> {
    p + Seq::new(((8 - p.len() % 8) % 8) as nat, |i: int| 0u8)
}

/// Total length of the strings of `s` plus one per string.
pub open spec fn strings_total(s: Seq<Seq<u8>>) -> nat
    decreases s.len(),
{
    if s.len() == 0 {
        0
    } else {
        strings_total(s.drop_last()) + s.last().len() + 1
    }
}

pub proof fn lemma_flat_len(u: Seq<Seq<u8>>)
    ensures
        flat(u).len() == strings_total(u),
    decreases u.len(),
{
    if u.len() > 0 {
        lemma_flat_len(u.drop_last());
    }
}

/// `flat(u.take(k))` is a prefix of `flat(u)`.
pub proof fn lemma_flat_prefix(u: Seq<Seq<u8>>, k: int)
    requires
        0 <= k <= u.len(),
    ensures
        flat(u.take(k)).len() <= flat(u).len(),
        flat(u).subrange(0, flat(u.take(k)).len() as int) == flat(u.take(k)),
    decreases u.len() - k,
{
    if k == u.len() {
        assert(u.take(k) =~= u);
        assert(flat(u).subrange(0, flat(u).len() as int) =~= flat(u));
    } else {
        lemma_flat_prefix(u, k + 1);
        let a = u.take(k + 1);
        assert(a.drop_last() =~= u.take(k));
        let fa = flat(a);
        let fk = flat(u.take(k));
        assert(fa == fk + u[k] + seq![0u8]);
        assert(flat(u).subrange(0, fk.len() as int) =~= fa.subrange(0, fk.len() as int));
        assert(fa.subrange(0, fk.len() as int) =~= fk);
    }
}

/// The first zero at or after `i` is at `e`.
pub proof fn lemma_zero_end_at(p: Seq<u8>, i: int, e: int)
    requires
        0 <= i <= e < p.len(),
        p[e] == 0,
        forall|m: int| i <= m < e ==> p[m] != 0,
    ensures
        zero_end(p, i) == e,
    decreases e - i,
{
    if i < e {
        lemma_zero_end_at(p, i + 1, e);
    }
}

/// Reading the pool at a string's offset gives the string back, when it
/// has no zero byte.
pub proof fn lemma_flat_read(u: Seq<Seq<u8>>, k: int)
    requires
        0 <= k < u.len(),
        no_nul(u[k]),
        off_of(u, k) < 0x1_0000_0000,
    ensures
        pool_bytes(flat(u), off_of(u, k) as u32) == u[k],
        off_of(u, k) + u[k].len() < flat(u).len(),
{
    let p = flat(u);
    let fk = flat(u.take(k));
    let o = fk.len() as int;
    lemma_flat_prefix(u, k + 1);
    let a = u.take(k + 1);
    assert(a.drop_last() =~= u.take(k));
    let fa = flat(a);
    assert(fa == fk + u[k] + seq![0u8]);
    assert(p.subrange(0, fa.len() as int) == fa);
    assert forall|m: int| o <= m < o + u[k].len() implies p[m] != 0 by {
        assert(p[m] == p.subrange(0, fa.len() as int)[m]);
        assert(fa[m] == u[k][m - o]);
    }
    assert(p[o + u[k].len()] == 0) by {
        assert(p[o + u[k].len()] == p.subrange(0, fa.len() as int)[o + u[k].len()]);
    }
    lemma_zero_end_at(p, o, o + u[k].len());
    assert(p.subrange(o, o + u[k].len()) =~= u[k]) by {
        assert forall|m: int| 0 <= m < u[k].len() implies p.subrange(o, o + u[k].len())[m] == u[k][m] by {
            assert(p[o + m] == p.subrange(0, fa.len() as int)[o + m]);
        }
    }
}

/// Offsets grow with the index.
pub proof fn lemma_off_mono(u: Seq<Seq<u8>>, j: int, k: int)
    requires
        0 <= j <= k <= u.len(),
    ensures
        off_of(u, j) <= off_of(u, k),
    decreases k - j,
{
    if j < k {
        lemma_off_mono(u, j, k - 1);
        assert(u.take(k).drop_last() =~= u.take(k - 1));
    }
}

/// Membership through the occurrence count.
pub proof fn lemma_count_contains<A>(s: Seq<A>, x: A)
    ensures
        (count_of(s, x) > 0) == s.contains(x),
    decreases s.len(),
{
    if s.len() > 0 {
        lemma_count_contains(s.drop_last(), x);
        if s.drop_last().contains(x) {
            let i = choose|i: int| 0 <= i < s.drop_last().len() && s.drop_last()[i] == x;
            assert(s[i] == x);
        }
        if s.contains(x) {
            let i = choose|i: int| 0 <= i < s.len() && s[i] == x;
            if i < s.len() - 1 {
                assert(s.drop_last()[i] == x);
            }
        }
    }
}

/// The byte strings held by `v`.
pub open spec fn vviews(v: Seq<Vec<u8>>) -> Seq<Seq<u8>> {
    v.map_values(|x: Vec<u8>| x@)
}

/// A string as a sortable triple.
pub open spec fn str_key(s: Seq<u8>) -> (Seq<u8>, Seq<u8>, u64) {
    (s, Seq::empty(), 0)
}

/// Strings total of the first components of triples.
pub proof fn lemma_total_of_keys(s: Seq<(Seq<u8>, Seq<u8>, u64)>)
    ensures
        strings_total(s.map_values(|t: (Seq<u8>, Seq<u8>, u64)| t.0)) == crate::fsa::sort::code_total(s) + s.len(),
    decreases s.len(),
{
    if s.len() > 0 {
        lemma_total_of_keys(s.drop_last());
        assert(s.map_values(|t: (Seq<u8>, Seq<u8>, u64)| t.0).drop_last() =~= s.drop_last().map_values(
            |t: (Seq<u8>, Seq<u8>, u64)| t.0,
        ));
    } else {
        assert(s.map_values(|t: (Seq<u8>, Seq<u8>, u64)| t.0) =~= Seq::<Seq<u8>>::empty());
    }
}

/// The distinct strings of `strings`, in increasing byte order.
pub fn sorted_unique(strings: &Vec<Vec<u8>>) -> (r: Vec<Vec<u8>>)
    ensures
        strictly_sorted(vviews(r@)),
        forall|s: Seq<u8>| #[trigger] vviews(r@).contains(s) == vviews(strings@).contains(s),
        r@.len() <= strings@.len(),
        strings_total(vviews(r@)) <= strings_total(vviews(strings@)),
{
    let ghost ins = vviews(strings@);
    let mut ts: Vec<(Vec<u8>, Vec<u8>, u64)> = Vec::new();
    let mut i: usize = 0;
    while i < strings.len()
        invariant
            i <= strings@.len(),
            ins == vviews(strings@),
            deep_triples(ts@) == ins.take(i as int).map_values(|s: Seq<u8>| str_key(s)),
        decreases strings@.len() - i,
    {
        let t = (slice_to_vec_u8(strings[i].as_slice()), Vec::new(), 0u64);
        assert(t.1@ =~= Seq::<u8>::empty());
        let ghost before = deep_triples(ts@);
        ts.push(t);
        assert(deep_triples(ts@) =~= before.push(str_key(ins[i as int])));
        assert(deep_triples(ts@) =~= ins.take(i + 1).map_values(|s: Seq<u8>| str_key(s)));
        i = i + 1;
    }
    assert(ins.take(i as int) =~= ins);
    let ghost keyed = ins.map_values(|s: Seq<u8>| str_key(s));
    let sorted = sort_triples(ts);
    let ghost ds = deep_triples(sorted@);
    proof {
        assert forall|s: Seq<u8>| #[trigger] ds.contains(str_key(s)) == ins.contains(s) by {
            lemma_count_contains(ds, str_key(s));
            lemma_count_contains(keyed, str_key(s));
            if ins.contains(s) {
                let m = choose|m: int| 0 <= m < ins.len() && ins[m] == s;
                assert(keyed[m] == str_key(s));
            }
            if keyed.contains(str_key(s)) {
                let m = choose|m: int| 0 <= m < keyed.len() && keyed[m] == str_key(s);
                assert(ins[m] == s);
            }
        }
        assert forall|m: int| 0 <= m < ds.len() implies #[trigger] ds[m] == str_key(ds[m].0) by {
            lemma_count_contains(ds, ds[m]);
            lemma_count_contains(keyed, ds[m]);
            assert(ds.contains(ds[m]));
            let q = choose|q: int| 0 <= q < keyed.len() && keyed[q] == ds[m];
        }
    }
    let mut out: Vec<Vec<u8>> = Vec::new();
    let mut j: usize = 0;
    while j < sorted.len()
        invariant
            j <= sorted@.len(),
            ds == deep_triples(sorted@),
            tri_sorted(ds),
            forall|m: int| 0 <= m < ds.len() ==> #[trigger] ds[m] == str_key(ds[m].0),
            strictly_sorted(vviews(out@)),
            j > 0 ==> out@.len() > 0 && vviews(out@).last() == ds[j - 1].0,
            j == 0 ==> out@.len() == 0,
            forall|s: Seq<u8>| #[trigger] vviews(out@).contains(s) == ds.take(j as int).contains(str_key(s)),
            out@.len() <= j,
            strings_total(vviews(out@)) <= strings_total(ds.take(j as int).map_values(|t: (Seq<u8>, Seq<u8>, u64)| t.0)),
        decreases sorted@.len() - j,
    {
        let ghost o = vviews(out@);
        let ghost x = ds[j as int];
        let fresh = out.len() == 0 || !bytes_eq(out[out.len() - 1].as_slice(), sorted[j].0.as_slice());
        proof {
            assert(ds.take(j + 1) =~= ds.take(j as int).push(x));
            let tj = ds.take(j as int).map_values(|t: (Seq<u8>, Seq<u8>, u64)| t.0);
            assert(ds.take(j + 1).map_values(|t: (Seq<u8>, Seq<u8>, u64)| t.0) =~= tj.push(x.0));
            assert(strings_total(tj.push(x.0)) == strings_total(tj) + x.0.len() + 1) by {
                assert(tj.push(x.0).drop_last() =~= tj);
            }
        }
        if fresh {
            let s = slice_to_vec_u8(sorted[j].0.as_slice());
            out.push(s);
            proof {
                let o2 = vviews(out@);
                assert(o2 =~= o.push(x.0));
                assert(o2.drop_last() =~= o);
                if j > 0 {
                    let prev = ds[j - 1];
                    assert(!tri_lt(x, prev));
                    assert(x == str_key(x.0) && prev == str_key(prev.0));
                    lemma_seq_lt_total(x.0, prev.0);
                    assert(seq_lt(prev.0, x.0));
                }
                assert forall|a: int, c: int| 0 <= a < c < o2.len() implies seq_lt(#[trigger] o2[a], #[trigger] o2[c]) by {
                    if c == o2.len() - 1 {
                        if a < o.len() - 1 {
                            assert(seq_lt(o[a], o.last()));
                            lemma_seq_lt_trans(o[a], o.last(), x.0);
                        }
                    } else {
                        assert(o2[a] == o[a] && o2[c] == o[c]);
                    }
                }
                assert forall|s: Seq<u8>| #[trigger] o2.contains(s) == ds.take(j + 1).contains(str_key(s)) by {
                    if o2.contains(s) && !o.contains(s) {
                        assert(s == x.0);
                        assert(ds.take(j + 1)[j as int] == str_key(s));
                    }
                    if o.contains(s) {
                        let m = choose|m: int| 0 <= m < o.len() && o[m] == s;
                        assert(o2[m] == s);
                    }
                    if ds.take(j + 1).contains(str_key(s)) && !ds.take(j as int).contains(str_key(s)) {
                        let m = choose|m: int| 0 <= m < j + 1 && #[trigger] ds.take(j + 1)[m] == str_key(s);
                        if m < j {
                            assert(ds.take(j as int)[m] == str_key(s));
                        }
                        assert(o2[o2.len() - 1] == s);
                    }
                    if ds.take(j as int).contains(str_key(s)) {
                        let m = choose|m: int| 0 <= m < j && #[trigger] ds.take(j as int)[m] == str_key(s);
                        assert(ds.take(j + 1)[m] == str_key(s));
                    }
                }
            }
        } else {
            proof {
                assert(o.last() == x.0);
                assert forall|s: Seq<u8>| #[trigger] o.contains(s) == ds.take(j + 1).contains(str_key(s)) by {
                    if ds.take(j + 1).contains(str_key(s)) && !ds.take(j as int).contains(str_key(s)) {
                        let m = choose|m: int| 0 <= m < j + 1 && #[trigger] ds.take(j + 1)[m] == str_key(s);
                        if m < j {
                            assert(ds.take(j as int)[m] == str_key(s));
                        }
                        assert(s == x.0);
                        assert(o[o.len() - 1] == s);
                    }
                    if ds.take(j as int).contains(str_key(s)) {
                        let m = choose|m: int| 0 <= m < j && #[trigger] ds.take(j as int)[m] == str_key(s);
                        assert(ds.take(j + 1)[m] == str_key(s));
                    }
                }
            }
        }
        j = j + 1;
    }
    proof {
        assert(ds.take(j as int) =~= ds);
        assert forall|s: Seq<u8>| #[trigger] vviews(out@).contains(s) == ins.contains(s) by {
            assert(ds.contains(str_key(s)) == ins.contains(s));
        }
        lemma_total_of_keys(ds);
        lemma_total_of_keys(keyed);
        assert(keyed.map_values(|t: (Seq<u8>, Seq<u8>, u64)| t.0) =~= ins);
    }
    out
}

/// Where `s` sits in the strictly sorted `u`, which holds it.
pub fn find_string(u: &Vec<Vec<u8>>, s: &[u8]) -> (r: usize)
    requires
        strictly_sorted(vviews(u@)),
        vviews(u@).contains(s@),
    ensures
        r < u@.len(),
        u@[r as int]@ == s@,
{
    let ghost us = vviews(u@);
    let ghost k = choose|k: int| 0 <= k < us.len() && us[k] == s@;
    let mut lo: usize = 0;
    let mut hi: usize = u.len();
    while lo < hi
        invariant
            us == vviews(u@),
            strictly_sorted(us),
            0 <= k < us.len(),
            us[k] == s@,
            lo <= k < hi <= u@.len(),
        decreases hi - lo,
    {
        let mid = lo + (hi - lo) / 2;
        let c = compare_bytes(u[mid].as_slice(), s);
        if c == 0 {
            return mid;
        } else if c < 0 {
            proof {
                if k <= mid {
                    if k < mid {
                        assert(seq_lt(us[k], us[mid as int]));
                    }
                    lemma_seq_lt_total(us[mid as int], s@);
                }
            }
            lo = mid + 1;
        } else {
            proof {
                if k >= mid {
                    if k > mid {
                        assert(seq_lt(us[mid as int], us[k]));
                    }
                    lemma_seq_lt_total(us[mid as int], s@);
                }
            }
            hi = mid;
        }
    }
    0
}

/// Lay out the pool for the strictly sorted strings `u`: the padded
/// bytes, their length before padding, and each string's offset. `Err`
/// when some string would start at or past 2^24.
pub fn write_pool(u: &Vec<Vec<u8>>) -> (r: Result<(Vec<u8>, u32, Vec<u32>), ()>)
    requires
        strings_total(vviews(u@)) + 8 < 0x1_0000_0000,
    ensures
        r is Ok <==> pool_fits(vviews(u@)),
        r matches Ok((bytes, size, offs)) ==> {
            &&& bytes@ == pad8(flat(vviews(u@)))
            &&& size == flat(vviews(u@)).len()
            &&& offs@.len() == u@.len()
            &&& forall|k: int| 0 <= k < u@.len() ==> #[trigger] offs@[k] == off_of(vviews(u@), k)
        },
{
    let ghost us = vviews(u@);
    proof {
        lemma_flat_len(us);
    }
    let mut bytes: Vec<u8> = Vec::new();
    let mut offs: Vec<u32> = Vec::new();
    let mut k: usize = 0;
    proof {
        assert(us.take(0) =~= Seq::<Seq<u8>>::empty());
    }
    while k < u.len()
        invariant
            us == vviews(u@),
            strings_total(us) + 8 < 0x1_0000_0000,
            flat(us).len() == strings_total(us),
            k <= u@.len(),
            bytes@ == flat(us.take(k as int)),
            offs@.len() == k,
            forall|m: int| 0 <= m < k ==> #[trigger] offs@[m] == off_of(us, m),
            forall|m: int| 0 <= m < k ==> off_of(us, m) <= 0xFF_FFFF,
        decreases u@.len() - k,
    {
        proof {
            lemma_flat_prefix(us, k as int);
        }
        let off = bytes.len();
        if off > 0xFF_FFFF {
            proof {
                assert(off_of(us, k as int) > 0xFF_FFFF);
            }
            return Err(());
        }
        offs.push(off as u32);
        let ghost before = bytes@;
        let mut j: usize = 0;
        while j < u[k].len()
            invariant
                us == vviews(u@),
                k < u@.len(),
                j <= u@[k as int]@.len(),
                bytes@ == before + u@[k as int]@.subrange(0, j as int),
            decreases u@[k as int]@.len() - j,
        {
            bytes.push(u[k][j]);
            assert(bytes@ =~= before + u@[k as int]@.subrange(0, j + 1));
            j = j + 1;
        }
        bytes.push(0);
        proof {
            let a = us.take(k + 1);
            assert(a.drop_last() =~= us.take(k as int));
            assert(us[k as int] == u@[k as int]@);
            assert(u@[k as int]@.subrange(0, j as int) =~= u@[k as int]@);
            assert(bytes@ =~= flat(a));
        }
        k = k + 1;
    }
    proof {
        assert(us.take(k as int) =~= us);
    }
    let size = bytes.len() as u32;
    let ghost fl = bytes@;
    while bytes.len() % 8 != 0
        invariant
            fl == flat(us),
            fl.len() == strings_total(us),
            strings_total(us) + 8 < 0x1_0000_0000,
            fl.len() <= bytes@.len() <= fl.len() + 8,
            bytes@.len() % 8 != 0 ==> bytes@.len() < fl.len() + (8 - fl.len() % 8) % 8,
            bytes@.len() % 8 == 0 ==> bytes@.len() == fl.len() + (8 - fl.len() % 8) % 8,
            bytes@ == fl + Seq::new((bytes@.len() - fl.len()) as nat, |i: int| 0u8),
        decreases fl.len() + 8 - bytes@.len(),
    {
        let ghost b0 = bytes@;
        bytes.push(0);
        assert(bytes@ =~= fl + Seq::new((bytes@.len() - fl.len()) as nat, |i: int| 0u8));
    }
    proof {
        assert(bytes@ =~= pad8(fl));
    }
    Ok((bytes, size, offs))
}


/// Two strictly sorted lists of the same strings are the same list.
pub proof fn lemma_strict_unique(u: Seq<Seq<u8>>, v: Seq<Seq<u8>>)
    requires
        strictly_sorted(u),
        strictly_sorted(v),
        forall|x: Seq<u8>| #[trigger] u.contains(x) == v.contains(x),
    ensures
        u == v,
    decreases u.len(),
{
    if u.len() == 0 {
        if v.len() > 0 {
            assert(v.contains(v[0]));
            assert(u.contains(v[0]) == v.contains(v[0]));
            assert(!u.contains(v[0]));
        }
        assert(u =~= v);
    } else {
        assert(u.contains(u[0]));
        assert(v.contains(u[0]));
        let j = choose|j: int| 0 <= j < v.len() && v[j] == u[0];
        assert(v.contains(v[0]));
        assert(u.contains(v[0]));
        let i = choose|i: int| 0 <= i < u.len() && u[i] == v[0];
        lemma_seq_lt_total(u[0], v[0]);
        if i > 0 {
            assert(seq_lt(u[0], u[i]));
        }
        if j > 0 {
            assert(seq_lt(v[0], v[j]));
        }
        let u1 = u.drop_first();
        let v1 = v.drop_first();
        assert forall|x: Seq<u8>| #[trigger] u1.contains(x) == (u.contains(x) && x != u[0]) by {
            if u1.contains(x) {
                let k = choose|k: int| 0 <= k < u1.len() && u1[k] == x;
                assert(u[k + 1] == x);
                assert(seq_lt(u[0], u[k + 1]));
                crate::text::lemma_seq_lt_irreflexive(x);
            }
            if u.contains(x) && x != u[0] {
                let k = choose|k: int| 0 <= k < u.len() && u[k] == x;
                assert(u1[k - 1] == x);
            }
        }
        assert forall|x: Seq<u8>| #[trigger] v1.contains(x) == (v.contains(x) && x != v[0]) by {
            if v1.contains(x) {
                let k = choose|k: int| 0 <= k < v1.len() && v1[k] == x;
                assert(v[k + 1] == x);
                assert(seq_lt(v[0], v[k + 1]));
                crate::text::lemma_seq_lt_irreflexive(x);
            }
            if v.contains(x) && x != v[0] {
                let k = choose|k: int| 0 <= k < v.len() && v[k] == x;
                assert(v1[k - 1] == x);
            }
        }
        assert forall|x: Seq<u8>| #[trigger] u1.contains(x) == v1.contains(x) by {
            assert(u.contains(x) == v.contains(x));
        }
        assert forall|a: int, b: int| 0 <= a < b < u1.len() implies seq_lt(#[trigger] u1[a], #[trigger] u1[b]) by {
            assert(u1[a] == u[a + 1] && u1[b] == u[b + 1]);
        }
        assert forall|a: int, b: int| 0 <= a < b < v1.len() implies seq_lt(#[trigger] v1[a], #[trigger] v1[b]) by {
            assert(v1[a] == v[a + 1] && v1[b] == v[b + 1]);
        }
        lemma_strict_unique(u1, v1);
        assert(u =~= seq![u[0]] + u1);
        assert(v =~= seq![v[0]] + v1);
    }
}

/// `x` is the first or second string of one of the rows `d`.
pub open spec fn row_has_string(d: Seq<(Seq<u8>, Seq<u8>, u64)>, x: Seq<u8>) -> bool {
    exists|m: int| 0 <= m < d.len() && (d[m].0 == x || d[m].1 == x)
}

/// The pool of a table holding the rows `d`: their strings, each once,
/// in byte order.
pub open spec fn pool_strings(d: Seq<(Seq<u8>, Seq<u8>, u64)>) -> Seq<Seq<u8>> {
    choose|u: Seq<Seq<u8>>| strictly_sorted(u) && forall|x: Seq<u8>| #[trigger] u.contains(x) == row_has_string(d, x)
}

/// A strictly sorted list of exactly the strings of `d` is their pool.
pub proof fn lemma_pool_strings(d: Seq<(Seq<u8>, Seq<u8>, u64)>, u: Seq<Seq<u8>>)
    requires
        strictly_sorted(u),
        forall|x: Seq<u8>| #[trigger] u.contains(x) == row_has_string(d, x),
    ensures
        pool_strings(d) == u,
{
    let c = pool_strings(d);
    assert(strictly_sorted(c) && forall|x: Seq<u8>| #[trigger] c.contains(x) == row_has_string(d, x));
    assert forall|x: Seq<u8>| #[trigger] c.contains(x) == u.contains(x) by {
        assert(c.contains(x) == row_has_string(d, x));
        assert(u.contains(x) == row_has_string(d, x));
    }
    lemma_strict_unique(c, u);
}

/// Whether every string of `u` starts below 2^24.
pub fn pool_fits_exec(u: &Vec<Vec<u8>>) -> (r: bool)
    ensures
        r == pool_fits(vviews(u@)),
{
    let ghost us = vviews(u@);
    let mut acc: u128 = 0;
    let mut k: usize = 0;
    proof {
        assert(us.take(0) =~= Seq::<Seq<u8>>::empty());
    }
    while k < u.len()
        invariant
            us == vviews(u@),
            k <= u@.len(),
            acc == off_of(us, k as int),
            acc <= 0x100_0000 + 0x1_0000_0000_0000_0000,
            forall|j: int| 0 <= j < k ==> off_of(us, j) <= 0xFF_FFFF,
        decreases u@.len() - k,
    {
        if acc > 0xFF_FFFF {
            return false;
        }
        proof {
            let a = us.take(k + 1);
            assert(a.drop_last() =~= us.take(k as int));
            assert(a.last() == us[k as int]);
        }
        acc = acc + u[k].len() as u128 + 1;
        k = k + 1;
    }
    true
}

} // verus!
