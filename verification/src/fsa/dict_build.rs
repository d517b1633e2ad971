//! Build side of the two-level dictionary: sort the (code, item, value)
//! triples, write one record per code into the blob, and index the
//! records' offsets with an automaton over the codes.

use vstd::prelude::*;

use crate::fsa::builder::{
    has_prefix, is_prefix_listing, map_get, max_key_len, pair_keys, pairs_map, total_key_len,
    Builder, MAX_TOTAL_KEY_BYTES,
};
use crate::fsa::dict::{
    write_record, deep_triples, dict_fsa_end, dict_get_spec, dict_prefix_spec, drop_codes, enc_record,
    flat_records, lemma_record_read, record_at, with_code,
};
use crate::fsa::encode::{lemma_placed_append, lemma_placed_prepend, placed};
use crate::fsa::lang::strictly_sorted;
use crate::fsa::reader::{bytes_get, bytes_has_prefix, bytes_prefix, parse_layout, slice_to_vec_u8, FsaError, MAX_WALK_DEPTH};
use crate::fsa::sort::{
    code_total, count_of, lemma_count_concat, lemma_tri_total, sort_triples, tri_lt, tri_sorted,
};
use crate::le::{le32, lemma_u32_at_placed, push_u32, u32_at};
use crate::text::{bytes_eq, lemma_seq_lt_irreflexive, lemma_seq_lt_total, lemma_seq_lt_trans, seq_lt};

verus! {

/// The codes of the triples.
pub open spec fn codes_of(e: Seq<(Seq<u8>, Seq<u8>, u64)>) -> Set<Seq<u8>> {
    e.map_values(|x: (Seq<u8>, Seq<u8>, u64)| x.0).to_set()
}

/// The automaton part of a dictionary buffer.
pub open spec fn dict_fsa_part(b: Seq<u8>) -> Seq<u8> {
    b.subrange(8, dict_fsa_end(b)->Ok_0)
}

/// The items of each code of `cs`, in order, with the code in front.
pub open spec fn flat_codes(b: Seq<u8>, cs: Seq<Seq<u8>>) -> Seq<(Seq<u8>, Seq<u8>, u64)>
    decreases cs.len(),
{
    if cs.len() == 0 {
        Seq::empty()
    } else {
        with_code(cs[0], dict_get_spec(b, cs[0])) + flat_codes(b, cs.drop_first())
    }
}

/// The items stored for `code` are those inserted for it: each
/// (item, value) as often as it was inserted, values descending, then
/// items ascending.
pub open spec fn lists_code(r: Seq<(Seq<u8>, u64)>, e: Seq<(Seq<u8>, Seq<u8>, u64)>, code: Seq<u8>) -> bool {
    &&& tri_sorted(with_code(code, r))
    &&& forall|x: (Seq<u8>, u64)| #[trigger] count_of(r, x) == count_of(e, (code, x.0, x.1))
}

/// Accumulates (code, item, value) triples and serializes a [`Dict`](crate::fsa::dict::Dict).
pub struct DictBuilder {
    triples: Vec<(Vec<u8>, Vec<u8>, u64)>,
}

impl DictBuilder {
    /// The triples inserted so far, in insertion order.
    pub closed spec fn entries(&self) -> Seq<(Seq<u8>, Seq<u8>, u64)> {
        deep_triples(self.triples@)
    }

    pub fn new() -> (r: DictBuilder)
        ensures
            r.entries() == Seq::<(Seq<u8>, Seq<u8>, u64)>::empty(),
    {
        let r = DictBuilder { triples: Vec::new() };
        assert(r.entries() =~= Seq::<(Seq<u8>, Seq<u8>, u64)>::empty());
        r
    }

    /// Add `code → (item, value)`. A code may be inserted many times,
    /// once per item, in any order.
    pub fn insert(&mut self, code: &[u8], item: &[u8], value: u64)
        ensures
            final(self).entries() == old(self).entries().push((code@, item@, value)),
    {
        let c = slice_to_vec_u8(code);
        let it = slice_to_vec_u8(item);
        self.triples.push((c, it, value));
        assert(self.entries() =~= old(self).entries().push((code@, item@, value)));
    }
}

// ─── Facts used by the build ──────────────────────────────────────────

proof fn lemma_count_zero<A>(s: Seq<A>, x: A)
    requires
        forall|m: int| 0 <= m < s.len() ==> s[m] != x,
    ensures
        count_of(s, x) == 0,
    decreases s.len(),
{
    if s.len() > 0 {
        lemma_count_zero(s.drop_last(), x);
    }
}

/// Counting a triple with code `c` among triples that all have code `c`
/// is counting its (item, value) among their items.
proof fn lemma_count_drop_codes(s: Seq<(Seq<u8>, Seq<u8>, u64)>, c: Seq<u8>, x: (Seq<u8>, u64))
    requires
        forall|m: int| 0 <= m < s.len() ==> (#[trigger] s[m]).0 == c,
    ensures
        count_of(drop_codes(s), x) == count_of(s, (c, x.0, x.1)),
    decreases s.len(),
{
    if s.len() > 0 {
        lemma_count_drop_codes(s.drop_last(), c, x);
        assert(drop_codes(s).drop_last() =~= drop_codes(s.drop_last()));
        assert(s.last().0 == c);
    }
}

/// Codes never decrease along sorted triples.
proof fn lemma_codes_nondecreasing(s: Seq<(Seq<u8>, Seq<u8>, u64)>, i: int, j: int)
    requires
        tri_sorted(s),
        0 <= i <= j < s.len(),
    ensures
        seq_lt(s[i].0, s[j].0) || s[i].0 == s[j].0,
{
    if i < j {
        assert(!tri_lt(s[j], s[i]));
        lemma_seq_lt_total(s[i].0, s[j].0);
    }
}

/// With keys strictly increasing, each key maps to its own value.
proof fn lemma_pairs_map_distinct(l: Seq<(Seq<u8>, u64)>, c: Seq<u8>)
    requires
        forall|a: int, b: int| 0 <= a < b < l.len() ==> seq_lt(#[trigger] l[a].0, #[trigger] l[b].0),
    ensures
        forall|k: int| 0 <= k < l.len() && l[k].0 == c ==> map_get(pairs_map(l), c) == Some(l[k].1),
        (forall|k: int| 0 <= k < l.len() ==> l[k].0 != c) ==> map_get(pairs_map(l), c) is None,
    decreases l.len(),
{
    if l.len() > 0 {
        let p = l.drop_last();
        lemma_pairs_map_distinct(p, c);
        assert forall|k: int| 0 <= k < l.len() && l[k].0 == c implies map_get(pairs_map(l), c) == Some(
            l[k].1,
        ) by {
            if k < l.len() - 1 {
                assert(seq_lt(l[k].0, l[l.len() - 1].0));
                lemma_seq_lt_irreflexive(l[k].0);
                assert(p[k] == l[k]);
            }
        }
        if forall|k: int| 0 <= k < l.len() ==> l[k].0 != c {
            assert(l.last().0 != c);
            assert forall|k: int| 0 <= k < p.len() implies p[k].0 != c by {
                assert(p[k] == l[k]);
            }
        }
    }
}

proof fn lemma_pairs_map_dom(l: Seq<(Seq<u8>, u64)>)
    ensures
        pairs_map(l).dom() == l.map_values(|x: (Seq<u8>, u64)| x.0).to_set(),
    decreases l.len(),
{
    let ks = l.map_values(|x: (Seq<u8>, u64)| x.0);
    if l.len() > 0 {
        lemma_pairs_map_dom(l.drop_last());
        let kp = l.drop_last().map_values(|x: (Seq<u8>, u64)| x.0);
        assert(ks =~= kp.push(l.last().0));
        assert forall|c: Seq<u8>| pairs_map(l).dom().contains(c) <==> ks.to_set().contains(c) by {
            assert(ks.to_set().contains(c) == ks.contains(c));
            assert(kp.to_set().contains(c) == kp.contains(c));
            assert(pairs_map(l).dom() == pairs_map(l.drop_last()).dom().insert(l.last().0));
            if ks.contains(c) {
                let k = choose|k: int| 0 <= k < ks.len() && ks[k] == c;
                if k < kp.len() {
                    assert(kp[k] == c);
                } else {
                    assert(ks[k] == l.last().0);
                }
            }
            if c == l.last().0 {
                assert(ks[ks.len() - 1] == c);
            }
            if kp.contains(c) {
                let k = choose|k: int| 0 <= k < kp.len() && kp[k] == c;
                assert(ks[k] == c);
            }
        }
        assert(pairs_map(l).dom() =~= ks.to_set());
    } else {
        assert(ks.to_set() =~= Set::<Seq<u8>>::empty());
    }
}

proof fn lemma_count_pos_contains<A>(s: Seq<A>, x: A)
    ensures
        count_of(s, x) > 0 <==> s.contains(x),
    decreases s.len(),
{
    if s.len() > 0 {
        lemma_count_pos_contains(s.drop_last(), x);
        if s.drop_last().contains(x) {
            let k = choose|k: int| 0 <= k < s.drop_last().len() && s.drop_last()[k] == x;
            assert(s[k] == x);
        }
        if s.contains(x) {
            let k = choose|k: int| 0 <= k < s.len() && s[k] == x;
            if k < s.len() - 1 {
                assert(s.drop_last()[k] == x);
            }
        }
    }
}

proof fn lemma_code_total_take(s: Seq<(Seq<u8>, Seq<u8>, u64)>, i: int, j: int)
    requires
        0 <= i <= j <= s.len(),
    ensures
        code_total(s.take(i)) <= code_total(s.take(j)),
        i < j ==> code_total(s.take(i)) + s[i].0.len() <= code_total(s.take(j)),
    decreases j - i,
{
    if i < j {
        lemma_code_total_take(s, i + 1, j);
        assert(s.take(i + 1).drop_last() =~= s.take(i));
    }
}

} // verus!

verus! {

/// Facts about the records written for the sorted triples `s[..i]`:
/// code `l[k].0` covers exactly the positions `runs[k]`, its record is
/// in `blob` at `l[k].1`, and codes strictly increase.
pub open spec fn runs_ok(
    s: Seq<(Seq<u8>, Seq<u8>, u64)>,
    i: int,
    l: Seq<(Seq<u8>, u64)>,
    runs: Seq<(int, int)>,
    run_of: Seq<int>,
    blob: Seq<u8>,
) -> bool {
    &&& l.len() == runs.len()
    &&& run_of.len() == i
    &&& forall|m: int|
        0 <= m < i ==> 0 <= #[trigger] run_of[m] < l.len() && runs[run_of[m]].0 <= m < runs[run_of[m]].1
    &&& forall|k: int| 0 <= k < l.len() ==> 0 <= (#[trigger] runs[k]).0 < runs[k].1 <= i
    &&& forall|k: int, m: int|
        0 <= k < l.len() && 0 <= m < i ==> ((#[trigger] s[m]).0 == (#[trigger] l[k]).0 <==> runs[k].0
            <= m < runs[k].1)
    &&& forall|k: int|
        0 <= k < l.len() ==> placed(
            blob,
            (#[trigger] l[k]).1 as int,
            enc_record(drop_codes(s.subrange(runs[k].0, runs[k].1))),
        )
    &&& forall|a: int, b: int| 0 <= a < b < l.len() ==> seq_lt(#[trigger] l[a].0, #[trigger] l[b].0)
    &&& (i < s.len() && l.len() > 0 ==> seq_lt(l.last().0, s[i].0))
}

impl DictBuilder {
    /// Consume the builder and return the serialized dictionary. For
    /// every code it lists exactly the inserted (item, value) pairs of
    /// that code, values descending and then items ascending; it counts
    /// the distinct codes; and, when no code is longer than the reader's
    /// walk depth, the triples under a prefix come code by code in
    /// increasing code order.
    pub fn finish(self) -> (r: Vec<u8>)
        requires
            code_total(self.entries()) <= MAX_TOTAL_KEY_BYTES,
        ensures
            dict_fsa_end(r@) is Ok,
            forall|code: Seq<u8>| #[trigger] lists_code(dict_get_spec(r@, code), self.entries(), code),
            parse_layout(dict_fsa_part(r@))->Ok_0.value_count == codes_of(self.entries()).len(),
            (forall|x: int| 0 <= x < self.entries().len() ==> (#[trigger] self.entries()[x]).0.len()
                <= MAX_WALK_DEPTH) ==> forall|p: Seq<u8>| {
                let cs = pair_keys(#[trigger] bytes_prefix(dict_fsa_part(r@), p));
                &&& strictly_sorted(cs)
                &&& forall|c: Seq<u8>|
                    cs.contains(c) <==> (has_prefix(c, p) && codes_of(self.entries()).contains(c))
                &&& dict_prefix_spec(r@, p) == flat_codes(r@, cs)
            },
            forall|p: Seq<u8>|
                #[trigger] bytes_has_prefix(dict_fsa_part(r@), p) == exists|c: Seq<u8>|
                    codes_of(self.entries()).contains(c) && #[trigger] has_prefix(c, p),
    {
        let ghost e = self.entries();
        let sorted = sort_triples(self.triples);
        let ghost s = deep_triples(sorted@);
        let n = sorted.len();
        let mut blob: Vec<u8> = Vec::new();
        let mut fb = Builder::new();
        let ghost mut l: Seq<(Seq<u8>, u64)> = Seq::empty();
        let ghost mut runs: Seq<(int, int)> = Seq::empty();
        let ghost mut run_of: Seq<int> = Seq::empty();
        let mut i: usize = 0;
        proof {
            assert(s.take(0) =~= Seq::<(Seq<u8>, Seq<u8>, u64)>::empty());
        }
        while i < n
            invariant
                s == deep_triples(sorted@),
                n == s.len(),
                tri_sorted(s),
                code_total(s) == code_total(e),
                code_total(e) <= MAX_TOTAL_KEY_BYTES,
                i <= n,
                fb.entries() == l,
                runs_ok(s, i as int, l, runs, run_of, blob@),
                total_key_len(l) <= code_total(s.take(i as int)),
            decreases n - i,
        {
            let mut j: usize = i + 1;
            while j < n && bytes_eq(sorted[j].0.as_slice(), sorted[i].0.as_slice())
                invariant
                    s == deep_triples(sorted@),
                    n == s.len(),
                    i < j <= n,
                    forall|m: int| i <= m < j ==> (#[trigger] s[m]).0 == s[i as int].0,
                decreases n - j,
            {
                j = j + 1;
            }
            let ghost code = s[i as int].0;
            let off = blob.len() as u64;
            let ghost blob0 = blob@;
            fb.insert(sorted[i].0.as_slice(), off);
            write_record(&mut blob, &sorted, i, j);
            proof {
                let k_new = l.len() as int;
                let l2 = l.push((code, off));
                let runs2 = runs.push((i as int, j as int));
                let run_of2 = run_of + Seq::new((j - i) as nat, |x: int| k_new);
                let rec = enc_record(drop_codes(s.subrange(i as int, j as int)));
                assert(blob@ == blob0 + rec);
                // old codes are all below `code`
                assert forall|k: int| 0 <= k < l.len() implies seq_lt(#[trigger] l[k].0, code) by {
                    if k < l.len() - 1 {
                        assert(seq_lt(l[k].0, l.last().0));
                        lemma_seq_lt_trans(l[k].0, l.last().0, code);
                    }
                }
                // the next code is above `code`
                if j < n {
                    lemma_codes_nondecreasing(s, i as int, j as int);
                }
                assert forall|m: int| 0 <= m < j implies 0 <= #[trigger] run_of2[m] < l2.len()
                    && runs2[run_of2[m]].0 <= m < runs2[run_of2[m]].1 by {
                    if m < i {
                        assert(run_of2[m] == run_of[m]);
                    } else {
                        assert(run_of2[m] == k_new);
                    }
                }
                assert forall|k: int, m: int| 0 <= k < l2.len() && 0 <= m < j implies ((
                #[trigger] s[m]).0 == (#[trigger] l2[k]).0 <==> runs2[k].0 <= m < runs2[k].1) by {
                    if k < l.len() {
                        assert(l2[k] == l[k]);
                        assert(runs2[k] == runs[k]);
                        if m >= i {
                            assert(s[m].0 == code);
                            lemma_seq_lt_irreflexive(code);
                        }
                    } else {
                        if m < i {
                            let kk = run_of[m];
                            assert(s[m].0 == l[kk].0);
                            lemma_seq_lt_irreflexive(code);
                        }
                    }
                }
                assert forall|k: int| 0 <= k < l2.len() implies placed(
                    blob@,
                    (#[trigger] l2[k]).1 as int,
                    enc_record(drop_codes(s.subrange(runs2[k].0, runs2[k].1))),
                ) by {
                    if k < l.len() {
                        assert(l2[k] == l[k]);
                        lemma_placed_append(blob0, rec, l[k].1 as int, enc_record(drop_codes(s.subrange(runs[k].0, runs[k].1))));
                    } else {
                        assert(blob@.subrange(blob0.len() as int, (blob0.len() + rec.len()) as int) =~= rec);
                    }
                }
                assert forall|a: int, b: int| 0 <= a < b < l2.len() implies seq_lt(#[trigger] l2[a].0, #[trigger] l2[b].0) by {
                    if b < l.len() {
                        assert(l2[a] == l[a] && l2[b] == l[b]);
                    } else {
                        assert(l2[a] == l[a]);
                    }
                }
                assert forall|k: int| 0 <= k < l2.len() implies 0 <= (#[trigger] runs2[k]).0 < runs2[k].1 <= j by {
                    if k < l.len() {
                        assert(runs2[k] == runs[k]);
                    }
                }
                lemma_code_total_take(s, i as int, j as int);
                assert(total_key_len(l2) == total_key_len(l) + code.len()) by {
                    assert(l2.drop_last() =~= l);
                }
                l = l2;
                runs = runs2;
                run_of = run_of2;
            }
            i = j;
        }
        proof {
            assert(s.take(n as int) =~= s);
        }
        let fsa_bytes = fb.finish();
        let mut out: Vec<u8> = Vec::new();
        out.push(0x49);
        out.push(0x58);
        out.push(0x44);
        out.push(0x43);
        push_u32(&mut out, fsa_bytes.len() as u32);
        let ghost hdr = out@;
        let mut x: usize = 0;
        while x < fsa_bytes.len()
            invariant
                x <= fsa_bytes@.len(),
                out@ == hdr + fsa_bytes@.take(x as int),
            decreases fsa_bytes@.len() - x,
        {
            out.push(fsa_bytes[x]);
            assert(fsa_bytes@.take(x + 1) =~= fsa_bytes@.take(x as int).push(fsa_bytes@[x as int]));
            x = x + 1;
        }
        assert(fsa_bytes@.take(x as int) =~= fsa_bytes@);
        let ghost hf = out@;
        let mut y: usize = 0;
        while y < blob.len()
            invariant
                y <= blob@.len(),
                out@ == hf + blob@.take(y as int),
            decreases blob@.len() - y,
        {
            out.push(blob[y]);
            assert(blob@.take(y + 1) =~= blob@.take(y as int).push(blob@[y as int]));
            y = y + 1;
        }
        assert(blob@.take(y as int) =~= blob@);
        proof {
            let o = out@;
            let fb_ = fsa_bytes@;
            assert(o == hdr + fb_ + blob@);
            assert(hdr == seq![0x49u8, 0x58u8, 0x44u8, 0x43u8] + le32(fb_.len() as u32));
            lemma_dict_header(o, hdr, fb_, blob@);
            assert forall|m: int| 0 <= m < s.len() implies (#[trigger] s[m]).1.len() <= u64::MAX by {
                assert(s[m].1 == sorted@[m].1@);
                assert(sorted@[m].1@.len() == sorted@[m].1.len());
            }
            assert forall|code: Seq<u8>| #[trigger] lists_code(dict_get_spec(o, code), e, code) by {
                lemma_dict_get(o, hdr, fb_, blob@, e, s, l, runs, run_of, code);
            }
            lemma_dict_codes(e, s, l, runs, run_of, blob@);
            lemma_pairs_map_dom(l);
            if forall|x: int| 0 <= x < e.len() ==> (#[trigger] e[x]).0.len() <= MAX_WALK_DEPTH {
                lemma_dict_max_key(e, s, l, runs, run_of, blob@);
                assert forall|p: Seq<u8>| {
                    let cs = pair_keys(#[trigger] bytes_prefix(dict_fsa_part(o), p));
                    &&& strictly_sorted(cs)
                    &&& forall|c: Seq<u8>| cs.contains(c) <==> (has_prefix(c, p) && codes_of(e).contains(c))
                    &&& dict_prefix_spec(o, p) == flat_codes(o, cs)
                } by {
                    let r = bytes_prefix(fb_, p);
                    assert(is_prefix_listing(r, pairs_map(l), p));
                    let cs = pair_keys(r);
                    assert forall|c: Seq<u8>| cs.contains(c) <==> (has_prefix(c, p) && codes_of(e).contains(c)) by {
                        if cs.contains(c) {
                            let j = choose|j: int| 0 <= j < cs.len() && cs[j] == c;
                            assert(r[j].0 == c);
                            assert(map_get(pairs_map(l), c) == Some(r[j].1));
                        }
                        if has_prefix(c, p) && codes_of(e).contains(c) {
                            assert(pairs_map(l).dom().contains(c));
                            assert(map_get(pairs_map(l), c) is Some);
                            let j = choose|j: int| 0 <= j < r.len() && #[trigger] r[j].0 == c;
                            assert(cs[j] == c);
                        }
                    }
                    assert forall|j: int| 0 <= j < r.len() implies #[trigger] bytes_get(fb_, r[j].0) == Some(r[j].1) by {
                        assert(has_prefix(r[j].0, p) && map_get(pairs_map(l), r[j].0) == Some(r[j].1));
                    }
                    lemma_flat(o, (8 + fb_.len()) as int, fb_, r);
                }
            }
            assert forall|p: Seq<u8>| #[trigger] bytes_has_prefix(dict_fsa_part(o), p) == exists|c: Seq<u8>|
                codes_of(e).contains(c) && #[trigger] has_prefix(c, p) by {
                assert(bytes_has_prefix(fb_, p) == exists|k: Seq<u8>|
                    pairs_map(l).dom().contains(k) && #[trigger] has_prefix(k, p));
                if exists|c: Seq<u8>| codes_of(e).contains(c) && #[trigger] has_prefix(c, p) {
                    let c = choose|c: Seq<u8>| codes_of(e).contains(c) && #[trigger] has_prefix(c, p);
                    assert(pairs_map(l).dom().contains(c));
                }
                if exists|k: Seq<u8>| pairs_map(l).dom().contains(k) && #[trigger] has_prefix(k, p) {
                    let k = choose|k: Seq<u8>| pairs_map(l).dom().contains(k) && #[trigger] has_prefix(k, p);
                    assert(map_get(pairs_map(l), k) is Some);
                    assert(codes_of(e).contains(k));
                }
            }
        }
        out
    }
}

} // verus!

verus! {

/// The header of the written dictionary points at its automaton.
proof fn lemma_dict_header(out: Seq<u8>, hdr: Seq<u8>, fsa: Seq<u8>, blob: Seq<u8>)
    requires
        out == hdr + fsa + blob,
        hdr == seq![0x49u8, 0x58u8, 0x44u8, 0x43u8] + le32(fsa.len() as u32),
        fsa.len() <= u32::MAX,
        parse_layout(fsa) is Ok,
    ensures
        dict_fsa_end(out) == Ok::<int, FsaError>((8 + fsa.len()) as int),
        dict_fsa_part(out) == fsa,
{
    assert(out.subrange(4, 8) =~= le32(fsa.len() as u32));
    lemma_u32_at_placed(out, 4, fsa.len() as u32);
    assert(out.subrange(8, (8 + fsa.len()) as int) =~= fsa);
    assert(out[0] == 0x49u8 && out[1] == 0x58u8 && out[2] == 0x44u8 && out[3] == 0x43u8);
}

/// The items stored for one code.
proof fn lemma_dict_get(
    out: Seq<u8>,
    hdr: Seq<u8>,
    fsa: Seq<u8>,
    blob: Seq<u8>,
    e: Seq<(Seq<u8>, Seq<u8>, u64)>,
    s: Seq<(Seq<u8>, Seq<u8>, u64)>,
    l: Seq<(Seq<u8>, u64)>,
    runs: Seq<(int, int)>,
    run_of: Seq<int>,
    c: Seq<u8>,
)
    requires
        out == hdr + fsa + blob,
        hdr.len() == 8,
        dict_fsa_end(out) == Ok::<int, FsaError>((8 + fsa.len()) as int),
        dict_fsa_part(out) == fsa,
        forall|k: Seq<u8>| #[trigger] bytes_get(fsa, k) == map_get(pairs_map(l), k),
        runs_ok(s, s.len() as int, l, runs, run_of, blob),
        tri_sorted(s),
        forall|x: (Seq<u8>, Seq<u8>, u64)| #[trigger] count_of(s, x) == count_of(e, x),
        forall|m: int| 0 <= m < s.len() ==> (#[trigger] s[m]).1.len() <= u64::MAX,
        s.len() <= u64::MAX,
    ensures
        lists_code(dict_get_spec(out, c), e, c),
{
    let hi = (8 + fsa.len()) as int;
    assert(out.subrange(8, hi) == fsa);
    lemma_pairs_map_distinct(l, c);
    if exists|k: int| 0 <= k < l.len() && l[k].0 == c {
        let k = choose|k: int| 0 <= k < l.len() && l[k].0 == c;
        let lo = runs[k].0;
        let up = runs[k].1;
        let seg = s.subrange(lo, up);
        let items = drop_codes(seg);
        assert(placed(blob, l[k].1 as int, enc_record(items)));
        lemma_placed_prepend(hdr + fsa, blob, l[k].1 as int, enc_record(items));
        assert(hdr + fsa + blob == out);
        assert forall|x: int| 0 <= x < items.len() implies #[trigger] items[x].0.len() <= u64::MAX by {
            assert(items[x].0 == s[lo + x].1);
        }
        lemma_record_read(out, hi + l[k].1, items);
        assert(dict_get_spec(out, c) == items);
        assert forall|m: int| 0 <= m < seg.len() implies (#[trigger] seg[m]).0 == c by {
            assert(seg[m] == s[lo + m]);
        }
        assert(with_code(c, items) =~= seg);
        assert forall|a: int, b: int| 0 <= a < b < seg.len() implies !tri_lt(#[trigger] seg[b], #[trigger] seg[a]) by {
            assert(seg[a] == s[lo + a] && seg[b] == s[lo + b]);
        }
        assert forall|x: (Seq<u8>, u64)| #[trigger] count_of(items, x) == count_of(e, (c, x.0, x.1)) by {
            let t = (c, x.0, x.1);
            lemma_count_drop_codes(seg, c, x);
            let pre = s.subrange(0, lo);
            let post = s.subrange(up, s.len() as int);
            assert(s =~= pre + seg + post);
            lemma_count_concat(pre + seg, post, t);
            lemma_count_concat(pre, seg, t);
            assert forall|m: int| 0 <= m < pre.len() implies pre[m] != t by {
                assert(pre[m] == s[m]);
                assert(s[m].0 == l[k].0 <==> lo <= m < up);
            }
            assert forall|m: int| 0 <= m < post.len() implies post[m] != t by {
                assert(post[m] == s[up + m]);
                assert(s[up + m].0 == l[k].0 <==> lo <= up + m < up);
            }
            lemma_count_zero(pre, t);
            lemma_count_zero(post, t);
        }
    } else {
        assert(dict_get_spec(out, c) =~= Seq::<(Seq<u8>, u64)>::empty());
        assert forall|x: (Seq<u8>, u64)| #[trigger] count_of(
            Seq::<(Seq<u8>, u64)>::empty(),
            x,
        ) == count_of(e, (c, x.0, x.1)) by {
            let t = (c, x.0, x.1);
            assert forall|m: int| 0 <= m < s.len() implies s[m] != t by {
                let k = run_of[m];
                assert(s[m].0 == l[k].0);
            }
            lemma_count_zero(s, t);
        }
        assert(with_code(c, Seq::<(Seq<u8>, u64)>::empty()) =~= Seq::<(Seq<u8>, Seq<u8>, u64)>::empty());
    }
}

} // verus!

verus! {

/// The codes of the input are the automaton's keys, each once.
proof fn lemma_dict_codes(
    e: Seq<(Seq<u8>, Seq<u8>, u64)>,
    s: Seq<(Seq<u8>, Seq<u8>, u64)>,
    l: Seq<(Seq<u8>, u64)>,
    runs: Seq<(int, int)>,
    run_of: Seq<int>,
    blob: Seq<u8>,
)
    requires
        runs_ok(s, s.len() as int, l, runs, run_of, blob),
        forall|x: (Seq<u8>, Seq<u8>, u64)| #[trigger] count_of(s, x) == count_of(e, x),
    ensures
        codes_of(e) == l.map_values(|x: (Seq<u8>, u64)| x.0).to_set(),
        codes_of(e).len() == l.len(),
{
    let ks = l.map_values(|x: (Seq<u8>, u64)| x.0);
    assert forall|c: Seq<u8>| codes_of(e).contains(c) <==> ks.to_set().contains(c) by {
        let es = e.map_values(|x: (Seq<u8>, Seq<u8>, u64)| x.0);
        if es.contains(c) {
            let x = choose|x: int| 0 <= x < es.len() && es[x] == c;
            lemma_count_pos_contains(e, e[x]);
            lemma_count_pos_contains(s, e[x]);
            let m = choose|m: int| 0 <= m < s.len() && s[m] == e[x];
            let k = run_of[m];
            assert(s[m].0 == l[k].0);
            assert(ks[k] == c);
        }
        if ks.contains(c) {
            let k = choose|k: int| 0 <= k < ks.len() && ks[k] == c;
            let m = runs[k].0;
            assert(s[m].0 == l[k].0);
            lemma_count_pos_contains(s, s[m]);
            lemma_count_pos_contains(e, s[m]);
            let x = choose|x: int| 0 <= x < e.len() && e[x] == s[m];
            assert(es[x] == c);
        }
    }
    assert(codes_of(e) =~= ks.to_set());
    assert forall|a: int, b: int| 0 <= a < ks.len() && 0 <= b < ks.len() && a != b implies ks[a] != ks[b] by {
        if a < b {
            assert(seq_lt(l[a].0, l[b].0));
            lemma_seq_lt_irreflexive(l[a].0);
        } else {
            assert(seq_lt(l[b].0, l[a].0));
            lemma_seq_lt_irreflexive(l[b].0);
        }
    }
    ks.unique_seq_to_set();
}

/// Short codes make short automaton keys.
proof fn lemma_dict_max_key(
    e: Seq<(Seq<u8>, Seq<u8>, u64)>,
    s: Seq<(Seq<u8>, Seq<u8>, u64)>,
    l: Seq<(Seq<u8>, u64)>,
    runs: Seq<(int, int)>,
    run_of: Seq<int>,
    blob: Seq<u8>,
)
    requires
        runs_ok(s, s.len() as int, l, runs, run_of, blob),
        forall|x: (Seq<u8>, Seq<u8>, u64)| #[trigger] count_of(s, x) == count_of(e, x),
        forall|x: int| 0 <= x < e.len() ==> (#[trigger] e[x]).0.len() <= MAX_WALK_DEPTH,
    ensures
        max_key_len(l) <= MAX_WALK_DEPTH,
{
    assert forall|k: int| 0 <= k < l.len() implies (#[trigger] l[k]).0.len() <= MAX_WALK_DEPTH by {
        let m = runs[k].0;
        assert(s[m].0 == l[k].0);
        lemma_count_pos_contains(s, s[m]);
        lemma_count_pos_contains(e, s[m]);
        let x = choose|x: int| 0 <= x < e.len() && e[x] == s[m];
    }
    lemma_max_key_len_le(l, MAX_WALK_DEPTH as nat);
}

proof fn lemma_max_key_len_le(l: Seq<(Seq<u8>, u64)>, bound: nat)
    requires
        forall|k: int| 0 <= k < l.len() ==> (#[trigger] l[k]).0.len() <= bound,
    ensures
        max_key_len(l) <= bound,
    decreases l.len(),
{
    if l.len() > 0 {
        assert forall|k: int| 0 <= k < l.drop_last().len() implies (#[trigger] l.drop_last()[k]).0.len() <= bound by {
            assert(l.drop_last()[k] == l[k]);
        }
        lemma_max_key_len_le(l.drop_last(), bound);
        assert(l.last() == l[l.len() - 1]);
    }
}

/// Records read through the automaton's (code, offset) pairs are the
/// items the dictionary lists for those codes.
proof fn lemma_flat(b: Seq<u8>, hi: int, fsa: Seq<u8>, r: Seq<(Seq<u8>, u64)>)
    requires
        dict_fsa_end(b) == Ok::<int, FsaError>(hi),
        b.subrange(8, hi) == fsa,
        forall|j: int| 0 <= j < r.len() ==> #[trigger] bytes_get(fsa, r[j].0) == Some(r[j].1),
    ensures
        flat_records(b, hi, r) == flat_codes(b, pair_keys(r)),
    decreases r.len(),
{
    if r.len() > 0 {
        assert(bytes_get(fsa, r[0].0) == Some(r[0].1));
        assert forall|j: int| 0 <= j < r.drop_first().len() implies #[trigger] bytes_get(fsa, r.drop_first()[j].0) == Some(r.drop_first()[j].1) by {
            assert(r.drop_first()[j] == r[j + 1]);
        }
        lemma_flat(b, hi, fsa, r.drop_first());
        assert(pair_keys(r).drop_first() =~= pair_keys(r.drop_first()));
        assert(pair_keys(r)[0] == r[0].0);
    } else {
        assert(pair_keys(r) =~= Seq::<Seq<u8>>::empty());
    }
}

} // verus!
