//! A one-code-to-many-items map: each byte code maps to an ordered list
//! of (item bytes, u64) pairs. The automaton holds only the codes, its
//! value for a code being the offset of that code's record in a packed
//! blob behind it.
//!
//! Layout: magic "IXDC" (4) · automaton length u32 · automaton · blob.
//! Record: `n uvarint · (item_len uvarint · item bytes · value uvarint) × n`.

use vstd::prelude::*;

use crate::fsa::reader::{
    bytes_get, bytes_has_prefix, bytes_prefix, deep_pairs, parse_layout, slice_to_vec_u8, Fsa,
    FsaError,
};
use crate::fsa::encode::placed;
use crate::fsa::varint::{
    lemma_uvarint_at_bound, lemma_uvarint_roundtrip, rd_uvarint, uvarint_at, uvarint_enc, write_uvarint,
};
use crate::le::u32_at;

verus! {

/// Magic bytes of a dictionary buffer: "IXDC".
pub const DICT_MAGIC: [u8; 4] = [0x49, 0x58, 0x44, 0x43];

/// Where the embedded automaton of `b` ends (it starts at byte 8), or
/// why `b` is not a dictionary.
pub open spec fn dict_fsa_end(b: Seq<u8>) -> Result<int, FsaError> {
    if b.len() < 8 {
        Err(FsaError::Truncated)
    } else if !(b[0] == 0x49u8 && b[1] == 0x58u8 && b[2] == 0x44u8 && b[3] == 0x43u8) {
        Err(FsaError::BadMagic)
    } else {
        let hi = 8 + u32_at(b, 4);
        if b.len() < hi {
            Err(FsaError::Truncated)
        } else {
            match parse_layout(b.subrange(8, hi)) {
                Ok(_) => Ok(hi),
                Err(e) => Err(e),
            }
        }
    }
}

/// The `n` items of a record starting at `p`, as far as they can be read.
pub open spec fn record_items(b: Seq<u8>, p: int, n: nat) -> Seq<(Seq<u8>, u64)>
    decreases n,
{
    if n == 0 {
        Seq::empty()
    } else {
        match uvarint_at(b, p) {
            None => Seq::empty(),
            Some((len, q)) => if q + len > b.len() {
                Seq::empty()
            } else {
                match uvarint_at(b, q + len) {
                    None => Seq::empty(),
                    Some((v, r)) => seq![(b.subrange(q, q + len), v)] + record_items(
                        b,
                        r,
                        (n - 1) as nat,
                    ),
                }
            },
        }
    }
}

/// The items of the record at `p`.
pub open spec fn record_at(b: Seq<u8>, p: int) -> Seq<(Seq<u8>, u64)> {
    match uvarint_at(b, p) {
        None => Seq::empty(),
        Some((n, q)) => record_items(b, q, n as nat),
    }
}

/// The items the dictionary `b` stores for `code`.
pub open spec fn dict_get_spec(b: Seq<u8>, code: Seq<u8>) -> Seq<(Seq<u8>, u64)> {
    match dict_fsa_end(b) {
        Ok(hi) => match bytes_get(b.subrange(8, hi), code) {
            Some(off) => record_at(b, hi + off),
            None => Seq::empty(),
        },
        Err(_) => Seq::empty(),
    }
}

/// `items` with `code` in front of each.
pub open spec fn with_code(code: Seq<u8>, items: Seq<(Seq<u8>, u64)>) -> Seq<(Seq<u8>, Seq<u8>, u64)> {
    items.map_values(|x: (Seq<u8>, u64)| (code, x.0, x.1))
}

/// The records of the codes `ps` (with their offsets), in order.
pub open spec fn flat_records(b: Seq<u8>, hi: int, ps: Seq<(Seq<u8>, u64)>) -> Seq<
    (Seq<u8>, Seq<u8>, u64),
>
    decreases ps.len(),
{
    if ps.len() == 0 {
        Seq::empty()
    } else {
        with_code(ps[0].0, record_at(b, hi + ps[0].1)) + flat_records(b, hi, ps.drop_first())
    }
}

/// The (code, item, value) triples of the codes starting with `prefix`,
/// codes in the automaton's order, items in stored order.
pub open spec fn dict_prefix_spec(b: Seq<u8>, prefix: Seq<u8>) -> Seq<(Seq<u8>, Seq<u8>, u64)> {
    match dict_fsa_end(b) {
        Ok(hi) => flat_records(b, hi, bytes_prefix(b.subrange(8, hi), prefix)),
        Err(_) => Seq::empty(),
    }
}

/// Owned view of (code, item, value) triples.
pub open spec fn deep_triples(s: Seq<(Vec<u8>, Vec<u8>, u64)>) -> Seq<(Seq<u8>, Seq<u8>, u64)> {
    s.map_values(|x: (Vec<u8>, Vec<u8>, u64)| (x.0@, x.1@, x.2))
}

/// Copy of `b[lo..hi]`.
pub fn copy_range(b: &[u8], lo: usize, hi: usize) -> (r: Vec<u8>)
    requires
        lo <= hi <= b@.len(),
    ensures
        r@ == b@.subrange(lo as int, hi as int),
{
    let mut r: Vec<u8> = Vec::new();
    let mut i: usize = lo;
    while i < hi
        invariant
            lo <= i <= hi <= b@.len(),
            r@ == b@.subrange(lo as int, i as int),
        decreases hi - i,
    {
        r.push(b[i]);
        assert(b@.subrange(lo as int, i + 1) =~= b@.subrange(lo as int, i as int).push(b@[i as int]));
        i = i + 1;
    }
    r
}

/// Read the items of the record at `p0`.
pub fn read_record(b: &[u8], p0: u64) -> (r: Vec<(Vec<u8>, u64)>)
    ensures
        deep_pairs(r@) == record_at(b@, p0 as int),
{
    let mut out: Vec<(Vec<u8>, u64)> = Vec::new();
    if p0 >= b.len() as u64 {
        assert(deep_pairs(out@) =~= Seq::<(Seq<u8>, u64)>::empty());
        return out;
    }
    let mut p: usize = p0 as usize;
    proof {
        lemma_uvarint_at_bound(b@, p as int);
    }
    let n = match rd_uvarint(b, &mut p) {
        Some(n) => n,
        None => {
            assert(deep_pairs(out@) =~= Seq::<(Seq<u8>, u64)>::empty());
            return out;
        },
    };
    let mut left = n;
    assert(deep_pairs(out@) =~= Seq::<(Seq<u8>, u64)>::empty());
    while left > 0
        invariant
            p <= b@.len(),
            deep_pairs(out@) + record_items(b@, p as int, left as nat) == record_at(b@, p0 as int),
        decreases left,
    {
        let ghost out_before = deep_pairs(out@);
        let ghost pp = p as int;
        proof {
            lemma_uvarint_at_bound(b@, p as int);
        }
        let len = match rd_uvarint(b, &mut p) {
            Some(l) => l,
            None => {
                assert(out_before + Seq::<(Seq<u8>, u64)>::empty() =~= out_before);
                return out;
            },
        };
        if len > (b.len() - p) as u64 {
            assert(out_before + Seq::<(Seq<u8>, u64)>::empty() =~= out_before);
            return out;
        }
        let q = p;
        let item = copy_range(b, q, q + len as usize);
        p = q + len as usize;
        proof {
            lemma_uvarint_at_bound(b@, p as int);
        }
        let v = match rd_uvarint(b, &mut p) {
            Some(v) => v,
            None => {
                assert(out_before + Seq::<(Seq<u8>, u64)>::empty() =~= out_before);
                return out;
            },
        };
        out.push((item, v));
        proof {
            let rest = record_items(b@, p as int, (left - 1) as nat);
            assert(record_items(b@, pp, left as nat) == seq![(b@.subrange(q as int, q + len), v)]
                + rest);
            assert(deep_pairs(out@) =~= out_before.push((b@.subrange(q as int, q + len), v)));
            assert(deep_pairs(out@) + rest =~= out_before + record_items(b@, pp, left as nat));
        }
        left = left - 1;
    }
    assert(deep_pairs(out@) + Seq::<(Seq<u8>, u64)>::empty() =~= deep_pairs(out@));
    out
}

/// Read-only two-level dictionary over owned bytes.
pub struct Dict {
    data: Vec<u8>,
    fsa: Fsa,
    hi: usize,
}

impl Dict {
    #[verifier::type_invariant]
    spec fn inv(&self) -> bool {
        &&& dict_fsa_end(self.data@) == Ok::<int, FsaError>(self.hi as int)
        &&& self.fsa.bytes() == self.data@.subrange(8, self.hi as int)
    }

    /// The serialized bytes this dictionary reads.
    pub closed spec fn bytes(&self) -> Seq<u8> {
        self.data@
    }

    /// Load a dictionary from its bytes; the embedded automaton's header
    /// is checked here. Errors: `Truncated` when the buffer is shorter
    /// than 8 bytes or than its automaton, `BadMagic`, or the automaton's
    /// own error.
    pub fn new(data: Vec<u8>) -> (r: Result<Dict, FsaError>)
        ensures
            match dict_fsa_end(data@) {
                Ok(_) => r matches Ok(d) && d.bytes() == data@,
                Err(e) => r == Err::<Dict, FsaError>(e),
            },
    {
        if data.len() < 8 {
            return Err(FsaError::Truncated);
        }
        if !(data[0] == 0x49u8 && data[1] == 0x58u8 && data[2] == 0x44u8 && data[3] == 0x43u8) {
            return Err(FsaError::BadMagic);
        }
        let fsa_len = crate::le::read_u32(data.as_slice(), 4);
        let hi64: u64 = 8 + fsa_len as u64;
        if (data.len() as u64) < hi64 {
            return Err(FsaError::Truncated);
        }
        let hi = hi64 as usize;
        let fb = copy_range(data.as_slice(), 8, hi);
        match Fsa::new(fb) {
            Ok(fsa) => Ok(Dict { data, fsa, hi }),
            Err(e) => Err(e),
        }
    }

    /// The embedded code automaton.
    pub fn fsa(&self) -> (r: &Fsa)
        ensures
            r.bytes() == self.bytes().subrange(8, dict_fsa_end(self.bytes())->Ok_0),
    {
        proof {
            use_type_invariant(self);
        }
        &self.fsa
    }

    /// Number of distinct codes.
    pub fn len(&self) -> (r: u64)
        ensures
            r == parse_layout(self.bytes().subrange(8, dict_fsa_end(self.bytes())->Ok_0))->Ok_0.value_count,
    {
        proof {
            use_type_invariant(self);
        }
        self.fsa.len()
    }

    pub fn is_empty(&self) -> (r: bool)
        ensures
            r == (parse_layout(self.bytes().subrange(8, dict_fsa_end(self.bytes())->Ok_0))->Ok_0.value_count == 0),
    {
        self.len() == 0
    }

    /// Items for an exact `code`, in stored order; empty when the code is
    /// absent.
    pub fn get(&self, code: &[u8]) -> (r: Vec<(Vec<u8>, u64)>)
        ensures
            deep_pairs(r@) == dict_get_spec(self.bytes(), code@),
    {
        proof {
            use_type_invariant(self);
        }
        match self.fsa.get(code) {
            Some(off) => self.read_record(off),
            None => {
                let r: Vec<(Vec<u8>, u64)> = Vec::new();
                assert(deep_pairs(r@) =~= Seq::<(Seq<u8>, u64)>::empty());
                r
            },
        }
    }

    /// The items of the record at `off` into the blob.
    fn read_record(&self, off: u64) -> (r: Vec<(Vec<u8>, u64)>)
        ensures
            deep_pairs(r@) == record_at(self.bytes(), dict_fsa_end(self.bytes())->Ok_0 + off),
    {
        proof {
            use_type_invariant(self);
        }
        if off > (self.data.len() - self.hi) as u64 {
            let r: Vec<(Vec<u8>, u64)> = Vec::new();
            assert(deep_pairs(r@) =~= Seq::<(Seq<u8>, u64)>::empty());
            return r;
        }
        read_record(self.data.as_slice(), self.hi as u64 + off)
    }

    /// `true` if any code starts with `prefix`.
    pub fn contains_prefix(&self, prefix: &[u8]) -> (r: bool)
        ensures
            r == bytes_has_prefix(self.bytes().subrange(8, dict_fsa_end(self.bytes())->Ok_0), prefix@),
    {
        proof {
            use_type_invariant(self);
        }
        self.fsa.contains_prefix(prefix)
    }

    /// All (code, item, value) triples whose code starts with `prefix`:
    /// codes in sorted order, items in stored order within each code.
    pub fn prefix(&self, prefix: &[u8]) -> (r: Vec<(Vec<u8>, Vec<u8>, u64)>)
        ensures
            deep_triples(r@) == dict_prefix_spec(self.bytes(), prefix@),
    {
        proof {
            use_type_invariant(self);
        }
        let codes = self.fsa.prefix(prefix);
        let ghost ps = deep_pairs(codes@);
        let mut out: Vec<(Vec<u8>, Vec<u8>, u64)> = Vec::new();
        let mut i: usize = 0;
        let ghost hi = self.hi as int;
        proof {
            assert(ps.skip(0) =~= ps);
            assert(deep_triples(out@) =~= Seq::<(Seq<u8>, Seq<u8>, u64)>::empty());
            assert(deep_triples(out@) + flat_records(self.data@, hi, ps) =~= flat_records(self.data@, hi, ps));
        }
        while i < codes.len()
            invariant
                dict_fsa_end(self.data@) == Ok::<int, FsaError>(hi),
                hi == self.hi,
                ps == deep_pairs(codes@),
                i <= codes@.len(),
                deep_triples(out@) + flat_records(self.data@, hi, ps.skip(i as int)) == flat_records(
                    self.data@,
                    hi,
                    ps,
                ),
            decreases codes@.len() - i,
        {
            let items = self.read_record(codes[i].1);
            let ghost ob = deep_triples(out@);
            let mut j: usize = 0;
            while j < items.len()
                invariant
                    i < codes@.len(),
                    j <= items@.len(),
                    deep_triples(out@) == ob + with_code(codes@[i as int].0@, deep_pairs(items@)).take(
                        j as int,
                    ),
                decreases items@.len() - j,
            {
                let c = slice_to_vec_u8(codes[i].0.as_slice());
                let it = slice_to_vec_u8(items[j].0.as_slice());
                let ghost before = out@;
                let ghost trip = (c@, it@, items@[j as int].1);
                out.push((c, it, items[j].1));
                assert(deep_triples(out@) =~= deep_triples(before).push(trip));
                assert(with_code(codes@[i as int].0@, deep_pairs(items@)).take(j + 1) =~= with_code(
                    codes@[i as int].0@,
                    deep_pairs(items@),
                ).take(j as int).push((codes@[i as int].0@, items@[j as int].0@, items@[j as int].1)));
                assert(deep_triples(out@) =~= ob + with_code(codes@[i as int].0@, deep_pairs(items@)).take(
                    j + 1,
                ));
                j = j + 1;
            }
            proof {
                let w = with_code(codes@[i as int].0@, deep_pairs(items@));
                assert(w.take(j as int) =~= w);
                assert(ps.skip(i as int)[0] == ps[i as int]);
                assert(ps.skip(i as int).drop_first() =~= ps.skip(i + 1));
                assert(flat_records(self.data@, hi, ps.skip(i as int)) == w + flat_records(
                    self.data@,
                    hi,
                    ps.skip(i + 1),
                ));
                assert(deep_triples(out@) + flat_records(self.data@, hi, ps.skip(i + 1)) =~= ob + (w
                    + flat_records(self.data@, hi, ps.skip(i + 1))));
            }
            i = i + 1;
        }
        proof {
            assert(ps.skip(i as int) =~= Seq::<(Seq<u8>, u64)>::empty());
            assert(deep_triples(out@) + Seq::<(Seq<u8>, Seq<u8>, u64)>::empty() =~= deep_triples(
                out@,
            ));
        }
        out
    }

    /// Invoke `visit(code, item, value)` for every triple of
    /// [`Dict::prefix`], in that order.
    pub fn prefix_for_each<F: FnMut(&[u8], &[u8], u64)>(&self, prefix: &[u8], visit: F)
        requires
            forall|c: &[u8], it: &[u8], v: u64| call_requires(visit, (c, it, v)),
    {
        let items = self.prefix(prefix);
        let mut visit = visit;
        let mut i: usize = 0;
        while i < items.len()
            invariant
                forall|c: &[u8], it: &[u8], v: u64| call_requires(visit, (c, it, v)),
            decreases items.len() - i,
        {
            visit(items[i].0.as_slice(), items[i].1.as_slice(), items[i].2);
            i = i + 1;
        }
    }
}

} // verus!

verus! {

/// The bytes of items `items[i..]` of a record.
pub open spec fn enc_items(items: Seq<(Seq<u8>, u64)>, i: int) -> Seq<u8>
    decreases items.len() - i,
{
    if 0 <= i < items.len() {
        uvarint_enc(items[i].0.len() as u64) + items[i].0 + uvarint_enc(items[i].1) + enc_items(
            items,
            i + 1,
        )
    } else {
        Seq::empty()
    }
}

/// The bytes of a record holding `items`.
pub open spec fn enc_record(items: Seq<(Seq<u8>, u64)>) -> Seq<u8> {
    uvarint_enc(items.len() as u64) + enc_items(items, 0)
}

/// Reading the items `i..` back from where they were placed.
proof fn lemma_items_read(b: Seq<u8>, p: int, items: Seq<(Seq<u8>, u64)>, i: int)
    requires
        0 <= i <= items.len(),
        placed(b, p, enc_items(items, i)),
        forall|x: int| 0 <= x < items.len() ==> #[trigger] items[x].0.len() <= u64::MAX,
    ensures
        record_items(b, p, (items.len() - i) as nat) == items.skip(i),
    decreases items.len() - i,
{
    if i == items.len() {
        assert(items.skip(i) =~= Seq::<(Seq<u8>, u64)>::empty());
    } else {
        let it = items[i].0;
        let e1 = uvarint_enc(it.len() as u64);
        let e2 = uvarint_enc(items[i].1);
        let rest = enc_items(items, i + 1);
        assert(enc_items(items, i) == e1 + it + e2 + rest);
        assert(e1 + it + e2 + rest == e1 + (it + (e2 + rest)));
        lemma_placed_split2(b, p, e1, it + (e2 + rest));
        lemma_placed_split2(b, p + e1.len(), it, e2 + rest);
        lemma_placed_split2(b, p + e1.len() + it.len(), e2, rest);
        lemma_uvarint_roundtrip(b, p, it.len() as u64);
        lemma_uvarint_roundtrip(b, p + e1.len() + it.len(), items[i].1);
        lemma_items_read(b, p + e1.len() + it.len() + e2.len(), items, i + 1);
        assert(items.skip(i) =~= seq![items[i]] + items.skip(i + 1));
    }
}

proof fn lemma_placed_split2(b: Seq<u8>, at: int, s1: Seq<u8>, s2: Seq<u8>)
    requires
        placed(b, at, s1 + s2),
    ensures
        placed(b, at, s1),
        placed(b, at + s1.len(), s2),
{
    let w = b.subrange(at, at + (s1 + s2).len());
    assert(w == s1 + s2);
    assert(b.subrange(at, at + s1.len()) =~= w.subrange(0, s1.len() as int));
    assert(w.subrange(0, s1.len() as int) =~= s1);
    assert(b.subrange(at + s1.len(), at + s1.len() + s2.len()) =~= w.subrange(
        s1.len() as int,
        (s1.len() + s2.len()) as int,
    ));
    assert(w.subrange(s1.len() as int, (s1.len() + s2.len()) as int) =~= s2);
}

/// A placed record reads back as its items.
pub proof fn lemma_record_read(b: Seq<u8>, p: int, items: Seq<(Seq<u8>, u64)>)
    requires
        placed(b, p, enc_record(items)),
        items.len() <= u64::MAX,
        forall|x: int| 0 <= x < items.len() ==> #[trigger] items[x].0.len() <= u64::MAX,
    ensures
        record_at(b, p) == items,
{
    let e0 = uvarint_enc(items.len() as u64);
    lemma_placed_split2(b, p, e0, enc_items(items, 0));
    lemma_uvarint_roundtrip(b, p, items.len() as u64);
    lemma_items_read(b, p + e0.len(), items, 0);
    assert(items.skip(0) =~= items);
}

/// Append the record of `items[lo..hi]` (codes dropped).
pub(crate) fn write_record(blob: &mut Vec<u8>, items: &Vec<(Vec<u8>, Vec<u8>, u64)>, lo: usize, hi: usize)
    requires
        lo <= hi <= items@.len(),
    ensures
        final(blob)@ == old(blob)@ + enc_record(drop_codes(deep_triples(items@).subrange(lo as int, hi as int))),
{
    let ghost its = drop_codes(deep_triples(items@).subrange(lo as int, hi as int));
    write_uvarint(blob, (hi - lo) as u64);
    let ghost head = blob@;
    let mut k: usize = lo;
    while k < hi
        invariant
            lo <= k <= hi <= items@.len(),
            its == drop_codes(deep_triples(items@).subrange(lo as int, hi as int)),
            head + enc_items(its, 0) == blob@ + enc_items(its, k - lo),
        decreases hi - k,
    {
        let ghost before = blob@;
        let item = &items[k].1;
        write_uvarint(blob, item.len() as u64);
        let mut x: usize = 0;
        while x < item.len()
            invariant
                x <= item@.len(),
                blob@ == before + uvarint_enc(item@.len() as u64) + item@.take(x as int),
            decreases item@.len() - x,
        {
            blob.push(item[x]);
            assert(item@.take(x + 1) =~= item@.take(x as int).push(item@[x as int]));
            x = x + 1;
        }
        assert(item@.take(x as int) =~= item@);
        write_uvarint(blob, items[k].2);
        proof {
            let ii = (k - lo) as int;
            assert(its[ii] == (item@, items@[k as int].2));
            assert(enc_items(its, ii) == uvarint_enc(item@.len() as u64) + item@ + uvarint_enc(
                items@[k as int].2,
            ) + enc_items(its, ii + 1));
            assert(blob@ + enc_items(its, ii + 1) =~= before + enc_items(its, ii));
        }
        k = k + 1;
    }
    proof {
        assert(enc_items(its, (k - lo) as int) =~= Seq::<u8>::empty());
        assert(its.len() == hi - lo);
        assert(final(blob)@ =~= old(blob)@ + enc_record(its));
    }
}

/// Triples with the code dropped.
pub open spec fn drop_codes(s: Seq<(Seq<u8>, Seq<u8>, u64)>) -> Seq<(Seq<u8>, u64)> {
    s.map_values(|x: (Seq<u8>, Seq<u8>, u64)| (x.1, x.2))
}

} // verus!
