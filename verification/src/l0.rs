//! Per-user pin / boost store for the IME engines, and its binary
//! format L0v1.
//!
//! ```text
//! header (12 B): magic "L0v1" · reserved u32 (= 0) · entry_count u32
//! entry:         code_len u8 · code · word_len u8 · word · boost i16 (LE, Q4)
//! ```
//!
//! A boost is Q4 fixed point: `boost / 16` log-units added on top of the
//! dictionary prior. Pinning with weight `w` stores `w × 16`.

use vstd::prelude::*;
use vstd::string::StringSliceAdditionalSpecFns;
use vstd::utf8::{decode_utf8, encode_utf8, valid_utf8};

use crate::fsa::dict::copy_range;
use crate::fsa::encode::placed;
use crate::le::{le16, le32, push_u16, push_u32, read_u16, read_u32, u16_at, u32_at};
use crate::text::{owned, sbytes, compare_bytes, lemma_seq_lt_irreflexive, lemma_seq_lt_total, lemma_seq_lt_trans, seq_lt, utf8_str};

verus! {

/// Magic bytes "L0v1".
pub const MAGIC: [u8; 4] = [0x4c, 0x30, 0x76, 0x31];

/// Size of the fixed header.
pub const HEADER_SIZE: usize = 12;

/// Q4 units per log-unit.
pub const Q4: i32 = 16;

/// Why bytes are not an L0v1 store.
#[derive(Debug, PartialEq, Eq)]
pub enum OpenError {
    TooShort,
    BadMagic,
    CorruptEntry,
}

/// One pinned (code, word) → boost association.
#[derive(Clone, Debug)]
pub struct Pin {
    pub code: String,
    pub word: String,
    pub boost: i16,
}

/// The Q4 boost for a pin weight: `weight × 16` (at most 4080, so it
/// never needs the clamp to the i16 range).
pub open spec fn weight_boost(weight: u8) -> i16 {
    (weight * 16) as i16
}

/// Map a weight to its Q4 boost.
pub fn weight_to_boost(weight: u8) -> (r: i16)
    ensures
        r == weight_boost(weight),
{
    let scaled: i32 = weight as i32 * Q4;
    scaled as i16
}

/// Key order: code bytes first, then word bytes.
pub open spec fn key_lt(a: (Seq<u8>, Seq<u8>), c: (Seq<u8>, Seq<u8>)) -> bool {
    seq_lt(a.0, c.0) || (a.0 == c.0 && seq_lt(a.1, c.1))
}

/// An entry as bytes.
pub open spec fn entry_view(x: (String, String, i16)) -> (Seq<u8>, Seq<u8>, i16) {
    (sbytes(x.0), sbytes(x.1), x.2)
}

/// Keys strictly increase.
pub open spec fn keys_sorted(s: Seq<(Seq<u8>, Seq<u8>, i16)>) -> bool {
    forall|i: int, j: int| 0 <= i < j < s.len() ==> key_lt((#[trigger] s[i].0, s[i].1), (#[trigger] s[j].0, s[j].1))
}

/// The map the entries describe, later entries overriding earlier ones.
pub open spec fn entries_map(s: Seq<(Seq<u8>, Seq<u8>, i16)>) -> Map<(Seq<u8>, Seq<u8>), i16>
    decreases s.len(),
{
    if s.len() == 0 {
        Map::empty()
    } else {
        entries_map(s.drop_last()).insert((s.last().0, s.last().1), s.last().2)
    }
}

proof fn lemma_key_lt_total(a: (Seq<u8>, Seq<u8>), c: (Seq<u8>, Seq<u8>))
    ensures
        key_lt(a, c) || key_lt(c, a) || a == c,
        !(key_lt(a, c) && key_lt(c, a)),
        !key_lt(a, a),
{
    lemma_seq_lt_total(a.0, c.0);
    lemma_seq_lt_total(a.1, c.1);
    lemma_seq_lt_irreflexive(a.0);
    lemma_seq_lt_irreflexive(a.1);
}

proof fn lemma_key_lt_trans(a: (Seq<u8>, Seq<u8>), c: (Seq<u8>, Seq<u8>), d: (Seq<u8>, Seq<u8>))
    requires
        key_lt(a, c),
        key_lt(c, d),
    ensures
        key_lt(a, d),
{
    lemma_seq_lt_total(a.0, c.0);
    lemma_seq_lt_total(c.0, d.0);
    if seq_lt(a.0, c.0) && seq_lt(c.0, d.0) {
        lemma_seq_lt_trans(a.0, c.0, d.0);
    }
    if a.0 == c.0 && c.0 == d.0 {
        lemma_seq_lt_trans(a.1, c.1, d.1);
    }
}

/// With keys strictly increasing, the map holds exactly the entries.
pub proof fn lemma_sorted_map(s: Seq<(Seq<u8>, Seq<u8>, i16)>)
    requires
        keys_sorted(s),
    ensures
        forall|i: int| 0 <= i < s.len() ==> #[trigger] entries_map(s).contains_key((s[i].0, s[i].1))
            && entries_map(s)[(s[i].0, s[i].1)] == s[i].2,
        forall|k: (Seq<u8>, Seq<u8>)| #[trigger] entries_map(s).contains_key(k) ==> exists|i: int|
            0 <= i < s.len() && (s[i].0, s[i].1) == k,
    decreases s.len(),
{
    if s.len() > 0 {
        let p = s.drop_last();
        assert forall|i: int, j: int| 0 <= i < j < p.len() implies key_lt((#[trigger] p[i].0, p[i].1), (#[trigger] p[j].0, p[j].1)) by {
            assert(p[i] == s[i] && p[j] == s[j]);
        }
        lemma_sorted_map(p);
        let last = s.len() - 1;
        assert forall|i: int| 0 <= i < s.len() implies #[trigger] entries_map(s).contains_key((s[i].0, s[i].1))
            && entries_map(s)[(s[i].0, s[i].1)] == s[i].2 by {
            assert(entries_map(s) == entries_map(p).insert((s.last().0, s.last().1), s.last().2));
            assert(s.last() == s[last]);
            if i < last {
                assert(p[i] == s[i]);
                assert(entries_map(p).contains_key((p[i].0, p[i].1)));
                assert(key_lt((s[i].0, s[i].1), (s[last].0, s[last].1)));
                lemma_key_lt_total((s[i].0, s[i].1), (s[last].0, s[last].1));
                assert((s[i].0, s[i].1) != (s[last].0, s[last].1));
            }
        }
        assert forall|k: (Seq<u8>, Seq<u8>)| #[trigger] entries_map(s).contains_key(k) implies exists|i: int|
            0 <= i < s.len() && (s[i].0, s[i].1) == k by {
            if k == (s[last].0, s[last].1) {
            } else {
                assert(entries_map(p).contains_key(k));
                let i = choose|i: int| 0 <= i < p.len() && (p[i].0, p[i].1) == k;
                assert(s[i] == p[i]);
            }
        }
    }
}

// ─── The binary format ────────────────────────────────────────────────

/// Bytes of one entry.
pub open spec fn entry_enc(x: (Seq<u8>, Seq<u8>, i16)) -> Seq<u8> {
    seq![x.0.len() as u8] + x.0 + seq![x.1.len() as u8] + x.1 + le16(x.2 as u16)
}

/// Bytes of the entries `s`, in order.
pub open spec fn entries_enc(s: Seq<(Seq<u8>, Seq<u8>, i16)>) -> Seq<u8>
    decreases s.len(),
{
    if s.len() == 0 {
        Seq::empty()
    } else {
        entry_enc(s[0]) + entries_enc(s.drop_first())
    }
}

/// The L0v1 bytes of the entries `s`.
pub open spec fn l0_encode(s: Seq<(Seq<u8>, Seq<u8>, i16)>) -> Seq<u8> {
    MAGIC@ + le32(0) + le32(s.len() as u32) + entries_enc(s)
}

/// The `n` entries starting at `p`, or `CorruptEntry` when one is cut
/// short or a code or word is not UTF-8.
pub open spec fn parse_entries(b: Seq<u8>, p: int, n: nat) -> Result<Seq<(Seq<u8>, Seq<u8>, i16)>, OpenError>
    decreases n,
{
    if n == 0 {
        Ok(Seq::empty())
    } else if p + 1 > b.len() {
        Err(OpenError::CorruptEntry)
    } else {
        let cl = b[p] as int;
        let cp = p + 1;
        if cp + cl > b.len() || !valid_utf8(b.subrange(cp, cp + cl)) {
            Err(OpenError::CorruptEntry)
        } else {
            let wp = cp + cl;
            if wp + 1 > b.len() {
                Err(OpenError::CorruptEntry)
            } else {
                let wl = b[wp] as int;
                let wq = wp + 1;
                if wq + wl > b.len() || !valid_utf8(b.subrange(wq, wq + wl)) {
                    Err(OpenError::CorruptEntry)
                } else {
                    let bp = wq + wl;
                    if bp + 2 > b.len() {
                        Err(OpenError::CorruptEntry)
                    } else {
                        let x = (b.subrange(cp, cp + cl), b.subrange(wq, wq + wl), u16_at(b, bp) as i16);
                        match parse_entries(b, bp + 2, (n - 1) as nat) {
                            Ok(rest) => Ok(seq![x] + rest),
                            Err(e) => Err(e),
                        }
                    }
                }
            }
        }
    }
}

/// The entries the bytes `b` hold, in file order.
pub open spec fn l0_parse(b: Seq<u8>) -> Result<Seq<(Seq<u8>, Seq<u8>, i16)>, OpenError> {
    if b.len() < 12 {
        Err(OpenError::TooShort)
    } else if b.subrange(0, 4) != MAGIC@ {
        Err(OpenError::BadMagic)
    } else {
        parse_entries(b, 12, u32_at(b, 8) as nat)
    }
}

} // verus!

verus! {

/// Entries that fit the format: codes and words of at most 255 bytes,
/// valid UTF-8.
pub open spec fn entries_fit(s: Seq<(Seq<u8>, Seq<u8>, i16)>) -> bool {
    &&& s.len() <= u32::MAX
    &&& forall|i: int| 0 <= i < s.len() ==> (#[trigger] s[i]).0.len() <= 255 && s[i].1.len() <= 255
        && valid_utf8(s[i].0) && valid_utf8(s[i].1)
}

proof fn lemma_placed_split(b: Seq<u8>, at: int, s1: Seq<u8>, s2: Seq<u8>)
    requires
        placed(b, at, s1 + s2),
    ensures
        placed(b, at, s1),
        placed(b, at + s1.len(), s2),
{
    let w = b.subrange(at, at + (s1 + s2).len());
    assert(w == s1 + s2);
    assert(b.subrange(at, at + s1.len()) =~= w.subrange(0, s1.len() as int));
    assert(w.subrange(0, s1.len() as int) =~= s1);
    assert(b.subrange(at + s1.len(), at + s1.len() + s2.len()) =~= w.subrange(
        s1.len() as int,
        (s1.len() + s2.len()) as int,
    ));
    assert(w.subrange(s1.len() as int, (s1.len() + s2.len()) as int) =~= s2);
}

proof fn lemma_i16_u16(x: i16)
    ensures
        (x as u16) as i16 == x,
{
    assert((x as u16) as i16 == x) by (bit_vector);
}

proof fn lemma_parse_entries(b: Seq<u8>, p: int, s: Seq<(Seq<u8>, Seq<u8>, i16)>)
    requires
        entries_fit(s),
        placed(b, p, entries_enc(s)),
    ensures
        parse_entries(b, p, s.len()) == Ok::<Seq<(Seq<u8>, Seq<u8>, i16)>, OpenError>(s),
    decreases s.len(),
{
    if s.len() == 0 {
        assert(parse_entries(b, p, 0) == Ok::<Seq<(Seq<u8>, Seq<u8>, i16)>, OpenError>(Seq::empty()));
        assert(s =~= Seq::<(Seq<u8>, Seq<u8>, i16)>::empty());
    } else {
        let x = s[0];
        let rest = s.drop_first();
        assert(entries_fit(rest)) by {
            assert forall|i: int| 0 <= i < rest.len() implies (#[trigger] rest[i]).0.len() <= 255 && rest[i].1.len() <= 255
                && valid_utf8(rest[i].0) && valid_utf8(rest[i].1) by {
                assert(rest[i] == s[i + 1]);
            }
        }
        let e = entry_enc(x);
        assert(entries_enc(s) == e + entries_enc(rest));
        lemma_placed_split(b, p, e, entries_enc(rest));
        let cl = x.0.len() as int;
        let wl = x.1.len() as int;
        let w = b.subrange(p, p + e.len());
        assert(w == e);
        assert(b[p] == e[0]);
        assert(e[0] == x.0.len() as u8);
        assert(b.subrange(p + 1, p + 1 + cl) =~= x.0) by {
            assert forall|t: int| 0 <= t < cl implies b.subrange(p + 1, p + 1 + cl)[t] == x.0[t] by {
                assert(w[1 + t] == e[1 + t]);
            }
        }
        assert(b[p + 1 + cl] == e[1 + cl]);
        assert(e[1 + cl] == x.1.len() as u8);
        assert(b.subrange(p + 2 + cl, p + 2 + cl + wl) =~= x.1) by {
            assert forall|t: int| 0 <= t < wl implies b.subrange(p + 2 + cl, p + 2 + cl + wl)[t] == x.1[t] by {
                assert(w[2 + cl + t] == e[2 + cl + t]);
            }
        }
        let bp = p + 2 + cl + wl;
        assert(b.subrange(bp, bp + 2) =~= le16(x.2 as u16)) by {
            assert(w[2 + cl + wl] == e[2 + cl + wl]);
            assert(w[3 + cl + wl] == e[3 + cl + wl]);
        }
        crate::le::lemma_u16_at_placed(b, bp, x.2 as u16);
        lemma_i16_u16(x.2);
        lemma_parse_entries(b, bp + 2, rest);
        assert(seq![x] + rest =~= s);
    }
}

/// Encoding then parsing gives the entries back.
pub proof fn lemma_l0_round_trip(s: Seq<(Seq<u8>, Seq<u8>, i16)>)
    requires
        entries_fit(s),
    ensures
        l0_parse(l0_encode(s)) == Ok::<Seq<(Seq<u8>, Seq<u8>, i16)>, OpenError>(s),
{
    let b = l0_encode(s);
    let hd = MAGIC@ + le32(0) + le32(s.len() as u32);
    assert(MAGIC@.len() == 4);
    assert(b.subrange(0, 4) =~= MAGIC@);
    assert(b.subrange(8, 12) =~= le32(s.len() as u32));
    crate::le::lemma_u32_at_placed(b, 8, s.len() as u32);
    assert(b.subrange(12, (12 + entries_enc(s).len()) as int) =~= entries_enc(s));
    lemma_parse_entries(b, 12, s);
}

} // verus!

verus! {

/// User pin / boost store: (code, word) → Q4 boost, kept in key order.
pub struct L0Store {
    entries: Vec<(String, String, i16)>,
}

/// Compare an entry's key with (`code`, `word`): -1, 0 or 1 as the
/// entry sorts before, equal to or after it.
fn order_of_entry(x: &(String, String, i16), code: &[u8], word: &[u8]) -> (r: i8)
    ensures
        r == -1 || r == 0 || r == 1,
        r == -1 <==> key_lt((sbytes(x.0), sbytes(x.1)), (code@, word@)),
        r == 0 <==> (sbytes(x.0), sbytes(x.1)) == (code@, word@),
        r == 1 <==> key_lt((code@, word@), (sbytes(x.0), sbytes(x.1))),
{
    let c = compare_bytes(x.0.as_str().as_bytes(), code);
    proof {
        lemma_seq_lt_total(sbytes(x.0), code@);
        lemma_seq_lt_irreflexive(sbytes(x.0));
    }
    if c != 0 {
        return c;
    }
    let w = compare_bytes(x.1.as_str().as_bytes(), word);
    proof {
        lemma_seq_lt_total(sbytes(x.1), word@);
        lemma_seq_lt_irreflexive(code@);
    }
    w
}

impl L0Store {
    #[verifier::type_invariant]
    spec fn inv(&self) -> bool {
        keys_sorted(self.entries())
    }

    /// The entries as bytes, in key order.
    pub closed spec fn entries(&self) -> Seq<(Seq<u8>, Seq<u8>, i16)> {
        self.entries@.map_values(|x: (String, String, i16)| entry_view(x))
    }

    /// The pins: (code bytes, word bytes) → boost.
    pub open spec fn pins(&self) -> Map<(Seq<u8>, Seq<u8>), i16> {
        entries_map(self.entries())
    }

    /// Empty store.
    pub fn new() -> (r: L0Store)
        ensures
            r.entries() == Seq::<(Seq<u8>, Seq<u8>, i16)>::empty(),
            r.pins() == Map::<(Seq<u8>, Seq<u8>), i16>::empty(),
    {
        let r = L0Store { entries: Vec::new() };
        assert(r.entries() =~= Seq::<(Seq<u8>, Seq<u8>, i16)>::empty());
        r
    }

    /// Position of (`code`, `word`): `Ok(i)` where it is, `Err(i)` where
    /// it would go.
    fn find(&self, code: &[u8], word: &[u8]) -> (r: Result<usize, usize>)
        ensures
            keys_sorted(self.entries()),
            match r {
                Ok(i) => i < self.entries().len() && (self.entries()[i as int].0, self.entries()[i as int].1) == (code@, word@),
                Err(i) => i <= self.entries().len() && (forall|j: int| 0 <= j < i ==> key_lt(
                    (#[trigger] self.entries()[j].0, self.entries()[j].1),
                    (code@, word@),
                )) && (forall|j: int| i <= j < self.entries().len() ==> key_lt(
                    (code@, word@),
                    (#[trigger] self.entries()[j].0, self.entries()[j].1),
                )),
            },
    {
        proof {
            use_type_invariant(self);
        }
        let ghost es = self.entries();
        let mut lo: usize = 0;
        let mut hi: usize = self.entries.len();
        while lo < hi
            invariant
                es == self.entries(),
                keys_sorted(es),
                lo <= hi <= es.len(),
                es.len() == self.entries@.len(),
                forall|j: int| 0 <= j < lo ==> key_lt((#[trigger] es[j].0, es[j].1), (code@, word@)),
                forall|j: int| hi <= j < es.len() ==> key_lt((code@, word@), (#[trigger] es[j].0, es[j].1)),
            decreases hi - lo,
        {
            let mid = lo + (hi - lo) / 2;
            let c = order_of_entry(&self.entries[mid], code, word);
            assert(es[mid as int] == entry_view(self.entries@[mid as int]));
            if c == 0 {
                return Ok(mid);
            } else if c < 0 {
                proof {
                    assert forall|j: int| 0 <= j < mid + 1 implies key_lt((#[trigger] es[j].0, es[j].1), (code@, word@)) by {
                        if j < mid {
                            assert(key_lt((es[j].0, es[j].1), (es[mid as int].0, es[mid as int].1)));
                            lemma_key_lt_trans((es[j].0, es[j].1), (es[mid as int].0, es[mid as int].1), (code@, word@));
                        }
                    }
                }
                lo = mid + 1;
            } else {
                proof {
                    assert forall|j: int| mid <= j < es.len() implies key_lt((code@, word@), (#[trigger] es[j].0, es[j].1)) by {
                        if j > mid {
                            assert(key_lt((es[mid as int].0, es[mid as int].1), (es[j].0, es[j].1)));
                            lemma_key_lt_trans((code@, word@), (es[mid as int].0, es[mid as int].1), (es[j].0, es[j].1));
                        }
                    }
                }
                hi = mid;
            }
        }
        Err(lo)
    }
}

} // verus!

verus! {

/// A map agreeing with sorted entries, key by key, is their map.
proof fn lemma_sorted_map_ext(s: Seq<(Seq<u8>, Seq<u8>, i16)>, m: Map<(Seq<u8>, Seq<u8>), i16>)
    requires
        keys_sorted(s),
        forall|i: int| 0 <= i < s.len() ==> #[trigger] m.contains_key((s[i].0, s[i].1)) && m[(s[i].0, s[i].1)] == s[i].2,
        forall|k: (Seq<u8>, Seq<u8>)| #[trigger] m.contains_key(k) ==> exists|i: int| 0 <= i < s.len() && (s[i].0, s[i].1) == k,
    ensures
        entries_map(s) == m,
{
    lemma_sorted_map(s);
    assert forall|k: (Seq<u8>, Seq<u8>)| entries_map(s).contains_key(k) <==> m.contains_key(k) by {
        if m.contains_key(k) {
            let i = choose|i: int| 0 <= i < s.len() && (s[i].0, s[i].1) == k;
            assert(entries_map(s).contains_key((s[i].0, s[i].1)));
        }
        if entries_map(s).contains_key(k) {
            let i = choose|i: int| 0 <= i < s.len() && (s[i].0, s[i].1) == k;
            assert(m.contains_key((s[i].0, s[i].1)));
        }
    }
    assert forall|k: (Seq<u8>, Seq<u8>)| entries_map(s).contains_key(k) implies entries_map(s)[k] == m[k] by {
        let i = choose|i: int| 0 <= i < s.len() && (s[i].0, s[i].1) == k;
        assert(m.contains_key((s[i].0, s[i].1)));
    }
    assert(entries_map(s) =~= m);
}

impl L0Store {
    /// Number of pinned entries.
    pub fn len(&self) -> (r: usize)
        ensures
            r == self.entries().len(),
            r == self.pins().dom().len(),
    {
        proof {
            use_type_invariant(self);
            let es = self.entries();
            lemma_sorted_map(es);
            let ks = es.map_values(|x: (Seq<u8>, Seq<u8>, i16)| (x.0, x.1));
            assert forall|a: int, b: int| 0 <= a < ks.len() && 0 <= b < ks.len() && a != b implies ks[a] != ks[b] by {
                if a < b {
                    assert(key_lt((es[a].0, es[a].1), (es[b].0, es[b].1)));
                    lemma_key_lt_total((es[a].0, es[a].1), (es[b].0, es[b].1));
                } else {
                    assert(key_lt((es[b].0, es[b].1), (es[a].0, es[a].1)));
                    lemma_key_lt_total((es[b].0, es[b].1), (es[a].0, es[a].1));
                }
            }
            ks.unique_seq_to_set();
            assert forall|k: (Seq<u8>, Seq<u8>)| ks.to_set().contains(k) <==> self.pins().dom().contains(k) by {
                if ks.contains(k) {
                    let i = choose|i: int| 0 <= i < ks.len() && ks[i] == k;
                    assert(self.pins().contains_key((es[i].0, es[i].1)));
                }
                if self.pins().contains_key(k) {
                    let i = choose|i: int| 0 <= i < es.len() && (es[i].0, es[i].1) == k;
                    assert(ks[i] == k);
                }
            }
            assert(ks.to_set() =~= self.pins().dom());
        }
        self.entries.len()
    }

    /// True iff no pinned entries.
    pub fn is_empty(&self) -> (r: bool)
        ensures
            r == (self.pins().dom().len() == 0),
    {
        self.len() == 0
    }

    /// The boost for (`code`, `word`); `None` when not pinned.
    pub fn boost(&self, code: &str, word: &str) -> (r: Option<i16>)
        ensures
            r == if self.pins().contains_key((code.spec_bytes(), word.spec_bytes())) {
                Some(self.pins()[(code.spec_bytes(), word.spec_bytes())])
            } else {
                None
            },
    {
        let found = self.find(code.as_bytes(), word.as_bytes());
        proof {
            lemma_sorted_map(self.entries());
        }
        match found {
            Ok(i) => Some(self.entries[i].2),
            Err(i) => {
                proof {
                    let k = (code.spec_bytes(), word.spec_bytes());
                    if self.pins().contains_key(k) {
                        let j = choose|j: int| 0 <= j < self.entries().len() && (self.entries()[j].0, self.entries()[j].1) == k;
                        if j < i {
                            assert(key_lt((self.entries()[j].0, self.entries()[j].1), k));
                        } else {
                            assert(key_lt(k, (self.entries()[j].0, self.entries()[j].1)));
                        }
                        lemma_key_lt_total(k, k);
                    }
                }
                None
            },
        }
    }

    /// Set the boost of (`code`, `word`), adding the entry when absent.
    fn set_entry(&mut self, code: String, word: String, boost: i16)
        ensures
            final(self).pins() == old(self).pins().insert((sbytes(code), sbytes(word)), boost),
    {
        proof {
            use_type_invariant(&*self);
        }
        let ghost es = self.entries();
        let ghost k = (sbytes(code), sbytes(word));
        let found = self.find(code.as_str().as_bytes(), word.as_str().as_bytes());
        proof {
            lemma_sorted_map(es);
        }
        match found {
            Ok(i) => {
                let ghost x = entry_view((code, word, boost));
                let mut v: Vec<(String, String, i16)> = Vec::new();
                std::mem::swap(&mut v, &mut self.entries);
                v.set(i, (code, word, boost));
                proof {
                    let es2 = v@.map_values(|y: (String, String, i16)| entry_view(y));
                    assert(es2 =~= es.update(i as int, x));
                    assert forall|a: int, b: int| 0 <= a < b < es2.len() implies key_lt((#[trigger] es2[a].0, es2[a].1), (#[trigger] es2[b].0, es2[b].1)) by {
                        assert(key_lt((es[a].0, es[a].1), (es[b].0, es[b].1)));
                    }
                    let m = es.map_values(|y: (Seq<u8>, Seq<u8>, i16)| y);
                    assert forall|j: int| 0 <= j < es2.len() implies #[trigger] entries_map(es).insert(k, boost).contains_key((es2[j].0, es2[j].1))
                        && entries_map(es).insert(k, boost)[(es2[j].0, es2[j].1)] == es2[j].2 by {
                        if j != i {
                            assert(es2[j] == es[j]);
                            assert(entries_map(es).contains_key((es[j].0, es[j].1)));
                            if (es[j].0, es[j].1) == k {
                                if j < i {
                                    assert(key_lt((es[j].0, es[j].1), (es[i as int].0, es[i as int].1)));
                                } else {
                                    assert(key_lt((es[i as int].0, es[i as int].1), (es[j].0, es[j].1)));
                                }
                                lemma_key_lt_total(k, k);
                            }
                        }
                    }
                    assert forall|kk: (Seq<u8>, Seq<u8>)| #[trigger] entries_map(es).insert(k, boost).contains_key(kk) implies exists|j: int|
                        0 <= j < es2.len() && (es2[j].0, es2[j].1) == kk by {
                        if kk == k {
                            assert((es2[i as int].0, es2[i as int].1) == kk);
                        } else {
                            let j = choose|j: int| 0 <= j < es.len() && (es[j].0, es[j].1) == kk;
                            assert(es2[j] == es[j]);
                        }
                    }
                    lemma_sorted_map_ext(es2, entries_map(es).insert(k, boost));
                }
                self.entries = v;
            },
            Err(i) => {
                let ghost x = entry_view((code, word, boost));
                let mut v: Vec<(String, String, i16)> = Vec::new();
                std::mem::swap(&mut v, &mut self.entries);
                v.insert(i, (code, word, boost));
                proof {
                    let es2 = v@.map_values(|y: (String, String, i16)| entry_view(y));
                    assert(es2 =~= es.insert(i as int, x));
                    assert forall|a: int, b: int| 0 <= a < b < es2.len() implies key_lt((#[trigger] es2[a].0, es2[a].1), (#[trigger] es2[b].0, es2[b].1)) by {
                        if b < i {
                            assert(key_lt((es[a].0, es[a].1), (es[b].0, es[b].1)));
                        } else if b == i {
                        } else if a < i {
                            assert(es2[b] == es[b - 1]);
                            assert(key_lt((es[a].0, es[a].1), k));
                            assert(key_lt(k, (es[b - 1].0, es[b - 1].1)));
                            lemma_key_lt_trans((es[a].0, es[a].1), k, (es[b - 1].0, es[b - 1].1));
                        } else if a == i {
                            assert(es2[b] == es[b - 1]);
                        } else {
                            assert(key_lt((es[a - 1].0, es[a - 1].1), (es[b - 1].0, es[b - 1].1)));
                        }
                    }
                    assert forall|j: int| 0 <= j < es2.len() implies #[trigger] entries_map(es).insert(k, boost).contains_key((es2[j].0, es2[j].1))
                        && entries_map(es).insert(k, boost)[(es2[j].0, es2[j].1)] == es2[j].2 by {
                        if j < i {
                            assert(es2[j] == es[j]);
                            assert(entries_map(es).contains_key((es[j].0, es[j].1)));
                            assert(key_lt((es[j].0, es[j].1), k));
                            lemma_key_lt_total(k, k);
                        } else if j > i {
                            assert(es2[j] == es[j - 1]);
                            assert(entries_map(es).contains_key((es[j - 1].0, es[j - 1].1)));
                            assert(key_lt(k, (es[j - 1].0, es[j - 1].1)));
                            lemma_key_lt_total(k, k);
                        }
                    }
                    assert forall|kk: (Seq<u8>, Seq<u8>)| #[trigger] entries_map(es).insert(k, boost).contains_key(kk) implies exists|j: int|
                        0 <= j < es2.len() && (es2[j].0, es2[j].1) == kk by {
                        if kk == k {
                            assert((es2[i as int].0, es2[i as int].1) == kk);
                        } else {
                            let j = choose|j: int| 0 <= j < es.len() && (es[j].0, es[j].1) == kk;
                            if j < i {
                                assert(es2[j] == es[j]);
                            } else {
                                assert(es2[j + 1] == es[j]);
                            }
                        }
                    }
                    lemma_sorted_map_ext(es2, entries_map(es).insert(k, boost));
                }
                self.entries = v;
            },
        }
    }
}

} // verus!

verus! {

proof fn lemma_entries_enc_push(a: Seq<(Seq<u8>, Seq<u8>, i16)>, x: (Seq<u8>, Seq<u8>, i16))
    ensures
        entries_enc(a.push(x)) == entries_enc(a) + entry_enc(x),
    decreases a.len(),
{
    if a.len() == 0 {
        assert(a.push(x).drop_first() =~= Seq::<(Seq<u8>, Seq<u8>, i16)>::empty());
        assert(a.push(x)[0] == x);
        assert(entries_enc(Seq::<(Seq<u8>, Seq<u8>, i16)>::empty()) == Seq::<u8>::empty());
        assert(entries_enc(a) == Seq::<u8>::empty());
        assert(entries_enc(a.push(x)) =~= entries_enc(a) + entry_enc(x));
    } else {
        lemma_entries_enc_push(a.drop_first(), x);
        assert(a.push(x).drop_first() =~= a.drop_first().push(x));
        assert(entries_enc(a.push(x)) =~= entries_enc(a) + entry_enc(x));
    }
}

proof fn lemma_entries_map_push(a: Seq<(Seq<u8>, Seq<u8>, i16)>, x: (Seq<u8>, Seq<u8>, i16))
    ensures
        entries_map(a.push(x)) == entries_map(a).insert((x.0, x.1), x.2),
{
    assert(a.push(x).drop_last() =~= a);
}


impl L0Store {
    /// Pin `word` for `code` with `weight`; the boost is `weight × 16`.
    /// A pin that already has a boost at least as high is kept.
    pub fn pin(&mut self, code: &str, word: &str, weight: u8)
        ensures
            ({
                let k = (code.spec_bytes(), word.spec_bytes());
                final(self).pins() == if old(self).pins().contains_key(k) && old(self).pins()[k] >= weight_boost(weight) {
                    old(self).pins()
                } else {
                    old(self).pins().insert(k, weight_boost(weight))
                }
            }),
    {
        let new_boost = weight_to_boost(weight);
        let cur = self.boost(code, word);
        let keep = match cur {
            Some(b) => b >= new_boost,
            None => false,
        };
        if !keep {
            self.set_entry(owned(code), owned(word), new_boost);
        }
    }

    /// Drop the pin for (`code`, `word`); no-op when absent.
    pub fn forget(&mut self, code: &str, word: &str)
        ensures
            final(self).pins() == old(self).pins().remove((code.spec_bytes(), word.spec_bytes())),
    {
        proof {
            use_type_invariant(&*self);
        }
        let ghost es = self.entries();
        let ghost k = (code.spec_bytes(), word.spec_bytes());
        let found = self.find(code.as_bytes(), word.as_bytes());
        proof {
            lemma_sorted_map(es);
        }
        match found {
            Ok(i) => {
                let mut v: Vec<(String, String, i16)> = Vec::new();
                std::mem::swap(&mut v, &mut self.entries);
                let _ = v.remove(i);
                proof {
                    let es2 = v@.map_values(|y: (String, String, i16)| entry_view(y));
                    assert(es2 =~= es.remove(i as int));
                    assert forall|a: int, b: int| 0 <= a < b < es2.len() implies key_lt((#[trigger] es2[a].0, es2[a].1), (#[trigger] es2[b].0, es2[b].1)) by {
                        let a0 = if a < i { a } else { a + 1 };
                        let b0 = if b < i { b } else { b + 1 };
                        assert(es2[a] == es[a0] && es2[b] == es[b0]);
                        assert(key_lt((es[a0].0, es[a0].1), (es[b0].0, es[b0].1)));
                    }
                    let m = entries_map(es).remove(k);
                    assert forall|j: int| 0 <= j < es2.len() implies #[trigger] m.contains_key((es2[j].0, es2[j].1))
                        && m[(es2[j].0, es2[j].1)] == es2[j].2 by {
                        let j0 = if j < i { j } else { j + 1 };
                        assert(es2[j] == es[j0]);
                        assert(entries_map(es).contains_key((es[j0].0, es[j0].1)));
                        if j0 < i {
                            assert(key_lt((es[j0].0, es[j0].1), (es[i as int].0, es[i as int].1)));
                        } else {
                            assert(key_lt((es[i as int].0, es[i as int].1), (es[j0].0, es[j0].1)));
                        }
                        lemma_key_lt_total(k, k);
                    }
                    assert forall|kk: (Seq<u8>, Seq<u8>)| #[trigger] m.contains_key(kk) implies exists|j: int|
                        0 <= j < es2.len() && (es2[j].0, es2[j].1) == kk by {
                        let j = choose|j: int| 0 <= j < es.len() && (es[j].0, es[j].1) == kk;
                        assert(j != i);
                        if j < i {
                            assert(es2[j] == es[j]);
                        } else {
                            assert(es2[j - 1] == es[j]);
                        }
                    }
                    lemma_sorted_map_ext(es2, m);
                }
                self.entries = v;
            },
            Err(i) => {
                proof {
                    if entries_map(es).contains_key(k) {
                        let j = choose|j: int| 0 <= j < es.len() && (es[j].0, es[j].1) == k;
                        if j < i {
                            assert(key_lt((es[j].0, es[j].1), k));
                        } else {
                            assert(key_lt(k, (es[j].0, es[j].1)));
                        }
                        lemma_key_lt_total(k, k);
                    }
                    assert(entries_map(es).remove(k) =~= entries_map(es));
                }
            },
        }
    }

    /// Drop all pins.
    pub fn reset(&mut self)
        ensures
            final(self).pins() == Map::<(Seq<u8>, Seq<u8>), i16>::empty(),
            final(self).entries().len() == 0,
    {
        self.entries = Vec::new();
        assert(self.entries() =~= Seq::<(Seq<u8>, Seq<u8>, i16)>::empty());
    }

    /// The pins in key order: (code asc, word asc).
    pub fn iter(&self) -> (r: Vec<(String, String, i16)>)
        ensures
            r@.map_values(|y: (String, String, i16)| entry_view(y)) == self.entries(),
            keys_sorted(self.entries()),
            entries_map(self.entries()) == self.pins(),
    {
        proof {
            use_type_invariant(self);
        }
        let mut out: Vec<(String, String, i16)> = Vec::new();
        let mut i: usize = 0;
        while i < self.entries.len()
            invariant
                i <= self.entries@.len(),
                out@.len() == i,
                out@.map_values(|y: (String, String, i16)| entry_view(y)) == self.entries().take(i as int),
            decreases self.entries@.len() - i,
        {
            let c = self.entries[i].0.clone();
            let w = self.entries[i].1.clone();
            out.push((c, w, self.entries[i].2));
            assert(entry_view(out@[i as int]) == self.entries()[i as int]);
            assert(out@.map_values(|y: (String, String, i16)| entry_view(y)) =~= self.entries().take(i + 1));
            i = i + 1;
        }
        assert(self.entries().take(i as int) =~= self.entries());
        out
    }

    /// Whether every code and word fits the format's one-byte lengths
    /// (and the count its u32).
    pub fn fits_format(&self) -> (r: bool)
        ensures
            r == entries_fit(self.entries()),
    {
        assert(self.entries().len() == self.entries@.len());
        if self.entries.len() > 0xffff_ffff {
            return false;
        }
        let mut i: usize = 0;
        while i < self.entries.len()
            invariant
                i <= self.entries@.len(),
                self.entries@.len() <= u32::MAX,
                forall|j: int| 0 <= j < i ==> (#[trigger] self.entries()[j]).0.len() <= 255 && self.entries()[j].1.len() <= 255,
            decreases self.entries@.len() - i,
        {
            assert(self.entries()[i as int] == entry_view(self.entries@[i as int]));
            if self.entries[i].0.as_str().as_bytes().len() > 255 || self.entries[i].1.as_str().as_bytes().len() > 255 {
                return false;
            }
            i = i + 1;
        }
        proof {
            assert forall|j: int| 0 <= j < self.entries().len() implies valid_utf8((#[trigger] self.entries()[j]).0)
                && valid_utf8(self.entries()[j].1) by {
                vstd::utf8::encode_utf8_valid_utf8(self.entries@[j].0@);
                vstd::utf8::encode_utf8_valid_utf8(self.entries@[j].1@);
            }
        }
        true
    }

    /// Serialize to L0v1 bytes, entries in key order.
    pub fn to_bytes(&self) -> (r: Vec<u8>)
        requires
            entries_fit(self.entries()),
        ensures
            r@ == l0_encode(self.entries()),
    {
        let ghost es = self.entries();
        let mut buf: Vec<u8> = Vec::new();
        buf.push(0x4c);
        buf.push(0x30);
        buf.push(0x76);
        buf.push(0x31);
        push_u32(&mut buf, 0);
        push_u32(&mut buf, self.entries.len() as u32);
        let ghost hdr = buf@;
        assert(hdr == MAGIC@ + le32(0) + le32(es.len() as u32));
        let mut i: usize = 0;
        proof {
            assert(es.take(0) =~= Seq::<(Seq<u8>, Seq<u8>, i16)>::empty());
        }
        while i < self.entries.len()
            invariant
                es == self.entries(),
                entries_fit(es),
                i <= es.len(),
                buf@ == hdr + entries_enc(es.take(i as int)),
            decreases es.len() - i,
        {
            let code = self.entries[i].0.as_str().as_bytes();
            let word = self.entries[i].1.as_str().as_bytes();
            let ghost before = buf@;
            buf.push(code.len() as u8);
            let mut j: usize = 0;
            while j < code.len()
                invariant
                    j <= code@.len(),
                    buf@ == before + seq![code@.len() as u8] + code@.take(j as int),
                decreases code@.len() - j,
            {
                buf.push(code[j]);
                assert(code@.take(j + 1) =~= code@.take(j as int).push(code@[j as int]));
                j = j + 1;
            }
            buf.push(word.len() as u8);
            let ghost mid = buf@;
            let mut j: usize = 0;
            while j < word.len()
                invariant
                    j <= word@.len(),
                    buf@ == mid + word@.take(j as int),
                decreases word@.len() - j,
            {
                buf.push(word[j]);
                assert(word@.take(j + 1) =~= word@.take(j as int).push(word@[j as int]));
                j = j + 1;
            }
            push_u16(&mut buf, self.entries[i].2 as u16);
            proof {
                let x = es[i as int];
                assert(code@.take(code@.len() as int) =~= code@);
                assert(word@.take(word@.len() as int) =~= word@);
                assert(buf@ =~= before + entry_enc(x));
                lemma_entries_enc_push(es.take(i as int), x);
                assert(es.take(i + 1) =~= es.take(i as int).push(x));
            }
            i = i + 1;
        }
        assert(es.take(i as int) =~= es);
        buf
    }

    /// Parse L0v1 bytes. Errors: `TooShort` under 12 bytes, `BadMagic`,
    /// `CorruptEntry` for an entry cut short or a code or word that is
    /// not UTF-8. A key listed twice keeps its last boost.
    pub fn from_bytes(buf: &[u8]) -> (r: Result<L0Store, OpenError>)
        ensures
            match l0_parse(buf@) {
                Ok(es) => r matches Ok(s) && s.pins() == entries_map(es),
                Err(e) => r == Err::<L0Store, OpenError>(e),
            },
    {
        if buf.len() < HEADER_SIZE {
            return Err(OpenError::TooShort);
        }
        if !(buf[0] == 0x4c && buf[1] == 0x30 && buf[2] == 0x76 && buf[3] == 0x31) {
            proof {
                assert(MAGIC@ == seq![0x4cu8, 0x30u8, 0x76u8, 0x31u8]);
                assert(buf@.subrange(0, 4) != MAGIC@) by {
                    if buf@.subrange(0, 4) == MAGIC@ {
                        assert(buf@.subrange(0, 4)[0] == buf@[0]);
                        assert(buf@.subrange(0, 4)[1] == buf@[1]);
                        assert(buf@.subrange(0, 4)[2] == buf@[2]);
                        assert(buf@.subrange(0, 4)[3] == buf@[3]);
                    }
                }
            }
            return Err(OpenError::BadMagic);
        }
        assert(buf@.subrange(0, 4) =~= MAGIC@);
        let count = read_u32(buf, 8);
        let mut store = L0Store::new();
        let mut p: usize = HEADER_SIZE;
        let mut left: u32 = count;
        let ghost mut parsed: Seq<(Seq<u8>, Seq<u8>, i16)> = Seq::empty();
        while left > 0
            invariant
                p <= buf@.len(),
                store.pins() == entries_map(parsed),
                l0_parse(buf@) == match parse_entries(buf@, p as int, left as nat) {
                    Ok(rest) => Ok(parsed + rest),
                    Err(e) => Err::<Seq<(Seq<u8>, Seq<u8>, i16)>, OpenError>(e),
                },
            decreases left,
        {
            if p >= buf.len() {
                return Err(OpenError::CorruptEntry);
            }
            let cl = buf[p] as usize;
            let cp = p + 1;
            if cl > buf.len() - cp {
                return Err(OpenError::CorruptEntry);
            }
            let cb = copy_range(buf, cp, cp + cl);
            let code = match utf8_str(cb.as_slice()) {
                Some(s) => owned(s),
                None => return Err(OpenError::CorruptEntry),
            };
            let wp = cp + cl;
            if wp >= buf.len() {
                return Err(OpenError::CorruptEntry);
            }
            let wl = buf[wp] as usize;
            let wq = wp + 1;
            if wl > buf.len() - wq {
                return Err(OpenError::CorruptEntry);
            }
            let wb = copy_range(buf, wq, wq + wl);
            let word = match utf8_str(wb.as_slice()) {
                Some(s) => owned(s),
                None => return Err(OpenError::CorruptEntry),
            };
            let bp = wq + wl;
            if buf.len() - bp < 2 {
                return Err(OpenError::CorruptEntry);
            }
            let boost = read_u16(buf, bp) as i16;
            let ghost x = (cb@, wb@, boost);
            proof {
                vstd::utf8::decode_utf8_encode_utf8(cb@);
                vstd::utf8::decode_utf8_encode_utf8(wb@);
                assert(sbytes(code) == cb@);
                assert(sbytes(word) == wb@);
                let rest = parse_entries(buf@, bp + 2, (left - 1) as nat);
                assert(parse_entries(buf@, p as int, left as nat) == match rest {
                    Ok(r) => Ok(seq![x] + r),
                    Err(e) => Err::<Seq<(Seq<u8>, Seq<u8>, i16)>, OpenError>(e),
                });
                match rest {
                    Ok(r) => {
                        assert(parsed + (seq![x] + r) =~= parsed.push(x) + r);
                    },
                    Err(_) => {},
                }
                lemma_entries_map_push(parsed, x);
            }
            store.set_entry(code, word, boost);
            proof {
                parsed = parsed.push(x);
            }
            p = bp + 2;
            left = left - 1;
        }
        assert(parsed + Seq::<(Seq<u8>, Seq<u8>, i16)>::empty() =~= parsed);
        Ok(store)
    }

    /// Parse L0v1 bytes, falling back to an empty store on any failure.
    pub fn open_or_empty_bytes(buf: &[u8]) -> (r: L0Store)
        ensures
            match l0_parse(buf@) {
                Ok(es) => r.pins() == entries_map(es),
                Err(_) => r.pins() == Map::<(Seq<u8>, Seq<u8>), i16>::empty(),
            },
    {
        match L0Store::from_bytes(buf) {
            Ok(s) => s,
            Err(_) => L0Store::new(),
        }
    }
}

} // verus!
