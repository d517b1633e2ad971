//! IDFv1 reader: validate the header region, then read entries out of
//! the entry table and the string pool.

use vstd::prelude::*;
use vstd::string::StringSliceAdditionalSpecFns;
use vstd::utf8::valid_utf8;

use crate::codec::{
    decode_match_type, engine_kind_of_byte, entry_of_bytes, has_idf_magic, header_decodes,
    match_kind_of_byte, version_of_byte, EngineKind, EntryFlags, EntryRecord, Header, MatchKind,
    Version, ENTRY_SIZE, FULL_HEADER_SIZE,
};
use crate::digest::{sha256_from, sha256_spec};
use crate::fsa::dict::copy_range;
use crate::fsa::reader::byte_or_zero;
use crate::le::u32_at;
use crate::rank::{above, first_k, lemma_top_k_step, ranked};
use crate::text::{bytes_eq, sbytes, seq_lt, seq_starts_with, starts_with, string_or_empty};

verus! {

/// Why bytes are not a usable IDFv1 dictionary.
#[derive(Debug, PartialEq, Eq)]
pub enum OpenError {
    TooShort,
    BadMagic,
    UnsupportedVersion(u8),
    UnknownEngineKind(u8),
    CorruptOffsets,
    Sha256Mismatch,
}

/// `a + c`, saturating at `u32::MAX`.
pub open spec fn sat_add(a: u32, c: u32) -> u32 {
    if a + c > u32::MAX {
        u32::MAX
    } else {
        (a + c) as u32
    }
}

/// `16 × a`, saturating at `u32::MAX`.
pub open spec fn sat_mul16(a: u32) -> u32 {
    if a * 16 > u32::MAX {
        u32::MAX
    } else {
        (a * 16) as u32
    }
}

/// The file length as the reader compares it: its low 32 bits.
pub open spec fn file_len32(b: Seq<u8>) -> u32 {
    (b.len() % 0x1_0000_0000) as u32
}

/// A section starting at `off` of `sz` bytes ends within the file.
pub open spec fn section_ok(off: u32, sz: u32, len: u32) -> bool {
    off <= len && sat_add(off, sz) <= len
}

/// The sections named by the header fit in the file.
pub open spec fn sections_ok(b: Seq<u8>) -> bool {
    let len = file_len32(b);
    &&& section_ok(u32_at(b, 12), u32_at(b, 16), len)
    &&& section_ok(u32_at(b, 20), sat_mul16(u32_at(b, 8)), len)
    &&& section_ok(u32_at(b, 24), u32_at(b, 28), len)
    &&& section_ok(u32_at(b, 32), u32_at(b, 36), len)
}

/// Why `b` is rejected before the digest is looked at, if it is.
pub open spec fn idf_shape_error(b: Seq<u8>) -> Option<OpenError> {
    if b.len() < 96 {
        Some(OpenError::TooShort)
    } else if !has_idf_magic(b) {
        Some(OpenError::BadMagic)
    } else if version_of_byte(b[4]) is None {
        Some(OpenError::UnsupportedVersion(b[4]))
    } else if engine_kind_of_byte(b[5]) is None {
        Some(OpenError::UnknownEngineKind(b[5]))
    } else if !sections_ok(b) {
        Some(OpenError::CorruptOffsets)
    } else {
        None
    }
}

/// Why `b` is rejected when the payload after byte 96 hashes to
/// `digest`, if it is.
pub open spec fn idf_error(b: Seq<u8>, digest: Seq<u8>) -> Option<OpenError> {
    match idf_shape_error(b) {
        Some(e) => Some(e),
        None => if digest != b.subrange(64, 96) {
            Some(OpenError::Sha256Mismatch)
        } else {
            None
        },
    }
}

/// The 16 record bytes of entry `i` (zero past the end of `b`).
pub open spec fn rec_bytes(b: Seq<u8>, h: Header, i: int) -> Seq<u8> {
    Seq::new(16, |j: int| byte_or_zero(b, h.entry_table_offset + i * 16 + j))
}

/// The string pool of `b`.
pub open spec fn pool_of(b: Seq<u8>, h: Header) -> Seq<u8> {
    let lo = h.string_pool_offset as int;
    let hi = h.string_pool_offset + h.string_pool_size;
    b.subrange(lo, if hi <= b.len() { hi } else { b.len() as int })
}

/// Index of the first zero byte of `p` from `i`, or `p.len()`.
pub open spec fn zero_end(p: Seq<u8>, i: int) -> int
    decreases p.len() - i,
{
    if i >= p.len() || i < 0 {
        p.len() as int
    } else if p[i] == 0 {
        i
    } else {
        zero_end(p, i + 1)
    }
}

/// The zero-terminated UTF-8 string at `off` of the pool; empty when
/// `off` is past the pool or the bytes are not UTF-8.
pub open spec fn pool_str(p: Seq<u8>, off: u32) -> Seq<u8> {
    if off >= p.len() {
        Seq::empty()
    } else {
        let s = p.subrange(off as int, zero_end(p, off as int));
        if valid_utf8(s) {
            s
        } else {
            Seq::empty()
        }
    }
}

/// An entry as plain values: word bytes, code bytes, log prior, match
/// kind, flags, raw corpus frequency.
pub type EntryView = (Seq<u8>, Seq<u8>, i16, MatchKind, u8, u32);

/// Entry `i` of the dictionary `b` with header `h`.
pub open spec fn idf_entry(b: Seq<u8>, h: Header, i: int) -> EntryView {
    let rec = entry_of_bytes(rec_bytes(b, h, i));
    let pool = pool_of(b, h);
    (
        pool_str(pool, rec.word_offset),
        pool_str(pool, rec.code_offset),
        rec.log_prior,
        match_kind_of_byte(rec.match_type),
        rec.flags,
        rec.raw_freq,
    )
}

/// All entries, in entry-table order.
pub open spec fn idf_entries(b: Seq<u8>, h: Header) -> Seq<EntryView> {
    Seq::new(h.entry_count as nat, |i: int| idf_entry(b, h, i))
}

/// A dictionary entry read from the file.
#[derive(Clone, Debug)]
pub struct Entry {
    pub word: String,
    pub code: String,
    pub log_prior: i16,
    pub match_type: MatchKind,
    pub flags: EntryFlags,
    pub raw_freq: u32,
}

/// An entry as plain values.
pub open spec fn entry_view(e: Entry) -> EntryView {
    (sbytes(e.word), sbytes(e.code), e.log_prior, e.match_type, e.flags.0, e.raw_freq)
}

/// Entries as plain values.
pub open spec fn entries_view(s: Seq<Entry>) -> Seq<EntryView> {
    s.map_values(|e: Entry| entry_view(e))
}

} // verus!

verus! {

/// Read-only IDFv1 dictionary over owned bytes.
pub struct IdfReader {
    bytes: Vec<u8>,
    header: Header,
}

/// `a + c` saturating at `u32::MAX`.
pub(crate) fn sat_add_exec(a: u32, c: u32) -> (r: u32)
    ensures
        r == sat_add(a, c),
{
    if a <= u32::MAX - c {
        a + c
    } else {
        u32::MAX
    }
}

/// Check the header region of `b`: the error it is rejected for, if any
/// (the digest aside).
fn shape_check(b: &[u8]) -> (r: Result<Header, OpenError>)
    ensures
        match idf_shape_error(b@) {
            Some(e) => r == Err::<Header, OpenError>(e),
            None => r matches Ok(h) && header_decodes(b@, h),
        },
{
    if b.len() < FULL_HEADER_SIZE {
        return Err(OpenError::TooShort);
    }
    let header = match Header::parse(b) {
        Some(h) => h,
        None => return Err(OpenError::BadMagic),
    };
    if Version::from_byte(header.format_version).is_none() {
        return Err(OpenError::UnsupportedVersion(header.format_version));
    }
    if EngineKind::from_byte(header.engine_kind).is_none() {
        return Err(OpenError::UnknownEngineKind(header.engine_kind));
    }
    let len: u32 = (b.len() as u64 % 0x1_0000_0000u64) as u32;
    let etab: u32 = if header.entry_count <= 0x0fff_ffff {
        header.entry_count * 16
    } else {
        u32::MAX
    };
    let offs: [u32; 4] = [
        header.string_pool_offset,
        header.entry_table_offset,
        header.fst_code_index_offset,
        header.fst_word_index_offset,
    ];
    let sizes: [u32; 4] = [header.string_pool_size, etab, header.fst_code_index_size, header.fst_word_index_size];
    let mut i: usize = 0;
    while i < 4
        invariant
            i <= 4,
            b@.len() >= 96,
            has_idf_magic(b@),
            version_of_byte(b@[4]) is Some,
            engine_kind_of_byte(b@[5]) is Some,
            len == file_len32(b@),
            offs@ == seq![u32_at(b@, 12), u32_at(b@, 20), u32_at(b@, 24), u32_at(b@, 32)],
            sizes@ == seq![u32_at(b@, 16), sat_mul16(u32_at(b@, 8)), u32_at(b@, 28), u32_at(b@, 36)],
            forall|j: int| 0 <= j < i ==> section_ok(#[trigger] offs@[j], sizes@[j], len),
        decreases 4 - i,
    {
        let off = offs[i];
        let sz = sizes[i];
        if off > len || sat_add_exec(off, sz) > len {
            proof {
                assert(!section_ok(offs@[i as int], sizes@[i as int], len));
                if i == 0 {
                    assert(!section_ok(u32_at(b@, 12), u32_at(b@, 16), len));
                } else if i == 1 {
                    assert(!section_ok(u32_at(b@, 20), sat_mul16(u32_at(b@, 8)), len));
                } else if i == 2 {
                    assert(!section_ok(u32_at(b@, 24), u32_at(b@, 28), len));
                } else {
                    assert(!section_ok(u32_at(b@, 32), u32_at(b@, 36), len));
                }
                assert(!sections_ok(b@));
            }
            return Err(OpenError::CorruptOffsets);
        }
        i = i + 1;
    }
    proof {
        assert(section_ok(offs@[0], sizes@[0], len));
        assert(section_ok(offs@[1], sizes@[1], len));
        assert(section_ok(offs@[2], sizes@[2], len));
        assert(section_ok(offs@[3], sizes@[3], len));
    }
    Ok(header)
}

impl IdfReader {
    #[verifier::type_invariant]
    spec fn inv(&self) -> bool {
        &&& idf_shape_error(self.bytes@) is None
        &&& header_decodes(self.bytes@, self.header)
    }

    /// The dictionary's bytes.
    pub closed spec fn bytes(&self) -> Seq<u8> {
        self.bytes@
    }

    /// The parsed header.
    pub closed spec fn header_spec(&self) -> Header {
        self.header
    }

    /// Build a reader over `bytes`, given the SHA-256 digest `digest` of
    /// the payload after byte 96. Errors, in the order checked:
    /// `TooShort` under 96 bytes, `BadMagic`, `UnsupportedVersion`,
    /// `UnknownEngineKind`, `CorruptOffsets` when a section named by the
    /// header ends past the file, `Sha256Mismatch` when `digest` is not
    /// the one stored in the header.
    pub fn from_bytes_with_digest(bytes: Vec<u8>, digest: &[u8; 32]) -> (r: Result<IdfReader, OpenError>)
        ensures
            match idf_error(bytes@, digest@) {
                Some(e) => r == Err::<IdfReader, OpenError>(e),
                None => r matches Ok(rd) && rd.bytes() == bytes@ && header_decodes(bytes@, rd.header_spec()),
            },
    {
        let header = match shape_check(bytes.as_slice()) {
            Ok(h) => h,
            Err(e) => return Err(e),
        };
        let mut i: usize = 0;
        while i < 32
            invariant
                header_decodes(bytes@, header),
                idf_shape_error(bytes@) is None,
                i <= 32,
                forall|j: int| 0 <= j < i ==> digest@[j] == header.sha256_of_payload@[j],
            decreases 32 - i,
        {
            if digest[i] != header.sha256_of_payload[i] {
                proof {
                    assert(digest@ != bytes@.subrange(64, 96)) by {
                        assert(bytes@.subrange(64, 96)[i as int] == header.sha256_of_payload@[i as int]);
                    }
                }
                return Err(OpenError::Sha256Mismatch);
            }
            i = i + 1;
        }
        assert(digest@ =~= bytes@.subrange(64, 96));
        Ok(IdfReader { bytes, header })
    }

    /// Build a reader over `bytes`, checking the header region and the
    /// SHA-256 of the payload after byte 96.
    pub fn from_bytes(bytes: Vec<u8>) -> (r: Result<IdfReader, OpenError>)
        ensures
            match idf_error(bytes@, if bytes@.len() >= 96 { sha256_spec(bytes@.skip(96)) } else { Seq::empty() }) {
                Some(e) => r == Err::<IdfReader, OpenError>(e),
                None => r matches Ok(rd) && rd.bytes() == bytes@ && header_decodes(bytes@, rd.header_spec()),
            },
    {
        if bytes.len() < FULL_HEADER_SIZE {
            return Err(OpenError::TooShort);
        }
        let digest = sha256_from(bytes.as_slice(), FULL_HEADER_SIZE);
        IdfReader::from_bytes_with_digest(bytes, &digest)
    }

    pub fn header(&self) -> (r: Header)
        ensures
            r == self.header_spec(),
    {
        self.header
    }

    pub fn version(&self) -> (r: Version)
        ensures
            version_of_byte(self.header_spec().format_version) == Some(r),
    {
        proof {
            use_type_invariant(self);
        }
        match Version::from_byte(self.header.format_version) {
            Some(v) => v,
            None => Version::V1,
        }
    }

    pub fn engine_kind(&self) -> (r: EngineKind)
        ensures
            engine_kind_of_byte(self.header_spec().engine_kind) == Some(r),
    {
        proof {
            use_type_invariant(self);
        }
        match EngineKind::from_byte(self.header.engine_kind) {
            Some(k) => k,
            None => EngineKind::Other,
        }
    }

    pub fn entry_count(&self) -> (r: u32)
        ensures
            r == self.header_spec().entry_count,
    {
        self.header.entry_count
    }

    pub fn sha256(&self) -> (r: [u8; 32])
        ensures
            r == self.header_spec().sha256_of_payload,
    {
        self.header.sha256_of_payload
    }
}

} // verus!

verus! {

/// The entries of `s` whose code is `c`, in order.
pub open spec fn with_code_eq(s: Seq<EntryView>, c: Seq<u8>) -> Seq<EntryView>
    decreases s.len(),
{
    if s.len() == 0 {
        Seq::empty()
    } else if s.last().1 == c {
        with_code_eq(s.drop_last(), c).push(s.last())
    } else {
        with_code_eq(s.drop_last(), c)
    }
}

/// The entries of `s` whose word is `w`, in order.
pub open spec fn with_word_eq(s: Seq<EntryView>, w: Seq<u8>) -> Seq<EntryView>
    decreases s.len(),
{
    if s.len() == 0 {
        Seq::empty()
    } else if s.last().0 == w {
        with_word_eq(s.drop_last(), w).push(s.last())
    } else {
        with_word_eq(s.drop_last(), w)
    }
}

/// The entries of `s` whose code starts with `p`, in order.
pub open spec fn with_code_prefix(s: Seq<EntryView>, p: Seq<u8>) -> Seq<EntryView>
    decreases s.len(),
{
    if s.len() == 0 {
        Seq::empty()
    } else if seq_starts_with(s.last().1, p) {
        with_code_prefix(s.drop_last(), p).push(s.last())
    } else {
        with_code_prefix(s.drop_last(), p)
    }
}

/// A copy of an entry.
fn copy_entry(e: &Entry) -> (r: Entry)
    ensures
        entry_view(r) == entry_view(*e),
{
    Entry { word: e.word.clone(), code: e.code.clone(), log_prior: e.log_prior, match_type: e.match_type, flags: EntryFlags(e.flags.0), raw_freq: e.raw_freq }
}

/// Read the zero-terminated string at `off` of the pool `b[lo..hi]`.
pub(crate) fn read_string(b: &[u8], lo: usize, hi: usize, off: u32) -> (r: String)
    requires
        lo <= hi <= b@.len(),
    ensures
        sbytes(r) == pool_str(b@.subrange(lo as int, hi as int), off),
{
    let ghost p = b@.subrange(lo as int, hi as int);
    if off as u64 >= (hi - lo) as u64 {
        let r = String::new();
        assert(sbytes(r) =~= Seq::<u8>::empty()) by {
            assert(r@ =~= Seq::<char>::empty());
        }
        return r;
    }
    let start = lo + off as usize;
    let mut j = start;
    proof {
        assert(zero_end(p, off as int) == zero_end(p, j - lo));
    }
    while j < hi && b[j] != 0
        invariant
            lo <= start <= j <= hi <= b@.len(),
            p == b@.subrange(lo as int, hi as int),
            zero_end(p, off as int) == zero_end(p, j - lo),
        decreases hi - j,
    {
        assert(p[j - lo] == b@[j as int]);
        j = j + 1;
    }
    proof {
        if j < hi {
            assert(p[j - lo] == b@[j as int]);
        }
        assert(zero_end(p, j - lo) == j - lo);
        assert(p.subrange(off as int, j - lo) =~= b@.subrange(start as int, j as int));
    }
    let bytes = copy_range(b, start, j);
    string_or_empty(bytes.as_slice())
}

impl IdfReader {
    /// Bounds of the string pool in the bytes.
    fn pool_bounds(&self) -> (r: (usize, usize))
        ensures
            r.0 <= r.1 <= self.bytes().len(),
            self.bytes().subrange(r.0 as int, r.1 as int) == pool_of(self.bytes(), self.header_spec()),
    {
        proof {
            use_type_invariant(self);
        }
        let lo = self.header.string_pool_offset as usize;
        let hi64: u64 = self.header.string_pool_offset as u64 + self.header.string_pool_size as u64;
        let hi: usize = if hi64 <= self.bytes.len() as u64 {
            hi64 as usize
        } else {
            self.bytes.len()
        };
        proof {
            assert(self.header.string_pool_offset <= file_len32(self.bytes@));
            assert(file_len32(self.bytes@) <= self.bytes@.len());
        }
        (lo, hi)
    }

    /// Entry `i`, read from its record and the pool.
    fn read_entry(&self, i: u32, lo: usize, hi: usize) -> (r: Entry)
        requires
            lo <= hi <= self.bytes().len(),
            self.bytes().subrange(lo as int, hi as int) == pool_of(self.bytes(), self.header_spec()),
        ensures
            entry_view(r) == idf_entry(self.bytes(), self.header_spec(), i as int),
    {
        let base: u64 = self.header.entry_table_offset as u64 + i as u64 * 16;
        let mut rec = [0u8; 16];
        let mut j: usize = 0;
        while j < 16
            invariant
                j <= 16,
                rec@.len() == 16,
                base == self.header.entry_table_offset + i * 16,
                forall|t: int| 0 <= t < j ==> rec@[t] == byte_or_zero(self.bytes@, base + t),
            decreases 16 - j,
        {
            let at: u64 = base + j as u64;
            rec[j] = if at < self.bytes.len() as u64 {
                self.bytes[at as usize]
            } else {
                0
            };
            j = j + 1;
        }
        assert(rec@ =~= rec_bytes(self.bytes@, self.header, i as int));
        let er = EntryRecord::parse(&rec);
        let word = read_string(self.bytes.as_slice(), lo, hi, er.word_offset);
        let code = read_string(self.bytes.as_slice(), lo, hi, er.code_offset);
        Entry { word, code, log_prior: er.log_prior, match_type: decode_match_type(er.match_type), flags: EntryFlags(er.flags), raw_freq: er.raw_freq }
    }

    /// All entries in entry-table order.
    pub fn entries(&self) -> (r: Vec<Entry>)
        ensures
            entries_view(r@) == idf_entries(self.bytes(), self.header_spec()),
    {
        let (lo, hi) = self.pool_bounds();
        let n = self.header.entry_count;
        let mut out: Vec<Entry> = Vec::new();
        let mut i: u32 = 0;
        while i < n
            invariant
                lo <= hi <= self.bytes().len(),
                self.bytes().subrange(lo as int, hi as int) == pool_of(self.bytes(), self.header_spec()),
                n == self.header_spec().entry_count,
                i <= n,
                out@.len() == i,
                entries_view(out@) == idf_entries(self.bytes(), self.header_spec()).take(i as int),
            decreases n - i,
        {
            let e = self.read_entry(i, lo, hi);
            out.push(e);
            assert(entry_view(out@[i as int]) == idf_entry(self.bytes(), self.header_spec(), i as int));
            assert(entries_view(out@) =~= idf_entries(self.bytes(), self.header_spec()).take(i + 1));
            i = i + 1;
        }
        assert(idf_entries(self.bytes(), self.header_spec()).take(i as int) =~= idf_entries(self.bytes(), self.header_spec()));
        out
    }

    /// Entry `index`; `None` past the last entry.
    pub fn entry_at(&self, index: u32) -> (r: Option<Entry>)
        ensures
            index < self.header_spec().entry_count ==> (r matches Some(e) && entry_view(e) == idf_entry(self.bytes(), self.header_spec(), index as int)),
            index >= self.header_spec().entry_count ==> r is None,
    {
        if index >= self.header.entry_count {
            return None;
        }
        let (lo, hi) = self.pool_bounds();
        Some(self.read_entry(index, lo, hi))
    }

    /// The entries whose code is exactly `code`, in entry-table order.
    pub fn lookup(&self, code: &[u8]) -> (r: Vec<Entry>)
        ensures
            entries_view(r@) == with_code_eq(idf_entries(self.bytes(), self.header_spec()), code@),
    {
        let all = self.entries();
        let ghost es = entries_view(all@);
        let mut out: Vec<Entry> = Vec::new();
        let mut i: usize = 0;
        while i < all.len()
            invariant
                es == entries_view(all@),
                i <= all@.len(),
                es.len() == all@.len(),
                entries_view(out@) == with_code_eq(es.take(i as int), code@),
            decreases all@.len() - i,
        {
            assert(es.take(i + 1).drop_last() =~= es.take(i as int));
            assert(es.take(i + 1).last() == entry_view(all@[i as int]));
            if bytes_eq(all[i].code.as_str().as_bytes(), code) {
                let ghost before = out@;
                out.push(copy_entry(&all[i]));
                assert(out@ == before.push(out@.last()));
                assert(entries_view(out@) =~= entries_view(before).push(entry_view(all@[i as int])));
                assert(entries_view(out@) =~= with_code_eq(es.take(i as int), code@).push(entry_view(all@[i as int])));
            }
            i = i + 1;
        }
        assert(es.take(i as int) =~= es);
        out
    }

    /// The entries whose word is exactly `word`, in entry-table order.
    pub fn find_by_word(&self, word: &str) -> (r: Vec<Entry>)
        ensures
            entries_view(r@) == with_word_eq(idf_entries(self.bytes(), self.header_spec()), word.spec_bytes()),
    {
        let all = self.entries();
        let ghost es = entries_view(all@);
        let mut out: Vec<Entry> = Vec::new();
        let mut i: usize = 0;
        while i < all.len()
            invariant
                es == entries_view(all@),
                i <= all@.len(),
                es.len() == all@.len(),
                entries_view(out@) == with_word_eq(es.take(i as int), word.spec_bytes()),
            decreases all@.len() - i,
        {
            assert(es.take(i + 1).drop_last() =~= es.take(i as int));
            assert(es.take(i + 1).last() == entry_view(all@[i as int]));
            if bytes_eq(all[i].word.as_str().as_bytes(), word.as_bytes()) {
                let ghost before = out@;
                out.push(copy_entry(&all[i]));
                assert(entries_view(out@) =~= entries_view(before).push(entry_view(all@[i as int])));
                assert(entries_view(out@) =~= with_word_eq(es.take(i as int), word.spec_bytes()).push(entry_view(all@[i as int])));
            }
            i = i + 1;
        }
        assert(es.take(i as int) =~= es);
        out
    }
}

} // verus!

verus! {

/// How `prefix_top_k` ranks entries: log prior first (higher first),
/// then code bytes (smaller first).
pub open spec fn entry_rank_key() -> spec_fn(EntryView) -> (i16, Seq<u8>) {
    |e: EntryView| (e.2, e.1)
}

/// Whether `a` ranks strictly above `c`.
fn ranks_above_exec(a: &Entry, c: &Entry) -> (r: bool)
    ensures
        r == above(entry_rank_key(), entry_view(*a), entry_view(*c)),
{
    if a.log_prior != c.log_prior {
        return a.log_prior > c.log_prior;
    }
    crate::text::compare_bytes(a.code.as_str().as_bytes(), c.code.as_str().as_bytes()) == -1
}

impl IdfReader {
    /// The top `k` entries whose code starts with `prefix`: log prior
    /// descending, then code ascending, equal ones in entry-table order.
    pub fn prefix_top_k(&self, prefix: &[u8], k: usize) -> (r: Vec<Entry>)
        ensures
            entries_view(r@) == first_k(
                ranked(with_code_prefix(idf_entries(self.bytes(), self.header_spec()), prefix@), entry_rank_key()),
                k as int,
            ),
    {
        let ghost key = entry_rank_key();
        if k == 0 {
            let r: Vec<Entry> = Vec::new();
            assert(entries_view(r@) =~= first_k(
                ranked(with_code_prefix(idf_entries(self.bytes(), self.header_spec()), prefix@), key),
                0,
            ));
            return r;
        }
        let all = self.entries();
        let ghost es = entries_view(all@);
        let mut best: Vec<Entry> = Vec::new();
        let mut i: usize = 0;
        while i < all.len()
            invariant
                k > 0,
                key == entry_rank_key(),
                es == entries_view(all@),
                es.len() == all@.len(),
                i <= all@.len(),
                entries_view(best@) == first_k(ranked(with_code_prefix(es.take(i as int), prefix@), key), k as int),
            decreases all@.len() - i,
        {
            assert(es.take(i + 1).drop_last() =~= es.take(i as int));
            assert(es.take(i + 1).last() == entry_view(all@[i as int]));
            if starts_with(all[i].code.as_str().as_bytes(), prefix) {
                let ghost f = with_code_prefix(es.take(i as int), prefix@);
                let ghost x = entry_view(all@[i as int]);
                let ghost bs = entries_view(best@);
                let mut pos = best.len();
                while pos > 0 && ranks_above_exec(&all[i], &best[pos - 1])
                    invariant
                        pos <= best@.len(),
                        key == entry_rank_key(),
                        bs == entries_view(best@),
                        x == entry_view(all@[i as int]),
                        i < all@.len(),
                        forall|j: int| pos <= j < bs.len() ==> above(key, x, #[trigger] bs[j]),
                    decreases pos,
                {
                    pos = pos - 1;
                }
                proof {
                    lemma_top_k_step(f, x, key, k as int, bs, pos as int);
                }
                let e = copy_entry(&all[i]);
                best.insert(pos, e);
                proof {
                    assert(entries_view(best@) =~= bs.take(pos as int).push(x) + bs.skip(pos as int));
                }
                if best.len() > k {
                    best.pop();
                }
                proof {
                    assert(entries_view(best@) =~= first_k(bs.take(pos as int).push(x) + bs.skip(pos as int), k as int));
                    assert(with_code_prefix(es.take(i + 1), prefix@) == f.push(x));
                }
            }
            i = i + 1;
        }
        assert(es.take(i as int) =~= es);
        best
    }
}

} // verus!
