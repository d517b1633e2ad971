//! NGMv1: an n-gram log-probability table. The file is a 64-byte header,
//! the 32-byte SHA-256 of the payload, then the string pool (zero
//! terminated strings, padded to 8), the triplet table (8 bytes per
//! entry: u24 ctx offset, u24 next offset, i16 log prob), and an
//! automaton mapping each context to its run of triplets.

use vstd::prelude::*;
use vstd::string::{StringExecFns, StringSliceAdditionalSpecFns};
use vstd::utf8::encode_utf8;

use crate::le::{
    le16, le32, lemma_le16_round_trip, lemma_le32_round_trip, lemma_u16_at_placed,
    lemma_u32_at_placed, push_u16, push_u32, read_u16, read_u24, read_u32, u16_at, u24_at, u32_at,
};
use crate::digest::{sha256_from, sha256_spec};
use crate::fsa::dict::copy_range;
use crate::fsa::reader::{bytes_get, parse_layout, Fsa};
use crate::idf::{file_len32, pool_str, read_string, sat_add_exec, section_ok, zero_end};
use crate::rank::{above, first_k, lemma_top_k_step, ranked};
use crate::text::{compare_bytes, lemma_encode_concat, sbytes};

verus! {

/// Magic bytes at file offset 0: ASCII `"NGMv"`.
pub const MAGIC: [u8; 4] = [0x4E, 0x47, 0x4D, 0x76];

/// Fixed header size, before the sha256 trailer.
pub const HEADER_SIZE: usize = 64;

/// Length of the sha256 trailer.
pub const SHA256_SIZE: usize = 32;

/// Header plus sha256 trailer; sections begin here.
pub const FULL_HEADER_SIZE: usize = 96;

/// Bytes per triplet.
pub const TRIPLET_SIZE: usize = 8;

/// Q4 fixed-point scale of log probabilities.
pub const Q4: i32 = 16;

/// Format version.
#[derive(Copy, Clone, Debug, PartialEq, Eq, Structural)]
pub enum Version {
    V1,
}

/// The version whose byte is `b`.
pub open spec fn ngm_version_of_byte(b: u8) -> Option<Version> {
    if b == 1 {
        Some(Version::V1)
    } else {
        None
    }
}

impl Version {
    pub fn from_byte(b: u8) -> (r: Option<Self>)
        ensures
            r == ngm_version_of_byte(b),
    {
        if b == 1 {
            Some(Version::V1)
        } else {
            None
        }
    }
}

/// Why bytes are not a usable NGMv1 table.
#[derive(Debug, PartialEq, Eq)]
pub enum OpenError {
    TooShort,
    BadMagic,
    UnsupportedVersion(u8),
    UnsupportedMaxN(u8),
    CorruptOffsets,
    Sha256Mismatch,
}

/// Header, mirroring the on-disk layout (integers little-endian).
#[derive(Copy, Clone, Debug, PartialEq, Eq)]
pub struct Header {
    pub magic: [u8; 4],
    pub format_version: u8,
    pub max_n: u8,
    pub reserved_a: [u8; 2],
    pub entry_count: u32,
    pub string_pool_offset: u32,
    pub string_pool_size: u32,
    pub triplet_table_offset: u32,
    pub triplet_table_size: u32,
    pub fst_ctx_index_offset: u32,
    pub fst_ctx_index_size: u32,
    pub reserved_b: [u8; 24],
    pub sha256_of_payload: [u8; 32],
}

/// The 64 header bytes of `h`; the sha256 follows at offset 64.
pub open spec fn header_image(h: Header) -> Seq<u8> {
    h.magic@ + seq![h.format_version, h.max_n] + h.reserved_a@ + le32(h.entry_count) + le32(
        h.string_pool_offset,
    ) + le32(h.string_pool_size) + le32(h.triplet_table_offset) + le32(h.triplet_table_size)
        + le32(h.fst_ctx_index_offset) + le32(h.fst_ctx_index_size) + h.reserved_b@ + seq![
        0u8,
        0u8,
        0u8,
        0u8,
    ]
}

/// Whether `b` starts with the NGM magic.
pub open spec fn has_ngm_magic(b: Seq<u8>) -> bool {
    b.len() >= 4 && b[0] == 0x4E && b[1] == 0x47 && b[2] == 0x4D && b[3] == 0x76
}

/// `h` is the header that the 96-byte region at the start of `b` decodes
/// to.
pub open spec fn header_decodes(b: Seq<u8>, h: Header) -> bool {
    &&& h.magic@ == MAGIC@
    &&& h.format_version == b[4]
    &&& h.max_n == b[5]
    &&& h.reserved_a@ == b.subrange(6, 8)
    &&& h.entry_count == u32_at(b, 8)
    &&& h.string_pool_offset == u32_at(b, 12)
    &&& h.string_pool_size == u32_at(b, 16)
    &&& h.triplet_table_offset == u32_at(b, 20)
    &&& h.triplet_table_size == u32_at(b, 24)
    &&& h.fst_ctx_index_offset == u32_at(b, 28)
    &&& h.fst_ctx_index_size == u32_at(b, 32)
    &&& h.reserved_b@ == b.subrange(36, 60)
    &&& h.sha256_of_payload@ == b.subrange(64, 96)
}

impl Header {
    /// Encode into the fixed 64-byte form.
    pub fn to_bytes(&self) -> (r: [u8; 64])
        ensures
            r@ == header_image(*self),
    {
        let mut v: Vec<u8> = Vec::new();
        v.push(self.magic[0]);
        v.push(self.magic[1]);
        v.push(self.magic[2]);
        v.push(self.magic[3]);
        assert(v@ =~= self.magic@);
        v.push(self.format_version);
        v.push(self.max_n);
        v.push(self.reserved_a[0]);
        v.push(self.reserved_a[1]);
        assert(v@ =~= self.magic@ + seq![self.format_version, self.max_n] + self.reserved_a@);
        push_u32(&mut v, self.entry_count);
        push_u32(&mut v, self.string_pool_offset);
        push_u32(&mut v, self.string_pool_size);
        push_u32(&mut v, self.triplet_table_offset);
        push_u32(&mut v, self.triplet_table_size);
        push_u32(&mut v, self.fst_ctx_index_offset);
        push_u32(&mut v, self.fst_ctx_index_size);
        let ghost before = v@;
        let mut k: usize = 0;
        while k < 24
            invariant
                k <= 24,
                v@ == before + self.reserved_b@.subrange(0, k as int),
            decreases 24 - k,
        {
            v.push(self.reserved_b[k]);
            assert(v@ =~= before + self.reserved_b@.subrange(0, k + 1));
            k = k + 1;
        }
        assert(self.reserved_b@.subrange(0, 24) =~= self.reserved_b@);
        v.push(0);
        v.push(0);
        v.push(0);
        v.push(0);
        assert(v@ =~= header_image(*self));
        crate::codec::to_array64(&v)
    }

    /// Decode a header from the start of `buf`: `None` when `buf` is
    /// shorter than the 96-byte header region or lacks the magic.
    pub fn parse(buf: &[u8]) -> (r: Option<Header>)
        ensures
            r is Some <==> (buf@.len() >= 96 && has_ngm_magic(buf@)),
            r matches Some(h) ==> header_decodes(buf@, h),
    {
        if buf.len() < FULL_HEADER_SIZE {
            return None;
        }
        if !(buf[0] == 0x4E && buf[1] == 0x47 && buf[2] == 0x4D && buf[3] == 0x76) {
            return None;
        }
        let mut sha = [0u8; 32];
        let mut i: usize = 0;
        while i < 32
            invariant
                buf@.len() >= 96,
                sha@.len() == 32,
                forall|j: int| 0 <= j < i ==> sha@[j] == buf@[64 + j],
            decreases 32 - i,
        {
            sha[i] = buf[64 + i];
            i = i + 1;
        }
        assert(sha@ =~= buf@.subrange(64, 96));
        let mut rb = [0u8; 24];
        let mut i: usize = 0;
        while i < 24
            invariant
                buf@.len() >= 96,
                rb@.len() == 24,
                forall|j: int| 0 <= j < i ==> rb@[j] == buf@[36 + j],
            decreases 24 - i,
        {
            rb[i] = buf[36 + i];
            i = i + 1;
        }
        assert(rb@ =~= buf@.subrange(36, 60));
        let ra = [buf[6], buf[7]];
        assert(ra@ =~= buf@.subrange(6, 8));
        let h = Header {
            magic: MAGIC,
            format_version: buf[4],
            max_n: buf[5],
            reserved_a: ra,
            entry_count: read_u32(buf, 8),
            string_pool_offset: read_u32(buf, 12),
            string_pool_size: read_u32(buf, 16),
            triplet_table_offset: read_u32(buf, 20),
            triplet_table_size: read_u32(buf, 24),
            fst_ctx_index_offset: read_u32(buf, 28),
            fst_ctx_index_size: read_u32(buf, 32),
            reserved_b: rb,
            sha256_of_payload: sha,
        };
        Some(h)
    }
}

/// Header round trip: the 64 header bytes followed by the sha256 decode
/// to the same header, for any header carrying the NGM magic.
pub proof fn lemma_header_round_trip(h: Header, h2: Header)
    requires
        h.magic@ == MAGIC@,
        header_decodes(header_image(h) + h.sha256_of_payload@, h2),
    ensures
        h2 == h,
{
    let b = header_image(h) + h.sha256_of_payload@;
    assert(b.len() == 96);
    assert(b.subrange(8, 12) =~= le32(h.entry_count));
    lemma_u32_at_placed(b, 8, h.entry_count);
    assert(b.subrange(12, 16) =~= le32(h.string_pool_offset));
    lemma_u32_at_placed(b, 12, h.string_pool_offset);
    assert(b.subrange(16, 20) =~= le32(h.string_pool_size));
    lemma_u32_at_placed(b, 16, h.string_pool_size);
    assert(b.subrange(20, 24) =~= le32(h.triplet_table_offset));
    lemma_u32_at_placed(b, 20, h.triplet_table_offset);
    assert(b.subrange(24, 28) =~= le32(h.triplet_table_size));
    lemma_u32_at_placed(b, 24, h.triplet_table_size);
    assert(b.subrange(28, 32) =~= le32(h.fst_ctx_index_offset));
    lemma_u32_at_placed(b, 28, h.fst_ctx_index_offset);
    assert(b.subrange(32, 36) =~= le32(h.fst_ctx_index_size));
    lemma_u32_at_placed(b, 32, h.fst_ctx_index_size);
    assert(b.subrange(64, 96) =~= h.sha256_of_payload@);
    assert(b.subrange(6, 8) =~= h.reserved_a@);
    assert(b.subrange(36, 60) =~= h.reserved_b@);
    assert(h2.magic@ =~= h.magic@);
    assert(h2.reserved_a@ =~= h.reserved_a@);
    assert(h2.reserved_b@ =~= h.reserved_b@);
    assert(h2.sha256_of_payload@ =~= h.sha256_of_payload@);
    assert(h2.magic == h.magic);
    assert(h2.reserved_a == h.reserved_a);
    assert(h2.reserved_b == h.reserved_b);
    assert(h2.sha256_of_payload == h.sha256_of_payload);
}

/// One table row: pool offsets of the context and the next word (24
/// bits on disk) and the Q4 log probability.
#[derive(Copy, Clone, Debug, PartialEq, Eq, Structural)]
pub struct Triplet {
    pub ctx_offset: u32,
    pub next_offset: u32,
    pub log_prob: i16,
}

/// The 8 bytes of a triplet.
pub open spec fn triplet_image(t: Triplet) -> Seq<u8> {
    le32(t.ctx_offset).subrange(0, 3) + le32(t.next_offset).subrange(0, 3) + le16(t.log_prob as u16)
}

/// The triplet that 8 bytes (from `at`) decode to.
pub open spec fn triplet_at_bytes(b: Seq<u8>, at: int) -> Triplet {
    Triplet {
        ctx_offset: u24_at(b, at),
        next_offset: u24_at(b, at + 3),
        log_prob: u16_at(b, at + 6) as i16,
    }
}

fn to_array8(v: &Vec<u8>) -> (r: [u8; 8])
    requires
        v@.len() == 8,
    ensures
        r@ == v@,
{
    let r = [v[0], v[1], v[2], v[3], v[4], v[5], v[6], v[7]];
    assert(r@ =~= v@);
    r
}

impl Triplet {
    /// Encode to 8 bytes; the offsets keep their low 24 bits.
    pub fn to_bytes(self) -> (r: [u8; 8])
        ensures
            r@ == triplet_image(self),
    {
        let mut v: Vec<u8> = Vec::new();
        let mut w: Vec<u8> = Vec::new();
        push_u32(&mut w, self.ctx_offset);
        v.push(w[0]);
        v.push(w[1]);
        v.push(w[2]);
        let mut c: Vec<u8> = Vec::new();
        push_u32(&mut c, self.next_offset);
        v.push(c[0]);
        v.push(c[1]);
        v.push(c[2]);
        assert(v@ =~= le32(self.ctx_offset).subrange(0, 3) + le32(self.next_offset).subrange(0, 3));
        push_u16(&mut v, self.log_prob as u16);
        assert(v@ =~= triplet_image(self));
        to_array8(&v)
    }

    /// Decode from 8 bytes.
    pub fn parse(buf: &[u8; 8]) -> (r: Triplet)
        ensures
            r == triplet_at_bytes(buf@, 0),
    {
        let b = buf.as_slice();
        Triplet { ctx_offset: read_u24(b, 0), next_offset: read_u24(b, 3), log_prob: read_u16(b, 6) as i16 }
    }
}

/// Triplet round trip, for offsets that fit in 24 bits.
pub proof fn lemma_triplet_round_trip(t: Triplet)
    requires
        t.ctx_offset < 0x100_0000,
        t.next_offset < 0x100_0000,
    ensures
        triplet_at_bytes(triplet_image(t), 0) == t,
{
    let b = triplet_image(t);
    lemma_le32_round_trip(t.ctx_offset);
    lemma_le32_round_trip(t.next_offset);
    assert(b.subrange(6, 8) =~= le16(t.log_prob as u16));
    lemma_u16_at_placed(b, 6, t.log_prob as u16);
    assert(u24_at(b, 0) == u24_at(le32(t.ctx_offset), 0));
    assert(u24_at(b, 3) == u24_at(le32(t.next_offset), 0));
    let lp = t.log_prob;
    assert((lp as u16) as i16 == lp) by (bit_vector);
}

/// A context joined into one pool string: the words separated by the
/// unit separator byte 0x1F.
pub open spec fn ctx_blob(ws: Seq<Seq<u8>>) -> Seq<u8>
    decreases ws.len(),
{
    if ws.len() == 0 {
        Seq::empty()
    } else if ws.len() == 1 {
        ws[0]
    } else {
        ctx_blob(ws.drop_last()) + seq![0x1Fu8] + ws.last()
    }
}

/// The words of a context as bytes.
pub open spec fn ctx_words(ctx: Seq<&str>) -> Seq<Seq<u8>> {
    ctx.map_values(|w: &str| w.spec_bytes())
}

/// Join the context words with the unit separator (U+001F).
pub fn encode_ctx(ctx: &[&str]) -> (r: String)
    ensures
        sbytes(r) == ctx_blob(ctx_words(ctx@)),
{
    let sep = "\u{1F}";
    proof {
        reveal_strlit("\u{1F}");
        assert(sep@.len() == 1);
        assert(sep@[0] as u32 == 0x1F);
        let x: u32 = 0x1F;
        assert((x & 0x7F) == 0x1F) by (bit_vector)
            requires x == 0x1F;
        assert(sep@.drop_first() =~= Seq::<char>::empty());
        assert(encode_utf8(sep@.drop_first()) =~= Seq::<u8>::empty());
        assert(encode_utf8(sep@) =~= seq![0x1Fu8]);
    }
    let mut s = String::new();
    proof {
        assert(encode_utf8(s@) =~= Seq::<u8>::empty()) by {
            assert(s@ =~= Seq::<char>::empty());
        }
    }
    let mut i: usize = 0;
    while i < ctx.len()
        invariant
            i <= ctx@.len(),
            encode_utf8(sep@) == seq![0x1Fu8],
            sbytes(s) == ctx_blob(ctx_words(ctx@.take(i as int))),
        decreases ctx@.len() - i,
    {
        let ghost before = s@;
        let ghost ws = ctx_words(ctx@.take(i + 1));
        assert(ws.drop_last() =~= ctx_words(ctx@.take(i as int)));
        assert(ws.last() == ctx@[i as int].spec_bytes());
        if i > 0 {
            s.append(sep);
            s.append(ctx[i]);
            proof {
                lemma_encode_concat(before, sep@);
                lemma_encode_concat(before + sep@, ctx@[i as int]@);
                assert(s@ == before + sep@ + ctx@[i as int]@);
            }
        } else {
            s.append(ctx[i]);
            proof {
                lemma_encode_concat(before, ctx@[i as int]@);
                assert(ws.len() == 1);
                assert(encode_utf8(before) =~= Seq::<u8>::empty()) by {
                    assert(ctx_words(ctx@.take(0)) =~= Seq::<Seq<u8>>::empty());
                }
                assert(encode_utf8(s@) =~= ws[0]);
            }
        }
        i = i + 1;
    }
    assert(ctx@.take(i as int) =~= ctx@);
    s
}

} // verus!

verus! {

/// The three sections named by the header fit in the file.
pub open spec fn ngm_sections_ok(b: Seq<u8>) -> bool {
    let len = file_len32(b);
    &&& section_ok(u32_at(b, 12), u32_at(b, 16), len)
    &&& section_ok(u32_at(b, 20), u32_at(b, 24), len)
    &&& section_ok(u32_at(b, 28), u32_at(b, 32), len)
}

/// Why `b` is rejected before the digest is looked at, if it is.
pub open spec fn ngm_shape_error(b: Seq<u8>) -> Option<OpenError> {
    if b.len() < 96 {
        Some(OpenError::TooShort)
    } else if !has_ngm_magic(b) {
        Some(OpenError::BadMagic)
    } else if ngm_version_of_byte(b[4]) is None {
        Some(OpenError::UnsupportedVersion(b[4]))
    } else if b[5] < 2 || b[5] > 4 {
        Some(OpenError::UnsupportedMaxN(b[5]))
    } else if !ngm_sections_ok(b) {
        Some(OpenError::CorruptOffsets)
    } else {
        None
    }
}

/// Why `b` is rejected when its payload after byte 96 hashes to
/// `digest`, if it is.
pub open spec fn ngm_error(b: Seq<u8>, digest: Seq<u8>) -> Option<OpenError> {
    match ngm_shape_error(b) {
        Some(e) => Some(e),
        None => if digest != b.subrange(64, 96) {
            Some(OpenError::Sha256Mismatch)
        } else {
            None
        },
    }
}

/// `b[lo .. lo + sz]`, cut at the end of `b`.
pub open spec fn section(b: Seq<u8>, lo: u32, sz: u32) -> Seq<u8> {
    let hi = lo + sz;
    b.subrange(lo as int, if hi <= b.len() { hi } else { b.len() as int })
}

/// The string pool.
pub open spec fn ngm_pool(b: Seq<u8>, h: Header) -> Seq<u8> {
    section(b, h.string_pool_offset, h.string_pool_size)
}

/// The context index automaton's bytes.
pub open spec fn fst_section(b: Seq<u8>, h: Header) -> Seq<u8> {
    section(b, h.fst_ctx_index_offset, h.fst_ctx_index_size)
}

/// Whether the table carries a usable context automaton.
pub open spec fn has_fst(b: Seq<u8>, h: Header) -> bool {
    h.fst_ctx_index_size > 0 && parse_layout(fst_section(b, h)) is Ok
}

/// How many whole triplets lie between the triplet table's start and
/// the end of the file.
pub open spec fn fit(b: Seq<u8>, h: Header) -> int {
    (b.len() - h.triplet_table_offset) / 8
}

/// Triplet `i` (for `i < fit`).
pub open spec fn ngm_triplet(b: Seq<u8>, h: Header, i: int) -> Triplet {
    triplet_at_bytes(b, h.triplet_table_offset + 8 * i)
}

/// The bytes of the zero-terminated string at `off` of the pool (empty
/// past the pool).
pub open spec fn pool_bytes(p: Seq<u8>, off: u32) -> Seq<u8> {
    if off >= p.len() {
        Seq::empty()
    } else {
        p.subrange(off as int, zero_end(p, off as int))
    }
}

/// The rows scanned for contexts: the first `entry_count` triplets,
/// as far as they lie in the file.
pub open spec fn rows(b: Seq<u8>, h: Header) -> int {
    if h.entry_count <= fit(b, h) {
        h.entry_count as int
    } else {
        fit(b, h)
    }
}

/// The run of rows starting at `start` has context bytes `t` (and they
/// are not empty).
pub open spec fn run_matches(b: Seq<u8>, h: Header, t: Seq<u8>, start: int) -> bool {
    let c = pool_bytes(ngm_pool(b, h), ngm_triplet(b, h, start).ctx_offset);
    c.len() > 0 && c == t
}

/// Scanning the rows from `i`, the current run of equal context offsets
/// having started at `start`: the first run whose context bytes are `t`,
/// as (first row, row count).
pub open spec fn run_scan(b: Seq<u8>, h: Header, t: Seq<u8>, i: int, start: int) -> Option<(u32, u32)>
    decreases rows(b, h) - i,
{
    if i >= rows(b, h) {
        if start < rows(b, h) && run_matches(b, h, t, start) {
            Some((start as u32, (rows(b, h) - start) as u32))
        } else {
            None
        }
    } else if ngm_triplet(b, h, i).ctx_offset != ngm_triplet(b, h, start).ctx_offset {
        if run_matches(b, h, t, start) {
            Some((start as u32, (i - start) as u32))
        } else {
            run_scan(b, h, t, i + 1, i)
        }
    } else {
        run_scan(b, h, t, i + 1, start)
    }
}

/// The rows of context `t`, as (first row, row count): from the
/// automaton when the table has one, else from the first run of rows
/// whose context bytes are `t`.
pub open spec fn ctx_range(b: Seq<u8>, h: Header, t: Seq<u8>) -> Option<(u32, u32)> {
    if has_fst(b, h) {
        match bytes_get(fst_section(b, h), t) {
            Some(v) => Some(((v % 0x1_0000_0000) as u32, (v / 0x1_0000_0000) as u32)),
            None => None,
        }
    } else {
        run_scan(b, h, t, 0, 0)
    }
}

/// End of the scanned rows `[f, f + c)`, cut to the rows in the file.
pub open spec fn range_end(b: Seq<u8>, h: Header, f: u32, c: u32) -> int {
    if f + c <= fit(b, h) {
        f + c
    } else {
        fit(b, h)
    }
}

/// The log prob of the first row in `[i, end)` whose next word has bytes
/// `next`.
pub open spec fn next_scan(b: Seq<u8>, h: Header, next: Seq<u8>, i: int, end: int) -> Option<i16>
    decreases end - i,
{
    if i >= end {
        None
    } else if pool_bytes(ngm_pool(b, h), ngm_triplet(b, h, i).next_offset) == next {
        Some(ngm_triplet(b, h, i).log_prob)
    } else {
        next_scan(b, h, next, i + 1, end)
    }
}

/// `log_prob(next | ctx)` as read from the table `b`.
pub open spec fn ngm_log_prob(b: Seq<u8>, h: Header, ctx: Seq<u8>, next: Seq<u8>) -> Option<i16> {
    match ctx_range(b, h, ctx) {
        None => None,
        Some((f, c)) => next_scan(b, h, next, f as int, range_end(b, h, f, c)),
    }
}

/// The (next word, log prob) of rows `[f, end)`; the word is empty when
/// its bytes are not UTF-8.
pub open spec fn range_items(b: Seq<u8>, h: Header, f: int, end: int) -> Seq<(Seq<u8>, i16)> {
    Seq::new(
        if end > f { (end - f) as nat } else { 0 },
        |j: int| (pool_str(ngm_pool(b, h), ngm_triplet(b, h, f + j).next_offset), ngm_triplet(b, h, f + j).log_prob),
    )
}

/// The continuations of context `ctx`, in row order.
pub open spec fn ctx_items(b: Seq<u8>, h: Header, ctx: Seq<u8>) -> Seq<(Seq<u8>, i16)> {
    match ctx_range(b, h, ctx) {
        None => Seq::empty(),
        Some((f, c)) => range_items(b, h, f as int, range_end(b, h, f, c)),
    }
}

/// How `top_k` ranks continuations: log prob first (higher first), then
/// the word's bytes (smaller first).
pub open spec fn next_rank_key() -> spec_fn((Seq<u8>, i16)) -> (i16, Seq<u8>) {
    |p: (Seq<u8>, i16)| (p.1, p.0)
}

/// Continuations as plain values.
pub open spec fn items_view(s: Seq<(String, i16)>) -> Seq<(Seq<u8>, i16)> {
    s.map_values(|p: (String, i16)| (sbytes(p.0), p.1))
}

/// The n-gram table over owned bytes.
pub struct NgramTable {
    bytes: Vec<u8>,
    header: Header,
    fst: Option<Fsa>,
}

impl NgramTable {
    #[verifier::type_invariant]
    spec fn inv(&self) -> bool {
        &&& ngm_shape_error(self.bytes@) is None
        &&& header_decodes(self.bytes@, self.header)
        &&& match self.fst {
            Some(f) => has_fst(self.bytes@, self.header) && f.bytes() == fst_section(self.bytes@, self.header),
            None => !has_fst(self.bytes@, self.header),
        }
    }

    /// The table's bytes.
    pub closed spec fn bytes(&self) -> Seq<u8> {
        self.bytes@
    }

    /// The parsed header.
    pub closed spec fn header_spec(&self) -> Header {
        self.header
    }
}

/// Check the header region of `b` (the digest aside).
fn ngm_shape_check(b: &[u8]) -> (r: Result<Header, OpenError>)
    ensures
        match ngm_shape_error(b@) {
            Some(e) => r == Err::<Header, OpenError>(e),
            None => r matches Ok(h) && header_decodes(b@, h),
        },
{
    if b.len() < FULL_HEADER_SIZE {
        return Err(OpenError::TooShort);
    }
    let header = match Header::parse(b) {
        Some(h) => h,
        None => return Err(OpenError::BadMagic),
    };
    if Version::from_byte(header.format_version).is_none() {
        return Err(OpenError::UnsupportedVersion(header.format_version));
    }
    if header.max_n < 2 || header.max_n > 4 {
        return Err(OpenError::UnsupportedMaxN(header.max_n));
    }
    let len: u32 = (b.len() as u64 % 0x1_0000_0000u64) as u32;
    let offs: [u32; 3] = [header.string_pool_offset, header.triplet_table_offset, header.fst_ctx_index_offset];
    let sizes: [u32; 3] = [header.string_pool_size, header.triplet_table_size, header.fst_ctx_index_size];
    let mut i: usize = 0;
    while i < 3
        invariant
            i <= 3,
            b@.len() >= 96,
            has_ngm_magic(b@),
            ngm_version_of_byte(b@[4]) is Some,
            2 <= b@[5] <= 4,
            len == file_len32(b@),
            offs@ == seq![u32_at(b@, 12), u32_at(b@, 20), u32_at(b@, 28)],
            sizes@ == seq![u32_at(b@, 16), u32_at(b@, 24), u32_at(b@, 32)],
            forall|j: int| 0 <= j < i ==> section_ok(#[trigger] offs@[j], sizes@[j], len),
        decreases 3 - i,
    {
        let off = offs[i];
        let sz = sizes[i];
        if off > len || sat_add_exec(off, sz) > len {
            proof {
                assert(!section_ok(offs@[i as int], sizes@[i as int], len));
                if i == 0 {
                    assert(!section_ok(u32_at(b@, 12), u32_at(b@, 16), len));
                } else if i == 1 {
                    assert(!section_ok(u32_at(b@, 20), u32_at(b@, 24), len));
                } else {
                    assert(!section_ok(u32_at(b@, 28), u32_at(b@, 32), len));
                }
                assert(!ngm_sections_ok(b@));
            }
            return Err(OpenError::CorruptOffsets);
        }
        i = i + 1;
    }
    proof {
        assert(section_ok(offs@[0], sizes@[0], len));
        assert(section_ok(offs@[1], sizes@[1], len));
        assert(section_ok(offs@[2], sizes@[2], len));
    }
    Ok(header)
}

/// Bounds of the section `[lo, lo + sz)` of `b`, cut at its end.
fn section_bounds(b: &[u8], lo: u32, sz: u32) -> (r: (usize, usize))
    requires
        lo <= b@.len(),
    ensures
        r.0 <= r.1 <= b@.len(),
        b@.subrange(r.0 as int, r.1 as int) == section(b@, lo, sz),
{
    let hi64: u64 = lo as u64 + sz as u64;
    let hi: usize = if hi64 <= b.len() as u64 {
        hi64 as usize
    } else {
        b.len()
    };
    (lo as usize, hi)
}

impl NgramTable {
    /// Build a table over `bytes`, given the SHA-256 `digest` of the
    /// payload after byte 96. Errors, in the order checked: `TooShort`
    /// under 96 bytes, `BadMagic`, `UnsupportedVersion`,
    /// `UnsupportedMaxN` outside 2..=4, `CorruptOffsets` when a section
    /// ends past the file, `Sha256Mismatch` when `digest` is not the one
    /// in the header.
    pub fn from_bytes_with_digest(bytes: Vec<u8>, digest: &[u8; 32]) -> (r: Result<NgramTable, OpenError>)
        ensures
            match ngm_error(bytes@, digest@) {
                Some(e) => r == Err::<NgramTable, OpenError>(e),
                None => r matches Ok(t) && t.bytes() == bytes@ && header_decodes(bytes@, t.header_spec()),
            },
    {
        let header = match ngm_shape_check(bytes.as_slice()) {
            Ok(h) => h,
            Err(e) => return Err(e),
        };
        let mut i: usize = 0;
        while i < 32
            invariant
                header_decodes(bytes@, header),
                ngm_shape_error(bytes@) is None,
                i <= 32,
                forall|j: int| 0 <= j < i ==> digest@[j] == header.sha256_of_payload@[j],
            decreases 32 - i,
        {
            if digest[i] != header.sha256_of_payload[i] {
                proof {
                    assert(digest@ != bytes@.subrange(64, 96)) by {
                        assert(bytes@.subrange(64, 96)[i as int] == header.sha256_of_payload@[i as int]);
                    }
                }
                return Err(OpenError::Sha256Mismatch);
            }
            i = i + 1;
        }
        assert(digest@ =~= bytes@.subrange(64, 96));
        let mut fst: Option<Fsa> = None;
        if header.fst_ctx_index_size > 0 {
            proof {
                assert(header.fst_ctx_index_offset <= file_len32(bytes@));
            }
            let (lo, hi) = section_bounds(bytes.as_slice(), header.fst_ctx_index_offset, header.fst_ctx_index_size);
            let data = copy_range(bytes.as_slice(), lo, hi);
            match Fsa::new(data) {
                Ok(f) => {
                    fst = Some(f);
                },
                Err(_) => {},
            }
        }
        Ok(NgramTable { bytes, header, fst })
    }

    /// Build a table over `bytes`, checking the header region and the
    /// SHA-256 of the payload after byte 96.
    pub fn from_bytes(bytes: Vec<u8>) -> (r: Result<NgramTable, OpenError>)
        ensures
            match ngm_error(bytes@, if bytes@.len() >= 96 { sha256_spec(bytes@.skip(96)) } else { Seq::empty() }) {
                Some(e) => r == Err::<NgramTable, OpenError>(e),
                None => r matches Ok(t) && t.bytes() == bytes@ && header_decodes(bytes@, t.header_spec()),
            },
    {
        if bytes.len() < FULL_HEADER_SIZE {
            return Err(OpenError::TooShort);
        }
        let digest = sha256_from(bytes.as_slice(), FULL_HEADER_SIZE);
        NgramTable::from_bytes_with_digest(bytes, &digest)
    }

    pub fn header(&self) -> (r: &Header)
        ensures
            *r == self.header_spec(),
    {
        &self.header
    }

    pub fn max_n(&self) -> (r: u8)
        ensures
            r == self.header_spec().max_n,
            2 <= r <= 4,
    {
        proof {
            use_type_invariant(self);
        }
        self.header.max_n
    }

    pub fn entry_count(&self) -> (r: u32)
        ensures
            r == self.header_spec().entry_count,
    {
        self.header.entry_count
    }

    pub fn sha256(&self) -> (r: [u8; 32])
        ensures
            r == self.header_spec().sha256_of_payload,
    {
        self.header.sha256_of_payload
    }
}

} // verus!

verus! {

impl NgramTable {
    /// Bounds of the string pool in the bytes.
    fn pool_bounds(&self) -> (r: (usize, usize))
        ensures
            r.0 <= r.1 <= self.bytes().len(),
            self.bytes().subrange(r.0 as int, r.1 as int) == ngm_pool(self.bytes(), self.header_spec()),
    {
        proof {
            use_type_invariant(self);
            assert(self.header.string_pool_offset <= file_len32(self.bytes@));
        }
        section_bounds(self.bytes.as_slice(), self.header.string_pool_offset, self.header.string_pool_size)
    }

    /// Whether the pool string at `off` has bytes `t`.
    fn pool_eq(&self, lo: usize, hi: usize, off: u32, t: &[u8]) -> (r: bool)
        requires
            lo <= hi <= self.bytes().len(),
            self.bytes().subrange(lo as int, hi as int) == ngm_pool(self.bytes(), self.header_spec()),
        ensures
            r == (pool_bytes(ngm_pool(self.bytes(), self.header_spec()), off) == t@),
    {
        let ghost p = ngm_pool(self.bytes(), self.header_spec());
        let b = self.bytes.as_slice();
        assert(p.len() == hi - lo);
        if off as u64 >= (hi - lo) as u64 {
            assert(t@.len() == 0 ==> t@ =~= Seq::<u8>::empty());
            return t.len() == 0;
        }
        let start = lo + off as usize;
        let mut j = start;
        proof {
            assert(zero_end(p, off as int) == zero_end(p, j - lo));
        }
        while j < hi && b[j] != 0
            invariant
                lo <= start <= j <= hi <= b@.len(),
                b@ == self.bytes(),
                p == b@.subrange(lo as int, hi as int),
                zero_end(p, off as int) == zero_end(p, j - lo),
            decreases hi - j,
        {
            assert(p[j - lo] == b@[j as int]);
            j = j + 1;
        }
        proof {
            if j < hi {
                assert(p[j - lo] == b@[j as int]);
            }
            assert(zero_end(p, j - lo) == j - lo);
        }
        let ghost s = p.subrange(off as int, j - lo);
        assert(s =~= b@.subrange(start as int, j as int));
        assert(s == pool_bytes(p, off));
        if j - start != t.len() {
            return false;
        }
        let mut k: usize = 0;
        while k < t.len()
            invariant
                start + t@.len() == j <= b@.len(),
                s == b@.subrange(start as int, j as int),
                s == pool_bytes(p, off),
                p == ngm_pool(self.bytes(), self.header_spec()),
                k <= t@.len(),
                forall|m: int| 0 <= m < k ==> s[m] == t@[m],
            decreases t@.len() - k,
        {
            if b[start + k] != t[k] {
                assert(s[k as int] != t@[k as int]);
                return false;
            }
            k = k + 1;
        }
        assert(s =~= t@);
        true
    }

    /// How many whole triplets fit from the triplet table to the end.
    fn fit_exec(&self) -> (r: u64)
        ensures
            r == fit(self.bytes(), self.header_spec()),
    {
        proof {
            use_type_invariant(self);
            assert(self.header.triplet_table_offset <= file_len32(self.bytes@));
        }
        (self.bytes.len() as u64 - self.header.triplet_table_offset as u64) / 8
    }

    /// Triplet `i`.
    fn triplet_read(&self, i: u64) -> (r: Triplet)
        requires
            i < fit(self.bytes(), self.header_spec()),
        ensures
            r == ngm_triplet(self.bytes(), self.header_spec(), i as int),
    {
        proof {
            use_type_invariant(self);
            assert(self.header.triplet_table_offset <= file_len32(self.bytes@));
        }
        let len = self.bytes.len();
        proof {
            let tto = self.header.triplet_table_offset;
            assert(tto + 8 * i + 8 <= len) by (nonlinear_arith)
                requires
                    i < (len - tto) / 8,
                    tto <= len;
        }
        let at64: u64 = self.header.triplet_table_offset as u64 + 8 * i;
        let at: usize = at64 as usize;
        let b = self.bytes.as_slice();
        Triplet { ctx_offset: read_u24(b, at), next_offset: read_u24(b, at + 3), log_prob: read_u16(b, at + 6) as i16 }
    }

    /// Whether the run starting at row `start` has context bytes `t`.
    fn run_matches_exec(&self, lo: usize, hi: usize, t: &[u8], start: u64) -> (r: bool)
        requires
            lo <= hi <= self.bytes().len(),
            self.bytes().subrange(lo as int, hi as int) == ngm_pool(self.bytes(), self.header_spec()),
            start < fit(self.bytes(), self.header_spec()),
        ensures
            r == run_matches(self.bytes(), self.header_spec(), t@, start as int),
    {
        let tr = self.triplet_read(start);
        t.len() > 0 && self.pool_eq(lo, hi, tr.ctx_offset, t)
    }

    /// The rows of context `t` (first row, count).
    fn find_ctx(&self, t: &[u8]) -> (r: Option<(u32, u32)>)
        ensures
            r == ctx_range(self.bytes(), self.header_spec(), t@),
    {
        proof {
            use_type_invariant(self);
        }
        match &self.fst {
            Some(f) => {
                match f.get(t) {
                    Some(v) => {
                        let first = (v & 0xFFFF_FFFFu64) as u32;
                        let count = (v >> 32u64) as u32;
                        assert(first == (v % 0x1_0000_0000) as u32 && count == (v / 0x1_0000_0000) as u32)
                            by (bit_vector)
                            requires
                                first == (v & 0xFFFF_FFFFu64) as u32,
                                count == (v >> 32u64) as u32;
                        Some((first, count))
                    },
                    None => None,
                }
            },
            None => {
                let (lo, hi) = self.pool_bounds();
                let f = self.fit_exec();
                let n: u64 = if (self.header.entry_count as u64) <= f {
                    self.header.entry_count as u64
                } else {
                    f
                };
                let ghost b = self.bytes();
                let ghost h = self.header_spec();
                let mut i: u64 = 0;
                let mut start: u64 = 0;
                while i < n
                    invariant
                        lo <= hi <= b.len(),
                        b == self.bytes(),
                        h == self.header_spec(),
                        b.subrange(lo as int, hi as int) == ngm_pool(b, h),
                        !has_fst(b, h),
                        n == rows(b, h),
                        n <= fit(b, h),
                        start <= i <= n,
                        start < n || n == 0,
                        run_scan(b, h, t@, 0, 0) == run_scan(b, h, t@, i as int, start as int),
                    decreases n - i,
                {
                    let ti = self.triplet_read(i);
                    let ts = self.triplet_read(start);
                    if ti.ctx_offset != ts.ctx_offset {
                        if self.run_matches_exec(lo, hi, t, start) {
                            return Some((start as u32, (i - start) as u32));
                        }
                        start = i;
                    }
                    i = i + 1;
                }
                if start < n && self.run_matches_exec(lo, hi, t, start) {
                    Some((start as u32, (n - start) as u32))
                } else {
                    None
                }
            },
        }
    }

    /// End of the rows `[f, f + c)` that lie in the file.
    fn range_end_exec(&self, f: u32, c: u32) -> (r: u64)
        ensures
            r == range_end(self.bytes(), self.header_spec(), f, c),
    {
        let fi = self.fit_exec();
        let e: u64 = f as u64 + c as u64;
        if e <= fi {
            e
        } else {
            fi
        }
    }

    /// `log_prob(next | ctx)`: the log prob of `next` among the rows of
    /// the context `ctx` (its words joined with U+001F), or `None` when
    /// the context or the pair is missing.
    pub fn log_prob(&self, ctx: &[&str], next: &str) -> (r: Option<i16>)
        ensures
            r == ngm_log_prob(self.bytes(), self.header_spec(), ctx_blob(ctx_words(ctx@)), next.spec_bytes()),
    {
        let blob = encode_ctx(ctx);
        let ghost cb = ctx_blob(ctx_words(ctx@));
        let range = self.find_ctx(blob.as_str().as_bytes());
        match range {
            None => None,
            Some((f, c)) => {
                let (lo, hi) = self.pool_bounds();
                let end = self.range_end_exec(f, c);
                let nb = next.as_bytes();
                let ghost b = self.bytes();
                let ghost h = self.header_spec();
                let mut i: u64 = f as u64;
                proof {
                    assert(range_end(b, h, f, c) <= fit(b, h));
                }
                while i < end
                    invariant
                        lo <= hi <= b.len(),
                        b == self.bytes(),
                        h == self.header_spec(),
                        b.subrange(lo as int, hi as int) == ngm_pool(b, h),
                        end <= fit(b, h),
                        end == range_end(b, h, f, c),
                        ctx_range(b, h, cb) == Some((f, c)),
                        cb == ctx_blob(ctx_words(ctx@)),
                        nb@ == next.spec_bytes(),
                        next_scan(b, h, nb@, f as int, end as int) == next_scan(b, h, nb@, i as int, end as int),
                    decreases end - i,
                {
                    let t = self.triplet_read(i);
                    if self.pool_eq(lo, hi, t.next_offset, nb) {
                        assert(next_scan(b, h, nb@, i as int, end as int) == Some(t.log_prob));
                        assert(ngm_log_prob(b, h, cb, nb@) == Some(t.log_prob));
                        return Some(t.log_prob);
                    }
                    i = i + 1;
                }
                None
            },
        }
    }
}

} // verus!

verus! {

/// Whether continuation `a` ranks strictly above `c`.
fn next_above(a: &(String, i16), c: &(String, i16)) -> (r: bool)
    ensures
        r == above(next_rank_key(), (sbytes(a.0), a.1), (sbytes(c.0), c.1)),
{
    if a.1 != c.1 {
        return a.1 > c.1;
    }
    compare_bytes(a.0.as_str().as_bytes(), c.0.as_str().as_bytes()) == -1
}

impl NgramTable {
    /// The continuations in the rows of `range`, in row order.
    fn range_items_exec(&self, range: Option<(u32, u32)>) -> (r: Vec<(String, i16)>)
        ensures
            items_view(r@) == match range {
                None => Seq::<(Seq<u8>, i16)>::empty(),
                Some((f, c)) => range_items(self.bytes(), self.header_spec(), f as int, range_end(self.bytes(), self.header_spec(), f, c)),
            },
    {
        let mut out: Vec<(String, i16)> = Vec::new();
        match range {
            None => {
                assert(items_view(out@) =~= Seq::<(Seq<u8>, i16)>::empty());
                out
            },
            Some((f, c)) => {
                let (lo, hi) = self.pool_bounds();
                let end = self.range_end_exec(f, c);
                let ghost b = self.bytes();
                let ghost h = self.header_spec();
                let ghost want = range_items(b, h, f as int, end as int);
                if end < f as u64 {
                    assert(items_view(out@) =~= want);
                    return out;
                }
                let mut i: u64 = f as u64;
                proof {
                    assert(items_view(out@) =~= want.take(0));
                }
                while i < end
                    invariant
                        lo <= hi <= b.len(),
                        b == self.bytes(),
                        h == self.header_spec(),
                        b.subrange(lo as int, hi as int) == ngm_pool(b, h),
                        end <= fit(b, h),
                        f <= i <= end,
                        want == range_items(b, h, f as int, end as int),
                        items_view(out@) == want.take(i - f),
                    decreases end - i,
                {
                    let t = self.triplet_read(i);
                    let s = read_string(self.bytes.as_slice(), lo, hi, t.next_offset);
                    let ghost before = out@;
                    out.push((s, t.log_prob));
                    assert(items_view(out@) =~= want.take(i + 1 - f)) by {
                        assert(items_view(out@) =~= items_view(before).push((sbytes(s), t.log_prob)));
                        assert(want[i - f] == (sbytes(s), t.log_prob));
                    }
                    i = i + 1;
                }
                assert(want.take(end - f) =~= want);
                out
            },
        }
    }

    /// The top `k` continuations of the context `ctx`: log prob
    /// descending, then next word ascending.
    pub fn top_k(&self, ctx: &[&str], k: usize) -> (r: Vec<(String, i16)>)
        ensures
            items_view(r@) == first_k(
                ranked(ctx_items(self.bytes(), self.header_spec(), ctx_blob(ctx_words(ctx@))), next_rank_key()),
                k as int,
            ),
    {
        let ghost key = next_rank_key();
        let ghost want = ctx_items(self.bytes(), self.header_spec(), ctx_blob(ctx_words(ctx@)));
        if k == 0 {
            let r: Vec<(String, i16)> = Vec::new();
            assert(items_view(r@) =~= first_k(ranked(want, key), 0));
            return r;
        }
        let blob = encode_ctx(ctx);
        let range = self.find_ctx(blob.as_str().as_bytes());
        let all = self.range_items_exec(range);
        let ghost es = items_view(all@);
        assert(es == want);
        let mut best: Vec<(String, i16)> = Vec::new();
        let mut i: usize = 0;
        while i < all.len()
            invariant
                k > 0,
                key == next_rank_key(),
                es == items_view(all@),
                es.len() == all@.len(),
                i <= all@.len(),
                items_view(best@) == first_k(ranked(es.take(i as int), key), k as int),
            decreases all@.len() - i,
        {
            let ghost f = es.take(i as int);
            let ghost x = es[i as int];
            let ghost bs = items_view(best@);
            assert(es.take(i + 1) =~= f.push(x));
            let mut pos = best.len();
            while pos > 0 && next_above(&all[i], &best[pos - 1])
                invariant
                    pos <= best@.len(),
                    key == next_rank_key(),
                    bs == items_view(best@),
                    x == es[i as int],
                    es == items_view(all@),
                    i < all@.len(),
                    forall|j: int| pos <= j < bs.len() ==> above(key, x, #[trigger] bs[j]),
                decreases pos,
            {
                pos = pos - 1;
            }
            proof {
                lemma_top_k_step(f, x, key, k as int, bs, pos as int);
            }
            let e = (all[i].0.clone(), all[i].1);
            best.insert(pos, e);
            proof {
                assert(items_view(best@) =~= bs.take(pos as int).push(x) + bs.skip(pos as int));
            }
            if best.len() > k {
                best.pop();
            }
            proof {
                assert(items_view(best@) =~= first_k(bs.take(pos as int).push(x) + bs.skip(pos as int), k as int));
            }
            i = i + 1;
        }
        assert(es.take(i as int) =~= es);
        best
    }
}

} // verus!
