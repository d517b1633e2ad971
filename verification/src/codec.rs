//! IDFv1 binary layout — header / entry / flag types and their
//! little-endian codecs. The file begins with a 64-byte header, then the
//! 32-byte sha256 of the payload; sections start at byte 96. Each entry
//! is exactly 16 bytes.

use vstd::prelude::*;

use crate::le::{
    le16, le32, lemma_le16_round_trip, lemma_le32_round_trip, lemma_u16_at_placed,
    lemma_u32_at_placed, push_u16, push_u32, read_u16, read_u24, read_u32, u16_at, u24_at, u32_at,
};

verus! {

/// Magic bytes at file offset 0: ASCII `"IDFv"`.
pub const MAGIC: [u8; 4] = [0x49, 0x44, 0x46, 0x76];

/// Fixed header size in bytes, before the sha256 area.
pub const HEADER_SIZE: usize = 64;

/// Fixed per-entry size in bytes.
pub const ENTRY_SIZE: usize = 16;

/// Reserved byte length for the sha256 of the payload, right after the
/// 64-byte header.
pub const SHA256_SIZE: usize = 32;

/// Total on-disk header region (header + sha256 area). Sections begin
/// here.
pub const FULL_HEADER_SIZE: usize = 96;

/// Format version. v1 readers reject other version bytes.
#[derive(Copy, Clone, Debug, PartialEq, Eq, Structural)]
pub enum Version {
    V1,
}

/// The version whose byte is `b`.
pub open spec fn version_of_byte(b: u8) -> Option<Version> {
    if b == 1 {
        Some(Version::V1)
    } else {
        None
    }
}

impl Version {
    /// Decode the on-disk byte; `None` for unsupported versions.
    pub fn from_byte(b: u8) -> (r: Option<Self>)
        ensures
            r == version_of_byte(b),
    {
        if b == 1 {
            Some(Version::V1)
        } else {
            None
        }
    }

    /// The on-disk byte of this version.
    pub fn as_byte(self) -> (r: u8)
        ensures
            version_of_byte(r) == Some(self),
    {
        1
    }
}

/// Which engine the dict serves. Stable byte across versions:
/// Pinyin 0, Wubi 1, NihongoJukugo 2, NihongoKanji 3, Other 4.
#[derive(Copy, Clone, Debug, PartialEq, Eq, Structural)]
pub enum EngineKind {
    Pinyin,
    Wubi,
    NihongoJukugo,
    NihongoKanji,
    Other,
}

/// The byte of an engine kind.
pub open spec fn engine_kind_byte(k: EngineKind) -> u8 {
    match k {
        EngineKind::Pinyin => 0,
        EngineKind::Wubi => 1,
        EngineKind::NihongoJukugo => 2,
        EngineKind::NihongoKanji => 3,
        EngineKind::Other => 4,
    }
}

/// The engine kind whose byte is `b`.
pub open spec fn engine_kind_of_byte(b: u8) -> Option<EngineKind> {
    if b == 0 {
        Some(EngineKind::Pinyin)
    } else if b == 1 {
        Some(EngineKind::Wubi)
    } else if b == 2 {
        Some(EngineKind::NihongoJukugo)
    } else if b == 3 {
        Some(EngineKind::NihongoKanji)
    } else if b == 4 {
        Some(EngineKind::Other)
    } else {
        None
    }
}

impl EngineKind {
    /// Decode a byte; `None` outside `0..=4`.
    pub fn from_byte(b: u8) -> (r: Option<Self>)
        ensures
            r == engine_kind_of_byte(b),
    {
        match b {
            0 => Some(EngineKind::Pinyin),
            1 => Some(EngineKind::Wubi),
            2 => Some(EngineKind::NihongoJukugo),
            3 => Some(EngineKind::NihongoKanji),
            4 => Some(EngineKind::Other),
            _ => None,
        }
    }

    /// The stable byte of this kind.
    pub fn as_byte(self) -> (r: u8)
        ensures
            r == engine_kind_byte(self),
    {
        match self {
            EngineKind::Pinyin => 0,
            EngineKind::Wubi => 1,
            EngineKind::NihongoJukugo => 2,
            EngineKind::NihongoKanji => 3,
            EngineKind::Other => 4,
        }
    }
}

/// Decoding the byte of an engine kind gives the kind back, and every
/// byte that decodes is the byte of what it decodes to.
pub proof fn lemma_engine_kind_round_trip(k: EngineKind, b: u8)
    ensures
        engine_kind_of_byte(engine_kind_byte(k)) == Some(k),
        engine_kind_of_byte(b) matches Some(k2) ==> engine_kind_byte(k2) == b,
{
}

/// Per-entry flag bits: bit 0 blacklist, bit 1 curated override, bit 2
/// user added; bits 5-7 an engine-specific 3-bit tag.
#[derive(Copy, Clone, Debug, PartialEq, Eq, Structural)]
pub struct EntryFlags(pub u8);

impl EntryFlags {
    pub const BLACKLIST: u8 = 1;
    pub const CURATED_OVERRIDE: u8 = 2;
    pub const USER_ADDED: u8 = 4;
    pub const ENGINE_TAG_MASK: u8 = 0b1110_0000;
    pub const ENGINE_TAG_SHIFT: u8 = 5;

    /// No flags set.
    pub fn default_flags() -> (r: Self)
        ensures
            r.0 == 0,
    {
        EntryFlags(0)
    }

    pub fn is_blacklisted(self) -> (r: bool)
        ensures
            r == (self.0 & 1 != 0),
    {
        self.0 & Self::BLACKLIST != 0
    }

    pub fn is_curated_override(self) -> (r: bool)
        ensures
            r == (self.0 & 2 != 0),
    {
        self.0 & Self::CURATED_OVERRIDE != 0
    }

    pub fn is_user_added(self) -> (r: bool)
        ensures
            r == (self.0 & 4 != 0),
    {
        self.0 & Self::USER_ADDED != 0
    }

    /// The 3-bit engine-specific tag (bits 5-7).
    pub fn engine_tag(self) -> (r: u8)
        ensures
            r == (self.0 >> 5u8),
            r < 8,
    {
        let s = self.0;
        let r = (s & Self::ENGINE_TAG_MASK) >> Self::ENGINE_TAG_SHIFT;
        assert((s & 0b1110_0000u8) >> 5u8 == s >> 5u8 && s >> 5u8 < 8) by (bit_vector);
        r
    }

    /// Set the 3-bit engine tag to the low three bits of `tag`, keeping
    /// bits 0-4.
    pub fn with_engine_tag(self, tag: u8) -> (r: Self)
        ensures
            r.0 & 0x1f == self.0 & 0x1f,
            r.0 >> 5u8 == tag & 7,
    {
        let cleared = self.0 & !Self::ENGINE_TAG_MASK;
        let r = EntryFlags(cleared | ((tag & 0b111) << Self::ENGINE_TAG_SHIFT));
        let s = self.0;
        assert(((s & !0b1110_0000u8) | ((tag & 0b111u8) << 5u8)) & 0x1f == s & 0x1f && ((s
            & !0b1110_0000u8) | ((tag & 0b111u8) << 5u8)) >> 5u8 == tag & 7) by (bit_vector);
        r
    }
}

impl Default for EntryFlags {
    fn default() -> (r: Self)
        ensures
            r.0 == 0,
    {
        EntryFlags(0)
    }
}

/// Header, mirroring the on-disk layout. All integers are
/// little-endian on disk; the struct holds host values.
#[derive(Copy, Clone, Debug, PartialEq, Eq)]
pub struct Header {
    pub magic: [u8; 4],
    pub format_version: u8,
    pub engine_kind: u8,
    pub flags: u16,
    pub entry_count: u32,
    pub string_pool_offset: u32,
    pub string_pool_size: u32,
    pub entry_table_offset: u32,
    pub fst_code_index_offset: u32,
    pub fst_code_index_size: u32,
    pub fst_word_index_offset: u32,
    pub fst_word_index_size: u32,
    pub bigram_offset: u32,
    pub bigram_size: u32,
    pub embedding_offset: u32,
    pub embedding_dim: u16,
    pub embedding_dtype: u8,
    pub reserved: u8,
    pub sha256_of_payload: [u8; 32],
}

/// The 64 header bytes of `h`: the fields in order, then eight zero
/// bytes. The sha256 is not part of them; it follows at offset 64.
pub open spec fn header_image(h: Header) -> Seq<u8> {
    h.magic@ + seq![h.format_version, h.engine_kind] + le16(h.flags) + le32(h.entry_count) + le32(
        h.string_pool_offset,
    ) + le32(h.string_pool_size) + le32(h.entry_table_offset) + le32(h.fst_code_index_offset)
        + le32(h.fst_code_index_size) + le32(h.fst_word_index_offset) + le32(
        h.fst_word_index_size,
    ) + le32(h.bigram_offset) + le32(h.bigram_size) + le32(h.embedding_offset) + le16(
        h.embedding_dim,
    ) + seq![h.embedding_dtype, h.reserved] + seq![0u8, 0u8, 0u8, 0u8, 0u8, 0u8, 0u8, 0u8]
}

/// Whether `b` starts with the IDF magic.
pub open spec fn has_idf_magic(b: Seq<u8>) -> bool {
    b.len() >= 4 && b[0] == 0x49 && b[1] == 0x44 && b[2] == 0x46 && b[3] == 0x76
}

/// `h` is the header that the 96-byte region at the start of `b` decodes
/// to.
pub open spec fn header_decodes(b: Seq<u8>, h: Header) -> bool {
    &&& h.magic@ == MAGIC@
    &&& h.format_version == b[4]
    &&& h.engine_kind == b[5]
    &&& h.flags == u16_at(b, 6)
    &&& h.entry_count == u32_at(b, 8)
    &&& h.string_pool_offset == u32_at(b, 12)
    &&& h.string_pool_size == u32_at(b, 16)
    &&& h.entry_table_offset == u32_at(b, 20)
    &&& h.fst_code_index_offset == u32_at(b, 24)
    &&& h.fst_code_index_size == u32_at(b, 28)
    &&& h.fst_word_index_offset == u32_at(b, 32)
    &&& h.fst_word_index_size == u32_at(b, 36)
    &&& h.bigram_offset == u32_at(b, 40)
    &&& h.bigram_size == u32_at(b, 44)
    &&& h.embedding_offset == u32_at(b, 48)
    &&& h.embedding_dim == u16_at(b, 52)
    &&& h.embedding_dtype == b[54]
    &&& h.reserved == b[55]
    &&& h.sha256_of_payload@ == b.subrange(64, 96)
}

/// Copy the first 64 bytes of `v` into an array.
pub(crate) fn to_array64(v: &Vec<u8>) -> (r: [u8; 64])
    requires
        v@.len() == 64,
    ensures
        r@ == v@,
{
    let mut buf = [0u8; 64];
    let mut i: usize = 0;
    while i < 64
        invariant
            v@.len() == 64,
            buf@.len() == 64,
            forall|j: int| 0 <= j < i ==> buf@[j] == v@[j],
        decreases 64 - i,
    {
        buf[i] = v[i];
        i = i + 1;
    }
    assert(buf@ =~= v@);
    buf
}

impl Header {
    /// Encode the header into its fixed 64-byte form (little-endian).
    pub fn to_bytes(&self) -> (r: [u8; 64])
        ensures
            r@ == header_image(*self),
    {
        let mut v: Vec<u8> = Vec::new();
        v.push(self.magic[0]);
        v.push(self.magic[1]);
        v.push(self.magic[2]);
        v.push(self.magic[3]);
        assert(v@ =~= self.magic@);
        v.push(self.format_version);
        v.push(self.engine_kind);
        push_u16(&mut v, self.flags);
        push_u32(&mut v, self.entry_count);
        push_u32(&mut v, self.string_pool_offset);
        push_u32(&mut v, self.string_pool_size);
        push_u32(&mut v, self.entry_table_offset);
        push_u32(&mut v, self.fst_code_index_offset);
        push_u32(&mut v, self.fst_code_index_size);
        push_u32(&mut v, self.fst_word_index_offset);
        push_u32(&mut v, self.fst_word_index_size);
        push_u32(&mut v, self.bigram_offset);
        push_u32(&mut v, self.bigram_size);
        push_u32(&mut v, self.embedding_offset);
        push_u16(&mut v, self.embedding_dim);
        v.push(self.embedding_dtype);
        v.push(self.reserved);
        let mut k: usize = 0;
        while k < 8
            invariant
                k <= 8,
                v@ == header_image(*self).subrange(0, 56 + k),
            decreases 8 - k,
        {
            v.push(0);
            assert(v@ =~= header_image(*self).subrange(0, 56 + k + 1));
            k = k + 1;
        }
        assert(v@ =~= header_image(*self));
        to_array64(&v)
    }

    /// Decode a header from the start of `buf`. `None` if `buf` is
    /// shorter than the 96-byte header region or does not start with the
    /// magic.
    pub fn parse(buf: &[u8]) -> (r: Option<Header>)
        ensures
            r is Some <==> (buf@.len() >= 96 && has_idf_magic(buf@)),
            r matches Some(h) ==> header_decodes(buf@, h),
    {
        if buf.len() < FULL_HEADER_SIZE {
            return None;
        }
        if !(buf[0] == 0x49 && buf[1] == 0x44 && buf[2] == 0x46 && buf[3] == 0x76) {
            return None;
        }
        let mut sha = [0u8; 32];
        let mut i: usize = 0;
        while i < 32
            invariant
                buf@.len() >= 96,
                sha@.len() == 32,
                forall|j: int| 0 <= j < i ==> sha@[j] == buf@[64 + j],
            decreases 32 - i,
        {
            sha[i] = buf[64 + i];
            i = i + 1;
        }
        assert(sha@ =~= buf@.subrange(64, 96));
        let h = Header {
            magic: MAGIC,
            format_version: buf[4],
            engine_kind: buf[5],
            flags: read_u16(buf, 6),
            entry_count: read_u32(buf, 8),
            string_pool_offset: read_u32(buf, 12),
            string_pool_size: read_u32(buf, 16),
            entry_table_offset: read_u32(buf, 20),
            fst_code_index_offset: read_u32(buf, 24),
            fst_code_index_size: read_u32(buf, 28),
            fst_word_index_offset: read_u32(buf, 32),
            fst_word_index_size: read_u32(buf, 36),
            bigram_offset: read_u32(buf, 40),
            bigram_size: read_u32(buf, 44),
            embedding_offset: read_u32(buf, 48),
            embedding_dim: read_u16(buf, 52),
            embedding_dtype: buf[54],
            reserved: buf[55],
            sha256_of_payload: sha,
        };
        Some(h)
    }
}

/// Header round trip: the 64 header bytes followed by the sha256 decode
/// to the same header, for any header carrying the IDF magic.
pub proof fn lemma_header_round_trip(h: Header, h2: Header)
    requires
        h.magic@ == MAGIC@,
        header_decodes(header_image(h) + h.sha256_of_payload@, h2),
    ensures
        h2 == h,
{
    let b = header_image(h) + h.sha256_of_payload@;
    assert(b.len() == 96);
    assert(b.subrange(6, 8) =~= le16(h.flags));
    lemma_u16_at_placed(b, 6, h.flags);
    assert(b.subrange(8, 12) =~= le32(h.entry_count));
    lemma_u32_at_placed(b, 8, h.entry_count);
    assert(b.subrange(12, 16) =~= le32(h.string_pool_offset));
    lemma_u32_at_placed(b, 12, h.string_pool_offset);
    assert(b.subrange(16, 20) =~= le32(h.string_pool_size));
    lemma_u32_at_placed(b, 16, h.string_pool_size);
    assert(b.subrange(20, 24) =~= le32(h.entry_table_offset));
    lemma_u32_at_placed(b, 20, h.entry_table_offset);
    assert(b.subrange(24, 28) =~= le32(h.fst_code_index_offset));
    lemma_u32_at_placed(b, 24, h.fst_code_index_offset);
    assert(b.subrange(28, 32) =~= le32(h.fst_code_index_size));
    lemma_u32_at_placed(b, 28, h.fst_code_index_size);
    assert(b.subrange(32, 36) =~= le32(h.fst_word_index_offset));
    lemma_u32_at_placed(b, 32, h.fst_word_index_offset);
    assert(b.subrange(36, 40) =~= le32(h.fst_word_index_size));
    lemma_u32_at_placed(b, 36, h.fst_word_index_size);
    assert(b.subrange(40, 44) =~= le32(h.bigram_offset));
    lemma_u32_at_placed(b, 40, h.bigram_offset);
    assert(b.subrange(44, 48) =~= le32(h.bigram_size));
    lemma_u32_at_placed(b, 44, h.bigram_size);
    assert(b.subrange(48, 52) =~= le32(h.embedding_offset));
    lemma_u32_at_placed(b, 48, h.embedding_offset);
    assert(b.subrange(52, 54) =~= le16(h.embedding_dim));
    lemma_u16_at_placed(b, 52, h.embedding_dim);
    assert(b.subrange(64, 96) =~= h.sha256_of_payload@);
    assert(h2.magic@ =~= h.magic@);
    assert(h2.sha256_of_payload@ =~= h.sha256_of_payload@);
    assert(h2.magic == h.magic);
    assert(h2.sha256_of_payload == h.sha256_of_payload);
}

/// Per-entry record (16 bytes packed): `u24 word_offset · u24
/// code_offset · i16 log_prior · u8 match_type · u8 flags · u32
/// raw_freq · 2 reserved bytes`. The embedding offset lives in a side
/// table in v1 and is always 0 when decoded.
#[derive(Copy, Clone, Debug, PartialEq, Eq, Structural)]
pub struct EntryRecord {
    pub word_offset: u32,
    pub code_offset: u32,
    pub log_prior: i16,
    pub match_type: u8,
    pub flags: u8,
    pub raw_freq: u32,
    pub embedding_offset: u32,
}

/// The 16 bytes of an entry.
pub open spec fn entry_image(e: EntryRecord) -> Seq<u8> {
    le32(e.word_offset).subrange(0, 3) + le32(e.code_offset).subrange(0, 3) + le16(
        e.log_prior as u16,
    ) + seq![e.match_type, e.flags] + le32(e.raw_freq) + seq![0u8, 0u8]
}

/// The entry that 16 bytes decode to.
pub open spec fn entry_of_bytes(b: Seq<u8>) -> EntryRecord {
    EntryRecord {
        word_offset: u24_at(b, 0),
        code_offset: u24_at(b, 3),
        log_prior: u16_at(b, 6) as i16,
        match_type: b[8],
        flags: b[9],
        raw_freq: u32_at(b, 10),
        embedding_offset: 0,
    }
}

/// Copy of 16 bytes into an array.
fn to_array16(v: &Vec<u8>) -> (r: [u8; 16])
    requires
        v@.len() == 16,
    ensures
        r@ == v@,
{
    let mut buf = [0u8; 16];
    let mut i: usize = 0;
    while i < 16
        invariant
            v@.len() == 16,
            buf@.len() == 16,
            forall|j: int| 0 <= j < i ==> buf@[j] == v@[j],
        decreases 16 - i,
    {
        buf[i] = v[i];
        i = i + 1;
    }
    assert(buf@ =~= v@);
    buf
}

impl EntryRecord {
    /// Encode to the 16-byte on-disk form. The offsets keep their low 24
    /// bits; the two trailing bytes are zero.
    pub fn to_bytes(&self) -> (r: [u8; 16])
        ensures
            r@ == entry_image(*self),
    {
        let mut v: Vec<u8> = Vec::new();
        let mut w: Vec<u8> = Vec::new();
        push_u32(&mut w, self.word_offset);
        v.push(w[0]);
        v.push(w[1]);
        v.push(w[2]);
        let mut c: Vec<u8> = Vec::new();
        push_u32(&mut c, self.code_offset);
        v.push(c[0]);
        v.push(c[1]);
        v.push(c[2]);
        assert(v@ =~= le32(self.word_offset).subrange(0, 3) + le32(self.code_offset).subrange(
            0,
            3,
        ));
        push_u16(&mut v, self.log_prior as u16);
        v.push(self.match_type);
        v.push(self.flags);
        push_u32(&mut v, self.raw_freq);
        v.push(0);
        v.push(0);
        assert(v@ =~= entry_image(*self));
        to_array16(&v)
    }

    /// Decode from the 16-byte on-disk form.
    pub fn parse(buf: &[u8; 16]) -> (r: EntryRecord)
        ensures
            r == entry_of_bytes(buf@),
    {
        let b = buf.as_slice();
        EntryRecord {
            word_offset: read_u24(b, 0),
            code_offset: read_u24(b, 3),
            log_prior: read_u16(b, 6) as i16,
            match_type: b[8],
            flags: b[9],
            raw_freq: read_u32(b, 10),
            embedding_offset: 0,
        }
    }
}

/// Entry round trip: decoding the 16 bytes of an entry gives it back,
/// when its offsets fit in 24 bits and its embedding offset is 0.
pub proof fn lemma_entry_round_trip(e: EntryRecord)
    requires
        e.word_offset < 0x100_0000,
        e.code_offset < 0x100_0000,
        e.embedding_offset == 0,
    ensures
        entry_of_bytes(entry_image(e)) == e,
{
    let b = entry_image(e);
    lemma_le32_round_trip(e.word_offset);
    lemma_le32_round_trip(e.code_offset);
    lemma_le32_round_trip(e.raw_freq);
    lemma_le16_round_trip(e.log_prior as u16);
    assert(b.subrange(6, 8) =~= le16(e.log_prior as u16));
    lemma_u16_at_placed(b, 6, e.log_prior as u16);
    assert(b.subrange(10, 14) =~= le32(e.raw_freq));
    lemma_u32_at_placed(b, 10, e.raw_freq);
    assert(u24_at(b, 0) == u24_at(le32(e.word_offset), 0));
    assert(u24_at(b, 3) == u24_at(le32(e.code_offset), 0));
    let lp = e.log_prior;
    assert((lp as u16) as i16 == lp) by (bit_vector);
}

} // verus!

verus! {

/// The kind of match a dictionary entry was stored for (the payload that
/// runtime scoring attaches is not part of the file).
#[derive(Copy, Clone, Debug, PartialEq, Eq, Structural)]
pub enum MatchKind {
    Exact,
    Prefix,
    Fuzzy,
    Composed,
    Initials,
}

/// The on-disk byte of a match kind.
pub open spec fn match_kind_byte(m: MatchKind) -> u8 {
    match m {
        MatchKind::Exact => 0,
        MatchKind::Prefix => 1,
        MatchKind::Fuzzy => 2,
        MatchKind::Composed => 3,
        MatchKind::Initials => 4,
    }
}

/// The match kind a byte decodes to; unknown bytes read as `Exact`.
pub open spec fn match_kind_of_byte(b: u8) -> MatchKind {
    if b == 1 {
        MatchKind::Prefix
    } else if b == 2 {
        MatchKind::Fuzzy
    } else if b == 3 {
        MatchKind::Composed
    } else if b == 4 {
        MatchKind::Initials
    } else {
        MatchKind::Exact
    }
}

/// Encode a match kind as its on-disk byte.
pub fn encode_match_type(m: MatchKind) -> (r: u8)
    ensures
        r == match_kind_byte(m),
        match_kind_of_byte(r) == m,
{
    match m {
        MatchKind::Exact => 0,
        MatchKind::Prefix => 1,
        MatchKind::Fuzzy => 2,
        MatchKind::Composed => 3,
        MatchKind::Initials => 4,
    }
}

/// Decode an on-disk match byte; unknown bytes decode as `Exact`.
pub fn decode_match_type(b: u8) -> (r: MatchKind)
    ensures
        r == match_kind_of_byte(b),
{
    if b == 1 {
        MatchKind::Prefix
    } else if b == 2 {
        MatchKind::Fuzzy
    } else if b == 3 {
        MatchKind::Composed
    } else if b == 4 {
        MatchKind::Initials
    } else {
        MatchKind::Exact
    }
}

} // verus!
