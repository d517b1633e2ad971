use inputx::codec::{
    decode_match_type, encode_match_type, EngineKind, EntryFlags, EntryRecord, Header, MatchKind, Version,
    ENTRY_SIZE, FULL_HEADER_SIZE, HEADER_SIZE, MAGIC, SHA256_SIZE,
};

#[test]
fn header_size_constants_match_spec() {
    assert_eq!(HEADER_SIZE, 64);
    assert_eq!(SHA256_SIZE, 32);
    assert_eq!(FULL_HEADER_SIZE, 96);
    assert_eq!(ENTRY_SIZE, 16);
}

#[test]
fn header_round_trip_preserves_all_fields() {
    let h = Header {
        magic: MAGIC,
        format_version: 1,
        engine_kind: 2,
        flags: 0x0007,
        entry_count: 237_842,
        string_pool_offset: 96,
        string_pool_size: 2_097_152,
        entry_table_offset: 2_097_248,
        fst_code_index_offset: 5_900_000,
        fst_code_index_size: 1_048_576,
        fst_word_index_offset: 6_948_576,
        fst_word_index_size: 524_288,
        bigram_offset: 0,
        bigram_size: 0,
        embedding_offset: 0,
        embedding_dim: 0,
        embedding_dtype: 0,
        reserved: 0,
        sha256_of_payload: [0xab; 32],
    };
    let bytes = h.to_bytes();
    let mut full = [0u8; FULL_HEADER_SIZE];
    full[..HEADER_SIZE].copy_from_slice(&bytes);
    full[HEADER_SIZE..].copy_from_slice(&h.sha256_of_payload);
    let h2 = Header::parse(&full).expect("parse");
    assert_eq!(h2, h);
}

#[test]
fn codec_header_rejects_wrong_magic() {
    let mut buf = [0u8; FULL_HEADER_SIZE];
    buf[0..4].copy_from_slice(b"WHAT");
    assert!(Header::parse(&buf).is_none());
}

#[test]
fn header_rejects_short_buffer() {
    let buf = [0u8; HEADER_SIZE];
    assert!(Header::parse(&buf).is_none());
}

#[test]
fn version_byte_round_trip() {
    assert_eq!(Version::from_byte(1), Some(Version::V1));
    assert_eq!(Version::from_byte(2), None);
    assert_eq!(Version::from_byte(0), None);
}

#[test]
fn engine_kind_byte_round_trip() {
    for k in [
        EngineKind::Pinyin,
        EngineKind::Wubi,
        EngineKind::NihongoJukugo,
        EngineKind::NihongoKanji,
        EngineKind::Other,
    ] {
        assert_eq!(EngineKind::from_byte(k as u8), Some(k));
    }
    assert_eq!(EngineKind::from_byte(99), None);
}

#[test]
fn entry_round_trip_preserves_fields() {
    let e = EntryRecord {
        word_offset: 0x12_3456,
        code_offset: 0xab_cdef,
        log_prior: -42,
        match_type: 1,
        flags: EntryFlags::BLACKLIST | EntryFlags::USER_ADDED,
        raw_freq: 0xdead_beef,
        embedding_offset: 0,
    };
    let bytes = e.to_bytes();
    assert_eq!(bytes.len(), ENTRY_SIZE);
    let e2 = EntryRecord::parse(&bytes);
    assert_eq!(e2, e);
}

#[test]
fn entry_u24_offsets_truncate_at_24_bits() {
    let e = EntryRecord {
        word_offset: 0xFF_FFFF,
        code_offset: 0,
        log_prior: 0,
        match_type: 0,
        flags: 0,
        raw_freq: 0,
        embedding_offset: 0,
    };
    let bytes = e.to_bytes();
    let e2 = EntryRecord::parse(&bytes);
    assert_eq!(e2.word_offset, 0xFF_FFFF);
}

#[test]
fn entry_offsets_keep_low_24_bits() {
    let e = EntryRecord {
        word_offset: 0x0112_3456,
        code_offset: 0x00ab_cdef,
        log_prior: 7,
        match_type: 2,
        flags: 0,
        raw_freq: 9,
        embedding_offset: 0,
    };
    let e2 = EntryRecord::parse(&e.to_bytes());
    assert_eq!(e2.word_offset, 0x12_3456);
    assert_eq!(e2.code_offset, 0xab_cdef);
}

#[test]
fn match_type_round_trip() {
    for m in [MatchKind::Exact, MatchKind::Prefix, MatchKind::Fuzzy, MatchKind::Composed] {
        assert_eq!(decode_match_type(encode_match_type(m)), m);
    }
    assert_eq!(decode_match_type(99), MatchKind::Exact);
}

#[test]
fn entry_flags_engine_tag() {
    let f = EntryFlags(EntryFlags::BLACKLIST);
    assert!(f.is_blacklisted());
    assert!(!f.is_user_added());
    let g = f.with_engine_tag(5);
    assert_eq!(g.engine_tag(), 5);
    assert!(g.is_blacklisted());
}
