use inputx::ngram::{
    encode_ctx, Header, NgramTable, OpenError, Triplet, FULL_HEADER_SIZE, HEADER_SIZE, MAGIC, SHA256_SIZE,
    TRIPLET_SIZE,
};
use inputx::ngram_build::NgramBuilder;

fn build(b: NgramBuilder) -> Vec<u8> {
    b.build_bytes().expect("build")
}

#[test]
fn header_size_constants() {
    assert_eq!(HEADER_SIZE, 64);
    assert_eq!(SHA256_SIZE, 32);
    assert_eq!(FULL_HEADER_SIZE, 96);
    assert_eq!(TRIPLET_SIZE, 8);
}

#[test]
fn header_round_trip() {
    let h = Header {
        magic: MAGIC,
        format_version: 1,
        max_n: 2,
        reserved_a: [0; 2],
        entry_count: 123,
        string_pool_offset: 96,
        string_pool_size: 1024,
        triplet_table_offset: 96 + 1024,
        triplet_table_size: 123 * 8,
        fst_ctx_index_offset: 96 + 1024 + 123 * 8,
        fst_ctx_index_size: 0,
        reserved_b: [0; 24],
        sha256_of_payload: [0x5a; 32],
    };
    let bytes = h.to_bytes();
    let mut full = [0u8; FULL_HEADER_SIZE];
    full[..HEADER_SIZE].copy_from_slice(&bytes);
    full[HEADER_SIZE..].copy_from_slice(&h.sha256_of_payload);
    let h2 = Header::parse(&full).expect("parse");
    assert_eq!(h2, h);
}

#[test]
fn lib_header_rejects_wrong_magic() {
    let mut buf = [0u8; FULL_HEADER_SIZE];
    buf[0..4].copy_from_slice(b"XXXX");
    assert!(Header::parse(&buf).is_none());
}

#[test]
fn triplet_round_trip_preserves_fields() {
    let t = Triplet { ctx_offset: 0xFE_DCBA, next_offset: 0x01_2345, log_prob: -300 };
    let bytes = t.to_bytes();
    let t2 = Triplet::parse(&bytes);
    assert_eq!(t2, t);
}

#[test]
fn encode_ctx_joins_with_unit_separator() {
    assert_eq!(encode_ctx(&["今天"]), "今天");
    assert_eq!(encode_ctx(&["今天", "是"]), "今天\u{1F}是");
}

#[test]
fn triplet_offsets_keep_low_24_bits() {
    let t = Triplet { ctx_offset: 0x0100_0001, next_offset: 2, log_prob: 5 };
    let t2 = Triplet::parse(&t.to_bytes());
    assert_eq!(t2.ctx_offset, 1);
}

#[test]
fn bigram_round_trip_recovers_log_prob() {
    let mut b = NgramBuilder::new(2);
    b.add(&["今天"], "是", 250);
    b.add(&["今天"], "的", 200);
    b.add(&["我们"], "的", 300);
    b.add(&["我们"], "是", 180);
    assert_eq!(b.pending_count(), 4);
    let t = NgramTable::from_bytes(build(b)).unwrap();
    assert_eq!(t.max_n(), 2);
    assert_eq!(t.entry_count(), 4);
    assert_eq!(t.log_prob(&["今天"], "是"), Some(250));
    assert_eq!(t.log_prob(&["今天"], "的"), Some(200));
    assert_eq!(t.log_prob(&["我们"], "的"), Some(300));
    assert_eq!(t.log_prob(&["我们"], "是"), Some(180));
    assert_eq!(t.log_prob(&["unknown"], "x"), None);
    assert_eq!(t.log_prob(&["今天"], "x"), None);
}

#[test]
fn top_k_sorted_desc_with_lex_tiebreaker() {
    let mut b = NgramBuilder::new(2);
    b.add(&["今天"], "是", 250);
    b.add(&["今天"], "的", 200);
    b.add(&["今天"], "我", 250);
    b.add(&["今天"], "了", 150);
    let t = NgramTable::from_bytes(build(b)).unwrap();
    let top = t.top_k(&["今天"], 3);
    assert_eq!(top.len(), 3);
    assert_eq!(top[0], ("我".to_string(), 250));
    assert_eq!(top[1], ("是".to_string(), 250));
    assert_eq!(top[2], ("的".to_string(), 200));
    assert!(t.top_k(&["今天"], 0).is_empty());
    assert!(t.top_k(&["明天"], 5).is_empty());
}

#[test]
fn lib_two_builds_same_input_produce_identical_sha256() {
    let mk = || {
        let mut b = NgramBuilder::new(2);
        for (ctx, next, lp) in [("今天", "是", 250), ("今天", "的", 200), ("我们", "的", 300), ("我们", "是", 180), ("一个", "新", 220)] {
            b.add(&[ctx], next, lp);
        }
        b
    };
    let b1 = build(mk());
    let b2 = build(mk());
    assert_eq!(b1, b2);
    let t = NgramTable::from_bytes(b1).unwrap();
    assert_eq!(t.sha256(), t.header().sha256_of_payload);
}

#[test]
fn duplicate_ctx_next_pair_deduped() {
    let mut b = NgramBuilder::new(2);
    b.add(&["今天"], "是", 250);
    b.add(&["今天"], "是", 999);
    let t = NgramTable::from_bytes(build(b)).unwrap();
    assert_eq!(t.entry_count(), 1);
    assert_eq!(t.log_prob(&["今天"], "是"), Some(999));
}

#[test]
fn trigram_max_n_3_round_trip() {
    let mut b = NgramBuilder::new(3);
    b.add(&["今天", "我"], "去", 280);
    b.add(&["今天", "你"], "好", 260);
    b.add(&["昨天"], "是", 200);
    let t = NgramTable::from_bytes(build(b)).unwrap();
    assert_eq!(t.max_n(), 3);
    assert_eq!(t.entry_count(), 3);
    assert_eq!(t.log_prob(&["今天", "我"], "去"), Some(280));
    assert_eq!(t.log_prob(&["今天", "你"], "好"), Some(260));
    assert_eq!(t.log_prob(&["昨天"], "是"), Some(200));
    assert_eq!(t.log_prob(&["今天"], "去"), None);
}

#[test]
fn lib_sha256_mismatch_rejected() {
    let mut b = NgramBuilder::new(2);
    b.add(&["x"], "y", 100);
    let mut bytes = build(b);
    let target = bytes.len() - 5;
    bytes[target] ^= 0xFF;
    assert!(matches!(NgramTable::from_bytes(bytes), Err(OpenError::Sha256Mismatch)));
}

#[test]
fn unsupported_max_n_rejected() {
    let b = NgramBuilder::new(2);
    let mut bytes = build(b);
    bytes[5] = 9;
    let sha: [u8; 32] = <sha2::Sha256 as sha2::Digest>::digest(&bytes[FULL_HEADER_SIZE..]).into();
    bytes[HEADER_SIZE..HEADER_SIZE + 32].copy_from_slice(&sha);
    assert!(matches!(NgramTable::from_bytes(bytes), Err(OpenError::UnsupportedMaxN(9))));
}

#[test]
fn short_and_bad_magic_rejected() {
    assert!(matches!(NgramTable::from_bytes(vec![0u8; 10]), Err(OpenError::TooShort)));
    assert!(matches!(NgramTable::from_bytes(vec![0u8; 200]), Err(OpenError::BadMagic)));
}

#[test]
fn highest_log_prob_wins_among_separated_duplicates() {
    let mut b = NgramBuilder::new(2);
    b.add(&["c"], "a", 10);
    b.add(&["c"], "b", 50);
    b.add(&["c"], "a", 90);
    let t = NgramTable::from_bytes(build(b)).unwrap();
    assert_eq!(t.log_prob(&["c"], "a"), Some(90));
    assert_eq!(t.log_prob(&["c"], "b"), Some(50));
}

#[test]
fn duplicate_heavy_table_still_builds() {
    let long = "长".repeat(400);
    let mut b = NgramBuilder::new(2);
    for i in 0..30_000 {
        b.add(&[long.as_str()], long.as_str(), (i % 7) as i16);
    }
    let t = NgramTable::from_bytes(build(b)).unwrap();
    assert_eq!(t.log_prob(&[long.as_str()], long.as_str()), Some(6));
}

#[test]
fn pool_past_16_mib_is_refused() {
    let big = "a".repeat(0x100_0000);
    let mut b = NgramBuilder::new(2);
    b.add(&["a"], big.as_str(), 1);
    b.add(&["b"], "c", 1);
    assert_eq!(b.build_bytes(), Err(inputx::ngram_build::BuildError::PoolTooLarge));
}

#[test]
fn split_duplicate_pair_is_deduped() {
    let mut b = NgramBuilder::new(2);
    b.add(&["今天"], "是", 999);
    b.add(&["今天"], "的", 500);
    b.add(&["今天"], "是", 250);
    let t = NgramTable::from_bytes(build(b)).unwrap();
    assert_eq!(t.entry_count(), 2);
    assert_eq!(t.log_prob(&["今天"], "是"), Some(999));
    assert_eq!(t.top_k(&["今天"], 5), vec![("是".to_string(), 999), ("的".to_string(), 500)]);
}
