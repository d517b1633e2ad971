use inputx::codec::{EngineKind, EntryFlags, MatchKind, FULL_HEADER_SIZE};
use inputx::idf::{IdfReader, OpenError};
use inputx::idf_build::IdfBuilder;
use inputx::nihongo_data::{corpus_total, reload_idf, IdfReloadError};

fn build(b: IdfBuilder) -> Vec<u8> {
    b.build_bytes().expect("build")
}

fn exact(b: &mut IdfBuilder, code: &str, word: &str, lp: i16) {
    b.add_entry(code, word, lp, 0, MatchKind::Exact, EntryFlags::default());
}

#[test]
fn round_trip_50_entries_recovers_all() {
    let mut b = IdfBuilder::new(EngineKind::Pinyin);
    for i in 0..50 {
        b.add_entry(
            &format!("code{i}"),
            &format!("word{i}"),
            i16::try_from(i * 10).unwrap(),
            0,
            MatchKind::Exact,
            EntryFlags::default(),
        );
    }
    let r = IdfReader::from_bytes(build(b)).unwrap();
    assert_eq!(r.entry_count(), 50);
    for i in 0..50 {
        let hit = r.lookup(format!("code{i}").as_bytes());
        assert_eq!(hit.len(), 1, "code{i} should have exactly 1 entry");
        assert_eq!(hit[0].word, format!("word{i}"));
        assert_eq!(hit[0].log_prior, (i * 10) as i16);
    }
}

#[test]
fn writer_two_builds_same_input_produce_identical_sha256() {
    let mk = || {
        let mut b = IdfBuilder::new(EngineKind::Wubi);
        for i in [42, 7, 19, 3, 88, 100, 1] {
            b.add_entry(
                &format!("c{i:03}"),
                &format!("w{i:03}"),
                i as i16,
                0,
                MatchKind::Exact,
                EntryFlags::default(),
            );
        }
        b
    };
    let b1 = build(mk());
    let b2 = build(mk());
    let r1 = IdfReader::from_bytes(b1.clone()).unwrap();
    let r2 = IdfReader::from_bytes(b2.clone()).unwrap();
    assert_eq!(r1.sha256(), r2.sha256(), "deterministic build requires identical sha");
    assert_eq!(b1, b2, "files must be byte-identical");
}

#[test]
fn multi_reading_same_code_returns_all_entries() {
    let mut b = IdfBuilder::new(EngineKind::Pinyin);
    for w in ["你", "妮", "尼", "拟"] {
        exact(&mut b, "ni", w, 100);
    }
    let r = IdfReader::from_bytes(build(b)).unwrap();
    let hits = r.lookup(b"ni");
    assert_eq!(hits.len(), 4, "all 4 readings should be returned");
    let words: Vec<&str> = hits.iter().map(|e| e.word.as_str()).collect();
    assert!(words.contains(&"你"));
    assert!(words.contains(&"尼"));
}

#[test]
fn duplicate_code_word_pair_deduped() {
    let mut b = IdfBuilder::new(EngineKind::Pinyin);
    exact(&mut b, "ni", "你", 100);
    exact(&mut b, "ni", "你", 100);
    exact(&mut b, "ni", "你", 100);
    let r = IdfReader::from_bytes(build(b)).unwrap();
    assert_eq!(r.entry_count(), 1);
    assert_eq!(r.lookup(b"ni").len(), 1);
}

#[test]
fn prefix_top_k_returns_top_by_log_prior_desc() {
    let mut b = IdfBuilder::new(EngineKind::Pinyin);
    exact(&mut b, "z", "之", 100);
    exact(&mut b, "zhong", "中", 500);
    exact(&mut b, "zhongguo", "中国", 700);
    exact(&mut b, "zhongguodian", "中国电", 50);
    exact(&mut b, "xinjiang", "新疆", 999);
    let r = IdfReader::from_bytes(build(b)).unwrap();
    let hits = r.prefix_top_k(b"zhong", 3);
    assert_eq!(hits.len(), 3);
    assert_eq!(hits[0].word, "中国");
    assert_eq!(hits[1].word, "中");
    assert_eq!(hits[2].word, "中国电");
}

#[test]
fn find_by_word_round_trip() {
    let mut b = IdfBuilder::new(EngineKind::Pinyin);
    exact(&mut b, "changchang", "长长", 100);
    exact(&mut b, "zhang", "长", 200);
    exact(&mut b, "chang", "长", 300);
    let r = IdfReader::from_bytes(build(b)).unwrap();
    let hits = r.find_by_word("长");
    assert_eq!(hits.len(), 2);
    let codes: Vec<&str> = hits.iter().map(|e| e.code.as_str()).collect();
    assert!(codes.contains(&"zhang"));
    assert!(codes.contains(&"chang"));
}

#[test]
fn writer_sha256_mismatch_rejected() {
    let mut b = IdfBuilder::new(EngineKind::Pinyin);
    exact(&mut b, "x", "x", 10);
    let mut bytes = build(b);
    let target = bytes.len() - 5;
    bytes[target] ^= 0xFF;
    assert!(matches!(IdfReader::from_bytes(bytes), Err(OpenError::Sha256Mismatch)));
}

#[test]
fn entries_come_sorted_by_code_then_word() {
    let mut b = IdfBuilder::new(EngineKind::Pinyin);
    exact(&mut b, "zhong", "种", 10);
    exact(&mut b, "a", "啊", 20);
    exact(&mut b, "zhong", "中", 30);
    exact(&mut b, "ni", "你", 40);
    let r = IdfReader::from_bytes(build(b)).unwrap();
    let got: Vec<(String, String)> = r.entries().into_iter().map(|e| (e.code, e.word)).collect();
    let want = vec![
        ("a".to_string(), "啊".to_string()),
        ("ni".to_string(), "你".to_string()),
        ("zhong".to_string(), "中".to_string()),
        ("zhong".to_string(), "种".to_string()),
    ];
    assert_eq!(got, want);
}

#[test]
fn duplicate_keeps_lowest_log_prior_and_first_among_equals() {
    let mut b = IdfBuilder::new(EngineKind::Pinyin);
    b.add_entry("ni", "你", 300, 1, MatchKind::Exact, EntryFlags::default());
    b.add_entry("ni", "你", 100, 2, MatchKind::Prefix, EntryFlags::default());
    b.add_entry("ni", "你", 100, 3, MatchKind::Fuzzy, EntryFlags::default());
    let r = IdfReader::from_bytes(build(b)).unwrap();
    let hits = r.lookup(b"ni");
    assert_eq!(hits.len(), 1);
    assert_eq!(hits[0].log_prior, 100);
    assert_eq!(hits[0].raw_freq, 2);
    assert_eq!(hits[0].match_type, MatchKind::Prefix);
}

#[test]
fn empty_builder_gives_an_empty_dictionary() {
    let b = IdfBuilder::new(EngineKind::NihongoKanji);
    assert_eq!(b.pending_count(), 0);
    let bytes = build(b);
    assert!(bytes.len() >= FULL_HEADER_SIZE);
    assert_eq!(bytes[5], 3);
    let r = IdfReader::from_bytes(bytes).unwrap();
    assert_eq!(r.entry_count(), 0);
    assert_eq!(r.engine_kind(), EngineKind::NihongoKanji);
    assert!(r.entries().is_empty());
}

#[test]
fn flags_and_raw_freq_survive_the_round_trip() {
    let mut b = IdfBuilder::new(EngineKind::Wubi);
    b.add_entry("ggll", "一", -40, 123456, MatchKind::Initials, EntryFlags(0x25));
    assert_eq!(b.pending_count(), 1);
    let r = IdfReader::from_bytes(build(b)).unwrap();
    let e = r.entry_at(0).unwrap();
    assert_eq!(e.code, "ggll");
    assert_eq!(e.word, "一");
    assert_eq!(e.log_prior, -40);
    assert_eq!(e.raw_freq, 123456);
    assert_eq!(e.match_type, MatchKind::Initials);
    assert_eq!(e.flags.0, 0x25);
    assert!(r.entry_at(1).is_none());
}

#[test]
fn reload_reports_counts_and_refuses_garbage() {
    let mut a = IdfBuilder::new(EngineKind::NihongoKanji);
    a.add_entry("nichi", "日", 10, 7, MatchKind::Exact, EntryFlags::default());
    let old = IdfReader::from_bytes(build(a)).unwrap();
    let mut b = IdfBuilder::new(EngineKind::NihongoKanji);
    b.add_entry("nichi", "日", 10, 7, MatchKind::Exact, EntryFlags::default());
    b.add_entry("getsu", "月", 5, 3, MatchKind::Exact, EntryFlags::default());
    let (fresh, report) = reload_idf(&old, build(b)).unwrap();
    assert_eq!(report.old_entry_count, 1);
    assert_eq!(report.new_entry_count, 2);
    assert_eq!(corpus_total(&fresh), 10);
    assert_eq!(corpus_total(&old), 7);
    assert!(matches!(reload_idf(&old, vec![0u8; 10]), Err(IdfReloadError::Parse(OpenError::TooShort))));
}

#[test]
fn duplicate_heavy_dictionary_still_builds() {
    let long = "码".repeat(400);
    let mut b = IdfBuilder::new(EngineKind::Pinyin);
    for _ in 0..30_000 {
        exact(&mut b, long.as_str(), long.as_str(), 7);
    }
    let r = IdfReader::from_bytes(build(b)).unwrap();
    assert_eq!(r.entry_count(), 1);
    assert_eq!(r.engine_kind(), EngineKind::Pinyin);
}

fn kanji_dictionary() -> Vec<u8> {
    let mut b = IdfBuilder::new(EngineKind::NihongoKanji);
    b.add_entry("nichi", "日", 10, 7, MatchKind::Exact, EntryFlags::default());
    b.add_entry("nichi", "曰", 40, 2, MatchKind::Exact, EntryFlags::default());
    b.add_entry("getsu", "月", 5, 3, MatchKind::Exact, EntryFlags::default());
    build(b)
}

#[test]
fn set_kanji_idf_bytes_round_trip_preserves_lookup() {
    let pre = IdfReader::from_bytes(kanji_dictionary()).unwrap();
    let pre_count = pre.entry_count();
    let pre_nichi: Vec<String> = pre.lookup(b"nichi").iter().map(|e| e.word.clone()).collect();
    assert!(!pre_nichi.is_empty());
    let (post, report) = reload_idf(&pre, kanji_dictionary()).expect("re-parsing the same bytes must succeed");
    assert_eq!(report.old_entry_count, pre_count);
    assert_eq!(report.new_entry_count, pre_count);
    let on_old: Vec<String> = pre.lookup(b"nichi").iter().map(|e| e.word.clone()).collect();
    assert_eq!(on_old, pre_nichi);
    let post_nichi: Vec<String> = post.lookup(b"nichi").iter().map(|e| e.word.clone()).collect();
    assert_eq!(post_nichi, pre_nichi);
}

#[test]
fn set_kanji_idf_bytes_rejects_garbage_and_keeps_old_reader() {
    let pre = IdfReader::from_bytes(kanji_dictionary()).unwrap();
    let pre_count = pre.entry_count();
    assert!(reload_idf(&pre, b"not an idf blob".to_vec()).is_err());
    assert_eq!(pre.entry_count(), pre_count, "a rejected reload must leave the previous dict in place");
}
