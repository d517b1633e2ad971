use inputx::corpus_text::{decimal, hex_encode, library_line, toml_multiline, toml_str};
use inputx::ingest::{append_digested, consensus_pairs, source_unchanged, digested_count, dedupe_max, plan_ingest, IngestRow, LibraryRow};
use inputx::ingest_parse::{
    drop_garbage, normalize, parse_garbage, parse_library, parse_simple_tsv, EngineKind, IngestError,
};
use inputx::jieba::{jieba_lines, jieba_rows, JiebaDrop, JiebaLine};
use inputx::library_sort::sort_rows;
use inputx::tsv::trim_string;

fn row(code: &str, word: &str, extra: Option<&str>, freq: u32) -> IngestRow {
    IngestRow { code: code.to_string(), word: word.to_string(), extra: extra.map(|s| s.to_string()), freq }
}

fn lib(code: &str, word: &str, freq: u32, source: &str) -> LibraryRow {
    LibraryRow { code: code.to_string(), word: word.to_string(), extra: None, freq, source: source.to_string() }
}

#[test]
fn engine_names_round_trip() {
    for e in [EngineKind::Pinyin, EngineKind::Wubi, EngineKind::Nihongo] {
        assert_eq!(EngineKind::parse(e.name()).unwrap(), e);
    }
    assert_eq!(EngineKind::parse("klingon"), Err(IngestError::UnknownEngine("klingon".to_string())));
    assert_eq!(EngineKind::Pinyin.library_col_count(), 4);
    assert_eq!(EngineKind::Wubi.simple_tsv_col_count(), 4);
}

#[test]
fn dedupe_keeps_highest_freq_earliest_and_sorts() {
    let rows = vec![
        row("zhong", "中", None, 5),
        row("a", "啊", None, 1),
        row("zhong", "中", None, 9),
        row("zhong", "中", None, 9),
        row("ni", "你", Some("x"), 0),
    ];
    let d = dedupe_max(&rows);
    assert_eq!(d, vec![row("a", "啊", None, 1), row("ni", "你", None, 0), row("zhong", "中", None, 9)]);
}

#[test]
fn dedupe_keeps_the_winners_extra_column() {
    let rows = vec![row("gg", "一", Some("1"), 3), row("gg", "一", Some("2"), 7), row("gg", "一", Some("3"), 7)];
    assert_eq!(dedupe_max(&rows), vec![row("gg", "一", Some("2"), 7)]);
}

#[test]
fn plan_adds_new_words_and_lets_the_library_win() {
    let library = vec![
        lib("ni", "你", 100, "digested"),
        lib("hao", "好", 50, "polish"),
        lib("ta", "他", 70, "digested"),
        lib("ta", "他", 80, "digested"),
    ];
    let upstream = vec![
        row("a", "啊", None, 10),
        row("hao", "好", None, 1),
        row("ni", "你", None, 100),
        row("ta", "他", None, 70),
    ];
    let fold = |f: u32| f * 2 + 1;
    let plan = plan_ingest(&upstream, &library, &fold, 3);
    assert_eq!(plan.added, vec![row("a", "啊", None, 21)]);
    assert_eq!(plan.skipped_polish, 1);
    assert_eq!(plan.skipped_same, 1);
    assert_eq!(plan.skipped_library_wins, 1);
    assert_eq!(plan.rejected_garbage, 3);
    assert_eq!(digested_count(&library), 3);
}

#[test]
fn simple_tsv_reads_rows_and_skips_comments() {
    let raw = "# header\n\nni\t你\t100\r\n  hao\t好\t+7  \n";
    let p = parse_simple_tsv(raw, EngineKind::Pinyin).unwrap();
    assert_eq!(p.rows, vec![row("ni", "你", None, 100), row("hao", "好", None, 7)]);
    assert_eq!(p.dropped, 0);
    let w = parse_simple_tsv("ggll\t一\t1\t42", EngineKind::Wubi).unwrap();
    assert_eq!(w.rows, vec![row("ggll", "一", Some("1"), 42)]);
}

#[test]
fn simple_tsv_refuses_bad_lines() {
    assert_eq!(
        parse_simple_tsv("ok\t好\t1\nni\t你", EngineKind::Pinyin).unwrap_err(),
        IngestError::TsvColumns { line: 2, want: 3, got: 2 }
    );
    assert_eq!(
        parse_simple_tsv("ni\t你\t-3", EngineKind::Pinyin).unwrap_err(),
        IngestError::TsvFreq { line: 1, text: "-3".to_string() }
    );
    assert_eq!(
        parse_simple_tsv("ni\t你\t4294967296", EngineKind::Pinyin).unwrap_err(),
        IngestError::TsvFreq { line: 1, text: "4294967296".to_string() }
    );
}

#[test]
fn library_keeps_header_and_checks_sources() {
    let raw = "# library\n\n# cols\nni\t你\t100\tdigested\n# late comment\nhao\t好\t5\tpolish  \n";
    let p = parse_library(raw, EngineKind::Pinyin).unwrap();
    assert_eq!(p.header, "# library\n\n# cols\n");
    assert_eq!(p.rows, vec![lib("ni", "你", 100, "digested"), lib("hao", "好", 5, "polish")]);
    assert_eq!(
        parse_library("ni\t你\t1\tupstream", EngineKind::Pinyin).unwrap_err(),
        IngestError::LibrarySource { line: 1, source: "upstream".to_string() }
    );
    assert_eq!(
        parse_library("ni\t你\t1", EngineKind::Pinyin).unwrap_err(),
        IngestError::LibraryColumns { line: 1, want: 4, got: 3 }
    );
    assert_eq!(
        parse_library("ni\t你\tx\tpolish", EngineKind::Pinyin).unwrap_err(),
        IngestError::LibraryFreq { line: 1, text: "x".to_string() }
    );
}

#[test]
fn garbage_filter_pairs_are_trimmed() {
    let raw = "# garbage\n  ni \t 你 \t2026-01-01\t# note\nsingle\n\nhao\t好\n";
    let g = parse_garbage(raw);
    assert_eq!(g, vec![("ni".to_string(), "你".to_string()), ("hao".to_string(), "好".to_string())]);
    let rows = vec![row("ni", "你", None, 1), row("ta", "他", None, 2), row("hao", "好", None, 3)];
    let (kept, dropped) = drop_garbage(&rows, &g);
    assert_eq!(kept, vec![row("ta", "他", None, 2)]);
    assert_eq!(dropped, 2);
}

#[test]
fn normalize_trims_unicode_whitespace_and_drops_empty() {
    assert_eq!(trim_string("\u{3000} 中文\u{00A0}\t"), "中文");
    let rows = vec![row(" ni ", "\u{3000}你", Some(" x "), 1), row("  ", "空", None, 2), row("a", "\u{2003}", None, 3)];
    assert_eq!(normalize(&rows), vec![row("ni", "你", Some("x"), 1)]);
}

#[test]
fn jieba_derives_codes_from_single_readings_only() {
    let raw = "快手 300 n\n暖和 200 a\n𠀀x 50 n\n好 abc v\nsolo\n# c\n";
    let lines = jieba_lines(raw, EngineKind::Pinyin).unwrap();
    assert_eq!(lines.len(), 4);
    assert_eq!(lines[3], JiebaLine::BadFreq { word: "好".to_string(), text: "abc".to_string() });
    let s = |v: &[&str]| v.iter().map(|x| x.to_string()).collect::<Vec<String>>();
    let readings = vec![
        vec![s(&["kuai"]), s(&["shou"])],
        vec![s(&["nuan"]), s(&["he", "huo"])],
        vec![s(&[]), s(&["x"])],
        vec![],
    ];
    let r = jieba_rows(&lines, &readings);
    assert_eq!(r.rows, vec![row("kuaishou", "快手", None, 300)]);
    assert_eq!(r.dropped, 3);
    assert_eq!(r.dropped_ambiguous, 1);
    assert_eq!(r.dropped_uncovered, 1);
    assert_eq!(
        r.samples,
        vec![
            ("暖和".to_string(), JiebaDrop::Ambiguous),
            ("𠀀x".to_string(), JiebaDrop::Uncovered),
            ("好".to_string(), JiebaDrop::BadFreq("abc".to_string())),
        ]
    );
    assert_eq!(jieba_lines(raw, EngineKind::Wubi).unwrap_err(), IngestError::JiebaEngine(EngineKind::Wubi));
}

#[test]
fn text_helpers_format_as_expected() {
    assert_eq!(decimal(0), "0");
    assert_eq!(decimal(4294967296), "4294967296");
    assert_eq!(hex_encode(&[0x00, 0xab, 0x10, 0xff]), "00ab10ff");
    assert_eq!(toml_str("a\"b\\c\td\u{1}"), "\"a\\\"b\\\\c\\td\\u0001\"");
    assert_eq!(toml_str("两行\n文本"), "\"\"\"\n两行\n文本\n\"\"\"");
    assert_eq!(toml_multiline("end\n"), "\"\"\"\nend\n\"\"\"");
    assert_eq!(toml_multiline("q\"\"\"\nx"), "\"q\\\"\\\"\\\"\\nx\"");
    let l = LibraryRow { code: "ggll".into(), word: "一".into(), extra: Some("1".into()), freq: 42, source: "digested".into() };
    assert_eq!(library_line(&l, EngineKind::Wubi).unwrap(), "ggll\t一\t1\t42\tdigested\n");
    assert!(matches!(library_line(&l, EngineKind::Pinyin), Err(IngestError::RowShape { .. })));
}

fn ranked(code: &str, word: &str, rank: Option<&str>, freq: u32, source: &str) -> LibraryRow {
    LibraryRow {
        code: code.to_string(),
        word: word.to_string(),
        extra: rank.map(|s| s.to_string()),
        freq,
        source: source.to_string(),
    }
}

#[test]
fn library_rows_sort_by_code_word_then_source_stably() {
    let mut rows = vec![
        lib("zhong", "中", 5, "polish"),
        lib("a", "啊", 1, "digested"),
        lib("zhong", "中", 7, "digested"),
        lib("zhong", "中", 3, "polish"),
        lib("ni", "你", 2, "digested"),
    ];
    sort_rows(&mut rows, EngineKind::Pinyin);
    assert_eq!(
        rows,
        vec![
            lib("a", "啊", 1, "digested"),
            lib("ni", "你", 2, "digested"),
            lib("zhong", "中", 7, "digested"),
            lib("zhong", "中", 5, "polish"),
            lib("zhong", "中", 3, "polish"),
        ]
    );
}

#[test]
fn wubi_rows_sort_by_rank_column_first() {
    let mut rows = vec![
        ranked("aaaa", "工", Some("2"), 0, "digested"),
        ranked("bbbb", "子", None, 0, "digested"),
        ranked("a", "工", Some("1"), 0, "polish"),
        ranked("a", "式", Some("1"), 0, "digested"),
    ];
    sort_rows(&mut rows, EngineKind::Wubi);
    assert_eq!(
        rows,
        vec![
            ranked("bbbb", "子", None, 0, "digested"),
            ranked("a", "工", Some("1"), 0, "polish"),
            ranked("a", "式", Some("1"), 0, "digested"),
            ranked("aaaa", "工", Some("2"), 0, "digested"),
        ]
    );
}

#[test]
fn consensus_pairs_join_digested_anchors_last_wins() {
    let library = vec![
        lib("zhong", "中", 50, "digested"),
        lib("zhong", "中", 70, "digested"),
        lib("ni", "你", 30, "polish"),
        lib("hao", "好", 0, "digested"),
        lib("a", "啊", 9, "digested"),
    ];
    let upstream = vec![
        row("zhong", "中", None, 1000),
        row("ni", "你", None, 400),
        row("hao", "好", None, 20),
        row("a", "啊", None, 0),
        row("a", "啊", None, 3),
        row("xin", "新", None, 8),
    ];
    assert_eq!(consensus_pairs(&library, &upstream), vec![(1000, 70), (3, 9)]);
}

#[test]
fn appending_digested_rows_keeps_the_library() {
    let mut library = vec![lib("ni", "你", 30, "polish")];
    append_digested(&mut library, &vec![row("hao", "好", Some("x"), 7)]);
    assert_eq!(
        library,
        vec![
            lib("ni", "你", 30, "polish"),
            LibraryRow { code: "hao".into(), word: "好".into(), extra: Some("x".into()), freq: 7, source: "digested".into() },
        ]
    );
}

#[test]
fn unchanged_source_is_a_no_op_only_with_a_recorded_digest() {
    assert!(source_unchanged("abc", "abc"));
    assert!(!source_unchanged("abc", "abd"));
    assert!(!source_unchanged("", ""));
    assert!(!source_unchanged("n/a", "n/a"));
}
