use inputx::jp::jukugo::{jukugo_table, lookup_by_reading as jukugo_lookup};
use inputx::jp::kanji::{kanji_table, lookup_by_reading};
use inputx::jp::merge::{jp_candidates, JpCandidate};
use inputx::jp::KanaKind;

#[test]
fn nihon_yields_riben() {
    let cands = jukugo_lookup("nihon");
    assert!(cands.iter().any(|&w| w == "日本"), "expected 日本 for nihon, got {:?}", cands);
}

#[test]
fn gakkou_yields_xuexiao() {
    let cands = jukugo_lookup("gakkou");
    assert!(cands.iter().any(|&w| w == "学校"));
}

#[test]
fn chuugoku_yields_zhongguo() {
    let cands = jukugo_lookup("chuugoku");
    assert!(cands.iter().any(|&w| w == "中国"));
}

#[test]
fn unknown_empty() {
    assert!(jukugo_lookup("zzzz").is_empty());
    assert!(jukugo_lookup("").is_empty());
}

#[test]
fn every_kanji_char_in_basic_cjk_block() {
    for e in jukugo_table().iter() {
        for ch in e.kanji.chars() {
            let cp = ch as u32;
            assert!(
                (0x4E00..=0x9FFF).contains(&cp),
                "{} (entry for '{}') has char U+{:04X} outside Basic CJK",
                e.kanji, e.reading, cp
            );
        }
    }
}

#[test]
fn every_reading_is_ascii_lowercase() {
    for e in jukugo_table().iter() {
        for b in e.reading.bytes() {
            assert!(b.is_ascii_lowercase(), "reading {:?} for {} has non-ASCII-lowercase byte {:#x}", e.reading, e.kanji, b);
        }
    }
}

#[test]
fn user_callout_high_kou() {
    let cands = lookup_by_reading("kou");
    assert!(cands.contains(&'高'), "expected 高 for 'kou', got {:?}", cands);
}

#[test]
fn numbers_present() {
    assert!(lookup_by_reading("ichi").contains(&'一'));
    assert!(lookup_by_reading("san").contains(&'三'));
    assert!(lookup_by_reading("hyaku").contains(&'百'));
    assert!(lookup_by_reading("man").contains(&'万'));
}

#[test]
fn single_letter_reading_ka() {
    let cands = lookup_by_reading("ka");
    assert!(cands.contains(&'火'));
    assert!(cands.contains(&'花'));
    assert!(cands.contains(&'下'));
}

#[test]
fn unknown_reading_empty() {
    assert_eq!(lookup_by_reading("zzz"), Vec::<char>::new());
    assert_eq!(lookup_by_reading(""), Vec::<char>::new());
}

#[test]
fn every_entry_has_at_least_one_reading() {
    for e in kanji_table().iter() {
        assert!(!e.readings.is_empty(), "kanji {} has no readings — every entry must have ≥1", e.kanji);
        for r in e.readings.iter() {
            assert!(r.bytes().all(|b| b.is_ascii_lowercase()), "reading {:?} for {} must be ASCII lowercase", r, e.kanji);
        }
    }
}

#[test]
fn every_kanji_is_basic_cjk_or_extension() {
    for e in kanji_table().iter() {
        let cp = e.kanji as u32;
        assert!((0x4E00..=0x9FFF).contains(&cp), "kanji {} U+{:04X} outside Basic CJK", e.kanji, cp);
    }
}

#[test]
fn kanji_lookup_keeps_table_order() {
    let ka = lookup_by_reading("ka");
    let pos_fire = ka.iter().position(|&c| c == '火').unwrap();
    let pos_flower = ka.iter().position(|&c| c == '花').unwrap();
    assert!(pos_fire < pos_flower);
}

fn cand(word: &str, kind: KanaKind, freq: u32, prox: u16) -> JpCandidate {
    JpCandidate { word: word.to_string(), kind, freq, composed: false, proximity_milli: prox }
}

#[test]
fn merge_orders_exact_kanji_then_kana() {
    let composed = vec![JpCandidate { word: "私の".to_string(), kind: KanaKind::Kanji, freq: 9, composed: true, proximity_milli: 1000 }];
    let exact = vec![("好".to_string(), 5), ("高".to_string(), 40), ("校".to_string(), 40)];
    let kanji = vec![("工".to_string(), 3), ("口".to_string(), 7)];
    let r = jp_candidates("kou", composed.clone(), exact, vec![("高校生".to_string(), 99, 7)], kanji, "こう".to_string(), "コウ".to_string());
    assert_eq!(
        r,
        vec![
            composed[0].clone(),
            cand("高", KanaKind::Kanji, 40, 1000),
            cand("校", KanaKind::Kanji, 40, 1000),
            cand("好", KanaKind::Kanji, 5, 1000),
            cand("口", KanaKind::Kanji, 7, 1000),
            cand("工", KanaKind::Kanji, 3, 1000),
            cand("こう", KanaKind::Hiragana, 30, 1000),
            cand("コウ", KanaKind::Katakana, 30, 1000),
        ]
    );
}

#[test]
fn merge_predicts_extensions_only_without_exact_hit() {
    let prefix: Vec<(String, u32, usize)> = (0..10).map(|i| (format!("w{i}"), i, 8)).collect();
    let r = jp_candidates("shin", Vec::new(), Vec::new(), prefix.clone(), Vec::new(), "しん".to_string(), "しん".to_string());
    assert_eq!(r.len(), 9);
    assert_eq!(r[0], cand("w9", KanaKind::Kanji, 9, 500));
    assert_eq!(r[7], cand("w2", KanaKind::Kanji, 2, 500));
    assert_eq!(r[8], cand("しん", KanaKind::Hiragana, 30, 1000));
    let short = jp_candidates("sh", Vec::new(), Vec::new(), prefix, Vec::new(), "sh".to_string(), String::new());
    assert!(short.is_empty());
}
