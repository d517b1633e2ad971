use inputx::pinyin::{fuzzy_buffer_variants, looks_like_initials};
use inputx::prior_correction::{correction_for, prior_corrections};
use inputx::wubi::{displayable_only, is_displayable, AutoCommitPolicy, WubiEngine};

#[test]
fn known_corrections_apply() {
    assert_eq!(correction_for("继续"), 17);
    assert_eq!(correction_for("设计"), 11);
    assert_eq!(correction_for("理想"), 11);
    assert_eq!(correction_for("加载"), 7);
    assert_eq!(correction_for("具体"), 7);
    assert_eq!(correction_for("统一"), 13);
    assert_eq!(correction_for("积蓄"), 0);
    assert_eq!(correction_for("涉及"), 0);
    assert_eq!(correction_for("立项"), 0);
    assert_eq!(correction_for("加在"), 0);
    assert_eq!(correction_for("暗送秋波"), 0);
    assert_eq!(correction_for("新宿"), 0);
    assert_eq!(correction_for(""), 0);
    for (_, b) in prior_corrections() {
        assert!(b.abs() <= 20, "prior_correction Q4 boost {b} out of [-20, 20] sanity window");
    }
}

#[test]
fn looks_like_initials_threshold() {
    assert!(!looks_like_initials(""));
    assert!(!looks_like_initials("h"));
    assert!(looks_like_initials("hh"));
    assert!(looks_like_initials("hhh"));
    assert!(looks_like_initials("zg"));
    assert!(!looks_like_initials("zhongguo"));
    assert!(!looks_like_initials("ha"));
    assert!(!looks_like_initials("u"));
}

#[test]
fn fuzzy_variants_single_swaps() {
    assert_eq!(fuzzy_buffer_variants("zin"), vec!["zin", "zhin", "zing"]);
    assert_eq!(fuzzy_buffer_variants("shang"), vec!["shang", "sang", "shhang", "shan"]);
    assert_eq!(fuzzy_buffer_variants("li"), vec!["li", "ni"]);
    assert_eq!(fuzzy_buffer_variants("an"), vec!["an"]);
    assert_eq!(fuzzy_buffer_variants("rang"), vec!["rang", "lang", "ran"]);
}

#[test]
fn displayable_threshold() {
    assert!(is_displayable("中文"));
    assert!(is_displayable(""));
    assert!(!is_displayable("\u{20000}"));
    let all = vec!["一".to_string(), "\u{2A6D6}".to_string(), "二".to_string()];
    assert_eq!(displayable_only(all.clone(), false), vec!["一".to_string(), "二".to_string()]);
    assert_eq!(displayable_only(all.clone(), true), all);
}

/// A small stand-in code table for the engine's tests.
fn table(code: String) -> Vec<String> {
    match code.as_str() {
        "g" => vec!["一".to_string()],
        "gg" => vec!["五".to_string(), "夫".to_string()],
        "a" => vec!["工".to_string(), "式".to_string()],
        "ipbf" => vec!["学".to_string()],
        "d" => vec!["在".to_string(), "大".to_string()],
        "dd" | "ddd" => vec!["大".to_string(), "达".to_string()],
        "dddd" => vec!["大".to_string()],
        "j" => vec!["日".to_string()],
        "je" => vec!["昌".to_string()],
        "jeg" => vec!["暑".to_string(), "晕".to_string()],
        _ => Vec::new(),
    }
}

fn no_pick(_code: String, _word: String) {}

fn engine_with(policy: AutoCommitPolicy) -> WubiEngine {
    let mut e = WubiEngine::new();
    e.set_policy(policy);
    e
}

#[test]
fn policy_wire_numbers() {
    for p in [AutoCommitPolicy::Never, AutoCommitPolicy::OnFourCodes, AutoCommitPolicy::OnUniqueMatch, AutoCommitPolicy::OnFourCodesIfUnique] {
        assert_eq!(AutoCommitPolicy::from_u32(p.to_u32()), Some(p));
    }
    assert_eq!(AutoCommitPolicy::from_u32(9), None);
    assert_eq!(AutoCommitPolicy::default(), AutoCommitPolicy::OnFourCodesIfUnique);
}

#[test]
fn one_letter_yi_ji_jian_ma_with_unique_match_auto_commits() {
    let mut e = engine_with(AutoCommitPolicy::OnUniqueMatch);
    assert_eq!(e.handle_letter(b'g', &table, &no_pick).as_deref(), Some("一"));
    assert!(!e.is_composing());
}

#[test]
fn full_4_letter_zigen_with_default_policy_auto_commits() {
    let mut e = WubiEngine::new();
    assert_eq!(e.handle_letter(b'i', &table, &no_pick), None);
    assert_eq!(e.handle_letter(b'p', &table, &no_pick), None);
    assert_eq!(e.handle_letter(b'b', &table, &no_pick), None);
    assert_eq!(e.handle_letter(b'f', &table, &no_pick).as_deref(), Some("学"));
    assert!(!e.is_composing());
}

#[test]
fn uppercase_letter_is_lowercased() {
    let mut e = WubiEngine::new();
    for ch in b"ipb" {
        e.handle_letter(*ch, &table, &no_pick);
    }
    assert_eq!(e.handle_letter(b'F', &table, &no_pick).as_deref(), Some("学"));
}

#[test]
fn under_4_letters_does_not_auto_commit_under_if_unique() {
    let mut e = WubiEngine::new();
    assert_eq!(e.handle_letter(b'a', &table, &no_pick), None);
    assert!(e.is_composing());
    assert_eq!(e.buffer_str(), "a");
    assert!(!e.candidates().is_empty());
}

#[test]
fn never_policy_never_auto_commits() {
    let mut e = engine_with(AutoCommitPolicy::Never);
    for ch in b"ipbf" {
        assert_eq!(e.handle_letter(*ch, &table, &no_pick), None);
    }
    assert!(e.is_composing());
    assert_eq!(e.commit_index(0, &no_pick).as_deref(), Some("学"));
    assert!(!e.is_composing());
}

#[test]
fn fifth_letter_force_commits_top_then_starts_fresh() {
    let mut e = engine_with(AutoCommitPolicy::Never);
    for ch in b"ipbf" {
        e.handle_letter(*ch, &table, &no_pick);
    }
    let out = e.handle_letter(b'd', &table, &no_pick);
    assert_eq!(out.as_deref(), Some("学"));
    assert_eq!(e.buffer_str(), "d");
    assert_eq!(e.candidates().first().map(String::as_str), Some("在"));
}

#[test]
fn backspace_pops_buffer_only_while_composing() {
    let mut e = engine_with(AutoCommitPolicy::Never);
    assert!(!e.backspace(&table));
    e.handle_letter(b'g', &table, &no_pick);
    e.handle_letter(b'g', &table, &no_pick);
    assert!(e.backspace(&table));
    assert_eq!(e.buffer_str(), "g");
    assert_eq!(e.candidates(), &["一".to_string()]);
    assert!(e.backspace(&table));
    assert!(!e.is_composing());
    assert!(!e.backspace(&table));
}

#[test]
fn escape_clears_composing_state() {
    let mut e = engine_with(AutoCommitPolicy::Never);
    assert!(!e.escape());
    e.handle_letter(b'd', &table, &no_pick);
    e.handle_letter(b'd', &table, &no_pick);
    assert!(e.escape());
    assert!(!e.is_composing());
}

#[test]
fn commit_index_picks_specific_candidate() {
    let mut e = engine_with(AutoCommitPolicy::Never);
    e.handle_letter(b'j', &table, &no_pick);
    e.handle_letter(b'e', &table, &no_pick);
    e.handle_letter(b'g', &table, &no_pick);
    assert!(e.candidates().len() >= 2, "expected ≥2 candidates for `jeg`, got {:?}", e.candidates());
    let second = e.candidates()[1].clone();
    assert_eq!(e.commit_index(1, &no_pick).as_deref(), Some(second.as_str()));
    assert!(!e.is_composing());
}

#[test]
fn commit_out_of_range_returns_none_and_keeps_state() {
    let mut e = engine_with(AutoCommitPolicy::Never);
    e.handle_letter(b'd', &table, &no_pick);
    e.handle_letter(b'd', &table, &no_pick);
    assert!(e.commit_index(99, &no_pick).is_none());
    assert!(e.is_composing());
}

#[test]
fn non_letter_byte_rejected() {
    let mut e = WubiEngine::new();
    assert_eq!(e.handle_letter(b'1', &table, &no_pick), None);
    assert_eq!(e.handle_letter(b' ', &table, &no_pick), None);
    assert_eq!(e.handle_letter(b'!', &table, &no_pick), None);
    assert!(!e.is_composing());
}

#[test]
fn on_four_codes_commits_top_at_four_letters() {
    let mut e = WubiEngine::new();
    e.set_policy(AutoCommitPolicy::OnFourCodes);
    assert_eq!(e.handle_letter(b'd', &table, &no_pick), None);
    assert_eq!(e.handle_letter(b'd', &table, &no_pick), None);
    assert_eq!(e.handle_letter(b'd', &table, &no_pick), None);
    assert_eq!(e.handle_letter(b'd', &table, &no_pick).as_deref(), Some("大"));
}
