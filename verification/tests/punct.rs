use inputx::locale::punct::{ascii_to_cjk_punct, quote_direction, SmartQuoteState};
#[test]
fn comma_period_etc() {
    assert_eq!(ascii_to_cjk_punct(','), Some('，'));
    assert_eq!(ascii_to_cjk_punct('.'), Some('。'));
    assert_eq!(ascii_to_cjk_punct('!'), Some('！'));
    assert_eq!(ascii_to_cjk_punct('?'), Some('？'));
    assert_eq!(ascii_to_cjk_punct(';'), Some('；'));
    assert_eq!(ascii_to_cjk_punct(':'), Some('：'));
}

#[test]
fn brackets_paired() {
    assert_eq!(ascii_to_cjk_punct('('), Some('（'));
    assert_eq!(ascii_to_cjk_punct(')'), Some('）'));
    assert_eq!(ascii_to_cjk_punct('<'), Some('《'));
    assert_eq!(ascii_to_cjk_punct('>'), Some('》'));
    assert_eq!(ascii_to_cjk_punct('['), Some('【'));
    assert_eq!(ascii_to_cjk_punct(']'), Some('】'));
}

#[test]
fn backslash_to_cjk_pause() {
    assert_eq!(ascii_to_cjk_punct('\\'), Some('、'));
}

#[test]
fn unmapped_returns_none() {
    assert_eq!(ascii_to_cjk_punct('a'), None);
    assert_eq!(ascii_to_cjk_punct('1'), None);
    assert_eq!(ascii_to_cjk_punct('@'), None);
}

#[test]
fn quotes_not_mapped_by_punct_fn() {
    // Quotes go through SmartQuoteState, not the static fn.
    assert_eq!(ascii_to_cjk_punct('"'), None);
    assert_eq!(ascii_to_cjk_punct('\''), None);
}

#[test]
fn smart_quote_alternates_double() {
    let mut s = SmartQuoteState::new();
    assert_eq!(s.map('"'), Some('\u{201C}')); // open
    assert_eq!(s.map('"'), Some('\u{201D}')); // close
    assert_eq!(s.map('"'), Some('\u{201C}')); // open again
}

#[test]
fn smart_quote_alternates_single_independently() {
    let mut s = SmartQuoteState::new();
    assert_eq!(s.map('\''), Some('\u{2018}')); // open
    assert_eq!(s.map('"'), Some('\u{201C}')); // open (independent)
    assert_eq!(s.map('\''), Some('\u{2019}')); // close
}

#[test]
fn smart_quote_passthrough_for_non_quotes() {
    let mut s = SmartQuoteState::new();
    assert_eq!(s.map('a'), None);
    assert_eq!(s.map(','), None);
}

#[test]
fn reset_returns_to_initial() {
    let mut s = SmartQuoteState::new();
    s.map('"');
    s.reset();
    assert_eq!(s.map('"'), Some('\u{201C}')); // back to open
}

// ---- stateless context-based path (nesting-aware) -------------------

const OPEN_D: char = '“';
const CLOSE_D: char = '”';
const OPEN_S: char = '‘';
const CLOSE_S: char = '’';

#[test]
fn ctx_empty_opens() {
    assert_eq!(quote_direction("", '"'), Some(OPEN_D));
    assert_eq!(quote_direction("", '\''), Some(OPEN_S));
}

#[test]
fn ctx_open_quote_mid_cjk_text() {
    // The dominant Chinese pattern: 他说"你好" — no space before the
    // opening quote. Depth 0 → open. (The single-char heuristic got
    // this WRONG, forcing a closing quote after 说.)
    assert_eq!(quote_direction("他说", '"'), Some(OPEN_D));
    assert_eq!(quote_direction("他对我说", '"'), Some(OPEN_D));
}

#[test]
fn ctx_close_quote_when_inside() {
    // 他说“你好 + " → inside (depth 1) → close.
    assert_eq!(quote_direction("他说“你好", '"'), Some(CLOSE_D));
    // The user's IME-switch case: “ then text typed via another IME.
    assert_eq!(
        quote_direction("“然后切去别的输入法打字", '"'),
        Some(CLOSE_D)
    );
}

#[test]
fn ctx_balanced_pair_opens_next() {
    // 他说“你好” + " → a fresh quotation opens.
    assert_eq!(quote_direction("他说“你好”", '"'), Some(OPEN_D));
}

#[test]
fn ctx_close_after_inner_punctuation() {
    // The cases the single-char rule got wrong: punctuation inside a
    // quotation still closes because depth > 0.
    assert_eq!(quote_direction("“今天很好。", '"'), Some(CLOSE_D)); // 句号
    assert_eq!(quote_direction("“好，", '"'), Some(CLOSE_D)); // 逗号
    assert_eq!(quote_direction("“真的吗？", '"'), Some(CLOSE_D)); // 问号
}

#[test]
fn ctx_open_new_sentence_quote_after_period() {
    // 他走了。 + " → outside any quote → open (not close). Same
    // preceding-char class as the case above, resolved by depth
    // rather than the ambiguous single char.
    assert_eq!(quote_direction("他走了。", '"'), Some(OPEN_D));
}

#[test]
fn ctx_single_and_double_counted_independently() {
    // “他说‘你好’ — double still open, inner single closed.
    assert_eq!(quote_direction("“他说‘你好’", '"'), Some(CLOSE_D));
    assert_eq!(quote_direction("“他说‘你好’", '\''), Some(OPEN_S));
    assert_eq!(quote_direction("“他说", '\''), Some(OPEN_S)); // inner opens inside outer
    assert_eq!(quote_direction("“他说‘你好", '\''), Some(CLOSE_S)); // inner still open → close
}

#[test]
fn ctx_line_scoped_ignores_earlier_lines() {
    // An unclosed quote on a previous line does not force a close on
    // the current line.
    assert_eq!(quote_direction("“上一行没闭合\n他说", '"'), Some(OPEN_D));
    // …but an unclosed quote on the CURRENT line does.
    assert_eq!(quote_direction("上一行\n他说“你好", '"'), Some(CLOSE_D));
}

#[test]
fn ctx_non_quote_passes_through() {
    assert_eq!(quote_direction("他说", 'x'), None);
    assert_eq!(quote_direction("", ','), None);
}

#[test]
fn default_state_opens_like_new() {
    let mut s = SmartQuoteState::default();
    assert_eq!(s.map('"'), Some('“'));
    assert_eq!(SmartQuoteState::default().map('\''), Some('‘'));
}
