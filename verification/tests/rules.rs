use std::sync::Arc;
use std::time::Duration;

use inputx::rules::prediction::{PredictionCandidate, PredictionRule, PredictionRuleEngine};
use inputx::rules::repeated_letter::RepeatedLetterExpansion;
use inputx::rules::{Context, ContextFlags, ExecutionTrace, Mode, Rule, RuleEffect};

#[test]
fn trace_default_is_empty() {
    let t = ExecutionTrace::default();
    assert!(t.fired.is_empty());
    assert!(t.skipped.is_empty());
    assert_eq!(t.total_elapsed, Duration::ZERO);
    assert!(!t.rule_fired("any"));
    assert!(!t.rule_skipped("any"));
}

#[test]
fn rule_effect_variants_compile() {
    let _ = RuleEffect::NoOp;
    let _ = RuleEffect::Added(3);
    let _ = RuleEffect::Removed(1);
    let _ = RuleEffect::Filtered { kept: 5, dropped: 2 };
    let _ = RuleEffect::Reranked;
    let _ = RuleEffect::PromotedToFront("理想".to_string());
    let _ = RuleEffect::AutoCommitted { word: "复杂".to_string(), reason: "OnFourCodesIfUnique" };
    let _ = RuleEffect::Failed("bigram FST stream error".to_string());
}

#[test]
fn context_flags_default_all_false() {
    let f = ContextFlags::default();
    assert!(!f.has_vowel);
    assert!(!f.has_non_speculative_pinyin);
    assert!(!f.pinyin_intent);
    assert!(!f.starts_with_z);
    assert_eq!(f.buffer_len, 0);
}

fn ctx(buf: &str) -> Context {
    Context {
        mode: Mode::Mixed,
        buffer: buf.to_string(),
        prev_committed: None,
        second_prev_committed: None,
        flags: ContextFlags { buffer_len: buf.len(), ..ContextFlags::default() },
    }
}

#[test]
fn applies_only_to_3plus_same_ascii_letter() {
    let r = RepeatedLetterExpansion;
    assert!(!r.applies(&ctx("")), "empty buffer");
    assert!(!r.applies(&ctx("h")), "single letter too short");
    assert!(!r.applies(&ctx("hh")), "two letters still too short");
    assert!(r.applies(&ctx("hhh")), "three letters fires");
    assert!(r.applies(&ctx("hhhhhh")), "six fires");
    assert!(!r.applies(&ctx("hha")), "mixed letters skip");
    assert!(!r.applies(&ctx("nihao")), "regular pinyin skip");
    assert!(!r.applies(&ctx("111")), "digits don't fire");
}

#[test]
fn hhh_expands_to_haha() {
    let r = RepeatedLetterExpansion;
    assert_eq!(r.expansion(&ctx("hhh")).as_deref(), Some("哈哈哈"));
    assert_eq!(r.expansion(&ctx("hhhhh")).as_deref(), Some("哈哈哈哈哈"));
    assert_eq!(r.expansion(&ctx("nnn")).as_deref(), Some("嗯嗯嗯"));
    assert_eq!(r.expansion(&ctx("ttt")), None);
    assert_eq!(r.name(), "RepeatedLetterExpansion");
    assert_eq!(r.priority(), 100);
}

#[test]
fn length_matches_buffer() {
    let r = RepeatedLetterExpansion;
    for n in 3..=12 {
        let buf: String = std::iter::repeat_n('h', n).collect();
        let word = r.expansion(&ctx(&buf)).unwrap();
        assert_eq!(word.chars().count(), n, "n={n} buffer should yield n CJK chars");
        assert!(word.chars().all(|c| c == '哈'));
    }
}

#[test]
fn all_supported_letters() {
    let cases = [(b'h', '哈'), (b'a', '啊'), (b'o', '哦'), (b'e', '诶'), (b'm', '嗯'), (b'n', '嗯'), (b'w', '呜')];
    let r = RepeatedLetterExpansion;
    for (letter, expected) in cases {
        let buf = String::from_utf8(vec![letter; 3]).unwrap();
        let word = r.expansion(&ctx(&buf)).unwrap();
        assert_eq!(word.chars().next(), Some(expected), "{} → {}", letter as char, expected);
    }
}

#[test]
fn unsupported_letter_is_noop() {
    let r = RepeatedLetterExpansion;
    assert!(r.applies(&ctx("ttt")));
    assert_eq!(r.expansion(&ctx("ttt")), None);
}

struct Named(&'static str, i32);
impl Rule for Named {
    fn priority_spec(&self) -> i32 {
        self.1
    }
    fn name(&self) -> &'static str {
        self.0
    }
    fn priority(&self) -> i32 {
        self.1
    }
}
impl PredictionRule for Named {
    fn apply(&self, _ctx: &Context, preds: &mut Vec<PredictionCandidate>) -> RuleEffect {
        preds.push(PredictionCandidate { word: self.0.to_string(), count: 1, source: "test" });
        RuleEffect::Added(1)
    }
}

#[test]
fn prediction_engine_orders_by_priority() {
    let rules: Vec<Arc<dyn PredictionRule>> = vec![Arc::new(Named("c", 300)), Arc::new(Named("a", 100)), Arc::new(Named("b", 200)), Arc::new(Named("a2", 100))];
    let e = PredictionRuleEngine::new(rules);
    assert_eq!(e.rule_count(), 4);
    let names: Vec<&str> = e.rules().iter().map(|r| r.name()).collect();
    assert_eq!(names, vec!["a", "a2", "b", "c"]);
}
