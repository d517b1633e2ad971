use inputx::input_mode::InputMode;
use inputx::session::{append_pending, mode_switch, route_key, KeyAction, KeyContext, ModeSwitch};

fn ctx(composing: bool, has_predictions: bool, japanese_composing: bool) -> KeyContext {
    KeyContext { composing, has_predictions, japanese_composing }
}

#[test]
fn english_mode_takes_no_key() {
    for cp in [b'a' as u32, b' ' as u32, 0x08, 0x1B, b'1' as u32, b'.' as u32] {
        let r = route_key(InputMode::En, cp, 0, ctx(true, true, false));
        assert_eq!(r.action, KeyAction::PassThrough);
        assert!(!r.cancel_predictions);
        assert!(!r.action.consumed(true));
    }
}

#[test]
fn ctrl_and_cmd_combos_pass_through() {
    assert_eq!(route_key(InputMode::Cjk, b'c' as u32, 2, ctx(true, false, false)).action, KeyAction::PassThrough);
    assert_eq!(route_key(InputMode::Cjk, b'v' as u32, 8, ctx(false, true, false)).action, KeyAction::PassThrough);
    assert!(!route_key(InputMode::Cjk, b'v' as u32, 8, ctx(false, true, false)).cancel_predictions);
}

#[test]
fn letters_feed_the_engine() {
    let r = route_key(InputMode::Cjk, b'G' as u32, 0, ctx(false, true, false));
    assert_eq!(r.action, KeyAction::Feed(b'G'));
    assert!(!r.cancel_predictions);
    assert!(r.action.consumed(false));
}

#[test]
fn digits_pick_candidates_only_while_composing() {
    assert_eq!(route_key(InputMode::Cjk, b'2' as u32, 0, ctx(true, false, false)).action, KeyAction::CommitIndex(1));
    assert_eq!(route_key(InputMode::Cjk, b'0' as u32, 0, ctx(true, false, false)).action, KeyAction::CommitIndex(9));
    assert_eq!(route_key(InputMode::Cjk, b'1' as u32, 0, ctx(false, false, false)).action, KeyAction::PassThrough);
}

#[test]
fn space_return_tab_follow_composition() {
    assert_eq!(route_key(InputMode::Cjk, 0x20, 0, ctx(true, false, false)).action, KeyAction::CommitIndex(0));
    assert_eq!(route_key(InputMode::Cjk, 0x20, 0, ctx(false, false, false)).action, KeyAction::PassThrough);
    assert_eq!(route_key(InputMode::Cjk, 0x0D, 0, ctx(true, false, false)).action, KeyAction::CommitRaw);
    assert_eq!(route_key(InputMode::Cjk, 0x0A, 0, ctx(false, false, false)).action, KeyAction::PassThrough);
    assert_eq!(route_key(InputMode::Cjk, 0x09, 0, ctx(true, false, false)).action, KeyAction::Swallow);
    assert_eq!(route_key(InputMode::Cjk, 0x09, 0, ctx(false, false, false)).action, KeyAction::PassThrough);
}

#[test]
fn backspace_escape_and_punctuation() {
    let b = route_key(InputMode::Cjk, 0x7F, 0, ctx(false, false, false)).action;
    assert_eq!(b, KeyAction::Backspace);
    assert!(!b.consumed(false));
    assert!(b.consumed(true));
    assert_eq!(route_key(InputMode::Cjk, 0x1B, 0, ctx(true, false, false)).action, KeyAction::Escape);
    let p = route_key(InputMode::Cjk, b',' as u32, 0, ctx(true, false, false)).action;
    assert_eq!(p, KeyAction::CommitTopAndPass);
    assert!(!p.consumed(true));
}

#[test]
fn hyphen_extends_japanese_composition_only() {
    assert_eq!(route_key(InputMode::Cjk, b'-' as u32, 0, ctx(true, false, true)).action, KeyAction::Feed(b'-'));
    assert_eq!(route_key(InputMode::Cjk, b'-' as u32, 0, ctx(true, false, false)).action, KeyAction::CommitTopAndPass);
}

#[test]
fn non_letters_drop_showing_predictions() {
    let r = route_key(InputMode::Cjk, b'.' as u32, 0, ctx(false, true, false));
    assert!(r.cancel_predictions);
    assert_eq!(r.action, KeyAction::PassThrough);
    assert!(!route_key(InputMode::Cjk, b'.' as u32, 0, ctx(true, true, false)).cancel_predictions);
}

#[test]
fn mode_switch_commits_raw_only_from_composing_cjk() {
    assert_eq!(mode_switch(InputMode::Cjk, InputMode::Cjk, true), ModeSwitch::Stay);
    assert_eq!(mode_switch(InputMode::Cjk, InputMode::En, true), ModeSwitch::CommitRawThenSwitch);
    assert_eq!(mode_switch(InputMode::Cjk, InputMode::En, false), ModeSwitch::Switch);
    assert_eq!(mode_switch(InputMode::En, InputMode::Cjk, true), ModeSwitch::Switch);
}

#[test]
fn pending_commits_concatenate() {
    let mut p: Option<String> = None;
    append_pending(&mut p, "你".to_string());
    append_pending(&mut p, "好".to_string());
    assert_eq!(p.as_deref(), Some("你好"));
}

const CP_RETURN: u32 = 0x0D;
const CP_SPACE: u32 = 0x20;
const MOD_CTRL: u32 = 1 << 1;
const MOD_CMD: u32 = 1 << 3;

fn idle() -> KeyContext {
    ctx(false, false, false)
}

fn showing_predictions() -> KeyContext {
    ctx(false, true, false)
}

fn passes_through(mode: InputMode, cp: u32, modifiers: u32, c: KeyContext) -> bool {
    let r = route_key(mode, cp, modifiers, c);
    r.action == KeyAction::PassThrough && !r.action.consumed(c.composing)
}

#[test]
fn digit_when_not_composing_passes_through() {
    assert!(passes_through(InputMode::Cjk, b'5' as u32, 0, idle()));
}

#[test]
fn cmd_combo_passes_through() {
    assert!(passes_through(InputMode::Cjk, b'c' as u32, 1 << 3, idle()));
    assert!(passes_through(InputMode::Cjk, b'a' as u32, 1 << 1, idle()));
}

#[test]
fn space_when_not_composing_passes_through() {
    assert!(passes_through(InputMode::Cjk, CP_SPACE, 0, idle()));
}

#[test]
fn en_mode_consumes_no_keys() {
    for cp in b"hello world! 12,3.45" {
        assert!(passes_through(InputMode::En, *cp as u32, 0, idle()), "letter/digit/punct should passthrough");
    }
    assert!(passes_through(InputMode::En, CP_RETURN, 0, idle()));
    assert!(passes_through(InputMode::En, 0x08, 0, idle()));
    assert!(passes_through(InputMode::En, 0x1B, 0, idle()));
    assert!(passes_through(InputMode::En, b'c' as u32, MOD_CMD, idle()));
    assert!(passes_through(InputMode::En, b'a' as u32, MOD_CTRL, idle()));
}

#[test]
fn cjk_return_without_preedit_passes_through() {
    assert!(passes_through(InputMode::Cjk, CP_RETURN, 0, idle()));
}

#[test]
fn cjk_tab_with_preedit_is_swallowed() {
    let r = route_key(InputMode::Cjk, 0x09, 0, ctx(true, false, false));
    assert_eq!(r.action, KeyAction::Swallow);
    assert!(r.action.consumed(true));
}

#[test]
fn cjk_tab_without_preedit_passes_through() {
    assert!(passes_through(InputMode::Cjk, 0x09, 0, idle()));
}

#[test]
fn chouonpu_hyphen_falls_through_when_not_jp_composing() {
    assert!(passes_through(InputMode::Cjk, b'-' as u32, 0, idle()), "`-` must NOT be consumed when no engine is composing");
}

#[test]
fn chouonpu_hyphen_extends_jp_composition() {
    let r = route_key(InputMode::Cjk, b'-' as u32, 0, ctx(true, false, true));
    assert_eq!(r.action, KeyAction::Feed(b'-'));
    assert!(r.action.consumed(true));
}

#[test]
fn digit_cancels_predictions() {
    let r = route_key(InputMode::Cjk, b'1' as u32, 0, showing_predictions());
    assert!(!r.action.consumed(false), "digit with no composing buffer should pass through to host");
    assert!(r.cancel_predictions, "digit must cancel 联想 predictions");
}

#[test]
fn punct_cancels_predictions() {
    let r = route_key(InputMode::Cjk, b'.' as u32, 0, showing_predictions());
    assert!(!r.action.consumed(false));
    assert!(r.cancel_predictions);
}

#[test]
fn space_cancels_predictions() {
    let r = route_key(InputMode::Cjk, b' ' as u32, 0, showing_predictions());
    assert!(!r.action.consumed(false));
    assert!(r.cancel_predictions);
}

#[test]
fn enter_cancels_predictions() {
    let r = route_key(InputMode::Cjk, 0x0D, 0, showing_predictions());
    assert!(!r.action.consumed(false));
    assert!(r.cancel_predictions);
}

#[test]
fn escape_cancels_predictions() {
    assert!(route_key(InputMode::Cjk, 0x1B, 0, showing_predictions()).cancel_predictions);
}

#[test]
fn backspace_cancels_predictions() {
    assert!(route_key(InputMode::Cjk, 0x08, 0, showing_predictions()).cancel_predictions);
}

#[test]
fn tab_cancels_predictions() {
    assert!(route_key(InputMode::Cjk, 0x09, 0, showing_predictions()).cancel_predictions);
}

#[test]
fn arrow_key_codepoint_cancels_predictions() {
    assert!(route_key(InputMode::Cjk, 0xF702, 0, showing_predictions()).cancel_predictions);
}

#[test]
fn letter_does_not_eagerly_cancel_predictions() {
    let r = route_key(InputMode::Cjk, b'n' as u32, 0, showing_predictions());
    assert!(r.action.consumed(false), "letter should be consumed");
    assert!(!r.cancel_predictions);
    assert_eq!(r.action, KeyAction::Feed(b'n'));
}

#[test]
fn ctrl_modifier_short_circuits_guard() {
    let r = route_key(InputMode::Cjk, b'c' as u32, MOD_CTRL, showing_predictions());
    assert!(!r.action.consumed(false), "Ctrl+c should fall through to host");
    assert!(!r.cancel_predictions, "Ctrl modifier must short-circuit before the cancel guard");
    let r = route_key(InputMode::Cjk, b'c' as u32, MOD_CMD, showing_predictions());
    assert!(!r.action.consumed(false), "Cmd+c should fall through to host");
    assert!(!r.cancel_predictions, "Cmd modifier must short-circuit before the cancel guard");
}

#[test]
fn guard_no_op_when_no_predictions() {
    assert!(passes_through(InputMode::Cjk, b'1' as u32, 0, idle()), "digit at fresh state passes through");
    assert!(!route_key(InputMode::Cjk, b'1' as u32, 0, idle()).cancel_predictions);
}
