use inputx::input_mode::InputMode;

#[test]
fn default_is_cjk() {
    assert_eq!(InputMode::default(), InputMode::Cjk);
}

#[test]
fn round_trip_u8() {
    for m in [InputMode::Cjk, InputMode::En] {
        assert_eq!(InputMode::from_u8(m.as_u8()), Some(m));
    }
    assert_eq!(InputMode::from_u8(99), None);
}

#[test]
fn toggle_round_trip() {
    assert_eq!(InputMode::Cjk.toggle(), InputMode::En);
    assert_eq!(InputMode::En.toggle(), InputMode::Cjk);
    assert_eq!(InputMode::Cjk.toggle().toggle(), InputMode::Cjk);
}
