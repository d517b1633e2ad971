use inputx::locale::width::{full_width, half_width};
#[test]
fn letters_round_trip() {
    for c in 'a'..='z' {
        let fw = full_width(c).unwrap();
        assert_eq!(half_width(fw), Some(c), "{c} round-trip via {fw}");
    }
    for c in 'A'..='Z' {
        let fw = full_width(c).unwrap();
        assert_eq!(half_width(fw), Some(c));
    }
}

#[test]
fn digits_round_trip() {
    for c in '0'..='9' {
        let fw = full_width(c).unwrap();
        assert_eq!(half_width(fw), Some(c));
    }
}

#[test]
fn known_examples() {
    assert_eq!(full_width('a'), Some('\u{FF41}'));
    assert_eq!(full_width('A'), Some('\u{FF21}'));
    assert_eq!(full_width('5'), Some('\u{FF15}'));
    assert_eq!(full_width('!'), Some('\u{FF01}'));
    assert_eq!(full_width('~'), Some('\u{FF5E}'));
}

#[test]
fn space_special_case() {
    assert_eq!(full_width(' '), Some('\u{3000}'));
    assert_eq!(half_width('\u{3000}'), Some(' '));
}

#[test]
fn non_ascii_returns_none() {
    assert_eq!(full_width('中'), None);
    assert_eq!(full_width('\n'), None);
    assert_eq!(half_width('a'), None);
    assert_eq!(half_width('中'), None);
}
