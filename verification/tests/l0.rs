use inputx::l0::{weight_to_boost, L0Store, OpenError, HEADER_SIZE, MAGIC};

#[test]
fn empty_store_serializes_to_header_only() {
    let s = L0Store::new();
    let bytes = s.to_bytes();
    assert_eq!(bytes.len(), HEADER_SIZE);
    assert_eq!(&bytes[0..4], &MAGIC);
    assert_eq!(&bytes[8..12], &[0u8; 4]);
}

#[test]
fn pin_then_boost_round_trip() {
    let mut s = L0Store::new();
    s.pin("jixu", "继续", 100);
    s.pin("shinjuku", "新宿", 50);
    assert_eq!(s.boost("jixu", "继续"), Some(weight_to_boost(100)));
    assert_eq!(s.boost("shinjuku", "新宿"), Some(weight_to_boost(50)));
    assert_eq!(s.boost("missing", "x"), None);
}

#[test]
fn pin_higher_weight_overrides_lower() {
    let mut s = L0Store::new();
    s.pin("ni", "你", 50);
    s.pin("ni", "你", 100);
    assert_eq!(s.boost("ni", "你"), Some(weight_to_boost(100)));
}

#[test]
fn pin_lower_weight_does_not_regress() {
    let mut s = L0Store::new();
    s.pin("ni", "你", 100);
    s.pin("ni", "你", 50);
    assert_eq!(s.boost("ni", "你"), Some(weight_to_boost(100)));
}

#[test]
fn forget_removes_pin() {
    let mut s = L0Store::new();
    s.pin("ni", "你", 100);
    assert!(s.boost("ni", "你").is_some());
    s.forget("ni", "你");
    assert_eq!(s.boost("ni", "你"), None);
}

#[test]
fn reset_clears_all() {
    let mut s = L0Store::new();
    s.pin("a", "1", 10);
    s.pin("b", "2", 20);
    s.pin("c", "3", 30);
    assert_eq!(s.len(), 3);
    s.reset();
    assert!(s.is_empty());
}

#[test]
fn round_trip_to_bytes_preserves_entries() {
    let mut s = L0Store::new();
    s.pin("jixu", "继续", 100);
    s.pin("shinjuku", "新宿", 50);
    s.pin("ggg", "王", 75);
    let bytes = s.to_bytes();
    let s2 = L0Store::from_bytes(&bytes).unwrap();
    assert_eq!(s2.len(), 3);
    assert_eq!(s2.boost("jixu", "继续"), Some(weight_to_boost(100)));
    assert_eq!(s2.boost("shinjuku", "新宿"), Some(weight_to_boost(50)));
    assert_eq!(s2.boost("ggg", "王"), Some(weight_to_boost(75)));
}

#[test]
fn from_bytes_rejects_wrong_magic() {
    let mut bad = MAGIC.to_vec();
    bad[0] = b'X';
    bad.extend_from_slice(&0u32.to_le_bytes());
    bad.extend_from_slice(&0u32.to_le_bytes());
    match L0Store::from_bytes(&bad) {
        Err(OpenError::BadMagic) => (),
        other => panic!("expected BadMagic, got {:?}", other.map(|s| s.len())),
    }
}

#[test]
fn open_or_empty_bytes_hard_resets_on_wrong_magic() {
    let old_json = br#"{"version":1,"pins":[]}"#;
    let s = L0Store::open_or_empty_bytes(old_json);
    assert!(s.is_empty(), "hard reset should produce empty store");
}

#[test]
fn open_or_empty_bytes_hard_resets_on_truncated() {
    let mut s = L0Store::new();
    s.pin("ni", "你", 100);
    let mut bytes = s.to_bytes();
    bytes.truncate(bytes.len() - 1);
    let s2 = L0Store::open_or_empty_bytes(&bytes);
    assert!(s2.is_empty(), "truncated → empty");
}

#[test]
fn iter_is_deterministic_sorted_order() {
    let mut s = L0Store::new();
    s.pin("z", "Z", 1);
    s.pin("a", "A", 1);
    s.pin("m", "M", 1);
    let all = s.iter();
    let v: Vec<&str> = all.iter().map(|(c, _, _)| c.as_str()).collect();
    assert_eq!(v, vec!["a", "m", "z"]);
}

#[test]
fn weight_to_boost_scales_linearly() {
    assert_eq!(weight_to_boost(0), 0);
    assert_eq!(weight_to_boost(100), weight_to_boost(50) * 2);
}

#[test]
fn from_bytes_rejects_too_short() {
    assert!(matches!(L0Store::from_bytes(&[0u8; 5]), Err(OpenError::TooShort)));
}

#[test]
fn two_serializations_are_identical() {
    let mut s = L0Store::new();
    s.pin("z", "末", 30);
    s.pin("a", "始", 100);
    s.pin("m", "中", 50);
    assert_eq!(s.to_bytes(), s.to_bytes());
}
