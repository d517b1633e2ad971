use inputx::fsa::builder::Builder;
use inputx::fsa::dict::Dict;
use inputx::fsa::dict_build::DictBuilder;
use inputx::fsa::reader::{Fsa, FsaError};

fn build(pairs: &[(&[u8], u64)]) -> Vec<u8> {
    let mut b = Builder::new();
    for &(k, v) in pairs {
        b.insert(k, v);
    }
    b.finish()
}

#[test]
fn empty() {
    let fsa = Fsa::new(build(&[])).unwrap();
    assert_eq!(fsa.get(b"anything"), None);
    assert_eq!(fsa.len(), 0);
    assert!(fsa.is_empty());
}

#[test]
fn basic_get() {
    let fsa = Fsa::new(build(&[(b"a", 1), (b"ab", 2), (b"ac", 3), (b"b", 4)])).unwrap();
    assert_eq!(fsa.get(b"a"), Some(1));
    assert_eq!(fsa.get(b"ab"), Some(2));
    assert_eq!(fsa.get(b"ac"), Some(3));
    assert_eq!(fsa.get(b"b"), Some(4));
    assert_eq!(fsa.get(b"c"), None);
    assert_eq!(fsa.get(b"abc"), None);
    assert_eq!(fsa.get(b""), None);
    assert_eq!(fsa.len(), 4);
}

#[test]
fn empty_key_member() {
    let fsa = Fsa::new(build(&[(b"", 7), (b"x", 9)])).unwrap();
    assert_eq!(fsa.get(b""), Some(7));
    assert_eq!(fsa.get(b"x"), Some(9));
}

#[test]
fn shared_suffix_minimization() {
    let fsa = Fsa::new(build(&[(b"nation", 1), (b"ration", 2), (b"station", 3)])).unwrap();
    assert_eq!(fsa.get(b"nation"), Some(1));
    assert_eq!(fsa.get(b"ration"), Some(2));
    assert_eq!(fsa.get(b"station"), Some(3));
    assert_eq!(fsa.get(b"ation"), None);
}

#[test]
fn prefix_scan() {
    let fsa = Fsa::new(build(&[(b"a", 1), (b"ab", 2), (b"ac", 3), (b"b", 4)])).unwrap();
    assert_eq!(fsa.prefix(b"a"), vec![(b"a".to_vec(), 1), (b"ab".to_vec(), 2), (b"ac".to_vec(), 3)]);
    assert_eq!(fsa.prefix(b"b"), vec![(b"b".to_vec(), 4)]);
    assert_eq!(fsa.prefix(b"z"), Vec::<(Vec<u8>, u64)>::new());
    assert_eq!(fsa.prefix(b"").len(), 4);
    assert!(fsa.contains_prefix(b"a"));
    assert!(!fsa.contains_prefix(b"z"));
}

#[test]
fn lazy_iter() {
    let fsa = Fsa::new(build(&[(b"a", 1), (b"ab", 2), (b"ac", 3), (b"b", 4)])).unwrap();
    let mut it = fsa.iter();
    let mut got = Vec::new();
    while let Some(x) = it.next() {
        got.push(x);
    }
    assert_eq!(got, fsa.prefix(b""));
    let mut r = fsa.range(b"a");
    let mut ranged = Vec::new();
    while let Some(x) = r.next() {
        ranged.push(x);
    }
    assert_eq!(ranged, fsa.prefix(b"a"));
    let mut r = fsa.range(b"a");
    assert_eq!(r.next(), Some((b"a".to_vec(), 1)));
    assert_eq!(r.next(), Some((b"ab".to_vec(), 2)));
    let mut it = fsa.iter();
    let mut found = None;
    while let Some((k, v)) = it.next() {
        if k == b"ac" {
            found = Some((k, v));
            break;
        }
    }
    assert_eq!(found, Some((b"ac".to_vec(), 3)));
    assert_eq!(fsa.range(b"z").next(), None);
}

#[test]
fn wide_alphabet_single_state() {
    let pairs: Vec<(Vec<u8>, u64)> = (0u16..256).map(|b| (vec![b as u8], u64::from(b))).collect();
    let mut bld = Builder::new();
    for (k, v) in &pairs {
        bld.insert(k, *v);
    }
    let fsa = Fsa::new(bld.finish()).unwrap();
    assert_eq!(fsa.len(), 256);
    for (k, v) in &pairs {
        assert_eq!(fsa.get(k), Some(*v));
    }
}

#[test]
fn value_widths() {
    for &maxv in &[0xFFu64, 0xFFFF, 0xFFFF_FFFF, 0xFFFF_FFFF_FF] {
        let fsa = Fsa::new(build(&[(b"lo", 0), (b"hi", maxv)])).unwrap();
        assert_eq!(fsa.get(b"hi"), Some(maxv));
        assert_eq!(fsa.get(b"lo"), Some(0));
    }
}

#[test]
fn duplicate_key_last_wins() {
    let fsa = Fsa::new(build(&[(b"k", 1), (b"k", 2), (b"k", 3)])).unwrap();
    assert_eq!(fsa.get(b"k"), Some(3));
    assert_eq!(fsa.len(), 1);
}

#[test]
fn rejects_bad_buffers() {
    assert!(matches!(Fsa::new(Vec::new()), Err(FsaError::Truncated)));
    assert!(matches!(Fsa::new(b"XXXX...............".to_vec()), Err(FsaError::BadMagic)));
    let mut bad = b"IXFA".to_vec();
    bad.push(99);
    bad.extend(std::iter::repeat(0u8).take(20));
    assert!(matches!(Fsa::new(bad), Err(FsaError::BadVersion(99))));
}

#[test]
fn keys_with_zero_and_high_bytes() {
    let fsa = Fsa::new(build(&[(b"\x00", 1), (b"\x00\xff", 2), (b"\xff", 3), (b"a\x00b", 4)])).unwrap();
    assert_eq!(fsa.get(b"\x00"), Some(1));
    assert_eq!(fsa.get(b"\x00\xff"), Some(2));
    assert_eq!(fsa.get(b"\xff"), Some(3));
    assert_eq!(fsa.get(b"a\x00b"), Some(4));
    assert_eq!(fsa.get(b"\x00\x00"), None);
    assert_eq!(fsa.prefix(b"\x00").len(), 2);
}

#[test]
fn basic() {
    let mut b = DictBuilder::new();
    b.insert(b"wo", "我".as_bytes(), 100);
    b.insert(b"wo", "握".as_bytes(), 40);
    b.insert(b"women", "我们".as_bytes(), 90);
    let dict = Dict::new(b.finish()).unwrap();
    assert_eq!(dict.get(b"wo"), vec![("我".as_bytes().to_vec(), 100), ("握".as_bytes().to_vec(), 40)]);
    assert_eq!(dict.get(b"women"), vec![("我们".as_bytes().to_vec(), 90)]);
    assert_eq!(dict.get(b"nope"), Vec::<(Vec<u8>, u64)>::new());
    assert_eq!(dict.len(), 2);
    let pre = dict.prefix(b"wo");
    assert_eq!(pre.len(), 3);
    assert_eq!(pre[0].0, b"wo");
    assert!(dict.contains_prefix(b"wom"));
    assert!(!dict.contains_prefix(b"x"));
    assert!(dict.contains_prefix(b""));
    assert!(!dict.contains_prefix(b"womenx"));
}

#[test]
fn dict_small_codes() {
    let mut b = DictBuilder::new();
    b.insert(b"ni", b"you", 5);
    b.insert(b"ni", b"mud", 9);
    b.insert(b"hao", b"good", 3);
    let d = Dict::new(b.finish()).unwrap();
    assert_eq!(d.len(), 2);
    assert_eq!(d.get(b"ni"), vec![(b"mud".to_vec(), 9), (b"you".to_vec(), 5)]);
    assert_eq!(d.get(b"hao"), vec![(b"good".to_vec(), 3)]);
    assert!(d.get(b"zz").is_empty());
    assert_eq!(d.prefix(b"h"), vec![(b"hao".to_vec(), b"good".to_vec(), 3)]);
}
