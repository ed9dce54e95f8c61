use intern_str::segment::{compare_bytes, compare_folded, lower_byte};
use intern_str::{CaseInsensitive, Segmentable};
use std::cmp::Ordering;

#[test]
fn str_split_and_len() {
    assert_eq!(Segmentable::split("hello", 2), Some(("he", "llo")));
    assert_eq!(Segmentable::split("hello", 5), Some(("hello", "")));
    assert_eq!(Segmentable::split("hello", 6), None);
    assert_eq!(Segmentable::len(&"hello"), 5);
    assert!(Segmentable::is_empty(&""));
    // Not on a character boundary.
    assert_eq!(Segmentable::split("\u{e9}a", 1), None);
    assert_eq!(Segmentable::split("\u{e9}a", 2), Some(("\u{e9}", "a")));
}

#[test]
fn bytes_split() {
    let b: &[u8] = b"abc";
    assert_eq!(Segmentable::split(b, 1), Some((&b"a"[..], &b"bc"[..])));
    assert_eq!(Segmentable::split(b, 4), None);
}

#[test]
fn case_insensitive_compare_and_split() {
    let a = CaseInsensitive("ABC");
    let b = CaseInsensitive("abd");
    assert_eq!(a.compare(&b), Ordering::Less);
    assert_eq!(CaseInsensitive("Red").compare(&CaseInsensitive("rED")), Ordering::Equal);
    let (x, y) = Segmentable::split(CaseInsensitive("HeLLo"), 2).unwrap();
    assert_eq!(x.0, "He");
    assert_eq!(y.0, "LLo");
}

#[test]
fn byte_orders() {
    assert_eq!(compare_bytes(b"ab", b"abc"), Ordering::Less);
    assert_eq!(compare_bytes(b"b", b"abc"), Ordering::Greater);
    assert_eq!(compare_bytes(b"", b""), Ordering::Equal);
    assert_eq!(compare_folded(b"ABC", b"abc"), Ordering::Equal);
    assert_eq!(compare_folded(b"Z", b"a"), Ordering::Greater);
    assert_eq!(lower_byte(b'Q'), b'q');
    assert_eq!(lower_byte(b'['), b'[');
}

#[test]
fn case_insensitive_from() {
    let k: CaseInsensitive<&str> = CaseInsensitive::from("MiXeD");
    assert_eq!(k.0, "MiXeD");
    assert!(k == CaseInsensitive("mixed"));
}

#[test]
fn case_insensitive_deref() {
    let mut k = CaseInsensitive("Abc");
    assert_eq!(k.len(), 3);
    assert_eq!(*k, "Abc");
    *k = "xyz";
    assert_eq!(k.0, "xyz");
}
