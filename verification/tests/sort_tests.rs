use std::cmp::Ordering;
use mapreduce::sort::{DictComparableString, bytes_to_lower, default_generic_compare,
    dict_string_compare, sane_string_compare};

fn bv(s: &str) -> Vec<u8> {
    s.as_bytes().to_vec()
}

#[test]
fn test_sane_string_compare() {
    let s1 = &bv("");
    let s2 = &bv("0abc");
    let s3 = &bv("123");
    let s4 = &bv("abc");
    let s5 = &bv("Abc");
    let s6 = &bv("ABC");
    let s7 = &bv("aBC");

    assert_eq!(sane_string_compare(s1, s2), Ordering::Less);
    assert_eq!(sane_string_compare(s2, s3), Ordering::Less);
    assert_eq!(sane_string_compare(s3, s2), Ordering::Greater);
    assert_eq!(sane_string_compare(s2, s2), Ordering::Equal);
    assert_eq!(sane_string_compare(s4, s5), Ordering::Less);
    assert_eq!(sane_string_compare(s5, s6), Ordering::Less);
    assert_eq!(sane_string_compare(s6, s7), Ordering::Greater);
}

#[test]
fn test_dict_string_compare() {
    assert_eq!(dict_string_compare(&bv("abc"), &bv("ABC")), Ordering::Equal);
    assert_eq!(dict_string_compare(&bv("abc"), &bv("abd")), Ordering::Less);
    assert_eq!(dict_string_compare(&bv("b"), &bv("AZ")), Ordering::Greater);
    assert_eq!(dict_string_compare(&bv("abc"), &bv("abcd")), Ordering::Less);
    assert_eq!(dict_string_compare(&bv(""), &bv("")), Ordering::Equal);
}

#[test]
fn test_bytes_to_lower() {
    assert_eq!(bytes_to_lower(&bv("AbC xY-9")), bv("abc xy-9"));
    assert_eq!(bytes_to_lower(&bv("")), bv(""));
}

#[test]
fn test_dict_comparable_string() {
    let w = DictComparableString::wrap(bv("Hello"));
    assert_eq!(w.as_ref(), &bv("Hello"));
    let other = DictComparableString::wrap(bv("hello"));
    assert_eq!(w.compare(&other), Ordering::Equal);
    let later = DictComparableString::wrap(bv("world"));
    assert_eq!(w.compare(&later), Ordering::Less);
    assert_eq!(w.unwrap(), bv("Hello"));
}

#[test]
fn test_default_generic_compare() {
    assert_eq!(default_generic_compare(&3i64, &5i64), Ordering::Less);
    assert_eq!(default_generic_compare(&5i64, &5i64), Ordering::Equal);
    assert_eq!(default_generic_compare(&9i64, &5i64), Ordering::Greater);
}
