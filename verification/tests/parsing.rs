use mean_by_key::cheat_split_once;
use mean_by_key::parse_number;

#[test]
fn split_at_delimiter() {
    let (k, v) = cheat_split_once(b"Hamburg;12.0", b';').expect("record splits");
    assert_eq!(k, &b"Hamburg"[..]);
    assert_eq!(v, &b"12.0"[..]);
}

#[test]
fn split_takes_rightmost_delimiter() {
    let (k, v) = cheat_split_once(b"a;b;2.0", b';').expect("record splits");
    assert_eq!(k, &b"a;b"[..]);
    assert_eq!(v, &b"2.0"[..]);
}

#[test]
fn split_without_delimiter_is_refused() {
    assert!(cheat_split_once(b"abc", b';').is_err());
    assert!(cheat_split_once(b"", b';').is_err());
}

#[test]
fn split_with_empty_key_is_refused() {
    assert!(cheat_split_once(b";5.0", b';').is_err());
    assert!(cheat_split_once(b";", b';').is_err());
}

#[test]
fn number_plain() {
    assert_eq!(parse_number(b"12.0"), Some(1200));
    assert_eq!(parse_number(b"7"), Some(700));
    assert_eq!(parse_number(b"0.5"), Some(50));
    assert_eq!(parse_number(b"0.05"), Some(5));
}

#[test]
fn number_negative() {
    assert_eq!(parse_number(b"-2.5"), Some(-250));
    assert_eq!(parse_number(b"-0.01"), Some(-1));
}

#[test]
fn number_extra_fraction_digits_ignored() {
    assert_eq!(parse_number(b"1.234"), Some(123));
    assert_eq!(parse_number(b"1.239"), Some(123));
}

#[test]
fn number_bad_shapes_refused() {
    assert_eq!(parse_number(b""), None);
    assert_eq!(parse_number(b"-"), None);
    assert_eq!(parse_number(b".5"), None);
    assert_eq!(parse_number(b"5."), None);
    assert_eq!(parse_number(b"1.2.3"), None);
    assert_eq!(parse_number(b"1e5"), None);
    assert_eq!(parse_number(b"+3"), None);
    assert_eq!(parse_number(b"12 "), None);
}

#[test]
fn number_out_of_range_refused() {
    assert_eq!(parse_number(b"99999999999999999999"), None);
    // the largest magnitude that still fits is i64::MAX hundredths
    assert_eq!(parse_number(b"92233720368547758.07"), Some(i64::MAX));
    assert_eq!(parse_number(b"92233720368547758.08"), None);
    assert_eq!(parse_number(b"-92233720368547758.07"), Some(-i64::MAX));
}
