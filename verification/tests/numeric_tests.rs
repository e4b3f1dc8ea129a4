use redbase::numeric::{is_float, parse_i64};

#[test]
fn test_parse_i64_basic() {
    assert_eq!(parse_i64(b"0"), Some(0));
    assert_eq!(parse_i64(b"42"), Some(42));
    assert_eq!(parse_i64(b"+42"), Some(42));
    assert_eq!(parse_i64(b"-42"), Some(-42));
    assert_eq!(parse_i64(b"007"), Some(7));
    assert_eq!(parse_i64(b"-0"), Some(0));
}

#[test]
fn test_parse_i64_bounds() {
    assert_eq!(parse_i64(b"9223372036854775807"), Some(i64::MAX));
    assert_eq!(parse_i64(b"-9223372036854775808"), Some(i64::MIN));
    assert_eq!(parse_i64(b"9223372036854775808"), None);
    assert_eq!(parse_i64(b"-9223372036854775809"), None);
    assert_eq!(parse_i64(b"99999999999999999999999"), None);
}

#[test]
fn test_parse_i64_rejects() {
    assert_eq!(parse_i64(b""), None);
    assert_eq!(parse_i64(b"+"), None);
    assert_eq!(parse_i64(b"-"), None);
    assert_eq!(parse_i64(b" 1"), None);
    assert_eq!(parse_i64(b"1 "), None);
    assert_eq!(parse_i64(b"1.5"), None);
    assert_eq!(parse_i64(b"12a"), None);
}

#[test]
fn test_parse_i64_agrees_with_std() {
    let cases: [&[u8]; 10] = [
        b"12", b"-3", b"+0", b"00", b"", b"x", b"1e3", b"9223372036854775807",
        b"-9223372036854775808", b"184467440737095516150",
    ];
    for c in cases {
        let std_parse = std::str::from_utf8(c).ok().and_then(|s| s.parse::<i64>().ok());
        assert_eq!(parse_i64(c), std_parse);
    }
}

#[test]
fn test_is_float_basic() {
    assert!(is_float(b"1"));
    assert!(is_float(b"1.5"));
    assert!(is_float(b"1."));
    assert!(is_float(b".5"));
    assert!(is_float(b"-2.5"));
    assert!(is_float(b"+2.5"));
    assert!(is_float(b"1e3"));
    assert!(is_float(b"1.5E-3"));
    assert!(is_float(b"inf"));
    assert!(is_float(b"-Infinity"));
    assert!(is_float(b"NaN"));
}

#[test]
fn test_is_float_rejects() {
    assert!(!is_float(b""));
    assert!(!is_float(b"."));
    assert!(!is_float(b"e3"));
    assert!(!is_float(b"1.x"));
    assert!(!is_float(b"1e"));
    assert!(!is_float(b"1e+"));
    assert!(!is_float(b"one"));
    assert!(!is_float(b"1 "));
}

#[test]
fn test_is_float_agrees_with_std() {
    let cases: [&[u8]; 14] = [
        b"1", b"1.5", b"1.", b".5", b"-2.5e10", b"inf", b"nan", b"INFINITY", b"", b".",
        b"e3", b"1.x", b"1e", b"++1",
    ];
    for c in cases {
        let std_parse = std::str::from_utf8(c)
            .ok()
            .map(|s| s.parse::<f64>().is_ok())
            .unwrap_or(false);
        assert_eq!(is_float(c), std_parse, "case {:?}", c);
    }
}
