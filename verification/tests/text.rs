use crap_cache::text::{ascii_bytes, contains, find_byte, parse_usize, push_decimal, same_bytes};

#[test]
fn finds_a_substring() {
    assert!(contains(b"max-age=0, no-cache", b"no-cache"));
    assert!(contains(b"no-cache, max-age=0", b"no-cache"));
    assert!(contains(b"no-cache", b"no-cache"));
    assert!(contains(b"anything", b""));
    assert!(contains(b"", b""));
}

#[test]
fn misses_what_is_not_a_substring() {
    assert!(!contains(b"No-Cache", b"no-cache"));
    assert!(!contains(b"no-cach", b"no-cache"));
    assert!(!contains(b"no- cache", b"no-cache"));
    assert!(!contains(b"", b"no-cache"));
}

#[test]
fn reads_decimal_numbers() {
    assert_eq!(parse_usize(b"0"), Some(0));
    assert_eq!(parse_usize(b"+12"), Some(12));
    assert_eq!(parse_usize(b"0042"), Some(42));
    let most = usize::MAX.to_string();
    assert_eq!(parse_usize(most.as_bytes()), Some(usize::MAX));
}

#[test]
fn refuses_other_numbers() {
    for text in ["", "+", "-1", "-0", "1.0", " 1", "1 ", "1_0", "0x10", "++1"] {
        assert_eq!(parse_usize(text.as_bytes()), None);
        assert!(text.parse::<usize>().is_err());
    }
    let more = format!("{}0", usize::MAX);
    assert_eq!(parse_usize(more.as_bytes()), None);
    assert_eq!(parse_usize(b"18446744073709551616"), None);
}

#[test]
fn writes_decimal_numbers() {
    for n in [0, 7, 10, 80, 443, 8080, 65535] {
        let mut text = String::from(":");
        push_decimal(&mut text, n);
        assert_eq!(text, format!(":{}", n));
    }
}

#[test]
fn compares_and_searches_bytes() {
    assert!(same_bytes(b"abc", ascii_bytes("abc")));
    assert!(!same_bytes(b"abc", b"abd"));
    assert!(!same_bytes(b"abc", b"ab"));
    assert_eq!(find_byte(b"a:b:c", b':'), 1);
    assert_eq!(find_byte(b"abc", b':'), 3);
}
