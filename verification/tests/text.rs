use z1::text::{contains, is_blank, is_whitespace, join, parse_i64, push_decimal, push_signed_decimal, same, trim};

fn decimal_of(n: u64) -> String {
    let mut out = String::new();
    push_decimal(&mut out, n);
    out
}

fn signed_of(n: i64) -> String {
    let mut out = String::from("n=");
    push_signed_decimal(&mut out, n);
    out
}

#[test]
fn decimals_have_no_leading_zeros() {
    assert_eq!(decimal_of(0), "0");
    assert_eq!(decimal_of(9), "9");
    assert_eq!(decimal_of(10), "10");
    assert_eq!(decimal_of(1234567890), "1234567890");
    assert_eq!(decimal_of(u64::MAX), u64::MAX.to_string());
}

#[test]
fn signed_decimals_reach_the_ends() {
    assert_eq!(signed_of(-1), "n=-1");
    assert_eq!(signed_of(0), "n=0");
    assert_eq!(signed_of(i64::MIN), format!("n={}", i64::MIN));
    assert_eq!(signed_of(i64::MAX), format!("n={}", i64::MAX));
}

#[test]
fn join_and_same() {
    assert_eq!(join("ab", "cd"), "abcd");
    assert!(same("qwen2", "qwen2"));
    assert!(!same("qwen2", "qwen"));
}

#[test]
fn white_space_is_that_of_char() {
    let mut code: u32 = 0;
    while code <= 0x10FFFF {
        if let Some(c) = char::from_u32(code) {
            assert_eq!(is_whitespace(c), c.is_whitespace());
        }
        code += 1;
    }
}

#[test]
fn trim_takes_both_ends() {
    for s in ["", " ", "\n\t ", "a", "  a b \u{3000}", "\u{a0}x\u{2003}", "x  ", "  x", "\u{200b}x"] {
        assert_eq!(trim(s), s.trim());
        assert_eq!(is_blank(s), s.trim().is_empty());
    }
}

#[test]
fn contains_finds_parts() {
    for (s, part) in [
        ("Hello, Z.1!", "Hello"),
        ("Hello, Z.1!", "Z.1"),
        ("Hello, Z.1!", "Z.2"),
        ("aab", "ab"),
        ("aa", "aaa"),
        ("abc", ""),
        ("", ""),
        ("", "a"),
        ("xyz", "z"),
        ("h\u{e9}llo", "\u{e9}l"),
    ] {
        assert_eq!(contains(s, part), s.contains(part), "{} in {}", part, s);
    }
}

#[test]
fn integers_are_parsed_as_std_does() {
    for s in [
        "", "+", "-", "0", "-0", "+7", "2048", "0002048", " 1", "1 ", "1_000", "9223372036854775807",
        "9223372036854775808", "-9223372036854775808", "-9223372036854775809", "--1", "+-1", "12a",
        "99999999999999999999999999999999999999999999999999", "-1", "\u{664}",
    ] {
        assert_eq!(parse_i64(s), s.parse::<i64>().ok(), "{}", s);
    }
}
