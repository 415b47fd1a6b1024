use portmark::{parse_u32, trim_str, u32_decimal};

#[test]
fn trim_leaves_a_plain_word_alone() {
    assert_eq!(trim_str("hello"), "hello");
}

#[test]
fn trim_removes_surrounding_whitespace() {
    assert_eq!(trim_str("  hello  "), "hello");
}

#[test]
fn trim_keeps_inner_whitespace() {
    assert_eq!(trim_str("\t\nhello world\r\n"), "hello world");
}

#[test]
fn trim_of_empty_is_empty() {
    assert_eq!(trim_str(""), "");
}

#[test]
fn trim_of_whitespace_only_is_empty() {
    assert_eq!(trim_str(" \t\r\n "), "");
}

#[test]
fn trim_handles_unicode_whitespace() {
    assert_eq!(trim_str("\u{3000}\u{00A0}hi\u{2028}"), "hi");
}

#[test]
fn parse_reads_a_decimal_number() {
    assert_eq!(parse_u32("42"), Some(42));
}

#[test]
fn parse_accepts_leading_zeros() {
    assert_eq!(parse_u32("007"), Some(7));
}

#[test]
fn parse_accepts_the_largest_value() {
    assert_eq!(parse_u32("4294967295"), Some(u32::MAX));
}

#[test]
fn parse_rejects_a_value_past_the_largest() {
    assert_eq!(parse_u32("4294967296"), None);
}

#[test]
fn parse_rejects_the_empty_string() {
    assert_eq!(parse_u32(""), None);
}

#[test]
fn parse_rejects_trailing_junk() {
    assert_eq!(parse_u32("12a"), None);
}

#[test]
fn parse_rejects_a_sign() {
    assert_eq!(parse_u32("+42"), None);
    assert_eq!(parse_u32("-42"), None);
}

#[test]
fn parse_rejects_inner_whitespace() {
    assert_eq!(parse_u32("4 2"), None);
}

#[test]
fn decimal_writes_plain_numbers() {
    assert_eq!(u32_decimal(0), "0");
    assert_eq!(u32_decimal(7), "7");
    assert_eq!(u32_decimal(42), "42");
    assert_eq!(u32_decimal(4205), "4205");
    assert_eq!(u32_decimal(u32::MAX), "4294967295");
}

#[test]
fn decimal_writing_parses_back() {
    for v in [0, 1, 9, 10, 99, 100, 65535, u32::MAX] {
        assert_eq!(parse_u32(&u32_decimal(v)), Some(v));
    }
}
