use letterwords::input::{parse_count, read_count};

#[test]
fn plain_numbers() {
    assert_eq!(parse_count("42"), Some(42));
    assert_eq!(parse_count("0"), Some(0));
    assert_eq!(parse_count("007"), Some(7));
    assert_eq!(parse_count("+5"), Some(5));
}

#[test]
fn largest_count() {
    assert_eq!(parse_count("4294967295"), Some(u32::MAX));
    assert_eq!(parse_count("4294967296"), None);
    assert_eq!(parse_count("99999999999999999999"), None);
    assert_eq!(parse_count("99999999999x"), None);
}

#[test]
fn rejected_text() {
    assert_eq!(parse_count(""), None);
    assert_eq!(parse_count("+"), None);
    assert_eq!(parse_count("-1"), None);
    assert_eq!(parse_count("abc"), None);
    assert_eq!(parse_count("1 2"), None);
    assert_eq!(parse_count(" 3"), None);
    assert_eq!(parse_count("++3"), None);
}

#[test]
fn typed_lines_are_trimmed() {
    assert_eq!(read_count("3\n"), Some(3));
    assert_eq!(read_count("  12 \r\n"), Some(12));
    assert_eq!(read_count("\t+8\u{3000}"), Some(8));
    assert_eq!(read_count("\n"), None);
    assert_eq!(read_count("seven\n"), None);
}

#[test]
fn agrees_with_the_standard_parser() {
    for text in ["1", "+1", "-0", "12a", "", " ", "4294967295", "4294967296", "00", "+", "٣"] {
        assert_eq!(parse_count(text), text.parse::<u32>().ok(), "{:?}", text);
    }
}
