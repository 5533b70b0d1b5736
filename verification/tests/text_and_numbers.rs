use ulla_site::numbers::{i32_to_string, parse_i32};
use ulla_site::text::{format_date, split_at_byte, text_eq};

#[test]
fn format_date_puts_dots_between_year_month_and_day() {
    assert_eq!(format_date(&"20240115".to_string()), "2024.01.15");
}

#[test]
fn format_date_keeps_whatever_follows_the_month() {
    assert_eq!(format_date(&"2024011".to_string()), "2024.01.1");
    assert_eq!(format_date(&"202401".to_string()), "2024.01.");
    assert_eq!(format_date(&"20240115T10".to_string()), "2024.01.15T10");
}

#[test]
fn format_date_slices_by_bytes() {
    // "ä" takes two bytes, so bytes 4..6 are exactly that character.
    assert_eq!(format_date(&"2024äx".to_string()), "2024.ä.x");
}

#[test]
fn split_at_byte_splits_by_bytes() {
    assert_eq!(split_at_byte("aäb", 3), ("aä", "b"));
}

#[test]
fn text_eq_compares_texts() {
    assert!(text_eq("eng", "eng"));
    assert!(!text_eq("eng", "en"));
    assert!(!text_eq("de", "DE"));
    assert!(text_eq("", ""));
}

#[test]
fn i32_to_string_matches_to_string() {
    for n in [0, 7, 10, 42, -1, -42, 1000, i32::MAX, i32::MIN] {
        assert_eq!(i32_to_string(n), n.to_string());
    }
}

#[test]
fn parse_i32_accepts_sign_and_digits() {
    assert_eq!(parse_i32("12"), Some(12));
    assert_eq!(parse_i32("+5"), Some(5));
    assert_eq!(parse_i32("-0"), Some(0));
    assert_eq!(parse_i32("007"), Some(7));
    assert_eq!(parse_i32("-2147483648"), Some(i32::MIN));
    assert_eq!(parse_i32("2147483647"), Some(i32::MAX));
}

#[test]
fn parse_i32_rejects_what_parse_rejects() {
    for s in ["", "-", "+", "12a", " 1", "1 ", "2147483648", "-2147483649", "99999999999999999999", "+-1", "٣"] {
        assert_eq!(parse_i32(s), s.parse::<i32>().ok(), "input {:?}", s);
        assert_eq!(parse_i32(s), None);
    }
}

#[test]
fn parse_i32_agrees_with_std_parse() {
    for s in ["0", "-17", "+17", "123456789", "-000", "4294967296", "x", "1_000"] {
        assert_eq!(parse_i32(s), s.parse::<i32>().ok(), "input {:?}", s);
    }
}

#[test]
fn integer_text_reads_back() {
    for n in [0, 1, -1, 31, i32::MAX, i32::MIN] {
        assert_eq!(parse_i32(&i32_to_string(n)), Some(n));
    }
}
