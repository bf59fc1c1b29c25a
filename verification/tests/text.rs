use sand::text::{
    begins_blank, chars_of, join, parse_decimal, same, split_at_char, split_lines, split_words,
    string_of, strip_dots, to_ascii_upper, trim, trim_end,
};

fn strings(parts: &[&str]) -> Vec<String> {
    parts.iter().map(|p| p.to_string()).collect()
}

#[test]
fn chars_and_back() {
    let v = chars_of("aé☃");
    assert_eq!(v, vec!['a', 'é', '☃']);
    assert_eq!(string_of(&v), "aé☃");
    assert_eq!(string_of(&[]), "");
}

#[test]
fn texts_compare_by_content() {
    assert!(same("ab", "ab"));
    assert!(!same("ab", "aB"));
    assert!(!same("", " "));
}

#[test]
fn split_then_join_gives_the_text_back() {
    for s in ["", ".", "a.b", ".a..b.", "nodots"] {
        let parts = split_at_char(s, '.');
        assert_eq!(join(&parts, '.'), s);
    }
    assert_eq!(split_at_char(".a..b", '.'), strings(&["", "a", "", "b"]));
    assert_eq!(split_at_char("", '.'), strings(&[""]));
    assert_eq!(join(&strings(&["x", "y", "z"]), ' '), "x y z");
    assert_eq!(join(&[], '.'), "");
}

#[test]
fn trimming_follows_unicode_white_space() {
    assert_eq!(trim(" \t a b \u{a0}\u{3000}"), "a b");
    assert_eq!(trim_end(" \t a b \u{2028}"), " \t a b");
    assert_eq!(trim("\u{200b}x"), "\u{200b}x");
    assert_eq!(trim("   "), "");
    assert!(begins_blank("\u{85}x"));
    assert!(!begins_blank("x "));
    assert!(!begins_blank(""));
}

#[test]
fn trimming_agrees_with_the_standard_library() {
    for c in 0..0x3100u32 {
        if let Some(c) = char::from_u32(c) {
            let s = format!("{c}a{c}");
            assert_eq!(trim(&s), s.trim());
            assert_eq!(trim_end(&s), s.trim_end());
        }
    }
}

#[test]
fn trailing_dots_are_stripped() {
    assert_eq!(strip_dots("example.com.."), "example.com");
    assert_eq!(strip_dots("."), "");
    assert_eq!(strip_dots(".a"), ".a");
}

#[test]
fn words_are_runs_without_white_space() {
    assert_eq!(split_words("  a\tbc  d "), strings(&["a", "bc", "d"]));
    assert_eq!(split_words(" \t "), strings(&[]));
    assert_eq!(split_words("one"), strings(&["one"]));
}

#[test]
fn lines_end_at_line_feeds() {
    assert_eq!(split_lines("a\r\nb\n\nc"), strings(&["a", "b", "", "c"]));
    assert_eq!(split_lines("a\n"), strings(&["a"]));
    assert_eq!(split_lines(""), strings(&[]));
    // A carriage return is only dropped before a line feed.
    assert_eq!(split_lines("a\r"), strings(&["a\r"]));
    assert_eq!(split_lines("a\r\r\n"), strings(&["a\r"]));
}

#[test]
fn ascii_capitals() {
    assert_eq!(to_ascii_upper("aZ9-é"), "AZ9-é");
}

#[test]
fn decimal_numbers() {
    assert_eq!(parse_decimal("0", 255), Some(0));
    assert_eq!(parse_decimal("+7", 255), Some(7));
    assert_eq!(parse_decimal("007", 255), Some(7));
    assert_eq!(parse_decimal("255", 255), Some(255));
    assert_eq!(parse_decimal("256", 255), None);
    assert_eq!(parse_decimal("4294967295", u32::MAX), Some(u32::MAX));
    assert_eq!(parse_decimal("4294967296", u32::MAX), None);
    assert_eq!(parse_decimal("99999999999999999999999", u32::MAX), None);
    for bad in ["", "+", "-1", "1 ", "1a", "++1", "１"] {
        assert_eq!(parse_decimal(bad, u32::MAX), None);
    }
}
