use ceph_doctor::monitor::data::text::{
    blank, next_separator, parse_i32, parse_i32_between, starts_with, trim, trim_bounds,
    white_space,
};

fn chars(text: &str) -> Vec<char> {
    text.chars().collect()
}

#[test]
fn blank_space_is_what_the_language_calls_it() {
    let mut code = 0u32;
    while code <= 0x3100 {
        if let Some(c) = char::from_u32(code) {
            assert_eq!(white_space(c), c.is_whitespace(), "U+{code:04X}");
        }
        code += 1;
    }
    assert!(!white_space('\u{feff}'));
    assert!(!white_space('\u{10ffff}'));
}

#[test]
fn blank_texts_hold_blank_space_only() {
    assert!(blank(&chars("")));
    assert!(blank(&chars(" \t\r\n")));
    assert!(blank(&chars("\u{a0}\u{3000}")));
    assert!(!blank(&chars("  x ")));
    assert!(!blank(&chars("x")));
}

#[test]
fn trim_cuts_blank_space_at_both_ends() {
    assert_eq!(trim("  a b \n"), "a b");
    assert_eq!(trim("a b"), "a b");
    assert_eq!(trim(""), "");
    assert_eq!(trim(" \t "), "");
    assert_eq!(trim("\n\nx"), "x");
    assert_eq!(trim("x\n\n"), "x");
    assert_eq!(trim(" é ✓ "), "é ✓");
    assert_eq!(trim_bounds(&chars("  a b \n")), (2, 5));
    assert_eq!(trim_bounds(&chars("   ")), (0, 0));
    assert_eq!(trim_bounds(&chars("")), (0, 0));
    assert_eq!(trim_bounds(&chars("ab")), (0, 2));
}

#[test]
fn trim_is_the_trim_of_strings() {
    for text in ["", " ", "a", " a", "a ", " a b ", "\t\u{85}x\u{2003}y\u{2028}", "\u{feff}a "] {
        assert_eq!(trim(text), text.trim(), "{text:?}");
    }
}

#[test]
fn the_next_separator_is_found_from_a_place_on() {
    let text = chars("ab|c||d");
    assert_eq!(next_separator(&text, '|', 0), 2);
    assert_eq!(next_separator(&text, '|', 2), 2);
    assert_eq!(next_separator(&text, '|', 3), 4);
    assert_eq!(next_separator(&text, '|', 5), 5);
    assert_eq!(next_separator(&text, '|', 6), 7);
    assert_eq!(next_separator(&text, '|', 7), 7);
    assert_eq!(next_separator(&chars(""), '|', 0), 0);
}

#[test]
fn whole_numbers_are_read() {
    assert_eq!(parse_i32("0"), Some(0));
    assert_eq!(parse_i32("7"), Some(7));
    assert_eq!(parse_i32("-1"), Some(-1));
    assert_eq!(parse_i32("+15"), Some(15));
    assert_eq!(parse_i32("0042"), Some(42));
    assert_eq!(parse_i32("-0"), Some(0));
    assert_eq!(parse_i32("2147483647"), Some(i32::MAX));
    assert_eq!(parse_i32("-2147483648"), Some(i32::MIN));
    assert_eq!(parse_i32("000000000000000000002147483647"), Some(i32::MAX));
}

#[test]
fn what_is_no_whole_number_is_refused() {
    assert_eq!(parse_i32(""), None);
    assert_eq!(parse_i32("-"), None);
    assert_eq!(parse_i32("+"), None);
    assert_eq!(parse_i32("--1"), None);
    assert_eq!(parse_i32("+-1"), None);
    assert_eq!(parse_i32("1-"), None);
    assert_eq!(parse_i32(" 1"), None);
    assert_eq!(parse_i32("1 "), None);
    assert_eq!(parse_i32("1.0"), None);
    assert_eq!(parse_i32("12a"), None);
    assert_eq!(parse_i32("a12"), None);
    assert_eq!(parse_i32("٣"), None);
    assert_eq!(parse_i32("2147483648"), None);
    assert_eq!(parse_i32("-2147483649"), None);
    assert_eq!(parse_i32("99999999999999999999999999"), None);
    assert_eq!(parse_i32("-99999999999999999999999999"), None);
}

#[test]
fn whole_numbers_are_read_as_the_language_reads_them() {
    for text in [
        "", "0", "-0", "+0", "1", "-1", "+1", "12", "0012", "2147483647", "2147483648",
        "-2147483648", "-2147483649", "+2147483647", "10000000000", "1e3", "0x10", "١٢", "-",
        "+", " 5", "5 ", "--5", "1_000",
    ] {
        assert_eq!(parse_i32(text), text.parse::<i32>().ok(), "{text:?}");
    }
}

#[test]
fn a_number_is_read_from_a_part_of_a_text() {
    let text = chars("ab|-12|cd");
    assert_eq!(parse_i32_between(&text, 3, 6), Some(-12));
    assert_eq!(parse_i32_between(&text, 4, 6), Some(12));
    assert_eq!(parse_i32_between(&text, 3, 4), None);
    assert_eq!(parse_i32_between(&text, 3, 3), None);
    assert_eq!(parse_i32_between(&text, 0, 2), None);
}

#[test]
fn a_text_begins_with_its_prefix() {
    assert!(starts_with(&chars("CommandError:x"), &chars("CommandError:")));
    assert!(starts_with(&chars("CommandError:"), &chars("CommandError:")));
    assert!(!starts_with(&chars("CommandError"), &chars("CommandError:")));
    assert!(!starts_with(&chars(" CommandError:"), &chars("CommandError:")));
    assert!(starts_with(&chars("abc"), &chars("")));
    assert!(starts_with(&chars(""), &chars("")));
}
