use kafq::text::{
    decimal_i64, decimal_u64, digits_u64, has_prefix, has_suffix, holds_digits, is_blank,
    parse_i32, parse_u64, same_text, split_once, text_before, trim,
};

#[test]
fn decimals_are_written() {
    assert_eq!(decimal_u64(0), "0");
    assert_eq!(decimal_u64(u64::MAX), "18446744073709551615");
    assert_eq!(decimal_i64(-1), "-1");
    assert_eq!(decimal_i64(i64::MIN), "-9223372036854775808");
    assert_eq!(decimal_i64(1_780_000_000_000), "1780000000000");
}

#[test]
fn written_decimals_are_read_back() {
    for n in [0, 7, 10, 99, 100, 1_780_000_000_000, u64::MAX] {
        let text = decimal_u64(n);
        assert!(holds_digits(&text));
        assert_eq!(digits_u64(&text), Some(n));
        assert_eq!(parse_u64(&text), Ok(n));
    }
    assert_eq!(digits_u64("18446744073709551616"), None);
    assert_eq!(digits_u64("00000000000000000000000001"), Some(1));
}

#[test]
fn written_integers_keep_their_value() {
    for n in [0, -1, 1, i32::MIN, i32::MAX] {
        assert_eq!(parse_i32(&decimal_i64(n.into())), Some(n));
    }
}

#[test]
fn small_integers_are_read_like_the_standard_library_does() {
    for text in [
        "0", "-0", "+5", "2147483647", "2147483648", "-2147483648", "-2147483649", "", "-", "+",
        "1 ", " 1", "1a", "٣", "--1", "00012",
    ] {
        assert_eq!(parse_i32(text), text.parse::<i32>().ok(), "{text:?}");
    }
}

#[test]
fn trimming_follows_the_standard_library() {
    for text in [
        "", " ", "a", " a ", "\t\u{a0}a b\u{3000}\n", "\u{2003}\u{2028}", "\u{200b}", "\u{85}x",
        "\u{1680}é\u{205f}", "a\u{202f}",
    ] {
        assert_eq!(trim(text), text.trim(), "{text:?}");
        assert_eq!(is_blank(text), text.trim().is_empty(), "{text:?}");
    }
}

#[test]
fn every_white_space_character_is_trimmed() {
    for n in 0..0x11_0000u32 {
        if let Some(c) = char::from_u32(n) {
            assert_eq!(kafq::text::is_white_space(c), c.is_whitespace(), "{n:#x}");
        }
    }
}

#[test]
fn texts_are_compared_by_their_bytes() {
    assert!(same_text("é", "é"));
    assert!(!same_text("é", "e"));
    assert!(!same_text("a", "ab"));
    for (a, b) in [("a", "b"), ("a", "ab"), ("Z", "a"), ("z", "é"), ("", "a"), ("b", "a"), ("a", "a")] {
        assert_eq!(text_before(a, b), a < b);
    }
}

#[test]
fn prefixes_and_suffixes() {
    assert!(has_prefix("__consumer", "__"));
    assert!(!has_prefix("_consumer", "__"));
    assert!(!has_prefix("_", "__"));
    assert!(has_suffix("plugin.wasm", ".wasm"));
    assert!(has_suffix(".wasm", ".wasm"));
    assert!(!has_suffix("wasm", ".wasm"));
    assert!(!has_suffix("plugin.wasm.gz", ".wasm"));
}

#[test]
fn texts_are_split_at_the_first_occurrence() {
    assert_eq!(split_once("a:b:c", ':'), Some(("a", "b:c")));
    assert_eq!(split_once("é:ü", ':'), Some(("é", "ü")));
    assert_eq!(split_once(":", ':'), Some(("", "")));
    assert_eq!(split_once("ab", ':'), None);
}
