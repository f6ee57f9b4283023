use niri_taskbar::text::{
    decimal_of, lower_ascii_of, signed_of, split_at_char, text_before, white_space, words_of,
};

#[test]
fn white_space_is_what_unicode_says() {
    for n in 0..=0x10ffffu32 {
        if let Some(c) = char::from_u32(n) {
            assert_eq!(white_space(c), c.is_whitespace(), "{n:x}");
        }
    }
}

#[test]
fn numbers_are_written_in_decimal() {
    for n in [0, 7, 10, 99, 100, 12345, u64::MAX] {
        assert_eq!(decimal_of(n), n.to_string());
    }
    for n in [0, -1, 42, -42, i32::MIN, i32::MAX] {
        assert_eq!(signed_of(n), n.to_string());
    }
}

#[test]
fn only_ascii_capitals_change() {
    assert_eq!(lower_ascii_of("BracketLEFT É"), "bracketleft É");
    assert_eq!(lower_ascii_of("@[`{"), "@[`{");
}

#[test]
fn text_is_split_at_every_separator() {
    assert_eq!(split_at_char("a+b++", '+'), vec!["a", "b", "", ""]);
    assert_eq!(split_at_char("", '+'), vec![""]);
}

#[test]
fn words_are_what_white_space_leaves() {
    assert_eq!(words_of("  a\tb \u{3000}c\n"), vec!["a", "b", "c"]);
    assert!(words_of(" ").is_empty());
}

#[test]
fn text_is_ordered_as_strings_are() {
    let all = ["", "a", "ab", "b", "é", "z", "\u{10000}", "\u{ffff}"];
    for a in all {
        for b in all {
            assert_eq!(text_before(a, b), a <= b, "{a:?} {b:?}");
        }
    }
}
