use embed_jsdoc::text::chars_of;
use embed_jsdoc::text::is_ascii_white_space_char;
use embed_jsdoc::text::is_white_space_char;
use embed_jsdoc::text::same_text;
use embed_jsdoc::text::split_lines;
use embed_jsdoc::text::trim;

#[test]
fn white_space_is_that_of_unicode() {
    for u in 0..=0x10ffffu32 {
        if let Some(c) = char::from_u32(u) {
            assert_eq!(is_white_space_char(c), c.is_whitespace(), "U+{u:04X}");
        }
    }
}

#[test]
fn ascii_white_space_is_that_of_bytes() {
    for u in 0..=0x10ffffu32 {
        if let Some(c) = char::from_u32(u) {
            assert_eq!(is_ascii_white_space_char(c), c.is_ascii_whitespace(), "U+{u:04X}");
        }
    }
}

#[test]
fn lines_stand_between_line_feeds() {
    assert_eq!(split_lines(""), [""]);
    assert_eq!(split_lines("a"), ["a"]);
    assert_eq!(split_lines("a\n"), ["a", ""]);
    assert_eq!(split_lines("\n\n"), ["", "", ""]);
    assert_eq!(split_lines("é\r\n日本\nc"), ["é\r", "日本", "c"]);
}

#[test]
fn lines_join_back() {
    for text in ["", "a", "\n", "a\n\nb\r\n c \n", "日\n本\u{2028}\n"] {
        let pieces = split_lines(text);
        assert_eq!(pieces.join("\n"), text);
        assert_eq!(pieces, text.split('\n').collect::<Vec<_>>());
    }
}

#[test]
fn trim_takes_both_ends() {
    assert_eq!(trim(""), "");
    assert_eq!(trim(" \t\r\n"), "");
    assert_eq!(trim("  a b\u{3000}"), "a b");
    assert_eq!(trim("\u{85}é\u{a0}"), "é");
    assert_eq!(trim(trim(" x ")), "x");
    assert_eq!(trim("\u{200b}x"), "\u{200b}x");
}

#[test]
fn texts_are_compared_by_characters() {
    assert!(same_text("", ""));
    assert!(same_text("é", "é"));
    assert!(!same_text("css", "csx"));
    assert!(!same_text("css", "cs"));
    assert_eq!(chars_of("a日"), ['a', '日']);
}
