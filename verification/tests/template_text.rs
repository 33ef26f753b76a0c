use embed_jsdoc::template_text::dedent;
use embed_jsdoc::template_text::escape_template_characters;
use oxc_allocator::Allocator;

#[test]
fn dedent_takes_the_common_indentation() {
    let allocator = Allocator::default();
    assert_eq!(dedent("  a\n    b\n", &allocator), "a\n  b\n");
    assert_eq!(dedent("\n    a {\n      b\n    }\n  ", &allocator), "\na {\n  b\n}\n");
    assert_eq!(dedent("\t\tx\n\t  y", &allocator), "x\n y");
}

#[test]
fn dedent_leaves_unindented_text() {
    let allocator = Allocator::default();
    let text = "a\n  b";
    assert_eq!(dedent(text, &allocator), text);
    assert_eq!(dedent("", &allocator), "");
    assert_eq!(dedent("   \n  ", &allocator), "   \n  ");
}

#[test]
fn dedent_does_not_ask_lines_of_indentation_alone() {
    let allocator = Allocator::default();
    assert_eq!(dedent("    a\n \n    b", &allocator), "a\n\nb");
    assert_eq!(dedent("  a\n      \n  b", &allocator), "a\n    \nb");
    assert_eq!(dedent("  a\r\n\r\n  b\r\n", &allocator), "a\r\n\nb\r\n");
}

#[test]
fn dedent_counts_ascii_white_space_only() {
    let allocator = Allocator::default();
    assert_eq!(dedent("  \u{a0}é\n  日本", &allocator), "\u{a0}é\n日本");
    assert_eq!(dedent(" \u{3000}\n  x", &allocator), "\u{3000}\n x");
}

#[test]
fn dedent_twice_is_dedent_once() {
    let allocator = Allocator::default();
    for text in ["  a\n    b", "", " \n  x\n y", "\t\ta\n\t\t\tb\n\t", "a\n b"] {
        let once = dedent(text, &allocator);
        assert_eq!(dedent(once, &allocator), once);
        assert_eq!(once.split('\n').count(), text.split('\n').count());
    }
}

#[test]
fn escapes_what_breaks_a_template() {
    assert_eq!(escape_template_characters("a`b"), "a\\`b");
    assert_eq!(escape_template_characters("a\\b"), "a\\\\b");
    assert_eq!(escape_template_characters("${a}"), "\\${a}");
    assert_eq!(escape_template_characters("$${"), "$\\${");
    assert_eq!(escape_template_characters("\\${`"), "\\\\\\${\\`");
}

#[test]
fn escape_leaves_the_rest() {
    for text in ["", "$", "{", "$ {", "a$", "#b", "é日本🎉"] {
        assert_eq!(escape_template_characters(text), text);
    }
}

fn unescape(source: &str) -> String {
    let mut text = String::new();
    let mut chars = source.chars();
    while let Some(c) = chars.next() {
        if c == '\\' {
            text.push(chars.next().unwrap());
        } else {
            text.push(c);
        }
    }
    text
}

#[test]
fn escape_can_be_undone() {
    for text in ["`", "\\", "${", "é`${日本}\\n", "$$${{{", "\\`\\"] {
        assert_eq!(unescape(&escape_template_characters(text)), text);
    }
}
