use std::cell::RefCell;

use embed_jsdoc::ast::ParentNode;
use embed_jsdoc::ast::TemplateElement;
use embed_jsdoc::ast::TemplateLiteral;
use embed_jsdoc::graphql::analyze_quasis;
use embed_jsdoc::graphql::build_graphql_comment_ir;
use embed_jsdoc::graphql::format_graphql_doc;
use embed_jsdoc::graphql::is_graphql_comments_and_whitespace_only;
use embed_jsdoc::graphql::texts_to_format;
use embed_jsdoc::graphql::write_graphql_reply;
use embed_jsdoc::graphql::DocReply;
use embed_jsdoc::ir::EmbeddedIR;
use embed_jsdoc::ir::FormatElement;
use embed_jsdoc::ir::Formatter;
use embed_jsdoc::ir::GroupId;
use embed_jsdoc::ir::GroupMode;
use embed_jsdoc::ir::LineMode;
use embed_jsdoc::ir::Tag;
use oxc_allocator::Allocator;

const HARD: FormatElement<&str> = FormatElement::Line(LineMode::Hard);
const EMPTY: FormatElement<&str> = FormatElement::Line(LineMode::Empty);

fn template(quasis: &[&'static str]) -> TemplateLiteral<'static> {
    TemplateLiteral {
        quasis: quasis.iter().map(|q| TemplateElement { raw: q, cooked: Some(q) }).collect(),
        expressions: quasis.len() - 1,
        parent: ParentNode::Other,
    }
}

fn text(text: &str) -> FormatElement<&str> {
    FormatElement::Text { text, indent_width: 2 }
}

fn expression(at: usize) -> FormatElement<&'static str> {
    FormatElement::TemplateExpression(at)
}

fn block(content: Vec<FormatElement<&str>>) -> Vec<FormatElement<&str>> {
    let mut all = vec![FormatElement::Token("`"), FormatElement::Tag(Tag::StartBlockIndent)];
    all.extend(content);
    all.extend([FormatElement::Tag(Tag::EndBlockIndent), FormatElement::Token("`")]);
    all
}

/// A formatter that answers each text with the text, trimmed.
fn echo(_: &str, texts: &[&str]) -> DocReply {
    Some(Ok(texts.iter().map(|t| vec![EmbeddedIR::Text(t.trim().to_string())]).collect()))
}

fn check(quasis: &[&'static str], expected: Vec<FormatElement<&str>>) {
    let allocator = Allocator::default();
    let mut f = Formatter::new(&allocator, 2);
    assert_eq!(format_graphql_doc(&template(quasis), &mut f, &echo), Some(true));
    assert_eq!(f.elements, expected, "{quasis:?}");
}

#[test]
fn comments_and_white_space() {
    for text in ["", " \n\t", "# a", "\n  # a\n\n#b\n", "#\u{3000}"] {
        assert!(is_graphql_comments_and_whitespace_only(text), "{text:?}");
    }
    for text in ["a", "# a\nb", "a # b", "\n\n  {\n"] {
        assert!(!is_graphql_comments_and_whitespace_only(text), "{text:?}");
    }
}

#[test]
fn comment_ir_joins_lines() {
    let line = |mode| EmbeddedIR::Line(mode);
    let say = |text: &str| EmbeddedIR::Text(text.to_string());
    assert_eq!(build_graphql_comment_ir(""), None);
    assert_eq!(build_graphql_comment_ir(" \n \n"), None);
    assert_eq!(build_graphql_comment_ir("\n\n  # a  \n"), Some(vec![say("# a")]));
    assert_eq!(
        build_graphql_comment_ir("# a\n  # b\n\n\n# c"),
        Some(vec![
            say("# a"),
            line(LineMode::Hard),
            EmbeddedIR::ExpandParent,
            say("# b"),
            line(LineMode::Empty),
            EmbeddedIR::ExpandParent,
            say("# c"),
        ])
    );
}

#[test]
fn comment_ir_keeps_every_comment() {
    let ir = build_graphql_comment_ir("#1\n\n#2\n#3\n \n\n#4\n").unwrap();
    let texts: Vec<&str> = ir
        .iter()
        .filter_map(|item| match item {
            EmbeddedIR::Text(text) => Some(text.as_str()),
            _ => None,
        })
        .collect();
    assert_eq!(texts, ["#1", "#2", "#3", "#4"]);
    let empty = ir.iter().filter(|item| **item == EmbeddedIR::Line(LineMode::Empty)).count();
    assert_eq!(empty, 2);
}

#[test]
fn parts_are_analyzed() {
    let quasis = template(&["\n\n  a\n", "\n b\n\n", "\n\n", "#c"]).quasis;
    let infos = analyze_quasis(&quasis).unwrap();
    let found: Vec<(bool, bool, bool)> = infos
        .iter()
        .map(|i| (i.comments_only, i.starts_with_blank_line, i.ends_with_blank_line))
        .collect();
    assert_eq!(found, [
        (false, true, false),
        (false, false, true),
        (true, true, true),
        (true, false, false),
    ]);
    assert_eq!(texts_to_format(&infos), ["\n\n  a\n", "\n b\n\n"]);
}

#[test]
fn two_lines_have_no_blank_line() {
    let quasis = template(&["\n"]).quasis;
    let infos = analyze_quasis(&quasis).unwrap();
    assert!(!infos[0].starts_with_blank_line);
    assert!(!infos[0].ends_with_blank_line);
}

#[test]
fn expression_in_a_comment_is_refused() {
    assert!(analyze_quasis(&template(&["a\n# b ", ""]).quasis).is_none());
    assert!(analyze_quasis(&template(&["a # b", "", ""]).quasis).is_none());
    assert!(analyze_quasis(&template(&["", "#", ""]).quasis).is_none());
    assert!(analyze_quasis(&template(&["\n# comment\n", ""]).quasis).is_some());
    assert!(analyze_quasis(&template(&["", "# last"]).quasis).is_some());
}

#[test]
fn expression_in_a_comment_is_not_sent() {
    let allocator = Allocator::default();
    let mut f = Formatter::new(&allocator, 2);
    let never = |_: &str, _: &[&str]| -> DocReply { panic!("asked") };
    let literal = template(&["{ a }\n# b ", ""]);
    assert_eq!(format_graphql_doc(&literal, &mut f, &never), Some(false));
    assert!(f.elements.is_empty());
}

#[test]
fn carriage_return_ends_a_comment() {
    assert!(analyze_quasis(&template(&["# a\rb", ""]).quasis).is_some());
    assert!(analyze_quasis(&template(&["\n# a\r", ""]).quasis).is_some());
    assert!(analyze_quasis(&template(&["# a\rb # c", ""]).quasis).is_none());
    assert!(analyze_quasis(&template(&["a\r#", ""]).quasis).is_none());

    let allocator = Allocator::default();
    let mut f = Formatter::new(&allocator, 2);
    let answer = |language: &str, texts: &[&str]| -> DocReply {
        assert_eq!(language, "tagged-graphql");
        assert_eq!(texts, ["{ a } # c\rb "]);
        Some(Ok(vec![vec![EmbeddedIR::Text("q".to_string())]]))
    };
    let literal = template(&["{ a } # c\rb ", ""]);
    assert_eq!(format_graphql_doc(&literal, &mut f, &answer), Some(true));
    assert_eq!(f.elements, block(vec![text("q"), HARD, expression(0)]));
}

#[test]
fn comment_then_expression() {
    let allocator = Allocator::default();
    let mut f = Formatter::new(&allocator, 2);
    let never = |_: &str, _: &[&str]| -> DocReply { panic!("asked") };
    let literal = template(&["\n# comment\n", "\n"]);
    assert_eq!(format_graphql_doc(&literal, &mut f, &never), Some(true));
    assert_eq!(f.elements, block(vec![text("# comment"), HARD, expression(0)]));
}

#[test]
fn invalid_escape_is_refused() {
    let mut literal = template(&["a", "b"]);
    literal.quasis[1].cooked = None;
    assert!(analyze_quasis(&literal.quasis).is_none());
    let allocator = Allocator::default();
    let mut f = Formatter::new(&allocator, 2);
    let never = |_: &str, _: &[&str]| -> DocReply { panic!("asked") };
    assert_eq!(format_graphql_doc(&literal, &mut f, &never), Some(false));
    assert!(f.elements.is_empty());
}

#[test]
fn cooked_text_is_what_counts() {
    let allocator = Allocator::default();
    let mut f = Formatter::new(&allocator, 2);
    let mut literal = template(&["a"]);
    literal.quasis[0].raw = "raw";
    assert_eq!(format_graphql_doc(&literal, &mut f, &echo), Some(true));
    assert_eq!(f.elements, block(vec![text("a")]));
}

#[test]
fn nothing_to_print() {
    let allocator = Allocator::default();
    let never = |_: &str, _: &[&str]| -> DocReply { panic!("asked") };
    for quasi in ["", " \n\n "] {
        let mut f = Formatter::new(&allocator, 2);
        assert_eq!(format_graphql_doc(&template(&[quasi]), &mut f, &never), Some(true));
        assert_eq!(f.elements, vec![FormatElement::Token("``")]);
    }
}

#[test]
fn comments_are_not_sent() {
    let allocator = Allocator::default();
    let never = |_: &str, _: &[&str]| -> DocReply { panic!("asked") };
    let mut f = Formatter::new(&allocator, 2);
    let literal = template(&["\n# `a`\n", "\n# b"]);
    assert_eq!(format_graphql_doc(&literal, &mut f, &never), Some(true));
    assert_eq!(f.elements, block(vec![
        text("# \\`a\\`"),
        HARD,
        expression(0),
        HARD,
        text("# b"),
    ]));
}

#[test]
fn texts_are_sent_together() {
    let allocator = Allocator::default();
    let asked = RefCell::new(Vec::new());
    let listen = |language: &str, texts: &[&str]| {
        asked.borrow_mut().push((language.to_string(), texts.join("|")));
        echo(language, texts)
    };
    let mut f = Formatter::new(&allocator, 2);
    let literal = template(&["a\n", "# c\n", "\nb"]);
    assert_eq!(format_graphql_doc(&literal, &mut f, &listen), Some(true));
    assert_eq!(asked.into_inner(), [("tagged-graphql".to_string(), "a\n|\nb".to_string())]);
    assert_eq!(f.elements, block(vec![
        text("a"),
        HARD,
        expression(0),
        HARD,
        text("# c"),
        HARD,
        expression(1),
        HARD,
        text("b"),
    ]));
}

#[test]
fn single_text_is_written() {
    check(&["query { a }"], block(vec![text("query { a }")]));
}

#[test]
fn expressions_alone() {
    check(&["", ""], block(vec![expression(0)]));
    check(&["", "\n", ""], block(vec![expression(0), HARD, expression(1)]));
}

#[test]
fn blank_lines_around_expressions_are_kept() {
    check(&["a\n\n", "\n\nb"], block(vec![text("a"), EMPTY, expression(0), EMPTY, text("b")]));
    check(&["a\n", "\n\nb"], block(vec![text("a"), HARD, expression(0), EMPTY, text("b")]));
    check(&["a\n\n", "\nb"], block(vec![text("a"), EMPTY, expression(0), HARD, text("b")]));
}

#[test]
fn blank_parts_between_expressions() {
    check(&["", "\n\n", ""], block(vec![expression(0), EMPTY, EMPTY, expression(1)]));
    check(&["", "\n \n \n", "b"], block(vec![
        expression(0),
        EMPTY,
        EMPTY,
        expression(1),
        HARD,
        text("b"),
    ]));
}

#[test]
fn blank_lines_at_the_ends_are_not() {
    check(&["\n\na\n\n"], block(vec![text("a")]));
    check(&["\n\n", "\n\n"], block(vec![expression(0)]));
}

#[test]
fn every_expression_is_written_once() {
    let allocator = Allocator::default();
    let mut f = Formatter::new(&allocator, 2);
    let literal = template(&["a\n\n", "", "\n\n", "# c\n", "\n\nd\n", ""]);
    assert_eq!(format_graphql_doc(&literal, &mut f, &echo), Some(true));
    let places: Vec<usize> = f
        .elements
        .iter()
        .filter_map(|element| match element {
            FormatElement::TemplateExpression(at) => Some(*at),
            _ => None,
        })
        .collect();
    assert_eq!(places, [0, 1, 2, 3, 4]);
}

#[test]
fn missing_answers_are_missing_parts() {
    let allocator = Allocator::default();
    let mut f = Formatter::new(&allocator, 2);
    let quasis = template(&["a\n", "\nb"]).quasis;
    let infos = analyze_quasis(&quasis).unwrap();
    let reply: DocReply = Some(Ok(vec![vec![EmbeddedIR::Text("A".to_string())]]));
    assert_eq!(write_graphql_reply(&infos, 1, reply, &mut f), Some(true));
    assert_eq!(f.elements, block(vec![text("A"), HARD, expression(0)]));
}

#[test]
fn no_answer_writes_nothing() {
    let allocator = Allocator::default();
    for reply in [None, Some(Err("no".to_string()))] {
        let mut f = Formatter::new(&allocator, 2);
        let refuse = |_: &str, _: &[&str]| -> DocReply { reply.clone() };
        assert_eq!(format_graphql_doc(&template(&["a"]), &mut f, &refuse), Some(false));
        assert!(f.elements.is_empty());
    }
}

fn grouped(_: &str, texts: &[&str]) -> DocReply {
    let document = vec![
        EmbeddedIR::StartGroup { id: Some(7), should_break: false },
        EmbeddedIR::EndGroup,
    ];
    Some(Ok(texts.iter().map(|_| document.clone()).collect()))
}

#[test]
fn groups_are_shared_between_parts() {
    let allocator = Allocator::default();
    let mut f = Formatter::new(&allocator, 2);
    assert_eq!(format_graphql_doc(&template(&["a", "b"]), &mut f, &grouped), Some(true));
    let group = || {
        FormatElement::Tag(Tag::StartGroup { id: Some(GroupId(1)), mode: GroupMode::Flat })
    };
    let end = || FormatElement::Tag(Tag::EndGroup);
    assert_eq!(
        f.elements,
        block(vec![group(), end(), HARD, expression(0), HARD, group(), end()])
    );
    assert_eq!(f.next_group_id, 2);
}

#[test]
fn too_many_groups_write_nothing() {
    let allocator = Allocator::default();
    let mut f = Formatter::new(&allocator, 2);
    f.next_group_id = u32::MAX;
    assert_eq!(format_graphql_doc(&template(&["a"]), &mut f, &grouped), None);
    assert!(f.elements.is_empty());
    assert_eq!(f.next_group_id, u32::MAX);
    assert_eq!(format_graphql_doc(&template(&["a"]), &mut f, &echo), Some(true));
    f.next_group_id = u32::MAX - 1;
    assert_eq!(format_graphql_doc(&template(&["a"]), &mut f, &grouped), Some(true));
    assert_eq!(f.next_group_id, u32::MAX);
}
