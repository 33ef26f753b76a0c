use std::cell::RefCell;

use embed_jsdoc::ast::Expression;
use embed_jsdoc::ast::JSXAttributeName;
use embed_jsdoc::ast::ParentNode;
use embed_jsdoc::ast::PropertyKey;
use embed_jsdoc::ast::TaggedTemplateExpression;
use embed_jsdoc::ast::TemplateElement;
use embed_jsdoc::ast::TemplateLiteral;
use embed_jsdoc::embed::format_embedded_template;
use embed_jsdoc::embed::try_format_angular_component;
use embed_jsdoc::embed::try_format_css_template;
use embed_jsdoc::embed::try_format_embedded_template;
use embed_jsdoc::embed::write_embedded_reply;
use embed_jsdoc::embed::ExternalCallbacks;
use embed_jsdoc::embed::TextReply;
use embed_jsdoc::graphql::DocReply;
use embed_jsdoc::ir::EmbeddedIR;
use embed_jsdoc::ir::FormatElement;
use embed_jsdoc::ir::Formatter;
use embed_jsdoc::ir::LineMode;
use embed_jsdoc::ir::Tag;
use oxc_allocator::Allocator;

fn literal(raw: &'static str, parent: ParentNode<'static>) -> TemplateLiteral<'static> {
    TemplateLiteral {
        quasis: vec![TemplateElement { raw, cooked: Some(raw) }],
        expressions: 0,
        parent,
    }
}

fn tagged(tag: &'static str, raw: &'static str) -> TaggedTemplateExpression<'static> {
    TaggedTemplateExpression {
        tag: Expression::Identifier(tag),
        quasi: literal(raw, ParentNode::Other),
    }
}

fn text(text: &str) -> FormatElement<&str> {
    FormatElement::Text { text, indent_width: 2 }
}

/// What was asked, and whether and what was written for it.
struct Run {
    asked: Vec<(String, String)>,
    r: Option<bool>,
    written: String,
}

/// Run `format` with a formatter that answers every text with `reply`.
fn run(
    reply: TextReply,
    format: impl Fn(
        &mut Formatter<'_>,
        &ExternalCallbacks<
            &dyn Fn(&str, &str) -> TextReply,
            &dyn Fn(&str, &[&str]) -> DocReply,
        >,
    ) -> Option<bool>,
) -> Run {
    let allocator = Allocator::default();
    let asked = RefCell::new(Vec::new());
    let on_text = |language: &str, content: &str| {
        asked.borrow_mut().push((language.to_string(), content.to_string()));
        reply.clone()
    };
    let on_texts = |language: &str, contents: &[&str]| {
        asked.borrow_mut().push((language.to_string(), contents.join("|")));
        Some(Ok(contents.iter().map(|c| vec![EmbeddedIR::Text(c.trim().to_string())]).collect()))
    };
    let callbacks: ExternalCallbacks<
        &dyn Fn(&str, &str) -> TextReply,
        &dyn Fn(&str, &[&str]) -> DocReply,
    > = ExternalCallbacks { format_embedded: &on_text, format_embedded_doc: &on_texts };
    let mut f = Formatter::new(&allocator, 2);
    let r = format(&mut f, &callbacks);
    let written = format!("{:?}", f.elements);
    Run { asked: asked.into_inner(), r, written }
}

fn ok(text: &str) -> TextReply {
    Some(Ok(text.to_string()))
}

fn block(content: Vec<FormatElement<&str>>) -> Vec<FormatElement<&str>> {
    let mut all = vec![FormatElement::Token("`"), FormatElement::Tag(Tag::StartBlockIndent)];
    all.extend(content);
    all.extend([FormatElement::Tag(Tag::EndBlockIndent), FormatElement::Token("`")]);
    all
}

#[test]
fn reply_is_written_line_by_line() {
    let allocator = Allocator::default();
    let mut f = Formatter::new(&allocator, 2);
    assert!(write_embedded_reply(&mut f, ok("a {\r\n  b\n\n}\u{2028}\rc\u{2029}")));
    assert_eq!(f.elements, block(vec![
        text("a {"),
        FormatElement::Line(LineMode::Hard),
        text("  b"),
        FormatElement::Line(LineMode::Hard),
        FormatElement::Line(LineMode::Empty),
        text("}"),
        FormatElement::Line(LineMode::Hard),
        FormatElement::Line(LineMode::Empty),
        text("c"),
        FormatElement::Line(LineMode::Hard),
    ]));
}

#[test]
fn reply_loses_line_terminators_alone() {
    let allocator = Allocator::default();
    for formatted in ["a", "\n\r\n", "é\r\r\nb\u{2029}\u{2028}c ", " \t\n日本"] {
        let mut f = Formatter::new(&allocator, 2);
        assert!(write_embedded_reply(&mut f, ok(formatted)));
        let written: String = f
            .elements
            .iter()
            .filter_map(|element| match element {
                FormatElement::Text { text, .. } => Some(*text),
                _ => None,
            })
            .collect();
        let is_end = |c: char| matches!(c, '\n' | '\r' | '\u{2028}' | '\u{2029}');
        assert_eq!(written, formatted.replace(is_end, ""));
    }
}

#[test]
fn reply_without_lines() {
    let allocator = Allocator::default();
    let mut f = Formatter::new(&allocator, 2);
    assert!(write_embedded_reply(&mut f, ok("")));
    assert_eq!(f.elements, block(vec![]));
}

#[test]
fn without_a_reply_nothing_is_written() {
    let allocator = Allocator::default();
    let mut f = Formatter::new(&allocator, 2);
    assert!(!write_embedded_reply(&mut f, None));
    assert!(!write_embedded_reply(&mut f, Some(Err("no".to_string()))));
    assert!(f.elements.is_empty());
}

#[test]
fn blank_content_is_not_sent() {
    let allocator = Allocator::default();
    let mut f = Formatter::new(&allocator, 2);
    let never = |_: &str, _: &str| -> TextReply { panic!("asked") };
    assert!(format_embedded_template(&mut f, "tagged-css", " \n\t\u{3000}", &never));
    assert_eq!(f.elements, vec![FormatElement::Token("``")]);
}

#[test]
fn content_is_sent_dedented() {
    let run = run(ok("x"), |f, callbacks| {
        Some(format_embedded_template(f, "lang", "\n  a\n    b\n", &callbacks.format_embedded))
    });
    assert_eq!(run.r, Some(true));
    assert_eq!(run.asked, [("lang".to_string(), "\na\n  b\n".to_string())]);
    let expected = block(vec![text("x"), FormatElement::Line(LineMode::Hard)]);
    assert_eq!(run.written, format!("{expected:?}"));
}

#[test]
fn tags_choose_the_language() {
    for (tag, language) in [
        ("css", "tagged-css"),
        ("styled", "tagged-css"),
        ("html", "tagged-html"),
        ("md", "tagged-markdown"),
        ("markdown", "tagged-markdown"),
        ("gql", "tagged-graphql"),
        ("graphql", "tagged-graphql"),
    ] {
        let run = run(ok("x"), |f, callbacks| {
            try_format_embedded_template(&tagged(tag, "a"), f, callbacks)
        });
        assert_eq!(run.r, Some(true));
        assert_eq!(run.asked, [(language.to_string(), "a".to_string())]);
    }
}

#[test]
fn other_tags_are_left_alone() {
    for tag in ["", "sql", "CSS", "Css", "html2"] {
        let run = run(ok("x"), |f, callbacks| {
            try_format_embedded_template(&tagged(tag, "a"), f, callbacks)
        });
        assert_eq!(run.r, Some(false));
        assert!(run.asked.is_empty());
        assert_eq!(run.written, "[]");
    }
    let run = run(ok("x"), |f, callbacks| {
        let mut template = tagged("css", "a");
        template.tag = Expression::Other;
        try_format_embedded_template(&template, f, callbacks)
    });
    assert_eq!(run.r, Some(false));
}

#[test]
fn templates_with_expressions_are_left_alone() {
    for tag in ["css", "html", "md"] {
        let run = run(ok("x"), |f, callbacks| {
            let mut template = tagged(tag, "a");
            template.quasi.quasis.push(TemplateElement { raw: "b", cooked: Some("b") });
            template.quasi.expressions = 1;
            try_format_embedded_template(&template, f, callbacks)
        });
        assert_eq!(run.r, Some(false));
        assert!(run.asked.is_empty());
        assert_eq!(run.written, "[]");
    }
}

#[test]
fn failed_formatting_writes_nothing() {
    for reply in [None, Some(Err("no".to_string()))] {
        let run = run(reply, |f, callbacks| {
            try_format_embedded_template(&tagged("css", "a"), f, callbacks)
        });
        assert_eq!(run.r, Some(false));
        assert_eq!(run.asked.len(), 1);
        assert_eq!(run.written, "[]");
    }
}

fn css_prop() -> ParentNode<'static> {
    ParentNode::JSXExpressionContainer {
        parent: Box::new(ParentNode::JSXAttribute { name: JSXAttributeName::Identifier("css") }),
    }
}

#[test]
fn css_prop_is_formatted() {
    let formatted = run(ok("x"), |f, callbacks| {
        Some(try_format_css_template(&literal("  a", css_prop()), f, callbacks))
    });
    assert_eq!(formatted.r, Some(true));
    assert_eq!(formatted.asked, [("styled-jsx".to_string(), "a".to_string())]);
    let elsewhere = run(ok("x"), |f, callbacks| {
        Some(try_format_css_template(&literal("  a", ParentNode::Other), f, callbacks))
    });
    assert_eq!(elsewhere.r, Some(false));
    assert!(elsewhere.asked.is_empty());
    let with_expression = run(ok("x"), |f, callbacks| {
        let mut template = literal("  a", css_prop());
        template.quasis.push(TemplateElement { raw: "b", cooked: Some("b") });
        Some(try_format_css_template(&template, f, callbacks))
    });
    assert_eq!(with_expression.r, Some(false));
    assert!(with_expression.asked.is_empty());
}

#[test]
fn css_prop_is_tried_where_there_is_an_answer() {
    for (reply, tried) in [(Some(Err("no".to_string())), true), (None, false)] {
        let run = run(reply, |f, callbacks| {
            Some(try_format_css_template(&literal("a", css_prop()), f, callbacks))
        });
        assert_eq!(run.r, Some(tried));
        assert_eq!(run.asked, [("styled-jsx".to_string(), "a".to_string())]);
        assert_eq!(run.written, "[]");
    }
}

#[test]
fn blank_css_prop_is_not_sent() {
    let run = run(None, |f, callbacks| {
        Some(try_format_css_template(&literal(" \n", css_prop()), f, callbacks))
    });
    assert_eq!(run.r, Some(true));
    assert!(run.asked.is_empty());
    assert_eq!(run.written, format!("{:?}", vec![FormatElement::Token("``")]));
}

#[test]
fn css_prop_is_written() {
    let run = run(ok("b"), |f, callbacks| {
        Some(try_format_css_template(&literal("a", css_prop()), f, callbacks))
    });
    let expected = block(vec![text("b"), FormatElement::Line(LineMode::Hard)]);
    assert_eq!(run.written, format!("{expected:?}"));
}

#[test]
fn angular_failure_is_no_success() {
    let parent = || ParentNode::ObjectProperty {
        computed: false,
        key: PropertyKey::StaticIdentifier("template"),
        parent: Box::new(ParentNode::ObjectExpression {
            parent: Box::new(ParentNode::CallExpression {
                callee: Expression::Identifier("Component"),
                parent: Box::new(ParentNode::Decorator),
            }),
        }),
    };
    let failed = run(Some(Err("no".to_string())), |f, callbacks| {
        Some(try_format_angular_component(&literal("a", parent()), f, callbacks))
    });
    assert_eq!(failed.r, Some(false));
    assert_eq!(failed.written, "[]");
    let with_expression = run(ok("x"), |f, callbacks| {
        let mut template = literal("a", parent());
        template.quasis.push(TemplateElement { raw: "b", cooked: Some("b") });
        Some(try_format_angular_component(&template, f, callbacks))
    });
    assert_eq!(with_expression.r, Some(false));
    assert!(with_expression.asked.is_empty());
}

#[test]
fn angular_template_is_formatted() {
    let component = |key: &'static str| ParentNode::ObjectProperty {
        computed: false,
        key: PropertyKey::StaticIdentifier(key),
        parent: Box::new(ParentNode::ObjectExpression {
            parent: Box::new(ParentNode::CallExpression {
                callee: Expression::Identifier("Component"),
                parent: Box::new(ParentNode::Decorator),
            }),
        }),
    };
    for (key, language) in [("template", "angular-template"), ("styles", "angular-styles")] {
        let run = run(ok("x"), |f, callbacks| {
            Some(try_format_angular_component(&literal("a", component(key)), f, callbacks))
        });
        assert_eq!(run.r, Some(true));
        assert_eq!(run.asked, [(language.to_string(), "a".to_string())]);
    }
    let other = run(ok("x"), |f, callbacks| {
        Some(try_format_angular_component(&literal("a", component("selector")), f, callbacks))
    });
    assert_eq!(other.r, Some(false));
    assert!(other.asked.is_empty());
    let blank = run(ok("x"), |f, callbacks| {
        Some(try_format_angular_component(&literal(" \n", component("template")), f, callbacks))
    });
    assert_eq!(blank.r, Some(true));
    assert_eq!(blank.written, format!("{:?}", vec![FormatElement::Token("``")]));
}
