//! Formatting the language inside a template literal: which templates are taken, what
//! the formatter of the language is asked, and what is written.

use vstd::prelude::*;

use crate::ast::TaggedTemplateExpression;
use crate::ast::TemplateLiteral;
use crate::detect::angular_language;
use crate::detect::get_angular_component_language;
use crate::detect::get_tag_name;
use crate::detect::in_css_jsx;
use crate::detect::is_in_css_jsx;
use crate::detect::tag_name;
use crate::foreign::alloc_str;
use crate::foreign::split_line_terminators;
use crate::graphql::asked_graphql;
use crate::graphql::comments_only;
use crate::graphql::cooked_texts;
use crate::graphql::format_graphql_doc;
use crate::graphql::formattable;
use crate::graphql::law_graphql_asks_nothing;
use crate::graphql::may_be_asked_graphql;
use crate::graphql::not_empty;
use crate::graphql::DocReply;
use crate::ir::empty_template;
use crate::ir::in_template;
use crate::ir::Elements;
use crate::ir::FormatElement;
use crate::ir::Formatter;
use crate::ir::FormatterState;
use crate::ir::LineMode;
use crate::ir::Tag;
use crate::template_text::dedent;
use crate::template_text::dedented;
use crate::text::is_blank;
use crate::text::law_trimmed;
use crate::text::same_text;
use crate::text::terminated_lines;
use crate::text::texts;
use crate::text::trim;
use crate::text::trimmed;

verus! {

/// What a formatter answers to a text: nothing where there is none for the language.
pub type TextReply = Option<Result<String, String>>;

/// The formatters of embedded languages: one from text to text, and one from several
/// texts to a document for each.
pub struct ExternalCallbacks<E, D> {
    pub format_embedded: E,
    pub format_embedded_doc: D,
}

/// The text of an answer, if there is one.
pub open spec fn reply_text(reply: TextReply) -> Option<Seq<char>> {
    match reply {
        Some(Ok(text)) => Some(text@),
        _ => None,
    }
}

/// A formatted text, line by line; an empty line is an empty line.
pub open spec fn written_lines(pieces: Seq<Seq<char>>, indent_width: u8) -> Elements
    decreases pieces.len(),
{
    if pieces.len() == 0 {
        Seq::empty()
    } else {
        let line = pieces.last();
        written_lines(pieces.drop_last(), indent_width) + (if line.len() == 0 {
            seq![FormatElement::Line(LineMode::Empty)]
        } else {
            seq![
                FormatElement::Text { text: line, indent_width },
                FormatElement::Line(LineMode::Hard),
            ]
        })
    }
}

/// What has been written, and what is returned, once the formatter has answered:
/// without an answer, nothing.
pub open spec fn embedded_outcome(text: Option<Seq<char>>, before: FormatterState) -> (
    FormatterState,
    bool,
) {
    match text {
        Some(text) => (
            before.wrote(in_template(written_lines(terminated_lines(text), before.indent_width))),
            true,
        ),
        None => (before, false),
    }
}

/// How a template without expressions comes to be written: blank content without an
/// answer; else by the answer to the dedented content.
pub open spec fn asked_embedded<E>(
    format_embedded: E,
    language: &str,
    content: Seq<char>,
    before: FormatterState,
    after: FormatterState,
    r: bool,
) -> bool where E: Fn(&str, &str) -> TextReply {
    if trimmed(content).len() == 0 {
        r && after == before.wrote(empty_template())
    } else {
        exists|sent: &str, reply: TextReply|
            #![trigger call_ensures(format_embedded, (language, sent), reply)]
            {
                &&& sent@ == dedented(content)
                &&& call_ensures(format_embedded, (language, sent), reply)
                &&& (after, r) == embedded_outcome(reply_text(reply), before)
            }
    }
}

/// Nothing is written, and `false` returned.
pub open spec fn not_applicable(before: FormatterState, after: FormatterState, r: bool) -> bool {
    after == before && !r
}

/// How a template of a language that takes no expressions comes to be written: not at
/// all where it has expressions, else by its raw text.
pub open spec fn asked_raw<E>(
    format_embedded: E,
    language: &str,
    literal: TemplateLiteral<'_>,
    before: FormatterState,
    after: FormatterState,
    r: bool,
) -> bool where E: Fn(&str, &str) -> TextReply {
    if literal.single() {
        asked_embedded(format_embedded, language, literal.quasis@[0].raw@, before, after, r)
    } else {
        not_applicable(before, after, r)
    }
}

/// The formatter takes the one question that this content is, which is none where it
/// is blank. No other question is granted, so no other is asked.
pub open spec fn may_be_asked_embedded<E>(
    format_embedded: E,
    language: &str,
    content: Seq<char>,
) -> bool where E: Fn(&str, &str) -> TextReply {
    trimmed(content).len() > 0 ==> forall|sent: &str|
        sent@ == dedented(content) ==> #[trigger] call_requires(format_embedded, (language, sent))
}

/// As [`may_be_asked_embedded`] for the raw text of a template, about which nothing is
/// asked where it has expressions.
pub open spec fn may_be_asked_raw<E>(
    format_embedded: E,
    language: &str,
    literal: TemplateLiteral<'_>,
) -> bool where E: Fn(&str, &str) -> TextReply {
    literal.single() ==> may_be_asked_embedded(format_embedded, language, literal.quasis@[0].raw@)
}

/// Write a template, once the formatter has answered. Returns `false`, and writes
/// nothing, where it has no answer.
pub fn write_embedded_reply(f: &mut Formatter<'_>, reply: TextReply) -> (r: bool)
    ensures
        (final(f)@, r) == embedded_outcome(reply_text(reply), old(f)@),
        final(f).allocator == old(f).allocator,
{
    let formatted = match reply {
        Some(Ok(formatted)) => formatted,
        _ => return false,
    };
    let ghost start = f@;
    let content = alloc_str(f.allocator, &formatted);
    let pieces = split_line_terminators(content);
    let ghost all = terminated_lines(formatted@);
    f.write_element(FormatElement::Token("`"));
    f.write_element(FormatElement::Tag(Tag::StartBlockIndent));
    let ghost opened = f@.elements;
    assert(opened + written_lines(all.take(0), start.indent_width) =~= opened);
    for i in 0..pieces.len()
        invariant
            texts(pieces@) == all,
            f@.elements == opened + written_lines(all.take(i as int), start.indent_width),
            f@.indent_width == start.indent_width,
            f@.next_group_id == start.next_group_id,
            f.allocator == old(f).allocator,
    {
        let line = pieces[i];
        proof {
            assert(all[i as int] == line@);
            assert(all.take(i + 1).drop_last() =~= all.take(i as int));
        }
        if line.is_empty() {
            f.write_element(FormatElement::Line(LineMode::Empty));
        } else {
            f.write_text(line);
            f.write_element(FormatElement::Line(LineMode::Hard));
        }
        assert(f@.elements =~= opened + written_lines(all.take(i + 1), start.indent_width));
    }
    assert(all.take(pieces.len() as int) =~= all);
    f.write_element(FormatElement::Tag(Tag::EndBlockIndent));
    f.write_element(FormatElement::Token("`"));
    assert(f@.elements =~= start.elements + in_template(
        written_lines(all, start.indent_width),
    ));
    true
}

/// Format embedded language content inside a template literal using the string path.
///
/// This is the shared formatting logic for no-substitution templates:
/// dedent → external formatter → reconstruct template structure.
pub fn format_embedded_template<E>(
    f: &mut Formatter<'_>,
    language: &str,
    template_content: &str,
    format_embedded: &E,
) -> (r: bool) where E: Fn(&str, &str) -> TextReply
    requires
        may_be_asked_embedded(*format_embedded, language, template_content@),
    ensures
        asked_embedded(*format_embedded, language, template_content@, old(f)@, final(f)@, r),
        final(f).allocator == old(f).allocator,
{
    if trim(template_content).is_empty() {
        f.write_element(FormatElement::Token("``"));
        return true;
    }
    let sent = dedent(template_content, f.allocator);
    let reply = format_embedded(language, sent);
    write_embedded_reply(f, reply)
}

/// Format a template by its raw text, unless it has expressions.
fn format_raw_template<E>(
    literal: &TemplateLiteral<'_>,
    language: &str,
    f: &mut Formatter<'_>,
    format_embedded: &E,
) -> (r: bool) where E: Fn(&str, &str) -> TextReply
    requires
        may_be_asked_raw(*format_embedded, language, *literal),
    ensures
        asked_raw(*format_embedded, language, *literal, old(f)@, final(f)@, r),
        final(f).allocator == old(f).allocator,
{
    if !literal.is_no_substitution_template() {
        return false;
    }
    format_embedded_template(f, language, literal.quasis[0].raw, format_embedded)
}

/// Try to format the CSS of a tagged template.
pub fn try_embed_css<E, D>(
    tagged: &TaggedTemplateExpression<'_>,
    f: &mut Formatter<'_>,
    callbacks: &ExternalCallbacks<E, D>,
) -> (r: bool) where E: Fn(&str, &str) -> TextReply, D: Fn(&str, &[&str]) -> DocReply
    requires
        may_be_asked_raw(callbacks.format_embedded, "tagged-css", tagged.quasi),
    ensures
        asked_raw(
            callbacks.format_embedded,
            "tagged-css",
            tagged.quasi,
            old(f)@,
            final(f)@,
            r,
        ),
        final(f).allocator == old(f).allocator,
{
    format_raw_template(&tagged.quasi, "tagged-css", f, &callbacks.format_embedded)
}

/// Try to format the HTML of a tagged template.
pub fn try_embed_html<E, D>(
    tagged: &TaggedTemplateExpression<'_>,
    f: &mut Formatter<'_>,
    callbacks: &ExternalCallbacks<E, D>,
) -> (r: bool) where E: Fn(&str, &str) -> TextReply, D: Fn(&str, &[&str]) -> DocReply
    requires
        may_be_asked_raw(callbacks.format_embedded, "tagged-html", tagged.quasi),
    ensures
        asked_raw(
            callbacks.format_embedded,
            "tagged-html",
            tagged.quasi,
            old(f)@,
            final(f)@,
            r,
        ),
        final(f).allocator == old(f).allocator,
{
    format_raw_template(&tagged.quasi, "tagged-html", f, &callbacks.format_embedded)
}

/// Try to format the Markdown of a tagged template.
pub fn try_embed_markdown<E, D>(
    tagged: &TaggedTemplateExpression<'_>,
    f: &mut Formatter<'_>,
    callbacks: &ExternalCallbacks<E, D>,
) -> (r: bool) where E: Fn(&str, &str) -> TextReply, D: Fn(&str, &[&str]) -> DocReply
    requires
        may_be_asked_raw(callbacks.format_embedded, "tagged-markdown", tagged.quasi),
    ensures
        asked_raw(
            callbacks.format_embedded,
            "tagged-markdown",
            tagged.quasi,
            old(f)@,
            final(f)@,
            r,
        ),
        final(f).allocator == old(f).allocator,
{
    format_raw_template(&tagged.quasi, "tagged-markdown", f, &callbacks.format_embedded)
}

/// The languages that a tag can announce.
#[derive(Debug, Clone, Copy, PartialEq, Eq, Structural)]
pub enum TagLanguage {
    Css,
    GraphQL,
    Html,
    Markdown,
}

/// The language that a tag of this name announces.
pub open spec fn tag_language(name: Option<Seq<char>>) -> Option<TagLanguage> {
    match name {
        None => None,
        Some(name) => if name == "css"@ || name == "styled"@ {
            Some(TagLanguage::Css)
        } else if name == "gql"@ || name == "graphql"@ {
            Some(TagLanguage::GraphQL)
        } else if name == "html"@ {
            Some(TagLanguage::Html)
        } else if name == "md"@ || name == "markdown"@ {
            Some(TagLanguage::Markdown)
        } else {
            None
        },
    }
}

/// The language that a tag of this name announces.
fn language_of_tag(name: &str) -> (language: Option<TagLanguage>)
    ensures
        language == tag_language(Some(name@)),
{
    if same_text(name, "css") || same_text(name, "styled") {
        Some(TagLanguage::Css)
    } else if same_text(name, "gql") || same_text(name, "graphql") {
        Some(TagLanguage::GraphQL)
    } else if same_text(name, "html") {
        Some(TagLanguage::Html)
    } else if same_text(name, "md") || same_text(name, "markdown") {
        Some(TagLanguage::Markdown)
    } else {
        None
    }
}

/// How a tagged template comes to be written, by the name of its tag.
pub open spec fn asked_tagged<E, D>(
    callbacks: ExternalCallbacks<E, D>,
    tagged: TaggedTemplateExpression<'_>,
    before: FormatterState,
    after: FormatterState,
    r: Option<bool>,
) -> bool where E: Fn(&str, &str) -> TextReply, D: Fn(&str, &[&str]) -> DocReply {
    let quasi = tagged.quasi;
    match tag_language(tag_name(tagged.tag)) {
        Some(TagLanguage::GraphQL) => asked_graphql(
            callbacks.format_embedded_doc,
            quasi,
            before,
            after,
            r,
        ),
        Some(TagLanguage::Css) => r is Some && asked_raw(
            callbacks.format_embedded,
            "tagged-css",
            quasi,
            before,
            after,
            r->0,
        ),
        Some(TagLanguage::Html) => r is Some && asked_raw(
            callbacks.format_embedded,
            "tagged-html",
            quasi,
            before,
            after,
            r->0,
        ),
        Some(TagLanguage::Markdown) => r is Some && asked_raw(
            callbacks.format_embedded,
            "tagged-markdown",
            quasi,
            before,
            after,
            r->0,
        ),
        None => after == before && r == Some(false),
    }
}

/// The formatters take the one question that a tagged template is, by the name of its
/// tag; without a language there is none.
pub open spec fn may_be_asked_tagged<E, D>(
    callbacks: ExternalCallbacks<E, D>,
    tagged: TaggedTemplateExpression<'_>,
) -> bool where E: Fn(&str, &str) -> TextReply, D: Fn(&str, &[&str]) -> DocReply {
    let quasi = tagged.quasi;
    match tag_language(tag_name(tagged.tag)) {
        Some(TagLanguage::GraphQL) => may_be_asked_graphql(callbacks.format_embedded_doc, quasi),
        Some(TagLanguage::Css) => may_be_asked_raw(callbacks.format_embedded, "tagged-css", quasi),
        Some(TagLanguage::Html) => may_be_asked_raw(
            callbacks.format_embedded,
            "tagged-html",
            quasi,
        ),
        Some(TagLanguage::Markdown) => may_be_asked_raw(
            callbacks.format_embedded,
            "tagged-markdown",
            quasi,
        ),
        None => true,
    }
}

/// Try to format a tagged template with the embedded formatter if supported.
/// Returns `Some(true)` if formatting was performed, `Some(false)` if not applicable;
/// and `None` where the numbers for the groups of a GraphQL template would run out.
pub fn try_format_embedded_template<E, D>(
    tagged: &TaggedTemplateExpression<'_>,
    f: &mut Formatter<'_>,
    callbacks: &ExternalCallbacks<E, D>,
) -> (r: Option<bool>) where E: Fn(&str, &str) -> TextReply, D: Fn(&str, &[&str]) -> DocReply
    requires
        may_be_asked_tagged(*callbacks, *tagged),
    ensures
        asked_tagged(*callbacks, *tagged, old(f)@, final(f)@, r),
        final(f).allocator == old(f).allocator,
{
    let language = match get_tag_name(&tagged.tag) {
        Some(name) => language_of_tag(name),
        None => None,
    };
    match language {
        Some(TagLanguage::Css) => Some(try_embed_css(tagged, f, callbacks)),
        Some(TagLanguage::GraphQL) => {
            format_graphql_doc(&tagged.quasi, f, &callbacks.format_embedded_doc)
        },
        Some(TagLanguage::Html) => Some(try_embed_html(tagged, f, callbacks)),
        Some(TagLanguage::Markdown) => Some(try_embed_markdown(tagged, f, callbacks)),
        None => Some(false),
    }
}

/// How a template inside a css prop or styled-jsx comes to be written. An answer,
/// even an error, makes it an attempt; what is written is what the answer says.
pub open spec fn asked_css<E>(
    format_embedded: E,
    literal: TemplateLiteral<'_>,
    before: FormatterState,
    after: FormatterState,
    r: bool,
) -> bool where E: Fn(&str, &str) -> TextReply {
    let content = literal.quasis@[0].raw@;
    if !literal.single() || !in_css_jsx(literal.parent) {
        not_applicable(before, after, r)
    } else if trimmed(content).len() == 0 {
        r && after == before.wrote(empty_template())
    } else {
        exists|sent: &str, reply: TextReply|
            #![trigger call_ensures(format_embedded, ("styled-jsx", sent), reply)]
            {
                &&& sent@ == dedented(content)
                &&& call_ensures(format_embedded, ("styled-jsx", sent), reply)
                &&& after == embedded_outcome(reply_text(reply), before).0
                &&& r == (reply is Some)
            }
    }
}

/// Try to format a template literal inside css prop or styled-jsx with the embedded
/// formatter. Returns `true` if formatting was attempted, `false` if not applicable:
/// an attempt that fails writes nothing, and without a formatter for the language
/// there is no attempt.
pub fn try_format_css_template<E, D>(
    template_literal: &TemplateLiteral<'_>,
    f: &mut Formatter<'_>,
    callbacks: &ExternalCallbacks<E, D>,
) -> (r: bool) where E: Fn(&str, &str) -> TextReply, D: Fn(&str, &[&str]) -> DocReply
    requires
        in_css_jsx(template_literal.parent) ==> may_be_asked_raw(
            callbacks.format_embedded,
            "styled-jsx",
            *template_literal,
        ),
    ensures
        asked_css(callbacks.format_embedded, *template_literal, old(f)@, final(f)@, r),
        final(f).allocator == old(f).allocator,
{
    if !template_literal.is_no_substitution_template() {
        return false;
    }
    if !is_in_css_jsx(template_literal) {
        return false;
    }
    let template_content = template_literal.quasis[0].raw;
    if trim(template_content).is_empty() {
        f.write_element(FormatElement::Token("``"));
        return true;
    }
    let sent = dedent(template_content, f.allocator);
    let format_embedded = &callbacks.format_embedded;
    let reply = format_embedded("styled-jsx", sent);
    let attempted = reply.is_some();
    write_embedded_reply(f, reply);
    attempted
}

/// Try to format a template literal inside Angular @Component's template/styles
/// property. Returns `true` if formatting was performed, `false` if not applicable.
pub fn try_format_angular_component<E, D>(
    template_literal: &TemplateLiteral<'_>,
    f: &mut Formatter<'_>,
    callbacks: &ExternalCallbacks<E, D>,
) -> (r: bool) where E: Fn(&str, &str) -> TextReply, D: Fn(&str, &[&str]) -> DocReply
    requires
        angular_language(template_literal.parent) matches Some(language) ==> may_be_asked_raw(
            callbacks.format_embedded,
            language,
            *template_literal,
        ),
    ensures
        match angular_language(template_literal.parent) {
            Some(language) => asked_raw(
                callbacks.format_embedded,
                language,
                *template_literal,
                old(f)@,
                final(f)@,
                r,
            ),
            None => not_applicable(old(f)@, final(f)@, r),
        },
        final(f).allocator == old(f).allocator,
{
    if !template_literal.is_no_substitution_template() {
        return false;
    }
    match get_angular_component_language(template_literal) {
        Some(language) => {
            format_raw_template(template_literal, language, f, &callbacks.format_embedded)
        },
        None => false,
    }
}

/// Lines that stand side by side are written side by side: a line as its text and a
/// line break, and an empty one as an empty line.
pub proof fn law_lines_are_written_one_by_one(
    front: Seq<Seq<char>>,
    back: Seq<Seq<char>>,
    line: Seq<char>,
    indent_width: u8,
)
    ensures
        written_lines(front + back, indent_width) == written_lines(front, indent_width)
            + written_lines(back, indent_width),
        written_lines(Seq::empty(), indent_width).len() == 0,
        line.len() > 0 ==> written_lines(seq![line], indent_width) == seq![
            FormatElement::Text { text: line, indent_width },
            FormatElement::Line(LineMode::Hard),
        ],
        line.len() == 0 ==> written_lines(seq![line], indent_width) == seq![
            FormatElement::<Seq<char>>::Line(LineMode::Empty),
        ],
    decreases back.len(),
{
    let nothing = Seq::<Seq<char>>::empty();
    assert(seq![line].drop_last() =~= nothing);
    assert(written_lines(nothing, indent_width) =~= Seq::empty());
    assert(written_lines(seq![line], indent_width) =~= if line.len() == 0 {
        seq![FormatElement::<Seq<char>>::Line(LineMode::Empty)]
    } else {
        seq![
            FormatElement::Text { text: line, indent_width },
            FormatElement::Line(LineMode::Hard),
        ]
    });
    if back.len() == 0 {
        assert(front + back =~= front);
        assert(back =~= nothing);
        assert(written_lines(front, indent_width) + written_lines(back, indent_width)
            =~= written_lines(front, indent_width));
    } else {
        law_lines_are_written_one_by_one(front, back.drop_last(), line, indent_width);
        assert((front + back).drop_last() =~= front + back.drop_last());
        assert((front + back).last() == back.last());
        assert(written_lines(front + back, indent_width) =~= written_lines(front, indent_width)
            + written_lines(back, indent_width));
    }
}

/// An answer that is a text, even an empty one, is written line by line between
/// backticks, behind what was there; any other answer is no text, and without a text
/// nothing is written.
pub proof fn law_answered_text_is_written(reply: TextReply, before: FormatterState)
    ensures
        ({
            let (after, r) = embedded_outcome(reply_text(reply), before);
            &&& r <==> reply is Some && reply->0 is Ok
            &&& !r ==> after == before
            &&& reply matches Some(Ok(text)) ==> after.elements == before.elements + in_template(
                written_lines(terminated_lines(text@), before.indent_width),
            )
            &&& after.indent_width == before.indent_width
            &&& after.next_group_id == before.next_group_id
        }),
{
}

/// What is written for a template without expressions: two backticks where it is blank;
/// else the formatter is asked about its dedented text, and writes it if it answers with
/// a text. A template with expressions is refused.
pub proof fn law_raw_question<E>(
    format_embedded: E,
    language: &str,
    literal: TemplateLiteral<'_>,
    before: FormatterState,
    after: FormatterState,
    r: bool,
) where E: Fn(&str, &str) -> TextReply
    requires
        asked_raw(format_embedded, language, literal, before, after, r),
    ensures
        literal.quasis@.len() != 1 ==> !r && after == before,
        literal.quasis@.len() == 1 && is_blank(literal.quasis@[0].raw@) ==> r && after
            == before.wrote(empty_template()),
        literal.quasis@.len() == 1 && !is_blank(literal.quasis@[0].raw@) ==> exists|
            sent: &str,
            reply: TextReply,
        |
            {
                &&& #[trigger] call_ensures(format_embedded, (language, sent), reply)
                &&& sent@ == dedented(literal.quasis@[0].raw@)
                &&& after == embedded_outcome(reply_text(reply), before).0
                &&& r <==> reply is Some && reply->0 is Ok
            },
{
    law_trimmed(literal.quasis@[0].raw@);
}

/// The same for a template inside a css prop or styled-jsx, where an answer of any kind
/// makes it an attempt.
pub proof fn law_css_question<E>(
    format_embedded: E,
    literal: TemplateLiteral<'_>,
    before: FormatterState,
    after: FormatterState,
    r: bool,
) where E: Fn(&str, &str) -> TextReply
    requires
        asked_css(format_embedded, literal, before, after, r),
    ensures
        literal.quasis@.len() != 1 || !in_css_jsx(literal.parent) ==> !r && after == before,
        literal.quasis@.len() == 1 && in_css_jsx(literal.parent) && is_blank(
            literal.quasis@[0].raw@,
        ) ==> r && after == before.wrote(empty_template()),
        literal.quasis@.len() == 1 && in_css_jsx(literal.parent) && !is_blank(
            literal.quasis@[0].raw@,
        ) ==> exists|sent: &str, reply: TextReply|
            {
                &&& #[trigger] call_ensures(format_embedded, ("styled-jsx", sent), reply)
                &&& sent@ == dedented(literal.quasis@[0].raw@)
                &&& after == embedded_outcome(reply_text(reply), before).0
                &&& r <==> reply is Some
            },
{
    law_trimmed(literal.quasis@[0].raw@);
}

/// The languages that tags announce: `css` and `styled` CSS, `gql` and `graphql` GraphQL,
/// `html` HTML, `md` and `markdown` Markdown, and no other tag any.
pub proof fn law_languages_of_tags(name: Seq<char>)
    ensures
        tag_language(Some(name)) == Some(TagLanguage::Css) <==> name == seq!['c', 's', 's'] || name
            == seq!['s', 't', 'y', 'l', 'e', 'd'],
        tag_language(Some(name)) == Some(TagLanguage::GraphQL) <==> name == seq!['g', 'q', 'l']
            || name == seq!['g', 'r', 'a', 'p', 'h', 'q', 'l'],
        tag_language(Some(name)) == Some(TagLanguage::Html) <==> name == seq!['h', 't', 'm', 'l'],
        tag_language(Some(name)) == Some(TagLanguage::Markdown) <==> name == seq!['m', 'd'] || name
            == seq!['m', 'a', 'r', 'k', 'd', 'o', 'w', 'n'],
        tag_language(None) is None,
{
    reveal_strlit("css");
    reveal_strlit("styled");
    reveal_strlit("gql");
    reveal_strlit("graphql");
    reveal_strlit("html");
    reveal_strlit("md");
    reveal_strlit("markdown");
    assert("css"@ =~= seq!['c', 's', 's']);
    assert("styled"@ =~= seq!['s', 't', 'y', 'l', 'e', 'd']);
    assert("gql"@ =~= seq!['g', 'q', 'l']);
    assert("graphql"@ =~= seq!['g', 'r', 'a', 'p', 'h', 'q', 'l']);
    assert("html"@ =~= seq!['h', 't', 'm', 'l']);
    assert("md"@ =~= seq!['m', 'd']);
    assert("markdown"@ =~= seq!['m', 'a', 'r', 'k', 'd', 'o', 'w', 'n']);
    assert("css"@[0] != "gql"@[0]);
}

/// A tagged template is asked about in the language that its tag announces, and refused
/// where it announces none.
pub proof fn law_tagged_question<E, D>(
    callbacks: ExternalCallbacks<E, D>,
    tagged: TaggedTemplateExpression<'_>,
    before: FormatterState,
    after: FormatterState,
    r: Option<bool>,
) where E: Fn(&str, &str) -> TextReply, D: Fn(&str, &[&str]) -> DocReply
    requires
        asked_tagged(callbacks, tagged, before, after, r),
    ensures
        ({
            let language = tag_language(tag_name(tagged.tag));
            let asked = |name: &str| -> bool
                {
                    r is Some && asked_raw(
                        callbacks.format_embedded,
                        name,
                        tagged.quasi,
                        before,
                        after,
                        r->0,
                    )
                };
            &&& language is None ==> after == before && r == Some(false)
            &&& language == Some(TagLanguage::Css) ==> asked("tagged-css")
            &&& language == Some(TagLanguage::Html) ==> asked("tagged-html")
            &&& language == Some(TagLanguage::Markdown) ==> asked("tagged-markdown")
            &&& language == Some(TagLanguage::GraphQL) ==> asked_graphql(
                callbacks.format_embedded_doc,
                tagged.quasi,
                before,
                after,
                r,
            )
        }),
{
}

/// No question is granted about a template but the one about its dedented text in its own
/// language.
pub proof fn law_raw_asks_one_question<E>(
    format_embedded: E,
    language: &str,
    literal: TemplateLiteral<'_>,
) where E: Fn(&str, &str) -> TextReply
    requires
        forall|sent: &str|
            sent@ == dedented(literal.quasis@[0].raw@) ==> #[trigger] call_requires(
                format_embedded,
                (language, sent),
            ),
    ensures
        may_be_asked_raw(format_embedded, language, literal),
{
}

/// No question is granted about a tagged template but the one in the language of its tag.
pub proof fn law_tagged_asks_one_question<E, D>(
    callbacks: ExternalCallbacks<E, D>,
    tagged: TaggedTemplateExpression<'_>,
) where E: Fn(&str, &str) -> TextReply, D: Fn(&str, &[&str]) -> DocReply
    requires
        ({
            let language = tag_language(tag_name(tagged.tag));
            let asked = |name: &str| -> bool
                { may_be_asked_raw(callbacks.format_embedded, name, tagged.quasi) };
            &&& language == Some(TagLanguage::Css) ==> asked("tagged-css")
            &&& language == Some(TagLanguage::Html) ==> asked("tagged-html")
            &&& language == Some(TagLanguage::Markdown) ==> asked("tagged-markdown")
            &&& language == Some(TagLanguage::GraphQL) ==> may_be_asked_graphql(
                callbacks.format_embedded_doc,
                tagged.quasi,
            )
        }),
    ensures
        may_be_asked_tagged(callbacks, tagged),
{
}

/// Where a template of a language that takes no expressions is not formatted, nothing
/// is written.
pub proof fn law_refusal_writes_nothing<E>(
    format_embedded: E,
    language: &str,
    literal: TemplateLiteral<'_>,
    before: FormatterState,
    after: FormatterState,
    r: bool,
) where E: Fn(&str, &str) -> TextReply
    requires
        asked_raw(format_embedded, language, literal, before, after, r),
        !r,
    ensures
        after == before,
{
}

/// Where a template inside a css prop or styled-jsx is not even tried, nothing is
/// written.
pub proof fn law_css_refusal_writes_nothing<E>(
    format_embedded: E,
    literal: TemplateLiteral<'_>,
    before: FormatterState,
    after: FormatterState,
    r: bool,
) where E: Fn(&str, &str) -> TextReply
    requires
        asked_css(format_embedded, literal, before, after, r),
        !r,
    ensures
        after == before,
{
}

/// Nothing is asked about a template with expressions, in a language that takes none,
/// nor about one that is blank: a formatter that takes no question at all will do.
pub proof fn law_raw_asks_nothing<E>(
    format_embedded: E,
    language: &str,
    literal: TemplateLiteral<'_>,
) where E: Fn(&str, &str) -> TextReply
    requires
        !literal.single() || trimmed(literal.quasis@[0].raw@).len() == 0,
    ensures
        may_be_asked_raw(format_embedded, language, literal),
{
}

/// Nothing is asked about a tagged template whose tag announces no language, nor where
/// its language has nothing to ask: formatters that take no question at all will do.
pub proof fn law_tagged_asks_nothing<E, D>(
    callbacks: ExternalCallbacks<E, D>,
    tagged: TaggedTemplateExpression<'_>,
) where E: Fn(&str, &str) -> TextReply, D: Fn(&str, &[&str]) -> DocReply
    requires
        match tag_language(tag_name(tagged.tag)) {
            None => true,
            Some(TagLanguage::GraphQL) => !formattable(tagged.quasi.quasis@) || forall|i: int|
                0 <= i < tagged.quasi.quasis@.len() ==> comments_only(
                    #[trigger] cooked_texts(tagged.quasi.quasis@)[i],
                ),
            Some(_) => !tagged.quasi.single() || trimmed(tagged.quasi.quasis@[0].raw@).len() == 0,
        },
    ensures
        may_be_asked_tagged(callbacks, tagged),
{
    if tag_language(tag_name(tagged.tag)) == Some(TagLanguage::GraphQL) {
        law_graphql_asks_nothing(callbacks.format_embedded_doc, tagged.quasi);
    }
}

/// Where a tagged template is not formatted, nothing is written, whatever its tag.
pub proof fn law_tagged_refusal_writes_nothing<E, D>(
    callbacks: ExternalCallbacks<E, D>,
    tagged: TaggedTemplateExpression<'_>,
    before: FormatterState,
    after: FormatterState,
    r: Option<bool>,
) where E: Fn(&str, &str) -> TextReply, D: Fn(&str, &[&str]) -> DocReply
    requires
        asked_tagged(callbacks, tagged, before, after, r),
        r != Some(true),
    ensures
        after == before,
{
}

/// A template that is formatted is written between backticks, behind what was there.
pub proof fn law_formatted_template_is_quoted<E, D>(
    callbacks: ExternalCallbacks<E, D>,
    tagged: TaggedTemplateExpression<'_>,
    before: FormatterState,
    after: FormatterState,
) where E: Fn(&str, &str) -> TextReply, D: Fn(&str, &[&str]) -> DocReply
    requires
        asked_tagged(callbacks, tagged, before, after, Some(true)),
    ensures
        after.indent_width == before.indent_width,
        after.elements == before.elements + empty_template() || exists|content: Elements|
            after.elements == before.elements + #[trigger] in_template(content),
{
}

/// The texts of a written document, in order.
pub open spec fn element_texts(elements: Elements) -> Seq<Seq<char>>
    decreases elements.len(),
{
    if elements.len() == 0 {
        Seq::empty()
    } else {
        match elements.last() {
            FormatElement::Text { text, .. } => element_texts(elements.drop_last()).push(text),
            _ => element_texts(elements.drop_last()),
        }
    }
}

/// The number of line breaks in a written document.
pub open spec fn line_breaks(elements: Elements) -> nat
    decreases elements.len(),
{
    if elements.len() == 0 {
        0
    } else {
        line_breaks(elements.drop_last()) + if elements.last() is Line {
            1nat
        } else {
            0nat
        }
    }
}

/// Every line of a formatted text is written, in order, unless it is empty; and each,
/// empty or not, has one line break.
pub proof fn law_formatted_lines_are_kept(pieces: Seq<Seq<char>>, indent_width: u8)
    ensures
        element_texts(written_lines(pieces, indent_width)) == pieces.filter(not_empty()),
        line_breaks(written_lines(pieces, indent_width)) == pieces.len(),
    decreases pieces.len(),
{
    reveal(Seq::filter);
    if pieces.len() > 0 {
        let front = written_lines(pieces.drop_last(), indent_width);
        let all = written_lines(pieces, indent_width);
        law_formatted_lines_are_kept(pieces.drop_last(), indent_width);
        if pieces.last().len() == 0 {
            assert(all.drop_last() =~= front);
        } else {
            let with_text = all.drop_last();
            assert(with_text.drop_last() =~= front);
            assert(element_texts(with_text) == element_texts(front).push(pieces.last()));
            assert(line_breaks(with_text) == line_breaks(front));
        }
    }
}

} // verus!
