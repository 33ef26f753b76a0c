//! Templates written in GraphQL: `` gql`...` ``.

use rustc_hash::FxHashMap;
use vstd::prelude::*;

use crate::ast::TemplateElement;
use crate::ast::TemplateLiteral;
use crate::embedded_ir::fits_a_template;
use crate::embedded_ir::group_ids;
use crate::embedded_ir::group_of;
use crate::embedded_ir::ids_after;
use crate::embedded_ir::law_group_names_are_distinct;
use crate::embedded_ir::law_groups_are_counted;
use crate::embedded_ir::law_written_fits_a_template;
use crate::embedded_ir::lemma_ids_grow;
use crate::embedded_ir::name_groups;
use crate::embedded_ir::write_embedded_ir;
use crate::embedded_ir::written;
use crate::embedded_ir::GroupIds;
use crate::ir::empty_template;
use crate::ir::in_template;
use crate::ir::ir_of;
use crate::ir::Elements;
use crate::ir::EmbeddedIR;
use crate::ir::FormatElement;
use crate::ir::Formatter;
use crate::ir::FormatterState;
use crate::ir::GroupId;
use crate::ir::Ir;
use crate::ir::LineMode;
use crate::ir::Tag;
use crate::text::chars_of;
use crate::text::first_in;
use crate::text::is_blank;
use crate::text::is_white_space;
use crate::text::law_line_feed_parts_lines;
use crate::text::law_lines_join_back;
use crate::text::law_trimmed;
use crate::text::lemma_first_in;
use crate::text::lemma_last_line;
use crate::text::lemma_trimmed_front;
use crate::text::line_feed;
use crate::text::lines;
use crate::text::split_lines;
use crate::text::texts;
use crate::text::trim;
use crate::text::trimmed;

verus! {

/// Whether a line is a GraphQL comment.
pub open spec fn is_comment(line: Seq<char>) -> bool {
    trimmed(line).len() > 0 && trimmed(line)[0] == '#'
}

/// Whether every line of `text` is blank or a GraphQL comment.
pub open spec fn comments_only(text: Seq<char>) -> bool {
    forall|k: int|
        0 <= k < lines(text).len() ==> is_blank(#[trigger] lines(text)[k]) || is_comment(
            lines(text)[k],
        )
}

/// Whether the first two of several lines are blank.
pub open spec fn starts_with_blank_line(text: Seq<char>) -> bool {
    lines(text).len() > 2 && is_blank(lines(text)[0]) && is_blank(lines(text)[1])
}

/// Whether the last two of several lines are blank.
pub open spec fn ends_with_blank_line(text: Seq<char>) -> bool {
    let n = lines(text).len();
    n > 2 && is_blank(lines(text)[n - 1]) && is_blank(lines(text)[n - 2])
}

/// The document of a list of trimmed lines: the lines that are not empty, each on a
/// line of its own, with an empty line where empty lines stood between two of them.
pub open spec fn comment_parts(pieces: Seq<Seq<char>>) -> Ir
    decreases pieces.len(),
{
    if pieces.len() == 0 {
        Seq::empty()
    } else {
        let front = comment_parts(pieces.drop_last());
        let line = pieces.last();
        if line.len() == 0 {
            front
        } else if front.len() == 0 {
            seq![EmbeddedIR::Text(line)]
        } else {
            let mode = if pieces[pieces.len() - 2].len() == 0 {
                LineMode::Empty
            } else {
                LineMode::Hard
            };
            front + seq![EmbeddedIR::Line(mode), EmbeddedIR::ExpandParent, EmbeddedIR::Text(line)]
        }
    }
}

/// The lines of `text`, each trimmed.
pub open spec fn trimmed_lines(text: Seq<char>) -> Seq<Seq<char>> {
    lines(text).map_values(|line: Seq<char>| trimmed(line))
}

/// The document of a text of comments, if there is anything to print.
pub open spec fn comment_ir(text: Seq<char>) -> Option<Ir> {
    let parts = comment_parts(trimmed_lines(text));
    if parts.len() == 0 {
        None
    } else {
        Some(parts)
    }
}

/// The document that a list of items may be.
pub open spec fn optional_ir(items: Option<Vec<EmbeddedIR>>) -> Option<Ir> {
    match items {
        Some(items) => Some(ir_of(items@)),
        None => None,
    }
}

/// Whether `line` is blank: nothing is left of it once it is trimmed.
fn is_blank_line(line: &str) -> (r: bool)
    ensures
        r == is_blank(line@),
{
    proof {
        law_trimmed(line@);
    }
    trim(line).is_empty()
}

/// Check if every line in the text is whitespace-only or a GraphQL comment (`# ...`).
pub fn is_graphql_comments_and_whitespace_only(text: &str) -> (r: bool)
    ensures
        r == comments_only(text@),
{
    let pieces = split_lines(text);
    let ghost all = lines(text@);
    for i in 0..pieces.len()
        invariant
            texts(pieces@) == all,
            all == lines(text@),
            forall|k: int| 0 <= k < i ==> is_blank(#[trigger] all[k]) || is_comment(all[k]),
    {
        let trimmed_line = trim(pieces[i]);
        proof {
            assert(all[i as int] == pieces[i as int]@);
            law_trimmed(all[i as int]);
        }
        if !trimmed_line.is_empty() {
            let chars = chars_of(trimmed_line);
            if chars[0] != '#' {
                return false;
            }
        }
    }
    true
}

/// Build IR for a comment-only quasi.
///
/// Extracts comment lines, joins with hardline, and preserves blank lines
/// between comment groups.
pub fn build_graphql_comment_ir(text: &str) -> (r: Option<Vec<EmbeddedIR>>)
    ensures
        optional_ir(r) == comment_ir(text@),
{
    let pieces = split_lines(text);
    let ghost all = trimmed_lines(text@);
    let mut parts: Vec<EmbeddedIR> = Vec::new();
    let mut previous_empty: bool = false;
    assert(ir_of(parts@) =~= comment_parts(all.take(0)));
    for i in 0..pieces.len()
        invariant
            texts(pieces@) == lines(text@),
            all == trimmed_lines(text@),
            ir_of(parts@) == comment_parts(all.take(i as int)),
            i > 0 ==> previous_empty == (all[i - 1].len() == 0),
    {
        let line = trim(pieces[i]);
        let ghost before = ir_of(parts@);
        proof {
            assert(lines(text@)[i as int] == pieces[i as int]@);
            assert(all[i as int] == line@);
            assert(all.take(i + 1).drop_last() =~= all.take(i as int));
        }
        let line_empty = line.is_empty();
        if !line_empty {
            if parts.len() > 0 {
                let mode = if previous_empty {
                    LineMode::Empty
                } else {
                    LineMode::Hard
                };
                parts.push(EmbeddedIR::Line(mode));
                parts.push(EmbeddedIR::ExpandParent);
            }
            parts.push(EmbeddedIR::Text(line.to_string()));
        }
        assert(ir_of(parts@) =~= comment_parts(all.take(i + 1)));
        previous_empty = line_empty;
    }
    assert(all.take(pieces.len() as int) =~= all);
    if parts.is_empty() {
        None
    } else {
        Some(parts)
    }
}

/// What is known of one part of a template.
#[derive(Debug)]
pub struct QuasiInfo<'a> {
    /// The cooked text of the quasi.
    pub text: &'a str,
    /// Whether the quasi contains only whitespace and/or GraphQL comments.
    pub comments_only: bool,
    /// Whether there is a blank line at the beginning of this quasi.
    pub starts_with_blank_line: bool,
    /// Whether there is a blank line at the end of this quasi.
    pub ends_with_blank_line: bool,
}

impl<'a> QuasiInfo<'a> {
    /// Whether what is known is true.
    pub open spec fn accurate(self) -> bool {
        &&& self.comments_only == comments_only(self.text@)
        &&& self.starts_with_blank_line == starts_with_blank_line(self.text@)
        &&& self.ends_with_blank_line == ends_with_blank_line(self.text@)
    }
}

/// The texts of the parts of a template.
pub open spec fn info_texts(infos: Seq<QuasiInfo<'_>>) -> Seq<Seq<char>> {
    infos.map_values(|info: QuasiInfo<'_>| info.text@)
}

/// Whether all that is known of the parts is true.
pub open spec fn all_accurate(infos: Seq<QuasiInfo<'_>>) -> bool {
    forall|i: int| 0 <= i < infos.len() ==> (#[trigger] infos[i]).accurate()
}

/// The cooked texts of the parts of a template.
pub open spec fn cooked_texts(quasis: Seq<TemplateElement<'_>>) -> Seq<Seq<char>> {
    quasis.map_values(|quasi: TemplateElement<'_>| quasi.cooked->0@)
}

/// Whether what follows `line` stands within a GraphQL comment: there is a `#` in it,
/// and no carriage return behind that ends the comment.
pub open spec fn ends_in_comment(line: Seq<char>) -> bool {
    exists|k: int|
        0 <= k < line.len() && #[trigger] line[k] == '#' && forall|j: int|
            k < j < line.len() ==> line[j] != '\r'
}

/// Whether the part `i` keeps the template from being formatted: its text is not
/// known, or the expression behind it stands within a comment.
pub open spec fn hinders(quasis: Seq<TemplateElement<'_>>, i: int) -> bool {
    ||| quasis[i].cooked is None
    ||| i != quasis.len() - 1 && ends_in_comment(lines(quasis[i].cooked->0@).last())
}

/// Whether a template can be formatted.
pub open spec fn formattable(quasis: Seq<TemplateElement<'_>>) -> bool {
    forall|i: int| 0 <= i < quasis.len() ==> !#[trigger] hinders(quasis, i)
}

/// The texts that are not comments alone.
pub open spec fn needs_formatting() -> spec_fn(Seq<char>) -> bool {
    |text: Seq<char>| !comments_only(text)
}

/// The texts that are sent to the formatter, in order.
pub open spec fn requests(quasis: Seq<Seq<char>>) -> Seq<Seq<char>> {
    quasis.filter(needs_formatting())
}

/// The document of the part `i`: that of its comments, or else the answer to its
/// request, if there is one.
pub open spec fn graphql_part(quasis: Seq<Seq<char>>, irs: Seq<Ir>, i: int) -> Option<Ir> {
    if comments_only(quasis[i]) {
        comment_ir(quasis[i])
    } else {
        let k = requests(quasis.take(i)).len();
        if k < irs.len() {
            Some(irs[k as int])
        } else {
            None
        }
    }
}

/// The documents of all parts.
pub open spec fn graphql_parts(quasis: Seq<Seq<char>>, irs: Seq<Ir>) -> Seq<Option<Ir>> {
    Seq::new(quasis.len(), |i: int| graphql_part(quasis, irs, i))
}

/// The groups that have a name once the first `n` parts are written.
pub open spec fn ids_before(parts: Seq<Option<Ir>>, ids: GroupIds, n: int) -> GroupIds
    decreases n,
{
    if n <= 0 {
        ids
    } else {
        match parts[n - 1] {
            Some(ir) => ids_after(ir, ids_before(parts, ids, n - 1)),
            None => ids_before(parts, ids, n - 1),
        }
    }
}

/// No group has a name, and `next` will be the first.
pub open spec fn no_groups(next: u32) -> GroupIds {
    group_ids(Map::empty(), next)
}

/// Whether there are numbers left for the groups of all parts.
pub open spec fn groups_fit(parts: Seq<Option<Ir>>, next: u32) -> bool {
    ids_before(parts, no_groups(next), parts.len() as int).next <= u32::MAX
}

/// What stands in the template so far, and whether the next piece has to be
/// separated from it.
#[verifier::ext_equal]
pub struct Content {
    pub elements: Elements,
    pub open: bool,
}

impl Content {
    /// The content with a break behind it, if there has to be one.
    pub open spec fn broken(self, mode: LineMode) -> Elements {
        if self.open {
            self.elements + seq![FormatElement::Line(mode)]
        } else {
            self.elements
        }
    }
}

/// A template to be written: the texts of its parts, their documents, the number of
/// its expressions, and what the formatter goes by.
pub struct GraphqlTemplate {
    pub quasis: Seq<Seq<char>>,
    pub parts: Seq<Option<Ir>>,
    pub expressions: nat,
    pub ids: GroupIds,
    pub indent_width: u8,
}

impl GraphqlTemplate {
    /// `before`, and then the document of the part `i`. A part without a document
    /// leaves its blank line, unless it is the first or the last.
    pub open spec fn with_part(self, before: Content, i: int) -> Content {
        let blank = i != 0 && starts_with_blank_line(self.quasis[i]);
        match self.parts[i] {
            Some(ir) => Content {
                elements: before.broken(
                    if blank {
                        LineMode::Empty
                    } else {
                        LineMode::Hard
                    },
                ) + written(ir, ids_before(self.parts, self.ids, i), self.indent_width),
                open: true,
            },
            None => if blank && i != self.quasis.len() - 1 {
                Content { elements: before.broken(LineMode::Empty), open: before.open }
            } else {
                before
            },
        }
    }

    /// `before`, and then the blank line and the expression behind the part `i`.
    pub open spec fn with_expression(self, before: Content, i: int) -> Content {
        let ended = if ends_with_blank_line(self.quasis[i]) {
            Content { elements: before.broken(LineMode::Empty), open: false }
        } else {
            before
        };
        if i < self.expressions {
            Content {
                elements: ended.broken(LineMode::Hard).push(
                    FormatElement::TemplateExpression(i as usize),
                ),
                open: true,
            }
        } else {
            ended
        }
    }

    /// The first `n` parts, each but the last with its expression.
    pub open spec fn content(self, n: int) -> Content
        decreases n,
    {
        if n <= 0 {
            Content { elements: Seq::empty(), open: false }
        } else {
            let with_part = self.with_part(self.content(n - 1), n - 1);
            if n == self.quasis.len() {
                with_part
            } else {
                self.with_expression(with_part, n - 1)
            }
        }
    }
}

/// The template that these parts and these answers make up.
pub open spec fn graphql_template(
    quasis: Seq<Seq<char>>,
    expressions: nat,
    irs: Seq<Ir>,
    before: FormatterState,
) -> GraphqlTemplate {
    GraphqlTemplate {
        quasis,
        parts: graphql_parts(quasis, irs),
        expressions,
        ids: no_groups(before.next_group_id),
        indent_width: before.indent_width,
    }
}

/// What has been written once the template is: two backticks where there is nothing
/// to put between them.
pub open spec fn graphql_document(
    quasis: Seq<Seq<char>>,
    expressions: nat,
    irs: Seq<Ir>,
    before: FormatterState,
) -> FormatterState {
    let template = graphql_template(quasis, expressions, irs, before);
    let n = quasis.len() as int;
    if expressions == 0 && forall|i: int|
        0 <= i < n ==> (#[trigger] template.parts[i]) is None {
        before.wrote(empty_template())
    } else {
        FormatterState {
            elements: before.elements + in_template(template.content(n).elements),
            indent_width: before.indent_width,
            next_group_id: ids_before(template.parts, template.ids, n).next as u32,
        }
    }
}

/// What has been written, and what is returned, once the formatter has answered.
/// Without an answer nothing is written; nor where there are not numbers enough for
/// the groups.
pub open spec fn graphql_outcome(
    quasis: Seq<Seq<char>>,
    expressions: nat,
    irs: Option<Seq<Ir>>,
    before: FormatterState,
) -> (FormatterState, Option<bool>) {
    match irs {
        Some(irs) => if groups_fit(graphql_parts(quasis, irs), before.next_group_id) {
            (graphql_document(quasis, expressions, irs, before), Some(true))
        } else {
            (before, None)
        },
        None => (before, Some(false)),
    }
}

/// The documents that a list of answers holds.
pub open spec fn irs_of(irs: Seq<Vec<EmbeddedIR>>) -> Seq<Ir> {
    irs.map_values(|ir: Vec<EmbeddedIR>| ir_of(ir@))
}

/// What a formatter answers to a list of texts: nothing where there is none for the
/// language.
pub type DocReply = Option<Result<Vec<Vec<EmbeddedIR>>, String>>;

/// The documents of an answer, if there are any.
pub open spec fn reply_irs(reply: DocReply) -> Option<Seq<Ir>> {
    match reply {
        Some(Ok(irs)) => Some(irs_of(irs@)),
        _ => None,
    }
}

/// Whether what follows `line` stands within a GraphQL comment.
fn line_ends_in_comment(line: &str) -> (r: bool)
    ensures
        r == ends_in_comment(line@),
{
    let chars = chars_of(line);
    let mut r: bool = false;
    assert(!ends_in_comment(line@.take(0)));
    for i in 0..chars.len()
        invariant
            chars@ == line@,
            r == ends_in_comment(line@.take(i as int)),
    {
        let ghost before = line@.take(i as int);
        let ghost after = line@.take(i + 1);
        let c = chars[i];
        assert(after[i as int] == c);
        proof {
            if ends_in_comment(before) && c != '\r' {
                let k = choose|k: int|
                    0 <= k < before.len() && #[trigger] before[k] == '#' && forall|j: int|
                        k < j < before.len() ==> before[j] != '\r';
                assert(after[k] == '#');
                assert forall|j: int| k < j < after.len() implies after[j] != '\r' by {
                    if j < i {
                        assert(before[j] != '\r');
                    }
                }
            }
            if ends_in_comment(after) && c != '#' {
                let k = choose|k: int|
                    0 <= k < after.len() && #[trigger] after[k] == '#' && forall|j: int|
                        k < j < after.len() ==> after[j] != '\r';
                assert(before[k] == '#');
                assert forall|j: int| k < j < before.len() implies before[j] != '\r' by {
                    assert(after[j] != '\r');
                }
            }
        }
        if c == '#' {
            r = true;
        } else if c == '\r' {
            r = false;
        }
    }
    assert(line@.take(chars.len() as int) =~= line@);
    r
}

/// Look at each part of a template by its cooked text. There is nothing to say of a
/// template that cannot be formatted.
pub fn analyze_quasis<'a>(quasis: &Vec<TemplateElement<'a>>) -> (r: Option<Vec<QuasiInfo<'a>>>)
    ensures
        r is Some <==> formattable(quasis@),
        r matches Some(infos) ==> info_texts(infos@) == cooked_texts(quasis@) && all_accurate(
            infos@,
        ),
{
    let num_quasis: usize = quasis.len();
    let mut infos: Vec<QuasiInfo<'a>> = Vec::new();
    for i in 0..num_quasis
        invariant
            num_quasis == quasis@.len(),
            infos@.len() == i,
            forall|j: int| 0 <= j < i ==> !#[trigger] hinders(quasis@, j),
            forall|j: int| 0 <= j < i ==> (#[trigger] infos@[j]).text@ == quasis@[j].cooked->0@,
            all_accurate(infos@),
    {
        let text = match quasis[i].cooked {
            Some(text) => text,
            None => {
                assert(hinders(quasis@, i as int));
                return None;
            },
        };
        let is_last = i == num_quasis - 1;
        let pieces = split_lines(text);
        let num_lines: usize = pieces.len();
        proof {
            law_lines_join_back(text@);
            assert(texts(pieces@).len() == num_lines);
            assert forall|k: int| 0 <= k < num_lines implies lines(text@)[k]
                == #[trigger] pieces@[k]@ by {
                assert(texts(pieces@)[k] == pieces@[k]@);
            }
        }
        // The interpolation would stand within a GraphQL comment.
        if !is_last && line_ends_in_comment(pieces[num_lines - 1]) {
            assert(hinders(quasis@, i as int));
            return None;
        }
        let starts_with_blank_line = num_lines > 2 && is_blank_line(pieces[0]) && is_blank_line(
            pieces[1],
        );
        let ends_with_blank_line = num_lines > 2 && is_blank_line(pieces[num_lines - 1])
            && is_blank_line(pieces[num_lines - 2]);
        let comments_only = is_graphql_comments_and_whitespace_only(text);
        assert(!hinders(quasis@, i as int));
        infos.push(
            QuasiInfo { text, comments_only, starts_with_blank_line, ends_with_blank_line },
        );
    }
    assert(info_texts(infos@) =~= cooked_texts(quasis@));
    Some(infos)
}

/// The texts that need formatting, for one call of the formatter.
pub fn texts_to_format<'a>(infos: &Vec<QuasiInfo<'a>>) -> (r: Vec<&'a str>)
    requires
        all_accurate(infos@),
    ensures
        texts(r@) == requests(info_texts(infos@)),
{
    let ghost all = info_texts(infos@);
    let mut r: Vec<&'a str> = Vec::new();
    assert(texts(r@) =~= requests(all.take(0))) by {
        reveal(Seq::filter);
    }
    for i in 0..infos.len()
        invariant
            all == info_texts(infos@),
            all_accurate(infos@),
            texts(r@) == requests(all.take(i as int)),
    {
        let ghost before = texts(r@);
        proof {
            reveal(Seq::filter);
            assert(all.take(i + 1).drop_last() =~= all.take(i as int));
            assert(infos@[i as int].accurate());
        }
        if !infos[i].comments_only {
            r.push(infos[i].text);
            assert(texts(r@) =~= before.push(all[i as int]));
        }
    }
    assert(all.take(infos.len() as int) =~= all);
    r
}

/// The documents of the parts that are comments alone.
fn comment_irs(infos: &Vec<QuasiInfo<'_>>) -> (r: Vec<Option<Vec<EmbeddedIR>>>)
    requires
        all_accurate(infos@),
    ensures
        r@.len() == infos@.len(),
        forall|i: int|
            0 <= i < r@.len() && infos@[i].comments_only ==> optional_ir(#[trigger] r@[i])
                == comment_ir(infos@[i].text@),
{
    let mut r: Vec<Option<Vec<EmbeddedIR>>> = Vec::new();
    for i in 0..infos.len()
        invariant
            r@.len() == i,
            forall|j: int|
                0 <= j < i && infos@[j].comments_only ==> optional_ir(#[trigger] r@[j])
                    == comment_ir(infos@[j].text@),
    {
        if infos[i].comments_only {
            r.push(build_graphql_comment_ir(infos[i].text));
        } else {
            r.push(None);
        }
    }
    r
}

/// The document that a reference may stand for.
pub open spec fn part_of(part: Option<&Vec<EmbeddedIR>>) -> Option<Ir> {
    match part {
        Some(ir) => Some(ir_of(ir@)),
        None => None,
    }
}

/// The documents that a list of references stands for.
pub open spec fn parts_of(parts: Seq<Option<&Vec<EmbeddedIR>>>) -> Seq<Option<Ir>> {
    parts.map_values(|part: Option<&Vec<EmbeddedIR>>| part_of(part))
}

/// Map the answers back to the parts that they belong to.
fn collect_parts<'r>(
    infos: &Vec<QuasiInfo<'_>>,
    comments: &'r Vec<Option<Vec<EmbeddedIR>>>,
    irs: &'r Vec<Vec<EmbeddedIR>>,
) -> (parts: Vec<Option<&'r Vec<EmbeddedIR>>>)
    requires
        all_accurate(infos@),
        comments@.len() == infos@.len(),
        forall|i: int|
            0 <= i < infos@.len() && infos@[i].comments_only ==> optional_ir(
                #[trigger] comments@[i],
            ) == comment_ir(infos@[i].text@),
    ensures
        parts_of(parts@) == graphql_parts(info_texts(infos@), irs_of(irs@)),
{
    let ghost all = info_texts(infos@);
    let ghost expected = graphql_parts(all, irs_of(irs@));
    let mut parts: Vec<Option<&'r Vec<EmbeddedIR>>> = Vec::new();
    let mut answered: usize = 0;
    assert(requests(all.take(0)).len() == 0) by {
        reveal(Seq::filter);
    }
    for i in 0..infos.len()
        invariant
            all == info_texts(infos@),
            all_accurate(infos@),
            comments@.len() == infos@.len(),
            forall|j: int|
                0 <= j < infos@.len() && infos@[j].comments_only ==> optional_ir(
                    #[trigger] comments@[j],
                ) == comment_ir(infos@[j].text@),
            expected == graphql_parts(all, irs_of(irs@)),
            answered == requests(all.take(i as int)).len(),
            answered <= i,
            parts@.len() == i,
            parts_of(parts@) == expected.take(i as int),
    {
        let ghost before = parts_of(parts@);
        proof {
            reveal(Seq::filter);
            assert(all.take(i + 1).drop_last() =~= all.take(i as int));
            assert(infos@[i as int].accurate());
            assert(all[i as int] == infos@[i as int].text@);
        }
        if infos[i].comments_only {
            let part = match &comments[i] {
                Some(ir) => Some(ir),
                None => None,
            };
            assert(part_of(part) == optional_ir(comments@[i as int]));
            parts.push(part);
        } else {
            let part = if answered < irs.len() {
                Some(&irs[answered])
            } else {
                None
            };
            parts.push(part);
            answered += 1;
        }
        assert(part_of(parts@[i as int]) == expected[i as int]);
        assert(parts_of(parts@) =~= before.push(expected[i as int]));
        assert(expected.take(i + 1) =~= expected.take(i as int).push(expected[i as int]));
    }
    assert(expected.take(infos.len() as int) =~= expected);
    parts
}

proof fn lemma_ids_before_grow(parts: Seq<Option<Ir>>, ids: GroupIds, i: int, n: int)
    requires
        0 <= i <= n <= parts.len(),
    ensures
        ids_before(parts, ids, i).next <= ids_before(parts, ids, n).next,
    decreases n - i,
{
    if i < n {
        lemma_ids_before_grow(parts, ids, i + 1, n);
        if let Some(ir) = parts[i] {
            lemma_ids_grow(ir, ids_before(parts, ids, i), 0);
        }
    }
}

/// Whether there are numbers left for the groups of all parts.
fn groups_fit_parts(parts: &Vec<Option<&Vec<EmbeddedIR>>>, next: u32) -> (r: bool)
    ensures
        r == groups_fit(parts_of(parts@), next),
{
    let ghost all = parts_of(parts@);
    let ghost ids = no_groups(next);
    let mut map: FxHashMap<u32, GroupId> = FxHashMap::default();
    let mut n: u32 = next;
    for i in 0..parts.len()
        invariant
            all == parts_of(parts@),
            ids == no_groups(next),
            group_ids(map@, n) == ids_before(all, ids, i as int),
    {
        proof {
            assert(all[i as int] == part_of(parts@[i as int]));
            lemma_ids_before_grow(all, ids, i + 1, all.len() as int);
        }
        if let Some(ir) = parts[i] {
            match name_groups(ir.as_slice(), &mut map, n) {
                Some(after) => {
                    n = after;
                },
                None => {
                    return false;
                },
            }
        }
    }
    true
}

/// Write a break, if there has to be one.
fn write_break(f: &mut Formatter<'_>, open: bool, mode: LineMode)
    ensures
        final(f)@.elements == old(f)@.elements + (if open {
            seq![FormatElement::Line(mode)]
        } else {
            Seq::empty()
        }),
        final(f)@.indent_width == old(f)@.indent_width,
        final(f)@.next_group_id == old(f)@.next_group_id,
        final(f).allocator == old(f).allocator,
{
    if open {
        f.write_element(FormatElement::Line(mode));
    } else {
        assert(f@.elements + Seq::empty() =~= f@.elements);
    }
}

/// Write the part `i`, and say whether the next piece has to be separated from it.
fn write_part(
    info: &QuasiInfo<'_>,
    part: Option<&Vec<EmbeddedIR>>,
    i: usize,
    is_last: bool,
    has_prev_part: bool,
    f: &mut Formatter<'_>,
    group_id_map: &mut FxHashMap<u32, GroupId>,
    Ghost(template): Ghost<GraphqlTemplate>,
    Ghost(start): Ghost<Elements>,
) -> (open: bool)
    requires
        info.accurate(),
        i < template.quasis.len() == template.parts.len(),
        info.text@ == template.quasis[i as int],
        part_of(part) == template.parts[i as int],
        is_last == (i == template.quasis.len() - 1),
        has_prev_part == template.content(i as int).open,
        template.indent_width == old(f)@.indent_width,
        old(f)@.elements == start + template.content(i as int).elements,
        group_ids(old(group_id_map)@, old(f)@.next_group_id) == ids_before(
            template.parts,
            template.ids,
            i as int,
        ),
        ids_before(template.parts, template.ids, i + 1).next <= u32::MAX,
    ensures
        final(f)@.elements == start + template.with_part(
            template.content(i as int),
            i as int,
        ).elements,
        open == template.with_part(template.content(i as int), i as int).open,
        group_ids(final(group_id_map)@, final(f)@.next_group_id) == ids_before(
            template.parts,
            template.ids,
            i + 1,
        ),
        final(f)@.indent_width == old(f)@.indent_width,
        final(f).allocator == old(f).allocator,
{
    let ghost before = template.content(i as int);
    let blank = i != 0 && info.starts_with_blank_line;
    if let Some(ir) = part {
        let mode = if blank {
            LineMode::Empty
        } else {
            LineMode::Hard
        };
        write_break(f, has_prev_part, mode);
        assert(f@.elements =~= start + before.broken(mode));
        write_embedded_ir(ir.as_slice(), f, group_id_map);
        assert(f@.elements =~= start + template.with_part(before, i as int).elements);
        true
    } else {
        if blank && !is_last {
            write_break(f, has_prev_part, LineMode::Empty);
            assert(f@.elements =~= start + before.broken(LineMode::Empty));
        }
        has_prev_part
    }
}

/// Write the blank line and the expression behind the part `i`, and say whether the
/// next piece has to be separated from them.
fn write_expression(
    info: &QuasiInfo<'_>,
    i: usize,
    has_expression: bool,
    has_prev_part: bool,
    f: &mut Formatter<'_>,
    Ghost(template): Ghost<GraphqlTemplate>,
    Ghost(start): Ghost<Elements>,
    Ghost(before): Ghost<Content>,
) -> (open: bool)
    requires
        info.accurate(),
        i < template.quasis.len(),
        info.text@ == template.quasis[i as int],
        has_expression == (i < template.expressions),
        has_prev_part == before.open,
        old(f)@.elements == start + before.elements,
    ensures
        final(f)@.elements == start + template.with_expression(before, i as int).elements,
        open == template.with_expression(before, i as int).open,
        final(f)@.next_group_id == old(f)@.next_group_id,
        final(f)@.indent_width == old(f)@.indent_width,
        final(f).allocator == old(f).allocator,
{
    let mut open: bool = has_prev_part;
    if info.ends_with_blank_line {
        write_break(f, open, LineMode::Empty);
        assert(f@.elements =~= start + before.broken(LineMode::Empty));
        open = false;
    }
    if has_expression {
        write_break(f, open, LineMode::Hard);
        f.write_element(FormatElement::TemplateExpression(i));
        assert(f@.elements =~= start + template.with_expression(before, i as int).elements);
        open = true;
    }
    open
}

/// Write what stands between the backticks.
fn write_graphql_content(
    infos: &Vec<QuasiInfo<'_>>,
    parts: &Vec<Option<&Vec<EmbeddedIR>>>,
    expressions: usize,
    f: &mut Formatter<'_>,
    Ghost(template): Ghost<GraphqlTemplate>,
)
    requires
        all_accurate(infos@),
        template.quasis == info_texts(infos@),
        template.parts == parts_of(parts@),
        template.quasis.len() == template.parts.len(),
        template.expressions == expressions,
        template.ids == no_groups(old(f)@.next_group_id),
        template.indent_width == old(f)@.indent_width,
        groups_fit(template.parts, old(f)@.next_group_id),
    ensures
        final(f)@.elements == old(f)@.elements + template.content(
            template.quasis.len() as int,
        ).elements,
        final(f)@.next_group_id == ids_before(
            template.parts,
            template.ids,
            template.quasis.len() as int,
        ).next,
        final(f)@.indent_width == old(f)@.indent_width,
        final(f).allocator == old(f).allocator,
{
    let num_quasis: usize = infos.len();
    let ghost start = f@.elements;
    let mut group_id_map: FxHashMap<u32, GroupId> = FxHashMap::default();
    let mut has_prev_part: bool = false;
    assert(start + template.content(0).elements =~= start);
    for i in 0..num_quasis
        invariant
            num_quasis == infos@.len(),
            parts@.len() == num_quasis,
            all_accurate(infos@),
            template.quasis == info_texts(infos@),
            template.parts == parts_of(parts@),
            template.expressions == expressions,
            ids_before(template.parts, template.ids, num_quasis as int).next <= u32::MAX,
            group_ids(group_id_map@, f.next_group_id) == ids_before(
                template.parts,
                template.ids,
                i as int,
            ),
            f@.elements == start + template.content(i as int).elements,
            has_prev_part == template.content(i as int).open,
            f@.indent_width == template.indent_width,
            f.allocator == old(f).allocator,
    {
        let ghost before = template.content(i as int);
        let ghost with_part = template.with_part(before, i as int);
        proof {
            assert(infos@[i as int].accurate());
            assert(template.quasis[i as int] == infos@[i as int].text@);
            assert(template.parts[i as int] == part_of(parts@[i as int]));
            lemma_ids_before_grow(template.parts, template.ids, i + 1, num_quasis as int);
        }
        let is_last = i == num_quasis - 1;
        has_prev_part = write_part(
            &infos[i],
            parts[i],
            i,
            is_last,
            has_prev_part,
            f,
            &mut group_id_map,
            Ghost(template),
            Ghost(start),
        );
        if !is_last {
            has_prev_part = write_expression(
                &infos[i],
                i,
                i < expressions,
                has_prev_part,
                f,
                Ghost(template),
                Ghost(start),
                Ghost(with_part),
            );
        }
    }
}

/// Whether no part has a document.
fn all_without_document(parts: &Vec<Option<&Vec<EmbeddedIR>>>) -> (r: bool)
    ensures
        r == forall|i: int| 0 <= i < parts@.len() ==> (#[trigger] parts_of(parts@)[i]) is None,
{
    for i in 0..parts.len()
        invariant
            forall|j: int| 0 <= j < i ==> (#[trigger] parts_of(parts@)[j]) is None,
    {
        if parts[i].is_some() {
            assert(parts_of(parts@)[i as int] is Some);
            return false;
        }
    }
    true
}

/// Write a template, once the formatter has answered for the texts that needed it.
/// Returns `Some(false)`, and writes nothing, where it has no answer, and `None`,
/// again without writing anything, where the numbers for groups would run out.
pub fn write_graphql_reply(
    infos: &Vec<QuasiInfo<'_>>,
    expressions: usize,
    reply: DocReply,
    f: &mut Formatter<'_>,
) -> (r: Option<bool>)
    requires
        all_accurate(infos@),
    ensures
        (final(f)@, r) == graphql_outcome(
            info_texts(infos@),
            expressions as nat,
            reply_irs(reply),
            old(f)@,
        ),
        final(f).allocator == old(f).allocator,
{
    let irs = match reply {
        Some(Ok(irs)) => irs,
        _ => return Some(false),
    };
    let ghost template = graphql_template(
        info_texts(infos@),
        expressions as nat,
        irs_of(irs@),
        f@,
    );
    let comments = comment_irs(infos);
    let parts = collect_parts(infos, &comments, &irs);
    if !groups_fit_parts(&parts, f.next_group_id) {
        return None;
    }
    if expressions == 0 && all_without_document(&parts) {
        f.write_element(FormatElement::Token("``"));
        return Some(true);
    }
    let ghost start = f@.elements;
    f.write_element(FormatElement::Token("`"));
    f.write_element(FormatElement::Tag(Tag::StartBlockIndent));
    write_graphql_content(infos, &parts, expressions, f, Ghost(template));
    f.write_element(FormatElement::Tag(Tag::EndBlockIndent));
    f.write_element(FormatElement::Token("`"));
    assert(f@.elements =~= start + in_template(
        template.content(template.quasis.len() as int).elements,
    ));
    Some(true)
}

/// How a GraphQL template comes to be written: what is asked of the formatter, and
/// what follows from the answer. A template that cannot be formatted is refused, and
/// one of comments alone is written, without an answer.
pub open spec fn asked_graphql<D>(
    format_embedded_doc: D,
    quasi: TemplateLiteral<'_>,
    before: FormatterState,
    after: FormatterState,
    r: Option<bool>,
) -> bool where D: Fn(&str, &[&str]) -> DocReply {
    let quasis = cooked_texts(quasi.quasis@);
    if !formattable(quasi.quasis@) {
        after == before && r == Some(false)
    } else if requests(quasis).len() == 0 {
        (after, r) == graphql_outcome(quasis, quasi.expressions as nat, Some(Seq::empty()), before)
    } else {
        exists|sent: &[&str], reply: DocReply|
            #![trigger call_ensures(format_embedded_doc, ("tagged-graphql", sent), reply)]
            {
                &&& texts(sent@) == requests(quasis)
                &&& call_ensures(format_embedded_doc, ("tagged-graphql", sent), reply)
                &&& (after, r) == graphql_outcome(
                    quasis,
                    quasi.expressions as nat,
                    reply_irs(reply),
                    before,
                )
            }
    }
}

/// The formatter takes the one question that a GraphQL template is: the texts that
/// need formatting, where the template can be formatted and there are any. No other
/// question is granted, so no other is asked.
pub open spec fn may_be_asked_graphql<D>(
    format_embedded_doc: D,
    quasi: TemplateLiteral<'_>,
) -> bool where D: Fn(&str, &[&str]) -> DocReply {
    let quasis = cooked_texts(quasi.quasis@);
    formattable(quasi.quasis@) && requests(quasis).len() > 0 ==> forall|sent: &[&str]|
        texts(sent@) == requests(quasis) ==> #[trigger] call_requires(
            format_embedded_doc,
            ("tagged-graphql", sent),
        )
}

/// Format a GraphQL template literal.
///
/// Handles both no-substitution and `${}` templates uniformly.
/// No dedent is applied: the GraphQL parser normalizes indentation.
///
/// Returns `Some(true)` if formatting was performed, `Some(false)` if not; and `None`
/// where the numbers for groups would run out.
pub fn format_graphql_doc<D>(
    quasi: &TemplateLiteral<'_>,
    f: &mut Formatter<'_>,
    format_embedded_doc: &D,
) -> (r: Option<bool>) where D: Fn(&str, &[&str]) -> DocReply
    requires
        may_be_asked_graphql(*format_embedded_doc, *quasi),
    ensures
        asked_graphql(*format_embedded_doc, *quasi, old(f)@, final(f)@, r),
        final(f).allocator == old(f).allocator,
{
    let infos = match analyze_quasis(&quasi.quasis) {
        Some(infos) => infos,
        None => return Some(false),
    };
    let sent = texts_to_format(&infos);
    let reply: DocReply = if sent.is_empty() {
        Some(Ok(Vec::new()))
    } else {
        format_embedded_doc("tagged-graphql", sent.as_slice())
    };
    assert(texts(sent@).len() == sent@.len());
    assert(sent@.len() == 0 ==> reply_irs(reply)->0 =~= Seq::empty());
    write_graphql_reply(&infos, quasi.expressions, reply, f)
}

/// The texts of a document, in order.
pub open spec fn ir_texts(ir: Ir) -> Seq<Seq<char>>
    decreases ir.len(),
{
    if ir.len() == 0 {
        Seq::empty()
    } else {
        match ir.last() {
            EmbeddedIR::Text(text) => ir_texts(ir.drop_last()).push(text),
            _ => ir_texts(ir.drop_last()),
        }
    }
}

/// The lines that are not empty.
pub open spec fn not_empty() -> spec_fn(Seq<char>) -> bool {
    |line: Seq<char>| line.len() > 0
}

/// The document of a list of comments holds every line that is not empty, once and
/// in order, and no other text.
pub proof fn law_comments_are_kept(pieces: Seq<Seq<char>>)
    ensures
        ir_texts(comment_parts(pieces)) == pieces.filter(not_empty()),
        comment_parts(pieces).len() == 0 <==> pieces.filter(not_empty()).len() == 0,
    decreases pieces.len(),
{
    reveal(Seq::filter);
    if pieces.len() > 0 {
        let front = comment_parts(pieces.drop_last());
        let line = pieces.last();
        law_comments_are_kept(pieces.drop_last());
        if line.len() > 0 {
            let all = comment_parts(pieces);
            if front.len() == 0 {
                assert(all.drop_last() =~= front);
            } else {
                let up_to_break = all.drop_last();
                assert(up_to_break.drop_last().drop_last() =~= front);
                assert(ir_texts(up_to_break.drop_last()) == ir_texts(front));
                assert(ir_texts(up_to_break) == ir_texts(front));
            }
        }
    }
}

/// A text has a document of comments unless all of its lines are blank.
pub proof fn law_blank_text_has_no_comments(text: Seq<char>)
    ensures
        comment_ir(text) is None <==> forall|k: int|
            0 <= k < lines(text).len() ==> is_blank(#[trigger] lines(text)[k]),
{
    let all = trimmed_lines(text);
    law_comments_are_kept(all);
    assert forall|k: int| 0 <= k < lines(text).len() implies is_blank(#[trigger] lines(text)[k])
        == (all[k].len() == 0) by {
        law_trimmed(lines(text)[k]);
    }
    lemma_nothing_kept(all);
}

proof fn lemma_nothing_kept(pieces: Seq<Seq<char>>)
    ensures
        pieces.filter(not_empty()).len() == 0 <==> forall|k: int|
            0 <= k < pieces.len() ==> (#[trigger] pieces[k]).len() == 0,
    decreases pieces.len(),
{
    reveal(Seq::filter);
    if pieces.len() > 0 {
        let rest = pieces.drop_last();
        lemma_nothing_kept(rest);
        assert(pieces[pieces.len() - 1] == pieces.last());
        if forall|k: int| 0 <= k < rest.len() ==> (#[trigger] rest[k]).len() == 0 {
            if pieces.last().len() == 0 {
                assert forall|k: int| 0 <= k < pieces.len() implies (#[trigger] pieces[k]).len()
                    == 0 by {
                    if k < rest.len() {
                        assert(rest[k].len() == 0);
                    }
                }
            }
        } else {
            let k = choose|k: int| 0 <= k < rest.len() && (#[trigger] rest[k]).len() != 0;
            assert(pieces[k].len() != 0);
        }
    }
}

proof fn lemma_comments_then_blanks(front: Seq<Seq<char>>, blanks: Seq<Seq<char>>)
    requires
        forall|k: int| 0 <= k < blanks.len() ==> (#[trigger] blanks[k]).len() == 0,
    ensures
        comment_parts(front + blanks) == comment_parts(front),
    decreases blanks.len(),
{
    if blanks.len() == 0 {
        assert(front + blanks =~= front);
    } else {
        assert((front + blanks).drop_last() =~= front + blanks.drop_last());
        assert((front + blanks).last() == blanks[blanks.len() - 1]);
        lemma_comments_then_blanks(front, blanks.drop_last());
    }
}

/// Between two comments stands an empty line if empty lines stood there, however
/// many, and else a line break.
pub proof fn law_blank_lines_between_comments(
    front: Seq<Seq<char>>,
    comment: Seq<char>,
    blanks: Seq<Seq<char>>,
    next: Seq<char>,
)
    requires
        comment.len() > 0,
        next.len() > 0,
        forall|k: int| 0 <= k < blanks.len() ==> (#[trigger] blanks[k]).len() == 0,
    ensures
        comment_parts((front.push(comment) + blanks).push(next)) == comment_parts(
            front.push(comment),
        ) + seq![
            EmbeddedIR::Line(
                if blanks.len() > 0 {
                    LineMode::Empty
                } else {
                    LineMode::Hard
                },
            ),
            EmbeddedIR::ExpandParent,
            EmbeddedIR::Text(next),
        ],
{
    let pieces = front.push(comment) + blanks;
    lemma_comments_then_blanks(front.push(comment), blanks);
    assert(pieces.push(next).drop_last() =~= pieces);
    assert(front.push(comment).last() == comment);
    if blanks.len() > 0 {
        assert(pieces.last() == blanks[blanks.len() - 1]);
    } else {
        assert(pieces.last() == comment);
    }
    assert(pieces.push(next)[pieces.len() - 1] == pieces.last());
}

proof fn lemma_requests_take(quasis: Seq<Seq<char>>, i: int)
    requires
        0 <= i <= quasis.len(),
    ensures
        requests(quasis.take(i)).len() <= requests(quasis).len(),
        forall|k: int|
            0 <= k < requests(quasis.take(i)).len() ==> requests(quasis)[k] == #[trigger] requests(
                quasis.take(i),
            )[k],
    decreases quasis.len() - i,
{
    reveal(Seq::filter);
    if i == quasis.len() {
        assert(quasis.take(i) =~= quasis);
    } else {
        lemma_requests_take(quasis, i + 1);
        assert(quasis.take(i + 1).drop_last() =~= quasis.take(i));
        assert forall|k: int| 0 <= k < requests(quasis.take(i)).len() implies requests(quasis)[k]
            == #[trigger] requests(quasis.take(i))[k] by {
            assert(requests(quasis.take(i + 1))[k] == requests(quasis.take(i))[k]);
        }
    }
}

proof fn lemma_request_of(quasis: Seq<Seq<char>>, i: int)
    requires
        0 <= i < quasis.len(),
        !comments_only(quasis[i]),
    ensures
        requests(quasis.take(i)).len() < requests(quasis).len(),
        requests(quasis)[requests(quasis.take(i)).len() as int] == quasis[i],
{
    reveal(Seq::filter);
    let k = requests(quasis.take(i)).len() as int;
    assert(quasis.take(i + 1).drop_last() =~= quasis.take(i));
    assert(requests(quasis.take(i + 1)) == requests(quasis.take(i)).push(quasis[i]));
    lemma_requests_take(quasis, i + 1);
    assert(requests(quasis.take(i + 1))[k] == quasis[i]);
}

/// Every part that needs formatting is sent, and gets the answer to its own text:
/// its request is its text, and no earlier part has the same request.
pub proof fn law_answers_go_to_their_parts(quasis: Seq<Seq<char>>, irs: Seq<Ir>, i: int)
    requires
        0 <= i < quasis.len(),
        !comments_only(quasis[i]),
        irs.len() == requests(quasis).len(),
    ensures
        ({
            let k = requests(quasis.take(i)).len() as int;
            &&& k < requests(quasis).len()
            &&& requests(quasis)[k] == quasis[i]
            &&& graphql_part(quasis, irs, i) == Some(irs[k])
        }),
        forall|j: int|
            0 <= j < i && !comments_only(#[trigger] quasis[j]) ==> requests(quasis.take(j)).len()
                < requests(quasis.take(i)).len(),
{
    lemma_request_of(quasis, i);
    assert forall|j: int| 0 <= j < i && !comments_only(#[trigger] quasis[j]) implies requests(
        quasis.take(j),
    ).len() < requests(quasis.take(i)).len() by {
        lemma_request_of(quasis.take(i), j);
        assert(quasis.take(i).take(j) =~= quasis.take(j));
    }
}

/// The places of the expressions in a written document, in order.
pub open spec fn expressions_in(elements: Elements) -> Seq<usize>
    decreases elements.len(),
{
    if elements.len() == 0 {
        Seq::empty()
    } else {
        match elements.last() {
            FormatElement::TemplateExpression(at) => expressions_in(elements.drop_last()).push(at),
            _ => expressions_in(elements.drop_last()),
        }
    }
}

proof fn lemma_no_expressions(front: Elements, back: Elements)
    requires
        forall|k: int| 0 <= k < back.len() ==> !((#[trigger] back[k]) is TemplateExpression),
    ensures
        expressions_in(front + back) == expressions_in(front),
    decreases back.len(),
{
    if back.len() == 0 {
        assert(front + back =~= front);
    } else {
        assert((front + back).drop_last() =~= front + back.drop_last());
        assert((front + back).last() == back[back.len() - 1]);
        lemma_no_expressions(front, back.drop_last());
    }
}

proof fn lemma_broken_has_no_expression(content: Content, mode: LineMode)
    ensures
        expressions_in(content.broken(mode)) == expressions_in(content.elements),
{
    let line: Elements = seq![FormatElement::Line(mode)];
    lemma_no_expressions(content.elements, line);
}

proof fn lemma_part_has_no_expression(template: GraphqlTemplate, before: Content, i: int)
    ensures
        expressions_in(template.with_part(before, i).elements) == expressions_in(before.elements),
{
    lemma_broken_has_no_expression(before, LineMode::Empty);
    lemma_broken_has_no_expression(before, LineMode::Hard);
    if let Some(ir) = template.parts[i] {
        let ids = ids_before(template.parts, template.ids, i);
        let document = written(ir, ids, template.indent_width);
        law_written_fits_a_template(ir, ids, template.indent_width);
        assert forall|k: int| 0 <= k < document.len() implies !((
        #[trigger] document[k]) is TemplateExpression) by {
            assert(fits_a_template(document[k]));
        }
        lemma_no_expressions(before.broken(LineMode::Empty), document);
        lemma_no_expressions(before.broken(LineMode::Hard), document);
    }
}

/// Every expression between two parts is written, once and in order.
pub proof fn law_expressions_are_kept(template: GraphqlTemplate, n: int)
    requires
        0 <= n <= template.quasis.len(),
        template.expressions <= usize::MAX,
    ensures
        ({
            let between = if n == template.quasis.len() {
                n - 1
            } else {
                n
            };
            expressions_in(template.content(n).elements) == Seq::new(
                if between <= 0 {
                    0
                } else if between <= template.expressions {
                    between as nat
                } else {
                    template.expressions
                },
                |k: int| k as usize,
            )
        }),
    decreases n,
{
    if n > 0 {
        let before = template.content(n - 1);
        let with_part = template.with_part(before, n - 1);
        law_expressions_are_kept(template, n - 1);
        lemma_part_has_no_expression(template, before, n - 1);
        if n < template.quasis.len() {
            let ended = if ends_with_blank_line(template.quasis[n - 1]) {
                Content { elements: with_part.broken(LineMode::Empty), open: false }
            } else {
                with_part
            };
            lemma_broken_has_no_expression(with_part, LineMode::Empty);
            lemma_broken_has_no_expression(ended, LineMode::Hard);
            if n - 1 < template.expressions {
                let all = template.content(n).elements;
                assert(all.drop_last() =~= ended.broken(LineMode::Hard));
                assert(expressions_in(all) =~= Seq::new(n as nat, |k: int| k as usize));
            }
        }
    } else {
        assert(expressions_in(template.content(n).elements) =~= Seq::new(0, |k: int| k as usize));
    }
}

/// What stands in the template so far is either still open, so that the next piece
/// is separated from it, or ends in an empty line, or is nothing. So no piece runs
/// into the one before it.
pub proof fn law_pieces_stand_apart(template: GraphqlTemplate, n: int)
    requires
        0 <= n <= template.quasis.len(),
    ensures
        ({
            let content = template.content(n);
            content.open || content.elements.len() == 0 || content.elements.last()
                == FormatElement::<Seq<char>>::Line(LineMode::Empty)
        }),
    decreases n,
{
    if n > 0 {
        law_pieces_stand_apart(template, n - 1);
    }
}

proof fn lemma_comments_end_in_text(pieces: Seq<Seq<char>>)
    ensures
        comment_parts(pieces).len() > 0 ==> comment_parts(pieces).last() is Text,
    decreases pieces.len(),
{
    if pieces.len() > 0 {
        lemma_comments_end_in_text(pieces.drop_last());
    }
}

/// The document of a text of comments is never written as nothing.
pub proof fn law_comments_are_written(text: Seq<char>, ids: GroupIds, indent_width: u8)
    ensures
        comment_ir(text) matches Some(ir) ==> written(ir, ids, indent_width).len() > 0,
{
    lemma_comments_end_in_text(trimmed_lines(text));
}

proof fn lemma_content_grows(template: GraphqlTemplate, i: int, n: int)
    requires
        0 <= i <= n,
    ensures
        template.content(i).elements.len() <= template.content(n).elements.len(),
    decreases n - i,
{
    if i < n {
        lemma_content_grows(template, i, n - 1);
    }
}

/// There is something between the backticks where the document of a part is written
/// as anything at all, or an expression stands between two parts.
pub proof fn law_block_has_content(template: GraphqlTemplate, i: int)
    requires
        0 <= i < template.quasis.len(),
        ({
            ||| template.parts[i] matches Some(ir) && written(
                ir,
                ids_before(template.parts, template.ids, i),
                template.indent_width,
            ).len() > 0
            ||| i + 1 < template.quasis.len() && i < template.expressions
        }),
    ensures
        template.content(template.quasis.len() as int).elements.len() > 0,
{
    lemma_content_grows(template, i + 1, template.quasis.len() as int);
    assert(template.content(i + 1).elements.len() > 0);
}

/// Nothing between the backticks breaks the template but the expressions of the
/// template itself.
pub proof fn law_graphql_content_fits_a_template(template: GraphqlTemplate, n: int)
    requires
        0 <= n <= template.quasis.len(),
    ensures
        forall|k: int|
            0 <= k < template.content(n).elements.len() ==> fits_a_template(
                #[trigger] template.content(n).elements[k],
            ) || template.content(n).elements[k] is TemplateExpression,
    decreases n,
{
    if n > 0 {
        law_graphql_content_fits_a_template(template, n - 1);
        let before = template.content(n - 1);
        let with_part = template.with_part(before, n - 1);
        if let Some(ir) = template.parts[n - 1] {
            let ids = ids_before(template.parts, template.ids, n - 1);
            law_written_fits_a_template(ir, ids, template.indent_width);
            let document = written(ir, ids, template.indent_width);
            let front = before.broken(
                if n - 1 != 0 && starts_with_blank_line(template.quasis[n - 1]) {
                    LineMode::Empty
                } else {
                    LineMode::Hard
                },
            );
            assert(with_part.elements == front + document);
            assert forall|k: int| 0 <= k < with_part.elements.len() implies fits_a_template(
                #[trigger] with_part.elements[k],
            ) || with_part.elements[k] is TemplateExpression by {
                if k >= front.len() {
                    assert(with_part.elements[k] == document[k - front.len()]);
                } else if k < before.elements.len() {
                    assert(with_part.elements[k] == before.elements[k]);
                }
            }
        }
    }
}

/// All parts of a template share their groups: a group has the same name in every
/// part that speaks of it, and no two groups share one.
pub proof fn law_parts_share_their_groups(parts: Seq<Option<Ir>>, next: u32, i: int, n: int)
    requires
        0 <= i <= n <= parts.len(),
        groups_fit(parts, next),
    ensures
        ids_before(parts, no_groups(next), n).distinct(),
        ids_before(parts, no_groups(next), i).kept_in(ids_before(parts, no_groups(next), n)),
        i < n ==> (parts[i] matches Some(ir) ==> forall|k: int|
            0 <= k < ir.len() ==> (group_of(#[trigger] ir[k]) matches Some(id) ==> ids_before(
                parts,
                no_groups(next),
                n,
            ).map.contains_key(id))),
    decreases n,
{
    let ids = no_groups(next);
    if n > 0 {
        let before = ids_before(parts, ids, n - 1);
        let after = ids_before(parts, ids, n);
        lemma_ids_before_grow(parts, ids, n, parts.len() as int);
        law_parts_share_their_groups(parts, next, if i < n { i } else { n - 1 }, n - 1);
        if let Some(ir) = parts[n - 1] {
            law_group_names_are_distinct(ir, before);
        }
        assert(before.kept_in(after));
        if i < n - 1 {
            if let Some(ir) = parts[i] {
                assert forall|k: int| 0 <= k < ir.len() implies (group_of(
                    #[trigger] ir[k],
                ) matches Some(id) ==> after.map.contains_key(id)) by {
                    if let Some(id) = group_of(ir[k]) {
                        assert(before.map.contains_key(id));
                    }
                }
            }
        }
    }
}

/// A line without a carriage return ends in a comment exactly where it holds a `#`.
pub proof fn law_hash_opens_a_comment(line: Seq<char>)
    requires
        !line.contains('\r'),
    ensures
        ends_in_comment(line) <==> line.contains('#'),
{
    if line.contains('#') {
        let k = choose|k: int| 0 <= k < line.len() && line[k] == '#';
        assert forall|j: int| k < j < line.len() implies line[j] != '\r' by {
            assert(line.contains(line[j]));
        }
    }
}

/// Nothing is asked about a GraphQL template where a text is not known, where an
/// expression stands within a comment, or where all texts are comments alone: a
/// formatter that takes no question at all will do.
pub proof fn law_graphql_asks_nothing<D>(format_embedded_doc: D, quasi: TemplateLiteral<'_>) where
    D: Fn(&str, &[&str]) -> DocReply,

    requires
        !formattable(quasi.quasis@) || forall|i: int|
            0 <= i < quasi.quasis@.len() ==> comments_only(
                #[trigger] cooked_texts(quasi.quasis@)[i],
            ),
    ensures
        may_be_asked_graphql(format_embedded_doc, quasi),
{
    if formattable(quasi.quasis@) {
        lemma_no_requests(cooked_texts(quasi.quasis@));
    }
}

proof fn lemma_no_requests(quasis: Seq<Seq<char>>)
    requires
        forall|i: int| 0 <= i < quasis.len() ==> comments_only(#[trigger] quasis[i]),
    ensures
        requests(quasis).len() == 0,
    decreases quasis.len(),
{
    reveal(Seq::filter);
    if quasis.len() > 0 {
        let rest = quasis.drop_last();
        assert forall|i: int| 0 <= i < rest.len() implies comments_only(#[trigger] rest[i]) by {
            assert(rest[i] == quasis[i]);
        }
        lemma_no_requests(rest);
        assert(comments_only(quasis[quasis.len() - 1]));
    }
}

/// A text is comments and white space alone where both sides of a line feed are; and a
/// single line is where all of it is white space, or a `#` comes before anything else.
pub proof fn law_comments_only_line_by_line(front: Seq<char>, back: Seq<char>)
    ensures
        comments_only(front.push('\n') + back) <==> comments_only(front) && comments_only(back),
        !front.contains('\n') ==> (comments_only(front) <==> {
            ||| forall|i: int| 0 <= i < front.len() ==> is_white_space(#[trigger] front[i])
            ||| exists|i: int|
                0 <= i < front.len() && #[trigger] front[i] == '#' && forall|j: int|
                    0 <= j < i ==> is_white_space(front[j])
        }),
{
    let all = lines(front.push('\n') + back);
    law_line_feed_parts_lines(front, back);
    assert forall|k: int| 0 <= k < lines(front).len() implies #[trigger] lines(front)[k]
        == all[k] by {}
    assert forall|k: int| 0 <= k < lines(back).len() implies #[trigger] lines(back)[k] == all[k
        + lines(front).len()] by {}
    if comments_only(front) && comments_only(back) {
        assert forall|k: int| 0 <= k < all.len() implies is_blank(#[trigger] all[k]) || is_comment(
            all[k],
        ) by {
            if k < lines(front).len() {
                assert(all[k] == lines(front)[k]);
            } else {
                assert(all[k] == lines(back)[k - lines(front).len()]);
            }
        }
    }
    if !front.contains('\n') {
        assert(lines(front)[0] == front);
        assert(comments_only(front) <==> is_blank(front) || is_comment(front));
        law_trimmed(front);
        if !is_blank(front) {
            let set = |c: char| !is_white_space(c);
            let at = first_in(front, set) as int;
            lemma_first_in(front, set);
            assert(at < front.len()) by {
                if at >= front.len() {
                    assert forall|i: int| 0 <= i < front.len() implies is_white_space(
                        #[trigger] front[i],
                    ) by {
                        assert(!set(front[i]));
                    }
                }
            }
            assert(set(front[at]));
            assert forall|i: int| 0 <= i < at implies is_white_space(#[trigger] front[i]) by {
                assert(!set(front[i]));
            }
            lemma_trimmed_front(front, at);
            if front[at] != '#' {
                assert forall|i: int|
                    0 <= i < front.len() && #[trigger] front[i] == '#' implies !(forall|j: int|
                    0 <= j < i ==> is_white_space(front[j])) by {
                    if i < at {
                        assert(is_white_space(front[i]));
                    } else {
                        assert(!is_white_space(front[at]));
                    }
                }
            }
        }
    }
}

/// A text starts with a blank line where two line feeds come before anything but white
/// space.
pub proof fn law_blank_line_at_the_start(text: Seq<char>)
    ensures
        starts_with_blank_line(text) <==> exists|p: int, q: int|
            0 <= p < q < text.len() && #[trigger] text[p] == '\n' && #[trigger] text[q] == '\n'
                && forall|j: int| 0 <= j < q ==> is_white_space(text[j]),
{
    let end = first_in(text, line_feed()) as int;
    let rest = text.skip(end + 1);
    let next = first_in(rest, line_feed()) as int;
    lemma_first_in(text, line_feed());
    lemma_first_in(rest, line_feed());
    if end < text.len() {
        assert(lines(text)[0] == text.take(end));
        assert(lines(text)[1] == lines(rest)[0]);
        if next < rest.len() {
            law_lines_join_back(rest.skip(next + 1));
            assert(lines(rest)[0] == rest.take(next));
            assert(lines(text).len() > 2);
            let q = end + 1 + next;
            assert(text[end] == '\n' && text[q] == rest[next]);
            if starts_with_blank_line(text) {
                assert forall|j: int| 0 <= j < q implies is_white_space(text[j]) by {
                    if j < end {
                        assert(is_white_space(text.take(end)[j]));
                    } else if j > end {
                        assert(is_white_space(rest.take(next)[j - end - 1]));
                    }
                }
            }
        }
    }
    if exists|p: int, q: int|
        0 <= p < q < text.len() && #[trigger] text[p] == '\n' && #[trigger] text[q] == '\n'
            && forall|j: int| 0 <= j < q ==> is_white_space(text[j]) {
        let (p, q) = choose|p: int, q: int|
            0 <= p < q < text.len() && #[trigger] text[p] == '\n' && #[trigger] text[q] == '\n'
                && forall|j: int| 0 <= j < q ==> is_white_space(text[j]);
        assert(end <= p) by {
            if p < end {
                assert(!line_feed()(text[p]));
            }
        }
        assert(rest[q - end - 1] == '\n');
        assert(next <= q - end - 1) by {
            if q - end - 1 < next {
                assert(!line_feed()(rest[q - end - 1]));
            }
        }
        assert(is_blank(text.take(end)));
        assert forall|j: int| 0 <= j < next implies is_white_space(
            #[trigger] rest.take(next)[j],
        ) by {
            assert(rest[j] == text[j + end + 1]);
        }
        assert(is_blank(rest.take(next)));
    }
}

/// A text ends with a blank line where there are two line feeds with nothing but white
/// space behind the first of them.
pub proof fn law_blank_line_at_the_end(text: Seq<char>)
    ensures
        ends_with_blank_line(text) <==> exists|p: int, q: int|
            0 <= p < q < text.len() && #[trigger] text[p] == '\n' && #[trigger] text[q] == '\n'
                && forall|j: int| p < j < text.len() ==> is_white_space(text[j]),
{
    let last = lemma_last_line(text);
    let front = text.take(last);
    let n = lines(text).len();
    law_lines_join_back(text);
    if last >= 0 {
        let before = lemma_last_line(front);
        let inner = front.skip(before + 1);
        law_lines_join_back(front);
        assert(lines(text)[n - 1] == text.skip(last + 1));
        if before >= 0 {
            law_lines_join_back(front.take(before));
            assert(lines(text)[n - 2] == inner);
            assert(text[before] == front[before]);
            if ends_with_blank_line(text) {
                assert forall|j: int| before < j < text.len() implies is_white_space(text[j]) by {
                    if j < last {
                        assert(is_white_space(inner[j - before - 1]));
                    } else if j > last {
                        assert(is_white_space(text.skip(last + 1)[j - last - 1]));
                    }
                }
                assert(text[before] == '\n' && text[last] == '\n');
            }
        }
        if exists|p: int, q: int|
            0 <= p < q < text.len() && #[trigger] text[p] == '\n' && #[trigger] text[q] == '\n'
                && forall|j: int| p < j < text.len() ==> is_white_space(text[j]) {
            let (p, q) = choose|p: int, q: int|
                0 <= p < q < text.len() && #[trigger] text[p] == '\n' && #[trigger] text[q] == '\n'
                    && forall|j: int| p < j < text.len() ==> is_white_space(text[j]);
            assert(q <= last);
            assert(front[p] == '\n');
            assert(p <= before);
            assert forall|j: int| 0 <= j < inner.len() implies is_white_space(
                #[trigger] inner[j],
            ) by {
                assert(inner[j] == text[j + before + 1]);
            }
            assert forall|j: int| 0 <= j < text.skip(last + 1).len() implies is_white_space(
                #[trigger] text.skip(last + 1)[j],
            ) by {
                assert(text.skip(last + 1)[j] == text[j + last + 1]);
            }
        }
    }
}

/// Whether there is a line feed or a carriage return behind the place `k`.
pub open spec fn line_ends_behind(text: Seq<char>, k: int) -> bool {
    exists|j: int| k < j < text.len() && (#[trigger] text[j] == '\n' || text[j] == '\r')
}

/// A template can be formatted where every cooked text is known, and no text but the
/// last has a `#` with neither a line feed nor a carriage return behind it.
pub proof fn law_formattable_templates(quasis: Seq<TemplateElement<'_>>)
    ensures
        formattable(quasis) <==> forall|i: int|
            0 <= i < quasis.len() ==> {
                &&& (#[trigger] quasis[i]).cooked is Some
                &&& i < quasis.len() - 1 ==> forall|k: int|
                    0 <= k < quasis[i].cooked->0@.len() && quasis[i].cooked->0@[k] == '#'
                        ==> #[trigger] line_ends_behind(quasis[i].cooked->0@, k)
            },
{
    assert forall|i: int| 0 <= i < quasis.len() implies hinders(quasis, i) == !{
        &&& (#[trigger] quasis[i]).cooked is Some
        &&& i < quasis.len() - 1 ==> forall|k: int|
            0 <= k < quasis[i].cooked->0@.len() && quasis[i].cooked->0@[k] == '#'
                ==> #[trigger] line_ends_behind(quasis[i].cooked->0@, k)
    } by {
        let text = quasis[i].cooked->0@;
        if ends_in_comment(lines(text).last()) {
            let k = lemma_open_comment(text);
            assert(!line_ends_behind(text, k));
        } else {
            lemma_no_open_comment(text);
        }
    }
    if formattable(quasis) {
        assert forall|i: int| 0 <= i < quasis.len() implies {
            &&& (#[trigger] quasis[i]).cooked is Some
            &&& i < quasis.len() - 1 ==> forall|k: int|
                0 <= k < quasis[i].cooked->0@.len() && quasis[i].cooked->0@[k] == '#'
                    ==> #[trigger] line_ends_behind(quasis[i].cooked->0@, k)
        } by {
            assert(!hinders(quasis, i));
        }
    }
}

proof fn lemma_open_comment(text: Seq<char>) -> (at: int)
    requires
        ends_in_comment(lines(text).last()),
    ensures
        0 <= at < text.len(),
        text[at] == '#',
        !line_ends_behind(text, at),
{
    let feed = lemma_last_line(text);
    let line = lines(text).last();
    assert(line =~= text.skip(feed + 1));
    let k = choose|k: int|
        0 <= k < line.len() && #[trigger] line[k] == '#' && forall|j: int|
            k < j < line.len() ==> line[j] != '\r';
    let at = k + feed + 1;
    assert forall|j: int| at < j < text.len() implies !(#[trigger] text[j] == '\n' || text[j]
        == '\r') by {
        assert(text[j] == line[j - feed - 1]);
    }
    at
}

proof fn lemma_no_open_comment(text: Seq<char>)
    requires
        !ends_in_comment(lines(text).last()),
    ensures
        forall|k: int|
            0 <= k < text.len() && text[k] == '#' ==> #[trigger] line_ends_behind(text, k),
{
    let feed = lemma_last_line(text);
    let line = lines(text).last();
    assert(line =~= text.skip(feed + 1));
    assert forall|k: int| 0 <= k < text.len() && text[k] == '#' implies #[trigger] line_ends_behind(
        text,
        k,
    ) by {
        if k < feed {
            assert(text[feed] == '\n');
        } else {
            let at = k - feed - 1;
            assert(line[at] == '#');
            let j = choose|j: int| at < j < line.len() && line[j] == '\r';
            assert(text[j + feed + 1] == line[j]);
        }
    }
}

proof fn lemma_comments_behind_blanks(blanks: Seq<Seq<char>>, back: Seq<Seq<char>>)
    requires
        comment_parts(blanks).len() == 0,
    ensures
        comment_parts(blanks + back) == comment_parts(back),
    decreases back.len(),
{
    if back.len() == 0 {
        assert(blanks + back =~= blanks);
        assert(comment_parts(blanks) =~= comment_parts(back));
    } else {
        let all = blanks + back;
        lemma_comments_behind_blanks(blanks, back.drop_last());
        assert(all.drop_last() =~= blanks + back.drop_last());
        assert(all.last() == back.last());
        if back.len() > 1 {
            assert(all[all.len() - 2] == back[back.len() - 2]);
        } else {
            assert(back.drop_last() =~= Seq::empty());
        }
    }
}

proof fn lemma_comments_join(front: Seq<Seq<char>>, back: Seq<Seq<char>>)
    requires
        comment_parts(front).len() > 0,
        comment_parts(back).len() > 0,
    ensures
        comment_parts(front + back) == comment_parts(front) + seq![
            EmbeddedIR::Line(
                if front.last().len() == 0 || back[0].len() == 0 {
                    LineMode::Empty
                } else {
                    LineMode::Hard
                },
            ),
            EmbeddedIR::ExpandParent,
        ] + comment_parts(back),
    decreases back.len(),
{
    let all = front + back;
    let rest = back.drop_last();
    assert(all.drop_last() =~= front + rest);
    assert(all.last() == back.last());
    assert(all[all.len() - 2] == if back.len() > 1 {
        back[back.len() - 2]
    } else {
        front.last()
    });
    if comment_parts(rest).len() > 0 {
        lemma_comments_join(front, rest);
        assert(rest[0] == back[0]);
    } else {
        law_comments_are_kept(rest);
        lemma_nothing_kept(rest);
        lemma_comments_then_blanks(front, rest);
        if rest.len() > 0 {
            assert(rest[0].len() == 0 && rest[rest.len() - 1].len() == 0);
        }
    }
    assert(comment_parts(all) =~= comment_parts(front) + seq![
        EmbeddedIR::Line(
            if front.last().len() == 0 || back[0].len() == 0 {
                LineMode::Empty
            } else {
                LineMode::Hard
            },
        ),
        EmbeddedIR::ExpandParent,
    ] + comment_parts(back));
}

/// The comments on both sides of a line feed stand one above the other, with an empty
/// line between them if there is a blank line on either side of it; where there are
/// comments on one side only, it is those. A single line is one comment, trimmed, unless
/// it is blank.
pub proof fn law_comments_stand_line_by_line(front: Seq<char>, back: Seq<char>)
    ensures
        comment_ir(front) is None ==> comment_ir(front.push('\n') + back) == comment_ir(back),
        comment_ir(back) is None ==> comment_ir(front.push('\n') + back) == comment_ir(front),
        comment_ir(front) is Some && comment_ir(back) is Some ==> comment_ir(
            front.push('\n') + back,
        ) == Some(
            comment_ir(front)->0 + seq![
                EmbeddedIR::Line(
                    if is_blank(lines(front).last()) || is_blank(lines(back)[0]) {
                        LineMode::Empty
                    } else {
                        LineMode::Hard
                    },
                ),
                EmbeddedIR::ExpandParent,
            ] + comment_ir(back)->0,
        ),
        !front.contains('\n') && !is_blank(front) ==> comment_ir(front) == Some(
            seq![EmbeddedIR::Text(trimmed(front))],
        ),
        !front.contains('\n') && is_blank(front) ==> comment_ir(front) is None,
{
    let above = trimmed_lines(front);
    let below = trimmed_lines(back);
    law_line_feed_parts_lines(front, back);
    law_lines_join_back(front);
    law_lines_join_back(back);
    assert(trimmed_lines(front.push('\n') + back) =~= above + below);
    law_trimmed(lines(front).last());
    law_trimmed(lines(back)[0]);
    assert(above.last() == trimmed(lines(front).last()));
    assert(below[0] == trimmed(lines(back)[0]));
    if comment_parts(above).len() == 0 {
        lemma_comments_behind_blanks(above, below);
    } else if comment_parts(below).len() == 0 {
        law_comments_are_kept(below);
        lemma_nothing_kept(below);
        lemma_comments_then_blanks(above, below);
    } else {
        lemma_comments_join(above, below);
    }
    if !front.contains('\n') {
        law_trimmed(front);
        assert(above =~= seq![trimmed(front)]);
        assert(above.drop_last() =~= Seq::empty());
        assert(comment_parts(above.drop_last()).len() == 0);
    }
}

/// The parts that need formatting are those that are not comments and white space alone,
/// in order.
pub proof fn law_requests_in_order(front: Seq<Seq<char>>, back: Seq<Seq<char>>, text: Seq<char>)
    ensures
        requests(front + back) == requests(front) + requests(back),
        comments_only(text) ==> requests(seq![text]).len() == 0,
        !comments_only(text) ==> requests(seq![text]) == seq![text],
{
    Seq::filter_distributes_over_add(front, back, needs_formatting());
    reveal(Seq::filter);
    let nothing = Seq::<Seq<char>>::empty();
    assert(seq![text].drop_last() =~= nothing);
    assert(nothing.filter(needs_formatting()) =~= nothing);
    assert(nothing.push(text) =~= seq![text]);
}

/// Answers are dealt out in order: with as many answers for the front parts as these
/// ask for, what is behind them goes to the back parts; with fewer, nothing is left.
pub proof fn law_answers_are_dealt_in_order(
    front: Seq<Seq<char>>,
    back: Seq<Seq<char>>,
    early: Seq<Ir>,
    late: Seq<Ir>,
)
    requires
        early.len() == requests(front).len() || early.len() < requests(front).len() && late.len()
            == 0,
    ensures
        graphql_parts(front + back, early + late) == graphql_parts(front, early) + graphql_parts(
            back,
            late,
        ),
{
    let all = front + back;
    let irs = early + late;
    let apart = graphql_parts(front, early) + graphql_parts(back, late);
    assert forall|i: int| 0 <= i < all.len() implies graphql_parts(all, irs)[i] == apart[i] by {
        if i < front.len() {
            assert(all[i] == front[i]);
            assert(all.take(i) =~= front.take(i));
            if !comments_only(front[i]) {
                lemma_request_of(front, i);
            }
        } else {
            let j = i - front.len();
            assert(all[i] == back[j]);
            assert(all.take(i) =~= front + back.take(j));
            law_requests_in_order(front, back.take(j), all[i]);
        }
    }
    assert(graphql_parts(all, irs) =~= apart);
}

/// A part of comments alone has its comments for a document, whatever is answered; any
/// other part has the first answer, if there is one.
pub proof fn law_document_of_one_part(text: Seq<char>, irs: Seq<Ir>)
    ensures
        graphql_parts(seq![text], irs).len() == 1,
        comments_only(text) ==> graphql_parts(seq![text], irs)[0] == comment_ir(text),
        !comments_only(text) && irs.len() > 0 ==> graphql_parts(seq![text], irs)[0] == Some(irs[0]),
        !comments_only(text) && irs.len() == 0 ==> graphql_parts(seq![text], irs)[0] is None,
{
    reveal(Seq::filter);
    assert(seq![text].take(0) =~= Seq::empty());
    assert(requests(seq![text].take(0)).len() == 0);
}

/// An answer counts where it is a list of documents, of any length, and these are seen
/// as they are. The texts of a template are its cooked texts.
pub proof fn law_answers_are_read(
    reply: DocReply,
    items: Option<Vec<EmbeddedIR>>,
    quasis: Seq<TemplateElement<'_>>,
    infos: Seq<QuasiInfo<'_>>,
)
    ensures
        reply_irs(reply) is Some <==> reply is Some && reply->0 is Ok,
        reply matches Some(Ok(irs)) ==> reply_irs(reply)->0.len() == irs@.len() && forall|k: int|
            0 <= k < irs@.len() ==> #[trigger] reply_irs(reply)->0[k] == ir_of(irs@[k]@),
        optional_ir(items) is Some <==> items is Some,
        items matches Some(items) ==> optional_ir(Some(items)) == Some(ir_of(items@)),
        cooked_texts(quasis).len() == quasis.len(),
        forall|i: int|
            0 <= i < quasis.len() && quasis[i].cooked is Some ==> #[trigger] cooked_texts(
                quasis,
            )[i] == quasis[i].cooked->0@,
        info_texts(infos).len() == infos.len(),
        forall|i: int| 0 <= i < infos.len() ==> #[trigger] info_texts(infos)[i] == infos[i].text@,
{
}

/// Where a part has a document and anything stands in front of it between the backticks,
/// a line break stands directly in front of the document: an empty line where the part
/// starts with a blank line. So no document runs into an expression or into another
/// document.
pub proof fn law_document_stands_below_what_is_in_front(template: GraphqlTemplate, i: int)
    requires
        0 <= i < template.quasis.len(),
        template.parts[i] is Some,
        template.content(i).elements.len() > 0,
    ensures
        ({
            let all = template.content(i + 1).elements;
            let document = written(
                template.parts[i]->0,
                ids_before(template.parts, template.ids, i),
                template.indent_width,
            );
            exists|at: int|
                {
                    &&& template.content(i).elements.len() <= at <= template.content(
                        i,
                    ).elements.len() + 1
                    &&& at + document.len() <= all.len()
                    &&& #[trigger] all.subrange(at, at + document.len()) == document
                    &&& all.take(template.content(i).elements.len() as int) == template.content(
                        i,
                    ).elements
                    &&& all[at - 1] is Line
                    &&& i > 0 && starts_with_blank_line(template.quasis[i]) ==> all[at - 1]
                        == FormatElement::<Seq<char>>::Line(LineMode::Empty)
                    &&& all[at - 1] == FormatElement::<Seq<char>>::Line(LineMode::Hard)
                        || all[at - 1] == FormatElement::<Seq<char>>::Line(LineMode::Empty)
                }
        }),
{
    let before = template.content(i);
    let part = template.with_part(before, i);
    let all = template.content(i + 1).elements;
    let document = written(
        template.parts[i]->0,
        ids_before(template.parts, template.ids, i),
        template.indent_width,
    );
    law_pieces_stand_apart(template, i);
    let at = part.elements.len() - document.len();
    assert(all.take(part.elements.len() as int) =~= part.elements);
    assert(part.elements.subrange(at, at + document.len()) =~= document);
    assert(all.subrange(at, at + document.len()) =~= document);
    assert(all[at - 1] == part.elements[at - 1]);
    assert(all.take(before.elements.len() as int) =~= before.elements);
}

/// The layout of a template as far as there is an expression behind each part but the
/// last, which for a well-formed template is all of it. The document
/// of a part stands below the expression in front of it, and the expression behind it
/// below the document, with an empty line where the text has a blank line there and else
/// a line break. Where a part between two expressions has no document, the second stands
/// below the first, with an empty line for a blank line at the end of the text, and one
/// more for a blank line at its start. Nothing stands in front of the first piece nor
/// behind the last.
pub proof fn law_layout_of_a_template(template: GraphqlTemplate, i: int)
    requires
        0 <= i < template.quasis.len(),
        i < template.expressions || i == template.expressions && i == template.quasis.len() - 1,
    ensures
        template.content(0).elements.len() == 0,
        ({
            let before = template.content(i).elements;
            let after = template.content(i + 1).elements;
            let above: Elements = seq![
                FormatElement::Line(
                    if starts_with_blank_line(template.quasis[i]) {
                        LineMode::Empty
                    } else {
                        LineMode::Hard
                    },
                ),
            ];
            let below: Elements = seq![
                FormatElement::Line(
                    if ends_with_blank_line(template.quasis[i]) {
                        LineMode::Empty
                    } else {
                        LineMode::Hard
                    },
                ),
                FormatElement::TemplateExpression(i as usize),
            ];
            let first = i == 0;
            let last = i == template.quasis.len() - 1;
            match template.parts[i] {
                Some(ir) => {
                    let document = written(
                        ir,
                        ids_before(template.parts, template.ids, i),
                        template.indent_width,
                    );
                    &&& first && last ==> after == document
                    &&& first && !last ==> after == document + below
                    &&& !first && last ==> after == before + above + document
                    &&& !first && !last ==> after == before + above + document + below
                },
                None => {
                    &&& last ==> after == before
                    &&& first && !last ==> after == seq![
                        FormatElement::<Seq<char>>::TemplateExpression(i as usize),
                    ]
                    &&& !first && !last && starts_with_blank_line(template.quasis[i]) ==> after
                        == before + above + below
                    &&& !first && !last && !starts_with_blank_line(template.quasis[i]) ==> after
                        == before + below
                },
            }
        }),
        i > 0 ==> template.content(i).elements.last() == FormatElement::<
            Seq<char>,
        >::TemplateExpression((i - 1) as usize),
{
    let before = template.content(i);
    let after = template.content(i + 1).elements;
    assert(i > 0 ==> before.open);
    assert(after =~= template.content(i + 1).elements);
    let line_above: Elements = seq![
        FormatElement::Line(
            if starts_with_blank_line(template.quasis[i]) {
                LineMode::Empty
            } else {
                LineMode::Hard
            },
        ),
    ];
    if let Some(ir) = template.parts[i] {
        let document = written(
            ir,
            ids_before(template.parts, template.ids, i),
            template.indent_width,
        );
        if i == 0 {
            assert(template.with_part(before, i).elements =~= document);
        } else {
            assert(template.with_part(before, i).elements =~= before.elements + line_above
                + document);
        }
    }
}

/// The layout behind the last expression, where there are too few of them: documents
/// stand one below the other, with an empty line in front for a blank line at the start
/// of a text, or behind for one at its end, in place of the line break; and no expression
/// is written.
pub proof fn law_layout_without_expressions(template: GraphqlTemplate, i: int)
    requires
        0 <= i < template.quasis.len(),
        template.expressions <= i,
    ensures
        ({
            let before = template.content(i);
            let after = template.content(i + 1);
            let blank_above = i > 0 && starts_with_blank_line(template.quasis[i]);
            let blank_below = i < template.quasis.len() - 1 && ends_with_blank_line(
                template.quasis[i],
            );
            let empty_line: Elements = seq![FormatElement::Line(LineMode::Empty)];
            let line_break: Elements = seq![FormatElement::Line(LineMode::Hard)];
            let nothing: Elements = Seq::empty();
            let below = if blank_below {
                empty_line
            } else {
                nothing
            };
            match template.parts[i] {
                Some(ir) => {
                    let document = written(
                        ir,
                        ids_before(template.parts, template.ids, i),
                        template.indent_width,
                    );
                    &&& !before.open ==> after.elements == before.elements + document + below
                    &&& before.open && blank_above ==> after.elements == before.elements
                        + empty_line + document + below
                    &&& before.open && !blank_above ==> after.elements == before.elements
                        + line_break + document + below
                    &&& after.open <==> !blank_below
                },
                None => {
                    &&& !before.open ==> after.elements == before.elements
                    &&& before.open && blank_above && i < template.quasis.len() - 1
                        ==> after.elements == before.elements + empty_line + below
                    &&& before.open && !(blank_above && i < template.quasis.len() - 1)
                        ==> after.elements == before.elements + below
                    &&& after.open <==> before.open && !blank_below
                },
            }
        }),
        !template.content(0).open,
        i > 0 && i == template.expressions ==> template.content(i).open,
{
    let after = template.content(i + 1).elements;
    let part = template.with_part(template.content(i), i);
    assert(part.elements + Seq::empty() =~= part.elements);
    assert(after =~= part.elements || after =~= part.elements.push(
        FormatElement::Line(LineMode::Empty),
    ));
}

/// What is written for a whole template: two backticks where there is neither an
/// expression nor a document, and else the content between two backticks; and the groups
/// of all documents have used up one number each.
pub proof fn law_document_of_a_template(
    quasis: Seq<Seq<char>>,
    expressions: nat,
    irs: Seq<Ir>,
    before: FormatterState,
)
    ensures
        ({
            let template = graphql_template(quasis, expressions, irs, before);
            let after = graphql_document(quasis, expressions, irs, before);
            let empty = expressions == 0 && forall|i: int|
                0 <= i < quasis.len() ==> (#[trigger] graphql_parts(quasis, irs)[i]) is None;
            &&& template.quasis == quasis
            &&& template.parts == graphql_parts(quasis, irs)
            &&& template.expressions == expressions
            &&& template.indent_width == before.indent_width
            &&& template.ids.next == before.next_group_id
            &&& template.ids.map == Map::<u32, GroupId>::empty()
            &&& empty ==> after.elements == before.elements + empty_template()
            &&& empty ==> after.next_group_id == before.next_group_id
            &&& !empty ==> after.elements == before.elements + in_template(
                template.content(quasis.len() as int).elements,
            )
            &&& !empty && groups_fit(graphql_parts(quasis, irs), before.next_group_id)
                ==> after.next_group_id == before.next_group_id + ids_before(
                graphql_parts(quasis, irs),
                no_groups(before.next_group_id),
                quasis.len() as int,
            ).map.dom().len()
            &&& after.indent_width == before.indent_width
        }),
{
    let parts = graphql_parts(quasis, irs);
    law_groups_of_parts_are_counted(parts, before.next_group_id, quasis.len() as int);
}

/// The groups with a name are those that the parts so far speak of, and each has used up
/// one number. There are numbers enough where there are as many as groups.
pub proof fn law_groups_of_parts_are_counted(parts: Seq<Option<Ir>>, next: u32, n: int)
    requires
        0 <= n <= parts.len(),
    ensures
        ({
            let ids = ids_before(parts, no_groups(next), n);
            &&& ids.map.dom().finite()
            &&& ids.next == next + ids.map.dom().len()
            &&& forall|id: u32| #[trigger]
                ids.map.contains_key(id) <==> exists|i: int, k: int|
                    0 <= i < n && parts[i] is Some && 0 <= k < parts[i]->0.len() && group_of(
                        #[trigger] parts[i]->0[k],
                    ) == Some(id)
            &&& n == parts.len() ==> (groups_fit(parts, next) <==> next + ids.map.dom().len()
                <= u32::MAX)
        }),
    decreases n,
{
    let ids = ids_before(parts, no_groups(next), n);
    if n == 0 {
        assert(ids.map.dom() =~= Set::empty());
    } else {
        let early = ids_before(parts, no_groups(next), n - 1);
        law_groups_of_parts_are_counted(parts, next, n - 1);
        if let Some(ir) = parts[n - 1] {
            law_groups_are_counted(ir, early);
        }
        assert forall|id: u32| #[trigger] ids.map.contains_key(id) <==> exists|i: int, k: int|
            0 <= i < n && parts[i] is Some && 0 <= k < parts[i]->0.len() && group_of(
                #[trigger] parts[i]->0[k],
            ) == Some(id) by {
            if ids.map.contains_key(id) {
                if early.map.contains_key(id) {
                    let (i, k) = choose|i: int, k: int|
                        0 <= i < n - 1 && parts[i] is Some && 0 <= k < parts[i]->0.len()
                            && group_of(#[trigger] parts[i]->0[k]) == Some(id);
                    assert(group_of(parts[i]->0[k]) == Some(id));
                } else {
                    let ir = parts[n - 1]->0;
                    let k = choose|k: int|
                        0 <= k < ir.len() && group_of(#[trigger] ir[k]) == Some(id);
                    assert(group_of(parts[n - 1]->0[k]) == Some(id));
                }
            }
            if exists|i: int, k: int|
                0 <= i < n && parts[i] is Some && 0 <= k < parts[i]->0.len() && group_of(
                    #[trigger] parts[i]->0[k],
                ) == Some(id) {
                let (i, k) = choose|i: int, k: int|
                    0 <= i < n && parts[i] is Some && 0 <= k < parts[i]->0.len() && group_of(
                        #[trigger] parts[i]->0[k],
                    ) == Some(id);
                if i < n - 1 {
                    assert(group_of(parts[i]->0[k]) == Some(id));
                    assert(early.map.contains_key(id));
                }
            }
        }
    }
}

/// With an answer the template is written, unless the numbers for its groups run out;
/// without one, or where they do, nothing is.
pub proof fn law_answer_decides(
    quasis: Seq<Seq<char>>,
    expressions: nat,
    irs: Seq<Ir>,
    before: FormatterState,
)
    ensures
        graphql_outcome(quasis, expressions, None, before) == (before, Some(false)),
        groups_fit(graphql_parts(quasis, irs), before.next_group_id) ==> graphql_outcome(
            quasis,
            expressions,
            Some(irs),
            before,
        ) == (graphql_document(quasis, expressions, irs, before), Some(true)),
        !groups_fit(graphql_parts(quasis, irs), before.next_group_id) ==> graphql_outcome(
            quasis,
            expressions,
            Some(irs),
            before,
        ) == (before, None::<bool>),
{
}

/// The formatter is asked about the texts that are not comments and white space alone,
/// all together, and its answer decides; where there are none, the template is written as with
/// no answers. A template that cannot be formatted is refused.
pub proof fn law_graphql_question<D>(
    format_embedded_doc: D,
    quasi: TemplateLiteral<'_>,
    before: FormatterState,
    after: FormatterState,
    r: Option<bool>,
) where D: Fn(&str, &[&str]) -> DocReply
    requires
        asked_graphql(format_embedded_doc, quasi, before, after, r),
    ensures
        !formattable(quasi.quasis@) ==> after == before && r == Some(false),
        formattable(quasi.quasis@) && (forall|i: int|
            0 <= i < quasi.quasis@.len() ==> comments_only(
                #[trigger] cooked_texts(quasi.quasis@)[i],
            )) ==> (after, r) == graphql_outcome(
            cooked_texts(quasi.quasis@),
            quasi.expressions as nat,
            Some(Seq::empty()),
            before,
        ),
        formattable(quasi.quasis@) && (exists|i: int|
            0 <= i < quasi.quasis@.len() && !comments_only(
                #[trigger] cooked_texts(quasi.quasis@)[i],
            )) ==> exists|sent: &[&str], reply: DocReply|
            {
                &&& #[trigger] call_ensures(format_embedded_doc, ("tagged-graphql", sent), reply)
                &&& texts(sent@) == requests(cooked_texts(quasi.quasis@))
                &&& (after, r) == graphql_outcome(
                    cooked_texts(quasi.quasis@),
                    quasi.expressions as nat,
                    reply_irs(reply),
                    before,
                )
            },
{
    let quasis = cooked_texts(quasi.quasis@);
    if exists|i: int| 0 <= i < quasis.len() && !comments_only(#[trigger] quasis[i]) {
        let i = choose|i: int| 0 <= i < quasis.len() && !comments_only(#[trigger] quasis[i]);
        lemma_request_of(quasis, i);
    } else {
        lemma_no_requests(quasis);
    }
}

/// No question is granted about a GraphQL template but the one about all of its texts
/// that need formatting.
pub proof fn law_graphql_asks_one_question<D>(format_embedded_doc: D, quasi: TemplateLiteral<'_>) where
    D: Fn(&str, &[&str]) -> DocReply,

    requires
        forall|sent: &[&str]|
            texts(sent@) == requests(cooked_texts(quasi.quasis@)) ==> #[trigger] call_requires(
                format_embedded_doc,
                ("tagged-graphql", sent),
            ),
    ensures
        may_be_asked_graphql(format_embedded_doc, quasi),
{
}

/// Where a GraphQL template is not formatted, nothing is written.
pub proof fn law_graphql_refusal_writes_nothing<D>(
    format_embedded_doc: D,
    quasi: TemplateLiteral<'_>,
    before: FormatterState,
    after: FormatterState,
    r: Option<bool>,
) where D: Fn(&str, &[&str]) -> DocReply
    requires
        asked_graphql(format_embedded_doc, quasi, before, after, r),
        r != Some(true),
    ensures
        after == before,
{
}

} // verus!
