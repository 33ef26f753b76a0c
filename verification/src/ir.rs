//! The document that an embedded formatter hands back, and the document that is
//! written for the printer.

use oxc_allocator::Allocator;
use vstd::prelude::*;

verus! {

/// What a line break prints as.
#[derive(Debug, Clone, Copy, PartialEq, Eq, Structural)]
pub enum LineMode {
    /// A space where the group fits on the line, else a line break.
    SoftOrSpace,
    /// Nothing where the group fits on the line, else a line break.
    Soft,
    /// A line break.
    Hard,
    /// A line break and an empty line.
    Empty,
}

/// How a group is printed: on one line, or broken over several.
#[derive(Debug, Clone, Copy, PartialEq, Eq, Structural)]
pub enum PrintMode {
    Flat,
    Expanded,
}

/// How far a dedent goes: one level, or all the way.
#[derive(Debug, Clone, Copy, PartialEq, Eq, Structural)]
pub enum DedentMode {
    Level,
    Root,
}

/// Whether a group starts out flat or is broken from the outset.
#[derive(Debug, Clone, Copy, PartialEq, Eq, Structural)]
pub enum GroupMode {
    Flat,
    Expand,
}

/// The name of a group in the document that is written.
#[derive(Debug, Clone, Copy, PartialEq, Eq, Structural)]
pub struct GroupId(pub u32);

/// One item of the document that an embedded formatter hands back. Groups are
/// numbered by that formatter; `S` is what holds a text.
#[derive(Debug, Clone, PartialEq, Eq)]
pub enum EmbeddedIR<S = String> {
    Space,
    HardSpace,
    Line(LineMode),
    ExpandParent,
    Text(S),
    LineSuffixBoundary,
    StartIndent,
    EndIndent,
    StartAlign(u8),
    EndAlign,
    StartDedent { to_root: bool },
    EndDedent { to_root: bool },
    StartGroup { id: Option<u32>, should_break: bool },
    EndGroup,
    StartConditionalContent { mode: PrintMode, group_id: Option<u32> },
    EndConditionalContent,
    StartIndentIfGroupBreaks(u32),
    EndIndentIfGroupBreaks(u32),
    StartFill,
    EndFill,
    StartEntry,
    EndEntry,
    StartLineSuffix,
    EndLineSuffix,
}

/// A tag that opens or closes a part of the document that is written.
#[allow(inconsistent_fields)]
#[derive(Debug, Clone, Copy, PartialEq, Eq)]
pub enum Tag {
    StartIndent,
    EndIndent,
    /// The contents stand on lines of their own, indented.
    StartBlockIndent,
    EndBlockIndent,
    /// The alignment is never zero.
    StartAlign(u8),
    EndAlign,
    StartDedent(DedentMode),
    EndDedent(DedentMode),
    StartGroup { id: Option<GroupId>, mode: GroupMode },
    EndGroup,
    StartConditionalContent { mode: PrintMode, group_id: Option<GroupId> },
    EndConditionalContent,
    StartIndentIfGroupBreaks(GroupId),
    EndIndentIfGroupBreaks(GroupId),
    StartFill,
    EndFill,
    StartEntry,
    EndEntry,
    StartLineSuffix,
    EndLineSuffix,
}

/// One element of the document that is written; `S` is what holds a text.
#[derive(Debug, Clone, PartialEq, Eq)]
pub enum FormatElement<S> {
    Space,
    HardSpace,
    Line(LineMode),
    ExpandParent,
    /// A piece of syntax.
    Token(S),
    /// A text, whose width is measured with tabs of `indent_width` columns.
    Text { text: S, indent_width: u8 },
    LineSuffixBoundary,
    Tag(Tag),
    /// The expression of the template at this place, with its `${` and `}`.
    TemplateExpression(usize),
}

impl<S: View> View for EmbeddedIR<S> {
    type V = EmbeddedIR<S::V>;

    open spec fn view(&self) -> EmbeddedIR<S::V> {
        match *self {
            EmbeddedIR::Space => EmbeddedIR::Space,
            EmbeddedIR::HardSpace => EmbeddedIR::HardSpace,
            EmbeddedIR::Line(mode) => EmbeddedIR::Line(mode),
            EmbeddedIR::ExpandParent => EmbeddedIR::ExpandParent,
            EmbeddedIR::Text(text) => EmbeddedIR::Text(text@),
            EmbeddedIR::LineSuffixBoundary => EmbeddedIR::LineSuffixBoundary,
            EmbeddedIR::StartIndent => EmbeddedIR::StartIndent,
            EmbeddedIR::EndIndent => EmbeddedIR::EndIndent,
            EmbeddedIR::StartAlign(n) => EmbeddedIR::StartAlign(n),
            EmbeddedIR::EndAlign => EmbeddedIR::EndAlign,
            EmbeddedIR::StartDedent { to_root } => EmbeddedIR::StartDedent { to_root },
            EmbeddedIR::EndDedent { to_root } => EmbeddedIR::EndDedent { to_root },
            EmbeddedIR::StartGroup { id, should_break } => EmbeddedIR::StartGroup {
                id,
                should_break,
            },
            EmbeddedIR::EndGroup => EmbeddedIR::EndGroup,
            EmbeddedIR::StartConditionalContent { mode, group_id } =>
                EmbeddedIR::StartConditionalContent { mode, group_id },
            EmbeddedIR::EndConditionalContent => EmbeddedIR::EndConditionalContent,
            EmbeddedIR::StartIndentIfGroupBreaks(id) => EmbeddedIR::StartIndentIfGroupBreaks(id),
            EmbeddedIR::EndIndentIfGroupBreaks(id) => EmbeddedIR::EndIndentIfGroupBreaks(id),
            EmbeddedIR::StartFill => EmbeddedIR::StartFill,
            EmbeddedIR::EndFill => EmbeddedIR::EndFill,
            EmbeddedIR::StartEntry => EmbeddedIR::StartEntry,
            EmbeddedIR::EndEntry => EmbeddedIR::EndEntry,
            EmbeddedIR::StartLineSuffix => EmbeddedIR::StartLineSuffix,
            EmbeddedIR::EndLineSuffix => EmbeddedIR::EndLineSuffix,
        }
    }
}

impl<S: View> View for FormatElement<S> {
    type V = FormatElement<S::V>;

    open spec fn view(&self) -> FormatElement<S::V> {
        match *self {
            FormatElement::Space => FormatElement::Space,
            FormatElement::HardSpace => FormatElement::HardSpace,
            FormatElement::Line(mode) => FormatElement::Line(mode),
            FormatElement::ExpandParent => FormatElement::ExpandParent,
            FormatElement::Token(text) => FormatElement::Token(text@),
            FormatElement::Text { text, indent_width } => FormatElement::Text {
                text: text@,
                indent_width,
            },
            FormatElement::LineSuffixBoundary => FormatElement::LineSuffixBoundary,
            FormatElement::Tag(tag) => FormatElement::Tag(tag),
            FormatElement::TemplateExpression(at) => FormatElement::TemplateExpression(at),
        }
    }
}

/// Contracts see every item as it is, but for what holds its text.
pub proof fn law_item_is_seen_as_it_is(item: EmbeddedIR)
    ensures
        item matches EmbeddedIR::Text(text) ==> item@ == EmbeddedIR::Text(text@),
        item is Space ==> item@ is Space,
        item is HardSpace ==> item@ is HardSpace,
        item matches EmbeddedIR::Line(mode) ==> item@ == EmbeddedIR::<Seq<char>>::Line(mode),
        item is ExpandParent ==> item@ is ExpandParent,
        item is LineSuffixBoundary ==> item@ is LineSuffixBoundary,
        item is StartIndent ==> item@ is StartIndent,
        item is EndIndent ==> item@ is EndIndent,
        item matches EmbeddedIR::StartAlign(n) ==> item@ == EmbeddedIR::<Seq<char>>::StartAlign(n),
        item is EndAlign ==> item@ is EndAlign,
        item matches EmbeddedIR::StartDedent { to_root } ==> item@ == (EmbeddedIR::<
            Seq<char>,
        >::StartDedent { to_root }),
        item matches EmbeddedIR::EndDedent { to_root } ==> item@ == (EmbeddedIR::<
            Seq<char>,
        >::EndDedent { to_root }),
        item matches EmbeddedIR::StartGroup { id, should_break } ==> item@ == (EmbeddedIR::<
            Seq<char>,
        >::StartGroup { id, should_break }),
        item is EndGroup ==> item@ is EndGroup,
        item matches EmbeddedIR::StartConditionalContent { mode, group_id } ==> item@ == (
        EmbeddedIR::<Seq<char>>::StartConditionalContent { mode, group_id }),
        item is EndConditionalContent ==> item@ is EndConditionalContent,
        item matches EmbeddedIR::StartIndentIfGroupBreaks(id) ==> item@ == EmbeddedIR::<
            Seq<char>,
        >::StartIndentIfGroupBreaks(id),
        item matches EmbeddedIR::EndIndentIfGroupBreaks(id) ==> item@ == EmbeddedIR::<
            Seq<char>,
        >::EndIndentIfGroupBreaks(id),
        item is StartFill ==> item@ is StartFill,
        item is EndFill ==> item@ is EndFill,
        item is StartEntry ==> item@ is StartEntry,
        item is EndEntry ==> item@ is EndEntry,
        item is StartLineSuffix ==> item@ is StartLineSuffix,
        item is EndLineSuffix ==> item@ is EndLineSuffix,
{
}

/// Contracts see every element as it is, but for what holds its text.
pub proof fn law_element_is_seen_as_it_is(element: FormatElement<&str>)
    ensures
        element is Space ==> element@ is Space,
        element is HardSpace ==> element@ is HardSpace,
        element matches FormatElement::Line(mode) ==> element@ == FormatElement::<Seq<char>>::Line(
            mode,
        ),
        element is ExpandParent ==> element@ is ExpandParent,
        element matches FormatElement::Token(text) ==> element@ == FormatElement::Token(text@),
        element matches FormatElement::Text { text, indent_width } ==> element@ == (
        FormatElement::Text { text: text@, indent_width }),
        element is LineSuffixBoundary ==> element@ is LineSuffixBoundary,
        element matches FormatElement::Tag(tag) ==> element@ == FormatElement::<Seq<char>>::Tag(
            tag,
        ),
        element matches FormatElement::TemplateExpression(at) ==> element@ == FormatElement::<
            Seq<char>,
        >::TemplateExpression(at),
{
}

/// An embedded document as contracts speak of it.
pub type Ir = Seq<EmbeddedIR<Seq<char>>>;

/// A written document as contracts speak of it.
pub type Elements = Seq<FormatElement<Seq<char>>>;

/// The embedded document that `items` hold.
pub open spec fn ir_of(items: Seq<EmbeddedIR>) -> Ir {
    items.map_values(|item: EmbeddedIR| item@)
}

/// `content` on lines of its own between two backticks.
pub open spec fn in_template(content: Elements) -> Elements {
    seq![FormatElement::Token("`"@), FormatElement::Tag(Tag::StartBlockIndent)] + content + seq![
        FormatElement::Tag(Tag::EndBlockIndent),
        FormatElement::Token("`"@),
    ]
}

/// The template with nothing in it.
pub open spec fn empty_template() -> Elements {
    seq![FormatElement::Token("``"@)]
}

/// A document is seen item by item.
pub proof fn law_document_is_seen_item_by_item(items: Seq<EmbeddedIR>)
    ensures
        ir_of(items).len() == items.len(),
        forall|k: int| 0 <= k < items.len() ==> #[trigger] ir_of(items)[k] == items[k]@,
{
}

/// A template has one backtick at each end, and inside them a block with its content;
/// the template with nothing in it is the two backticks as one token.
pub proof fn law_template_has_backticks(content: Elements)
    ensures
        in_template(content).len() == content.len() + 4,
        in_template(content)[0] == FormatElement::Token(seq!['`']),
        in_template(content)[1] == FormatElement::<Seq<char>>::Tag(Tag::StartBlockIndent),
        in_template(content).subrange(2, content.len() as int + 2) == content,
        in_template(content)[content.len() as int + 2] == FormatElement::<Seq<char>>::Tag(
            Tag::EndBlockIndent,
        ),
        in_template(content)[content.len() as int + 3] == FormatElement::Token(seq!['`']),
        empty_template() == seq![FormatElement::Token(seq!['`', '`'])],
{
    reveal_strlit("`");
    reveal_strlit("``");
    assert("`"@ =~= seq!['`']);
    assert("``"@ =~= seq!['`', '`']);
    assert(in_template(content).subrange(2, content.len() as int + 2) =~= content);
}

/// What is written: the elements so far, and the number of the next group.
pub struct Formatter<'a> {
    pub elements: Vec<FormatElement<&'a str>>,
    pub indent_width: u8,
    pub next_group_id: u32,
    pub allocator: &'a Allocator,
}

/// A [`Formatter`] as contracts speak of it.
#[verifier::ext_equal]
pub struct FormatterState {
    pub elements: Elements,
    pub indent_width: u8,
    pub next_group_id: u32,
}

impl<'a> View for Formatter<'a> {
    type V = FormatterState;

    open spec fn view(&self) -> FormatterState {
        FormatterState {
            elements: self.elements@.map_values(|element: FormatElement<&'a str>| element@),
            indent_width: self.indent_width,
            next_group_id: self.next_group_id,
        }
    }
}

impl FormatterState {
    /// The state after `more` has been written too.
    pub open spec fn wrote(self, more: Elements) -> FormatterState {
        FormatterState { elements: self.elements + more, ..self }
    }
}

/// A formatter is seen with all that it has written, element by element.
pub proof fn law_formatter_is_seen_as_it_is(f: Formatter<'_>, more: Elements)
    ensures
        f@.elements.len() == f.elements@.len(),
        forall|k: int| 0 <= k < f.elements@.len() ==> #[trigger] f@.elements[k] == f.elements@[k]@,
        f@.indent_width == f.indent_width,
        f@.next_group_id == f.next_group_id,
        f@.wrote(more).elements == f@.elements + more,
        f@.wrote(more).indent_width == f.indent_width,
        f@.wrote(more).next_group_id == f.next_group_id,
{
}

impl<'a> Formatter<'a> {
    /// A formatter that has written nothing, for tabs of `indent_width` columns.
    pub fn new(allocator: &'a Allocator, indent_width: u8) -> (f: Formatter<'a>)
        ensures
            f@ == (FormatterState {
                elements: Seq::empty(),
                indent_width,
                next_group_id: 1,
            }),
            f.allocator == allocator,
    {
        let f = Formatter { elements: Vec::new(), indent_width, next_group_id: 1, allocator };
        assert(f@.elements =~= Seq::empty());
        f
    }

    /// Write one element.
    pub fn write_element(&mut self, element: FormatElement<&'a str>)
        ensures
            final(self)@ == old(self)@.wrote(seq![element@]),
            final(self).elements@ == old(self).elements@.push(element),
            final(self).allocator == old(self).allocator,
    {
        self.elements.push(element);
        assert(self@.elements =~= old(self)@.elements + seq![element@]);
    }

    /// Write a text that is laid down in the arena already.
    pub fn write_text(&mut self, text: &'a str)
        ensures
            final(self)@ == old(self)@.wrote(
                seq![FormatElement::Text { text: text@, indent_width: old(self)@.indent_width }],
            ),
            final(self).allocator == old(self).allocator,
    {
        self.write_element(FormatElement::Text { text, indent_width: self.indent_width });
    }

    /// A group that no element names yet.
    pub fn group_id(&mut self) -> (id: GroupId)
        requires
            old(self).next_group_id < u32::MAX,
        ensures
            id == GroupId(old(self).next_group_id),
            final(self).next_group_id == old(self).next_group_id + 1,
            final(self)@.elements == old(self)@.elements,
            final(self)@.indent_width == old(self)@.indent_width,
            final(self).allocator == old(self).allocator,
    {
        let id = GroupId(self.next_group_id);
        self.next_group_id = self.next_group_id + 1;
        id
    }
}

} // verus!
