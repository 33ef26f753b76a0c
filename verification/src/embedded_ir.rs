//! Writing an embedded document into the document of the template around it.

use rustc_hash::FxHashMap;
use vstd::prelude::*;

use crate::foreign::alloc_str;
use crate::foreign::map_get;
use crate::foreign::map_insert;
use crate::ir::ir_of;
use crate::ir::DedentMode;
use crate::ir::Elements;
use crate::ir::EmbeddedIR;
use crate::ir::FormatElement;
use crate::ir::Formatter;
use crate::ir::GroupId;
use crate::ir::GroupMode;
use crate::ir::Ir;
use crate::ir::LineMode;
use crate::ir::Tag;
use crate::template_text::breaks_template;
use crate::template_text::escape_template_characters;
use crate::template_text::escaped;
use crate::template_text::law_escape_is_safe;

verus! {

/// The groups of the embedded document that have a name already, and the number
/// that the next name will have.
#[verifier::ext_equal]
pub struct GroupIds {
    pub map: Map<u32, GroupId>,
    pub next: nat,
}

impl GroupIds {
    /// The groups once `id` has a name too.
    pub open spec fn with(self, id: u32) -> GroupIds {
        if self.map.contains_key(id) {
            self
        } else {
            GroupIds {
                map: self.map.insert(id, GroupId(self.next as u32)),
                next: self.next + 1,
            }
        }
    }

    /// Every group that has a name has the same name in `later`.
    pub open spec fn kept_in(self, later: GroupIds) -> bool {
        forall|id: u32| #[trigger]
            self.map.contains_key(id) ==> later.map.contains_key(id) && later.map[id]
                == self.map[id]
    }

    /// Every name is older than the next one, and no two groups share one.
    pub open spec fn distinct(self) -> bool {
        &&& forall|id: u32| #[trigger] self.map.contains_key(id) ==> self.map[id].0 < self.next
        &&& forall|a: u32, b: u32| #[trigger]
            self.map.contains_key(a) && #[trigger] self.map.contains_key(b) && self.map[a]
                == self.map[b] ==> a == b
    }
}

/// The group that an item opens, closes or asks about.
pub open spec fn group_of<S>(item: EmbeddedIR<S>) -> Option<u32> {
    match item {
        EmbeddedIR::StartGroup { id, .. } => id,
        EmbeddedIR::StartConditionalContent { group_id, .. } => group_id,
        EmbeddedIR::StartIndentIfGroupBreaks(id) => Some(id),
        EmbeddedIR::EndIndentIfGroupBreaks(id) => Some(id),
        _ => None,
    }
}

/// The groups once the group of `item`, if it has one, has a name.
pub open spec fn ids_after_item(item: EmbeddedIR<Seq<char>>, ids: GroupIds) -> GroupIds {
    match group_of(item) {
        Some(id) => ids.with(id),
        None => ids,
    }
}

/// The groups once every group of `ir` has a name, given in the order of the items.
pub open spec fn ids_after(ir: Ir, ids: GroupIds) -> GroupIds
    decreases ir.len(),
{
    if ir.len() == 0 {
        ids
    } else {
        ids_after_item(ir.last(), ids_after(ir.drop_last(), ids))
    }
}

/// The dedent that goes to the root or not.
pub open spec fn dedent_mode(to_root: bool) -> DedentMode {
    if to_root {
        DedentMode::Root
    } else {
        DedentMode::Level
    }
}

/// The name of the group `id`, where an item has one.
pub open spec fn name_of(id: Option<u32>, ids: GroupIds) -> Option<GroupId> {
    match id {
        Some(id) => Some(ids.map[id]),
        None => None,
    }
}

/// The tag that `item` is written as, if it is written as a tag.
pub open spec fn tag_of(item: EmbeddedIR<Seq<char>>, ids: GroupIds) -> Option<Tag> {
    match item {
        EmbeddedIR::StartIndent => Some(Tag::StartIndent),
        EmbeddedIR::EndIndent => Some(Tag::EndIndent),
        EmbeddedIR::StartAlign(n) => if n == 0 {
            None
        } else {
            Some(Tag::StartAlign(n))
        },
        EmbeddedIR::EndAlign => Some(Tag::EndAlign),
        EmbeddedIR::StartDedent { to_root } => Some(Tag::StartDedent(dedent_mode(to_root))),
        EmbeddedIR::EndDedent { to_root } => Some(Tag::EndDedent(dedent_mode(to_root))),
        EmbeddedIR::StartGroup { id, should_break } => Some(
            Tag::StartGroup {
                id: name_of(id, ids),
                mode: if should_break {
                    GroupMode::Expand
                } else {
                    GroupMode::Flat
                },
            },
        ),
        EmbeddedIR::EndGroup => Some(Tag::EndGroup),
        EmbeddedIR::StartConditionalContent { mode, group_id } => Some(
            Tag::StartConditionalContent { mode, group_id: name_of(group_id, ids) },
        ),
        EmbeddedIR::EndConditionalContent => Some(Tag::EndConditionalContent),
        EmbeddedIR::StartIndentIfGroupBreaks(id) => Some(
            Tag::StartIndentIfGroupBreaks(ids.map[id]),
        ),
        EmbeddedIR::EndIndentIfGroupBreaks(id) => Some(Tag::EndIndentIfGroupBreaks(ids.map[id])),
        EmbeddedIR::StartFill => Some(Tag::StartFill),
        EmbeddedIR::EndFill => Some(Tag::EndFill),
        EmbeddedIR::StartEntry => Some(Tag::StartEntry),
        EmbeddedIR::EndEntry => Some(Tag::EndEntry),
        EmbeddedIR::StartLineSuffix => Some(Tag::StartLineSuffix),
        EmbeddedIR::EndLineSuffix => Some(Tag::EndLineSuffix),
        _ => None,
    }
}

/// What is written for one item, once its group has a name: one element, with the
/// text escaped; an alignment by zero alone is left out.
pub open spec fn written_item(
    item: EmbeddedIR<Seq<char>>,
    ids: GroupIds,
    indent_width: u8,
) -> Elements {
    match item {
        EmbeddedIR::Space => seq![FormatElement::Space],
        EmbeddedIR::HardSpace => seq![FormatElement::HardSpace],
        EmbeddedIR::Line(mode) => seq![FormatElement::Line(mode)],
        EmbeddedIR::ExpandParent => seq![FormatElement::ExpandParent],
        EmbeddedIR::Text(text) => seq![FormatElement::Text { text: escaped(text), indent_width }],
        EmbeddedIR::LineSuffixBoundary => seq![FormatElement::LineSuffixBoundary],
        _ => match tag_of(item, ids) {
            Some(tag) => seq![FormatElement::Tag(tag)],
            None => Seq::empty(),
        },
    }
}

/// What is written for an embedded document.
pub open spec fn written(ir: Ir, ids: GroupIds, indent_width: u8) -> Elements
    decreases ir.len(),
{
    if ir.len() == 0 {
        Seq::empty()
    } else {
        written(ir.drop_last(), ids, indent_width) + written_item(
            ir.last(),
            ids_after(ir, ids),
            indent_width,
        )
    }
}

/// Whether an element can stand between the backticks of a template as it is.
pub open spec fn fits_a_template(element: FormatElement<Seq<char>>) -> bool {
    match element {
        FormatElement::Text { text, .. } => !breaks_template(text),
        FormatElement::Tag(Tag::StartAlign(n)) => n != 0,
        FormatElement::Token(_) => false,
        FormatElement::TemplateExpression(_) => false,
        _ => true,
    }
}

/// The groups that `map` and the counter of `f` stand for.
pub open spec fn group_ids(map: Map<u32, GroupId>, next: u32) -> GroupIds {
    GroupIds { map, next: next as nat }
}

/// The number of the next group never falls.
pub proof fn lemma_ids_grow(ir: Ir, ids: GroupIds, count: int)
    requires
        0 <= count <= ir.len(),
    ensures
        ids.next <= ids_after(ir.take(count), ids).next <= ids_after(ir, ids).next,
    decreases ir.len(),
{
    if count == ir.len() {
        assert(ir.take(count) =~= ir);
        if count > 0 {
            lemma_ids_grow(ir.drop_last(), ids, count - 1);
        }
    } else {
        lemma_ids_grow(ir.drop_last(), ids, count);
        assert(ir.drop_last().take(count) =~= ir.take(count));
    }
}

proof fn lemma_item_keeps_names(item: EmbeddedIR<Seq<char>>, ids: GroupIds)
    ensures
        ids.kept_in(ids_after_item(item, ids)),
        group_of(item) matches Some(id) ==> ids_after_item(item, ids).map.contains_key(id),
{
}

proof fn lemma_names_are_kept(ir: Ir, ids: GroupIds)
    ensures
        ids.kept_in(ids_after(ir, ids)),
        forall|k: int|
            0 <= k < ir.len() ==> (group_of(#[trigger] ir[k]) matches Some(id) ==> ids_after(
                ir,
                ids,
            ).map.contains_key(id)),
    decreases ir.len(),
{
    if ir.len() > 0 {
        let rest = ir.drop_last();
        lemma_names_are_kept(rest, ids);
        lemma_item_keeps_names(ir.last(), ids_after(rest, ids));
        assert forall|k: int| 0 <= k < ir.len() implies (group_of(#[trigger] ir[k]) matches Some(
            id,
        ) ==> ids_after(ir, ids).map.contains_key(id)) by {
            if k < rest.len() {
                assert(ir[k] == rest[k]);
            }
        }
    }
}

proof fn lemma_item_name_is_new(item: EmbeddedIR<Seq<char>>, ids: GroupIds)
    requires
        ids.distinct(),
        ids_after_item(item, ids).next <= u32::MAX,
    ensures
        ids_after_item(item, ids).distinct(),
{
    let after = ids_after_item(item, ids);
    assert forall|a: u32, b: u32| #[trigger]
        after.map.contains_key(a) && #[trigger] after.map.contains_key(b) && after.map[a]
            == after.map[b] implies a == b by {
        if a != b {
            assert(ids.map.contains_key(a) || ids.map.contains_key(b));
        }
    }
}

/// Writing a document gives every group of it a name. Names that were given before
/// stay, and no two groups share one.
pub proof fn law_group_names_are_distinct(ir: Ir, ids: GroupIds)
    requires
        ids.distinct(),
        ids_after(ir, ids).next <= u32::MAX,
    ensures
        ids_after(ir, ids).distinct(),
        ids.kept_in(ids_after(ir, ids)),
        forall|k: int|
            0 <= k < ir.len() ==> (group_of(#[trigger] ir[k]) matches Some(id) ==> ids_after(
                ir,
                ids,
            ).map.contains_key(id)),
    decreases ir.len(),
{
    lemma_names_are_kept(ir, ids);
    if ir.len() > 0 {
        let rest = ir.drop_last();
        lemma_ids_grow(ir, ids, ir.len() - 1);
        assert(ir.take(ir.len() - 1) =~= rest);
        law_group_names_are_distinct(rest, ids);
        lemma_item_name_is_new(ir.last(), ids_after(rest, ids));
    }
}

/// Writing two documents one behind the other, with the same table of groups, is
/// writing the one document that they make up.
pub proof fn law_written_in_parts(front: Ir, back: Ir, ids: GroupIds, indent_width: u8)
    ensures
        ids_after(front + back, ids) == ids_after(back, ids_after(front, ids)),
        written(front + back, ids, indent_width) == written(front, ids, indent_width) + written(
            back,
            ids_after(front, ids),
            indent_width,
        ),
    decreases back.len(),
{
    if back.len() == 0 {
        assert(front + back =~= front);
        assert(written(front, ids, indent_width) + Seq::empty() =~= written(
            front,
            ids,
            indent_width,
        ));
    } else {
        law_written_in_parts(front, back.drop_last(), ids, indent_width);
        assert((front + back).drop_last() =~= front + back.drop_last());
        assert((front + back).last() == back.last());
        assert(written(front + back, ids, indent_width) =~= written(front, ids, indent_width)
            + written(back, ids_after(front, ids), indent_width));
    }
}

proof fn lemma_written_item_keeps(
    item: EmbeddedIR<Seq<char>>,
    early: GroupIds,
    late: GroupIds,
    indent_width: u8,
)
    requires
        early.kept_in(late),
        group_of(item) matches Some(id) ==> early.map.contains_key(id),
    ensures
        written_item(item, early, indent_width) == written_item(item, late, indent_width),
{
    if let Some(id) = group_of(item) {
        assert(early.map[id] == late.map[id]);
    }
}

/// Every item is written as one element, in place, but for an alignment by zero,
/// which is left out; and a group has one name throughout the document.
pub proof fn law_written_item_by_item(ir: Ir, ids: GroupIds, indent_width: u8)
    requires
        forall|k: int| 0 <= k < ir.len() ==> #[trigger] ir[k] != EmbeddedIR::<Seq<char>>::StartAlign(0),
    ensures
        written(ir, ids, indent_width).len() == ir.len(),
        forall|k: int|
            0 <= k < ir.len() ==> seq![#[trigger] written(ir, ids, indent_width)[k]]
                == written_item(ir[k], ids_after(ir, ids), indent_width),
    decreases ir.len(),
{
    if ir.len() > 0 {
        let rest = ir.drop_last();
        let early = ids_after(rest, ids);
        let late = ids_after(ir, ids);
        assert forall|k: int| 0 <= k < rest.len() implies #[trigger] rest[k]
            != EmbeddedIR::<Seq<char>>::StartAlign(0) by {
            assert(rest[k] == ir[k]);
        }
        law_written_item_by_item(rest, ids, indent_width);
        lemma_names_are_kept(rest, ids);
        lemma_item_keeps_names(ir.last(), early);
        assert(ir[ir.len() - 1] != EmbeddedIR::<Seq<char>>::StartAlign(0));
        assert(written_item(ir.last(), late, indent_width).len() == 1);
        assert forall|k: int| 0 <= k < ir.len() implies seq![
            #[trigger] written(ir, ids, indent_width)[k],
        ] == written_item(ir[k], late, indent_width) by {
            if k < rest.len() {
                assert(written(ir, ids, indent_width)[k] == written(rest, ids, indent_width)[k]);
                assert(rest[k] == ir[k]);
                lemma_written_item_keeps(ir[k], early, late, indent_width);
            } else {
                assert(seq![written(ir, ids, indent_width)[k]] =~= written_item(
                    ir.last(),
                    late,
                    indent_width,
                ));
            }
        }
    }
}

/// The modes of the line breaks of a document, in order.
pub open spec fn ir_line_modes(ir: Ir) -> Seq<LineMode> {
    ir.filter(|item: EmbeddedIR<Seq<char>>| item is Line).map_values(
        |item: EmbeddedIR<Seq<char>>| item->Line_0,
    )
}

/// The modes of the line breaks of a written document, in order.
pub open spec fn element_line_modes(elements: Elements) -> Seq<LineMode> {
    elements.filter(|element: FormatElement<Seq<char>>| element is Line).map_values(
        |element: FormatElement<Seq<char>>| element->Line_0,
    )
}

proof fn lemma_line_modes_push(front: Elements, element: FormatElement<Seq<char>>)
    ensures
        element_line_modes(front.push(element)) == if element is Line {
            element_line_modes(front).push(element->Line_0)
        } else {
            element_line_modes(front)
        },
{
    reveal(Seq::filter);
    assert(front.push(element).drop_last() =~= front);
    if element is Line {
        assert(element_line_modes(front.push(element)) =~= element_line_modes(front).push(
            element->Line_0,
        ));
    }
}

proof fn lemma_ir_line_modes_push(front: Ir, item: EmbeddedIR<Seq<char>>)
    ensures
        ir_line_modes(front.push(item)) == if item is Line {
            ir_line_modes(front).push(item->Line_0)
        } else {
            ir_line_modes(front)
        },
{
    reveal(Seq::filter);
    assert(front.push(item).drop_last() =~= front);
    if item is Line {
        assert(ir_line_modes(front.push(item)) =~= ir_line_modes(front).push(item->Line_0));
    }
}

/// The line breaks that are written are those of the document, each in its mode and in
/// order, and there are no others.
pub proof fn law_line_breaks_are_kept(ir: Ir, ids: GroupIds, indent_width: u8)
    ensures
        element_line_modes(written(ir, ids, indent_width)) == ir_line_modes(ir),
    decreases ir.len(),
{
    if ir.len() == 0 {
        reveal(Seq::filter);
        assert(element_line_modes(written(ir, ids, indent_width)) =~= ir_line_modes(ir));
    } else {
        let rest = ir.drop_last();
        let front = written(rest, ids, indent_width);
        let back = written_item(ir.last(), ids_after(ir, ids), indent_width);
        law_line_breaks_are_kept(rest, ids, indent_width);
        assert(rest.push(ir.last()) =~= ir);
        lemma_ir_line_modes_push(rest, ir.last());
        if back.len() == 0 {
            assert(front + back =~= front);
        } else {
            assert(front + back =~= front.push(back[0]));
            lemma_line_modes_push(front, back[0]);
        }
    }
}

/// An alignment by zero is written as nothing, wherever it stands.
pub proof fn law_zero_alignment_stands_for_nothing(
    front: Ir,
    back: Ir,
    ids: GroupIds,
    indent_width: u8,
)
    ensures
        written(front.push(EmbeddedIR::StartAlign(0)) + back, ids, indent_width) == written(
            front + back,
            ids,
            indent_width,
        ),
        ids_after(front.push(EmbeddedIR::StartAlign(0)) + back, ids) == ids_after(
            front + back,
            ids,
        ),
{
    let with_zero = front.push(EmbeddedIR::StartAlign(0));
    law_written_in_parts(with_zero, back, ids, indent_width);
    law_written_in_parts(front, back, ids, indent_width);
    assert(with_zero.drop_last() =~= front);
    assert(written(front, ids, indent_width) + Seq::empty() =~= written(front, ids, indent_width));
}

/// Item for item, what is written is what the document says: spaces, line breaks in
/// their mode, texts escaped, and each tag as itself with the names of its groups, which
/// all have one.
pub proof fn law_items_are_written_as_they_are(ir: Ir, ids: GroupIds, indent_width: u8, k: int)
    requires
        0 <= k < ir.len(),
        forall|j: int| 0 <= j < ir.len() ==> #[trigger] ir[j] != EmbeddedIR::<Seq<char>>::StartAlign(0),
    ensures
        written(ir, ids, indent_width).len() == ir.len(),
        ({
            let item = ir[k];
            let element = written(ir, ids, indent_width)[k];
            let names = ids_after(ir, ids).map;
            &&& item is Space ==> element is Space
            &&& item is HardSpace ==> element is HardSpace
            &&& item matches EmbeddedIR::Line(mode) ==> element == FormatElement::<Seq<char>>::Line(
                mode,
            )
            &&& item is ExpandParent ==> element is ExpandParent
            &&& item is LineSuffixBoundary ==> element is LineSuffixBoundary
            &&& item matches EmbeddedIR::Text(text) ==> element == (FormatElement::Text {
                text: escaped(text),
                indent_width,
            })
            &&& item is StartIndent ==> element == FormatElement::<Seq<char>>::Tag(Tag::StartIndent)
            &&& item is EndIndent ==> element == FormatElement::<Seq<char>>::Tag(Tag::EndIndent)
            &&& item matches EmbeddedIR::StartAlign(n) ==> element == FormatElement::<
                Seq<char>,
            >::Tag(Tag::StartAlign(n))
            &&& item is EndAlign ==> element == FormatElement::<Seq<char>>::Tag(Tag::EndAlign)
            &&& item matches EmbeddedIR::StartDedent { to_root } ==> element == FormatElement::<
                Seq<char>,
            >::Tag(
                Tag::StartDedent(
                    if to_root {
                        DedentMode::Root
                    } else {
                        DedentMode::Level
                    },
                ),
            )
            &&& item matches EmbeddedIR::EndDedent { to_root } ==> element == FormatElement::<
                Seq<char>,
            >::Tag(
                Tag::EndDedent(
                    if to_root {
                        DedentMode::Root
                    } else {
                        DedentMode::Level
                    },
                ),
            )
            &&& item matches EmbeddedIR::StartGroup { id, should_break } ==> (element matches
                FormatElement::Tag(Tag::StartGroup { id: name, mode }) && (mode
                == GroupMode::Expand <==> should_break) && (id is None <==> name is None) && (
            id matches Some(id) ==> names.contains_key(id) && name == Some(names[id])))
            &&& item is EndGroup ==> element == FormatElement::<Seq<char>>::Tag(Tag::EndGroup)
            &&& item matches EmbeddedIR::StartConditionalContent { mode, group_id } ==> (
            element matches FormatElement::Tag(
                Tag::StartConditionalContent { mode: written_mode, group_id: name },
            ) && written_mode == mode && (group_id is None <==> name is None) && (
            group_id matches Some(id) ==> names.contains_key(id) && name == Some(names[id])))
            &&& item is EndConditionalContent ==> element == FormatElement::<Seq<char>>::Tag(
                Tag::EndConditionalContent,
            )
            &&& item matches EmbeddedIR::StartIndentIfGroupBreaks(id) ==> names.contains_key(id)
                && element == FormatElement::<Seq<char>>::Tag(
                Tag::StartIndentIfGroupBreaks(names[id]),
            )
            &&& item matches EmbeddedIR::EndIndentIfGroupBreaks(id) ==> names.contains_key(id)
                && element == FormatElement::<Seq<char>>::Tag(
                Tag::EndIndentIfGroupBreaks(names[id]),
            )
            &&& item is StartFill ==> element == FormatElement::<Seq<char>>::Tag(Tag::StartFill)
            &&& item is EndFill ==> element == FormatElement::<Seq<char>>::Tag(Tag::EndFill)
            &&& item is StartEntry ==> element == FormatElement::<Seq<char>>::Tag(Tag::StartEntry)
            &&& item is EndEntry ==> element == FormatElement::<Seq<char>>::Tag(Tag::EndEntry)
            &&& item is StartLineSuffix ==> element == FormatElement::<Seq<char>>::Tag(
                Tag::StartLineSuffix,
            )
            &&& item is EndLineSuffix ==> element == FormatElement::<Seq<char>>::Tag(
                Tag::EndLineSuffix,
            )
        }),
{
    law_written_item_by_item(ir, ids, indent_width);
    lemma_names_are_kept(ir, ids);
    let element = written(ir, ids, indent_width)[k];
    assert(seq![element][0] == element);
    assert(written_item(ir[k], ids_after(ir, ids), indent_width)[0] == element);
}

/// A group without a name gets the next number and nothing else is renamed; a group with
/// a name keeps it, and no number is used up.
pub proof fn law_naming_a_group(ids: GroupIds, id: u32)
    ensures
        ids.map.contains_key(id) ==> ids.with(id) == ids,
        !ids.map.contains_key(id) ==> ids.with(id).map == ids.map.insert(
            id,
            GroupId(ids.next as u32),
        ) && ids.with(id).next == ids.next + 1,
{
}

/// The groups with a name are those that had one and those that the document speaks of,
/// and each new one has used up one number.
pub proof fn law_groups_are_counted(ir: Ir, ids: GroupIds)
    requires
        ids.map.dom().finite(),
    ensures
        ids_after(ir, ids).map.dom().finite(),
        ids_after(ir, ids).next - ids.next == ids_after(ir, ids).map.dom().len()
            - ids.map.dom().len(),
        forall|id: u32| #[trigger]
            ids_after(ir, ids).map.contains_key(id) <==> ids.map.contains_key(id) || exists|k: int|
                0 <= k < ir.len() && group_of(#[trigger] ir[k]) == Some(id),
    decreases ir.len(),
{
    if ir.len() > 0 {
        let rest = ir.drop_last();
        let early = ids_after(rest, ids);
        let late = ids_after(ir, ids);
        law_groups_are_counted(rest, ids);
        assert forall|id: u32| #[trigger] late.map.contains_key(id) <==> ids.map.contains_key(id)
            || exists|k: int| 0 <= k < ir.len() && group_of(#[trigger] ir[k]) == Some(id) by {
            assert(late.map.contains_key(id) <==> early.map.contains_key(id) || group_of(ir.last())
                == Some(id));
            if early.map.contains_key(id) && !ids.map.contains_key(id) {
                let k = choose|k: int|
                    0 <= k < rest.len() && group_of(#[trigger] rest[k]) == Some(id);
                assert(group_of(ir[k]) == Some(id));
            }
            if group_of(ir.last()) == Some(id) {
                assert(group_of(ir[ir.len() - 1]) == Some(id));
            }
            if exists|k: int| 0 <= k < ir.len() && group_of(#[trigger] ir[k]) == Some(id) {
                let k = choose|k: int| 0 <= k < ir.len() && group_of(#[trigger] ir[k]) == Some(id);
                if k < rest.len() {
                    assert(group_of(rest[k]) == Some(id));
                    assert(early.map.contains_key(id));
                }
            }
        }
    }
}

/// The groups that items speak of.
pub proof fn law_groups_of_items(item: EmbeddedIR<Seq<char>>, group: u32)
    ensures
        group_of(item) == Some(group) <==> {
            ||| item matches EmbeddedIR::StartGroup { id, .. } && id == Some(group)
            ||| item matches EmbeddedIR::StartConditionalContent { group_id, .. } && group_id
                == Some(group)
            ||| item == EmbeddedIR::<Seq<char>>::StartIndentIfGroupBreaks(group)
            ||| item == EmbeddedIR::<Seq<char>>::EndIndentIfGroupBreaks(group)
        },
{
}

/// Every item but an alignment by zero.
pub open spec fn not_zero_alignment() -> spec_fn(EmbeddedIR<Seq<char>>) -> bool {
    |item: EmbeddedIR<Seq<char>>| item != EmbeddedIR::<Seq<char>>::StartAlign(0)
}

/// An alignment by zero leaves no trace.
pub proof fn law_zero_alignment_is_dropped(ir: Ir, ids: GroupIds, indent_width: u8)
    ensures
        ids_after(ir.filter(not_zero_alignment()), ids) == ids_after(ir, ids),
        written(ir.filter(not_zero_alignment()), ids, indent_width) == written(
            ir,
            ids,
            indent_width,
        ),
    decreases ir.len(),
{
    reveal(Seq::filter);
    if ir.len() > 0 {
        let rest = ir.drop_last();
        let kept = rest.filter(not_zero_alignment());
        law_zero_alignment_is_dropped(rest, ids, indent_width);
        if ir.last() != EmbeddedIR::<Seq<char>>::StartAlign(0) {
            assert(kept.push(ir.last()).drop_last() =~= kept);
        } else {
            assert(written(rest, ids, indent_width) + Seq::empty() =~= written(
                rest,
                ids,
                indent_width,
            ));
        }
    }
}

/// No text of a written document breaks the template that it stands in, no
/// alignment is zero, and the only elements that stand for the template itself, its
/// backticks and its expressions, are not among those that are written.
pub proof fn law_written_fits_a_template(ir: Ir, ids: GroupIds, indent_width: u8)
    ensures
        forall|k: int|
            0 <= k < written(ir, ids, indent_width).len() ==> fits_a_template(
                #[trigger] written(ir, ids, indent_width)[k],
            ),
    decreases ir.len(),
{
    if ir.len() > 0 {
        let front = written(ir.drop_last(), ids, indent_width);
        law_written_fits_a_template(ir.drop_last(), ids, indent_width);
        if let EmbeddedIR::Text(text) = ir.last() {
            law_escape_is_safe(text);
        }
        assert forall|k: int| 0 <= k < written(ir, ids, indent_width).len() implies fits_a_template(
            #[trigger] written(ir, ids, indent_width)[k],
        ) by {
            if k < front.len() {
                assert(written(ir, ids, indent_width)[k] == front[k]);
            }
        }
    }
}

/// Look up or create a `GroupId` for the given numeric ID.
pub fn resolve_group_id(id: u32, map: &mut FxHashMap<u32, GroupId>, f: &mut Formatter<'_>) -> (gid:
    GroupId)
    requires
        group_ids(old(map)@, old(f).next_group_id).with(id).next <= u32::MAX,
    ensures
        group_ids(final(map)@, final(f).next_group_id) == group_ids(
            old(map)@,
            old(f).next_group_id,
        ).with(id),
        gid == final(map)@[id],
        old(map)@.contains_key(id) ==> gid == old(map)@[id] && final(map)@ == old(map)@
            && final(f).next_group_id == old(f).next_group_id,
        !old(map)@.contains_key(id) ==> gid == GroupId(old(f).next_group_id) && final(map)@
            == old(map)@.insert(id, gid) && final(f).next_group_id == old(f).next_group_id + 1,
        final(f)@.elements == old(f)@.elements,
        final(f)@.indent_width == old(f)@.indent_width,
        final(f).allocator == old(f).allocator,
{
    if let Some(gid) = map_get(map, id) {
        return *gid;
    }
    let gid = f.group_id();
    map_insert(map, id, gid);
    gid
}

/// As [`resolve_group_id`], where there is an ID.
fn resolve_optional_group_id(
    id: Option<u32>,
    map: &mut FxHashMap<u32, GroupId>,
    f: &mut Formatter<'_>,
) -> (gid: Option<GroupId>)
    requires
        id matches Some(id) ==> group_ids(old(map)@, old(f).next_group_id).with(id).next
            <= u32::MAX,
    ensures
        group_ids(final(map)@, final(f).next_group_id) == (match id {
            Some(id) => group_ids(old(map)@, old(f).next_group_id).with(id),
            None => group_ids(old(map)@, old(f).next_group_id),
        }),
        gid == name_of(id, group_ids(final(map)@, final(f).next_group_id)),
        final(f)@.elements == old(f)@.elements,
        final(f)@.indent_width == old(f)@.indent_width,
        final(f).allocator == old(f).allocator,
{
    match id {
        Some(id) => Some(resolve_group_id(id, map, f)),
        None => None,
    }
}

/// The dedent that goes to the root or not.
fn dedent_mode_of(to_root: bool) -> (mode: DedentMode)
    ensures
        mode == dedent_mode(to_root),
{
    if to_root {
        DedentMode::Root
    } else {
        DedentMode::Level
    }
}

/// Write one item of an embedded document.
fn write_embedded_item(
    item: &EmbeddedIR,
    f: &mut Formatter<'_>,
    group_id_map: &mut FxHashMap<u32, GroupId>,
)
    requires
        ids_after_item(item@, group_ids(old(group_id_map)@, old(f).next_group_id)).next
            <= u32::MAX,
    ensures
        group_ids(final(group_id_map)@, final(f).next_group_id) == ids_after_item(
            item@,
            group_ids(old(group_id_map)@, old(f).next_group_id),
        ),
        final(f)@.elements == old(f)@.elements + written_item(
            item@,
            group_ids(final(group_id_map)@, final(f).next_group_id),
            old(f)@.indent_width,
        ),
        final(f)@.indent_width == old(f)@.indent_width,
        final(f).allocator == old(f).allocator,
{
    match item {
        EmbeddedIR::Space => f.write_element(FormatElement::Space),
        EmbeddedIR::HardSpace => f.write_element(FormatElement::HardSpace),
        EmbeddedIR::Line(mode) => f.write_element(FormatElement::Line(*mode)),
        EmbeddedIR::ExpandParent => f.write_element(FormatElement::ExpandParent),
        EmbeddedIR::Text(s) => {
            let escaped_text = escape_template_characters(s);
            let text = alloc_str(f.allocator, &escaped_text);
            f.write_text(text);
        },
        EmbeddedIR::LineSuffixBoundary => f.write_element(FormatElement::LineSuffixBoundary),
        EmbeddedIR::StartIndent => f.write_element(FormatElement::Tag(Tag::StartIndent)),
        EmbeddedIR::EndIndent => f.write_element(FormatElement::Tag(Tag::EndIndent)),
        EmbeddedIR::StartAlign(n) => {
            if *n != 0 {
                f.write_element(FormatElement::Tag(Tag::StartAlign(*n)));
            }
        },
        EmbeddedIR::EndAlign => f.write_element(FormatElement::Tag(Tag::EndAlign)),
        EmbeddedIR::StartDedent { to_root } => {
            let mode = dedent_mode_of(*to_root);
            f.write_element(FormatElement::Tag(Tag::StartDedent(mode)));
        },
        EmbeddedIR::EndDedent { to_root } => {
            let mode = dedent_mode_of(*to_root);
            f.write_element(FormatElement::Tag(Tag::EndDedent(mode)));
        },
        EmbeddedIR::StartGroup { id, should_break } => {
            let gid = resolve_optional_group_id(*id, group_id_map, f);
            let mode = if *should_break {
                GroupMode::Expand
            } else {
                GroupMode::Flat
            };
            f.write_element(FormatElement::Tag(Tag::StartGroup { id: gid, mode }));
        },
        EmbeddedIR::EndGroup => f.write_element(FormatElement::Tag(Tag::EndGroup)),
        EmbeddedIR::StartConditionalContent { mode, group_id } => {
            let gid = resolve_optional_group_id(*group_id, group_id_map, f);
            f.write_element(
                FormatElement::Tag(Tag::StartConditionalContent { mode: *mode, group_id: gid }),
            );
        },
        EmbeddedIR::EndConditionalContent => {
            f.write_element(FormatElement::Tag(Tag::EndConditionalContent));
        },
        EmbeddedIR::StartIndentIfGroupBreaks(id) => {
            let gid = resolve_group_id(*id, group_id_map, f);
            f.write_element(FormatElement::Tag(Tag::StartIndentIfGroupBreaks(gid)));
        },
        EmbeddedIR::EndIndentIfGroupBreaks(id) => {
            let gid = resolve_group_id(*id, group_id_map, f);
            f.write_element(FormatElement::Tag(Tag::EndIndentIfGroupBreaks(gid)));
        },
        EmbeddedIR::StartFill => f.write_element(FormatElement::Tag(Tag::StartFill)),
        EmbeddedIR::EndFill => f.write_element(FormatElement::Tag(Tag::EndFill)),
        EmbeddedIR::StartEntry => f.write_element(FormatElement::Tag(Tag::StartEntry)),
        EmbeddedIR::EndEntry => f.write_element(FormatElement::Tag(Tag::EndEntry)),
        EmbeddedIR::StartLineSuffix => f.write_element(FormatElement::Tag(Tag::StartLineSuffix)),
        EmbeddedIR::EndLineSuffix => f.write_element(FormatElement::Tag(Tag::EndLineSuffix)),
    }
    assert(f@.elements =~= old(f)@.elements + written_item(
        item@,
        group_ids(group_id_map@, f.next_group_id),
        old(f)@.indent_width,
    ));
}

/// Write a sequence of `EmbeddedIR` elements into the formatter buffer,
/// converting each to the corresponding `FormatElement`.
pub fn write_embedded_ir(
    ir: &[EmbeddedIR],
    f: &mut Formatter<'_>,
    group_id_map: &mut FxHashMap<u32, GroupId>,
)
    requires
        ids_after(ir_of(ir@), group_ids(old(group_id_map)@, old(f).next_group_id)).next
            <= u32::MAX,
    ensures
        group_ids(final(group_id_map)@, final(f).next_group_id) == ids_after(
            ir_of(ir@),
            group_ids(old(group_id_map)@, old(f).next_group_id),
        ),
        final(f)@.elements == old(f)@.elements + written(
            ir_of(ir@),
            group_ids(old(group_id_map)@, old(f).next_group_id),
            old(f)@.indent_width,
        ),
        final(f)@.indent_width == old(f)@.indent_width,
        final(f).allocator == old(f).allocator,
{
    let ghost all = ir_of(ir@);
    let ghost ids = group_ids(group_id_map@, f.next_group_id);
    let ghost before = f@;
    assert(before.elements + written(all.take(0), ids, before.indent_width) =~= before.elements);
    for i in 0..ir.len()
        invariant
            all == ir_of(ir@),
            ids_after(all, ids).next <= u32::MAX,
            group_ids(group_id_map@, f.next_group_id) == ids_after(all.take(i as int), ids),
            f@.elements == before.elements + written(
                all.take(i as int),
                ids,
                before.indent_width,
            ),
            f@.indent_width == before.indent_width,
            f.allocator == old(f).allocator,
    {
        proof {
            let part = all.take(i + 1);
            assert(part.drop_last() =~= all.take(i as int));
            assert(part.last() == ir[i as int]@);
            lemma_ids_grow(all, ids, i + 1);
        }
        write_embedded_item(&ir[i], f, group_id_map);
        assert(f@.elements =~= before.elements + written(
            all.take(i + 1),
            ids,
            before.indent_width,
        ));
    }
    assert(all.take(ir.len() as int) =~= all);
}

/// The group that an item opens, closes or asks about.
fn group_of_item(item: &EmbeddedIR) -> (id: Option<u32>)
    ensures
        id == group_of(item@),
{
    match item {
        EmbeddedIR::StartGroup { id, .. } => *id,
        EmbeddedIR::StartConditionalContent { group_id, .. } => *group_id,
        EmbeddedIR::StartIndentIfGroupBreaks(id) => Some(*id),
        EmbeddedIR::EndIndentIfGroupBreaks(id) => Some(*id),
        _ => None,
    }
}

/// `map` names the groups of the items in front of the one that no number is left for.
pub open spec fn names_run_out(ir: Ir, ids: GroupIds, map: Map<u32, GroupId>) -> bool {
    exists|i: int|
        #![trigger ir.take(i)]
        0 <= i < ir.len() && group_ids(map, u32::MAX) == ids_after(ir.take(i), ids) && ids_after(
            ir.take(i + 1),
            ids,
        ).next > u32::MAX
}

/// Name the groups of `ir` without writing it: the number of the next group
/// afterwards, or nothing where the numbers run out; the groups up to there are
/// then named.
pub fn name_groups(ir: &[EmbeddedIR], map: &mut FxHashMap<u32, GroupId>, next: u32) -> (r: Option<
    u32,
>)
    ensures
        r is Some <==> ids_after(ir_of(ir@), group_ids(old(map)@, next)).next <= u32::MAX,
        r matches Some(n) ==> group_ids(final(map)@, n) == ids_after(
            ir_of(ir@),
            group_ids(old(map)@, next),
        ),
        r is None ==> names_run_out(ir_of(ir@), group_ids(old(map)@, next), final(map)@),
{
    let ghost all = ir_of(ir@);
    let ghost ids = group_ids(map@, next);
    let mut n: u32 = next;
    for i in 0..ir.len()
        invariant
            all == ir_of(ir@),
            ids == group_ids(old(map)@, next),
            group_ids(map@, n) == ids_after(all.take(i as int), ids),
    {
        proof {
            let part = all.take(i + 1);
            assert(part.drop_last() =~= all.take(i as int));
            assert(part.last() == ir[i as int]@);
            lemma_ids_grow(all, ids, i + 1);
        }
        if let Some(id) = group_of_item(&ir[i]) {
            if map_get(map, id).is_none() {
                if n == u32::MAX {
                    return None;
                }
                map_insert(map, id, GroupId(n));
                n = n + 1;
            }
        }
    }
    assert(all.take(ir.len() as int) =~= all);
    Some(n)
}

} // verus!
