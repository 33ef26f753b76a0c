use embed_jsdoc::embedded_ir::name_groups;
use embed_jsdoc::embedded_ir::resolve_group_id;
use embed_jsdoc::embedded_ir::write_embedded_ir;
use embed_jsdoc::ir::DedentMode;
use embed_jsdoc::ir::EmbeddedIR;
use embed_jsdoc::ir::FormatElement;
use embed_jsdoc::ir::Formatter;
use embed_jsdoc::ir::GroupId;
use embed_jsdoc::ir::GroupMode;
use embed_jsdoc::ir::LineMode;
use embed_jsdoc::ir::PrintMode;
use embed_jsdoc::ir::Tag;
use oxc_allocator::Allocator;
use rustc_hash::FxHashMap;

#[test]
fn every_item_has_its_element() {
    let allocator = Allocator::default();
    let mut f = Formatter::new(&allocator, 4);
    let mut map = FxHashMap::default();
    let ir = vec![
        EmbeddedIR::Space,
        EmbeddedIR::HardSpace,
        EmbeddedIR::Line(LineMode::SoftOrSpace),
        EmbeddedIR::ExpandParent,
        EmbeddedIR::Text("a`b".to_string()),
        EmbeddedIR::LineSuffixBoundary,
        EmbeddedIR::StartIndent,
        EmbeddedIR::EndIndent,
        EmbeddedIR::StartAlign(3),
        EmbeddedIR::EndAlign,
        EmbeddedIR::StartDedent { to_root: true },
        EmbeddedIR::EndDedent { to_root: false },
        EmbeddedIR::StartGroup { id: Some(40), should_break: true },
        EmbeddedIR::EndGroup,
        EmbeddedIR::StartGroup { id: None, should_break: false },
        EmbeddedIR::StartConditionalContent { mode: PrintMode::Expanded, group_id: Some(41) },
        EmbeddedIR::EndConditionalContent,
        EmbeddedIR::StartConditionalContent { mode: PrintMode::Flat, group_id: None },
        EmbeddedIR::StartIndentIfGroupBreaks(40),
        EmbeddedIR::EndIndentIfGroupBreaks(42),
        EmbeddedIR::StartFill,
        EmbeddedIR::EndFill,
        EmbeddedIR::StartEntry,
        EmbeddedIR::EndEntry,
        EmbeddedIR::StartLineSuffix,
        EmbeddedIR::EndLineSuffix,
    ];
    write_embedded_ir(&ir, &mut f, &mut map);
    assert_eq!(f.elements, vec![
        FormatElement::Space,
        FormatElement::HardSpace,
        FormatElement::Line(LineMode::SoftOrSpace),
        FormatElement::ExpandParent,
        FormatElement::Text { text: "a\\`b", indent_width: 4 },
        FormatElement::LineSuffixBoundary,
        FormatElement::Tag(Tag::StartIndent),
        FormatElement::Tag(Tag::EndIndent),
        FormatElement::Tag(Tag::StartAlign(3)),
        FormatElement::Tag(Tag::EndAlign),
        FormatElement::Tag(Tag::StartDedent(DedentMode::Root)),
        FormatElement::Tag(Tag::EndDedent(DedentMode::Level)),
        FormatElement::Tag(Tag::StartGroup { id: Some(GroupId(1)), mode: GroupMode::Expand }),
        FormatElement::Tag(Tag::EndGroup),
        FormatElement::Tag(Tag::StartGroup { id: None, mode: GroupMode::Flat }),
        FormatElement::Tag(Tag::StartConditionalContent {
            mode: PrintMode::Expanded,
            group_id: Some(GroupId(2)),
        }),
        FormatElement::Tag(Tag::EndConditionalContent),
        FormatElement::Tag(Tag::StartConditionalContent { mode: PrintMode::Flat, group_id: None }),
        FormatElement::Tag(Tag::StartIndentIfGroupBreaks(GroupId(1))),
        FormatElement::Tag(Tag::EndIndentIfGroupBreaks(GroupId(3))),
        FormatElement::Tag(Tag::StartFill),
        FormatElement::Tag(Tag::EndFill),
        FormatElement::Tag(Tag::StartEntry),
        FormatElement::Tag(Tag::EndEntry),
        FormatElement::Tag(Tag::StartLineSuffix),
        FormatElement::Tag(Tag::EndLineSuffix),
    ]);
    assert_eq!(f.next_group_id, 4);
}

#[test]
fn alignment_by_zero_is_left_out() {
    let allocator = Allocator::default();
    let mut f = Formatter::new(&allocator, 2);
    let mut map = FxHashMap::default();
    let ir = vec![EmbeddedIR::StartAlign(0), EmbeddedIR::Space, EmbeddedIR::EndAlign];
    write_embedded_ir(&ir, &mut f, &mut map);
    assert_eq!(f.elements, vec![FormatElement::Space, FormatElement::Tag(Tag::EndAlign)]);
}

#[test]
fn group_names_are_looked_up_or_made() {
    let allocator = Allocator::default();
    let mut f = Formatter::new(&allocator, 2);
    let mut map = FxHashMap::default();
    assert_eq!(resolve_group_id(9, &mut map, &mut f), GroupId(1));
    assert_eq!(resolve_group_id(5, &mut map, &mut f), GroupId(2));
    assert_eq!(resolve_group_id(9, &mut map, &mut f), GroupId(1));
    assert_eq!(f.next_group_id, 3);
    // Another table names the same group anew.
    let mut other = FxHashMap::default();
    assert_eq!(resolve_group_id(9, &mut other, &mut f), GroupId(3));
    assert!(f.elements.is_empty());
}

#[test]
fn parts_are_written_as_one() {
    let allocator = Allocator::default();
    let front = vec![EmbeddedIR::StartGroup { id: Some(3), should_break: false }];
    let back = vec![EmbeddedIR::StartIndentIfGroupBreaks(3), EmbeddedIR::Text("x".to_string())];
    let mut whole = front.clone();
    whole.extend(back.clone());

    let mut f = Formatter::new(&allocator, 2);
    let mut map = FxHashMap::default();
    write_embedded_ir(&front, &mut f, &mut map);
    write_embedded_ir(&back, &mut f, &mut map);

    let mut g = Formatter::new(&allocator, 2);
    write_embedded_ir(&whole, &mut g, &mut FxHashMap::default());
    assert_eq!(f.elements, g.elements);
    assert_eq!(f.next_group_id, g.next_group_id);
}

#[test]
fn numbers_for_groups_can_run_out() {
    let ir = vec![
        EmbeddedIR::StartGroup { id: Some(0), should_break: false },
        EmbeddedIR::StartIndentIfGroupBreaks(0),
        EmbeddedIR::EndIndentIfGroupBreaks(1),
        EmbeddedIR::StartConditionalContent { mode: PrintMode::Flat, group_id: None },
        EmbeddedIR::StartConditionalContent { mode: PrintMode::Flat, group_id: Some(1) },
    ];
    assert_eq!(name_groups(&ir, &mut FxHashMap::default(), 1), Some(3));
    let last = u32::MAX - 2;
    assert_eq!(name_groups(&ir, &mut FxHashMap::default(), last), Some(u32::MAX));
    let mut map = FxHashMap::default();
    assert_eq!(name_groups(&ir, &mut map, last + 1), None);
    assert_eq!(map.len(), 1);
    assert_eq!(map.get(&0), Some(&GroupId(last + 1)));
}
