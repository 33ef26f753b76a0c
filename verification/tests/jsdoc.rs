use embed_jsdoc::jsdoc::AstNode;
use embed_jsdoc::jsdoc::AstNodes;
use embed_jsdoc::jsdoc::JSDocFinder;
use embed_jsdoc::jsdoc::NodeFlags;
use embed_jsdoc::jsdoc::Span;
use oxc_allocator::Allocator;
use oxc_ast::AstKind;
use oxc_ast_visit::Visit;
use oxc_jsdoc::JSDoc;
use oxc_jsdoc::JSDocBuilder;
use oxc_parser::Parser;
use oxc_span::GetSpan;
use oxc_span::SourceType;
use rustc_hash::FxHashMap;

/// Attaches the comments of a program to its nodes, and lists the nodes.
struct Collector<'a> {
    builder: JSDocBuilder<'a>,
    nodes: Vec<AstNode>,
    flags: Vec<NodeFlags>,
}

impl<'a> Visit<'a> for Collector<'a> {
    fn enter_node(&mut self, kind: AstKind<'a>) {
        let span = kind.span();
        let bits = u8::from(self.builder.retrieve_attached_jsdoc(&kind));
        self.nodes.push(AstNode {
            id: self.nodes.len(),
            span: Span { start: span.start, end: span.end },
        });
        self.flags.push(NodeFlags { bits });
    }
}

struct Semantic<'a> {
    jsdoc: JSDocFinder<'a>,
    nodes: Vec<AstNode>,
    table: AstNodes,
}

fn build_semantic<'a>(
    allocator: &'a Allocator,
    source_text: &'a str,
    source_type: Option<SourceType>,
) -> Semantic<'a> {
    let source_type = source_type.unwrap_or_default();
    let ret = Parser::new(allocator, source_text, source_type).parse();
    let program = allocator.alloc(ret.program);
    let mut collector = Collector {
        builder: JSDocBuilder::new(source_text, &program.comments),
        nodes: Vec::new(),
        flags: Vec::new(),
    };
    collector.visit_program(program);
    let docs = collector.builder.build();
    Semantic {
        jsdoc: JSDocFinder::new(docs.attached, docs.not_attached),
        nodes: collector.nodes,
        table: AstNodes { flags: collector.flags },
    }
}

fn get_jsdocs<'a>(
    allocator: &'a Allocator,
    source_text: &'a str,
    symbol: &'a str,
    source_type: Option<SourceType>,
) -> Option<Vec<JSDoc<'a>>> {
    let semantic = build_semantic(allocator, source_text, source_type);
    let start = u32::try_from(source_text.find(symbol).unwrap_or(0)).unwrap();
    let span = oxc_span::Span::sized(start, u32::try_from(symbol.len()).unwrap());
    semantic.jsdoc.get_all_by_span(Span { start: span.start, end: span.end })
}

fn test_jsdoc_found(source_text: &str, symbol: &str, source_type: Option<SourceType>) {
    let allocator = Allocator::default();
    assert!(
        get_jsdocs(&allocator, source_text, symbol, source_type).is_some(),
        "JSDoc should found for\n  {symbol} \nin\n  {source_text}"
    );
}

fn test_jsdoc_not_found(source_text: &str, symbol: &str) {
    let allocator = Allocator::default();
    assert!(
        get_jsdocs(&allocator, source_text, symbol, None).is_none(),
        "JSDoc should NOT found for\n  {symbol} \nin\n  {source_text}"
    );
}

#[test]
fn not_found() {
    let source_texts = [
        ("function f1() {}", "function f1() {}"),
        ("// test", "function f2() {}"),
        ("/* test */function f3() {}", "function f3() {}"),
        ("/** for 4a */ ; function f4a() {} function f4b() {}", "function f4b() {}"),
        ("function f4a() {} /** for 4b */ ; function f4b() {} ", "function f4a() {}"),
        ("function f5() {} /** test */", "function f5() {}"),
        (
            "/** for o */
                const o = {
                    f6() {}
                };",
            "f6() {}",
        ),
        ("/** for () */ (() => {})", "() => {}"),
        ("/** for ; */ ; let v1;", "let v1;"),
        ("/** for let v2 */ let v2 = () => {};", "() => {}"),
        ("/** for if */ if (true) { let v3; })", "let v3;"),
        (
            "class C1 {
                    /** for m1 */
                    m1() {}
                    m2() {}
                }",
            "m2() {}",
        ),
    ];
    for (source_text, target) in source_texts {
        test_jsdoc_not_found(source_text, target);
    }
}

#[test]
fn found() {
    let source_texts = [
        ("/** test */function f1() {}", "function f1() {}"),
        ("/*** test */function f2() {}", "function f2() {}"),
        (
            "
            /** test */
        function f3() {}",
            "function f3() {}",
        ),
        (
            "/** test */


                function f4() {}",
            "function f4() {}",
        ),
        (
            "/**
             * test
             * */
            function f5() {}",
            "function f5() {}",
        ),
        (
            "/** test */
                // ---
                function f6() {}",
            "function f6() {}",
        ),
        (
            "/** test */
                /* -- */
                function f7() {}",
            "function f7() {}",
        ),
        (
            "/** test */
                /** test2 */
                function f8() {}",
            "function f8() {}",
        ),
        (
            "/** test */ /** test2 */
                function f9() {}",
            "function f9() {}",
        ),
        (
            "/** for f10 */ function f10() {} /** for f11 */ function f11() {}",
            "function f11() {}",
        ),
        (
            "const o = {
                    /** for f12 */
                    f12() {}
                };",
            "f12() {}",
        ),
        ("/** test */ (() => {})", "(() => {})"),
        ("/** test */ let v1 = 1", "let v1 = 1"),
        ("let v2a = 1, /** for v2b */ v2b = 2", "v2b = 2"),
        ("/** for v3a */ const v3a = 1, v3b = 2;", "const v3a = 1, v3b = 2;"),
        ("/** test */ export const e1 = 1;", "export const e1 = 1;"),
        ("/** test */ export default {};", "export default {};"),
        ("/** test */ import 'i1'", "import 'i1'"),
        ("/** test */ import I from 'i2'", "import I from 'i2'"),
        ("/** test */ import { I } from 'i3'", "import { I } from 'i3'"),
    ];
    for (source_text, target) in source_texts {
        test_jsdoc_found(source_text, target, None);
    }
}

#[test]
fn found_ts() {
    let source_texts = [(
        "class Foo {
            /** jsdoc */
            bar: string;
        }",
        "bar: string;",
    )];

    let source_type = SourceType::default().with_typescript(true);
    for (source_text, target) in source_texts {
        test_jsdoc_found(source_text, target, Some(source_type));
    }
}

#[test]
fn get_all_by_span_order() {
    let allocator = Allocator::default();
    let source_text = r"
            /**c0*/
            function foo() {}

            /**c1*/
            /* noop */
            /**c2*/
            // noop
            /**c3*/
            const x = () => {};
        ";
    let symbol = "const x = () => {};";
    let jsdocs = get_jsdocs(&allocator, source_text, symbol, None);

    assert!(jsdocs.is_some());
    let jsdocs = jsdocs.unwrap();
    assert_eq!(jsdocs.len(), 3);

    // Should be [farthest, ..., nearest]
    let mut iter = jsdocs.iter();
    let c1 = iter.next().unwrap();
    assert_eq!(c1.comment().parsed(), "c1");
    let c2 = iter.next().unwrap();
    assert_eq!(c2.comment().parsed(), "c2");
    let c3 = iter.next().unwrap();
    assert_eq!(c3.comment().parsed(), "c3");
}

#[test]
fn get_all_jsdoc() {
    let allocator = Allocator::default();
    let semantic = build_semantic(
        &allocator,
        r"
            // noop
            /** 1. ; */
            // noop
            ;
            /** 2. class X {} *//** 3. class X {} */
            class X {
                /** 4. foo */
                foo = /** 5. () */ (() => {});
            }

            /** 6. let x; */
            /* noop */

            let x;

            /**/ // noop and noop

            /** 7. Not attached but collected! */
            ",
        Some(SourceType::default()),
    );
    assert_eq!(semantic.jsdoc.iter_all().len(), 7);
}

#[test]
fn one_by_node_is_the_last_of_all_by_node() {
    let allocator = Allocator::default();
    let source_text = "/** far */ /** near */ function f() {} function g() {}";
    let semantic = build_semantic(&allocator, source_text, None);
    let mut flagged = 0;
    for node in &semantic.nodes {
        let all = semantic.jsdoc.get_all_by_node(&semantic.table, node);
        let one = semantic.jsdoc.get_one_by_node(&semantic.table, node);
        match all {
            Some(docs) => {
                flagged += 1;
                assert_eq!(docs.len(), 2);
                assert_eq!(docs[0].comment().parsed(), "far");
                assert_eq!(docs[1].comment().parsed(), "near");
                assert_eq!(one.unwrap().comment().parsed(), "near");
            }
            None => assert!(one.is_none()),
        }
    }
    assert_eq!(flagged, 1);
}

fn finder_of_two_nodes() -> JSDocFinder<'static> {
    let mut attached: FxHashMap<u32, Vec<JSDoc<'static>>> = FxHashMap::default();
    attached.insert(7, vec![
        JSDoc::new(" a ", oxc_span::Span::new(0, 3)),
        JSDoc::new(" b ", oxc_span::Span::new(3, 6)),
    ]);
    attached.insert(90, vec![JSDoc::new(" c ", oxc_span::Span::new(80, 83))]);
    JSDocFinder::new(attached, vec![JSDoc::new(" d ", oxc_span::Span::new(99, 102))])
}

#[test]
fn lookup_goes_by_the_start_alone() {
    let finder = finder_of_two_nodes();
    assert_eq!(finder.get_all_by_span(Span { start: 7, end: 8 }).unwrap().len(), 2);
    assert_eq!(finder.get_all_by_span(Span { start: 7, end: 80 }).unwrap().len(), 2);
    assert!(finder.get_all_by_span(Span { start: 8, end: 80 }).is_none());
    assert!(finder.get_all_by_span(Span { start: 99, end: 102 }).is_none());
}

#[test]
fn lookup_by_node_asks_the_flags() {
    let finder = finder_of_two_nodes();
    let node = AstNode { id: 0, span: Span { start: 7, end: 8 } };
    for bits in 0..=u8::MAX {
        let nodes = AstNodes { flags: vec![NodeFlags { bits }] };
        let found = finder.get_all_by_node(&nodes, &node).is_some();
        assert_eq!(found, bits % 2 == 1);
        assert_eq!(finder.get_one_by_node(&nodes, &node).is_some(), found);
    }
}

#[test]
fn node_without_comments_in_its_list() {
    let mut attached: FxHashMap<u32, Vec<JSDoc<'static>>> = FxHashMap::default();
    attached.insert(7, Vec::new());
    let finder = JSDocFinder::new(attached, Vec::new());
    let nodes = AstNodes { flags: vec![NodeFlags { bits: 1 }] };
    let node = AstNode { id: 0, span: Span { start: 7, end: 8 } };
    assert_eq!(finder.get_all_by_node(&nodes, &node).unwrap().len(), 0);
    assert!(finder.get_one_by_node(&nodes, &node).is_none());
}

#[test]
fn all_comments_come_out_once() {
    let finder = finder_of_two_nodes();
    let all = finder.iter_all();
    let mut said: Vec<String> =
        all.iter().map(|doc| doc.comment().parsed().to_string()).collect();
    // Those of one node stand together, and those of none come last.
    let a = said.iter().position(|text| text == "a").unwrap();
    assert_eq!(said[a + 1], "b");
    assert_eq!(said[3], "d");
    said.sort();
    assert_eq!(said, ["a", "b", "c", "d"]);
}

#[test]
fn copies_keep_text_and_span() {
    let finder = finder_of_two_nodes();
    let docs = finder.get_all_by_span(Span { start: 90, end: 91 }).unwrap();
    assert_eq!(docs[0].comment().parsed(), "c");
    assert_eq!(docs[0].span, oxc_span::Span::new(80, 83));
}

#[test]
fn default_finder_is_empty() {
    let finder = JSDocFinder::default();
    assert!(finder.iter_all().is_empty());
    assert!(finder.get_all_by_span(Span { start: 0, end: 0 }).is_none());
}
