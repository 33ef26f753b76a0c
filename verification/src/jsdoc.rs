//! Finding the JSDoc comments that belong to a node.

use oxc_jsdoc::JSDoc;
use rustc_hash::FxHashMap;
use vstd::prelude::*;

use crate::foreign::bits_have_jsdoc;
use crate::foreign::map_get;
use crate::foreign::map_values;
use crate::foreign::walks;

verus! {

/// A range of the source text, in bytes.
#[derive(Debug, Clone, Copy, PartialEq, Eq, Structural)]
pub struct Span {
    pub start: u32,
    pub end: u32,
}

/// What is known of a node besides the syntax, as a set of bits.
#[derive(Debug, Clone, Copy, PartialEq, Eq, Structural)]
pub struct NodeFlags {
    pub bits: u8,
}

impl NodeFlags {
    /// Whether the bit for an attached JSDoc comment is set.
    pub open spec fn jsdoc_set(self) -> bool {
        self.bits & 1 == 1
    }

    /// Whether the node has a JSDoc comment attached to it.
    pub fn has_jsdoc(self) -> (r: bool)
        ensures
            r == self.jsdoc_set(),
    {
        bits_have_jsdoc(self.bits)
    }
}

/// A node: its place in the table of nodes, and the source text that it covers.
#[derive(Debug, Clone, Copy, PartialEq, Eq, Structural)]
pub struct AstNode {
    pub id: usize,
    pub span: Span,
}

/// The table of nodes, of which only the flags are needed here.
#[derive(Debug)]
pub struct AstNodes {
    pub flags: Vec<NodeFlags>,
}

impl AstNodes {
    /// Whether `node` is a node of this table.
    pub open spec fn has(self, node: AstNode) -> bool {
        node.id < self.flags@.len()
    }

    /// The flags of the node `id`.
    pub fn flags(&self, id: usize) -> (flags: NodeFlags)
        requires
            id < self.flags@.len(),
        ensures
            flags == self.flags@[id as int],
    {
        self.flags[id]
    }
}

/// JSDoc comments by the start of the node that they are attached to.
pub type DocsByStart<'a> = Map<u32, Seq<JSDoc<'a>>>;

/// The comments that a hash map holds.
pub open spec fn docs_by_start<'a>(map: Map<u32, Vec<JSDoc<'a>>>) -> DocsByStart<'a> {
    map.map_values(|docs: Vec<JSDoc<'a>>| docs@)
}

/// All comments of `map`, one node after the other as `starts` lists them.
pub open spec fn docs_in_order<'a>(map: DocsByStart<'a>, starts: Seq<u32>) -> Seq<JSDoc<'a>>
    decreases starts.len(),
{
    if starts.len() == 0 {
        Seq::empty()
    } else {
        docs_in_order(map, starts.drop_last()) + map[starts.last()]
    }
}

/// `starts` lists the nodes of `map`, each once.
pub open spec fn lists<'a>(starts: Seq<u32>, map: DocsByStart<'a>) -> bool {
    &&& starts.no_duplicates()
    &&& forall|start: u32| #[trigger] map.contains_key(start) <==> starts.contains(start)
}

proof fn lemma_docs_in_order_remove<'a>(map: DocsByStart<'a>, starts: Seq<u32>, at: int)
    requires
        0 <= at < starts.len(),
    ensures
        docs_in_order(map, starts).to_multiset() == docs_in_order(
            map,
            starts.remove(at),
        ).to_multiset().add(map[starts[at]].to_multiset()),
    decreases starts.len(),
{
    let rest = starts.drop_last();
    vstd::seq_lib::lemma_multiset_commutative(docs_in_order(map, rest), map[starts.last()]);
    if at == starts.len() - 1 {
        assert(starts.remove(at) =~= rest);
    } else {
        let fewer = starts.remove(at);
        lemma_docs_in_order_remove(map, rest, at);
        assert(fewer.drop_last() =~= rest.remove(at));
        assert(fewer.last() == starts.last());
        vstd::seq_lib::lemma_multiset_commutative(
            docs_in_order(map, fewer.drop_last()),
            map[starts.last()],
        );
        assert(docs_in_order(map, starts).to_multiset() =~= docs_in_order(
            map,
            fewer,
        ).to_multiset().add(map[starts[at]].to_multiset()));
    }
}

proof fn lemma_same_starts_same_docs<'a>(map: DocsByStart<'a>, left: Seq<u32>, right: Seq<u32>)
    requires
        left.no_duplicates(),
        right.no_duplicates(),
        forall|start: u32| #[trigger] left.contains(start) <==> right.contains(start),
    ensures
        docs_in_order(map, left).to_multiset() == docs_in_order(map, right).to_multiset(),
    decreases left.len(),
{
    if left.len() == 0 {
        if right.len() > 0 {
            assert(right.contains(right[0]));
            assert(left.contains(right[0]));
        }
        assert(left =~= right);
    } else {
        let start = left.last();
        assert(left.contains(start));
        let at = choose|at: int| 0 <= at < right.len() && right[at] == start;
        let l = left.remove(left.len() - 1);
        let r = right.remove(at);
        assert forall|s: u32| #[trigger] l.contains(s) <==> r.contains(s) by {
            if l.contains(s) {
                let i = choose|i: int| 0 <= i < l.len() && l[i] == s;
                assert(left[i] == s);
                assert(left.contains(s));
                let j = choose|j: int| 0 <= j < right.len() && right[j] == s;
                assert(j != at);
                assert(r[if j < at { j } else { j - 1 }] == s);
            }
            if r.contains(s) {
                let j = choose|j: int| 0 <= j < r.len() && r[j] == s;
                let k = if j < at { j } else { j + 1 };
                assert(right[k] == s);
                assert(right.contains(s));
                assert(left.contains(s));
                let i = choose|i: int| 0 <= i < left.len() && left[i] == s;
                assert(i != left.len() - 1);
                assert(l[i] == s);
            }
        }
        lemma_same_starts_same_docs(map, l, r);
        lemma_docs_in_order_remove(map, left, left.len() - 1);
        lemma_docs_in_order_remove(map, right, at);
    }
}

/// In whatever order the nodes are walked, the same comments come out, and as many.
pub proof fn law_order_of_nodes_is_free<'a>(map: DocsByStart<'a>, left: Seq<u32>, right: Seq<u32>)
    requires
        lists(left, map),
        lists(right, map),
    ensures
        docs_in_order(map, left).to_multiset() == docs_in_order(map, right).to_multiset(),
        docs_in_order(map, left).len() == docs_in_order(map, right).len(),
{
    assert forall|start: u32| #[trigger] left.contains(start) <==> right.contains(start) by {
        assert(map.contains_key(start) <==> left.contains(start));
    }
    lemma_same_starts_same_docs(map, left, right);
    docs_in_order(map, left).to_multiset_ensures();
    docs_in_order(map, right).to_multiset_ensures();
}

/// The comments of each node come out together and in their order, and nothing else
/// comes out.
pub proof fn law_all_docs_come_out<'a>(map: DocsByStart<'a>, starts: Seq<u32>)
    requires
        lists(starts, map),
    ensures
        forall|start: u32| #[trigger]
            map.contains_key(start) ==> exists|at: int|
                0 <= at && at + map[start].len() <= docs_in_order(map, starts).len()
                    && #[trigger] docs_in_order(map, starts).subrange(at, at + map[start].len())
                    == map[start],
        forall|doc: JSDoc<'a>| #[trigger]
            docs_in_order(map, starts).contains(doc) ==> exists|start: u32| #[trigger]
                map.contains_key(start) && map[start].contains(doc),
{
    assert forall|start: u32| #[trigger] map.contains_key(start) implies exists|at: int|
        0 <= at && at + map[start].len() <= docs_in_order(map, starts).len()
            && #[trigger] docs_in_order(map, starts).subrange(at, at + map[start].len())
            == map[start] by {
        assert(starts.contains(start));
        let k = choose|k: int| 0 <= k < starts.len() && starts[k] == start;
        lemma_docs_at(map, starts, k);
    }
    assert forall|doc: JSDoc<'a>| #[trigger]
        docs_in_order(map, starts).contains(doc) implies exists|start: u32| #[trigger]
        map.contains_key(start) && map[start].contains(doc) by {
        lemma_doc_has_a_node(map, starts, doc);
        let k = choose|k: int| 0 <= k < starts.len() && (#[trigger] map[starts[k]]).contains(doc);
        assert(starts.contains(starts[k]));
        assert(map.contains_key(starts[k]));
    }
}

proof fn lemma_docs_at<'a>(map: DocsByStart<'a>, starts: Seq<u32>, k: int)
    requires
        0 <= k < starts.len(),
    ensures
        exists|at: int|
            0 <= at && at + map[starts[k]].len() <= docs_in_order(map, starts).len()
                && #[trigger] docs_in_order(map, starts).subrange(at, at + map[starts[k]].len())
                == map[starts[k]],
    decreases starts.len(),
{
    let rest = starts.drop_last();
    let docs = map[starts[k]];
    let front = docs_in_order(map, rest);
    let all = docs_in_order(map, starts);
    if k == starts.len() - 1 {
        let at = front.len() as int;
        assert(all.subrange(at, at + docs.len()) =~= docs);
    } else {
        lemma_docs_at(map, rest, k);
        let at = choose|at: int|
            0 <= at && at + docs.len() <= front.len() && #[trigger] front.subrange(
                at,
                at + docs.len(),
            ) == docs;
        assert(all.subrange(at, at + docs.len()) =~= front.subrange(at, at + docs.len()));
    }
}

proof fn lemma_doc_has_a_node<'a>(map: DocsByStart<'a>, starts: Seq<u32>, doc: JSDoc<'a>)
    requires
        docs_in_order(map, starts).contains(doc),
    ensures
        exists|k: int| 0 <= k < starts.len() && (#[trigger] map[starts[k]]).contains(doc),
    decreases starts.len(),
{
    if starts.len() > 0 {
        let front = docs_in_order(map, starts.drop_last());
        let all = docs_in_order(map, starts);
        let i = choose|i: int| 0 <= i < all.len() && all[i] == doc;
        if i < front.len() {
            assert(front[i] == doc);
            lemma_doc_has_a_node(map, starts.drop_last(), doc);
            let k = choose|k: int|
                0 <= k < starts.drop_last().len() && (
                #[trigger] map[starts.drop_last()[k]]).contains(doc);
            assert(map[starts[k]].contains(doc));
        } else {
            assert(map[starts.last()][i - front.len()] == doc);
            assert(map[starts[starts.len() - 1]].contains(doc));
        }
    }
}

/// One node after the other: the comments of nodes listed side by side come out side by
/// side, and those of one node as they are.
pub proof fn law_docs_of_nodes_side_by_side<'a>(
    map: DocsByStart<'a>,
    front: Seq<u32>,
    back: Seq<u32>,
    start: u32,
)
    ensures
        docs_in_order(map, front + back) == docs_in_order(map, front) + docs_in_order(map, back),
        docs_in_order(map, seq![start]) == map[start],
        docs_in_order(map, Seq::empty()).len() == 0,
    decreases back.len(),
{
    assert(seq![start].drop_last() =~= Seq::empty());
    assert(docs_in_order(map, seq![start].drop_last()) =~= Seq::empty());
    assert(Seq::<JSDoc<'a>>::empty() + map[start] =~= map[start]);
    if back.len() == 0 {
        assert(front + back =~= front);
        assert(docs_in_order(map, front) + docs_in_order(map, back) =~= docs_in_order(map, front));
    } else {
        law_docs_of_nodes_side_by_side(map, front, back.drop_last(), start);
        assert((front + back).drop_last() =~= front + back.drop_last());
        assert((front + back).last() == back.last());
        assert(docs_in_order(map, front + back) =~= docs_in_order(map, front) + docs_in_order(
            map,
            back,
        ));
    }
}

/// A hash map of comments is seen with each list under its start; and a list of nodes
/// that lists all of them has each start once and no other.
pub proof fn law_docs_are_seen_by_start<'a>(
    map: Map<u32, Vec<JSDoc<'a>>>,
    starts: Seq<u32>,
    i: int,
    j: int,
    start: u32,
)
    ensures
        docs_by_start(map).contains_key(start) <==> map.contains_key(start),
        map.contains_key(start) ==> docs_by_start(map)[start] == map[start]@,
        lists(starts, docs_by_start(map)) ==> {
            &&& starts.contains(start) <==> map.contains_key(start)
            &&& 0 <= i < j < starts.len() ==> starts[i] != starts[j]
        },
{
    assert(lists(starts, docs_by_start(map)) ==> (docs_by_start(map).contains_key(start)
        <==> starts.contains(start)));
}

/// The comments that a list of references stands for.
pub open spec fn docs_behind<'a>(refs: Seq<&JSDoc<'a>>) -> Seq<JSDoc<'a>> {
    Seq::new(refs.len(), |i: int| *refs[i])
}

/// Add references to all of `docs`.
fn push_docs<'a, 'b>(refs: &mut Vec<&'b JSDoc<'a>>, docs: &'b Vec<JSDoc<'a>>)
    ensures
        docs_behind(final(refs)@) == docs_behind(old(refs)@) + docs@,
{
    let ghost before = docs_behind(refs@);
    for j in 0..docs.len()
        invariant
            docs_behind(refs@) == before + docs@.take(j as int),
    {
        let doc = &docs[j];
        let ghost so_far = refs@;
        refs.push(doc);
        assert(docs_behind(refs@) =~= docs_behind(so_far).push(docs@[j as int]));
        assert(docs@.take(j + 1) =~= docs@.take(j as int).push(docs@[j as int]));
        assert((before + docs@.take(j as int)).push(docs@[j as int]) =~= before + docs@.take(
            j as int,
        ).push(docs@[j as int]));
    }
    assert(docs@.take(docs.len() as int) =~= docs@);
}

/// The JSDoc comments of a source text: those that are attached to a node, and the
/// rest.
#[derive(Debug)]
pub struct JSDocFinder<'a> {
    /// JSDocs by Span
    attached: FxHashMap<u32, Vec<JSDoc<'a>>>,
    not_attached: Vec<JSDoc<'a>>,
}

impl<'a> JSDocFinder<'a> {
    /// The comments that are attached to a node, from the farthest to the nearest.
    pub closed spec fn attached_docs(self) -> DocsByStart<'a> {
        docs_by_start(self.attached@)
    }

    /// The comments that are attached to no node.
    pub closed spec fn not_attached_docs(self) -> Seq<JSDoc<'a>> {
        self.not_attached@
    }

    /// The comments for a node with these flags and this start.
    pub open spec fn docs_of(self, flags: NodeFlags, start: u32) -> Option<Seq<JSDoc<'a>>> {
        if flags.jsdoc_set() && self.attached_docs().contains_key(start) {
            Some(self.attached_docs()[start])
        } else {
            None
        }
    }

    pub fn new(attached: FxHashMap<u32, Vec<JSDoc<'a>>>, not_attached: Vec<JSDoc<'a>>) -> (finder:
        Self)
        ensures
            finder.attached_docs() == docs_by_start(attached@),
            forall|start: u32| #[trigger]
                finder.attached_docs().contains_key(start) <==> attached@.contains_key(start),
            forall|start: u32| #[trigger]
                attached@.contains_key(start) ==> finder.attached_docs()[start]
                    == attached@[start]@,
            finder.not_attached_docs() == not_attached@,
    {
        Self { attached, not_attached }
    }

    /// The nearest comment attached to `node`.
    pub fn get_one_by_node<'b>(&'b self, nodes: &AstNodes, node: &AstNode) -> (r: Option<JSDoc<'a>>)
        requires
            nodes.has(*node),
        ensures
            r == (match self.docs_of(nodes.flags@[node.id as int], node.span.start) {
                Some(docs) if docs.len() > 0 => Some(docs.last()),
                _ => None,
            }),
    {
        let docs = match self.get_all_by_node(nodes, node) {
            Some(docs) => docs,
            None => return None,
        };
        // If several comments are attached, the last is the nearest.
        if docs.len() > 0 {
            Some(docs[docs.len() - 1].clone())
        } else {
            None
        }
    }

    /// All comments attached to `node`, from the farthest to the nearest.
    pub fn get_all_by_node<'b>(&'b self, nodes: &AstNodes, node: &AstNode) -> (r: Option<
        Vec<JSDoc<'a>>,
    >)
        requires
            nodes.has(*node),
        ensures
            r is Some <==> self.docs_of(nodes.flags@[node.id as int], node.span.start) is Some,
            r matches Some(docs) ==> self.docs_of(nodes.flags@[node.id as int], node.span.start)
                == Some(docs@),
    {
        if !nodes.flags(node.id).has_jsdoc() {
            return None;
        }
        self.get_all_by_span(node.span)
    }

    /// All comments attached to the node that starts where `span` does.
    pub fn get_all_by_span<'b>(&'b self, span: Span) -> (r: Option<Vec<JSDoc<'a>>>)
        ensures
            r is Some <==> self.attached_docs().contains_key(span.start),
            r matches Some(docs) ==> docs@ == self.attached_docs()[span.start],
    {
        match map_get(&self.attached, span.start) {
            Some(docs) => {
                let copy = docs.clone();
                assert(copy@ =~= docs@);
                Some(copy)
            },
            None => None,
        }
    }

    /// All comments: those of each node together, the nodes in no particular order,
    /// and then those that are attached to none.
    pub fn iter_all<'b>(&'b self) -> (all: Vec<&'b JSDoc<'a>>)
        ensures
            exists|starts: Seq<u32>| #[trigger]
                lists(starts, self.attached_docs()) && docs_behind(all@)
                    == docs_in_order(self.attached_docs(), starts) + self.not_attached_docs(),
    {
        let ghost attached = self.attached_docs();
        let groups = map_values(&self.attached);
        let ghost starts = choose|starts: Seq<u32>| walks(self.attached@, starts, groups@);
        let mut all: Vec<&'b JSDoc<'a>> = Vec::new();
        for i in 0..groups.len()
            invariant
                attached == self.attached_docs(),
                walks(self.attached@, starts, groups@),
                docs_behind(all@) == docs_in_order(
                    attached,
                    starts.take(i as int),
                ),
        {
            let group: &'b Vec<JSDoc<'a>> = groups[i];
            proof {
                assert(starts.contains(starts[i as int]));
                assert(self.attached@.contains_key(starts[i as int]));
                assert(group@ == attached[starts[i as int]]);
                assert(starts.take(i + 1).drop_last() =~= starts.take(i as int));
            }
            push_docs(&mut all, group);
        }
        assert(starts.take(groups.len() as int) =~= starts);
        push_docs(&mut all, &self.not_attached);
        proof {
            assert forall|start: u32| #[trigger] attached.contains_key(start) <==> starts.contains(
                start,
            ) by {
                assert(attached.contains_key(start) <==> self.attached@.contains_key(start));
            }
            assert(lists(starts, attached));
        }
        all
    }
}

/// The flag for comments is the lowest bit: it is set where the bits, as a number, are
/// odd.
pub proof fn law_jsdoc_flag_is_the_lowest_bit(flags: NodeFlags)
    ensures
        flags.jsdoc_set() <==> flags.bits % 2 == 1,
{
    let bits = flags.bits;
    assert(bits & 1 == 1 <==> bits % 2 == 1) by (bit_vector);
}

/// By its node, a comment is found where the flag is set and just as by its span: the
/// list under the start of the node, however long, and nothing only where nothing is
/// stored there. Without the flag there is nothing.
pub proof fn law_flagged_node_has_the_docs_of_its_start<'a>(
    finder: JSDocFinder<'a>,
    flags: NodeFlags,
    start: u32,
)
    ensures
        flags.bits % 2 == 1 ==> (finder.docs_of(flags, start) is Some
            <==> finder.attached_docs().contains_key(start)),
        flags.bits % 2 == 1 && finder.attached_docs().contains_key(start) ==> finder.docs_of(
            flags,
            start,
        ) == Some(finder.attached_docs()[start]),
        flags.bits % 2 == 0 ==> finder.docs_of(flags, start) is None,
{
    law_jsdoc_flag_is_the_lowest_bit(flags);
}

/// References are seen as what they stand for, in place.
pub proof fn law_docs_behind_references<'a>(refs: Seq<&JSDoc<'a>>)
    ensures
        docs_behind(refs).len() == refs.len(),
        forall|i: int| 0 <= i < refs.len() ==> #[trigger] docs_behind(refs)[i] == *refs[i],
{
}

impl<'a> Default for JSDocFinder<'a> {
    /// A finder without any comment.
    fn default() -> (finder: Self)
        ensures
            finder.attached_docs() == Map::<u32, Seq<JSDoc<'a>>>::empty(),
            finder.not_attached_docs() == Seq::<JSDoc<'a>>::empty(),
    {
        let finder = Self::new(FxHashMap::default(), Vec::new());
        assert(finder.attached_docs() =~= Map::<u32, Seq<JSDoc<'a>>>::empty());
        finder
    }
}

} // verus!
