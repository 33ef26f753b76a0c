//! What other crates do for this one: the types that are carried through and the
//! functions that are called, each with the contract that is relied on.

use oxc_allocator::Allocator;
use oxc_allocator::StringBuilder;
use oxc_jsdoc::JSDoc;
use oxc_syntax::line_terminator::LineTerminatorSplitter;
use oxc_syntax::node::NodeFlags;
use rustc_hash::FxBuildHasher;
use rustc_hash::FxHashMap;
use vstd::prelude::*;

use crate::text::terminated_lines;
use crate::text::texts;
use crate::text::utf8_size;

verus! {

/// The arena in which strings are laid down.
#[verifier::external_type_specification]
#[verifier::external_body]
pub struct ExAllocator(Allocator);

/// A string under construction in an arena.
#[verifier::external_type_specification]
#[verifier::external_body]
pub struct ExStringBuilder<'a>(StringBuilder<'a>);

/// A JSDoc comment; what it says is parsed on demand, by `oxc_jsdoc`.
#[verifier::external_type_specification]
#[verifier::external_body]
pub struct ExJSDoc<'a>(JSDoc<'a>);

/// The hasher of `FxHashMap`.
#[verifier::external_type_specification]
#[verifier::external_body]
pub struct ExFxBuildHasher(FxBuildHasher);

/// What a [`StringBuilder`] holds so far.
pub uninterp spec fn builder_text(builder: StringBuilder<'_>) -> Seq<char>;

/// The number of bytes that a [`StringBuilder`] was made for.
pub uninterp spec fn builder_capacity(builder: StringBuilder<'_>) -> nat;

/// `StringBuilder::with_capacity_in`, with the size of `text` as the capacity: an
/// empty builder, made for as many bytes as `text` has.
///
/// The call panics for a capacity above `isize::MAX`, which the size of a string
/// never exceeds.
#[verifier::external_body]
pub(crate) fn builder_with_capacity_of<'a>(text: &str, allocator: &'a Allocator) -> (builder:
    StringBuilder<'a>)
    ensures
        builder_text(builder) == Seq::<char>::empty(),
        builder_capacity(builder) == utf8_size(text@),
{
    StringBuilder::with_capacity_in(text.len(), allocator)
}

/// `StringBuilder::push`: one more character at the end.
///
/// A full builder grows, and panics where that takes it beyond `isize::MAX` bytes;
/// so the character has to fit into what the builder was made for.
#[verifier::external_body]
pub(crate) fn builder_push(builder: &mut StringBuilder<'_>, c: char)
    requires
        utf8_size(builder_text(*old(builder))) + utf8_size(seq![c]) <= builder_capacity(
            *old(builder),
        ),
    ensures
        builder_text(*final(builder)) == builder_text(*old(builder)).push(c),
        builder_capacity(*final(builder)) == builder_capacity(*old(builder)),
{
    builder.push(c)
}

/// `StringBuilder::push_str`: the characters of `piece` at the end.
///
/// It grows and panics as [`builder_push`] does, so `piece` has to fit too.
#[verifier::external_body]
pub(crate) fn builder_push_str(builder: &mut StringBuilder<'_>, piece: &str)
    requires
        utf8_size(builder_text(*old(builder))) + utf8_size(piece@) <= builder_capacity(
            *old(builder),
        ),
    ensures
        builder_text(*final(builder)) == builder_text(*old(builder)) + piece@,
        builder_capacity(*final(builder)) == builder_capacity(*old(builder)),
{
    builder.push_str(piece)
}

/// `StringBuilder::into_str`: the finished string, which lives as long as the arena.
#[verifier::external_body]
pub(crate) fn builder_into_str<'a>(builder: StringBuilder<'a>) -> (text: &'a str)
    ensures
        text@ == builder_text(builder),
{
    builder.into_str()
}

/// `Allocator::alloc_str`: a copy of `text` in the arena. It panics only where
/// memory runs out.
#[verifier::external_body]
pub(crate) fn alloc_str<'a>(allocator: &'a Allocator, text: &str) -> (copy: &'a str)
    ensures
        copy@ == text@,
{
    allocator.alloc_str(text)
}

/// `LineTerminatorSplitter`: all that the iterator yields for `text`, in order.
#[verifier::external_body]
pub(crate) fn split_line_terminators<'a>(text: &'a str) -> (pieces: Vec<&'a str>)
    ensures
        texts(pieces@) == terminated_lines(text@),
{
    LineTerminatorSplitter::new(text).collect()
}

/// `NodeFlags::has_jsdoc`, on the bits of the flags: whether the lowest one is set.
#[verifier::external_body]
pub(crate) fn bits_have_jsdoc(bits: u8) -> (r: bool)
    ensures
        r == (bits & 1 == 1),
{
    NodeFlags::from_bits_retain(bits).has_jsdoc()
}

/// `FxHashMap::get`: the value stored under `key`, if there is one.
#[verifier::external_body]
pub(crate) fn map_get<'m, V>(map: &'m FxHashMap<u32, V>, key: u32) -> (value: Option<&'m V>)
    ensures
        value == (if map@.contains_key(key) {
            Some(&map@[key])
        } else {
            None
        }),
{
    map.get(&key)
}

/// `FxHashMap::insert`: `value` stands under `key`, the other keys are as before.
#[verifier::external_body]
pub(crate) fn map_insert<V>(map: &mut FxHashMap<u32, V>, key: u32, value: V)
    ensures
        final(map)@ == old(map)@.insert(key, value),
{
    map.insert(key, value);
}

/// `keys` names each key of `map` once, and `values` are their values in that order.
pub open spec fn walks<V>(map: Map<u32, V>, keys: Seq<u32>, values: Seq<&V>) -> bool {
    &&& keys.no_duplicates()
    &&& keys.len() == values.len()
    &&& forall|key: u32| #[trigger] map.contains_key(key) <==> keys.contains(key)
    &&& forall|i: int| 0 <= i < keys.len() ==> *(#[trigger] values[i]) == map[keys[i]]
}

/// `FxHashMap::values`: the values of all keys, each key's once, in an order that
/// nothing is claimed of.
#[verifier::external_body]
pub(crate) fn map_values<'m, V>(map: &'m FxHashMap<u32, V>) -> (values: Vec<&'m V>)
    ensures
        exists|keys: Seq<u32>| #[trigger] walks(map@, keys, values@),
{
    map.values().collect()
}

/// `JSDoc::clone`: the same comment again, with the same text and the same span.
/// Whether it has been parsed already is no part of the value.
pub assume_specification<'a>[ <JSDoc<'a> as Clone>::clone ](doc: &JSDoc<'a>) -> (copy: JSDoc<'a>)
    ensures
        copy == *doc,
;

/// `String::push`: one more character at the end.
pub assume_specification[ String::push ](text: &mut String, c: char)
    ensures
        final(text)@ == old(text)@.push(c),
;

} // verus!
