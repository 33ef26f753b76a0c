//! Text as a sequence of characters: white space, trimming, and the two ways of
//! cutting a text into lines.

use vstd::prelude::*;

verus! {

/// The characters with the Unicode `White_Space` property.
pub open spec fn is_white_space(c: char) -> bool {
    ||| 0x9 <= c as u32 <= 0xd
    ||| c as u32 == 0x20
    ||| c as u32 == 0x85
    ||| c as u32 == 0xa0
    ||| c as u32 == 0x1680
    ||| 0x2000 <= c as u32 <= 0x200a
    ||| c as u32 == 0x2028
    ||| c as u32 == 0x2029
    ||| c as u32 == 0x202f
    ||| c as u32 == 0x205f
    ||| c as u32 == 0x3000
}

/// The white space of ASCII: space, tab, line feed, form feed and carriage return.
pub open spec fn is_ascii_white_space(c: char) -> bool {
    c == ' ' || c == '\t' || c == '\n' || c == '\x0C' || c == '\r'
}

/// A line of nothing but white space.
pub open spec fn is_blank(line: Seq<char>) -> bool {
    forall|i: int| 0 <= i < line.len() ==> is_white_space(#[trigger] line[i])
}

/// `line` without the white space at its two ends.
pub open spec fn trimmed(line: Seq<char>) -> Seq<char>
    decreases line.len(),
{
    if line.len() == 0 {
        line
    } else if is_white_space(line.first()) {
        trimmed(line.drop_first())
    } else if is_white_space(line.last()) {
        trimmed(line.drop_last())
    } else {
        line
    }
}

/// The place of the first character that is in `set`, or the length of `text`
/// where there is none.
pub open spec fn first_in(text: Seq<char>, set: spec_fn(char) -> bool) -> nat
    decreases text.len(),
{
    if text.len() == 0 || set(text.first()) {
        0
    } else {
        1 + first_in(text.drop_first(), set)
    }
}

/// The one character that ends a line of [`lines`].
pub open spec fn line_feed() -> spec_fn(char) -> bool {
    |c: char| c == '\n'
}

/// The pieces of `text` between its line feeds: one more than it has line feeds.
pub open spec fn lines(text: Seq<char>) -> Seq<Seq<char>>
    decreases text.len(),
{
    let end = first_in(text, line_feed());
    if end >= text.len() {
        seq![text]
    } else {
        seq![text.take(end as int)] + lines(text.skip(end as int + 1))
    }
}

/// `pieces` with a line feed between each two.
pub open spec fn joined(pieces: Seq<Seq<char>>) -> Seq<char>
    decreases pieces.len(),
{
    if pieces.len() == 0 {
        Seq::empty()
    } else if pieces.len() == 1 {
        pieces[0]
    } else {
        pieces[0].push('\n') + joined(pieces.drop_first())
    }
}

/// The characters that end a line of JavaScript source.
pub open spec fn line_terminator() -> spec_fn(char) -> bool {
    |c: char| c == '\n' || c == '\r' || c == '\u{2028}' || c == '\u{2029}'
}

/// The lines of `text` by the line terminators of JavaScript, a carriage return
/// and a line feed behind it counting as one. A terminator at the very end opens
/// no further line, and the empty text has none.
pub open spec fn terminated_lines(text: Seq<char>) -> Seq<Seq<char>>
    decreases text.len(),
{
    let end = first_in(text, line_terminator()) as int;
    if text.len() == 0 {
        Seq::empty()
    } else if end >= text.len() {
        seq![text]
    } else {
        let next = if text[end] == '\r' && end + 1 < text.len() && text[end + 1] == '\n' {
            end + 2
        } else {
            end + 1
        };
        seq![text.take(end)] + terminated_lines(text.skip(next))
    }
}

/// The number of bytes that `text` takes in UTF-8.
pub open spec fn utf8_size(text: Seq<char>) -> nat {
    vstd::utf8::encode_utf8(text).len()
}

/// The characters that a list of strings holds.
pub open spec fn texts(strs: Seq<&str>) -> Seq<Seq<char>> {
    strs.map_values(|s: &str| s@)
}

/// What [`first_in`] finds is in the set, and nothing in front of it is.
pub proof fn lemma_first_in(text: Seq<char>, set: spec_fn(char) -> bool)
    ensures
        first_in(text, set) <= text.len(),
        forall|i: int| 0 <= i < first_in(text, set) ==> !set(#[trigger] text[i]),
        first_in(text, set) < text.len() ==> set(text[first_in(text, set) as int]),
    decreases text.len(),
{
    if text.len() > 0 && !set(text.first()) {
        let rest = text.drop_first();
        lemma_first_in(rest, set);
        assert forall|i: int| 0 <= i < first_in(text, set) implies !set(#[trigger] text[i]) by {
            if i > 0 {
                assert(text[i] == rest[i - 1]);
            }
        }
    }
}

/// There is only one first character of the set.
pub proof fn lemma_first_in_is(text: Seq<char>, set: spec_fn(char) -> bool, at: int)
    requires
        0 <= at <= text.len(),
        forall|i: int| 0 <= i < at ==> !set(#[trigger] text[i]),
        at < text.len() ==> set(text[at]),
    ensures
        first_in(text, set) == at,
{
    lemma_first_in(text, set);
    let found = first_in(text, set) as int;
    if found < at {
        assert(!set(text[found]));
    } else if at < found {
        assert(!set(text[at]));
    }
}

/// The sizes of two texts add up.
pub proof fn lemma_utf8_size_concat(left: Seq<char>, right: Seq<char>)
    ensures
        utf8_size(left + right) == utf8_size(left) + utf8_size(right),
    decreases left.len(),
{
    if left.len() == 0 {
        assert(left + right =~= right);
    } else {
        lemma_utf8_size_concat(left.drop_first(), right);
        assert((left + right).drop_first() =~= left.drop_first() + right);
    }
}

/// One more piece comes with one more line feed.
pub proof fn lemma_joined_push(pieces: Seq<Seq<char>>, piece: Seq<char>)
    requires
        pieces.len() > 0,
    ensures
        joined(pieces.push(piece)) == joined(pieces).push('\n') + piece,
    decreases pieces.len(),
{
    let all = pieces.push(piece);
    if pieces.len() == 1 {
        assert(all.drop_first() =~= seq![piece]);
        assert(joined(all.drop_first()) == piece);
    } else {
        assert(all.drop_first() =~= pieces.drop_first().push(piece));
        lemma_joined_push(pieces.drop_first(), piece);
        assert(joined(all) =~= joined(pieces).push('\n') + piece);
    }
}

/// Cutting a text at its line feeds loses nothing: the pieces, joined again, are
/// the text. There is always a piece, and none holds a line feed.
pub proof fn law_lines_join_back(text: Seq<char>)
    ensures
        joined(lines(text)) == text,
        lines(text).len() > 0,
        forall|k: int| 0 <= k < lines(text).len() ==> !(#[trigger] lines(text)[k]).contains('\n'),
    decreases text.len(),
{
    let end = first_in(text, line_feed()) as int;
    lemma_first_in(text, line_feed());
    if end < text.len() {
        let rest = text.skip(end + 1);
        law_lines_join_back(rest);
        assert(lines(text).drop_first() =~= lines(rest));
        assert(text.take(end).push('\n') + rest =~= text);
        assert forall|k: int| 0 <= k < lines(text).len() implies !(
        #[trigger] lines(text)[k]).contains('\n') by {
            if k == 0 {
                assert forall|i: int| 0 <= i < end implies text.take(end)[i] != '\n' by {
                    assert(!line_feed()(text[i]));
                }
            } else {
                assert(lines(text)[k] == lines(rest)[k - 1]);
            }
        }
    } else {
        assert forall|i: int| 0 <= i < text.len() implies text[i] != '\n' by {
            assert(!line_feed()(text[i]));
        }
        assert(lines(text)[0] == text);
    }
}

/// Joining lines and cutting the text again gives the same lines.
pub proof fn law_joined_lines_split_back(pieces: Seq<Seq<char>>)
    requires
        pieces.len() > 0,
        forall|k: int| 0 <= k < pieces.len() ==> !(#[trigger] pieces[k]).contains('\n'),
    ensures
        lines(joined(pieces)) == pieces,
    decreases pieces.len(),
{
    let text = joined(pieces);
    let head = pieces[0];
    let at = head.len() as int;
    assert forall|i: int| 0 <= i < at implies !line_feed()(#[trigger] text[i]) by {
        assert(text[i] == head[i]);
        assert(head.contains(head[i]));
    }
    if pieces.len() == 1 {
        lemma_first_in_is(text, line_feed(), at);
        assert(pieces =~= seq![head]);
    } else {
        let rest = pieces.drop_first();
        assert forall|k: int| 0 <= k < rest.len() implies !(#[trigger] rest[k]).contains('\n') by {
            assert(rest[k] == pieces[k + 1]);
        }
        law_joined_lines_split_back(rest);
        assert(text[at] == '\n');
        lemma_first_in_is(text, line_feed(), at);
        assert(text.take(at) =~= head);
        assert(text.skip(at + 1) =~= joined(rest));
        assert(seq![head] + rest =~= pieces);
    }
}

proof fn lemma_joined_concat(front: Seq<Seq<char>>, back: Seq<Seq<char>>)
    requires
        front.len() > 0,
        back.len() > 0,
    ensures
        joined(front + back) == joined(front).push('\n') + joined(back),
    decreases front.len(),
{
    let all = front + back;
    if front.len() == 1 {
        assert(all.drop_first() =~= back);
    } else {
        assert(all.drop_first() =~= front.drop_first() + back);
        lemma_joined_concat(front.drop_first(), back);
        assert(joined(all) =~= joined(front).push('\n') + joined(back));
    }
}

/// A line feed parts the lines of what is in front of it from the lines of what is
/// behind it, and a text without any is one line.
pub proof fn law_line_feed_parts_lines(front: Seq<char>, back: Seq<char>)
    ensures
        lines(front.push('\n') + back) == lines(front) + lines(back),
        !front.contains('\n') ==> lines(front) == seq![front],
{
    let pieces = lines(front) + lines(back);
    law_lines_join_back(front);
    law_lines_join_back(back);
    lemma_joined_concat(lines(front), lines(back));
    assert forall|k: int| 0 <= k < pieces.len() implies !(#[trigger] pieces[k]).contains('\n') by {
        if k < lines(front).len() {
            assert(pieces[k] == lines(front)[k]);
        } else {
            assert(pieces[k] == lines(back)[k - lines(front).len()]);
        }
    }
    law_joined_lines_split_back(pieces);
    if !front.contains('\n') {
        assert forall|i: int| 0 <= i < front.len() implies !line_feed()(#[trigger] front[i]) by {
            assert(front.contains(front[i]));
        }
        lemma_first_in_is(front, line_feed(), front.len() as int);
    }
}

/// The last line of a text stands behind its last line feed, which is found here; there
/// is none where the result is negative.
pub proof fn lemma_last_line(text: Seq<char>) -> (at: int)
    ensures
        -1 <= at < text.len(),
        at >= 0 ==> text[at] == '\n',
        forall|j: int| at < j < text.len() ==> text[j] != '\n',
        at < 0 ==> lines(text) == seq![text],
        at >= 0 ==> lines(text) == lines(text.take(at)).push(text.skip(at + 1)),
{
    let at = find_last_line_feed(text);
    if at >= 0 {
        let back = text.skip(at + 1);
        assert(!back.contains('\n'));
        assert(text.take(at).push('\n') + back =~= text);
        law_line_feed_parts_lines(text.take(at), back);
        law_line_feed_parts_lines(back, back);
        assert(lines(text.take(at)) + seq![back] =~= lines(text.take(at)).push(back));
    } else {
        assert(!text.contains('\n'));
        law_line_feed_parts_lines(text, text);
    }
    at
}

proof fn find_last_line_feed(text: Seq<char>) -> (at: int)
    ensures
        -1 <= at < text.len(),
        at >= 0 ==> text[at] == '\n',
        forall|j: int| at < j < text.len() ==> text[j] != '\n',
    decreases text.len(),
{
    if text.len() == 0 {
        -1
    } else if text.last() == '\n' {
        text.len() - 1
    } else {
        let rest = text.drop_last();
        let at = find_last_line_feed(rest);
        assert forall|j: int| at < j < text.len() implies text[j] != '\n' by {
            if j < rest.len() {
                assert(rest[j] != '\n');
            }
        }
        at
    }
}

/// A line terminator at the end of `front` parts its lines from those of `back`, unless
/// it is a carriage return whose line feed comes first in `back`.
pub proof fn law_terminator_parts_lines(front: Seq<char>, back: Seq<char>)
    requires
        front.len() > 0,
        front.last() == '\n' || front.last() == '\r' || front.last() == '\u{2028}' || front.last()
            == '\u{2029}',
        !(front.last() == '\r' && back.len() > 0 && back[0] == '\n'),
    ensures
        terminated_lines(front + back) == terminated_lines(front) + terminated_lines(back),
    decreases front.len(),
{
    let text = front + back;
    let end = first_in(front, line_terminator()) as int;
    lemma_first_in(front, line_terminator());
    assert(line_terminator()(front[front.len() - 1]));
    assert forall|i: int| 0 <= i < end implies !line_terminator()(#[trigger] text[i]) by {
        assert(!line_terminator()(front[i]));
    }
    assert(text[end] == front[end]);
    lemma_first_in_is(text, line_terminator(), end);
    let next = if front[end] == '\r' && end + 1 < front.len() && front[end + 1] == '\n' {
        end + 2
    } else {
        end + 1
    };
    assert(end + 1 < text.len() ==> text[end + 1] == if end + 1 < front.len() {
        front[end + 1]
    } else {
        back[0]
    });
    let rest = front.skip(next);
    assert(text.take(end) =~= front.take(end));
    assert(text.skip(next) =~= rest + back);
    if rest.len() == 0 {
        assert(rest + back =~= back);
        assert(terminated_lines(rest) =~= Seq::empty());
        assert(terminated_lines(front) =~= seq![front.take(end)]);
    } else {
        law_terminator_parts_lines(rest, back);
    }
    assert(terminated_lines(text) =~= terminated_lines(front) + terminated_lines(back));
}

/// A line with its terminator, which may be a carriage return and a line feed, is that
/// one line; so is a line without one, unless it is empty.
pub proof fn law_terminated_line(line: Seq<char>, end: char)
    requires
        forall|i: int|
            0 <= i < line.len() ==> (#[trigger] line[i]) != '\n' && line[i] != '\r' && line[i]
                != '\u{2028}' && line[i] != '\u{2029}',
        end == '\n' || end == '\r' || end == '\u{2028}' || end == '\u{2029}',
    ensures
        terminated_lines(line.push(end)) == seq![line],
        terminated_lines(line + seq!['\r', '\n']) == seq![line],
        line.len() > 0 ==> terminated_lines(line) == seq![line],
        line.len() == 0 ==> terminated_lines(line).len() == 0,
{
    let n = line.len() as int;
    let nothing = Seq::<char>::empty();
    let one = line.push(end);
    let two = line + seq!['\r', '\n'];
    assert forall|i: int| 0 <= i < n implies !line_terminator()(#[trigger] one[i]) by {
        assert(one[i] == line[i]);
    }
    assert forall|i: int| 0 <= i < n implies !line_terminator()(#[trigger] two[i]) by {
        assert(two[i] == line[i]);
    }
    lemma_first_in_is(line, line_terminator(), n);
    lemma_first_in_is(one, line_terminator(), n);
    lemma_first_in_is(two, line_terminator(), n);
    assert(one.skip(n + 1) =~= nothing);
    assert(two.skip(n + 2) =~= nothing);
    assert(one.take(n) =~= line);
    assert(two.take(n) =~= line);
    assert(terminated_lines(nothing) =~= Seq::empty());
    assert(two[n] == '\r' && two[n + 1] == '\n');
}

/// No line holds a line terminator, and a text without any is its only line.
pub proof fn law_terminated_lines(text: Seq<char>)
    ensures
        forall|k: int, i: int|
            0 <= k < terminated_lines(text).len() && 0 <= i < terminated_lines(text)[k].len()
                ==> !line_terminator()(#[trigger] terminated_lines(text)[k][i]),
        text.len() > 0 && (forall|i: int|
            0 <= i < text.len() ==> !line_terminator()(#[trigger] text[i])) ==> terminated_lines(
            text,
        ) == seq![text],
    decreases text.len(),
{
    lemma_first_in(text, line_terminator());
    let end = first_in(text, line_terminator()) as int;
    if text.len() > 0 && end < text.len() {
        let next = if text[end] == '\r' && end + 1 < text.len() && text[end + 1] == '\n' {
            end + 2
        } else {
            end + 1
        };
        let rest = text.skip(next);
        law_terminated_lines(rest);
        assert forall|k: int, i: int|
            0 <= k < terminated_lines(text).len() && 0 <= i < terminated_lines(
                text,
            )[k].len() implies !line_terminator()(#[trigger] terminated_lines(text)[k][i]) by {
            if k == 0 {
                assert(terminated_lines(text)[0] == text.take(end));
            } else {
                assert(terminated_lines(text)[k] == terminated_lines(rest)[k - 1]);
            }
        }
    }
}

/// Every character but the line terminators.
pub open spec fn not_line_terminator() -> spec_fn(char) -> bool {
    |c: char| !line_terminator()(c)
}

proof fn lemma_nothing_filtered(text: Seq<char>, kept: spec_fn(char) -> bool)
    requires
        forall|i: int| 0 <= i < text.len() ==> kept(#[trigger] text[i]),
    ensures
        text.filter(kept) == text,
    decreases text.len(),
{
    reveal(Seq::filter);
    if text.len() > 0 {
        let rest = text.drop_last();
        assert forall|i: int| 0 <= i < rest.len() implies kept(#[trigger] rest[i]) by {
            assert(rest[i] == text[i]);
        }
        lemma_nothing_filtered(rest, kept);
        assert(kept(text[text.len() - 1]));
        assert(rest.push(text.last()) =~= text);
    }
}

/// Cutting a text into lines loses nothing but the line terminators.
pub proof fn law_terminated_lines_keep_the_text(text: Seq<char>)
    ensures
        terminated_lines(text).flatten() == text.filter(not_line_terminator()),
    decreases text.len(),
{
    let kept = not_line_terminator();
    let end = first_in(text, line_terminator()) as int;
    lemma_first_in(text, line_terminator());
    if text.len() == 0 {
        lemma_nothing_filtered(text, kept);
    } else if end >= text.len() {
        lemma_nothing_filtered(text, kept);
        seq![text].lemma_flatten_one_element();
    } else {
        let next = if text[end] == '\r' && end + 1 < text.len() && text[end + 1] == '\n' {
            end + 2
        } else {
            end + 1
        };
        let line = text.take(end);
        let between = text.subrange(end, next);
        let rest = text.skip(next);
        law_terminated_lines_keep_the_text(rest);
        assert(terminated_lines(text).drop_first() =~= terminated_lines(rest));
        assert(text =~= line + (between + rest));
        Seq::filter_distributes_over_add(line, between + rest, kept);
        Seq::filter_distributes_over_add(between, rest, kept);
        assert forall|i: int| 0 <= i < line.len() implies kept(#[trigger] line[i]) by {
            assert(!line_terminator()(text[i]));
        }
        lemma_nothing_filtered(line, kept);
        assert(between.filter(kept) =~= Seq::<char>::empty()) by {
            reveal_with_fuel(Seq::filter, 3);
        }
        assert(Seq::<char>::empty() + rest.filter(kept) =~= rest.filter(kept));
    }
}

/// Trimming leaves nothing of a blank line, and of any other line something with
/// white space at neither end; trimming again changes nothing.
pub proof fn law_trimmed(line: Seq<char>)
    ensures
        is_blank(line) <==> trimmed(line).len() == 0,
        trimmed(line).len() > 0 ==> !is_white_space(trimmed(line).first()) && !is_white_space(
            trimmed(line).last(),
        ),
        trimmed(trimmed(line)) == trimmed(line),
    decreases line.len(),
{
    if line.len() == 0 {
    } else if is_white_space(line.first()) {
        let rest = line.drop_first();
        law_trimmed(rest);
        if is_blank(rest) {
            assert forall|i: int| 0 <= i < line.len() implies is_white_space(#[trigger] line[i]) by {
                if i > 0 {
                    assert(line[i] == rest[i - 1]);
                }
            }
        }
        if is_blank(line) {
            assert forall|i: int| 0 <= i < rest.len() implies is_white_space(#[trigger] rest[i]) by {
                assert(rest[i] == line[i + 1]);
            }
        }
    } else if is_white_space(line.last()) {
        let rest = line.drop_last();
        law_trimmed(rest);
        assert(rest[0] == line[0]);
        assert(!is_blank(rest));
        assert(!is_blank(line));
    } else {
        assert(!is_blank(line));
    }
}

/// What stands between the white space at the two ends of a line is what trimming
/// leaves of it.
pub proof fn law_trimming_takes_the_ends(left: Seq<char>, inner: Seq<char>, right: Seq<char>)
    requires
        forall|i: int| 0 <= i < left.len() ==> is_white_space(#[trigger] left[i]),
        forall|i: int| 0 <= i < right.len() ==> is_white_space(#[trigger] right[i]),
        inner.len() > 0 ==> !is_white_space(inner[0]) && !is_white_space(inner[inner.len() - 1]),
    ensures
        trimmed(left + inner + right) == inner,
    decreases left.len() + right.len(),
{
    let line = left + inner + right;
    if left.len() > 0 {
        assert(line.first() == left[0]);
        assert(line.drop_first() =~= left.drop_first() + inner + right);
        law_trimming_takes_the_ends(left.drop_first(), inner, right);
    } else if right.len() > 0 && inner.len() == 0 {
        assert(line.first() == right[0]);
        assert(line.drop_first() =~= left + inner + right.drop_first());
        law_trimming_takes_the_ends(left, inner, right.drop_first());
    } else if right.len() > 0 {
        assert(line.first() == inner[0]);
        assert(line.last() == right[right.len() - 1]);
        assert(line.drop_last() =~= left + inner + right.drop_last());
        law_trimming_takes_the_ends(left, inner, right.drop_last());
    } else {
        assert(line =~= inner);
    }
}

/// Trimming keeps the first character that is not white space in front.
pub proof fn lemma_trimmed_front(line: Seq<char>, at: int)
    requires
        0 <= at < line.len(),
        !is_white_space(line[at]),
        forall|i: int| 0 <= i < at ==> is_white_space(#[trigger] line[i]),
    ensures
        trimmed(line).len() > 0,
        trimmed(line)[0] == line[at],
    decreases line.len(),
{
    if at > 0 {
        assert(is_white_space(line[0]));
        let rest = line.drop_first();
        assert forall|i: int| 0 <= i < at - 1 implies is_white_space(#[trigger] rest[i]) by {
            assert(rest[i] == line[i + 1]);
        }
        lemma_trimmed_front(rest, at - 1);
    } else if is_white_space(line.last()) {
        lemma_trimmed_front(line.drop_last(), 0);
    }
}

/// A list of strings holds the characters of each, in place.
pub proof fn law_texts(strs: Seq<&str>)
    ensures
        texts(strs).len() == strs.len(),
        forall|k: int| 0 <= k < strs.len() ==> #[trigger] texts(strs)[k] == strs[k]@,
{
}

/// Whether `c` has the Unicode `White_Space` property.
pub fn is_white_space_char(c: char) -> (r: bool)
    ensures
        r == is_white_space(c),
{
    let u: u32 = c as u32;
    (0x9 <= u && u <= 0xd) || u == 0x20 || u == 0x85 || u == 0xa0 || u == 0x1680 || (0x2000 <= u
        && u <= 0x200a) || u == 0x2028 || u == 0x2029 || u == 0x202f || u == 0x205f || u == 0x3000
}

/// Whether `c` is white space of ASCII.
pub fn is_ascii_white_space_char(c: char) -> (r: bool)
    ensures
        r == is_ascii_white_space(c),
{
    c == ' ' || c == '\t' || c == '\n' || c == '\x0C' || c == '\r'
}

/// The characters of `text`, one by one.
pub fn chars_of(text: &str) -> (chars: Vec<char>)
    ensures
        chars@ == text@,
{
    let mut chars: Vec<char> = Vec::new();
    for c in it: text.chars()
        invariant
            chars@ == it.seq().take(it.index()),
            it.seq() == text@,
    {
        chars.push(c);
    }
    chars
}

/// Whether two strings hold the same characters.
pub fn same_text(left: &str, right: &str) -> (r: bool)
    ensures
        r == (left@ == right@),
{
    let a = chars_of(left);
    let b = chars_of(right);
    if a.len() != b.len() {
        return false;
    }
    for i in 0..a.len()
        invariant
            a@ == left@,
            b@ == right@,
            a.len() == b.len(),
            forall|j: int| 0 <= j < i ==> a[j] == b[j],
    {
        if a[i] != b[i] {
            return false;
        }
    }
    assert(left@ =~= right@);
    true
}

/// The lines of `text`: what stands between its line feeds.
pub fn split_lines<'a>(text: &'a str) -> (pieces: Vec<&'a str>)
    ensures
        texts(pieces@) == lines(text@),
{
    let chars = chars_of(text);
    let mut pieces: Vec<&'a str> = Vec::new();
    let mut start: usize = 0;
    let mut i: usize = 0;
    assert(text@.skip(0) =~= text@);
    assert(texts(pieces@) + lines(text@.skip(0)) =~= lines(text@));
    while i < chars.len()
        invariant
            chars@ == text@,
            start <= i <= chars.len(),
            forall|j: int| start <= j < i ==> text@[j] != '\n',
            texts(pieces@) + lines(text@.skip(start as int)) == lines(text@),
        decreases chars.len() - i,
    {
        if chars[i] == '\n' {
            let ghost rest = text@.skip(start as int);
            let ghost before = texts(pieces@);
            let piece = text.substring_char(start, i);
            pieces.push(piece);
            proof {
                lemma_first_in_is(rest, line_feed(), i - start);
                assert(rest.take(i - start) =~= piece@);
                assert(rest.skip(i - start + 1) =~= text@.skip(i + 1));
                assert(texts(pieces@) =~= before.push(piece@));
                assert(before + (seq![piece@] + lines(text@.skip(i + 1))) =~= before.push(piece@)
                    + lines(text@.skip(i + 1)));
            }
            start = i + 1;
        }
        i += 1;
    }
    let ghost rest = text@.skip(start as int);
    let ghost before = texts(pieces@);
    let piece = text.substring_char(start, chars.len());
    pieces.push(piece);
    proof {
        lemma_first_in_is(rest, line_feed(), rest.len() as int);
        assert(rest =~= piece@);
        assert(texts(pieces@) =~= before + lines(rest));
    }
    pieces
}

/// `line` without the white space at its two ends.
pub fn trim<'a>(line: &'a str) -> (inner: &'a str)
    ensures
        inner@ == trimmed(line@),
{
    let chars = chars_of(line);
    let mut start: usize = 0;
    let mut end: usize = chars.len();
    assert(line@.subrange(0, end as int) =~= line@);
    while start < end && is_white_space_char(chars[start])
        invariant
            chars@ == line@,
            start <= end == chars.len(),
            trimmed(line@.subrange(start as int, end as int)) == trimmed(line@),
        ensures
            start <= end,
            start < end ==> !is_white_space(line@[start as int]),
        decreases end - start,
    {
        let ghost part = line@.subrange(start as int, end as int);
        assert(part.drop_first() =~= line@.subrange(start + 1, end as int));
        start += 1;
    }
    while start < end && is_white_space_char(chars[end - 1])
        invariant
            chars@ == line@,
            start <= end <= chars.len(),
            start < end ==> !is_white_space(line@[start as int]),
            trimmed(line@.subrange(start as int, end as int)) == trimmed(line@),
        ensures
            start <= end,
            start < end ==> !is_white_space(line@[end - 1]),
        decreases end - start,
    {
        let ghost part = line@.subrange(start as int, end as int);
        assert(part.drop_last() =~= line@.subrange(start as int, end - 1));
        end -= 1;
    }
    line.substring_char(start, end)
}

} // verus!
