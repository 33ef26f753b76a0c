//! The text inside a template literal: taking common indentation away, and
//! escaping what would end the literal.

use oxc_allocator::Allocator;
use vstd::prelude::*;

use crate::foreign::builder_into_str;
use crate::foreign::builder_push;
use crate::foreign::builder_push_str;
use crate::foreign::builder_text;
use crate::foreign::builder_capacity;
use crate::foreign::builder_with_capacity_of;
use crate::text::chars_of;
use crate::text::first_in;
use crate::text::is_ascii_white_space;
use crate::text::is_ascii_white_space_char;
use crate::text::joined;
use crate::text::law_joined_lines_split_back;
use crate::text::law_lines_join_back;
use crate::text::lemma_first_in;
use crate::text::lemma_first_in_is;
use crate::text::lemma_joined_push;
use crate::text::lemma_utf8_size_concat;
use crate::text::lines;
use crate::text::split_lines;
use crate::text::texts;
use crate::text::utf8_size;

verus! {

/// The characters that end the indentation of a line.
pub open spec fn not_indentation() -> spec_fn(char) -> bool {
    |c: char| !is_ascii_white_space(c)
}

/// The number of characters of ASCII white space that `line` begins with.
pub open spec fn indentation(line: Seq<char>) -> nat {
    first_in(line, not_indentation())
}

/// The smallest indentation among the lines that hold more than indentation.
pub open spec fn least_indentation(pieces: Seq<Seq<char>>) -> Option<nat>
    decreases pieces.len(),
{
    if pieces.len() == 0 {
        None
    } else {
        let own = indentation(pieces.last());
        match least_indentation(pieces.drop_last()) {
            rest if own == pieces.last().len() => rest,
            Some(least) if least <= own => Some(least),
            _ => Some(own),
        }
    }
}

/// The indentation that the lines have in common; lines of indentation alone are
/// not asked, and where there is no other line it is zero.
pub open spec fn common_indentation(pieces: Seq<Seq<char>>) -> nat {
    match least_indentation(pieces) {
        Some(least) => least,
        None => 0,
    }
}

/// `line` with up to `width` characters of its indentation taken away.
pub open spec fn outdented(line: Seq<char>, width: nat) -> Seq<char> {
    line.skip(
        if indentation(line) <= width {
            indentation(line) as int
        } else {
            width as int
        },
    )
}

/// Every line of `pieces`, outdented by `width`.
pub open spec fn all_outdented(pieces: Seq<Seq<char>>, width: nat) -> Seq<Seq<char>> {
    pieces.map_values(|line: Seq<char>| outdented(line, width))
}

/// `text` without the indentation that its lines have in common.
pub open spec fn dedented(text: Seq<char>) -> Seq<char> {
    joined(all_outdented(lines(text), common_indentation(lines(text))))
}

proof fn lemma_joined_size_monotone(smaller: Seq<Seq<char>>, larger: Seq<Seq<char>>)
    requires
        smaller.len() == larger.len(),
        forall|k: int|
            0 <= k < smaller.len() ==> utf8_size(#[trigger] smaller[k]) <= utf8_size(larger[k]),
    ensures
        utf8_size(joined(smaller)) <= utf8_size(joined(larger)),
    decreases smaller.len(),
{
    if smaller.len() > 1 {
        lemma_joined_size_monotone(smaller.drop_first(), larger.drop_first());
        lemma_utf8_size_concat(smaller[0].push('\n'), joined(smaller.drop_first()));
        lemma_utf8_size_concat(larger[0].push('\n'), joined(larger.drop_first()));
        lemma_utf8_size_concat(smaller[0], seq!['\n']);
        lemma_utf8_size_concat(larger[0], seq!['\n']);
        assert(smaller[0].push('\n') =~= smaller[0] + seq!['\n']);
        assert(larger[0].push('\n') =~= larger[0] + seq!['\n']);
    }
}

proof fn lemma_joined_prefix_size(pieces: Seq<Seq<char>>, count: int)
    requires
        0 <= count <= pieces.len(),
    ensures
        utf8_size(joined(pieces.take(count))) <= utf8_size(joined(pieces)),
    decreases pieces.len() - count,
{
    if count == pieces.len() {
        assert(pieces.take(count) =~= pieces);
    } else {
        let part = pieces.take(count);
        lemma_joined_prefix_size(pieces, count + 1);
        assert(pieces.take(count + 1) =~= part.push(pieces[count]));
        if count == 0 {
            assert(utf8_size(joined(part)) == 0);
        } else {
            lemma_joined_push(part, pieces[count]);
            lemma_utf8_size_concat(joined(part).push('\n'), pieces[count]);
            lemma_utf8_size_concat(joined(part), seq!['\n']);
            assert(joined(part).push('\n') =~= joined(part) + seq!['\n']);
        }
    }
}

proof fn lemma_outdented_size(line: Seq<char>, width: nat)
    ensures
        utf8_size(outdented(line, width)) <= utf8_size(line),
{
    lemma_first_in(line, not_indentation());
    let cut = if indentation(line) <= width {
        indentation(line) as int
    } else {
        width as int
    };
    lemma_utf8_size_concat(line.take(cut), line.skip(cut));
    assert(line.take(cut) + line.skip(cut) =~= line);
}

proof fn lemma_outdented_by_nothing(pieces: Seq<Seq<char>>)
    ensures
        all_outdented(pieces, 0) == pieces,
{
    assert forall|k: int| 0 <= k < pieces.len() implies all_outdented(pieces, 0)[k] == pieces[k] by {
        assert(pieces[k].skip(0) =~= pieces[k]);
    }
    assert(all_outdented(pieces, 0) =~= pieces);
}

proof fn lemma_least_indentation(pieces: Seq<Seq<char>>)
    ensures
        least_indentation(pieces) matches Some(least) ==> {
            &&& exists|k: int|
                0 <= k < pieces.len() && #[trigger] indentation(pieces[k]) == least
                    && least < pieces[k].len()
            &&& forall|k: int|
                0 <= k < pieces.len() && #[trigger] indentation(pieces[k]) < pieces[k].len()
                    ==> least <= indentation(pieces[k])
        },
        least_indentation(pieces) is None ==> forall|k: int|
            0 <= k < pieces.len() ==> #[trigger] indentation(pieces[k]) == pieces[k].len(),
    decreases pieces.len(),
{
    if pieces.len() > 0 {
        let rest = pieces.drop_last();
        let at = pieces.len() - 1;
        lemma_least_indentation(rest);
        lemma_first_in(pieces.last(), not_indentation());
        assert(indentation(pieces[at]) == indentation(pieces.last()));
        assert forall|k: int| 0 <= k < rest.len() implies #[trigger] indentation(pieces[k])
            == indentation(rest[k]) by {}
        match least_indentation(rest) {
            Some(least) => {
                let k = choose|k: int|
                    0 <= k < rest.len() && #[trigger] indentation(rest[k]) == least && least
                        < rest[k].len();
                assert(indentation(pieces[k]) == least);
            },
            None => {},
        }
    }
}

proof fn lemma_outdented_line(line: Seq<char>, width: nat)
    ensures
        !line.contains('\n') ==> !outdented(line, width).contains('\n'),
        indentation(line) == line.len() ==> indentation(outdented(line, width)) == outdented(
            line,
            width,
        ).len(),
        width <= indentation(line) < line.len() ==> {
            &&& indentation(outdented(line, width)) == indentation(line) - width
            &&& outdented(line, width).len() == line.len() - width
        },
{
    let inner = outdented(line, width);
    let cut = line.len() - inner.len();
    lemma_first_in(line, not_indentation());
    assert forall|i: int| 0 <= i < inner.len() implies inner[i] == line[i + cut] by {}
    if inner.contains('\n') {
        let i = choose|i: int| 0 <= i < inner.len() && inner[i] == '\n';
        assert(line[i + cut] == '\n');
    }
    if indentation(line) == line.len() {
        assert forall|i: int| 0 <= i < inner.len() implies !not_indentation()(#[trigger] inner[i]) by {
            assert(!not_indentation()(line[i + cut]));
        }
        lemma_first_in_is(inner, not_indentation(), inner.len() as int);
    } else if width <= indentation(line) {
        let at = indentation(line) - width;
        assert forall|i: int| 0 <= i < at implies !not_indentation()(#[trigger] inner[i]) by {
            assert(!not_indentation()(line[i + cut]));
        }
        lemma_first_in_is(inner, not_indentation(), at);
    }
}

/// Dedenting keeps the lines, each cut only at its front and only by white space:
/// a line that holds more than indentation loses the common indentation, no more
/// and no less.
pub proof fn law_dedent_keeps_lines(text: Seq<char>)
    ensures
        lines(dedented(text)) == all_outdented(lines(text), common_indentation(lines(text))),
        lines(dedented(text)).len() == lines(text).len(),
        forall|k: int|
            0 <= k < lines(text).len() && indentation(#[trigger] lines(text)[k]) < lines(
                text,
            )[k].len() ==> lines(dedented(text))[k] == lines(text)[k].skip(
                common_indentation(lines(text)) as int,
            ),
{
    let all = lines(text);
    let width = common_indentation(all);
    let out = all_outdented(all, width);
    law_lines_join_back(text);
    lemma_least_indentation(all);
    assert forall|k: int| 0 <= k < out.len() implies !(#[trigger] out[k]).contains('\n') by {
        assert(!all[k].contains('\n'));
        lemma_outdented_line(all[k], width);
    }
    law_joined_lines_split_back(out);
    assert forall|k: int|
        0 <= k < all.len() && indentation(#[trigger] all[k]) < all[k].len() implies out[k]
        == all[k].skip(width as int) by {
        assert(width <= indentation(all[k]));
    }
}

/// After dedenting, the lines have no indentation in common, so that dedenting
/// again changes nothing.
pub proof fn law_dedent_is_idempotent(text: Seq<char>)
    ensures
        common_indentation(lines(dedented(text))) == 0,
        dedented(dedented(text)) == dedented(text),
{
    let all = lines(text);
    let width = common_indentation(all);
    let out = all_outdented(all, width);
    law_dedent_keeps_lines(text);
    lemma_least_indentation(all);
    lemma_least_indentation(out);
    assert forall|k: int| 0 <= k < out.len() implies #[trigger] out[k] == outdented(all[k], width) by {}
    if least_indentation(all) is Some {
        let k = choose|k: int|
            0 <= k < all.len() && #[trigger] indentation(all[k]) == width && width < all[k].len();
        lemma_outdented_line(all[k], width);
        assert(indentation(out[k]) == 0);
    } else {
        lemma_outdented_by_nothing(all);
    }
    lemma_outdented_by_nothing(out);
}

/// Where no line has a character other than ASCII white space in front of the place
/// `width`, and one of them has such a character at that place, every line loses its
/// first `width` characters, or all where it is shorter.
pub proof fn law_dedent_takes_the_common_white_space(text: Seq<char>, width: nat, at: int)
    requires
        0 <= at < lines(text).len(),
        width < lines(text)[at].len(),
        !is_ascii_white_space(lines(text)[at][width as int]),
        forall|k: int, j: int|
            0 <= k < lines(text).len() && 0 <= j < width && j < lines(text)[k].len()
                ==> is_ascii_white_space(#[trigger] lines(text)[k][j]),
    ensures
        lines(dedented(text)).len() == lines(text).len(),
        forall|k: int|
            0 <= k < lines(text).len() && lines(text)[k].len() > width ==> (#[trigger] lines(
                dedented(text),
            )[k]) == lines(text)[k].skip(width as int),
        forall|k: int|
            0 <= k < lines(text).len() && lines(text)[k].len() <= width ==> (#[trigger] lines(
                dedented(text),
            )[k]).len() == 0,
{
    let all = lines(text);
    law_dedent_keeps_lines(text);
    lemma_least_indentation(all);
    assert forall|j: int| 0 <= j < width implies !not_indentation()(#[trigger] all[at][j]) by {
        assert(is_ascii_white_space(lines(text)[at][j]));
    }
    lemma_first_in_is(all[at], not_indentation(), width as int);
    assert(indentation(all[at]) == width);
    assert forall|k: int| 0 <= k < all.len() implies (if all[k].len() <= width {
        #[trigger] indentation(all[k]) == all[k].len()
    } else {
        indentation(all[k]) >= width
    }) by {
        lemma_first_in(all[k], not_indentation());
        let found = indentation(all[k]) as int;
        if found < width && found < all[k].len() {
            assert(is_ascii_white_space(lines(text)[k][found]));
        }
    }
    match least_indentation(all) {
        Some(least) => {
            let k = choose|k: int|
                0 <= k < all.len() && #[trigger] indentation(all[k]) == least && least
                    < all[k].len();
            assert(indentation(all[k]) < all[k].len());
            assert(least == width);
        },
        None => {
            assert(indentation(all[at]) == all[at].len());
        },
    }
    assert forall|k: int| 0 <= k < all.len() implies lines(dedented(text))[k] == outdented(
        #[trigger] all[k],
        width,
    ) by {}
    assert forall|k: int| 0 <= k < all.len() && all[k].len() <= width implies (#[trigger] lines(
        dedented(text),
    )[k]).len() == 0 by {
        assert(indentation(all[k]) == all[k].len());
    }
    assert forall|k: int| 0 <= k < all.len() && all[k].len() > width implies (#[trigger] lines(
        dedented(text),
    )[k]) == all[k].skip(width as int) by {
        assert(indentation(all[k]) >= width);
    }
}

/// A text of ASCII white space alone is left as it is.
pub proof fn law_dedent_leaves_white_space(text: Seq<char>)
    requires
        forall|k: int, j: int|
            0 <= k < lines(text).len() && 0 <= j < lines(text)[k].len() ==> is_ascii_white_space(
                #[trigger] lines(text)[k][j],
            ),
    ensures
        dedented(text) == text,
{
    let all = lines(text);
    lemma_least_indentation(all);
    if least_indentation(all) is Some {
        let k = choose|k: int|
            0 <= k < all.len() && #[trigger] indentation(all[k]) < all[k].len();
        lemma_first_in(all[k], not_indentation());
        assert(is_ascii_white_space(lines(text)[k][indentation(all[k]) as int]));
    }
    lemma_outdented_by_nothing(all);
    law_lines_join_back(text);
}

/// The indentation of `line`, and whether `line` holds more than that.
fn measure_indentation(line: &str) -> (r: (usize, bool))
    ensures
        r.0 == indentation(line@),
        r.1 == (indentation(line@) < line@.len()),
{
    let chars = chars_of(line);
    let mut n: usize = 0;
    while n < chars.len() && is_ascii_white_space_char(chars[n])
        invariant
            chars@ == line@,
            n <= chars.len(),
            forall|i: int| 0 <= i < n ==> is_ascii_white_space(#[trigger] line@[i]),
        ensures
            n <= chars.len(),
            n < chars.len() ==> !is_ascii_white_space(line@[n as int]),
        decreases chars.len() - n,
    {
        n += 1;
    }
    proof {
        lemma_first_in_is(line@, not_indentation(), n as int);
    }
    (n, n < chars.len())
}

/// Strip the common leading indentation from all non-empty lines in `text`.
pub fn dedent<'a>(text: &'a str, allocator: &'a Allocator) -> (r: &'a str)
    ensures
        r@ == dedented(text@),
{
    let pieces = split_lines(text);
    let ghost all = lines(text@);
    let mut least: Option<usize> = None;
    for i in 0..pieces.len()
        invariant
            texts(pieces@) == all,
            least is Some == least_indentation(all.take(i as int)) is Some,
            least matches Some(n) ==> least_indentation(all.take(i as int)) == Some(n as nat),
    {
        assert(all[i as int] == pieces[i as int]@);
        assert(all.take(i + 1).drop_last() =~= all.take(i as int));
        let (own, more) = measure_indentation(pieces[i]);
        proof {
            lemma_first_in(all[i as int], not_indentation());
        }
        if more {
            match least {
                Some(n) if n <= own => {},
                _ => {
                    least = Some(own);
                },
            }
        }
    }
    assert(all.take(pieces.len() as int) =~= all);
    let width: usize = match least {
        Some(n) => n,
        None => 0,
    };
    let ghost out = all_outdented(all, width as nat);
    proof {
        law_lines_join_back(text@);
    }
    if width == 0 {
        proof {
            lemma_outdented_by_nothing(all);
        }
        return text;
    }
    let mut result = builder_with_capacity_of(text, allocator);
    for i in 0..pieces.len()
        invariant
            texts(pieces@) == all,
            joined(all) == text@,
            out == all_outdented(all, width as nat),
            builder_text(result) == joined(out.take(i as int)),
            builder_capacity(result) == utf8_size(text@),
    {
        let ghost before = out.take(i as int);
        let ghost piece = out[i as int];
        proof {
            assert(all[i as int] == pieces[i as int]@);
            assert(out.take(i + 1) =~= before.push(piece));
            assert forall|k: int| 0 <= k < out.len() implies utf8_size(#[trigger] out[k])
                <= utf8_size(all[k]) by {
                lemma_outdented_size(all[k], width as nat);
            }
            lemma_joined_size_monotone(out, all);
            lemma_joined_prefix_size(out, i + 1);
            lemma_utf8_size_concat(joined(before).push('\n'), piece);
            lemma_utf8_size_concat(joined(before), seq!['\n']);
            assert(joined(before).push('\n') =~= joined(before) + seq!['\n']);
            if i > 0 {
                lemma_joined_push(before, piece);
            } else {
                assert(out.take(1) =~= seq![piece]);
                assert(Seq::<char>::empty() + piece =~= piece);
            }
        }
        if i > 0 {
            builder_push(&mut result, '\n');
        }
        let (own, _) = measure_indentation(pieces[i]);
        let strip: usize = if own <= width {
            own
        } else {
            width
        };
        proof {
            lemma_first_in(all[i as int], not_indentation());
        }
        let kept = pieces[i].substring_char(strip, pieces[i].unicode_len());
        assert(kept@ =~= piece);
        builder_push_str(&mut result, kept);
    }
    assert(out.take(pieces.len() as int) =~= out);
    builder_into_str(result)
}

/// Whether `text` begins with the opening of a substitution.
pub open spec fn opens_substitution(text: Seq<char>) -> bool {
    text.len() > 1 && text[0] == '$' && text[1] == '{'
}

/// `text` with a backslash in front of each backslash, each backtick and each
/// opening of a substitution.
pub open spec fn escaped(text: Seq<char>) -> Seq<char>
    decreases text.len(),
{
    if text.len() == 0 {
        text
    } else if text[0] == '\\' || text[0] == '`' {
        seq!['\\', text[0]] + escaped(text.skip(1))
    } else if opens_substitution(text) {
        seq!['\\', '$', '{'] + escaped(text.skip(2))
    } else {
        seq![text[0]] + escaped(text.skip(1))
    }
}

/// What the source text of a template stands for, where a backslash stands for the
/// character behind it.
pub open spec fn unescaped(source: Seq<char>) -> Seq<char>
    decreases source.len(),
{
    if source.len() == 0 {
        source
    } else if source[0] == '\\' && source.len() > 1 {
        seq![source[1]] + unescaped(source.skip(2))
    } else {
        seq![source[0]] + unescaped(source.skip(1))
    }
}

/// Whether `source`, inside a template literal, ends the literal, opens a
/// substitution or escapes what comes behind it.
pub open spec fn breaks_template(source: Seq<char>) -> bool
    decreases source.len(),
{
    if source.len() == 0 {
        false
    } else if source[0] == '\\' {
        source.len() == 1 || breaks_template(source.skip(2))
    } else {
        source[0] == '`' || opens_substitution(source) || breaks_template(source.skip(1))
    }
}

/// Escaped text stands for the text: a reader of the template gets it back.
pub proof fn law_escape_is_undone(text: Seq<char>)
    ensures
        unescaped(escaped(text)) == text,
    decreases text.len(),
{
    if text.len() == 0 {
    } else if text[0] == '\\' || text[0] == '`' {
        let rest = escaped(text.skip(1));
        law_escape_is_undone(text.skip(1));
        assert(escaped(text).skip(2) =~= rest);
        assert(unescaped(escaped(text)) =~= text);
    } else if opens_substitution(text) {
        let rest = escaped(text.skip(2));
        law_escape_is_undone(text.skip(2));
        let inner = escaped(text).skip(2);
        assert(inner =~= seq!['{'] + rest);
        assert(inner.skip(1) =~= rest);
        assert(unescaped(inner) =~= seq!['{'] + text.skip(2));
        assert(unescaped(escaped(text)) =~= text);
    } else {
        let rest = escaped(text.skip(1));
        law_escape_is_undone(text.skip(1));
        assert(escaped(text).skip(1) =~= rest);
        assert(unescaped(escaped(text)) =~= text);
    }
}

/// Escaped text never breaks the template literal that it is put into.
pub proof fn law_escape_is_safe(text: Seq<char>)
    ensures
        !breaks_template(escaped(text)),
    decreases text.len(),
{
    if text.len() == 0 {
    } else if text[0] == '\\' || text[0] == '`' {
        law_escape_is_safe(text.skip(1));
        assert(escaped(text).skip(2) =~= escaped(text.skip(1)));
    } else if opens_substitution(text) {
        law_escape_is_safe(text.skip(2));
        let inner = escaped(text).skip(2);
        assert(inner =~= seq!['{'] + escaped(text.skip(2)));
        assert(inner.skip(1) =~= escaped(text.skip(2)));
        assert(!breaks_template(inner));
    } else {
        let rest = text.skip(1);
        law_escape_is_safe(rest);
        assert(escaped(text).skip(1) =~= escaped(rest));
        if rest.len() > 0 {
            assert(escaped(text)[1] == escaped(rest)[0]);
            assert(escaped(rest)[0] == '{' ==> rest[0] == '{');
        }
    }
}

/// What stands side by side is escaped side by side, unless a `$` and a `{` meet.
pub proof fn law_escape_of_parts(front: Seq<char>, back: Seq<char>)
    requires
        !(front.len() > 0 && back.len() > 0 && front.last() == '$' && back[0] == '{'),
    ensures
        escaped(front + back) == escaped(front) + escaped(back),
    decreases front.len(),
{
    let text = front + back;
    if front.len() == 0 {
        assert(text =~= back);
        assert(escaped(front) + escaped(back) =~= escaped(back));
    } else {
        assert(text[0] == front[0]);
        assert(text.len() > 1 ==> text[1] == if front.len() > 1 {
            front[1]
        } else {
            back[0]
        });
        if front[0] != '\\' && front[0] != '`' && opens_substitution(front) {
            assert(text.skip(2) =~= front.skip(2) + back);
            law_escape_of_parts(front.skip(2), back);
        } else {
            assert(text.skip(1) =~= front.skip(1) + back);
            law_escape_of_parts(front.skip(1), back);
        }
        assert(escaped(text) =~= escaped(front) + escaped(back));
    }
}

/// A backslash and a backtick get a backslash in front, every other character stays,
/// and so do a `$` and a `{` that meet, behind one backslash.
pub proof fn law_escape_of_characters(c: char)
    ensures
        c == '\\' || c == '`' ==> escaped(seq![c]) == seq!['\\', c],
        c != '\\' && c != '`' ==> escaped(seq![c]) == seq![c],
        escaped(seq!['$', '{']) == seq!['\\', '$', '{'],
{
    let nothing = Seq::<char>::empty();
    assert(seq![c].skip(1) =~= nothing);
    assert(seq!['$', '{'].skip(2) =~= nothing);
    assert(escaped(nothing) =~= nothing);
    assert(escaped(seq!['$', '{']) =~= seq!['\\', '$', '{']);
    if c == '\\' || c == '`' {
        assert(escaped(seq![c]) =~= seq!['\\', c]);
    } else {
        assert(escaped(seq![c]) =~= seq![c]);
    }
}

/// Text that would not break a template and has no backslash is left as it is.
pub proof fn law_escape_leaves_plain_text(text: Seq<char>)
    requires
        !text.contains('\\'),
        !breaks_template(text),
    ensures
        escaped(text) == text,
    decreases text.len(),
{
    if text.len() > 0 {
        assert(text.contains(text[0]));
        let rest = text.skip(1);
        assert forall|i: int| 0 <= i < rest.len() implies rest[i] != '\\' by {
            assert(text.contains(text[i + 1]));
        }
        law_escape_leaves_plain_text(rest);
        assert(escaped(text) =~= text);
    }
}

/// Escape characters that would break template literal syntax: a backslash, a
/// backtick and `${` each get a backslash in front.
pub fn escape_template_characters(s: &str) -> (result: String)
    ensures
        result@ == escaped(s@),
{
    let chars = chars_of(s);
    let len: usize = chars.len();
    let mut result = String::new();
    let mut i: usize = 0;
    assert(s@.skip(0) =~= s@);
    assert(result@ + escaped(s@.skip(0)) =~= escaped(s@));
    while i < len
        invariant
            chars@ == s@,
            len == chars.len(),
            i <= len,
            result@ + escaped(s@.skip(i as int)) == escaped(s@),
        decreases len - i,
    {
        let ghost rest = s@.skip(i as int);
        let ghost before = result@;
        let c = chars[i];
        assert(rest.skip(1) =~= s@.skip(i + 1));
        if c == '\\' || c == '`' {
            result.push('\\');
            result.push(c);
            assert(result@ + escaped(s@.skip(i + 1)) =~= before + escaped(rest));
        } else if c == '$' && i + 1 < len && chars[i + 1] == '{' {
            result.push('\\');
            result.push('$');
            result.push('{');
            assert(rest.skip(2) =~= s@.skip(i + 2));
            assert(result@ + escaped(s@.skip(i + 2)) =~= before + escaped(rest));
            i += 1;
        } else {
            result.push(c);
            assert(result@ + escaped(s@.skip(i + 1)) =~= before + escaped(rest));
        }
        i += 1;
    }
    assert(s@.skip(len as int) =~= Seq::<char>::empty());
    assert(result@ + Seq::<char>::empty() =~= result@);
    result
}

} // verus!
