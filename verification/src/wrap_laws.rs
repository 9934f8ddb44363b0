//! What holds of every wrapped text: the line breaks fall between tokens, a
//! line is longer than the width only where it is a single token, and no line
//! is cut short while the token after it would still have fitted. A text has
//! exactly one such layout.

use vstd::prelude::*;
use crate::text::is_white_space;
use crate::wrap::{fits, lemma_tokens_flatten, lemma_wrap_lossless, pack, same_kind, tokens, wrap_spec};

verus! {

/// The length of the token that `line` starts with: of the longest run of
/// characters of one kind at its start.
pub open spec fn first_token_len(line: Seq<char>) -> nat
    decreases line.len(),
{
    if line.len() == 0 {
        0
    } else if line.len() >= 2 && same_kind(line[0], line[1]) {
        1 + first_token_len(line.drop_first())
    } else {
        1
    }
}

/// All characters of `token` are of one kind.
pub open spec fn uniform(token: Seq<char>) -> bool {
    forall|i: int|
        0 <= i < token.len() ==> is_white_space(#[trigger] token[i]) == is_white_space(token[0])
}

/// No line of `lines` is empty.
pub open spec fn all_filled(lines: Seq<Seq<char>>) -> bool {
    forall|i: int| 0 <= i < lines.len() ==> (#[trigger] lines[i]).len() > 0
}

/// Each of `lines` ends with a character of another kind than the next one
/// starts with: where the lines are tokens, no two of them are one token, and
/// where they are lines of text, no token is split between two of them.
pub open spec fn kinds_alternate(lines: Seq<Seq<char>>) -> bool {
    forall|i: int, j: int|
        #![trigger lines[i], lines[j]]
        0 <= i && j == i + 1 && j < lines.len() ==> !same_kind(lines[i].last(), lines[j].first())
}

/// A line longer than `width` is a single token.
pub open spec fn only_tokens_overflow(lines: Seq<Seq<char>>, width: nat) -> bool {
    forall|i: int|
        0 <= i < lines.len() ==> (#[trigger] lines[i]).len() <= width || first_token_len(lines[i])
            == lines[i].len()
}

/// Every line but the last is full: together with the token that starts the
/// next line it would be longer than `width`.
pub open spec fn lines_are_full(lines: Seq<Seq<char>>, width: nat) -> bool {
    forall|i: int, j: int|
        #![trigger lines[i], lines[j]]
        0 <= i && j == i + 1 && j < lines.len() ==> lines[i].len() + first_token_len(lines[j])
            > width
}

/// `tokens` is a text cut into its tokens: none is empty, each is of one
/// kind, and each is of another kind than the one before it.
pub open spec fn is_tokenization(tokens: Seq<Seq<char>>) -> bool {
    &&& all_filled(tokens)
    &&& forall|i: int| 0 <= i < tokens.len() ==> uniform(#[trigger] tokens[i])
    &&& kinds_alternate(tokens)
}

/// `lines` is `text` wrapped at `width`, said without saying how: the lines
/// put together are the text; an empty text gives one empty line, and no
/// other line is ever empty; no token is split between two lines; a line
/// longer than the width is a single token; and every line but the last is
/// full.
pub open spec fn is_wrapping(lines: Seq<Seq<char>>, text: Seq<char>, width: nat) -> bool {
    &&& lines.flatten() == text
    &&& lines.len() > 0
    &&& text.len() == 0 ==> lines.len() == 1
    &&& text.len() > 0 ==> all_filled(lines)
    &&& kinds_alternate(lines)
    &&& only_tokens_overflow(lines, width)
    &&& lines_are_full(lines, width)
}

/// A token is as long as the first token of itself.
pub proof fn lemma_first_token_of_uniform(token: Seq<char>)
    requires
        uniform(token),
    ensures
        first_token_len(token) == token.len(),
    decreases token.len(),
{
    if token.len() >= 2 {
        let rest = token.drop_first();
        assert(is_white_space(token[1]) == is_white_space(token[0]));
        assert forall|i: int| 0 <= i < rest.len() implies is_white_space(#[trigger] rest[i])
            == is_white_space(rest[0]) by {
            assert(is_white_space(token[i + 1]) == is_white_space(token[0]));
        }
        lemma_first_token_of_uniform(rest);
    }
}

/// What follows a line does not change its first token, if it starts with a
/// character of another kind than the line ends with.
pub proof fn lemma_first_token_append(line: Seq<char>, more: Seq<char>)
    requires
        line.len() > 0,
        more.len() > 0,
        !same_kind(line.last(), more.first()),
    ensures
        first_token_len(line + more) == first_token_len(line),
    decreases line.len(),
{
    let both = line + more;
    if line.len() >= 2 {
        assert(both[0] == line[0] && both[1] == line[1]);
        if same_kind(line[0], line[1]) {
            assert(both.drop_first() =~= line.drop_first() + more);
            lemma_first_token_append(line.drop_first(), more);
        }
    } else {
        assert(both[0] == line[0] && both[1] == more[0]);
    }
}

/// The characters of a line's first token are all of the kind of its first
/// character.
pub proof fn lemma_first_token_uniform(line: Seq<char>, i: int)
    requires
        0 <= i < first_token_len(line),
    ensures
        first_token_len(line) <= line.len(),
        is_white_space(line[i]) == is_white_space(line[0]),
    decreases line.len(),
{
    if line.len() >= 2 && same_kind(line[0], line[1]) {
        if i > 0 {
            lemma_first_token_uniform(line.drop_first(), i - 1);
        } else {
            lemma_first_token_uniform(line.drop_first(), 0);
        }
    }
}

/// A line's first token ends where the kind of character first changes, at
/// the latest.
pub proof fn lemma_first_token_ends(line: Seq<char>, p: int)
    requires
        0 < p < line.len(),
        !same_kind(line[p - 1], line[p]),
    ensures
        first_token_len(line) <= p,
    decreases line.len(),
{
    if line.len() >= 2 && same_kind(line[0], line[1]) {
        lemma_first_token_ends(line.drop_first(), p - 1);
    }
}

/// The tokens of a text are a tokenization, and the last of them ends with
/// the text's last character.
pub proof fn lemma_tokens_shape(text: Seq<char>)
    ensures
        is_tokenization(tokens(text)),
        text.len() > 0 ==> tokens(text).len() > 0 && tokens(text).last().last() == text.last(),
    decreases text.len(),
{
    if text.len() > 0 {
        let shorter = text.drop_last();
        let before = tokens(shorter);
        let c = text.last();
        let now = tokens(text);
        lemma_tokens_shape(shorter);
        lemma_tokens_flatten(shorter);
        if text.len() >= 2 {
            assert(shorter.last() == text[text.len() - 2]);
        }
        if text.len() >= 2 && same_kind(text[text.len() - 2], c) {
            let grown = before.last().push(c);
            assert(uniform(grown)) by {
                assert(is_white_space(before.last()[before.last().len() - 1]) == is_white_space(
                    before.last()[0],
                ));
            }
            assert forall|i: int, j: int| 0 <= i && j == i + 1 && j < now.len() implies !same_kind(
                now[i].last(),
                now[j].first(),
            ) by {
                assert(now[i] == before[i]);
                assert(now[j].first() == before[j].first());
            }
        } else {
            assert forall|i: int, j: int| 0 <= i && j == i + 1 && j < now.len() implies !same_kind(
                now[i].last(),
                now[j].first(),
            ) by {
                assert(now[i] == before[i]);
                if j < now.len() - 1 {
                    assert(now[j] == before[j]);
                }
            }
        }
    }
}

/// One token more on packed lines, where it joins the open line: the lines
/// keep their shape.
proof fn lemma_pack_join(before: Seq<Seq<char>>, token: Seq<char>, width: nat)
    requires
        before.len() > 0,
        all_filled(before),
        kinds_alternate(before),
        only_tokens_overflow(before, width),
        lines_are_full(before, width),
        token.len() > 0,
        !same_kind(before.last().last(), token.first()),
        before.last().len() + token.len() <= width,
    ensures
        ({
            let lines = before.drop_last().push(before.last() + token);
            &&& all_filled(lines)
            &&& kinds_alternate(lines)
            &&& only_tokens_overflow(lines, width)
            &&& lines_are_full(lines, width)
        }),
{
    let lines = before.drop_last().push(before.last() + token);
    lemma_first_token_append(before.last(), token);
    assert forall|i: int| 0 <= i < lines.len() implies (#[trigger] lines[i]).len() > 0 by {
        if i < lines.len() - 1 {
            assert(lines[i] == before[i]);
        }
    }
    assert forall|i: int, j: int| 0 <= i && j == i + 1 && j < lines.len() implies !same_kind(
        lines[i].last(),
        lines[j].first(),
    ) by {
        assert(lines[i] == before[i]);
        assert(lines[j].first() == before[j].first());
    }
    assert forall|i: int| 0 <= i < lines.len() implies (#[trigger] lines[i]).len() <= width
        || first_token_len(lines[i]) == lines[i].len() by {
        if i < lines.len() - 1 {
            assert(lines[i] == before[i]);
        }
    }
    assert forall|i: int, j: int| 0 <= i && j == i + 1 && j < lines.len() implies lines[i].len()
        + first_token_len(lines[j]) > width by {
        assert(lines[i] == before[i]);
        assert(first_token_len(lines[j]) == first_token_len(before[j]));
    }
}

/// One token more on packed lines, where it opens a line: the lines keep
/// their shape.
proof fn lemma_pack_open(before: Seq<Seq<char>>, token: Seq<char>, width: nat)
    requires
        before.len() > 0,
        all_filled(before),
        kinds_alternate(before),
        only_tokens_overflow(before, width),
        lines_are_full(before, width),
        token.len() > 0,
        uniform(token),
        !same_kind(before.last().last(), token.first()),
        before.last().len() + token.len() > width,
    ensures
        ({
            let lines = before.push(token);
            &&& all_filled(lines)
            &&& kinds_alternate(lines)
            &&& only_tokens_overflow(lines, width)
            &&& lines_are_full(lines, width)
        }),
{
    let lines = before.push(token);
    lemma_first_token_of_uniform(token);
    assert forall|i: int| 0 <= i < lines.len() implies (#[trigger] lines[i]).len() > 0 by {
        if i < lines.len() - 1 {
            assert(lines[i] == before[i]);
        }
    }
    assert forall|i: int, j: int| 0 <= i && j == i + 1 && j < lines.len() implies !same_kind(
        lines[i].last(),
        lines[j].first(),
    ) by {
        assert(lines[i] == before[i]);
        if j < lines.len() - 1 {
            assert(lines[j] == before[j]);
        }
    }
    assert forall|i: int| 0 <= i < lines.len() implies (#[trigger] lines[i]).len() <= width
        || first_token_len(lines[i]) == lines[i].len() by {
        if i < lines.len() - 1 {
            assert(lines[i] == before[i]);
        }
    }
    assert forall|i: int, j: int| 0 <= i && j == i + 1 && j < lines.len() implies lines[i].len()
        + first_token_len(lines[j]) > width by {
        assert(lines[i] == before[i]);
        if j < lines.len() - 1 {
            assert(lines[j] == before[j]);
        }
    }
}

/// The shape of packed lines: a packed tokenization has no empty line, splits
/// no token, lets only single tokens overflow and fills its lines; and its
/// last line ends with the last token's last character.
pub proof fn lemma_pack_shape(tokens: Seq<Seq<char>>, width: nat)
    requires
        is_tokenization(tokens),
        tokens.len() > 0,
    ensures
        pack(tokens, width).len() > 0,
        pack(tokens, width).last().last() == tokens.last().last(),
        all_filled(pack(tokens, width)),
        kinds_alternate(pack(tokens, width)),
        only_tokens_overflow(pack(tokens, width), width),
        lines_are_full(pack(tokens, width), width),
    decreases tokens.len(),
{
    let token = tokens.last();
    let earlier = tokens.drop_last();
    let before = pack(earlier, width);
    let lines = pack(tokens, width);
    if tokens.len() == 1 {
        lemma_first_token_of_uniform(token);
        assert(before =~= seq![Seq::<char>::empty()]);
        assert(Seq::<char>::empty() + token =~= token);
        assert(lines =~= seq![token]);
    } else {
        assert(is_tokenization(earlier)) by {
            assert forall|i: int| 0 <= i < earlier.len() implies (#[trigger] earlier[i]).len() > 0
                && uniform(earlier[i]) by {
                assert(earlier[i] == tokens[i]);
            }
            assert forall|i: int, j: int|
                0 <= i && j == i + 1 && j < earlier.len() implies !same_kind(
                earlier[i].last(),
                earlier[j].first(),
            ) by {
                assert(earlier[i] == tokens[i] && earlier[j] == tokens[j]);
            }
        }
        lemma_pack_shape(earlier, width);
        assert(!same_kind(before.last().last(), token.first())) by {
            let i = tokens.len() - 2;
            let j = tokens.len() - 1;
            assert(earlier.last() == tokens[i] && token == tokens[j]);
        }
        if fits(before.last().len(), token.len(), width) {
            lemma_pack_join(before, token, width);
        } else {
            lemma_pack_open(before, token, width);
        }
    }
}

/// The lines that a text is wrapped into are a wrapping of it: nothing is
/// lost, no token is split, only a single token overflows the width, and
/// every line but the last is full.
pub proof fn lemma_wrap_is_wrapping(text: Seq<char>, width: nat)
    ensures
        is_wrapping(wrap_spec(text, width), text, width),
{
    lemma_wrap_lossless(text, width);
    lemma_tokens_shape(text);
    if text.len() > 0 {
        lemma_pack_shape(tokens(text), width);
    } else {
        assert(wrap_spec(text, width) =~= seq![Seq::<char>::empty()]);
    }
}

/// Greedy packing: appending to a line, other than the last, the token that
/// starts the next line would exceed the width; and that token starts where
/// the line ends, for the break falls between two tokens.
pub proof fn lemma_wrap_greedy(text: Seq<char>, width: nat, i: int)
    requires
        0 <= i < wrap_spec(text, width).len() - 1,
    ensures
        wrap_spec(text, width)[i].len() + first_token_len(wrap_spec(text, width)[i + 1]) > width,
        !same_kind(wrap_spec(text, width)[i].last(), wrap_spec(text, width)[i + 1].first()),
{
    let lines = wrap_spec(text, width);
    lemma_wrap_is_wrapping(text, width);
    let j = i + 1;
    assert(lines[i].len() + first_token_len(lines[j]) > width);
    assert(!same_kind(lines[i].last(), lines[j].first()));
}

/// Wrapping again what is wrapped changes nothing: the lines of a wrapped
/// text, wrapped at the same width, are the same lines.
pub proof fn lemma_wrap_idempotent(text: Seq<char>, width: nat)
    ensures
        wrap_spec(wrap_spec(text, width).flatten(), width) == wrap_spec(text, width),
{
    lemma_wrap_lossless(text, width);
}

/// The first line of lines that hold `text` is the start of `text`, and the
/// other lines hold the rest.
proof fn lemma_first_line(lines: Seq<Seq<char>>, text: Seq<char>)
    requires
        lines.len() > 0,
        lines.flatten() == text,
    ensures
        lines[0].len() <= text.len(),
        lines[0] == text.take(lines[0].len() as int),
        lines.drop_first().flatten() == text.skip(lines[0].len() as int),
{
    assert(lines.flatten() == lines[0] + lines.drop_first().flatten());
    assert(lines[0] =~= text.take(lines[0].len() as int));
    assert(lines.drop_first().flatten() =~= text.skip(lines[0].len() as int));
}

/// The second line of lines that hold `text` stands in `text` right after
/// the first.
proof fn lemma_second_line(lines: Seq<Seq<char>>, text: Seq<char>)
    requires
        lines.len() > 1,
        lines.flatten() == text,
    ensures
        lines[0].len() + lines[1].len() <= text.len(),
        lines[1] == text.subrange(
            lines[0].len() as int,
            lines[0].len() as int + lines[1].len() as int,
        ),
{
    let rest = lines.drop_first();
    lemma_first_line(lines, text);
    lemma_first_line(rest, text.skip(lines[0].len() as int));
    assert(rest[0] == lines[1]);
    assert(lines[1] =~= text.subrange(
        lines[0].len() as int,
        lines[0].len() as int + lines[1].len() as int,
    ));
}

/// Lines without an empty one that hold a text longer than the first of them
/// are more than one.
proof fn lemma_more_lines(lines: Seq<Seq<char>>, text: Seq<char>)
    requires
        lines.len() > 0,
        lines.flatten() == text,
        lines[0].len() < text.len(),
    ensures
        lines.len() > 1,
{
    lemma_first_line(lines, text);
    if lines.len() == 1 {
        assert(lines.drop_first() =~= Seq::<Seq<char>>::empty());
        assert(lines.drop_first().flatten() =~= Seq::<char>::empty());
    }
}

/// Of two wrappings of one text at one width, the first line of the one is
/// not shorter than the first line of the other.
proof fn lemma_first_line_not_shorter(
    a: Seq<Seq<char>>,
    b: Seq<Seq<char>>,
    text: Seq<char>,
    width: nat,
)
    requires
        is_wrapping(a, text, width),
        is_wrapping(b, text, width),
        text.len() > 0,
    ensures
        a[0].len() >= b[0].len(),
{
    let p = a[0].len() as int;
    let q = b[0].len() as int;
    lemma_first_line(a, text);
    lemma_first_line(b, text);
    if p < q {
        lemma_more_lines(a, text);
        lemma_second_line(a, text);
        let next = a[1];
        assert(p > 0 && next.len() > 0);
        // The break of `a` lies within the first line of `b`, which therefore
        // is more than one token and has to fit the width.
        assert(!same_kind(a[0].last(), a[1].first()));
        assert(a[0].last() == text[p - 1] && a[1].first() == text[p]);
        assert(b[0][p - 1] == text[p - 1] && b[0][p] == text[p]);
        lemma_first_token_ends(b[0], p);
        assert(q <= width);
        // So the token after the break of `a` reaches beyond the first line
        // of `b`, whose break then falls within a token.
        assert(a[0].len() + first_token_len(a[1]) > width);
        lemma_first_token_uniform(next, q - p);
        lemma_first_token_uniform(next, q - p - 1);
        assert(next[q - p] == text[q] && next[q - p - 1] == text[q - 1]);
        assert(same_kind(text[q - 1], text[q]));
        lemma_more_lines(b, text);
        lemma_second_line(b, text);
        assert(b[1].len() > 0);
        assert(b[0].last() == text[q - 1] && b[1].first() == text[q]);
        assert(!same_kind(b[0].last(), b[1].first()));
    }
}

/// What follows the first line of a wrapping of more than one line is a
/// wrapping of the rest of the text.
proof fn lemma_wrapping_rest(lines: Seq<Seq<char>>, text: Seq<char>, width: nat)
    requires
        is_wrapping(lines, text, width),
        lines.len() > 1,
    ensures
        is_wrapping(lines.drop_first(), text.skip(lines[0].len() as int), width),
{
    let rest = lines.drop_first();
    let tail = text.skip(lines[0].len() as int);
    lemma_first_line(lines, text);
    lemma_second_line(lines, text);
    assert(text.len() > 0);
    assert forall|i: int| 0 <= i < rest.len() implies (#[trigger] rest[i]).len() > 0 by {
        assert(rest[i] == lines[i + 1]);
    }
    assert(tail.len() > 0) by {
        assert(lines[1].len() > 0);
    }
    assert forall|i: int, j: int| 0 <= i && j == i + 1 && j < rest.len() implies !same_kind(
        rest[i].last(),
        rest[j].first(),
    ) by {
        let i1 = i + 1;
        let j1 = j + 1;
        assert(rest[i] == lines[i1] && rest[j] == lines[j1]);
    }
    assert forall|i: int| 0 <= i < rest.len() implies (#[trigger] rest[i]).len() <= width
        || first_token_len(rest[i]) == rest[i].len() by {
        assert(rest[i] == lines[i + 1]);
    }
    assert forall|i: int, j: int| 0 <= i && j == i + 1 && j < rest.len() implies rest[i].len()
        + first_token_len(rest[j]) > width by {
        let i1 = i + 1;
        let j1 = j + 1;
        assert(rest[i] == lines[i1] && rest[j] == lines[j1]);
    }
}

/// A text has one wrapping at a width, and no other.
pub proof fn lemma_wrapping_unique(
    a: Seq<Seq<char>>,
    b: Seq<Seq<char>>,
    text: Seq<char>,
    width: nat,
)
    requires
        is_wrapping(a, text, width),
        is_wrapping(b, text, width),
    ensures
        a == b,
    decreases a.len(),
{
    lemma_first_line(a, text);
    lemma_first_line(b, text);
    if text.len() == 0 {
        assert(a[0] =~= b[0]);
        assert(a =~= b);
    } else {
        lemma_first_line_not_shorter(a, b, text, width);
        lemma_first_line_not_shorter(b, a, text, width);
        let p = a[0].len() as int;
        assert(a[0] == b[0]);
        if p < text.len() {
            lemma_more_lines(a, text);
            lemma_more_lines(b, text);
            lemma_wrapping_rest(a, text, width);
            lemma_wrapping_rest(b, text, width);
            lemma_wrapping_unique(a.drop_first(), b.drop_first(), text.skip(p), width);
            assert(a =~= seq![a[0]] + a.drop_first());
            assert(b =~= seq![b[0]] + b.drop_first());
        } else {
            lemma_only_line(a, text);
            lemma_only_line(b, text);
            assert(a =~= b);
        }
    }
}

/// Lines without an empty one whose first holds all of the text are that one
/// line.
proof fn lemma_only_line(lines: Seq<Seq<char>>, text: Seq<char>)
    requires
        lines.len() > 0,
        all_filled(lines),
        lines.flatten() == text,
        lines[0].len() >= text.len(),
    ensures
        lines.len() == 1,
{
    if lines.len() > 1 {
        lemma_second_line(lines, text);
        assert(lines[1].len() > 0);
    }
}

/// Lines that are a wrapping of a text are the lines that the text is
/// wrapped into: what [`is_wrapping`] says is all there is to say.
pub proof fn lemma_wrapping_is_wrap(lines: Seq<Seq<char>>, text: Seq<char>, width: nat)
    requires
        is_wrapping(lines, text, width),
    ensures
        lines == wrap_spec(text, width),
{
    lemma_wrap_is_wrapping(text, width);
    lemma_wrapping_unique(lines, wrap_spec(text, width), text, width);
}

} // verus!
