//! Greedy word-wrap: a paragraph's text is cut into tokens (maximal runs of
//! white space or of other characters) and the tokens are packed onto lines of
//! a given width, never splitting a token.

use vstd::prelude::*;
use crate::text::{is_white_space, lines_of};
use crate::wrap_laws::{is_wrapping, lemma_wrap_is_wrapping};

verus! {

/// Two characters are of the same kind when both are white space or neither is.
pub open spec fn same_kind(a: char, b: char) -> bool {
    is_white_space(a) == is_white_space(b)
}

/// The tokens of `text`, left to right: each character either extends the
/// token before it, when it is of the same kind as its predecessor, or starts
/// a new token.
pub open spec fn tokens(text: Seq<char>) -> Seq<Seq<char>>
    decreases text.len(),
{
    if text.len() == 0 {
        Seq::empty()
    } else {
        let before = tokens(text.drop_last());
        if text.len() >= 2 && same_kind(text[text.len() - 2], text.last()) {
            before.drop_last().push(before.last().push(text.last()))
        } else {
            before.push(seq![text.last()])
        }
    }
}

/// Whether a token of length `token_len` is appended to a line that holds
/// `line_len` characters: always when the line is empty, otherwise when both
/// fit in `width`.
pub open spec fn fits(line_len: nat, token_len: nat, width: nat) -> bool {
    line_len == 0 || line_len + token_len <= width
}

/// Packs tokens onto lines, left to right. The last line of the result is the
/// line still open: the next token joins it when it fits, and otherwise opens
/// a line of its own. Without tokens the result is one empty line.
pub open spec fn pack(tokens: Seq<Seq<char>>, width: nat) -> Seq<Seq<char>>
    decreases tokens.len(),
{
    if tokens.len() == 0 {
        seq![Seq::empty()]
    } else {
        let before = pack(tokens.drop_last(), width);
        let token = tokens.last();
        if fits(before.last().len(), token.len(), width) {
            before.drop_last().push(before.last() + token)
        } else {
            before.push(token)
        }
    }
}

/// The lines that `text` is wrapped into at `width`.
pub open spec fn wrap_spec(text: Seq<char>, width: nat) -> Seq<Seq<char>> {
    pack(tokens(text), width)
}

/// Whether a new token starts at `pos`: at the start of the text, at its end,
/// and wherever the kind of character changes.
pub open spec fn is_boundary(text: Seq<char>, pos: int) -> bool {
    0 <= pos <= text.len() && (pos == 0 || pos == text.len() || !same_kind(
        text[pos - 1],
        text[pos],
    ))
}

/// Tokenizing loses nothing: the tokens, put together again, are the text, and
/// a text that is not empty has a token.
pub proof fn lemma_tokens_flatten(text: Seq<char>)
    ensures
        tokens(text).flatten() == text,
        text.len() > 0 ==> tokens(text).len() > 0,
    decreases text.len(),
{
    if text.len() > 0 {
        let before = tokens(text.drop_last());
        lemma_tokens_flatten(text.drop_last());
        assert(text.drop_last().push(text.last()) =~= text);
        if text.len() >= 2 && same_kind(text[text.len() - 2], text.last()) {
            assert(before.drop_last().push(before.last()) =~= before);
            before.drop_last().lemma_flatten_push(before.last());
            before.drop_last().lemma_flatten_push(before.last().push(text.last()));
            assert(tokens(text).flatten() =~= text);
        } else {
            before.lemma_flatten_push(seq![text.last()]);
            assert(tokens(text).flatten() =~= text);
        }
    }
}

/// Packing loses nothing: the lines, put together again, are the tokens put
/// together, and there is always at least one line.
pub proof fn lemma_pack_flatten(tokens: Seq<Seq<char>>, width: nat)
    ensures
        pack(tokens, width).flatten() == tokens.flatten(),
        pack(tokens, width).len() > 0,
    decreases tokens.len(),
{
    if tokens.len() == 0 {
        seq![Seq::<char>::empty()].lemma_flatten_singleton();
        assert(pack(tokens, width).flatten() =~= tokens.flatten());
    } else {
        let before = pack(tokens.drop_last(), width);
        let token = tokens.last();
        lemma_pack_flatten(tokens.drop_last(), width);
        assert(tokens.drop_last().push(token) =~= tokens);
        tokens.drop_last().lemma_flatten_push(token);
        assert(before.drop_last().push(before.last()) =~= before);
        before.drop_last().lemma_flatten_push(before.last());
        if fits(before.last().len(), token.len(), width) {
            before.drop_last().lemma_flatten_push(before.last() + token);
            assert(pack(tokens, width).flatten() =~= tokens.flatten());
        } else {
            before.lemma_flatten_push(token);
            assert(pack(tokens, width).flatten() =~= tokens.flatten());
        }
    }
}

/// Wrapping is lossless: the lines of a wrapped text, put together again, are
/// the text, whatever the width.
pub proof fn lemma_wrap_lossless(text: Seq<char>, width: nat)
    ensures
        wrap_spec(text, width).flatten() == text,
        wrap_spec(text, width).len() > 0,
{
    lemma_tokens_flatten(text);
    lemma_pack_flatten(tokens(text), width);
}

/// Concatenates the fragments of a paragraph, with nothing between them.
pub fn text_of(fragments: &[Vec<char>]) -> (text: Vec<char>)
    ensures
        text@ == lines_of(fragments@).flatten(),
{
    let mut text: Vec<char> = Vec::new();
    let mut i: usize = 0;
    assert(lines_of(fragments@).take(0) =~= Seq::empty());
    while i < fragments.len()
        invariant
            i <= fragments.len(),
            text@ == lines_of(fragments@).take(i as int).flatten(),
        decreases fragments.len() - i,
    {
        let fragment = &fragments[i];
        let ghost start = text@;
        let mut j: usize = 0;
        while j < fragment.len()
            invariant
                j <= fragment.len(),
                text@ == start + fragment@.take(j as int),
            decreases fragment.len() - j,
        {
            text.push(fragment[j]);
            assert(fragment@.take(j as int).push(fragment@[j as int]) =~= fragment@.take(j + 1));
            j += 1;
        }
        proof {
            let all = lines_of(fragments@);
            assert(fragment@.take(fragment.len() as int) =~= fragment@);
            assert(all.take(i + 1) =~= all.take(i as int).push(fragment@));
            all.take(i as int).lemma_flatten_push(fragment@);
        }
        i += 1;
    }
    assert(lines_of(fragments@).take(fragments.len() as int) =~= lines_of(fragments@));
    text
}

/// Wraps one paragraph, given as a single run of text.
pub fn wrap_text(text: &Vec<char>, width: usize) -> (lines: Vec<Vec<char>>)
    ensures
        lines_of(lines@) == wrap_spec(text@, width as nat),
        is_wrapping(lines_of(lines@), text@, width as nat),
{
    proof {
        lemma_wrap_is_wrapping(text@, width as nat);
    }
    let n = text.len();
    let mut lines: Vec<Vec<char>> = Vec::new();
    let mut line: Vec<char> = Vec::new();
    let mut pos: usize = 0;
    assert(text@.take(0) =~= Seq::empty());
    assert(lines_of(lines@).push(line@) =~= seq![Seq::empty()]);
    while pos < n
        invariant
            n == text.len(),
            is_boundary(text@, pos as int),
            lines_of(lines@).push(line@) == pack(tokens(text@.take(pos as int)), width as nat),
        decreases n - pos,
    {
        let ghost before = tokens(text@.take(pos as int));
        let white = text[pos].is_whitespace();
        let mut end: usize = pos + 1;
        proof {
            assert(text@.take(pos + 1).drop_last() =~= text@.take(pos as int));
            assert(text@.subrange(pos as int, pos + 1) =~= seq![text@[pos as int]]);
        }
        while end < n && text[end].is_whitespace() == white
            invariant
                n == text.len(),
                pos < end <= n,
                is_white_space(text@[end - 1]) == white,
                tokens(text@.take(end as int)) == before.push(
                    text@.subrange(pos as int, end as int),
                ),
            decreases n - end,
        {
            proof {
                assert(text@.take(end + 1).drop_last() =~= text@.take(end as int));
                assert(text@.subrange(pos as int, end as int).push(text@[end as int])
                    =~= text@.subrange(pos as int, end + 1));
                assert(before.push(text@.subrange(pos as int, end as int)).drop_last()
                    =~= before);
            }
            end += 1;
        }
        let ghost token = text@.subrange(pos as int, end as int);
        let ghost open = line@;
        let ghost done = lines_of(lines@);
        proof {
            assert(before.push(token).drop_last() =~= before);
            assert(done.push(open).drop_last() =~= done);
        }
        let line_len = line.len();
        if !(line_len == 0 || (line_len <= width && end - pos <= width - line_len)) {
            lines.push(line);
            line = Vec::new();
            assert(lines_of(lines@) =~= done.push(open));
        }
        let ghost start = line@;
        let mut k: usize = pos;
        while k < end
            invariant
                n == text.len(),
                pos <= k <= end <= n,
                line@ == start + text@.subrange(pos as int, k as int),
            decreases end - k,
        {
            line.push(text[k]);
            assert(text@.subrange(pos as int, k as int).push(text@[k as int]) =~= text@.subrange(
                pos as int,
                k + 1,
            ));
            k += 1;
        }
        assert(start + token =~= if start.len() == 0 { token } else { open + token });
        pos = end;
    }
    assert(text@.take(n as int) =~= text@);
    let ghost done = lines_of(lines@);
    lines.push(line);
    assert(lines_of(lines@) =~= done.push(line@));
    lines
}

/// Wraps a paragraph to `width`. The paragraph is given by the lines it is
/// laid out in at present; its text is their concatenation.
pub fn wrap(fragments: &[Vec<char>], width: usize) -> (lines: Vec<Vec<char>>)
    ensures
        lines_of(lines@) == wrap_spec(lines_of(fragments@).flatten(), width as nat),
        is_wrapping(lines_of(lines@), lines_of(fragments@).flatten(), width as nat),
        lines_of(lines@).flatten() == lines_of(fragments@).flatten(),
        lines@.len() > 0,
        lines_of(fragments@).flatten().len() <= usize::MAX,
{
    let text = text_of(fragments);
    wrap_text(&text, width)
}

} // verus!
