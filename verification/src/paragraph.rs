//! Paragraphs and positions in them. A paragraph is a maximal run of lines
//! none of which is a separator; a separator line is a paragraph of its own.
//! A position in a paragraph is counted in characters from the paragraph's
//! start, which stays the same when the paragraph is broken into other lines.

use vstd::prelude::*;
use vstd::seq_lib::lemma_flatten_concat;
use crate::text::{is_separator, lines_of};

verus! {

/// The first line of the run of lines without a separator that ends at `k`.
pub open spec fn run_first(lines: Seq<Seq<char>>, k: int) -> int
    decreases k,
{
    if k <= 0 || is_separator(lines[k - 1]) {
        k
    } else {
        run_first(lines, k - 1)
    }
}

/// The last line of the run of lines without a separator that starts at `k`.
pub open spec fn run_last(lines: Seq<Seq<char>>, k: int) -> int
    decreases lines.len() - k,
{
    if k + 1 >= lines.len() || is_separator(lines[k + 1]) {
        k
    } else {
        run_last(lines, k + 1)
    }
}

/// The first line of the paragraph that holds line `k`.
pub open spec fn para_first(lines: Seq<Seq<char>>, k: int) -> int {
    if is_separator(lines[k]) {
        k
    } else {
        run_first(lines, k)
    }
}

/// The last line of the paragraph that holds line `k`.
pub open spec fn para_last(lines: Seq<Seq<char>>, k: int) -> int {
    if is_separator(lines[k]) {
        k
    } else {
        run_last(lines, k)
    }
}

/// Whether lines `first` to `last` are the paragraph of line `k`: a separator
/// line alone, or else lines without a separator among them that are bounded,
/// on either side, by a separator or by the end of the document.
pub open spec fn is_paragraph_of(lines: Seq<Seq<char>>, k: int, first: int, last: int) -> bool {
    &&& 0 <= first <= k <= last < lines.len()
    &&& is_separator(lines[k]) ==> first == k && last == k
    &&& !is_separator(lines[k]) ==> {
        &&& forall|i: int| first <= i <= last ==> !is_separator(#[trigger] lines[i])
        &&& first == 0 || is_separator(lines[first - 1])
        &&& last == lines.len() - 1 || is_separator(lines[last + 1])
    }
}

/// The run that ends at `k` starts after a separator or at the top, and holds
/// no separator before `k`.
pub proof fn lemma_run_first(lines: Seq<Seq<char>>, k: int)
    requires
        0 <= k < lines.len(),
    ensures
        0 <= run_first(lines, k) <= k,
        run_first(lines, k) == 0 || is_separator(lines[run_first(lines, k) - 1]),
        forall|i: int| run_first(lines, k) <= i < k ==> !is_separator(#[trigger] lines[i]),
    decreases k,
{
    if !(k <= 0 || is_separator(lines[k - 1])) {
        lemma_run_first(lines, k - 1);
    }
}

/// The run that starts at `k` ends before a separator or at the bottom, and
/// holds no separator after `k`.
pub proof fn lemma_run_last(lines: Seq<Seq<char>>, k: int)
    requires
        0 <= k < lines.len(),
    ensures
        k <= run_last(lines, k) < lines.len(),
        run_last(lines, k) == lines.len() - 1 || is_separator(lines[run_last(lines, k) + 1]),
        forall|i: int| k < i <= run_last(lines, k) ==> !is_separator(#[trigger] lines[i]),
    decreases lines.len() - k,
{
    if !(k + 1 >= lines.len() || is_separator(lines[k + 1])) {
        lemma_run_last(lines, k + 1);
    }
}

/// The bounds computed for line `k` are those of its paragraph.
pub proof fn lemma_paragraph_bounds(lines: Seq<Seq<char>>, k: int)
    requires
        0 <= k < lines.len(),
    ensures
        is_paragraph_of(lines, k, para_first(lines, k), para_last(lines, k)),
{
    lemma_run_first(lines, k);
    lemma_run_last(lines, k);
}

/// The number of characters in lines `from` up to, not including, `to`.
pub open spec fn chars_between(lines: Seq<Seq<char>>, from: int, to: int) -> nat {
    lines.subrange(from, to).flatten().len()
}

/// Going one line further adds that line's length.
pub proof fn lemma_chars_between_step(lines: Seq<Seq<char>>, from: int, to: int)
    requires
        0 <= from <= to < lines.len(),
    ensures
        chars_between(lines, from, to + 1) == chars_between(lines, from, to) + lines[to].len(),
{
    assert(lines.subrange(from, to + 1) =~= lines.subrange(from, to).push(lines[to]));
    lines.subrange(from, to).lemma_flatten_push(lines[to]);
}

/// A longer range of lines holds at least as many characters.
pub proof fn lemma_chars_between_mono(lines: Seq<Seq<char>>, from: int, mid: int, to: int)
    requires
        0 <= from <= mid <= to <= lines.len(),
    ensures
        chars_between(lines, from, to) == chars_between(lines, from, mid) + chars_between(
            lines,
            mid,
            to,
        ),
{
    assert(lines.subrange(from, to) =~= lines.subrange(from, mid) + lines.subrange(mid, to));
    lemma_flatten_concat(lines.subrange(from, mid), lines.subrange(mid, to));
}

/// The line and column at which a paragraph laid out as `lines` holds the
/// position `offset`. Where a line ends exactly at `offset` the position is
/// the end of that line, not the start of the next; position 0 is the start
/// of the first line.
pub open spec fn locate(lines: Seq<Seq<char>>, offset: nat) -> (nat, nat)
    decreases lines.len(),
{
    if lines.len() == 0 || offset <= lines[0].len() {
        (0, offset)
    } else {
        let rest = locate(lines.drop_first(), (offset - lines[0].len()) as nat);
        (rest.0 + 1, rest.1)
    }
}

/// The position that `locate` was given, from the line and column it gave.
pub open spec fn offset_of(lines: Seq<Seq<char>>, line: int, column: int) -> int {
    chars_between(lines, 0, line) + column
}

/// A position within the paragraph is found on one of its lines, within that
/// line, and counts as many characters from the start as was asked for.
pub proof fn lemma_locate(lines: Seq<Seq<char>>, offset: nat)
    requires
        lines.len() > 0,
        offset <= lines.flatten().len(),
    ensures
        locate(lines, offset).0 < lines.len(),
        locate(lines, offset).1 <= lines[locate(lines, offset).0 as int].len(),
        offset_of(lines, locate(lines, offset).0 as int, locate(lines, offset).1 as int)
            == offset,
        locate(lines, offset).1 == 0 ==> offset == 0,
    decreases lines.len(),
{
    assert(lines.subrange(0, 0) =~= Seq::empty());
    if offset > lines[0].len() {
        let rest = lines.drop_first();
        let at = locate(rest, (offset - lines[0].len()) as nat);
        assert(rest.len() > 0) by {
            if rest.len() == 0 {
                assert(lines =~= seq![lines[0]]);
                lines.lemma_flatten_singleton();
            }
        }
        lemma_locate(rest, (offset - lines[0].len()) as nat);
        assert(lines.subrange(0, at.0 as int + 1) =~= seq![lines[0]] + rest.subrange(0, at.0 as int));
        lemma_flatten_concat(seq![lines[0]], rest.subrange(0, at.0 as int));
        seq![lines[0]].lemma_flatten_singleton();
    }
}

/// Where no line is empty, a line and column are found again from their
/// position, unless the column is the start of a line other than the first:
/// that position is the end of the line before.
pub proof fn lemma_locate_inverse(lines: Seq<Seq<char>>, line: int, column: int)
    requires
        0 <= line < lines.len(),
        0 <= column <= lines[line].len(),
        forall|i: int| 0 <= i < lines.len() ==> (#[trigger] lines[i]).len() > 0,
        column > 0 || line == 0,
    ensures
        locate(lines, offset_of(lines, line, column) as nat) == (line as nat, column as nat),
    decreases line,
{
    if line == 0 {
        assert(lines.subrange(0, 0) =~= Seq::empty());
    } else {
        let rest = lines.drop_first();
        lemma_chars_between_mono(lines, 0, 1, line);
        lemma_chars_between_step(lines, 0, 0);
        assert(lines.subrange(0, 0) =~= Seq::empty());
        assert(lines.subrange(1, line) =~= rest.subrange(0, line - 1));
        assert forall|i: int| 0 <= i < rest.len() implies (#[trigger] rest[i]).len() > 0 by {
            assert(rest[i] == lines[i + 1]);
        }
        lemma_locate_inverse(rest, line - 1, column);
    }
}

/// Finds the line and column of position `offset` in a paragraph. A position
/// within the paragraph is found on one of its lines, within that line.
pub fn find_position(lines: &Vec<Vec<char>>, offset: usize) -> (at: (usize, usize))
    ensures
        (at.0 as nat, at.1 as nat) == locate(lines_of(lines@), offset as nat),
        lines@.len() > 0 && offset <= lines_of(lines@).flatten().len() ==> at.0 < lines@.len()
            && at.1 <= lines@[at.0 as int]@.len(),
{
    let ghost all = lines_of(lines@);
    let mut line: usize = 0;
    let mut rest: usize = offset;
    proof {
        if lines@.len() > 0 && offset <= all.flatten().len() {
            lemma_locate(all, offset as nat);
        }
        assert(all.skip(0) =~= all);
    }
    while line < lines.len() && rest > lines[line].len()
        invariant
            all == lines_of(lines@),
            line <= lines@.len(),
            locate(all, offset as nat).0 == locate(all.skip(line as int), rest as nat).0 + line,
            locate(all, offset as nat).1 == locate(all.skip(line as int), rest as nat).1,
        decreases lines@.len() - line,
    {
        proof {
            assert(all.skip(line as int).drop_first() =~= all.skip(line + 1));
        }
        rest -= lines[line].len();
        line += 1;
    }
    (line, rest)
}

} // verus!
