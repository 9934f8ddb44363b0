//! Re-flowing a whole document to a new width. Empty lines stay as they are.
//! Each block, a maximal run of lines that are not empty, is wrapped as one
//! text: a line of white space alone may be what wrapping left of a gap
//! between two words, so it belongs to the text around it.

use vstd::prelude::*;
use crate::paragraph::{find_position, locate};
use crate::text::lines_of;
use crate::wrap::{lemma_wrap_lossless, wrap_spec, wrap_text};

verus! {

/// The text of the block that `lines` ends with: of its last lines, as far
/// back as none is empty.
pub open spec fn tail_text(lines: Seq<Seq<char>>) -> Seq<char>
    decreases lines.len(),
{
    if lines.len() == 0 || lines.last().len() == 0 {
        Seq::empty()
    } else {
        tail_text(lines.drop_last()) + lines.last()
    }
}

/// The text of the block that `lines` starts with: of its first lines, as far
/// on as none is empty.
pub open spec fn head_text(lines: Seq<Seq<char>>) -> Seq<char>
    decreases lines.len(),
{
    if lines.len() == 0 || lines.first().len() == 0 {
        Seq::empty()
    } else {
        lines.first() + head_text(lines.drop_first())
    }
}

/// The lines of a block with text `text` at `width`; no line where there is
/// no text.
pub open spec fn wrap_block(text: Seq<char>, width: nat) -> Seq<Seq<char>> {
    if text.len() == 0 {
        Seq::empty()
    } else {
        wrap_spec(text, width)
    }
}

/// The re-flowed lines up to and including the last empty line of `lines`:
/// every block that an empty line closes, wrapped, and every empty line.
pub open spec fn settled(lines: Seq<Seq<char>>, width: nat) -> Seq<Seq<char>>
    decreases lines.len(),
{
    if lines.len() == 0 {
        Seq::empty()
    } else if lines.last().len() == 0 {
        (settled(lines.drop_last(), width) + wrap_block(tail_text(lines.drop_last()), width)).push(
            Seq::empty(),
        )
    } else {
        settled(lines.drop_last(), width)
    }
}

/// The document re-flowed to `width`: every block wrapped, every empty line
/// kept.
pub open spec fn reflow(lines: Seq<Seq<char>>, width: nat) -> Seq<Seq<char>> {
    settled(lines, width) + wrap_block(tail_text(lines), width)
}

/// Where a cursor at `line` and `column` stands after the document is
/// re-flowed: on an empty line, on that line still; in a block, on the
/// position in the block's text that it had.
pub open spec fn reflow_cursor(lines: Seq<Seq<char>>, line: int, column: nat, width: nat) -> (
    nat,
    nat,
) {
    let above = lines.take(line);
    if lines[line].len() == 0 {
        (reflow(above, width).len(), 0)
    } else {
        let text = tail_text(above) + head_text(lines.skip(line));
        let at = locate(wrap_spec(text, width), tail_text(above).len() + column);
        (settled(above, width).len() + at.0, at.1)
    }
}

/// Wraps the block with text `pending` onto the end of `out`, and tells where
/// in `out` the block's position `offset` then is.
pub(crate) fn flush_block(out: &mut Vec<Vec<char>>, pending: &Vec<char>, width: usize, offset: usize) -> (at:
    (usize, usize))
    requires
        offset <= pending@.len(),
    ensures
        lines_of(final(out)@) == lines_of(old(out)@) + wrap_block(pending@, width as nat),
        pending@.len() > 0 ==> at.0 == old(out)@.len() + locate(
            wrap_spec(pending@, width as nat),
            offset as nat,
        ).0,
        pending@.len() > 0 ==> at.1 == locate(wrap_spec(pending@, width as nat), offset as nat).1,
        pending@.len() > 0 ==> at.0 < final(out)@.len() && at.1 <= final(out)@[at.0 as int]@.len(),
{
    if pending.len() == 0 {
        assert(lines_of(out@) + Seq::<Seq<char>>::empty() =~= lines_of(out@));
        return (0, 0);
    }
    let start = out.len();
    let mut wrapped = wrap_text(pending, width);
    let ghost new_lines = lines_of(wrapped@);
    let ghost count = wrapped@.len();
    proof {
        lemma_wrap_lossless(pending@, width as nat);
    }
    let at = find_position(&wrapped, offset);
    out.append(&mut wrapped);
    assert(lines_of(out@) =~= lines_of(old(out)@) + new_lines);
    assert(start + count == out.len());
    (start + at.0, at.1)
}

} // verus!
