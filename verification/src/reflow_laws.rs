//! What holds of re-flowing: a document that was re-flowed to a width is left
//! as it is by re-flowing it to that width again, and so is the cursor.

use vstd::prelude::*;
use vstd::seq_lib::lemma_flatten_concat;
use crate::paragraph::{chars_between, lemma_locate, lemma_locate_inverse, locate};
use crate::reflow::{head_text, reflow, reflow_cursor, settled, tail_text, wrap_block};
use crate::wrap::{lemma_wrap_lossless, wrap_spec};
use crate::wrap_laws::{all_filled, lemma_wrap_is_wrapping};

verus! {

/// `lines` does not end within a block: it has no line, or its last line is
/// empty.
pub open spec fn ends_closed(lines: Seq<Seq<char>>) -> bool {
    lines.len() == 0 || lines.last().len() == 0
}

/// `lines` does not start within a block: it has no line, or its first line
/// is empty.
pub open spec fn starts_closed(lines: Seq<Seq<char>>) -> bool {
    lines.len() == 0 || lines.first().len() == 0
}

/// Lines without an empty one, put after lines that end closed, are a block
/// still open: nothing more is settled, and the block's text is theirs.
pub proof fn lemma_block_after(before: Seq<Seq<char>>, block: Seq<Seq<char>>, width: nat)
    requires
        ends_closed(before),
        all_filled(block),
    ensures
        settled(before + block, width) == settled(before, width),
        tail_text(before + block) == block.flatten(),
    decreases block.len(),
{
    if block.len() == 0 {
        assert(before + block =~= before);
    } else {
        let shorter = block.drop_last();
        assert((before + block).drop_last() =~= before + shorter);
        assert((before + block).last() == block.last());
        lemma_block_after(before, shorter, width);
        assert(shorter.push(block.last()) =~= block);
        shorter.lemma_flatten_push(block.last());
    }
}

/// Lines without an empty one, put before lines that start closed, are the
/// whole block at the start.
pub proof fn lemma_block_before(block: Seq<Seq<char>>, after: Seq<Seq<char>>)
    requires
        all_filled(block),
        starts_closed(after),
    ensures
        head_text(block + after) == block.flatten(),
    decreases block.len(),
{
    if block.len() == 0 {
        assert(block + after =~= after);
    } else {
        assert((block + after).drop_first() =~= block.drop_first() + after);
        assert((block + after).first() == block.first());
        lemma_block_before(block.drop_first(), after);
    }
}

/// The lines of a block hold no empty line, hold the block's text, and are
/// the lines of their own text.
pub proof fn lemma_wrap_block(text: Seq<char>, width: nat)
    ensures
        all_filled(wrap_block(text, width)),
        wrap_block(text, width).flatten() == text,
        wrap_block(wrap_block(text, width).flatten(), width) == wrap_block(text, width),
        text.len() > 0 ==> wrap_block(text, width).len() > 0,
{
    if text.len() > 0 {
        lemma_wrap_is_wrapping(text, width);
    } else {
        assert(wrap_block(text, width).flatten() =~= text);
    }
}

/// What is settled ends closed, and settling it again changes nothing.
pub proof fn lemma_settled_again(lines: Seq<Seq<char>>, width: nat)
    ensures
        ends_closed(settled(lines, width)),
        settled(settled(lines, width), width) == settled(lines, width),
    decreases lines.len(),
{
    if lines.len() > 0 {
        let shorter = lines.drop_last();
        lemma_settled_again(shorter, width);
        if lines.last().len() == 0 {
            let done = settled(shorter, width);
            let block = wrap_block(tail_text(shorter), width);
            let now = (done + block).push(Seq::empty());
            lemma_wrap_block(tail_text(shorter), width);
            lemma_block_after(done, block, width);
            assert(now.drop_last() =~= done + block);
        }
    }
}

/// Re-flowing twice to one width is re-flowing once.
pub proof fn lemma_reflow_again(lines: Seq<Seq<char>>, width: nat)
    ensures
        reflow(reflow(lines, width), width) == reflow(lines, width),
{
    let done = settled(lines, width);
    let block = wrap_block(tail_text(lines), width);
    lemma_settled_again(lines, width);
    lemma_wrap_block(tail_text(lines), width);
    lemma_block_after(done, block, width);
}

/// Nothing is lost in settling: what is settled and the text of the block
/// still open hold the characters of the lines, in their order.
pub proof fn lemma_settled_keeps_text(lines: Seq<Seq<char>>, width: nat)
    ensures
        settled(lines, width).flatten() + tail_text(lines) == lines.flatten(),
    decreases lines.len(),
{
    if lines.len() == 0 {
        assert(settled(lines, width).flatten() + tail_text(lines) =~= lines.flatten());
    } else {
        let shorter = lines.drop_last();
        let done = settled(shorter, width);
        lemma_settled_keeps_text(shorter, width);
        assert(shorter.push(lines.last()) =~= lines);
        shorter.lemma_flatten_push(lines.last());
        if lines.last().len() == 0 {
            let block = wrap_block(tail_text(shorter), width);
            lemma_wrap_block(tail_text(shorter), width);
            lemma_flatten_concat(done, block);
            (done + block).lemma_flatten_push(Seq::empty());
            assert(settled(lines, width).flatten() + tail_text(lines) =~= lines.flatten());
        } else {
            assert(settled(lines, width).flatten() + tail_text(lines) =~= lines.flatten());
        }
    }
}

/// Re-flowing loses nothing: the re-flowed lines hold the characters of the
/// document, in their order.
pub proof fn lemma_reflow_keeps_text(lines: Seq<Seq<char>>, width: nat)
    ensures
        reflow(lines, width).flatten() == lines.flatten(),
{
    lemma_settled_keeps_text(lines, width);
    lemma_wrap_block(tail_text(lines), width);
    lemma_flatten_concat(settled(lines, width), wrap_block(tail_text(lines), width));
}

/// What is settled of the first `j` lines stays as it is, at the start of
/// what is settled of the first `k`, for `j` up to `k`.
pub proof fn lemma_settled_grows(lines: Seq<Seq<char>>, width: nat, j: int, k: int)
    requires
        0 <= j <= k <= lines.len(),
    ensures
        settled(lines.take(j), width).is_prefix_of(settled(lines.take(k), width)),
    decreases k - j,
{
    if j < k {
        lemma_settled_grows(lines, width, j, k - 1);
        assert(lines.take(k).drop_last() =~= lines.take(k - 1));
    }
}

/// The line after the block that line `k` is in: the first empty line from
/// `k` on, or the end of the document.
pub open spec fn block_end(lines: Seq<Seq<char>>, k: int) -> int
    decreases lines.len() - k,
{
    if k >= lines.len() || lines[k].len() == 0 {
        k
    } else {
        block_end(lines, k + 1)
    }
}

/// From a line `k` within a block to the block's end nothing is settled, and
/// at the end the block's text is complete.
pub proof fn lemma_block_through(lines: Seq<Seq<char>>, width: nat, k: int)
    requires
        0 <= k <= lines.len(),
    ensures
        k <= block_end(lines, k) <= lines.len(),
        block_end(lines, k) == lines.len() || lines[block_end(lines, k)].len() == 0,
        tail_text(lines.take(block_end(lines, k))) == tail_text(lines.take(k)) + head_text(
            lines.skip(k),
        ),
        settled(lines.take(block_end(lines, k)), width) == settled(lines.take(k), width),
    decreases lines.len() - k,
{
    if k >= lines.len() || lines[k].len() == 0 {
        assert(tail_text(lines.take(k)) + head_text(lines.skip(k)) =~= tail_text(lines.take(k)));
    } else {
        lemma_block_through(lines, width, k + 1);
        assert(lines.take(k + 1).drop_last() =~= lines.take(k));
        assert(lines.skip(k).drop_first() =~= lines.skip(k + 1));
        assert(tail_text(lines.take(k + 1)) + head_text(lines.skip(k + 1)) =~= tail_text(
            lines.take(k),
        ) + head_text(lines.skip(k)));
    }
}

/// The block that holds line `k`, re-flowed, stands in the re-flowed
/// document right after what was settled before `k`, and what follows it
/// starts closed.
pub proof fn lemma_block_in_reflow(lines: Seq<Seq<char>>, width: nat, k: int)
    requires
        0 <= k < lines.len(),
        lines[k].len() > 0,
    ensures
        ({
            let done = settled(lines.take(k), width);
            let text = tail_text(lines.take(k)) + head_text(lines.skip(k));
            let block = wrap_spec(text, width);
            let all = reflow(lines, width);
            &&& text.len() > 0
            &&& (done + block).is_prefix_of(all)
            &&& starts_closed(all.skip((done + block).len() as int))
        }),
{
    let done = settled(lines.take(k), width);
    let text = tail_text(lines.take(k)) + head_text(lines.skip(k));
    let block = wrap_spec(text, width);
    let all = reflow(lines, width);
    let end = block_end(lines, k);
    lemma_block_through(lines, width, k);
    assert(lines.skip(k).first() == lines[k]);
    assert(text.len() > 0);
    assert(reflow(lines.take(end), width) == done + block);
    if end == lines.len() {
        assert(lines.take(end) =~= lines);
        assert(all.skip((done + block).len() as int) =~= Seq::empty());
    } else {
        assert(lines.take(end + 1).drop_last() =~= lines.take(end));
        assert(settled(lines.take(end + 1), width) == (done + block).push(Seq::empty()));
        lemma_settled_grows(lines, width, end + 1, lines.len() as int);
        assert(lines.take(lines.len() as int) =~= lines);
        let closed = settled(lines.take(end + 1), width);
        assert(all[(done + block).len() as int] == closed[(done + block).len() as int]);
        assert forall|i: int| 0 <= i < (done + block).len() implies (done + block)[i]
            == all[i] by {
            assert(closed[i] == all[i]);
        }
        assert((done + block) =~= all.subrange(0, (done + block).len() as int));
    }
}

/// A cursor on an empty line is on that empty line after re-flowing, and
/// stays there when the document is re-flowed again.
proof fn lemma_cursor_on_empty_line(lines: Seq<Seq<char>>, line: int, width: nat)
    requires
        0 <= line < lines.len(),
        lines[line].len() == 0,
    ensures
        ({
            let at = reflow_cursor(lines, line, 0, width);
            let all = reflow(lines, width);
            &&& at.0 < all.len()
            &&& at.1 == 0
            &&& reflow_cursor(all, at.0 as int, at.1, width) == at
            &&& chars_between(all, 0, at.0 as int) == chars_between(lines, 0, line)
        }),
{
    let above = lines.take(line);
    let all = reflow(lines, width);
    let at = reflow_cursor(lines, line, 0, width);
    let closed = settled(lines.take(line + 1), width);
    assert(lines.take(line + 1).drop_last() =~= above);
    assert(closed == reflow(above, width).push(Seq::empty()));
    lemma_settled_grows(lines, width, line + 1, lines.len() as int);
    assert(lines.take(lines.len() as int) =~= lines);
    assert(closed.is_prefix_of(all));
    assert forall|i: int| 0 <= i < closed.len() implies all[i] == closed[i] by {
        assert(all.subrange(0, closed.len() as int)[i] == all[i]);
    }
    assert(all[at.0 as int] == closed[at.0 as int]);
    assert(all.take(at.0 as int) =~= reflow(above, width)) by {
        assert forall|i: int| 0 <= i < at.0 implies all[i] == reflow(above, width)[i] by {
            assert(closed[i] == all[i]);
        }
    }
    lemma_reflow_again(above, width);
    lemma_reflow_keeps_text(above, width);
}

/// A cursor in a block is in the re-flowed block after re-flowing, and stays
/// where it is when the document is re-flowed again.
proof fn lemma_cursor_in_block(lines: Seq<Seq<char>>, line: int, column: nat, width: nat)
    requires
        0 <= line < lines.len(),
        0 < lines[line].len(),
        column <= lines[line].len(),
    ensures
        ({
            let at = reflow_cursor(lines, line, column, width);
            let all = reflow(lines, width);
            &&& at.0 < all.len()
            &&& at.1 <= all[at.0 as int].len()
            &&& reflow_cursor(all, at.0 as int, at.1, width) == at
            &&& chars_between(all, 0, at.0 as int) + at.1 == chars_between(lines, 0, line) + column
        }),
{
    let above = lines.take(line);
    let all = reflow(lines, width);
    let at = reflow_cursor(lines, line, column, width);
    let done = settled(above, width);
    let text = tail_text(above) + head_text(lines.skip(line));
    let block = wrap_spec(text, width);
    let offset = tail_text(above).len() + column;
    let found = locate(block, offset);
    let both = done + block;
    let upper = block.take(found.0 as int);
    let lower = block.skip(found.0 as int);
    let rest = all.skip(both.len() as int);
    lemma_block_in_reflow(lines, width, line);
    lemma_wrap_is_wrapping(text, width);
    assert(lines.skip(line).first() == lines[line]);
    assert(offset <= text.len());
    lemma_locate(block, offset);
    assert(at.0 == done.len() + found.0 && at.1 == found.1);
    assert forall|i: int| 0 <= i < both.len() implies all[i] == both[i] by {
        assert(all.subrange(0, both.len() as int)[i] == all[i]);
    }
    assert(all[at.0 as int] == block[found.0 as int]) by {
        assert(both[at.0 as int] == block[found.0 as int]);
    }
    assert(all.take(at.0 as int) =~= done + upper) by {
        assert forall|i: int| 0 <= i < at.0 implies all.take(at.0 as int)[i] == (done + upper)[i] by {
            assert(all[i] == both[i]);
        }
    }
    assert(all.skip(at.0 as int) =~= lower + rest) by {
        assert(all.skip(at.0 as int).len() == lower.len() + rest.len());
        assert forall|i: int| 0 <= i < lower.len() + rest.len() implies all.skip(at.0 as int)[i]
            == (lower + rest)[i] by {
            if i < lower.len() {
                assert(all[at.0 + i] == both[at.0 + i]);
            }
        }
    }
    lemma_settled_again(above, width);
    lemma_block_after(done, upper, width);
    lemma_block_before(lower, rest);
    assert(upper + lower =~= block);
    lemma_flatten_concat(upper, lower);
    assert(block.subrange(0, found.0 as int) =~= upper);
    let again = reflow_cursor(all, at.0 as int, at.1, width);
    assert(tail_text(all.take(at.0 as int)) == upper.flatten());
    assert(head_text(all.skip(at.0 as int)) == lower.flatten());
    assert(tail_text(all.take(at.0 as int)) + head_text(all.skip(at.0 as int)) == text);
    assert(settled(all.take(at.0 as int), width) == done);
    assert(upper.flatten().len() + at.1 == offset);
    lemma_settled_keeps_text(above, width);
    lemma_flatten_concat(done, upper);
}

/// The cursor of a re-flowed document is on one of its lines and within that
/// line, as many characters stand before it as stood before, and re-flowing
/// the document again leaves the cursor where it is.
pub proof fn lemma_reflow_cursor_again(lines: Seq<Seq<char>>, line: int, column: nat, width: nat)
    requires
        0 <= line < lines.len(),
        column <= lines[line].len(),
    ensures
        ({
            let at = reflow_cursor(lines, line, column, width);
            let all = reflow(lines, width);
            &&& at.0 < all.len()
            &&& at.1 <= all[at.0 as int].len()
            &&& reflow_cursor(all, at.0 as int, at.1, width) == at
            &&& chars_between(all, 0, at.0 as int) + at.1 == chars_between(lines, 0, line) + column
        }),
{
    if lines[line].len() == 0 {
        lemma_cursor_on_empty_line(lines, line, width);
    } else {
        lemma_cursor_in_block(lines, line, column, width);
    }
}

/// Lines `first` to `last` are a block: none of them is empty, and on either
/// side comes an empty line or the end of the document.
pub open spec fn is_block(lines: Seq<Seq<char>>, first: int, last: int) -> bool {
    &&& 0 <= first <= last < lines.len()
    &&& forall|i: int| first <= i <= last ==> (#[trigger] lines[i]).len() > 0
    &&& first == 0 || lines[first - 1].len() == 0
    &&& last == lines.len() - 1 || lines[last + 1].len() == 0
}

/// The document is laid out for `width`: the lines of each of its blocks are
/// the lines that the block's text is wrapped into.
pub open spec fn is_laid_out(lines: Seq<Seq<char>>, width: nat) -> bool {
    forall|first: int, last: int| #[trigger]
        is_block(lines, first, last) ==> wrap_spec(
            lines.subrange(first, last + 1).flatten(),
            width,
        ) == lines.subrange(first, last + 1)
}

/// The first line of the block that ends before line `k`: `k` itself where
/// the line before `k` is empty.
pub open spec fn block_start(lines: Seq<Seq<char>>, k: int) -> int
    decreases k,
{
    if k <= 0 || lines[k - 1].len() == 0 {
        k
    } else {
        block_start(lines, k - 1)
    }
}

/// In a document laid out for `width`, the first `k` lines re-flow to
/// themselves as far as they are settled, and what is not settled is the
/// block that they end with.
pub proof fn lemma_laid_out_prefix(lines: Seq<Seq<char>>, width: nat, k: int)
    requires
        is_laid_out(lines, width),
        0 <= k <= lines.len(),
    ensures
        0 <= block_start(lines, k) <= k,
        block_start(lines, k) == 0 || lines[block_start(lines, k) - 1].len() == 0,
        forall|i: int| block_start(lines, k) <= i < k ==> (#[trigger] lines[i]).len() > 0,
        settled(lines.take(k), width) == lines.take(block_start(lines, k)),
        tail_text(lines.take(k)) == lines.subrange(block_start(lines, k), k).flatten(),
        k == lines.len() || lines[k].len() == 0 ==> reflow(lines.take(k), width) == lines.take(k),
    decreases k,
{
    let first = block_start(lines, k);
    if k == 0 {
        assert(lines.subrange(0, 0) =~= Seq::empty());
        assert(lines.take(0) =~= Seq::empty());
    } else {
        let before = block_start(lines, k - 1);
        lemma_laid_out_prefix(lines, width, k - 1);
        assert(lines.take(k).drop_last() =~= lines.take(k - 1));
        if lines[k - 1].len() == 0 {
            assert(lines[k - 1] =~= Seq::empty());
            assert(reflow(lines.take(k - 1), width) == lines.take(k - 1));
            assert(lines.take(k - 1).push(lines[k - 1]) =~= lines.take(k));
            assert(lines.subrange(k, k) =~= Seq::empty());
            assert(settled(lines.take(k), width) == lines.take(k));
        } else {
            assert(lines.subrange(first, k - 1).push(lines[k - 1]) =~= lines.subrange(first, k));
            lines.subrange(first, k - 1).lemma_flatten_push(lines[k - 1]);
        }
    }
    if k == lines.len() || lines[k].len() == 0 {
        let block = lines.subrange(first, k);
        if first < k {
            assert(is_block(lines, first, k - 1));
            assert(block.flatten().len() > 0) by {
                assert(block =~= seq![lines[first]] + lines.subrange(first + 1, k));
                lemma_flatten_concat(seq![lines[first]], lines.subrange(first + 1, k));
                seq![lines[first]].lemma_flatten_singleton();
            }
            assert(lines.take(first) + block =~= lines.take(k));
            assert(wrap_block(block.flatten(), width) == block);
        } else {
            assert(block =~= Seq::empty());
            assert(lines.take(first) + Seq::<Seq<char>>::empty() =~= lines.take(k));
            assert(wrap_block(block.flatten(), width) =~= block);
        }
        assert(reflow(lines.take(k), width) == lines.take(first) + block);
    }
}

/// A document laid out for `width` is left as it is by re-flowing it to
/// `width`.
pub proof fn lemma_laid_out_reflow(lines: Seq<Seq<char>>, width: nat)
    requires
        is_laid_out(lines, width),
    ensures
        reflow(lines, width) == lines,
{
    lemma_laid_out_prefix(lines, width, lines.len() as int);
    assert(lines.take(lines.len() as int) =~= lines);
}

/// From line `k` to the end of its block the block's start stays the same.
proof fn lemma_block_start_through(lines: Seq<Seq<char>>, k: int)
    requires
        0 <= k <= lines.len(),
    ensures
        block_start(lines, block_end(lines, k)) == block_start(lines, k),
    decreases lines.len() - k,
{
    if !(k >= lines.len() || lines[k].len() == 0) {
        lemma_block_start_through(lines, k + 1);
    }
}

/// In a document laid out for `width`, re-flowing to `width` leaves the
/// cursor where it is, unless it stands at the start of a line that goes on
/// with the block of the line above: that position is the end of the line
/// above.
pub proof fn lemma_laid_out_cursor(lines: Seq<Seq<char>>, line: int, column: nat, width: nat)
    requires
        is_laid_out(lines, width),
        0 <= line < lines.len(),
        column <= lines[line].len(),
        column > 0 || lines[line].len() == 0 || line == 0 || lines[line - 1].len() == 0,
    ensures
        reflow_cursor(lines, line, column, width) == (line as nat, column),
{
    let first = block_start(lines, line);
    lemma_laid_out_prefix(lines, width, line);
    if lines[line].len() > 0 {
        let end = block_end(lines, line);
        lemma_block_through(lines, width, line);
        lemma_block_start_through(lines, line);
        lemma_laid_out_prefix(lines, width, end);
        assert(first < end) by {
            assert(block_end(lines, line) == block_end(lines, line + 1));
            lemma_block_through(lines, width, line + 1);
        }
        assert(is_block(lines, first, end - 1));
        let block = lines.subrange(first, end);
        let text = tail_text(lines.take(line)) + head_text(lines.skip(line));
        assert(text == block.flatten());
        assert(wrap_spec(text, width) == block);
        assert(block.subrange(0, line - first) =~= lines.subrange(first, line));
        assert(chars_between(block, 0, line - first) == tail_text(lines.take(line)).len());
        assert forall|i: int| 0 <= i < block.len() implies (#[trigger] block[i]).len() > 0 by {
            assert(block[i] == lines[first + i]);
        }
        lemma_locate_inverse(block, line - first, column as int);
    }
}

} // verus!
