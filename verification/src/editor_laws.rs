//! What holds of the editor whatever is typed: moving the cursor never
//! changes the text, and setting the width that is already set changes
//! neither text nor cursor once the document has been re-flowed to it.

use vstd::prelude::*;
use vstd::seq_lib::lemma_flatten_concat;
use crate::editor::{lemma_rewrapped_wf, EditorState};
use crate::paragraph::{chars_between, lemma_chars_between_mono, lemma_locate, locate};
use crate::reflow_laws::{
    is_laid_out, lemma_laid_out_cursor, lemma_laid_out_reflow, lemma_reflow_again,
    lemma_reflow_cursor_again, lemma_reflow_keeps_text,
};
use crate::wrap::{lemma_wrap_lossless, wrap_spec};

verus! {

/// A step of the cursor.
pub enum Move {
    Left,
    Right,
    Up,
    Down,
}

/// The state after one step of the cursor.
pub open spec fn moved(s: EditorState, step: Move) -> EditorState {
    match step {
        Move::Left => s.moved_left(),
        Move::Right => s.moved_right(),
        Move::Up => s.moved_up(),
        Move::Down => s.moved_down(),
    }
}

/// The state after the steps of `steps`, one after the other.
pub open spec fn navigated(s: EditorState, steps: Seq<Move>) -> EditorState
    decreases steps.len(),
{
    if steps.len() == 0 {
        s
    } else {
        moved(navigated(s, steps.drop_last()), steps.last())
    }
}

/// Moving the cursor, however often and in whatever direction, leaves the
/// document, its rendering and the width as they are, and the state valid.
pub proof fn lemma_navigation_keeps_text(s: EditorState, steps: Seq<Move>)
    requires
        s.wf(),
    ensures
        navigated(s, steps).wf(),
        navigated(s, steps).lines == s.lines,
        navigated(s, steps).rendered() == s.rendered(),
        navigated(s, steps).width == s.width,
    decreases steps.len(),
{
    if steps.len() > 0 {
        lemma_navigation_keeps_text(s, steps.drop_last());
    }
}

/// Setting a width leaves a valid state valid, with the cursor's column
/// within its line.
pub proof fn lemma_resized_wf(s: EditorState, width: nat)
    requires
        s.wf(),
        width > 0,
    ensures
        s.resized(width).wf(),
        s.resized(width).column == s.resized(width).col(),
{
    lemma_reflow_cursor_again(s.lines, s.line as int, s.col(), width);
}

/// Once a width has been set, setting it again changes nothing: not the
/// document, not its rendering, not the cursor.
pub proof fn lemma_resize_again(s: EditorState, width: nat)
    requires
        s.wf(),
        width > 0,
    ensures
        s.resized(width).resized(width) == s.resized(width),
        s.resized(width).resized(width).rendered() == s.resized(width).rendered(),
        s.resized(width).resized(width).cursor() == s.resized(width).cursor(),
{
    lemma_reflow_cursor_again(s.lines, s.line as int, s.col(), width);
    lemma_reflow_again(s.lines, width);
}

/// Setting a width keeps the document's text, character for character, and
/// keeps the cursor on its place in that text: as many characters stand
/// before it as stood before.
pub proof fn lemma_resize_keeps_position(s: EditorState, width: nat)
    requires
        s.wf(),
        width > 0,
    ensures
        s.resized(width).lines.flatten() == s.lines.flatten(),
        chars_between(s.resized(width).lines, 0, s.resized(width).line as int) + s.resized(
            width,
        ).col() == chars_between(s.lines, 0, s.line as int) + s.col(),
{
    lemma_reflow_keeps_text(s.lines, width);
    lemma_reflow_cursor_again(s.lines, s.line as int, s.col(), width);
}

/// Setting the width that is set changes nothing in a document that is laid
/// out for it: the document, its rendering and the cursor stay as they are.
/// The one cursor that moves is one at the start of a line that goes on
/// with the block of the line above; it is left out here.
pub proof fn lemma_resize_same_width(s: EditorState)
    requires
        s.wf(),
        is_laid_out(s.lines, s.width),
        s.col() > 0 || s.current().len() == 0 || s.line == 0 || s.lines[s.line - 1].len() == 0,
    ensures
        s.resized(s.width).lines == s.lines,
        s.resized(s.width).rendered() == s.rendered(),
        s.resized(s.width).cursor() == s.cursor(),
        s.resized(s.width).width == s.width,
{
    lemma_laid_out_reflow(s.lines, s.width);
    lemma_laid_out_cursor(s.lines, s.line as int, s.col(), s.width);
}

/// Wrapping the paragraph under the cursor anew keeps the document's text,
/// character for character, and keeps the cursor on its place in that text:
/// as many characters stand before it as stood before.
pub proof fn lemma_rewrap_keeps_position(s: EditorState)
    requires
        s.wf(),
    ensures
        s.rewrapped().lines.flatten() == s.lines.flatten(),
        chars_between(s.rewrapped().lines, 0, s.rewrapped().line as int) + s.rewrapped().col()
            == chars_between(s.lines, 0, s.line as int) + s.col(),
{
    let first = s.first();
    let last = s.last();
    let above = s.lines.subrange(0, first);
    let below = s.lines.subrange(last + 1, s.lines.len() as int);
    let old_lines = s.lines.subrange(first, last + 1);
    let new_lines = wrap_spec(s.paragraph(), s.width);
    let at = locate(new_lines, s.offset());
    let t = s.rewrapped();
    lemma_rewrapped_wf(s);
    lemma_wrap_lossless(s.paragraph(), s.width);
    lemma_locate(new_lines, s.offset());
    assert(above + old_lines + below =~= s.lines);
    lemma_flatten_concat(above, old_lines);
    lemma_flatten_concat(above + old_lines, below);
    lemma_flatten_concat(above, new_lines);
    lemma_flatten_concat(above + new_lines, below);
    lemma_chars_between_mono(s.lines, 0, first, s.line as int);
    lemma_chars_between_mono(t.lines, 0, first, t.line as int);
    assert(t.lines.subrange(0, first) =~= above);
    assert(t.lines.subrange(first, t.line as int) =~= new_lines.subrange(0, at.0 as int));
}

} // verus!
