//! The editing buffer: a document of lines, a cursor and a display width.
//! Every edit re-wraps the paragraph under the cursor and puts the cursor
//! back on the character it was on.

use vstd::prelude::*;
use crate::paragraph::{
    chars_between, find_position, is_paragraph_of, lemma_chars_between_mono,
    lemma_chars_between_step, lemma_locate, lemma_paragraph_bounds, lemma_run_first,
    lemma_run_last, locate, para_first, para_last, run_first, run_last,
};
use crate::reflow::{flush_block, head_text, reflow, reflow_cursor, settled, tail_text};
use crate::text::{is_separator, is_white_space, lines_of};
use crate::wrap::{lemma_wrap_lossless, wrap, wrap_spec};

verus! {

/// What an editor holds, as mathematics.
pub struct EditorState {
    /// The document, line by line.
    pub lines: Seq<Seq<char>>,
    /// The line the cursor is on.
    pub line: nat,
    /// The column the cursor asks for. On a line shorter than this the
    /// cursor stands at the line's end: see [`EditorState::col`].
    pub column: nat,
    /// The display width that paragraphs are wrapped to.
    pub width: nat,
}

impl EditorState {
    /// The document has a line, the cursor is on one of its lines, and the
    /// width is positive.
    pub open spec fn wf(self) -> bool {
        &&& self.lines.len() > 0
        &&& self.line < self.lines.len()
        &&& self.width > 0
    }

    /// The line under the cursor.
    pub open spec fn current(self) -> Seq<char> {
        self.lines[self.line as int]
    }

    /// The cursor's column: the column asked for, or the end of the line
    /// where the line is shorter.
    pub open spec fn col(self) -> nat {
        if self.column <= self.current().len() {
            self.column
        } else {
            self.current().len()
        }
    }

    /// The cursor: its line and its column.
    pub open spec fn cursor(self) -> (nat, nat) {
        (self.line, self.col())
    }

    /// The first line of the paragraph under the cursor.
    pub open spec fn first(self) -> int {
        para_first(self.lines, self.line as int)
    }

    /// The last line of the paragraph under the cursor.
    pub open spec fn last(self) -> int {
        para_last(self.lines, self.line as int)
    }

    /// The text of the paragraph under the cursor.
    pub open spec fn paragraph(self) -> Seq<char> {
        self.lines.subrange(self.first(), self.last() + 1).flatten()
    }

    /// The cursor's position in the paragraph under it, in characters from
    /// the paragraph's start.
    pub open spec fn offset(self) -> nat {
        chars_between(self.lines, self.first(), self.line as int) + self.col()
    }

    /// The state with the paragraph under the cursor wrapped anew to the
    /// width, the lines around it untouched, and the cursor at the position
    /// in the paragraph that it had.
    pub open spec fn rewrapped(self) -> EditorState {
        let wrapped = wrap_spec(self.paragraph(), self.width);
        let at = locate(wrapped, self.offset());
        EditorState {
            lines: self.lines.subrange(0, self.first()) + wrapped + self.lines.subrange(
                self.last() + 1,
                self.lines.len() as int,
            ),
            line: (self.first() + at.0) as nat,
            column: at.1,
            width: self.width,
        }
    }

    /// The state after character `c` is typed: it is inserted at the cursor,
    /// the cursor moves past it, and the paragraph is wrapped anew.
    pub open spec fn inserted(self, c: char) -> EditorState {
        EditorState {
            lines: self.lines.update(self.line as int, self.current().insert(self.col() as int, c)),
            column: self.col() + 1,
            ..self
        }.rewrapped()
    }

    /// The state after the character before the cursor is deleted. At the
    /// start of a line there is none, and nothing changes.
    pub open spec fn backspaced(self) -> EditorState {
        if self.col() == 0 {
            self
        } else {
            EditorState {
                lines: self.lines.update(
                    self.line as int,
                    self.current().remove(self.col() - 1),
                ),
                column: (self.col() - 1) as nat,
                ..self
            }.rewrapped()
        }
    }

    /// The state after the line is split at the cursor: what stood before the
    /// cursor stays, the rest becomes the next line, and the cursor goes to
    /// the start of that line.
    pub open spec fn split(self) -> EditorState {
        EditorState {
            lines: self.lines.update(
                self.line as int,
                self.current().subrange(0, self.col() as int),
            ).insert(
                self.line as int + 1,
                self.current().subrange(self.col() as int, self.current().len() as int),
            ),
            line: self.line + 1,
            column: 0,
            ..self
        }
    }

    /// The state after the width is changed to `width`: the whole document
    /// is re-flowed, and the cursor keeps its position in the text.
    pub open spec fn resized(self, width: nat) -> EditorState {
        let at = reflow_cursor(self.lines, self.line as int, self.col(), width);
        EditorState { lines: reflow(self.lines, width), line: at.0, column: at.1, width }
    }

    /// The cursor is on the last line.
    pub open spec fn on_last_line(self) -> bool {
        self.line == self.lines.len() - 1
    }

    /// The cursor is at the end of its line.
    pub open spec fn at_line_end(self) -> bool {
        self.col() == self.current().len()
    }

    /// The state after a step to the left: one column back, from the start of
    /// a line to the end of the line above, and nowhere from the start of the
    /// document.
    pub open spec fn moved_left(self) -> EditorState {
        if self.col() > 0 {
            EditorState { column: (self.col() - 1) as nat, ..self }
        } else if self.line > 0 {
            EditorState {
                line: (self.line - 1) as nat,
                column: self.lines[self.line - 1].len(),
                ..self
            }
        } else {
            self
        }
    }

    /// The state after a step to the right: one column on, from the end of a
    /// line to the start of the line below, and nowhere from the end of the
    /// document.
    pub open spec fn moved_right(self) -> EditorState {
        if !self.at_line_end() {
            EditorState { column: self.col() + 1, ..self }
        } else if !self.on_last_line() {
            EditorState { line: self.line + 1, column: 0, ..self }
        } else {
            self
        }
    }

    /// The state after a step up: the line above, the column asked for kept;
    /// on the first line, the start of the line.
    pub open spec fn moved_up(self) -> EditorState {
        if self.line == 0 {
            EditorState { column: 0, ..self }
        } else {
            EditorState { line: (self.line - 1) as nat, ..self }
        }
    }

    /// The state after a step down: the line below, the column asked for
    /// kept; on the last line, the end of the line.
    pub open spec fn moved_down(self) -> EditorState {
        if self.on_last_line() {
            EditorState { column: self.current().len(), ..self }
        } else {
            EditorState { line: self.line + 1, ..self }
        }
    }

    /// The document as one text: its lines with a line break between each
    /// two.
    pub open spec fn rendered(self) -> Seq<char> {
        joined(self.lines)
    }
}

/// The lines with a line break between each two.
pub open spec fn joined(lines: Seq<Seq<char>>) -> Seq<char>
    decreases lines.len(),
{
    if lines.len() == 0 {
        Seq::empty()
    } else if lines.len() == 1 {
        lines[0]
    } else {
        joined(lines.drop_last()).push('\n') + lines.last()
    }
}

/// An editing buffer with a cursor.
#[derive(Debug)]
pub struct Editor {
    buffer: Vec<Vec<char>>,
    line: usize,
    column: usize,
    width: usize,
}

impl View for Editor {
    type V = EditorState;

    closed spec fn view(&self) -> EditorState {
        EditorState {
            lines: lines_of(self.buffer@),
            line: self.line as nat,
            column: self.column as nat,
            width: self.width as nat,
        }
    }
}

/// Re-wrapping keeps a valid state valid, and the cursor's column lies within
/// its line afterwards.
pub proof fn lemma_rewrapped_wf(s: EditorState)
    requires
        s.wf(),
    ensures
        s.rewrapped().wf(),
        s.rewrapped().column <= s.rewrapped().current().len(),
        0 <= s.first() <= s.line <= s.last() < s.lines.len(),
        s.offset() <= s.paragraph().len(),
{
    let k = s.line as int;
    lemma_run_first(s.lines, k);
    lemma_run_last(s.lines, k);
    lemma_wrap_lossless(s.paragraph(), s.width);
    lemma_chars_between_mono(s.lines, s.first(), k, s.last() + 1);
    lemma_chars_between_step(s.lines, k, k);
    lemma_chars_between_mono(s.lines, k, k + 1, s.last() + 1);
    assert(s.lines.subrange(k, k) =~= Seq::empty());
    lemma_locate(wrap_spec(s.paragraph(), s.width), s.offset());
}

impl Editor {
    /// An editor with one empty line, the cursor at its start.
    pub fn new(width: usize) -> (editor: Editor)
        requires
            width > 0,
        ensures
            editor@ == (EditorState {
                lines: seq![Seq::empty()],
                line: 0,
                column: 0,
                width: width as nat,
            }),
            editor@.wf(),
    {
        let mut buffer: Vec<Vec<char>> = Vec::new();
        buffer.push(Vec::new());
        let editor = Editor { buffer, line: 0, column: 0, width };
        assert(editor@.lines =~= seq![Seq::empty()]);
        editor
    }

    /// The document as one text, a line break between each two lines.
    pub fn render(&self) -> (text: String)
        ensures
            text@ == self@.rendered(),
    {
        let ghost lines = self@.lines;
        let mut text = String::new();
        let mut i: usize = 0;
        assert(lines.take(0) =~= Seq::empty());
        while i < self.buffer.len()
            invariant
                lines == lines_of(self.buffer@),
                i <= self.buffer.len(),
                text@ == joined(lines.take(i as int)),
            decreases self.buffer.len() - i,
        {
            if i > 0 {
                text.push('\n');
            }
            let ghost start = text@;
            let line = &self.buffer[i];
            let mut j: usize = 0;
            while j < line.len()
                invariant
                    j <= line.len(),
                    text@ == start + line@.take(j as int),
                decreases line.len() - j,
            {
                text.push(line[j]);
                assert(line@.take(j as int).push(line@[j as int]) =~= line@.take(j + 1));
                j += 1;
            }
            proof {
                assert(line@.take(line.len() as int) =~= line@);
                assert(lines.take(i + 1).drop_last() =~= lines.take(i as int));
                assert(Seq::<char>::empty() + line@ =~= line@);
            }
            i += 1;
        }
        assert(lines.take(self.buffer.len() as int) =~= lines);
        text
    }

    /// Changes the width and re-flows the document to it.
    pub fn resize(&mut self, width: usize)
        requires
            old(self)@.wf(),
            width > 0,
        ensures
            final(self)@ == old(self)@.resized(width as nat),
            final(self)@.wf(),
            final(self)@.column == final(self)@.col(),
    {
        let ghost lines = self@.lines;
        let ghost w = width as nat;
        let ghost goal = reflow_cursor(lines, self.line as int, self@.col(), w);
        let ghost text = tail_text(lines.take(self.line as int)) + head_text(
            lines.skip(self.line as int),
        );
        let column = self.cursor().1;
        let n = self.buffer.len();
        let mut out: Vec<Vec<char>> = Vec::new();
        let mut pending: Vec<char> = Vec::new();
        let mut in_block = false;
        let mut offset: usize = 0;
        let mut new_line: usize = 0;
        let mut new_column: usize = 0;
        let mut i: usize = 0;
        assert(lines.take(0) =~= Seq::empty());
        assert(lines_of(out@) =~= Seq::empty());
        while i < n
            invariant
                lines == lines_of(self.buffer@),
                n == self.buffer.len(),
                i <= n,
                self.line < n,
                column == old(self)@.col(),
                self.line == old(self).line,
                w == width,
                goal == reflow_cursor(lines, self.line as int, column as nat, w),
                text == tail_text(lines.take(self.line as int)) + head_text(
                    lines.skip(self.line as int),
                ),
                lines_of(out@) == settled(lines.take(i as int), w),
                pending@ == tail_text(lines.take(i as int)),
                i <= self.line ==> !in_block,
                i > self.line && !in_block ==> {
                    &&& (new_line as nat, new_column as nat) == goal
                    &&& new_line < out@.len()
                    &&& new_column <= lines_of(out@)[new_line as int].len()
                },
                in_block ==> {
                    &&& lines[self.line as int].len() > 0
                    &&& pending@ + head_text(lines.skip(i as int)) == text
                    &&& offset == tail_text(lines.take(self.line as int)).len() + column
                    &&& offset <= pending@.len()
                    &&& out@.len() == settled(lines.take(self.line as int), w).len()
                },
            decreases n - i,
        {
            let ghost done = lines_of(out@);
            let ghost block = pending@;
            proof {
                assert(lines.take(i + 1).drop_last() =~= lines.take(i as int));
                assert(lines.skip(i as int).drop_first() =~= lines.skip(i + 1));
            }
            if self.buffer[i].len() == 0 {
                proof {
                    assert(block + Seq::<char>::empty() =~= block);
                }
                let at = flush_block(&mut out, &pending, width, if in_block { offset } else { 0 });
                assert(forall|k: int| 0 <= k < done.len() ==> lines_of(out@)[k] == done[k]);
                if in_block {
                    new_line = at.0;
                    new_column = at.1;
                    in_block = false;
                }
                pending = Vec::new();
                if i == self.line {
                    new_line = out.len();
                    new_column = 0;
                }
                let ghost flushed = lines_of(out@);
                out.push(Vec::new());
                assert(lines_of(out@) =~= flushed.push(Seq::empty()));
                assert(i >= self.line ==> new_column <= lines_of(out@)[new_line as int].len());
            } else {
                let line = &self.buffer[i];
                let mut j: usize = 0;
                while j < line.len()
                    invariant
                        j <= line.len(),
                        pending@ == block + line@.take(j as int),
                    decreases line.len() - j,
                {
                    pending.push(line[j]);
                    assert(line@.take(j as int).push(line@[j as int]) =~= line@.take(j + 1));
                    j += 1;
                }
                proof {
                    assert(line@.take(line.len() as int) =~= line@);
                    assert(pending@ + head_text(lines.skip(i + 1)) =~= block + head_text(
                        lines.skip(i as int),
                    ));
                }
                if i == self.line {
                    offset = pending.len() - (line.len() - column);
                    in_block = true;
                }
            }
            i += 1;
        }
        proof {
            assert(lines.take(n as int) =~= lines);
            assert(pending@ + Seq::<char>::empty() =~= pending@);
            assert(lines.skip(n as int) =~= Seq::empty());
        }
        let ghost done = lines_of(out@);
        let at = flush_block(&mut out, &pending, width, if in_block { offset } else { 0 });
        assert(forall|k: int| 0 <= k < done.len() ==> lines_of(out@)[k] == done[k]);
        if in_block {
            new_line = at.0;
            new_column = at.1;
        }
        assert(new_column <= lines_of(out@)[new_line as int].len());
        self.buffer = out;
        self.line = new_line;
        self.column = new_column;
        self.width = width;
    }

    /// The cursor: its line, and its column within that line.
    pub fn cursor(&self) -> (at: (usize, usize))
        requires
            self@.wf(),
        ensures
            (at.0 as nat, at.1 as nat) == self@.cursor(),
            at.0 < self@.lines.len(),
            at.1 <= self@.lines[at.0 as int].len(),
    {
        let len = self.buffer[self.line].len();
        (self.line, if self.column <= len { self.column } else { len })
    }

    /// Types `c` at the cursor.
    pub fn add(&mut self, c: char)
        requires
            old(self)@.wf(),
        ensures
            final(self)@ == old(self)@.inserted(c),
            final(self)@.wf(),
    {
        let column = self.cursor().1;
        if self.at_end_of_line() {
            self.buffer[self.line].push(c);
        } else {
            self.buffer[self.line].insert(column, c);
        }
        assert(column < self.buffer[self.line as int].len());
        self.column = column + 1;
        proof {
            let s = old(self)@;
            assert(s.current().push(c) =~= s.current().insert(s.current().len() as int, c));
            assert(self@.lines =~= s.lines.update(
                s.line as int,
                s.current().insert(s.col() as int, c),
            ));
        }
        self.rewrap_current_para();
    }

    /// Deletes the character before the cursor, if the line has one there.
    pub fn backspace(&mut self)
        requires
            old(self)@.wf(),
        ensures
            final(self)@ == old(self)@.backspaced(),
            final(self)@.wf(),
    {
        if self.at_start_of_line() {
            return ;
        }
        let column = self.cursor().1;
        self.buffer[self.line].remove(column - 1);
        self.column = column - 1;
        proof {
            let s = old(self)@;
            assert(self@.lines =~= s.lines.update(
                s.line as int,
                s.current().remove(s.col() - 1),
            ));
        }
        self.rewrap_current_para();
    }

    /// Splits the line at the cursor.
    pub fn enter(&mut self)
        requires
            old(self)@.wf(),
        ensures
            final(self)@ == old(self)@.split(),
            final(self)@.wf(),
    {
        let column = self.cursor().1;
        let after_cursor = self.buffer[self.line].split_off(column);
        assert(self.line < self.buffer.len());
        self.buffer.insert(self.line + 1, after_cursor);
        self.line += 1;
        self.column = 0;
        proof {
            let s = old(self)@;
            assert(self@.lines =~= s.split().lines);
        }
    }

    /// Moves the cursor one step to the left.
    pub fn move_left(&mut self)
        requires
            old(self)@.wf(),
        ensures
            final(self)@ == old(self)@.moved_left(),
            final(self)@.wf(),
    {
        if self.at_start_of_buffer() {
            return ;
        }
        if self.at_start_of_line() {
            self.line -= 1;
            self.move_to_end_of_line();
            return ;
        }
        self.column = self.cursor().1 - 1;
    }

    /// Moves the cursor one step to the right.
    pub fn move_right(&mut self)
        requires
            old(self)@.wf(),
        ensures
            final(self)@ == old(self)@.moved_right(),
            final(self)@.wf(),
    {
        if self.at_end_of_buffer() {
            return ;
        }
        assert(self.line < self.buffer.len());
        if self.at_end_of_line() {
            self.line += 1;
            self.column = 0;
            return ;
        }
        assert(self@.col() < self.buffer[self.line as int].len());
        self.column = self.cursor().1 + 1;
    }

    /// Moves the cursor one line up.
    pub fn move_up(&mut self)
        requires
            old(self)@.wf(),
        ensures
            final(self)@ == old(self)@.moved_up(),
            final(self)@.wf(),
    {
        if self.at_first_line() {
            self.column = 0;
            return ;
        }
        self.line -= 1;
    }

    /// Moves the cursor one line down.
    pub fn move_down(&mut self)
        requires
            old(self)@.wf(),
        ensures
            final(self)@ == old(self)@.moved_down(),
            final(self)@.wf(),
    {
        if self.at_last_line() {
            self.move_to_end_of_line();
            return ;
        }
        assert(self.line < self.buffer.len());
        self.line += 1;
    }

    /// Puts the cursor at the end of its line.
    pub fn move_to_end_of_line(&mut self)
        requires
            old(self)@.wf(),
        ensures
            final(self)@ == (EditorState { column: old(self)@.current().len(), ..old(self)@ }),
    {
        self.column = self.buffer[self.line].len();
    }

    /// Whether the cursor is at the very start of the document.
    pub fn at_start_of_buffer(&self) -> (b: bool)
        requires
            self@.wf(),
        ensures
            b == (self@.line == 0 && self@.col() == 0),
    {
        self.at_first_line() && self.at_start_of_line()
    }

    /// Whether the cursor is at the very end of the document.
    pub fn at_end_of_buffer(&self) -> (b: bool)
        requires
            self@.wf(),
        ensures
            b == (self@.on_last_line() && self@.at_line_end()),
    {
        self.at_last_line() && self.at_end_of_line()
    }

    /// Whether the cursor is at the start of its line.
    pub fn at_start_of_line(&self) -> (b: bool)
        requires
            self@.wf(),
        ensures
            b == (self@.col() == 0),
    {
        self.column == 0 || self.buffer[self.line].len() == 0
    }

    /// Whether the cursor is at the end of its line.
    pub fn at_end_of_line(&self) -> (b: bool)
        requires
            self@.wf(),
        ensures
            b == self@.at_line_end(),
    {
        self.buffer[self.line].len() <= self.column
    }

    /// Whether the cursor is on the first line.
    pub fn at_first_line(&self) -> (b: bool)
        ensures
            b == (self@.line == 0),
    {
        self.line == 0
    }

    /// Whether the cursor is on the last line.
    pub fn at_last_line(&self) -> (b: bool)
        requires
            self@.wf(),
        ensures
            b == self@.on_last_line(),
    {
        self.line == self.buffer.len() - 1
    }

    /// Tells whether `line` separates paragraphs: whether it is empty or
    /// holds white space only.
    pub fn is_line_para_separator(line: &Vec<char>) -> (b: bool)
        ensures
            b == is_separator(line@),
    {
        let mut i: usize = 0;
        while i < line.len()
            invariant
                i <= line.len(),
                forall|j: int| 0 <= j < i ==> is_white_space(#[trigger] line@[j]),
            decreases line.len() - i,
        {
            if !line[i].is_whitespace() {
                return false;
            }
            i += 1;
        }
        true
    }

    /// The first and the last line of the paragraph under the cursor.
    pub fn current_para_idx(&self) -> (range: (usize, usize))
        requires
            self@.wf(),
        ensures
            range.0 == self@.first(),
            range.1 == self@.last(),
            is_paragraph_of(self@.lines, self@.line as int, range.0 as int, range.1 as int),
    {
        let ghost lines = self@.lines;
        proof {
            lemma_paragraph_bounds(lines, self.line as int);
            lemma_run_first(lines, self.line as int);
            lemma_run_last(lines, self.line as int);
        }
        if Self::is_line_para_separator(&self.buffer[self.line]) {
            return (self.line, self.line);
        }
        let mut first: usize = self.line;
        while first > 0 && !Self::is_line_para_separator(&self.buffer[first - 1])
            invariant
                lines == lines_of(self.buffer@),
                first <= self.line < self.buffer.len(),
                run_first(lines, first as int) == run_first(lines, self.line as int),
            decreases first,
        {
            first -= 1;
        }
        let mut last: usize = self.line;
        while last + 1 < self.buffer.len() && !Self::is_line_para_separator(&self.buffer[last + 1])
            invariant
                lines == lines_of(self.buffer@),
                self.line <= last < self.buffer.len(),
                run_last(lines, last as int) == run_last(lines, self.line as int),
            decreases self.buffer.len() - last,
        {
            last += 1;
        }
        (first, last)
    }

    /// Wraps the paragraph under the cursor anew and puts the cursor back on
    /// its position in the paragraph.
    pub fn rewrap_current_para(&mut self)
        requires
            old(self)@.wf(),
        ensures
            final(self)@ == old(self)@.rewrapped(),
            final(self)@.wf(),
            final(self)@.column == final(self)@.col(),
    {
        let ghost s = self@;
        let ghost lines = s.lines;
        proof {
            lemma_rewrapped_wf(s);
        }
        let (first, last) = self.current_para_idx();
        assert(last < self.buffer.len());
        let mut wrapped = wrap(&self.buffer[first..last + 1], self.width);
        proof {
            assert(lines_of(self.buffer@.subrange(first as int, last + 1)) =~= lines.subrange(
                first as int,
                last + 1,
            ));
            lemma_chars_between_mono(lines, first as int, self.line as int, last + 1);
            lemma_chars_between_step(lines, self.line as int, self.line as int);
            lemma_chars_between_mono(lines, self.line as int, self.line + 1, last + 1);
            assert(lines.subrange(self.line as int, self.line as int) =~= Seq::empty());
            assert(lines.subrange(first as int, first as int) =~= Seq::empty());
        }
        let mut offset: usize = 0;
        let mut i: usize = first;
        while i < self.line
            invariant
                lines == lines_of(self.buffer@),
                first <= i <= self.line <= last < self.buffer@.len(),
                offset == chars_between(lines, first as int, i as int),
                chars_between(lines, first as int, self.line as int) <= usize::MAX,
            decreases self.line - i,
        {
            proof {
                lemma_chars_between_step(lines, first as int, i as int);
                lemma_chars_between_mono(lines, first as int, i + 1, self.line as int);
            }
            offset += self.buffer[i].len();
            i += 1;
        }
        let len = self.buffer[self.line].len();
        offset += if self.column <= len { self.column } else { len };
        let at = find_position(&wrapped, offset);
        let ghost new_lines = lines_of(wrapped@);
        let ghost count = wrapped@.len();
        let mut tail = self.buffer.split_off(last + 1);
        self.buffer.truncate(first);
        self.buffer.append(&mut wrapped);
        self.buffer.append(&mut tail);
        assert(first + count <= self.buffer.len());
        self.line = first + at.0;
        self.column = at.1;
        proof {
            assert(lines_of(self.buffer@) =~= lines.subrange(0, first as int) + new_lines
                + lines.subrange(last + 1, lines.len() as int));
        }
    }
}

} // verus!
