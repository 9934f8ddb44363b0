//! Characters and lines: the whitespace classification that word-wrap and
//! paragraph detection rest on, and the conversion of characters to a `String`.

use vstd::prelude::*;

verus! {

/// Whether `c` is white space: the value that `char::is_whitespace` returns
/// for it (the Unicode `White_Space` property).
pub uninterp spec fn is_white_space(c: char) -> bool;

/// `char::is_whitespace` depends on the character alone; its result is
/// [`is_white_space`].
pub assume_specification[ char::is_whitespace ](c: char) -> (b: bool)
    ensures
        b == is_white_space(c),
;

/// `String::push` appends the character to the end of the string.
pub assume_specification[ String::push ](s: &mut String, c: char)
    ensures
        final(s)@ == old(s)@.push(c),
;

/// The lines held by a vector of character vectors.
pub open spec fn lines_of(lines: Seq<Vec<char>>) -> Seq<Seq<char>> {
    Seq::new(lines.len(), |i: int| lines[i]@)
}

/// A separator line is empty or consists of white space only.
pub open spec fn is_separator(line: Seq<char>) -> bool {
    forall|i: int| 0 <= i < line.len() ==> is_white_space(#[trigger] line[i])
}

/// The characters of `chars` as a `String`.
pub fn to_string(chars: &Vec<char>) -> (s: String)
    ensures
        s@ == chars@,
{
    let mut s = String::new();
    let mut i: usize = 0;
    while i < chars.len()
        invariant
            i <= chars.len(),
            s@ == chars@.take(i as int),
        decreases chars.len() - i,
    {
        s.push(chars[i]);
        assert(chars@.take(i as int).push(chars@[i as int]) =~= chars@.take(i + 1));
        i += 1;
    }
    assert(chars@.take(chars.len() as int) =~= chars@);
    s
}

} // verus!
