use nunitius::text::to_string;
use nunitius::wrap::{text_of, wrap, wrap_text};

fn chars_of(text: &str) -> Vec<char> {
    text.chars().collect()
}

fn fragments_of(fragments: &[&str]) -> Vec<Vec<char>> {
    fragments.iter().map(|f| chars_of(f)).collect()
}

fn wrapped(fragments: &[&str], width: usize) -> Vec<String> {
    wrap(&fragments_of(fragments), width).iter().map(to_string).collect()
}

#[test]
fn wrap_of_empty_text_is_one_empty_line() {
    assert_eq!(wrapped(&[], 5), vec![""]);
    assert_eq!(wrapped(&[""], 5), vec![""]);
    assert_eq!(wrapped(&["", ""], 1), vec![""]);
}

#[test]
fn wrap_at_width_one_puts_the_gap_on_its_own_line() {
    assert_eq!(wrapped(&["a b"], 1), vec!["a", " ", "b"]);
}

#[test]
fn wrap_keeps_trailing_gap_on_the_earlier_line() {
    assert_eq!(wrapped(&["foo bar baz"], 8), vec!["foo bar ", "baz"]);
    assert_eq!(wrapped(&["foo bar"], 5), vec!["foo ", "bar"]);
}

#[test]
fn wrap_joins_fragments_without_separator() {
    assert_eq!(wrapped(&["foo ", "bar"], 8), vec!["foo bar"]);
    assert_eq!(wrapped(&["fo", "o b", "ar"], 4), vec!["foo ", "bar"]);
    assert_eq!(wrapped(&["a", " ", "b"], 3), vec!["a b"]);
}

#[test]
fn wrap_lets_a_long_token_overflow() {
    assert_eq!(wrapped(&["abcdef gh"], 3), vec!["abcdef", " gh"]);
    assert_eq!(wrapped(&["ab abcdef"], 3), vec!["ab ", "abcdef"]);
    assert_eq!(wrapped(&["abc"], 2), vec!["abc"]);
    assert_eq!(wrapped(&["a    b"], 2), vec!["a", "    ", "b"]);
}

#[test]
fn wrap_fills_a_line_exactly_to_the_width() {
    assert_eq!(wrapped(&["ab cd ef"], 5), vec!["ab cd", " ef"]);
    assert_eq!(wrapped(&["ab cd ef"], 6), vec!["ab cd ", "ef"]);
    assert_eq!(wrapped(&["ab cd ef"], 8), vec!["ab cd ef"]);
}

#[test]
fn wrap_at_width_zero_gives_each_token_a_line() {
    assert_eq!(wrapped(&["ab  c"], 0), vec!["ab", "  ", "c"]);
}

#[test]
fn wrap_counts_characters_not_bytes() {
    assert_eq!(wrapped(&["héllo wörld"], 6), vec!["héllo ", "wörld"]);
    assert_eq!(wrapped(&["日本語 テキスト"], 4), vec!["日本語 ", "テキスト"]);
}

#[test]
fn wrap_treats_every_unicode_white_space_as_gap() {
    assert_eq!(wrapped(&["a\u{a0}b"], 1), vec!["a", "\u{a0}", "b"]);
    assert_eq!(wrapped(&["a\tb\u{2003}c"], 1), vec!["a", "\t", "b", "\u{2003}", "c"]);
    assert_eq!(wrapped(&["a-b_c"], 1), vec!["a-b_c"]);
}

#[test]
fn wrap_is_lossless() {
    let inputs: [&[&str]; 4] =
        [&["the quick ", "brown fox"], &["  lead", "ing"], &["x"], &["a  b   c    d"]];
    for fragments in inputs {
        for width in 1..12 {
            let lines = wrap(&fragments_of(fragments), width);
            assert_eq!(text_of(&lines), text_of(&fragments_of(fragments)));
            assert_eq!(to_string(&text_of(&lines)), fragments.join(""));
        }
    }
}

#[test]
fn wrap_is_greedy() {
    let lines = wrapped(&["the quick brown fox jumps"], 10);
    assert_eq!(lines, vec!["the quick ", "brown fox ", "jumps"]);
    // "the quick " and "brown": 10 + 5 > 10; "brown fox " and "jumps": 10 + 5 > 10.
    let lines = wrapped(&["aa bb cc dd"], 4);
    assert_eq!(lines, vec!["aa ", "bb ", "cc ", "dd"]);
}

#[test]
fn wrap_of_wrapped_lines_is_the_same_lines() {
    for width in 1..12 {
        let once = wrap(&fragments_of(&["the quick brown  fox   jumps over"]), width);
        let twice = wrap(&once, width);
        assert_eq!(once, twice);
    }
}

#[test]
fn wrap_text_agrees_with_wrap() {
    let text = chars_of("one two  three");
    assert_eq!(wrap_text(&text, 4), wrap(&[text.clone()], 4));
    assert_eq!(
        wrap_text(&text, 4).iter().map(to_string).collect::<Vec<String>>(),
        vec!["one ", "two", "  ", "three"]
    );
}

#[test]
fn text_of_puts_fragments_end_to_end() {
    assert_eq!(to_string(&text_of(&fragments_of(&["ab", "", "c d"]))), "abc d");
    assert_eq!(text_of(&fragments_of(&[])), Vec::<char>::new());
}

#[test]
fn to_string_keeps_every_character() {
    assert_eq!(to_string(&chars_of("a\nb é")), "a\nb é");
    assert_eq!(to_string(&Vec::new()), "");
}
