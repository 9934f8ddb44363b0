use nunitius::editor::Editor;
use nunitius::paragraph::find_position;

fn lines_of_strs(lines: &[&str]) -> Vec<Vec<char>> {
    lines.iter().map(|l| l.chars().collect()).collect()
}

fn typed(width: usize, text: &str) -> Editor {
    let mut editor = Editor::new(width);
    for c in text.chars() {
        if c == '\n' {
            editor.enter();
        } else {
            editor.add(c);
        }
    }
    editor
}

/// An editor that holds exactly `lines`, wide enough that nothing wraps: the
/// text is typed as one line, which is then split from the back.
fn document(lines: &[&str]) -> Editor {
    let mut editor = Editor::new(1000);
    for c in lines.join("").chars() {
        editor.add(c);
    }
    for i in (1..lines.len()).rev() {
        let column: usize = lines[..i].iter().map(|l| l.chars().count()).sum();
        editor.move_up();
        editor.move_up();
        for _ in 0..column {
            editor.move_right();
        }
        editor.enter();
    }
    editor
}

#[test]
fn new_editor_is_one_empty_line() {
    let editor = Editor::new(7);
    assert_eq!(editor.render(), "");
    assert_eq!(editor.cursor(), (0, 0));
    assert!(editor.at_start_of_buffer());
    assert!(editor.at_end_of_buffer());
    assert!(editor.at_first_line());
    assert!(editor.at_last_line());
    assert_eq!(editor.current_para_idx(), (0, 0));
}

#[test]
fn long_word_is_not_split() {
    let mut editor = Editor::new(2);

    editor.add('a');
    editor.add('b');
    assert_eq!(editor.cursor(), (0, 2));

    editor.add('c');
    assert_eq!(editor.render(), "abc");
    assert_eq!(editor.cursor(), (0, 3));
}

#[test]
fn cursor_follows_its_character_across_a_wrap() {
    let mut editor = typed(8, "foo bar");
    assert_eq!(editor.cursor(), (0, 7));
    editor.add(' ');
    assert_eq!(editor.cursor(), (0, 8));
    editor.add('b');
    assert_eq!(editor.render(), "foo bar \nb");
    assert_eq!(editor.cursor(), (1, 1));
}

#[test]
fn cursor_at_a_line_boundary_stays_at_the_end_of_the_earlier_line() {
    // "foo " fills the first line; the cursor after it is at its end.
    let mut editor = typed(4, "foo bar");
    assert_eq!(editor.render(), "foo \nbar");
    for _ in 0..3 {
        editor.move_left();
    }
    assert_eq!(editor.cursor(), (1, 0));
    editor.add('x');
    assert_eq!(editor.render(), "foo \nxbar");
    assert_eq!(editor.cursor(), (1, 1));
    editor.backspace();
    assert_eq!(editor.render(), "foo \nbar");
    assert_eq!(editor.cursor(), (0, 4));
}

#[test]
fn find_position_prefers_the_end_of_a_line() {
    let lines = lines_of_strs(&["ab", "cde", "f"]);
    assert_eq!(find_position(&lines, 0), (0, 0));
    assert_eq!(find_position(&lines, 1), (0, 1));
    assert_eq!(find_position(&lines, 2), (0, 2));
    assert_eq!(find_position(&lines, 3), (1, 1));
    assert_eq!(find_position(&lines, 5), (1, 3));
    assert_eq!(find_position(&lines, 6), (2, 1));
    assert_eq!(find_position(&lines_of_strs(&[""]), 0), (0, 0));
}

#[test]
fn separator_lines_are_empty_or_white_space() {
    let line = |s: &str| s.chars().collect::<Vec<char>>();
    assert!(Editor::is_line_para_separator(&line("")));
    assert!(Editor::is_line_para_separator(&line(" ")));
    assert!(Editor::is_line_para_separator(&line(" \t\u{a0}")));
    assert!(!Editor::is_line_para_separator(&line("a")));
    assert!(!Editor::is_line_para_separator(&line("  a ")));
    assert!(!Editor::is_line_para_separator(&line("_")));
}

#[test]
fn paragraph_runs_between_separator_lines() {
    let mut editor = document(&["one", "two", "", "three", "four", "five", " ", "six"]);
    assert_eq!(editor.render(), "one\ntwo\n\nthree\nfour\nfive\n \nsix");
    assert_eq!(editor.cursor(), (1, 0));
    assert_eq!(editor.current_para_idx(), (0, 1));
    editor.move_up();
    assert_eq!(editor.current_para_idx(), (0, 1));
    editor.move_down();
    editor.move_down();
    assert_eq!(editor.current_para_idx(), (2, 2));
    editor.move_down();
    assert_eq!(editor.current_para_idx(), (3, 5));
    editor.move_down();
    assert_eq!(editor.current_para_idx(), (3, 5));
    editor.move_down();
    assert_eq!(editor.current_para_idx(), (3, 5));
    editor.move_down();
    assert_eq!(editor.current_para_idx(), (6, 6));
    editor.move_down();
    assert_eq!(editor.current_para_idx(), (7, 7));
}

#[test]
fn typing_on_a_new_line_joins_it_to_the_paragraph_above() {
    let mut editor = typed(20, "one");
    editor.enter();
    assert_eq!(editor.render(), "one\n");
    assert_eq!(editor.cursor(), (1, 0));
    editor.add('t');
    assert_eq!(editor.render(), "onet");
    assert_eq!(editor.cursor(), (0, 4));
}

#[test]
fn typing_rewraps_only_the_paragraph_under_the_cursor() {
    let mut editor = document(&["aa", "bb", "", "cc", "dd"]);
    for _ in 0..3 {
        editor.move_down();
    }
    assert_eq!(editor.cursor(), (4, 0));
    editor.add('x');
    assert_eq!(editor.render(), "aa\nbb\n\nccxdd");
    assert_eq!(editor.cursor(), (3, 3));
    editor.move_up();
    assert_eq!(editor.cursor(), (2, 0));
    editor.add(' ');
    assert_eq!(editor.render(), "aa\nbb\n \nccxdd");
    assert_eq!(editor.cursor(), (2, 1));
    editor.add('y');
    assert_eq!(editor.render(), "aabb yccxdd");
    assert_eq!(editor.cursor(), (0, 6));
}

#[test]
fn backspace_at_the_start_of_a_line_changes_nothing() {
    let mut editor = document(&["ab", "cd"]);
    assert_eq!(editor.cursor(), (1, 0));
    editor.backspace();
    assert_eq!(editor.render(), "ab\ncd");
    assert_eq!(editor.cursor(), (1, 0));
}

#[test]
fn moving_onto_a_shorter_line_keeps_the_cursor_within_it() {
    let mut editor = typed(10, "a\n\nbcd");
    assert_eq!(editor.cursor(), (2, 3));
    editor.move_up();
    assert_eq!(editor.cursor(), (1, 0));
    editor.move_up();
    assert_eq!(editor.cursor(), (0, 1));
    editor.move_down();
    editor.move_down();
    assert_eq!(editor.cursor(), (2, 3));
    editor.move_up();
    editor.add('x');
    assert_eq!(editor.render(), "axbcd");
    assert_eq!(editor.cursor(), (0, 2));
}

#[test]
fn moving_down_on_the_last_of_several_lines_goes_to_its_end() {
    let mut editor = document(&["ab", "cd"]);
    editor.move_right();
    assert_eq!(editor.cursor(), (1, 1));
    assert!(editor.at_last_line());
    assert!(!editor.at_first_line());
    editor.move_down();
    assert_eq!(editor.cursor(), (1, 2));
    assert!(editor.at_end_of_buffer());
    editor.move_right();
    assert_eq!(editor.cursor(), (1, 2));
}

#[test]
fn moving_never_changes_the_text() {
    let mut editor = typed(6, "one two three\n\nfour five");
    let text = editor.render();
    for round in 0..40 {
        match round % 7 {
            0 | 4 => editor.move_up(),
            1 | 5 => editor.move_left(),
            2 => editor.move_down(),
            _ => editor.move_right(),
        }
        assert_eq!(editor.render(), text);
    }
}

#[test]
fn move_to_end_of_line_goes_to_the_end() {
    let mut editor = typed(10, "abc");
    editor.move_left();
    editor.move_left();
    assert!(!editor.at_end_of_line());
    assert!(!editor.at_start_of_line());
    editor.move_to_end_of_line();
    assert_eq!(editor.cursor(), (0, 3));
    assert!(editor.at_end_of_line());
}

#[test]
fn resize_narrower_splits_and_wider_merges() {
    let mut editor = typed(20, "foo bar baz");
    assert_eq!(editor.render(), "foo bar baz");
    editor.resize(8);
    assert_eq!(editor.render(), "foo bar \nbaz");
    assert_eq!(editor.cursor(), (1, 3));
    editor.resize(4);
    assert_eq!(editor.render(), "foo \nbar \nbaz");
    assert_eq!(editor.cursor(), (2, 3));
    editor.resize(11);
    assert_eq!(editor.render(), "foo bar baz");
    assert_eq!(editor.cursor(), (0, 11));
}

#[test]
fn resize_keeps_empty_lines_and_the_cursor_on_them() {
    let mut editor = typed(20, "aa bb\n\ncc dd\n");
    assert_eq!(editor.cursor(), (3, 0));
    editor.resize(3);
    assert_eq!(editor.render(), "aa \nbb\n\ncc \ndd\n");
    assert_eq!(editor.cursor(), (5, 0));
    editor.move_up();
    editor.move_up();
    editor.move_up();
    assert_eq!(editor.cursor(), (2, 0));
    editor.resize(20);
    assert_eq!(editor.render(), "aa bb\n\ncc dd\n");
    assert_eq!(editor.cursor(), (1, 0));
}

#[test]
fn resize_to_the_same_width_twice_changes_nothing() {
    let mut editor = typed(6, "one two three\n\nfour  five six");
    editor.move_up();
    editor.move_left();
    for width in [6, 3, 9, 1] {
        editor.resize(width);
        let text = editor.render();
        let cursor = editor.cursor();
        editor.resize(width);
        assert_eq!(editor.render(), text);
        assert_eq!(editor.cursor(), cursor);
    }
}

#[test]
fn resize_to_the_current_width_after_typing_changes_nothing() {
    let mut editor = typed(8, "foo bar baz");
    assert_eq!(editor.render(), "foo bar \nbaz");
    assert_eq!(editor.cursor(), (1, 3));
    editor.resize(8);
    assert_eq!(editor.render(), "foo bar \nbaz");
    assert_eq!(editor.cursor(), (1, 3));
}

#[test]
fn resize_moves_a_cursor_from_the_start_of_a_wrapped_line_to_the_end_before() {
    let mut editor = typed(2, "ab cd");
    assert_eq!(editor.render(), "ab\n \ncd");
    editor.move_left();
    editor.move_left();
    assert_eq!(editor.cursor(), (2, 0));
    editor.resize(2);
    assert_eq!(editor.render(), "ab\n \ncd");
    assert_eq!(editor.cursor(), (1, 1));
}

#[test]
fn split_does_not_rewrap() {
    let mut editor = typed(10, "ab cd");
    editor.move_left();
    editor.move_left();
    editor.enter();
    assert_eq!(editor.render(), "ab \ncd");
    assert_eq!(editor.cursor(), (1, 0));
    editor.add('x');
    assert_eq!(editor.render(), "ab xcd");
    assert_eq!(editor.cursor(), (0, 4));
}

#[test]
fn columns_count_characters() {
    let mut editor = typed(10, "héé");
    assert_eq!(editor.cursor(), (0, 3));
    editor.move_left();
    editor.backspace();
    assert_eq!(editor.render(), "hé");
    assert_eq!(editor.cursor(), (0, 1));
    editor.add('ö');
    assert_eq!(editor.render(), "höé");
}
