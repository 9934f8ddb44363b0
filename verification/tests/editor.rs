use nunitius::editor::Editor;

#[test]
fn add_text() {
    let mut editor = Editor::new(10);

    editor.add('c');

    assert_eq!(editor.render(), "c");
    assert_eq!(editor.cursor(), (0, 1));
}

#[test]
fn add_text_at_cursor() {
    let mut editor = Editor::new(10);

    editor.add('b');
    editor.move_left();
    editor.add('a');
    editor.move_right();
    editor.add('c');

    assert_eq!(editor.render(), "abc");
    assert_eq!(editor.cursor(), (0, 3));
}

#[test]
fn backspace() {
    let mut editor = Editor::new(10);

    editor.add('a');
    editor.backspace();

    assert_eq!(editor.render(), "");
    assert_eq!(editor.cursor(), (0, 0));
}

#[test]
fn backspace_at_cursor() {
    let mut editor = Editor::new(10);

    editor.add('a');
    editor.add('b');
    editor.move_left();
    editor.backspace();

    assert_eq!(editor.render(), "b");
    assert_eq!(editor.cursor(), (0, 0));
}

#[test]
fn backspace_at_start_of_buffer() {
    let mut editor = Editor::new(10);
    editor.backspace();
}

#[test]
fn move_cursor_left() {
    let mut editor = Editor::new(10);

    editor.add('a');
    editor.move_left();

    assert_eq!(editor.cursor(), (0, 0));
}

#[test]
fn move_cursor_right() {
    let mut editor = Editor::new(10);

    editor.add('a');
    editor.add('b');
    editor.add('c');
    editor.move_left();
    editor.move_left();
    editor.move_right();

    assert_eq!(editor.cursor(), (0, 2));
}

#[test]
fn move_cursor_up() {
    let mut editor = Editor::new(10);

    editor.enter();
    editor.move_up();

    assert_eq!(editor.cursor(), (0, 0));
}

#[test]
fn move_cursor_down() {
    let mut editor = Editor::new(10);

    editor.enter();
    editor.enter();
    editor.move_up();
    editor.move_up();
    editor.move_down();

    assert_eq!(editor.cursor(), (1, 0));
}

#[test]
fn cursor_movement_edge_cases() {
    let mut editor = Editor::new(10);

    editor.move_left();
    assert_eq!(editor.cursor(), (0, 0));

    editor.move_right();
    assert_eq!(editor.cursor(), (0, 0));

    editor.move_up();
    assert_eq!(editor.cursor(), (0, 0));

    editor.move_down();
    assert_eq!(editor.cursor(), (0, 0));
}

#[test]
fn wrap_cursor_around_at_start_of_line() {
    let mut editor = Editor::new(10);

    editor.add('a');
    editor.enter();
    editor.move_left();

    assert_eq!(editor.cursor(), (0, 1));
}

#[test]
fn wrap_cursor_around_at_end_of_line() {
    let mut editor = Editor::new(10);

    editor.add('a');
    editor.enter();
    editor.enter();
    editor.add('b');
    editor.move_up();
    editor.move_up();
    editor.move_right();

    assert_eq!(editor.cursor(), (1, 0));
}

#[test]
fn move_to_start_of_line_if_at_top_when_moving_up() {
    let mut editor = Editor::new(10);

    editor.add('a');
    editor.add('b');
    editor.move_up();

    assert_eq!(editor.cursor(), (0, 0));
}

#[test]
fn move_to_end_of_line_if_at_bottom_when_moving_down() {
    let mut editor = Editor::new(10);

    editor.add('a');
    editor.add('b');
    editor.move_left();
    editor.move_down();

    assert_eq!(editor.cursor(), (0, 2));
}

#[test]
fn enter_at_start_of_line() {
    let mut editor = Editor::new(10);

    editor.add('a');
    editor.move_left();
    editor.enter();
    editor.add('b');

    assert_eq!(editor.render(), "\nba");
    assert_eq!(editor.cursor(), (1, 1));
}

#[test]
fn enter_at_end_of_line() {
    let mut editor = Editor::new(10);

    editor.add('a');
    editor.enter();
    editor.enter();
    editor.add('b');

    assert_eq!(editor.render(), "a\n\nb");
    assert_eq!(editor.cursor(), (2, 1));
}

#[test]
fn enter_in_middle_of_line() {
    let mut editor = Editor::new(10);

    editor.add('a');
    editor.add('b');
    editor.move_left();
    editor.enter();

    assert_eq!(editor.render(), "a\nb");
    assert_eq!(editor.cursor(), (1, 0));
}

#[test]
fn wrap_text_if_over_width_limit() {
    let mut editor = Editor::new(8);

    for c in "foo bar baz".chars() {
        editor.add(c);
    }

    assert_eq!(editor.render(), "foo bar \nbaz");
}

#[test]
fn resize() {
    let mut editor = Editor::new(1);

    for c in "a b".chars() {
        editor.add(c);
    }
    assert_eq!(editor.render(), "a\n \nb");

    editor.resize(3);
    assert_eq!(editor.render(), "a b");
}

#[test]
fn rewrap_when_backspacing() {
    let mut editor = Editor::new(5);

    for c in "foo bar".chars() {
        editor.add(c);
    }
    assert_eq!(editor.render(), "foo \nbar");

    editor.backspace();
    editor.backspace();
    assert_eq!(editor.render(), "foo b");
}
