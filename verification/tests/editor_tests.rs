use edit::editor::Editor;

#[test]
fn test_move_to_beginning() {
    let buffer = "Hello, world!\nThe 2nd line.";
    let mut editor = Editor::new(buffer, 1, 8).unwrap();
    editor.move_to_beginning();
    assert_eq!(editor.line(), 1);
    assert_eq!(editor.column(), 0);

    let mut editor = Editor::new(buffer, 0, 7).unwrap();
    editor.move_to_beginning();
    assert_eq!(editor.line(), 0);
    assert_eq!(editor.column(), 0);
}

#[test]
fn test_move_to_end() {
    let buffer = "Hello, world!\nThe 2nd line.";
    let mut editor = Editor::new(buffer, 1, 8).unwrap();
    editor.move_to_end();
    assert_eq!(editor.line(), 1);
    assert_eq!(editor.column(), 13);

    let mut editor = Editor::new(buffer, 0, 7).unwrap();
    editor.move_to_end();
    assert_eq!(editor.line(), 0);
    assert_eq!(editor.column(), 13);
}

#[test]
fn test_move_to_beginning_of_first_line() {
    let buffer = "aaa\nbbb\nccc\ndd";
    let mut editor = Editor::new(buffer, 1, 3).unwrap();
    editor.move_to_beginning_of_first_line();
    assert_eq!(editor.line(), 0);
    assert_eq!(editor.column(), 0);

    let mut editor = Editor::new(buffer, 3, 0).unwrap();
    editor.move_to_beginning_of_first_line();
    assert_eq!(editor.line(), 0);
    assert_eq!(editor.column(), 0);
}

#[test]
fn test_move_to_beginning_of_last_line() {
    let buffer = "aaa\nbbb\nccc\ndd";
    let mut editor = Editor::new(buffer, 1, 3).unwrap();
    editor.move_to_beginning_of_last_line();
    assert_eq!(editor.line(), 3);
    assert_eq!(editor.column(), 0);

    let mut editor = Editor::new(buffer, 3, 2).unwrap();
    editor.move_to_beginning_of_last_line();
    assert_eq!(editor.line(), 3);
    assert_eq!(editor.column(), 0);
}

#[test]
fn test_move_to_beginning_of_middle_line() {
    let buffer = "aaa\nbbb\nccc\ndd";
    let mut editor = Editor::new(buffer, 1, 3).unwrap();
    editor.move_to_beginning_of_middle_line();
    assert_eq!(editor.line(), 1);
    assert_eq!(editor.column(), 0);

    let mut editor = Editor::new(buffer, 3, 2).unwrap();
    editor.move_to_beginning_of_middle_line();
    assert_eq!(editor.line(), 1);
    assert_eq!(editor.column(), 0);

    let buffer = "aaa\nbbb\nccc";
    let mut editor = Editor::new(buffer, 1, 3).unwrap();
    editor.move_to_beginning_of_middle_line();
    assert_eq!(editor.line(), 1);
    assert_eq!(editor.column(), 0);

    let buffer = "aaa";
    let mut editor = Editor::new(buffer, 0, 2).unwrap();
    editor.move_to_beginning_of_middle_line();
    assert_eq!(editor.line(), 0);
    assert_eq!(editor.column(), 0);
}

#[test]
fn test_move_to_beginning_of_next_keyword() {
    let buffer = "  aaa  ";
    let mut editor = Editor::new(buffer, 0, 1).unwrap();
    editor.move_to_beginning_of_next_keyword();
    assert_eq!(editor.line(), 0);
    assert_eq!(editor.column(), 2);

    let buffer = "  aaa \n    bbb  ";
    let mut editor = Editor::new(buffer, 0, 5).unwrap();
    editor.move_to_beginning_of_next_keyword();
    assert_eq!(editor.line(), 1);
    assert_eq!(editor.column(), 4);

    let buffer = "  aaa \n bbb ";
    let mut editor = Editor::new(buffer, 0, 3).unwrap();
    editor.move_to_beginning_of_next_keyword();
    assert_eq!(editor.line(), 1);
    assert_eq!(editor.column(), 1);
}

#[test]
fn test_move_to_beginning_of_previous_keyword() {
    let buffer = "  aaa  ";
    let mut editor = Editor::new(buffer, 0, 3).unwrap();
    editor.move_to_beginning_of_previous_keyword();
    assert_eq!(editor.line(), 0);
    assert_eq!(editor.column(), 2);

    let buffer = "  aaa \n    bbb  ";
    let mut editor = Editor::new(buffer, 1, 3).unwrap();
    editor.move_to_beginning_of_previous_keyword();
    assert_eq!(editor.line(), 0);
    assert_eq!(editor.column(), 2);

    let buffer = "    ";
    let mut editor = Editor::new(buffer, 0, 3).unwrap();
    editor.move_to_beginning_of_previous_keyword();
    assert_eq!(editor.line(), 0);
    assert_eq!(editor.column(), 3);
}

#[test]
fn test_move_to_beginning_of_non_blank() {
    let buffer = "  aaa  ";
    let mut editor = Editor::new(buffer, 0, 6).unwrap();
    editor.move_to_beginning_of_non_blank();
    assert_eq!(editor.line(), 0);
    assert_eq!(editor.column(), 2);
}

#[test]
fn test_move_to_end_of_non_blank() {
    let buffer = "  aaa  ";
    let mut editor = Editor::new(buffer, 0, 2).unwrap();
    editor.move_to_end_of_non_blank();
    assert_eq!(editor.line(), 0);
    assert_eq!(editor.column(), 5);
}

#[test]
fn test_move_to_beginning_of_upper_line() {
    let buffer = "aaa\nbbb\nccc";
    let mut editor = Editor::new(buffer, 0, 3).unwrap();
    editor.move_to_beginning_of_upper_line();
    assert_eq!(editor.line(), 1);
    assert_eq!(editor.column(), 0);

    editor.move_to_beginning_of_upper_line();
    assert_eq!(editor.line(), 2);
    assert_eq!(editor.column(), 0);

    editor.move_to_beginning_of_upper_line();
    assert_eq!(editor.line(), 2);
    assert_eq!(editor.column(), 0);
}

#[test]
fn test_move_to_beginning_of_lower_line() {
    let buffer = "aaa\nbbb\nccc";
    let mut editor = Editor::new(buffer, 2, 3).unwrap();
    editor.move_to_beginning_of_lower_line();
    assert_eq!(editor.line(), 1);
    assert_eq!(editor.column(), 0);

    editor.move_to_beginning_of_lower_line();
    assert_eq!(editor.line(), 0);
    assert_eq!(editor.column(), 0);

    editor.move_to_beginning_of_lower_line();
    assert_eq!(editor.line(), 0);
    assert_eq!(editor.column(), 0);
}

#[test]
fn test_line_buffer() {
    let test = |editor: Editor| {
        assert_eq!(editor.line_buffer(0), Some(&['a'][..]));
        let c: Vec<char> = "b b b b".chars().collect();
        let s: &[char] = &c;
        assert_eq!(editor.line_buffer(1), Some(s));
        assert_eq!(editor.line_buffer(2), Some(&['c'][..]));
        assert_eq!(editor.line_buffer(3), None);
    };

    let mut buf = String::from("a\nb b b b\nc");
    let editor = Editor::new(&buf, 1, 6).unwrap();
    test(editor);

    buf.push('\n');
    let editor = Editor::new(&buf, 1, 6).unwrap();
    test(editor);
}

#[test]
fn test_sort_line() {
    let mut editor = Editor::new("a a\nc c\nb b b\nc a", 2, 4).unwrap();
    editor.sort_line();

    let buf: String = editor.buffer().iter().collect();
    assert_eq!(buf, "a a\nb b b\nc a\nc c\n");
    assert_eq!(editor.line(), 1);
    assert_eq!(editor.column(), 4);
}
