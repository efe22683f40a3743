use edit::classify::CharClass;
use edit::editor_core::Core;
use edit::position::Position;

#[test]
fn core_test_new() {
    let buffer = "Hello, world!\nThe 2nd line.";
    let editor = Core::new(buffer, 10, 10);
    assert!(editor.is_err());
}

#[test]
fn core_test_line_count() {
    let buffer = "Hello, world!\nThe 2nd line.";
    let editor = Core::new(buffer, 0, 0).unwrap();
    assert_eq!(editor.line_count(), 2);

    let editor = Core::new("", 0, 0).unwrap();
    assert_eq!(editor.line_count(), 1);

    let editor = Core::new("aaa bbb", 0, 0).unwrap();
    assert_eq!(editor.line_count(), 1);
}

#[test]
fn core_test_line_width() {
    let buffer = "Hello, world!\nThe 2nd line.";
    let editor = Core::new(buffer, 0, 0).unwrap();
    assert_eq!(editor.line_width(0), Some(13));
    assert_eq!(editor.line_width(1), Some(13));
    assert_eq!(editor.line_width(2), None);

    let editor = Core::new("", 0, 0).unwrap();
    assert_eq!(editor.line_width(0), Some(0));
    assert_eq!(editor.line_width(1), None);

    let editor = Core::new("aaa bbb", 0, 0).unwrap();
    assert_eq!(editor.line_width(0), Some(7));
    assert_eq!(editor.line_width(1), None);

    let buffer = "世界";
    let editor = Core::new(buffer, 0, 0).unwrap();
    assert_eq!(editor.line_width(0), Some(2));
    assert_eq!(editor.line_width(1), None);
}

#[test]
fn core_test_offset() {
    let buffer = "Hello, world!\nThe 2nd line.";
    let editor = Core::new(buffer, 0, 0).unwrap();
    assert_eq!(editor.offset(0, 0), Some(0));
    assert_eq!(editor.offset(1, 1), Some(15));
    assert_eq!(editor.offset(2, 2), None);
    assert_eq!(editor.offset(1, 13), Some(27));
    assert_eq!(editor.offset(1, 14), None);
    assert_eq!(editor.offset(0, 13), Some(13));
    assert_eq!(editor.offset(0, 14), None);

    let editor = Core::new("", 0, 0).unwrap();
    assert_eq!(editor.offset(0, 0), Some(0));
    assert_eq!(editor.offset(0, 1), None);
    assert_eq!(editor.offset(1, 0), None);
    assert_eq!(editor.offset(1, 1), None);
    assert_eq!(editor.offset(10, 10), None);

    let editor = Core::new("aaa bbb", 0, 0).unwrap();
    assert_eq!(editor.offset(0, 0), Some(0));
    assert_eq!(editor.offset(0, 1), Some(1));
    assert_eq!(editor.offset(1, 0), None);
    assert_eq!(editor.offset(1, 1), None);
    assert_eq!(editor.offset(10, 10), None);
    assert_eq!(editor.offset(0, 7), Some(7));
    assert_eq!(editor.offset(0, 8), None);

    let buffer = "世界\nabc";
    let editor = Core::new(buffer, 0, 0).unwrap();
    assert_eq!(editor.offset(0, 0), Some(0));
    assert_eq!(editor.offset(0, 1), Some(1));
    assert_eq!(editor.offset(0, 2), Some(2));
    assert_eq!(editor.offset(1, 0), Some(3));
    assert_eq!(editor.offset(1, 3), Some(6));
    assert_eq!(editor.offset(1, 4), None);
}

#[test]
fn core_test_move_right() {
    let buffer = "Hello, world!\nThe 2nd line.";
    let mut editor = Core::new(buffer, 1, 6).unwrap();
    let expected = [7, 8, 9, 10, 11, 12, 13, 13];
    for i in 0..expected.len() {
        editor.move_right(1);
        assert_eq!(editor, Core::new(buffer, 1, expected[i]).unwrap());
    }

    for i in 0..editor.line_width(editor.line()).unwrap() {
        let mut editor = Core::new(buffer, 1, i).unwrap();
        let width = editor.line_width(editor.line()).unwrap();
        editor.move_right(width + 1);
        assert_eq!(editor, Core::new(buffer, 1, width).unwrap());
    }

    let buffer = "世界\nabc";
    let mut editor = Core::new(buffer, 0, 0).unwrap();
    let expected = [1, 2, 2];
    for i in 0..expected.len() {
        editor.move_right(1);
        assert_eq!(editor, Core::new(buffer, 0, expected[i]).unwrap());
    }
}

#[test]
fn core_test_move_left() {
    let buffer = "Hello, world!\nThe 2nd line.";
    let mut editor = Core::new(buffer, 1, 6).unwrap();
    let expected = [5, 4, 3, 2, 1, 0, 0];
    for i in 0..expected.len() {
        editor.move_left(1);
        assert_eq!(editor, Core::new(buffer, 1, expected[i]).unwrap());
    }

    for i in 0..editor.line_width(editor.line()).unwrap() {
        let mut editor = Core::new(buffer, 1, i).unwrap();
        let width = editor.line_width(editor.line()).unwrap();
        editor.move_left(width + 1);
        assert_eq!(editor, Core::new(buffer, 1, 0).unwrap());
    }

    let buffer = "abc\nHello, 世界\ndef";
    let mut editor = Core::new(buffer, 1, 9).unwrap();
    let expected = [7, 5, 3, 1, 0, 0];
    for i in 0..expected.len() {
        editor.move_left(2);
        assert_eq!(editor, Core::new(buffer, 1, expected[i]).unwrap());
    }
}

#[test]
fn core_test_move_up() {
    let buffer = "Hello, world!\nThe 2nd line.\nAAABBBCCC.";
    let mut editor = Core::new(buffer, 2, 4).unwrap();
    let expected = [1, 0, 0];
    for i in 0..expected.len() {
        editor.move_up(1);
        assert_eq!(editor, Core::new(buffer, expected[i], 4).unwrap());
    }

    for i in 0..editor.line_count() {
        let mut editor = Core::new(buffer, i, 1).unwrap();
        let count = editor.line_count();
        editor.move_up(count);
        assert_eq!(editor, Core::new(buffer, 0, 1).unwrap());
    }

    let buffer = "aaa\nbbbb";
    let mut editor = Core::new(buffer, 1, 4).unwrap();
    editor.move_up(1);
    assert_eq!(editor, Core::new(buffer, 0, 3).unwrap());
}

#[test]
fn core_test_move_down() {
    let buffer = "Hello, world!\nThe 2nd line.\nAAABBBCCC.";
    let mut editor = Core::new(buffer, 0, 4).unwrap();
    let expected = [1, 2, 2];
    for i in 0..expected.len() {
        editor.move_down(1);
        assert_eq!(editor, Core::new(buffer, expected[i], 4).unwrap());
    }

    for i in 0..editor.line_count() {
        let mut editor = Core::new(buffer, i, 1).unwrap();
        let count = editor.line_count();
        editor.move_down(count);
        assert_eq!(
            editor,
            Core::new(buffer, buffer.match_indices('\n').count(), 1).unwrap()
        );
    }

    let buffer = "aaaa\nbbb";
    let mut editor = Core::new(buffer, 0, 4).unwrap();
    editor.move_down(1);
    assert_eq!(editor, Core::new(buffer, 1, 3).unwrap());
}

#[test]
fn core_test_insert_at() {
    let buffer = "Hello, world!\nThe 2nd line.\nAAABBBCCC.";
    let mut editor = Core::new(buffer, 0, 6).unwrap();
    editor.insert_at('\n', 0, 6);
    assert_eq!(
        editor,
        Core::new("Hello,\n world!\nThe 2nd line.\nAAABBBCCC.", 1, 0).unwrap()
    );
    editor.insert_at('D', 3, 9);
    assert_eq!(
        editor,
        Core::new("Hello,\n world!\nThe 2nd line.\nAAABBBCCCD.", 1, 0).unwrap()
    );
    editor.insert_at('a', 1, 0);
    assert_eq!(
        editor,
        Core::new("Hello,\na world!\nThe 2nd line.\nAAABBBCCCD.", 1, 1).unwrap()
    );

    let buffer = "aaa";
    let mut editor = Core::new(buffer, 0, 0).unwrap();
    editor.insert_at('a', 10, 10);
    assert_eq!(editor, Core::new(buffer, 0, 0).unwrap());

    let buffer = "💖a";
    let mut editor = Core::new(buffer, 0, 0).unwrap();
    editor.insert_at('💖', 0, 2);
    let want = "💖a💖";
    assert_eq!(editor, Core::new(want, 0, 0).unwrap());
}

#[test]
fn test_insert_string_at() {
    let buffer = "aaa ccc ddd";
    let mut editor = Core::new(buffer, 0, 7).unwrap();
    editor.insert_string_at("bbb ", 0, 4);
    assert_eq!(editor, Core::new("aaa bbb ccc ddd", 0, 11).unwrap());
}

#[test]
fn core_test_delete_at() {
    let buffer = "Hello, world!\nThe 2nd line.\nAAABBBCCC.";
    let mut editor = Core::new(buffer, 0, 6).unwrap();
    editor.delete_at(0, 6);
    assert_eq!(
        editor,
        Core::new("Hello,world!\nThe 2nd line.\nAAABBBCCC.", 0, 6).unwrap()
    );
    editor.delete_at(0, 12);
    assert_eq!(
        editor,
        Core::new("Hello,world!The 2nd line.\nAAABBBCCC.", 0, 6).unwrap()
    );

    let mut editor = Core::new("abc\ndef", 0, 3).unwrap();
    editor.delete_at(0, 2);
    assert_eq!(editor, Core::new("ab\ndef", 0, 2).unwrap());

    let mut editor = Core::new("abc\ndef", 1, 0).unwrap();
    editor.delete_at(0, 3);
    assert_eq!(editor, Core::new("abcdef", 0, 3).unwrap());
    editor.delete_at(10, 10);
    assert_eq!(editor, Core::new("abcdef", 0, 3).unwrap());
    editor.delete_at(0, 1);
    assert_eq!(editor, Core::new("acdef", 0, 2).unwrap());

    let mut editor = Core::new("abc世界", 0, 3).unwrap();
    editor.delete_at(0, 4);
    assert_eq!(editor, Core::new("abc世", 0, 3).unwrap());
}

#[test]
fn test_delete_range() {
    let buffer = "Hello, world!\nThe 2nd line.\nAAABBBCCC.";
    let mut editor = Core::new(buffer, 0, 6).unwrap();
    editor.delete_range(Position::new(0, 6)..Position::new(1, 5));
    assert_eq!(editor, Core::new("Hello,nd line.\nAAABBBCCC.", 0, 6).unwrap());
}

#[test]
fn test_next_keyword_position() {
    let buffer = "**\na**";
    let editor = Core::new(buffer, 0, 1).unwrap();
    assert_eq!(editor.next_keyword_position(), Some(Position::new(1, 0)));

    let editor = Core::new(buffer, 1, 3).unwrap();
    assert_eq!(editor.next_keyword_position(), None);

    let buffer = " 12wb12 ";
    let editor = Core::new(buffer, 0, 0).unwrap();
    assert_eq!(editor.next_keyword_position(), Some(Position::new(0, 1)));

    let editor = Core::new(buffer, 0, 1).unwrap();
    assert_eq!(editor.next_keyword_position(), None);
}

#[test]
fn test_previous_keyword_position() {
    let buffer = "**\na**";
    let editor = Core::new(buffer, 0, 1).unwrap();
    assert_eq!(editor.previous_keyword_position(), None);

    let editor = Core::new(buffer, 1, 3).unwrap();
    assert_eq!(editor.previous_keyword_position(), Some(Position::new(1, 0)));
}

#[test]
fn test_next_symbol_position() {
    let buffer = "ab\n*cd";
    let editor = Core::new(buffer, 0, 1).unwrap();

    assert_eq!(editor.next_symbol_position(), Some(Position::new(1, 0)));
}

#[test]
fn test_previous_symbol_position() {
    let buffer = "ab\n*cd";
    let editor = Core::new(buffer, 0, 1).unwrap();
    assert_eq!(editor.previous_symbol_position(), None);

    let editor = Core::new(buffer, 1, 3).unwrap();
    assert_eq!(editor.previous_symbol_position(), Some(Position::new(1, 0)));
}

#[test]
fn test_after_position() {
    let buffer = "aax\naaa";
    let editor = Core::new(buffer, 1, 1).unwrap();
    assert_eq!(editor.after_position(CharClass::Exactly('x')), None);

    let editor = Core::new(buffer, 0, 1).unwrap();
    assert_eq!(
        editor.after_position(CharClass::Exactly('x')),
        Some(Position::new(0, 3))
    );

    let buffer = "aaa\naaa\n";
    let editor = Core::new(buffer, 1, 1).unwrap();
    assert_eq!(editor.after_position(CharClass::Exactly('\n')), None);
}

#[test]
fn test_before_position() {
    let buffer = "aax\naaa";
    let editor = Core::new(buffer, 0, 1).unwrap();
    assert_eq!(editor.before_position(CharClass::Exactly('x')), None);

    let editor = Core::new(buffer, 1, 1).unwrap();
    assert_eq!(
        editor.before_position(CharClass::Exactly('x')),
        Some(Position::new(0, 1))
    );
}
