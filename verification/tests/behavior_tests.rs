use edit::classify::CharClass;
use edit::editor::{Editor, Paren};
use edit::editor_core::Core;
use edit::position::{Position, PositionError};

#[test]
fn test_new_reports_offending_value() {
    let buffer = "abc\ndef";
    assert_eq!(
        Core::new(buffer, 2, 0).unwrap_err(),
        PositionError::LineOutOfRange(2)
    );
    assert_eq!(
        Core::new(buffer, 1, 4).unwrap_err(),
        PositionError::ColumnOutOfRange(4)
    );
    assert_eq!(
        Editor::new(buffer, 9, 9).unwrap_err(),
        PositionError::LineOutOfRange(9)
    );
    assert!(Core::new(buffer, 1, 3).is_ok());
}

#[test]
fn test_empty_buffer_has_one_empty_line() {
    let editor = Core::new("", 0, 0).unwrap();
    assert_eq!(editor.line_count(), 1);
    assert_eq!(editor.line_width(0), Some(0));
    assert_eq!(editor.current_offset(), 0);
}

#[test]
fn test_position_order_is_line_major() {
    assert!(Position::new(0, 9) < Position::new(1, 0));
    assert!(Position::new(1, 2) < Position::new(1, 3));
    assert!(Position::new(2, 0) > Position::new(1, 9));
    assert_eq!(
        Position::new(1, 2).partial_cmp(&Position::new(1, 2)),
        Some(std::cmp::Ordering::Equal)
    );
}

#[test]
fn test_insert_then_delete_restores_buffer_and_cursor() {
    let buffer = "Hello, world!\nThe 2nd line.";
    let original = Core::new(buffer, 1, 6).unwrap();
    let mut editor = original.clone();
    editor.insert_at('\n', 0, 4);
    editor.delete_at(0, 4);
    assert_eq!(editor, original);

    let mut editor = original.clone();
    editor.insert_at('x', 1, 6);
    editor.delete_at(1, 6);
    assert_eq!(editor, original);
}

#[test]
fn test_offset_position_round_trip() {
    let editor = Editor::new("ab\ncde\n\nf", 0, 0).unwrap();
    for line in 0..editor.line_count() {
        let width = editor.line_width(line).unwrap();
        for column in 0..(width + 1) {
            let off = editor.offset_position(Position::new(line, column)).unwrap();
            assert!(off <= editor.buffer().len());
        }
    }
    assert_eq!(editor.offset_position(Position::new(2, 0)), Some(7));
    assert_eq!(editor.offset_position(Position::new(3, 1)), Some(9));
}

#[test]
fn test_match_pair_scenario() {
    let editor = Editor::new("a ( b ) c", 0, 2).unwrap();
    assert_eq!(editor.match_paren(), Some(6));

    let editor = Editor::new("a ( b ) c", 0, 6).unwrap();
    assert_eq!(editor.match_paren(), Some(2));

    let editor = Editor::new("a ( b ) c", 0, 0).unwrap();
    assert_eq!(editor.match_paren(), None);

    let editor = Editor::new("a ( (b) ) c", 0, 8).unwrap();
    assert_eq!(editor.match_paren(), Some(2));

    let editor = Editor::new(" [1, 3) ", 0, 1).unwrap();
    assert_eq!(editor.match_pair(Paren { open: '[', close: ')' }), Some(6));

    // identical opening and closing characters find no partner
    let editor = Editor::new("|a|", 0, 0).unwrap();
    assert_eq!(editor.match_pair(Paren { open: '|', close: '|' }), None);
}

#[test]
fn test_delete_newline_merges_lines() {
    let mut editor = Core::new("abc\ndef", 1, 0).unwrap();
    editor.delete_at(0, 3);
    let buf: String = editor.buffer().iter().collect();
    assert_eq!(buf, "abcdef");
    assert_eq!(editor.line(), 0);
    assert_eq!(editor.column(), 3);
    assert_eq!(editor.line_count(), 1);
}

#[test]
fn test_delete_trailing_newline_keeps_one_line() {
    let mut editor = Core::new("ab\n", 0, 0).unwrap();
    assert_eq!(editor.line_count(), 1);
    editor.delete_at(0, 2);
    let buf: String = editor.buffer().iter().collect();
    assert_eq!(buf, "ab");
    assert_eq!(editor.line_count(), 1);
    assert_eq!(editor.line_width(0), Some(2));
}

#[test]
fn test_codepoint_addressing() {
    let mut editor = Core::new("💖a", 0, 0).unwrap();
    editor.insert_at('💖', 0, 2);
    let buf: String = editor.buffer().iter().collect();
    assert_eq!(buf, "💖a💖");
}

#[test]
fn test_search_character() {
    let editor = Editor::new("a b c d\nx", 0, 3).unwrap();
    assert_eq!(editor.search_character('d'), Some(6));
    assert_eq!(editor.search_character('x'), None);
    assert_eq!(editor.rsearch_character('b'), Some(2));
    assert_eq!(editor.rsearch_character('x'), None);
}

#[test]
fn test_buffer_as_str_round_trips() {
    let editor = Editor::new("abc\n世界", 0, 0).unwrap();
    assert_eq!(&editor.buffer_as_str(), "abc\n世界");
}

#[test]
fn test_reset_replaces_state() {
    let mut editor = Core::new("old text", 0, 3).unwrap();
    editor.reset("new\ntext", 1, 4);
    assert_eq!(editor, Core::new("new\ntext", 1, 4).unwrap());
}

#[test]
fn test_join_lines() {
    let mut editor = Editor::new("a b c d\nx", 0, 3).unwrap();
    editor.join(0);
    let buf: String = editor.buffer().iter().collect();
    assert_eq!(buf, "a b c d x");
}

#[test]
fn test_delete_line() {
    let mut editor = Editor::new("a a\nb b b", 1, 3).unwrap();
    editor.delete_line(0);
    let buf: String = editor.buffer().iter().collect();
    assert_eq!(buf, "b b b");
    assert_eq!(editor.line(), 0);
    assert_eq!(editor.column(), 3);

    editor.delete_line(0);
    let buf: String = editor.buffer().iter().collect();
    assert_eq!(buf, "");
    assert_eq!(editor.line(), 0);
    assert_eq!(editor.column(), 0);

    let mut editor = Editor::new("a b", 0, 2).unwrap();
    editor.delete_line(0);
    let buf: String = editor.buffer().iter().collect();
    assert_eq!(buf, "");
    assert_eq!(editor.line(), 0);
    assert_eq!(editor.column(), 0);
}

#[test]
fn test_delete_line_range() {
    let mut editor = Editor::new("a a\nb b b\nc c\nd d", 0, 3).unwrap();
    editor.delete_line_range(1..3);
    let buf: String = editor.buffer().iter().collect();
    assert_eq!(buf, "a a\nd d");
    assert_eq!(editor.line(), 0);
    assert_eq!(editor.column(), 3);
}

#[test]
fn test_delete_to_beginning_of_line() {
    let mut editor = Editor::new("a a\nb b b\nc c\nd d", 1, 2).unwrap();
    editor.delete_to_beginning_of_line();
    let buf: String = editor.buffer().iter().collect();
    assert_eq!(buf, "a a\nb b\nc c\nd d");
    assert_eq!(editor.line(), 1);
    assert_eq!(editor.column(), 0);
}

#[test]
fn test_delete_to_end_of_line() {
    let mut editor = Editor::new("a a\nb b b\nc c\nd d", 1, 3).unwrap();
    editor.delete_to_end_of_line();
    let buf: String = editor.buffer().iter().collect();
    assert_eq!(buf, "a a\nb b\nc c\nd d");
    assert_eq!(editor.line(), 1);
    assert_eq!(editor.column(), 3);
}

#[test]
fn test_replace_range() {
    let mut editor = Editor::new("aa\nbb\ncc\ndd", 0, 0).unwrap();
    editor.replace("x\nx", Position::new(1, 1)..Position::new(2, 2));
    let buf: String = editor.buffer().iter().collect();
    assert_eq!(buf, "aa\nbx\nx\ndd");
}

#[test]
fn test_sort_line_range_sorts_only_the_range() {
    let mut editor = Editor::new("a a\nc c\nb b b\nb a", 0, 3).unwrap();
    editor.sort_line_range(0..2);
    let buf: String = editor.buffer().iter().collect();
    assert_eq!(buf, "a a\nc c\nb b b\nb a\n");
    assert_eq!(editor.line(), 0);
    assert_eq!(editor.column(), 3);

    let mut editor = Editor::new("a a\nc c\nb b b\nb a", 0, 3).unwrap();
    editor.sort_line();
    let buf: String = editor.buffer().iter().collect();
    assert_eq!(buf, "a a\nb a\nb b b\nc c\n");
    assert_eq!(editor.line(), 0);
    assert_eq!(editor.column(), 3);
}

#[test]
fn test_sort_keeps_equal_lines_in_order() {
    // two identical lines: the cursor's own copy keeps its relative place
    let mut editor = Editor::new("b\na\nb\nc", 2, 1).unwrap();
    editor.sort_line();
    let buf: String = editor.buffer().iter().collect();
    assert_eq!(buf, "a\nb\nb\nc\n");
    assert_eq!(editor.line(), 2);
    assert_eq!(editor.column(), 1);
}

#[test]
fn test_line_buffer_range() {
    let editor = Editor::new("a\nb b b b\nc", 1, 6).unwrap();
    let c: Vec<char> = "b b b b\nc".chars().collect();
    let s: &[char] = &c;
    assert_eq!(editor.line_buffer_range(1..3), Some(s));
}

#[test]
fn test_buffer_range() {
    let editor = Editor::new("a a\nb b b b\nc", 1, 6).unwrap();
    let c: Vec<char> = "a\nb b".chars().collect();
    let s: &[char] = &c;
    assert_eq!(
        editor.buffer_range(Position::new(0, 2)..Position::new(1, 3)),
        Some(s)
    );
}

#[test]
fn test_end_positions() {
    let editor = Editor::new("aa \nbb ", 0, 2).unwrap();
    assert_eq!(
        editor.next_keyword_end_position(),
        Some(Position::new(1, 1))
    );

    let editor = Editor::new("aa \nbb ", 1, 1).unwrap();
    assert_eq!(
        editor.previous_keyword_end_position(),
        Some(Position::new(0, 1))
    );

    let editor = Editor::new("aa \n** ", 0, 2).unwrap();
    assert_eq!(editor.next_symbol_end_position(), Some(Position::new(1, 1)));

    let editor = Editor::new("** \nbb ", 1, 1).unwrap();
    assert_eq!(
        editor.previous_symbol_end_position(),
        Some(Position::new(0, 1))
    );
}

#[test]
fn test_after_and_before_positions() {
    let editor = Editor::new("aa \nbb ", 0, 2).unwrap();
    assert_eq!(editor.after_keyword_position(), Some(Position::new(1, 2)));

    let editor = Editor::new("aa \n** ", 0, 2).unwrap();
    assert_eq!(editor.after_symbol_position(), Some(Position::new(1, 2)));

    let editor = Editor::new("*aa \n** ", 1, 1).unwrap();
    assert_eq!(editor.before_keyword_position(), Some(Position::new(0, 0)));

    let editor = Editor::new("a** \nbb ", 1, 0).unwrap();
    assert_eq!(editor.before_symbol_position(), Some(Position::new(0, 0)));
}

#[test]
fn test_before_position_retreats_to_previous_line_end() {
    // a run starting at column zero: one position before it is the last
    // column of the line above
    let editor = Core::new("ab \nxy", 1, 2).unwrap();
    assert_eq!(
        editor.before_position(CharClass::Keyword),
        Some(Position::new(0, 3))
    );
}

#[test]
fn test_unicode_keyword_classification() {
    // alphanumeric characters beyond ASCII count as keyword characters
    let editor = Core::new(" 世界 ", 0, 0).unwrap();
    assert_eq!(editor.next_keyword_position(), Some(Position::new(0, 1)));
}

#[test]
fn test_set_line_clamps_column() {
    let mut editor = Editor::new("a\nb b b b\nc", 1, 6).unwrap();
    editor.set_line(2);
    assert_eq!(editor.line(), 2);
    assert_eq!(editor.column(), 1);

    let mut editor = Editor::new("a\nb b b b\nc", 1, 1).unwrap();
    editor.set_column(5);
    assert_eq!(editor.line(), 1);
    assert_eq!(editor.column(), 5);
}

#[test]
fn test_clone_is_independent() {
    let editor = Editor::new("abc", 0, 1).unwrap();
    let mut copy = editor.clone();
    copy.insert_at('x', 0, 0);
    assert_eq!(&editor.buffer_as_str(), "abc");
    assert_eq!(&copy.buffer_as_str(), "xabc");
}

#[test]
fn test_mutations_ignore_invalid_targets() {
    let original = Core::new("abc\ndef", 1, 2).unwrap();
    let mut editor = original.clone();
    editor.insert_at('x', 5, 0);
    assert_eq!(editor, original);
    editor.insert_at('x', 0, 9);
    assert_eq!(editor, original);
    editor.delete_at(9, 9);
    assert_eq!(editor, original);
    editor.insert_string_at("zzz", 7, 7);
    assert_eq!(editor, original);
}

#[test]
fn test_cursor_stays_valid_through_mutations() {
    let mut editor = Core::new("ab\ncd", 1, 1).unwrap();
    let in_range = |e: &Core| {
        e.line() < e.line_count() && e.column() <= e.line_width(e.line()).unwrap()
    };
    assert!(in_range(&editor));
    editor.insert_at('\n', 0, 1);
    assert!(in_range(&editor));
    editor.insert_string_at("xy\nz", 1, 0);
    assert!(in_range(&editor));
    editor.delete_at(0, 1);
    assert!(in_range(&editor));
    editor.delete_range(Position::new(0, 0)..Position::new(1, 1));
    assert!(in_range(&editor));
    editor.insert_at('q', 9, 9);
    assert!(in_range(&editor));
    editor.delete_at(9, 9);
    assert!(in_range(&editor));
    editor.move_down(100);
    editor.move_right(100);
    assert!(in_range(&editor));
}

#[test]
fn test_position_of_offset_inverse() {
    // every character of this buffer is distinct, so scanning backward for
    // one finds exactly its position; converting that position back to an
    // offset recovers where the character sits
    let buffer = "abc\ndef";
    let editor = Core::new(buffer, 1, 3).unwrap();
    let chars: Vec<char> = buffer.chars().collect();
    for (off, ch) in chars.iter().enumerate() {
        if *ch == '\n' {
            continue;
        }
        let p = editor
            .previous_position(CharClass::Exactly(*ch))
            .unwrap();
        assert_eq!(editor.offset(p.line, p.column), Some(off));
    }
}
