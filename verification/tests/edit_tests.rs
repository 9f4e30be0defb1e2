use jim::buffer::ByteSource;
use jim::edit::undo::UndoStack;
use jim::edit::{CursorState, Edit, EditOperations};
use jim::{Buffer, Cursor};

fn rope_buffer(text: &str) -> Buffer {
    let mut buffer = Buffer::new();
    buffer.load_source(ByteSource::Owned(text.as_bytes().to_vec()), None);
    buffer
}

fn full_render(buffer: &Buffer) -> String {
    buffer.get_visible_lines(0, buffer.line_count())
}

#[test]
fn test_edit_record_reverse() {
    let before = CursorState { line: 0, col: 0, byte_offset: 0 };
    let after = CursorState { line: 0, col: 3, byte_offset: 3 };
    let edit = Edit::new(4, "old".to_string(), "new!".to_string(), before, after);
    assert_eq!(edit.range(), 4..7);
    let rev = edit.reverse();
    assert_eq!(rev.old_text, "new!");
    assert_eq!(rev.new_text, "old");
    assert_eq!(rev.cursor_before, after);
    assert_eq!(rev.cursor_after, before);
    assert_eq!(rev.range(), 4..8);
}

#[test]
fn test_edit_operations_move_cursor() {
    let mut buffer = rope_buffer("hello world");
    let mut cursor = Cursor::new();

    let edit = EditOperations::insert(&mut buffer, &mut cursor, 5, "XYZ").unwrap();
    assert_eq!(full_render(&buffer), "helloXYZ world");
    assert_eq!(cursor.byte_offset, 8);
    assert_eq!(edit.new_text, "XYZ");
    assert_eq!(edit.old_text, "");

    let edit2 = EditOperations::delete(&mut buffer, &mut cursor, 5, 8).unwrap();
    assert_eq!(full_render(&buffer), "hello world");
    assert_eq!(cursor.byte_offset, 5);
    assert_eq!(edit2.old_text, "XYZ");

    let edit3 = EditOperations::replace(&mut buffer, &mut cursor, 0, 5, "goodbye").unwrap();
    assert_eq!(full_render(&buffer), "goodbye world");
    assert_eq!(edit3.old_text, "hello");
    assert_eq!(edit3.new_text, "goodbye");
    assert_eq!(cursor.byte_offset, 7);
}

#[test]
fn test_undo_and_redo_round_trip() {
    let mut buffer = rope_buffer("hello world");
    let mut cursor = Cursor::new();
    let mut undo_stack = UndoStack::new();
    assert!(!undo_stack.can_undo());
    assert!(!undo_stack.can_redo());

    let edit = EditOperations::insert(&mut buffer, &mut cursor, 5, ", dear").unwrap();
    undo_stack.push(edit, 0);
    assert!(undo_stack.can_undo());
    assert_eq!(undo_stack.undo_count(), 1);
    assert_eq!(full_render(&buffer), "hello, dear world");

    let undone = undo_stack.undo(&mut buffer, &mut cursor).unwrap();
    assert!(undone);
    assert_eq!(full_render(&buffer), "hello world");
    assert!(undo_stack.can_redo());

    let redone = undo_stack.redo(&mut buffer, &mut cursor).unwrap();
    assert!(redone);
    assert_eq!(full_render(&buffer), "hello, dear world");

    // nothing left to redo
    assert!(!undo_stack.redo(&mut buffer, &mut cursor).unwrap());
}

#[test]
fn test_undo_group_timeout_splits() {
    let mut buffer = rope_buffer("ab");
    let mut cursor = Cursor::new();
    let mut undo_stack = UndoStack::new();

    let e1 = EditOperations::insert(&mut buffer, &mut cursor, 2, "1").unwrap();
    undo_stack.push(e1, 0);
    // more than the 1000 ms timeout later: a new group begins
    let e2 = EditOperations::insert(&mut buffer, &mut cursor, 3, "2").unwrap();
    undo_stack.push(e2, 5000);
    assert_eq!(full_render(&buffer), "ab12");
    assert_eq!(undo_stack.undo_count(), 2);

    undo_stack.undo(&mut buffer, &mut cursor).unwrap();
    assert_eq!(full_render(&buffer), "ab1");
    undo_stack.undo(&mut buffer, &mut cursor).unwrap();
    assert_eq!(full_render(&buffer), "ab");
    assert!(!undo_stack.undo(&mut buffer, &mut cursor).unwrap());
}

#[test]
fn test_explicit_groups_undo_together() {
    let mut buffer = rope_buffer("x");
    let mut cursor = Cursor::new();
    let mut undo_stack = UndoStack::new();

    undo_stack.begin_group(0);
    let e1 = EditOperations::insert(&mut buffer, &mut cursor, 1, "a").unwrap();
    undo_stack.push(e1, 1);
    let e2 = EditOperations::insert(&mut buffer, &mut cursor, 2, "b").unwrap();
    undo_stack.push(e2, 2);
    undo_stack.end_group();
    assert_eq!(full_render(&buffer), "xab");

    undo_stack.undo(&mut buffer, &mut cursor).unwrap();
    assert_eq!(full_render(&buffer), "x");
}
