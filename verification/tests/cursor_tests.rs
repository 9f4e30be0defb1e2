use jim::Cursor;

#[test]
fn test_cursor_creation() {
    let cursor = Cursor::new();
    assert_eq!(cursor.line, 0);
    assert_eq!(cursor.col, 0);
    assert_eq!(cursor.byte_offset, 0);
}

#[test]
fn test_cursor_movement() {
    let mut cursor = Cursor::new();
    cursor.move_down();
    assert_eq!(cursor.line, 1);

    cursor.move_right();
    cursor.move_right();
    assert_eq!(cursor.col, 2);

    cursor.move_up();
    assert_eq!(cursor.line, 0);

    cursor.move_left();
    assert_eq!(cursor.col, 1);
}

#[test]
fn test_cursor_boundaries() {
    let mut cursor = Cursor::new();
    cursor.move_up();
    assert_eq!(cursor.line, 0);

    cursor.move_left();
    assert_eq!(cursor.col, 0);
}

#[test]
fn test_cursor_line_navigation() {
    let mut cursor = Cursor::new();
    cursor.col = 5;
    cursor.move_to_line_start();
    assert_eq!(cursor.col, 0);

    cursor.move_to_line_end(20);
    assert_eq!(cursor.col, 19);
}

#[test]
fn test_cursor_sync_against_buffer() {
    let mut buffer = jim::Buffer::new();
    let text = "alpha\nbeta\ngamma\n".as_bytes().to_vec();
    buffer.load_source(jim::buffer::ByteSource::Owned(text), None);

    let mut cursor = Cursor::from_line_col(1, 2);
    cursor.sync_byte_offset(&buffer);
    // line 1 starts at byte 6; column 2 lands on 't' of "beta"
    assert_eq!(cursor.byte_offset, 8);
    assert_eq!(cursor.col, 2);

    // a column past the line end clamps to the last character
    let mut far = Cursor::from_line_col(0, 99);
    far.sync_byte_offset(&buffer);
    assert_eq!(far.col, 5); // "alpha\n" has 6 characters
    assert_eq!(far.byte_offset, 5);

    let mut end = Cursor::from_line_col(1, 0);
    end.move_end_of_line(&buffer);
    assert_eq!(end.col, 4); // "beta\n" has 5 characters
    end.move_start_of_line(&buffer);
    assert_eq!(end.col, 0);
    assert_eq!(end.byte_offset, 6);
}
