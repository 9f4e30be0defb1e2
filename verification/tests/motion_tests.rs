use jim::buffer::ByteSource;
use jim::mode::operator::{
    Direction, LinePosition, Motion, Operator, PendingOperator, TextObject, WordMotion,
};
use jim::Buffer;

fn rope_buffer(text: &str) -> Buffer {
    let mut buffer = Buffer::new();
    buffer.load_source(ByteSource::Owned(text.as_bytes().to_vec()), None);
    buffer
}

#[test]
fn test_char_motion_clamps() {
    let buffer = rope_buffer("hello");
    let m = Motion::Char(Direction::Forward, 3);
    assert_eq!(m.calculate_range(&buffer, 1).unwrap(), 1..4);
    // forward past the end clamps to the content length
    let far = Motion::Char(Direction::Forward, 99);
    assert_eq!(far.calculate_range(&buffer, 1).unwrap(), 1..5);
    let back = Motion::Char(Direction::Backward, 99);
    assert_eq!(back.calculate_range(&buffer, 3).unwrap(), 0..3);
}

#[test]
fn test_line_motion_spans_whole_lines() {
    let buffer = rope_buffer("aa\nbb\ncc\ndd\n");
    let down = Motion::Line(Direction::Forward, 1);
    // from inside line 0 down one line: bytes of lines 0 and 1
    assert_eq!(down.calculate_range(&buffer, 1).unwrap(), 0..6);
    let up = Motion::Line(Direction::Backward, 1);
    assert_eq!(up.calculate_range(&buffer, 7).unwrap(), 3..9);
    // a huge count clamps to the last line
    let deep = Motion::Line(Direction::Forward, 99);
    assert_eq!(deep.calculate_range(&buffer, 0).unwrap(), 0..12);
}

#[test]
fn test_line_position_motions() {
    let buffer = rope_buffer("  lead\nnext\n");
    let start = Motion::LinePosition(LinePosition::Start);
    assert_eq!(start.calculate_range(&buffer, 4).unwrap(), 4..4);
    let end = Motion::LinePosition(LinePosition::End);
    assert_eq!(end.calculate_range(&buffer, 4).unwrap(), 4..6);
    let fnb = Motion::LinePosition(LinePosition::FirstNonBlank);
    // first non-blank of "  lead\n" is column 2
    assert_eq!(fnb.calculate_range(&buffer, 4).unwrap(), 4..2);
}

#[test]
fn test_word_motions() {
    let buffer = rope_buffer("foo bar baz");
    let w1 = Motion::Word(WordMotion::Start, 1);
    assert_eq!(w1.calculate_range(&buffer, 0).unwrap(), 0..3);
    let w2 = Motion::Word(WordMotion::Start, 2);
    assert_eq!(w2.calculate_range(&buffer, 0).unwrap(), 0..7);

    let e1 = Motion::Word(WordMotion::End, 1);
    assert_eq!(e1.calculate_range(&buffer, 0).unwrap(), 0..2);

    let b1 = Motion::Word(WordMotion::BackStart, 1);
    assert_eq!(b1.calculate_range(&buffer, 7).unwrap(), 3..7);
}

#[test]
fn test_text_objects() {
    let buffer = rope_buffer("foo bar");
    let iw = Motion::TextObject(TextObject::Word { inner: true });
    assert_eq!(iw.calculate_range(&buffer, 5).unwrap(), 4..7);

    let quoted = rope_buffer("say \"hi\" now");
    let iq = Motion::TextObject(TextObject::Quotes { inner: true });
    assert_eq!(iq.calculate_range(&quoted, 6).unwrap(), 5..7);
    let aq = Motion::TextObject(TextObject::Quotes { inner: false });
    assert_eq!(aq.calculate_range(&quoted, 6).unwrap(), 4..8);
    // no enclosing quotes: an empty range at the cursor
    assert_eq!(iq.calculate_range(&buffer, 2).unwrap(), 2..2);
    // objects outside the structural set collapse to the cursor
    let braces = Motion::TextObject(TextObject::Braces { inner: true });
    assert_eq!(braces.calculate_range(&quoted, 6).unwrap(), 6..6);
}

#[test]
fn test_pending_operator_record() {
    let pending = PendingOperator { operator: Operator::Delete, count: 2 };
    assert_eq!(pending.operator, Operator::Delete);
    assert_eq!(pending.count, 2);
    assert_ne!(Operator::Yank, Operator::Change);
}
