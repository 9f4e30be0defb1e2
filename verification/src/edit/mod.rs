//! Edit records for undo/redo, and the edit entry points that keep a
//! cursor in step with the buffer.

pub mod undo;

use vstd::prelude::*;

use crate::buffer::cursor::Cursor;
use crate::buffer::{BufError, Buffer};

verus! {

/// Snapshot of a cursor for undo/redo.
#[derive(Debug, Clone, Copy, PartialEq, Eq, Structural)]
pub struct CursorState {
    pub line: usize,
    pub col: usize,
    pub byte_offset: usize,
}

impl CursorState {
    pub fn from_cursor(cursor: &Cursor) -> (r: CursorState)
        ensures
            r == (CursorState {
                line: cursor.line,
                col: cursor.col,
                byte_offset: cursor.byte_offset,
            }),
    {
        CursorState { line: cursor.line, col: cursor.col, byte_offset: cursor.byte_offset }
    }
}

/// One undoable edit: at `offset`, `old_text` became `new_text`, and the
/// cursor moved from `cursor_before` to `cursor_after`.
#[derive(Debug, Clone)]
pub struct Edit {
    pub offset: usize,
    pub old_text: String,
    pub new_text: String,
    pub cursor_before: CursorState,
    pub cursor_after: CursorState,
}

impl Edit {
    pub fn new(
        offset: usize,
        old_text: String,
        new_text: String,
        cursor_before: CursorState,
        cursor_after: CursorState,
    ) -> (r: Edit)
        ensures
            r.offset == offset,
            r.old_text == old_text,
            r.new_text == new_text,
            r.cursor_before == cursor_before,
            r.cursor_after == cursor_after,
    {
        Edit { offset, old_text, new_text, cursor_before, cursor_after }
    }

    /// Byte range the edit replaced.
    pub fn range(&self) -> (r: core::ops::Range<usize>)
        requires
            self.offset + vstd::utf8::encode_utf8(self.old_text@).len() <= usize::MAX,
        ensures
            r.start == self.offset,
            r.end == self.offset + vstd::utf8::encode_utf8(self.old_text@).len(),
    {
        self.offset..self.offset + self.old_text.as_str().as_bytes().len()
    }

    /// The inverse edit: texts swapped, cursor snapshots swapped.
    pub fn reverse(&self) -> (r: Edit)
        ensures
            r.offset == self.offset,
            r.old_text@ == self.new_text@,
            r.new_text@ == self.old_text@,
            r.cursor_before == self.cursor_after,
            r.cursor_after == self.cursor_before,
    {
        Edit {
            offset: self.offset,
            old_text: self.new_text.clone(),
            new_text: self.old_text.clone(),
            cursor_before: self.cursor_after,
            cursor_after: self.cursor_before,
        }
    }

}

/// How applying one stored edit transforms a buffer: its replacement text
/// is inserted at the offset, then the replaced span is deleted after it
/// (the order the undo log replays records in).
pub open spec fn edit_step_post(pre: Buffer, post: Buffer, e: Edit) -> bool {
    exists|m: Buffer|
        {
            &&& #[trigger] crate::edit::undo::chain_link(m)
            &&& if e.new_text@.len() > 0 {
                Buffer::insert_post(&pre, &m, e.offset as int, e.new_text@)
            } else {
                m == pre
            }
            &&& if e.old_text@.len() > 0 {
                Buffer::delete_post(
                    &m,
                    &post,
                    e.offset as int,
                    e.offset + vstd::utf8::encode_utf8(e.old_text@).len(),
                )
            } else {
                post == m
            }
        }
}

/// Edit entry points used by the modal handlers: they mutate the buffer,
/// reposition the cursor and return the undo record.
pub struct EditOperations;

impl EditOperations {
    /// Insert `text` at `offset`, leave the cursor after the inserted text
    /// and return the undo record.
    pub fn insert(buffer: &mut Buffer, cursor: &mut Cursor, offset: usize, text: &str) -> (r:
        Result<Edit, BufError>)
        requires
            old(buffer).wf(),
            offset + vstd::utf8::encode_utf8(text@).len() <= usize::MAX,
        ensures
            r is Ok,
            final(buffer).wf(),
            Buffer::insert_post(old(buffer), final(buffer), offset as int, text@),
            final(cursor).byte_offset == offset + vstd::utf8::encode_utf8(text@).len(),
            final(cursor).line == final(buffer).spec_byte_to_line(final(cursor).byte_offset as int),
            r->Ok_0.offset == offset,
            r->Ok_0.old_text@ == Seq::<char>::empty(),
            r->Ok_0.new_text@ == text@,
            r->Ok_0.cursor_before == (CursorState {
                line: old(cursor).line,
                col: old(cursor).col,
                byte_offset: old(cursor).byte_offset,
            }),
    {
        let cursor_before = CursorState::from_cursor(cursor);
        buffer.insert(offset, text)?;
        cursor.byte_offset = offset + text.as_bytes().len();
        cursor.line = buffer.byte_offset_to_line(cursor.byte_offset);
        let line_start = buffer.line_to_byte_offset(cursor.line);
        cursor.col = if cursor.byte_offset >= line_start {
            cursor.byte_offset - line_start
        } else {
            0
        };
        let cursor_after = CursorState::from_cursor(cursor);
        Ok(Edit::new(offset, String::new(), String::from_str(text), cursor_before, cursor_after))
    }

    /// Delete `start..end`, move the cursor to the start of the deleted
    /// region and return the undo record holding the deleted text.
    pub fn delete(buffer: &mut Buffer, cursor: &mut Cursor, start: usize, end: usize) -> (r: Result<
        Edit,
        BufError,
    >)
        requires
            old(buffer).wf(),
        ensures
            r is Ok,
            final(buffer).wf(),
            start >= end ==> *final(buffer) == *old(buffer),
            start < end ==> Buffer::delete_post(old(buffer), final(buffer), start as int, end as int),
            final(cursor).byte_offset == start,
            final(cursor).line == final(buffer).spec_byte_to_line(start as int),
            r->Ok_0.offset == start,
            r->Ok_0.old_text@ == old(buffer).spec_slice(start as int, end as int),
            r->Ok_0.new_text@ == Seq::<char>::empty(),
    {
        let cursor_before = CursorState::from_cursor(cursor);
        let deleted_text = buffer.slice(start..end);
        buffer.delete(start, end)?;
        cursor.byte_offset = start;
        cursor.line = buffer.byte_offset_to_line(cursor.byte_offset);
        let line_start = buffer.line_to_byte_offset(cursor.line);
        cursor.col = if cursor.byte_offset >= line_start {
            cursor.byte_offset - line_start
        } else {
            0
        };
        let cursor_after = CursorState::from_cursor(cursor);
        Ok(Edit::new(start, deleted_text, String::new(), cursor_before, cursor_after))
    }

    /// Replace `start..end` with `new_text`: a delete followed by an
    /// insert; the cursor lands after the inserted text and the undo record
    /// holds the replaced text.
    pub fn replace(
        buffer: &mut Buffer,
        cursor: &mut Cursor,
        start: usize,
        end: usize,
        new_text: &str,
    ) -> (r: Result<Edit, BufError>)
        requires
            old(buffer).wf(),
            start + vstd::utf8::encode_utf8(new_text@).len() <= usize::MAX,
        ensures
            r is Ok,
            final(buffer).wf(),
            exists|mid: Buffer|
                {
                    &&& (start < end ==> Buffer::delete_post(
                        old(buffer),
                        &mid,
                        start as int,
                        end as int,
                    ))
                    &&& (start >= end ==> mid == *old(buffer))
                    &&& #[trigger] Buffer::insert_post(&mid, final(buffer), start as int, new_text@)
                },
            final(cursor).byte_offset == start + vstd::utf8::encode_utf8(new_text@).len(),
            r->Ok_0.offset == start,
            r->Ok_0.old_text@ == old(buffer).spec_slice(start as int, end as int),
            r->Ok_0.new_text@ == new_text@,
    {
        let cursor_before = CursorState::from_cursor(cursor);
        let old_text = buffer.slice(start..end);
        let ghost pre = *old(buffer);
        buffer.delete(start, end)?;
        let ghost mid = *buffer;
        buffer.insert(start, new_text)?;
        proof {
            assert((start < end ==> Buffer::delete_post(&pre, &mid, start as int, end as int)) && (
            start >= end ==> mid == pre) && Buffer::insert_post(
                &mid,
                buffer,
                start as int,
                new_text@,
            ));
        }
        cursor.byte_offset = start + new_text.as_bytes().len();
        let cursor_after = CursorState::from_cursor(cursor);
        Ok(
            Edit::new(
                start,
                old_text,
                String::from_str(new_text),
                cursor_before,
                cursor_after,
            ),
        )
    }
}

} // verus!
