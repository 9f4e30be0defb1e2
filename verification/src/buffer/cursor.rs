//! Cursor position: a byte offset plus a line/column pair, kept in sync
//! with a buffer on demand.

use vstd::prelude::*;

use crate::buffer::Buffer;
use crate::outside::char_utf8_len;
use crate::text::{lemma_ulen_step, ulen};

verus! {

#[derive(Debug, Clone, Copy, PartialEq, Eq, Structural)]
pub struct Cursor {
    /// Byte offset in the buffer.
    pub byte_offset: usize,
    /// Line number, zero-indexed.
    pub line: usize,
    /// Column, zero-indexed, in characters rather than bytes.
    pub col: usize,
}

impl Cursor {
    pub fn new() -> (c: Cursor)
        ensures
            c == (Cursor { byte_offset: 0, line: 0, col: 0 }),
    {
        Cursor { byte_offset: 0, line: 0, col: 0 }
    }

    /// Position by line and column; the byte offset is recomputed later
    /// from a buffer.
    pub fn from_line_col(line: usize, col: usize) -> (c: Cursor)
        ensures
            c == (Cursor { byte_offset: 0, line, col }),
    {
        Cursor { byte_offset: 0, line, col }
    }

    /// Position by byte offset; line and column are recomputed later from a
    /// buffer.
    pub fn from_byte_offset(byte_offset: usize) -> (c: Cursor)
        ensures
            c == (Cursor { byte_offset, line: 0, col: 0 }),
    {
        Cursor { byte_offset, line: 0, col: 0 }
    }

    /// Recompute the byte offset from the line/column pair against a
    /// buffer: the column is clamped to the line's last character, and the
    /// offset becomes the line's start plus the column's UTF-8 width.
    pub fn sync_byte_offset(&mut self, buffer: &Buffer)
        requires
            buffer.wf(),
        ensures
            final(self).line == old(self).line,
            final(self).col == ({
                let n = buffer.spec_get_line(old(self).line as int).len();
                if n > 0 {
                    if old(self).col as int <= n - 1 {
                        old(self).col as int
                    } else {
                        n - 1
                    }
                } else {
                    0
                }
            }),
            final(self).byte_offset == buffer.spec_line_to_byte(old(self).line as int) + ulen(
                buffer.spec_get_line(old(self).line as int).take(final(self).col as int),
            ) || final(self).byte_offset == usize::MAX,
    {
        let line_start_offset = buffer.line_to_byte_offset(self.line);
        let line_text = buffer.get_line(self.line);
        let line_len_chars = line_text.as_str().unicode_len();
        if line_len_chars > 0 {
            if self.col > line_len_chars - 1 {
                self.col = line_len_chars - 1;
            }
        } else {
            self.col = 0;
        }
        let col_bytes = prefix_width(&line_text, self.col);
        self.byte_offset = line_start_offset.saturating_add(col_bytes);
    }

    /// Move one line down; the caller re-syncs the byte offset.
    pub fn move_down(&mut self)
        ensures
            final(self).line == if old(self).line < usize::MAX {
                old(self).line + 1
            } else {
                usize::MAX as int
            },
            final(self).col == old(self).col,
            final(self).byte_offset == old(self).byte_offset,
    {
        self.line = self.line.saturating_add(1);
    }

    /// Move one line up, saturating at the first line.
    pub fn move_up(&mut self)
        ensures
            final(self).line == if old(self).line > 0 {
                old(self).line - 1
            } else {
                0int
            },
            final(self).col == old(self).col,
            final(self).byte_offset == old(self).byte_offset,
    {
        self.line = self.line.saturating_sub(1);
    }

    /// Move one column right; the caller re-syncs and clamps.
    pub fn move_right(&mut self)
        ensures
            final(self).col == if old(self).col < usize::MAX {
                old(self).col + 1
            } else {
                usize::MAX as int
            },
            final(self).line == old(self).line,
            final(self).byte_offset == old(self).byte_offset,
    {
        self.col = self.col.saturating_add(1);
    }

    /// Move one column left, saturating at the line start.
    pub fn move_left(&mut self)
        ensures
            final(self).col == if old(self).col > 0 {
                old(self).col - 1
            } else {
                0int
            },
            final(self).line == old(self).line,
            final(self).byte_offset == old(self).byte_offset,
    {
        self.col = self.col.saturating_sub(1);
    }

    /// Jump to column zero.
    pub fn move_to_line_start(&mut self)
        ensures
            final(self).col == 0,
            final(self).line == old(self).line,
            final(self).byte_offset == old(self).byte_offset,
    {
        self.col = 0;
    }

    /// Jump to the last character of a line of the given length.
    pub fn move_to_line_end(&mut self, line_length: usize)
        ensures
            final(self).col == if line_length > 0 {
                line_length - 1
            } else {
                0int
            },
            final(self).line == old(self).line,
            final(self).byte_offset == old(self).byte_offset,
    {
        self.col = line_length.saturating_sub(1);
    }

    pub fn set_position(&mut self, line: usize, col: usize)
        ensures
            final(self).line == line,
            final(self).col == col,
            final(self).byte_offset == old(self).byte_offset,
    {
        self.line = line;
        self.col = col;
    }

    pub fn set_byte_offset(&mut self, offset: usize)
        ensures
            final(self).byte_offset == offset,
            final(self).line == old(self).line,
            final(self).col == old(self).col,
    {
        self.byte_offset = offset;
    }

    /// Jump to the line start and re-sync the byte offset.
    pub fn move_start_of_line(&mut self, buffer: &Buffer)
        requires
            buffer.wf(),
        ensures
            final(self).col == 0,
            final(self).line == old(self).line,
            final(self).byte_offset == buffer.spec_line_to_byte(old(self).line as int)
                || final(self).byte_offset == usize::MAX,
    {
        self.col = 0;
        self.sync_byte_offset(buffer);
        proof {
            assert(buffer.spec_get_line(self.line as int).take(0) =~= Seq::<char>::empty());
            assert(vstd::utf8::encode_utf8(Seq::<char>::empty()) =~= Seq::<u8>::empty());
        }
    }

    /// Jump to the last character of the current line and re-sync.
    pub fn move_end_of_line(&mut self, buffer: &Buffer)
        requires
            buffer.wf(),
        ensures
            final(self).line == old(self).line,
            final(self).col == ({
                let n = buffer.spec_get_line(old(self).line as int).len();
                if n > 0 {
                    n - 1
                } else {
                    0int
                }
            }),
    {
        let line_text = buffer.get_line(self.line);
        let line_len = line_text.as_str().unicode_len();
        self.col = line_len.saturating_sub(1);
        self.sync_byte_offset(buffer);
    }
}

/// UTF-8 width of the first `col` characters of `s` (clamped to its
/// length), saturating at `usize::MAX`.
fn prefix_width(s: &String, col: usize) -> (r: usize)
    requires
        col <= s@.len(),
    ensures
        r == ulen(s@.take(col as int)) || r == usize::MAX,
{
    let ghost text = s@;
    let mut acc: usize = 0;
    let mut i: usize = 0;
    proof {
        assert(text.take(0) =~= Seq::<char>::empty());
        assert(vstd::utf8::encode_utf8(Seq::<char>::empty()).len() == 0);
    }
    while i < col
        invariant
            i <= col <= text.len(),
            s@ == text,
            acc == ulen(text.take(i as int)) || acc == usize::MAX,
        decreases col - i,
    {
        let c = s.as_str().get_char(i);
        let w = char_utf8_len(c);
        proof {
            lemma_ulen_step(text, i as int);
        }
        acc = acc.saturating_add(w);
        i = i + 1;
    }
    acc
}


impl Default for Cursor {
    /// The origin position.
    fn default() -> (c: Cursor)
        ensures
            c == (Cursor { byte_offset: 0, line: 0, col: 0 }),
    {
        Cursor::new()
    }
}

} // verus!
