//! Visual-selection state: the anchor of the selection and whether it is
//! line-wise.

use vstd::prelude::*;

verus! {

pub struct VisualMode {
    /// Byte offset where the selection started.
    pub selection_start: usize,
    /// Line-wise rather than character-wise selection.
    pub line_wise: bool,
}

impl VisualMode {
    pub fn new(start_offset: usize, line_wise: bool) -> (r: VisualMode)
        ensures
            r.selection_start == start_offset,
            r.line_wise == line_wise,
    {
        VisualMode { selection_start: start_offset, line_wise }
    }

    /// Selected byte range as `(min, max)`, whichever way the selection was
    /// dragged.
    pub fn get_selection_range(&self, cursor_offset: usize) -> (r: (usize, usize))
        ensures
            r.0 == if self.selection_start < cursor_offset {
                self.selection_start
            } else {
                cursor_offset
            },
            r.1 == if self.selection_start < cursor_offset {
                cursor_offset
            } else {
                self.selection_start
            },
            r.0 <= r.1,
    {
        if self.selection_start < cursor_offset {
            (self.selection_start, cursor_offset)
        } else {
            (cursor_offset, self.selection_start)
        }
    }
}

} // verus!
