//! Viewport bookkeeping for a renderer: which line is at the top of the
//! screen and how tall the screen is.

use vstd::prelude::*;

verus! {

pub struct Viewport {
    pub start_line: usize,
    pub height: usize,
}

impl Viewport {
    pub fn new(start_line: usize, height: usize) -> (v: Viewport)
        ensures
            v.start_line == start_line,
            v.height == height,
    {
        Viewport { start_line, height }
    }

    /// Scroll one line down, saturating at the largest representable line.
    pub fn scroll_down(&mut self)
        ensures
            final(self).start_line == if old(self).start_line < usize::MAX {
                old(self).start_line + 1
            } else {
                usize::MAX as int
            },
            final(self).height == old(self).height,
    {
        self.start_line = self.start_line.saturating_add(1);
    }

    /// Scroll one line up, saturating at the first line.
    pub fn scroll_up(&mut self)
        ensures
            final(self).start_line == if old(self).start_line > 0 {
                old(self).start_line - 1
            } else {
                0int
            },
            final(self).height == old(self).height,
    {
        self.start_line = self.start_line.saturating_sub(1);
    }

    /// Scroll half a screen down, saturating at the largest representable line.
    pub fn scroll_down_page(&mut self)
        ensures
            final(self).start_line == if old(self).start_line + old(self).height / 2
                <= usize::MAX {
                old(self).start_line + old(self).height / 2
            } else {
                usize::MAX as int
            },
            final(self).height == old(self).height,
    {
        self.start_line = self.start_line.saturating_add(self.height / 2);
    }

    /// Scroll half a screen up, saturating at the first line.
    pub fn scroll_up_page(&mut self)
        ensures
            final(self).start_line == if old(self).start_line >= old(self).height / 2 {
                old(self).start_line - old(self).height / 2
            } else {
                0int
            },
            final(self).height == old(self).height,
    {
        self.start_line = self.start_line.saturating_sub(self.height / 2);
    }
}

} // verus!
