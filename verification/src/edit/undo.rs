//! Undo/redo stack with transaction grouping.
//!
//! Edits accumulate in a current group; a group commits explicitly or when
//! the gap since the group began exceeds a timeout. The clock is handed in
//! as plain milliseconds, so the policy itself is verified.

use vstd::prelude::*;

use crate::buffer::cursor::Cursor;
use crate::buffer::{BufError, Buffer};
use crate::edit::{edit_step_post, Edit};

verus! {

/// Edits bounded so that replaying them computes byte ranges without
/// overflow.
pub open spec fn edit_bounded(e: Edit) -> bool {
    &&& e.offset + vstd::utf8::encode_utf8(e.old_text@).len() <= usize::MAX
    &&& e.offset + vstd::utf8::encode_utf8(e.new_text@).len() <= usize::MAX
}

/// Marks the intermediate state of a two-step replay; always true, present
/// only to carry the quantified witness.
pub open spec fn chain_link(m: Buffer) -> bool {
    true
}

/// Replaying one stored edit backwards: the replaced text goes back in, the
/// replacement text comes out.
pub open spec fn rev_step_post(pre: Buffer, post: Buffer, e: Edit) -> bool {
    exists|m: Buffer|
        {
            &&& #[trigger] chain_link(m)
            &&& if e.old_text@.len() > 0 {
                Buffer::insert_post(&pre, &m, e.offset as int, e.old_text@)
            } else {
                m == pre
            }
            &&& if e.new_text@.len() > 0 {
                Buffer::delete_post(
                    &m,
                    &post,
                    e.offset as int,
                    e.offset + vstd::utf8::encode_utf8(e.new_text@).len(),
                )
            } else {
                post == m
            }
        }
}

/// Replaying a group forwards, first edit first.
pub open spec fn applies_group_fwd(s: Seq<Edit>, pre: Buffer, post: Buffer) -> bool
    decreases s.len(),
{
    if s.len() == 0 {
        post == pre
    } else {
        exists|m: Buffer|
            #[trigger] edit_step_post(pre, m, s[0]) && applies_group_fwd(s.drop_first(), m, post)
    }
}

/// Replaying a group backwards, last edit first, each edit reversed.
pub open spec fn applies_group_rev(s: Seq<Edit>, pre: Buffer, post: Buffer) -> bool
    decreases s.len(),
{
    if s.len() == 0 {
        post == pre
    } else {
        exists|m: Buffer|
            #[trigger] rev_step_post(pre, m, s.last()) && applies_group_rev(s.drop_last(), m, post)
    }
}

proof fn lemma_fwd_snoc(s: Seq<Edit>, e: Edit, a: Buffer, b: Buffer, c: Buffer)
    requires
        applies_group_fwd(s, a, b),
        edit_step_post(b, c, e),
    ensures
        applies_group_fwd(s.push(e), a, c),
    decreases s.len(),
{
    if s.len() == 0 {
        assert(s.push(e)[0] == e);
        assert(s.push(e).drop_first() =~= Seq::<Edit>::empty());
        assert(edit_step_post(a, c, e) && applies_group_fwd(s.push(e).drop_first(), c, c));
    } else {
        let m = choose|m: Buffer|
            #[trigger] edit_step_post(a, m, s[0]) && applies_group_fwd(s.drop_first(), m, b);
        lemma_fwd_snoc(s.drop_first(), e, m, b, c);
        assert(s.push(e)[0] == s[0]);
        assert(s.push(e).drop_first() =~= s.drop_first().push(e));
    }
}

proof fn lemma_rev_snoc(s: Seq<Edit>, a: Buffer, b: Buffer, c: Buffer)
    requires
        s.len() > 0,
        applies_group_rev(s.drop_first(), a, b),
        rev_step_post(b, c, s[0]),
    ensures
        applies_group_rev(s, a, c),
    decreases s.len(),
{
    if s.len() == 1 {
        assert(s.last() == s[0]);
        assert(s.drop_last() =~= Seq::<Edit>::empty());
        assert(s.drop_first() =~= Seq::<Edit>::empty());
        assert(b == a);
        assert(rev_step_post(a, c, s.last()) && applies_group_rev(s.drop_last(), c, c));
    } else {
        let t = s.drop_first();
        let m = choose|m: Buffer|
            #[trigger] rev_step_post(a, m, t.last()) && applies_group_rev(t.drop_last(), m, b);
        assert(s.last() == t.last());
        let s2 = s.drop_last();
        assert(s2.drop_first() =~= t.drop_last());
        assert(s2[0] == s[0]);
        assert(s2.len() > 0);
        lemma_rev_snoc(s2, m, b, c);
        assert(rev_step_post(a, m, s.last()) && applies_group_rev(s.drop_last(), m, c));
    }
}

proof fn lemma_wf_congruent(a: &UndoStack, b: &UndoStack)
    requires
        a.wf(),
        a.spec_max_size() == b.spec_max_size(),
        a.undo_groups() == b.undo_groups(),
        a.redo_groups() == b.redo_groups(),
        a.pending_edits() == b.pending_edits(),
    ensures
        b.wf(),
{
    assert forall|g: int|
        0 <= g < b.undo_groups().len() implies (#[trigger] b.undo_groups()[g]).bounded() by {
        assert(b.undo_groups()[g] == a.undo_groups()[g]);
        assert((a.undo_groups()[g]).bounded());
    }
    assert forall|g: int|
        0 <= g < b.redo_groups().len() implies (#[trigger] b.redo_groups()[g]).bounded() by {
        assert(b.redo_groups()[g] == a.redo_groups()[g]);
        assert((a.redo_groups()[g]).bounded());
    }
    assert forall|i: int|
        0 <= i < b.pending_edits().len() implies edit_bounded(#[trigger] b.pending_edits()[i]) by {
        assert(b.pending_edits()[i] == a.pending_edits()[i]);
        assert(edit_bounded(a.pending_edits()[i]));
    }
}

/// A group of edits undone and redone together.
#[derive(Debug, Clone)]
pub struct EditGroup {
    edits: Vec<Edit>,
}

impl EditGroup {
    pub closed spec fn spec_edits(&self) -> Seq<Edit> {
        self.edits@
    }

    pub open spec fn bounded(&self) -> bool {
        forall|i: int| 0 <= i < self.spec_edits().len() ==> edit_bounded(#[trigger] self.spec_edits()[i])
    }

    pub fn new(edits: Vec<Edit>) -> (r: EditGroup)
        ensures
            r.spec_edits() == edits@,
    {
        EditGroup { edits }
    }

    /// Replay the group forwards and park the cursor at the last edit's
    /// after-position.
    pub fn apply(&self, buffer: &mut Buffer, cursor: &mut Cursor) -> (r: Result<(), BufError>)
        requires
            old(buffer).wf(),
            self.bounded(),
        ensures
            r is Ok,
            final(buffer).wf(),
            applies_group_fwd(self.spec_edits(), *old(buffer), *final(buffer)),
            self.spec_edits().len() > 0 ==> {
                let last = self.spec_edits().last();
                &&& final(cursor).byte_offset == last.cursor_after.byte_offset
                &&& final(cursor).line == last.cursor_after.line
                &&& final(cursor).col == last.cursor_after.col
            },
    {
        let ghost pre = *old(buffer);
        let mut i: usize = 0;
        proof {
            assert(self.spec_edits().take(0) =~= Seq::<Edit>::empty());
        }
        while i < self.edits.len()
            invariant
                i <= self.edits@.len(),
                buffer.wf(),
                self.bounded(),
                applies_group_fwd(self.spec_edits().take(i as int), pre, *buffer),
            decreases self.edits@.len() - i,
        {
            let ghost mid0 = *buffer;
            let edit = &self.edits[i];
            if !edit.new_text.as_str().is_empty() {
                buffer.insert(edit.offset, edit.new_text.as_str())?;
            }
            let ghost m = *buffer;
            if !edit.old_text.as_str().is_empty() {
                let end = edit.offset + edit.old_text.as_str().as_bytes().len();
                buffer.delete(edit.offset, end)?;
                proof {
                    assert(edit.offset < end);
                }
            }
            proof {
                assert(chain_link(m));
                assert(edit_step_post(mid0, *buffer, self.spec_edits()[i as int]));
                lemma_fwd_snoc(
                    self.spec_edits().take(i as int),
                    self.spec_edits()[i as int],
                    pre,
                    mid0,
                    *buffer,
                );
                assert(self.spec_edits().take(i + 1) =~= self.spec_edits().take(i as int).push(
                    self.spec_edits()[i as int],
                ));
            }
            i = i + 1;
        }
        proof {
            assert(self.spec_edits().take(i as int) =~= self.spec_edits());
        }
        if self.edits.len() > 0 {
            let last = &self.edits[self.edits.len() - 1];
            cursor.byte_offset = last.cursor_after.byte_offset;
            cursor.line = last.cursor_after.line;
            cursor.col = last.cursor_after.col;
        }
        Ok(())
    }

    /// Replay the group backwards, each edit reversed, and park the cursor
    /// at the first edit's before-position.
    pub fn apply_reverse(&self, buffer: &mut Buffer, cursor: &mut Cursor) -> (r: Result<
        (),
        BufError,
    >)
        requires
            old(buffer).wf(),
            self.bounded(),
        ensures
            r is Ok,
            final(buffer).wf(),
            applies_group_rev(self.spec_edits(), *old(buffer), *final(buffer)),
            self.spec_edits().len() > 0 ==> {
                let first = self.spec_edits()[0];
                &&& final(cursor).byte_offset == first.cursor_before.byte_offset
                &&& final(cursor).line == first.cursor_before.line
                &&& final(cursor).col == first.cursor_before.col
            },
    {
        let ghost pre = *old(buffer);
        let mut i: usize = self.edits.len();
        proof {
            assert(self.spec_edits().skip(i as int) =~= Seq::<Edit>::empty());
        }
        while i > 0
            invariant
                i <= self.edits@.len(),
                buffer.wf(),
                self.bounded(),
                applies_group_rev(self.spec_edits().skip(i as int), pre, *buffer),
            decreases i,
        {
            i = i - 1;
            let ghost mid0 = *buffer;
            let edit = &self.edits[i];
            if !edit.old_text.as_str().is_empty() {
                buffer.insert(edit.offset, edit.old_text.as_str())?;
            }
            let ghost m = *buffer;
            if !edit.new_text.as_str().is_empty() {
                let end = edit.offset + edit.new_text.as_str().as_bytes().len();
                buffer.delete(edit.offset, end)?;
            }
            proof {
                let s = self.spec_edits().skip(i as int);
                assert(chain_link(m));
                assert(s[0] == self.spec_edits()[i as int]);
                assert(rev_step_post(mid0, *buffer, s[0]));
                assert(s.drop_first() =~= self.spec_edits().skip(i + 1));
                lemma_rev_snoc(s, pre, mid0, *buffer);
            }
        }
        proof {
            assert(self.spec_edits().skip(0) =~= self.spec_edits());
        }
        if self.edits.len() > 0 {
            let first = &self.edits[0];
            cursor.byte_offset = first.cursor_before.byte_offset;
            cursor.line = first.cursor_before.line;
            cursor.col = first.cursor_before.col;
        }
        Ok(())
    }
}

/// Undo/redo stack: committed groups, redoable groups, and the group being
/// built, with a millisecond timeout that splits groups.
pub struct UndoStack {
    stack: Vec<EditGroup>,
    redo_stack: Vec<EditGroup>,
    current_group: Vec<Edit>,
    max_size: usize,
    group_start_ms: Option<u64>,
    group_timeout_ms: u64,
}

impl UndoStack {
    pub closed spec fn undo_groups(&self) -> Seq<EditGroup> {
        self.stack@
    }

    pub closed spec fn redo_groups(&self) -> Seq<EditGroup> {
        self.redo_stack@
    }

    pub closed spec fn pending_edits(&self) -> Seq<Edit> {
        self.current_group@
    }

    pub closed spec fn spec_group_start(&self) -> Option<u64> {
        self.group_start_ms
    }

    pub closed spec fn spec_timeout(&self) -> u64 {
        self.group_timeout_ms
    }

    pub closed spec fn spec_max_size(&self) -> int {
        self.max_size as int
    }

    /// Every stored edit is bounded, and at least one undo level is kept.
    pub open spec fn wf(&self) -> bool {
        &&& self.spec_max_size() >= 1
        &&& forall|g: int| 0 <= g < self.undo_groups().len() ==> (#[trigger] self.undo_groups()[g]).bounded()
        &&& forall|g: int| 0 <= g < self.redo_groups().len() ==> (#[trigger] self.redo_groups()[g]).bounded()
        &&& forall|i: int| 0 <= i < self.pending_edits().len() ==> edit_bounded(#[trigger] self.pending_edits()[i])
    }

    pub fn new() -> (r: UndoStack)
        ensures
            r.wf(),
            r.undo_groups().len() == 0,
            r.redo_groups().len() == 0,
            r.pending_edits().len() == 0,
            r.spec_group_start() is None,
            r.spec_timeout() == 1000,
    {
        UndoStack {
            stack: Vec::new(),
            redo_stack: Vec::new(),
            current_group: Vec::new(),
            max_size: 1000,
            group_start_ms: None,
            group_timeout_ms: 1000,
        }
    }

    /// Record an edit at `now_ms`: an expired group commits first, a fresh
    /// group notes its start time, and any redo history dies.
    pub fn push(&mut self, edit: Edit, now_ms: u64)
        requires
            old(self).wf(),
            edit_bounded(edit),
        ensures
            final(self).wf(),
            final(self).redo_groups().len() == 0,
            final(self).pending_edits().len() > 0,
            final(self).pending_edits().last() == edit,
            final(self).spec_group_start() is Some,
    {
        match self.group_start_ms {
            Some(start_ms) => {
                if now_ms >= start_ms && now_ms - start_ms > self.group_timeout_ms {
                    self.commit_group();
                }
            },
            None => {},
        }
        let ghost base = *self;
        if self.group_start_ms.is_none() {
            self.group_start_ms = Some(now_ms);
        }
        let ghost pre = *self;
        proof {
            lemma_wf_congruent(&base, &pre);
        }
        self.current_group.push(edit);
        self.redo_stack = Vec::new();
        proof {
            assert forall|i: int|
                0 <= i < self.pending_edits().len() implies edit_bounded(
                #[trigger] self.pending_edits()[i],
            ) by {
                if i < pre.pending_edits().len() {
                    assert(self.pending_edits()[i] == pre.pending_edits()[i]);
                    assert(edit_bounded(pre.pending_edits()[i]));
                }
            }
            assert forall|g: int|
                0 <= g < self.undo_groups().len() implies (#[trigger] self.undo_groups()[
                g
            ]).bounded() by {
                assert(self.undo_groups()[g] == pre.undo_groups()[g]);
                assert((pre.undo_groups()[g]).bounded());
            }
        }
    }

    /// Open an explicit transaction: any pending edits commit first.
    pub fn begin_group(&mut self, now_ms: u64)
        requires
            old(self).wf(),
        ensures
            final(self).wf(),
            final(self).pending_edits().len() == 0,
            final(self).spec_group_start() == Some(now_ms),
    {
        if self.current_group.len() > 0 {
            self.commit_group();
        }
        let ghost pre = *self;
        self.group_start_ms = Some(now_ms);
        proof {
            lemma_wf_congruent(&pre, self);
        }
    }

    /// Close the current transaction.
    pub fn end_group(&mut self)
        requires
            old(self).wf(),
        ensures
            final(self).wf(),
            final(self).pending_edits().len() == 0,
            old(self).pending_edits().len() > 0 ==> final(self).undo_groups().len() > 0
                && final(self).undo_groups().last().spec_edits() == old(self).pending_edits(),
    {
        self.commit_group();
    }

    /// Move the pending edits onto the undo stack as one group, dropping
    /// the oldest group past the size bound.
    fn commit_group(&mut self)
        requires
            old(self).wf(),
        ensures
            final(self).wf(),
            final(self).pending_edits().len() == 0,
            final(self).redo_groups() == old(self).redo_groups(),
            old(self).pending_edits().len() > 0 ==> final(self).undo_groups().len() > 0
                && final(self).undo_groups().last().spec_edits() == old(self).pending_edits(),
            old(self).pending_edits().len() == 0 ==> *final(self) == *old(self),
    {
        if self.current_group.len() == 0 {
            return ;
        }
        let mut edits: Vec<Edit> = Vec::new();
        core::mem::swap(&mut edits, &mut self.current_group);
        let group = EditGroup::new(edits);
        proof {
            assert(group.spec_edits() == old(self).pending_edits());
            assert forall|i: int|
                0 <= i < group.spec_edits().len() implies edit_bounded(
                #[trigger] group.spec_edits()[i],
            ) by {
                assert(group.spec_edits()[i] == old(self).pending_edits()[i]);
                assert(edit_bounded(old(self).pending_edits()[i]));
            }
        }
        let ghost st0 = self.stack@;
        self.group_start_ms = None;
        self.stack.push(group);
        proof {
            assert forall|g: int|
                0 <= g < self.undo_groups().len() implies (#[trigger] self.undo_groups()[
                g
            ]).bounded() by {
                if g < st0.len() {
                    assert(self.undo_groups()[g] == st0[g]);
                    assert(st0[g] == old(self).undo_groups()[g]);
                    assert((old(self).undo_groups()[g]).bounded());
                } else {
                    assert(self.undo_groups()[g] == group);
                }
            }
            assert forall|g: int|
                0 <= g < self.redo_groups().len() implies (#[trigger] self.redo_groups()[
                g
            ]).bounded() by {
                assert(self.redo_groups()[g] == old(self).redo_groups()[g]);
                assert((old(self).redo_groups()[g]).bounded());
            }
        }
        if self.stack.len() > self.max_size {
            let ghost mid = *self;
            let ghost st = self.stack@;
            self.stack.remove(0);
            proof {
                assert(self.stack@ =~= st.subrange(1, st.len() as int));
                assert forall|g: int|
                    0 <= g < self.undo_groups().len() implies (#[trigger] self.undo_groups()[
                    g
                ]).bounded() by {
                    assert(self.undo_groups()[g] == mid.undo_groups()[g + 1]);
                    assert((mid.undo_groups()[g + 1]).bounded());
                }
                assert(self.stack@.len() == st.len() - 1);
                assert(self.stack@[self.stack@.len() - 1] == st[st.len() - 1]);
            }
        }
    }

    /// Undo the newest group (committing pending edits first): the group
    /// replays backwards onto the buffer and moves to the redo stack.
    pub fn undo(&mut self, buffer: &mut Buffer, cursor: &mut Cursor) -> (r: Result<bool, BufError>)
        requires
            old(self).wf(),
            old(buffer).wf(),
        ensures
            final(self).wf(),
            final(buffer).wf(),
            r is Ok,
            old(self).pending_edits().len() == 0 && old(self).undo_groups().len() == 0 ==> r
                == Ok::<bool, BufError>(false) && *final(buffer) == *old(buffer),
            old(self).pending_edits().len() > 0 ==> r == Ok::<bool, BufError>(true)
                && applies_group_rev(old(self).pending_edits(), *old(buffer), *final(buffer)),
            old(self).pending_edits().len() == 0 && old(self).undo_groups().len() > 0 ==> r == Ok::<
                bool,
                BufError,
            >(true) && applies_group_rev(
                old(self).undo_groups().last().spec_edits(),
                *old(buffer),
                *final(buffer),
            ) && final(self).redo_groups().len() > 0,
    {
        self.commit_group();
        let ghost committed = *self;
        if self.stack.len() == 0 {
            return Ok(false);
        }
        let group = match self.stack.pop() {
            Some(g) => g,
            None => {
                proof {
                    assert(false);
                }
                return Ok(false);
            },
        };
        proof {
            assert(group == committed.undo_groups().last());
            assert(group.bounded());
            assert forall|g: int|
                0 <= g < self.undo_groups().len() implies (#[trigger] self.undo_groups()[
                g
            ]).bounded() by {
                assert(self.undo_groups()[g] == committed.undo_groups()[g]);
                assert((committed.undo_groups()[g]).bounded());
            }
        }
        group.apply_reverse(buffer, cursor)?;
        let ghost rd0 = self.redo_stack@;
        self.redo_stack.push(group);
        proof {
            assert forall|g: int|
                0 <= g < self.redo_groups().len() implies (#[trigger] self.redo_groups()[
                g
            ]).bounded() by {
                if g < rd0.len() {
                    assert(self.redo_groups()[g] == rd0[g]);
                    assert(rd0[g] == committed.redo_groups()[g]);
                    assert((committed.redo_groups()[g]).bounded());
                } else {
                    assert(self.redo_groups()[g] == group);
                }
            }
        }
        Ok(true)
    }

    /// Redo the newest undone group: it replays forwards and returns to the
    /// undo stack.
    pub fn redo(&mut self, buffer: &mut Buffer, cursor: &mut Cursor) -> (r: Result<bool, BufError>)
        requires
            old(self).wf(),
            old(buffer).wf(),
        ensures
            final(self).wf(),
            final(buffer).wf(),
            r is Ok,
            old(self).redo_groups().len() == 0 ==> r == Ok::<bool, BufError>(false)
                && *final(buffer) == *old(buffer),
            old(self).redo_groups().len() > 0 ==> r == Ok::<bool, BufError>(true)
                && applies_group_fwd(
                old(self).redo_groups().last().spec_edits(),
                *old(buffer),
                *final(buffer),
            ) && final(self).undo_groups().len() > 0,
    {
        let group = match self.redo_stack.pop() {
            Some(g) => g,
            None => {
                proof {
                    lemma_wf_congruent(old(self), self);
                }
                return Ok(false);
            },
        };
        proof {
            assert(group == old(self).redo_groups().last());
            assert(group.bounded());
            assert forall|g: int|
                0 <= g < self.redo_groups().len() implies (#[trigger] self.redo_groups()[
                g
            ]).bounded() by {
                assert(self.redo_groups()[g] == old(self).redo_groups()[g]);
                assert((old(self).redo_groups()[g]).bounded());
            }
        }
        group.apply(buffer, cursor)?;
        let ghost st0 = self.stack@;
        self.stack.push(group);
        proof {
            assert forall|g: int|
                0 <= g < self.undo_groups().len() implies (#[trigger] self.undo_groups()[
                g
            ]).bounded() by {
                if g < st0.len() {
                    assert(self.undo_groups()[g] == st0[g]);
                    assert(st0[g] == old(self).undo_groups()[g]);
                    assert((old(self).undo_groups()[g]).bounded());
                } else {
                    assert(self.undo_groups()[g] == group);
                }
            }
            assert forall|g: int|
                0 <= g < self.redo_groups().len() implies (#[trigger] self.redo_groups()[
                g
            ]).bounded() by {
                assert(self.redo_groups()[g] == old(self).redo_groups()[g]);
                assert((old(self).redo_groups()[g]).bounded());
            }
            assert forall|i: int|
                0 <= i < self.pending_edits().len() implies edit_bounded(
                #[trigger] self.pending_edits()[i],
            ) by {
                assert(self.pending_edits()[i] == old(self).pending_edits()[i]);
                assert(edit_bounded(old(self).pending_edits()[i]));
            }
        }
        Ok(true)
    }

    /// Whether anything can be undone: a committed group or pending edits.
    pub fn can_undo(&self) -> (r: bool)
        ensures
            r == (self.undo_groups().len() > 0 || self.pending_edits().len() > 0),
    {
        self.stack.len() > 0 || self.current_group.len() > 0
    }

    /// Whether anything can be redone.
    pub fn can_redo(&self) -> (r: bool)
        ensures
            r == (self.redo_groups().len() > 0),
    {
        self.redo_stack.len() > 0
    }

    /// Undo levels available: committed groups plus the pending group.
    pub fn undo_count(&self) -> (r: usize)
        requires
            self.undo_groups().len() < usize::MAX,
        ensures
            r == self.undo_groups().len() + if self.pending_edits().len() > 0 {
                1int
            } else {
                0int
            },
    {
        self.stack.len() + if self.current_group.len() > 0 {
            1
        } else {
            0
        }
    }
}


impl Default for UndoStack {
    /// An empty stack, as `new` builds it.
    fn default() -> (r: UndoStack)
        ensures
            r.wf(),
            r.undo_groups().len() == 0,
            r.redo_groups().len() == 0,
            r.pending_edits().len() == 0,
    {
        UndoStack::new()
    }
}

} // verus!
