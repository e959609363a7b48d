//! An ordered registry of open buffers with a current selector.

use vstd::prelude::*;

use crate::buffer::{Buffer, BufferKind, spec_content_lines};

verus! {

/// The open buffers, in order, and the index of the current one. A scratch
/// buffer created with the set keeps it non-empty, so there is always a
/// current buffer.
pub struct BufferSet {
    pub buffers: Vec<Buffer>,
    pub current: usize,
}

impl BufferSet {
    /// The set invariant: at least one buffer, a current index that names
    /// one of them, and every buffer well-formed.
    pub open spec fn wf(&self) -> bool {
        &&& self.buffers@.len() >= 1
        &&& self.current < self.buffers@.len()
        &&& forall|i: int| 0 <= i < self.buffers@.len() ==> (#[trigger] self.buffers@[i]).wf()
    }

    /// A set holding an empty scratch buffer and one file buffer over the
    /// given path and content; the file buffer is current.
    pub fn new(initial_buffer_path: String, initial_buffer_content: &str) -> (r: BufferSet)
        ensures
            r.wf(),
            r.buffers@.len() == 2,
            r.buffers@[0].kind is Other,
            r.buffers@[0].text() == seq![Seq::<char>::empty()],
            r.buffers@[1].kind == BufferKind::File(initial_buffer_path),
            r.buffers@[1].text() == spec_content_lines(initial_buffer_content@),
            r.current == 1,
    {
        let scratch_buffer = Buffer::new(BufferKind::Other, "");
        let current_buffer = Buffer::new(
            BufferKind::File(initial_buffer_path),
            initial_buffer_content,
        );
        proof {
            reveal_strlit("");
            assert(""@ =~= Seq::<char>::empty());
            assert(scratch_buffer.text() =~~= seq![Seq::<char>::empty()]);
        }
        let mut buffers: Vec<Buffer> = Vec::new();
        buffers.push(scratch_buffer);
        buffers.push(current_buffer);
        BufferSet { buffers, current: 1 }
    }

    /// The current buffer. The set invariant guarantees it exists, so this
    /// always succeeds.
    pub fn current_buffer(&self) -> (r: &Buffer)
        requires
            self.wf(),
        ensures
            *r == self.buffers@[self.current as int],
    {
        &self.buffers[self.current]
    }

    /// The current buffer, mutably. The set invariant guarantees it exists,
    /// so this always succeeds.
    pub fn current_buffer_mut(&mut self) -> (r: &mut Buffer)
        requires
            old(self).wf(),
        ensures
            *r == old(self).buffers@[old(self).current as int],
            final(self).buffers@ == old(self).buffers@.update(
                old(self).current as int,
                *final(r),
            ),
            final(self).current == old(self).current,
    {
        &mut self.buffers[self.current]
    }

    /// How many buffers are open.
    #[inline]
    pub fn count(&self) -> (r: usize)
        ensures
            r == self.buffers@.len(),
    {
        self.buffers.len()
    }

    /// Whether the current buffer is the first of the set.
    #[inline]
    pub fn current_is_first(&self) -> (r: bool)
        ensures
            r == (self.current == 0),
    {
        self.current == 0
    }

    /// Whether the current buffer is the last of the set.
    #[inline]
    pub fn current_is_last(&self) -> (r: bool)
        requires
            self.wf(),
        ensures
            r == (self.buffers@.len() == self.current + 1),
    {
        self.count() == self.current + 1
    }

    /// Makes the next buffer current. With a single buffer nothing happens;
    /// past the last buffer the selection wraps to the first only if
    /// `wrap_at_end` allows it. Reports whether the current buffer changed.
    pub fn goto_next(&mut self, wrap_at_end: bool) -> (r: bool)
        requires
            old(self).wf(),
        ensures
            final(self).wf(),
            final(self).buffers == old(self).buffers,
            ({
                let n = old(self).buffers@.len() as int;
                let cur = old(self).current as int;
                if n == 1 {
                    r == false && final(self).current == cur
                } else if cur == n - 1 {
                    if wrap_at_end {
                        r == true && final(self).current == 0
                    } else {
                        r == false && final(self).current == cur
                    }
                } else {
                    r == true && final(self).current == cur + 1
                }
            }),
    {
        if self.count() == 1 {
            false
        } else if self.current_is_last() {
            if !wrap_at_end {
                false
            } else {
                self.current = 0;
                true
            }
        } else {
            self.current = self.current + 1;
            true
        }
    }

    /// Makes the previous buffer current. With a single buffer nothing
    /// happens; before the first buffer the selection wraps to the last only
    /// if `wrap_at_start` allows it. Reports whether the current buffer
    /// changed.
    pub fn goto_previous(&mut self, wrap_at_start: bool) -> (r: bool)
        requires
            old(self).wf(),
        ensures
            final(self).wf(),
            final(self).buffers == old(self).buffers,
            ({
                let n = old(self).buffers@.len() as int;
                let cur = old(self).current as int;
                if n == 1 {
                    r == false && final(self).current == cur
                } else if cur == 0 {
                    if wrap_at_start {
                        r == true && final(self).current == n - 1
                    } else {
                        r == false && final(self).current == cur
                    }
                } else {
                    r == true && final(self).current == cur - 1
                }
            }),
    {
        if self.count() == 1 {
            false
        } else if self.current_is_first() {
            if !wrap_at_start {
                false
            } else {
                self.current = self.count() - 1;
                true
            }
        } else {
            self.current = self.current - 1;
            true
        }
    }
}

} // verus!
