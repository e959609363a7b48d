//! One logical line of stored text.

use vstd::prelude::*;

verus! {

/// A single logical line: its character content, with no embedded newline.
/// (The newline characters that separate lines are implicit; they are never
/// stored in a line's content.)
pub struct Line {
    pub content: Vec<char>,
}

impl View for Line {
    type V = Seq<char>;

    open spec fn view(&self) -> Seq<char> {
        self.content@
    }
}

impl Line {
    /// A line with the given content.
    pub fn new(content: Vec<char>) -> (r: Line)
        ensures
            r@ == content@,
    {
        Line { content }
    }

    /// The number of characters on the line.
    pub fn len(&self) -> (r: usize)
        ensures
            r == self@.len(),
    {
        self.content.len()
    }

    /// Concatenates the other line's content onto this one.
    pub fn append(&mut self, other: Line)
        ensures
            final(self)@ == old(self)@ + other@,
    {
        let mut o = other;
        self.content.append(&mut o.content);
    }

    /// Removes and returns the suffix starting at `index`, keeping only the
    /// prefix in this line.
    pub fn split_off(&mut self, index: usize) -> (r: Line)
        requires
            index <= old(self)@.len(),
        ensures
            final(self)@ == old(self)@.take(index as int),
            r@ == old(self)@.skip(index as int),
    {
        let tail = self.content.split_off(index);
        Line { content: tail }
    }
}

} // verus!
