//! The caret position and the selection state of a buffer.

use vstd::prelude::*;

verus! {

/// A caret position: a logical line number and a character offset into that
/// line's content.
#[derive(Clone, Copy, Debug, PartialEq, Eq, Structural)]
pub struct Cursor {
    pub line: usize,
    pub index: usize,
}

/// Line-then-index ordering on caret positions: compare the line first and,
/// on equal lines, the character offset.
pub open spec fn cursor_le(a: Cursor, b: Cursor) -> bool {
    a.line < b.line || (a.line == b.line && a.index <= b.index)
}

/// Strict variant of the line-then-index ordering.
pub open spec fn cursor_lt(a: Cursor, b: Cursor) -> bool {
    a.line < b.line || (a.line == b.line && a.index < b.index)
}

/// The selection state of a buffer. While a selection is active, the anchor
/// stays fixed and the live cursor is the moving endpoint.
#[derive(Clone, Copy, Debug)]
pub enum Selection {
    /// No selection is active.
    Inactive,
    /// A selection anchored at the stored position.
    Normal(Cursor),
}

/// The ordered endpoints of a selection between `anchor` and `cursor`: the
/// earlier position under the line-then-index ordering comes first, and on a
/// complete tie the cursor comes first.
pub open spec fn spec_selection_bounds(anchor: Cursor, cursor: Cursor) -> (Cursor, Cursor) {
    if cursor_lt(anchor, cursor) {
        (anchor, cursor)
    } else {
        (cursor, anchor)
    }
}

/// For every anchor/cursor pair, the selection bounds come out ordered:
/// the start is at or before the end under the line-then-index ordering.
pub proof fn lemma_selection_bounds_ordered(anchor: Cursor, cursor: Cursor)
    ensures
        cursor_le(spec_selection_bounds(anchor, cursor).0, spec_selection_bounds(anchor, cursor).1),
{
}

} // verus!
