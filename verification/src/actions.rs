//! The edit commands: the single atomic command surface over a buffer.
//! Every command either mutates the lines, cursor, selection or scroll state
//! as stated, or leaves the buffer unchanged; each preserves the buffer
//! invariant.

use vstd::prelude::*;

use crate::buffer::{Buffer, spec_delete, spec_insert_text, spec_insert_cursor};
use crate::buffer::lemma_delete_no_newlines;
use crate::cursor::{Cursor, Selection};
use crate::rows::{row_count, buffer_row_models, row_model_valid};
use crate::rows::{lemma_row_count_pos, lemma_row_count_closed};
use crate::segment::{
    grapheme_spans_of, word_spans_of, spec_grapheme_at, spec_prev_word_start, spec_next_word_end,
    grapheme_range_at, prev_word_start, next_word_end,
};
use vstd::arithmetic::div_mod::lemma_div_plus_one;
use vstd::arithmetic::div_mod::lemma_div_nonincreasing;
use vstd::arithmetic::div_mod::lemma_div_pos_is_pos;

verus! {

/// One discrete edit command, already resolved from raw input by the caller.
pub enum EditAction {
    /// Types one character at the cursor (a newline splits the line).
    Insert(char),
    /// Drops the selection without touching the text.
    ClearSelection,
    /// Deletes the selected range, if one is active.
    DeleteSelection,
    /// Splits the current line at the cursor.
    NewLine,
    /// Deletes one scalar backward, or merges with the previous line.
    Backspace,
    /// Deletes one grapheme cluster forward, or merges with the next line.
    Delete,
    /// Moves the cursor to the visual cell `(x, y)` of the viewport.
    Click((u16, u16)),
    /// Moves one scalar left, wrapping to the previous line's end.
    MoveLeft,
    /// Moves one scalar right, wrapping to the next line's start.
    MoveRight,
    /// Moves one visual row up, aware of line wrapping.
    MoveUp,
    /// Moves one visual row down, aware of line wrapping.
    MoveDown,
    /// Jumps to the nearest word boundary before the cursor.
    MovePrevWord,
    /// Jumps to the nearest word boundary after the cursor.
    MoveNextWord,
    /// Scrolls one row up, stopping at the top.
    ScrollUp,
    /// Scrolls one row down, stopping at the line count.
    ScrollDown,
}

/// `i`, clamped from above to `len`.
pub open spec fn clamp_to(i: int, len: int) -> int {
    if i <= len {
        i
    } else {
        len
    }
}

/// The wrapped row of a line (of length `len`, at width `cols`) that the
/// character offset `idx` falls in: `idx / cols`, clamped to the last row.
pub open spec fn spec_row_of_index(len: int, cols: int, idx: int) -> int {
    let rc = row_count(len, cols);
    let q = idx / cols;
    if q <= rc - 1 {
        q
    } else {
        rc - 1
    }
}

/// The cursor after moving one scalar left: back one character, or to the
/// end of the previous line, or nowhere at the document's start.
pub open spec fn spec_move_left(text: Seq<Seq<char>>, cur: Cursor) -> Cursor {
    if cur.index > 0 {
        Cursor { line: cur.line, index: (cur.index - 1) as usize }
    } else if cur.line > 0 {
        Cursor { line: (cur.line - 1) as usize, index: text[cur.line - 1].len() as usize }
    } else {
        cur
    }
}

/// The cursor after moving one scalar right: forward one character, or to
/// the start of the next line, or nowhere at the document's end.
pub open spec fn spec_move_right(text: Seq<Seq<char>>, cur: Cursor) -> Cursor {
    if cur.index < text[cur.line as int].len() {
        Cursor { line: cur.line, index: (cur.index + 1) as usize }
    } else if cur.line + 1 < text.len() {
        Cursor { line: (cur.line + 1) as usize, index: 0 }
    } else {
        cur
    }
}

/// The cursor after moving one visual row up. Within a wrapped line it keeps
/// the column offset one row above; from a line's first row it moves to the
/// previous logical line, landing on that line's last wrapped row (keeping
/// the in-row offset) or clamping to its length.
pub open spec fn spec_move_up(text: Seq<Seq<char>>, cols: int, cur: Cursor) -> Cursor {
    let len = text[cur.line as int].len() as int;
    if len > cols {
        let ri = spec_row_of_index(len, cols, cur.index as int);
        if ri > 0 {
            Cursor {
                line: cur.line,
                index: clamp_to((ri - 1) * cols + (cur.index as int % cols), len) as usize,
            }
        } else if cur.line > 0 {
            let plen = text[cur.line - 1].len() as int;
            Cursor { line: (cur.line - 1) as usize, index: clamp_to(cur.index as int, plen) as usize }
        } else {
            cur
        }
    } else if cur.line > 0 {
        let plen = text[cur.line - 1].len() as int;
        let rc2 = row_count(plen, cols);
        if rc2 > 1 {
            let row_len = plen % cols;
            if row_len < cur.index {
                Cursor { line: (cur.line - 1) as usize, index: plen as usize }
            } else {
                Cursor {
                    line: (cur.line - 1) as usize,
                    index: clamp_to((rc2 - 1) * cols + cur.index, plen) as usize,
                }
            }
        } else {
            Cursor { line: (cur.line - 1) as usize, index: clamp_to(cur.index as int, plen) as usize }
        }
    } else {
        cur
    }
}

/// The cursor after moving one visual row down. Within a wrapped line it
/// keeps the column offset one row below (clamped to the line's end); from a
/// line's last row it moves to the next logical line, clamping to its
/// length.
pub open spec fn spec_move_down(text: Seq<Seq<char>>, cols: int, cur: Cursor) -> Cursor {
    let len = text[cur.line as int].len() as int;
    if len > cols {
        let rc = row_count(len, cols);
        let ri = spec_row_of_index(len, cols, cur.index as int);
        if ri + 1 < rc {
            Cursor {
                line: cur.line,
                index: clamp_to((ri + 1) * cols + (cur.index as int % cols), len) as usize,
            }
        } else if cur.line + 1 < text.len() {
            let nlen = text[cur.line + 1].len() as int;
            Cursor { line: (cur.line + 1) as usize, index: clamp_to(cur.index as int, nlen) as usize }
        } else {
            cur
        }
    } else if cur.line + 1 < text.len() {
        let nlen = text[cur.line + 1].len() as int;
        Cursor { line: (cur.line + 1) as usize, index: clamp_to(cur.index as int, nlen) as usize }
    } else {
        cur
    }
}

/// Where Backspace deletes from: one character back on the same line, or the
/// end of the previous line, or the cursor itself at the document's start.
pub open spec fn spec_backspace_start(text: Seq<Seq<char>>, cur: Cursor) -> Cursor {
    if cur.index > 0 {
        Cursor { line: cur.line, index: (cur.index - 1) as usize }
    } else if cur.line > 0 {
        Cursor { line: (cur.line - 1) as usize, index: text[cur.line - 1].len() as usize }
    } else {
        cur
    }
}

/// The cursor after jumping to the previous word boundary: the nearest word
/// start strictly before the cursor on its line (or the line's start), or
/// the end of the previous line.
pub open spec fn spec_move_prev_word(text: Seq<Seq<char>>, cur: Cursor) -> Cursor {
    if cur.index > 0 {
        Cursor {
            line: cur.line,
            index: spec_prev_word_start(word_spans_of(text[cur.line as int]), cur.index as int),
        }
    } else if cur.line > 0 {
        Cursor { line: (cur.line - 1) as usize, index: text[cur.line - 1].len() as usize }
    } else {
        cur
    }
}

/// The cursor after jumping to the next word boundary: the nearest word end
/// strictly after the cursor on its line (or the line's end), or the start
/// of the next line.
pub open spec fn spec_move_next_word(text: Seq<Seq<char>>, cur: Cursor) -> Cursor {
    if cur.index < text[cur.line as int].len() {
        Cursor {
            line: cur.line,
            index: spec_next_word_end(
                word_spans_of(text[cur.line as int]),
                cur.index as int,
                text[cur.line as int].len() as usize,
            ),
        }
    } else if cur.line + 1 < text.len() {
        Cursor { line: (cur.line + 1) as usize, index: 0 }
    } else {
        cur
    }
}

/// The cursor after a click at visual cell `(x, y)`: the owning line of the
/// `y`-th visible row, at that row's start plus `x`, clamped to the row's
/// end; an empty cell leaves the cursor alone.
pub open spec fn spec_click(b: Buffer, x: u16, y: u16) -> Cursor {
    let vis = buffer_row_models(b.text(), b.cols as int).subrange(
        b.spec_visible_range().0,
        b.spec_visible_range().1,
    );
    if (y as int) < vis.len() {
        let m = vis[y as int];
        let add = clamp_to(x as int, m.content.len() as int);
        Cursor { line: m.line_index as usize, index: (m.index * b.cols + add) as usize }
    } else {
        b.cursor
    }
}

/// The scroll offset after scrolling up one row, stopping at zero.
pub open spec fn spec_scroll_up(s: u16) -> u16 {
    if s >= 1 {
        (s - 1) as u16
    } else {
        0u16
    }
}

/// The scroll offset after scrolling down one row: one more, saturating both
/// at the line count and at the offset's own range.
pub open spec fn spec_scroll_down(s: u16, nlines: int) -> u16 {
    let cap = if nlines <= 65535 {
        nlines
    } else {
        65535
    };
    let next = if s as int + 1 <= 65535 {
        s as int + 1
    } else {
        65535
    };
    (if next <= cap {
        next
    } else {
        cap
    }) as u16
}

/// The start of a line's last wrapped row lies strictly inside the line,
/// and the line ends within its last row.
pub proof fn lemma_row_bounds(len: int, cols: int)
    requires
        cols >= 1,
        len >= 1,
    ensures
        (row_count(len, cols) - 1) * cols < len,
        len <= row_count(len, cols) * cols,
    decreases len,
{
    if len <= cols {
        assert((row_count(len, cols) - 1) * cols == 0) by (nonlinear_arith)
            requires
                row_count(len, cols) == 1,
        ;
        assert(row_count(len, cols) * cols == cols) by (nonlinear_arith)
            requires
                row_count(len, cols) == 1,
        ;
    } else {
        lemma_row_bounds(len - cols, cols);
        let rcp = row_count(len - cols, cols);
        assert((rcp + 1 - 1) * cols == (rcp - 1) * cols + cols) by (nonlinear_arith);
        assert((rcp + 1) * cols == rcp * cols + cols) by (nonlinear_arith);
    }
}

/// Multiplying by a nonnegative number preserves order.
proof fn lemma_mul_le(a: int, b: int, c: int)
    requires
        a <= b,
        c >= 0,
    ensures
        a * c <= b * c,
{
    assert(a * c <= b * c) by (nonlinear_arith)
        requires
            a <= b,
            c >= 0,
    ;
}

impl Buffer {
    /// Applies one edit command atomically: the buffer either changes as the
    /// command prescribes or stays as it was, and the buffer invariant is
    /// preserved either way.
    pub fn perform_action(&mut self, action: EditAction)
        requires
            old(self).wf(),
            (action is Insert || action is NewLine) ==> old(self).can_insert(1),
            (action is Click || action is MoveUp || action is MoveDown) ==> old(self).cols >= 1,
            action is Click ==> buffer_row_models(old(self).text(), old(self).cols as int).len()
                <= usize::MAX,
        ensures
            final(self).wf(),
            final(self).kind == old(self).kind,
            final(self).needs_reparse == old(self).needs_reparse,
            final(self).rows == old(self).rows,
            final(self).cols == old(self).cols,
            match action {
                EditAction::Insert(ch) => {
                    &&& final(self).text() == spec_insert_text(
                        old(self).collapsed().0,
                        old(self).collapsed().1,
                        seq![ch],
                    )
                    &&& final(self).cursor == spec_insert_cursor(
                        old(self).collapsed().0,
                        old(self).collapsed().1,
                        seq![ch],
                    )
                    &&& final(self).selection is Inactive
                    &&& final(self).scroll_y_offset == old(self).scroll_y_offset
                },
                EditAction::NewLine => {
                    &&& final(self).text() == spec_insert_text(
                        old(self).collapsed().0,
                        old(self).collapsed().1,
                        seq!['\n'],
                    )
                    &&& final(self).cursor == spec_insert_cursor(
                        old(self).collapsed().0,
                        old(self).collapsed().1,
                        seq!['\n'],
                    )
                    &&& final(self).selection is Inactive
                    &&& final(self).scroll_y_offset == old(self).scroll_y_offset
                },
                EditAction::ClearSelection => {
                    &&& final(self).lines == old(self).lines
                    &&& final(self).cursor == old(self).cursor
                    &&& final(self).selection is Inactive
                    &&& final(self).scroll_y_offset == old(self).scroll_y_offset
                },
                EditAction::DeleteSelection => {
                    &&& final(self).text() == old(self).collapsed().0
                    &&& final(self).cursor == old(self).collapsed().1
                    &&& final(self).selection is Inactive
                    &&& final(self).scroll_y_offset == old(self).scroll_y_offset
                },
                EditAction::Backspace => {
                    &&& final(self).scroll_y_offset == old(self).scroll_y_offset
                    &&& match old(self).selection {
                        Selection::Normal(_) => {
                            &&& final(self).text() == old(self).collapsed().0
                            &&& final(self).cursor == old(self).collapsed().1
                            &&& final(self).selection is Inactive
                        },
                        Selection::Inactive => {
                            let s = spec_backspace_start(old(self).text(), old(self).cursor);
                            &&& final(self).selection is Inactive
                            &&& if s == old(self).cursor {
                                final(self).lines == old(self).lines && final(self).cursor == old(
                                    self,
                                ).cursor
                            } else {
                                final(self).text() == spec_delete(
                                    old(self).text(),
                                    s,
                                    old(self).cursor,
                                ) && final(self).cursor == s
                            }
                        },
                    }
                },
                EditAction::Delete => {
                    &&& final(self).scroll_y_offset == old(self).scroll_y_offset
                    &&& match old(self).selection {
                        Selection::Normal(_) => {
                            &&& final(self).text() == old(self).collapsed().0
                            &&& final(self).cursor == old(self).collapsed().1
                            &&& final(self).selection is Inactive
                        },
                        Selection::Inactive => {
                            let line = old(self).text()[old(self).cursor.line as int];
                            &&& final(self).selection is Inactive
                            &&& if old(self).cursor.index < line.len() {
                                let g = spec_grapheme_at(
                                    grapheme_spans_of(line),
                                    old(self).cursor.index as int,
                                );
                                final(self).text() == spec_delete(
                                    old(self).text(),
                                    Cursor { line: old(self).cursor.line, index: g.0 },
                                    Cursor {
                                        line: old(self).cursor.line,
                                        index: (g.0 + g.1) as usize,
                                    },
                                ) && final(self).cursor == (Cursor {
                                    line: old(self).cursor.line,
                                    index: g.0,
                                })
                            } else if old(self).cursor.line + 1 < old(self).text().len() {
                                final(self).text() == spec_delete(
                                    old(self).text(),
                                    old(self).cursor,
                                    Cursor { line: (old(self).cursor.line + 1) as usize, index: 0 },
                                ) && final(self).cursor == old(self).cursor
                            } else {
                                final(self).lines == old(self).lines && final(self).cursor == old(
                                    self,
                                ).cursor
                            }
                        },
                    }
                },
                EditAction::Click(xy) => {
                    &&& final(self).lines == old(self).lines
                    &&& final(self).selection == old(self).selection
                    &&& final(self).scroll_y_offset == old(self).scroll_y_offset
                    &&& final(self).cursor == spec_click(*old(self), xy.0, xy.1)
                },
                EditAction::MoveLeft => {
                    &&& final(self).lines == old(self).lines
                    &&& final(self).selection == old(self).selection
                    &&& final(self).scroll_y_offset == old(self).scroll_y_offset
                    &&& final(self).cursor == spec_move_left(old(self).text(), old(self).cursor)
                },
                EditAction::MoveRight => {
                    &&& final(self).lines == old(self).lines
                    &&& final(self).selection == old(self).selection
                    &&& final(self).scroll_y_offset == old(self).scroll_y_offset
                    &&& final(self).cursor == spec_move_right(old(self).text(), old(self).cursor)
                },
                EditAction::MoveUp => {
                    &&& final(self).lines == old(self).lines
                    &&& final(self).selection == old(self).selection
                    &&& final(self).scroll_y_offset == old(self).scroll_y_offset
                    &&& final(self).cursor == spec_move_up(
                        old(self).text(),
                        old(self).cols as int,
                        old(self).cursor,
                    )
                },
                EditAction::MoveDown => {
                    &&& final(self).lines == old(self).lines
                    &&& final(self).selection == old(self).selection
                    &&& final(self).scroll_y_offset == old(self).scroll_y_offset
                    &&& final(self).cursor == spec_move_down(
                        old(self).text(),
                        old(self).cols as int,
                        old(self).cursor,
                    )
                },
                EditAction::MovePrevWord => {
                    &&& final(self).lines == old(self).lines
                    &&& final(self).selection == old(self).selection
                    &&& final(self).scroll_y_offset == old(self).scroll_y_offset
                    &&& final(self).cursor == spec_move_prev_word(
                        old(self).text(),
                        old(self).cursor,
                    )
                },
                EditAction::MoveNextWord => {
                    &&& final(self).lines == old(self).lines
                    &&& final(self).selection == old(self).selection
                    &&& final(self).scroll_y_offset == old(self).scroll_y_offset
                    &&& final(self).cursor == spec_move_next_word(
                        old(self).text(),
                        old(self).cursor,
                    )
                },
                EditAction::ScrollUp => {
                    &&& final(self).lines == old(self).lines
                    &&& final(self).cursor == old(self).cursor
                    &&& final(self).selection == old(self).selection
                    &&& final(self).scroll_y_offset == spec_scroll_up(old(self).scroll_y_offset)
                },
                EditAction::ScrollDown => {
                    &&& final(self).lines == old(self).lines
                    &&& final(self).cursor == old(self).cursor
                    &&& final(self).selection == old(self).selection
                    &&& final(self).scroll_y_offset == spec_scroll_down(
                        old(self).scroll_y_offset,
                        old(self).text().len() as int,
                    )
                },
            },
    {
        match action {
            EditAction::Insert(ch) => {
                let mut v: Vec<char> = Vec::new();
                v.push(ch);
                proof {
                    assert(v@ =~= seq![ch]);
                }
                self.insert_string(&v);
            },
            EditAction::ClearSelection => {
                self.selection = Selection::Inactive;
            },
            EditAction::DeleteSelection => {
                let _ = self.delete_selection();
            },
            EditAction::NewLine => {
                let mut v: Vec<char> = Vec::new();
                v.push('\n');
                proof {
                    assert(v@ =~= seq!['\n']);
                }
                self.insert_string(&v);
            },
            EditAction::Backspace => {
                if self.delete_selection() {
                    // The selection was the deletion target.
                } else {
                    let ghost t = self.text();
                    let end = self.cursor;
                    if self.cursor.index > 0 {
                        self.cursor.index = self.cursor.index - 1;
                    } else if self.cursor.line > 0 {
                        self.cursor.line = self.cursor.line - 1;
                        self.cursor.index = self.lines[self.cursor.line].len();
                    }
                    if self.cursor != end {
                        proof {
                            lemma_delete_no_newlines(t, self.cursor, end);
                        }
                        let start = self.cursor;
                        self.delete_range(start, end);
                    }
                }
            },
            EditAction::Delete => {
                if self.delete_selection() {
                    // The selection was the deletion target.
                } else {
                    let ghost t = self.text();
                    let ll = self.lines[self.cursor.line].len();
                    if self.cursor.index < ll {
                        let g = grapheme_range_at(
                            &self.lines[self.cursor.line].content,
                            self.cursor.index,
                        );
                        let start = Cursor { line: self.cursor.line, index: g.0 };
                        let end = Cursor { line: self.cursor.line, index: g.0 + g.1 };
                        self.cursor = start;
                        proof {
                            lemma_delete_no_newlines(t, start, end);
                        }
                        self.delete_range(start, end);
                    } else {
                        let n = self.lines.len();
                        if self.cursor.line + 1 < n {
                            let start = self.cursor;
                            let end = Cursor { line: self.cursor.line + 1, index: 0 };
                            proof {
                                lemma_delete_no_newlines(t, start, end);
                            }
                            self.delete_range(start, end);
                        }
                    }
                }
            },
            EditAction::Click(xy) => {
                let x = xy.0;
                let y = xy.1;
                let vis = self.visible_rows();
                if (y as usize) < vis.len() {
                    let row = &vis[y as usize];
                    proof {
                        assert(row_model_valid(self.text(), self.cols as int, row@));
                    }
                    let line_len = self.lines[row.line_index].len();
                    proof {
                        assert(row@.index * (self.cols as int) + row@.content.len()
                            <= line_len as int);
                    }
                    let add = if (x as usize) > row.content.len() {
                        row.content.len()
                    } else {
                        x as usize
                    };
                    let base = row.index * self.cols;
                    self.cursor = Cursor { line: row.line_index, index: base + add };
                }
            },
            EditAction::MoveLeft => {
                if self.cursor.index > 0 {
                    self.cursor.index = self.cursor.index - 1;
                } else if self.cursor.line > 0 {
                    self.cursor.line = self.cursor.line - 1;
                    self.cursor.index = self.lines[self.cursor.line].len();
                }
            },
            EditAction::MoveRight => {
                let ll = self.lines[self.cursor.line].len();
                if self.cursor.index < ll {
                    self.cursor.index = self.cursor.index + 1;
                } else {
                    let n = self.lines.len();
                    if self.cursor.line + 1 < n {
                        self.cursor.line = self.cursor.line + 1;
                        self.cursor.index = 0;
                    }
                }
            },
            EditAction::MoveUp => {
                let ghost c = self.cols as int;
                let ll = self.lines[self.cursor.line].len();
                if ll > self.cols {
                    let rc = row_count_exec(ll, self.cols);
                    let q = self.cursor.index / self.cols;
                    let ri = if q <= rc - 1 {
                        q
                    } else {
                        rc - 1
                    };
                    if ri > 0 {
                        proof {
                            lemma_row_bounds(ll as int, c);
                            lemma_mul_le(ri as int - 1, row_count(ll as int, c) - 1, c);
                        }
                        let base = (ri - 1) * self.cols;
                        let off = self.cursor.index % self.cols;
                        let ni = if off <= ll - base {
                            base + off
                        } else {
                            ll
                        };
                        self.cursor.index = ni;
                    } else if self.cursor.line > 0 {
                        let pl = self.lines[self.cursor.line - 1].len();
                        self.cursor.line = self.cursor.line - 1;
                        if pl < self.cursor.index {
                            self.cursor.index = pl;
                        }
                    }
                } else if self.cursor.line > 0 {
                    let pl = self.lines[self.cursor.line - 1].len();
                    let rc2 = row_count_exec(pl, self.cols);
                    if rc2 > 1 {
                        let row_len = pl % self.cols;
                        if row_len < self.cursor.index {
                            self.cursor = Cursor { line: self.cursor.line - 1, index: pl };
                        } else {
                            proof {
                                lemma_row_bounds(pl as int, c);
                                lemma_mul_le(rc2 as int - 1, row_count(pl as int, c) - 1, c);
                            }
                            let base = (rc2 - 1) * self.cols;
                            let ni = if self.cursor.index <= pl - base {
                                base + self.cursor.index
                            } else {
                                pl
                            };
                            self.cursor = Cursor { line: self.cursor.line - 1, index: ni };
                        }
                    } else {
                        let ni = if pl < self.cursor.index {
                            pl
                        } else {
                            self.cursor.index
                        };
                        self.cursor = Cursor { line: self.cursor.line - 1, index: ni };
                    }
                }
            },
            EditAction::MoveDown => {
                let ghost c = self.cols as int;
                let ll = self.lines[self.cursor.line].len();
                if ll > self.cols {
                    let rc = row_count_exec(ll, self.cols);
                    let q = self.cursor.index / self.cols;
                    let ri = if q <= rc - 1 {
                        q
                    } else {
                        rc - 1
                    };
                    if ri + 1 < rc {
                        proof {
                            lemma_row_bounds(ll as int, c);
                            lemma_mul_le(ri as int + 1, row_count(ll as int, c) - 1, c);
                        }
                        let base = (ri + 1) * self.cols;
                        let off = self.cursor.index % self.cols;
                        let ni = if off <= ll - base {
                            base + off
                        } else {
                            ll
                        };
                        self.cursor.index = ni;
                    } else {
                        let n = self.lines.len();
                        if self.cursor.line + 1 < n {
                            let nl = self.lines[self.cursor.line + 1].len();
                            self.cursor.line = self.cursor.line + 1;
                            if nl < self.cursor.index {
                                self.cursor.index = nl;
                            }
                        }
                    }
                } else {
                    let n = self.lines.len();
                    if self.cursor.line + 1 < n {
                        let nl = self.lines[self.cursor.line + 1].len();
                        self.cursor.line = self.cursor.line + 1;
                        if nl < self.cursor.index {
                            self.cursor.index = nl;
                        }
                    }
                }
            },
            EditAction::MovePrevWord => {
                if self.cursor.index > 0 {
                    let ni = prev_word_start(
                        &self.lines[self.cursor.line].content,
                        self.cursor.index,
                    );
                    self.cursor.index = ni;
                } else if self.cursor.line > 0 {
                    self.cursor.line = self.cursor.line - 1;
                    self.cursor.index = self.lines[self.cursor.line].len();
                }
            },
            EditAction::MoveNextWord => {
                let ll = self.lines[self.cursor.line].len();
                if self.cursor.index < ll {
                    let ni = next_word_end(
                        &self.lines[self.cursor.line].content,
                        self.cursor.index,
                    );
                    self.cursor.index = ni;
                } else {
                    let n = self.lines.len();
                    if self.cursor.line + 1 < n {
                        self.cursor.line = self.cursor.line + 1;
                        self.cursor.index = 0;
                    }
                }
            },
            EditAction::ScrollUp => {
                if self.scroll_y_offset >= 1 {
                    self.scroll_y_offset = self.scroll_y_offset - 1;
                }
            },
            EditAction::ScrollDown => {
                let n = self.lines.len();
                let cap: u16 = if n >= 65535 {
                    65535
                } else {
                    n as u16
                };
                let next: u16 = if self.scroll_y_offset == 65535 {
                    65535
                } else {
                    self.scroll_y_offset + 1
                };
                self.scroll_y_offset = if next <= cap {
                    next
                } else {
                    cap
                };
            },
        }
    }
}

/// `max(1, ceil(len / cols))`, the number of wrapped rows of a line of
/// `len` characters at width `cols`.
fn row_count_exec(len: usize, cols: usize) -> (r: usize)
    requires
        cols >= 1,
    ensures
        r as int == row_count(len as int, cols as int),
        r >= 1,
{
    proof {
        lemma_row_count_pos(len as int, cols as int);
        lemma_row_count_closed(len as int, cols as int);
        if len > 0 {
            lemma_div_plus_one(len as int - 1, cols as int);
            lemma_div_nonincreasing(len as int - 1, cols as int);
            lemma_div_pos_is_pos(len as int - 1, cols as int);
        }
    }
    if len == 0 {
        1
    } else {
        1 + (len - 1) / cols
    }
}

} // verus!
