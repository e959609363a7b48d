//! An editable text buffer: logical lines, a cursor, an optional selection,
//! and the viewport state used to project the text into visual rows.

use vstd::prelude::*;

use crate::cursor::{Cursor, Selection, cursor_le, spec_selection_bounds};
use crate::line::Line;
use crate::text::{split_lines, split_chars, str_chars, count_newlines};
use crate::text::{lemma_split_lines_len, lemma_split_lines_no_newline, lemma_split_lines_single};

verus! {

/// What a buffer holds: the contents of a file (identified by its path) or
/// scratch text with no backing file.
pub enum BufferKind {
    File(String),
    Other,
}

/// An editable document: a non-empty sequence of logical lines, the caret,
/// the selection state, the viewport dimensions supplied by the caller each
/// frame, and the vertical scroll offset in visual rows.
pub struct Buffer {
    pub kind: BufferKind,
    pub lines: Vec<Line>,
    pub needs_reparse: bool,
    pub cursor: Cursor,
    pub selection: Selection,
    pub rows: usize,
    pub cols: usize,
    pub scroll_y_offset: u16,
}

/// `c` denotes a position inside `text`: its line exists and its index lies
/// on that line (possibly one past the last character).
pub open spec fn cursor_in_text(text: Seq<Seq<char>>, c: Cursor) -> bool {
    c.line < text.len() && c.index <= text[c.line as int].len()
}

/// No line of `text` holds an embedded newline character.
pub open spec fn text_no_newlines(text: Seq<Seq<char>>) -> bool {
    forall|i: int, j: int|
        0 <= i < text.len() && 0 <= j < text[i].len() ==> text[i][j] != '\n'
}

/// `f` with a single trailing carriage return removed, if it has one.
pub open spec fn strip_trailing_cr(f: Seq<char>) -> Seq<char> {
    if f.len() > 0 && f.last() == '\r' {
        f.drop_last()
    } else {
        f
    }
}

/// Fragment `i` of the trimmed split, cooked for storage: a carriage
/// return is stripped from its end only when the fragment was terminated
/// by a newline — that is, for every fragment but an unterminated final
/// one.
pub open spec fn spec_cooked_fragment(trimmed: Seq<Seq<char>>, ends_nl: bool, i: int) -> Seq<
    char,
> {
    if ends_nl || i < trimmed.len() - 1 {
        strip_trailing_cr(trimmed[i])
    } else {
        trimmed[i]
    }
}

/// The logical lines a buffer is built from: the text split at newlines, a
/// carriage return before each terminating newline removed, a trailing
/// line ending producing no extra line, and an empty document giving one
/// empty line.
pub open spec fn spec_content_lines(t: Seq<char>) -> Seq<Seq<char>> {
    let raw = split_lines(t);
    let ends_nl = t.len() > 0 && t.last() == '\n';
    let trimmed = if ends_nl {
        raw.drop_last()
    } else {
        raw
    };
    let stripped = Seq::new(trimmed.len(), |i: int| spec_cooked_fragment(trimmed, ends_nl, i));
    if stripped.len() == 0 {
        seq![Seq::<char>::empty()]
    } else {
        stripped
    }
}

/// The text that remains when the range from `start` to `end` is deleted:
/// the prefix of the start line joins the suffix of the end line into one
/// line, and every line strictly between them disappears.
pub open spec fn spec_delete(text: Seq<Seq<char>>, start: Cursor, end: Cursor) -> Seq<Seq<char>> {
    text.take(start.line as int) + seq![
        text[start.line as int].take(start.index as int) + text[end.line as int].skip(
            end.index as int,
        ),
    ] + text.skip(end.line + 1)
}

/// The fragment lines produced by inserting `c` at `cur`: the first fragment
/// of `c` is appended to the prefix of the cursor's line, the suffix of the
/// cursor's line is appended to the last fragment, and interior fragments
/// become whole lines. (With a single fragment, both endpoints are that one
/// line.)
pub open spec fn spec_insert_frags(text: Seq<Seq<char>>, cur: Cursor, c: Seq<char>) -> Seq<
    Seq<char>,
> {
    let frags = split_lines(c);
    let n = frags.len() - 1;
    let line = text[cur.line as int];
    let pre = line.take(cur.index as int);
    let suf = line.skip(cur.index as int);
    let fr1 = frags.update(0, pre + frags[0]);
    fr1.update(n, fr1[n] + suf)
}

/// The text that results from inserting `c` at position `cur`.
pub open spec fn spec_insert_text(text: Seq<Seq<char>>, cur: Cursor, c: Seq<char>) -> Seq<
    Seq<char>,
> {
    text.take(cur.line as int) + spec_insert_frags(text, cur, c) + text.skip(cur.line + 1)
}

/// Where the cursor lands after inserting `c` at `cur`: its line advances by
/// the number of newlines in `c`, and its index is the length of the final
/// line minus the length of the original suffix that follows the insertion.
pub open spec fn spec_insert_cursor(text: Seq<Seq<char>>, cur: Cursor, c: Seq<char>) -> Cursor {
    let n = split_lines(c).len() - 1;
    let suf = text[cur.line as int].skip(cur.index as int);
    Cursor {
        line: (cur.line + n) as usize,
        index: (spec_insert_frags(text, cur, c)[n].len() - suf.len()) as usize,
    }
}

/// Inserting newline-free fragments into newline-free text leaves the text
/// newline-free.
pub proof fn lemma_insert_no_newlines(text: Seq<Seq<char>>, cur: Cursor, c: Seq<char>)
    requires
        text_no_newlines(text),
        cursor_in_text(text, cur),
    ensures
        text_no_newlines(spec_insert_text(text, cur, c)),
{
    lemma_split_lines_len(c);
    lemma_split_lines_no_newline(c);
    let frags = split_lines(c);
    let n = frags.len() - 1;
    let line = text[cur.line as int];
    let pre = line.take(cur.index as int);
    let suf = line.skip(cur.index as int);
    let fr2 = spec_insert_frags(text, cur, c);
    let t = spec_insert_text(text, cur, c);
    assert forall|i: int, j: int|
        0 <= i < t.len() && 0 <= j < t[i].len() implies t[i][j] != '\n' by {
        if i < cur.line {
            assert(t[i] == text[i]);
        } else if i < cur.line + fr2.len() {
            let k = i - cur.line;
            assert(t[i] == fr2[k]);
            if k == 0 && k == n {
                assert(fr2[k] == pre + frags[0] + suf);
                if j < pre.len() {
                    assert(fr2[k][j] == line[j]);
                } else if j < pre.len() + frags[0].len() {
                    assert(fr2[k][j] == frags[0][j - pre.len()]);
                } else {
                    assert(fr2[k][j] == suf[j - pre.len() - frags[0].len()]);
                    assert(suf[j - pre.len() - frags[0].len()] == line[
                        j - pre.len() - frags[0].len() + cur.index
                    ]);
                }
            } else if k == 0 {
                assert(fr2[k] == pre + frags[0]);
                if j < pre.len() {
                    assert(fr2[k][j] == line[j]);
                } else {
                    assert(fr2[k][j] == frags[0][j - pre.len()]);
                }
            } else if k == n {
                assert(fr2[k] == frags[n] + suf);
                if j < frags[n].len() {
                    assert(fr2[k][j] == frags[n][j]);
                } else {
                    assert(fr2[k][j] == suf[j - frags[n].len()]);
                    assert(suf[j - frags[n].len()] == line[j - frags[n].len() + cur.index]);
                }
            } else {
                assert(fr2[k] == frags[k]);
            }
        } else {
            assert(t[i] == text[i - fr2.len() + 1]);
        }
    }
}

/// Inserting text without newlines at a position and then deleting exactly
/// the inserted range restores the original text. The insertion stays on
/// the cursor's line and moves the cursor forward, so the range from the
/// insertion point to the landing point is the inserted text; deleting that
/// range gives the old text back (and the deleting commands put the cursor
/// back at the range's start, the original position).
pub proof fn lemma_insert_then_delete_roundtrip(text: Seq<Seq<char>>, cur: Cursor, t: Seq<char>)
    requires
        cursor_in_text(text, cur),
        count_newlines(t) == 0,
        text[cur.line as int].len() + t.len() <= usize::MAX,
    ensures
        spec_insert_cursor(text, cur, t).line == cur.line,
        cursor_le(cur, spec_insert_cursor(text, cur, t)),
        spec_delete(spec_insert_text(text, cur, t), cur, spec_insert_cursor(text, cur, t))
            == text,
{
    lemma_split_lines_len(t);
    lemma_split_lines_single(t);
    let line = text[cur.line as int];
    let pre = line.take(cur.index as int);
    let suf = line.skip(cur.index as int);
    let fr2 = spec_insert_frags(text, cur, t);
    assert(fr2 =~= seq![(pre + t) + suf]);
    let newtext = spec_insert_text(text, cur, t);
    assert(newtext =~= text.update(cur.line as int, (pre + t) + suf));
    let nc = spec_insert_cursor(text, cur, t);
    assert(nc.line == cur.line);
    assert(nc.index == pre.len() + t.len());
    let d = spec_delete(newtext, cur, nc);
    assert(((pre + t) + suf).take(cur.index as int) =~= pre);
    assert(((pre + t) + suf).skip(nc.index as int) =~= suf);
    assert(pre + suf =~= line);
    assert forall|i: int| 0 <= i < d.len() implies d[i] == text[i] by {
        if i < cur.line {
            assert(d[i] == newtext[i]);
        } else if i == cur.line {
            assert(d[i] == pre + suf);
        } else {
            assert(d[i] == newtext[i]);
        }
    }
    assert(d =~= text);
}

/// Deleting a range from newline-free text leaves newline-free text.
pub proof fn lemma_delete_no_newlines(text: Seq<Seq<char>>, start: Cursor, end: Cursor)
    requires
        text_no_newlines(text),
        cursor_in_text(text, start),
        cursor_in_text(text, end),
        cursor_le(start, end),
    ensures
        text_no_newlines(spec_delete(text, start, end)),
{
    let d = spec_delete(text, start, end);
    assert forall|i: int, j: int|
        0 <= i < d.len() && 0 <= j < d[i].len() implies d[i][j] != '\n' by {
        if i < start.line {
            assert(d[i] == text[i]);
        } else if i == start.line {
            let joined = text[start.line as int].take(start.index as int) + text[
                end.line as int
            ].skip(end.index as int);
            assert(d[i] == joined);
            if j < start.index {
                assert(joined[j] == text[start.line as int][j]);
            } else {
                assert(joined[j] == text[end.line as int][j - start.index + end.index]);
            }
        } else {
            assert(d[i] == text[i + end.line - start.line]);
        }
    }
}

impl Buffer {
    /// The buffer's text: the content of each logical line, in order.
    pub open spec fn text(&self) -> Seq<Seq<char>> {
        self.lines@.map_values(|l: Line| l@)
    }

    /// The buffer invariant: at least one line is always present, every line
    /// is newline-free, the cursor lies inside the text, and so does the
    /// selection anchor while a selection is active.
    pub open spec fn wf(&self) -> bool {
        &&& self.text().len() >= 1
        &&& text_no_newlines(self.text())
        &&& cursor_in_text(self.text(), self.cursor)
        &&& match self.selection {
            Selection::Normal(a) => cursor_in_text(self.text(), a),
            Selection::Inactive => true,
        }
    }

    /// Builds a buffer over `content`, split into logical lines, with the
    /// cursor at the start, no selection, and a zero viewport (the caller
    /// sets the viewport before querying rows).
    pub fn new(kind: BufferKind, content: &str) -> (r: Buffer)
        ensures
            r.text() == spec_content_lines(content@),
            r.kind == kind,
            r.needs_reparse == true,
            r.cursor == (Cursor { line: 0, index: 0 }),
            r.selection is Inactive,
            r.rows == 0,
            r.cols == 0,
            r.scroll_y_offset == 0,
            r.wf(),
    {
        let chars = str_chars(content);
        let mut frags = split_chars(&chars);
        let ghost raw = split_lines(chars@);
        proof {
            lemma_split_lines_len(chars@);
            lemma_split_lines_no_newline(chars@);
        }
        let ends_nl = chars.len() > 0 && chars[chars.len() - 1] == '\n';
        if ends_nl {
            let _ = frags.pop();
        }
        let ghost trimmed = frags@.map_values(|f: Vec<char>| f@);
        proof {
            assert forall|k: int| 0 <= k < trimmed.len() implies trimmed[k] == raw[k] by {}
        }
        let mut lines: Vec<Line> = Vec::new();
        while frags.len() > 0
            invariant
                lines@.len() + frags@.len() == trimmed.len(),
                forall|k: int|
                    0 <= k < frags@.len() ==> frags@[k]@ == trimmed[lines@.len() + k],
                forall|k: int|
                    0 <= k < lines@.len() ==> lines@[k]@ == spec_cooked_fragment(
                        trimmed,
                        ends_nl,
                        k,
                    ),
            decreases frags@.len(),
        {
            let ghost k = lines@.len() as int;
            let mut f = frags.remove(0);
            let is_last = frags.len() == 0;
            if (ends_nl || !is_last) && f.len() > 0 && f[f.len() - 1] == '\r' {
                let _ = f.pop();
                proof {
                    assert(f@ =~= strip_trailing_cr(trimmed[k]));
                    assert(f@ == spec_cooked_fragment(trimmed, ends_nl, k));
                }
            } else {
                proof {
                    assert(f@ == spec_cooked_fragment(trimmed, ends_nl, k));
                }
            }
            lines.push(Line { content: f });
        }
        if lines.len() == 0 {
            lines.push(Line { content: Vec::new() });
            proof {
                assert(lines@.map_values(|l: Line| l@) =~= seq![Seq::<char>::empty()]);
            }
        }
        let r = Buffer {
            kind,
            lines,
            needs_reparse: true,
            cursor: Cursor { line: 0, index: 0 },
            selection: Selection::Inactive,
            rows: 0,
            cols: 0,
            scroll_y_offset: 0,
        };
        proof {
            if ends_nl {
                assert(trimmed =~= raw.drop_last());
            } else {
                assert(trimmed =~= raw);
            }
            assert(r.text() =~= spec_content_lines(content@));
            assert forall|a: int, b: int|
                0 <= a < r.text().len() && 0 <= b < r.text()[a].len() implies r.text()[a][b]
                != '\n' by {
                if trimmed.len() == 0 {
                    assert(r.text()[a].len() == 0);
                } else {
                    let f = trimmed[a];
                    assert(r.text()[a] == spec_cooked_fragment(trimmed, ends_nl, a));
                    assert(r.text()[a][b] == f[b]);
                    assert(f[b] == raw[a][b]);
                }
            }
        }
        r
    }

    /// Inserts `content` at the position `cursor` and returns where the
    /// cursor lands after the insertion. The text is split at its newlines;
    /// the first fragment extends the prefix of the cursor's line, interior
    /// fragments become new lines, and the last fragment gains the original
    /// suffix of the cursor's line. The buffer's own cursor and selection are
    /// left to the callers.
    #[verifier::rlimit(30)]
    pub fn insert_at(&mut self, cursor: Cursor, content: &Vec<char>) -> (r: Cursor)
        requires
            cursor_in_text(old(self).text(), cursor),
            old(self).text()[cursor.line as int].len() + content@.len() <= usize::MAX,
        ensures
            final(self).text() == spec_insert_text(old(self).text(), cursor, content@),
            r == spec_insert_cursor(old(self).text(), cursor, content@),
            r.line == cursor.line + count_newlines(content@),
            cursor_in_text(final(self).text(), r),
            final(self).text().len() == old(self).text().len() + count_newlines(content@),
            final(self).kind == old(self).kind,
            final(self).needs_reparse == old(self).needs_reparse,
            final(self).cursor == old(self).cursor,
            final(self).selection == old(self).selection,
            final(self).rows == old(self).rows,
            final(self).cols == old(self).cols,
            final(self).scroll_y_offset == old(self).scroll_y_offset,
    {
        let ghost text0 = self.text();
        let n_lines0 = self.lines.len();
        proof {
            assert(text0.len() == n_lines0 as int);
        }
        let ghost cl = cursor.line as int;
        let ghost line0 = text0[cl];
        let ghost pre = line0.take(cursor.index as int);
        let ghost suf = line0.skip(cursor.index as int);
        let ghost frs = split_lines(content@);
        proof {
            lemma_split_lines_len(content@);
        }
        let ghost n_gh = frs.len() - 1;
        let ghost fr2 = spec_insert_frags(text0, cursor, content@);
        if content.len() == 0 {
            proof {
                lemma_split_lines_single(content@);
                assert(fr2 =~= seq![pre + suf]);
                assert(pre + suf =~= line0);
                assert(spec_insert_text(text0, cursor, content@) =~= text0);
                assert(spec_insert_cursor(text0, cursor, content@) == cursor);
            }
            return cursor;
        }
        let mut frags = split_chars(content);
        let n = frags.len() - 1;
        let after = line_mut(&mut self.lines, cursor.line).split_off(cursor.index);
        let after_len = after.len();
        let first = frags.remove(0);
        line_mut(&mut self.lines, cursor.line).append(Line { content: first });
        proof {
            assert(self.text() =~= text0.update(cl, pre + frs[0]));
        }
        if n == 0 {
            line_mut(&mut self.lines, cursor.line).append(after);
            proof {
                lemma_split_lines_single(content@);
                assert(frs[0] == content@);
                assert(self.text() =~= text0.take(cl) + fr2 + text0.skip(cl + 1));
            }
            let ll = self.lines[cursor.line].len();
            proof {
                assert(ll == pre.len() + content@.len() + suf.len());
            }
            let r = Cursor { line: cursor.line, index: ll - after_len };
            return r;
        }
        // Interior and final fragments become lines of their own, inserted in
        // order right after the cursor's line.
        let mut at = cursor.line + 1;
        while frags.len() > 0
            invariant
                1 <= at - cursor.line <= n_gh + 1,
                n_gh == frs.len() - 1,
                frs == split_lines(content@),
                text0 == old(self).text(),
                cursor_in_text(text0, cursor),
                cl == cursor.line as int,
                line0 == text0[cl],
                pre == line0.take(cursor.index as int),
                suf == line0.skip(cursor.index as int),
                frags@.len() == n_gh + 1 - (at - cursor.line),
                forall|j: int|
                    0 <= j < frags@.len() ==> frags@[j]@ == frs[at - cursor.line + j],
                self.text() =~= text0.take(cl) + seq![pre + frs[0]] + frs.subrange(
                    1,
                    at - cursor.line,
                ) + text0.skip(cl + 1),
                self.kind == old(self).kind,
                self.needs_reparse == old(self).needs_reparse,
                self.cursor == old(self).cursor,
                self.selection == old(self).selection,
                self.rows == old(self).rows,
                self.cols == old(self).cols,
                self.scroll_y_offset == old(self).scroll_y_offset,
            decreases frags@.len(),
        {
            let ghost before = self.text();
            let ghost before_lines = self.lines@;
            let ghost k = at - cursor.line;
            let f = frags.remove(0);
            let ghost nl = Line { content: f };
            proof {
                assert(before.len() == text0.len() + (k - 1));
                assert(at <= self.lines@.len());
            }
            self.lines.insert(at, Line { content: f });
            proof {
                before_lines.insert_ensures(at as int, nl);
                assert forall|i: int| 0 <= i < self.text().len() implies self.text()[i] == (
                text0.take(cl) + seq![pre + frs[0]] + frs.subrange(1, k + 1) + text0.skip(
                    cl + 1,
                ))[i] by {
                    if i < at {
                        assert(self.lines@[i] == before_lines[i]);
                        assert(self.text()[i] == before[i]);
                    } else if i == at {
                        assert(self.lines@[i] == nl);
                        assert(self.text()[i] == nl@);
                    } else {
                        assert(self.lines@[i] == before_lines[i - 1]);
                        assert(self.text()[i] == before[i - 1]);
                    }
                }
                assert(self.text() =~= text0.take(cl) + seq![pre + frs[0]] + frs.subrange(
                    1,
                    k + 1,
                ) + text0.skip(cl + 1));
            }
            let cur_len = self.lines.len();
            proof {
                assert(at < cur_len);
            }
            at += 1;
        }
        let last_line = at - 1;
        proof {
            assert(last_line == cursor.line + n_gh);
            let formula = text0.take(cl) + seq![pre + frs[0]] + frs.subrange(1, n_gh + 1)
                + text0.skip(cl + 1);
            assert(formula[cl + n_gh] == frs.subrange(1, n_gh + 1)[n_gh - 1]);
            assert(self.text()[last_line as int] == frs[n_gh]);
            assert(self.lines@[last_line as int]@ == frs[n_gh]);
        }
        let ghost t3 = self.text();
        line_mut(&mut self.lines, last_line).append(after);
        proof {
            assert(t3 == text0.take(cl) + seq![pre + frs[0]] + frs.subrange(1, n_gh + 1)
                + text0.skip(cl + 1));
            let target = text0.take(cl) + fr2 + text0.skip(cl + 1);
            assert(self.lines@[last_line as int]@ == frs[n_gh] + suf);
            assert forall|i: int| 0 <= i < self.text().len() implies self.text()[i]
                == target[i] by {
                if i == last_line {
                    assert(self.text()[i] == frs[n_gh] + suf);
                    assert(fr2[n_gh] == frs[n_gh] + suf);
                    assert(target[i] == fr2[i - cl]);
                } else {
                    assert(self.text()[i] == t3[i]);
                    if i < cl {
                        assert(t3[i] == text0[i]);
                        assert(target[i] == text0[i]);
                    } else if i == cl {
                        assert(t3[i] == pre + frs[0]);
                        assert(fr2[0] == pre + frs[0]);
                        assert(target[i] == fr2[i - cl]);
                    } else if i < cl + n_gh {
                        assert(t3[i] == frs.subrange(1, n_gh + 1)[i - cl - 1]);
                        assert(fr2[i - cl] == frs[i - cl]);
                        assert(target[i] == fr2[i - cl]);
                    } else {
                        assert(t3[i] == text0[i - n_gh]);
                        assert(target[i] == text0[i - n_gh]);
                    }
                }
            }
            assert(self.text() =~= target);
        }
        let ll = self.lines[last_line].len();
        proof {
            assert(ll == fr2[n_gh].len());
            assert(ll >= after_len);
        }
        let r = Cursor { line: last_line, index: ll - after_len };
        proof {
            assert(r == spec_insert_cursor(text0, cursor, content@));
        }
        r
    }

    /// Deletes the characters from `start` to `end`. This is the internal
    /// primitive behind every deleting command: it rewrites the lines alone
    /// and leaves the cursor and selection to its callers.
    pub fn delete_range(&mut self, start: Cursor, end: Cursor)
        requires
            cursor_in_text(old(self).text(), start),
            cursor_in_text(old(self).text(), end),
            cursor_le(start, end),
        ensures
            final(self).text() == spec_delete(old(self).text(), start, end),
            final(self).kind == old(self).kind,
            final(self).needs_reparse == old(self).needs_reparse,
            final(self).cursor == old(self).cursor,
            final(self).selection == old(self).selection,
            final(self).rows == old(self).rows,
            final(self).cols == old(self).cols,
            final(self).scroll_y_offset == old(self).scroll_y_offset,
    {
        let ghost text0 = self.text();
        let n0 = self.lines.len();
        proof {
            assert(text0.len() == n0 as int);
        }
        let end_line_opt: Option<Line> = if end.line > start.line {
            let after = line_mut(&mut self.lines, end.line).split_off(end.index);
            let _removed = self.lines.remove(end.line);
            proof {
                assert forall|i: int| 0 <= i < self.text().len() implies self.text()[i] == (
                text0.take(end.line as int) + text0.skip(end.line + 1))[i] by {
                    if i < end.line {
                        assert(self.text()[i] == text0[i]);
                    }
                }
                assert(self.text() =~= text0.take(end.line as int) + text0.skip(end.line + 1));
            }
            Some(after)
        } else {
            None
        };
        // Remove the lines strictly between start and end, last first.
        let mut line_i: usize = end.line;
        while line_i > start.line + 1
            invariant
                cursor_in_text(text0, start),
                cursor_in_text(text0, end),
                cursor_le(start, end),
                text0.len() <= usize::MAX,
                start.line <= line_i <= end.line,
                end.line > start.line ==> start.line < line_i && self.text() == text0.take(
                    line_i as int,
                ) + text0.skip(end.line + 1),
                end.line == start.line ==> *self == *old(self),
                end_line_opt matches Some(l) ==> l@ == text0[end.line as int].skip(
                    end.index as int,
                ),
                end.line > start.line ==> end_line_opt is Some,
                self.kind == old(self).kind,
                self.needs_reparse == old(self).needs_reparse,
                self.cursor == old(self).cursor,
                self.selection == old(self).selection,
                self.rows == old(self).rows,
                self.cols == old(self).cols,
                self.scroll_y_offset == old(self).scroll_y_offset,
            decreases line_i,
        {
            line_i -= 1;
            let ghost before = self.text();
            let _removed = self.lines.remove(line_i);
            proof {
                assert forall|i: int| 0 <= i < self.text().len() implies self.text()[i] == (
                text0.take(line_i as int) + text0.skip(end.line + 1))[i] by {
                    if i < line_i {
                        assert(self.text()[i] == before[i]);
                    } else {
                        assert(self.text()[i] == before[i + 1]);
                    }
                }
                assert(self.text() =~= text0.take(line_i as int) + text0.skip(end.line + 1));
            }
        }
        let ghost text2 = self.text();
        proof {
            if end.line > start.line {
                assert(text2 == text0.take(start.line + 1) + text0.skip(end.line + 1));
            }
        }
        proof {
            if end.line == start.line {
                assert(text2 == text0);
            }
            assert(self.lines@[start.line as int]@ == text2[start.line as int]);
            assert(text2[start.line as int] == text0[start.line as int]);
        }
        let after_opt: Option<Line> = if start.line == end.line {
            Some(line_mut(&mut self.lines, start.line).split_off(end.index))
        } else {
            None
        };
        proof {
            if start.line == end.line {
                assert(self.lines@[start.line as int]@ == text0[start.line as int].take(
                    end.index as int,
                ));
            } else {
                assert(self.lines@[start.line as int]@ == text0[start.line as int]);
            }
        }
        let _removed = line_mut(&mut self.lines, start.line).split_off(start.index);
        proof {
            if start.line == end.line {
                assert(text0[start.line as int].take(end.index as int).take(start.index as int)
                    =~= text0[start.line as int].take(start.index as int));
            }
            assert(self.lines@[start.line as int]@ == text0[start.line as int].take(
                start.index as int,
            ));
        }
        if let Some(after) = after_opt {
            line_mut(&mut self.lines, start.line).append(after);
        }
        if let Some(end_line) = end_line_opt {
            line_mut(&mut self.lines, start.line).append(end_line);
        }
        proof {
            let d = spec_delete(text0, start, end);
            let joined = text0[start.line as int].take(start.index as int) + text0[
                end.line as int
            ].skip(end.index as int);
            if start.line == end.line {
                assert(self.lines@[start.line as int]@ == text0[start.line as int].take(
                    start.index as int,
                ) + text0[end.line as int].skip(end.index as int));
            } else {
                assert(self.lines@[start.line as int]@ == text0[start.line as int].take(
                    start.index as int,
                ) + text0[end.line as int].skip(end.index as int));
            }
            assert(self.text()[start.line as int] == joined);
            assert forall|i: int| 0 <= i < self.text().len() implies self.text()[i] == d[i] by {
                if i < start.line {
                    if end.line > start.line {
                        assert(self.text()[i] == text2[i]);
                        assert(text2[i] == text0[i]);
                    } else {
                        assert(self.text()[i] == text0[i]);
                    }
                    assert(d[i] == text0[i]);
                } else if i == start.line {
                    assert(d[i] == joined);
                } else {
                    if end.line > start.line {
                        assert(self.text()[i] == text2[i]);
                        assert(text2[i] == text0[i + end.line - start.line]);
                    } else {
                        assert(self.text()[i] == text0[i]);
                    }
                    assert(d[i] == text0[i + end.line - start.line]);
                }
            }
            assert(self.text() =~= d);
        }
    }
}

impl Buffer {
    /// The ordered selection endpoints, or nothing while no selection is
    /// active.
    pub open spec fn spec_selection_bounds_opt(&self) -> Option<(Cursor, Cursor)> {
        match self.selection {
            Selection::Inactive => None,
            Selection::Normal(a) => Some(spec_selection_bounds(a, self.cursor)),
        }
    }

    /// The text and cursor once any active selection has been deleted; with
    /// no selection they are the buffer's own.
    pub open spec fn collapsed(&self) -> (Seq<Seq<char>>, Cursor) {
        match self.selection {
            Selection::Inactive => (self.text(), self.cursor),
            Selection::Normal(a) => {
                let (s, e) = spec_selection_bounds(a, self.cursor);
                (spec_delete(self.text(), s, e), s)
            },
        }
    }

    /// Room on the target line for `extra` more characters, once any active
    /// selection is collapsed; this is the machine-size bound every insertion
    /// needs.
    pub open spec fn can_insert(&self, extra: nat) -> bool {
        self.collapsed().0[self.collapsed().1.line as int].len() + extra <= usize::MAX
    }

    /// Anchors a selection at the current cursor, unconditionally.
    pub fn start_selection(&mut self)
        ensures
            final(self).selection == Selection::Normal(old(self).cursor),
            final(self).kind == old(self).kind,
            final(self).lines == old(self).lines,
            final(self).needs_reparse == old(self).needs_reparse,
            final(self).cursor == old(self).cursor,
            final(self).rows == old(self).rows,
            final(self).cols == old(self).cols,
            final(self).scroll_y_offset == old(self).scroll_y_offset,
            old(self).wf() ==> final(self).wf(),
    {
        self.selection = Selection::Normal(self.cursor);
    }

    /// Anchors a selection at the current cursor only if none is active, so
    /// that repeated shift-modified moves extend one selection instead of
    /// restarting it.
    pub fn start_or_continue_selection(&mut self)
        ensures
            final(self).selection == (match old(self).selection {
                Selection::Inactive => Selection::Normal(old(self).cursor),
                Selection::Normal(a) => Selection::Normal(a),
            }),
            final(self).kind == old(self).kind,
            final(self).lines == old(self).lines,
            final(self).needs_reparse == old(self).needs_reparse,
            final(self).cursor == old(self).cursor,
            final(self).rows == old(self).rows,
            final(self).cols == old(self).cols,
            final(self).scroll_y_offset == old(self).scroll_y_offset,
            old(self).wf() ==> final(self).wf(),
    {
        if let Selection::Inactive = self.selection {
            self.selection = Selection::Normal(self.cursor);
        }
    }

    /// The ordered endpoints of the active selection: the earlier position
    /// first under the line-then-index ordering. Returns nothing while no
    /// selection is active.
    pub fn selection_bounds(&self) -> (r: Option<(Cursor, Cursor)>)
        ensures
            r == self.spec_selection_bounds_opt(),
            r matches Some(p) ==> cursor_le(p.0, p.1),
    {
        match self.selection {
            Selection::Inactive => None,
            Selection::Normal(select) => {
                if select.line > self.cursor.line {
                    Some((self.cursor, select))
                } else if select.line < self.cursor.line {
                    Some((select, self.cursor))
                } else if select.index < self.cursor.index {
                    Some((select, self.cursor))
                } else {
                    Some((self.cursor, select))
                }
            },
        }
    }

    /// Deletes the selected range, moves the cursor to its start, and clears
    /// the selection; reports whether a selection was there to delete.
    pub fn delete_selection(&mut self) -> (r: bool)
        requires
            old(self).wf(),
        ensures
            final(self).wf(),
            old(self).selection is Inactive ==> r == false && *final(self) == *old(self),
            old(self).selection is Normal ==> r == true,
            final(self).text() == old(self).collapsed().0,
            final(self).cursor == old(self).collapsed().1,
            final(self).selection == (if r {
                Selection::Inactive
            } else {
                old(self).selection
            }),
            final(self).kind == old(self).kind,
            final(self).needs_reparse == old(self).needs_reparse,
            final(self).rows == old(self).rows,
            final(self).cols == old(self).cols,
            final(self).scroll_y_offset == old(self).scroll_y_offset,
    {
        let bounds = self.selection_bounds();
        match bounds {
            None => false,
            Some((start, end)) => {
                self.cursor = start;
                self.selection = Selection::Inactive;
                self.delete_range(start, end);
                proof {
                    lemma_delete_no_newlines(old(self).text(), start, end);
                }
                true
            },
        }
    }

    /// Deletes any active selection, then inserts `content` at the cursor
    /// and leaves the cursor after the inserted text.
    pub fn insert_string(&mut self, content: &Vec<char>)
        requires
            old(self).wf(),
            old(self).can_insert(content@.len()),
        ensures
            final(self).wf(),
            final(self).text() == spec_insert_text(
                old(self).collapsed().0,
                old(self).collapsed().1,
                content@,
            ),
            final(self).cursor == spec_insert_cursor(
                old(self).collapsed().0,
                old(self).collapsed().1,
                content@,
            ),
            final(self).selection == (if old(self).selection is Normal {
                Selection::Inactive
            } else {
                old(self).selection
            }),
            final(self).kind == old(self).kind,
            final(self).needs_reparse == old(self).needs_reparse,
            final(self).rows == old(self).rows,
            final(self).cols == old(self).cols,
            final(self).scroll_y_offset == old(self).scroll_y_offset,
    {
        let _ = self.delete_selection();
        let ghost mid = *self;
        proof {
            lemma_insert_no_newlines(mid.text(), mid.cursor, content@);
        }
        let next_cursor = self.insert_at(self.cursor, content);
        self.cursor = next_cursor;
    }
}

/// A mutable borrow of the line at `i`.
fn line_mut(lines: &mut Vec<Line>, i: usize) -> (r: &mut Line)
    requires
        i < old(lines)@.len(),
    ensures
        *r == old(lines)@[i as int],
        final(lines)@ == old(lines)@.update(i as int, *final(r)),
{
    &mut lines[i]
}

} // verus!
