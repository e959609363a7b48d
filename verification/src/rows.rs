//! Projecting logical lines into fixed-width visual rows.

use vstd::prelude::*;
use vstd::arithmetic::div_mod::lemma_div_plus_one;
use vstd::arithmetic::div_mod::lemma_basic_div;

use crate::buffer::Buffer;

verus! {

/// One visual row: a display-width-bounded slice of a logical line. `num` is
/// the 1-based running row number across the whole buffer, `index` is the
/// 0-based position of this row among its line's rows, `line_index` names the
/// owning logical line, and `content` holds the row's characters.
pub struct Row {
    pub num: usize,
    pub index: usize,
    pub line_index: usize,
    pub content: Vec<char>,
}

/// The mathematical image of a row: its intra-line position, its owning
/// line, and its content. The running row number is left out; it always
/// equals the row's position in the projected sequence plus one.
pub ghost struct RowModel {
    pub index: int,
    pub line_index: int,
    pub content: Seq<char>,
}

impl View for Row {
    type V = RowModel;

    open spec fn view(&self) -> RowModel {
        RowModel {
            index: self.index as int,
            line_index: self.line_index as int,
            content: self.content@,
        }
    }
}

/// How many rows a line of `len` characters occupies at width `cols`: one
/// when the line fits (or is empty), and one more for each further started
/// block of `cols` characters.
pub open spec fn row_count(len: int, cols: int) -> int
    recommends
        cols >= 1,
        len >= 0,
    decreases len,
{
    if len <= cols || cols < 1 {
        1
    } else {
        1 + row_count(len - cols, cols)
    }
}

/// The characters of row `i` of a wrapped line: the `i`-th block of `cols`
/// characters, shortened at the line's end.
pub open spec fn row_slice(line: Seq<char>, cols: int, i: int) -> Seq<char>
    recommends
        cols >= 1,
        0 <= i,
        i * cols <= line.len(),
{
    line.subrange(
        i * cols,
        if (i + 1) * cols <= line.len() {
            (i + 1) * cols
        } else {
            line.len() as int
        },
    )
}

/// The rows of the single line `line`, which is line number `line_index` of
/// its buffer.
pub open spec fn line_row_models(line: Seq<char>, cols: int, line_index: int) -> Seq<RowModel> {
    Seq::new(
        row_count(line.len() as int, cols) as nat,
        |i: int|
            RowModel { index: i, line_index: line_index, content: row_slice(line, cols, i) },
    )
}

/// The rows of every line of `text` from line `j` on, in order.
pub open spec fn rows_from(text: Seq<Seq<char>>, cols: int, j: int) -> Seq<RowModel>
    recommends
        0 <= j <= text.len(),
    decreases text.len() - j,
{
    if j < 0 || j >= text.len() {
        Seq::empty()
    } else {
        line_row_models(text[j], cols, j) + rows_from(text, cols, j + 1)
    }
}

/// The full row projection of `text` at width `cols`.
pub open spec fn buffer_row_models(text: Seq<Seq<char>>, cols: int) -> Seq<RowModel> {
    rows_from(text, cols, 0)
}

/// A row that really is a piece of `text`: it names an existing line and
/// carries the right slice of it. In particular the characters before the
/// row on its line (`index * cols` of them) and the row itself fit within
/// the line.
pub open spec fn row_model_valid(text: Seq<Seq<char>>, cols: int, m: RowModel) -> bool {
    &&& 0 <= m.line_index < text.len()
    &&& 0 <= m.index
    &&& m.index * cols <= text[m.line_index].len()
    &&& m.index * cols + m.content.len() <= text[m.line_index].len()
    &&& m.content == row_slice(text[m.line_index], cols, m.index)
}

/// A line always occupies at least one row.
pub proof fn lemma_row_count_pos(len: int, cols: int)
    ensures
        row_count(len, cols) >= 1,
    decreases len,
{
    if !(len <= cols || cols < 1) {
        lemma_row_count_pos(len - cols, cols);
    }
}

/// Every row of a line starts within the line: `i * cols <= len` for each
/// row number `i` of the line.
pub proof fn lemma_row_start_bound(len: int, cols: int, i: int)
    requires
        cols >= 1,
        len >= 0,
        0 <= i < row_count(len, cols),
    ensures
        i * cols <= len,
    decreases i,
{
    if i > 0 {
        lemma_row_start_bound(len - cols, cols, i - 1);
        assert(i * cols == (i - 1) * cols + cols) by (nonlinear_arith);
        assert((i - 1) * cols <= len - cols);
        assert(i * cols <= len);
    } else {
        assert(i * cols == 0) by (nonlinear_arith)
            requires
                i == 0,
        ;
    }
}

/// The row count is exactly `max(1, ceil(len / cols))`, with the ceiling
/// written as `(len + cols - 1) / cols`.
pub proof fn lemma_row_count_closed(len: int, cols: int)
    requires
        cols >= 1,
        len >= 0,
    ensures
        row_count(len, cols) == if len == 0 {
            1int
        } else {
            (len + cols - 1) / cols
        },
    decreases len,
{
    if len == 0 {
    } else if len <= cols {
        lemma_basic_div(len - 1, cols);
        lemma_div_plus_one(len - 1, cols);
        assert((len + cols - 1) / cols == 1 + (len - 1) / cols);
    } else {
        lemma_row_count_closed(len - cols, cols);
        lemma_div_plus_one(len - 1, cols);
        assert((len + cols - 1) / cols == 1 + (len - 1) / cols);
        assert((len - cols) + cols - 1 == len - 1);
    }
}

/// Concatenating the contents of a line's rows reconstructs the line.
pub proof fn lemma_line_rows_reconstruct(line: Seq<char>, cols: int, line_index: int)
    requires
        cols >= 1,
    ensures
        line_row_models(line, cols, line_index).map_values(|m: RowModel| m.content).flatten()
            == line,
    decreases line.len(),
{
    let models = line_row_models(line, cols, line_index);
    let contents = models.map_values(|m: RowModel| m.content);
    if line.len() <= cols {
        assert(contents =~= seq![row_slice(line, cols, 0)]);
        assert(row_slice(line, cols, 0) =~= line);
        contents.lemma_flatten_one_element();
        assert(contents.flatten() =~= line);
    } else {
        let rest = line.skip(cols);
        lemma_line_rows_reconstruct(rest, cols, line_index);
        let rest_contents = line_row_models(rest, cols, line_index).map_values(
            |m: RowModel| m.content,
        );
        lemma_row_count_pos(rest.len() as int, cols);
        assert(row_count(line.len() as int, cols) == 1 + row_count(rest.len() as int, cols));
        assert(contents.len() == 1 + rest_contents.len());
        assert forall|i: int| 0 <= i < rest_contents.len() implies rest_contents[i]
            == contents[i + 1] by {
            lemma_row_start_bound(rest.len() as int, cols, i);
            lemma_row_start_bound(line.len() as int, cols, i + 1);
            assert((i + 1) * cols == i * cols + cols) by (nonlinear_arith);
            assert((i + 2) * cols == (i + 1) * cols + cols) by (nonlinear_arith);
            assert(rest_contents[i] == row_slice(rest, cols, i));
            assert(contents[i + 1] == row_slice(line, cols, i + 1));
            assert(row_slice(rest, cols, i) =~= row_slice(line, cols, i + 1));
        }
        assert(contents =~= seq![row_slice(line, cols, 0)] + rest_contents);
        vstd::seq_lib::lemma_flatten_concat(seq![row_slice(line, cols, 0)], rest_contents);
        seq![row_slice(line, cols, 0)].lemma_flatten_one_element();
        assert(seq![row_slice(line, cols, 0)].flatten() =~= row_slice(line, cols, 0));
        assert(row_slice(line, cols, 0) =~= line.take(cols));
        assert(line.take(cols) + rest =~= line);
    }
}

/// The characters of `v` from `from` (inclusive) to `to` (exclusive).
fn subvec(v: &Vec<char>, from: usize, to: usize) -> (r: Vec<char>)
    requires
        from <= to <= v@.len(),
    ensures
        r@ == v@.subrange(from as int, to as int),
{
    let mut r: Vec<char> = Vec::new();
    proof {
        assert(r@ =~= v@.subrange(from as int, from as int));
    }
    let mut k: usize = from;
    while k < to
        invariant
            from <= k <= to <= v@.len(),
            r@ == v@.subrange(from as int, k as int),
        decreases to - k,
    {
        r.push(v[k]);
        proof {
            assert(v@.subrange(from as int, k + 1) =~= v@.subrange(from as int, k as int).push(
                v@[k as int],
            ));
        }
        k += 1;
    }
    r
}

impl Buffer {
    /// Projects the whole buffer into visual rows at the current viewport
    /// width: each logical line contributes one row per `cols`-character
    /// block (and an empty line still contributes one empty row), with the
    /// 1-based running row number counting across the buffer.
    pub fn rows(&self) -> (r: Vec<Row>)
        requires
            self.cols >= 1,
            buffer_row_models(self.text(), self.cols as int).len() <= usize::MAX,
        ensures
            r@.map_values(|row: Row| row@) == buffer_row_models(self.text(), self.cols as int),
            forall|k: int| 0 <= k < r@.len() ==> (#[trigger] r@[k]).num == k + 1,
            forall|k: int|
                0 <= k < r@.len() ==> row_model_valid(
                    self.text(),
                    self.cols as int,
                    (#[trigger] r@[k])@,
                ),
    {
        let ghost text = self.text();
        let ghost c = self.cols as int;
        let ghost total = buffer_row_models(text, c);
        let mut out: Vec<Row> = Vec::new();
        let mut j: usize = 0;
        let n = self.lines.len();
        while j < n
            invariant
                self.cols >= 1,
                c == self.cols as int,
                text == self.text(),
                n as int == text.len(),
                total == buffer_row_models(text, c),
                total.len() <= usize::MAX,
                j <= n,
                out@.map_values(|row: Row| row@) + rows_from(text, c, j as int) == total,
                forall|k: int| 0 <= k < out@.len() ==> (#[trigger] out@[k]).num == k + 1,
                forall|k: int|
                    0 <= k < out@.len() ==> row_model_valid(text, c, (#[trigger] out@[k])@),
            decreases n - j,
        {
            let ghost line = text[j as int];
            let ghost lmodels = line_row_models(line, c, j as int);
            let line_len = self.lines[j].len();
            proof {
                lemma_row_count_pos(line_len as int, c);
                lemma_row_count_closed(line_len as int, c);
                if line_len > 0 {
                    lemma_div_plus_one(line_len - 1, c);
                    vstd::arithmetic::div_mod::lemma_div_nonincreasing(line_len - 1, c);
                    vstd::arithmetic::div_mod::lemma_div_pos_is_pos(line_len - 1, c);
                }
                assert(rows_from(text, c, j as int) == lmodels + rows_from(text, c, j + 1));
            }
            let rc: usize = if line_len == 0 {
                1
            } else {
                1 + (line_len - 1) / self.cols
            };
            proof {
                assert(rc as int == row_count(line_len as int, c));
                assert(lmodels.skip(0) =~= lmodels);
                assert((out@.map_values(|row: Row| row@) + lmodels.skip(0)) + rows_from(
                    text,
                    c,
                    j + 1,
                ) =~= total);
            }
            let mut i: usize = 0;
            while i < rc
                invariant
                    self.cols >= 1,
                    c == self.cols as int,
                    text == self.text(),
                    n as int == text.len(),
                    j < n,
                    total == buffer_row_models(text, c),
                    total.len() <= usize::MAX,
                    line == text[j as int],
                    line_len as int == line.len(),
                    lmodels == line_row_models(line, c, j as int),
                    rc as int == row_count(line_len as int, c),
                    i <= rc,
                    (out@.map_values(|row: Row| row@) + lmodels.skip(i as int)) + rows_from(
                        text,
                        c,
                        j + 1,
                    ) == total,
                    forall|k: int| 0 <= k < out@.len() ==> (#[trigger] out@[k]).num == k + 1,
                    forall|k: int|
                        0 <= k < out@.len() ==> row_model_valid(text, c, (#[trigger] out@[k])@),
                decreases rc - i,
            {
                proof {
                    lemma_row_start_bound(line_len as int, c, i as int);
                }
                let start = i * self.cols;
                let rem = line_len - start;
                let end = if rem > self.cols {
                    start + self.cols
                } else {
                    line_len
                };
                let content = subvec(&self.lines[j].content, start, end);
                proof {
                    assert(self.lines@[j as int]@ == line);
                    assert((i as int + 1) * c == i as int * c + c) by (nonlinear_arith);
                    assert(content@ == row_slice(line, c, i as int));
                    assert(out@.len() + lmodels.skip(i as int).len() <= total.len());
                }
                let num = out.len() + 1;
                let ghost out_map0 = out@.map_values(|row: Row| row@);
                out.push(Row { num, index: i, line_index: j, content });
                proof {
                    let m = RowModel { index: i as int, line_index: j as int, content: row_slice(line, c, i as int) };
                    assert(out@.map_values(|row: Row| row@) =~= out_map0.push(m));
                    assert(lmodels[i as int] == m);
                    assert(lmodels.skip(i as int) =~= seq![m] + lmodels.skip(i + 1));
                    assert((out_map0.push(m) + lmodels.skip(i + 1)) + rows_from(text, c, j + 1)
                        =~= (out_map0 + lmodels.skip(i as int)) + rows_from(text, c, j + 1));
                }
                i += 1;
            }
            proof {
                assert(lmodels.skip(rc as int) =~= Seq::<RowModel>::empty());
                assert((out@.map_values(|row: Row| row@) + rows_from(text, c, j + 1)) =~= (
                out@.map_values(|row: Row| row@) + lmodels.skip(rc as int)) + rows_from(
                    text,
                    c,
                    j + 1,
                ));
            }
            j += 1;
        }
        proof {
            assert(rows_from(text, c, n as int) =~= Seq::<RowModel>::empty());
            assert(out@.map_values(|row: Row| row@) =~= total);
        }
        out
    }

    /// The bounds, within the full row projection, of the rows the viewport
    /// shows: `scroll_y_offset` rows are skipped (clamped to the total) and
    /// at most `rows` rows are taken.
    pub open spec fn spec_visible_range(&self) -> (int, int) {
        let total = buffer_row_models(self.text(), self.cols as int).len() as int;
        let lo = if self.scroll_y_offset as int <= total {
            self.scroll_y_offset as int
        } else {
            total
        };
        let hi = if lo + self.rows as int <= total {
            lo + self.rows as int
        } else {
            total
        };
        (lo, hi)
    }

    /// The rows the viewport shows this frame: the full projection with the
    /// first `scroll_y_offset` rows skipped and the next `rows` rows taken.
    /// Recomputed from scratch at every call; nothing is carried between
    /// frames.
    pub fn visible_rows(&self) -> (r: Vec<Row>)
        requires
            self.cols >= 1,
            buffer_row_models(self.text(), self.cols as int).len() <= usize::MAX,
        ensures
            r@.map_values(|row: Row| row@) == buffer_row_models(
                self.text(),
                self.cols as int,
            ).subrange(self.spec_visible_range().0, self.spec_visible_range().1),
            forall|k: int|
                0 <= k < r@.len() ==> (#[trigger] r@[k]).num == self.spec_visible_range().0 + k
                    + 1,
            forall|k: int|
                0 <= k < r@.len() ==> row_model_valid(
                    self.text(),
                    self.cols as int,
                    (#[trigger] r@[k])@,
                ),
    {
        let ghost total = buffer_row_models(self.text(), self.cols as int);
        let mut all = self.rows();
        let ghost all0 = all@;
        let lo = if (self.scroll_y_offset as usize) < all.len() {
            self.scroll_y_offset as usize
        } else {
            all.len()
        };
        let mut tail = all.split_off(lo);
        if self.rows < tail.len() {
            tail.truncate(self.rows);
        }
        proof {
            let (glo, ghi) = self.spec_visible_range();
            assert(glo == lo as int);
            assert(tail@ =~= all0.subrange(glo, ghi));
            assert(tail@.map_values(|row: Row| row@) =~= total.subrange(glo, ghi));
        }
        tail
    }
}

/// Row wrapping, as a single law: at width `cols >= 1` a line of length `L`
/// occupies exactly `max(1, ceil(L / cols))` rows — one row when `L == 0`,
/// `(L + cols - 1) / cols` rows otherwise — and concatenating the contents
/// of those rows, in order, gives back exactly the original line.
pub proof fn lemma_row_wrapping(line: Seq<char>, cols: int, line_index: int)
    requires
        cols >= 1,
    ensures
        line_row_models(line, cols, line_index).len() == if line.len() == 0 {
            1int
        } else {
            (line.len() + cols - 1) / cols
        },
        line_row_models(line, cols, line_index).map_values(|m: RowModel| m.content).flatten()
            == line,
{
    lemma_row_count_closed(line.len() as int, cols);
    lemma_line_rows_reconstruct(line, cols, line_index);
}

} // verus!
