//! Unicode segmentation of a line's characters: grapheme clusters for
//! forward deletion, and word boundaries for word-wise cursor movement.
//! Both segmentations come from the `unicode_segmentation` crate; this
//! module names their results and proves the searches the editor runs over
//! them.

use vstd::prelude::*;
use unicode_segmentation::UnicodeSegmentation;

verus! {

/// The grapheme clusters of `s`, as `(start, length)` spans in character
/// offsets, in order. What the spans are is decided by Unicode extended
/// grapheme cluster segmentation and is not spelled out here; the facts the
/// editor relies on are stated where the segmentation is computed.
pub uninterp spec fn grapheme_spans_of(s: Seq<char>) -> Seq<(usize, usize)>;

/// The words of `s`, as `(start, length)` spans in character offsets, in
/// order. What counts as a word is decided by Unicode word segmentation and
/// is not spelled out here.
pub uninterp spec fn word_spans_of(s: Seq<char>) -> Seq<(usize, usize)>;

/// Spans that partition the range `0 .. len`: each is nonempty, the first
/// starts at zero, each further one starts where its predecessor ends, and
/// the last ends at `len`.
pub open spec fn spans_partition(spans: Seq<(usize, usize)>, len: int) -> bool {
    &&& (spans.len() == 0 <==> len == 0)
    &&& (len > 0 ==> spans[0].0 == 0)
    &&& (forall|i: int| 0 <= i < spans.len() ==> (#[trigger] spans[i]).1 >= 1)
    &&& (forall|i: int|
        0 <= i < spans.len() - 1 ==> (#[trigger] spans[i + 1]).0 == spans[i].0 + spans[i].1)
    &&& (spans.len() > 0 ==> spans.last().0 + spans.last().1 == len)
}

/// Spans that lie inside the range `0 .. len`, each nonempty, in ascending
/// order and pairwise disjoint.
pub open spec fn spans_ordered(spans: Seq<(usize, usize)>, len: int) -> bool {
    &&& (forall|i: int| 0 <= i < spans.len() ==> (#[trigger] spans[i]).1 >= 1)
    &&& (forall|i: int| 0 <= i < spans.len() ==> (#[trigger] spans[i]).0 + spans[i].1 <= len)
    &&& (forall|i: int|
        0 <= i < spans.len() - 1 ==> (#[trigger] spans[i]).0 + spans[i].1 <= spans[i + 1].0)
}

/// Relies on `unicode_segmentation`'s `str::grapheme_indices` (extended
/// grapheme clusters): the clusters are nonempty, consecutive, and together
/// cover the whole string, in order. The byte offsets it yields are
/// converted to character offsets, and each cluster to its character count.
#[verifier::external_body]
fn grapheme_spans(s: &Vec<char>) -> (r: Vec<(usize, usize)>)
    ensures
        r@ == grapheme_spans_of(s@),
        spans_partition(r@, s@.len() as int),
{
    let text: String = s.iter().collect();
    text.grapheme_indices(true)
        .map(|(i, g)| (text[..i].chars().count(), g.chars().count()))
        .collect()
}

/// Relies on `unicode_segmentation`'s `str::unicode_word_indices`: the
/// words are nonempty, pairwise disjoint substrings of the string, yielded
/// in ascending order of position. The byte offsets it yields are converted
/// to character offsets, and each word to its character count.
#[verifier::external_body]
fn word_spans(s: &Vec<char>) -> (r: Vec<(usize, usize)>)
    ensures
        r@ == word_spans_of(s@),
        spans_ordered(r@, s@.len() as int),
{
    let text: String = s.iter().collect();
    text.unicode_word_indices()
        .map(|(i, w)| (text[..i].chars().count(), w.chars().count()))
        .collect()
}

/// The span in which character `index` falls: the last span whose start is
/// at or before `index` (and a zero span when there is none).
pub open spec fn spec_grapheme_at(spans: Seq<(usize, usize)>, index: int) -> (usize, usize)
    decreases spans.len(),
{
    if spans.len() == 0 {
        (0usize, 0usize)
    } else if spans.last().0 <= index {
        spans.last()
    } else {
        spec_grapheme_at(spans.drop_last(), index)
    }
}

/// In a partition of `0 .. len`, the span found for an `index` inside the
/// range really contains it.
pub proof fn lemma_grapheme_at_covers(spans: Seq<(usize, usize)>, index: int, len: int)
    requires
        spans_partition(spans, len),
        0 <= index < len,
    ensures
        spec_grapheme_at(spans, index).0 <= index,
        index < spec_grapheme_at(spans, index).0 + spec_grapheme_at(spans, index).1,
        spec_grapheme_at(spans, index).0 + spec_grapheme_at(spans, index).1 <= len,
        spec_grapheme_at(spans, index).1 >= 1,
    decreases spans.len(),
{
    let g = spec_grapheme_at(spans, index);
    if spans.last().0 <= index {
    } else {
        let rest = spans.drop_last();
        assert(spans.len() >= 2) by {
            if spans.len() == 1 {
                assert(spans[0].0 == 0);
            }
        }
        assert(rest.last() == spans[spans.len() - 2]);
        let j = spans.len() - 2;
        assert(spans[j + 1].0 == spans[j].0 + spans[j].1);
        assert(rest.last().0 + rest.last().1 == spans.last().0);
        assert forall|i: int| 0 <= i < rest.len() - 1 implies (#[trigger] rest[i + 1]).0
            == rest[i].0 + rest[i].1 by {
            assert(rest[i + 1] == spans[i + 1]);
            assert(rest[i] == spans[i]);
        }
        lemma_grapheme_at_covers(rest, index, spans.last().0 as int);
    }
}

/// The grapheme cluster of `line` in which character `index` falls, as its
/// `(start, length)` span in character offsets.
#[verifier::loop_isolation(false)]
pub fn grapheme_range_at(line: &Vec<char>, index: usize) -> (r: (usize, usize))
    ensures
        r == spec_grapheme_at(grapheme_spans_of(line@), index as int),
        index < line@.len() ==> r.0 <= index < r.0 + r.1 && r.0 + r.1 <= line@.len() && r.1
            >= 1,
{
    let spans = grapheme_spans(line);
    proof {
        if index < line.len() {
            lemma_grapheme_at_covers(spans@, index as int, line@.len() as int);
        }
        assert(spans@.take(spans@.len() as int) =~= spans@);
    }
    let mut k = spans.len();
    while k > 0
        invariant
            k <= spans@.len(),
            spec_grapheme_at(spans@.take(k as int), index as int) == spec_grapheme_at(
                spans@,
                index as int,
            ),
        decreases k,
    {
        let sp = spans[k - 1];
        proof {
            assert(spans@.take(k as int).last() == spans@[k - 1]);
            assert(spans@.take(k as int).drop_last() =~= spans@.take(k - 1));
        }
        if sp.0 <= index {
            return sp;
        }
        k -= 1;
    }
    proof {
        assert(spans@.take(0) =~= Seq::<(usize, usize)>::empty());
    }
    (0, 0)
}

/// The start of the last word that begins strictly before `index`, or zero
/// when no word does.
pub open spec fn spec_prev_word_start(spans: Seq<(usize, usize)>, index: int) -> usize
    decreases spans.len(),
{
    if spans.len() == 0 {
        0usize
    } else if spans.last().0 < index {
        spans.last().0
    } else {
        spec_prev_word_start(spans.drop_last(), index)
    }
}

/// The end of the first word that ends strictly after `index`, or `len`
/// when no word does.
pub open spec fn spec_next_word_end(spans: Seq<(usize, usize)>, index: int, len: usize) -> usize
    decreases spans.len(),
{
    if spans.len() == 0 {
        len
    } else if spans.first().0 + spans.first().1 > index {
        (spans.first().0 + spans.first().1) as usize
    } else {
        spec_next_word_end(spans.drop_first(), index, len)
    }
}

/// The nearest word start strictly before `index` on `line`, or zero.
#[verifier::loop_isolation(false)]
pub fn prev_word_start(line: &Vec<char>, index: usize) -> (r: usize)
    ensures
        r == spec_prev_word_start(word_spans_of(line@), index as int),
        r <= index,
{
    let spans = word_spans(line);
    proof {
        assert(spans@.take(spans@.len() as int) =~= spans@);
    }
    let mut k = spans.len();
    while k > 0
        invariant
            k <= spans@.len(),
            spec_prev_word_start(spans@.take(k as int), index as int) == spec_prev_word_start(
                spans@,
                index as int,
            ),
        decreases k,
    {
        let sp = spans[k - 1];
        proof {
            assert(spans@.take(k as int).last() == spans@[k - 1]);
            assert(spans@.take(k as int).drop_last() =~= spans@.take(k - 1));
        }
        if sp.0 < index {
            return sp.0;
        }
        k -= 1;
    }
    proof {
        assert(spans@.take(0) =~= Seq::<(usize, usize)>::empty());
    }
    0
}

/// The nearest word end strictly after `index` on `line`, or the line's
/// length when no word ends there.
#[verifier::loop_isolation(false)]
pub fn next_word_end(line: &Vec<char>, index: usize) -> (r: usize)
    ensures
        r == spec_next_word_end(word_spans_of(line@), index as int, line@.len() as usize),
        r <= line@.len(),
        index < line@.len() ==> r > index,
{
    let n = line.len();
    let spans = word_spans(line);
    proof {
        assert(spans@.skip(0) =~= spans@);
    }
    let mut k: usize = 0;
    while k < spans.len()
        invariant
            k <= spans@.len(),
            n == line@.len(),
            spans@ == word_spans_of(line@),
            spans_ordered(spans@, line@.len() as int),
            spec_next_word_end(spans@.skip(k as int), index as int, n) == spec_next_word_end(
                spans@,
                index as int,
                n,
            ),
        decreases spans@.len() - k,
    {
        let sp = spans[k];
        proof {
            assert(spans@.skip(k as int).first() == spans@[k as int]);
            assert(spans@.skip(k as int).drop_first() =~= spans@.skip(k + 1));
        }
        let we = sp.0 + sp.1;
        if we > index {
            return we;
        }
        k += 1;
    }
    proof {
        assert(spans@.skip(spans@.len() as int) =~= Seq::<(usize, usize)>::empty());
    }
    n
}

} // verus!
