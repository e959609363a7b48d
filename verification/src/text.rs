//! Splitting raw text into logical lines.

use vstd::prelude::*;

verus! {

/// The number of newline characters in `t`.
pub open spec fn count_newlines(t: Seq<char>) -> nat
    decreases t.len(),
{
    if t.len() == 0 {
        0
    } else {
        count_newlines(t.drop_last()) + if t.last() == '\n' {
            1nat
        } else {
            0nat
        }
    }
}

/// The fragments of `t` between newline characters, in order. There is always
/// one more fragment than there are newlines; the separators themselves are
/// not part of any fragment.
pub open spec fn split_lines(t: Seq<char>) -> Seq<Seq<char>>
    decreases t.len(),
{
    if t.len() == 0 {
        seq![Seq::<char>::empty()]
    } else {
        let prev = split_lines(t.drop_last());
        if t.last() == '\n' {
            prev.push(Seq::<char>::empty())
        } else {
            prev.update(prev.len() - 1, prev.last().push(t.last()))
        }
    }
}

/// Splitting always yields one fragment per newline, plus one.
pub proof fn lemma_split_lines_len(t: Seq<char>)
    ensures
        split_lines(t).len() == count_newlines(t) + 1,
    decreases t.len(),
{
    if t.len() > 0 {
        lemma_split_lines_len(t.drop_last());
    }
}

/// No fragment of a split holds a newline character.
pub proof fn lemma_split_lines_no_newline(t: Seq<char>)
    ensures
        forall|i: int, j: int|
            0 <= i < split_lines(t).len() && 0 <= j < split_lines(t)[i].len()
                ==> split_lines(t)[i][j] != '\n',
    decreases t.len(),
{
    if t.len() > 0 {
        lemma_split_lines_no_newline(t.drop_last());
        lemma_split_lines_len(t.drop_last());
        let prev = split_lines(t.drop_last());
        let s = split_lines(t);
        assert forall|i: int, j: int|
            0 <= i < s.len() && 0 <= j < s[i].len() implies s[i][j] != '\n' by {
            if t.last() == '\n' {
                if i < prev.len() {
                    assert(s[i] == prev[i]);
                } else {
                    assert(s[i].len() == 0);
                }
            } else {
                if i == prev.len() - 1 {
                    assert(s[i] == prev[i].push(t.last()));
                    if j < prev[i].len() {
                        assert(s[i][j] == prev[i][j]);
                    } else {
                        assert(s[i][j] == t.last());
                    }
                } else {
                    assert(s[i] == prev[i]);
                }
            }
        }
    }
}

/// Text without newlines splits into a single fragment: the text itself.
pub proof fn lemma_split_lines_single(t: Seq<char>)
    requires
        count_newlines(t) == 0,
    ensures
        split_lines(t) =~~= seq![t],
    decreases t.len(),
{
    if t.len() > 0 {
        lemma_split_lines_single(t.drop_last());
    }
}

/// The characters of `s`, in order, as a vector.
pub fn str_chars(s: &str) -> (r: Vec<char>)
    ensures
        r@ == s@,
{
    let n = s.unicode_len();
    let mut r: Vec<char> = Vec::new();
    let mut i: usize = 0;
    while i < n
        invariant
            i <= n,
            n == s@.len(),
            r@ == s@.take(i as int),
        decreases n - i,
    {
        r.push(s.get_char(i));
        proof {
            assert(r@ =~= s@.take(i + 1));
        }
        i += 1;
    }
    proof {
        assert(r@ =~= s@);
    }
    r
}

/// Splits `t` into its newline-separated fragments.
pub fn split_chars(t: &Vec<char>) -> (r: Vec<Vec<char>>)
    ensures
        r@.map_values(|f: Vec<char>| f@) == split_lines(t@),
{
    let mut r: Vec<Vec<char>> = Vec::new();
    let mut cur: Vec<char> = Vec::new();
    proof {
        assert(r@.map_values(|f: Vec<char>| f@).push(cur@) =~~= split_lines(t@.take(0)));
    }
    let mut i: usize = 0;
    while i < t.len()
        invariant
            i <= t@.len(),
            r@.map_values(|f: Vec<char>| f@).push(cur@) == split_lines(t@.take(i as int)),
        decreases t@.len() - i,
    {
        let ghost prefix = t@.take(i as int);
        let ghost m = r@.map_values(|f: Vec<char>| f@);
        let ghost cur0 = cur@;
        let ghost s = split_lines(prefix);
        let c = t[i];
        proof {
            assert(t@.take(i + 1).drop_last() =~= prefix);
            assert(t@.take(i + 1).last() == c);
            assert(t@.take(i + 1).len() > 0);
        }
        if c == '\n' {
            r.push(cur);
            cur = Vec::new();
            proof {
                assert(r@.map_values(|f: Vec<char>| f@) =~~= m.push(cur0));
                assert(split_lines(t@.take(i + 1)) == s.push(Seq::<char>::empty()));
                assert(r@.map_values(|f: Vec<char>| f@).push(cur@) == split_lines(
                    t@.take(i + 1),
                ));
            }
        } else {
            cur.push(c);
            proof {
                assert(split_lines(t@.take(i + 1)) == s.update(s.len() - 1, s.last().push(c)));
                assert(s.last() == cur0);
                assert(s.update(s.len() - 1, cur0.push(c)) =~~= m.push(cur@));
            }
        }
        i += 1;
    }
    proof {
        assert(t@.take(t@.len() as int) =~= t@);
    }
    r.push(cur);
    let ghost m = r@.map_values(|f: Vec<char>| f@);
    proof {
        assert(m =~~= split_lines(t@));
    }
    r
}

} // verus!
