//! A document as lines: how a text falls into lines, and how lines make a text.
use crate::text::{lemma_position_from_is, position, slice_of};
use vstd::prelude::*;

verus! {

/// The lines held by a vector of character vectors.
pub open spec fn rows(v: Seq<Vec<char>>) -> Seq<Seq<char>> {
    Seq::new(v.len(), |i: int| v[i]@)
}

/// The texts held by a vector of strings.
pub open spec fn texts(v: Seq<String>) -> Seq<Seq<char>> {
    Seq::new(v.len(), |i: int| v[i]@)
}

/// A line as it is read: without the carriage return that may stand before its
/// line feed.
pub open spec fn chomp(l: Seq<char>) -> Seq<char> {
    if l.len() > 0 && l.last() == '\r' {
        l.drop_last()
    } else {
        l
    }
}

/// The lines of a text. A line ends at a line feed, which is not part of it,
/// and neither is one carriage return directly before that line feed. What
/// follows the last line feed is a line too, unless it is empty.
pub open spec fn lines_of(t: Seq<char>) -> Seq<Seq<char>>
    decreases t.len(),
{
    let n = position(t, '\n');
    if t.len() == 0 {
        Seq::empty()
    } else if 0 <= n < t.len() {
        seq![chomp(t.take(n))] + lines_of(t.skip(n + 1))
    } else {
        seq![t]
    }
}

/// The text that the lines make: each line followed by a line feed.
pub open spec fn render(l: Seq<Seq<char>>) -> Seq<char>
    decreases l.len(),
{
    if l.len() == 0 {
        Seq::empty()
    } else {
        render(l.drop_last()) + l.last() + seq!['\n']
    }
}

/// Rendering one more line appends it and a line feed.
pub proof fn lemma_render_push(l: Seq<Seq<char>>, x: Seq<char>)
    ensures
        render(l.push(x)) == render(l) + x + seq!['\n'],
{
    assert(l.push(x).drop_last() =~= l);
}

/// The lines of `text`.
pub fn split_lines(text: &[char]) -> (out: Vec<Vec<char>>)
    ensures
        rows(out@) == lines_of(text@),
{
    let mut out: Vec<Vec<char>> = Vec::new();
    let mut start: usize = 0;
    let mut i: usize = 0;
    assert(text@.skip(0) =~= text@);
    assert(rows(out@) + lines_of(text@) =~= lines_of(text@));
    while i < text.len()
        invariant
            start <= i <= text.len(),
            forall|j: int| start <= j < i ==> text@[j] != '\n',
            lines_of(text@) == rows(out@) + lines_of(text@.skip(start as int)),
        decreases text.len() - i,
    {
        if text[i] == '\n' {
            let mut end: usize = i;
            if end > start && text[end - 1] == '\r' {
                end -= 1;
            }
            let line = slice_of(text, start, end);
            proof {
                let t = text@.skip(start as int);
                let n = i - start;
                lemma_position_from_is(t, '\n', 0, n);
                assert(t.take(n) =~= text@.subrange(start as int, i as int));
                assert(chomp(t.take(n)) =~= line@);
                assert(t.skip(n + 1) =~= text@.skip(i + 1));
                assert(rows(out@.push(line)) =~= rows(out@).push(line@));
                assert(rows(out@) + (seq![line@] + lines_of(text@.skip(i + 1))) =~= rows(
                    out@,
                ).push(line@) + lines_of(text@.skip(i + 1)));
            }
            out.push(line);
            start = i + 1;
        }
        i += 1;
    }
    if start < text.len() {
        let line = slice_of(text, start, text.len());
        proof {
            let t = text@.skip(start as int);
            lemma_position_from_is(t, '\n', 0, t.len() as int);
            assert(t =~= line@);
            assert(rows(out@.push(line)) =~= rows(out@) + seq![line@]);
        }
        out.push(line);
    } else {
        assert(rows(out@) + lines_of(text@.skip(start as int)) =~= rows(out@));
    }
    out
}

} // verus!
