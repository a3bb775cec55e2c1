//! Facts about texts and lines that the laws of the store rest on.
use crate::lines::{chomp, lines_of, render};
use crate::model::{
    armed, assigns, balanced, closes, ending, entry, entry_name, entry_value, first_row,
    header_name, is_header, joined, lines_with, listed, listed_value, located, lookup_of,
    naming, opening, opens, reading, section_end, section_start, values_between,
};
use crate::text::{
    is_space, left_of, lemma_position, lemma_position_from_is, position, right_of, trim,
    trim_end, trim_start, without,
};
use vstd::prelude::*;

verus! {

/// A text that is empty or has no white space at either end.
pub open spec fn tight(s: Seq<char>) -> bool {
    s.len() == 0 || (!is_space(s[0]) && !is_space(s.last()))
}

/// A text without delimiters and line feeds: it holds none of `(`, `)`, `{`,
/// `}` and no line feed.
pub open spec fn clean(s: Seq<char>) -> bool {
    !s.contains('(') && !s.contains(')') && !s.contains('{') && !s.contains('}') && !s.contains(
        '\n',
    )
}

/// The lines as they are read back: each without one carriage return at its
/// end.
pub open spec fn chomp_all(l: Seq<Seq<char>>) -> Seq<Seq<char>> {
    Seq::new(l.len(), |i: int| chomp(l[i]))
}

/// A character is in `a + b` where it is in `a` or in `b`.
pub proof fn lemma_contains_concat(a: Seq<char>, b: Seq<char>, c: char)
    ensures
        (a + b).contains(c) <==> a.contains(c) || b.contains(c),
{
    if a.contains(c) {
        let i = choose|i: int| 0 <= i < a.len() && a[i] == c;
        assert((a + b)[i] == c);
    }
    if b.contains(c) {
        let i = choose|i: int| 0 <= i < b.len() && b[i] == c;
        assert((a + b)[a.len() + i] == c);
    }
    if (a + b).contains(c) {
        let i = choose|i: int| 0 <= i < (a + b).len() && (a + b)[i] == c;
        if i < a.len() {
            assert(a[i] == c);
        } else {
            assert(b[i - a.len()] == c);
        }
    }
}

/// A text that is tight is its own trimmed form.
pub proof fn lemma_trim_tight(s: Seq<char>)
    requires
        tight(s),
    ensures
        trim(s) == s,
{
}

/// Leading white space is trimmed from what stands before a text that begins
/// with something else.
pub proof fn lemma_trim_start_concat(v: Seq<char>, w: Seq<char>)
    requires
        w.len() > 0,
        !is_space(w[0]),
    ensures
        trim_start(v + w) == trim_start(v) + w,
    decreases v.len(),
{
    if v.len() == 0 {
        assert(v + w =~= w);
        assert(trim_start(v) + w =~= w);
    } else if is_space(v[0]) {
        assert((v + w)[0] == v[0]);
        assert((v + w).drop_first() =~= v.drop_first() + w);
        lemma_trim_start_concat(v.drop_first(), w);
    } else {
        assert((v + w)[0] == v[0]);
    }
}

/// What is left of a text after its leading white space holds only what the
/// text held.
pub proof fn lemma_trim_start_within(s: Seq<char>, c: char)
    ensures
        trim_start(s).contains(c) ==> s.contains(c),
        !is_space(c) ==> (trim_start(s).contains(c) <==> s.contains(c)),
    decreases s.len(),
{
    if s.len() > 0 && is_space(s[0]) {
        lemma_trim_start_within(s.drop_first(), c);
        assert(s =~= seq![s[0]] + s.drop_first());
        lemma_contains_concat(seq![s[0]], s.drop_first(), c);
        if seq![s[0]].contains(c) {
            let i = choose|i: int| 0 <= i < 1 && seq![s[0]][i] == c;
            assert(c == s[0]);
        }
    }
}

/// What is left of a text before its trailing white space holds only what
/// the text held.
pub proof fn lemma_trim_end_within(s: Seq<char>, c: char)
    ensures
        trim_end(s).contains(c) ==> s.contains(c),
        !is_space(c) ==> (trim_end(s).contains(c) <==> s.contains(c)),
    decreases s.len(),
{
    if s.len() > 0 && is_space(s.last()) {
        lemma_trim_end_within(s.drop_last(), c);
        assert(s =~= s.drop_last() + seq![s.last()]);
        lemma_contains_concat(s.drop_last(), seq![s.last()], c);
        if seq![s.last()].contains(c) {
            let i = choose|i: int| 0 <= i < 1 && seq![s.last()][i] == c;
            assert(c == s.last());
        }
    }
}

/// Trimming keeps every character that is not white space, and adds none.
pub proof fn lemma_trim_within(s: Seq<char>, c: char)
    ensures
        trim(s).contains(c) ==> s.contains(c),
        !is_space(c) ==> (trim(s).contains(c) <==> s.contains(c)),
{
    lemma_trim_start_within(s, c);
    lemma_trim_end_within(trim_start(s), c);
}

/// Leading white space and one more white space at the end.
pub proof fn lemma_trim_start_push_space(y: Seq<char>, c: char)
    requires
        is_space(c),
    ensures
        trim_start(y.push(c)) == if trim_start(y).len() == 0 {
            Seq::<char>::empty()
        } else {
            trim_start(y).push(c)
        },
    decreases y.len(),
{
    let s = y.push(c);
    if y.len() == 0 {
        assert(s[0] == c);
        assert(s.drop_first() =~= Seq::<char>::empty());
        assert(trim_start(s) == trim_start(s.drop_first()));
        assert(trim_start(Seq::<char>::empty()) == Seq::<char>::empty());
        assert(trim_start(y) == y);
    } else if is_space(y[0]) {
        assert(s[0] == y[0]);
        assert(s.drop_first() =~= y.drop_first().push(c));
        lemma_trim_start_push_space(y.drop_first(), c);
        assert(trim_start(s) == trim_start(s.drop_first()));
        assert(trim_start(y) == trim_start(y.drop_first()));
    } else {
        assert(s[0] == y[0]);
        assert(trim_start(s) == s);
        assert(trim_start(y) == y);
    }
}

/// One more white space at the end of a text does not change its trimmed
/// form.
pub proof fn lemma_trim_push_space(y: Seq<char>, c: char)
    requires
        is_space(c),
    ensures
        trim(y.push(c)) == trim(y),
{
    lemma_trim_start_push_space(y, c);
    let t = trim_start(y);
    if t.len() > 0 {
        assert(t.push(c).drop_last() =~= t);
    }
}

/// The first `c` of `a`, `c`, `b` stands behind `a`, where `a` holds none.
pub proof fn lemma_position_concat(a: Seq<char>, c: char, b: Seq<char>)
    requires
        !a.contains(c),
    ensures
        position(a + seq![c] + b, c) == a.len(),
        left_of(a + seq![c] + b, c) == a,
        right_of(a + seq![c] + b, c) == b,
{
    let s = a + seq![c] + b;
    assert forall|i: int| 0 <= i < a.len() implies s[i] != c by {
        assert(s[i] == a[i]);
    }
    assert(s[a.len() as int] == c);
    lemma_position_from_is(s, c, 0, a.len() as int);
    assert(s.take(a.len() as int) =~= a);
    assert(s.skip(a.len() as int + 1) =~= b);
}

/// In a text that does not hold `c`, all of it stands before the first `c`
/// and nothing after.
pub proof fn lemma_position_none(s: Seq<char>, c: char)
    requires
        !s.contains(c),
    ensures
        position(s, c) == s.len(),
        left_of(s, c) == s,
        right_of(s, c) == Seq::<char>::empty(),
{
    lemma_position(s, c);
    assert(s.take(s.len() as int) =~= s);
}

/// Taking characters out of two texts and out of the two as one.
pub proof fn lemma_without_concat(x: Seq<char>, y: Seq<char>, a: char, b: char, c: char)
    ensures
        without(x + y, a, b, c) == without(x, a, b, c) + without(y, a, b, c),
    decreases y.len(),
{
    if y.len() == 0 {
        assert(x + y =~= x);
        assert(without(x, a, b, c) + without(y, a, b, c) =~= without(x, a, b, c));
    } else {
        assert((x + y).drop_last() =~= x + y.drop_last());
        assert((x + y).last() == y.last());
        lemma_without_concat(x, y.drop_last(), a, b, c);
        let r = without(x, a, b, c);
        let q = without(y.drop_last(), a, b, c);
        assert((r + q).push(y.last()) =~= r + q.push(y.last()));
    }
}

/// A text that holds none of the characters loses nothing.
pub proof fn lemma_without_none(x: Seq<char>, a: char, b: char, c: char)
    requires
        !x.contains(a),
        !x.contains(b),
        !x.contains(c),
    ensures
        without(x, a, b, c) == x,
    decreases x.len(),
{
    if x.len() > 0 {
        assert(x.last() == x[x.len() - 1]);
        assert forall|ch: char| x.drop_last().contains(ch) implies x.contains(ch) by {
            let i = choose|i: int| 0 <= i < x.drop_last().len() && x.drop_last()[i] == ch;
            assert(x[i] == ch);
        }
        lemma_without_none(x.drop_last(), a, b, c);
        assert(x.drop_last().push(x.last()) =~= x);
    }
}

/// A line read back, with or without the carriage return at its end, is the
/// same line to every scan: it holds the same characters but for carriage
/// returns, and has the same trimmed form, the same header name and the same
/// listed value.
pub proof fn lemma_chomp_line(x: Seq<char>)
    ensures
        forall|c: char| c != '\r' ==> (chomp(x).contains(c) <==> x.contains(c)),
        trim(chomp(x)) == trim(x),
        header_name(chomp(x)) == header_name(x),
        listed_value(chomp(x)) == listed_value(x),
{
    if x.len() > 0 && x.last() == '\r' {
        let y = x.drop_last();
        assert(x =~= y.push('\r'));
        assert(is_space('\r'));
        assert forall|c: char| c != '\r' implies (y.contains(c) <==> x.contains(c)) by {
            assert(x =~= y + seq!['\r']);
            lemma_contains_concat(y, seq!['\r'], c);
            if seq!['\r'].contains(c) {
                let i = choose|i: int| 0 <= i < 1 && seq!['\r'][i] == c;
                assert(false);
            }
        }
        lemma_trim_push_space(y, '\r');
        // the header name
        assert(x.drop_last() == y);
        let w = without(y, '(', ')', '{');
        assert(without(x, '(', ')', '{') == w.push('\r'));
        lemma_trim_push_space(w, '\r');
        // the listed value
        lemma_position(y, '=');
        lemma_position(x, '=');
        if y.contains('=') {
            let p = position(y, '=');
            assert forall|i: int| 0 <= i < p implies x[i] != '=' by {
                assert(x[i] == y[i]);
            }
            assert(x[p] == '=');
            lemma_position_from_is(x, '=', 0, p);
            assert(right_of(x, '=') =~= right_of(y, '=').push('\r'));
            lemma_trim_push_space(right_of(y, '='), '\r');
        } else {
            assert(!x.contains('='));
        }
    }
}

/// What a scan asks of a line does not depend on a carriage return at its
/// end.
pub proof fn lemma_chomp_asks(x: Seq<char>, key: Seq<char>, var: Seq<char>)
    ensures
        is_header(chomp(x)) == is_header(x),
        opens(chomp(x), key) == opens(x, key),
        closes(chomp(x)) == closes(x),
        entry_name(chomp(x)) == entry_name(x),
        entry_value(chomp(x)) == entry_value(x),
        assigns(chomp(x), var) == assigns(x, var),
        listed_value(chomp(x)) == listed_value(x),
        trim(chomp(x)) == trim(x),
{
    lemma_chomp_line(x);
}

/// The header line of the section `key`.
pub open spec fn header(key: Seq<char>) -> Seq<char> {
    seq!['('] + key + seq![')', ' ', '{']
}

/// Taking characters out of a text of one character.
pub proof fn lemma_without_one(x: char, a: char, b: char, c: char)
    ensures
        without(seq![x], a, b, c) == if x == a || x == b || x == c {
            Seq::<char>::empty()
        } else {
            seq![x]
        },
{
    let s = seq![x];
    assert(s.last() == x);
    assert(s.drop_last() =~= Seq::<char>::empty());
    assert(without(s.drop_last(), a, b, c) =~= Seq::<char>::empty());
    assert(Seq::<char>::empty().push(x) =~= seq![x]);
}

/// A text of one character holds that character and no other.
pub proof fn lemma_contains_one(x: char, c: char)
    ensures
        seq![x].contains(c) <==> x == c,
{
    if seq![x].contains(c) {
        let i = choose|i: int| 0 <= i < 1 && seq![x][i] == c;
        assert(x == c);
    }
    assert(seq![x][0] == x);
}

/// The line of an entry of a clean name and a clean value is clean.
pub proof fn lemma_entry_clean(var: Seq<char>, val: Seq<char>)
    requires
        clean(var),
        clean(val),
    ensures
        clean(entry(var, val)),
{
    let e = entry(var, val);
    let tail = seq!['='] + val;
    assert(e =~= seq!['\t'] + (var + tail));
    assert forall|c: char| c != '\t' && c != '=' && !var.contains(c) && !val.contains(
        c,
    ) implies !e.contains(c) by {
        lemma_contains_concat(seq!['\t'], var + tail, c);
        lemma_contains_concat(var, tail, c);
        lemma_contains_concat(seq!['='], val, c);
        lemma_contains_one('\t', c);
        lemma_contains_one('=', c);
    }
}

/// What the line of a new entry is to the scans: no header and no closing
/// line, a line without a line feed that is read back as it is, and one that
/// gives the trimmed name the value.
pub proof fn lemma_entry(var: Seq<char>, val: Seq<char>)
    requires
        clean(var),
        !var.contains('='),
        trim_start(var) == trim(var),
        clean(val),
        val.len() == 0 || !is_space(val.last()),
    ensures
        clean(entry(var, val)),
        !is_header(entry(var, val)),
        !closes(entry(var, val)),
        chomp(entry(var, val)) == entry(var, val),
        trim(entry(var, val)) == trim(var) + seq!['='] + val,
        entry_name(entry(var, val)) == trim(var),
        entry_value(entry(var, val)) == val,
        assigns(entry(var, val), trim(var)),
{
    let e = entry(var, val);
    let tail = seq!['='] + val;
    assert(e =~= seq!['\t'] + (var + tail));
    lemma_entry_clean(var, val);
    assert(e.last() == if val.len() > 0 {
        val.last()
    } else {
        '='
    });
    assert(!is_space('='));
    assert(is_space('\t'));
    // the trimmed line
    assert(e[0] == '\t');
    assert(e.drop_first() =~= var + tail);
    assert(tail[0] == '=');
    lemma_trim_start_concat(var, tail);
    let t = trim_start(var) + tail;
    assert(trim_start(e) == t);
    assert(t.last() == e.last());
    assert(trim_end(t) == t);
    assert(t =~= trim(var) + seq!['='] + val);
    // its name and its value
    lemma_trim_within(var, '=');
    lemma_position_concat(trim(var), '=', val);
    lemma_position(trim(e), '=');
}

/// What the header line of a new section is to the scans: it opens its
/// section, closes none, holds no line feed, and is read back as it is.
pub proof fn lemma_header(key: Seq<char>)
    requires
        clean(key),
        tight(key),
    ensures
        is_header(header(key)),
        header(key).contains(')'),
        header(key).contains('{'),
        !closes(header(key)),
        !header(key).contains('\n'),
        header_name(header(key)) == key,
        opens(header(key), key),
        chomp(header(key)) == header(key),
{
    let h = header(key);
    let back = seq![')', ' ', '{'];
    assert(h[0] == '(');
    assert(h[key.len() as int + 1] == ')');
    assert(h[key.len() as int + 3] == '{');
    assert(h.last() == '{');
    assert forall|c: char| c != '(' && c != ')' && c != ' ' && c != '{' && !key.contains(
        c,
    ) implies !h.contains(c) by {
        if h.contains(c) {
            let i = choose|i: int| 0 <= i < h.len() && h[i] == c;
            if 1 <= i < key.len() + 1 {
                assert(key[i - 1] == c);
            }
        }
    }
    // the name
    lemma_without_concat(seq!['('] + key, back, '(', ')', '{');
    lemma_without_concat(seq!['('], key, '(', ')', '{');
    lemma_without_one('(', '(', ')', '{');
    lemma_without_none(key, '(', ')', '{');
    assert(back =~= seq![')'] + seq![' '] + seq!['{']);
    lemma_without_concat(seq![')'] + seq![' '], seq!['{'], '(', ')', '{');
    lemma_without_concat(seq![')'], seq![' '], '(', ')', '{');
    lemma_without_one(')', '(', ')', '{');
    lemma_without_one(' ', '(', ')', '{');
    lemma_without_one('{', '(', ')', '{');
    assert(without(h, '(', ')', '{') =~= key.push(' '));
    assert(is_space(' '));
    lemma_trim_push_space(key, ' ');
    lemma_trim_tight(key);
}

/// The first line of a text ends at its first line feed.
pub proof fn lemma_lines_of_first(x: Seq<char>, rest: Seq<char>)
    requires
        !x.contains('\n'),
    ensures
        lines_of(x + seq!['\n'] + rest) == seq![chomp(x)] + lines_of(rest),
{
    lemma_position_concat(x, '\n', rest);
}

/// A text without a line feed that is not empty is one line.
pub proof fn lemma_lines_of_single(x: Seq<char>)
    requires
        !x.contains('\n'),
        x.len() > 0,
    ensures
        lines_of(x) == seq![x],
{
    lemma_position_none(x, '\n');
}

/// The lines of rendered lines are those lines, read back; what follows them
/// falls into lines of its own.
pub proof fn lemma_lines_of_render(l: Seq<Seq<char>>, tail: Seq<char>)
    requires
        forall|i: int| 0 <= i < l.len() ==> !(#[trigger] l[i]).contains('\n'),
    ensures
        lines_of(render(l) + tail) == chomp_all(l) + lines_of(tail),
    decreases l.len(),
{
    if l.len() == 0 {
        assert(render(l) + tail =~= tail);
        assert(chomp_all(l) + lines_of(tail) =~= lines_of(tail));
    } else {
        let front = l.drop_last();
        let last = l.last();
        let tail2 = last + seq!['\n'] + tail;
        assert(render(l) + tail =~= render(front) + tail2);
        lemma_lines_of_render(front, tail2);
        lemma_lines_of_first(last, tail);
        assert(chomp_all(l) + lines_of(tail) =~= chomp_all(front) + (seq![chomp(last)] + lines_of(
            tail,
        )));
    }
}

/// The lines of rendered lines are those lines, read back.
pub proof fn lemma_lines_of_rendered(l: Seq<Seq<char>>)
    requires
        forall|i: int| 0 <= i < l.len() ==> !(#[trigger] l[i]).contains('\n'),
    ensures
        lines_of(render(l)) == chomp_all(l),
{
    lemma_lines_of_render(l, Seq::empty());
    assert(render(l) + Seq::<char>::empty() =~= render(l));
    assert(chomp_all(l) + lines_of(Seq::<char>::empty()) =~= chomp_all(l));
}

/// No line of a text holds a line feed.
pub proof fn lemma_lines_hold_no_feed(t: Seq<char>)
    ensures
        forall|i: int| 0 <= i < lines_of(t).len() ==> !(#[trigger] lines_of(t)[i]).contains('\n'),
    decreases t.len(),
{
    let n = position(t, '\n');
    lemma_position(t, '\n');
    if t.len() == 0 {
    } else if 0 <= n < t.len() {
        let first = t.take(n);
        let rest = t.skip(n + 1);
        lemma_lines_hold_no_feed(rest);
        if first.contains('\n') {
            let i = choose|i: int| 0 <= i < first.len() && first[i] == '\n';
            assert(t[i] == '\n');
        }
        lemma_chomp_line(first);
        assert forall|i: int| 0 <= i < lines_of(t).len() implies !(#[trigger] lines_of(
            t,
        )[i]).contains('\n') by {
            if i > 0 {
                assert(lines_of(t)[i] == lines_of(rest)[i - 1]);
            }
        }
    } else {
    }
}

/// Counting the lines that hold `c` with one more line.
pub proof fn lemma_lines_with_push(l: Seq<Seq<char>>, x: Seq<char>, c: char)
    ensures
        lines_with(l.push(x), c) == lines_with(l, c) + if x.contains(c) {
            1nat
        } else {
            0nat
        },
{
    assert(l.push(x).drop_last() =~= l);
}

/// Counting the lines that hold `c` in two runs of lines.
pub proof fn lemma_lines_with_concat(a: Seq<Seq<char>>, b: Seq<Seq<char>>, c: char)
    ensures
        lines_with(a + b, c) == lines_with(a, c) + lines_with(b, c),
    decreases b.len(),
{
    if b.len() == 0 {
        assert(a + b =~= a);
    } else {
        assert((a + b).drop_last() =~= a + b.drop_last());
        lemma_lines_with_concat(a, b.drop_last(), c);
    }
}

/// Reading lines back does not change how many hold `c`, unless `c` is the
/// carriage return.
pub proof fn lemma_lines_with_chomp(l: Seq<Seq<char>>, c: char)
    requires
        c != '\r',
    ensures
        lines_with(chomp_all(l), c) == lines_with(l, c),
    decreases l.len(),
{
    if l.len() > 0 {
        assert(chomp_all(l).drop_last() =~= chomp_all(l.drop_last()));
        lemma_lines_with_chomp(l.drop_last(), c);
        lemma_chomp_line(l.last());
    }
}

/// Counting the lines that hold `c` without one of the lines.
pub proof fn lemma_lines_with_remove(l: Seq<Seq<char>>, i: int, c: char)
    requires
        0 <= i < l.len(),
    ensures
        lines_with(l, c) == lines_with(l.remove(i), c) + if l[i].contains(c) {
            1nat
        } else {
            0nat
        },
{
    let a = l.take(i);
    let b = l.skip(i + 1);
    assert(l =~= a.push(l[i]) + b);
    assert(l.remove(i) =~= a + b);
    lemma_lines_with_concat(a.push(l[i]), b, c);
    lemma_lines_with_concat(a, b, c);
    lemma_lines_with_push(a, l[i], c);
}

/// Two runs of lines of one length, of which a scan asks the same line by
/// line, stop the scan at the same line.
pub proof fn lemma_first_row_same(
    a: Seq<Seq<char>>,
    b: Seq<Seq<char>>,
    p: spec_fn(Seq<char>) -> bool,
    from: int,
)
    requires
        a.len() == b.len(),
        0 <= from,
        forall|i: int| 0 <= i < a.len() ==> p(#[trigger] a[i]) == p(b[i]),
    ensures
        first_row(a, p, from) == first_row(b, p, from),
    decreases a.len() - from,
{
    if from < a.len() {
        assert(p(a[from]) == p(b[from]));
        if !p(a[from]) {
            lemma_first_row_same(a, b, p, from + 1);
        }
    }
}

/// Lines read back stop every scan where the lines themselves do.
pub proof fn lemma_scan_chomp(l: Seq<Seq<char>>, key: Seq<char>, var: Seq<char>, from: int)
    requires
        0 <= from,
    ensures
        first_row(chomp_all(l), opening(key), from) == first_row(l, opening(key), from),
        first_row(chomp_all(l), ending(key), from) == first_row(l, ending(key), from),
        first_row(chomp_all(l), naming(key, var), from) == first_row(l, naming(key, var), from),
        first_row(chomp_all(l), reading(key, var), from) == first_row(
            l,
            reading(key, var),
            from,
        ),
{
    let m = chomp_all(l);
    assert forall|i: int| 0 <= i < m.len() implies {
        &&& opening(key)(#[trigger] m[i]) == opening(key)(l[i])
        &&& ending(key)(m[i]) == ending(key)(l[i])
        &&& naming(key, var)(m[i]) == naming(key, var)(l[i])
        &&& reading(key, var)(m[i]) == reading(key, var)(l[i])
    } by {
        lemma_chomp_asks(l[i], key, var);
    }
    lemma_first_row_same(m, l, opening(key), from);
    lemma_first_row_same(m, l, ending(key), from);
    lemma_first_row_same(m, l, naming(key, var), from);
    lemma_first_row_same(m, l, reading(key, var), from);
}

/// Lines read back pass and fail the integrity check as the lines themselves
/// do.
pub proof fn lemma_balanced_chomp(l: Seq<Seq<char>>)
    ensures
        balanced(chomp_all(l)) == balanced(l),
{
    lemma_lines_with_chomp(l, '(');
    lemma_lines_with_chomp(l, ')');
    lemma_lines_with_chomp(l, '{');
    lemma_lines_with_chomp(l, '}');
}

/// Lines read back give every lookup what the lines themselves give.
pub proof fn lemma_lookup_chomp(l: Seq<Seq<char>>, key: Seq<char>, var: Seq<char>)
    ensures
        section_start(chomp_all(l), key) == section_start(l, key),
        section_end(chomp_all(l), key) == section_end(l, key),
        lookup_of(chomp_all(l), key, var) == lookup_of(l, key, var),
        located(chomp_all(l), key, var) == located(l, key, var),
{
    let m = chomp_all(l);
    lemma_scan_chomp(l, key, var, 0);
    let start = section_start(l, key);
    crate::model::lemma_first_row(l, opening(key), 0);
    lemma_scan_chomp(l, key, var, start + 1);
    lemma_balanced_chomp(l);
    let at = first_row(l, reading(key, var), start + 1);
    crate::model::lemma_first_row(l, reading(key, var), start + 1);
    if 0 <= at < l.len() {
        lemma_chomp_asks(l[at], key, var);
    }
    let on = first_row(l, naming(key, var), start + 1);
    crate::model::lemma_first_row(l, naming(key, var), start + 1);
    if 0 <= on < l.len() {
        lemma_chomp_asks(l[on], key, var);
    }
}

/// Lines read back list the values and the variables that the lines
/// themselves list.
pub proof fn lemma_body_chomp(l: Seq<Seq<char>>, key: Seq<char>, lo: int, hi: int)
    requires
        0 <= lo,
        hi <= l.len(),
    ensures
        joined(chomp_all(l), key, lo, hi) == joined(l, key, lo, hi),
        values_between(chomp_all(l), key, lo, hi) == values_between(l, key, lo, hi),
    decreases hi - lo,
{
    if hi > lo {
        lemma_body_chomp(l, key, lo, hi - 1);
        lemma_chomp_asks(l[hi - 1], key, key);
    }
}

/// Lines read back arm `add` where the lines themselves do.
pub proof fn lemma_armed_chomp(l: Seq<Seq<char>>, key: Seq<char>, n: int)
    requires
        n <= l.len(),
    ensures
        armed(chomp_all(l), key, n) == armed(l, key, n),
    decreases n,
{
    if n > 0 {
        lemma_armed_chomp(l, key, n - 1);
        lemma_chomp_asks(l[n - 1], key, key);
    }
}

/// A text that is empty or ends with a line feed: it is made of whole lines.
pub open spec fn whole(t: Seq<char>) -> bool {
    t.len() == 0 || t.last() == '\n'
}

/// The lines of whole lines and of what follows them.
pub proof fn lemma_lines_of_concat(a: Seq<char>, b: Seq<char>)
    requires
        whole(a),
    ensures
        lines_of(a + b) == lines_of(a) + lines_of(b),
    decreases a.len(),
{
    if a.len() == 0 {
        assert(a + b =~= b);
        assert(lines_of(a) + lines_of(b) =~= lines_of(b));
    } else {
        let s = a + b;
        lemma_position(a, '\n');
        assert(a[a.len() - 1] == '\n');
        let n = position(a, '\n');
        assert forall|i: int| 0 <= i < n implies s[i] != '\n' by {
            assert(s[i] == a[i]);
        }
        assert(s[n] == a[n]);
        lemma_position_from_is(s, '\n', 0, n);
        let rest = a.skip(n + 1);
        assert(s.skip(n + 1) =~= rest + b);
        assert(s.take(n) =~= a.take(n));
        if rest.len() > 0 {
            assert(rest.last() == a.last());
        }
        lemma_lines_of_concat(rest, b);
        assert(seq![chomp(a.take(n))] + (lines_of(rest) + lines_of(b)) =~= (seq![
            chomp(a.take(n)),
        ] + lines_of(rest)) + lines_of(b));
    }
}

} // verus!
