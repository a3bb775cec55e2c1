//! The scanner: single passes over the lines of a document that check its
//! integrity and find sections and variables.
use crate::lines::rows;
use crate::model::{
    balanced, ending, first_row, joined, lemma_first_row_is, lines_with, listed, located,
    naming, opening, opens, section_start, some_fragment_names,
};
use crate::text::{
    append, before, find_char_from, has_char, lemma_position_skip, same, slice_of, strip, trim,
    trimmed,
};
use vstd::prelude::*;

verus! {

/// The integrity check: whether as many lines hold `(` as hold `)`, and as
/// many hold `{` as hold `}`.
pub fn is_ccf(lines: &Vec<Vec<char>>) -> (good: bool)
    ensures
        good == balanced(rows(lines@)),
{
    let mut brack: usize = 0;
    let mut rev_brack: usize = 0;
    let mut braces: usize = 0;
    let mut rev_braces: usize = 0;
    let mut i: usize = 0;
    while i < lines.len()
        invariant
            i <= lines.len(),
            brack <= i,
            rev_brack <= i,
            braces <= i,
            rev_braces <= i,
            brack == lines_with(rows(lines@).take(i as int), '('),
            rev_brack == lines_with(rows(lines@).take(i as int), ')'),
            braces == lines_with(rows(lines@).take(i as int), '{'),
            rev_braces == lines_with(rows(lines@).take(i as int), '}'),
        decreases lines.len() - i,
    {
        proof {
            let l = rows(lines@);
            assert(l.take(i + 1).drop_last() =~= l.take(i as int));
            assert(l.take(i + 1).last() == lines@[i as int]@);
        }
        let line = &lines[i];
        if has_char(line, '(') {
            brack += 1;
        }
        if has_char(line, ')') {
            rev_brack += 1;
        }
        if has_char(line, '{') {
            braces += 1;
        }
        if has_char(line, '}') {
            rev_braces += 1;
        }
        i += 1;
    }
    assert(rows(lines@).take(lines.len() as int) =~= rows(lines@));
    brack == rev_brack && braces == rev_braces
}

/// Whether `line` opens the section `key`.
pub fn opens_line(line: &[char], key: &[char]) -> (r: bool)
    ensures
        r == opens(line@, key@),
{
    if !has_char(line, '(') {
        return false;
    }
    let cleaned = strip(line, '(', ')', '{');
    let name = trimmed(&cleaned);
    same(&name, key)
}

/// The index of the first line at or after `from` that opens `key`, or the
/// number of lines.
pub fn find_section(lines: &Vec<Vec<char>>, key: &[char], from: usize) -> (at: usize)
    requires
        from <= lines.len(),
    ensures
        at == first_row(rows(lines@), opening(key@), from as int),
        from <= at <= lines.len(),
{
    let mut i: usize = from;
    while i < lines.len() && !opens_line(&lines[i], key)
        invariant
            from <= i <= lines.len(),
            forall|j: int| from <= j < i ==> !opens(#[trigger] rows(lines@)[j], key@),
        decreases lines.len() - i,
    {
        i += 1;
    }
    proof {
        lemma_first_row_is(rows(lines@), opening(key@), from as int, i as int);
    }
    i
}

/// The index of the line of the variable `var` in the first section `key`:
/// the first body line whose name is `var`, trimmed.
pub fn get_var_line(lines: &Vec<Vec<char>>, key: &[char], var: &[char]) -> (found: Option<usize>)
    ensures
        match found {
            Some(at) => located(rows(lines@), key@, trim(var@)) == Some(at as int),
            None => located(rows(lines@), key@, trim(var@)) is None,
        },
{
    let name = trimmed(var);
    let start = find_section(lines, key, 0);
    if start >= lines.len() {
        return None;
    }
    let ghost l = rows(lines@);
    let ghost stop = naming(key@, name@);
    let mut i: usize = start + 1;
    while i < lines.len()
        invariant
            start + 1 <= i <= lines.len(),
            l == rows(lines@),
            stop == naming(key@, name@),
            name@ == trim(var@),
            start == section_start(l, key@),
            forall|j: int| start + 1 <= j < i ==> !stop(#[trigger] l[j]),
        decreases lines.len() - i,
    {
        let line = &lines[i];
        if !opens_line(line, key) {
            if has_char(line, '}') {
                proof {
                    lemma_first_row_is(l, stop, start + 1, i as int);
                }
                return None;
            }
            let fmt_line = trimmed(line);
            let var_from_line = before(&fmt_line, '=');
            if same(&var_from_line, &name) {
                proof {
                    lemma_first_row_is(l, stop, start + 1, i as int);
                }
                return Some(i);
            }
        }
        i += 1;
    }
    proof {
        lemma_first_row_is(l, stop, start + 1, i as int);
    }
    None
}

/// Whether one of the fragments into which commas cut `buf` is not empty and
/// has `name` before its first `=`.
pub fn names_fragment(buf: &[char], name: &[char]) -> (r: bool)
    ensures
        r == some_fragment_names(buf@, name@),
{
    let mut start: usize = 0;
    assert(buf@.skip(0) =~= buf@);
    loop
        invariant
            start <= buf.len(),
            some_fragment_names(buf@, name@) == some_fragment_names(
                buf@.skip(start as int),
                name@,
            ),
        decreases buf.len() - start,
    {
        let n = find_char_from(buf, ',', start);
        let v = slice_of(buf, start, n);
        proof {
            let rest = buf@.skip(start as int);
            lemma_position_skip(buf@, ',', start as int);
            assert(rest.take(n - start) =~= v@);
            if n < buf.len() {
                assert(rest.skip(n - start + 1) =~= buf@.skip(n + 1));
            }
        }
        if v.len() > 0 {
            let v_v = before(&v, '=');
            if same(&v_v, name) {
                return true;
            }
        }
        if n >= buf.len() {
            return false;
        }
        start = n + 1;
    }
}

/// Whether the first section `key` lists the variable `var`. Both names are
/// trimmed first. The trimmed body lines go into one buffer, each followed by
/// a comma; the buffer is cut at its commas, and each fragment that is not
/// empty is asked for the name before its first `=`.
pub fn is_var(lines: &Vec<Vec<char>>, key: &[char], var: &[char]) -> (r: bool)
    ensures
        r == listed(rows(lines@), trim(key@), trim(var@)),
{
    let k = trimmed(key);
    let name = trimmed(var);
    let start = find_section(lines, &k, 0);
    let mut var_val: Vec<char> = Vec::new();
    let ghost l = rows(lines@);
    if start < lines.len() {
        let mut i: usize = start + 1;
        let mut closed = false;
        while i < lines.len() && !closed
            invariant
                start + 1 <= i <= lines.len(),
                l == rows(lines@),
                forall|j: int| start + 1 <= j < i ==> !ending(k@)(#[trigger] l[j]),
                closed ==> i < lines.len() && ending(k@)(l[i as int]),
                var_val@ == joined(l, k@, start + 1, i as int),
            decreases lines.len() - i + if closed { 0int } else { 1int },
        {
            let line = &lines[i];
            let opening_again = opens_line(line, &k);
            if !opening_again && has_char(line, '}') {
                closed = true;
            } else {
                if !opening_again {
                    let fmt_line = trimmed(line);
                    append(&mut var_val, &fmt_line);
                    var_val.push(',');
                }
                i += 1;
            }
        }
        proof {
            lemma_first_row_is(l, ending(k@), start + 1, i as int);
        }
    }
    names_fragment(&var_val, &name)
}

} // verus!
