//! What a document means: the grammar of its lines, and what each operation of
//! the store reads from them or makes of them, as mathematical functions.
//!
//! A document is a text. Every operation takes its lines anew, finds sections
//! and variables in them, and, where it changes anything, makes a whole new
//! text.
use crate::lines::{lines_of, render};
use crate::text::{left_of, position, right_of, trim, without};
use vstd::prelude::*;

verus! {

/// How a call that changes the document ended.
#[derive(Clone, Copy, Debug, PartialEq, Eq, Structural)]
pub enum Outcome {
    /// The document was rewritten.
    Written,
    /// There was nothing to do, and the document was left as it was.
    Untouched,
    /// The variable was not found; the document was left as it was.
    NotFound,
    /// The variable already exists; the document was left as it was.
    AlreadyExists,
    /// The delimiters of the document are out of balance; the document was
    /// left as it was.
    IntegrityFailure,
}

/// Why a lookup gave no value.
#[derive(Clone, Copy, Debug, PartialEq, Eq, Structural)]
pub enum Miss {
    /// The section closed before the variable was seen.
    NotFound,
    /// The document ended first: the section never opened, or never closed.
    NoSection,
    /// The delimiters of the document are out of balance.
    IntegrityFailure,
}

/// The number of lines that hold the character `c`. A line that holds it many
/// times counts once.
pub open spec fn lines_with(l: Seq<Seq<char>>, c: char) -> nat
    decreases l.len(),
{
    if l.len() == 0 {
        0
    } else {
        lines_with(l.drop_last(), c) + if l.last().contains(c) {
            1nat
        } else {
            0nat
        }
    }
}

/// The integrity check: as many lines hold `(` as hold `)`, and as many hold
/// `{` as hold `}`.
pub open spec fn balanced(l: Seq<Seq<char>>) -> bool {
    lines_with(l, '(') == lines_with(l, ')') && lines_with(l, '{') == lines_with(l, '}')
}

/// The integrity check on a text.
pub open spec fn intact(t: Seq<char>) -> bool {
    balanced(lines_of(t))
}

/// The section name that a header line gives: the line without `(`, `)` and
/// `{`, trimmed.
pub open spec fn header_name(line: Seq<char>) -> Seq<char> {
    trim(without(line, '(', ')', '{'))
}

/// A line that holds `(` is a header.
pub open spec fn is_header(line: Seq<char>) -> bool {
    line.contains('(')
}

/// Whether the line opens the section `key`.
pub open spec fn opens(line: Seq<char>, key: Seq<char>) -> bool {
    is_header(line) && header_name(line) == key
}

/// Whether the line closes a section.
pub open spec fn closes(line: Seq<char>) -> bool {
    line.contains('}')
}

/// The name of the variable on a body line: what stands before the first `=`
/// of the trimmed line, or all of it.
pub open spec fn entry_name(line: Seq<char>) -> Seq<char> {
    left_of(trim(line), '=')
}

/// The value on a body line: what stands after the first `=` of the trimmed
/// line, or nothing.
pub open spec fn entry_value(line: Seq<char>) -> Seq<char> {
    right_of(trim(line), '=')
}

/// Whether the line gives the variable `var` a value: it holds `=`, and its
/// name is `var`.
pub open spec fn assigns(line: Seq<char>, var: Seq<char>) -> bool {
    trim(line).contains('=') && entry_name(line) == var
}

/// The body line that gives `var` the value `val`.
pub open spec fn entry(var: Seq<char>, val: Seq<char>) -> Seq<char> {
    seq!['\t'] + var + seq!['='] + val
}

/// The text of a new section `key` that holds the one variable `var`. It ends
/// with its closing brace: no line feed follows.
pub open spec fn block(key: Seq<char>, var: Seq<char>, val: Seq<char>) -> Seq<char> {
    seq!['('] + key + seq![')', ' ', '{', '\n'] + entry(var, val) + seq!['\n', '}']
}

/// The index of the first line at or after `from` of which `p` holds;
/// `l.len()` where there is none.
pub open spec fn first_row(l: Seq<Seq<char>>, p: spec_fn(Seq<char>) -> bool, from: int) -> int
    decreases l.len() - from,
{
    if from >= l.len() {
        l.len() as int
    } else if p(l[from]) {
        from
    } else {
        first_row(l, p, from + 1)
    }
}

/// Lines that open `key`.
pub open spec fn opening(key: Seq<char>) -> spec_fn(Seq<char>) -> bool {
    |line: Seq<char>| opens(line, key)
}

/// Lines that end the body of a section `key`: they close, and do not open
/// `key` again.
pub open spec fn ending(key: Seq<char>) -> spec_fn(Seq<char>) -> bool {
    |line: Seq<char>| !opens(line, key) && closes(line)
}

/// Lines at which the search for the line of `var` stops: the end of the
/// body, or a body line named `var`.
pub open spec fn naming(key: Seq<char>, var: Seq<char>) -> spec_fn(Seq<char>) -> bool {
    |line: Seq<char>| !opens(line, key) && (closes(line) || entry_name(line) == var)
}

/// Lines at which the search for the value of `var` stops: the end of the
/// body, or a body line that gives `var` a value.
pub open spec fn reading(key: Seq<char>, var: Seq<char>) -> spec_fn(Seq<char>) -> bool {
    |line: Seq<char>| !opens(line, key) && (closes(line) || assigns(line, var))
}

/// The index of the first line that opens `key`; `l.len()` where none does.
/// Only this first section of that name is ever read.
pub open spec fn section_start(l: Seq<Seq<char>>, key: Seq<char>) -> int {
    first_row(l, opening(key), 0)
}

/// The index of the line that ends the body of the first section `key`;
/// `l.len()` where there is none.
pub open spec fn section_end(l: Seq<Seq<char>>, key: Seq<char>) -> int {
    first_row(l, ending(key), section_start(l, key) + 1)
}

/// The index of the line of the variable `var` in the first section `key`.
pub open spec fn located(l: Seq<Seq<char>>, key: Seq<char>, var: Seq<char>) -> Option<int> {
    let at = first_row(l, naming(key, var), section_start(l, key) + 1);
    if at < l.len() && !closes(l[at]) {
        Some(at)
    } else {
        None
    }
}

/// The trimmed body lines of a section `key` among the lines from `lo` up to
/// `hi`, each followed by a comma, in one buffer.
pub open spec fn joined(l: Seq<Seq<char>>, key: Seq<char>, lo: int, hi: int) -> Seq<char>
    decreases hi - lo,
{
    if hi <= lo {
        Seq::empty()
    } else if opens(l[hi - 1], key) {
        joined(l, key, lo, hi - 1)
    } else {
        joined(l, key, lo, hi - 1) + trim(l[hi - 1]) + seq![',']
    }
}

/// Whether one of the fragments into which commas cut `s` is not empty and has
/// `var` before its first `=`.
pub open spec fn some_fragment_names(s: Seq<char>, var: Seq<char>) -> bool
    decreases s.len(),
{
    let n = position(s, ',');
    let first = s.take(n);
    (first.len() > 0 && left_of(first, '=') == var) || (0 <= n < s.len() && some_fragment_names(
        s.skip(n + 1),
        var,
    ))
}

/// Whether the first section `key` lists the variable `var`. The body lines
/// are joined by commas and cut at commas again, so a line that holds a comma
/// lists what follows the comma as well.
pub open spec fn listed(l: Seq<Seq<char>>, key: Seq<char>, var: Seq<char>) -> bool {
    some_fragment_names(joined(l, key, section_start(l, key) + 1, section_end(l, key)), var)
}

/// What a lookup of `var` in the first section `key` gives.
pub open spec fn lookup_of(l: Seq<Seq<char>>, key: Seq<char>, var: Seq<char>) -> Result<
    Seq<char>,
    Miss,
> {
    let at = first_row(l, reading(key, var), section_start(l, key) + 1);
    if !balanced(l) {
        Err(Miss::IntegrityFailure)
    } else if at >= l.len() {
        Err(Miss::NoSection)
    } else if closes(l[at]) {
        Err(Miss::NotFound)
    } else {
        Ok(entry_value(l[at]))
    }
}

/// The text that `get` gives for a lookup: the value as it stands, empty or
/// not, or one of two fixed texts where there is none.
pub open spec fn shown(found: Result<Seq<char>, Miss>) -> Seq<char> {
    match found {
        Ok(v) => v,
        Err(Miss::IntegrityFailure) => "Error"@,
        Err(_) => "NONE_VAL"@,
    }
}

/// What `get` gives on the document `t`.
pub open spec fn get_of(t: Seq<char>, key: Seq<char>, var: Seq<char>) -> Seq<char> {
    shown(lookup_of(lines_of(t), key, trim(var)))
}

/// The value that `get_all` lists for a body line: what stands after its first
/// `=`, trimmed.
pub open spec fn listed_value(line: Seq<char>) -> Seq<char> {
    trim(right_of(line, '='))
}

/// The values of the body lines of a section `key` among the lines from `lo`
/// up to `hi`, in the order of the lines.
pub open spec fn values_between(l: Seq<Seq<char>>, key: Seq<char>, lo: int, hi: int) -> Seq<
    Seq<char>,
>
    decreases hi - lo,
{
    if hi <= lo {
        Seq::empty()
    } else if opens(l[hi - 1], key) {
        values_between(l, key, lo, hi - 1)
    } else {
        values_between(l, key, lo, hi - 1).push(listed_value(l[hi - 1]))
    }
}

/// What `get_all` gives on the document `t`: the values of the first section
/// `key`, or one empty text where the document fails the integrity check.
pub open spec fn get_all_of(t: Seq<char>, key: Seq<char>) -> Seq<Seq<char>> {
    let l = lines_of(t);
    let k = trim(key);
    if !balanced(l) {
        seq![Seq::empty()]
    } else {
        values_between(l, k, section_start(l, k) + 1, section_end(l, k))
    }
}

/// Whether, after the first `n` lines, a section `key` has opened and no line
/// has closed since: the next closing line gets the new entry before it.
pub open spec fn armed(l: Seq<Seq<char>>, key: Seq<char>, n: int) -> bool
    decreases n,
{
    if n <= 0 {
        false
    } else {
        (armed(l, key, n - 1) || opens(l[n - 1], key)) && !closes(l[n - 1])
    }
}

/// Whether `add` puts the new entry before line `n`.
pub open spec fn gains(l: Seq<Seq<char>>, key: Seq<char>, n: int) -> bool {
    closes(l[n]) && (armed(l, key, n) || opens(l[n], key))
}

/// Whether `add` finds a place for the new entry in a section `key`.
pub open spec fn gains_any(l: Seq<Seq<char>>, key: Seq<char>) -> bool {
    exists|n: int| 0 <= n < l.len() && gains(l, key, n)
}

/// The first `n` lines with the entry `e` put in where `add` puts it.
pub open spec fn add_rows(l: Seq<Seq<char>>, key: Seq<char>, e: Seq<char>, n: int) -> Seq<
    Seq<char>,
>
    decreases n,
{
    if n <= 0 {
        Seq::empty()
    } else if gains(l, key, n - 1) {
        add_rows(l, key, e, n - 1).push(e).push(l[n - 1])
    } else {
        add_rows(l, key, e, n - 1).push(l[n - 1])
    }
}

/// How `add` ends on the document `t`.
pub open spec fn add_outcome(t: Seq<char>, key: Seq<char>, var: Seq<char>) -> Outcome {
    let l = lines_of(t);
    if !balanced(l) {
        Outcome::IntegrityFailure
    } else if gains_any(l, key) && listed(l, trim(key), trim(var)) {
        Outcome::AlreadyExists
    } else {
        Outcome::Written
    }
}

/// The document that `add` leaves. Where a section `key` is there, each
/// closing line that follows an opening of `key` gets the entry before it;
/// where none is, a new section is appended.
pub open spec fn add_text(t: Seq<char>, key: Seq<char>, var: Seq<char>, val: Seq<char>) -> Seq<
    char,
> {
    let l = lines_of(t);
    if add_outcome(t, key, var) != Outcome::Written {
        t
    } else if section_start(l, key) < l.len() {
        render(add_rows(l, key, entry(var, val), l.len() as int))
    } else {
        render(l) + block(key, var, val)
    }
}

/// How `edit` and `delete_var` end on the document `t`.
pub open spec fn change_outcome(t: Seq<char>, key: Seq<char>, var: Seq<char>) -> Outcome {
    let l = lines_of(t);
    if !balanced(l) {
        Outcome::IntegrityFailure
    } else if located(l, key, trim(var)) is None {
        Outcome::NotFound
    } else {
        Outcome::Written
    }
}

/// The document that `edit` leaves: the line of the variable is replaced.
pub open spec fn edit_text(t: Seq<char>, key: Seq<char>, var: Seq<char>, val: Seq<char>) -> Seq<
    char,
> {
    let l = lines_of(t);
    if change_outcome(t, key, var) != Outcome::Written {
        t
    } else {
        render(l.update(located(l, key, trim(var))->0, entry(var, val)))
    }
}

/// The document that `delete_var` leaves: the line of the variable is gone.
pub open spec fn delete_var_text(t: Seq<char>, key: Seq<char>, var: Seq<char>) -> Seq<char> {
    let l = lines_of(t);
    if change_outcome(t, key, var) != Outcome::Written {
        t
    } else {
        render(l.remove(located(l, key, trim(var))->0))
    }
}

/// Whether, after the first `n` lines, the scan stands inside a section `key`.
pub open spec fn within(l: Seq<Seq<char>>, key: Seq<char>, n: int) -> bool
    decreases n,
{
    if n <= 0 {
        false
    } else if opens(l[n - 1], key) {
        true
    } else {
        within(l, key, n - 1) && !closes(l[n - 1])
    }
}

/// Whether `delete_key` drops line `n`: it opens `key`, or stands inside such
/// a section, its closing line included.
pub open spec fn dropped(l: Seq<Seq<char>>, key: Seq<char>, n: int) -> bool {
    opens(l[n], key) || within(l, key, n)
}

/// Those of the first `n` lines that `delete_key` keeps.
pub open spec fn kept_rows(l: Seq<Seq<char>>, key: Seq<char>, n: int) -> Seq<Seq<char>>
    decreases n,
{
    if n <= 0 {
        Seq::empty()
    } else if dropped(l, key, n - 1) {
        kept_rows(l, key, n - 1)
    } else {
        kept_rows(l, key, n - 1).push(l[n - 1])
    }
}

/// How `delete_key` ends on the document `t`.
pub open spec fn delete_key_outcome(t: Seq<char>, key: Seq<char>) -> Outcome {
    let l = lines_of(t);
    if !balanced(l) {
        Outcome::IntegrityFailure
    } else if section_start(l, trim(key)) < l.len() {
        Outcome::Written
    } else {
        Outcome::Untouched
    }
}

/// The document that `delete_key` leaves: every section `key` is gone, from
/// its opening line to its closing line.
pub open spec fn delete_key_text(t: Seq<char>, key: Seq<char>) -> Seq<char> {
    let l = lines_of(t);
    if delete_key_outcome(t, key) != Outcome::Written {
        t
    } else {
        render(kept_rows(l, trim(key), l.len() as int))
    }
}

/// Where `first_row` points: at the first line of which `p` holds, with none
/// between `from` and it.
pub proof fn lemma_first_row(l: Seq<Seq<char>>, p: spec_fn(Seq<char>) -> bool, from: int)
    requires
        0 <= from,
    ensures
        first_row(l, p, from) <= l.len(),
        from <= l.len() ==> from <= first_row(l, p, from),
        forall|i: int| from <= i < first_row(l, p, from) ==> !p(l[i]),
        first_row(l, p, from) < l.len() ==> p(l[first_row(l, p, from)]),
    decreases l.len() - from,
{
    if from < l.len() && !p(l[from]) {
        lemma_first_row(l, p, from + 1);
    }
}

/// An index with no line of `p` between `from` and it, that holds such a line
/// or is the end, is the one `first_row` gives.
pub proof fn lemma_first_row_is(
    l: Seq<Seq<char>>,
    p: spec_fn(Seq<char>) -> bool,
    from: int,
    at: int,
)
    requires
        0 <= from <= at <= l.len(),
        forall|i: int| from <= i < at ==> !p(l[i]),
        at < l.len() ==> p(l[at]),
    ensures
        first_row(l, p, from) == at,
    decreases at - from,
{
    if from < at {
        lemma_first_row_is(l, p, from + 1, at);
    }
}

} // verus!
