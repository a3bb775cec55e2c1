//! Laws of the store: what holds of whole runs of its operations.
use crate::convert::{to_json_of, to_toml_of};
use crate::facts::{
    chomp_all, clean, header, lemma_armed_chomp, lemma_balanced_chomp, lemma_body_chomp,
    lemma_chomp_asks, lemma_contains_one, lemma_entry, lemma_entry_clean, lemma_header,
    lemma_lines_hold_no_feed, lemma_lines_of_first, lemma_lines_of_render,
    lemma_lines_of_rendered, lemma_lines_of_single, lemma_lines_with_push,
    lemma_lines_with_remove, lemma_lookup_chomp, lemma_position_concat, tight,
};
use crate::lines::{chomp, lines_of};
use crate::model::{
    add_outcome, add_rows, add_text, armed, assigns, balanced, block, change_outcome, closes,
    delete_key_outcome, delete_key_text, delete_var_text, edit_text, ending, entry, entry_name,
    first_row, gains, get_all_of, get_of, intact, joined, kept_rows, lemma_first_row,
    lemma_first_row_is, lines_with, listed, located, lookup_of, naming, opening, opens, reading,
    section_end, section_start, some_fragment_names, within, Miss, Outcome,
};
use crate::text::{is_space, lemma_position, position, trim, trim_start};
use vstd::prelude::*;

verus! {

/// A section name that `add` can write and every scan can find again: it is
/// clean and tight.
pub open spec fn fit_key(key: Seq<char>) -> bool {
    clean(key) && tight(key)
}

/// A variable name that `add` can write and every scan can find again: it is
/// clean, holds no `=`, and has no white space at its end unless it is all
/// white space.
pub open spec fn fit_var(var: Seq<char>) -> bool {
    clean(var) && !var.contains('=') && trim_start(var) == trim(var)
}

/// A value that `add` can write and `get` can read again: it is clean and has
/// no white space at its end. It may be empty.
pub open spec fn fit_val(val: Seq<char>) -> bool {
    clean(val) && (val.len() == 0 || !is_space(val.last()))
}

/// The first section `key`, where the lines hold one, is closed, and no line
/// from its header to its closing line closes before that.
pub open spec fn sound_section(l: Seq<Seq<char>>, key: Seq<char>) -> bool {
    section_start(l, key) < l.len() ==> {
        &&& section_end(l, key) < l.len()
        &&& forall|j: int|
            section_start(l, key) <= j < section_end(l, key) ==> !closes(#[trigger] l[j])
    }
}

/// No operation finds the variable `var` in the section `key`: `add` does not
/// see it listed, `get` reads no value, and `edit` and `delete_var` locate no
/// line.
pub open spec fn unseen(l: Seq<Seq<char>>, key: Seq<char>, var: Seq<char>) -> bool {
    !listed(l, key, var) && lookup_of(l, key, var) is Err && located(l, key, var) is None
}

/// The entry of `var` stands at line `m` as the last body line of the first
/// section `key`, which opens at line `s`; no line of the section before it
/// gives `var` or is named `var`.
pub open spec fn placed(
    o: Seq<Seq<char>>,
    key: Seq<char>,
    var: Seq<char>,
    val: Seq<char>,
    s: int,
    m: int,
) -> bool {
    &&& 0 <= s < m
    &&& m + 1 < o.len()
    &&& forall|j: int| 0 <= j < s ==> !opens(#[trigger] o[j], key)
    &&& opens(o[s], key)
    &&& forall|j: int| s <= j < m ==> !closes(#[trigger] o[j])
    &&& forall|j: int|
        s < j < m ==> opens(#[trigger] o[j], key) || (!assigns(o[j], trim(var)) && entry_name(o[j])
            != trim(var))
    &&& o[m] == entry(var, val)
    &&& closes(o[m + 1])
    &&& !opens(o[m + 1], key)
}

/// Before any line opens `key`, `add` is not armed.
pub proof fn lemma_not_armed(l: Seq<Seq<char>>, key: Seq<char>, n: int)
    requires
        0 <= n <= l.len(),
        forall|j: int| 0 <= j < n ==> !opens(#[trigger] l[j], key),
    ensures
        !armed(l, key, n),
    decreases n,
{
    if n > 0 {
        lemma_not_armed(l, key, n - 1);
    }
}

/// From a line that opens `key`, `add` stays armed while no line closes.
pub proof fn lemma_armed_run(l: Seq<Seq<char>>, key: Seq<char>, s: int, n: int)
    requires
        0 <= s < n <= l.len(),
        opens(l[s], key),
        forall|j: int| s <= j < n ==> !closes(#[trigger] l[j]),
    ensures
        armed(l, key, n),
    decreases n,
{
    if n > s + 1 {
        lemma_armed_run(l, key, s, n - 1);
    }
}

/// Where no line gains the entry, `add` copies the lines.
pub proof fn lemma_add_rows_same(l: Seq<Seq<char>>, key: Seq<char>, e: Seq<char>, n: int)
    requires
        0 <= n <= l.len(),
        forall|j: int| 0 <= j < n ==> !#[trigger] gains(l, key, j),
    ensures
        add_rows(l, key, e, n) == l.take(n),
    decreases n,
{
    if n > 0 {
        lemma_add_rows_same(l, key, e, n - 1);
        assert(l.take(n) =~= l.take(n - 1).push(l[n - 1]));
    } else {
        assert(l.take(0) =~= Seq::<Seq<char>>::empty());
    }
}

/// What `add` has written after some lines stays in front of what it writes
/// after more.
pub proof fn lemma_add_rows_grow(l: Seq<Seq<char>>, key: Seq<char>, e: Seq<char>, m: int, n: int)
    requires
        0 <= m <= n <= l.len(),
    ensures
        add_rows(l, key, e, m).len() <= add_rows(l, key, e, n).len(),
        add_rows(l, key, e, n).take(add_rows(l, key, e, m).len() as int) == add_rows(l, key, e, m),
    decreases n - m,
{
    let a = add_rows(l, key, e, m);
    if m == n {
        assert(a.take(a.len() as int) =~= a);
    } else {
        lemma_add_rows_grow(l, key, e, m, n - 1);
        let b = add_rows(l, key, e, n - 1);
        let c = add_rows(l, key, e, n);
        assert(c.take(b.len() as int) =~= b);
        assert(c.take(a.len() as int) =~= b.take(a.len() as int));
    }
}

/// An entry without the character `c` leaves the number of lines that hold
/// `c` as it was.
pub proof fn lemma_add_rows_count(
    l: Seq<Seq<char>>,
    key: Seq<char>,
    e: Seq<char>,
    n: int,
    c: char,
)
    requires
        0 <= n <= l.len(),
        !e.contains(c),
    ensures
        lines_with(add_rows(l, key, e, n), c) == lines_with(l.take(n), c),
    decreases n,
{
    if n > 0 {
        lemma_add_rows_count(l, key, e, n - 1, c);
        let prev = add_rows(l, key, e, n - 1);
        assert(l.take(n) =~= l.take(n - 1).push(l[n - 1]));
        lemma_lines_with_push(l.take(n - 1), l[n - 1], c);
        lemma_lines_with_push(prev, e, c);
        lemma_lines_with_push(prev.push(e), l[n - 1], c);
        lemma_lines_with_push(prev, l[n - 1], c);
    } else {
        assert(l.take(0) =~= Seq::<Seq<char>>::empty());
    }
}

/// Lines without line feeds and an entry without one make lines without line
/// feeds.
pub proof fn lemma_add_rows_hold_no_feed(l: Seq<Seq<char>>, key: Seq<char>, e: Seq<char>, n: int)
    requires
        0 <= n <= l.len(),
        !e.contains('\n'),
        forall|i: int| 0 <= i < l.len() ==> !(#[trigger] l[i]).contains('\n'),
    ensures
        forall|i: int|
            0 <= i < add_rows(l, key, e, n).len() ==> !(#[trigger] add_rows(
                l,
                key,
                e,
                n,
            )[i]).contains('\n'),
    decreases n,
{
    if n > 0 {
        lemma_add_rows_hold_no_feed(l, key, e, n - 1);
        let prev = add_rows(l, key, e, n - 1);
        let now = add_rows(l, key, e, n);
        assert forall|i: int| 0 <= i < now.len() implies !(#[trigger] now[i]).contains('\n') by {
            if i < prev.len() {
                assert(now[i] == prev[i]);
            } else if i == now.len() - 1 {
                assert(now[i] == l[n - 1]);
            } else {
                assert(now[i] == e);
            }
        }
    }
}

/// The buffer of joined body lines is empty or ends with a comma.
pub proof fn lemma_joined_ends(l: Seq<Seq<char>>, key: Seq<char>, lo: int, hi: int)
    ensures
        joined(l, key, lo, hi).len() == 0 || joined(l, key, lo, hi).last() == ',',
    decreases hi - lo,
{
    if hi > lo {
        lemma_joined_ends(l, key, lo, hi - 1);
    }
}

/// A fragment that names `var` still does so behind a buffer that is empty or
/// ends with a comma.
pub proof fn lemma_fragment_after(a: Seq<char>, b: Seq<char>, var: Seq<char>)
    requires
        a.len() == 0 || a.last() == ',',
        some_fragment_names(b, var),
    ensures
        some_fragment_names(a + b, var),
    decreases a.len(),
{
    if a.len() == 0 {
        assert(a + b =~= b);
    } else {
        let s = a + b;
        lemma_position(a, ',');
        assert(a[a.len() - 1] == ',');
        let p = position(a, ',');
        assert forall|i: int| 0 <= i < p implies s[i] != ',' by {
            assert(s[i] == a[i]);
        }
        assert(s[p] == a[p]);
        crate::text::lemma_position_from_is(s, ',', 0, p);
        let rest = a.skip(p + 1);
        assert(s.skip(p + 1) =~= rest + b);
        if rest.len() > 0 {
            assert(rest.last() == a.last());
        }
        lemma_fragment_after(rest, b, var);
    }
}

/// The trimmed line of an entry, with its comma, holds a fragment that names
/// the variable.
pub proof fn lemma_fragment_entry(name: Seq<char>, val: Seq<char>)
    requires
        !name.contains(','),
        !name.contains('='),
    ensures
        some_fragment_names(name + seq!['='] + val + seq![','], name),
{
    let s = name + seq!['='] + val + seq![','];
    lemma_position(s, ',');
    let p = position(s, ',');
    assert(s[s.len() - 1] == ',');
    assert(p > name.len()) by {
        if p <= name.len() {
            if p < name.len() {
                assert(s[p] == name[p]);
            } else {
                assert(s[p] == '=');
            }
        }
    }
    let first = s.take(p);
    let rest = first.skip(name.len() as int + 1);
    assert(first =~= name + seq!['='] + rest);
    lemma_position_concat(name, '=', rest);
}

/// What the operations find where an entry is placed: every scan stops at its
/// line.
pub proof fn lemma_placed(
    o: Seq<Seq<char>>,
    key: Seq<char>,
    var: Seq<char>,
    val: Seq<char>,
    s: int,
    m: int,
)
    requires
        placed(o, key, var, val, s, m),
        fit_var(var),
        fit_val(val),
    ensures
        section_start(o, key) == s,
        section_end(o, key) == m + 1,
        balanced(o) ==> lookup_of(o, key, trim(var)) == Ok::<Seq<char>, Miss>(val),
        located(o, key, trim(var)) == Some(m),
        gains(o, key, m + 1),
        !var.contains(',') ==> listed(o, key, trim(var)),
{
    let name = trim(var);
    let e = entry(var, val);
    lemma_entry(var, val);
    lemma_first_row_is(o, opening(key), 0, s);
    lemma_first_row_is(o, ending(key), s + 1, m + 1);
    lemma_first_row_is(o, reading(key, name), s + 1, m);
    lemma_first_row_is(o, naming(key, name), s + 1, m);
    lemma_armed_run(o, key, s, m + 1);
    if !var.contains(',') {
        let before = joined(o, key, s + 1, m);
        lemma_joined_ends(o, key, s + 1, m);
        crate::facts::lemma_trim_within(var, ',');
        crate::facts::lemma_trim_within(var, '=');
        lemma_fragment_entry(name, val);
        lemma_fragment_after(before, name + seq!['='] + val + seq![','], name);
        assert(joined(o, key, s + 1, m + 1) == before + trim(e) + seq![',']);
        assert(before + trim(e) + seq![','] =~= before + (name + seq!['='] + val + seq![',']));
    }
}

/// What `add` leaves where the section can take the variable: lines in which
/// the entry is placed.
#[verifier::rlimit(30)]
pub proof fn lemma_after_add(doc: Seq<char>, key: Seq<char>, var: Seq<char>, val: Seq<char>) -> (r:
    (Seq<Seq<char>>, int, int))
    requires
        intact(doc),
        fit_key(key),
        fit_var(var),
        fit_val(val),
        sound_section(lines_of(doc), key),
        unseen(lines_of(doc), key, trim(var)),
    ensures
        add_outcome(doc, key, var) == Outcome::Written,
        lines_of(add_text(doc, key, var, val)) == chomp_all(r.0),
        balanced(r.0),
        placed(r.0, key, var, val, r.1, r.2),
{
    let l = lines_of(doc);
    let e = entry(var, val);
    let name = trim(var);
    let start = section_start(l, key);
    let end = section_end(l, key);
    crate::facts::lemma_trim_tight(key);
    lemma_entry(var, val);
    lemma_lines_hold_no_feed(doc);
    lemma_first_row(l, opening(key), 0);
    if start < l.len() {
        lemma_first_row(l, ending(key), start + 1);
        lemma_first_row(l, reading(key, name), start + 1);
        lemma_first_row(l, naming(key, name), start + 1);
        let at = first_row(l, reading(key, name), start + 1);
        let on = first_row(l, naming(key, name), start + 1);
        assert(at >= end) by {
            if at < end {
                assert(ending(key)(l[at]));
            }
        }
        assert(on >= end) by {
            if on < end {
                assert(ending(key)(l[on]));
            }
        }
        let o = add_rows(l, key, e, l.len() as int);
        // the lines up to the closing line
        assert forall|j: int| 0 <= j < end implies !#[trigger] gains(l, key, j) by {
            if j < start {
                lemma_not_armed(l, key, j);
            }
        }
        lemma_add_rows_same(l, key, e, end);
        lemma_armed_run(l, key, start, end);
        assert(gains(l, key, end));
        let front = l.take(end).push(e).push(l[end]);
        assert(add_rows(l, key, e, end + 1) == front);
        lemma_add_rows_grow(l, key, e, end + 1, l.len() as int);
        assert(o.take(end + 2) == front);
        assert forall|j: int| 0 <= j < end + 2 implies o[j] == #[trigger] front[j] by {
            assert(o.take(end + 2)[j] == o[j]);
        }
        assert(placed(o, key, var, val, start, end)) by {
            assert forall|j: int| 0 <= j < start implies !opens(#[trigger] o[j], key) by {
                assert(o[j] == front[j]);
            }
            assert(o[start] == front[start]);
            assert forall|j: int| start <= j < end implies !closes(#[trigger] o[j]) by {
                assert(o[j] == front[j]);
            }
            assert forall|j: int| start < j < end implies opens(#[trigger] o[j], key) || (!assigns(
                o[j],
                name,
            ) && entry_name(o[j]) != name) by {
                assert(o[j] == front[j]);
                assert(!reading(key, name)(l[j]));
                assert(!naming(key, name)(l[j]));
            }
            assert(o[end] == front[end]);
            assert(o[end + 1] == front[end + 1]);
            assert(ending(key)(l[end]));
        }
        // the integrity of what is written
        lemma_add_rows_count(l, key, e, l.len() as int, '(');
        lemma_add_rows_count(l, key, e, l.len() as int, ')');
        lemma_add_rows_count(l, key, e, l.len() as int, '{');
        lemma_add_rows_count(l, key, e, l.len() as int, '}');
        assert(l.take(l.len() as int) =~= l);
        // the lines of what is written
        lemma_add_rows_hold_no_feed(l, key, e, l.len() as int);
        lemma_lines_of_rendered(o);
        (o, start, end)
    } else {
        let h = header(key);
        let shut = seq!['}'];
        let o = l.push(h).push(e).push(shut);
        let n = l.len() as int;
        lemma_header(key);
        lemma_add_new_section(doc, key, var, val);
        lemma_contains_one('}', '}');
        lemma_contains_one('}', '(');
        assert(chomp_all(o) =~= chomp_all(l).push(h).push(chomp(e)).push(shut));
        lemma_balanced_chomp(o);
        assert(placed(o, key, var, val, n, n + 1)) by {
            assert forall|j: int| 0 <= j < n implies !opens(#[trigger] o[j], key) by {
                assert(o[j] == l[j]);
            }
            assert(o[n] == h);
            assert(o[n + 1] == e);
            assert(o[n + 2] == shut);
        }
        (o, n, n + 1)
    }
}

/// Round trip: a variable that is added is then read with the value it was
/// given, character for character.
///
/// This holds where the document passes the integrity check, the names and
/// the value are fit to be written, the first section of that name, if there
/// is one, is sound, and no operation finds the variable there before.
pub proof fn law_add_then_get(doc: Seq<char>, key: Seq<char>, var: Seq<char>, val: Seq<char>)
    requires
        intact(doc),
        fit_key(key),
        fit_var(var),
        fit_val(val),
        sound_section(lines_of(doc), key),
        unseen(lines_of(doc), key, trim(var)),
    ensures
        add_outcome(doc, key, var) == Outcome::Written,
        get_of(add_text(doc, key, var, val), key, var) == val,
{
    let (o, s, m) = lemma_after_add(doc, key, var, val);
    lemma_placed(o, key, var, val, s, m);
    lemma_lookup_chomp(o, key, trim(var));
}

/// Duplicates are turned away: adding a variable a second time, with any
/// value, reports that it exists and leaves the document, and so the value
/// first given, as it was.
///
/// This holds where the first `add` meets what `law_add_then_get` asks, and
/// the name of the variable holds no comma.
pub proof fn law_add_twice_keeps_first(
    doc: Seq<char>,
    key: Seq<char>,
    var: Seq<char>,
    val1: Seq<char>,
    val2: Seq<char>,
)
    requires
        intact(doc),
        fit_key(key),
        fit_var(var),
        !var.contains(','),
        fit_val(val1),
        sound_section(lines_of(doc), key),
        unseen(lines_of(doc), key, trim(var)),
    ensures
        add_outcome(add_text(doc, key, var, val1), key, var) == Outcome::AlreadyExists,
        add_text(add_text(doc, key, var, val1), key, var, val2) == add_text(doc, key, var, val1),
        get_of(add_text(add_text(doc, key, var, val1), key, var, val2), key, var) == val1,
{
    let (o, s, m) = lemma_after_add(doc, key, var, val1);
    lemma_placed(o, key, var, val1, s, m);
    law_add_then_get(doc, key, var, val1);
    let after = chomp_all(o);
    crate::facts::lemma_trim_tight(key);
    lemma_balanced_chomp(o);
    lemma_lookup_chomp(o, key, trim(var));
    lemma_body_chomp(o, key, s + 1, m + 1);
    lemma_armed_chomp(o, key, m + 1);
    lemma_chomp_asks(o[m + 1], key, key);
    assert(gains(after, key, m + 1));
}

/// Delete, then get: a variable that is added and then deleted is read as not
/// found.
///
/// This holds where the `add` meets what `law_add_then_get` asks.
pub proof fn law_add_delete_get(doc: Seq<char>, key: Seq<char>, var: Seq<char>, val: Seq<char>)
    requires
        intact(doc),
        fit_key(key),
        fit_var(var),
        fit_val(val),
        sound_section(lines_of(doc), key),
        unseen(lines_of(doc), key, trim(var)),
    ensures
        change_outcome(add_text(doc, key, var, val), key, var) == Outcome::Written,
        get_of(delete_var_text(add_text(doc, key, var, val), key, var), key, var) == "NONE_VAL"@,
{
    let name = trim(var);
    let (o, s, m) = lemma_after_add(doc, key, var, val);
    lemma_placed(o, key, var, val, s, m);
    lemma_entry(var, val);
    let added = add_text(doc, key, var, val);
    let after = chomp_all(o);
    lemma_balanced_chomp(o);
    lemma_lookup_chomp(o, key, name);
    // the lines that are left
    let d = after.remove(m);
    lemma_lines_hold_no_feed(added);
    lemma_lines_of_rendered(d);
    lemma_lookup_chomp(d, key, name);
    lemma_balanced_chomp(d);
    lemma_lines_with_remove(after, m, '(');
    lemma_lines_with_remove(after, m, ')');
    lemma_lines_with_remove(after, m, '{');
    lemma_lines_with_remove(after, m, '}');
    assert forall|j: int| 0 <= j < s implies !opens(#[trigger] d[j], key) by {
        lemma_chomp_asks(o[j], key, name);
    }
    lemma_chomp_asks(o[s], key, name);
    lemma_first_row_is(d, opening(key), 0, s);
    assert forall|j: int| s + 1 <= j < m implies !reading(key, name)(#[trigger] d[j]) by {
        lemma_chomp_asks(o[j], key, name);
    }
    lemma_chomp_asks(o[m + 1], key, name);
    assert(d[m] == chomp(o[m + 1]));
    lemma_first_row_is(d, reading(key, name), s + 1, m);
}

/// `delete_key` keeps no line that opens the section.
pub proof fn lemma_kept_rows_open_none(l: Seq<Seq<char>>, key: Seq<char>, n: int)
    requires
        0 <= n <= l.len(),
    ensures
        forall|i: int|
            0 <= i < kept_rows(l, key, n).len() ==> !opens(#[trigger] kept_rows(l, key, n)[i], key),
        forall|i: int|
            0 <= i < kept_rows(l, key, n).len() ==> exists|j: int|
                0 <= j < n && l[j] == #[trigger] kept_rows(l, key, n)[i],
    decreases n,
{
    if n > 0 {
        lemma_kept_rows_open_none(l, key, n - 1);
        let prev = kept_rows(l, key, n - 1);
        let now = kept_rows(l, key, n);
        assert forall|i: int| 0 <= i < now.len() implies exists|j: int|
            0 <= j < n && l[j] == #[trigger] now[i] by {
            if i < prev.len() {
                let j = choose|j: int| 0 <= j < n - 1 && l[j] == prev[i];
                assert(l[j] == now[i]);
            } else {
                assert(l[n - 1] == now[i]);
            }
        }
    }
}

/// Deleting a section removes all its members: after `delete_key` the section
/// lists no values, and no variable is read from it.
///
/// This holds where what `delete_key` leaves passes the integrity check; a
/// document that fails it lists one empty text under every name.
pub proof fn law_delete_key_then_get_all(doc: Seq<char>, key: Seq<char>, var: Seq<char>)
    requires
        intact(delete_key_text(doc, key)),
    ensures
        get_all_of(delete_key_text(doc, key), key) == Seq::<Seq<char>>::empty(),
        get_of(delete_key_text(doc, key), trim(key), var) == "NONE_VAL"@,
{
    let l = lines_of(doc);
    let k = trim(key);
    let left = delete_key_text(doc, key);
    let rows = lines_of(left);
    if delete_key_outcome(doc, key) == Outcome::Written {
        let kept = kept_rows(l, k, l.len() as int);
        lemma_kept_rows_open_none(l, k, l.len() as int);
        lemma_lines_hold_no_feed(doc);
        assert forall|i: int| 0 <= i < kept.len() implies !(#[trigger] kept[i]).contains('\n') by {
            let j = choose|j: int| 0 <= j < l.len() && l[j] == kept[i];
        }
        lemma_lines_of_rendered(kept);
        assert forall|i: int| 0 <= i < rows.len() implies !opens(#[trigger] rows[i], k) by {
            lemma_chomp_asks(kept[i], k, k);
        }
        lemma_first_row_is(rows, opening(k), 0, rows.len() as int);
    }
    lemma_first_row(rows, opening(k), 0);
    lemma_first_row(rows, ending(k), rows.len() as int + 1);
    lemma_first_row(rows, reading(k, trim(var)), rows.len() as int + 1);
}

/// The integrity gate: on a document that fails the integrity check every
/// operation that changes or exports it reports the failure and leaves the
/// document as it was, character for character, and the two queries give
/// their fixed answers.
pub proof fn law_integrity_gate(doc: Seq<char>, key: Seq<char>, var: Seq<char>, val: Seq<char>)
    requires
        !intact(doc),
    ensures
        add_outcome(doc, key, var) == Outcome::IntegrityFailure,
        add_text(doc, key, var, val) == doc,
        change_outcome(doc, key, var) == Outcome::IntegrityFailure,
        edit_text(doc, key, var, val) == doc,
        delete_var_text(doc, key, var) == doc,
        delete_key_outcome(doc, key) == Outcome::IntegrityFailure,
        delete_key_text(doc, key) == doc,
        to_toml_of(doc) is None,
        to_json_of(doc) is None,
        get_of(doc, key, var) == "Error"@,
        get_all_of(doc, key) == seq![Seq::<char>::empty()],
{
}

/// Inside a section `key`, `delete_key` stays inside while no line closes.
pub proof fn lemma_within_run(l: Seq<Seq<char>>, key: Seq<char>, s: int, n: int)
    requires
        0 <= s < n <= l.len(),
        opens(l[s], key),
        forall|j: int| s < j < n ==> !closes(#[trigger] l[j]),
    ensures
        within(l, key, n),
    decreases n,
{
    if n > s + 1 {
        lemma_within_run(l, key, s, n - 1);
    }
}

/// Before any line opens `key`, `delete_key` keeps every line.
pub proof fn lemma_kept_rows_same(l: Seq<Seq<char>>, key: Seq<char>, n: int)
    requires
        0 <= n <= l.len(),
        forall|j: int| 0 <= j < n ==> !opens(#[trigger] l[j], key),
    ensures
        !within(l, key, n),
        kept_rows(l, key, n) == l.take(n),
    decreases n,
{
    if n > 0 {
        lemma_kept_rows_same(l, key, n - 1);
        assert(l.take(n) =~= l.take(n - 1).push(l[n - 1]));
    } else {
        assert(l.take(0) =~= Seq::<Seq<char>>::empty());
    }
}

/// Where the only section `key` opens at line `s` and closes with the last
/// line, `delete_key` keeps the lines before line `s` and no other.
pub proof fn lemma_kept_rows_front(l: Seq<Seq<char>>, key: Seq<char>, s: int, n: int)
    requires
        0 <= s < n <= l.len(),
        forall|j: int| 0 <= j < s ==> !opens(#[trigger] l[j], key),
        opens(l[s], key),
        forall|j: int| s < j < l.len() - 1 ==> !closes(#[trigger] l[j]),
    ensures
        kept_rows(l, key, n) == l.take(s),
    decreases n,
{
    if n == s + 1 {
        lemma_kept_rows_same(l, key, s);
    } else {
        lemma_kept_rows_front(l, key, s, n - 1);
        lemma_within_run(l, key, s, n - 1);
    }
}

/// Where the only section `key` stands at the end of an intact document,
/// deleting it leaves an intact document.
pub proof fn lemma_delete_last_section(doc: Seq<char>, key: Seq<char>, s: int)
    requires
        intact(doc),
        tight(key),
        0 <= s < lines_of(doc).len(),
        forall|j: int| 0 <= j < s ==> !opens(#[trigger] lines_of(doc)[j], key),
        opens(lines_of(doc)[s], key),
        forall|j: int| s < j < lines_of(doc).len() - 1 ==> !closes(#[trigger] lines_of(doc)[j]),
        balanced(lines_of(doc).take(s)),
    ensures
        delete_key_outcome(doc, key) == Outcome::Written,
        intact(delete_key_text(doc, key)),
{
    let l = lines_of(doc);
    crate::facts::lemma_trim_tight(key);
    lemma_first_row_is(l, opening(key), 0, s);
    lemma_kept_rows_front(l, key, s, l.len() as int);
    let kept = l.take(s);
    lemma_lines_hold_no_feed(doc);
    assert forall|i: int| 0 <= i < kept.len() implies !(#[trigger] kept[i]).contains('\n') by {
        assert(kept[i] == l[i]);
    }
    lemma_lines_of_rendered(kept);
    lemma_balanced_chomp(kept);
}

/// A text that holds none of the delimiters is no header and closes nothing.
pub proof fn lemma_clean_line(x: Seq<char>, key: Seq<char>)
    requires
        clean(x),
    ensures
        !opens(x, key),
        !closes(x),
        !opens(chomp(x), key),
        !closes(chomp(x)),
        !x.contains('\n'),
{
    lemma_chomp_asks(x, key, key);
}

/// What `add` leaves in a document that holds no section `key`: the lines of
/// the document, read back, and behind them the header, the entry and the
/// closing brace.
pub proof fn lemma_add_new_section(doc: Seq<char>, key: Seq<char>, var: Seq<char>, val: Seq<char>)
    requires
        intact(doc),
        fit_key(key),
        clean(var),
        clean(val),
        section_start(lines_of(doc), key) >= lines_of(doc).len(),
    ensures
        add_outcome(doc, key, var) == Outcome::Written,
        lines_of(add_text(doc, key, var, val)) == chomp_all(lines_of(doc)).push(header(key)).push(
            chomp(entry(var, val)),
        ).push(seq!['}']),
        intact(add_text(doc, key, var, val)),
{
    let l = lines_of(doc);
    let n = l.len() as int;
    let h = header(key);
    let e = entry(var, val);
    let shut = seq!['}'];
    lemma_header(key);
    lemma_entry_clean(var, val);
    lemma_lines_hold_no_feed(doc);
    lemma_first_row(l, opening(key), 0);
    assert forall|j: int| 0 <= j < n implies !#[trigger] gains(l, key, j) by {
        lemma_not_armed(l, key, j);
    }
    // the lines of what is written
    let tail2 = e + seq!['\n'] + shut;
    assert(block(key, var, val) =~= h + seq!['\n'] + tail2);
    lemma_lines_of_render(l, block(key, var, val));
    lemma_lines_of_first(h, tail2);
    lemma_lines_of_first(e, shut);
    lemma_contains_one('}', '\n');
    lemma_contains_one('}', '}');
    lemma_contains_one('}', '(');
    lemma_contains_one('}', ')');
    lemma_contains_one('}', '{');
    lemma_lines_of_single(shut);
    let after = chomp_all(l).push(h).push(chomp(e)).push(shut);
    assert(after =~= chomp_all(l) + (seq![chomp(h)] + (seq![chomp(e)] + seq![shut])));
    // its integrity
    lemma_balanced_chomp(l);
    lemma_chomp_asks(e, key, key);
    crate::facts::lemma_chomp_line(e);
    let a = chomp_all(l);
    lemma_lines_with_push(a, h, '(');
    lemma_lines_with_push(a.push(h), chomp(e), '(');
    lemma_lines_with_push(a.push(h).push(chomp(e)), shut, '(');
    lemma_lines_with_push(a, h, ')');
    lemma_lines_with_push(a.push(h), chomp(e), ')');
    lemma_lines_with_push(a.push(h).push(chomp(e)), shut, ')');
    lemma_lines_with_push(a, h, '{');
    lemma_lines_with_push(a.push(h), chomp(e), '{');
    lemma_lines_with_push(a.push(h).push(chomp(e)), shut, '{');
    lemma_lines_with_push(a, h, '}');
    lemma_lines_with_push(a.push(h), chomp(e), '}');
    lemma_lines_with_push(a.push(h).push(chomp(e)), shut, '}');
}

/// Deleting a section removes all its members, spelled out: where two
/// variables are added to a section that the document did not hold, and the
/// section is then deleted, the section lists no values and no variable is
/// read from it.
///
/// This holds where the document passes the integrity check, the name of the
/// section is fit to be written, and the names and values of the variables
/// are clean.
pub proof fn law_add_add_delete_key(
    doc: Seq<char>,
    key: Seq<char>,
    a: Seq<char>,
    va: Seq<char>,
    b: Seq<char>,
    vb: Seq<char>,
    var: Seq<char>,
)
    requires
        intact(doc),
        fit_key(key),
        clean(a),
        clean(va),
        clean(b),
        clean(vb),
        section_start(lines_of(doc), key) >= lines_of(doc).len(),
    ensures
        ({
            let filled = add_text(add_text(doc, key, a, va), key, b, vb);
            &&& delete_key_outcome(filled, key) == Outcome::Written
            &&& get_all_of(delete_key_text(filled, key), key) == Seq::<Seq<char>>::empty()
            &&& get_of(delete_key_text(filled, key), key, var) == "NONE_VAL"@
        }),
{
    let l = lines_of(doc);
    let n = l.len() as int;
    let once = add_text(doc, key, a, va);
    let filled = add_text(once, key, b, vb);
    let l1 = lines_of(once);
    let ea = chomp(entry(a, va));
    let eb = entry(b, vb);
    lemma_add_new_section(doc, key, a, va);
    lemma_header(key);
    lemma_entry_clean(a, va);
    lemma_entry_clean(b, vb);
    lemma_clean_line(entry(a, va), key);
    lemma_clean_line(eb, key);
    lemma_contains_one('}', '}');
    lemma_contains_one('}', '(');
    crate::facts::lemma_trim_tight(key);
    lemma_first_row(l, opening(key), 0);
    lemma_balanced_chomp(l);
    assert(l1.take(n) =~= chomp_all(l));
    assert forall|j: int| 0 <= j < n implies !opens(#[trigger] l1[j], key) by {
        lemma_chomp_asks(l[j], key, key);
    }
    assert(l1[n] == header(key));
    assert(l1[n + 1] == ea);
    assert(l1[n + 2] == seq!['}']);
    lemma_first_row_is(l1, opening(key), 0, n);
    if add_outcome(once, key, b) == Outcome::Written {
        // the second entry goes in before the closing brace
        let o = add_rows(l1, key, eb, n + 3);
        assert forall|j: int| 0 <= j < n + 2 implies !#[trigger] gains(l1, key, j) by {
            if j < n {
                lemma_not_armed(l1, key, j);
            }
        }
        lemma_add_rows_same(l1, key, eb, n + 2);
        lemma_armed_run(l1, key, n, n + 2);
        assert(gains(l1, key, n + 2));
        assert(o == l1.take(n + 2).push(eb).push(l1[n + 2]));
        lemma_lines_hold_no_feed(once);
        lemma_add_rows_hold_no_feed(l1, key, eb, n + 3);
        lemma_lines_of_rendered(o);
        lemma_add_rows_count(l1, key, eb, n + 3, '(');
        lemma_add_rows_count(l1, key, eb, n + 3, ')');
        lemma_add_rows_count(l1, key, eb, n + 3, '{');
        lemma_add_rows_count(l1, key, eb, n + 3, '}');
        assert(l1.take(n + 3) =~= l1);
        lemma_balanced_chomp(o);
        let l2 = lines_of(filled);
        assert(l2 == chomp_all(o));
        assert forall|j: int| 0 <= j < n implies !opens(#[trigger] l2[j], key) by {
            assert(o[j] == l1[j]);
            lemma_chomp_asks(o[j], key, key);
        }
        assert(o[n] == l1[n]);
        assert(o[n + 1] == l1[n + 1]);
        assert(o[n + 2] == eb);
        lemma_chomp_asks(o[n], key, key);
        lemma_chomp_asks(o[n + 1], key, key);
        assert forall|j: int| n < j < l2.len() - 1 implies !closes(#[trigger] l2[j]) by {
            assert(j == n + 1 || j == n + 2);
        }
        assert(l2.take(n) =~= chomp_all(chomp_all(l)));
        lemma_balanced_chomp(chomp_all(l));
        lemma_delete_last_section(filled, key, n);
    } else {
        assert(filled == once);
        assert forall|j: int| n < j < l1.len() - 1 implies !closes(#[trigger] l1[j]) by {
            assert(j == n + 1);
        }
        lemma_delete_last_section(filled, key, n);
    }
    law_delete_key_then_get_all(filled, key, var);
}

/// The line that `delete_var` takes out of the document.
pub open spec fn deleted_line(doc: Seq<char>, key: Seq<char>, var: Seq<char>) -> Seq<char> {
    lines_of(doc)[located(lines_of(doc), key, trim(var))->0]
}

/// The line of the variable is the only line of its section that gives the
/// variable a value: behind it, the search for the value runs to the end of
/// the section, or of the document.
pub open spec fn given_once(l: Seq<Seq<char>>, key: Seq<char>, var: Seq<char>) -> bool {
    let next = first_row(l, reading(key, var), located(l, key, var)->0 + 1);
    next >= l.len() || closes(l[next])
}

/// A scan that meets no line of `p` from `from` up to `to` stops where a scan
/// from `to` stops.
pub proof fn lemma_first_row_skip(
    l: Seq<Seq<char>>,
    p: spec_fn(Seq<char>) -> bool,
    from: int,
    to: int,
)
    requires
        0 <= from <= to <= l.len(),
        forall|j: int| from <= j < to ==> !p(#[trigger] l[j]),
    ensures
        first_row(l, p, from) == first_row(l, p, to),
{
    lemma_first_row(l, p, to);
    lemma_first_row_is(l, p, from, first_row(l, p, to));
}

/// With one line taken out, a scan that begins at or behind that line stops
/// one line earlier than it did from one line further on.
pub proof fn lemma_first_row_remove_behind(
    l: Seq<Seq<char>>,
    p: spec_fn(Seq<char>) -> bool,
    at: int,
    from: int,
)
    requires
        0 <= at < l.len(),
        at <= from,
    ensures
        first_row(l.remove(at), p, from) == first_row(l, p, from + 1) - 1,
    decreases l.len() - from,
{
    let d = l.remove(at);
    if from < d.len() {
        assert(d[from] == l[from + 1]);
        if !p(d[from]) {
            lemma_first_row_remove_behind(l, p, at, from + 1);
        }
    }
}

/// With a line taken out at which a scan does not stop, the scan stops at the
/// line at which it stopped before.
pub proof fn lemma_first_row_remove(
    l: Seq<Seq<char>>,
    p: spec_fn(Seq<char>) -> bool,
    at: int,
    from: int,
)
    requires
        0 <= from <= at < l.len(),
        !p(l[at]),
    ensures
        first_row(l, p, from) != at,
        first_row(l.remove(at), p, from) == if first_row(l, p, from) < at {
            first_row(l, p, from)
        } else {
            first_row(l, p, from) - 1
        },
    decreases at - from,
{
    let d = l.remove(at);
    if from == at {
        lemma_first_row_remove_behind(l, p, at, at);
        lemma_first_row(l, p, at + 1);
    } else {
        assert(d[from] == l[from]);
        if !p(l[from]) {
            lemma_first_row_remove(l, p, at, from + 1);
        }
    }
}

/// A lookup does not change when a line is taken out that opens no section of
/// that name, closes none and gives the variable no value, as long as the
/// integrity check passes before and after.
pub proof fn lemma_lookup_remove(l: Seq<Seq<char>>, at: int, key: Seq<char>, var: Seq<char>)
    requires
        0 <= at < l.len(),
        !opens(l[at], key),
        !closes(l[at]),
        !assigns(l[at], var),
        balanced(l),
        balanced(l.remove(at)),
    ensures
        lookup_of(l.remove(at), key, var) == lookup_of(l, key, var),
{
    let d = l.remove(at);
    let p = reading(key, var);
    let start = section_start(l, key);
    lemma_first_row(l, opening(key), 0);
    lemma_first_row_remove(l, opening(key), at, 0);
    let r = first_row(l, p, start + 1);
    lemma_first_row(l, p, start + 1);
    if start < at {
        lemma_first_row_remove(l, p, at, start + 1);
    } else {
        lemma_first_row_remove_behind(l, p, at, start - 1 + 1);
    }
    let r2 = first_row(d, p, section_start(d, key) + 1);
    assert(r2 == if r < at {
        r
    } else {
        r - 1
    });
    if r < l.len() {
        assert(d[r2] == l[r]);
    }
}

/// Taking a line without delimiters out of lines that pass the integrity
/// check leaves lines that pass it.
pub proof fn lemma_balanced_remove(l: Seq<Seq<char>>, at: int)
    requires
        0 <= at < l.len(),
        balanced(l),
        !l[at].contains('('),
        !l[at].contains(')'),
        !l[at].contains('{'),
        !l[at].contains('}'),
    ensures
        balanced(l.remove(at)),
{
    lemma_lines_with_remove(l, at, '(');
    lemma_lines_with_remove(l, at, ')');
    lemma_lines_with_remove(l, at, '{');
    lemma_lines_with_remove(l, at, '}');
}

/// The lines that `delete_var` leaves, where it finds the variable: the lines
/// of the document without the line of the variable, read back.
pub proof fn lemma_after_delete_var(doc: Seq<char>, key: Seq<char>, var: Seq<char>)
    requires
        change_outcome(doc, key, var) == Outcome::Written,
    ensures
        0 <= located(lines_of(doc), key, trim(var))->0 < lines_of(doc).len(),
        section_start(lines_of(doc), key) < located(lines_of(doc), key, trim(var))->0,
        !opens(deleted_line(doc, key, var), key),
        !closes(deleted_line(doc, key, var)),
        entry_name(deleted_line(doc, key, var)) == trim(var),
        forall|j: int|
            section_start(lines_of(doc), key) < j < located(lines_of(doc), key, trim(var))->0
                ==> !naming(key, trim(var))(#[trigger] lines_of(doc)[j]),
        lines_of(delete_var_text(doc, key, var)) == chomp_all(
            lines_of(doc).remove(located(lines_of(doc), key, trim(var))->0),
        ),
{
    let l = lines_of(doc);
    let name = trim(var);
    let start = section_start(l, key);
    lemma_first_row(l, opening(key), 0);
    lemma_first_row(l, naming(key, name), start + 1);
    let at = located(l, key, name)->0;
    let d = l.remove(at);
    lemma_lines_hold_no_feed(doc);
    assert forall|i: int| 0 <= i < d.len() implies !(#[trigger] d[i]).contains('\n') by {
        if i < at {
            assert(d[i] == l[i]);
        } else {
            assert(d[i] == l[i + 1]);
        }
    }
    lemma_lines_of_rendered(d);
}

/// Delete, then get, of any document: a variable that `delete_var` has taken
/// out is then read as not found, which is not the answer to a document that
/// fails the integrity check.
///
/// This holds where `delete_var` finds the variable, its line is the only one
/// of the section that gives it a value, and what is left passes the
/// integrity check.
pub proof fn law_delete_var_then_get(doc: Seq<char>, key: Seq<char>, var: Seq<char>)
    requires
        change_outcome(doc, key, var) == Outcome::Written,
        given_once(lines_of(doc), key, trim(var)),
        intact(delete_var_text(doc, key, var)),
    ensures
        get_of(delete_var_text(doc, key, var), key, var) == "NONE_VAL"@,
        get_of(delete_var_text(doc, key, var), key, var) != "Error"@,
{
    let l = lines_of(doc);
    let name = trim(var);
    let p = reading(key, name);
    let start = section_start(l, key);
    let at = located(l, key, name)->0;
    let d = l.remove(at);
    lemma_after_delete_var(doc, key, var);
    lemma_lookup_chomp(d, key, name);
    lemma_balanced_chomp(d);
    // the section opens where it did
    lemma_first_row(l, opening(key), 0);
    lemma_first_row_remove(l, opening(key), at, 0);
    // no line before the one taken out stops the search
    assert forall|j: int| start + 1 <= j < at implies !p(#[trigger] d[j]) by {
        assert(d[j] == l[j]);
        assert(!naming(key, name)(l[j]));
    }
    lemma_first_row_skip(d, p, start + 1, at);
    lemma_first_row_remove_behind(l, p, at, at);
    let next = first_row(l, p, at + 1);
    lemma_first_row(l, p, at + 1);
    if next < l.len() {
        assert(d[next - 1] == l[next]);
    }
    reveal_strlit("NONE_VAL");
    reveal_strlit("Error");
    assert("NONE_VAL"@.len() != "Error"@.len());
}

/// `delete_var` spares the others: a variable of another name, in any
/// section, is read after `delete_var` as it was read before.
///
/// This holds where `delete_var` finds its variable, the line that it takes
/// out opens no section of the name that is read, and what is left passes the
/// integrity check.
pub proof fn law_delete_var_spares_others(
    doc: Seq<char>,
    key: Seq<char>,
    var: Seq<char>,
    key2: Seq<char>,
    var2: Seq<char>,
)
    requires
        change_outcome(doc, key, var) == Outcome::Written,
        intact(delete_var_text(doc, key, var)),
        !opens(deleted_line(doc, key, var), key2),
        trim(var2) != trim(var),
    ensures
        get_of(delete_var_text(doc, key, var), key2, var2) == get_of(doc, key2, var2),
{
    let l = lines_of(doc);
    let at = located(l, key, trim(var))->0;
    let d = l.remove(at);
    lemma_after_delete_var(doc, key, var);
    lemma_lookup_chomp(d, key2, trim(var2));
    lemma_balanced_chomp(d);
    lemma_lookup_remove(l, at, key2, trim(var2));
}

/// `delete_var` keeps the integrity of the document where the line that it
/// takes out holds none of `(`, `)` and `{`.
pub proof fn law_delete_var_keeps_integrity(doc: Seq<char>, key: Seq<char>, var: Seq<char>)
    requires
        change_outcome(doc, key, var) == Outcome::Written,
        !deleted_line(doc, key, var).contains('('),
        !deleted_line(doc, key, var).contains(')'),
        !deleted_line(doc, key, var).contains('{'),
    ensures
        intact(delete_var_text(doc, key, var)),
{
    let l = lines_of(doc);
    let at = located(l, key, trim(var))->0;
    lemma_after_delete_var(doc, key, var);
    lemma_balanced_remove(l, at);
    lemma_balanced_chomp(l.remove(at));
}

} // verus!
