//! Exporting a document to the bracketed form and reading that form back: the
//! document comes back as it was.
use crate::braced::{plain, regular, shaped};
use crate::convert::{
    from_toml_body, from_toml_of, from_toml_piece, in_block, is_toml_header, to_toml_of,
    toml_begun, toml_of, toml_piece,
};
use crate::facts::{
    header, lemma_contains_concat, lemma_contains_one, lemma_entry, lemma_header,
    lemma_lines_of_concat, lemma_lines_of_first, lemma_position_concat, lemma_trim_tight,
    lemma_without_concat, lemma_without_none, lemma_without_one, whole,
};
use crate::lines::{chomp, lemma_render_push, lines_of, render};
use crate::model::{balanced, entry, entry_name, entry_value, header_name, is_header};
use crate::text::{is_space, trim_start, without};
use vstd::prelude::*;

verus! {

/// Lines without square brackets.
pub open spec fn unbracketed(l: Seq<Seq<char>>) -> bool {
    forall|i: int| 0 <= i < l.len() ==> !(#[trigger] l[i]).contains('[') && !l[i].contains(']')
}

/// The line that names the section `key` in the bracketed form.
pub open spec fn bracket_line(key: Seq<char>) -> Seq<char> {
    seq!['['] + key + seq![']']
}

/// The line of an entry in the bracketed form.
pub open spec fn pair_line(var: Seq<char>, val: Seq<char>) -> Seq<char> {
    var + seq!['=', '"'] + val + seq!['"']
}

/// Whether the reader of the bracketed form has seen a header after a line.
pub open spec fn toml_step(begun: bool, line: Seq<char>) -> bool {
    begun || is_toml_header(line)
}

/// Whether the reader of the bracketed form has seen a header after the first
/// `n` lines, when it began at `begun`.
pub open spec fn toml_begun_from(begun: bool, s: Seq<Seq<char>>, n: int) -> bool
    decreases n,
{
    if n <= 0 {
        begun
    } else {
        toml_step(toml_begun_from(begun, s, n - 1), s[n - 1])
    }
}

/// What the reader of the bracketed form makes of the first `n` lines, when
/// it began at `begun`.
pub open spec fn from_toml_run(begun: bool, s: Seq<Seq<char>>, n: int) -> Seq<char>
    decreases n,
{
    if n <= 0 {
        Seq::empty()
    } else {
        from_toml_run(begun, s, n - 1) + from_toml_piece(
            toml_begun_from(begun, s, n - 1),
            s[n - 1],
        )
    }
}

/// What the reader of the bracketed form makes of the text `t`, when it began
/// at `begun`.
pub open spec fn reread_out(begun: bool, t: Seq<char>) -> Seq<char> {
    from_toml_run(begun, lines_of(t), lines_of(t).len() as int)
}

/// Whether the reader of the bracketed form has seen a header after the text
/// `t`, when it began at `begun`.
pub open spec fn reread_on(begun: bool, t: Seq<char>) -> bool {
    toml_begun_from(begun, lines_of(t), lines_of(t).len() as int)
}

/// The reader began before any header.
pub proof fn lemma_rerun_from_start(s: Seq<Seq<char>>, n: int)
    ensures
        toml_begun_from(false, s, n) == toml_begun(s, n),
        from_toml_run(false, s, n) == from_toml_body(s, n),
    decreases n,
{
    if n > 0 {
        lemma_rerun_from_start(s, n - 1);
    }
}

/// Reading the first lines of two runs is reading the first lines of the
/// first.
pub proof fn lemma_rerun_front(begun: bool, a: Seq<Seq<char>>, b: Seq<Seq<char>>, n: int)
    requires
        0 <= n <= a.len(),
    ensures
        toml_begun_from(begun, a + b, n) == toml_begun_from(begun, a, n),
        from_toml_run(begun, a + b, n) == from_toml_run(begun, a, n),
    decreases n,
{
    if n > 0 {
        lemma_rerun_front(begun, a, b, n - 1);
        assert((a + b)[n - 1] == a[n - 1]);
    }
}

/// Reading two runs of lines, one after the other.
pub proof fn lemma_rerun_concat(begun: bool, a: Seq<Seq<char>>, b: Seq<Seq<char>>, n: int)
    requires
        0 <= n <= b.len(),
    ensures
        toml_begun_from(begun, a + b, a.len() + n) == toml_begun_from(
            toml_begun_from(begun, a, a.len() as int),
            b,
            n,
        ),
        from_toml_run(begun, a + b, a.len() + n) == from_toml_run(begun, a, a.len() as int)
            + from_toml_run(toml_begun_from(begun, a, a.len() as int), b, n),
    decreases n,
{
    let mid = toml_begun_from(begun, a, a.len() as int);
    if n == 0 {
        lemma_rerun_front(begun, a, b, a.len() as int);
        assert(from_toml_run(begun, a, a.len() as int) + from_toml_run(mid, b, 0)
            =~= from_toml_run(begun, a, a.len() as int));
    } else {
        lemma_rerun_concat(begun, a, b, n - 1);
        assert((a + b)[a.len() + n - 1] == b[n - 1]);
        let x = from_toml_run(begun, a, a.len() as int);
        let y = from_toml_run(mid, b, n - 1);
        let z = from_toml_piece(toml_begun_from(mid, b, n - 1), b[n - 1]);
        assert((x + y) + z =~= x + (y + z));
    }
}

/// Reading whole lines and then one line more.
pub proof fn lemma_reread_line(a: Seq<char>, x: Seq<char>)
    requires
        whole(a),
        !x.contains('\n'),
    ensures
        reread_on(false, a + x + seq!['\n']) == toml_step(reread_on(false, a), chomp(x)),
        reread_out(false, a + x + seq!['\n']) == reread_out(false, a) + from_toml_piece(
            reread_on(false, a),
            chomp(x),
        ),
{
    let b = x + seq!['\n'];
    assert(a + x + seq!['\n'] =~= a + b);
    lemma_lines_of_concat(a, b);
    lemma_lines_of_first(x, Seq::empty());
    assert(b =~= x + seq!['\n'] + Seq::<char>::empty());
    let lb = lines_of(b);
    assert(lb =~= seq![chomp(x)]);
    lemma_rerun_concat(false, lines_of(a), lb, 1);
    let mid = reread_on(false, a);
    assert(from_toml_run(mid, lb, 0) =~= Seq::<char>::empty());
    assert(toml_begun_from(mid, lb, 0) == mid);
    assert(from_toml_run(mid, lb, 1) =~= from_toml_piece(mid, chomp(x)));
}

/// What the reader makes of the line that names a section in the bracketed
/// form: the header of that section, behind the brace that closes the section
/// before it, if there was one.
pub proof fn lemma_bracket_line(key: Seq<char>, begun: bool)
    requires
        plain(key),
        !key.contains('['),
        !key.contains(']'),
    ensures
        !bracket_line(key).contains('\n'),
        chomp(bracket_line(key)) == bracket_line(key),
        is_toml_header(bracket_line(key)),
        from_toml_piece(begun, bracket_line(key)) == (if begun {
            seq!['}', '\n']
        } else {
            Seq::<char>::empty()
        }) + header(key) + seq!['\n'],
{
    let m = bracket_line(key);
    assert(m[0] == '[');
    assert(m.last() == ']');
    assert forall|c: char| m.contains(c) implies c == '[' || c == ']' || key.contains(c) by {
        lemma_contains_concat(seq!['['] + key, seq![']'], c);
        lemma_contains_concat(seq!['['], key, c);
        lemma_contains_one('[', c);
        lemma_contains_one(']', c);
    }
    lemma_without_concat(seq!['['] + key, seq![']'], '[', ']', ']');
    lemma_without_concat(seq!['['], key, '[', ']', ']');
    lemma_without_none(key, '[', ']', ']');
    lemma_without_one('[', '[', ']', ']');
    lemma_without_one(']', '[', ']', ']');
    assert(without(m, '[', ']', ']') =~= key);
    lemma_trim_tight(key);
    let front = if begun {
        seq!['}', '\n']
    } else {
        Seq::<char>::empty()
    };
    assert(front + seq!['('] + key + seq![')', ' ', '{', '\n'] =~= front + header(key) + seq![
        '\n',
    ]);
}

/// What the reader makes of the line of an entry in the bracketed form: the
/// entry.
pub proof fn lemma_pair_line(var: Seq<char>, val: Seq<char>, begun: bool)
    requires
        plain(var),
        plain(val),
        !var.contains('['),
        !val.contains('['),
    ensures
        !pair_line(var, val).contains('\n'),
        chomp(pair_line(var, val)) == pair_line(var, val),
        !is_toml_header(pair_line(var, val)),
        from_toml_piece(begun, pair_line(var, val)) == entry(var, val) + seq!['\n'],
{
    let m = pair_line(var, val);
    let mid = seq!['=', '"'];
    let back = seq!['"'];
    assert forall|c: char| m.contains(c) implies c == '=' || c == '"' || var.contains(c)
        || val.contains(c) by {
        lemma_contains_concat(var + mid + val, back, c);
        lemma_contains_concat(var + mid, val, c);
        lemma_contains_concat(var, mid, c);
        lemma_contains_one('"', c);
        if mid.contains(c) {
            let i = choose|i: int| 0 <= i < mid.len() && mid[i] == c;
        }
    }
    assert(m.last() == '"');
    assert(m.len() > 0);
    lemma_without_concat(var + mid + val, back, '"', ' ', ' ');
    lemma_without_concat(var + mid, val, '"', ' ', ' ');
    lemma_without_concat(var, mid, '"', ' ', ' ');
    lemma_without_none(var, '"', ' ', ' ');
    lemma_without_none(val, '"', ' ', ' ');
    assert(mid =~= seq!['='] + seq!['"']);
    lemma_without_concat(seq!['='], seq!['"'], '"', ' ', ' ');
    lemma_without_one('=', '"', ' ', ' ');
    lemma_without_one('"', '"', ' ', ' ');
    let inner = var + seq!['='] + val;
    assert(without(m, '"', ' ', ' ') =~= inner);
    assert(!is_space('='));
    assert(inner[0] == if var.len() > 0 {
        var[0]
    } else {
        '='
    });
    assert(inner.last() == if val.len() > 0 {
        val.last()
    } else {
        '='
    });
    lemma_trim_tight(inner);
    lemma_position_concat(var, '=', val);
}

/// A blank line of the bracketed form gives nothing.
pub proof fn lemma_blank_line(begun: bool)
    ensures
        from_toml_piece(begun, Seq::<char>::empty()) == Seq::<char>::empty(),
        toml_step(begun, Seq::<char>::empty()) == begun,
{
    assert(!Seq::<char>::empty().contains('['));
}

/// What a line of the grammar is to the exporter of the bracketed form.
pub proof fn lemma_shaped_bracketed(inside: bool, line: Seq<char>)
    requires
        shaped(inside, line),
        !line.contains('['),
        !line.contains(']'),
    ensures
        !inside ==> {
            &&& is_header(line)
            &&& !header_name(line).contains('[')
            &&& !header_name(line).contains(']')
            &&& toml_piece(inside, line) == bracket_line(header_name(line)) + seq!['\n']
        },
        inside && line == seq!['}'] ==> toml_piece(inside, line) == seq!['\n'],
        inside && line != seq!['}'] ==> {
            &&& !is_header(line)
            &&& !entry_name(line).contains('[')
            &&& !entry_name(line).contains(']')
            &&& !entry_value(line).contains('[')
            &&& !entry_value(line).contains(']')
            &&& toml_piece(inside, line) == pair_line(entry_name(line), entry_value(line)) + seq![
                '\n',
            ]
        },
{
    if !inside {
        let k = header_name(line);
        lemma_header(k);
        assert forall|c: char| k.contains(c) implies line.contains(c) by {
            let i = choose|i: int| 0 <= i < k.len() && k[i] == c;
            assert(line[i + 1] == c);
        }
        assert(toml_piece(inside, line) =~= bracket_line(k) + seq!['\n']);
    } else if line == seq!['}'] {
        lemma_contains_one('}', '}');
        lemma_contains_one('}', '(');
    } else {
        let name = entry_name(line);
        let val = entry_value(line);
        assert(trim_start(name) == name);
        lemma_trim_tight(name);
        lemma_entry(name, val);
        assert forall|c: char| name.contains(c) implies line.contains(c) by {
            let i = choose|i: int| 0 <= i < name.len() && name[i] == c;
            assert(line[i + 1] == c);
        }
        assert forall|c: char| val.contains(c) implies line.contains(c) by {
            let i = choose|i: int| 0 <= i < val.len() && val[i] == c;
            assert(line[name.len() + 2 + i] == c);
        }
        assert(toml_piece(inside, line) =~= pair_line(name, val) + seq!['\n']);
    }
}

/// How many of the first `n` lines have come back after the bracketed form of
/// those lines is read: all of them, but for a closing brace at their end,
/// which comes back with the next header or at the end.
pub open spec fn come_back(l: Seq<Seq<char>>, n: int) -> int {
    if in_block(l, n) || n <= 0 {
        n
    } else {
        n - 1
    }
}

/// Reading back what the exporter has written after `n` lines gives those
/// lines as far as they have come back.
pub open spec fn rereads(l: Seq<Seq<char>>, n: int) -> bool {
    &&& whole(toml_of(l, n))
    &&& reread_on(false, toml_of(l, n)) == (n > 0)
    &&& reread_out(false, toml_of(l, n)) == render(l.take(come_back(l, n)))
}

/// A header line comes back, behind the closing brace of the section before
/// it.
pub proof fn lemma_rereads_header(l: Seq<Seq<char>>, i: int)
    requires
        0 <= i < l.len(),
        rereads(l, i),
        !in_block(l, i),
        shaped(false, l[i]),
        !l[i].contains('['),
        !l[i].contains(']'),
        i > 0 ==> l[i - 1] == seq!['}'],
    ensures
        rereads(l, i + 1),
{
    let line = l[i];
    let k = header_name(line);
    let a = toml_of(l, i);
    lemma_shaped_bracketed(false, line);
    lemma_bracket_line(k, i > 0);
    assert(toml_of(l, i + 1) =~= a + bracket_line(k) + seq!['\n']);
    lemma_reread_line(a, bracket_line(k));
    assert(l.take(i + 1) =~= l.take(i).push(line));
    lemma_render_push(l.take(i), line);
    if i > 0 {
        assert(l.take(i) =~= l.take(i - 1).push(l[i - 1]));
        lemma_render_push(l.take(i - 1), l[i - 1]);
        let before = render(l.take(i - 1));
        assert(before + (seq!['}', '\n'] + header(k) + seq!['\n']) =~= before + seq!['}'] + seq![
            '\n',
        ] + line + seq!['\n']);
    } else {
        assert(l.take(0) =~= Seq::<Seq<char>>::empty());
        let before = render(l.take(0));
        assert(before + (Seq::<char>::empty() + header(k) + seq!['\n']) =~= before + line + seq![
            '\n',
        ]);
    }
}

/// The line of an entry comes back as it was.
pub proof fn lemma_rereads_entry(l: Seq<Seq<char>>, i: int)
    requires
        0 < i < l.len(),
        rereads(l, i),
        in_block(l, i),
        shaped(true, l[i]),
        l[i] != seq!['}'],
        !l[i].contains('['),
        !l[i].contains(']'),
    ensures
        rereads(l, i + 1),
{
    let line = l[i];
    let a = toml_of(l, i);
    lemma_shaped_bracketed(true, line);
    let m = pair_line(entry_name(line), entry_value(line));
    lemma_pair_line(entry_name(line), entry_value(line), true);
    crate::braced::lemma_shaped(true, line);
    assert(toml_of(l, i + 1) =~= a + m + seq!['\n']);
    lemma_reread_line(a, m);
    assert(l.take(i + 1) =~= l.take(i).push(line));
    lemma_render_push(l.take(i), line);
    let before = render(l.take(i));
    assert(before + (line + seq!['\n']) =~= before + line + seq!['\n']);
}

/// A closing line does not come back yet: the exporter writes a blank line.
pub proof fn lemma_rereads_close(l: Seq<Seq<char>>, i: int)
    requires
        0 < i < l.len(),
        rereads(l, i),
        in_block(l, i),
        l[i] == seq!['}'],
    ensures
        rereads(l, i + 1),
{
    let a = toml_of(l, i);
    let blank = Seq::<char>::empty();
    lemma_contains_one('}', '}');
    lemma_contains_one('}', '(');
    lemma_blank_line(true);
    assert(!blank.contains('\n'));
    assert(toml_of(l, i + 1) =~= a + blank + seq!['\n']);
    lemma_reread_line(a, blank);
    assert(render(l.take(i)) + blank =~= render(l.take(i)));
}

/// Reading back what the exporter has written after `n` lines.
pub proof fn lemma_reread(l: Seq<Seq<char>>, n: int)
    requires
        regular(l),
        unbracketed(l),
        0 <= n <= l.len(),
    ensures
        rereads(l, n),
    decreases n,
{
    if n <= 0 {
        assert(l.take(0) =~= Seq::<Seq<char>>::empty());
    } else {
        let i = n - 1;
        lemma_reread(l, i);
        if !in_block(l, i) {
            if i > 0 {
                crate::braced::lemma_shaped(in_block(l, i - 1), l[i - 1]);
            }
            lemma_rereads_header(l, i);
        } else if l[i] == seq!['}'] {
            lemma_rereads_close(l, i);
        } else {
            lemma_rereads_entry(l, i);
        }
    }
}

/// Export and import agree in the bracketed form: a document that is exported
/// to it and read back from it comes back line for line, each entry with its
/// name and its value where they were.
///
/// This holds of documents that are not empty, whose lines follow the
/// grammar, with plain names and values, and hold no square brackets.
pub proof fn law_bracketed_round_trip_keeps_entries(doc: Seq<char>)
    requires
        regular(lines_of(doc)),
        unbracketed(lines_of(doc)),
        lines_of(doc).len() > 0,
    ensures
        to_toml_of(doc) is Some,
        from_toml_of(to_toml_of(doc)->0) == render(lines_of(doc)),
{
    let l = lines_of(doc);
    let n = l.len() as int;
    crate::braced::lemma_regular_counts(l, n);
    assert(l.take(n) =~= l);
    assert(balanced(l));
    let bracketed = to_toml_of(doc)->0;
    lemma_rerun_from_start(lines_of(bracketed), lines_of(bracketed).len() as int);
    lemma_reread(l, n);
    crate::braced::lemma_last_line(l);
    assert(l =~= l.take(n - 1).push(l[n - 1]));
    lemma_render_push(l.take(n - 1), l[n - 1]);
    let before = render(l.take(n - 1));
    assert(before + seq!['}', '\n'] =~= before + seq!['}'] + seq!['\n']);
}

} // verus!
