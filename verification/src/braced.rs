//! Exporting a document to the braced form and reading that form back: every
//! entry comes back turned around, its value where its name was.
use crate::convert::{
    chop, from_json_body, from_json_of, from_json_piece, in_block, is_json_header, json_body,
    json_header, json_inside, json_member, json_pending, to_json_of,
};
use crate::facts::{
    clean, header, lemma_contains_concat, lemma_contains_one, lemma_entry, lemma_header,
    lemma_lines_of_concat, lemma_lines_of_first, lemma_lines_with_push, lemma_position_concat,
    lemma_trim_push_space, lemma_trim_tight, lemma_without_concat, lemma_without_none,
    lemma_without_one, tight, whole,
};
use crate::lines::{chomp, lemma_render_push, lines_of, render};
use crate::model::{closes, entry, entry_name, entry_value, header_name, is_header, lines_with};
use crate::text::{is_space, trim, trim_start, without};
use vstd::prelude::*;

verus! {

/// Where the reader of the braced form stands after a line: inside a section
/// or not.
pub open spec fn json_step(inside: bool, line: Seq<char>) -> bool {
    is_json_header(line) || (inside && !closes(line))
}

/// Where the reader of the braced form stands after the first `n` lines, when
/// it began at `inside`.
pub open spec fn json_inside_from(inside: bool, s: Seq<Seq<char>>, n: int) -> bool
    decreases n,
{
    if n <= 0 {
        inside
    } else {
        json_step(json_inside_from(inside, s, n - 1), s[n - 1])
    }
}

/// What the reader of the braced form makes of the first `n` lines, when it
/// began at `inside`.
pub open spec fn from_json_run(inside: bool, s: Seq<Seq<char>>, n: int) -> Seq<char>
    decreases n,
{
    if n <= 0 {
        Seq::empty()
    } else {
        from_json_run(inside, s, n - 1) + from_json_piece(
            json_inside_from(inside, s, n - 1),
            s[n - 1],
        )
    }
}

/// What the reader of the braced form makes of the text `t`, when it began at
/// `inside`.
pub open spec fn read_out(inside: bool, t: Seq<char>) -> Seq<char> {
    from_json_run(inside, lines_of(t), lines_of(t).len() as int)
}

/// Where the reader of the braced form stands after the text `t`, when it
/// began at `inside`.
pub open spec fn read_on(inside: bool, t: Seq<char>) -> bool {
    json_inside_from(inside, lines_of(t), lines_of(t).len() as int)
}

/// The reader began outside of any section.
pub proof fn lemma_run_from_outside(s: Seq<Seq<char>>, n: int)
    ensures
        json_inside_from(false, s, n) == json_inside(s, n),
        from_json_run(false, s, n) == from_json_body(s, n),
    decreases n,
{
    if n > 0 {
        lemma_run_from_outside(s, n - 1);
    }
}

/// Reading two runs of lines, one after the other.
pub proof fn lemma_run_concat(inside: bool, a: Seq<Seq<char>>, b: Seq<Seq<char>>, n: int)
    requires
        0 <= n <= b.len(),
    ensures
        json_inside_from(inside, a + b, a.len() + n) == json_inside_from(
            json_inside_from(inside, a, a.len() as int),
            b,
            n,
        ),
        from_json_run(inside, a + b, a.len() + n) == from_json_run(inside, a, a.len() as int)
            + from_json_run(json_inside_from(inside, a, a.len() as int), b, n),
    decreases n,
{
    let mid = json_inside_from(inside, a, a.len() as int);
    if n == 0 {
        lemma_run_front(inside, a, b, a.len() as int);
        assert(from_json_run(inside, a, a.len() as int) + from_json_run(mid, b, 0)
            =~= from_json_run(inside, a, a.len() as int));
    } else {
        lemma_run_concat(inside, a, b, n - 1);
        assert((a + b)[a.len() + n - 1] == b[n - 1]);
        let x = from_json_run(inside, a, a.len() as int);
        let y = from_json_run(mid, b, n - 1);
        let z = from_json_piece(json_inside_from(mid, b, n - 1), b[n - 1]);
        assert((x + y) + z =~= x + (y + z));
    }
}

/// Reading the first lines of two runs is reading the first lines of the
/// first.
pub proof fn lemma_run_front(inside: bool, a: Seq<Seq<char>>, b: Seq<Seq<char>>, n: int)
    requires
        0 <= n <= a.len(),
    ensures
        json_inside_from(inside, a + b, n) == json_inside_from(inside, a, n),
        from_json_run(inside, a + b, n) == from_json_run(inside, a, n),
    decreases n,
{
    if n > 0 {
        lemma_run_front(inside, a, b, n - 1);
        assert((a + b)[n - 1] == a[n - 1]);
    }
}

/// Reading whole lines and then what follows them.
pub proof fn lemma_read_concat(inside: bool, a: Seq<char>, b: Seq<char>)
    requires
        whole(a),
    ensures
        read_on(inside, a + b) == read_on(read_on(inside, a), b),
        read_out(inside, a + b) == read_out(inside, a) + read_out(read_on(inside, a), b),
{
    lemma_lines_of_concat(a, b);
    lemma_run_concat(inside, lines_of(a), lines_of(b), lines_of(b).len() as int);
}

/// Reading one line that ends with a line feed.
pub proof fn lemma_read_line(inside: bool, x: Seq<char>)
    requires
        !x.contains('\n'),
    ensures
        read_on(inside, x + seq!['\n']) == json_step(inside, chomp(x)),
        read_out(inside, x + seq!['\n']) == from_json_piece(inside, chomp(x)),
{
    lemma_lines_of_first(x, Seq::empty());
    let t = x + seq!['\n'];
    assert(t =~= x + seq!['\n'] + Seq::<char>::empty());
    let l = lines_of(t);
    assert(l =~= seq![chomp(x)]);
    assert(from_json_run(inside, l, 0) =~= Seq::<char>::empty());
    assert(json_inside_from(inside, l, 0) == inside);
    assert(from_json_run(inside, l, 1) =~= from_json_piece(inside, chomp(x)));
}

/// A name or value that both forms can carry: clean and tight, and without
/// quote, comma, blank, colon and `=`.
pub open spec fn plain(s: Seq<char>) -> bool {
    &&& clean(s)
    &&& tight(s)
    &&& !s.contains('"')
    &&& !s.contains(',')
    &&& !s.contains(' ')
    &&& !s.contains(':')
    &&& !s.contains('=')
}

/// The line of an entry in the braced form, without the comma behind it.
pub open spec fn member_line(var: Seq<char>, val: Seq<char>) -> Seq<char> {
    seq!['\t', '\t', '"'] + val + seq!['"', ':', ' ', '"'] + var + seq!['"']
}

/// The line that opens the section `key` in the braced form.
pub open spec fn opening_line(key: Seq<char>) -> Seq<char> {
    seq!['\t', '"'] + key + seq!['"', ':', ' ', '{']
}

/// A line of a document as the grammar has it. Outside of a section it is the
/// header of a section with a plain name; inside it is the closing brace, or
/// the entry of a plain name and a plain value.
pub open spec fn shaped(inside: bool, line: Seq<char>) -> bool {
    if inside {
        ||| line == seq!['}']
        ||| {
            &&& plain(entry_name(line))
            &&& plain(entry_value(line))
            &&& line == entry(entry_name(line), entry_value(line))
        }
    } else {
        plain(header_name(line)) && line == header(header_name(line))
    }
}

/// Lines that follow the grammar: sections one after the other, each a
/// header, its entries and the closing brace, with plain names and values.
pub open spec fn regular(l: Seq<Seq<char>>) -> bool {
    &&& forall|i: int| 0 <= i < l.len() ==> shaped(in_block(l, i), #[trigger] l[i])
    &&& !in_block(l, l.len() as int)
}

/// A line with its entry turned around: the value where the name was. A line
/// that holds no entry stays as it is.
pub open spec fn turned(line: Seq<char>) -> Seq<char> {
    if line.contains('=') {
        entry(entry_value(line), entry_name(line))
    } else {
        line
    }
}

/// The lines with every entry turned around.
pub open spec fn turned_all(l: Seq<Seq<char>>) -> Seq<Seq<char>> {
    Seq::new(l.len(), |i: int| turned(l[i]))
}

/// What the reader makes of the line of an entry in the braced form, with or
/// without its comma: the entry with the value as its name.
#[verifier::rlimit(30)]
pub proof fn lemma_member_line(var: Seq<char>, val: Seq<char>, comma: bool)
    requires
        plain(var),
        plain(val),
    ensures
        ({
            let m = if comma {
                member_line(var, val).push(',')
            } else {
                member_line(var, val)
            };
            &&& !m.contains('\n')
            &&& chomp(m) == m
            &&& from_json_piece(true, m) == entry(val, var) + seq!['\n']
            &&& json_step(true, m)
        }),
{
    let bare = member_line(var, val);
    let m = if comma {
        bare.push(',')
    } else {
        bare
    };
    let front = seq!['\t', '\t', '"'];
    let mid = seq!['"', ':', ' ', '"'];
    let back = if comma {
        seq!['"', ',']
    } else {
        seq!['"']
    };
    assert(m =~= front + val + mid + var + back);
    assert forall|c: char| m.contains(c) implies front.contains(c) || val.contains(c)
        || mid.contains(c) || var.contains(c) || back.contains(c) by {
        lemma_contains_concat(front + val + mid + var, back, c);
        lemma_contains_concat(front + val + mid, var, c);
        lemma_contains_concat(front + val, mid, c);
        lemma_contains_concat(front, val, c);
    }
    assert(!front.contains('\n') && !mid.contains('\n') && !back.contains('\n'));
    assert(!front.contains('{') && !mid.contains('{') && !back.contains('{'));
    assert(!front.contains('}') && !mid.contains('}') && !back.contains('}'));
    assert(m.last() == back.last());
    assert(m.len() > 0);
    // without quotes, commas and blanks
    lemma_without_concat(front + val + mid + var, back, '"', ',', ' ');
    lemma_without_concat(front + val + mid, var, '"', ',', ' ');
    lemma_without_concat(front + val, mid, '"', ',', ' ');
    lemma_without_concat(front, val, '"', ',', ' ');
    lemma_without_none(val, '"', ',', ' ');
    lemma_without_none(var, '"', ',', ' ');
    assert(front =~= seq!['\t'] + seq!['\t'] + seq!['"']);
    lemma_without_concat(seq!['\t'] + seq!['\t'], seq!['"'], '"', ',', ' ');
    lemma_without_concat(seq!['\t'], seq!['\t'], '"', ',', ' ');
    lemma_without_one('\t', '"', ',', ' ');
    lemma_without_one('"', '"', ',', ' ');
    assert(mid =~= seq!['"'] + seq![':'] + seq![' '] + seq!['"']);
    lemma_without_concat(seq!['"'] + seq![':'] + seq![' '], seq!['"'], '"', ',', ' ');
    lemma_without_concat(seq!['"'] + seq![':'], seq![' '], '"', ',', ' ');
    lemma_without_concat(seq!['"'], seq![':'], '"', ',', ' ');
    lemma_without_one(':', '"', ',', ' ');
    lemma_without_one(' ', '"', ',', ' ');
    lemma_without_one(',', '"', ',', ' ');
    if comma {
        assert(back =~= seq!['"'] + seq![',']);
        lemma_without_concat(seq!['"'], seq![','], '"', ',', ' ');
    }
    let inner = val + seq![':'] + var;
    let cut = seq!['\t', '\t'] + inner;
    assert(without(m, '"', ',', ' ') =~= cut);
    // trimmed
    assert(is_space('\t'));
    assert(!is_space(':'));
    assert(inner.len() > 0);
    assert(inner[0] == if val.len() > 0 {
        val[0]
    } else {
        ':'
    });
    assert(inner.last() == if var.len() > 0 {
        var.last()
    } else {
        ':'
    });
    crate::text::lemma_trim_start_skips(cut, 2);
    assert(cut.skip(2) =~= inner);
    assert(trim(cut) == inner);
    lemma_position_concat(val, ':', var);
}

/// What the reader makes of the line that opens a section in the braced
/// form: the header of that section.
pub proof fn lemma_opening_line(key: Seq<char>, inside: bool)
    requires
        plain(key),
    ensures
        !opening_line(key).contains('\n'),
        chomp(opening_line(key)) == opening_line(key),
        from_json_piece(inside, opening_line(key)) == header(key) + seq!['\n'],
        json_step(inside, opening_line(key)),
{
    let m = opening_line(key);
    let front = seq!['\t', '"'];
    let back = seq!['"', ':', ' ', '{'];
    assert(m =~= front + key + back);
    assert forall|c: char| m.contains(c) implies front.contains(c) || key.contains(c)
        || back.contains(c) by {
        lemma_contains_concat(front + key, back, c);
        lemma_contains_concat(front, key, c);
    }
    assert(!front.contains('\n') && !back.contains('\n'));
    assert(m.last() == '{');
    assert(m[1] == '"');
    assert(m[key.len() as int + 3] == ':');
    assert(m[key.len() as int + 5] == '{');
    // without braces, colons and quotes
    lemma_without_concat(front + key, back, '{', ':', '"');
    lemma_without_concat(front, key, '{', ':', '"');
    lemma_without_none(key, '{', ':', '"');
    assert(front =~= seq!['\t'] + seq!['"']);
    lemma_without_concat(seq!['\t'], seq!['"'], '{', ':', '"');
    lemma_without_one('\t', '{', ':', '"');
    lemma_without_one('"', '{', ':', '"');
    assert(back =~= seq!['"'] + seq![':'] + seq![' '] + seq!['{']);
    lemma_without_concat(seq!['"'] + seq![':'] + seq![' '], seq!['{'], '{', ':', '"');
    lemma_without_concat(seq!['"'] + seq![':'], seq![' '], '{', ':', '"');
    lemma_without_concat(seq!['"'], seq![':'], '{', ':', '"');
    lemma_without_one(':', '{', ':', '"');
    lemma_without_one(' ', '{', ':', '"');
    lemma_without_one('{', '{', ':', '"');
    let cut = seq!['\t'] + key;
    assert(without(m, '{', ':', '"') =~= cut.push(' '));
    // trimmed
    assert(is_space(' '));
    assert(is_space('\t'));
    lemma_trim_push_space(cut, ' ');
    assert(cut[0] == '\t');
    assert(cut.drop_first() =~= key);
    assert(trim_start(cut) == trim_start(key));
    lemma_trim_tight(key);
    assert(from_json_piece(inside, m) =~= header(key) + seq!['\n']);
}

/// Reading a blank line inside a section, and what follows it: the blank
/// line gives nothing.
pub proof fn lemma_read_blank_then(a: Seq<char>, x: Seq<char>)
    requires
        whole(a),
        read_on(false, a),
    ensures
        read_out(false, a + seq!['\n'] + x) == read_out(false, a) + read_out(true, x),
        read_on(false, a + seq!['\n'] + x) == read_on(true, x),
{
    let blank = Seq::<char>::empty();
    assert(!blank.contains('\n'));
    assert(!blank.contains('"'));
    assert(!blank.contains('}'));
    assert(chomp(blank) == blank);
    lemma_read_line(true, blank);
    assert(blank + seq!['\n'] =~= seq!['\n']);
    assert(a + seq!['\n'] + x =~= a + (seq!['\n'] + x));
    lemma_read_concat(false, a, seq!['\n'] + x);
    lemma_read_concat(true, seq!['\n'], x);
    assert(read_out(true, seq!['\n']) =~= blank);
    assert(read_out(false, a) + (blank + read_out(true, x)) =~= read_out(false, a) + read_out(
        true,
        x,
    ));
}

/// Reading the line of an entry inside a section, and what follows it: the
/// line gives the entry with the value as its name.
#[verifier::rlimit(30)]
pub proof fn lemma_read_member_then(
    a: Seq<char>,
    var: Seq<char>,
    val: Seq<char>,
    comma: bool,
    x: Seq<char>,
)
    requires
        whole(a),
        read_on(false, a),
        plain(var),
        plain(val),
    ensures
        ({
            let m = if comma {
                member_line(var, val).push(',')
            } else {
                member_line(var, val)
            };
            &&& read_out(false, a + m + seq!['\n'] + x) == read_out(false, a) + entry(val, var)
                + seq!['\n'] + read_out(true, x)
            &&& read_on(false, a + m + seq!['\n'] + x) == read_on(true, x)
        }),
{
    let m = if comma {
        member_line(var, val).push(',')
    } else {
        member_line(var, val)
    };
    lemma_member_line(var, val, comma);
    lemma_read_line(true, m);
    let line = m + seq!['\n'];
    assert(a + m + seq!['\n'] + x =~= a + (line + x));
    lemma_read_concat(false, a, line + x);
    lemma_read_concat(true, line, x);
    let r = read_out(false, a);
    let e = entry(val, var) + seq!['\n'];
    assert(r + (e + read_out(true, x)) =~= r + entry(val, var) + seq!['\n'] + read_out(true, x));
}

/// Reading the line that opens a section: it gives the header of the
/// section, and the reader stands inside.
pub proof fn lemma_read_opening(a: Seq<char>, key: Seq<char>)
    requires
        whole(a),
        plain(key),
    ensures
        read_out(false, a + opening_line(key) + seq!['\n']) == read_out(false, a) + header(key)
            + seq!['\n'],
        read_on(false, a + opening_line(key) + seq!['\n']),
{
    let m = opening_line(key);
    let inside = read_on(false, a);
    lemma_opening_line(key, inside);
    lemma_read_line(inside, m);
    assert(a + m + seq!['\n'] =~= a + (m + seq!['\n']));
    lemma_read_concat(false, a, m + seq!['\n']);
    let r = read_out(false, a);
    assert(r + (header(key) + seq!['\n']) =~= r + header(key) + seq!['\n']);
}

/// Reading the end of a section: the closing line, with a comma and a blank
/// line behind it or with the last brace behind it, gives the closing brace,
/// and the reader stands outside.
pub proof fn lemma_read_shut()
    ensures
        read_out(true, seq!['\t', '}', ',', '\n', '\n']) == seq!['}', '\n'],
        !read_on(true, seq!['\t', '}', ',', '\n', '\n']),
        read_out(true, seq!['\t', '}', '\n', '}', '\n']) == seq!['}', '\n'],
        !read_on(true, seq!['\t', '}', '\n', '}', '\n']),
{
    let blank = Seq::<char>::empty();
    let shut1 = seq!['\t', '}', ','];
    let shut2 = seq!['\t', '}'];
    let brace = seq!['}'];
    assert(shut1[1] == '}');
    assert(shut2[1] == '}');
    assert(brace[0] == '}');
    assert(!shut1.contains('"') && !shut1.contains('\n'));
    assert(!shut2.contains('"') && !shut2.contains('\n'));
    assert(!brace.contains('"') && !brace.contains('\n'));
    assert(!blank.contains('"') && !blank.contains('\n') && !blank.contains('}'));
    lemma_read_line(true, shut1);
    lemma_read_line(true, shut2);
    lemma_read_line(false, blank);
    lemma_read_line(false, brace);
    let x1 = seq!['\t', '}', ',', '\n', '\n'];
    assert(x1 =~= (shut1 + seq!['\n']) + (blank + seq!['\n']));
    lemma_read_concat(true, shut1 + seq!['\n'], blank + seq!['\n']);
    assert(read_out(true, x1) =~= seq!['}', '\n']);
    let x2 = seq!['\t', '}', '\n', '}', '\n'];
    assert(x2 =~= (shut2 + seq!['\n']) + (brace + seq!['\n']));
    lemma_read_concat(true, shut2 + seq!['\n'], brace + seq!['\n']);
    assert(read_out(true, x2) =~= seq!['}', '\n']);
}

/// Reading the braced form of a document without sections gives nothing.
pub proof fn lemma_read_bare()
    ensures
        read_out(false, seq!['{', '\n']) == Seq::<char>::empty(),
        !read_on(false, seq!['{', '\n']),
        read_out(false, seq!['{', '\n', '\n', '}', '\n']) == Seq::<char>::empty(),
{
    let blank = Seq::<char>::empty();
    let open = seq!['{'];
    let brace = seq!['}'];
    assert(!open.contains('"') && !open.contains('\n'));
    assert(!brace.contains('"') && !brace.contains('\n'));
    assert(!blank.contains('"') && !blank.contains('\n') && !blank.contains('}'));
    lemma_read_line(false, open);
    lemma_read_line(false, blank);
    lemma_read_line(false, brace);
    assert(seq!['{', '\n'] =~= open + seq!['\n']);
    let t = seq!['{', '\n', '\n', '}', '\n'];
    let rest = (blank + seq!['\n']) + (brace + seq!['\n']);
    assert(t =~= (open + seq!['\n']) + rest);
    lemma_read_concat(false, open + seq!['\n'], rest);
    lemma_read_concat(false, blank + seq!['\n'], brace + seq!['\n']);
    assert(read_out(false, t) =~= Seq::<char>::empty());
}

/// What a line of the grammar is to the exporter.
pub proof fn lemma_shaped(inside: bool, line: Seq<char>)
    requires
        shaped(inside, line),
    ensures
        !inside ==> {
            &&& is_header(line)
            &&& line.contains(')')
            &&& line.contains('{')
            &&& !closes(line)
            &&& turned(line) == line
            &&& json_header(line) == opening_line(header_name(line)) + seq!['\n']
        },
        inside && line == seq!['}'] ==> {
            &&& !is_header(line)
            &&& !line.contains(')')
            &&& !line.contains('{')
            &&& closes(line)
            &&& turned(line) == line
        },
        inside && line != seq!['}'] ==> {
            &&& !is_header(line)
            &&& !line.contains(')')
            &&& !line.contains('{')
            &&& !closes(line)
            &&& turned(line) == entry(entry_value(line), entry_name(line))
            &&& json_member(line) == member_line(entry_name(line), entry_value(line)).push(',')
                + seq!['\n']
        },
{
    if !inside {
        let k = header_name(line);
        lemma_header(k);
        if line.contains('=') {
            let i = choose|i: int| 0 <= i < line.len() && line[i] == '=';
            if 1 <= i < k.len() + 1 {
                assert(k[i - 1] == '=');
            }
        }
        assert(json_header(line) =~= opening_line(k) + seq!['\n']);
    } else if line == seq!['}'] {
        lemma_contains_one('}', '}');
        lemma_contains_one('}', '(');
        lemma_contains_one('}', ')');
        lemma_contains_one('}', '{');
        lemma_contains_one('}', '=');
    } else {
        let name = entry_name(line);
        let val = entry_value(line);
        assert(trim_start(name) == name);
        lemma_trim_tight(name);
        lemma_entry(name, val);
        assert(line[name.len() as int + 1] == '=');
        assert(json_member(line) =~= member_line(name, val).push(',') + seq!['\n']);
    }
}

/// Lines of the grammar pass the integrity check.
pub proof fn lemma_regular_counts(l: Seq<Seq<char>>, n: int)
    requires
        0 <= n <= l.len(),
        forall|i: int| 0 <= i < n ==> shaped(in_block(l, i), #[trigger] l[i]),
    ensures
        lines_with(l.take(n), '(') == lines_with(l.take(n), ')'),
        lines_with(l.take(n), '(') == lines_with(l.take(n), '{'),
        lines_with(l.take(n), '{') == lines_with(l.take(n), '}') + if in_block(l, n) {
            1nat
        } else {
            0nat
        },
    decreases n,
{
    if n > 0 {
        lemma_regular_counts(l, n - 1);
        lemma_shaped(in_block(l, n - 1), l[n - 1]);
        assert(l.take(n) =~= l.take(n - 1).push(l[n - 1]));
        lemma_lines_with_push(l.take(n - 1), l[n - 1], '(');
        lemma_lines_with_push(l.take(n - 1), l[n - 1], ')');
        lemma_lines_with_push(l.take(n - 1), l[n - 1], '{');
        lemma_lines_with_push(l.take(n - 1), l[n - 1], '}');
    } else {
        assert(l.take(0) =~= Seq::<Seq<char>>::empty());
    }
}

/// Turning the entries of one more line.
pub proof fn lemma_turned_take(l: Seq<Seq<char>>, n: int)
    requires
        0 < n <= l.len(),
    ensures
        render(turned_all(l.take(n))) == render(turned_all(l.take(n - 1))) + turned(l[n - 1])
            + seq!['\n'],
{
    assert(turned_all(l.take(n)) =~= turned_all(l.take(n - 1)).push(turned(l[n - 1])));
    lemma_render_push(turned_all(l.take(n - 1)), turned(l[n - 1]));
}

/// Reading back what the exporter has written and gathered after `n` lines
/// gives those lines with their entries turned around, and stands inside a
/// section where the exporter does.
pub open spec fn reads_back(l: Seq<Seq<char>>, n: int) -> bool {
    &&& whole(json_body(l, n))
    &&& whole(json_pending(l, n))
    &&& !in_block(l, n) ==> json_pending(l, n).len() == 0
    &&& read_out(false, json_body(l, n) + json_pending(l, n)) == render(turned_all(l.take(n)))
    &&& read_on(false, json_body(l, n) + json_pending(l, n)) == in_block(l, n)
}

/// Reading back what the exporter writes at the closing line `n`, and the
/// text `x` behind it: the lines so far with their entries turned around, and
/// then that text read from inside the section.
pub open spec fn closes_back(l: Seq<Seq<char>>, n: int, x: Seq<char>) -> bool {
    &&& read_out(false, json_body(l, n) + chop(json_pending(l, n), 2) + seq!['\n'] + x) == render(
        turned_all(l.take(n)),
    ) + read_out(true, x)
    &&& read_on(false, json_body(l, n) + chop(json_pending(l, n), 2) + seq!['\n'] + x) == read_on(
        true,
        x,
    )
}

/// Before any line, the exporter has written the opening brace.
pub proof fn lemma_reads_back_start(l: Seq<Seq<char>>)
    ensures
        reads_back(l, 0),
{
    lemma_read_bare();
    assert(json_body(l, 0) + json_pending(l, 0) =~= seq!['{', '\n']);
    assert(l.take(0) =~= Seq::<Seq<char>>::empty());
    assert(turned_all(l.take(0)) =~= Seq::<Seq<char>>::empty());
}

/// A header line is read back as it is.
pub proof fn lemma_reads_back_header(l: Seq<Seq<char>>, i: int)
    requires
        0 <= i < l.len(),
        reads_back(l, i),
        !in_block(l, i),
        shaped(false, l[i]),
    ensures
        reads_back(l, i + 1),
{
    let line = l[i];
    let k = header_name(line);
    lemma_shaped(false, line);
    lemma_turned_take(l, i + 1);
    let body = json_body(l, i);
    assert(json_pending(l, i + 1) =~= Seq::<char>::empty());
    assert(body + json_pending(l, i) =~= body);
    assert(json_body(l, i + 1) == body + (opening_line(k) + seq!['\n']));
    assert(json_body(l, i + 1) + json_pending(l, i + 1) =~= body + opening_line(k) + seq!['\n']);
    lemma_read_opening(body, k);
}

/// The line of an entry is read back turned around.
pub proof fn lemma_reads_back_entry(l: Seq<Seq<char>>, i: int)
    requires
        0 <= i < l.len(),
        reads_back(l, i),
        in_block(l, i),
        shaped(true, l[i]),
        l[i] != seq!['}'],
    ensures
        reads_back(l, i + 1),
{
    let line = l[i];
    lemma_shaped(true, line);
    lemma_turned_take(l, i + 1);
    let a = json_body(l, i) + json_pending(l, i);
    let m = member_line(entry_name(line), entry_value(line)).push(',');
    assert(json_body(l, i + 1) == json_body(l, i));
    assert(json_pending(l, i + 1) == json_pending(l, i) + (m + seq!['\n']));
    assert(json_body(l, i + 1) + json_pending(l, i + 1) =~= a + m + seq!['\n'] + Seq::<
        char,
    >::empty());
    lemma_read_member_then(a, entry_name(line), entry_value(line), true, Seq::empty());
    let before = render(turned_all(l.take(i)));
    let e = entry(entry_value(line), entry_name(line));
    assert(read_out(true, Seq::<char>::empty()) =~= Seq::<char>::empty());
    assert(before + e + seq!['\n'] + Seq::<char>::empty() =~= before + e + seq!['\n']);
}

/// A closing line is read back as it is.
pub proof fn lemma_reads_back_close(l: Seq<Seq<char>>, i: int)
    requires
        0 <= i < l.len(),
        reads_back(l, i),
        in_block(l, i),
        l[i] == seq!['}'],
        closes_back(l, i, seq!['\t', '}', ',', '\n', '\n']),
    ensures
        reads_back(l, i + 1),
{
    let line = l[i];
    let x = seq!['\t', '}', ',', '\n', '\n'];
    lemma_contains_one('}', '}');
    lemma_contains_one('}', '(');
    lemma_contains_one('}', '=');
    lemma_read_shut();
    lemma_turned_take(l, i + 1);
    let head = json_body(l, i) + chop(json_pending(l, i), 2);
    assert(json_pending(l, i + 1) =~= Seq::<char>::empty());
    assert(json_body(l, i + 1) == head + seq!['\n', '\t', '}', ',', '\n', '\n']);
    assert(json_body(l, i + 1) + json_pending(l, i + 1) =~= head + seq!['\n'] + x);
    let before = render(turned_all(l.take(i)));
    assert(before + seq!['}', '\n'] =~= before + line + seq!['\n']);
}

/// At a closing line behind a header, the exporter writes a blank line.
pub proof fn lemma_closes_back_empty(l: Seq<Seq<char>>, n: int, x: Seq<char>)
    requires
        reads_back(l, n),
        in_block(l, n),
        json_pending(l, n).len() == 0,
    ensures
        closes_back(l, n, x),
{
    let body = json_body(l, n);
    let gathered = json_pending(l, n);
    assert(body + gathered =~= body);
    assert(chop(gathered, 2) =~= Seq::<char>::empty());
    assert(body + chop(gathered, 2) + seq!['\n'] + x =~= body + seq!['\n'] + x);
    lemma_read_blank_then(body, x);
}

/// At a closing line behind an entry, the exporter writes that entry without
/// its comma.
pub proof fn lemma_closes_back_entry(l: Seq<Seq<char>>, n: int, x: Seq<char>)
    requires
        0 < n <= l.len(),
        reads_back(l, n - 1),
        in_block(l, n - 1),
        shaped(true, l[n - 1]),
        l[n - 1] != seq!['}'],
    ensures
        closes_back(l, n, x),
{
    let i = n - 1;
    let line = l[i];
    lemma_shaped(true, line);
    lemma_turned_take(l, n);
    let bare = member_line(entry_name(line), entry_value(line));
    let a = json_body(l, i) + json_pending(l, i);
    let gathered = json_pending(l, n);
    assert(json_body(l, n) == json_body(l, i));
    assert(gathered == json_pending(l, i) + (bare.push(',') + seq!['\n']));
    assert(chop(gathered, 2) =~= json_pending(l, i) + bare);
    assert(json_body(l, n) + chop(gathered, 2) + seq!['\n'] + x =~= a + bare + seq!['\n'] + x);
    lemma_read_member_then(a, entry_name(line), entry_value(line), false, x);
}

/// What the exporter has gathered comes from the entry before, or is
/// nothing.
pub proof fn lemma_gathered(l: Seq<Seq<char>>, n: int)
    requires
        regular(l),
        0 <= n <= l.len(),
        json_pending(l, n).len() > 0,
        n > 0 ==> reads_back(l, n - 1),
    ensures
        n > 0,
        in_block(l, n - 1),
        l[n - 1] != seq!['}'],
{
    if n > 0 {
        lemma_shaped(in_block(l, n - 1), l[n - 1]);
    }
}

/// Reading back what the exporter has written and gathered after `n` lines.
pub proof fn lemma_read_back(l: Seq<Seq<char>>, n: int)
    requires
        regular(l),
        0 <= n <= l.len(),
    ensures
        reads_back(l, n),
    decreases n, 0nat,
{
    if n <= 0 {
        lemma_reads_back_start(l);
    } else {
        let i = n - 1;
        lemma_read_back(l, i);
        if !in_block(l, i) {
            lemma_reads_back_header(l, i);
        } else if l[i] == seq!['}'] {
            lemma_read_close(l, i, seq!['\t', '}', ',', '\n', '\n']);
            lemma_reads_back_close(l, i);
        } else {
            lemma_reads_back_entry(l, i);
        }
    }
}

/// Reading back what the exporter writes at a closing line, and whatever
/// text stands behind it.
pub proof fn lemma_read_close(l: Seq<Seq<char>>, n: int, x: Seq<char>)
    requires
        regular(l),
        0 <= n < l.len(),
        in_block(l, n),
    ensures
        closes_back(l, n, x),
    decreases n, 1nat,
{
    lemma_read_back(l, n);
    if json_pending(l, n).len() == 0 {
        lemma_closes_back_empty(l, n, x);
    } else {
        if n > 0 {
            lemma_read_back(l, n - 1);
        }
        lemma_gathered(l, n);
        lemma_closes_back_entry(l, n, x);
    }
}

/// The last line of lines that follow the grammar is a closing brace inside
/// a section.
pub proof fn lemma_last_line(l: Seq<Seq<char>>)
    requires
        regular(l),
        l.len() > 0,
    ensures
        in_block(l, l.len() - 1),
        l[l.len() - 1] == seq!['}'],
        turned(l[l.len() - 1]) == seq!['}'],
{
    let c = l.len() - 1;
    lemma_shaped(in_block(l, c), l[c]);
}

/// The end of the braced form: the comma and the two line feeds behind the
/// last section give way to the closing brace.
pub proof fn lemma_braced_end(l: Seq<Seq<char>>, head: Seq<char>)
    requires
        l.len() > 0,
        in_block(l, l.len() - 1),
        l[l.len() - 1] == seq!['}'],
        head == json_body(l, l.len() - 1) + chop(json_pending(l, l.len() - 1), 2),
    ensures
        chop(json_body(l, l.len() as int), 3) + seq!['\n', '}', '\n'] == head + seq!['\n']
            + seq!['\t', '}', '\n', '}', '\n'],
{
    let body = json_body(l, l.len() as int);
    lemma_contains_one('}', '}');
    lemma_contains_one('}', '(');
    let kept = head + seq!['\n', '\t', '}'];
    assert(body == head + seq!['\n', '\t', '}', ',', '\n', '\n']);
    assert(body =~= kept + seq![',', '\n', '\n']);
    assert(chop(body, 3) =~= kept);
    assert(kept + seq!['\n', '}', '\n'] =~= head + seq!['\n'] + seq!['\t', '}', '\n', '}', '\n']);
}

/// Reading back the whole braced form of lines that follow the grammar
/// gives those lines with their entries turned around.
pub proof fn lemma_braced_reads(l: Seq<Seq<char>>)
    requires
        regular(l),
    ensures
        read_out(false, chop(json_body(l, l.len() as int), 3) + seq!['\n', '}', '\n']) == render(
            turned_all(l),
        ),
{
    let n = l.len() as int;
    if n == 0 {
        lemma_read_bare();
        assert(chop(json_body(l, n), 3) + seq!['\n', '}', '\n'] =~= seq![
            '{',
            '\n',
            '\n',
            '}',
            '\n',
        ]);
        assert(turned_all(l) =~= Seq::<Seq<char>>::empty());
    } else {
        let c = n - 1;
        lemma_last_line(l);
        let x = seq!['\t', '}', '\n', '}', '\n'];
        lemma_read_close(l, c, x);
        lemma_braced_end(l, json_body(l, c) + chop(json_pending(l, c), 2));
        lemma_read_shut();
        lemma_turned_take(l, n);
        assert(l.take(n) =~= l);
        let before = render(turned_all(l.take(c)));
        assert(before + seq!['}', '\n'] =~= before + turned(l[c]) + seq!['\n']);
    }
}

/// Export and import are not symmetric: a document that is exported to the
/// braced form and read back from it comes back with every entry turned
/// around, the value where the name was and the name where the value was. Its
/// sections, their names and the order of the lines are kept, and one line
/// feed is added at the end.
///
/// This holds of documents whose lines follow the grammar, with plain names
/// and values.
pub proof fn law_braced_round_trip_turns_entries(doc: Seq<char>)
    requires
        regular(lines_of(doc)),
    ensures
        to_json_of(doc) is Some,
        from_json_of(to_json_of(doc)->0) == render(turned_all(lines_of(doc))) + seq!['\n'],
{
    let l = lines_of(doc);
    lemma_regular_counts(l, l.len() as int);
    assert(l.take(l.len() as int) =~= l);
    let braced = chop(json_body(l, l.len() as int), 3) + seq!['\n', '}', '\n'];
    lemma_run_from_outside(lines_of(braced), lines_of(braced).len() as int);
    lemma_braced_reads(l);
}

/// Undoing the reversal: turning the entries of a document around twice gives
/// the document again. So the entries that come back from the braced form are
/// those that went in only after they are turned around once more.
pub proof fn law_turning_twice(l: Seq<Seq<char>>)
    requires
        regular(l),
    ensures
        turned_all(turned_all(l)) == l,
{
    assert forall|i: int| 0 <= i < l.len() implies turned(turned(#[trigger] l[i])) == l[i] by {
        let line = l[i];
        lemma_shaped(in_block(l, i), line);
        if line.contains('=') {
            let name = entry_name(line);
            let val = entry_value(line);
            if !in_block(l, i) {
                let k = header_name(line);
                let at = choose|at: int| 0 <= at < line.len() && line[at] == '=';
                if 1 <= at < k.len() + 1 {
                    assert(k[at - 1] == '=');
                }
                assert(false);
            }
            if line == seq!['}'] {
                lemma_contains_one('}', '=');
            }
            assert(trim_start(val) == val);
            lemma_trim_tight(val);
            lemma_entry(val, name);
            let back = entry(val, name);
            assert(back[val.len() as int + 1] == '=');
        }
    }
    assert(turned_all(turned_all(l)) =~= l);
}

} // verus!
