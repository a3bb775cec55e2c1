//! The two other forms of a document: the bracketed form, with a section as
//! `[name]` and an entry as `name="value"`, and the braced form, one object
//! with a nested object for each section.
//!
//! The braced form gives each entry as `"value": "name"`: the value comes
//! first. Reading the braced form back does not turn the two around again.
use crate::lines::{lines_of, rows, split_lines};
use crate::model::{balanced, closes, entry, entry_name, entry_value, header_name, is_header};
use crate::scan::is_ccf;
use crate::store::TNT;
use crate::text::{
    after, append, before, chars_of, has_char, left_of, right_of, string_of, strip, trim,
    trimmed, without,
};
use vstd::prelude::*;

verus! {

/// Whether, after the first `n` lines, the scan stands inside a section of
/// any name.
pub open spec fn in_block(l: Seq<Seq<char>>, n: int) -> bool
    decreases n,
{
    if n <= 0 {
        false
    } else if is_header(l[n - 1]) {
        true
    } else {
        in_block(l, n - 1) && !closes(l[n - 1])
    }
}

/// `s` without its last `n` characters; `s` itself where it is shorter.
pub open spec fn chop(s: Seq<char>, n: int) -> Seq<char> {
    if s.len() >= n {
        s.take(s.len() - n)
    } else {
        s
    }
}

/// What a line adds to the bracketed form.
pub open spec fn toml_piece(inside: bool, line: Seq<char>) -> Seq<char> {
    if is_header(line) {
        seq!['['] + header_name(line) + seq![']', '\n']
    } else if !inside {
        Seq::empty()
    } else if closes(line) {
        seq!['\n']
    } else {
        entry_name(line) + seq!['=', '"'] + entry_value(line) + seq!['"', '\n']
    }
}

/// The bracketed form of the first `n` lines.
pub open spec fn toml_of(l: Seq<Seq<char>>, n: int) -> Seq<char>
    decreases n,
{
    if n <= 0 {
        Seq::empty()
    } else {
        toml_of(l, n - 1) + toml_piece(in_block(l, n - 1), l[n - 1])
    }
}

/// What `to_toml` gives on the document `t`: its bracketed form, or nothing
/// where it fails the integrity check.
pub open spec fn to_toml_of(t: Seq<char>) -> Option<Seq<char>> {
    let l = lines_of(t);
    if balanced(l) {
        Some(toml_of(l, l.len() as int))
    } else {
        None
    }
}

/// The line that opens a section in the braced form.
pub open spec fn json_header(line: Seq<char>) -> Seq<char> {
    seq!['\t', '"'] + header_name(line) + seq!['"', ':', ' ', '{', '\n']
}

/// The line of an entry in the braced form: the value first, then the name,
/// and a comma.
pub open spec fn json_member(line: Seq<char>) -> Seq<char> {
    seq!['\t', '\t', '"'] + entry_value(line) + seq!['"', ':', ' ', '"'] + entry_name(line)
        + seq!['"', ',', '\n']
}

/// The entries gathered after the first `n` lines and not yet written: those
/// since the last closing line.
pub open spec fn json_pending(l: Seq<Seq<char>>, n: int) -> Seq<char>
    decreases n,
{
    if n <= 0 {
        Seq::empty()
    } else if is_header(l[n - 1]) || !in_block(l, n - 1) {
        json_pending(l, n - 1)
    } else if closes(l[n - 1]) {
        Seq::empty()
    } else {
        json_pending(l, n - 1) + json_member(l[n - 1])
    }
}

/// The braced form of the first `n` lines, before its end is mended. A
/// closing line writes the gathered entries without the comma and line feed
/// of the last one.
pub open spec fn json_body(l: Seq<Seq<char>>, n: int) -> Seq<char>
    decreases n,
{
    if n <= 0 {
        seq!['{', '\n']
    } else if is_header(l[n - 1]) {
        json_body(l, n - 1) + json_header(l[n - 1])
    } else if in_block(l, n - 1) && closes(l[n - 1]) {
        json_body(l, n - 1) + chop(json_pending(l, n - 1), 2) + seq![
            '\n',
            '\t',
            '}',
            ',',
            '\n',
            '\n',
        ]
    } else {
        json_body(l, n - 1)
    }
}

/// What `to_json` gives on the document `t`: its braced form, or nothing
/// where it fails the integrity check. The last three characters of the body,
/// the comma and two line feeds behind the last section, give way to the
/// closing brace.
pub open spec fn to_json_of(t: Seq<char>) -> Option<Seq<char>> {
    let l = lines_of(t);
    if balanced(l) {
        Some(chop(json_body(l, l.len() as int), 3) + seq!['\n', '}', '\n'])
    } else {
        None
    }
}

/// A line of the bracketed form that names a section.
pub open spec fn is_toml_header(line: Seq<char>) -> bool {
    line.contains('[') && line.contains(']')
}

/// Whether one of the first `n` lines names a section.
pub open spec fn toml_begun(s: Seq<Seq<char>>, n: int) -> bool
    decreases n,
{
    if n <= 0 {
        false
    } else {
        toml_begun(s, n - 1) || is_toml_header(s[n - 1])
    }
}

/// The entry that a line `left`, separator, `right` of another form becomes.
pub open spec fn entry_from(line: Seq<char>, sep: char) -> Seq<char> {
    entry(left_of(line, sep), right_of(line, sep))
}

/// What a line of the bracketed form adds to the document. A header closes
/// the section before it, if there is one, and opens its own; any other line
/// that is not empty loses its quotes and spaces and becomes an entry.
pub open spec fn from_toml_piece(begun: bool, line: Seq<char>) -> Seq<char> {
    if is_toml_header(line) {
        (if begun {
            seq!['}', '\n']
        } else {
            Seq::empty()
        }) + seq!['('] + trim(without(line, '[', ']', ']')) + seq![')', ' ', '{', '\n']
    } else if line.len() == 0 {
        Seq::empty()
    } else {
        entry_from(trim(without(line, '"', ' ', ' ')), '=') + seq!['\n']
    }
}

/// The document made of the first `n` lines of the bracketed form.
pub open spec fn from_toml_body(s: Seq<Seq<char>>, n: int) -> Seq<char>
    decreases n,
{
    if n <= 0 {
        Seq::empty()
    } else {
        from_toml_body(s, n - 1) + from_toml_piece(toml_begun(s, n - 1), s[n - 1])
    }
}

/// The document that `from_toml` makes of the bracketed form `t`. It ends
/// with one closing brace and a line feed.
pub open spec fn from_toml_of(t: Seq<char>) -> Seq<char> {
    let s = lines_of(t);
    from_toml_body(s, s.len() as int) + seq!['}', '\n']
}

/// A line of the braced form that names a section: it holds a quote, an
/// opening brace and a colon.
pub open spec fn is_json_header(line: Seq<char>) -> bool {
    line.contains('"') && line.contains('{') && line.contains(':')
}

/// Whether, after the first `n` lines of the braced form, the scan stands
/// inside a section.
pub open spec fn json_inside(s: Seq<Seq<char>>, n: int) -> bool
    decreases n,
{
    if n <= 0 {
        false
    } else if is_json_header(s[n - 1]) {
        true
    } else {
        json_inside(s, n - 1) && !closes(s[n - 1])
    }
}

/// What a line of the braced form adds to the document.
pub open spec fn from_json_piece(inside: bool, line: Seq<char>) -> Seq<char> {
    if is_json_header(line) {
        seq!['('] + trim(without(line, '{', ':', '"')) + seq![')', ' ', '{', '\n']
    } else if !inside {
        Seq::empty()
    } else if closes(line) {
        seq!['}', '\n']
    } else if line.len() == 0 {
        Seq::empty()
    } else {
        entry_from(trim(without(line, '"', ',', ' ')), ':') + seq!['\n']
    }
}

/// The document made of the first `n` lines of the braced form.
pub open spec fn from_json_body(s: Seq<Seq<char>>, n: int) -> Seq<char>
    decreases n,
{
    if n <= 0 {
        Seq::empty()
    } else {
        from_json_body(s, n - 1) + from_json_piece(json_inside(s, n - 1), s[n - 1])
    }
}

/// The document that `from_json` makes of the braced form `t`. A line feed
/// ends it.
pub open spec fn from_json_of(t: Seq<char>) -> Seq<char> {
    let s = lines_of(t);
    from_json_body(s, s.len() as int) + seq!['\n']
}

/// The name under which the bracketed form of a document is kept: the stem
/// and `.toml`.
pub fn toml_path(stem: &str) -> (path: String)
    ensures
        path@ == stem@ + seq!['.', 't', 'o', 'm', 'l'],
{
    let mut path = chars_of(stem);
    path.push('.');
    path.push('t');
    path.push('o');
    path.push('m');
    path.push('l');
    assert(path@ =~= stem@ + seq!['.', 't', 'o', 'm', 'l']);
    string_of(&path)
}

/// The name under which the braced form of a document is kept: the stem and
/// `.json`.
pub fn json_path(stem: &str) -> (path: String)
    ensures
        path@ == stem@ + seq!['.', 'j', 's', 'o', 'n'],
{
    let mut path = chars_of(stem);
    path.push('.');
    path.push('j');
    path.push('s');
    path.push('o');
    path.push('n');
    assert(path@ =~= stem@ + seq!['.', 'j', 's', 'o', 'n']);
    string_of(&path)
}

/// Appends `(key) {` and a line feed.
fn push_opening(out: &mut Vec<char>, key: &[char])
    ensures
        final(out)@ == old(out)@ + seq!['('] + key@ + seq![')', ' ', '{', '\n'],
{
    out.push('(');
    append(out, key);
    out.push(')');
    out.push(' ');
    out.push('{');
    out.push('\n');
    assert(out@ =~= old(out)@ + seq!['('] + key@ + seq![')', ' ', '{', '\n']);
}

/// Appends the entry that `line` becomes when it is cut at its first `sep`,
/// and a line feed.
fn push_entry_from(out: &mut Vec<char>, line: &[char], sep: char)
    ensures
        final(out)@ == old(out)@ + entry_from(line@, sep) + seq!['\n'],
{
    let var = before(line, sep);
    let val = after(line, sep);
    out.push('\t');
    append(out, &var);
    out.push('=');
    append(out, &val);
    out.push('\n');
    assert(out@ =~= old(out)@ + entry_from(line@, sep) + seq!['\n']);
}

impl TNT {
    /// The bracketed form of the document, or nothing where the document
    /// fails the integrity check.
    ///
    /// Each header line gives `[name]`. Inside a section each body line is
    /// trimmed and cut at its first `=`, and gives `name="value"`; the closing
    /// line gives an empty line.
    pub fn to_toml(&self) -> (out: Option<String>)
        ensures
            match out {
                Some(s) => to_toml_of(self@) == Some(s@),
                None => to_toml_of(self@) is None,
            },
    {
        let text = chars_of(self.text());
        let lines = split_lines(&text);
        if !is_ccf(&lines) {
            return None;
        }
        let ghost l = rows(lines@);
        let mut is_key = false;
        let mut txt: Vec<char> = Vec::new();
        let mut i: usize = 0;
        while i < lines.len()
            invariant
                i <= lines.len(),
                l == rows(lines@),
                is_key == in_block(l, i as int),
                txt@ == toml_of(l, i as int),
            decreases lines.len() - i,
        {
            let line = &lines[i];
            let ghost prev = txt@;
            if has_char(line, '(') {
                let cleaned_line = strip(line, '(', ')', '{');
                let key = trimmed(&cleaned_line);
                txt.push('[');
                append(&mut txt, &key);
                txt.push(']');
                txt.push('\n');
                is_key = true;
            } else if is_key {
                if has_char(line, '}') {
                    is_key = false;
                    txt.push('\n');
                } else {
                    let fmt_val = trimmed(line);
                    let var = before(&fmt_val, '=');
                    let val = after(&fmt_val, '=');
                    append(&mut txt, &var);
                    txt.push('=');
                    txt.push('"');
                    append(&mut txt, &val);
                    txt.push('"');
                    txt.push('\n');
                }
            }
            assert(txt@ =~= prev + toml_piece(in_block(l, i as int), l[i as int]));
            i += 1;
        }
        Some(string_of(&txt))
    }

    /// The braced form of the document, or nothing where the document fails
    /// the integrity check.
    ///
    /// Each header line opens `"name": {`. Inside a section each body line is
    /// trimmed and cut at its first `=`, and gives `"value": "name"`, the value
    /// first. The closing line writes the entries gathered, without the comma
    /// behind the last, and closes the object. The comma behind the last
    /// section gives way to the brace that closes the whole.
    #[verifier::rlimit(30)]
    pub fn to_json(&self) -> (out: Option<String>)
        ensures
            match out {
                Some(s) => to_json_of(self@) == Some(s@),
                None => to_json_of(self@) is None,
            },
    {
        let text = chars_of(self.text());
        let lines = split_lines(&text);
        if !is_ccf(&lines) {
            return None;
        }
        let ghost l = rows(lines@);
        let mut txt: Vec<char> = Vec::new();
        let mut is_key = false;
        let mut val_str: Vec<char> = Vec::new();
        txt.push('{');
        txt.push('\n');
        assert(txt@ =~= seq!['{', '\n']);
        let mut i: usize = 0;
        while i < lines.len()
            invariant
                i <= lines.len(),
                l == rows(lines@),
                is_key == in_block(l, i as int),
                val_str@ == json_pending(l, i as int),
                txt@ == json_body(l, i as int),
            decreases lines.len() - i,
        {
            let line = &lines[i];
            let ghost prev = txt@;
            let ghost gathered = val_str@;
            if has_char(line, '(') {
                let cleaned_line = strip(line, '(', ')', '{');
                let key = trimmed(&cleaned_line);
                txt.push('\t');
                txt.push('"');
                append(&mut txt, &key);
                txt.push('"');
                txt.push(':');
                txt.push(' ');
                txt.push('{');
                txt.push('\n');
                is_key = true;
                assert(txt@ =~= prev + json_header(l[i as int]));
            } else if is_key {
                if has_char(line, '}') {
                    is_key = false;
                    if val_str.len() >= 2 {
                        val_str.truncate(val_str.len() - 2);
                    }
                    assert(val_str@ =~= chop(gathered, 2));
                    append(&mut txt, &val_str);
                    txt.push('\n');
                    txt.push('\t');
                    txt.push('}');
                    txt.push(',');
                    txt.push('\n');
                    txt.push('\n');
                    val_str.clear();
                    assert(txt@ =~= prev + chop(gathered, 2) + seq![
                        '\n',
                        '\t',
                        '}',
                        ',',
                        '\n',
                        '\n',
                    ]);
                } else {
                    let fmt_line = trimmed(line);
                    let var = before(&fmt_line, '=');
                    let val = after(&fmt_line, '=');
                    val_str.push('\t');
                    val_str.push('\t');
                    val_str.push('"');
                    append(&mut val_str, &val);
                    val_str.push('"');
                    val_str.push(':');
                    val_str.push(' ');
                    val_str.push('"');
                    append(&mut val_str, &var);
                    val_str.push('"');
                    val_str.push(',');
                    val_str.push('\n');
                    assert(val_str@ =~= gathered + json_member(l[i as int]));
                }
            }
            i += 1;
        }
        let ghost body = txt@;
        if txt.len() >= 3 {
            txt.truncate(txt.len() - 3);
        }
        assert(txt@ =~= chop(body, 3));
        txt.push('\n');
        txt.push('}');
        txt.push('\n');
        assert(txt@ =~= chop(body, 3) + seq!['\n', '}', '\n']);
        Some(string_of(&txt))
    }

    /// Replaces the document by the one that the bracketed form `toml`
    /// stands for. What the document held before is gone.
    pub fn from_toml(&mut self, toml: &str)
        ensures
            final(self)@ == from_toml_of(toml@),
    {
        let text = chars_of(toml);
        let lines = split_lines(&text);
        let ghost s = rows(lines@);
        let mut txt: Vec<char> = Vec::new();
        let mut is_one = false;
        let mut i: usize = 0;
        while i < lines.len()
            invariant
                i <= lines.len(),
                s == rows(lines@),
                is_one == toml_begun(s, i as int),
                txt@ == from_toml_body(s, i as int),
            decreases lines.len() - i,
        {
            let line = &lines[i];
            let ghost prev = txt@;
            if has_char(line, '[') && has_char(line, ']') {
                let cleaned_line = strip(line, '[', ']', ']');
                let key = trimmed(&cleaned_line);
                if is_one {
                    txt.push('}');
                    txt.push('\n');
                }
                push_opening(&mut txt, &key);
                is_one = true;
            } else if line.len() > 0 {
                let fmt_line = strip(line, '"', ' ', ' ');
                let fmt_line_2 = trimmed(&fmt_line);
                push_entry_from(&mut txt, &fmt_line_2, '=');
            }
            assert(txt@ =~= prev + from_toml_piece(toml_begun(s, i as int), s[i as int]));
            i += 1;
        }
        let ghost body = txt@;
        txt.push('}');
        txt.push('\n');
        assert(txt@ =~= body + seq!['}', '\n']);
        *self = TNT::connect(Some(string_of(&txt).as_str()));
    }

    /// Replaces the document by the one that the braced form `json` stands
    /// for. What the document held before is gone.
    pub fn from_json(&mut self, json: &str)
        ensures
            final(self)@ == from_json_of(json@),
    {
        let text = chars_of(json);
        let lines = split_lines(&text);
        let ghost s = rows(lines@);
        let mut txt: Vec<char> = Vec::new();
        let mut is_key = false;
        let mut i: usize = 0;
        while i < lines.len()
            invariant
                i <= lines.len(),
                s == rows(lines@),
                is_key == json_inside(s, i as int),
                txt@ == from_json_body(s, i as int),
            decreases lines.len() - i,
        {
            let line = &lines[i];
            let ghost prev = txt@;
            if has_char(line, '"') && has_char(line, '{') && has_char(line, ':') {
                let cleaned_line = strip(line, '{', ':', '"');
                let key = trimmed(&cleaned_line);
                push_opening(&mut txt, &key);
                is_key = true;
            } else if is_key {
                if has_char(line, '}') {
                    is_key = false;
                    txt.push('}');
                    txt.push('\n');
                } else if line.len() > 0 {
                    let cleaned_line = strip(line, '"', ',', ' ');
                    let var_and_val = trimmed(&cleaned_line);
                    push_entry_from(&mut txt, &var_and_val, ':');
                }
            }
            assert(txt@ =~= prev + from_json_piece(json_inside(s, i as int), s[i as int]));
            i += 1;
        }
        let ghost body = txt@;
        txt.push('\n');
        assert(txt@ =~= body + seq!['\n']);
        *self = TNT::connect(Some(string_of(&txt).as_str()));
    }
}

} // verus!
