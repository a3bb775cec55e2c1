//! The store: one document, and the operations that read and rewrite it.
//!
//! The store keeps nothing but the text of its document. Every operation
//! takes the lines of that text anew.
use crate::lines::{lemma_render_push, lines_of, render, rows, split_lines, texts};
use crate::model::{
    add_outcome, add_rows, add_text, armed, balanced, block, change_outcome, delete_key_outcome,
    delete_key_text, delete_var_text, edit_text, ending, entry, gains, get_all_of, get_of,
    intact, kept_rows, lemma_first_row, lemma_first_row_is, listed, lookup_of, opening, opens,
    reading, section_start, values_between, within, Miss, Outcome,
};
use crate::scan::{find_section, get_var_line, is_ccf, is_var, opens_line};
use crate::text::{after, append, before, chars_of, has_char, same, string_of, trim, trimmed};
use vstd::prelude::*;
use vstd::string::StringExecFns;

verus! {

/// A store: the text of its document.
pub struct TNT {
    text: String,
}

impl View for TNT {
    type V = Seq<char>;

    closed spec fn view(&self) -> Seq<char> {
        self.text@
    }
}

/// Appends the body line that gives `var` the value `val`, without a line
/// feed.
fn push_entry(out: &mut Vec<char>, var: &[char], val: &[char])
    ensures
        final(out)@ == old(out)@ + entry(var@, val@),
{
    out.push('\t');
    append(out, var);
    out.push('=');
    append(out, val);
    assert(out@ =~= old(out)@ + entry(var@, val@));
}

/// Appends a new section `key` that holds the one variable `var`.
fn push_block(out: &mut Vec<char>, key: &[char], var: &[char], val: &[char])
    ensures
        final(out)@ == old(out)@ + block(key@, var@, val@),
{
    out.push('(');
    append(out, key);
    out.push(')');
    out.push(' ');
    out.push('{');
    out.push('\n');
    push_entry(out, var, val);
    out.push('\n');
    out.push('}');
    assert(out@ =~= old(out)@ + block(key@, var@, val@));
}

impl TNT {
    /// The store of a document. Where there is no document yet, the store
    /// begins with an empty one.
    pub fn connect(existing: Option<&str>) -> (store: TNT)
        ensures
            store@ == match existing {
                Some(t) => t@,
                None => Seq::<char>::empty(),
            },
    {
        match existing {
            Some(t) => TNT { text: String::from_str(t) },
            None => TNT { text: String::new() },
        }
    }

    /// The text of the document.
    pub fn text(&self) -> (t: &str)
        ensures
            t@ == self@,
    {
        self.text.as_str()
    }

    /// Empties the document. Nothing is checked first.
    pub fn clear(&mut self)
        ensures
            final(self)@ == Seq::<char>::empty(),
    {
        self.text = String::new();
    }

    /// Adds the variable `var` with the value `val` to the section `key`.
    ///
    /// A document that fails the integrity check is left as it is. So is one
    /// in which a section `key` closes and its first section lists `var`
    /// already. Otherwise the document is rewritten: the new entry goes in
    /// before each closing line that follows an opening of `key`, and where no
    /// line opens `key`, a new section is appended at the end.
    pub fn add(&mut self, key: &str, var: &str, val: &str) -> (outcome: Outcome)
        ensures
            outcome == add_outcome(old(self)@, key@, var@),
            final(self)@ == add_text(old(self)@, key@, var@, val@),
    {
        let text = chars_of(self.text.as_str());
        let lines = split_lines(&text);
        if !is_ccf(&lines) {
            return Outcome::IntegrityFailure;
        }
        let key_str = chars_of(key);
        let var_str = chars_of(var);
        let val_str = chars_of(val);
        let ghost l = rows(lines@);
        let ghost e = entry(var@, val@);
        let mut is_found = false;
        let mut is_not_key = true;
        let mut new_text: Vec<char> = Vec::new();
        let mut i: usize = 0;
        while i < lines.len()
            invariant
                i <= lines.len(),
                l == rows(lines@),
                l == lines_of(old(self)@),
                self@ == old(self)@,
                balanced(l),
                e == entry(var@, val@),
                key_str@ == key@,
                var_str@ == var@,
                val_str@ == val@,
                is_found == armed(l, key@, i as int),
                is_not_key <==> forall|j: int| 0 <= j < i ==> !opens(#[trigger] l[j], key@),
                is_not_key ==> !is_found,
                is_not_key ==> add_rows(l, key@, e, i as int) == l.take(i as int),
                new_text@ == render(add_rows(l, key@, e, i as int)),
                forall|j: int|
                    0 <= j < i && #[trigger] gains(l, key@, j) ==> !listed(
                        l,
                        trim(key@),
                        trim(var@),
                    ),
            decreases lines.len() - i,
        {
            let line = &lines[i];
            let ghost rows_before = add_rows(l, key@, e, i as int);
            if opens_line(line, &key_str) {
                is_found = true;
                is_not_key = false;
            }
            if has_char(line, '}') && is_found {
                let is_val = is_var(&lines, &key_str, &var_str);
                if is_val {
                    assert(gains(l, key@, i as int));
                    return Outcome::AlreadyExists;
                }
                push_entry(&mut new_text, &var_str, &val_str);
                new_text.push('\n');
                is_found = false;
                proof {
                    lemma_render_push(rows_before, e);
                    assert(new_text@ =~= render(rows_before.push(e)));
                }
            }
            append(&mut new_text, line);
            new_text.push('\n');
            proof {
                let mid = if gains(l, key@, i as int) {
                    rows_before.push(e)
                } else {
                    rows_before
                };
                lemma_render_push(mid, l[i as int]);
                assert(new_text@ =~= render(mid.push(l[i as int])));
                if is_not_key {
                    assert(l.take(i + 1) =~= l.take(i as int).push(l[i as int]));
                }
            }
            i += 1;
        }
        proof {
            assert(l.take(l.len() as int) =~= l);
            if is_not_key {
                lemma_first_row_is(l, opening(key@), 0, l.len() as int);
            } else {
                lemma_first_row(l, opening(key@), 0);
            }
        }
        if is_not_key {
            push_block(&mut new_text, &key_str, &var_str, &val_str);
        }
        self.text = string_of(&new_text);
        Outcome::Written
    }

    /// Looks the variable `var` up in the first section `key`: the value of
    /// the first body line that gives `var`, trimmed, a value, or why there is
    /// none.
    pub fn lookup(&self, key: &str, var: &str) -> (found: Result<String, Miss>)
        ensures
            match found {
                Ok(v) => lookup_of(lines_of(self@), key@, trim(var@)) == Ok::<Seq<char>, Miss>(v@),
                Err(m) => lookup_of(lines_of(self@), key@, trim(var@)) == Err::<Seq<char>, Miss>(
                    m,
                ),
            },
    {
        let text = chars_of(self.text.as_str());
        let lines = split_lines(&text);
        if !is_ccf(&lines) {
            return Err(Miss::IntegrityFailure);
        }
        let key_str = chars_of(key);
        let var_chars = chars_of(var);
        let name = trimmed(&var_chars);
        let start = find_section(&lines, &key_str, 0);
        if start >= lines.len() {
            return Err(Miss::NoSection);
        }
        let ghost l = rows(lines@);
        let ghost stop = reading(key@, name@);
        let mut i: usize = start + 1;
        while i < lines.len()
            invariant
                start + 1 <= i <= lines.len(),
                l == rows(lines@),
                l == lines_of(self@),
                balanced(l),
                stop == reading(key@, name@),
                name@ == trim(var@),
                key_str@ == key@,
                start == section_start(l, key@),
                forall|j: int| start + 1 <= j < i ==> !stop(#[trigger] l[j]),
            decreases lines.len() - i,
        {
            let line = &lines[i];
            if !opens_line(line, &key_str) {
                if has_char(line, '}') {
                    proof {
                        lemma_first_row_is(l, stop, start + 1, i as int);
                    }
                    return Err(Miss::NotFound);
                }
                let fmt_line = trimmed(line);
                if has_char(&fmt_line, '=') {
                    let line_name = before(&fmt_line, '=');
                    if same(&line_name, &name) {
                        let val = after(&fmt_line, '=');
                        proof {
                            lemma_first_row_is(l, stop, start + 1, i as int);
                        }
                        return Ok(string_of(&val));
                    }
                }
            }
            i += 1;
        }
        proof {
            lemma_first_row_is(l, stop, start + 1, i as int);
        }
        Err(Miss::NoSection)
    }

    /// The value of the variable `var` in the first section `key`: what
    /// stands after the first `=` of its line, be it empty. Where no line
    /// gives the variable a value the result is the fixed text `NONE_VAL`, and
    /// where the document fails the integrity check the fixed text `Error`.
    pub fn get(&self, key: &str, var: &str) -> (value: String)
        ensures
            value@ == get_of(self@, key@, var@),
    {
        match self.lookup(key, var) {
            Ok(v) => v,
            Err(Miss::IntegrityFailure) => String::from_str("Error"),
            Err(_) => String::from_str("NONE_VAL"),
        }
    }
}

impl TNT {
    /// The integrity check: whether the delimiters of the document are in
    /// balance.
    pub fn is_intact(&self) -> (good: bool)
        ensures
            good == intact(self@),
    {
        let text = chars_of(self.text.as_str());
        let lines = split_lines(&text);
        is_ccf(&lines)
    }

    /// Gives the variable `var` of the section `key` the value `new_val`.
    ///
    /// A document that fails the integrity check, or in which the variable is
    /// not found, is left as it is. Otherwise the document is rewritten with
    /// the line of the variable replaced, and every other line as it was.
    pub fn edit(&mut self, key: &str, var: &str, new_val: &str) -> (outcome: Outcome)
        ensures
            outcome == change_outcome(old(self)@, key@, var@),
            final(self)@ == edit_text(old(self)@, key@, var@, new_val@),
    {
        let text = chars_of(self.text.as_str());
        let lines = split_lines(&text);
        if !is_ccf(&lines) {
            return Outcome::IntegrityFailure;
        }
        let key_str = chars_of(key);
        let var_str = chars_of(var);
        let val_str = chars_of(new_val);
        let pos = match get_var_line(&lines, &key_str, &var_str) {
            Some(pos) => pos,
            None => {
                return Outcome::NotFound;
            },
        };
        let ghost l = rows(lines@);
        let ghost m = l.update(pos as int, entry(var@, new_val@));
        let mut txt: Vec<char> = Vec::new();
        let mut i: usize = 0;
        while i < lines.len()
            invariant
                i <= lines.len(),
                pos < lines.len(),
                l == rows(lines@),
                m == l.update(pos as int, entry(var@, new_val@)),
                var_str@ == var@,
                val_str@ == new_val@,
                txt@ == render(m.take(i as int)),
            decreases lines.len() - i,
        {
            let ghost before_line = txt@;
            if i == pos {
                push_entry(&mut txt, &var_str, &val_str);
            } else {
                append(&mut txt, &lines[i]);
            }
            txt.push('\n');
            proof {
                assert(m.take(i + 1) =~= m.take(i as int).push(m[i as int]));
                lemma_render_push(m.take(i as int), m[i as int]);
                assert(txt@ =~= before_line + m[i as int] + seq!['\n']);
            }
            i += 1;
        }
        assert(m.take(m.len() as int) =~= m);
        self.text = string_of(&txt);
        Outcome::Written
    }

    /// Deletes the variable `var` from the section `key`.
    ///
    /// A document that fails the integrity check, or in which the variable is
    /// not found, is left as it is. Otherwise the document is rewritten
    /// without the line of the variable.
    pub fn delete_var(&mut self, key: &str, var: &str) -> (outcome: Outcome)
        ensures
            outcome == change_outcome(old(self)@, key@, var@),
            final(self)@ == delete_var_text(old(self)@, key@, var@),
    {
        let text = chars_of(self.text.as_str());
        let lines = split_lines(&text);
        if !is_ccf(&lines) {
            return Outcome::IntegrityFailure;
        }
        let key_str = chars_of(key);
        let var_str = chars_of(var);
        let var_del_line = match get_var_line(&lines, &key_str, &var_str) {
            Some(pos) => pos,
            None => {
                return Outcome::NotFound;
            },
        };
        let ghost l = rows(lines@);
        let ghost m = l.remove(var_del_line as int);
        let mut txt: Vec<char> = Vec::new();
        let mut i: usize = 0;
        while i < lines.len()
            invariant
                i <= lines.len(),
                var_del_line < lines.len(),
                l == rows(lines@),
                m == l.remove(var_del_line as int),
                txt@ == render(
                    m.take(
                        if i <= var_del_line {
                            i as int
                        } else {
                            i - 1
                        },
                    ),
                ),
            decreases lines.len() - i,
        {
            if i != var_del_line {
                let ghost before_line = txt@;
                let ghost n = if i < var_del_line {
                    i as int
                } else {
                    i - 1
                };
                append(&mut txt, &lines[i]);
                txt.push('\n');
                proof {
                    assert(m[n] == l[i as int]);
                    assert(m.take(n + 1) =~= m.take(n).push(l[i as int]));
                    lemma_render_push(m.take(n), l[i as int]);
                    assert(txt@ =~= before_line + l[i as int] + seq!['\n']);
                }
            }
            i += 1;
        }
        assert(m.take(m.len() as int) =~= m);
        self.text = string_of(&txt);
        Outcome::Written
    }

    /// Deletes every section `key`, trimmed, with all that it holds.
    ///
    /// A document that fails the integrity check, or in which no line opens
    /// such a section, is left as it is. Otherwise the document is rewritten
    /// without the lines from each opening of `key` to the line that closes
    /// it.
    pub fn delete_key(&mut self, key: &str) -> (outcome: Outcome)
        ensures
            outcome == delete_key_outcome(old(self)@, key@),
            final(self)@ == delete_key_text(old(self)@, key@),
    {
        let text = chars_of(self.text.as_str());
        let lines = split_lines(&text);
        if !is_ccf(&lines) {
            return Outcome::IntegrityFailure;
        }
        let key_chars = chars_of(key);
        let k = trimmed(&key_chars);
        let ghost l = rows(lines@);
        let mut txt: Vec<char> = Vec::new();
        let mut is_found_key = false;
        let mut is_key = false;
        let mut i: usize = 0;
        while i < lines.len()
            invariant
                i <= lines.len(),
                l == rows(lines@),
                k@ == trim(key@),
                is_key == within(l, k@, i as int),
                !is_found_key <==> forall|j: int| 0 <= j < i ==> !opens(#[trigger] l[j], k@),
                txt@ == render(kept_rows(l, k@, i as int)),
            decreases lines.len() - i,
        {
            let line = &lines[i];
            if opens_line(line, &k) {
                is_key = true;
                is_found_key = true;
            } else if is_key {
                if has_char(line, '}') {
                    is_key = false;
                }
            } else {
                let ghost before_line = txt@;
                append(&mut txt, line);
                txt.push('\n');
                proof {
                    lemma_render_push(kept_rows(l, k@, i as int), l[i as int]);
                    assert(txt@ =~= before_line + l[i as int] + seq!['\n']);
                }
            }
            i += 1;
        }
        proof {
            if is_found_key {
                lemma_first_row(l, opening(k@), 0);
            } else {
                lemma_first_row_is(l, opening(k@), 0, l.len() as int);
            }
        }
        if is_found_key {
            self.text = string_of(&txt);
            Outcome::Written
        } else {
            Outcome::Untouched
        }
    }

    /// The values of the first section `key`, trimmed, in the order of their
    /// lines: for each body line what stands after its first `=`, trimmed. A
    /// document that fails the integrity check gives one empty text.
    pub fn get_all(&self, key: &str) -> (all_val: Vec<String>)
        ensures
            texts(all_val@) == get_all_of(self@, key@),
    {
        let text = chars_of(self.text.as_str());
        let lines = split_lines(&text);
        let mut all_val: Vec<String> = Vec::new();
        if !is_ccf(&lines) {
            all_val.push(String::new());
            assert(texts(all_val@) =~= seq![Seq::<char>::empty()]);
            return all_val;
        }
        let key_chars = chars_of(key);
        let k = trimmed(&key_chars);
        let start = find_section(&lines, &k, 0);
        let ghost l = rows(lines@);
        assert(texts(all_val@) =~= Seq::<Seq<char>>::empty());
        if start < lines.len() {
            let mut i: usize = start + 1;
            let mut closed = false;
            while i < lines.len() && !closed
                invariant
                    start + 1 <= i <= lines.len(),
                    l == rows(lines@),
                    forall|j: int| start + 1 <= j < i ==> !ending(k@)(#[trigger] l[j]),
                    closed ==> i < lines.len() && ending(k@)(l[i as int]),
                    texts(all_val@) == values_between(l, k@, start + 1, i as int),
                decreases lines.len() - i + if closed { 0int } else { 1int },
            {
                let line = &lines[i];
                let opening_again = opens_line(line, &k);
                if !opening_again && has_char(line, '}') {
                    closed = true;
                } else {
                    if !opening_again {
                        let fmt_line = after(line, '=');
                        let val_fmt = trimmed(&fmt_line);
                        let value = string_of(&val_fmt);
                        assert(texts(all_val@.push(value)) =~= texts(all_val@).push(value@));
                        all_val.push(value);
                    }
                    i += 1;
                }
            }
            proof {
                lemma_first_row_is(l, ending(k@), start + 1, i as int);
            }
        }
        all_val
    }
}

} // verus!
