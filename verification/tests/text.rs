use std::io::BufRead;
use tnt::lines::split_lines;
use tnt::scan::{find_section, get_var_line, is_ccf, is_var, names_fragment, opens_line};
use tnt::text::{
    after, append, append_str, before, chars_of, find_char, find_char_from, has_char,
    is_space_char, same, slice_of, string_of, strip, trimmed,
};

fn chars(s: &str) -> Vec<char> {
    s.chars().collect()
}

fn rows_of(lines: &[&str]) -> Vec<Vec<char>> {
    lines.iter().map(|l| chars(l)).collect()
}

#[test]
fn white_space_is_what_the_standard_library_calls_white_space() {
    for n in 0..=0x10ffffu32 {
        if let Some(c) = char::from_u32(n) {
            assert_eq!(is_space_char(c), c.is_whitespace(), "U+{:04X}", n);
        }
    }
}

#[test]
fn strings_and_characters_convert_both_ways() {
    assert_eq!(chars_of("aß✓"), vec!['a', 'ß', '✓']);
    assert_eq!(string_of(&['a', 'ß', '✓']), "aß✓");
    assert_eq!(string_of(&[]), "");
    assert_eq!(string_of(&chars_of("(k) {\n\tv=1\n}")), "(k) {\n\tv=1\n}");
}

#[test]
fn trimmed_is_the_trimmed_form_of_the_standard_library() {
    for s in ["", " ", "a", " a", "a ", "\t a b \r\n", "\u{a0}x\u{3000}", "  \u{2003}", "x  y"] {
        assert_eq!(string_of(&trimmed(&chars(s))), s.trim(), "{:?}", s);
    }
}

#[test]
fn strip_takes_out_every_occurrence() {
    assert_eq!(string_of(&strip(&chars("(a(b)) {{x"), '(', ')', '{')), "ab x");
    assert_eq!(string_of(&strip(&chars("\"a b\" = \"c\""), '"', ' ', ' ')), "ab=c");
    assert_eq!(string_of(&strip(&chars(""), 'a', 'b', 'c')), "");
}

#[test]
fn before_and_after_cut_at_the_first_occurrence() {
    assert_eq!(string_of(&before(&chars("a=b=c"), '=')), "a");
    assert_eq!(string_of(&after(&chars("a=b=c"), '=')), "b=c");
    assert_eq!(string_of(&before(&chars("abc"), '=')), "abc");
    assert_eq!(string_of(&after(&chars("abc"), '=')), "");
    assert_eq!(string_of(&before(&chars("=x"), '=')), "");
    assert_eq!(string_of(&after(&chars("x="), '=')), "");
}

#[test]
fn finding_and_comparing_characters() {
    assert_eq!(find_char(&chars("abcabc"), 'c'), 2);
    assert_eq!(find_char(&chars("abcabc"), 'x'), 6);
    assert_eq!(find_char_from(&chars("abcabc"), 'c', 3), 5);
    assert_eq!(find_char_from(&chars("abcabc"), 'a', 6), 6);
    assert!(has_char(&chars("a}b"), '}'));
    assert!(!has_char(&chars("ab"), '}'));
    assert!(same(&chars("ab"), &chars("ab")));
    assert!(!same(&chars("ab"), &chars("ac")));
    assert!(!same(&chars("ab"), &chars("abc")));
    assert_eq!(slice_of(&chars("abcdef"), 2, 4), chars("cd"));
    let mut out = chars("x");
    append(&mut out, &chars("yz"));
    append_str(&mut out, "✓!");
    assert_eq!(out, chars("xyz✓!"));
}

#[test]
fn split_lines_reads_lines_as_a_buffered_reader_does() {
    for text in [
        "",
        "\n",
        "a",
        "a\n",
        "a\nb",
        "a\n\nb\n",
        "a\r\nb\r\n",
        "a\r",
        "a\r\r\n",
        "\r\n",
        "(k) {\n\tv=1\n}",
        "\n\n\n",
    ] {
        let expected: Vec<String> =
            std::io::Cursor::new(text.as_bytes()).lines().map(|l| l.unwrap()).collect();
        let got: Vec<String> =
            split_lines(&chars(text)).iter().map(|l| string_of(l)).collect();
        assert_eq!(got, expected, "{:?}", text);
    }
}

#[test]
fn the_integrity_check_counts_each_delimiter_by_lines() {
    assert!(is_ccf(&rows_of(&[])));
    assert!(is_ccf(&rows_of(&["(a) {", "\tx=1", "}"])));
    assert!(!is_ccf(&rows_of(&["(a) {", "\tx=1"])));
    assert!(!is_ccf(&rows_of(&["(a {", "}"])));
    assert!(is_ccf(&rows_of(&["((a) {{", "}"])));
    assert!(is_ccf(&rows_of(&["}", ")", "(", "{"])));
}

#[test]
fn a_header_opens_the_section_it_names() {
    assert!(opens_line(&chars("(db) {"), &chars("db")));
    assert!(opens_line(&chars("  ( db )  {  "), &chars("db")));
    assert!(opens_line(&chars("(d(b"), &chars("db")));
    assert!(!opens_line(&chars("(db) {"), &chars("d")));
    assert!(!opens_line(&chars("db {"), &chars("db")));
    assert!(!opens_line(&chars("(db) {"), &chars(" db ")));
    let lines = rows_of(&["x", "(a) {", "}", "(b) {", "(a) {"]);
    assert_eq!(find_section(&lines, &chars("a"), 0), 1);
    assert_eq!(find_section(&lines, &chars("a"), 2), 4);
    assert_eq!(find_section(&lines, &chars("b"), 0), 3);
    assert_eq!(find_section(&lines, &chars("c"), 0), 5);
}

#[test]
fn the_line_of_a_variable_is_the_first_of_its_name_in_the_first_section() {
    let lines = rows_of(&["(a) {", "\tx=1", "  y = 2", "\ty=3", "z", "}", "(a) {", "\tw=4", "}"]);
    assert_eq!(get_var_line(&lines, &chars("a"), &chars("x")), Some(1));
    assert_eq!(get_var_line(&lines, &chars("a"), &chars(" x ")), Some(1));
    assert_eq!(get_var_line(&lines, &chars("a"), &chars("y")), Some(3));
    assert_eq!(get_var_line(&lines, &chars("a"), &chars("y ")), Some(3));
    assert_eq!(get_var_line(&lines, &chars("a"), &chars("z")), Some(4));
    assert_eq!(get_var_line(&lines, &chars("a"), &chars("w")), None);
    assert_eq!(get_var_line(&lines, &chars("b"), &chars("x")), None);
    assert_eq!(get_var_line(&lines, &chars(" a "), &chars("x")), None);
}

#[test]
fn a_variable_is_listed_by_any_fragment_between_commas() {
    let lines = rows_of(&["(a) {", "\tx=1,y=2", "", "\tz", "}", "(a) {", "\tw=4", "}"]);
    assert!(is_var(&lines, &chars("a"), &chars("x")));
    assert!(is_var(&lines, &chars(" a "), &chars(" y ")));
    assert!(is_var(&lines, &chars("a"), &chars("z")));
    assert!(!is_var(&lines, &chars("a"), &chars("w")));
    assert!(!is_var(&lines, &chars("a"), &chars("")));
    assert!(!is_var(&lines, &chars("a"), &chars("x=1")));
    assert!(!is_var(&lines, &chars("b"), &chars("x")));
    assert!(names_fragment(&chars("a=1,b=2,"), &chars("b")));
    assert!(names_fragment(&chars("a=1,,b"), &chars("b")));
    assert!(!names_fragment(&chars("a=1,b=2,"), &chars("1")));
    assert!(!names_fragment(&chars(",,"), &chars("")));
    assert!(names_fragment(&chars("=1,"), &chars("")));
}
