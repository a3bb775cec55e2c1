use tnt::model::{Miss, Outcome};
use tnt::store::TNT;

#[test]
fn connect_takes_the_document_or_begins_empty() {
    assert_eq!(TNT::connect(None).text(), "");
    assert_eq!(TNT::connect(Some("(a) {\n}\n")).text(), "(a) {\n}\n");
}

#[test]
fn add_to_missing_section_appends_block_without_final_line_feed() {
    let mut store = TNT::connect(Some("(a) {\n\tx=1\n}\n"));
    assert_eq!(store.add("b", "y", "2"), Outcome::Written);
    assert_eq!(store.text(), "(a) {\n\tx=1\n}\n(b) {\n\ty=2\n}");
    assert_eq!(store.add("c", "z", "3"), Outcome::Written);
    assert_eq!(store.text(), "(a) {\n\tx=1\n}\n(b) {\n\ty=2\n}\n(c) {\n\tz=3\n}");
}

#[test]
fn add_puts_the_entry_before_the_closing_line() {
    let mut store = TNT::connect(Some("(a) {\n\tx=1\n}\n(b) {\n}\n"));
    assert_eq!(store.add("a", "y", "2"), Outcome::Written);
    assert_eq!(store.text(), "(a) {\n\tx=1\n\ty=2\n}\n(b) {\n}\n");
}

#[test]
fn add_writes_into_every_section_of_that_name() {
    let mut store = TNT::connect(Some("(a) {\n}\n(a) {\n}\n"));
    assert_eq!(store.add("a", "x", "1"), Outcome::Written);
    assert_eq!(store.text(), "(a) {\n\tx=1\n}\n(a) {\n\tx=1\n}\n");
}

#[test]
fn add_sees_what_follows_a_comma_as_listed() {
    let mut store = TNT::connect(Some("(a) {\n\tx=1,y=2\n}\n"));
    assert_eq!(store.add("a", "y", "3"), Outcome::AlreadyExists);
    assert_eq!(store.text(), "(a) {\n\tx=1,y=2\n}\n");
    assert_eq!(store.add("a", "z", "3"), Outcome::Written);
    assert_eq!(store.text(), "(a) {\n\tx=1,y=2\n\tz=3\n}\n");
}

#[test]
fn add_to_a_section_that_never_closes_rewrites_without_the_entry() {
    let mut store = TNT::connect(Some("}\n(a) {"));
    assert!(store.is_intact());
    assert_eq!(store.add("a", "x", "1"), Outcome::Written);
    assert_eq!(store.text(), "}\n(a) {\n");
}

#[test]
fn add_with_an_untrimmed_key_never_finds_its_section() {
    let mut store = TNT::connect(None);
    assert_eq!(store.add(" a ", "x", "1"), Outcome::Written);
    assert_eq!(store.text(), "( a ) {\n\tx=1\n}");
    assert_eq!(store.add(" a ", "x", "2"), Outcome::Written);
    assert_eq!(store.text(), "( a ) {\n\tx=1\n}\n( a ) {\n\tx=2\n}");
    assert_eq!(store.get("a", "x"), "1");
    assert_eq!(store.get(" a ", "x"), "NONE_VAL");
}

#[test]
fn get_gives_all_that_follows_the_first_equals_sign() {
    let mut store = TNT::connect(None);
    store.add("a", "x", "1=2");
    assert_eq!(store.text(), "(a) {\n\tx=1=2\n}");
    assert_eq!(store.get("a", "x"), "1=2");
    assert_eq!(store.get_all("a"), vec!["1=2".to_string()]);
}

#[test]
fn get_trims_the_name_it_looks_for() {
    let store = TNT::connect(Some("(a) {\n\tx=1\n}\n"));
    assert_eq!(store.get("a", "  x\t"), "1");
}

#[test]
fn get_of_an_empty_value_gives_the_empty_text() {
    let store = TNT::connect(Some("(a) {\n\tx=\n}\n"));
    assert_eq!(store.lookup("a", "x"), Ok(String::new()));
    assert_eq!(store.get("a", "x"), "");
    assert_eq!(store.get("a", "y"), "NONE_VAL");
}

#[test]
fn an_empty_value_comes_back_empty() {
    let mut store = TNT::connect(None);
    assert_eq!(store.add("k", "v", ""), Outcome::Written);
    assert_eq!(store.text(), "(k) {\n\tv=\n}");
    assert_eq!(store.get("k", "v"), "");
    assert_eq!(store.get_all("k"), vec![String::new()]);
    assert_eq!(store.add("k", "v", "later"), Outcome::AlreadyExists);
    assert_eq!(store.get("k", "v"), "");
    assert_eq!(store.delete_var("k", "v"), Outcome::Written);
    assert_eq!(store.get("k", "v"), "NONE_VAL");
}

#[test]
fn get_passes_over_lines_without_an_equals_sign() {
    let store = TNT::connect(Some("(a) {\n\tx\n\tx=1\n}\n"));
    assert_eq!(store.get("a", "x"), "1");
}

#[test]
fn lookup_tells_the_misses_apart() {
    let store = TNT::connect(Some("(a) {\n\tx=1\n}\n(b) {\n\ty=2\n"));
    assert!(!store.is_intact());
    assert_eq!(store.lookup("a", "x"), Err(Miss::IntegrityFailure));
    let store = TNT::connect(Some("}\n(a) {\n\tx=1\n}\n(b) {\n\ty=2\n"));
    assert!(store.is_intact());
    assert_eq!(store.lookup("a", "x"), Ok("1".to_string()));
    assert_eq!(store.lookup("a", "y"), Err(Miss::NotFound));
    assert_eq!(store.lookup("c", "x"), Err(Miss::NoSection));
    assert_eq!(store.lookup("b", "y"), Ok("2".to_string()));
    assert_eq!(store.lookup("b", "z"), Err(Miss::NoSection));
    assert_eq!(store.get("a", "y"), "NONE_VAL");
    assert_eq!(store.get("c", "x"), "NONE_VAL");
}

#[test]
fn the_two_fixed_texts_of_get_differ() {
    let sound = TNT::connect(Some("(a) {\n}\n"));
    let corrupt = TNT::connect(Some("(a) {\n"));
    assert_eq!(sound.get("a", "x"), "NONE_VAL");
    assert_eq!(corrupt.get("a", "x"), "Error");
    assert_ne!(sound.get("a", "x"), corrupt.get("a", "x"));
}

#[test]
fn only_the_first_section_of_a_name_is_read() {
    let store = TNT::connect(Some("(a) {\n\tx=1\n}\n(a) {\n\tx=2\n\ty=3\n}\n"));
    assert_eq!(store.get("a", "x"), "1");
    assert_eq!(store.get("a", "y"), "NONE_VAL");
    assert_eq!(store.get_all("a"), vec!["1".to_string()]);
}

#[test]
fn get_all_lists_values_in_the_order_of_the_lines() {
    let store = TNT::connect(Some("(a) {\n\tx= 1 \n\ty\n\tz=3=4\n}\n(b) {\n\tw=5\n}\n"));
    assert_eq!(
        store.get_all(" a "),
        vec!["1".to_string(), String::new(), "3=4".to_string()]
    );
    assert_eq!(store.get_all("b"), vec!["5".to_string()]);
    assert_eq!(store.get_all("c"), Vec::<String>::new());
}

#[test]
fn edit_replaces_the_line_and_no_other() {
    let mut store = TNT::connect(Some("(a) {\n  x = 1\n\ty=2\n}\n(b) {\n\tx=9\n}"));
    assert_eq!(store.edit("b", "x", "8"), Outcome::Written);
    assert_eq!(store.text(), "(a) {\n  x = 1\n\ty=2\n}\n(b) {\n\tx=8\n}\n");
    assert_eq!(store.edit("a", "y", "7"), Outcome::Written);
    assert_eq!(store.text(), "(a) {\n  x = 1\n\ty=7\n}\n(b) {\n\tx=8\n}\n");
    assert_eq!(store.edit("a", "x", "6"), Outcome::NotFound);
    assert_eq!(store.edit("a", "x ", "6"), Outcome::NotFound);
}

#[test]
fn edit_of_a_missing_variable_changes_nothing() {
    let mut store = TNT::connect(Some("(a) {\n\tx=1\n}"));
    assert_eq!(store.edit("a", "y", "2"), Outcome::NotFound);
    assert_eq!(store.edit("b", "x", "2"), Outcome::NotFound);
    assert_eq!(store.text(), "(a) {\n\tx=1\n}");
}

#[test]
fn delete_var_leaves_out_the_line_and_no_other() {
    let mut store = TNT::connect(Some("(a) {\n\tx=1\n\ty=2\n\tx=3\n}\n"));
    assert_eq!(store.delete_var("a", "x"), Outcome::Written);
    assert_eq!(store.text(), "(a) {\n\ty=2\n\tx=3\n}\n");
    assert_eq!(store.delete_var("a", "z"), Outcome::NotFound);
    assert_eq!(store.text(), "(a) {\n\ty=2\n\tx=3\n}\n");
}

#[test]
fn delete_key_drops_every_section_of_that_name() {
    let mut store =
        TNT::connect(Some("(a) {\n\tx=1\n}\n(b) {\n\ty=2\n}\n(a) {\n\tz=3\n}\ntail\n"));
    assert_eq!(store.delete_key(" a "), Outcome::Written);
    assert_eq!(store.text(), "(b) {\n\ty=2\n}\ntail\n");
}

#[test]
fn delete_key_of_a_missing_section_leaves_the_text_untouched() {
    let mut store = TNT::connect(Some("(a) {\r\n\tx=1\r\n}"));
    assert_eq!(store.delete_key("b"), Outcome::Untouched);
    assert_eq!(store.text(), "(a) {\r\n\tx=1\r\n}");
}

#[test]
fn clear_empties_the_document_whatever_it_holds() {
    let mut store = TNT::connect(Some("(a) {\n{{{"));
    store.clear();
    assert_eq!(store.text(), "");
    assert!(store.is_intact());
}

#[test]
fn carriage_returns_before_line_feeds_are_not_part_of_the_lines() {
    let mut store = TNT::connect(Some("(a) {\r\n\tx=1\r\n}\r\n"));
    assert_eq!(store.get("a", "x"), "1");
    assert_eq!(store.edit("a", "x", "2"), Outcome::Written);
    assert_eq!(store.text(), "(a) {\n\tx=2\n}\n");
}

#[test]
fn integrity_counts_lines_not_characters() {
    assert!(TNT::connect(Some("((\n)\n")).is_intact());
    assert!(!TNT::connect(Some("(\n(\n)\n")).is_intact());
    assert!(TNT::connect(Some("{}\n")).is_intact());
    assert!(!TNT::connect(Some("{\n{\n}}\n")).is_intact());
    assert!(TNT::connect(Some("")).is_intact());
}

#[test]
fn names_and_values_keep_characters_of_many_bytes() {
    let mut store = TNT::connect(None);
    assert_eq!(store.add("ключ", "имя", "значение ✓"), Outcome::Written);
    assert_eq!(store.text(), "(ключ) {\n\tимя=значение ✓\n}");
    assert_eq!(store.get("ключ", "имя"), "значение ✓");
}
