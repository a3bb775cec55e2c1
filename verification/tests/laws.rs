use tnt::model::Outcome;
use tnt::store::TNT;

#[test]
fn round_trip_add_then_get() {
    let mut store = TNT::connect(Some("(other) {\n\tx=1\n}\n"));
    assert_eq!(store.add("db", "host", "local host = here"), Outcome::Written);
    assert_eq!(store.get("db", "host"), "local host = here");
    assert_eq!(store.add("other", "y", "2"), Outcome::Written);
    assert_eq!(store.get("other", "y"), "2");
    assert_eq!(store.get("other", "x"), "1");
}

#[test]
fn duplicate_add_keeps_first_value() {
    let mut store = TNT::connect(None);
    assert_eq!(store.add("k", "v", "first"), Outcome::Written);
    let before = store.text().to_string();
    assert_eq!(store.add("k", "v", "second"), Outcome::AlreadyExists);
    assert_eq!(store.text(), before);
    assert_eq!(store.get("k", "v"), "first");
}

#[test]
fn delete_then_get_is_not_found() {
    let mut store = TNT::connect(None);
    assert_eq!(store.add("k", "v", "val"), Outcome::Written);
    assert_eq!(store.delete_var("k", "v"), Outcome::Written);
    assert_eq!(store.get("k", "v"), "NONE_VAL");
    assert_eq!(store.text(), "(k) {\n}\n");
}

#[test]
fn delete_key_removes_all_members() {
    let mut store = TNT::connect(None);
    assert_eq!(store.add("k", "a", 1.to_string().as_str()), Outcome::Written);
    assert_eq!(store.add("k", "b", 2.to_string().as_str()), Outcome::Written);
    assert_eq!(store.get_all("k"), vec!["1".to_string(), "2".to_string()]);
    assert_eq!(store.delete_key("k"), Outcome::Written);
    assert_eq!(store.get_all("k"), Vec::<String>::new());
    assert_eq!(store.text(), "");
}

#[test]
fn integrity_gate_leaves_document_unchanged() {
    let corrupt = "(db) {\n\thost=localhost\n}\n{\n";
    let mut store = TNT::connect(Some(corrupt));
    assert!(!store.is_intact());
    assert_eq!(store.add("db", "port", "5432"), Outcome::IntegrityFailure);
    assert_eq!(store.text(), corrupt);
    assert_eq!(store.add("new", "port", "5432"), Outcome::IntegrityFailure);
    assert_eq!(store.text(), corrupt);
    assert_eq!(store.edit("db", "host", "other"), Outcome::IntegrityFailure);
    assert_eq!(store.text(), corrupt);
    assert_eq!(store.delete_var("db", "host"), Outcome::IntegrityFailure);
    assert_eq!(store.text(), corrupt);
    assert_eq!(store.delete_key("db"), Outcome::IntegrityFailure);
    assert_eq!(store.text(), corrupt);
    assert_eq!(store.to_toml(), None);
    assert_eq!(store.to_json(), None);
    assert_eq!(store.get("db", "host"), "Error");
    assert_eq!(store.get_all("db"), vec![String::new()]);
    assert_eq!(store.text(), corrupt);
}

#[test]
fn braced_round_trip_swaps_names_and_values() {
    let mut store = TNT::connect(None);
    store.add("db", "host", "localhost");
    store.add("db", "port", "5432");
    let braced = store.to_json().unwrap();
    let mut back = TNT::connect(None);
    back.from_json(&braced);
    assert_eq!(back.text(), "(db) {\n\tlocalhost=host\n\t5432=port\n}\n\n");
    assert_eq!(back.get("db", "localhost"), "host");
    assert_eq!(back.get("db", "5432"), "port");
    assert_eq!(back.get("db", "host"), "NONE_VAL");
    // Undoing the reversal by hand brings the entries back.
    let mut undone = TNT::connect(None);
    for value in store.get_all("db") {
        let name = back.get("db", &value);
        undone.add("db", &name, &value);
    }
    assert_eq!(undone.get("db", "host"), "localhost");
    assert_eq!(undone.get("db", "port"), "5432");
    assert_eq!(undone.get_all("db"), store.get_all("db"));
}

#[test]
fn bracketed_round_trip_keeps_names_and_values() {
    let mut store = TNT::connect(None);
    store.add("db", "host", "localhost");
    store.add("db", "port", "5432");
    store.add("web", "root", "/srv");
    let bracketed = store.to_toml().unwrap();
    let mut back = TNT::connect(Some("(old) {\n\tgone=1\n}\n"));
    back.from_toml(&bracketed);
    assert_eq!(back.text(), "(db) {\n\thost=localhost\n\tport=5432\n}\n(web) {\n\troot=/srv\n}\n");
    assert_eq!(back.get("db", "host"), "localhost");
    assert_eq!(back.get("db", "port"), "5432");
    assert_eq!(back.get("web", "root"), "/srv");
    assert_eq!(back.get("old", "gone"), "NONE_VAL");
}

#[test]
fn delete_var_of_any_document_then_get_is_not_found() {
    let text = "(a) {\n\tx=1\n\ty=2\n}\n(b) {\n\tx=3\n}\n";
    let mut store = TNT::connect(Some(text));
    assert_eq!(store.delete_var("a", "x"), Outcome::Written);
    assert!(store.is_intact());
    assert_eq!(store.get("a", "x"), "NONE_VAL");
    assert_ne!(store.get("a", "x"), "Error");
    // every other variable is read as before
    assert_eq!(store.get("a", "y"), "2");
    assert_eq!(store.get("b", "x"), "3");
    assert_eq!(store.get("b", "y"), "NONE_VAL");
}

#[test]
fn delete_var_of_a_line_with_a_delimiter_breaks_the_integrity() {
    let mut store = TNT::connect(Some("(a) {\n\tx=(\n}\n)\n"));
    assert!(store.is_intact());
    assert_eq!(store.delete_var("a", "x"), Outcome::Written);
    assert_eq!(store.text(), "(a) {\n}\n)\n");
    assert_eq!(store.get("a", "x"), "Error");
}

#[test]
fn delete_var_leaves_a_second_line_of_the_name_to_be_read() {
    let mut store = TNT::connect(Some("(a) {\n\tx=1\n\tx=2\n}\n"));
    assert_eq!(store.delete_var("a", "x"), Outcome::Written);
    assert_eq!(store.get("a", "x"), "2");
}
