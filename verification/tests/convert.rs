use tnt::convert::{json_path, toml_path};
use tnt::store::TNT;

#[test]
fn the_other_forms_are_kept_under_the_stem_and_an_ending() {
    assert_eq!(toml_path("backup"), "backup.toml");
    assert_eq!(json_path("dir/backup"), "dir/backup.json");
    assert_eq!(toml_path(""), ".toml");
}

#[test]
fn to_toml_writes_headers_entries_and_empty_lines() {
    let store = TNT::connect(Some("(a) {\n\tx=1\n  y = 2 \n}\nloose\n(b) {\n\tz\n\tw=3=4\n}\n"));
    assert_eq!(
        store.to_toml().unwrap(),
        "[a]\nx=\"1\"\ny =\" 2\"\n\n[b]\nz=\"\"\nw=\"3=4\"\n\n"
    );
    assert_eq!(TNT::connect(None).to_toml().unwrap(), "");
}

#[test]
fn to_json_writes_the_value_before_the_name() {
    let store = TNT::connect(Some("(a) {\n\tx=1\n}\n(b) {\n\ty=2\n\tz=3\n}\n"));
    assert_eq!(
        store.to_json().unwrap(),
        "{\n\t\"a\": {\n\t\t\"1\": \"x\"\n\t},\n\n\t\"b\": {\n\t\t\"2\": \"y\",\n\t\t\"3\": \"z\"\n\t}\n}\n"
    );
}

#[test]
fn to_json_of_sections_without_entries_and_of_no_sections() {
    assert_eq!(
        TNT::connect(Some("(a) {\n}\n")).to_json().unwrap(),
        "{\n\t\"a\": {\n\n\t}\n}\n"
    );
    assert_eq!(TNT::connect(None).to_json().unwrap(), "{\n\n}\n");
}

#[test]
fn to_json_cuts_between_characters_of_many_bytes() {
    let store = TNT::connect(Some("(ключ) {\n\tимя=значение\n}\n"));
    assert_eq!(
        store.to_json().unwrap(),
        "{\n\t\"ключ\": {\n\t\t\"значение\": \"имя\"\n\t}\n}\n"
    );
}

#[test]
fn from_toml_closes_each_section_before_the_next() {
    let mut store = TNT::connect(Some("(old) {\n}\n"));
    store.from_toml("[a]\nx=\"1\"\n\n[ b ]\ny = \"2 3\"\nz\n");
    assert_eq!(store.text(), "(a) {\n\tx=1\n}\n(b) {\n\ty=23\n\tz=\n}\n");
    store.from_toml("");
    assert_eq!(store.text(), "}\n");
    store.from_toml("x=1=2\n");
    assert_eq!(store.text(), "\tx=1=2\n}\n");
}

#[test]
fn from_json_reads_sections_and_entries_as_they_stand() {
    let mut store = TNT::connect(Some("(old) {\n}\n"));
    store.from_json(
        "{\n\t\"a\": {\n\t\t\"1\": \"x\"\n\t},\n\n\t\"b\": {\n\t\t\"2\": \"y\",\n\n\t\t\"3\": \"z\"\n\t}\n}\n",
    );
    assert_eq!(store.text(), "(a) {\n\t1=x\n}\n(b) {\n\t2=y\n\t3=z\n}\n\n");
    store.from_json("");
    assert_eq!(store.text(), "\n");
    store.from_json("\"loose\": 1\n\"a\": {\n\"k\": \"v:w\"\nplain\n");
    assert_eq!(store.text(), "(a) {\n\tk=v:w\n\tplain=\n\n");
}
