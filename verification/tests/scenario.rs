use tnt::model::Outcome;
use tnt::store::TNT;

#[test]
fn add_get_all_edit_get() {
    let mut store = TNT::connect(None);
    assert_eq!(store.add("db", "host", "localhost"), Outcome::Written);
    assert_eq!(store.text(), "(db) {\n\thost=localhost\n}");
    assert_eq!(store.add("db", "port", "5432"), Outcome::Written);
    assert_eq!(store.text(), "(db) {\n\thost=localhost\n\tport=5432\n}\n");
    assert_eq!(store.get_all("db"), vec!["localhost".to_string(), "5432".to_string()]);
    assert_eq!(store.edit("db", "port", "5433"), Outcome::Written);
    assert_eq!(store.get("db", "port"), "5433");
    assert_eq!(store.text(), "(db) {\n\thost=localhost\n\tport=5433\n}\n");
}
