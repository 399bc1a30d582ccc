use settings_core::datastore::{lookup_key, Committed, DataStore, Error, Extension};
use settings_core::key::Key;
use settings_core::memory::MemoryDataStore;
use settings_core::value::Value;

fn text(s: &str) -> Value {
    Value::Text(s.to_string())
}

fn pending(tx: &str) -> Committed {
    Committed::Pending { tx: tx.to_string() }
}

fn ext(name: &str, version: &str) -> Extension {
    Extension { name: name.to_string(), version: version.to_string() }
}

fn text_of(v: Option<Value>) -> Option<String> {
    match v {
        Some(Value::Text(s)) => Some(s),
        _ => None,
    }
}

#[test]
fn pending_write_is_isolated_until_committed() {
    let mut ds = MemoryDataStore::new();
    let values = vec![("v1".to_string(), text("staged"))];
    ds.set("ext", &values, &pending("tx")).unwrap();

    // invisible under the live view
    assert!(ds.get(&ext("ext", "v1"), &Committed::Live).unwrap().is_none());
    // invisible under every other transaction
    assert!(ds.get(&ext("ext", "v1"), &pending("other")).unwrap().is_none());
    // visible under its own transaction
    assert_eq!(text_of(ds.get(&ext("ext", "v1"), &pending("tx")).unwrap()), Some("staged".to_string()));

    ds.commit_transaction("tx").unwrap();
    assert_eq!(text_of(ds.get(&ext("ext", "v1"), &Committed::Live).unwrap()), Some("staged".to_string()));
}

#[test]
fn commit_of_unknown_transaction_is_empty_and_changes_nothing() {
    let mut ds = MemoryDataStore::new();
    let values = vec![("v1".to_string(), text("live"))];
    ds.set("ext", &values, &Committed::Live).unwrap();

    let changed = ds.commit_transaction("never-created").unwrap();
    assert!(changed.is_empty());
    assert_eq!(text_of(ds.get(&ext("ext", "v1"), &Committed::Live).unwrap()), Some("live".to_string()));
}

#[test]
fn commit_reports_changes_and_removes_transaction() {
    let mut ds = MemoryDataStore::new();
    let values = vec![("v1".to_string(), text("value"))];
    ds.set("ext", &values, &pending("tx")).unwrap();

    let changed = ds.commit_transaction("tx").unwrap();
    assert_eq!(changed.len(), 1);
    assert_eq!(changed[0].0, "ext");
    assert_eq!(changed[0].1, vec!["v1".to_string()]);

    let live = ds.get_all(&Committed::Live).unwrap().unwrap();
    assert_eq!(live.len(), 1);
    assert_eq!(live[0].0, "ext");
    assert_eq!(live[0].1.len(), 1);
    assert_eq!(live[0].1[0].0, "v1");
    assert!(matches!(&live[0].1[0].1, Value::Text(s) if s == "value"));

    assert!(ds.list_transactions().unwrap().is_empty());
}

#[test]
fn set_replaces_the_version_set_wholesale() {
    let mut ds = MemoryDataStore::new();
    let first = vec![("v1".to_string(), text("a"))];
    ds.set("ext", &first, &Committed::Live).unwrap();
    let second = vec![("v2".to_string(), text("b"))];
    ds.set("ext", &second, &Committed::Live).unwrap();

    // v1 was dropped, not merged
    assert!(ds.get(&ext("ext", "v1"), &Committed::Live).unwrap().is_none());
    assert_eq!(text_of(ds.get(&ext("ext", "v2"), &Committed::Live).unwrap()), Some("b".to_string()));
}

#[test]
fn commit_overwrites_all_live_versions_of_a_touched_extension() {
    // the documented sharp edge of the full-replace rule
    let mut ds = MemoryDataStore::new();
    let live = vec![("v1".to_string(), text("old")), ("v2".to_string(), text("keep?"))];
    ds.set("ext", &live, &Committed::Live).unwrap();
    let staged = vec![("v1".to_string(), text("new"))];
    ds.set("ext", &staged, &pending("tx")).unwrap();
    ds.commit_transaction("tx").unwrap();

    assert_eq!(text_of(ds.get(&ext("ext", "v1"), &Committed::Live).unwrap()), Some("new".to_string()));
    assert!(ds.get(&ext("ext", "v2"), &Committed::Live).unwrap().is_none());
}

#[test]
fn delete_of_unknown_transaction_is_empty_and_not_a_failure() {
    let mut ds = MemoryDataStore::new();
    let deleted = ds.delete_transaction("no-such-tx").unwrap();
    assert!(deleted.is_empty());
}

#[test]
fn delete_discards_pending_without_touching_live() {
    let mut ds = MemoryDataStore::new();
    let live = vec![("v1".to_string(), text("live"))];
    ds.set("ext", &live, &Committed::Live).unwrap();
    let staged = vec![("v1".to_string(), text("staged"))];
    ds.set("ext", &staged, &pending("tx")).unwrap();

    let deleted = ds.delete_transaction("tx").unwrap();
    assert_eq!(deleted.len(), 1);
    assert_eq!(deleted[0].0, "ext");
    assert_eq!(deleted[0].1, vec!["v1".to_string()]);

    assert_eq!(text_of(ds.get(&ext("ext", "v1"), &Committed::Live).unwrap()), Some("live".to_string()));
    assert!(ds.list_transactions().unwrap().is_empty());
}

#[test]
fn list_extensions_reports_versions_per_extension() {
    let mut ds = MemoryDataStore::new();
    let values = vec![("v1".to_string(), text("a")), ("v2".to_string(), text("b"))];
    ds.set("motd", &values, &Committed::Live).unwrap();

    let listing = ds.list_extensions(&Committed::Live).unwrap();
    assert_eq!(listing.len(), 1);
    assert_eq!(listing[0].0, "motd");
    let mut versions = listing[0].1.clone();
    versions.sort();
    assert_eq!(versions, vec!["v1".to_string(), "v2".to_string()]);

    // an unknown pending view lists nothing, and is not an error
    assert!(ds.list_extensions(&pending("nope")).unwrap().is_empty());
}

#[test]
fn get_all_distinguishes_absent_views_from_empty_ones() {
    let ds = MemoryDataStore::new();
    // the live view always exists, even when empty
    assert!(ds.get_all(&Committed::Live).unwrap().is_some());
    // an unwritten transaction does not
    assert!(ds.get_all(&pending("tx")).unwrap().is_none());
}

fn nested_value() -> Value {
    Value::Object(vec![(
        "a".to_string(),
        Value::Object(vec![(
            "b".to_string(),
            Value::Object(vec![("c".to_string(), text("deep"))]),
        )]),
    )])
}

#[test]
fn lookup_returns_the_exact_matched_subtree() {
    let v = nested_value();
    let key = Key::new("a.b.c").unwrap();
    let found = lookup_key(&v, &key);
    assert!(matches!(found, Some(Value::Text(s)) if s == "deep"));

    let key_ab = Key::new("a.b").unwrap();
    let subtree = lookup_key(&v, &key_ab);
    match subtree {
        Some(Value::Object(members)) => {
            assert_eq!(members.len(), 1);
            assert_eq!(members[0].0, "c");
            assert!(matches!(&members[0].1, Value::Text(s) if s == "deep"));
        },
        _ => panic!("expected an object"),
    }
}

#[test]
fn lookup_is_absent_when_any_segment_misses() {
    let v = nested_value();
    assert!(lookup_key(&v, &Key::new("a.x.c").unwrap()).is_none());
    assert!(lookup_key(&v, &Key::new("a.b.c.d").unwrap()).is_none());
    assert!(lookup_key(&v, &Key::new("z").unwrap()).is_none());
    // arrays have no named members
    let arr = Value::Array(vec![text("x")]);
    assert!(lookup_key(&arr, &Key::new("0").unwrap()).is_none());
}

#[test]
fn get_key_walks_the_stored_value() {
    let mut ds = MemoryDataStore::new();
    let values = vec![("v1".to_string(), nested_value())];
    ds.set("ext", &values, &Committed::Live).unwrap();

    let key = Key::new("a.b.c").unwrap();
    let found = ds.get_key(&ext("ext", "v1"), &key, &Committed::Live).unwrap();
    assert!(matches!(found, Some(Value::Text(s)) if s == "deep"));

    let missing = Key::new("a.nope").unwrap();
    assert!(ds.get_key(&ext("ext", "v1"), &missing, &Committed::Live).unwrap().is_none());
}

#[test]
fn keys_reject_empty_segments() {
    assert!(matches!(Key::new(""), Err(Error::InvalidKey { .. })));
    assert!(matches!(Key::new("a..b"), Err(Error::InvalidKey { .. })));
    assert!(matches!(Key::new(".a"), Err(Error::InvalidKey { .. })));
    assert!(matches!(Key::new("a."), Err(Error::InvalidKey { .. })));

    let key = Key::new("settings.motd").unwrap();
    assert_eq!(key.segments().len(), 2);
    assert_eq!(key.segments()[0], "settings");
    assert_eq!(key.segments()[1], "motd");
    assert_eq!(key.name(), "settings.motd");
}
