use kvstore::store::{Store, StoreError};

fn lookup_vec(store: &Store, key: &str) -> Vec<String> {
    store.lookup(key).expect("key should be present")
}

#[test]
fn lookup_on_empty_store_signals_not_found() {
    let store = Store::new();
    assert_eq!(store.lookup("missing"), Err(StoreError::NotFound));
}

#[test]
fn insert_then_lookup_returns_single_value() {
    let mut store = Store::new();
    store.insert("fruit", "apple");
    assert_eq!(lookup_vec(&store, "fruit"), vec!["apple".to_string()]);
}

#[test]
fn insert_twice_keeps_both_values_in_order() {
    let mut store = Store::new();
    store.insert("color", "red");
    store.insert("color", "blue");
    assert_eq!(
        lookup_vec(&store, "color"),
        vec!["red".to_string(), "blue".to_string()]
    );
}

#[test]
fn replace_first_changes_only_first_value() {
    let mut store = Store::new();
    store.insert("color", "red");
    store.insert("color", "blue");
    assert_eq!(store.replace_first("color", "green"), Ok(()));
    assert_eq!(
        lookup_vec(&store, "color"),
        vec!["green".to_string(), "blue".to_string()]
    );
}

#[test]
fn replace_first_on_absent_key_signals_not_found() {
    let mut store = Store::new();
    store.insert("color", "red");
    assert_eq!(
        store.replace_first("shape", "round"),
        Err(StoreError::NotFound)
    );
    assert_eq!(lookup_vec(&store, "color"), vec!["red".to_string()]);
}

#[test]
fn remove_deletes_key_and_all_values() {
    let mut store = Store::new();
    store.insert("color", "red");
    store.insert("color", "blue");
    assert_eq!(store.remove("color"), Ok(()));
    assert_eq!(store.lookup("color"), Err(StoreError::NotFound));
}

#[test]
fn remove_on_absent_key_signals_not_found_and_changes_nothing() {
    let mut store = Store::new();
    store.insert("color", "red");
    let before = store.all_entries();
    assert_eq!(store.remove("shape"), Err(StoreError::NotFound));
    assert_eq!(store.all_entries(), before);
    assert_eq!(lookup_vec(&store, "color"), vec!["red".to_string()]);
}

#[test]
fn remove_leaves_other_keys_untouched() {
    let mut store = Store::new();
    store.insert("color", "red");
    store.insert("shape", "round");
    assert_eq!(store.remove("color"), Ok(()));
    assert_eq!(lookup_vec(&store, "shape"), vec!["round".to_string()]);
}

#[test]
fn all_entries_flattens_one_pair_per_value() {
    let mut store = Store::new();
    store.insert("a", "1");
    store.insert("b", "2");
    store.insert("a", "3");
    assert_eq!(
        store.all_entries(),
        vec![
            ("a".to_string(), "1".to_string()),
            ("a".to_string(), "3".to_string()),
            ("b".to_string(), "2".to_string()),
        ]
    );
}

#[test]
fn all_entries_on_empty_store_is_empty() {
    let store = Store::new();
    assert_eq!(store.all_entries(), Vec::<(String, String)>::new());
}

#[test]
fn contains_key_tracks_presence() {
    let mut store = Store::new();
    assert!(!store.contains_key("color"));
    store.insert("color", "red");
    assert!(store.contains_key("color"));
    assert!(!store.contains_key("shape"));
    assert_eq!(store.remove("color"), Ok(()));
    assert!(!store.contains_key("color"));
}

#[test]
fn has_multiple_values_only_past_one_value() {
    let mut store = Store::new();
    assert!(!store.has_multiple_values("color"));
    store.insert("color", "red");
    assert!(!store.has_multiple_values("color"));
    store.insert("color", "blue");
    assert!(store.has_multiple_values("color"));
}

#[test]
fn empty_key_and_empty_value_are_ordinary() {
    let mut store = Store::new();
    store.insert("", "");
    assert!(store.contains_key(""));
    assert_eq!(lookup_vec(&store, ""), vec!["".to_string()]);
}

#[test]
fn equal_values_under_one_key_are_kept_apart() {
    let mut store = Store::new();
    store.insert("color", "red");
    store.insert("color", "red");
    assert_eq!(
        lookup_vec(&store, "color"),
        vec!["red".to_string(), "red".to_string()]
    );
    assert_eq!(store.replace_first("color", "blue"), Ok(()));
    assert_eq!(
        lookup_vec(&store, "color"),
        vec!["blue".to_string(), "red".to_string()]
    );
}
