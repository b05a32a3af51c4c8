use replitdb::client::{delete, empty, get, get_all, list, list_prefix};
use replitdb::store::Store;

#[test]
fn get_on_a_key_never_set_is_absent() {
    let mut store = Store::new();
    assert_eq!(get(&mut store, "missing").unwrap(), None);
}

#[test]
fn get_after_delete_is_absent() {
    let mut store = Store::new();
    replitdb::client::set(&mut store, "k", "v").unwrap();
    delete(&mut store, "k").unwrap();
    assert_eq!(get(&mut store, "k").unwrap(), None);
}

#[test]
fn set_then_get_returns_the_value_exactly() {
    let mut store = Store::new();
    replitdb::client::set(&mut store, "greeting", "hello world").unwrap();
    assert_eq!(get(&mut store, "greeting").unwrap(), Some("hello world".to_string()));
}

#[test]
fn set_then_get_with_awkward_bytes() {
    let mut store = Store::new();
    for (k, v) in [
        ("empty-value", ""),
        ("k=v", "a=b&c=d"),
        ("line", "one\ntwo"),
        ("caf\u{e9}", "\u{2615}"),
        ("", "value under the empty key"),
    ] {
        replitdb::client::set(&mut store, k, v).unwrap();
        assert_eq!(get(&mut store, k).unwrap(), Some(v.to_string()));
    }
}

#[test]
fn set_overwrites_in_place() {
    let mut store = Store::new();
    replitdb::client::set(&mut store, "a", "1").unwrap();
    replitdb::client::set(&mut store, "b", "2").unwrap();
    replitdb::client::set(&mut store, "a", "3").unwrap();
    assert_eq!(get(&mut store, "a").unwrap(), Some("3".to_string()));
    assert_eq!(list(&mut store).unwrap(), vec!["a", "b"]);
}

#[test]
fn delete_on_a_nonexistent_key_succeeds() {
    let mut store = Store::new();
    assert!(delete(&mut store, "never-there").unwrap() == ());
    replitdb::client::set(&mut store, "k", "v").unwrap();
    delete(&mut store, "k").unwrap();
    assert!(delete(&mut store, "k").is_ok());
}

#[test]
fn list_prefix_returns_exactly_the_matching_keys() {
    let mut store = Store::new();
    replitdb::client::set(&mut store, "a/1", "x").unwrap();
    replitdb::client::set(&mut store, "a/2", "y").unwrap();
    replitdb::client::set(&mut store, "b/1", "z").unwrap();
    assert_eq!(list_prefix(&mut store, "a/").unwrap(), vec!["a/1", "a/2"]);
    assert_eq!(list_prefix(&mut store, "b/").unwrap(), vec!["b/1"]);
    assert!(list_prefix(&mut store, "c").unwrap().is_empty());
    assert_eq!(list(&mut store).unwrap(), vec!["a/1", "a/2", "b/1"]);
}

#[test]
fn list_prefix_keys_come_back_decoded() {
    let mut store = Store::new();
    replitdb::client::set(&mut store, "dir/caf\u{e9}", "x").unwrap();
    assert_eq!(list_prefix(&mut store, "dir/").unwrap(), vec!["dir/caf\u{e9}"]);
}

#[test]
fn empty_leaves_nothing_listed() {
    let mut store = Store::new();
    replitdb::client::set(&mut store, "x", "1").unwrap();
    replitdb::client::set(&mut store, "y", "2").unwrap();
    empty(&mut store).unwrap();
    assert!(list(&mut store).unwrap().is_empty());
    assert_eq!(get(&mut store, "x").unwrap(), None);
}

#[test]
fn empty_on_an_empty_store_succeeds() {
    let mut store = Store::new();
    assert!(empty(&mut store).is_ok());
    assert!(list(&mut store).unwrap().is_empty());
}

#[test]
fn get_all_returns_the_whole_mapping() {
    let mut store = Store::new();
    replitdb::client::set(&mut store, "x", "1").unwrap();
    replitdb::client::set(&mut store, "y", "2").unwrap();
    let pairs = get_all(&mut store).unwrap();
    assert_eq!(
        pairs,
        vec![
            ("x".to_string(), "1".to_string()),
            ("y".to_string(), "2".to_string())
        ]
    );
}

#[test]
fn get_all_on_an_empty_store_is_empty() {
    let mut store = Store::new();
    assert!(get_all(&mut store).unwrap().is_empty());
}

#[test]
fn empty_key_is_invisible_to_listing() {
    // The wire format cannot tell "one empty key" from "no keys": such a
    // listing has an empty body, which reads back as no keys at all.
    let mut store = Store::new();
    replitdb::client::set(&mut store, "", "v").unwrap();
    assert!(list(&mut store).unwrap().is_empty());
    assert_eq!(get(&mut store, "").unwrap(), Some("v".to_string()));
}
