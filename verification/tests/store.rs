//! Tests of the store's atomic operations.

use kv_store::kv_store::KvStore;

#[test]
fn get_on_empty_store_is_none() {
    let store = KvStore::new();
    assert_eq!(store.get(String::from("missing")), None);
}

#[test]
fn set_then_get_returns_the_value() {
    let mut store = KvStore::new();
    store.set(String::from("k"), String::from("v"));
    assert_eq!(store.get(String::from("k")), Some(String::from("v")));
}

#[test]
fn set_overwrites_regardless_of_prior_state() {
    let mut store = KvStore::new();
    store.set(String::from("k"), String::from("old"));
    store.set(String::from("k"), String::from("new"));
    assert_eq!(store.get(String::from("k")), Some(String::from("new")));
}

#[test]
fn delete_then_get_is_none_and_second_delete_is_none() {
    let mut store = KvStore::new();
    store.set(String::from("k"), String::from("v"));
    assert_eq!(store.delete(String::from("k")), Some(String::from("v")));
    assert_eq!(store.get(String::from("k")), None);
    assert_eq!(store.delete(String::from("k")), None);
}

#[test]
fn exists_reflects_presence_exactly() {
    let mut store = KvStore::new();
    assert_eq!(store.key_exists(String::from("k")), store.get(String::from("k")).is_some());
    store.set(String::from("k"), String::from("v"));
    assert!(store.key_exists(String::from("k")));
    assert_eq!(store.key_exists(String::from("k")), store.get(String::from("k")).is_some());
    store.delete(String::from("k"));
    assert!(!store.key_exists(String::from("k")));
    assert_eq!(store.key_exists(String::from("k")), store.get(String::from("k")).is_some());
}

#[test]
fn keys_lists_exactly_the_present_keys_once() {
    let mut store = KvStore::new();
    store.set(String::from("a"), String::from("1"));
    store.set(String::from("b"), String::from("2"));
    store.set(String::from("c"), String::from("3"));
    store.set(String::from("b"), String::from("4"));
    store.delete(String::from("c"));
    let mut keys = store.keys();
    keys.sort();
    assert_eq!(keys, vec![String::from("a"), String::from("b")]);
}

#[test]
fn keys_on_empty_store_is_empty() {
    let store = KvStore::new();
    assert!(store.keys().is_empty());
}

#[test]
fn distinct_keys_all_persist() {
    let mut store = KvStore::new();
    for i in 0..32 {
        store.set(format!("key{}", i), format!("value{}", i));
    }
    for i in 0..32 {
        assert_eq!(store.get(format!("key{}", i)), Some(format!("value{}", i)));
    }
    assert_eq!(store.keys().len(), 32);
}

#[test]
fn racing_sets_on_one_key_leave_the_last_value() {
    let mut store = KvStore::new();
    for i in 0..32 {
        store.set(String::from("k"), format!("value{}", i));
    }
    assert_eq!(store.get(String::from("k")), Some(String::from("value31")));
    assert_eq!(store.keys().len(), 1);
}
