use std::cmp::Ordering;
use std::collections::BTreeMap;
use wasm_cache::cache::{BTreeCache, Entry};
use wasm_cache::key::{CacheKey, ErasedKey, KIND_INDICES, KIND_NUMBER, KIND_TEXT};
use wasm_cache::value::Value;

fn text(s: &str) -> ErasedKey {
    ErasedKey::new(&String::from(s))
}

fn blank_entry() -> Entry {
    Entry { delay: None, progress: false, value: Value::empty(), subscriptions: Vec::new() }
}

#[test]
fn cache_item_eq_identity() {
    let string = text("Hello");
    assert_eq!(string.equals(&string), true);
    assert!(&string == &string);
}

#[test]
fn cache_item_eq_equal() {
    println!("Running test");
    let string1 = text("Hello");
    let string2 = text("Hello");
    assert_eq!(string1.equals(&string2), true);
    assert!(&string1 == &string2);
}

#[test]
fn cache_item_new_different() {
    let string_hello = text("Hello");
    let string_world = text("World");
    assert_eq!(string_hello.equals(&string_world), false);
}

#[test]
fn cache_item_different_type() {
    let string_hello = text("Hello");
    let array_empty = ErasedKey::new(&Vec::<usize>::new());
    assert_eq!(string_hello.equals(&array_empty), false);
}

#[test]
fn test_cache_key() {
    let mut map: BTreeMap<ErasedKey, &str> = Default::default();
    map.insert(text("Hello"), "String Hello");
    map.insert(text("World"), "String World");
    assert_eq!(map.len(), 2);
    assert_eq!(map.get(&text("Hello")), Some(&"String Hello"));

    let mut store = BTreeCache::new();
    store.insert(text("Hello"), blank_entry());
    store.insert(text("World"), blank_entry());
    assert_eq!(store.entries.len(), 2);
    assert!(store.get(&text("Hello")).is_some());
    assert!(store.get(&text("Other")).is_none());
}

#[test]
fn kinds_and_encodings() {
    assert_eq!(String::from("ab").kind(), KIND_TEXT);
    assert_eq!(String::from("ab").encode(), vec![97u8, 98]);
    assert_eq!(258u64.kind(), KIND_NUMBER);
    assert_eq!(258u64.encode(), vec![0u8, 0, 0, 0, 0, 0, 1, 2]);
    assert_eq!(vec![1usize, 2].kind(), KIND_INDICES);
    assert_eq!(vec![1usize, 2].encode(), vec![0u8, 0, 0, 0, 0, 0, 0, 1, 0, 0, 0, 0, 0, 0, 0, 2]);
}

#[test]
fn order_within_one_kind() {
    assert_eq!(text("Hello").compare(&text("World")), Ordering::Less);
    assert_eq!(text("World").compare(&text("Hello")), Ordering::Greater);
    assert_eq!(text("Hell").compare(&text("Hello")), Ordering::Less);
    assert_eq!(text("").compare(&text("")), Ordering::Equal);
    assert_eq!(ErasedKey::new(&2u64).compare(&ErasedKey::new(&256u64)), Ordering::Less);
    assert_eq!(ErasedKey::new(&vec![1usize, 9]).compare(&ErasedKey::new(&vec![2usize])), Ordering::Less);
}

#[test]
fn order_across_kinds() {
    let t = text("zzz");
    let n = ErasedKey::new(&0u64);
    let v = ErasedKey::new(&Vec::<usize>::new());
    assert_eq!(t.compare(&n), Ordering::Less);
    assert_eq!(n.compare(&v), Ordering::Less);
    assert_eq!(t.compare(&v), Ordering::Less);
    assert_eq!(v.compare(&t), Ordering::Greater);
    assert!(!n.equals(&t));
    assert!(t < n && n < v);
    assert_eq!(t.partial_cmp(&n), Some(Ordering::Less));
}

#[test]
fn keys_from_parts() {
    let k = ErasedKey::from_parts(7, vec![1, 2]);
    assert_eq!(k.kind(), 7);
    assert_eq!(k.bytes(), &vec![1u8, 2]);
    assert!(k.duplicate().equals(&k));
    assert!(!k.equals(&ErasedKey::from_parts(8, vec![1, 2])));
    assert!(k.less_than(&ErasedKey::from_parts(7, vec![1, 3])));
}

#[test]
fn store_keeps_keys_sorted_and_replaces() {
    let mut store = BTreeCache::new();
    store.insert(text("b"), blank_entry());
    store.insert(text("a"), blank_entry());
    store.insert(ErasedKey::new(&5u64), blank_entry());
    store.insert(text("c"), blank_entry());
    let mut replaced = blank_entry();
    replaced.progress = true;
    store.insert(text("a"), replaced);
    assert_eq!(store.entries.len(), 4);
    assert!(store.entries[0].0.equals(&text("a")));
    assert!(store.entries[1].0.equals(&text("b")));
    assert!(store.entries[2].0.equals(&text("c")));
    assert!(store.entries[3].0.equals(&ErasedKey::new(&5u64)));
    assert!(store.get(&text("a")).unwrap().progress);
    assert_eq!(store.find(&text("c")), Some(2));
}
