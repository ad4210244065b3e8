use wasm_cache::value::{Dynamic, Value};

#[test]
fn new_value_is_valid() {
    let v = Value::new(5u64);
    assert!(v.valid());
    assert_eq!(v.data(), Some(&5u64));
}

#[test]
fn default_value_is_empty_and_invalid() {
    let v: Value<u64> = Value::default();
    assert!(!v.valid());
    assert_eq!(v.data(), None);
    let e: Value<u64> = Value::empty();
    assert!(!e.valid());
    assert_eq!(e.data(), None);
}

#[test]
fn invalidate_keeps_data() {
    let mut v = Value::new(String::from("answer"));
    v.invalidate();
    assert!(!v.valid());
    assert_eq!(v.data(), Some(&String::from("answer")));
}

#[test]
fn downcast_to_the_right_type() {
    let v = Value::new(Dynamic::Number(42));
    let d = v.downcast::<u64>().unwrap();
    assert!(d.valid());
    assert_eq!(d.data(), Some(&42u64));

    let mut b = Value::new(Dynamic::Bytes(vec![1, 2, 3]));
    b.invalidate();
    let d = b.downcast::<Vec<u8>>().unwrap();
    assert!(!d.valid());
    assert_eq!(d.data(), Some(&vec![1u8, 2, 3]));

    let f = Value::new(Dynamic::Flag(true)).downcast::<bool>().unwrap();
    assert_eq!(f.data(), Some(&true));
    let s = Value::new(Dynamic::Signed(-3)).downcast::<i64>().unwrap();
    assert_eq!(s.data(), Some(&-3i64));
    let u = Value::new(Dynamic::Unit).downcast::<()>().unwrap();
    assert_eq!(u.data(), Some(&()));
}

#[test]
fn downcast_to_the_wrong_type_fails() {
    assert!(Value::new(Dynamic::Number(42)).downcast::<bool>().is_none());
    assert!(Value::new(Dynamic::Bytes(vec![])).downcast::<u64>().is_none());
    assert!(Value::new(Dynamic::Flag(false)).downcast::<i64>().is_none());
}

#[test]
fn downcast_of_empty_value_succeeds() {
    let v: Value<Dynamic> = Value::empty();
    let d = v.downcast::<u64>().unwrap();
    assert!(!d.valid());
    assert_eq!(d.data(), None);
}

#[test]
fn same_value_compares_validity_and_payload() {
    let a = Value::new(Dynamic::Bytes(vec![1, 2]));
    let b = Value::new(Dynamic::Bytes(vec![1, 2]));
    let c = Value::new(Dynamic::Bytes(vec![1, 3]));
    assert!(a.same_as(&b));
    assert!(!a.same_as(&c));
    let mut d = Value::new(Dynamic::Bytes(vec![1, 2]));
    d.invalidate();
    assert!(!a.same_as(&d));
    assert!(!a.same_as(&Value::empty()));
    assert!(Dynamic::Number(1).same(&Dynamic::Number(1)));
    assert!(!Dynamic::Number(1).same(&Dynamic::Signed(1)));
}
