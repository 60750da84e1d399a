use sourisdb::store::{Store, StoreSerError};
use sourisdb::types::binary::{BinaryData, BinarySerError};
use sourisdb::types::integer::Integer;
use sourisdb::values::{Value, ValueTy};

fn sample_store() -> Store {
    let mut store = Store::new();
    store.insert("name".to_string(), Value::String("souris".to_string()));
    store.insert("count".to_string(), Value::Integer(Integer::i64(-42)));
    store.insert("flag".to_string(), Value::Boolean(true));
    store.insert(
        "list".to_string(),
        Value::Array(vec![
            Value::Character('x'),
            Value::String("inner text".to_string()),
            Value::Null(()),
        ]),
    );
    store.insert(
        "nested".to_string(),
        Value::Dict(vec![
            ("k".to_string(), Value::Integer(Integer::u8(7))),
            ("blob".to_string(), Value::Binary(BinaryData(vec![1, 1, 1, 1, 2, 3]))),
        ]),
    );
    store
}

#[test]
fn insert_then_get_gives_the_value() {
    let mut store = Store::new();
    assert!(store.is_empty());
    store.insert("a".to_string(), Value::Boolean(false));
    assert_eq!(store.get("a"), Some(&Value::Boolean(false)));
    assert_eq!(store.get("b"), None);
    assert_eq!(store.len(), 1);
}

#[test]
fn insert_twice_replaces_in_place() {
    let mut store = Store::new();
    store.insert("a".to_string(), Value::Boolean(false));
    store.insert("b".to_string(), Value::Null(()));
    store.insert("a".to_string(), Value::Boolean(true));
    assert_eq!(store.len(), 2);
    assert_eq!(store.get("a"), Some(&Value::Boolean(true)));
    let keys: Vec<&str> = store.as_entries().iter().map(|(k, _)| k.as_str()).collect();
    assert_eq!(keys, vec!["a", "b"]);
}

#[test]
fn store_roundtrips_through_bytes() {
    let store = sample_store();
    let bytes = store.ser().unwrap();
    assert_eq!(&bytes[..8], b"SOURISDB");
    assert!(bytes[8] & 0b1000_0000 != 0);
    let back = Store::deser(&bytes).unwrap();
    assert_eq!(back, store);
}

#[test]
fn empty_store_roundtrips_without_a_tree() {
    let store = Store::new();
    let bytes = store.ser().unwrap();
    assert_eq!(&bytes[..8], b"SOURISDB");
    assert_eq!(bytes[8] & 0b1000_0000, 0);
    let back = Store::deser(&bytes).unwrap();
    assert!(back.is_empty());
}

#[test]
fn deser_of_too_few_bytes_fails() {
    assert!(matches!(Store::deser(b"SOURIS"), Err(StoreSerError::NotEnoughBytes)));
    assert!(matches!(Store::deser(b"SOURISDB"), Err(StoreSerError::NotEnoughBytes)));
}

#[test]
fn deser_without_magic_bytes_fails() {
    assert!(matches!(
        Store::deser(b"MOUSEDB!\x00\x01\x80"),
        Err(StoreSerError::ExpectedMagicBytes)
    ));
}

#[test]
fn deser_with_unknown_compression_fails() {
    assert!(matches!(
        Store::deser(b"SOURISDB\x05\x01\x80"),
        Err(StoreSerError::Binary(BinarySerError::NoCompressionTypeFound(5)))
    ));
    assert!(matches!(
        Store::deser(b"SOURISDB\x85"),
        Err(StoreSerError::Binary(BinarySerError::NoCompressionTypeFound(5)))
    ));
}

#[test]
fn deser_of_a_value_other_than_a_dictionary_fails() {
    // No tree, no compression, a one-byte payload holding `true`.
    let r = Store::deser(b"SOURISDB\x00\x01\x31");
    assert!(matches!(r, Err(StoreSerError::ExpectedMap(ValueTy::Boolean))));
}

#[test]
fn deser_of_a_plain_empty_dictionary() {
    // No tree, no compression, a one-byte payload holding an empty dictionary.
    let store = Store::deser(b"SOURISDB\x00\x01\x80").unwrap();
    assert!(store.is_empty());
}

#[test]
fn try_from_value_needs_a_dictionary() {
    let s = Store::try_from_value(Value::Dict(vec![("x".to_string(), Value::Null(()))])).unwrap();
    assert_eq!(s.get("x"), Some(&Value::Null(())));
    assert!(matches!(
        Store::try_from_value(Value::Boolean(true)),
        Err(StoreSerError::ExpectedMap(ValueTy::Boolean))
    ));
}

#[test]
fn single_repeated_character_comes_back() {
    // All the text is one character used over and over: the tree would code it with no
    // bits, so the text is written without a coder and the store still comes back.
    let mut store = Store::new();
    store.insert("a".to_string(), Value::String("aaa".to_string()));
    let bytes = store.ser().unwrap();
    let back = Store::deser(&bytes).unwrap();
    assert_eq!(back, store);
    assert_eq!(back.get("a"), Some(&Value::String("aaa".to_string())));
}

#[test]
fn remove_then_get_finds_nothing() {
    let mut store = sample_store();
    assert!(store.contains_key("flag"));
    assert_eq!(store.remove("flag"), Some(Value::Boolean(true)));
    assert!(!store.contains_key("flag"));
    assert_eq!(store.get("flag"), None);
    assert_eq!(store.remove("flag"), None);
    assert_eq!(store.len(), 4);
    store.clear();
    assert!(store.is_empty());
}

#[test]
fn can_ser_small_store() {
    assert!(sample_store().can_ser());
}

#[test]
fn try_from_value_keeps_the_later_of_repeated_keys() {
    let s = Store::try_from_value(Value::Dict(vec![
        ("x".to_string(), Value::Boolean(true)),
        ("y".to_string(), Value::Null(())),
        ("x".to_string(), Value::Boolean(false)),
    ]))
    .unwrap();
    assert_eq!(s.len(), 2);
    assert_eq!(s.get("x"), Some(&Value::Boolean(false)));
}

#[test]
fn store_can_deser_tells_where_deser_would_stop_short() {
    assert!(Store::can_deser(&sample_store().ser().unwrap()));
    assert!(Store::can_deser(b"SOURISDB"));
    assert!(Store::can_deser(b"NOTSOURIS!"));
    assert!(Store::can_deser(b"SOURISDB\x05"));
    // an LZ4 blob whose length is beyond `isize::MAX`
    let mut bytes = b"SOURISDB\x02".to_vec();
    bytes.push(247);
    bytes.extend([0xFF; 8]);
    assert!(!Store::can_deser(&bytes));
}

#[test]
fn stores_compare_as_maps() {
    let mut a = Store::new();
    a.insert("one".to_string(), Value::Boolean(true));
    a.insert("two".to_string(), Value::Null(()));
    let mut b = Store::new();
    b.insert("two".to_string(), Value::Null(()));
    b.insert("one".to_string(), Value::Boolean(true));
    assert_eq!(a, b);
    b.insert("one".to_string(), Value::Boolean(false));
    assert_ne!(a, b);
}
