use sourisdb::json::{u64_to_f64_bits, Json};
use sourisdb::store::Store;
use sourisdb::types::binary::BinaryData;
use sourisdb::types::imaginary::Imaginary;
use sourisdb::types::integer::Integer;
use sourisdb::types::ts::Timestamp;
use sourisdb::values::Value;

fn object_keys(j: &Json) -> Vec<String> {
    match j {
        Json::Object(m) => m.iter().map(|(k, _)| k.clone()).collect(),
        _ => panic!("not an object: {j:?}"),
    }
}

fn member<'a>(j: &'a Json, key: &str) -> &'a Json {
    match j {
        Json::Object(m) => &m.iter().find(|(k, _)| k == key).unwrap().1,
        _ => panic!("not an object: {j:?}"),
    }
}

fn back(v: Value, add: bool) -> Value {
    Value::convert_from_json(v.convert_to_json(add).unwrap())
}

#[test]
fn tagged_kinds_come_back() {
    let cases = vec![
        Value::Ipv4Addr([127, 0, 0, 1]),
        Value::Ipv6Addr([0x2001, 0xdb8, 0, 0, 0, 0, 0, 1]),
        Value::Binary(BinaryData(vec![0, 1, 255])),
        Value::Timezone("Europe/London".to_string()),
        Value::Timestamp(Timestamp::new(2024, 1, 2, 3, 4, 5, 0).unwrap()),
        Value::Timestamp(Timestamp::new(2015, 6, 30, 23, 59, 59, 1_500_000_000).unwrap()),
        Value::Timestamp(Timestamp::new(-44, 3, 15, 12, 0, 0, 123_456_789).unwrap()),
        Value::Timestamp(Timestamp::new(12345, 12, 31, 0, 0, 0, 1).unwrap()),
        Value::Imaginary(Imaginary::CartesianForm { real: Integer::i64(-3), imaginary: Integer::u64(4) }),
        Value::Imaginary(Imaginary::PolarForm { modulus: 2.5f64.to_bits(), argument: 0.5f64.to_bits() }),
    ];
    for v in cases {
        let copy = format!("{v:?}");
        assert_eq!(format!("{:?}", back(v, true)), copy);
    }
}

#[test]
fn the_tag_names_the_kind() {
    let j = Value::Ipv4Addr([10, 0, 0, 1]).convert_to_json(true).unwrap();
    assert_eq!(object_keys(&j), vec!["souris_type".to_string(), "octets".to_string()]);
    assert!(matches!(member(&j, "souris_type"), Json::PosInt(13)));
    match member(&j, "octets") {
        Json::Array(a) => assert!(matches!(a[..], [Json::PosInt(10), Json::PosInt(0), Json::PosInt(0), Json::PosInt(1)])),
        other => panic!("{other:?}"),
    }
}

#[test]
fn untagged_addresses_are_arrays_and_come_back_as_arrays() {
    let j = Value::Ipv4Addr([1, 2, 3, 4]).convert_to_json(false).unwrap();
    assert!(matches!(&j, Json::Array(a) if a.len() == 4));
    assert_eq!(
        Value::convert_from_json(j),
        Value::Array(vec![
            Value::Integer(Integer::u64(1)),
            Value::Integer(Integer::u64(2)),
            Value::Integer(Integer::u64(3)),
            Value::Integer(Integer::u64(4)),
        ])
    );
    let b = Value::Binary(BinaryData(vec![7])).convert_to_json(false).unwrap();
    assert_eq!(object_keys(&b), vec!["bytes".to_string()]);
}

#[test]
fn numbers_beyond_json_give_nothing() {
    assert!(Value::Integer(Integer::u128(u128::MAX)).convert_to_json(false).is_none());
    assert!(Value::DoubleFloat(f64::NAN.to_bits()).convert_to_json(false).is_none());
    assert!(Value::SingleFloat(f32::INFINITY.to_bits()).convert_to_json(false).is_none());
    assert!(Value::Array(vec![Value::Null(()), Value::DoubleFloat(f64::INFINITY.to_bits())])
        .convert_to_json(false)
        .is_none());
    assert!(matches!(Integer::u64(u64::MAX).to_json(), Some(Json::PosInt(u64::MAX))));
    assert!(matches!(Integer::i64(i64::MIN).to_json(), Some(Json::NegInt(i64::MIN))));
}

#[test]
fn single_floats_widen_exactly() {
    for f in [1.5f32, -0.0, 0.0, f32::MIN_POSITIVE, f32::from_bits(1), f32::from_bits(0x7F_FFFF), f32::MAX, -3.25e-40] {
        let j = Value::SingleFloat(f.to_bits()).convert_to_json(false).unwrap();
        match j {
            Json::Float(bits) => assert_eq!(bits, f64::from(f).to_bits(), "{f}"),
            other => panic!("{other:?}"),
        }
    }
}

#[test]
fn polar_parts_that_are_not_finite_become_zero() {
    let v = Value::Imaginary(Imaginary::PolarForm { modulus: f64::NAN.to_bits(), argument: 1.0f64.to_bits() });
    let j = v.convert_to_json(false).unwrap();
    assert!(matches!(member(&j, "modulus"), Json::PosInt(0)));
    assert!(matches!(member(&j, "argument"), Json::Float(b) if *b == 1.0f64.to_bits()));
}

#[test]
fn timestamps_are_written_as_text() {
    let t = Timestamp::new(2024, 1, 2, 3, 4, 5, 0).unwrap();
    let j = Value::Timestamp(t).convert_to_json(true).unwrap();
    assert!(matches!(member(&j, "timestamp"), Json::String(s) if s == "2024-01-02 03:04:05"));
    assert!(matches!(member(&j, "souris_type"), Json::PosInt(6)));
}

#[test]
fn objects_without_a_known_tag_are_dictionaries() {
    let j = Json::Object(vec![
        ("souris_type".to_string(), Json::PosInt(13)),
        ("octets".to_string(), Json::Array(vec![Json::PosInt(1)])),
    ]);
    match Value::convert_from_json(j) {
        Value::Dict(d) => assert_eq!(d.len(), 2),
        other => panic!("{other:?}"),
    }
    let j = Json::Object(vec![("a".to_string(), Json::Float(0.5f64.to_bits())), ("b".to_string(), Json::NegInt(-2))]);
    assert_eq!(
        Value::convert_from_json(j),
        Value::Dict(vec![
            ("a".to_string(), Value::DoubleFloat(0.5f64.to_bits())),
            ("b".to_string(), Value::Integer(Integer::i64(-2))),
        ])
    );
}

#[test]
fn integers_from_json_numbers() {
    assert_eq!(Integer::from_json(&Json::PosInt(5)), Some(Integer::u64(5)));
    assert_eq!(Integer::from_json(&Json::NegInt(-5)), Some(Integer::i64(-5)));
    assert_eq!(Integer::from_json(&Json::Float(1.0f64.to_bits())), None);
}

#[test]
fn a_store_with_only_json_is_that_value() {
    let mut store = Store::new();
    store.insert("JSON".to_string(), Value::Boolean(true));
    assert!(matches!(store.to_json(false), Some(Json::Bool(true))));
    let s = Store::from_json(Json::Array(vec![Json::Null]));
    assert_eq!(s.get("JSON"), Some(&Value::Array(vec![Value::Null(())])));
    let s = Store::from_json(Json::Object(vec![("k".to_string(), Json::String("v".to_string()))]));
    assert_eq!(s.get("k"), Some(&Value::String("v".to_string())));
    assert_eq!(s.len(), 1);
}

#[test]
fn integers_convert_to_the_nearest_double() {
    let mut cases: Vec<u64> = vec![0, 1, 2, 3, 7, 255, 1 << 52, (1 << 53) - 1, 1 << 53, (1 << 53) + 1, (1 << 53) + 2, (1 << 53) + 3];
    cases.extend([(1 << 54) + 2, (1 << 54) + 6, u64::MAX, u64::MAX - 1024, u64::MAX - 2048, 1 << 63, (1 << 63) + 1024, 123_456_789_012_345_678]);
    let mut x: u64 = 0x9E37_79B9_7F4A_7C15;
    for _ in 0..2000 {
        x ^= x << 13;
        x ^= x >> 7;
        x ^= x << 17;
        cases.push(x >> (x % 64));
    }
    for u in cases {
        assert_eq!(u64_to_f64_bits(u), (u as f64).to_bits(), "{u}");
    }
}

#[test]
fn polar_parts_may_be_written_as_integers() {
    let j = Json::Object(vec![
        ("souris_type".to_string(), Json::PosInt(5)),
        ("modulus".to_string(), Json::PosInt(3)),
        ("argument".to_string(), Json::NegInt(-2)),
    ]);
    assert_eq!(
        Value::convert_from_json(j),
        Value::Imaginary(Imaginary::PolarForm { modulus: 3.0f64.to_bits(), argument: (-2.0f64).to_bits() })
    );
}

#[test]
fn timestamps_are_read_from_either_separator() {
    let t = Timestamp::new(2024, 1, 2, 3, 4, 5, 0).unwrap();
    for text in ["2024-01-02 03:04:05", "2024-01-02T03:04:05"] {
        let j = Json::Object(vec![
            ("souris_type".to_string(), Json::PosInt(6)),
            ("timestamp".to_string(), Json::String(text.to_string())),
        ]);
        assert_eq!(Value::convert_from_json(j), Value::Timestamp(t));
    }
}
