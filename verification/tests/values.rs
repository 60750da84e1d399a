use sourisdb::types::binary::BinaryData;
use sourisdb::types::imaginary::Imaginary;
use sourisdb::types::integer::{Integer, IntegerSerError};
use sourisdb::types::ts::Timestamp;
use sourisdb::utilities::cursor::Cursor;
use sourisdb::utilities::huffman::Huffman;
use sourisdb::values::{Value, ValueSerError, ValueTy};

fn roundtrip_with(v: &Value, huffman: Option<&Huffman<char>>) -> Value {
    let bytes = v.ser(huffman);
    let mut cursor = Cursor::new(&bytes);
    let back = Value::deser(&mut cursor, huffman).unwrap();
    assert!(cursor.is_finished());
    back
}

fn roundtrip(v: &Value) -> Value {
    roundtrip_with(v, None)
}

fn deser(bytes: &[u8]) -> Result<Value, ValueSerError> {
    let mut cursor = Cursor::new(bytes);
    Value::deser(&mut cursor, None)
}

#[test]
fn array_example_keeps_its_order() {
    let example_value_array = Value::Array(vec![
        Value::Boolean(true),
        Value::Integer(Integer::i32(1)),
        Value::Character('🖖'),
    ]);
    let serialised = example_value_array.ser(None);
    assert_eq!(serialised, vec![182, 49, 64, 1, 0, 242, 150, 245, 1]);
    let mut cursor = Cursor::new(&serialised);
    let deserialised = Value::deser(&mut cursor, None).unwrap();
    assert_eq!(example_value_array, deserialised);
}

#[test]
fn scalars_roundtrip() {
    let values = vec![
        Value::Character('a'),
        Value::Character('\u{10FFFF}'),
        Value::Boolean(false),
        Value::Boolean(true),
        Value::Integer(Integer::i64(-123_456_789)),
        Value::Integer(Integer::u128(u128::MAX)),
        Value::Null(()),
        Value::SingleFloat(1.5f32.to_bits()),
        Value::DoubleFloat((-2.25f64).to_bits()),
        Value::Ipv4Addr([127, 0, 0, 1]),
        Value::Ipv6Addr([0x2001, 0xdb8, 0, 0, 0, 0, 0xff00, 0x42]),
    ];
    for v in values {
        assert_eq!(roundtrip(&v), v);
    }
}

#[test]
fn fixed_size_layouts() {
    assert_eq!(Value::Boolean(true).ser(None), vec![0x31]);
    assert_eq!(Value::Boolean(false).ser(None), vec![0x30]);
    assert_eq!(Value::Null(()).ser(None), vec![0x90]);
    assert_eq!(Value::SingleFloat(0x3FC0_0000).ser(None), vec![0xF0, 0, 0, 0xC0, 0x3F]);
    assert_eq!(Value::Ipv4Addr([10, 1, 2, 3]).ser(None), vec![0xD0, 10, 1, 2, 3]);
    let v6 = Value::Ipv6Addr([0x0102, 0, 0, 0, 0, 0, 0, 0xABCD]).ser(None);
    assert_eq!(v6[0], 0xE0);
    assert_eq!(&v6[1..3], &[0x02, 0x01]);
    assert_eq!(&v6[15..17], &[0xCD, 0xAB]);
}

#[test]
fn strings_roundtrip_with_and_without_huffman() {
    let v = Value::String("hello, world".to_string());
    let plain = v.ser(None);
    assert_eq!(plain[0], 0x10);
    assert_eq!(plain[1], 12);
    assert_eq!(&plain[2..], b"hello, world");
    assert_eq!(roundtrip(&v), v);

    let huffman = Huffman::new_str("hello, world and more").unwrap();
    let coded = v.ser(Some(&huffman));
    assert_eq!(coded[0], 0x11);
    assert!(coded.len() < plain.len());
    assert_eq!(roundtrip_with(&v, Some(&huffman)), v);
}

#[test]
fn string_outside_the_tree_is_written_plainly() {
    let huffman = Huffman::new_str("abc").unwrap();
    let v = Value::String("xyz".to_string());
    let bytes = v.ser(Some(&huffman));
    assert_eq!(bytes[0], 0x10);
    assert_eq!(roundtrip_with(&v, Some(&huffman)), v);
}

#[test]
fn huffman_string_without_a_coder_is_an_error() {
    let huffman = Huffman::new_str("abcabc").unwrap();
    let bytes = Value::String("cab".to_string()).ser(Some(&huffman));
    assert!(matches!(deser(&bytes), Err(ValueSerError::NoHuffman)));
}

#[test]
fn binary_roundtrips() {
    for data in [vec![], vec![1, 2, 3], vec![9; 1000]] {
        let v = Value::Binary(BinaryData(data));
        assert_eq!(roundtrip(&v), v);
    }
}

#[test]
fn imaginary_roundtrips() {
    let cart = Value::Imaginary(Imaginary::CartesianForm {
        real: Integer::i32(-3),
        imaginary: Integer::u8(4),
    });
    let bytes = cart.ser(None);
    assert_eq!(bytes, vec![0x55, 3, 4]);
    assert_eq!(roundtrip(&cart), cart);

    let polar = Value::Imaginary(Imaginary::PolarForm {
        modulus: 2.0f64.to_bits(),
        argument: 0.5f64.to_bits(),
    });
    let bytes = polar.ser(None);
    assert_eq!(bytes.len(), 17);
    assert_eq!(bytes[0], 0x50);
    assert_eq!(roundtrip(&polar), polar);
}

#[test]
fn timestamps_roundtrip() {
    let t = Timestamp::new(2024, 2, 29, 23, 59, 59, 1_500_000_000).unwrap();
    let v = Value::Timestamp(t);
    assert_eq!(roundtrip(&v), v);
    let old = Timestamp::new(-44, 3, 15, 12, 0, 0, 0).unwrap();
    let v = Value::Timestamp(old);
    let bytes = v.ser(None);
    assert_eq!(bytes[0], 0x61);
    assert_eq!(roundtrip(&v), v);
}

#[test]
fn timestamps_must_exist() {
    assert!(Timestamp::new(2023, 2, 29, 0, 0, 0, 0).is_none());
    assert!(Timestamp::new(1900, 2, 29, 0, 0, 0, 0).is_none());
    assert!(Timestamp::new(2000, 2, 29, 0, 0, 0, 0).is_some());
    assert!(Timestamp::new(2024, 13, 1, 0, 0, 0, 0).is_none());
    assert!(Timestamp::new(2024, 1, 1, 24, 0, 0, 0).is_none());
    assert!(Timestamp::new(2024, 1, 1, 0, 0, 58, 1_000_000_000).is_none());
    // 2024 as two little-endian bytes, then month 2 and day 30
    let bytes = [0x60u8, 241, 0xE8, 0x07, 2, 30, 0, 0, 0, 0];
    assert!(matches!(deser(&bytes), Err(ValueSerError::InvalidDateOrTime)));
}

#[test]
fn json_and_timezones_roundtrip() {
    let j = Value::JSON("{\"a\":[1,2,3]}".to_string());
    let bytes = j.ser(None);
    assert_eq!(bytes[0], 0x70);
    assert_eq!(bytes[1], 0x10);
    assert_eq!(roundtrip(&j), j);

    let tz = Value::Timezone("Europe/London".to_string());
    let bytes = tz.ser(None);
    assert_eq!(bytes[0], 0xC0);
    assert_eq!(roundtrip(&tz), tz);
}

#[test]
fn json_text_is_read_back_compact_with_keys_in_order() {
    let bytes = Value::JSON("{ \"b\": 1,\n  \"a\" : [1, 2] }".to_string()).ser(None);
    assert_eq!(deser(&bytes).unwrap(), Value::JSON("{\"a\":[1,2],\"b\":1}".to_string()));
}

#[test]
fn invalid_json_and_timezones_are_errors() {
    let bytes = Value::JSON("{not json".to_string()).ser(None);
    assert!(matches!(deser(&bytes), Err(ValueSerError::SerdeJson(_))));
    let bytes = Value::Timezone("Nowhere/Special".to_string()).ser(None);
    assert!(matches!(deser(&bytes), Err(ValueSerError::TzError(_))));
    // a JSON value must hold a string
    let bytes = [0x70u8, 0x40, 5];
    assert!(matches!(
        deser(&bytes),
        Err(ValueSerError::UnexpectedValueType { found: ValueTy::Integer, expected: ValueTy::String })
    ));
}

#[test]
fn dictionaries_roundtrip() {
    let d = Value::Dict(vec![
        ("one".to_string(), Value::Integer(Integer::u8(1))),
        ("many".to_string(), Value::Array((0..10).map(|_| Value::Null(())).collect())),
        ("inner".to_string(), Value::Dict(vec![])),
    ]);
    let bytes = d.ser(None);
    assert_eq!(bytes[0], 0x86);
    assert_eq!(roundtrip(&d), d);
    let huffman = Huffman::new_str("onemanyinner").unwrap();
    assert_eq!(roundtrip_with(&d, Some(&huffman)), d);
}

#[test]
fn long_arrays_carry_their_length() {
    let a = Value::Array((0..7).map(|_| Value::Boolean(true)).collect());
    let bytes = a.ser(None);
    assert_eq!(bytes[0], 0xB1);
    assert_eq!(bytes[1], 7);
    assert_eq!(bytes.len(), 9);
    assert_eq!(roundtrip(&a), a);
}

#[test]
fn a_repeated_key_keeps_its_place_and_takes_the_last_value() {
    let bytes = [
        0x86u8, // dictionary of three entries
        0x10, 1, b'k', 0x40, 1, // k: 1
        0x10, 1, b'j', 0x40, 2, // j: 2
        0x10, 1, b'k', 0x40, 3, // k: 3
    ];
    let v = deser(&bytes).unwrap();
    assert_eq!(
        v,
        Value::Dict(vec![
            ("k".to_string(), Value::Integer(Integer::u8(3))),
            ("j".to_string(), Value::Integer(Integer::u8(2))),
        ])
    );
}

#[test]
fn dictionary_keys_must_be_strings() {
    let bytes = [0x82u8, 0x30, 0x31];
    assert!(matches!(
        deser(&bytes),
        Err(ValueSerError::UnexpectedValueType { found: ValueTy::Boolean, expected: ValueTy::String })
    ));
}

#[test]
fn malformed_values_are_errors() {
    assert!(matches!(deser(&[]), Err(ValueSerError::NotEnoughBytes)));
    // a surrogate code is not a character
    assert!(matches!(deser(&[0x00, 241, 0x00, 0xD8]), Err(ValueSerError::InvalidCharacter)));
    // bytes that are not UTF-8
    assert!(matches!(deser(&[0x10, 2, 0xFF, 0xFE]), Err(ValueSerError::NonUTF8String)));
    // a string longer than the bytes
    assert!(matches!(deser(&[0x10, 5, b'a']), Err(ValueSerError::NotEnoughBytes)));
    // a signed state that does not exist
    assert!(matches!(
        deser(&[0x42, 1]),
        Err(ValueSerError::IntegerSerError(IntegerSerError::InvalidSignedStateDiscriminant(2)))
    ));
    // a compression that does not exist
    assert!(matches!(deser(&[0x27, 0]), Err(ValueSerError::BinarySerError(_))));
    // a magic number above nine
    assert!(matches!(
        deser(&[0x5A, 0, 0]),
        Err(ValueSerError::IntegerSerError(IntegerSerError::InvalidSignedStateDiscriminant(10)))
    ));
    // too few bytes for a float
    assert!(matches!(deser(&[0xA0, 1, 2]), Err(ValueSerError::NotEnoughBytes)));
}

#[test]
fn kinds_have_ids() {
    assert_eq!(ValueTy::Dict.to_u8(), 8);
    assert_eq!(ValueTy::try_from_u8(11).unwrap(), ValueTy::Array);
    assert!(matches!(ValueTy::try_from_u8(16), Err(ValueSerError::InvalidType(16))));
    assert_eq!(Value::Null(()).as_ty(), ValueTy::Null);
}

#[test]
fn lengths_are_read_from_the_header() {
    let bytes = [0xB1u8, 2, 0x30, 0x31];
    let mut cursor = Cursor::new(&bytes);
    cursor.next();
    assert_eq!(Value::deser_array_or_map_len(0xB1, &mut cursor, ValueTy::Array).unwrap(), 2);
    let mut cursor = Cursor::new(&bytes);
    assert!(matches!(
        Value::deser_array_or_map_len(0xB1, &mut cursor, ValueTy::Dict),
        Err(ValueSerError::UnexpectedValueType { found: ValueTy::Array, expected: ValueTy::Dict })
    ));
}

#[test]
fn value_can_deser_tells_where_deser_would_stop_short() {
    let single_leaf = Huffman::new_str("aaa").unwrap();
    // a huffman-coded string holding one bit, with a tree that is a single leaf
    assert!(!Value::can_deser(&[0x11, 1, 1], Some(&single_leaf)));
    // the same string holding no bits can be read
    assert!(Value::can_deser(&[0x11, 0], Some(&single_leaf)));
    // an LZ4 blob whose length is beyond `isize::MAX`, inside an array
    let mut bytes = vec![0xB2u8, 0x22, 247];
    bytes.extend([0xFF; 8]);
    assert!(!Value::can_deser(&bytes, None));
    // errors are readable: deser reports them
    assert!(Value::can_deser(&[], None));
    assert!(Value::can_deser(&[0xB2, 0x40], None));
    let v = Value::Array(vec![Value::String("x".to_string()), Value::Boolean(true)]);
    assert!(Value::can_deser(&v.ser(None), None));
}

#[test]
fn equality_compares_floats_as_floats_and_dictionaries_as_maps() {
    let nan = Value::DoubleFloat(f64::NAN.to_bits());
    assert_ne!(nan, Value::DoubleFloat(f64::NAN.to_bits()));
    assert_eq!(Value::DoubleFloat(0.0f64.to_bits()), Value::DoubleFloat((-0.0f64).to_bits()));
    assert_eq!(Value::SingleFloat(0.0f32.to_bits()), Value::SingleFloat((-0.0f32).to_bits()));
    assert_ne!(Value::SingleFloat(f32::NAN.to_bits()), Value::SingleFloat(f32::NAN.to_bits()));
    assert_ne!(Value::SingleFloat(1.0f32.to_bits()), Value::DoubleFloat(1.0f64.to_bits()));
    let polar = |m: f64| Value::Imaginary(Imaginary::PolarForm { modulus: m.to_bits(), argument: 0.0f64.to_bits() });
    assert_eq!(polar(0.0), polar(-0.0));
    assert_ne!(polar(f64::NAN), polar(f64::NAN));
    let a = Value::Dict(vec![
        ("x".to_string(), Value::Boolean(true)),
        ("y".to_string(), Value::Array(vec![Value::Null(()), Value::Integer(Integer::u64(3))])),
    ]);
    let b = Value::Dict(vec![
        ("y".to_string(), Value::Array(vec![Value::Null(()), Value::Integer(Integer::u64(3))])),
        ("x".to_string(), Value::Boolean(true)),
    ]);
    assert_eq!(a, b);
    let c = Value::Dict(vec![("x".to_string(), Value::Boolean(true))]);
    assert_ne!(a, c);
    assert_ne!(
        Value::Array(vec![Value::Boolean(true), Value::Boolean(false)]),
        Value::Array(vec![Value::Boolean(false), Value::Boolean(true)])
    );
}
