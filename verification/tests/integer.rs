use sourisdb::types::integer::{Integer, IntegerSerError, SignedState};
use sourisdb::utilities::cursor::Cursor;

fn roundtrip(i: Integer) -> Integer {
    let (ss, bytes) = i.ser();
    let mut cursor = Cursor::new(&bytes);
    let back = Integer::deser(ss, &mut cursor).unwrap();
    assert!(cursor.is_finished());
    back
}

#[test]
fn small_numbers_are_one_byte() {
    assert_eq!(Integer::u8(5).ser(), (SignedState::Positive, vec![5]));
    assert_eq!(Integer::u32(238).ser(), (SignedState::Positive, vec![238]));
    assert_eq!(Integer::i32(-5).ser(), (SignedState::Negative, vec![5]));
    assert_eq!(Integer::i8(-127).ser(), (SignedState::Negative, vec![127]));
}

#[test]
fn larger_numbers_carry_their_length() {
    assert_eq!(Integer::u32(1000).ser(), (SignedState::Positive, vec![241, 0xE8, 0x03]));
    assert_eq!(Integer::u8(239).ser(), (SignedState::Positive, vec![239]));
    assert_eq!(Integer::u8(255).ser(), (SignedState::Positive, vec![240, 255]));
    assert_eq!(Integer::i64(-200).ser(), (SignedState::Negative, vec![240, 200]));
    assert_eq!(
        Integer::u128(u128::MAX).ser().1.len(),
        17
    );
}

#[test]
fn integers_roundtrip() {
    for n in [0i64, 1, -1, 127, -128, 239, 240, 65535, -65536, i64::MAX, i64::MIN] {
        let back = roundtrip(Integer::i64(n));
        assert_eq!(back.try_into_i64().unwrap(), n);
    }
    let back = roundtrip(Integer::u128(u128::MAX));
    assert_eq!(back.try_into_u128().unwrap(), u128::MAX);
}

#[test]
fn conversions_check_range_and_sign() {
    assert!(matches!(Integer::u16(300).try_into_u8(), Err(IntegerSerError::WrongType)));
    assert!(matches!(Integer::i8(-1).try_into_u32(), Err(IntegerSerError::WrongType)));
    assert_eq!(Integer::i8(-128).try_into_i8().unwrap(), -128);
    assert!(matches!(Integer::i16(-129).try_into_i8(), Err(IntegerSerError::WrongType)));
    assert_eq!(Integer::u64(12).try_into_i16().unwrap(), 12);
}

#[test]
fn bits_and_signs() {
    assert_eq!(Integer::u8(0).unsigned_bits(), 0);
    assert_eq!(Integer::u8(255).unsigned_bits(), 8);
    assert_eq!(Integer::u16(256).unsigned_bits(), 9);
    assert!(Integer::i32(-3).is_negative());
    assert!(Integer::i32(3).is_positive());
    assert_eq!(Integer::i32(-3).content(), 3);
}

#[test]
fn deser_reports_missing_bytes_and_bad_states() {
    let bytes = [242u8, 1];
    let mut cursor = Cursor::new(&bytes);
    assert!(matches!(
        Integer::deser(SignedState::Positive, &mut cursor),
        Err(IntegerSerError::NotEnoughBytes)
    ));
    assert!(matches!(
        SignedState::try_from_u8(2),
        Err(IntegerSerError::InvalidSignedStateDiscriminant(2))
    ));
}

#[test]
fn from_str_parses_base_ten() {
    let i = Integer::from_str("123").unwrap();
    assert!(i.is_positive());
    assert_eq!(i.content(), 123);
    let i = Integer::from_str("-5").unwrap();
    assert!(i.is_negative());
    assert_eq!(i.content(), 5);
    assert_eq!(Integer::from_str("+7").unwrap().content(), 7);
    assert_eq!(Integer::from_str("0").unwrap(), Integer::u8(0));
    assert_eq!(
        Integer::from_str("340282366920938463463374607431768211455").unwrap().content(),
        u128::MAX
    );
}

#[test]
fn from_str_rejects_what_is_not_a_number() {
    assert!(matches!(Integer::from_str(""), Err(IntegerSerError::NotEnoughBytes)));
    assert!(matches!(Integer::from_str("abc"), Err(IntegerSerError::IntegerParseError)));
    assert!(matches!(Integer::from_str("-"), Err(IntegerSerError::IntegerParseError)));
    assert!(matches!(Integer::from_str("12a"), Err(IntegerSerError::IntegerParseError)));
    assert!(matches!(
        Integer::from_str("340282366920938463463374607431768211456"),
        Err(IntegerSerError::IntegerParseError)
    ));
}

#[test]
fn to_string_writes_base_ten() {
    assert_eq!(Integer::i64(-42).to_string(), "-42");
    assert_eq!(Integer::u8(0).to_string(), "0");
    assert_eq!(Integer::u8(7).to_string(), "7");
    assert_eq!(Integer::u128(u128::MAX).to_string(), u128::MAX.to_string());
    assert_eq!(Integer::i128(i128::MIN).to_string(), i128::MIN.to_string());
    assert_eq!(Integer::from_parts(SignedState::Negative, 0).to_string(), "0");
}

#[test]
fn text_roundtrip() {
    for i in [Integer::i64(-123_456_789), Integer::u64(u64::MAX), Integer::u8(0), Integer::i8(-1)] {
        assert_eq!(Integer::from_str(&i.to_string()).unwrap(), i);
    }
}

#[test]
fn arithmetic_on_integers() {
    assert_eq!(Integer::i64(5).add(Integer::i64(-7)), Integer::i64(-2));
    assert_eq!(Integer::u8(7).sub(Integer::u8(2)), Integer::u8(5));
    assert_eq!(Integer::i8(-3).mul(Integer::u8(4)), Integer::i64(-12));
    assert_eq!(Integer::i64(-7).div(Integer::u8(2)), Integer::i64(-3));
    assert_eq!(Integer::u8(7).div(Integer::u8(2)), Integer::u8(3));
    assert_eq!(Integer::i64(-4).add(Integer::i64(4)), Integer::u8(0));
    assert_eq!(Integer::i128(i128::MIN).div(Integer::i64(1)), Integer::i128(i128::MIN));
    assert_eq!(Integer::u128(u128::MAX).sub(Integer::u128(u128::MAX)), Integer::u8(0));
}
