use sourisdb::daddy::niches::integer::{Integer, IntegerDiscriminant, IntegerSerError, SignedState};
use sourisdb::daddy::utilities::cursor::Cursor;
use sourisdb::daddy::values::ValueTy;
use sourisdb::daddy::version::Version;

fn roundtrip(i: Integer) -> Integer {
    let sered = i.ser();
    let mut cursor = Cursor::new(&sered);
    let back = Integer::deser(&mut cursor).unwrap();
    assert_eq!(cursor.position(), sered.len());
    back
}

#[test]
fn back_to_original_for_i64() {
    for n in [-1_000_000i64, -1, 0, 1, 255, 256, 65_536, 999_999, i64::MAX] {
        let back = roundtrip(Integer::i64(n));
        assert_eq!(back.try_into_i64().unwrap(), n);
    }
}

#[test]
fn unsigned_widths_roundtrip() {
    assert_eq!(roundtrip(Integer::u8(200)).try_into_u8().unwrap(), 200);
    assert_eq!(roundtrip(Integer::u32(70_000)).try_into_u32().unwrap(), 70_000);
    assert_eq!(roundtrip(Integer::u64(u64::MAX)).try_into_u64().unwrap(), u64::MAX);
    assert_eq!(roundtrip(Integer::usize(5)).try_into_usize().unwrap(), 5);
    assert_eq!(roundtrip(Integer::i8(-100)).try_into_i8().unwrap(), -100);
    assert_eq!(roundtrip(Integer::i32(-70_000)).try_into_i32().unwrap(), -70_000);
    assert_eq!(roundtrip(Integer::isize(-3)).try_into_isize().unwrap(), -3);
}

#[test]
fn small_values_are_stored_in_fewer_bytes() {
    // header: signed state, original width, stored width
    assert_eq!(Integer::u64(5).ser(), vec![0b01_100_001, 5]);
    assert_eq!(Integer::i32(-300).ser(), vec![0b11_011_010, 0x2C, 0x01]);
    assert_eq!(Integer::u16(7).ser(), vec![0b01_010_001, 7]);
}

#[test]
fn a_two_byte_integer_keeps_its_high_byte() {
    assert_eq!(Integer::u16(256).ser(), vec![0b01_010_010, 0, 1]);
    assert_eq!(Integer::u16(513).ser(), vec![0b01_010_010, 1, 2]);
    assert_eq!(roundtrip(Integer::u16(513)).try_into_u16().unwrap(), 513);
    assert_eq!(roundtrip(Integer::u16(256)).try_into_u16().unwrap(), 256);
    assert_eq!(roundtrip(Integer::i16(-300)).try_into_i16().unwrap(), -300);
    assert_eq!(roundtrip(Integer::u16(255)).try_into_u16().unwrap(), 255);
}

#[test]
fn conversions_need_the_same_type() {
    assert!(matches!(Integer::u8(1).try_into_u16(), Err(IntegerSerError::WrongType)));
    assert!(matches!(Integer::i8(1).try_into_u8(), Err(IntegerSerError::WrongType)));
    assert!(matches!(Integer::u8(1).try_into_i8(), Err(IntegerSerError::WrongType)));
}

#[test]
fn deser_errors() {
    let mut cursor = Cursor::new(&[]);
    assert!(matches!(Integer::deser(&mut cursor), Err(IntegerSerError::NotEnoughBytes)));
    let mut cursor = Cursor::new(&[0b00_001_001, 1]);
    assert!(matches!(Integer::deser(&mut cursor), Err(IntegerSerError::InvalidDiscriminant)));
    let mut cursor = Cursor::new(&[0b01_100_100, 1, 2]);
    assert!(matches!(Integer::deser(&mut cursor), Err(IntegerSerError::NotEnoughBytes)));
    assert_eq!(cursor.position(), 3);
}

#[test]
fn widths_and_fits() {
    assert_eq!(IntegerDiscriminant::Medium.bytes(), 4);
    assert_eq!(IntegerDiscriminant::iterator_to_size_can_fit_in(&[1, 2, 0, 0], 3), IntegerDiscriminant::Smedium);
    assert_eq!(IntegerDiscriminant::iterator_to_size_can_fit_in(&[1, 0, 0, 0, 0, 0, 0, 0], 7), IntegerDiscriminant::Small);
    assert_eq!(IntegerDiscriminant::iterator_to_size_can_fit_in(&[1, 0, 0, 0, 0, 9, 0, 0], 7), IntegerDiscriminant::Large);
    assert_eq!(IntegerDiscriminant::iterator_to_size_can_fit_in(&[1, 2, 3, 4], 3), IntegerDiscriminant::Medium);
    assert_eq!(IntegerDiscriminant::iterator_to_size_can_fit_in(&[1, 2], 1), IntegerDiscriminant::Smedium);
    assert_eq!(IntegerDiscriminant::iterator_to_size_can_fit_in(&[1, 0], 1), IntegerDiscriminant::Small);
    let _ = SignedState::Unsigned;
}

#[test]
fn daddy_cursor() {
    let data = [1u8, 2, 3, 4];
    let mut cursor = Cursor::new(&data);
    assert!(cursor.seek(3));
    assert!(!cursor.seek(1));
    assert!(cursor.seek_backwards(2));
    assert_eq!(cursor.position(), 1);
    assert_eq!(cursor.peek(1), Some([2u8, 3].as_slice()));
    assert_eq!(cursor.read(2), Some([2u8, 3].as_slice()));
    assert_eq!(cursor.read(2), None);
    assert!(!cursor.seek_backwards(4));
}

#[test]
fn daddy_kinds_and_version() {
    assert_eq!(ValueTy::Array.id(), 0b110);
    assert_eq!(Version::V0_1_0.to_bytes(), b"V0_1_0");
    let mut cursor = Cursor::new(b"V0_1_0");
    assert_eq!(Version::from_bytes(&mut cursor).unwrap(), Version::V0_1_0);
}
