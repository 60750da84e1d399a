use sourisdb::utilities::bits::Bits;
use sourisdb::utilities::cursor::Cursor;

#[test]
fn test_display() {
    let mut bits = Bits::default();
    bits.push(false);
    bits.push(true);
    bits.push(true);
    bits.push(false);
    bits.push(false);
    bits.push(true);

    let disp = bits.to_string();
    assert_eq!(disp, "011001");
}

#[test]
fn test_pop() {
    let mut bits: Bits = Bits::default();
    bits.push(false);
    bits.push(true);
    bits.push(true);
    bits.push(false);
    bits.push(false);
    bits.push(true);
    bits.push(true);
    bits.push(false);
    bits.push(true);

    assert_eq!(bits.pop(), Some(true));
    assert_eq!(bits.pop(), Some(false));
    assert_eq!(bits.pop(), Some(true));

    bits.push(false);
    bits.push(false);
    bits.push(false);
    bits.push(true);
    bits.push(false);
    assert_eq!(bits.pop(), Some(false));
    assert_eq!(bits.pop(), Some(true));
    assert_eq!(bits.pop(), Some(false));
    assert_eq!(bits.pop(), Some(false));
    assert_eq!(bits.pop(), Some(false));

    assert_eq!(bits.pop(), Some(true));
    assert_eq!(bits.pop(), Some(false));
    assert_eq!(bits.pop(), Some(false));
    assert_eq!(bits.pop(), Some(true));
    assert_eq!(bits.pop(), Some(true));
    assert_eq!(bits.pop(), Some(false));
    assert_eq!(bits.pop(), None);
}

#[test]
fn bits_ser_layout_and_roundtrip() {
    let bits = Bits::from_bools(&[true, false, true, true, false, false, false, false, true]);
    let sered = bits.ser();
    // nine bits as an integer, then two bytes with the first bit lowest
    assert_eq!(sered, vec![9, 0b0000_1101, 0b0000_0001]);
    let mut cursor = Cursor::new(&sered);
    let back = Bits::deser(&mut cursor).unwrap();
    assert_eq!(back.to_bools(), bits.to_bools());
    assert!(cursor.is_finished());
}

#[test]
fn bits_deser_needs_all_bytes() {
    let bytes = [17u8, 0xFF, 0xFF];
    let mut cursor = Cursor::new(&bytes);
    assert!(Bits::deser(&mut cursor).is_err());
}

#[test]
fn bits_push_many_and_index() {
    let mut a = Bits::from_bools(&[true, false]);
    let b = Bits::from_bools(&[false, true, true]);
    a.push_many(b);
    assert_eq!(a.len(), 5);
    assert_eq!(a.to_string(), "10011");
    assert!(a.index(3));
    assert!(!a.index(1));
    a.clear();
    assert!(a.is_empty());
}

#[test]
fn deser_keeps_the_bits_past_the_end() {
    // one valid bit, in a byte that holds more set bits
    let bytes = [1u8, 0xFF];
    let mut cursor = Cursor::new(&bytes);
    let bits = Bits::deser(&mut cursor).unwrap();
    assert_eq!(bits.len(), 1);
    assert!(bits.index(0));
    // the bit just past the end is kept, the others are cleared
    assert_eq!(bits.get_proper_bytes(), vec![0x03]);
    assert_eq!(bits.ser(), vec![1, 0x03]);
    // pushing sets the next bit in place, so it comes out set
    let mut pushed = bits.duplicate();
    pushed.push(false);
    assert!(pushed.index(1));
    // a clean list with the same bit compares unequal, as the kept bit differs
    let mut clean = Bits::new();
    clean.push(true);
    assert!(!bits.eq(&clean));
    assert_eq!(clean.get_proper_bytes(), vec![0x01]);
}
