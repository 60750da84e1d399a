use sourisdb::utilities::cursor::Cursor;

#[test]
fn test_cursor_movement() {
    let data = [0, 1, 2, 3, 4, 5, 6, 7, 8, 9];
    let mut cursor = Cursor::new(&data);

    assert_eq!(cursor.read(5), Some([0, 1, 2, 3, 4].as_slice()));
    assert_eq!(cursor.pos(), 5);

    assert_eq!(cursor.peek(5), Some([5, 6, 7, 8, 9].as_slice()));
    assert_eq!(cursor.pos(), 5);

    assert_eq!(cursor.read(5), Some([5, 6, 7, 8, 9].as_slice()));
    assert_eq!(cursor.pos(), 10);
    let empty: &[i32] = &[];
    assert_eq!(cursor.peek_remaining(), empty);

    cursor.move_backwards(4);
    assert_eq!(cursor.pos(), 6);
    assert_eq!(cursor.peek_remaining(), &[6, 7, 8, 9]);

    assert_eq!(cursor.read(2), Some([6, 7].as_slice()));

    cursor.move_forwards(1);
    assert_eq!(cursor.pos(), 9);
    assert_eq!(cursor.read(1), Some([9].as_slice()));
    assert_eq!(cursor.pos(), 10);

    assert_eq!(cursor.read(1), None);
    assert_eq!(cursor.pos(), 10);
}

#[test]
fn cursor_refuses_moves_out_of_range() {
    let data = [1u8, 2, 3];
    let mut cursor = Cursor::new(&data);
    assert!(!cursor.move_backwards(1));
    assert_eq!(cursor.pos(), 0);
    assert!(cursor.move_forwards(3));
    assert!(cursor.is_finished());
    assert!(!cursor.move_forwards(1));
    assert_eq!(cursor.next(), None);
    cursor.set_pos(1);
    assert_eq!(cursor.next(), Some(&2));
    assert_eq!(cursor.items_remaining(), 1);
    assert_eq!(cursor.read_remaining(), &[3]);
    assert!(cursor.is_finished());
}

#[test]
fn cursor_peek_does_not_move() {
    let data = [7u8, 8, 9];
    let cursor = Cursor::new(&data);
    assert_eq!(cursor.peek(4), None);
    assert_eq!(cursor.peek(3), Some([7u8, 8, 9].as_slice()));
    assert_eq!(cursor.pos(), 0);
    assert_eq!(cursor.as_ref(), &[7, 8, 9]);
}

#[test]
fn read_exact_and_peek_exact_give_arrays() {
    let data: Vec<u8> = b"Hello, World!".to_vec();
    let mut cursor = Cursor::new(&data);
    assert_eq!(cursor.peek_exact::<5>(), Some(b"Hello"));
    assert_eq!(cursor.pos(), 0);
    assert_eq!(cursor.read_exact::<5>(), Some(b"Hello"));
    assert_eq!(cursor.pos(), 5);
    assert_eq!(cursor.read_exact::<20>(), None);
    assert_eq!(cursor.pos(), 5);
    assert_eq!(cursor.read_exact::<8>(), Some(b", World!"));
    assert!(cursor.is_finished());
    assert_eq!(cursor.peek_exact::<1>(), None);
}
