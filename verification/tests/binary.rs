use sourisdb::types::binary::huffman::{huffman, un_huffman};
use sourisdb::types::binary::lz::{lz, un_lz};
use sourisdb::types::binary::rle::{rle, un_rle};
use sourisdb::types::binary::{BinaryCompression, BinaryData, BinarySerError};
use sourisdb::utilities::cursor::Cursor;

const CASES: &[&[u8]] = &[
    &[
        0xFF, 0xFF, 0xFF, 0xFF, 0xFF, 0x00, 0x00, 0x00, 0xFF, 0xFF, 0xFF, 0x00, 0x00, 0xFF,
    ],
    &[],
    &[0],
    &[0x12, 0x12, 0x12, 0xDE, 0xAD, 0xBE, 0xEF],
    &[0xAB; 10_000],
];

fn test_roundtrip<E: std::fmt::Debug>(
    case: &[u8],
    ser: fn(&[u8]) -> Vec<u8>,
    deser: fn(&mut Cursor<u8>) -> Result<Vec<u8>, E>,
) {
    let sered = ser(case);
    let mut cursor = Cursor::new(&sered);
    let back = deser(&mut cursor).unwrap();
    assert_eq!(back, case);
    assert!(cursor.is_finished());
}

#[test]
fn test_rle_specific_cases() {
    for case in CASES {
        test_roundtrip(case, rle, un_rle);
    }
}

#[test]
fn test_huff_specific_cases() {
    for case in CASES {
        test_roundtrip(case, huffman, un_huffman);
    }
}

#[test]
fn test_lz_specific_cases() {
    for case in CASES {
        let vec = case.to_vec();

        let encoded = lz(&vec);
        let mut cursor = Cursor::new(&encoded);
        let decoded = un_lz(&mut cursor).unwrap();

        assert_eq!(decoded, vec);
    }
}

#[test]
fn rle_writes_runs_as_pairs() {
    // three pairs: (count, byte), behind the number of bytes that follow
    assert_eq!(rle(&[5, 5, 5, 7, 9, 9]), vec![6, 3, 5, 1, 7, 2, 9]);
    assert_eq!(rle(&[]), vec![0]);
}

#[test]
fn rle_splits_long_runs() {
    let data = [1u8; 300];
    let encoded = rle(&data);
    assert_eq!(encoded, vec![4, 255, 1, 45, 1]);
}

#[test]
fn huffman_of_equal_bytes_is_short() {
    let data = [3u8; 50];
    let encoded = huffman(&data);
    let mut cursor = Cursor::new(&encoded);
    assert_eq!(un_huffman(&mut cursor).unwrap(), data.to_vec());
    assert!(encoded.len() < 10);
}

#[test]
fn binary_data_picks_a_small_compression() {
    for case in CASES {
        let data = BinaryData(case.to_vec());
        let (ct, bytes) = data.ser();
        let mut cursor = Cursor::new(&bytes);
        let back = BinaryData::deser(ct, &mut cursor).unwrap();
        assert_eq!(back, data);
        assert!(cursor.is_finished());
        // never larger than storing the bytes as they are
        assert!(bytes.len() <= case.len() + 3);
    }
}

#[test]
fn binary_data_stores_short_unrepeated_bytes_plainly() {
    let data = BinaryData(vec![1, 2, 3]);
    let (ct, bytes) = data.ser();
    assert_eq!(ct, BinaryCompression::Nothing);
    assert_eq!(bytes, vec![3, 1, 2, 3]);
}

#[test]
fn compression_bytes_roundtrip_and_reject_unknown() {
    for b in 0u8..4 {
        assert_eq!(BinaryCompression::try_from_u8(b).unwrap().to_u8(), b);
    }
    assert!(matches!(
        BinaryCompression::try_from_u8(4),
        Err(BinarySerError::NoCompressionTypeFound(4))
    ));
}

#[test]
fn binary_data_reports_missing_bytes() {
    let bytes = [5u8, 1, 2];
    let mut cursor = Cursor::new(&bytes);
    assert!(matches!(
        BinaryData::deser(BinaryCompression::Nothing, &mut cursor),
        Err(BinarySerError::NotEnoughBytes)
    ));
}
