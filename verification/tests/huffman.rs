use sourisdb::utilities::bits::Bits;
use sourisdb::utilities::cursor::Cursor;
use sourisdb::utilities::huffman::{Huffman, Node};

#[test]
fn nodes_from_empty_string() {
    let chars: Vec<char> = "".chars().collect();
    let huffman = Huffman::<char>::data_to_node_tree(&chars);
    assert!(huffman.is_none());
}

#[test]
fn nodes_from_one_char_repeated() {
    let chars: Vec<char> = "aaaaaaaaaaaaaaaaaaaaaaaaaaaaaaaaa".chars().collect();
    let huffman = Huffman::<char>::data_to_node_tree(&chars).unwrap();
    let Node::Leaf(ch) = huffman else {
        panic!("didn't find leaf node at root");
    };
    assert_eq!(ch, 'a');
}

#[test]
fn test_encode_decode_five_characters() {
    let data = "abcdeabcdabcabaaaaaa";
    let huffman = Huffman::new_str(data).unwrap();

    let encoded = huffman.encode_string(data).unwrap();
    let decoded = huffman.decode_string(encoded).unwrap();

    assert_eq!(data, decoded);
}

#[test]
fn huffman_tree_roundtrips_through_bytes() {
    let data = "the quick brown fox jumps over the lazy dog";
    let huffman = Huffman::new_str(data).unwrap();
    let bytes = huffman.ser();
    let mut cursor = Cursor::new(&bytes);
    let back = Huffman::<char>::deser(&mut cursor).unwrap();
    assert!(cursor.is_finished());
    let encoded = back.encode_string(data).unwrap();
    assert_eq!(huffman.decode_string(encoded).unwrap(), data);
}

#[test]
fn huffman_cannot_code_unknown_characters() {
    let huffman = Huffman::new_str("abc").unwrap();
    assert!(huffman.encode_string("abd").is_none());
}

#[test]
fn english_frequencies_code_ordinary_text() {
    let huffman = Huffman::new_with_english_frequencies();
    let text = "Hello, World 123";
    let encoded = huffman.encode_string(text).unwrap();
    // frequent characters take fewer bits than eight each
    assert!(encoded.len() < text.len() * 8);
    assert_eq!(huffman.decode_string(encoded).unwrap(), text);
}

#[test]
fn decoding_empty_bits_gives_empty_string() {
    let huffman = Huffman::new_str("ab").unwrap();
    assert_eq!(huffman.decode_string(Bits::new()).unwrap(), "");
}

#[test]
fn english_frequencies_code_every_letter_of_a_pangram() {
    let huffman = Huffman::new_with_english_frequencies();
    let text = "The quick brown fox jumps over the lazy dog.";
    let encoded = huffman.encode_string(text).unwrap();
    assert_eq!(huffman.decode_string(encoded).unwrap(), text);
    assert!(huffman.encode_string("é").is_none());
}

#[test]
fn decoding_stops_short_of_a_leaf_gives_nothing() {
    // 'a' is the most common, so it has a one-bit code and 'b' and 'c' two-bit codes.
    let huffman = Huffman::new_str("aaaabbc").unwrap();
    let whole = huffman.encode_string("ab").unwrap();
    assert_eq!(whole.len(), 3);
    assert_eq!(huffman.decode_string(whole.duplicate()).unwrap(), "ab");
    let mut cut = whole.duplicate();
    cut.pop();
    assert!(huffman.decode_string(cut).is_none());
}

#[test]
fn equally_common_symbols_get_codes_of_equal_length() {
    let huffman = Huffman::new_str("abcd").unwrap();
    for c in ["a", "b", "c", "d"] {
        assert_eq!(huffman.encode_string(c).unwrap().len(), 2);
    }
    // with one symbol as common as the three others together, it gets a one-bit code
    let huffman = Huffman::new_str("aaabcd").unwrap();
    assert_eq!(huffman.encode_string("a").unwrap().len(), 1);
    assert_eq!(huffman.encode_string("abcd").unwrap().len(), 1 + 2 + 3 + 3);
}
