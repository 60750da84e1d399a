//! Huffman coding of bytes, for [`crate::types::binary::BinaryData`].
use vstd::prelude::*;
use crate::types::binary::lz::append;
use crate::types::integer::{
    Integer, IntegerSerError, SignedState, decoding, encoding, lemma_encoding_roundtrip,
};
use crate::utilities::bits::{Bits, bits_decoding, lemma_bits_ser_deser_roundtrip};
use crate::utilities::cursor::Cursor;
use crate::utilities::huffman::{
    Huffman, HuffmanSerError, HuffmanSymbol, Node, codes_of, decode_walk, encode_path, lemma_codes_of_len, walk_ends, lemma_encoded_walk_ends,
    lemma_decode_encoded, lemma_node_roundtrip, lemma_parse_node_len, node_bytes, parse_node,
    tree_facts, huffman_tree, code_counts,
};
use crate::types::binary::rle::repeat;

verus! {

/// Every byte of `s` is the same.
pub open spec fn all_equal(s: Seq<u8>) -> bool {
    forall|i: int, j: int| 0 <= i < s.len() && 0 <= j < s.len() ==> s[i] == s[j]
}

/// Whether `out` is what [`huffman`] may write for `input`: `[0]` for nothing; `[1]`, the
/// length and the byte when every byte is the same; otherwise `[2]`, a tree that Huffman's
/// algorithm builds from the counts of the bytes (which of equally light trees it merges
/// depends on the order in which a hash map hands out the counts) and the serialised bits that
/// encode the input with it.
pub open spec fn huffman_output(input: Seq<u8>, out: Seq<u8>) -> bool {
    if input.len() == 0 {
        out == seq![0u8]
    } else if all_equal(input) {
        out == seq![1u8] + encoding(SignedState::Positive, input.len()).1 + seq![input[0]]
    } else {
        exists|root: Node<u8>, b: Bits|
            #![trigger tree_facts(root, codes_of(input)), b.wf()]
            {
                &&& tree_facts(root, codes_of(input))
                &&& huffman_tree(root, code_counts(input))
                &&& b.wf()
                &&& Some(b@) == encode_path(root, input)
                &&& out == seq![2u8] + node_bytes(root) + (encoding(SignedState::Positive, b@.len()).1
                    + b.bytes())
            }
    }
}

/// What [`un_huffman`] reads at the front of `s`: the bytes and the number of bytes taken up, or
/// the error it reports.
pub open spec fn huffman_decoded(s: Seq<u8>) -> Result<(Seq<u8>, nat), HuffmanSerError> {
    if s.len() == 0 {
        Err(HuffmanSerError::NotEnoughBytes)
    } else if s[0] == 0 {
        Ok((Seq::empty(), 1))
    } else if s[0] == 1 {
        let s1 = s.drop_first();
        match decoding(s1) {
            None => Err(HuffmanSerError::Integer(IntegerSerError::NotEnoughBytes)),
            Some((n, c)) => if n > usize::MAX {
                Err(HuffmanSerError::Integer(IntegerSerError::WrongType))
            } else if c < s1.len() {
                Ok((repeat(s1[c as int], n), 1 + c + 1))
            } else {
                Err(HuffmanSerError::NotEnoughBytes)
            },
        }
    } else {
        let s1 = s.drop_first();
        match parse_node::<u8>(s1) {
            Err(e) => Err(e),
            Ok((root, k)) => match bits_decoding(s1.subrange(k as int, s1.len() as int)) {
                Err(e) => Err(HuffmanSerError::Integer(e)),
                Ok((bits, k2)) => if walk_ends(root, root, true, bits) {
                    Ok((decode_walk(root, root, bits), 1 + k + k2))
                } else {
                    Err(HuffmanSerError::NotEnoughBytes)
                },
            },
        }
    }
}

/// Whether a huffman stream can be decoded: one whose tree is a single leaf and whose bits are
/// not empty cannot be walked; every other stream can.
pub open spec fn huffman_readable(s: Seq<u8>) -> bool {
    s.len() > 0 && s[0] > 1 ==> match parse_node::<u8>(s.drop_first()) {
        Ok((root, k)) => match bits_decoding(s.drop_first().subrange(k as int, s.len() - 1)) {
            Ok((bits, _)) => bits.len() == 0 || root is Branch,
            Err(_) => true,
        },
        Err(_) => true,
    }
}

/// Whether every byte of `input` equals the first.
pub fn bytes_all_equal(input: &[u8]) -> (b: bool)
    ensures
        b == all_equal(input@),
{
    if input.len() == 0 {
        return true;
    }
    let first = input[0];
    let mut i: usize = 1;
    while i < input.len()
        invariant
            1 <= i <= input@.len(),
            first == input@[0],
            forall|j: int| 0 <= j < i ==> input@[j] == first,
        decreases input.len() - i,
    {
        if input[i] != first {
            return false;
        }
        i = i + 1;
    }
    true
}

/// Huffman codes `input`: see [`huffman_output`].
pub fn huffman(input: &[u8]) -> (r: Vec<u8>)
    requires
        input@.len() * 256 <= usize::MAX,
    ensures
        huffman_output(input@, r@),
{
    if input.len() == 0 {
        let mut v: Vec<u8> = Vec::new();
        v.push(0);
        return v;
    } else if bytes_all_equal(input) {
        let (_, n) = Integer::usize(input.len()).ser();
        let mut out: Vec<u8> = Vec::new();
        out.push(1);
        append(&mut out, &n);
        out.push(input[0]);
        proof {
            assert(out@ =~= seq![1u8] + n@ + seq![input@[0]]);
        }
        return out;
    }
    proof {
        lemma_codes_below_256(input@);
        vstd::arithmetic::mul::lemma_mul_inequality(
            codes_of(input@).len() as int,
            256,
            input@.len() as int,
        );
        vstd::arithmetic::mul::lemma_mul_is_commutative(codes_of(input@).len() as int, input@.len() as int);
    }
    let (huffman, encoded) = match Huffman::<u8>::new_and_encode(input) {
        Some(p) => p,
        None => {
            proof {
                assert(false);
            }
            return Vec::new();
        },
    };
    let serialised_huffman = huffman.ser();
    let serialised_bits = encoded.ser();
    let mut output: Vec<u8> = Vec::new();
    output.push(2);
    append(&mut output, &serialised_huffman);
    append(&mut output, &serialised_bits);
    proof {
        assert(output@ =~= seq![2u8] + node_bytes(huffman.root()) + (encoding(
            SignedState::Positive,
            encoded@.len(),
        ).1 + encoded.bytes()));
        assert(tree_facts(huffman.root(), codes_of(input@)) && encoded.wf());
    }
    output
}

/// The codes of bytes are below 256, so there are at most 256 of them.
proof fn lemma_codes_below_256(s: Seq<u8>)
    ensures
        codes_of(s).len() <= 256,
{
    lemma_codes_of_len(s);
    crate::utilities::huffman::lemma_below_set(256);
    assert(codes_of(s).subset_of(Set::new(|x: u32| x < 256))) by {
        assert forall|c: u32| #[trigger] codes_of(s).contains(c) implies c < 256 by {
            let j = choose|j: int| 0 <= j < s.len() && (#[trigger] s[j]).spec_code() == c;
        }
    }
    vstd::set_lib::lemma_len_subset(codes_of(s), Set::new(|x: u32| x < 256));
}

/// Whether [`un_huffman`] can read `s` (see [`huffman_readable`]): it cannot where the bytes
/// hold a tree that is a single leaf followed by bits to decode with it.
pub fn readable(s: &[u8]) -> (b: bool)
    ensures
        b == huffman_readable(s@),
{
    if s.len() == 0 || s[0] <= 1 {
        return true;
    }
    let mut c = Cursor::new(s);
    let _ = c.next();
    assert(c.rest() =~= s@.drop_first());
    let ghost s1 = s@.drop_first();
    let ghost head0 = c.head();
    match Node::<u8>::deser(&mut c) {
        Ok(root) => {
            assert(c.rest() =~= s1.subrange(c.head() - head0, s@.len() - 1));
            match Bits::deser(&mut c) {
                Ok(bits) => match root {
                    Node::Branch { .. } => true,
                    Node::Leaf(_) => bits.len() == 0,
                },
                Err(_) => true,
            }
        },
        Err(_) => true,
    }
}

/// Undoes [`huffman`]: see [`huffman_decoded`].
pub fn un_huffman(cursor: &mut Cursor<u8>) -> (r: Result<Vec<u8>, HuffmanSerError>)
    requires
        old(cursor).wf(),
        huffman_readable(old(cursor).rest()),
    ensures
        final(cursor).wf(),
        final(cursor).items() == old(cursor).items(),
        match huffman_decoded(old(cursor).rest()) {
            Ok((v, k)) => r matches Ok(out) && out@ == v && final(cursor).head() == old(cursor).head() + k,
            Err(e) => r matches Err(e2) && e2 == e,
        },
{
    let ghost s = old(cursor).rest();
    let ghost head0 = old(cursor).head();
    let first_byte = match cursor.next() {
        Some(b) => *b,
        None => return Err(HuffmanSerError::NotEnoughBytes),
    };
    proof {
        assert(cursor.rest() =~= s.drop_first());
    }
    if first_byte == 0 {
        return Ok(Vec::new());
    } else if first_byte == 1 {
        let count = match Integer::deser(SignedState::Positive, cursor) {
            Ok(i) => match i.try_into_usize() {
                Ok(v) => v,
                Err(e) => return Err(HuffmanSerError::Integer(e)),
            },
            Err(e) => return Err(HuffmanSerError::Integer(e)),
        };
        let element = match cursor.next() {
            Some(b) => *b,
            None => return Err(HuffmanSerError::NotEnoughBytes),
        };
        let v = vec![element; count];
        proof {
            assert(v@ =~= repeat(element, count as nat));
        }
        return Ok(v);
    }
    let ghost s1 = s.drop_first();
    let huffman = match Huffman::<u8>::deser(cursor) {
        Ok(h) => h,
        Err(e) => return Err(e),
    };
    let ghost k = (cursor.head() - head0 - 1) as nat;
    proof {
        assert(cursor.rest() =~= s1.subrange(k as int, s1.len() as int));
    }
    let bits = match Bits::deser(cursor) {
        Ok(b) => b,
        Err(e) => return Err(HuffmanSerError::Integer(e)),
    };
    match huffman.decode(bits) {
        Some(v) => Ok(v),
        None => Err(HuffmanSerError::NotEnoughBytes),
    }
}

/// Undoing [`huffman`] gives back the input bytes, takes up exactly what was written, and is
/// always [`huffman_readable`].
pub proof fn lemma_huffman_bytes_roundtrip(input: Seq<u8>, out: Seq<u8>, rest: Seq<u8>)
    requires
        input.len() <= usize::MAX,
        huffman_output(input, out),
    ensures
        huffman_readable(out + rest),
        huffman_decoded(out + rest) == Ok::<(Seq<u8>, nat), HuffmanSerError>((input, out.len())),
{
    let s = out + rest;
    if input.len() == 0 {
        assert(input =~= Seq::<u8>::empty());
    } else if all_equal(input) {
        let n = encoding(SignedState::Positive, input.len()).1;
        lemma_encoding_roundtrip(SignedState::Positive, input.len(), seq![input[0]] + rest);
        assert(s.drop_first() =~= n + (seq![input[0]] + rest));
        assert(repeat(input[0], input.len()) =~= input);
    } else {
        let (root, b) = choose|root: Node<u8>, b: Bits|
            #![trigger tree_facts(root, codes_of(input)), b.wf()]
            {
                &&& tree_facts(root, codes_of(input))
                &&& huffman_tree(root, code_counts(input))
                &&& b.wf()
                &&& Some(b@) == encode_path(root, input)
                &&& out == seq![2u8] + node_bytes(root) + (encoding(SignedState::Positive, b@.len()).1
                    + b.bytes())
            };
        let nb = node_bytes(root);
        let bb = encoding(SignedState::Positive, b@.len()).1 + b.bytes();
        let s1 = s.drop_first();
        assert(s1 =~= nb + (bb + rest));
        lemma_node_roundtrip(root, bb + rest);
        assert(s1.subrange(nb.len() as int, s1.len() as int) =~= bb + rest);
        assert(bb + rest =~= encoding(SignedState::Positive, b@.len()).1 + b.bytes() + rest);
        lemma_bits_ser_deser_roundtrip(b, rest);
        assert(codes_of(input).len() >= 2) by {
            let (i, j) = choose|i: int, j: int| #![trigger input[i], input[j]] 0 <= i < input.len() && 0 <= j < input.len() && input[i] != input[j];
            assert(codes_of(input).contains(input[j] as u32));
            assert(codes_of(input).contains(input[i] as u32));
            assert(codes_of(input).remove(input[j] as u32).contains(input[i] as u32));
            vstd::set::axiom_set_remove_len(codes_of(input), input[j] as u32);
        }
        assert forall|i: int| 0 <= i < input.len() implies root.leaf_codes().contains(#[trigger] input[i].spec_code()) by {
            assert(codes_of(input).contains(input[i].spec_code()));
        }
        lemma_decode_encoded(root, input, Seq::empty());
        lemma_encoded_walk_ends(root, input, Seq::empty());
        assert(b@ + Seq::<bool>::empty() =~= b@);
        assert(input + Seq::<u8>::empty() =~= input);
        assert(s.drop_first().subrange(nb.len() as int, s.len() - 1) =~= bb + rest);
    }
}

} // verus!
