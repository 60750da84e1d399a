//! LZ4 block compression of bytes, through the `lz4_flex` crate.
use vstd::prelude::*;
use lz4_flex::block::DecompressError;
use crate::types::binary::BinarySerError;
use crate::types::integer::{
    Integer, SignedState, decoding, encoding, lemma_encoding_roundtrip,
};
use crate::utilities::cursor::Cursor;

verus! {

/// The error type of `lz4_flex`'s block decompression.
#[verifier::external_type_specification]
#[verifier::external_body]
pub struct ExDecompressError(DecompressError);

/// What `lz4_flex::block::compress` returns for some input bytes.
pub uninterp spec fn lz4_compressed(input: Seq<u8>) -> Seq<u8>;

/// What `lz4_flex::block::decompress` returns for some compressed bytes and an output size:
/// `None` stands for an error.
pub uninterp spec fn lz4_decompressed(input: Seq<u8>, min_uncompressed_size: nat) -> Option<Seq<u8>>;

/// Calls `lz4_flex::block::compress`. Its result is a function of the input alone, and
/// decompressing it with the input's length as the output size gives the input back, as the
/// crate's documentation of the block format promises.
#[verifier::external_body]
fn lz4_compress(input: &[u8]) -> (r: Vec<u8>)
    ensures
        r@ == lz4_compressed(input@),
        lz4_decompressed(r@, input@.len()) == Some(input@),
{
    lz4_flex::block::compress(input)
}

/// Calls `lz4_flex::block::decompress`, which (with the default `safe-decode` feature) reports
/// malformed input or a too small output size as an error. An output size above `isize::MAX`
/// makes its output allocation panic, so it is left out.
#[verifier::external_body]
fn lz4_decompress(input: &[u8], min_uncompressed_size: usize) -> (r: Result<Vec<u8>, DecompressError>)
    requires
        min_uncompressed_size <= isize::MAX,
    ensures
        r matches Ok(v) ==> lz4_decompressed(input@, min_uncompressed_size as nat) == Some(v@),
        r is Err ==> lz4_decompressed(input@, min_uncompressed_size as nat) is None,
{
    lz4_flex::block::decompress(input, min_uncompressed_size)
}

/// The bytes [`lz`] writes for `input`: its length as an [`Integer`] and, if it is not empty,
/// the length of the LZ4 block followed by the block.
pub open spec fn lz_encoded(input: Seq<u8>) -> Seq<u8> {
    let size = encoding(SignedState::Positive, input.len()).1;
    if input.len() == 0 {
        size
    } else {
        let c = lz4_compressed(input);
        size + encoding(SignedState::Positive, c.len()).1 + c
    }
}

/// What [`un_lz`] reads at the front of `s`: the decompressed bytes and the number of bytes
/// taken up, `Err(true)` if the bytes run out, or `Err(false)` if decompressing fails.
pub open spec fn lz_decoded(s: Seq<u8>) -> Option<Result<(Seq<u8>, nat), bool>> {
    match decoding(s) {
        None => Some(Err(true)),
        Some((n, c)) => if n > usize::MAX {
            None
        } else if n == 0 {
            Some(Ok((Seq::empty(), c)))
        } else {
            let s2 = s.subrange(c as int, s.len() as int);
            match decoding(s2) {
                None => Some(Err(true)),
                Some((k, c2)) => if k > usize::MAX {
                    None
                } else if c2 + k > s2.len() {
                    Some(Err(true))
                } else {
                    match lz4_decompressed(s2.subrange(c2 as int, (c2 + k) as int), n) {
                        Some(v) => Some(Ok((v, c + c2 + k))),
                        None => Some(Err(false)),
                    }
                }
            }
        },
    }
}

/// Compresses `input` with LZ4: see [`lz_encoded`].
pub fn lz(input: &[u8]) -> (r: Vec<u8>)
    ensures
        r@ == lz_encoded(input@),
        input@.len() > 0 ==> lz4_decompressed(lz4_compressed(input@), input@.len()) == Some(input@),
        input@.len() > 0 ==> lz4_compressed(input@).len() <= usize::MAX,
{
    let (_, mut output) = Integer::usize(input.len()).ser();
    if input.len() == 0 {
        return output;
    }
    let compressed = lz4_compress(input);
    let (_, size2) = Integer::usize(compressed.len()).ser();
    let ghost start = output@;
    append(&mut output, &size2);
    append(&mut output, &compressed);
    assert(output@ =~= start + size2@ + compressed@);
    output
}

/// Pushes every byte of `extra` onto `out`.
pub fn append(out: &mut Vec<u8>, extra: &[u8])
    ensures
        final(out)@ == old(out)@ + extra@,
{
    let mut i: usize = 0;
    while i < extra.len()
        invariant
            i <= extra@.len(),
            out@ == old(out)@ + extra@.subrange(0, i as int),
        decreases extra.len() - i,
    {
        out.push(extra[i]);
        i = i + 1;
        assert(out@ =~= old(out)@ + extra@.subrange(0, i as int));
    }
    assert(extra@.subrange(0, i as int) =~= extra@);
}

/// Undoes [`lz`]: see [`lz_decoded`].
///
/// # Errors
/// - [`BinarySerError::Integer`] if a length cannot be read or does not fit a `usize`
/// - [`BinarySerError::NotEnoughBytes`] if the block is cut short
/// - [`BinarySerError::LzFlex`] if the block cannot be decompressed
pub fn un_lz(cursor: &mut Cursor<u8>) -> (r: Result<Vec<u8>, BinarySerError>)
    requires
        old(cursor).wf(),
        decoding(old(cursor).rest()) matches Some((n, _)) ==> n <= isize::MAX,
    ensures
        final(cursor).wf(),
        final(cursor).items() == old(cursor).items(),
        match lz_decoded(old(cursor).rest()) {
            None => (r matches Err(BinarySerError::Integer(e)) && e is WrongType),
            Some(Err(true)) => (r matches Err(e) && (e is NotEnoughBytes || (e matches BinarySerError::Integer(i) && i is NotEnoughBytes))),
            Some(Err(false)) => r matches Err(e) && e is LzFlex,
            Some(Ok((v, c))) => (r matches Ok(out) && out@ == v && final(cursor).head() == old(cursor).head() + c),
        },
{
    let ghost s = old(cursor).rest();
    let ghost head0 = old(cursor).head();
    let input_len = match Integer::deser(SignedState::Positive, cursor) {
        Ok(i) => match i.try_into_usize() {
            Ok(v) => v,
            Err(e) => return Err(BinarySerError::Integer(e)),
        },
        Err(e) => return Err(BinarySerError::Integer(e)),
    };
    if input_len == 0 {
        return Ok(Vec::new());
    }
    let ghost head1 = cursor.head();
    proof {
        assert(cursor.rest() =~= s.subrange(head1 - head0, s.len() as int));
    }
    let compressed_len = match Integer::deser(SignedState::Positive, cursor) {
        Ok(i) => match i.try_into_usize() {
            Ok(v) => v,
            Err(e) => return Err(BinarySerError::Integer(e)),
        },
        Err(e) => return Err(BinarySerError::Integer(e)),
    };
    let ghost head2 = cursor.head();
    let compressed = match cursor.read(compressed_len) {
        Some(c) => c,
        None => return Err(BinarySerError::NotEnoughBytes),
    };
    proof {
        let s2 = s.subrange(head1 - head0, s.len() as int);
        assert(compressed@ =~= s2.subrange(head2 - head1, head2 - head1 + compressed_len));
    }
    match lz4_decompress(compressed, input_len) {
        Ok(v) => Ok(v),
        Err(e) => Err(BinarySerError::LzFlex(e)),
    }
}

/// Undoing [`lz`] gives back the input bytes, and takes up exactly what [`lz`] wrote, given
/// that LZ4 decompression undoes compression (which [`lz`] states whenever it compresses).
pub proof fn lemma_lz_roundtrip(input: Seq<u8>, rest: Seq<u8>)
    requires
        input.len() <= isize::MAX,
        input.len() > 0 ==> lz4_compressed(input).len() <= usize::MAX,
        input.len() > 0 ==> lz4_decompressed(lz4_compressed(input), input.len()) == Some(input),
    ensures
        lz_decoded(lz_encoded(input) + rest) == Some(
            Ok::<(Seq<u8>, nat), bool>((input, lz_encoded(input).len())),
        ),
{
    let size = encoding(SignedState::Positive, input.len()).1;
    if input.len() == 0 {
        lemma_encoding_roundtrip(SignedState::Positive, input.len(), rest);
        assert(input =~= Seq::<u8>::empty());
    } else {
        let c = lz4_compressed(input);
        let size2 = encoding(SignedState::Positive, c.len()).1;
        let all = lz_encoded(input) + rest;
        lemma_encoding_roundtrip(SignedState::Positive, input.len(), size2 + c + rest);
        assert(all =~= size + (size2 + c + rest));
        let s2 = all.subrange(size.len() as int, all.len() as int);
        assert(s2 =~= size2 + (c + rest));
        lemma_encoding_roundtrip(SignedState::Positive, c.len(), c + rest);
        assert(s2.subrange(size2.len() as int, (size2.len() + c.len()) as int) =~= c);
        assert(lz_encoded(input).len() == size.len() + size2.len() + c.len());
        assert(decoding(all) == Some((input.len(), size.len())));
        assert(decoding(s2) == Some((c.len(), size2.len())));
    }
}

} // verus!
