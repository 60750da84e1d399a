//! [`BinaryData`]: a blob of bytes, stored with whichever compression makes it smallest.
use vstd::prelude::*;
use crate::types::integer::IntegerSerError;
use lz4_flex::block::DecompressError;
use crate::utilities::huffman::HuffmanSerError;
use crate::types::integer::{Integer, SignedState, decoding, encoding, lemma_encoding_roundtrip};
use crate::utilities::cursor::Cursor;
use crate::types::binary::huffman::{huffman, huffman_decoded, huffman_output, huffman_readable, un_huffman, lemma_huffman_bytes_roundtrip};
use crate::types::binary::lz::{append, lz, lz_decoded, lz_encoded, lz4_compressed, lz4_decompressed, un_lz, lemma_lz_roundtrip};
use crate::types::binary::rle::{rle, rle_encoded, run_length_decoded, un_rle, lemma_rle_roundtrip};

pub mod huffman;
pub mod lz;
pub mod rle;

verus! {

/// The compression that a serialised [`BinaryData`] uses.
#[derive(Copy, Clone, PartialEq, Eq, Structural, Debug)]
pub enum BinaryCompression {
    /// Stored as is.
    Nothing,
    /// Run-length encoded, see [`rle::rle`].
    RunLengthEncoding,
    /// LZ4 block compression.
    LempelZiv,
    /// Huffman coded.
    Huffman,
}

/// An error when deserialising a [`BinaryData`].
#[derive(Debug)]
pub enum BinarySerError {
    /// The compression byte was not one of the known ones.
    NoCompressionTypeFound(u8),
    /// An integer could not be read.
    Integer(IntegerSerError),
    /// There were not enough bytes.
    NotEnoughBytes,
    /// LZ4 decompression failed.
    LzFlex(DecompressError),
    /// Huffman decoding failed.
    Huffman(HuffmanSerError),
}


impl BinaryCompression {
    /// The byte that stands for this compression.
    pub fn to_u8(self) -> (b: u8)
        ensures
            b == compression_byte(self),
    {
        match self {
            BinaryCompression::Nothing => 0,
            BinaryCompression::RunLengthEncoding => 1,
            BinaryCompression::LempelZiv => 2,
            BinaryCompression::Huffman => 3,
        }
    }

    /// Reads a compression back from its byte.
    pub fn try_from_u8(value: u8) -> (r: Result<BinaryCompression, BinarySerError>)
        ensures
            value <= 3 ==> (r matches Ok(c) && compression_byte(c) == value),
            value > 3 ==> (r matches Err(BinarySerError::NoCompressionTypeFound(v)) && v == value),
    {
        match value {
            0 => Ok(BinaryCompression::Nothing),
            1 => Ok(BinaryCompression::RunLengthEncoding),
            2 => Ok(BinaryCompression::LempelZiv),
            3 => Ok(BinaryCompression::Huffman),
            _ => Err(BinarySerError::NoCompressionTypeFound(value)),
        }
    }
}

/// The byte of each compression.
pub open spec fn compression_byte(c: BinaryCompression) -> u8 {
    match c {
        BinaryCompression::Nothing => 0,
        BinaryCompression::RunLengthEncoding => 1,
        BinaryCompression::LempelZiv => 2,
        BinaryCompression::Huffman => 3,
    }
}

/// A blob of bytes.
#[derive(Clone, PartialEq, Eq, Debug, Hash)]
pub struct BinaryData(pub Vec<u8>);

/// The uncompressed form: the length as an [`Integer`], then the bytes.
pub open spec fn vanilla(d: Seq<u8>) -> Seq<u8> {
    encoding(SignedState::Positive, d.len()).1 + d
}

/// The shortest of four candidates, the first one among equally short ones.
pub open spec fn smallest(a: Seq<u8>, b: Seq<u8>, c: Seq<u8>, d: Seq<u8>) -> (BinaryCompression, Seq<u8>) {
    let m1 = if b.len() < a.len() {
        (BinaryCompression::RunLengthEncoding, b)
    } else {
        (BinaryCompression::Nothing, a)
    };
    let m2 = if c.len() < m1.1.len() {
        (BinaryCompression::LempelZiv, c)
    } else {
        m1
    };
    if d.len() < m2.1.len() {
        (BinaryCompression::Huffman, d)
    } else {
        m2
    }
}

/// What [`BinaryData::deser`] reads at the front of `s` for a compression: the bytes and the
/// number of bytes taken up, or `None` if it fails.
pub open spec fn binary_decoded(ct: BinaryCompression, s: Seq<u8>) -> Option<(Seq<u8>, nat)> {
    match ct {
        BinaryCompression::Nothing => match decoding(s) {
            Some((n, c)) => if n <= usize::MAX && c + n <= s.len() {
                Some((s.subrange(c as int, (c + n) as int), c + n))
            } else {
                None
            },
            None => None,
        },
        BinaryCompression::RunLengthEncoding => match decoding(s) {
            Some((n, c)) => if n <= usize::MAX && c + n <= s.len() {
                Some((run_length_decoded(s.subrange(c as int, (c + n) as int)), c + n))
            } else {
                None
            },
            None => None,
        },
        BinaryCompression::LempelZiv => match lz_decoded(s) {
            Some(Ok((v, k))) => Some((v, k)),
            _ => None,
        },
        BinaryCompression::Huffman => match huffman_decoded(s) {
            Ok((v, k)) => Some((v, k)),
            Err(_) => None,
        },
    }
}

impl BinaryData {
    /// Serialises with whichever of no compression, run-length encoding, LZ4 and huffman
    /// coding gives the fewest bytes (the first of them on a tie). The huffman candidate is any
    /// output that [`huffman_output`] allows.
    pub fn ser(&self) -> (r: (BinaryCompression, Vec<u8>))
        requires
            self.0@.len() * 256 <= usize::MAX,
        ensures
            exists|h: Seq<u8>| #[trigger] huffman_output(self.0@, h) && (r.0, r.1@) == smallest(
                vanilla(self.0@),
                rle_encoded(self.0@),
                lz_encoded(self.0@),
                h,
            ),
            self.0@.len() > 0 ==> lz4_decompressed(lz4_compressed(self.0@), self.0@.len()) == Some(
                self.0@,
            ),
            self.0@.len() > 0 ==> lz4_compressed(self.0@).len() <= usize::MAX,
    {
        let (_, mut vanilla_bytes) = Integer::usize(self.0.len()).ser();
        append(&mut vanilla_bytes, &self.0);
        let rle_bytes = rle(&self.0);
        let lz_bytes = lz(&self.0);
        let huffman_bytes = huffman(&self.0);
        let mut best = (BinaryCompression::Nothing, vanilla_bytes);
        if rle_bytes.len() < best.1.len() {
            best = (BinaryCompression::RunLengthEncoding, rle_bytes);
        }
        if lz_bytes.len() < best.1.len() {
            best = (BinaryCompression::LempelZiv, lz_bytes);
        }
        if huffman_bytes.len() < best.1.len() {
            best = (BinaryCompression::Huffman, huffman_bytes);
        }
        proof {
            assert(huffman_output(self.0@, huffman_bytes@));
        }
        best
    }

    /// Reads bytes written with the given compression: see [`binary_decoded`].
    ///
    /// # Errors
    /// - [`BinarySerError::Integer`] if a length cannot be read
    /// - [`BinarySerError::NotEnoughBytes`] if the bytes run out
    /// - [`BinarySerError::LzFlex`] if LZ4 decompression fails
    /// - [`BinarySerError::Huffman`] if huffman decoding fails
    pub fn deser(compression: BinaryCompression, cursor: &mut Cursor<u8>) -> (r: Result<Self, BinarySerError>)
        requires
            old(cursor).wf(),
            compression == BinaryCompression::LempelZiv ==> (decoding(old(cursor).rest()) matches Some((n, _)) ==> n <= isize::MAX),
            compression == BinaryCompression::Huffman ==> huffman_readable(old(cursor).rest()),
        ensures
            final(cursor).wf(),
            final(cursor).items() == old(cursor).items(),
            r is Ok ==> final(cursor).head() >= old(cursor).head(),
            r is Ok <==> binary_decoded(compression, old(cursor).rest()) is Some,
            r matches Ok(b) ==> binary_decoded(compression, old(cursor).rest()) == Some((b.0@, (final(cursor).head() - old(cursor).head()) as nat)),
            compression == BinaryCompression::Huffman ==> (r matches Err(e) ==> (e matches BinarySerError::Huffman(h) && huffman_decoded(old(cursor).rest()) == Err::<(Seq<u8>, nat), HuffmanSerError>(h))),
            compression == BinaryCompression::LempelZiv ==> (r matches Err(e) ==> (lz_decoded(old(cursor).rest()) matches Some(Err(false)) <==> e is LzFlex)),
            r matches Err(e) ==> !(e is NoCompressionTypeFound),
    {
        match compression {
            BinaryCompression::Nothing => {
                let ghost s = old(cursor).rest();
                let ghost head0 = old(cursor).head();
                let length = match Integer::deser(SignedState::Positive, cursor) {
                    Ok(i) => match i.try_into_usize() {
                        Ok(v) => v,
                        Err(e) => return Err(BinarySerError::Integer(e)),
                    },
                    Err(e) => return Err(BinarySerError::Integer(e)),
                };
                let ghost head1 = cursor.head();
                let bytes = match cursor.read(length) {
                    Some(b) => b,
                    None => return Err(BinarySerError::NotEnoughBytes),
                };
                proof {
                    assert(bytes@ =~= s.subrange(head1 - head0, head1 - head0 + length));
                }
                Ok(BinaryData(vstd::slice::slice_to_vec(bytes)))
            },
            BinaryCompression::RunLengthEncoding => match un_rle(cursor) {
                Ok(v) => Ok(BinaryData(v)),
                Err(e) => Err(e),
            },
            BinaryCompression::LempelZiv => match un_lz(cursor) {
                Ok(v) => Ok(BinaryData(v)),
                Err(e) => Err(e),
            },
            BinaryCompression::Huffman => match un_huffman(cursor) {
                Ok(v) => Ok(BinaryData(v)),
                Err(e) => Err(BinarySerError::Huffman(e)),
            },
        }
    }
}

proof fn lemma_smallest_parts(a: Seq<u8>, b: Seq<u8>, c: Seq<u8>, d: Seq<u8>)
    ensures
        ({
            let (ct, bytes) = smallest(a, b, c, d);
            &&& ct == BinaryCompression::Nothing ==> bytes == a
            &&& ct == BinaryCompression::RunLengthEncoding ==> bytes == b
            &&& ct == BinaryCompression::LempelZiv ==> bytes == c
            &&& ct == BinaryCompression::Huffman ==> bytes == d
        }),
{
}

pub(crate) proof fn lemma_vanilla_roundtrip(d: Seq<u8>, rest: Seq<u8>)
    requires
        d.len() <= usize::MAX,
    ensures
        binary_decoded(BinaryCompression::Nothing, vanilla(d) + rest) == Some((d, vanilla(d).len())),
{
    let e = encoding(SignedState::Positive, d.len()).1;
    lemma_encoding_roundtrip(SignedState::Positive, d.len(), d + rest);
    assert(vanilla(d) + rest =~= e + (d + rest));
    assert((vanilla(d) + rest).subrange(e.len() as int, (e.len() + d.len()) as int) =~= d);
}

proof fn lemma_lz_stream(d: Seq<u8>, rest: Seq<u8>)
    requires
        d.len() <= isize::MAX,
        d.len() > 0 ==> lz4_decompressed(lz4_compressed(d), d.len()) == Some(d),
        d.len() > 0 ==> lz4_compressed(d).len() <= usize::MAX,
    ensures
        binary_decoded(BinaryCompression::LempelZiv, lz_encoded(d) + rest) == Some((d, lz_encoded(d).len())),
        decoding(lz_encoded(d) + rest) matches Some((n, _)) ==> n <= isize::MAX,
{
    lemma_lz_roundtrip(d, rest);
    let e = encoding(SignedState::Positive, d.len()).1;
    let tail = lz_encoded(d).subrange(e.len() as int, lz_encoded(d).len() as int) + rest;
    lemma_encoding_roundtrip(SignedState::Positive, d.len(), tail);
    assert(lz_encoded(d) + rest =~= e + tail);
}

/// Reading back what [`BinaryData::ser`] wrote, with its compression and anything after it,
/// gives the same bytes and takes up exactly what was written, whichever compression won.
pub proof fn lemma_binary_roundtrip(
    d: Seq<u8>,
    h: Seq<u8>,
    ct: BinaryCompression,
    bytes: Seq<u8>,
    rest: Seq<u8>,
)
    requires
        d.len() <= isize::MAX,
        huffman_output(d, h),
        (ct, bytes) == smallest(vanilla(d), rle_encoded(d), lz_encoded(d), h),
        d.len() > 0 ==> lz4_decompressed(lz4_compressed(d), d.len()) == Some(d),
        d.len() > 0 ==> lz4_compressed(d).len() <= usize::MAX,
    ensures
        binary_decoded(ct, bytes + rest) == Some((d, bytes.len())),
        ct == BinaryCompression::LempelZiv ==> (decoding(bytes + rest) matches Some((n, _)) ==> n <= isize::MAX),
        ct == BinaryCompression::Huffman ==> huffman_readable(bytes + rest),
{
    lemma_smallest_parts(vanilla(d), rle_encoded(d), lz_encoded(d), h);
    let sm = smallest(vanilla(d), rle_encoded(d), lz_encoded(d), h);
    assert(sm.0 == ct && sm.1 == bytes);
    match ct {
        BinaryCompression::Nothing => {
            assert(bytes == vanilla(d));
            lemma_vanilla_roundtrip(d, rest);
        },
        BinaryCompression::RunLengthEncoding => {
            assert(bytes == rle_encoded(d));
            lemma_rle_roundtrip(d, rest);
            crate::types::binary::rle::lemma_rle_pairs(d);
        },
        BinaryCompression::LempelZiv => {
            assert(bytes == lz_encoded(d));
            lemma_lz_stream(d, rest);
        },
        BinaryCompression::Huffman => {
            assert(bytes == h);
            lemma_huffman_bytes_roundtrip(d, h, rest);
        },
    }
}

} // verus!
