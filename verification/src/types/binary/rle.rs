//! Run-length encoding of bytes.
use vstd::prelude::*;
use crate::types::binary::BinarySerError;
use crate::types::integer::{
    Integer, IntegerSerError, SignedState, decoding, encoding, lemma_encoding_roundtrip,
};
use crate::utilities::cursor::Cursor;

verus! {

/// `n` copies of `b`.
pub open spec fn repeat(b: u8, n: nat) -> Seq<u8> {
    Seq::new(n, |_i: int| b)
}

/// The bytes that the first `k` (count, byte) pairs of `p` stand for.
pub open spec fn expand_pairs(p: Seq<u8>, k: nat) -> Seq<u8>
    decreases k,
{
    if k == 0 || p.len() < 2 * k {
        Seq::empty()
    } else {
        expand_pairs(p, (k - 1) as nat) + repeat(p[2 * k - 1], p[2 * k - 2] as nat)
    }
}

/// The bytes that a list of (count, byte) pairs stands for; a trailing odd byte is ignored.
pub open spec fn run_length_decoded(p: Seq<u8>) -> Seq<u8> {
    expand_pairs(p, p.len() / 2)
}

/// The (count, byte) pairs that [`rle`] writes for `s`: each run of equal bytes, split into
/// pieces of at most 255.
pub open spec fn rle_pairs(s: Seq<u8>) -> Seq<u8>
    decreases s.len(),
{
    if s.len() == 0 {
        Seq::empty()
    } else {
        let prev = rle_pairs(s.drop_last());
        let b = s.last();
        if prev.len() >= 2 && prev.last() == b && prev[prev.len() - 2] < 255 {
            prev.update(prev.len() - 2, (prev[prev.len() - 2] + 1) as u8)
        } else {
            prev + seq![1u8, b]
        }
    }
}

/// The bytes [`rle`] produces: the number of pair bytes as an [`Integer`], then the pairs.
pub open spec fn rle_encoded(s: Seq<u8>) -> Seq<u8> {
    encoding(SignedState::Positive, rle_pairs(s).len()).1 + rle_pairs(s)
}

proof fn lemma_expand_prefix(p: Seq<u8>, q: Seq<u8>, k: nat)
    requires
        2 * k <= p.len(),
        2 * k <= q.len(),
        forall|i: int| 0 <= i < 2 * k ==> p[i] == q[i],
    ensures
        expand_pairs(p, k) == expand_pairs(q, k),
    decreases k,
{
    if k > 0 {
        lemma_expand_prefix(p, q, (k - 1) as nat);
    }
}

/// The pairs of [`rle_pairs`] come two by two, every count is at least one, and they stand
/// for exactly the input.
pub proof fn lemma_rle_pairs(s: Seq<u8>)
    ensures
        rle_pairs(s).len() % 2 == 0,
        rle_pairs(s).len() <= 2 * s.len(),
        forall|j: int| 0 <= j < rle_pairs(s).len() / 2 ==> #[trigger] rle_pairs(s)[2 * j] >= 1,
        run_length_decoded(rle_pairs(s)) == s,
    decreases s.len(),
{
    if s.len() > 0 {
        let prev = rle_pairs(s.drop_last());
        lemma_rle_pairs(s.drop_last());
        let b = s.last();
        let k = prev.len() / 2;
        let cur = rle_pairs(s);
        if prev.len() >= 2 && prev.last() == b && prev[prev.len() - 2] < 255 {
            assert forall|j: int| 0 <= j < cur.len() / 2 implies #[trigger] cur[2 * j] >= 1 by {
                assert(prev[2 * j] >= 1);
            }
            lemma_expand_prefix(prev, cur, (k - 1) as nat);
            assert(repeat(b, cur[2 * k - 2] as nat) =~= repeat(b, prev[2 * k - 2] as nat).push(b));
            assert(s =~= s.drop_last().push(b));
        } else {
            assert forall|j: int| 0 <= j < cur.len() / 2 implies #[trigger] cur[2 * j] >= 1 by {
                if j < k {
                    assert(prev[2 * j] >= 1);
                }
            }
            lemma_expand_prefix(prev, cur, k);
            assert(repeat(b, 1) =~= seq![b]);
            assert(s =~= s.drop_last().push(b));
        }
    }
}

/// Run-length encodes `bytes`: see [`rle_encoded`].
pub fn rle(bytes: &[u8]) -> (r: Vec<u8>)
    ensures
        r@ == rle_encoded(bytes@),
{
    if bytes.len() == 0 {
        assert(rle_pairs(bytes@) =~= Seq::<u8>::empty());
        return Integer::usize(0).ser().1;
    }
    let mut compressed: Vec<u8> = Vec::new();
    let mut current: u8 = bytes[0];
    let mut current_count: u8 = 1;
    let mut i: usize = 1;
    proof {
        assert(bytes@.subrange(0, 1).drop_last() =~= Seq::<u8>::empty());
        assert(rle_pairs(Seq::<u8>::empty()) =~= Seq::<u8>::empty());
        assert(compressed@ + seq![current_count, current] =~= seq![1u8, current]);
    }
    while i < bytes.len()
        invariant
            1 <= i <= bytes@.len(),
            current_count >= 1,
            rle_pairs(bytes@.subrange(0, i as int)) == compressed@ + seq![current_count, current],
        decreases bytes.len() - i,
    {
        let byte = bytes[i];
        proof {
            let t = bytes@.subrange(0, i as int + 1);
            assert(t.drop_last() =~= bytes@.subrange(0, i as int));
        }
        if current == byte && current_count < 255 {
            current_count = current_count + 1;
            proof {
                let t = bytes@.subrange(0, i as int + 1);
                assert(rle_pairs(t) =~= compressed@ + seq![current_count, current]);
            }
        } else {
            compressed.push(current_count);
            compressed.push(current);
            current = byte;
            current_count = 1;
            proof {
                let t = bytes@.subrange(0, i as int + 1);
                assert(rle_pairs(t) =~= compressed@ + seq![current_count, current]);
            }
        }
        i = i + 1;
    }
    compressed.push(current_count);
    compressed.push(current);
    proof {
        assert(bytes@.subrange(0, i as int) =~= bytes@);
        lemma_rle_pairs(bytes@);
    }
    let (_, mut output) = Integer::usize(compressed.len()).ser();
    let ghost head = output@;
    let mut j: usize = 0;
    while j < compressed.len()
        invariant
            j <= compressed@.len(),
            output@ == head + compressed@.subrange(0, j as int),
        decreases compressed.len() - j,
    {
        output.push(compressed[j]);
        j = j + 1;
        assert(output@ =~= head + compressed@.subrange(0, j as int));
    }
    assert(compressed@.subrange(0, j as int) =~= compressed@);
    output
}

/// Undoes [`rle`].
///
/// # Errors
/// - [`BinarySerError::Integer`] if the length cannot be read or does not fit a `usize`
/// - [`BinarySerError::NotEnoughBytes`] if there are fewer pair bytes than the length says
pub fn un_rle(cursor: &mut Cursor<u8>) -> (r: Result<Vec<u8>, BinarySerError>)
    requires
        old(cursor).wf(),
    ensures
        final(cursor).wf(),
        final(cursor).items() == old(cursor).items(),
        ({
            let s = old(cursor).rest();
            match decoding(s) {
                None => r matches Err(BinarySerError::Integer(e)) && e is NotEnoughBytes,
                Some((n, c)) => if n > usize::MAX {
                    r matches Err(BinarySerError::Integer(e)) && e is WrongType
                } else if c + n <= s.len() {
                    &&& r matches Ok(v)
                    &&& v@ == run_length_decoded(s.subrange(c as int, (c + n) as int))
                    &&& final(cursor).head() == old(cursor).head() + c + n
                } else {
                    r matches Err(e) && e is NotEnoughBytes
                },
            }
        }),
{
    let ghost s = old(cursor).rest();
    let ghost head0 = old(cursor).head();
    let len = match Integer::deser(SignedState::Positive, cursor) {
        Ok(i) => match i.try_into_usize() {
            Ok(v) => v,
            Err(e) => return Err(BinarySerError::Integer(e)),
        },
        Err(e) => return Err(BinarySerError::Integer(e)),
    };
    let ghost head1 = cursor.head();
    if len == 0 {
        proof {
            assert(s.subrange(head1 - head0, head1 - head0) =~= Seq::<u8>::empty());
        }
        return Ok(Vec::new());
    }
    let pairs = match cursor.read(len) {
        Some(p) => p,
        None => return Err(BinarySerError::NotEnoughBytes),
    };
    assert(pairs@ =~= s.subrange(head1 - head0, head1 - head0 + len));
    let mut output: Vec<u8> = Vec::new();
    let npairs = len / 2;
    let mut j: usize = 0;
    while j < npairs
        invariant
            j <= npairs,
            npairs == pairs@.len() / 2,
            2 * npairs <= pairs@.len(),
            pairs@.len() <= usize::MAX,
            output@ == expand_pairs(pairs@, j as nat),
        decreases npairs - j,
    {
        let count = pairs[2 * j];
        let byte = pairs[2 * j + 1];
        let mut t: u8 = 0;
        let ghost before = output@;
        while t < count
            invariant
                t <= count,
                output@ == before + repeat(byte, t as nat),
            decreases count - t,
        {
            output.push(byte);
            t = t + 1;
            assert(output@ =~= before + repeat(byte, t as nat));
        }
        j = j + 1;
    }
    Ok(output)
}

/// Undoing [`rle`] gives back the input bytes, and takes up exactly what [`rle`] wrote.
pub proof fn lemma_rle_roundtrip(bytes: Seq<u8>, rest: Seq<u8>)
    requires
        bytes.len() <= usize::MAX,
    ensures
        ({
            let p = rle_pairs(bytes);
            let s = rle_encoded(bytes) + rest;
            let c = encoding(SignedState::Positive, p.len()).1.len();
            &&& decoding(s) == Some((p.len(), c))
            &&& c + p.len() <= s.len()
            &&& run_length_decoded(s.subrange(c as int, (c + p.len()) as int)) == bytes
        }),
{
    let p = rle_pairs(bytes);
    lemma_rle_pairs(bytes);
    let enc = encoding(SignedState::Positive, p.len()).1;
    lemma_encoding_roundtrip(SignedState::Positive, p.len(), p + rest);
    assert(enc + p + rest =~= enc + (p + rest));
    assert((enc + p + rest).subrange(enc.len() as int, (enc.len() + p.len()) as int) =~= p);
}

} // verus!
