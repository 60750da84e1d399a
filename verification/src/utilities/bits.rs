//! [`Bits`]: a growable list of individual bits, packed eight to a byte.
use vstd::prelude::*;
use crate::types::integer::{
    Integer, IntegerSerError, SignedState, decoding, encoding, lemma_encoding_roundtrip,
};
use crate::utilities::cursor::Cursor;

verus! {

/// Bit `k` (0 is the least significant) of a byte.
pub open spec fn get_bit(b: u8, k: nat) -> bool {
    ((b >> (k as u8)) & 1u8) == 1u8
}

/// The first `n` bits stored in `backing`, bit `i` being bit `i % 8` of byte `i / 8`.
pub open spec fn bits_of(backing: Seq<u8>, n: nat) -> Seq<bool> {
    Seq::new(n, |i: int| get_bit(backing[i / 8], (i % 8) as nat))
}

/// Every bit of `backing` from position `n` on is zero.
pub open spec fn padding_zero(backing: Seq<u8>, n: nat) -> bool {
    forall|i: int| n <= i < backing.len() * 8 ==> !#[trigger] get_bit(backing[i / 8], (i % 8) as nat)
}

/// The bit just past the first `n` in `backing`, when it shares a byte with them: what
/// [`Bits::push`] combines a new bit with.
pub open spec fn pad_bit(backing: Seq<u8>, n: nat) -> bool {
    n % 8 != 0 && get_bit(backing[(n / 8) as int], n % 8)
}

/// `backing` with the bits of its last byte cleared from position `n % 8 + 1` on (the bit just
/// past the end is kept), when `n` does not fill whole bytes: what [`Bits::get_proper_bytes`]
/// gives.
pub open spec fn proper_bytes(backing: Seq<u8>, n: nat) -> Seq<u8> {
    if n % 8 == 0 {
        backing
    } else {
        backing.update(
            backing.len() - 1,
            backing.last() & (0xffu8 >> ((7 - n % 8) as u8)),
        )
    }
}

/// The number of bytes that hold `n` bits.
pub open spec fn bytes_for(n: nat) -> nat {
    (n + 7) / 8
}

/// What [`Bits::deser`] reads at the front of `s`: the bits and the number of bytes they take
/// up, or the error it reports.
pub open spec fn bits_decoding(s: Seq<u8>) -> Result<(Seq<bool>, nat), IntegerSerError> {
    match decoding(s) {
        None => Err(IntegerSerError::NotEnoughBytes),
        Some((n, c)) => if n > usize::MAX {
            Err(IntegerSerError::WrongType)
        } else if c + bytes_for(n) <= s.len() {
            Ok((bits_of(s.subrange(c as int, (c + bytes_for(n)) as int), n), c + bytes_for(n)))
        } else {
            Err(IntegerSerError::NotEnoughBytes)
        },
    }
}

/// A list of bits, packed into bytes with the first bit in the lowest bit of the first byte.
#[derive(Clone, Debug)]
pub struct Bits {
    backing: Vec<u8>,
    valid_bits: usize,
}

impl View for Bits {
    type V = Seq<bool>;

    closed spec fn view(&self) -> Seq<bool> {
        bits_of(self.backing@, self.valid_bits as nat)
    }
}

proof fn lemma_or_shift(b: u8, j: u8, v: u8, k: u8) by (bit_vector)
    requires
        j < 8,
        k < 8,
        v <= 1,
    ensures
        ((((b | (v << j)) >> k) & 1u8) == 1u8) == (if k == j {
            ((b >> k) & 1u8) == 1u8 || v == 1
        } else {
            ((b >> k) & 1u8) == 1u8
        }),
{
}

proof fn lemma_clear_bit(b: u8, j: u8, k: u8) by (bit_vector)
    requires
        j < 8,
        k < 8,
    ensures
        ((((b & ((255u8 - (1u8 << j)) as u8)) >> k) & 1u8) == 1u8) == (k != j && ((b >> k) & 1u8) == 1u8),
        ((b & (1u8 << j)) > 0) == (((b >> j) & 1u8) == 1u8),
{
}

proof fn lemma_only_low_bit(b: u8) by (bit_vector)
    requires
        ((b >> 1u8) & 1u8) != 1u8,
        ((b >> 2u8) & 1u8) != 1u8,
        ((b >> 3u8) & 1u8) != 1u8,
        ((b >> 4u8) & 1u8) != 1u8,
        ((b >> 5u8) & 1u8) != 1u8,
        ((b >> 6u8) & 1u8) != 1u8,
        ((b >> 7u8) & 1u8) != 1u8,
    ensures
        (b > 0) == (((b >> 0u8) & 1u8) == 1u8),
{
}

proof fn lemma_low_mask(b: u8, r: u8, k: u8) by (bit_vector)
    requires
        1 <= r < 8,
        k < 8,
    ensures
        ((((b & (0xffu8 >> ((8 - r) as u8))) >> k) & 1u8) == 1u8) == (k < r && ((b >> k) & 1u8) == 1u8),
{
}

proof fn lemma_zero_byte(k: u8) by (bit_vector)
    requires
        k < 8,
    ensures
        ((0u8 >> k) & 1u8) != 1u8,
{
}

/// Two bytes with the same eight bits are the same byte.
proof fn lemma_same_bits_same_byte(a: u8, b: u8) by (bit_vector)
    requires
        ((a >> 0u8) & 1u8) == ((b >> 0u8) & 1u8),
        ((a >> 1u8) & 1u8) == ((b >> 1u8) & 1u8),
        ((a >> 2u8) & 1u8) == ((b >> 2u8) & 1u8),
        ((a >> 3u8) & 1u8) == ((b >> 3u8) & 1u8),
        ((a >> 4u8) & 1u8) == ((b >> 4u8) & 1u8),
        ((a >> 5u8) & 1u8) == ((b >> 5u8) & 1u8),
        ((a >> 6u8) & 1u8) == ((b >> 6u8) & 1u8),
        ((a >> 7u8) & 1u8) == ((b >> 7u8) & 1u8),
    ensures
        a == b,
{
}

proof fn lemma_bit_is_01(b: u8, k: u8) by (bit_vector)
    requires
        k < 8,
    ensures
        ((b >> k) & 1u8) == 1u8 || ((b >> k) & 1u8) == 0u8,
{
}

proof fn lemma_index_split(j: int, k: int) by (nonlinear_arith)
    requires
        0 <= k < 8,
    ensures
        (8 * j + k) / 8 == j,
        (8 * j + k) % 8 == k,
{
}

/// Two well-formed byte lists that hold the same bits are equal.
pub proof fn lemma_bytes_determined(a: Seq<u8>, b: Seq<u8>, n: nat)
    requires
        a.len() == bytes_for(n),
        b.len() == bytes_for(n),
        padding_zero(a, n),
        padding_zero(b, n),
        bits_of(a, n) == bits_of(b, n),
    ensures
        a == b,
{
    assert forall|j: int| 0 <= j < a.len() implies a[j] == b[j] by {
        assert forall|k: u8| k < 8 implies ((a[j] >> k) & 1u8) == ((b[j] >> k) & 1u8) by {
            let i = 8 * j + k;
            lemma_index_split(j, k as int);
            lemma_bit_is_01(a[j], k);
            lemma_bit_is_01(b[j], k);
            if i < n {
                assert(i / 8 == j);
                assert(i % 8 == k);
                assert(bits_of(a, n)[i] == get_bit(a[i / 8], (i % 8) as nat));
                assert(bits_of(b, n)[i] == get_bit(b[i / 8], (i % 8) as nat));
                assert(bits_of(a, n)[i] == bits_of(b, n)[i]);
                assert(get_bit(a[j], k as nat) == get_bit(b[j], k as nat));
            } else {
                assert(i < a.len() * 8);
                assert(!get_bit(a[i / 8], (i % 8) as nat));
                assert(!get_bit(b[i / 8], (i % 8) as nat));
                assert(!get_bit(a[j], k as nat) && !get_bit(b[j], k as nat));
            }
        }
        lemma_same_bits_same_byte(a[j], b[j]);
    }
    assert(a =~= b);
}

impl Bits {
    /// The packed bytes.
    pub closed spec fn bytes(&self) -> Seq<u8> {
        self.backing@
    }

    /// One byte per started group of eight bits. (The bits of the last byte past the end may
    /// hold anything: [`Bits::deser`] keeps what it read there.)
    pub closed spec fn sound(&self) -> bool {
        self.backing@.len() == bytes_for(self.valid_bits as nat)
    }

    /// Every bit of the packed bytes past the end is zero.
    pub closed spec fn clean(&self) -> bool {
        padding_zero(self.backing@, self.valid_bits as nat)
    }

    /// [`Bits::sound`] and [`Bits::clean`]: so are the bits built here.
    pub open spec fn wf(&self) -> bool {
        &&& self.sound()
        &&& self.clean()
    }

    /// Well-formed bits are sound.
    pub proof fn lemma_wf_sound(&self)
        ensures
            self.wf() ==> self.sound(),
    {
    }

    /// The packed bytes are exactly the bits, eight to a byte.
    pub proof fn lemma_wf_bytes(&self)
        requires
            self.wf(),
        ensures
            self.bytes().len() == bytes_for(self@.len()),
            padding_zero(self.bytes(), self@.len()),
            self@ == bits_of(self.bytes(), self@.len()),
    {
    }

    /// An empty list of bits.
    pub fn new() -> (b: Self)
        ensures
            b.wf(),
            b@ == Seq::<bool>::empty(),
    {
        let b = Bits { backing: Vec::new(), valid_bits: 0 };
        assert(b@ =~= Seq::<bool>::empty());
        b
    }

    /// Appends one bit, by setting it in place (so it is combined with whatever the bit just
    /// past the end held: see [`pad_bit`]).
    pub fn push(&mut self, bit: bool)
        requires
            old(self).sound(),
            old(self)@.len() < usize::MAX,
        ensures
            final(self).sound(),
            final(self).bytes() == if old(self)@.len() % 8 == 0 {
                old(self).bytes().push(if bit { 1u8 } else { 0u8 })
            } else {
                old(self).bytes().update(
                    (old(self)@.len() / 8) as int,
                    old(self).bytes()[(old(self)@.len() / 8) as int] | ((if bit { 1u8 } else { 0u8 }) << ((
                    old(self)@.len() % 8) as u8)),
                )
            },
            final(self)@ == old(self)@.push(bit || pad_bit(old(self).bytes(), old(self)@.len())),
            old(self).wf() ==> final(self).wf() && final(self)@ == old(self)@.push(bit),
    {
        let ghost old_backing = self.backing@;
        let ghost was_wf = self.wf();
        let n = self.valid_bits;
        if n % 8 == 0 {
            self.backing.push(0);
        }
        let interior: u8 = (n % 8) as u8;
        let backing_index: usize = n / 8;
        let v: u8 = if bit { 1 } else { 0 };
        let byte = self.backing[backing_index] | (v << interior);
        self.backing.set(backing_index, byte);
        self.valid_bits = n + 1;
        proof {
            let nb = self.backing@;
            assert forall|i: int| 0 <= i < nb.len() * 8 && i / 8 == backing_index implies #[trigger] get_bit(
                nb[i / 8],
                (i % 8) as nat,
            ) == (if i % 8 == interior {
                bit || (n % 8 != 0 && get_bit(old_backing[i / 8], (i % 8) as nat))
            } else {
                n % 8 != 0 && get_bit(old_backing[i / 8], (i % 8) as nat)
            }) by {
                let k = (i % 8) as u8;
                let old_byte = if n % 8 == 0 { 0u8 } else { old_backing[i / 8] };
                lemma_or_shift(old_byte, interior, v, k);
                if n % 8 == 0 {
                    lemma_zero_byte(k);
                    lemma_zero_byte(interior);
                }
            }
            assert(self@ =~= old(self)@.push(bit || pad_bit(old_backing, n as nat)));
            if was_wf {
                assert(!pad_bit(old_backing, n as nat)) by {
                    if n % 8 != 0 {
                        assert(n < old_backing.len() * 8);
                    }
                }
                assert forall|i: int| n + 1 <= i < nb.len() * 8 implies !#[trigger] get_bit(
                    nb[i / 8],
                    (i % 8) as nat,
                ) by {
                    if i / 8 == backing_index {
                        if n % 8 != 0 {
                            assert(n <= i);
                            assert(!get_bit(old_backing[i / 8], (i % 8) as nat));
                        }
                    } else {
                        assert(nb[i / 8] == old_backing[i / 8]);
                    }
                }
            }
            if n % 8 == 0 {
                let z = 0u8;
                assert((z | (v << 0u8)) == v) by (bit_vector)
                    requires z == 0u8,
                ;
                assert(nb =~= old_backing.push(v));
            } else {
                assert(nb =~= old_backing.update((n / 8) as int, old_backing[(n / 8) as int] | (v << interior)));
            }
        }
    }

    /// A list of bits made of whole bytes, the first bit being the lowest bit of the first byte.
    pub fn from_binary(backing: Vec<u8>) -> (b: Self)
        requires
            backing@.len() * 8 <= usize::MAX,
        ensures
            b.wf(),
            b@ == bits_of(backing@, backing@.len() * 8),
            b.bytes() == backing@,
    {
        let n = backing.len() * 8;
        Bits { valid_bits: n, backing }
    }

    /// A copy of this list with one more bit at the end.
    pub fn push_into_new(&self, bit: bool) -> (b: Self)
        requires
            self.sound(),
            self@.len() < usize::MAX,
        ensures
            b.sound(),
            b@ == self@.push(bit || pad_bit(self.bytes(), self@.len())),
            self.wf() ==> b.wf() && b@ == self@.push(bit),
    {
        let mut new = self.duplicate();
        new.push(bit);
        new
    }

    /// A copy of this list.
    pub fn duplicate(&self) -> (b: Self)
        ensures
            b.bytes() == self.bytes(),
            b@ == self@,
            b.wf() == self.wf(),
            b.sound() == self.sound(),
    {
        let backing = self.backing.clone();
        assert(backing@ =~= self.backing@);
        Bits { backing, valid_bits: self.valid_bits }
    }

    /// Appends every bit of `bits`, in order.
    pub fn push_many(&mut self, bits: Self)
        requires
            old(self).sound(),
            bits.sound(),
            old(self)@.len() + bits@.len() <= usize::MAX,
        ensures
            final(self).sound(),
            final(self)@.len() == old(self)@.len() + bits@.len(),
            old(self).wf() ==> final(self).wf() && final(self)@ == old(self)@ + bits@,
    {
        let bools = bits.to_bools();
        let mut i: usize = 0;
        let ghost was_wf = self.wf();
        while i < bools.len()
            invariant
                self.sound(),
                i <= bools@.len(),
                bools@ == bits@,
                self@.len() == old(self)@.len() + i,
                was_wf == old(self).wf(),
                was_wf ==> self.wf() && self@ == old(self)@ + bools@.subrange(0, i as int),
                old(self)@.len() + bits@.len() <= usize::MAX,
            decreases bools.len() - i,
        {
            self.push(bools[i]);
            assert(bools@.subrange(0, i as int + 1) =~= bools@.subrange(0, i as int).push(bools@[i as int]));
            i = i + 1;
        }
        assert(bools@.subrange(0, i as int) =~= bools@);
    }

    /// Removes and returns the last bit; `None` if there are none. When the bit was the first
    /// of its byte, the whole byte is taken off, and the result is whether that byte held any
    /// set bit.
    pub fn pop(&mut self) -> (r: Option<bool>)
        requires
            old(self).sound(),
        ensures
            final(self).sound(),
            old(self)@.len() == 0 ==> r is None && final(self)@ == old(self)@ && final(self).bytes()
                == old(self).bytes(),
            old(self)@.len() > 0 ==> final(self)@ == old(self)@.drop_last(),
            old(self)@.len() > 0 && (old(self)@.len() - 1) % 8 == 0 ==> r == Some(
                old(self).bytes().last() > 0,
            ) && final(self).bytes() == old(self).bytes().drop_last(),
            old(self)@.len() > 0 && (old(self)@.len() - 1) % 8 != 0 ==> r == Some(old(self)@.last()),
            old(self).wf() ==> final(self).wf() && (old(self)@.len() > 0 ==> r == Some(
                old(self)@.last(),
            )),
    {
        if self.valid_bits == 0 {
            return None;
        }
        let ghost old_backing = self.backing@;
        let ghost n = self.valid_bits as int;
        let ghost was_wf = self.wf();
        self.valid_bits = self.valid_bits - 1;
        let interior = self.valid_bits % 8;
        let r;
        if interior == 0 {
            let b = self.backing.pop().unwrap();
            proof {
                let j = n - 1;
                assert(b == old_backing.last());
                if was_wf {
                    assert forall|k: u8| 1 <= k < 8 implies ((b >> k) & 1u8) != 1u8 by {
                        let i = j + k;
                        assert(i / 8 == j / 8 && i % 8 == k);
                        assert(!get_bit(old_backing[i / 8], (i % 8) as nat));
                    }
                    lemma_only_low_bit(b);
                }
                assert(old(self)@.last() == get_bit(old_backing[j / 8], (j % 8) as nat));
                assert(self.backing@ =~= old_backing.drop_last());
            }
            r = b > 0;
        } else {
            let backing_index = self.valid_bits / 8;
            let mask: u8 = 1u8 << (interior as u8);
            let old_byte = self.backing[backing_index];
            let extracted = old_byte & mask;
            self.backing.set(backing_index, old_byte & (255u8 - mask));
            proof {
                lemma_clear_bit(old_byte, interior as u8, 0);
                assert forall|i: int| 0 <= i < self.backing@.len() * 8 && i / 8 == backing_index implies #[trigger] get_bit(
                    self.backing@[i / 8],
                    (i % 8) as nat,
                ) == (i % 8 != interior && get_bit(old_backing[i / 8], (i % 8) as nat)) by {
                    lemma_clear_bit(old_byte, interior as u8, (i % 8) as u8);
                }
            }
            r = extracted > 0;
        }
        proof {
            assert(self@ =~= old(self)@.drop_last());
        }
        Some(r)
    }

    /// The packed bytes, with the bits of the last byte cleared from two past the end on: see
    /// [`proper_bytes`]. For bits built here that is just the packed bytes.
    pub fn get_proper_bytes(&self) -> (r: Vec<u8>)
        requires
            self.sound(),
        ensures
            r@ == proper_bytes(self.bytes(), self@.len()),
            self.wf() ==> r@ == self.bytes(),
    {
        let interior = self.valid_bits % 8;
        if interior == 0 {
            return self.backing.clone();
        }
        let to_be_anded: u8 = 0xffu8 >> ((7 - interior) as u8);
        let mut bytes = self.backing.clone();
        let last = self.backing.len() - 1;
        let masked = self.backing[last] & to_be_anded;
        proof {
            if self.wf() {
                let b = self.backing@[last as int];
                let r = interior as u8;
                assert forall|k: u8| k < 8 implies ((masked >> k) & 1u8) == ((b >> k) & 1u8) by {
                    let i = 8 * last + k;
                    lemma_index_split(last as int, k as int);
                    lemma_bit_is_01(b, k);
                    assert(((((b & (0xffu8 >> ((7 - r) as u8))) >> k) & 1u8) == 1u8) == (k <= r
                        && ((b >> k) & 1u8) == 1u8)) by (bit_vector)
                        requires
                            1 <= r < 8,
                            k < 8,
                    ;
                    if k > r {
                        assert(!get_bit(self.backing@[i / 8], (i % 8) as nat));
                    }
                    lemma_bit_is_01(masked, k);
                }
                lemma_same_bits_same_byte(masked, b);
            }
        }
        bytes.set(last, masked);
        assert(bytes@ =~= proper_bytes(self.backing@, self.valid_bits as nat));
        assert(self.wf() ==> bytes@ =~= self.backing@);
        bytes
    }

    /// The number of bits.
    pub fn len(&self) -> (n: usize)
        ensures
            n == self@.len(),
    {
        self.valid_bits
    }

    /// Whether there are no bits.
    pub fn is_empty(&self) -> (b: bool)
        ensures
            b == (self@.len() == 0),
    {
        self.valid_bits == 0
    }

    /// Removes every bit.
    pub fn clear(&mut self)
        ensures
            final(self).wf(),
            final(self)@ == Seq::<bool>::empty(),
    {
        self.valid_bits = 0;
        self.backing.clear();
        assert(self@ =~= Seq::<bool>::empty());
    }

    /// The bits as a string of `0`s and `1`s, first bit first.
    pub fn to_string(&self) -> (s: String)
        requires
            self.sound(),
        ensures
            s@ == Seq::new(self@.len(), |i: int| if self@[i] { '1' } else { '0' }),
    {
        let mut s = String::new();
        let mut i: usize = 0;
        while i < self.len()
            invariant
                self.sound(),
                i <= self@.len(),
                s@ == Seq::new(i as nat, |j: int| if self@[j] { '1' } else { '0' }),
            decreases self@.len() - i,
        {
            let c = if self.index(i) {
                '1'
            } else {
                '0'
            };
            crate::string_push(&mut s, c);
            i = i + 1;
            assert(s@ =~= Seq::new(i as nat, |j: int| if self@[j] { '1' } else { '0' }));
        }
        s
    }

    /// Bit `index`, which must be in range.
    pub fn index(&self, index: usize) -> (b: bool)
        requires
            self.sound(),
            index < self@.len(),
        ensures
            b == self@[index as int],
    {
        let interior = (index % 8) as u8;
        let byte = self.backing[index / 8];
        (byte >> interior) & 1 == 1
    }

    /// Whether two lists have the same length and the same [`proper_bytes`]; for bits built
    /// here, whether they hold the same bits.
    pub fn eq(&self, other: &Self) -> (b: bool)
        requires
            self.sound(),
            other.sound(),
        ensures
            b == (self@.len() == other@.len() && proper_bytes(self.bytes(), self@.len())
                == proper_bytes(other.bytes(), other@.len())),
            self.wf() && other.wf() ==> b == (self@ == other@),
    {
        if self.valid_bits != other.valid_bits {
            assert(self@.len() != other@.len());
            return false;
        }
        let a = self.get_proper_bytes();
        let c = other.get_proper_bytes();
        if a.len() != c.len() {
            return false;
        }
        let mut i: usize = 0;
        while i < a.len()
            invariant
                self.sound(),
                other.sound(),
                self.valid_bits == other.valid_bits,
                a@ == proper_bytes(self.bytes(), self@.len()),
                c@ == proper_bytes(other.bytes(), other@.len()),
                self.wf() ==> a@ == self.bytes(),
                other.wf() ==> c@ == other.bytes(),
                a@.len() == c@.len(),
                i <= a@.len(),
                forall|j: int| 0 <= j < i ==> a@[j] == c@[j],
            decreases a.len() - i,
        {
            if a[i] != c[i] {
                proof {
                    if self.wf() && other.wf() && self@ == other@ {
                        lemma_bytes_determined(a@, c@, self.valid_bits as nat);
                    }
                }
                return false;
            }
            i = i + 1;
        }
        proof {
            assert(a@ =~= c@);
            if self.wf() && other.wf() {
                assert(self@ =~= other@);
            }
        }
        true
    }

    /// Every bit, in order.
    pub fn to_bools(&self) -> (v: Vec<bool>)
        requires
            self.sound(),
        ensures
            v@ == self@,
    {
        let mut v: Vec<bool> = Vec::new();
        let mut i: usize = 0;
        while i < self.valid_bits
            invariant
                self.sound(),
                i <= self.valid_bits,
                v@ == self@.subrange(0, i as int),
            decreases self.valid_bits - i,
        {
            let b = self.index(i);
            v.push(b);
            i = i + 1;
            assert(v@ =~= self@.subrange(0, i as int));
        }
        assert(self@.subrange(0, i as int) =~= self@);
        v
    }

    /// A list holding `bools`, in order.
    pub fn from_bools(bools: &[bool]) -> (b: Self)
        ensures
            b.wf(),
            b@ == bools@,
    {
        let mut bits = Bits::new();
        let mut i: usize = 0;
        while i < bools.len()
            invariant
                bits.wf(),
                i <= bools@.len(),
                bits@ == bools@.subrange(0, i as int),
            decreases bools.len() - i,
        {
            bits.push(bools[i]);
            i = i + 1;
            assert(bits@ =~= bools@.subrange(0, i as int));
        }
        assert(bools@.subrange(0, i as int) =~= bools@);
        bits
    }

    /// Serialises as the number of bits (an [`Integer`]) followed by the packed bytes, as
    /// [`Bits::get_proper_bytes`] gives them.
    pub fn ser(&self) -> (r: Vec<u8>)
        requires
            self.sound(),
        ensures
            r@ == encoding(SignedState::Positive, self@.len()).1 + proper_bytes(self.bytes(), self@.len()),
            self.wf() ==> r@ == encoding(SignedState::Positive, self@.len()).1 + self.bytes(),
    {
        let (_, mut size) = Integer::usize(self.valid_bits).ser();
        let proper = self.get_proper_bytes();
        let mut i: usize = 0;
        let ghost start = size@;
        while i < proper.len()
            invariant
                i <= proper@.len(),
                size@ == start + proper@.subrange(0, i as int),
            decreases proper.len() - i,
        {
            size.push(proper[i]);
            i = i + 1;
            assert(size@ =~= start + proper@.subrange(0, i as int));
        }
        assert(proper@.subrange(0, i as int) =~= proper@);
        size
    }

    /// Deserialises bits written by [`Bits::ser`], keeping the packed bytes as they were read
    /// (bits past the end included).
    ///
    /// # Errors
    /// - [`IntegerSerError`] if the number of bits cannot be read or does not fit a `usize`
    /// - [`IntegerSerError::NotEnoughBytes`] if the bytes run out
    pub fn deser(bytes: &mut Cursor<u8>) -> (r: Result<Self, IntegerSerError>)
        requires
            old(bytes).wf(),
        ensures
            final(bytes).wf(),
            final(bytes).items() == old(bytes).items(),
            match bits_decoding(old(bytes).rest()) {
                Ok((v, k)) => r matches Ok(b) && b.sound() && b@ == v && final(bytes).head() == old(bytes).head() + k
                    && b.bytes() == old(bytes).rest().subrange(k - bytes_for(v.len()), k as int),
                Err(e) => r matches Err(e2) && e2 == e,
            },
    {
        let ghost s = old(bytes).rest();
        let ghost head0 = old(bytes).head();
        let valid_bits = match Integer::deser(SignedState::Positive, bytes) {
            Ok(i) => match i.try_into_usize() {
                Ok(v) => v,
                Err(e) => return Err(e),
            },
            Err(e) => return Err(e),
        };
        let ghost head1 = bytes.head();
        let to_be_read = valid_bits / 8 + if valid_bits % 8 == 0 { 0 } else { 1 };
        assert(to_be_read == bytes_for(valid_bits as nat));
        let read = match bytes.read(to_be_read) {
            Some(b) => b,
            None => return Err(IntegerSerError::NotEnoughBytes),
        };
        let backing = vstd::slice::slice_to_vec(read);
        let ghost raw = backing@;
        assert(raw =~= s.subrange(head1 - head0, head1 - head0 + to_be_read));
        let b = Bits { backing, valid_bits };
        proof {
            assert(b@ =~= bits_of(raw, valid_bits as nat));
        }
        Ok(b)
    }
}

impl Default for Bits {
    fn default() -> (b: Self)
        ensures
            b.wf(),
            b@ == Seq::<bool>::empty(),
    {
        Bits::new()
    }
}

/// Deserialising what [`Bits::ser`] wrote, with anything after it, gives back the same bits
/// and takes up exactly the serialised bytes.
pub proof fn lemma_bits_ser_deser_roundtrip(b: Bits, rest: Seq<u8>)
    requires
        b.wf(),
    ensures
        bits_decoding(encoding(SignedState::Positive, b@.len()).1 + b.bytes() + rest) == Ok::<
            (Seq<bool>, nat),
            IntegerSerError,
        >((b@, (encoding(SignedState::Positive, b@.len()).1 + b.bytes()).len())),
{
    let n = b@.len();
    let enc = encoding(SignedState::Positive, n).1;
    let s = enc + b.bytes() + rest;
    lemma_encoding_roundtrip(SignedState::Positive, n, b.bytes() + rest);
    assert(enc + b.bytes() + rest =~= enc + (b.bytes() + rest));
    assert(s.subrange(enc.len() as int, (enc.len() + bytes_for(n)) as int) =~= b.bytes());
    b.lemma_wf_bytes();
}

} // verus!
