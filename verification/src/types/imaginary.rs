//! [`Imaginary`]: a complex number, either as two [`Integer`]s or as two floating-point
//! numbers in polar form.
use vstd::prelude::*;
use crate::types::integer::{
    decoding,
    encoding,
    le_bytes,
    le_bytes_of,
    le_value,
    le_value_of,
    lemma_encoding_roundtrip,
    lemma_le_value_bound,
    lemma_le_value_of_bytes,
    lemma_pow256_16,
    Integer,
    IntegerSerError,
    SignedState,
};
use crate::utilities::cursor::Cursor;

verus! {

/// A complex number.
///
/// The polar form holds the bit patterns of its two `f64`s (see `f64::to_bits`): this
/// library only moves those bits around.
#[derive(Copy, Clone, Debug, Hash)]
pub enum Imaginary {
    /// `real + imaginary * i`.
    CartesianForm {
        /// The real part.
        real: Integer,
        /// The imaginary part.
        imaginary: Integer,
    },
    /// `modulus * e^(argument * i)`.
    PolarForm {
        /// The bit pattern of the modulus.
        modulus: u64,
        /// The bit pattern of the argument.
        argument: u64,
    },
}

/// Whether the `f64` with this bit pattern is a NaN: every exponent bit set, and a fraction.
pub open spec fn f64_is_nan(b: u64) -> bool {
    (b / 0x10_0000_0000_0000) % 0x800 == 0x7FF && b % 0x10_0000_0000_0000 != 0
}

/// Whether the `f64`s with these bit patterns are equal as `f64`s: neither is a NaN, and the
/// patterns are the same or both are zeros (of either sign).
pub open spec fn f64_bits_eq(a: u64, b: u64) -> bool {
    &&& !f64_is_nan(a)
    &&& !f64_is_nan(b)
    &&& (a == b || (a % 0x8000_0000_0000_0000 == 0 && b % 0x8000_0000_0000_0000 == 0))
}

/// Whether the `f64`s with these bit patterns are equal as `f64`s: see [`f64_bits_eq`].
pub fn f64_bits_equal(a: u64, b: u64) -> (r: bool)
    ensures
        r == f64_bits_eq(a, b),
{
    let nan_a = (a / 0x10_0000_0000_0000) % 0x800 == 0x7FF && a % 0x10_0000_0000_0000 != 0;
    let nan_b = (b / 0x10_0000_0000_0000) % 0x800 == 0x7FF && b % 0x10_0000_0000_0000 != 0;
    !nan_a && !nan_b && (a == b || (a % 0x8000_0000_0000_0000 == 0 && b % 0x8000_0000_0000_0000 == 0))
}

/// Whether two complex numbers are equal: cartesian forms with the same parts, or polar forms
/// whose parts are equal as `f64`s.
pub open spec fn imaginary_eq(a: ImaginaryView, b: ImaginaryView) -> bool {
    match (a, b) {
        (ImaginaryView::Polar(m1, a1), ImaginaryView::Polar(m2, a2)) => f64_bits_eq(m1, m2)
            && f64_bits_eq(a1, a2),
        _ => a == b,
    }
}

impl PartialEq for Imaginary {
    fn eq(&self, other: &Self) -> (r: bool) {
        match (self, other) {
            (
                Imaginary::PolarForm { modulus: m1, argument: a1 },
                Imaginary::PolarForm { modulus: m2, argument: a2 },
            ) => f64_bits_equal(*m1, *m2) && f64_bits_equal(*a1, *a2),
            (
                Imaginary::CartesianForm { real: r1, imaginary: i1 },
                Imaginary::CartesianForm { real: r2, imaginary: i2 },
            ) => {
                proof {
                    Integer::lemma_view_eq(*r1, *r2);
                    Integer::lemma_view_eq(*i1, *i2);
                }
                *r1 == *r2 && *i1 == *i2
            },
            _ => false,
        }
    }
}

impl vstd::std_specs::cmp::PartialEqSpecImpl for Imaginary {
    open spec fn obeys_eq_spec() -> bool {
        true
    }

    open spec fn eq_spec(&self, other: &Self) -> bool {
        imaginary_eq(imaginary_view(*self), imaginary_view(*other))
    }
}

/// What an [`Imaginary`] holds: the signed states and magnitudes of the two parts, or the two
/// bit patterns.
pub ghost enum ImaginaryView {
    /// The cartesian form.
    Cartesian(SignedState, nat, SignedState, nat),
    /// The polar form.
    Polar(u64, u64),
}

/// What an [`Imaginary`] holds.
pub open spec fn imaginary_view(i: Imaginary) -> ImaginaryView {
    match i {
        Imaginary::CartesianForm { real: re, imaginary: im } => ImaginaryView::Cartesian(
            re.sign(),
            re.magnitude(),
            im.sign(),
            im.magnitude(),
        ),
        Imaginary::PolarForm { modulus, argument } => ImaginaryView::Polar(modulus, argument),
    }
}

/// The magic number that [`Imaginary::ser`] writes for the signed states of the two parts.
pub open spec fn magic_of(re: SignedState, im: SignedState) -> u8 {
    match (re, im) {
        (SignedState::Positive, SignedState::Positive) => 1,
        (SignedState::Positive, SignedState::Negative) => 4,
        (SignedState::Negative, SignedState::Positive) => 5,
        (SignedState::Negative, SignedState::Negative) => 9,
    }
}

/// The signed states of the two parts that a magic number from `1` to `9` stands for: the
/// numbers name pairs of unsigned, positive and negative parts, and an unsigned part is read
/// as a positive one.
pub open spec fn states_of_magic(m: u8) -> Option<(SignedState, SignedState)> {
    let p = SignedState::Positive;
    let n = SignedState::Negative;
    if m == 1 || m == 2 || m == 3 || m == 6 {
        Some((p, p))
    } else if m == 4 || m == 7 {
        Some((p, n))
    } else if m == 5 || m == 8 {
        Some((n, p))
    } else if m == 9 {
        Some((n, n))
    } else {
        None
    }
}

/// The magic number and bytes that [`Imaginary::ser`] gives.
pub open spec fn imaginary_encoded(i: Imaginary) -> (u8, Seq<u8>) {
    match i {
        Imaginary::CartesianForm { real: re, imaginary: im } => {
            let (rs, rb) = encoding(re.sign(), re.magnitude());
            let (is, ib) = encoding(im.sign(), im.magnitude());
            (magic_of(rs, is), rb + ib)
        },
        Imaginary::PolarForm { modulus, argument } => (
            0,
            le_bytes(modulus as nat, 8) + le_bytes(argument as nat, 8),
        ),
    }
}

/// What [`Imaginary::deser`] reads from `s` with magic number `magic`, and the number of bytes
/// it takes up; or the error.
pub open spec fn imaginary_decoded(magic: u8, s: Seq<u8>) -> Result<(ImaginaryView, nat), IntegerSerError> {
    if magic == 0 {
        if s.len() < 16 {
            Err(IntegerSerError::NotEnoughBytes)
        } else {
            Ok(
                (
                    ImaginaryView::Polar(
                        le_value(s.subrange(0, 8)) as u64,
                        le_value(s.subrange(8, 16)) as u64,
                    ),
                    16,
                ),
            )
        }
    } else {
        match states_of_magic(magic) {
            None => Err(IntegerSerError::InvalidSignedStateDiscriminant(magic)),
            Some((rs, is)) => match decoding(s) {
                None => Err(IntegerSerError::NotEnoughBytes),
                Some((m1, c1)) => match decoding(s.subrange(c1 as int, s.len() as int)) {
                    None => Err(IntegerSerError::NotEnoughBytes),
                    Some((m2, c2)) => Ok((ImaginaryView::Cartesian(rs, m1, is, m2), c1 + c2)),
                },
            },
        }
    }
}

impl Imaginary {
    /// Serialises the number into a magic number (which fits in four bits) and bytes: see
    /// [`imaginary_encoded`].
    ///
    /// In cartesian form the two parts follow each other as [`Integer`]s and the magic number
    /// names their signed states; in polar form the magic number is `0` and the sixteen bytes
    /// are the two bit patterns, little-endian.
    pub fn ser(&self) -> (r: (u8, Vec<u8>))
        ensures
            (r.0, r.1@) == imaginary_encoded(*self),
    {
        match self {
            Imaginary::CartesianForm { real: re, imaginary: im } => {
                let (re_ss, mut re_bytes) = re.ser();
                let (im_ss, im_bytes) = im.ser();
                let magic: u8 = match (re_ss, im_ss) {
                    (SignedState::Positive, SignedState::Positive) => 1,
                    (SignedState::Positive, SignedState::Negative) => 4,
                    (SignedState::Negative, SignedState::Positive) => 5,
                    (SignedState::Negative, SignedState::Negative) => 9,
                };
                let ghost start = re_bytes@;
                let mut i: usize = 0;
                while i < im_bytes.len()
                    invariant
                        i <= im_bytes@.len(),
                        re_bytes@ == start + im_bytes@.take(i as int),
                    decreases im_bytes.len() - i,
                {
                    re_bytes.push(im_bytes[i]);
                    i = i + 1;
                    assert(re_bytes@ =~= start + im_bytes@.take(i as int));
                }
                assert(im_bytes@.take(im_bytes@.len() as int) =~= im_bytes@);
                (magic, re_bytes)
            },
            Imaginary::PolarForm { modulus, argument } => {
                let mut bytes = le_bytes_of(*modulus, 8);
                let arg = le_bytes_of(*argument, 8);
                let ghost start = bytes@;
                let mut i: usize = 0;
                while i < 8
                    invariant
                        i <= 8,
                        arg@.len() == 8,
                        bytes@ == start + arg@.take(i as int),
                    decreases 8 - i,
                {
                    bytes.push(arg[i]);
                    i = i + 1;
                    assert(bytes@ =~= start + arg@.take(i as int));
                }
                assert(arg@.take(8) =~= arg@);
                (0, bytes)
            },
        }
    }

    /// Deserialises a number with the given magic number from the cursor: see
    /// [`imaginary_decoded`].
    ///
    /// # Errors
    /// - [`IntegerSerError::NotEnoughBytes`] if the cursor runs out;
    /// - [`IntegerSerError::InvalidSignedStateDiscriminant`] for a magic number above `9`.
    pub fn deser(magic_bits: u8, bytes: &mut Cursor<u8>) -> (r: Result<Self, IntegerSerError>)
        requires
            old(bytes).wf(),
        ensures
            final(bytes).wf(),
            final(bytes).items() == old(bytes).items(),
            match imaginary_decoded(magic_bits, old(bytes).rest()) {
                Ok((v, n)) => r matches Ok(i) && imaginary_view(i) == v && final(bytes).head()
                    == old(bytes).head() + n,
                Err(e) => r matches Err(e2) && e2 == e,
            },
    {
        let ghost s = old(bytes).rest();
        let ghost h0 = old(bytes).head();
        if magic_bits > 0 {
            let (real_ss, imaginary_ss) = match magic_bits {
                1 | 2 | 3 | 6 => (SignedState::Positive, SignedState::Positive),
                4 | 7 => (SignedState::Positive, SignedState::Negative),
                5 | 8 => (SignedState::Negative, SignedState::Positive),
                9 => (SignedState::Negative, SignedState::Negative),
                _ => return Err(IntegerSerError::InvalidSignedStateDiscriminant(magic_bits)),
            };
            let re = match Integer::deser(real_ss, bytes) {
                Ok(i) => i,
                Err(e) => return Err(e),
            };
            let ghost c1 = (bytes.head() - h0) as nat;
            assert(bytes.rest() =~= s.subrange(c1 as int, s.len() as int));
            let im = match Integer::deser(imaginary_ss, bytes) {
                Ok(i) => i,
                Err(e) => return Err(e),
            };
            Ok(Imaginary::CartesianForm { real: re, imaginary: im })
        } else {
            proof {
                lemma_pow256_16();
            }
            let m = match bytes.read(8) {
                Some(b) => b,
                None => return Err(IntegerSerError::NotEnoughBytes),
            };
            assert(m@ =~= s.subrange(0, 8));
            let modulus = le_value_of(m);
            let a = match bytes.read(8) {
                Some(b) => b,
                None => return Err(IntegerSerError::NotEnoughBytes),
            };
            assert(a@ =~= s.subrange(8, 16));
            let argument = le_value_of(a);
            Ok(Imaginary::PolarForm { modulus, argument })
        }
    }
}

/// Reading back what [`Imaginary::ser`] wrote, with the magic number it gave, gives the same
/// number and moves past exactly those bytes, whatever follows them; a part that is a negative
/// zero comes back positive.
pub proof fn lemma_imaginary_roundtrip(i: Imaginary, rest: Seq<u8>)
    ensures
        ({
            let (magic, bytes) = imaginary_encoded(i);
            &&& magic <= 15
            &&& imaginary_decoded(magic, bytes + rest) == Ok::<(ImaginaryView, nat), IntegerSerError>(
                (normalised(imaginary_view(i)), bytes.len()),
            )
        }),
{
    let (magic, bytes) = imaginary_encoded(i);
    match i {
        Imaginary::CartesianForm { real: re, imaginary: im } => {
            re.lemma_magnitude_bound();
            im.lemma_magnitude_bound();
            let (rs, rb) = encoding(re.sign(), re.magnitude());
            let (is, ib) = encoding(im.sign(), im.magnitude());
            lemma_encoding_roundtrip(re.sign(), re.magnitude(), ib + rest);
            lemma_encoding_roundtrip(im.sign(), im.magnitude(), rest);
            assert(bytes + rest =~= rb + (ib + rest));
            assert((bytes + rest).subrange(rb.len() as int, (bytes + rest).len() as int) =~= ib
                + rest);
        },
        Imaginary::PolarForm { modulus, argument } => {
            lemma_pow256_16();
            lemma_le_value_of_bytes(modulus as nat, 8);
            lemma_le_value_of_bytes(argument as nat, 8);
            vstd::arithmetic::div_mod::lemma_small_mod(modulus as nat, 0x10000000000000000);
            vstd::arithmetic::div_mod::lemma_small_mod(argument as nat, 0x10000000000000000);
            assert((bytes + rest).subrange(0, 8) =~= le_bytes(modulus as nat, 8));
            assert((bytes + rest).subrange(8, 16) =~= le_bytes(argument as nat, 8));
        },
    }
}

/// The view with each negative zero part made positive, as serialising does.
pub open spec fn normalised(v: ImaginaryView) -> ImaginaryView {
    match v {
        ImaginaryView::Cartesian(rs, rm, is, im) => ImaginaryView::Cartesian(
            if rm == 0 { SignedState::Positive } else { rs },
            rm,
            if im == 0 { SignedState::Positive } else { is },
            im,
        ),
        ImaginaryView::Polar(a, b) => ImaginaryView::Polar(a, b),
    }
}

} // verus!
