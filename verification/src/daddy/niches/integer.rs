//! Integers that remember the width of the Rust type they came from, and are stored in as
//! few of those bytes as their value needs.
use vstd::prelude::*;
use crate::daddy::utilities::cursor::Cursor;
use crate::types::integer::{
    le_bytes,
    le_bytes_of,
    le_value,
    le_value_of,
    pow256,
    lemma_le_value_bound,
    lemma_le_value_of_bytes,
    lemma_pow256_16,
};

verus! {

broadcast use vstd::array::group_array_axioms;

/// The little-endian bytes of an integer, as many as its type is wide.
#[derive(Copy, Clone, Debug)]
pub enum IntegerContent {
    /// One byte: `u8` and `i8`.
    Small([u8; 1]),
    /// Two bytes: `u16` and `i16`.
    Smedium([u8; 2]),
    /// Four bytes: `u32` and `i32`.
    Medium([u8; 4]),
    /// Eight bytes: `u64`, `i64`, `usize` and `isize`.
    Large([u8; 8]),
}

/// Whether an integer came from an unsigned type, and if not, its sign.
#[derive(Copy, Clone, Debug, PartialEq, Eq, Structural)]
pub enum SignedState {
    /// From an unsigned type.
    Unsigned,
    /// From a signed type, zero or more.
    SignedPositive,
    /// From a signed type, less than zero; the bytes hold the magnitude.
    SignedNegative,
}

/// An integer together with the width and signedness of its type.
#[derive(Copy, Clone, Debug)]
pub struct Integer {
    signed_state: SignedState,
    content: IntegerContent,
}

/// A width: one, two, four or eight bytes.
#[derive(Copy, Clone, Debug, PartialEq, Eq, Structural)]
pub enum IntegerDiscriminant {
    /// One byte.
    Small,
    /// Two bytes.
    Smedium,
    /// Four bytes.
    Medium,
    /// Eight bytes.
    Large,
}

/// An error when reading an [`Integer`] or converting it to a Rust integer.
#[derive(Copy, Clone, Debug, PartialEq, Eq, Structural)]
pub enum IntegerSerError {
    /// A header held a signed state or width that does not exist.
    InvalidDiscriminant,
    /// The cursor ran out of bytes.
    NotEnoughBytes,
    /// The integer is not of the type asked for.
    WrongType,
}

/// The number of bytes of a width.
pub open spec fn disc_bytes(d: IntegerDiscriminant) -> nat {
    match d {
        IntegerDiscriminant::Small => 1,
        IntegerDiscriminant::Smedium => 2,
        IntegerDiscriminant::Medium => 4,
        IntegerDiscriminant::Large => 8,
    }
}

/// The three-bit code of a width.
pub open spec fn disc_code(d: IntegerDiscriminant) -> u8 {
    match d {
        IntegerDiscriminant::Small => 1,
        IntegerDiscriminant::Smedium => 2,
        IntegerDiscriminant::Medium => 3,
        IntegerDiscriminant::Large => 4,
    }
}

/// The width with a three-bit code, if there is one.
pub open spec fn disc_from_code(b: u8) -> Option<IntegerDiscriminant> {
    if b == 1 {
        Some(IntegerDiscriminant::Small)
    } else if b == 2 {
        Some(IntegerDiscriminant::Smedium)
    } else if b == 3 {
        Some(IntegerDiscriminant::Medium)
    } else if b == 4 {
        Some(IntegerDiscriminant::Large)
    } else {
        None
    }
}

/// The two-bit code of a signed state.
pub open spec fn signed_code(s: SignedState) -> u8 {
    match s {
        SignedState::Unsigned => 1,
        SignedState::SignedPositive => 2,
        SignedState::SignedNegative => 3,
    }
}

/// The signed state with a two-bit code, if there is one.
pub open spec fn signed_from_code(b: u8) -> Option<SignedState> {
    if b == 1 {
        Some(SignedState::Unsigned)
    } else if b == 2 {
        Some(SignedState::SignedPositive)
    } else if b == 3 {
        Some(SignedState::SignedNegative)
    } else {
        None
    }
}

/// Where the run of zero bytes at the end of `s` starts (`s.len()` when `s` does not end in
/// a zero byte).
pub open spec fn zero_run_start(s: Seq<u8>) -> nat
    decreases s.len(),
{
    if s.len() == 0 {
        0
    } else if s.last() != 0 {
        s.len()
    } else {
        zero_run_start(s.drop_last())
    }
}

/// How many bytes the stored width must hold: up to the last non-zero byte, or the whole
/// length (`length_minus_one + 1`) when the last byte is not zero.
pub open spec fn fit_index(s: Seq<u8>, length_minus_one: nat) -> nat {
    if zero_run_start(s) == s.len() {
        length_minus_one + 1
    } else {
        zero_run_start(s)
    }
}

/// The width chosen for a fit index.
pub open spec fn disc_for_index(i: nat) -> IntegerDiscriminant {
    if i <= 1 {
        IntegerDiscriminant::Small
    } else if i <= 2 {
        IntegerDiscriminant::Smedium
    } else if i <= 4 {
        IntegerDiscriminant::Medium
    } else {
        IntegerDiscriminant::Large
    }
}

/// The width in which the bytes of an integer of width `declared` are stored.
pub open spec fn stored_disc(declared: IntegerDiscriminant, bytes: Seq<u8>) -> IntegerDiscriminant {
    if declared == IntegerDiscriminant::Small {
        IntegerDiscriminant::Small
    } else {
        disc_for_index(fit_index(bytes, (bytes.len() - 1) as nat))
    }
}

/// The header byte: two bits of signed state, three of declared width, three of stored width.
pub open spec fn header_byte(
    signed_state: SignedState,
    declared: IntegerDiscriminant,
    stored: IntegerDiscriminant,
) -> u8 {
    (signed_code(signed_state) * 64 + disc_code(declared) * 8 + disc_code(stored)) as u8
}

/// The bytes [`Integer::ser`] gives: the header, then the stored bytes.
pub open spec fn serialised(signed_state: SignedState, declared: IntegerDiscriminant, bytes: Seq<
    u8,
>) -> Seq<u8> {
    let stored = stored_disc(declared, bytes);
    seq![header_byte(signed_state, declared, stored)] + bytes.take(disc_bytes(stored) as int)
}

/// `s` followed by zero bytes up to length `n`.
pub open spec fn padded(s: Seq<u8>, n: nat) -> Seq<u8> {
    Seq::new(n, |i: int| if i < s.len() { s[i] } else { 0u8 })
}

/// The header fields of a byte, if they are all valid.
pub open spec fn header_fields(h: u8) -> Option<(SignedState, IntegerDiscriminant, IntegerDiscriminant)> {
    match (signed_from_code(h / 64), disc_from_code((h / 8) % 8), disc_from_code(h % 8)) {
        (Some(s), Some(o), Some(d)) => Some((s, o, d)),
        _ => None,
    }
}

/// What [`Integer::deser`] reads from `s`: the signed state, width and bytes of the integer and
/// the number of bytes read, or the error.
pub open spec fn decoded(s: Seq<u8>) -> Result<
    (SignedState, IntegerDiscriminant, Seq<u8>, nat),
    IntegerSerError,
> {
    if s.len() == 0 {
        Err(IntegerSerError::NotEnoughBytes)
    } else {
        match header_fields(s[0]) {
            None => Err(IntegerSerError::InvalidDiscriminant),
            Some((ss, declared, stored)) => {
                let k = disc_bytes(stored);
                if s.len() < 1 + k {
                    Err(IntegerSerError::NotEnoughBytes)
                } else {
                    Ok((ss, declared, padded(s.subrange(1, 1 + k as int), disc_bytes(declared)), 1 + k))
                }
            },
        }
    }
}

/// How many bytes [`Integer::deser`] moves past in `s`, whatever the outcome.
pub open spec fn consumed(s: Seq<u8>) -> nat {
    if s.len() == 0 {
        0
    } else {
        match header_fields(s[0]) {
            None => 1,
            Some((_, _, stored)) => if s.len() < 1 + disc_bytes(stored) {
                s.len()
            } else {
                1 + disc_bytes(stored)
            },
        }
    }
}

/// Bytes on which [`Integer::deser`] cannot go on: a complete record whose stored width is
/// wider than its declared width.
pub open spec fn undecodable(s: Seq<u8>) -> bool {
    &&& s.len() > 0
    &&& header_fields(s[0]) matches Some((_, declared, stored))
    &&& s.len() >= 1 + disc_bytes(stored)
    &&& disc_bytes(stored) > disc_bytes(declared)
}

/// `v`, a `k`-byte unsigned value, read as two's complement.
pub open spec fn twos(v: nat, k: nat) -> int {
    if v >= pow256(k) / 2 {
        v - pow256(k)
    } else {
        v as int
    }
}

impl IntegerDiscriminant {
    /// The number of bytes of this width.
    pub fn bytes(self) -> (n: usize)
        ensures
            n == disc_bytes(self),
    {
        match self {
            IntegerDiscriminant::Small => 1,
            IntegerDiscriminant::Smedium => 2,
            IntegerDiscriminant::Medium => 4,
            IntegerDiscriminant::Large => 8,
        }
    }

    /// The width chosen to store `bytes`: see [`fit_index`] and [`disc_for_index`].
    pub fn iterator_to_size_can_fit_in(bytes: &[u8], length_minus_one: usize) -> (d: Self)
        ensures
            d == disc_for_index(fit_index(bytes@, length_minus_one as nat)),
    {
        let len = bytes.len();
        let mut i: usize = len;
        assert(bytes@.take(len as int) =~= bytes@);
        while i > 0 && bytes[i - 1] == 0
            invariant
                i <= len,
                len == bytes@.len(),
                zero_run_start(bytes@) == zero_run_start(bytes@.take(i as int)),
            decreases i,
        {
            assert(bytes@.take(i as int).drop_last() =~= bytes@.take(i - 1));
            i = i - 1;
        }
        assert(zero_run_start(bytes@.take(i as int)) == i);
        if i == len {
            // the last byte is not zero: all `length_minus_one + 1` bytes are needed
            return if length_minus_one == 0 {
                IntegerDiscriminant::Small
            } else if length_minus_one <= 1 {
                IntegerDiscriminant::Smedium
            } else if length_minus_one <= 3 {
                IntegerDiscriminant::Medium
            } else {
                IntegerDiscriminant::Large
            };
        }
        let last_zeroed = i;
        if last_zeroed <= 1 {
            IntegerDiscriminant::Small
        } else if last_zeroed <= 2 {
            IntegerDiscriminant::Smedium
        } else if last_zeroed <= 4 {
            IntegerDiscriminant::Medium
        } else {
            IntegerDiscriminant::Large
        }
    }

    fn code(self) -> (b: u8)
        ensures
            b == disc_code(self),
    {
        match self {
            IntegerDiscriminant::Small => 1,
            IntegerDiscriminant::Smedium => 2,
            IntegerDiscriminant::Medium => 3,
            IntegerDiscriminant::Large => 4,
        }
    }

    fn from_code(b: u8) -> (r: Result<Self, IntegerSerError>)
        ensures
            match disc_from_code(b) {
                Some(d) => r == Ok::<Self, IntegerSerError>(d),
                None => r == Err::<Self, IntegerSerError>(IntegerSerError::InvalidDiscriminant),
            },
    {
        match b {
            1 => Ok(IntegerDiscriminant::Small),
            2 => Ok(IntegerDiscriminant::Smedium),
            3 => Ok(IntegerDiscriminant::Medium),
            4 => Ok(IntegerDiscriminant::Large),
            _ => Err(IntegerSerError::InvalidDiscriminant),
        }
    }
}

impl SignedState {
    fn code(self) -> (b: u8)
        ensures
            b == signed_code(self),
    {
        match self {
            SignedState::Unsigned => 1,
            SignedState::SignedPositive => 2,
            SignedState::SignedNegative => 3,
        }
    }

    fn from_code(b: u8) -> (r: Result<Self, IntegerSerError>)
        ensures
            match signed_from_code(b) {
                Some(s) => r == Ok::<Self, IntegerSerError>(s),
                None => r == Err::<Self, IntegerSerError>(IntegerSerError::InvalidDiscriminant),
            },
    {
        match b {
            1 => Ok(SignedState::Unsigned),
            2 => Ok(SignedState::SignedPositive),
            3 => Ok(SignedState::SignedNegative),
            _ => Err(IntegerSerError::InvalidDiscriminant),
        }
    }
}

/// The `n` bytes of `read`, then zeros, as a vector of length `n`.
fn padded_vec(read: &Vec<u8>, n: usize) -> (v: Vec<u8>)
    requires
        read@.len() <= n,
    ensures
        v@ == padded(read@, n as nat),
{
    let mut v: Vec<u8> = Vec::new();
    let mut j: usize = 0;
    while j < n
        invariant
            j <= n,
            read@.len() <= n,
            v@ == padded(read@, n as nat).take(j as int),
        decreases n - j,
    {
        if j < read.len() {
            v.push(read[j]);
        } else {
            v.push(0);
        }
        j = j + 1;
        assert(v@ =~= padded(read@, n as nat).take(j as int));
    }
    assert(v@ =~= padded(read@, n as nat));
    v
}

impl Integer {
    /// The signed state.
    pub closed spec fn sign(self) -> SignedState {
        self.signed_state
    }

    /// The width of the type the integer came from.
    pub closed spec fn disc(self) -> IntegerDiscriminant {
        match self.content {
            IntegerContent::Small(_) => IntegerDiscriminant::Small,
            IntegerContent::Smedium(_) => IntegerDiscriminant::Smedium,
            IntegerContent::Medium(_) => IntegerDiscriminant::Medium,
            IntegerContent::Large(_) => IntegerDiscriminant::Large,
        }
    }

    /// The bytes, least significant first: the value, or for a negative integer its magnitude.
    pub closed spec fn bytes(self) -> Seq<u8> {
        match self.content {
            IntegerContent::Small(b) => b@,
            IntegerContent::Smedium(b) => b@,
            IntegerContent::Medium(b) => b@,
            IntegerContent::Large(b) => b@,
        }
    }

    /// The integer this stands for: the bytes read as an unsigned number, or for a signed
    /// type read in two's complement and negated when the state is negative.
    pub open spec fn value(self) -> int {
        let v = le_value(self.bytes());
        let k = disc_bytes(self.disc());
        match self.sign() {
            SignedState::Unsigned => v as int,
            SignedState::SignedPositive => twos(v, k),
            SignedState::SignedNegative => -twos(v, k),
        }
    }

    /// The bytes always match the width.
    pub proof fn lemma_bytes_len(self)
        ensures
            self.bytes().len() == disc_bytes(self.disc()),
    {
    }

    /// Two integers with the same signed state, width and bytes are the same.
    pub proof fn lemma_view_determines(self, other: Self)
        requires
            self.sign() == other.sign(),
            self.disc() == other.disc(),
            self.bytes() == other.bytes(),
        ensures
            self == other,
    {
        match (self.content, other.content) {
            (IntegerContent::Small(a), IntegerContent::Small(b)) => {
                assert(a@ =~= b@);
                assert(a =~= b);
            },
            (IntegerContent::Smedium(a), IntegerContent::Smedium(b)) => {
                assert(a@ =~= b@);
                assert(a =~= b);
            },
            (IntegerContent::Medium(a), IntegerContent::Medium(b)) => {
                assert(a@ =~= b@);
                assert(a =~= b);
            },
            (IntegerContent::Large(a), IntegerContent::Large(b)) => {
                assert(a@ =~= b@);
                assert(a =~= b);
            },
            _ => {},
        }
    }

    fn from_vec(signed_state: SignedState, d: IntegerDiscriminant, v: &Vec<u8>) -> (i: Self)
        requires
            v@.len() == disc_bytes(d),
        ensures
            i.sign() == signed_state,
            i.disc() == d,
            i.bytes() == v@,
    {
        let content = match d {
            IntegerDiscriminant::Small => IntegerContent::Small([v[0]]),
            IntegerDiscriminant::Smedium => IntegerContent::Smedium([v[0], v[1]]),
            IntegerDiscriminant::Medium => IntegerContent::Medium([v[0], v[1], v[2], v[3]]),
            IntegerDiscriminant::Large => IntegerContent::Large(
                [v[0], v[1], v[2], v[3], v[4], v[5], v[6], v[7]],
            ),
        };
        let i = Integer { signed_state, content };
        assert(i.bytes() =~= v@);
        i
    }

    fn content_vec(&self) -> (v: Vec<u8>)
        ensures
            v@ == self.bytes(),
    {
        let mut v: Vec<u8> = Vec::new();
        match self.content {
            IntegerContent::Small(b) => {
                v.push(b[0]);
            },
            IntegerContent::Smedium(b) => {
                v.push(b[0]);
                v.push(b[1]);
            },
            IntegerContent::Medium(b) => {
                v.push(b[0]);
                v.push(b[1]);
                v.push(b[2]);
                v.push(b[3]);
            },
            IntegerContent::Large(b) => {
                v.push(b[0]);
                v.push(b[1]);
                v.push(b[2]);
                v.push(b[3]);
                v.push(b[4]);
                v.push(b[5]);
                v.push(b[6]);
                v.push(b[7]);
            },
        }
        assert(v@ =~= self.bytes());
        v
    }

    fn unsigned_of(n: u64, d: IntegerDiscriminant) -> (i: Self)
        requires
            n < pow256(disc_bytes(d)),
        ensures
            i.sign() == SignedState::Unsigned,
            i.disc() == d,
            i.bytes() == le_bytes(n as nat, disc_bytes(d)),
            i.value() == n,
    {
        let v = le_bytes_of(n, d.bytes());
        proof {
            lemma_le_value_of_bytes(n as nat, disc_bytes(d));
            vstd::arithmetic::div_mod::lemma_small_mod(n as nat, pow256(disc_bytes(d)));
        }
        Self::from_vec(SignedState::Unsigned, d, &v)
    }

    fn signed_of(n: i64, d: IntegerDiscriminant) -> (i: Self)
        requires
            -(pow256(disc_bytes(d)) / 2) < n < pow256(disc_bytes(d)) / 2,
        ensures
            i.sign() == if n < 0 {
                SignedState::SignedNegative
            } else {
                SignedState::SignedPositive
            },
            i.disc() == d,
            i.bytes() == le_bytes((if n < 0 { -n } else { n as int }) as nat, disc_bytes(d)),
            i.value() == n,
    {
        proof {
            lemma_pow256_16();
        }
        let (signed_state, m): (SignedState, u64) = if n < 0 {
            (SignedState::SignedNegative, (-n) as u64)
        } else {
            (SignedState::SignedPositive, n as u64)
        };
        let v = le_bytes_of(m, d.bytes());
        proof {
            lemma_le_value_of_bytes(m as nat, disc_bytes(d));
            vstd::arithmetic::div_mod::lemma_small_mod(m as nat, pow256(disc_bytes(d)));
        }
        Self::from_vec(signed_state, d, &v)
    }

    /// An integer from a `u8`.
    pub fn u8(n: u8) -> (i: Self)
        ensures
            i.sign() == SignedState::Unsigned,
            i.disc() == IntegerDiscriminant::Small,
            i.value() == n,
    {
        proof {
            lemma_pow256_16();
        }
        Self::unsigned_of(n as u64, IntegerDiscriminant::Small)
    }

    /// An integer from a `u16`.
    pub fn u16(n: u16) -> (i: Self)
        ensures
            i.sign() == SignedState::Unsigned,
            i.disc() == IntegerDiscriminant::Smedium,
            i.value() == n,
    {
        proof {
            lemma_pow256_16();
        }
        Self::unsigned_of(n as u64, IntegerDiscriminant::Smedium)
    }

    /// An integer from a `u32`.
    pub fn u32(n: u32) -> (i: Self)
        ensures
            i.sign() == SignedState::Unsigned,
            i.disc() == IntegerDiscriminant::Medium,
            i.value() == n,
    {
        proof {
            lemma_pow256_16();
        }
        Self::unsigned_of(n as u64, IntegerDiscriminant::Medium)
    }

    /// An integer from a `u64`.
    pub fn u64(n: u64) -> (i: Self)
        ensures
            i.sign() == SignedState::Unsigned,
            i.disc() == IntegerDiscriminant::Large,
            i.value() == n,
    {
        proof {
            lemma_pow256_16();
        }
        Self::unsigned_of(n, IntegerDiscriminant::Large)
    }

    /// An integer from a `usize`.
    pub fn usize(n: usize) -> (i: Self)
        ensures
            i.sign() == SignedState::Unsigned,
            i.disc() == IntegerDiscriminant::Large,
            i.value() == n,
    {
        proof {
            lemma_pow256_16();
        }
        Self::unsigned_of(n as u64, IntegerDiscriminant::Large)
    }

    /// An integer from an `i8`; negating `i8::MIN` overflows, so it is left out.
    pub fn i8(n: i8) -> (i: Self)
        requires
            n > i8::MIN,
        ensures
            i.sign() == if n < 0 {
                SignedState::SignedNegative
            } else {
                SignedState::SignedPositive
            },
            i.disc() == IntegerDiscriminant::Small,
            i.value() == n,
    {
        proof {
            lemma_pow256_16();
        }
        Self::signed_of(n as i64, IntegerDiscriminant::Small)
    }

    /// An integer from an `i16`; negating `i16::MIN` overflows, so it is left out.
    pub fn i16(n: i16) -> (i: Self)
        requires
            n > i16::MIN,
        ensures
            i.sign() == if n < 0 {
                SignedState::SignedNegative
            } else {
                SignedState::SignedPositive
            },
            i.disc() == IntegerDiscriminant::Smedium,
            i.value() == n,
    {
        proof {
            lemma_pow256_16();
        }
        Self::signed_of(n as i64, IntegerDiscriminant::Smedium)
    }

    /// An integer from an `i32`; negating `i32::MIN` overflows, so it is left out.
    pub fn i32(n: i32) -> (i: Self)
        requires
            n > i32::MIN,
        ensures
            i.sign() == if n < 0 {
                SignedState::SignedNegative
            } else {
                SignedState::SignedPositive
            },
            i.disc() == IntegerDiscriminant::Medium,
            i.value() == n,
    {
        proof {
            lemma_pow256_16();
        }
        Self::signed_of(n as i64, IntegerDiscriminant::Medium)
    }

    /// An integer from an `i64`; negating `i64::MIN` overflows, so it is left out.
    pub fn i64(n: i64) -> (i: Self)
        requires
            n > i64::MIN,
        ensures
            i.sign() == if n < 0 {
                SignedState::SignedNegative
            } else {
                SignedState::SignedPositive
            },
            i.disc() == IntegerDiscriminant::Large,
            i.value() == n,
    {
        proof {
            lemma_pow256_16();
        }
        Self::signed_of(n, IntegerDiscriminant::Large)
    }

    /// An integer from an `isize`; negating `isize::MIN` overflows, so it is left out.
    pub fn isize(n: isize) -> (i: Self)
        requires
            n > isize::MIN,
        ensures
            i.sign() == if n < 0 {
                SignedState::SignedNegative
            } else {
                SignedState::SignedPositive
            },
            i.disc() == IntegerDiscriminant::Large,
            i.value() == n,
    {
        proof {
            lemma_pow256_16();
        }
        Self::signed_of(n as i64, IntegerDiscriminant::Large)
    }

    /// The width of this integer's type.
    fn as_disc(&self) -> (d: IntegerDiscriminant)
        ensures
            d == self.disc(),
    {
        match &self.content {
            IntegerContent::Small(_) => IntegerDiscriminant::Small,
            IntegerContent::Smedium(_) => IntegerDiscriminant::Smedium,
            IntegerContent::Medium(_) => IntegerDiscriminant::Medium,
            IntegerContent::Large(_) => IntegerDiscriminant::Large,
        }
    }

    /// The bounds of [`Integer::value`] for each signed state.
    pub proof fn lemma_value_range(self)
        ensures
            self.sign() == SignedState::Unsigned ==> 0 <= self.value() < pow256(
                disc_bytes(self.disc()),
            ),
            self.sign() == SignedState::SignedPositive ==> -(pow256(disc_bytes(self.disc())) / 2)
                <= self.value() < pow256(disc_bytes(self.disc())) / 2,
            self.sign() == SignedState::SignedNegative ==> -(pow256(disc_bytes(self.disc())) / 2)
                < self.value() <= pow256(disc_bytes(self.disc())) / 2,
    {
        lemma_le_value_bound(self.bytes());
        lemma_pow256_16();
    }

    fn unsigned_value(&self, d: IntegerDiscriminant) -> (r: Result<u64, IntegerSerError>)
        ensures
            r == if self.sign() == SignedState::Unsigned && self.disc() == d {
                Ok::<u64, IntegerSerError>(self.value() as u64)
            } else {
                Err::<u64, IntegerSerError>(IntegerSerError::WrongType)
            },
            r is Ok ==> 0 <= self.value() < pow256(disc_bytes(d)),
    {
        proof {
            self.lemma_value_range();
            lemma_pow256_16();
        }
        if self.signed_state != SignedState::Unsigned {
            return Err(IntegerSerError::WrongType);
        }
        if self.as_disc() != d {
            return Err(IntegerSerError::WrongType);
        }
        let v = self.content_vec();
        Ok(le_value_of(v.as_slice()))
    }

    fn signed_value(&self, d: IntegerDiscriminant) -> (r: Result<i128, IntegerSerError>)
        ensures
            r == if self.sign() != SignedState::Unsigned && self.disc() == d {
                Ok::<i128, IntegerSerError>(self.value() as i128)
            } else {
                Err::<i128, IntegerSerError>(IntegerSerError::WrongType)
            },
    {
        proof {
            self.lemma_value_range();
            lemma_pow256_16();
        }
        if self.signed_state == SignedState::Unsigned {
            return Err(IntegerSerError::WrongType);
        }
        if self.as_disc() != d {
            return Err(IntegerSerError::WrongType);
        }
        let v = self.content_vec();
        let x = le_value_of(v.as_slice()) as i128;
        let full: i128 = match d {
            IntegerDiscriminant::Small => 0x100,
            IntegerDiscriminant::Smedium => 0x10000,
            IntegerDiscriminant::Medium => 0x100000000,
            IntegerDiscriminant::Large => 0x10000000000000000,
        };
        let raw: i128 = if x >= full / 2 {
            x - full
        } else {
            x
        };
        if self.signed_state == SignedState::SignedPositive {
            Ok(raw)
        } else {
            Ok(-raw)
        }
    }

    /// This integer as a `u8`, if it came from one.
    pub fn try_into_u8(self) -> (r: Result<u8, IntegerSerError>)
        ensures
            r == if self.sign() == SignedState::Unsigned && self.disc()
                == IntegerDiscriminant::Small {
                Ok::<u8, IntegerSerError>(self.value() as u8)
            } else {
                Err::<u8, IntegerSerError>(IntegerSerError::WrongType)
            },
            r matches Ok(x) ==> x == self.value(),
    {
        proof {
            lemma_pow256_16();
        }
        match self.unsigned_value(IntegerDiscriminant::Small) {
            Ok(x) => Ok(x as u8),
            Err(e) => Err(e),
        }
    }

    /// This integer as a `u16`, if it came from one.
    pub fn try_into_u16(self) -> (r: Result<u16, IntegerSerError>)
        ensures
            r == if self.sign() == SignedState::Unsigned && self.disc()
                == IntegerDiscriminant::Smedium {
                Ok::<u16, IntegerSerError>(self.value() as u16)
            } else {
                Err::<u16, IntegerSerError>(IntegerSerError::WrongType)
            },
            r matches Ok(x) ==> x == self.value(),
    {
        proof {
            lemma_pow256_16();
        }
        match self.unsigned_value(IntegerDiscriminant::Smedium) {
            Ok(x) => Ok(x as u16),
            Err(e) => Err(e),
        }
    }

    /// This integer as a `u32`, if it came from one.
    pub fn try_into_u32(self) -> (r: Result<u32, IntegerSerError>)
        ensures
            r == if self.sign() == SignedState::Unsigned && self.disc()
                == IntegerDiscriminant::Medium {
                Ok::<u32, IntegerSerError>(self.value() as u32)
            } else {
                Err::<u32, IntegerSerError>(IntegerSerError::WrongType)
            },
            r matches Ok(x) ==> x == self.value(),
    {
        proof {
            lemma_pow256_16();
        }
        match self.unsigned_value(IntegerDiscriminant::Medium) {
            Ok(x) => Ok(x as u32),
            Err(e) => Err(e),
        }
    }

    /// This integer as a `u64`, if it came from a `u64` or a `usize`.
    pub fn try_into_u64(self) -> (r: Result<u64, IntegerSerError>)
        ensures
            r == if self.sign() == SignedState::Unsigned && self.disc()
                == IntegerDiscriminant::Large {
                Ok::<u64, IntegerSerError>(self.value() as u64)
            } else {
                Err::<u64, IntegerSerError>(IntegerSerError::WrongType)
            },
            r matches Ok(x) ==> x == self.value(),
    {
        proof {
            lemma_pow256_16();
        }
        self.unsigned_value(IntegerDiscriminant::Large)
    }

    /// This integer as a `usize`, if it came from a `u64` or a `usize` and fits.
    ///
    /// On a target where `usize` is narrower than 64 bits, the value is cut to its low bits, as
    /// a cast does.
    pub fn try_into_usize(self) -> (r: Result<usize, IntegerSerError>)
        ensures
            r == if self.sign() == SignedState::Unsigned && self.disc()
                == IntegerDiscriminant::Large {
                Ok::<usize, IntegerSerError>(self.value() as usize)
            } else {
                Err::<usize, IntegerSerError>(IntegerSerError::WrongType)
            },
    {
        proof {
            lemma_pow256_16();
        }
        match self.unsigned_value(IntegerDiscriminant::Large) {
            Ok(x) => Ok(x as usize),
            Err(e) => Err(e),
        }
    }

    /// This integer as an `i8`, if it came from one. A negative integer whose magnitude bytes
    /// read as `i8::MIN` cannot be negated, so it is left out.
    pub fn try_into_i8(self) -> (r: Result<i8, IntegerSerError>)
        requires
            self.sign() == SignedState::SignedNegative && self.disc() == IntegerDiscriminant::Small
                ==> self.value() <= i8::MAX,
        ensures
            r == if self.sign() != SignedState::Unsigned && self.disc()
                == IntegerDiscriminant::Small {
                Ok::<i8, IntegerSerError>(self.value() as i8)
            } else {
                Err::<i8, IntegerSerError>(IntegerSerError::WrongType)
            },
            r matches Ok(x) ==> x == self.value(),
    {
        proof {
            self.lemma_value_range();
            lemma_pow256_16();
        }
        match self.signed_value(IntegerDiscriminant::Small) {
            Ok(x) => Ok(x as i8),
            Err(e) => Err(e),
        }
    }

    /// This integer as an `i16`, if it came from one. A negative integer whose magnitude bytes
    /// read as `i16::MIN` cannot be negated, so it is left out.
    pub fn try_into_i16(self) -> (r: Result<i16, IntegerSerError>)
        requires
            self.sign() == SignedState::SignedNegative && self.disc()
                == IntegerDiscriminant::Smedium ==> self.value() <= i16::MAX,
        ensures
            r == if self.sign() != SignedState::Unsigned && self.disc()
                == IntegerDiscriminant::Smedium {
                Ok::<i16, IntegerSerError>(self.value() as i16)
            } else {
                Err::<i16, IntegerSerError>(IntegerSerError::WrongType)
            },
            r matches Ok(x) ==> x == self.value(),
    {
        proof {
            self.lemma_value_range();
            lemma_pow256_16();
        }
        match self.signed_value(IntegerDiscriminant::Smedium) {
            Ok(x) => Ok(x as i16),
            Err(e) => Err(e),
        }
    }

    /// This integer as an `i32`, if it came from one. A negative integer whose magnitude bytes
    /// read as `i32::MIN` cannot be negated, so it is left out.
    pub fn try_into_i32(self) -> (r: Result<i32, IntegerSerError>)
        requires
            self.sign() == SignedState::SignedNegative && self.disc()
                == IntegerDiscriminant::Medium ==> self.value() <= i32::MAX,
        ensures
            r == if self.sign() != SignedState::Unsigned && self.disc()
                == IntegerDiscriminant::Medium {
                Ok::<i32, IntegerSerError>(self.value() as i32)
            } else {
                Err::<i32, IntegerSerError>(IntegerSerError::WrongType)
            },
            r matches Ok(x) ==> x == self.value(),
    {
        proof {
            self.lemma_value_range();
            lemma_pow256_16();
        }
        match self.signed_value(IntegerDiscriminant::Medium) {
            Ok(x) => Ok(x as i32),
            Err(e) => Err(e),
        }
    }

    /// This integer as an `i64`, if it came from an `i64` or an `isize`. A negative integer
    /// whose magnitude bytes read as `i64::MIN` cannot be negated, so it is left out.
    pub fn try_into_i64(self) -> (r: Result<i64, IntegerSerError>)
        requires
            self.sign() == SignedState::SignedNegative && self.disc() == IntegerDiscriminant::Large
                ==> self.value() <= i64::MAX,
        ensures
            r == if self.sign() != SignedState::Unsigned && self.disc()
                == IntegerDiscriminant::Large {
                Ok::<i64, IntegerSerError>(self.value() as i64)
            } else {
                Err::<i64, IntegerSerError>(IntegerSerError::WrongType)
            },
            r matches Ok(x) ==> x == self.value(),
    {
        proof {
            self.lemma_value_range();
            lemma_pow256_16();
        }
        match self.signed_value(IntegerDiscriminant::Large) {
            Ok(x) => Ok(x as i64),
            Err(e) => Err(e),
        }
    }

    /// This integer as an `isize`, if it came from an `i64` or an `isize`. A negative integer
    /// whose magnitude bytes read as `i64::MIN` cannot be negated, so it is left out; on a
    /// target where `isize` is narrower than 64 bits, the value is cut to its low bits.
    pub fn try_into_isize(self) -> (r: Result<isize, IntegerSerError>)
        requires
            self.sign() == SignedState::SignedNegative && self.disc() == IntegerDiscriminant::Large
                ==> self.value() <= i64::MAX,
        ensures
            r == if self.sign() != SignedState::Unsigned && self.disc()
                == IntegerDiscriminant::Large {
                Ok::<isize, IntegerSerError>(self.value() as isize)
            } else {
                Err::<isize, IntegerSerError>(IntegerSerError::WrongType)
            },
    {
        proof {
            self.lemma_value_range();
            lemma_pow256_16();
        }
        match self.signed_value(IntegerDiscriminant::Large) {
            Ok(x) => Ok((x as i64) as isize),
            Err(e) => Err(e),
        }
    }


    /// Serialises the integer: see [`serialised`]. The header byte holds the signed state in
    /// its top two bits, then the declared width and the stored width in three bits each; the
    /// stored bytes follow, least significant first.
    pub fn ser(self) -> (r: Vec<u8>)
        ensures
            r@ == serialised(self.sign(), self.disc(), self.bytes()),
    {
        let declared = self.as_disc();
        let bytes = self.content_vec();
        let stored = match self.content {
            IntegerContent::Small(_) => IntegerDiscriminant::Small,
            IntegerContent::Smedium(b) => {
                assert(b@ == bytes@);
                IntegerDiscriminant::iterator_to_size_can_fit_in(b.as_slice(), 1)
            },
            IntegerContent::Medium(b) => {
                assert(b@ == bytes@);
                IntegerDiscriminant::iterator_to_size_can_fit_in(b.as_slice(), 3)
            },
            IntegerContent::Large(b) => {
                assert(b@ == bytes@);
                IntegerDiscriminant::iterator_to_size_can_fit_in(b.as_slice(), 7)
            },
        };
        proof {
            lemma_stored_fits(declared, bytes@);
        }
        let k = stored.bytes();
        let ss = self.signed_state.code();
        let o = declared.code();
        let st = stored.code();
        let discriminant: u8 = (ss << 6) | (o << 3) | st;
        assert(discriminant == ss * 64 + o * 8 + st) by (bit_vector)
            requires
                discriminant == (ss << 6) | (o << 3) | st,
                ss <= 3,
                o <= 7,
                st <= 7,
        ;
        let mut res: Vec<u8> = Vec::new();
        res.push(discriminant);
        let mut j: usize = 0;
        while j < k
            invariant
                j <= k,
                k <= bytes@.len(),
                res@ == seq![discriminant] + bytes@.take(j as int),
            decreases k - j,
        {
            res.push(bytes[j]);
            j = j + 1;
            assert(res@ =~= seq![discriminant] + bytes@.take(j as int));
        }
        res
    }

    /// Deserialises an integer from the cursor: see [`decoded`] for what comes back and
    /// [`consumed`] for how far the cursor moves.
    ///
    /// A complete record whose stored width is wider than its declared width (see
    /// [`undecodable`]) cannot be read back, so it is left out.
    ///
    /// # Errors
    /// - [`IntegerSerError::NotEnoughBytes`] if the cursor runs out;
    /// - [`IntegerSerError::InvalidDiscriminant`] if the header names no signed state or width.
    pub fn deser(reader: &mut Cursor) -> (r: Result<Self, IntegerSerError>)
        requires
            old(reader).wf(),
            !undecodable(old(reader).rest()),
        ensures
            final(reader).wf(),
            final(reader).items() == old(reader).items(),
            final(reader).head() == old(reader).head() + consumed(old(reader).rest()),
            match decoded(old(reader).rest()) {
                Ok((ss, d, b, _)) => r matches Ok(i) && i.sign() == ss && i.disc() == d
                    && i.bytes() == b,
                Err(e) => r == Err::<Self, IntegerSerError>(e),
            },
    {
        let ghost s = old(reader).rest();
        let ghost items = old(reader).items();
        let ghost h0 = old(reader).head();
        let h: u8 = match reader.read(1) {
            Some(b) => b[0],
            None => return Err(IntegerSerError::NotEnoughBytes),
        };
        assert(h == s[0]);
        let hs: u8 = (h & 0b1100_0000) >> 6;
        let ho: u8 = (h & 0b0011_1000) >> 3;
        let hd: u8 = h & 0b0000_0111;
        assert(hs == h / 64 && ho == (h / 8) % 8 && hd == h % 8) by (bit_vector)
            requires
                hs == (h & 0b1100_0000) >> 6,
                ho == (h & 0b0011_1000) >> 3,
                hd == h & 0b0000_0111,
        ;
        let signed_state = match SignedState::from_code(hs) {
            Ok(x) => x,
            Err(e) => return Err(e),
        };
        let declared = match IntegerDiscriminant::from_code(ho) {
            Ok(x) => x,
            Err(e) => return Err(e),
        };
        let stored = match IntegerDiscriminant::from_code(hd) {
            Ok(x) => x,
            Err(e) => return Err(e),
        };
        let k = stored.bytes();
        let mut read_bytes: Vec<u8> = Vec::new();
        while read_bytes.len() < k
            invariant
                reader.wf(),
                reader.items() == items,
                items == old(reader).items(),
                h0 == old(reader).head(),
                s == old(reader).rest(),
                s == items.subrange(h0, items.len() as int),
                0 <= h0 <= items.len(),
                s.len() > 0,
                header_fields(s[0]) == Some((signed_state, declared, stored)),
                k == disc_bytes(stored),
                read_bytes@.len() <= k,
                reader.head() == h0 + 1 + read_bytes@.len(),
                read_bytes@ == s.subrange(1, 1 + read_bytes@.len() as int),
            decreases k - read_bytes@.len(),
        {
            match reader.read(1) {
                Some(b) => {
                    read_bytes.push(b[0]);
                    assert(read_bytes@ =~= s.subrange(1, 1 + read_bytes@.len() as int));
                },
                None => {
                    return Err(IntegerSerError::NotEnoughBytes);
                },
            }
        }
        let v = padded_vec(&read_bytes, declared.bytes());
        Ok(Self::from_vec(signed_state, declared, &v))
    }
}

/// The facts about [`zero_run_start`] that the format rests on.
pub proof fn lemma_zero_run(s: Seq<u8>)
    ensures
        zero_run_start(s) <= s.len(),
        forall|j: int| zero_run_start(s) <= j < s.len() ==> s[j] == 0,
        (zero_run_start(s) == s.len()) == (s.len() == 0 || s.last() != 0),
    decreases s.len(),
{
    if s.len() > 0 && s.last() == 0 {
        lemma_zero_run(s.drop_last());
        assert forall|j: int| zero_run_start(s) <= j < s.len() implies s[j] == 0 by {
            if j < s.len() - 1 {
                assert(s.drop_last()[j] == s[j]);
            }
        }
    }
}

/// The stored width is never wider than the declared width, and every byte past it is zero.
pub proof fn lemma_stored_fits(declared: IntegerDiscriminant, bytes: Seq<u8>)
    requires
        bytes.len() == disc_bytes(declared),
    ensures
        disc_bytes(stored_disc(declared, bytes)) <= disc_bytes(declared),
        forall|j: int|
            disc_bytes(stored_disc(declared, bytes)) <= j < bytes.len() ==> bytes[j] == 0,
{
    lemma_zero_run(bytes);
}

/// Reading back what [`Integer::ser`] wrote gives the same signed state, width and bytes, and
/// moves past exactly those bytes, whatever follows them.
pub proof fn lemma_ser_deser_roundtrip(i: Integer, rest: Seq<u8>)
    ensures
        !undecodable(serialised(i.sign(), i.disc(), i.bytes()) + rest),
        consumed(serialised(i.sign(), i.disc(), i.bytes()) + rest) == serialised(
            i.sign(),
            i.disc(),
            i.bytes(),
        ).len(),
        decoded(serialised(i.sign(), i.disc(), i.bytes()) + rest) == Ok::<
            (SignedState, IntegerDiscriminant, Seq<u8>, nat),
            IntegerSerError,
        >((i.sign(), i.disc(), i.bytes(), serialised(i.sign(), i.disc(), i.bytes()).len())),
{
    let ss = i.sign();
    let d = i.disc();
    let b = i.bytes();
    let stored = stored_disc(d, b);
    let k = disc_bytes(stored);
    let ser = serialised(ss, d, b);
    let s = ser + rest;
    lemma_stored_fits(d, b);
    let h = header_byte(ss, d, stored);
    let a = signed_code(ss);
    let o = disc_code(d);
    let c = disc_code(stored);
    assert(h / 64 == a && (h / 8) % 8 == o && h % 8 == c) by (nonlinear_arith)
        requires
            h == a * 64 + o * 8 + c,
            1 <= a <= 3,
            1 <= o <= 4,
            1 <= c <= 4,
    ;
    assert(s[0] == h);
    assert(header_fields(s[0]) == Some((ss, d, stored)));
    assert(s.subrange(1, 1 + k as int) =~= b.take(k as int));
    assert(padded(s.subrange(1, 1 + k as int), disc_bytes(d)) =~= b);
}

} // verus!
