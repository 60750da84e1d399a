//! [`Integer`]: an integer of up to 128 bits plus a sign, designed to be as small as possible
//! when serialised.
use vstd::prelude::*;
use crate::utilities::cursor::Cursor;
use crate::utilities::huffman::{chars_of, string_from_chars};

verus! {

/// Whether a number is positive or negative. As a byte, `1` is negative and `0` positive.
#[derive(Copy, Clone, PartialEq, Eq, Structural, Debug, Hash)]
pub enum SignedState {
    /// Zero or more.
    Positive,
    /// Less than zero (a deserialised integer may also be a negative zero).
    Negative,
}

impl SignedState {
    /// The byte that stands for this state.
    pub fn to_u8(self) -> (b: u8)
        ensures
            b == (if self == SignedState::Negative { 1u8 } else { 0u8 }),
    {
        match self {
            SignedState::Positive => 0,
            SignedState::Negative => 1,
        }
    }

    /// Reads a signed state back from its byte.
    pub fn try_from_u8(value: u8) -> (r: Result<SignedState, IntegerSerError>)
        ensures
            value == 0 ==> r == Ok::<SignedState, IntegerSerError>(SignedState::Positive),
            value == 1 ==> r == Ok::<SignedState, IntegerSerError>(SignedState::Negative),
            value > 1 ==> (r matches Err(IntegerSerError::InvalidSignedStateDiscriminant(b)) && b == value),
    {
        match value {
            0 => Ok(SignedState::Positive),
            1 => Ok(SignedState::Negative),
            _ => Err(IntegerSerError::InvalidSignedStateDiscriminant(value)),
        }
    }
}

/// The number of bytes of the largest integer an [`Integer`] can hold.
pub const INTEGER_MAX_SIZE: usize = 16;

/// The largest integer that is serialised as just itself, with no length byte in front.
pub const ONE_BYTE_MAX_SIZE: u8 = 239;

/// Why a floating-point number could not become an [`Integer`].
#[derive(Debug, Copy, Clone)]
pub enum FloatToIntegerConversionError {
    /// Integers hold no fractional part.
    DecimalsNotSupported,
    /// The number is beyond what an integer holds.
    TooLarge,
    /// Not-a-number and the infinities have no integer.
    NotFinite,
}

/// An error when serialising, deserialising or converting an [`Integer`].
#[derive(Debug)]
pub enum IntegerSerError {
    /// A signed state byte other than `0` or `1`.
    InvalidSignedStateDiscriminant(u8),
    /// The cursor ran out of bytes.
    NotEnoughBytes,
    /// The integer does not fit the type it was converted into.
    WrongType,
    /// A base-10 string could not be parsed.
    IntegerParseError,
}

/// `256` to the power `n`.
pub open spec fn pow256(n: nat) -> nat
    decreases n,
{
    if n == 0 {
        1
    } else {
        256 * pow256((n - 1) as nat)
    }
}

/// The number of bits needed to write `m` in binary (0 for 0).
pub open spec fn bit_len(m: nat) -> nat
    decreases m,
{
    if m == 0 {
        0
    } else {
        1 + bit_len(m / 2)
    }
}

/// The number of bytes needed to write `m` (0 for 0).
pub open spec fn byte_len(m: nat) -> nat
    decreases m,
{
    if m == 0 {
        0
    } else {
        1 + byte_len(m / 256)
    }
}

/// Byte `i` of `m` in little-endian order.
pub open spec fn byte_at(m: nat, i: nat) -> u8 {
    ((m / pow256(i)) % 256) as u8
}

/// The `n` lowest bytes of `m`, least significant first.
pub open spec fn le_bytes(m: nat, n: nat) -> Seq<u8> {
    Seq::new(n, |i: int| byte_at(m, i as nat))
}

/// The number that little-endian bytes `s` stand for.
pub open spec fn le_value(s: Seq<u8>) -> nat
    decreases s.len(),
{
    if s.len() == 0 {
        0
    } else {
        s[0] as nat + 256 * le_value(s.drop_first())
    }
}

/// The signed state and bytes that [`Integer::ser`] gives for a sign and magnitude.
pub open spec fn encoding(sign: SignedState, m: nat) -> (SignedState, Seq<u8>) {
    if sign == SignedState::Positive && m <= ONE_BYTE_MAX_SIZE {
        (SignedState::Positive, seq![m as u8])
    } else if sign == SignedState::Negative && m < 128 {
        if m == 0 {
            (SignedState::Positive, seq![0u8])
        } else {
            (SignedState::Negative, seq![m as u8])
        }
    } else {
        (sign, seq![(ONE_BYTE_MAX_SIZE + byte_len(m)) as u8] + le_bytes(m, byte_len(m)))
    }
}

/// What [`Integer::deser`] reads at the front of `s`: the magnitude and the number of bytes
/// it takes up, or `None` if `s` is too short.
pub open spec fn decoding(s: Seq<u8>) -> Option<(nat, nat)> {
    if s.len() == 0 {
        None
    } else if s[0] <= ONE_BYTE_MAX_SIZE {
        Some((s[0] as nat, 1))
    } else {
        let k = (s[0] - ONE_BYTE_MAX_SIZE) as nat;
        if 1 + k <= s.len() {
            Some((le_value(s.subrange(1, 1 + k as int)), 1 + k))
        } else {
            None
        }
    }
}

/// The value of a string of decimal digits, most significant first.
pub open spec fn digits_value(d: Seq<char>) -> nat
    decreases d.len(),
{
    if d.len() == 0 {
        0
    } else {
        digits_value(d.drop_last()) * 10 + ((d.last() as u32) - ('0' as u32)) as nat
    }
}

/// Whether `d` is one or more decimal digits.
pub open spec fn is_digits(d: Seq<char>) -> bool {
    d.len() > 0 && forall|i: int| 0 <= i < d.len() ==> '0' <= #[trigger] d[i] <= '9'
}

/// What parsing a `u128` from `d` gives: an optional `+` followed by one or more decimal
/// digits whose value fits in 128 bits; `None` for anything else.
pub open spec fn u128_parsed(d: Seq<char>) -> Option<nat> {
    let body = if d.len() > 0 && d[0] == '+' {
        d.drop_first()
    } else {
        d
    };
    if is_digits(body) && digits_value(body) <= u128::MAX {
        Some(digits_value(body))
    } else {
        None
    }
}

/// What [`Integer::from_str`] reads from `s`: the sign and magnitude, or the error. An empty
/// string has too few bytes; `0` is zero; otherwise a leading `-` makes the number negative
/// (even a zero) and the rest must parse as a `u128`.
pub open spec fn integer_parsed(s: Seq<char>) -> Result<(SignedState, nat), IntegerSerError> {
    if s.len() == 0 {
        Err(IntegerSerError::NotEnoughBytes)
    } else if s == seq!['0'] {
        Ok((SignedState::Positive, 0))
    } else {
        let (body, ss) = if s[0] == '-' {
            (s.drop_first(), SignedState::Negative)
        } else {
            (s, SignedState::Positive)
        };
        match u128_parsed(body) {
            Some(n) => Ok((ss, n)),
            None => Err(IntegerSerError::IntegerParseError),
        }
    }
}

/// The decimal digit of a number below ten.
pub open spec fn digit_char(d: nat) -> char {
    ((d + ('0' as u32)) as u32) as char
}

/// The decimal digits of `n`, most significant first, without leading zeros (`0` for zero).
pub open spec fn decimal_digits(n: nat) -> Seq<char>
    decreases n,
{
    if n < 10 {
        seq![digit_char(n)]
    } else {
        decimal_digits(n / 10).push(digit_char(n % 10))
    }
}

/// What [`Integer::to_string`] writes: the decimal digits of the magnitude, after a `-` for a
/// negative number other than zero.
pub open spec fn integer_text(ss: SignedState, n: nat) -> Seq<char> {
    if ss == SignedState::Negative && n != 0 {
        seq!['-'] + decimal_digits(n)
    } else {
        decimal_digits(n)
    }
}

/// The digit character of a number below ten is that many places after `0`.
proof fn lemma_digit_char(k: nat)
    requires
        k < 10,
    ensures
        digit_char(k) as u32 == k + ('0' as u32),
        '0' <= digit_char(k) <= '9',
{
    assert(((k + 48) as u32) as char as u32 == k + 48);
}

/// The decimal digits of a number are digits that read back as the number.
pub proof fn lemma_decimal_digits(n: nat)
    ensures
        is_digits(decimal_digits(n)),
        digits_value(decimal_digits(n)) == n,
        decimal_digits(n)[0] != '+' && decimal_digits(n)[0] != '-',
        decimal_digits(n) == seq!['0'] <==> n == 0,
    decreases n,
{
    lemma_digit_char(n % 10);
    if n < 10 {
        lemma_digit_char(0);
        if n != 0 {
            assert(digit_char(n) != '0');
        }
        assert(seq![digit_char(n)].drop_last() =~= Seq::<char>::empty());
        assert(digits_value(Seq::<char>::empty()) == 0);
        assert(digits_value(seq![digit_char(n)]) == n);
    }
    if n >= 10 {
        lemma_decimal_digits(n / 10);
        let d = decimal_digits(n);
        assert(d.drop_last() =~= decimal_digits(n / 10));
        assert(d.last() == digit_char(n % 10));
        assert(digits_value(d) == digits_value(decimal_digits(n / 10)) * 10 + n % 10);
        assert((n / 10) * 10 + n % 10 == n);
        assert forall|i: int| 0 <= i < d.len() implies '0' <= #[trigger] d[i] <= '9' by {
            if i < d.len() - 1 {
                assert(d[i] == decimal_digits(n / 10)[i]);
            }
        }
        assert(d.len() >= 2);
    }
}

/// Parsing what [`Integer::to_string`] writes gives back the sign and magnitude, but for a
/// negative zero, which is written as `0` and so read back as a positive zero.
pub proof fn lemma_text_roundtrip(ss: SignedState, n: nat)
    requires
        n <= u128::MAX,
        !(ss == SignedState::Negative && n == 0),
    ensures
        integer_parsed(integer_text(ss, n)) == Ok::<(SignedState, nat), IntegerSerError>((ss, n)),
{
    lemma_decimal_digits(n);
    let t = integer_text(ss, n);
    if ss == SignedState::Negative {
        assert(t.drop_first() =~= decimal_digits(n));
        assert(t != seq!['0']) by {
            assert(t[0] == '-');
        }
    }
}

/// The character of a decimal digit.
fn char_of_digit(d: u32) -> (c: char)
    requires
        d < 10,
    ensures
        c == digit_char(d as nat),
        '0' <= c <= '9',
{
    let c = match d {
        0 => '0',
        1 => '1',
        2 => '2',
        3 => '3',
        4 => '4',
        5 => '5',
        6 => '6',
        7 => '7',
        8 => '8',
        _ => '9',
    };
    c
}

/// Whether arithmetic on `a` and `b` is done on their magnitudes as unsigned 128-bit numbers:
/// both are positive. Otherwise it is done on their values as signed 128-bit numbers.
pub open spec fn both_positive(a: Integer, b: Integer) -> bool {
    a.sign() == SignedState::Positive && b.sign() == SignedState::Positive
}

/// Whether a number fits in an `i128`.
pub open spec fn fits_i128(v: int) -> bool {
    i128::MIN <= v <= i128::MAX
}

/// Whether the arithmetic of `a` and `b` giving `v` stays within the numbers it is done in.
pub open spec fn arithmetic_fits(a: Integer, b: Integer, v: int) -> bool {
    if both_positive(a, b) {
        0 <= v <= u128::MAX
    } else {
        fits_i128(a.value()) && fits_i128(b.value()) && fits_i128(v)
    }
}

/// Division rounding toward zero, as Rust's integer division does.
pub open spec fn div_toward_zero(a: int, b: int) -> int {
    let q = (if a < 0 { -a } else { a }) / (if b < 0 { -b } else { b });
    if (a < 0) == (b < 0) {
        q
    } else {
        -q
    }
}

/// A string of digits is worth at least any of its prefixes.
proof fn lemma_digits_prefix(d: Seq<char>, k: int)
    requires
        forall|i: int| 0 <= i < d.len() ==> '0' <= #[trigger] d[i] <= '9',
        0 <= k <= d.len(),
    ensures
        digits_value(d) >= digits_value(d.take(k)),
    decreases d.len(),
{
    if k < d.len() {
        assert forall|i: int| 0 <= i < d.drop_last().len() implies '0' <= #[trigger] d.drop_last()[i]
            <= '9' by {
            assert(d.drop_last()[i] == d[i]);
        }
        lemma_digits_prefix(d.drop_last(), k);
        assert(d.drop_last().take(k) =~= d.take(k));
    } else {
        assert(d.take(k) =~= d);
    }
}

/// An integer designed to be as small as possible when serialised: a sign and a magnitude of
/// up to 128 bits.
#[derive(Copy, Clone, PartialEq, Eq, Structural, Debug, Hash)]
pub struct Integer {
    signed_state: SignedState,
    content: u128,
}

impl Integer {
    /// The sign.
    pub closed spec fn sign(self) -> SignedState {
        self.signed_state
    }

    /// The absolute value.
    pub closed spec fn magnitude(self) -> nat {
        self.content as nat
    }

    /// Two integers are the same exactly when their signed states and magnitudes are.
    pub proof fn lemma_view_eq(a: Integer, b: Integer)
        ensures
            (a.sign() == b.sign() && a.magnitude() == b.magnitude()) == (a == b),
    {
    }

    /// The number that this stands for.
    pub open spec fn value(self) -> int {
        if self.sign() == SignedState::Negative {
            -(self.magnitude() as int)
        } else {
            self.magnitude() as int
        }
    }

    /// A magnitude always fits in 128 bits.
    pub proof fn lemma_magnitude_bound(self)
        ensures
            self.magnitude() <= u128::MAX,
    {
    }

    /// Parses a base-10 string: see [`integer_parsed`].
    ///
    /// # Errors
    /// - [`IntegerSerError::NotEnoughBytes`] for an empty string;
    /// - [`IntegerSerError::IntegerParseError`] if what follows the sign is not an optional
    ///   `+` and decimal digits whose value fits in 128 bits.
    pub fn from_str(s: &str) -> (r: Result<Self, IntegerSerError>)
        ensures
            match integer_parsed(s@) {
                Ok((ss, n)) => r matches Ok(i) && i.sign() == ss && i.magnitude() == n,
                Err(e) => r matches Err(e2) && e2 == e,
            },
    {
        let cs = chars_of(s);
        if cs.len() == 0 {
            return Err(IntegerSerError::NotEnoughBytes);
        }
        if cs.len() == 1 && cs[0] == '0' {
            assert(cs@ =~= seq!['0']);
            return Ok(Integer { signed_state: SignedState::Positive, content: 0 });
        }
        assert(cs@ != seq!['0']);
        let negative = cs[0] == '-';
        let start: usize = if negative { 1 } else { 0 };
        let signed_state = if negative {
            SignedState::Negative
        } else {
            SignedState::Positive
        };
        let ghost d = cs@.skip(start as int);
        assert(d =~= if negative { cs@.drop_first() } else { cs@ });
        let mut i: usize = start;
        if i < cs.len() && cs[i] == '+' {
            i = i + 1;
        }
        let digits_start = i;
        let ghost body = cs@.skip(digits_start as int);
        assert(body =~= if d.len() > 0 && d[0] == '+' { d.drop_first() } else { d });
        assert(cs@ == s@);
        assert(integer_parsed(s@) == if is_digits(body) && digits_value(body) <= u128::MAX {
            Ok::<(SignedState, nat), IntegerSerError>((signed_state, digits_value(body)))
        } else {
            Err::<(SignedState, nat), IntegerSerError>(IntegerSerError::IntegerParseError)
        });
        if i >= cs.len() {
            return Err(IntegerSerError::IntegerParseError);
        }
        let mut acc: u128 = 0;
        while i < cs.len()
            invariant
                digits_start <= i <= cs@.len(),
                digits_start < cs@.len(),
                body == cs@.skip(digits_start as int),
                forall|j: int| digits_start <= j < i ==> '0' <= #[trigger] cs@[j] <= '9',
                acc == digits_value(body.take(i - digits_start)),
                integer_parsed(s@) == if is_digits(body) && digits_value(body) <= u128::MAX {
                    Ok::<(SignedState, nat), IntegerSerError>((signed_state, digits_value(body)))
                } else {
                    Err::<(SignedState, nat), IntegerSerError>(IntegerSerError::IntegerParseError)
                },
            decreases cs.len() - i,
        {
            let c = cs[i];
            if c < '0' || c > '9' {
                assert(!('0' <= body[i - digits_start] <= '9'));
                return Err(IntegerSerError::IntegerParseError);
            }
            let digit: u128 = ((c as u32) - ('0' as u32)) as u128;
            let ghost prefix = body.take(i - digits_start + 1);
            assert(prefix.drop_last() =~= body.take(i - digits_start));
            assert(digits_value(prefix) == acc * 10 + digit);
            if acc > (u128::MAX - digit) / 10 {
                assert(acc * 10 + digit > u128::MAX) by (nonlinear_arith)
                    requires
                        acc > (u128::MAX - digit) / 10,
                        digit <= 9,
                ;
                proof {
                    if is_digits(body) {
                        lemma_digits_prefix(body, i - digits_start + 1);
                    }
                }
                return Err(IntegerSerError::IntegerParseError);
            }
            assert(acc * 10 + digit <= u128::MAX) by (nonlinear_arith)
                requires
                    acc <= (u128::MAX - digit) / 10,
                    digit <= 9,
            ;
            acc = acc * 10 + digit;
            i = i + 1;
        }
        assert(body.take(cs@.len() - digits_start) =~= body);
        assert(is_digits(body)) by {
            assert forall|j: int| 0 <= j < body.len() implies '0' <= #[trigger] body[j] <= '9' by {
                assert(body[j] == cs@[j + digits_start]);
            }
        }
        Ok(Integer { signed_state, content: acc })
    }

    /// The number in base 10: see [`integer_text`].
    pub fn to_string(&self) -> (s: String)
        ensures
            s@ == integer_text(self.sign(), self.magnitude()),
    {
        let mut rev: Vec<char> = Vec::new();
        let mut n: u128 = self.content;
        let ghost total = self.content as nat;
        loop
            invariant_except_break
                decimal_digits(total) == decimal_digits(n as nat) + rev@.reverse(),
            invariant
                n <= total,
                total == self.content,
            ensures
                decimal_digits(total) == rev@.reverse(),
            decreases n,
        {
            let d: u128 = n % 10;
            let c = char_of_digit(d as u32);
            proof {
                lemma_digit_char(d as nat);
            }
            let ghost before = rev@;
            rev.push(c);
            proof {
                assert(rev@.reverse() =~= seq![c] + before.reverse());
                if n >= 10 {
                    assert(decimal_digits(n as nat) == decimal_digits((n / 10) as nat).push(c));
                    assert(decimal_digits(total) =~= decimal_digits((n / 10) as nat) + rev@.reverse());
                } else {
                    assert(decimal_digits(n as nat) == seq![c]);
                }
            }
            if n < 10 {
                assert(decimal_digits(total) =~= rev@.reverse());
                break;
            }
            n = n / 10;
        }
        let mut out: Vec<char> = Vec::new();
        if self.signed_state == SignedState::Negative && self.content != 0 {
            out.push('-');
        }
        let ghost start = out@;
        let mut i: usize = rev.len();
        while i > 0
            invariant
                i <= rev@.len(),
                out@ == start + rev@.subrange(i as int, rev@.len() as int).reverse(),
            decreases i,
        {
            i = i - 1;
            let ghost before = out@;
            out.push(rev[i]);
            assert(rev@.subrange(i as int, rev@.len() as int).reverse() =~= rev@.subrange(
                i as int + 1,
                rev@.len() as int,
            ).reverse().push(rev@[i as int]));
        }
        assert(rev@.subrange(0, rev@.len() as int) =~= rev@);
        string_from_chars(out.as_slice())
    }

    /// The sum: on magnitudes when both are positive, on values otherwise. Zero is positive.
    pub fn add(self, rhs: Self) -> (r: Self)
        requires
            arithmetic_fits(self, rhs, self.value() + rhs.value()),
        ensures
            r.value() == self.value() + rhs.value(),
            r.sign() == (if r.value() < 0 { SignedState::Negative } else { SignedState::Positive }),
    {
        if self.signed_state == SignedState::Positive && rhs.signed_state == SignedState::Positive {
            Integer::u128(self.content + rhs.content)
        } else {
            let (a, b) = self.signed_parts(rhs);
            Integer::i128(a + b)
        }
    }

    /// The difference: on magnitudes when both are positive, on values otherwise. Zero is
    /// positive.
    pub fn sub(self, rhs: Self) -> (r: Self)
        requires
            arithmetic_fits(self, rhs, self.value() - rhs.value()),
        ensures
            r.value() == self.value() - rhs.value(),
            r.sign() == (if r.value() < 0 { SignedState::Negative } else { SignedState::Positive }),
    {
        if self.signed_state == SignedState::Positive && rhs.signed_state == SignedState::Positive {
            Integer::u128(self.content - rhs.content)
        } else {
            let (a, b) = self.signed_parts(rhs);
            Integer::i128(a - b)
        }
    }

    /// The product: on magnitudes when both are positive, on values otherwise. Zero is
    /// positive.
    pub fn mul(self, rhs: Self) -> (r: Self)
        requires
            arithmetic_fits(self, rhs, self.value() * rhs.value()),
        ensures
            r.value() == self.value() * rhs.value(),
            r.sign() == (if r.value() < 0 { SignedState::Negative } else { SignedState::Positive }),
    {
        if self.signed_state == SignedState::Positive && rhs.signed_state == SignedState::Positive {
            Integer::u128(self.content * rhs.content)
        } else {
            let (a, b) = self.signed_parts(rhs);
            Integer::i128(a * b)
        }
    }

    /// The quotient, rounded toward zero: on magnitudes when both are positive, on values
    /// otherwise. Zero is positive.
    pub fn div(self, rhs: Self) -> (r: Self)
        requires
            rhs.value() != 0,
            arithmetic_fits(self, rhs, div_toward_zero(self.value(), rhs.value())),
        ensures
            r.value() == div_toward_zero(self.value(), rhs.value()),
            r.sign() == (if r.value() < 0 { SignedState::Negative } else { SignedState::Positive }),
    {
        if self.signed_state == SignedState::Positive && rhs.signed_state == SignedState::Positive {
            Integer::u128(self.content / rhs.content)
        } else {
            let (a, b) = self.signed_parts(rhs);
            let neg_a = a < 0;
            let neg_b = b < 0;
            proof {
                assert(-(i128::MIN as int) > i128::MAX);
            }
            let ma: u128 = if neg_a { ((-(a + 1)) as u128) + 1 } else { a as u128 };
            let mb: u128 = if neg_b { ((-(b + 1)) as u128) + 1 } else { b as u128 };
            let q: u128 = ma / mb;
            if neg_a == neg_b {
                Integer::i128(q as i128)
            } else {
                assert(q <= -(i128::MIN as int));
                if q == 0 {
                    Integer::i128(0)
                } else {
                    Integer::i128(-(((q - 1) as i128)) - 1)
                }
            }
        }
    }

    /// Both values as `i128`s, for arithmetic that is not on two positive numbers.
    fn signed_parts(self, rhs: Self) -> (r: (i128, i128))
        requires
            fits_i128(self.value()),
            fits_i128(rhs.value()),
        ensures
            r.0 == self.value(),
            r.1 == rhs.value(),
    {
        let a = match self.try_into_i128() {
            Ok(v) => v,
            Err(_) => 0,
        };
        let b = match rhs.try_into_i128() {
            Ok(v) => v,
            Err(_) => 0,
        };
        (a, b)
    }

    /// Builds an integer from a sign and a magnitude.
    pub fn from_parts(signed_state: SignedState, content: u128) -> (i: Self)
        ensures
            i.sign() == signed_state,
            i.magnitude() == content,
    {
        Integer { signed_state, content }
    }

    /// The magnitude, as a `u128`.
    pub fn content(&self) -> (c: u128)
        ensures
            c == self.magnitude(),
    {
        self.content
    }

    /// Whether the number is negative.
    pub fn is_negative(&self) -> (b: bool)
        ensures
            b == (self.sign() == SignedState::Negative),
    {
        self.signed_state == SignedState::Negative
    }

    /// Whether the number is positive.
    pub fn is_positive(&self) -> (b: bool)
        ensures
            b == (self.sign() == SignedState::Positive),
    {
        self.signed_state == SignedState::Positive
    }

    /// Creates a non-negative `Integer` holding `n`.
    pub fn u8(n: u8) -> (i: Self)
        ensures
            i.sign() == SignedState::Positive,
            i.magnitude() == n,
    {
        Integer { signed_state: SignedState::Positive, content: n as u128 }
    }

    /// Creates a non-negative `Integer` holding `n`.
    pub fn u16(n: u16) -> (i: Self)
        ensures
            i.sign() == SignedState::Positive,
            i.magnitude() == n,
    {
        Integer { signed_state: SignedState::Positive, content: n as u128 }
    }

    /// Creates a non-negative `Integer` holding `n`.
    pub fn u32(n: u32) -> (i: Self)
        ensures
            i.sign() == SignedState::Positive,
            i.magnitude() == n,
    {
        Integer { signed_state: SignedState::Positive, content: n as u128 }
    }

    /// Creates a non-negative `Integer` holding `n`.
    pub fn u64(n: u64) -> (i: Self)
        ensures
            i.sign() == SignedState::Positive,
            i.magnitude() == n,
    {
        Integer { signed_state: SignedState::Positive, content: n as u128 }
    }

    /// Creates a non-negative `Integer` holding `n`.
    pub fn u128(n: u128) -> (i: Self)
        ensures
            i.sign() == SignedState::Positive,
            i.magnitude() == n,
    {
        Integer { signed_state: SignedState::Positive, content: n as u128 }
    }

    /// Creates a non-negative `Integer` holding `n`.
    pub fn usize(n: usize) -> (i: Self)
        ensures
            i.sign() == SignedState::Positive,
            i.magnitude() == n,
    {
        Integer { signed_state: SignedState::Positive, content: n as u128 }
    }

    /// Creates an `Integer` holding `n`; zero is positive.
    pub fn i8(n: i8) -> (i: Self)
        ensures
            i.value() == n,
            i.sign() == (if n < 0 { SignedState::Negative } else { SignedState::Positive }),
    {
        if n < 0 {
            let m: u128 = ((-(n + 1)) as u128) + 1;
            Integer { signed_state: SignedState::Negative, content: m }
        } else {
            Integer { signed_state: SignedState::Positive, content: n as u128 }
        }
    }

    /// Creates an `Integer` holding `n`; zero is positive.
    pub fn i16(n: i16) -> (i: Self)
        ensures
            i.value() == n,
            i.sign() == (if n < 0 { SignedState::Negative } else { SignedState::Positive }),
    {
        if n < 0 {
            let m: u128 = ((-(n + 1)) as u128) + 1;
            Integer { signed_state: SignedState::Negative, content: m }
        } else {
            Integer { signed_state: SignedState::Positive, content: n as u128 }
        }
    }

    /// Creates an `Integer` holding `n`; zero is positive.
    pub fn i32(n: i32) -> (i: Self)
        ensures
            i.value() == n,
            i.sign() == (if n < 0 { SignedState::Negative } else { SignedState::Positive }),
    {
        if n < 0 {
            let m: u128 = ((-(n + 1)) as u128) + 1;
            Integer { signed_state: SignedState::Negative, content: m }
        } else {
            Integer { signed_state: SignedState::Positive, content: n as u128 }
        }
    }

    /// Creates an `Integer` holding `n`; zero is positive.
    pub fn i64(n: i64) -> (i: Self)
        ensures
            i.value() == n,
            i.sign() == (if n < 0 { SignedState::Negative } else { SignedState::Positive }),
    {
        if n < 0 {
            let m: u128 = ((-(n + 1)) as u128) + 1;
            Integer { signed_state: SignedState::Negative, content: m }
        } else {
            Integer { signed_state: SignedState::Positive, content: n as u128 }
        }
    }

    /// Creates an `Integer` holding `n`; zero is positive.
    pub fn i128(n: i128) -> (i: Self)
        ensures
            i.value() == n,
            i.sign() == (if n < 0 { SignedState::Negative } else { SignedState::Positive }),
    {
        if n < 0 {
            let m: u128 = ((-(n + 1)) as u128) + 1;
            Integer { signed_state: SignedState::Negative, content: m }
        } else {
            Integer { signed_state: SignedState::Positive, content: n as u128 }
        }
    }

    /// Creates an `Integer` holding `n`; zero is positive.
    pub fn isize(n: isize) -> (i: Self)
        ensures
            i.value() == n,
            i.sign() == (if n < 0 { SignedState::Negative } else { SignedState::Positive }),
    {
        if n < 0 {
            let m: u128 = ((-(n + 1)) as u128) + 1;
            Integer { signed_state: SignedState::Negative, content: m }
        } else {
            Integer { signed_state: SignedState::Positive, content: n as u128 }
        }
    }

    /// Converts back into a `u8`: [`IntegerSerError::WrongType`] unless the number is
    /// non-negative (and not a negative zero) and fits.
    pub fn try_into_u8(self) -> (r: Result<u8, IntegerSerError>)
        ensures
            r is Ok <==> (self.sign() == SignedState::Positive && self.magnitude() <= u8::MAX),
            r matches Ok(v) ==> v == self.magnitude(),
            r matches Err(e) ==> e is WrongType,
    {
        if self.signed_state == SignedState::Negative || self.content > u8::MAX as u128 {
            return Err(IntegerSerError::WrongType);
        }
        Ok(self.content as u8)
    }

    /// Converts back into a `u16`: [`IntegerSerError::WrongType`] unless the number is
    /// non-negative (and not a negative zero) and fits.
    pub fn try_into_u16(self) -> (r: Result<u16, IntegerSerError>)
        ensures
            r is Ok <==> (self.sign() == SignedState::Positive && self.magnitude() <= u16::MAX),
            r matches Ok(v) ==> v == self.magnitude(),
            r matches Err(e) ==> e is WrongType,
    {
        if self.signed_state == SignedState::Negative || self.content > u16::MAX as u128 {
            return Err(IntegerSerError::WrongType);
        }
        Ok(self.content as u16)
    }

    /// Converts back into a `u32`: [`IntegerSerError::WrongType`] unless the number is
    /// non-negative (and not a negative zero) and fits.
    pub fn try_into_u32(self) -> (r: Result<u32, IntegerSerError>)
        ensures
            r is Ok <==> (self.sign() == SignedState::Positive && self.magnitude() <= u32::MAX),
            r matches Ok(v) ==> v == self.magnitude(),
            r matches Err(e) ==> e is WrongType,
    {
        if self.signed_state == SignedState::Negative || self.content > u32::MAX as u128 {
            return Err(IntegerSerError::WrongType);
        }
        Ok(self.content as u32)
    }

    /// Converts back into a `u64`: [`IntegerSerError::WrongType`] unless the number is
    /// non-negative (and not a negative zero) and fits.
    pub fn try_into_u64(self) -> (r: Result<u64, IntegerSerError>)
        ensures
            r is Ok <==> (self.sign() == SignedState::Positive && self.magnitude() <= u64::MAX),
            r matches Ok(v) ==> v == self.magnitude(),
            r matches Err(e) ==> e is WrongType,
    {
        if self.signed_state == SignedState::Negative || self.content > u64::MAX as u128 {
            return Err(IntegerSerError::WrongType);
        }
        Ok(self.content as u64)
    }

    /// Converts back into a `u128`: [`IntegerSerError::WrongType`] unless the number is
    /// non-negative (and not a negative zero) and fits.
    pub fn try_into_u128(self) -> (r: Result<u128, IntegerSerError>)
        ensures
            r is Ok <==> (self.sign() == SignedState::Positive && self.magnitude() <= u128::MAX),
            r matches Ok(v) ==> v == self.magnitude(),
            r matches Err(e) ==> e is WrongType,
    {
        if self.signed_state == SignedState::Negative || self.content > u128::MAX as u128 {
            return Err(IntegerSerError::WrongType);
        }
        Ok(self.content as u128)
    }

    /// Converts back into a `usize`: [`IntegerSerError::WrongType`] unless the number is
    /// non-negative (and not a negative zero) and fits.
    pub fn try_into_usize(self) -> (r: Result<usize, IntegerSerError>)
        ensures
            r is Ok <==> (self.sign() == SignedState::Positive && self.magnitude() <= usize::MAX),
            r matches Ok(v) ==> v == self.magnitude(),
            r matches Err(e) ==> e is WrongType,
    {
        if self.signed_state == SignedState::Negative || self.content > usize::MAX as u128 {
            return Err(IntegerSerError::WrongType);
        }
        Ok(self.content as usize)
    }

    /// Converts back into an `i8`: [`IntegerSerError::WrongType`] unless the value fits.
    pub fn try_into_i8(self) -> (r: Result<i8, IntegerSerError>)
        ensures
            r is Ok <==> (i8::MIN <= self.value() <= i8::MAX),
            r matches Ok(v) ==> v == self.value(),
            r matches Err(e) ==> e is WrongType,
    {
        let max = i8::MAX as u128;
        if self.signed_state == SignedState::Positive {
            if self.content > max {
                return Err(IntegerSerError::WrongType);
            }
            Ok(self.content as i8)
        } else {
            if self.content > max + 1 {
                return Err(IntegerSerError::WrongType);
            }
            if self.content == 0 {
                Ok(0)
            } else {
                Ok(-((self.content - 1) as i8) - 1)
            }
        }
    }

    /// Converts back into an `i16`: [`IntegerSerError::WrongType`] unless the value fits.
    pub fn try_into_i16(self) -> (r: Result<i16, IntegerSerError>)
        ensures
            r is Ok <==> (i16::MIN <= self.value() <= i16::MAX),
            r matches Ok(v) ==> v == self.value(),
            r matches Err(e) ==> e is WrongType,
    {
        let max = i16::MAX as u128;
        if self.signed_state == SignedState::Positive {
            if self.content > max {
                return Err(IntegerSerError::WrongType);
            }
            Ok(self.content as i16)
        } else {
            if self.content > max + 1 {
                return Err(IntegerSerError::WrongType);
            }
            if self.content == 0 {
                Ok(0)
            } else {
                Ok(-((self.content - 1) as i16) - 1)
            }
        }
    }

    /// Converts back into an `i32`: [`IntegerSerError::WrongType`] unless the value fits.
    pub fn try_into_i32(self) -> (r: Result<i32, IntegerSerError>)
        ensures
            r is Ok <==> (i32::MIN <= self.value() <= i32::MAX),
            r matches Ok(v) ==> v == self.value(),
            r matches Err(e) ==> e is WrongType,
    {
        let max = i32::MAX as u128;
        if self.signed_state == SignedState::Positive {
            if self.content > max {
                return Err(IntegerSerError::WrongType);
            }
            Ok(self.content as i32)
        } else {
            if self.content > max + 1 {
                return Err(IntegerSerError::WrongType);
            }
            if self.content == 0 {
                Ok(0)
            } else {
                Ok(-((self.content - 1) as i32) - 1)
            }
        }
    }

    /// Converts back into an `i64`: [`IntegerSerError::WrongType`] unless the value fits.
    pub fn try_into_i64(self) -> (r: Result<i64, IntegerSerError>)
        ensures
            r is Ok <==> (i64::MIN <= self.value() <= i64::MAX),
            r matches Ok(v) ==> v == self.value(),
            r matches Err(e) ==> e is WrongType,
    {
        let max = i64::MAX as u128;
        if self.signed_state == SignedState::Positive {
            if self.content > max {
                return Err(IntegerSerError::WrongType);
            }
            Ok(self.content as i64)
        } else {
            if self.content > max + 1 {
                return Err(IntegerSerError::WrongType);
            }
            if self.content == 0 {
                Ok(0)
            } else {
                Ok(-((self.content - 1) as i64) - 1)
            }
        }
    }

    /// Converts back into an `i128`: [`IntegerSerError::WrongType`] unless the value fits.
    pub fn try_into_i128(self) -> (r: Result<i128, IntegerSerError>)
        ensures
            r is Ok <==> (i128::MIN <= self.value() <= i128::MAX),
            r matches Ok(v) ==> v == self.value(),
            r matches Err(e) ==> e is WrongType,
    {
        let max = i128::MAX as u128;
        if self.signed_state == SignedState::Positive {
            if self.content > max {
                return Err(IntegerSerError::WrongType);
            }
            Ok(self.content as i128)
        } else {
            if self.content > max + 1 {
                return Err(IntegerSerError::WrongType);
            }
            if self.content == 0 {
                Ok(0)
            } else {
                Ok(-((self.content - 1) as i128) - 1)
            }
        }
    }

    /// Converts back into an `isize`: [`IntegerSerError::WrongType`] unless the value fits.
    pub fn try_into_isize(self) -> (r: Result<isize, IntegerSerError>)
        ensures
            r is Ok <==> (isize::MIN <= self.value() <= isize::MAX),
            r matches Ok(v) ==> v == self.value(),
            r matches Err(e) ==> e is WrongType,
    {
        let max = isize::MAX as u128;
        if self.signed_state == SignedState::Positive {
            if self.content > max {
                return Err(IntegerSerError::WrongType);
            }
            Ok(self.content as isize)
        } else {
            if self.content > max + 1 {
                return Err(IntegerSerError::WrongType);
            }
            if self.content == 0 {
                Ok(0)
            } else {
                Ok(-((self.content - 1) as isize) - 1)
            }
        }
    }
    /// The number of bits needed to write the magnitude in binary, e.g. `257` needs 9.
    pub fn unsigned_bits(&self) -> (b: u32)
        ensures
            b == bit_len(self.magnitude()),
            b <= 128,
    {
        let mut x: u128 = self.content;
        let mut count: u32 = 0;
        proof {
            lemma_pow256_16();
            lemma_bit_len_bound(x as nat, 128);
        }
        while x > 0
            invariant
                bit_len(self.content as nat) == count + bit_len(x as nat),
                bit_len(self.content as nat) <= 128,
            decreases x,
        {
            assert(x >> 1 == x / 2) by (bit_vector);
            x = x >> 1;
            count = count + 1;
        }
        count
    }

    /// The number of bytes needed to hold the magnitude (0 for 0), at most [`INTEGER_MAX_SIZE`].
    fn min_bytes_needed(&self) -> (n: usize)
        ensures
            n == byte_len(self.magnitude()),
            n <= INTEGER_MAX_SIZE,
    {
        let mut x: u128 = self.content;
        let mut count: usize = 0;
        proof {
            lemma_pow256_16();
            lemma_byte_len_bound(x as nat, 16);
        }
        while x > 0
            invariant
                byte_len(self.content as nat) == count + byte_len(x as nat),
                byte_len(self.content as nat) <= 16,
            decreases x,
        {
            assert(x >> 8 == x / 256) by (bit_vector);
            x = x >> 8;
            count = count + 1;
        }
        count
    }

    /// Serialises into a signed state and bytes:
    /// - a non-negative number up to [`ONE_BYTE_MAX_SIZE`], or a negative one down to `-127`,
    ///   is the single byte of its magnitude (a negative zero comes out positive);
    /// - anything else is [`ONE_BYTE_MAX_SIZE`] plus the number of bytes of the magnitude,
    ///   followed by those bytes, least significant first, without leading zero bytes.
    pub fn ser(self) -> (r: (SignedState, Vec<u8>))
        ensures
            (r.0, r.1@) == encoding(self.sign(), self.magnitude()),
    {
        if self.signed_state == SignedState::Positive && self.content <= ONE_BYTE_MAX_SIZE as u128 {
            return (SignedState::Positive, vec![self.content as u8]);
        }
        if self.signed_state == SignedState::Negative && self.content < 128 {
            return if self.content == 0 {
                (SignedState::Positive, vec![0u8])
            } else {
                (SignedState::Negative, vec![self.content as u8])
            };
        }
        let stored_size = self.min_bytes_needed();
        let discriminant: u8 = ONE_BYTE_MAX_SIZE + stored_size as u8;
        let mut res: Vec<u8> = Vec::new();
        res.push(discriminant);
        let mut rest: u128 = self.content;
        let mut i: usize = 0;
        proof {
            lemma_pow256_pos(0);
        }
        while i < stored_size
            invariant
                i <= stored_size,
                stored_size == byte_len(self.content as nat),
                res@ == seq![discriminant] + le_bytes(self.content as nat, i as nat),
                rest == self.content as nat / pow256(i as nat),
            decreases stored_size - i,
        {
            let byte: u8 = (rest & 0xff) as u8;
            assert(rest & 0xff == rest % 256) by (bit_vector);
            assert(rest >> 8 == rest / 256) by (bit_vector);
            proof {
                lemma_pow256_pos(i as nat);
                vstd::arithmetic::div_mod::lemma_div_denominator(self.content as int, pow256(i as nat) as int, 256);
                assert(pow256(i as nat + 1) == pow256(i as nat) * 256);
            }
            res.push(byte);
            rest = rest >> 8;
            i = i + 1;
            assert(res@ =~= seq![discriminant] + le_bytes(self.content as nat, i as nat));
        }
        (self.signed_state, res)
    }

    /// Deserialises an integer with the given sign from the cursor: see [`decoding`].
    ///
    /// Fails with [`IntegerSerError::NotEnoughBytes`] if the cursor runs out.
    pub fn deser(signed_state: SignedState, reader: &mut Cursor<u8>) -> (r: Result<
        Self,
        IntegerSerError,
    >)
        requires
            old(reader).wf(),
        ensures
            final(reader).wf(),
            final(reader).items() == old(reader).items(),
            match decoding(old(reader).rest()) {
                Some((m, n)) => (r matches Ok(i) && i.sign() == signed_state && i.magnitude() == m
                    && final(reader).head() == old(reader).head() + n),
                None => (r matches Err(e) && e is NotEnoughBytes),
            },
    {
        let ghost s = old(reader).rest();
        let first_byte = match reader.next() {
            Some(b) => *b,
            None => return Err(IntegerSerError::NotEnoughBytes),
        };
        assert(first_byte == s[0]);
        if first_byte <= ONE_BYTE_MAX_SIZE {
            return Ok(Integer { signed_state, content: first_byte as u128 });
        }
        let bytes_stored = (first_byte - ONE_BYTE_MAX_SIZE) as usize;
        let bytes = match reader.read(bytes_stored) {
            Some(b) => b,
            None => return Err(IntegerSerError::NotEnoughBytes),
        };
        assert(bytes@ =~= s.subrange(1, 1 + bytes_stored as int));
        let mut content: u128 = 0;
        let mut i: usize = bytes_stored;
        proof {
            lemma_pow256_16();
            lemma_pow256_mono((bytes_stored - i) as nat, 16);
            assert(bytes@.subrange(i as int, bytes_stored as int).len() == 0);
        }
        while i > 0
            invariant
                i <= bytes_stored,
                bytes_stored <= 16,
                bytes@.len() == bytes_stored,
                content as nat == le_value(bytes@.subrange(i as int, bytes_stored as int)),
                content < pow256((bytes_stored - i) as nat),
                pow256(16) == u128::MAX + 1,
            decreases i,
        {
            i = i - 1;
            proof {
                lemma_le_value_front(bytes@, i as nat);
                lemma_pow256_mono((bytes_stored - i) as nat, 16);
            }
            content = content * 256 + bytes[i] as u128;
        }
        assert(bytes@.subrange(0, bytes_stored as int) =~= bytes@);
        Ok(Integer { signed_state, content })
    }
}

/// The `len` lowest bytes of `n`, least significant first.
pub(crate) fn le_bytes_of(n: u64, len: usize) -> (v: Vec<u8>)
    requires
        len <= 8,
    ensures
        v@ == le_bytes(n as nat, len as nat),
{
    let mut v: Vec<u8> = Vec::new();
    let mut rest: u64 = n;
    let mut i: usize = 0;
    proof {
        lemma_pow256_pos(0);
    }
    while i < len
        invariant
            i <= len,
            v@ == le_bytes(n as nat, i as nat),
            rest == n as nat / pow256(i as nat),
        decreases len - i,
    {
        let byte: u8 = (rest & 0xff) as u8;
        assert(rest & 0xff == rest % 256) by (bit_vector);
        assert(rest >> 8 == rest / 256) by (bit_vector);
        proof {
            lemma_pow256_pos(i as nat);
            vstd::arithmetic::div_mod::lemma_div_denominator(n as int, pow256(i as nat) as int, 256);
            assert(pow256(i as nat + 1) == pow256(i as nat) * 256);
        }
        v.push(byte);
        rest = rest >> 8;
        i = i + 1;
        assert(v@ =~= le_bytes(n as nat, i as nat));
    }
    v
}

/// The number that little-endian `bytes` stand for.
pub(crate) fn le_value_of(bytes: &[u8]) -> (x: u64)
    requires
        bytes@.len() <= 8,
    ensures
        x == le_value(bytes@),
{
    let len = bytes.len();
    let mut x: u64 = 0;
    let mut i: usize = len;
    proof {
        lemma_pow256_16();
        lemma_pow256_mono(0, 8);
        assert(bytes@.subrange(i as int, len as int).len() == 0);
    }
    while i > 0
        invariant
            i <= len,
            len <= 8,
            bytes@.len() == len,
            x as nat == le_value(bytes@.subrange(i as int, len as int)),
            x < pow256((len - i) as nat),
            pow256(8) == u64::MAX + 1,
        decreases i,
    {
        i = i - 1;
        proof {
            lemma_le_value_front(bytes@, i as nat);
            lemma_pow256_mono((len - i) as nat, 8);
            assert(pow256((len - i) as nat) == 256 * pow256((len - i - 1) as nat));
        }
        x = x * 256 + bytes[i] as u64;
    }
    assert(bytes@.subrange(0, len as int) =~= bytes@);
    x
}

/// `2` to the power `n`.
pub open spec fn pow2(n: nat) -> nat
    decreases n,
{
    if n == 0 {
        1
    } else {
        2 * pow2((n - 1) as nat)
    }
}

proof fn lemma_bit_len_bound(m: nat, k: nat)
    requires
        m < pow2(k),
    ensures
        bit_len(m) <= k,
    decreases k,
{
    if m > 0 {
        if k == 0 {
        } else {
            lemma_bit_len_bound(m / 2, (k - 1) as nat);
        }
    }
}

proof fn lemma_byte_len_bound(m: nat, k: nat)
    requires
        m < pow256(k),
    ensures
        byte_len(m) <= k,
    decreases k,
{
    if m > 0 {
        if k == 0 {
        } else {
            lemma_byte_len_bound(m / 256, (k - 1) as nat);
        }
    }
}

/// Powers of 256 are positive.
pub proof fn lemma_pow256_pos(n: nat)
    ensures
        pow256(n) > 0,
    decreases n,
{
    if n > 0 {
        lemma_pow256_pos((n - 1) as nat);
    }
}

/// Powers of 256 grow with the exponent.
pub proof fn lemma_pow256_mono(a: nat, b: nat)
    requires
        a <= b,
    ensures
        pow256(a) <= pow256(b),
    decreases b,
{
    if a < b {
        lemma_pow256_mono(a, (b - 1) as nat);
        lemma_pow256_pos((b - 1) as nat);
    }
}

/// The first sixteen powers of 256.
pub proof fn lemma_pow256_16()
    ensures
        pow256(1) == 0x100,
        pow256(2) == 0x10000,
        pow256(4) == 0x100000000,
        pow256(8) == 0x10000000000000000,
        pow256(16) == u128::MAX + 1,
        pow2(128) == u128::MAX + 1,
{
    assert(pow256(0) == 1);
    assert(pow256(1) == 0x100);
    assert(pow256(2) == 0x10000);
    assert(pow256(3) == 0x1000000);
    assert(pow256(4) == 0x100000000);
    assert(pow256(5) == 0x10000000000);
    assert(pow256(6) == 0x1000000000000);
    assert(pow256(7) == 0x100000000000000);
    assert(pow256(8) == 0x10000000000000000);
    assert(pow256(9) == 0x1000000000000000000);
    assert(pow256(10) == 0x100000000000000000000);
    assert(pow256(11) == 0x10000000000000000000000);
    assert(pow256(12) == 0x1000000000000000000000000);
    assert(pow256(13) == 0x100000000000000000000000000);
    assert(pow256(14) == 0x10000000000000000000000000000);
    assert(pow256(15) == 0x1000000000000000000000000000000);
    assert(pow256(16) == 0x100000000000000000000000000000000);
    lemma_pow2_pow256(16);
}

proof fn lemma_pow2_pow256(n: nat)
    ensures
        pow2(8 * n) == pow256(n),
    decreases n,
{
    if n > 0 {
        lemma_pow2_pow256((n - 1) as nat);
        let k = (8 * (n - 1)) as nat;
        assert(pow2(k + 8) == 256 * pow2(k)) by {
            reveal_with_fuel(pow2, 9);
        }
        assert(8 * n == k + 8);
    }
}

/// Peeling the first byte off a little-endian suffix.
pub proof fn lemma_le_value_front(s: Seq<u8>, i: nat)
    requires
        i < s.len(),
    ensures
        le_value(s.subrange(i as int, s.len() as int)) == s[i as int] as nat + 256 * le_value(
            s.subrange(i as int + 1, s.len() as int),
        ),
{
    assert(s.subrange(i as int, s.len() as int).drop_first() =~= s.subrange(i as int + 1, s.len() as int));
}

/// Little-endian bytes never stand for more than their length allows.
pub proof fn lemma_le_value_bound(s: Seq<u8>)
    ensures
        le_value(s) < pow256(s.len()),
    decreases s.len(),
{
    if s.len() > 0 {
        lemma_le_value_bound(s.drop_first());
    }
}

/// Reading back the `n` lowest bytes of `m` gives `m` modulo `256^n`.
pub proof fn lemma_le_value_of_bytes(m: nat, n: nat)
    ensures
        le_value(le_bytes(m, n)) == m % pow256(n),
    decreases n,
{
    lemma_pow256_pos(n);
    if n == 0 {
        assert(le_bytes(m, n).len() == 0);
    } else {
        let p = pow256((n - 1) as nat);
        lemma_pow256_pos((n - 1) as nat);
        assert forall|i: int| 0 <= i < n - 1 implies #[trigger] le_bytes(m, n).drop_first()[i]
            == le_bytes(m / 256, (n - 1) as nat)[i] by {
            lemma_pow256_pos(i as nat);
            vstd::arithmetic::div_mod::lemma_div_denominator(m as int, 256, pow256(i as nat) as int);
            assert(pow256((i + 1) as nat) == 256 * pow256(i as nat));
        }
        assert(le_bytes(m, n).drop_first() =~= le_bytes(m / 256, (n - 1) as nat));
        lemma_le_value_of_bytes(m / 256, (n - 1) as nat);
        vstd::arithmetic::div_mod::lemma_mod_breakdown(m as int, 256, p as int);
        assert(pow256(0) == 1);
    }
}

/// A number always fits in as many bytes as [`byte_len`] says.
pub proof fn lemma_fits_byte_len(m: nat)
    ensures
        m < pow256(byte_len(m)),
    decreases m,
{
    if m > 0 {
        lemma_fits_byte_len(m / 256);
    }
}

/// Deserialising the bytes that [`encoding`] gives for a sign and magnitude, with anything
/// after them, gives back the magnitude and takes up exactly those bytes; the sign also comes
/// back, except for a negative zero, which is encoded as a positive zero.
pub proof fn lemma_encoding_roundtrip(sign: SignedState, m: nat, rest: Seq<u8>)
    requires
        m <= u128::MAX,
    ensures
        ({
            let (s, bytes) = encoding(sign, m);
            &&& decoding(bytes + rest) == Some((m, bytes.len()))
            &&& (s == sign || (sign == SignedState::Negative && m == 0))
            &&& 1 <= bytes.len() <= 1 + INTEGER_MAX_SIZE
        }),
{
    let (s, bytes) = encoding(sign, m);
    let all = bytes + rest;
    if !((sign == SignedState::Positive && m <= ONE_BYTE_MAX_SIZE) || (sign
        == SignedState::Negative && m < 128)) {
        let k = byte_len(m);
        lemma_pow256_16();
        lemma_byte_len_bound(m, 16);
        lemma_fits_byte_len(m);
        lemma_le_value_of_bytes(m, k);
        assert(all.subrange(1, 1 + k as int) =~= le_bytes(m, k));
        vstd::arithmetic::div_mod::lemma_small_mod(m, pow256(k));
        assert(k >= 1) by {
            if m == 0 {
            }
        }
        assert(all[0] == (ONE_BYTE_MAX_SIZE + k) as u8);
        assert((all[0] - ONE_BYTE_MAX_SIZE) as nat == k);
    }
}

/// Deserialising what [`Integer::ser`] produced, with anything after it, gives back the same
/// integer and takes up exactly the serialised bytes (a negative zero comes back positive).
pub proof fn lemma_ser_deser_roundtrip(i: Integer, rest: Seq<u8>)
    ensures
        ({
            let (s, bytes) = encoding(i.sign(), i.magnitude());
            &&& decoding(bytes + rest) == Some((i.magnitude(), bytes.len()))
            &&& (s == i.sign() || (i.sign() == SignedState::Negative && i.magnitude() == 0))
            &&& 1 <= bytes.len() <= 1 + INTEGER_MAX_SIZE
        }),
{
    lemma_encoding_roundtrip(i.sign(), i.magnitude(), rest);
}

} // verus!
