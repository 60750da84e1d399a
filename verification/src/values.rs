//! [`Value`]: the values a store holds, and how each is serialised into bytes.
//!
//! A serialised value starts with one byte whose top four bits name its kind (see
//! [`ValueTy`]) and whose low four bits hold a small amount of kind-specific data: a signed
//! state, a compression, a flag or a short length.
use vstd::prelude::*;
use vstd::utf8::{decode_utf8, encode_utf8, valid_utf8};
use crate::types::binary::{
    binary_decoded,
    lemma_binary_roundtrip,
    compression_byte,
    smallest,
    vanilla,
    BinaryCompression,
    BinaryData,
    BinarySerError,
};
use crate::types::binary::huffman::{huffman_output, huffman_readable, readable};
use crate::types::binary::lz::{lz4_compressed, lz4_decompressed, lz_encoded};
use crate::types::binary::rle::rle_encoded;
use crate::types::imaginary::{
    imaginary_decoded,
    imaginary_encoded,
    f64_bits_eq,
    f64_bits_equal,
    f64_is_nan,
    imaginary_eq,
    imaginary_view,
    lemma_imaginary_roundtrip,
    normalised,
    Imaginary,
    ImaginaryView,
};
use crate::types::integer::{
    decoding,
    encoding,
    le_bytes,
    le_bytes_of,
    le_value,
    le_value_of,
    lemma_encoding_roundtrip,
    lemma_le_value_of_bytes,
    lemma_pow256_16,
    pow256,
    Integer,
    IntegerSerError,
    SignedState,
};
use crate::types::ts::{int_encoding, lemma_ts_roundtrip, ts_decoded, TSError, Timestamp};
use crate::utilities::bits::{bits_decoding, Bits};
use crate::utilities::cursor::Cursor;
use crate::utilities::bits::lemma_bits_ser_deser_roundtrip;
use crate::utilities::huffman::{
    char_from_u32,
    decode_walk,
    walk_ends,
    encode_path,
    is_scalar_value,
    lemma_decode_encoded,
    Huffman,
    HuffmanSymbol,
    Node,
};

verus! {

#[verifier::external_type_specification]
#[verifier::external_body]
pub struct ExJsonError(serde_json::Error);

#[verifier::external_type_specification]
#[verifier::external_body]
pub struct ExTzParseError(chrono_tz::ParseError);

/// Whether `serde_json` parses this text as JSON.
pub uninterp spec fn json_valid(text: Seq<char>) -> bool;

/// Whether `chrono_tz` knows a time zone with this name.
pub uninterp spec fn tz_name_known(name: Seq<char>) -> bool;

/// The text `serde_json::to_string` writes for the `serde_json::Value` that
/// `serde_json::from_str` reads from this text: compact, with object keys in order.
pub uninterp spec fn canonical_json(text: Seq<char>) -> Seq<char>;

/// Calls `serde_json::from_str` to parse `text` as a `serde_json::Value`, then
/// `serde_json::to_string` on what it read: the canonical text exactly when the text parses
/// (see [`json_valid`] and [`canonical_json`]), and the parser's error otherwise. Writing a
/// `serde_json::Value` to a string does not fail.
#[verifier::external_body]
fn json_canonical(text: &str) -> (r: Result<String, serde_json::Error>)
    ensures
        r is Ok <==> json_valid(text@),
        r matches Ok(c) ==> c@ == canonical_json(text@),
{
    match serde_json::from_str::<serde_json::Value>(text) {
        Ok(v) => serde_json::to_string(&v),
        Err(e) => Err(e),
    }
}

/// Calls `str::parse` for a `chrono_tz::Tz`, which looks the name up among the time zones it
/// knows; succeeds exactly when it finds it (see [`tz_name_known`]). A zone found this way has
/// `name` as its name.
#[verifier::external_body]
pub(crate) fn tz_check(name: &str) -> (r: Result<(), chrono_tz::ParseError>)
    ensures
        r is Ok <==> tz_name_known(name@),
{
    match name.parse::<chrono_tz::Tz>() {
        Ok(_) => Ok(()),
        Err(e) => Err(e),
    }
}

/// Calls `String::from_utf8`, which std documents as succeeding exactly when the bytes are
/// valid UTF-8, with the string that they encode.
#[verifier::external_body]
fn string_from_utf8(bytes: Vec<u8>) -> (r: Option<String>)
    ensures
        r is Some <==> valid_utf8(bytes@),
        r matches Some(s) ==> s@ == decode_utf8(bytes@),
{
    String::from_utf8(bytes).ok()
}

/// The kind of a [`Value`].
#[derive(Copy, Clone, Debug, PartialEq, Eq, Structural)]
pub enum ValueTy {
    /// [`Value::Character`].
    Character,
    /// [`Value::String`].
    String,
    /// [`Value::Binary`].
    Binary,
    /// [`Value::Boolean`].
    Boolean,
    /// [`Value::Integer`].
    Integer,
    /// [`Value::Imaginary`].
    Imaginary,
    /// [`Value::Timestamp`].
    Timestamp,
    /// [`Value::JSON`].
    JSON,
    /// [`Value::Null`].
    Null,
    /// [`Value::DoubleFloat`].
    DoubleFloat,
    /// [`Value::Array`].
    Array,
    /// [`Value::Dict`].
    Dict,
    /// [`Value::Timezone`].
    Timezone,
    /// [`Value::Ipv4Addr`].
    Ipv4Addr,
    /// [`Value::Ipv6Addr`].
    Ipv6Addr,
    /// [`Value::SingleFloat`].
    SingleFloat,
}

/// The four-bit id of each kind.
pub open spec fn ty_id(t: ValueTy) -> u8 {
    match t {
        ValueTy::Character => 0,
        ValueTy::String => 1,
        ValueTy::Binary => 2,
        ValueTy::Boolean => 3,
        ValueTy::Integer => 4,
        ValueTy::Imaginary => 5,
        ValueTy::Timestamp => 6,
        ValueTy::JSON => 7,
        ValueTy::Dict => 8,
        ValueTy::Null => 9,
        ValueTy::DoubleFloat => 10,
        ValueTy::Array => 11,
        ValueTy::Timezone => 12,
        ValueTy::Ipv4Addr => 13,
        ValueTy::Ipv6Addr => 14,
        ValueTy::SingleFloat => 15,
    }
}

/// The kind with a four-bit id.
pub open spec fn ty_of_id(b: u8) -> ValueTy
    recommends
        b < 16,
{
    if b == 0 {
        ValueTy::Character
    } else if b == 1 {
        ValueTy::String
    } else if b == 2 {
        ValueTy::Binary
    } else if b == 3 {
        ValueTy::Boolean
    } else if b == 4 {
        ValueTy::Integer
    } else if b == 5 {
        ValueTy::Imaginary
    } else if b == 6 {
        ValueTy::Timestamp
    } else if b == 7 {
        ValueTy::JSON
    } else if b == 8 {
        ValueTy::Dict
    } else if b == 9 {
        ValueTy::Null
    } else if b == 10 {
        ValueTy::DoubleFloat
    } else if b == 11 {
        ValueTy::Array
    } else if b == 12 {
        ValueTy::Timezone
    } else if b == 13 {
        ValueTy::Ipv4Addr
    } else if b == 14 {
        ValueTy::Ipv6Addr
    } else {
        ValueTy::SingleFloat
    }
}

/// An error when serialising or deserialising a [`Value`].
#[derive(Debug)]
pub enum ValueSerError {
    /// A kind id that does not exist.
    InvalidType(u8),
    /// An [`Integer`] (or a number built from them) could not be read or converted.
    IntegerSerError(IntegerSerError),
    /// There were fewer bytes than needed.
    NotEnoughBytes,
    /// A character code that is not a Unicode scalar value.
    InvalidCharacter,
    /// String bytes that are not valid UTF-8.
    NonUTF8String,
    /// JSON text that does not parse.
    SerdeJson(serde_json::Error),
    /// A value of one kind where another was needed.
    UnexpectedValueType {
        /// The kind found.
        found: ValueTy,
        /// The kind needed.
        expected: ValueTy,
    },
    /// A time zone name that is not known.
    TzError(chrono_tz::ParseError),
    /// A timestamp whose day or time of day does not exist.
    InvalidDateOrTime,
    /// A huffman-coded string, but no huffman coder to decode it.
    NoHuffman,
    /// A huffman-coded string that could not be decoded.
    UnableToDecodeHuffman,
    /// A blob of bytes that could not be read.
    BinarySerError(BinarySerError),
}

/// What went wrong, with the details that are plain values.
pub ghost enum ValueErrorKind {
    /// See [`ValueSerError::InvalidType`].
    InvalidType(u8),
    /// See [`ValueSerError::IntegerSerError`].
    Integer(IntegerSerError),
    /// See [`ValueSerError::NotEnoughBytes`].
    NotEnoughBytes,
    /// See [`ValueSerError::InvalidCharacter`].
    InvalidCharacter,
    /// See [`ValueSerError::NonUTF8String`].
    NonUtf8,
    /// See [`ValueSerError::SerdeJson`].
    SerdeJson,
    /// See [`ValueSerError::UnexpectedValueType`].
    UnexpectedValueType(ValueTy, ValueTy),
    /// See [`ValueSerError::TzError`].
    Tz,
    /// See [`ValueSerError::InvalidDateOrTime`].
    InvalidDateOrTime,
    /// See [`ValueSerError::NoHuffman`].
    NoHuffman,
    /// See [`ValueSerError::UnableToDecodeHuffman`].
    UnableToDecodeHuffman,
    /// See [`ValueSerError::BinarySerError`].
    Binary,
}

/// What kind of error `e` is.
pub open spec fn kind_of(e: ValueSerError) -> ValueErrorKind {
    match e {
        ValueSerError::InvalidType(b) => ValueErrorKind::InvalidType(b),
        ValueSerError::IntegerSerError(i) => ValueErrorKind::Integer(i),
        ValueSerError::NotEnoughBytes => ValueErrorKind::NotEnoughBytes,
        ValueSerError::InvalidCharacter => ValueErrorKind::InvalidCharacter,
        ValueSerError::NonUTF8String => ValueErrorKind::NonUtf8,
        ValueSerError::SerdeJson(_) => ValueErrorKind::SerdeJson,
        ValueSerError::UnexpectedValueType { found, expected } => ValueErrorKind::UnexpectedValueType(
            found,
            expected,
        ),
        ValueSerError::TzError(_) => ValueErrorKind::Tz,
        ValueSerError::InvalidDateOrTime => ValueErrorKind::InvalidDateOrTime,
        ValueSerError::NoHuffman => ValueErrorKind::NoHuffman,
        ValueSerError::UnableToDecodeHuffman => ValueErrorKind::UnableToDecodeHuffman,
        ValueSerError::BinarySerError(_) => ValueErrorKind::Binary,
    }
}

/// A value of a store.
#[derive(Debug, Hash)]
pub enum Value {
    /// A character.
    Character(char),
    /// A string.
    String(String),
    /// A blob of bytes.
    Binary(BinaryData),
    /// A boolean.
    Boolean(bool),
    /// An integer.
    Integer(Integer),
    /// A complex number.
    Imaginary(Imaginary),
    /// A date and time of day, without a time zone.
    Timestamp(Timestamp),
    /// A JSON value, held as its text (written compactly, keys in order, once read back).
    JSON(String),
    /// Nothing.
    Null(()),
    /// The bit pattern of an `f32` (see `f32::to_bits`).
    SingleFloat(u32),
    /// The bit pattern of an `f64` (see `f64::to_bits`).
    DoubleFloat(u64),
    /// A list of values, whose order is kept.
    Array(Vec<Value>),
    /// Values by string keys; no key is expected twice.
    Dict(Vec<(String, Value)>),
    /// A time zone, held as its name in the tz database.
    Timezone(String),
    /// The four octets of an IPv4 address.
    Ipv4Addr([u8; 4]),
    /// The eight segments of an IPv6 address.
    Ipv6Addr([u16; 8]),
}

/// What a [`Value`] holds, as plain values.
pub ghost enum ValueView {
    /// A character.
    Character(char),
    /// A string.
    String(Seq<char>),
    /// A blob of bytes.
    Binary(Seq<u8>),
    /// A boolean.
    Boolean(bool),
    /// An integer: its signed state and magnitude.
    Integer(SignedState, nat),
    /// A complex number.
    Imaginary(ImaginaryView),
    /// The seven fields of a timestamp, year first.
    Timestamp(Seq<int>),
    /// JSON text.
    JSON(Seq<char>),
    /// Nothing.
    Null,
    /// The bit pattern of an `f32`.
    SingleFloat(u32),
    /// The bit pattern of an `f64`.
    DoubleFloat(u64),
    /// A list of values.
    Array(Seq<ValueView>),
    /// Keys and values, in order.
    Dict(Seq<(Seq<char>, ValueView)>),
    /// A time zone name.
    Timezone(Seq<char>),
    /// The octets of an IPv4 address.
    Ipv4Addr(Seq<u8>),
    /// The segments of an IPv6 address.
    Ipv6Addr(Seq<u16>),
}

/// What a value holds.
pub open spec fn value_view(v: Value) -> ValueView
    decreases v,
{
    match v {
        Value::Character(c) => ValueView::Character(c),
        Value::String(s) => ValueView::String(s@),
        Value::Binary(b) => ValueView::Binary(b.0@),
        Value::Boolean(b) => ValueView::Boolean(b),
        Value::Integer(i) => ValueView::Integer(i.sign(), i.magnitude()),
        Value::Imaginary(i) => ValueView::Imaginary(imaginary_view(i)),
        Value::Timestamp(t) => ValueView::Timestamp(t.fields()),
        Value::JSON(s) => ValueView::JSON(s@),
        Value::Null(_) => ValueView::Null,
        Value::SingleFloat(x) => ValueView::SingleFloat(x),
        Value::DoubleFloat(x) => ValueView::DoubleFloat(x),
        Value::Array(a) => ValueView::Array(values_view(a@)),
        Value::Dict(d) => ValueView::Dict(entries_view(d@)),
        Value::Timezone(s) => ValueView::Timezone(s@),
        Value::Ipv4Addr(a) => ValueView::Ipv4Addr(a@),
        Value::Ipv6Addr(a) => ValueView::Ipv6Addr(a@),
    }
}

/// What each value of a list holds.
pub open spec fn values_view(s: Seq<Value>) -> Seq<ValueView>
    decreases s,
{
    if s.len() == 0 {
        Seq::empty()
    } else {
        values_view(s.drop_last()).push(value_view(s.last()))
    }
}

/// What each entry of a dictionary holds.
pub open spec fn entries_view(s: Seq<(String, Value)>) -> Seq<(Seq<char>, ValueView)>
    decreases s,
{
    if s.len() == 0 {
        Seq::empty()
    } else {
        entries_view(s.drop_last()).push((s.last().0@, value_view(s.last().1)))
    }
}

/// Whether the `f32` with this bit pattern is a NaN: every exponent bit set, and a fraction.
pub open spec fn f32_is_nan(b: u32) -> bool {
    (b / 0x80_0000) % 0x100 == 0xFF && b % 0x80_0000 != 0
}

/// Whether the `f32`s with these bit patterns are equal as `f32`s: neither is a NaN, and the
/// patterns are the same or both are zeros (of either sign).
pub open spec fn f32_bits_eq(a: u32, b: u32) -> bool {
    &&& !f32_is_nan(a)
    &&& !f32_is_nan(b)
    &&& (a == b || (a % 0x8000_0000 == 0 && b % 0x8000_0000 == 0))
}

/// The value of the first entry with key `k`, if any (what a map gives for `k`).
pub open spec fn entry_value(es: Seq<(Seq<char>, ValueView)>, k: Seq<char>) -> Option<ValueView>
    decreases es.len(),
{
    if es.len() == 0 {
        None
    } else if es[0].0 == k {
        Some(es[0].1)
    } else {
        entry_value(es.drop_first(), k)
    }
}

/// Whether two values are equal: floats as floats (a NaN equals nothing, the two zeros are
/// equal), lists value by value in order, dictionaries as maps (the same number of entries,
/// and each key of one given an equal value by the other), and everything else by what it
/// holds.
pub open spec fn value_eq(a: ValueView, b: ValueView) -> bool
    decreases a,
{
    match a {
        ValueView::SingleFloat(x) => match b {
            ValueView::SingleFloat(y) => f32_bits_eq(x, y),
            _ => false,
        },
        ValueView::DoubleFloat(x) => match b {
            ValueView::DoubleFloat(y) => f64_bits_eq(x, y),
            _ => false,
        },
        ValueView::Imaginary(x) => match b {
            ValueView::Imaginary(y) => imaginary_eq(x, y),
            _ => false,
        },
        ValueView::Array(xs) => match b {
            ValueView::Array(ys) => xs.len() == ys.len() && arrays_eq(xs, ys),
            _ => false,
        },
        ValueView::Dict(xs) => match b {
            ValueView::Dict(ys) => xs.len() == ys.len() && dict_matches(xs, ys),
            _ => false,
        },
        _ => a == b,
    }
}

/// Whether the values of two lists of the same length are equal in order.
pub open spec fn arrays_eq(xs: Seq<ValueView>, ys: Seq<ValueView>) -> bool
    decreases xs,
{
    if xs.len() == 0 {
        true
    } else {
        value_eq(xs.last(), ys[xs.len() - 1]) && arrays_eq(xs.drop_last(), ys.drop_last())
    }
}

/// Whether every key of `xs` is given by `ys` a value equal to its own.
pub open spec fn dict_matches(xs: Seq<(Seq<char>, ValueView)>, ys: Seq<(Seq<char>, ValueView)>) -> bool
    decreases xs,
{
    if xs.len() == 0 {
        true
    } else {
        (match entry_value(ys, xs.last().0) {
            Some(w) => value_eq(xs.last().1, w),
            None => false,
        }) && dict_matches(xs.drop_last(), ys)
    }
}

/// Whether two dictionaries are equal as maps: the same number of entries, and each key of
/// the first given an equal value by the second.
pub open spec fn dicts_eq(xs: Seq<(Seq<char>, ValueView)>, ys: Seq<(Seq<char>, ValueView)>) -> bool {
    xs.len() == ys.len() && dict_matches(xs, ys)
}

/// [`arrays_eq`] compares the values at each position.
pub proof fn lemma_arrays_eq(xs: Seq<ValueView>, ys: Seq<ValueView>)
    requires
        xs.len() == ys.len(),
    ensures
        arrays_eq(xs, ys) <==> forall|i: int| 0 <= i < xs.len() ==> #[trigger] value_eq(xs[i], ys[i]),
    decreases xs.len(),
{
    if xs.len() > 0 {
        lemma_arrays_eq(xs.drop_last(), ys.drop_last());
        assert(xs.last() == xs[xs.len() - 1]);
        if forall|i: int| 0 <= i < xs.len() ==> #[trigger] value_eq(xs[i], ys[i]) {
            assert forall|i: int| 0 <= i < xs.drop_last().len() implies #[trigger] value_eq(xs.drop_last()[i], ys.drop_last()[i]) by {
                assert(value_eq(xs[i], ys[i]));
                assert(xs.drop_last()[i] == xs[i] && ys.drop_last()[i] == ys[i]);
            }
            assert(value_eq(xs[xs.len() - 1], ys[xs.len() - 1]));
        }
        if arrays_eq(xs, ys) {
            assert forall|i: int| 0 <= i < xs.len() implies #[trigger] value_eq(xs[i], ys[i]) by {
                if i < xs.len() - 1 {
                    assert(value_eq(xs.drop_last()[i], ys.drop_last()[i]));
                    assert(xs.drop_last()[i] == xs[i] && ys.drop_last()[i] == ys[i]);
                }
            }
        }
    }
}

/// [`dict_matches`] looks up each key of `xs` in `ys`.
pub proof fn lemma_dict_matches(xs: Seq<(Seq<char>, ValueView)>, ys: Seq<(Seq<char>, ValueView)>)
    ensures
        dict_matches(xs, ys) <==> forall|i: int| 0 <= i < xs.len() ==> (match #[trigger] entry_value(ys, xs[i].0) {
            Some(w) => value_eq(xs[i].1, w),
            None => false,
        }),
    decreases xs.len(),
{
    if xs.len() > 0 {
        lemma_dict_matches(xs.drop_last(), ys);
        assert(xs.last() == xs[xs.len() - 1]);
        assert forall|i: int| 0 <= i < xs.len() - 1 implies xs.drop_last()[i] == xs[i] by {}
        if forall|i: int| 0 <= i < xs.len() ==> (match #[trigger] entry_value(ys, xs[i].0) {
            Some(w) => value_eq(xs[i].1, w),
            None => false,
        }) {
            assert forall|i: int| 0 <= i < xs.drop_last().len() implies (match #[trigger] entry_value(ys, xs.drop_last()[i].0) {
                Some(w) => value_eq(xs.drop_last()[i].1, w),
                None => false,
            }) by {
                assert(xs.drop_last()[i] == xs[i]);
                assert(match entry_value(ys, xs[i].0) {
                    Some(w) => value_eq(xs[i].1, w),
                    None => false,
                });
            }
            let n = xs.len() - 1;
            assert(match entry_value(ys, xs[n].0) {
                Some(w) => value_eq(xs[n].1, w),
                None => false,
            });
        }
        if dict_matches(xs, ys) {
            assert forall|i: int| 0 <= i < xs.len() implies (match #[trigger] entry_value(ys, xs[i].0) {
                Some(w) => value_eq(xs[i].1, w),
                None => false,
            }) by {
                if i < xs.len() - 1 {
                    assert(xs.drop_last()[i] == xs[i]);
                    assert(match entry_value(ys, xs.drop_last()[i].0) {
                        Some(w) => value_eq(xs.drop_last()[i].1, w),
                        None => false,
                    });
                }
            }
        }
    }
}

/// Two values that are not floats, imaginary numbers, lists or dictionaries are equal exactly
/// when they are the same: the same kind, holding the same (two addresses with the same
/// octets or segments, two strings with the same characters, two integers with the same sign
/// and magnitude, and so on).
pub proof fn lemma_value_eq_plain(a: ValueView, b: ValueView)
    requires
        !(a is SingleFloat),
        !(a is DoubleFloat),
        !(a is Imaginary),
        !(a is Array),
        !(a is Dict),
    ensures
        value_eq(a, b) <==> a == b,
{
}

/// Floats compare as floats: a NaN equals nothing, not even itself; any other float equals
/// itself; two different bit patterns are equal only when both are zeros (of either sign); and
/// a float equals no value of another kind.
pub proof fn lemma_value_eq_floats(x: u64, y: u64, p: u32, q: u32, other: ValueView)
    ensures
        value_eq(ValueView::DoubleFloat(x), ValueView::DoubleFloat(y)) ==> !f64_is_nan(x)
            && !f64_is_nan(y),
        !f64_is_nan(x) ==> value_eq(ValueView::DoubleFloat(x), ValueView::DoubleFloat(x)),
        x != y ==> (value_eq(ValueView::DoubleFloat(x), ValueView::DoubleFloat(y)) <==> (!f64_is_nan(
            x,
        ) && !f64_is_nan(y) && x % 0x8000_0000_0000_0000 == 0 && y % 0x8000_0000_0000_0000 == 0)),
        value_eq(ValueView::SingleFloat(p), ValueView::SingleFloat(q)) ==> !f32_is_nan(p)
            && !f32_is_nan(q),
        !f32_is_nan(p) ==> value_eq(ValueView::SingleFloat(p), ValueView::SingleFloat(p)),
        p != q ==> (value_eq(ValueView::SingleFloat(p), ValueView::SingleFloat(q)) <==> (!f32_is_nan(
            p,
        ) && !f32_is_nan(q) && p % 0x8000_0000 == 0 && q % 0x8000_0000 == 0)),
        !(other is DoubleFloat) ==> !value_eq(ValueView::DoubleFloat(x), other),
        !(other is SingleFloat) ==> !value_eq(ValueView::SingleFloat(p), other),
{
}

/// Two lists are equal exactly when they have the same length and the values at each position
/// are equal; two dictionaries are equal exactly when they have the same number of entries and
/// each key of the first is given by the second a value equal to its own.
pub proof fn lemma_value_eq_collections(
    xs: Seq<ValueView>,
    ys: Seq<ValueView>,
    ds: Seq<(Seq<char>, ValueView)>,
    es: Seq<(Seq<char>, ValueView)>,
)
    ensures
        value_eq(ValueView::Array(xs), ValueView::Array(ys)) <==> xs.len() == ys.len() && forall|
            i: int,
        | 0 <= i < xs.len() ==> #[trigger] value_eq(xs[i], ys[i]),
        value_eq(ValueView::Dict(ds), ValueView::Dict(es)) <==> ds.len() == es.len() && forall|
            i: int,
        | 0 <= i < ds.len() ==> (match #[trigger] entry_value(es, ds[i].0) {
            Some(w) => value_eq(ds[i].1, w),
            None => false,
        }),
{
    if xs.len() == ys.len() {
        lemma_arrays_eq(xs, ys);
    }
    lemma_dict_matches(ds, es);
}

/// The kind of a view.
pub open spec fn view_ty(v: ValueView) -> ValueTy {
    match v {
        ValueView::Character(_) => ValueTy::Character,
        ValueView::String(_) => ValueTy::String,
        ValueView::Binary(_) => ValueTy::Binary,
        ValueView::Boolean(_) => ValueTy::Boolean,
        ValueView::Integer(_, _) => ValueTy::Integer,
        ValueView::Imaginary(_) => ValueTy::Imaginary,
        ValueView::Timestamp(_) => ValueTy::Timestamp,
        ValueView::JSON(_) => ValueTy::JSON,
        ValueView::Null => ValueTy::Null,
        ValueView::SingleFloat(_) => ValueTy::SingleFloat,
        ValueView::DoubleFloat(_) => ValueTy::DoubleFloat,
        ValueView::Array(_) => ValueTy::Array,
        ValueView::Dict(_) => ValueTy::Dict,
        ValueView::Timezone(_) => ValueTy::Timezone,
        ValueView::Ipv4Addr(_) => ValueTy::Ipv4Addr,
        ValueView::Ipv6Addr(_) => ValueTy::Ipv6Addr,
    }
}

/// The position of the first entry with key `k`, if there is one.
pub open spec fn key_position(es: Seq<(Seq<char>, ValueView)>, k: Seq<char>) -> Option<nat>
    decreases es.len(),
{
    if es.len() == 0 {
        None
    } else if es[0].0 == k {
        Some(0)
    } else {
        match key_position(es.drop_first(), k) {
            Some(i) => Some(i + 1),
            None => None,
        }
    }
}

/// Inserting into a dictionary: an entry with the same key has its value replaced where it
/// stands; otherwise the entry goes at the end.
pub open spec fn insert_entry(es: Seq<(Seq<char>, ValueView)>, k: Seq<char>, v: ValueView) -> Seq<
    (Seq<char>, ValueView),
> {
    match key_position(es, k) {
        Some(i) => es.update(i as int, (k, v)),
        None => es.push((k, v)),
    }
}

/// What a dictionary gives for a key is the value of the entry that [`key_position`] finds
/// there, or nothing when it finds none.
pub proof fn lemma_entry_value_position(es: Seq<(Seq<char>, ValueView)>, k: Seq<char>)
    ensures
        entry_value(es, k) == match key_position(es, k) {
            Some(i) => Some(es[i as int].1),
            None => None,
        },
        key_position(es, k) matches Some(i) ==> i < es.len(),
    decreases es.len(),
{
    if es.len() > 0 && es[0].0 != k {
        lemma_entry_value_position(es.drop_first(), k);
        if let Some(i) = key_position(es.drop_first(), k) {
            assert(es.drop_first()[i as int] == es[i + 1int]);
        }
    }
}

/// After `v` is inserted under `k`, a dictionary gives `v` for `k`, and for every other key
/// what it gave before.
pub proof fn lemma_entry_value_insert(
    es: Seq<(Seq<char>, ValueView)>,
    k: Seq<char>,
    v: ValueView,
    k2: Seq<char>,
)
    ensures
        entry_value(insert_entry(es, k, v), k2) == if k2 == k {
            Some(v)
        } else {
            entry_value(es, k2)
        },
    decreases es.len(),
{
    let after = insert_entry(es, k, v);
    if es.len() == 0 {
        assert(after =~= seq![(k, v)]);
        assert(after.drop_first().len() == 0);
        assert(entry_value(after.drop_first(), k2) is None);
    } else if es[0].0 == k {
        assert(key_position(es, k) == Some(0nat));
        assert(after =~= es.update(0, (k, v)));
        assert(after[0] == (k, v));
        assert(after.drop_first() =~= es.drop_first());
        if k2 != k {
            assert(entry_value(after, k2) == entry_value(after.drop_first(), k2));
            assert(entry_value(es, k2) == entry_value(es.drop_first(), k2));
        }
    } else {
        lemma_entry_value_insert(es.drop_first(), k, v, k2);
        lemma_entry_value_position(es.drop_first(), k);
        match key_position(es.drop_first(), k) {
            Some(i) => {
                assert(after.drop_first() =~= es.drop_first().update(i as int, (k, v)));
            },
            None => {
                assert(after.drop_first() =~= es.drop_first().push((k, v)));
            },
        }
        assert(after.drop_first() =~= insert_entry(es.drop_first(), k, v));
        assert(after[0] == es[0]);
        if es[0].0 != k2 {
            assert(entry_value(after, k2) == entry_value(after.drop_first(), k2));
            assert(entry_value(es, k2) == entry_value(es.drop_first(), k2));
        }
    }
}

/// With an entry added at the end, a dictionary gives for a key what it gave before, or the
/// new entry's value when it gave nothing and the new entry has that key.
pub proof fn lemma_entry_value_push(
    es: Seq<(Seq<char>, ValueView)>,
    e: (Seq<char>, ValueView),
    k: Seq<char>,
)
    ensures
        entry_value(es.push(e), k) == match entry_value(es, k) {
            Some(w) => Some(w),
            None => if e.0 == k {
                Some(e.1)
            } else {
                None
            },
        },
    decreases es.len(),
{
    let p = es.push(e);
    if es.len() == 0 {
        assert(p[0] == e);
        assert(p.drop_first().len() == 0);
        assert(entry_value(p.drop_first(), k) is None);
        assert(entry_value(es, k) is None);
    } else {
        assert(p[0] == es[0]);
        if es[0].0 != k {
            lemma_entry_value_push(es.drop_first(), e, k);
            assert(p.drop_first() =~= es.drop_first().push(e));
            assert(entry_value(p, k) == entry_value(p.drop_first(), k));
            assert(entry_value(es, k) == entry_value(es.drop_first(), k));
        } else {
            assert(entry_value(p, k) == Some(es[0].1));
        }
    }
}

/// A dictionary gives nothing for a key that none of its entries has.
pub proof fn lemma_entry_value_absent(es: Seq<(Seq<char>, ValueView)>, k: Seq<char>)
    requires
        forall|i: int| 0 <= i < es.len() ==> (#[trigger] es[i]).0 != k,
    ensures
        entry_value(es, k) is None,
    decreases es.len(),
{
    if es.len() > 0 {
        assert(es[0].0 != k);
        assert forall|i: int| 0 <= i < es.drop_first().len() implies (#[trigger] es.drop_first()[i]).0
            != k by {
            assert(es.drop_first()[i] == es[i + 1]);
        }
        lemma_entry_value_absent(es.drop_first(), k);
    }
}

/// The dictionary that inserting `raw` in order into an empty one gives.
pub open spec fn dict_of(raw: Seq<(Seq<char>, ValueView)>) -> Seq<(Seq<char>, ValueView)>
    decreases raw.len(),
{
    if raw.len() == 0 {
        Seq::empty()
    } else {
        insert_entry(dict_of(raw.drop_last()), raw.last().0, raw.last().1)
    }
}

/// `s` without its first `n` bytes (empty if it is shorter).
pub open spec fn skip_bytes(s: Seq<u8>, n: nat) -> Seq<u8> {
    if n <= s.len() {
        s.subrange(n as int, s.len() as int)
    } else {
        Seq::empty()
    }
}

/// The compression with a byte.
pub open spec fn compression_of(b: u8) -> BinaryCompression
    recommends
        b <= 3,
{
    if b == 0 {
        BinaryCompression::Nothing
    } else if b == 1 {
        BinaryCompression::RunLengthEncoding
    } else if b == 2 {
        BinaryCompression::LempelZiv
    } else {
        BinaryCompression::Huffman
    }
}

/// A character read from `s`: its code as an [`Integer`].
pub open spec fn char_decoded(s: Seq<u8>) -> Result<(ValueView, nat), ValueErrorKind> {
    match decoding(s) {
        None => Err(ValueErrorKind::Integer(IntegerSerError::NotEnoughBytes)),
        Some((m, c)) => if m > u32::MAX {
            Err(ValueErrorKind::Integer(IntegerSerError::WrongType))
        } else if !is_scalar_value(m as u32) {
            Err(ValueErrorKind::InvalidCharacter)
        } else {
            Ok((ValueView::Character((m as u32) as char), c))
        },
    }
}

/// A string read from `s`, with header byte `b`: huffman-coded bits when the low bit of `b`
/// is set, else a byte length and UTF-8 bytes. `None` where decoding cannot go on: bits for a
/// coder whose tree is a single leaf.
pub open spec fn string_decoded(b: u8, s: Seq<u8>, h: Option<Node<char>>) -> Option<
    Result<(ValueView, nat), ValueErrorKind>,
> {
    if b % 2 == 1 {
        match h {
            None => Some(Err(ValueErrorKind::NoHuffman)),
            Some(root) => match bits_decoding(s) {
                Err(e) => Some(Err(ValueErrorKind::Integer(e))),
                Ok((bits, c)) => if bits.len() == 0 || root is Branch {
                    if walk_ends(root, root, true, bits) {
                        Some(Ok((ValueView::String(decode_walk(root, root, bits)), c)))
                    } else {
                        Some(Err(ValueErrorKind::UnableToDecodeHuffman))
                    }
                } else {
                    None
                },
            },
        }
    } else {
        match decoding(s) {
            None => Some(Err(ValueErrorKind::Integer(IntegerSerError::NotEnoughBytes))),
            Some((n, c)) => if n > usize::MAX {
                Some(Err(ValueErrorKind::Integer(IntegerSerError::WrongType)))
            } else if c + n > s.len() {
                Some(Err(ValueErrorKind::NotEnoughBytes))
            } else if valid_utf8(s.subrange(c as int, (c + n) as int)) {
                Some(
                    Ok(
                        (
                            ValueView::String(decode_utf8(s.subrange(c as int, (c + n) as int))),
                            c + n,
                        ),
                    ),
                )
            } else {
                Some(Err(ValueErrorKind::NonUtf8))
            },
        }
    }
}

/// A blob read from `s`, with the compression in the low four bits of `b`. `None` where
/// decoding cannot go on (see [`BinaryData::deser`]).
pub open spec fn binary_value_decoded(b: u8, s: Seq<u8>) -> Option<
    Result<(ValueView, nat), ValueErrorKind>,
> {
    let code = b % 16;
    if code > 3 {
        Some(Err(ValueErrorKind::Binary))
    } else {
        let ct = compression_of(code);
        if ct == BinaryCompression::LempelZiv && (decoding(s) matches Some((n, _)) && n
            > isize::MAX) {
            None
        } else if ct == BinaryCompression::Huffman && !huffman_readable(s) {
            None
        } else {
            match binary_decoded(ct, s) {
                Some((d, c)) => Some(Ok((ValueView::Binary(d), c))),
                None => Some(Err(ValueErrorKind::Binary)),
            }
        }
    }
}

/// An integer read from `s`, with its signed state in the low two bits of `b`.
pub open spec fn integer_decoded(b: u8, s: Seq<u8>) -> Result<(ValueView, nat), ValueErrorKind> {
    let code = b % 4;
    if code > 1 {
        Err(ValueErrorKind::Integer(IntegerSerError::InvalidSignedStateDiscriminant(code)))
    } else {
        match decoding(s) {
            None => Err(ValueErrorKind::Integer(IntegerSerError::NotEnoughBytes)),
            Some((m, c)) => Ok(
                (
                    ValueView::Integer(
                        if code == 0 {
                            SignedState::Positive
                        } else {
                            SignedState::Negative
                        },
                        m,
                    ),
                    c,
                ),
            ),
        }
    }
}

/// A timestamp read from `s`, with the signed state of its year in the low bit of `b`.
#[verifier::opaque]
pub open spec fn timestamp_decoded(b: u8, s: Seq<u8>) -> Result<(ValueView, nat), ValueErrorKind> {
    let ss = if b % 2 == 0 {
        SignedState::Positive
    } else {
        SignedState::Negative
    };
    match ts_decoded(ss, s) {
        Ok((f, c)) => Ok((ValueView::Timestamp(f), c)),
        Err(TSError::IntegerSerError(e)) => Err(ValueErrorKind::Integer(e)),
        Err(TSError::InvalidDateOrTime) => Err(ValueErrorKind::InvalidDateOrTime),
    }
}

/// The eight little-endian segments of sixteen bytes.
pub open spec fn segments(s: Seq<u8>) -> Seq<u16> {
    Seq::new(8, |i: int| (s[2 * i] + 256 * s[2 * i + 1]) as u16)
}

/// A value of fixed size read from `s`, for a kind with id `ty`.
pub open spec fn fixed_decoded(b: u8, s: Seq<u8>) -> Result<(ValueView, nat), ValueErrorKind> {
    let ty = b / 16;
    let n: nat = if ty == 3 || ty == 9 {
        0
    } else if ty == 15 || ty == 13 {
        4
    } else if ty == 10 {
        8
    } else {
        16
    };
    if s.len() < n {
        Err(ValueErrorKind::NotEnoughBytes)
    } else {
        let v = if ty == 3 {
            ValueView::Boolean(b % 2 == 1)
        } else if ty == 9 {
            ValueView::Null
        } else if ty == 15 {
            ValueView::SingleFloat(le_value(s.take(4)) as u32)
        } else if ty == 10 {
            ValueView::DoubleFloat(le_value(s.take(8)) as u64)
        } else if ty == 13 {
            ValueView::Ipv4Addr(s.take(4))
        } else {
            ValueView::Ipv6Addr(segments(s))
        };
        Ok((v, n))
    }
}

/// A value without values inside it, read from `s` after the header byte `b`.
#[verifier::opaque]
pub open spec fn leaf_decoded(b: u8, s: Seq<u8>, h: Option<Node<char>>) -> Option<
    Result<(ValueView, nat), ValueErrorKind>,
> {
    let ty = b / 16;
    if ty == 0 {
        Some(char_decoded(s))
    } else if ty == 1 {
        string_decoded(b, s, h)
    } else if ty == 2 {
        binary_value_decoded(b, s)
    } else if ty == 4 {
        Some(integer_decoded(b, s))
    } else if ty == 5 {
        match imaginary_decoded(b % 16, s) {
            Ok((v, c)) => Some(Ok((ValueView::Imaginary(v), c))),
            Err(e) => Some(Err(ValueErrorKind::Integer(e))),
        }
    } else if ty == 6 {
        Some(timestamp_decoded(b, s))
    } else {
        Some(fixed_decoded(b, s))
    }
}

/// The length of an array or dictionary: in bits one to three of `b`, or, when the low bit of
/// `b` is set, as an [`Integer`] at the front of `s`; with the number of bytes of `s` it takes.
pub open spec fn len_decoded(b: u8, s: Seq<u8>) -> Result<(nat, nat), ValueErrorKind> {
    if b % 2 == 1 {
        match decoding(s) {
            None => Err(ValueErrorKind::Integer(IntegerSerError::NotEnoughBytes)),
            Some((n, c)) => if n > usize::MAX {
                Err(ValueErrorKind::Integer(IntegerSerError::WrongType))
            } else {
                Ok((n, c))
            },
        }
    } else {
        Ok((((b % 16) / 2) as nat, 0))
    }
}

/// A JSON value or time zone read from `s`: a string value, which must be valid JSON for a
/// JSON value (id `7` in the top bits of `b`) and a known zone name for a time zone.
pub open spec fn nested_decoded(b: u8, s: Seq<u8>, h: Option<Node<char>>) -> Option<
    Result<(ValueView, nat), ValueErrorKind>,
>
    decreases s.len(), 1nat, 0nat,
{
    match value_decoded(s, h) {
        None => None,
        Some(Err(e)) => Some(Err(e)),
        Some(Ok((v, c))) => match v {
            ValueView::String(t) => if b / 16 == 7 {
                if json_valid(t) {
                    Some(Ok((ValueView::JSON(canonical_json(t)), c)))
                } else {
                    Some(Err(ValueErrorKind::SerdeJson))
                }
            } else {
                if tz_name_known(t) {
                    Some(Ok((ValueView::Timezone(t), c)))
                } else {
                    Some(Err(ValueErrorKind::Tz))
                }
            },
            _ => Some(Err(ValueErrorKind::UnexpectedValueType(view_ty(v), ValueTy::String))),
        },
    }
}

/// The array that a list decoding result gives, after `c` bytes of length.
pub open spec fn as_array(c: nat, r: Option<Result<(Seq<ValueView>, nat), ValueErrorKind>>) -> Option<
    Result<(ValueView, nat), ValueErrorKind>,
> {
    match r {
        None => None,
        Some(Err(e)) => Some(Err(e)),
        Some(Ok((vs, k))) => Some(Ok((ValueView::Array(vs), c + k))),
    }
}

/// The dictionary that an entry list decoding result gives, after `c` bytes of length.
pub open spec fn as_dict(
    c: nat,
    r: Option<Result<(Seq<(Seq<char>, ValueView)>, nat), ValueErrorKind>>,
) -> Option<Result<(ValueView, nat), ValueErrorKind>> {
    match r {
        None => None,
        Some(Err(e)) => Some(Err(e)),
        Some(Ok((es, k))) => Some(Ok((ValueView::Dict(dict_of(es)), c + k))),
    }
}

/// An array read from `s` after its header byte `b`: its length, then its values.
pub open spec fn array_decoded(b: u8, s: Seq<u8>, h: Option<Node<char>>) -> Option<
    Result<(ValueView, nat), ValueErrorKind>,
>
    decreases s.len(), 3nat, 0nat,
{
    match len_decoded(b, s) {
        Err(e) => Some(Err(e)),
        Ok((n, c)) => as_array(c, values_decoded(skip_bytes(s, c), n, h)),
    }
}

/// A dictionary read from `s` after its header byte `b`: its length, then its keys and
/// values, inserted in order (a later entry with the same key replaces the value of an
/// earlier one).
pub open spec fn dict_decoded(b: u8, s: Seq<u8>, h: Option<Node<char>>) -> Option<
    Result<(ValueView, nat), ValueErrorKind>,
>
    decreases s.len(), 3nat, 0nat,
{
    match len_decoded(b, s) {
        Err(e) => Some(Err(e)),
        Ok((n, c)) => as_dict(c, entries_decoded(skip_bytes(s, c), n, h)),
    }
}

/// What [`Value::deser`] reads from `s` with the huffman tree `h`: the value and the number of
/// bytes it takes up, or the kind of error. `None` where decoding cannot go on.
pub open spec fn value_decoded(s: Seq<u8>, h: Option<Node<char>>) -> Option<
    Result<(ValueView, nat), ValueErrorKind>,
>
    decreases s.len(), 0nat, 0nat,
{
    if s.len() == 0 {
        Some(Err(ValueErrorKind::NotEnoughBytes))
    } else {
        after_header(body_decoded(s[0], s.subrange(1, s.len() as int), h))
    }
}

/// What follows the header byte `b` of a value, read from `s`: see [`value_decoded`].
pub open spec fn body_decoded(b: u8, s: Seq<u8>, h: Option<Node<char>>) -> Option<
    Result<(ValueView, nat), ValueErrorKind>,
>
    decreases s.len(), 4nat, 0nat,
{
    let ty = b / 16;
    if ty == 7 || ty == 12 {
        nested_decoded(b, s, h)
    } else if ty == 11 {
        array_decoded(b, s, h)
    } else if ty == 8 {
        dict_decoded(b, s, h)
    } else {
        leaf_decoded(b, s, h)
    }
}

/// A result read after a header byte, counted with the header byte.
pub open spec fn after_header(r: Option<Result<(ValueView, nat), ValueErrorKind>>) -> Option<
    Result<(ValueView, nat), ValueErrorKind>,
> {
    match r {
        Some(Ok((v, c))) => Some(Ok((v, c + 1))),
        other => other,
    }
}

/// `n` values read one after another from `s`, and the number of bytes they take up.
pub open spec fn values_decoded(s: Seq<u8>, n: nat, h: Option<Node<char>>) -> Option<
    Result<(Seq<ValueView>, nat), ValueErrorKind>,
>
    decreases s.len(), 2nat, n,
{
    if n == 0 {
        Some(Ok((Seq::empty(), 0)))
    } else {
        match value_decoded(s, h) {
            None => None,
            Some(Err(e)) => Some(Err(e)),
            Some(Ok((v, c))) => match values_decoded(skip_bytes(s, c), (n - 1) as nat, h) {
                None => None,
                Some(Err(e)) => Some(Err(e)),
                Some(Ok((vs, k))) => Some(Ok((seq![v] + vs, c + k))),
            },
        }
    }
}

/// One key and value read from `s`, and the number of bytes they take up. The key must be a
/// string.
pub open spec fn entry_decoded(s: Seq<u8>, h: Option<Node<char>>) -> Option<
    Result<((Seq<char>, ValueView), nat), ValueErrorKind>,
>
    decreases s.len(), 1nat, 0nat,
{
    match value_decoded(s, h) {
        None => None,
        Some(Err(e)) => Some(Err(e)),
        Some(Ok((kv, c1))) => match kv {
            ValueView::String(k) => match value_decoded(skip_bytes(s, c1), h) {
                None => None,
                Some(Err(e)) => Some(Err(e)),
                Some(Ok((v, c2))) => Some(Ok(((k, v), c1 + c2))),
            },
            _ => Some(Err(ValueErrorKind::UnexpectedValueType(view_ty(kv), ValueTy::String))),
        },
    }
}

/// `n` key and value pairs read one after another from `s`, in order, and the number of bytes
/// they take up.
pub open spec fn entries_decoded(s: Seq<u8>, n: nat, h: Option<Node<char>>) -> Option<
    Result<(Seq<(Seq<char>, ValueView)>, nat), ValueErrorKind>,
>
    decreases s.len(), 2nat, n,
{
    if n == 0 {
        Some(Ok((Seq::empty(), 0)))
    } else {
        match entry_decoded(s, h) {
            None => None,
            Some(Err(e)) => Some(Err(e)),
            Some(Ok((e, c))) => prepend_entries(
                seq![e],
                c,
                entries_decoded(skip_bytes(s, c), (n - 1) as nat, h),
            ),
        }
    }
}

/// The root of the huffman tree passed in, if any.
pub open spec fn root_of(h: Option<&Huffman<char>>) -> Option<Node<char>> {
    match h {
        Some(x) => Some(x.root()),
        None => None,
    }
}

/// What a deserialising function promises for a decoding result `res`: on success, a value
/// holding what `res` holds and a cursor moved past the bytes read; otherwise an error of the
/// kind that `res` names.
pub open spec fn decoded_as(
    res: Result<(ValueView, nat), ValueErrorKind>,
    r: Result<Value, ValueSerError>,
    head0: int,
    head1: int,
) -> bool {
    match res {
        Ok((v, n)) => r matches Ok(x) && value_view(x) == v && head1 == head0 + n,
        Err(k) => r matches Err(e) && kind_of(e) == k,
    }
}

impl ValueTy {
    /// The four-bit id of this kind.
    pub fn to_u8(self) -> (b: u8)
        ensures
            b == ty_id(self),
    {
        match self {
            ValueTy::Character => 0,
            ValueTy::String => 1,
            ValueTy::Binary => 2,
            ValueTy::Boolean => 3,
            ValueTy::Integer => 4,
            ValueTy::Imaginary => 5,
            ValueTy::Timestamp => 6,
            ValueTy::JSON => 7,
            ValueTy::Dict => 8,
            ValueTy::Null => 9,
            ValueTy::DoubleFloat => 10,
            ValueTy::Array => 11,
            ValueTy::Timezone => 12,
            ValueTy::Ipv4Addr => 13,
            ValueTy::Ipv6Addr => 14,
            ValueTy::SingleFloat => 15,
        }
    }

    /// The kind with an id; [`ValueSerError::InvalidType`] above `15`.
    pub fn try_from_u8(value: u8) -> (r: Result<ValueTy, ValueSerError>)
        ensures
            value < 16 ==> (r matches Ok(t) && t == ty_of_id(value) && ty_id(t) == value),
            value >= 16 ==> (r matches Err(e) && kind_of(e) == ValueErrorKind::InvalidType(value)),
    {
        match value {
            0 => Ok(ValueTy::Character),
            1 => Ok(ValueTy::String),
            2 => Ok(ValueTy::Binary),
            3 => Ok(ValueTy::Boolean),
            4 => Ok(ValueTy::Integer),
            5 => Ok(ValueTy::Imaginary),
            6 => Ok(ValueTy::Timestamp),
            7 => Ok(ValueTy::JSON),
            8 => Ok(ValueTy::Dict),
            9 => Ok(ValueTy::Null),
            10 => Ok(ValueTy::DoubleFloat),
            11 => Ok(ValueTy::Array),
            12 => Ok(ValueTy::Timezone),
            13 => Ok(ValueTy::Ipv4Addr),
            14 => Ok(ValueTy::Ipv6Addr),
            15 => Ok(ValueTy::SingleFloat),
            _ => Err(ValueSerError::InvalidType(value)),
        }
    }
}

/// The bytes of a slice, as a vector.
fn to_vec(b: &[u8]) -> (v: Vec<u8>)
    ensures
        v@ == b@,
{
    let mut v: Vec<u8> = Vec::new();
    let mut i: usize = 0;
    while i < b.len()
        invariant
            i <= b@.len(),
            v@ == b@.take(i as int),
        decreases b.len() - i,
    {
        v.push(b[i]);
        i = i + 1;
        assert(v@ =~= b@.take(i as int));
    }
    assert(b@.take(b@.len() as int) =~= b@);
    v
}

impl Value {
    /// The kind of this value.
    pub fn as_ty(&self) -> (t: ValueTy)
        ensures
            t == view_ty(value_view(*self)),
    {
        match self {
            Value::Character(_) => ValueTy::Character,
            Value::String(_) => ValueTy::String,
            Value::Binary(_) => ValueTy::Binary,
            Value::Boolean(_) => ValueTy::Boolean,
            Value::Integer(_) => ValueTy::Integer,
            Value::Imaginary(_) => ValueTy::Imaginary,
            Value::Timestamp(_) => ValueTy::Timestamp,
            Value::JSON(_) => ValueTy::JSON,
            Value::Dict(_) => ValueTy::Dict,
            Value::Array(_) => ValueTy::Array,
            Value::DoubleFloat(_) => ValueTy::DoubleFloat,
            Value::Null(_) => ValueTy::Null,
            Value::Timezone(_) => ValueTy::Timezone,
            Value::Ipv4Addr(_) => ValueTy::Ipv4Addr,
            Value::Ipv6Addr(_) => ValueTy::Ipv6Addr,
            Value::SingleFloat(_) => ValueTy::SingleFloat,
        }
    }

    fn deser_char(bytes: &mut Cursor<u8>) -> (r: Result<Self, ValueSerError>)
        requires
            old(bytes).wf(),
        ensures
            final(bytes).wf(),
            final(bytes).items() == old(bytes).items(),
            decoded_as(char_decoded(old(bytes).rest()), r, old(bytes).head(), final(bytes).head()),
    {
        let i = match Integer::deser(SignedState::Positive, bytes) {
            Ok(i) => i,
            Err(e) => return Err(ValueSerError::IntegerSerError(e)),
        };
        let code = match i.try_into_u32() {
            Ok(c) => c,
            Err(e) => return Err(ValueSerError::IntegerSerError(e)),
        };
        match char_from_u32(code) {
            Some(ch) => Ok(Value::Character(ch)),
            None => Err(ValueSerError::InvalidCharacter),
        }
    }

    fn deser_string(byte: u8, bytes: &mut Cursor<u8>, huffman: Option<&Huffman<char>>) -> (r: Result<
        Self,
        ValueSerError,
    >)
        requires
            old(bytes).wf(),
            huffman matches Some(h) ==> h.wf(),
            string_decoded(byte, old(bytes).rest(), root_of(huffman)) is Some,
        ensures
            final(bytes).wf(),
            final(bytes).items() == old(bytes).items(),
            decoded_as(
                string_decoded(byte, old(bytes).rest(), root_of(huffman)).unwrap(),
                r,
                old(bytes).head(),
                final(bytes).head(),
            ),
    {
        let ghost s = old(bytes).rest();
        let ghost h0 = old(bytes).head();
        let flag = byte & 0b1;
        assert(flag == byte % 2) by (bit_vector)
            requires
                flag == byte & 0b1,
        ;
        if flag > 0 {
            let h = match huffman {
                Some(h) => h,
                None => return Err(ValueSerError::NoHuffman),
            };
            let bits = match Bits::deser(bytes) {
                Ok(b) => b,
                Err(e) => return Err(ValueSerError::IntegerSerError(e)),
            };
            match h.decode_string(bits) {
                Some(decoded) => Ok(Value::String(decoded)),
                None => Err(ValueSerError::UnableToDecodeHuffman),
            }
        } else {
            let i = match Integer::deser(SignedState::Positive, bytes) {
                Ok(i) => i,
                Err(e) => return Err(ValueSerError::IntegerSerError(e)),
            };
            let len = match i.try_into_usize() {
                Ok(l) => l,
                Err(e) => return Err(ValueSerError::IntegerSerError(e)),
            };
            let ghost c = (bytes.head() - h0) as nat;
            let str_bytes = match bytes.read(len) {
                Some(b) => b,
                None => return Err(ValueSerError::NotEnoughBytes),
            };
            assert(str_bytes@ =~= s.subrange(c as int, c + len));
            match string_from_utf8(to_vec(str_bytes)) {
                Some(st) => Ok(Value::String(st)),
                None => Err(ValueSerError::NonUTF8String),
            }
        }
    }

    fn deser_binary(byte: u8, bytes: &mut Cursor<u8>) -> (r: Result<Self, ValueSerError>)
        requires
            old(bytes).wf(),
            binary_value_decoded(byte, old(bytes).rest()) is Some,
        ensures
            final(bytes).wf(),
            final(bytes).items() == old(bytes).items(),
            decoded_as(
                binary_value_decoded(byte, old(bytes).rest()).unwrap(),
                r,
                old(bytes).head(),
                final(bytes).head(),
            ),
    {
        let code = byte & 0b1111;
        assert(code == byte % 16) by (bit_vector)
            requires
                code == byte & 0b1111,
        ;
        let ct = match BinaryCompression::try_from_u8(code) {
            Ok(c) => c,
            Err(e) => return Err(ValueSerError::BinarySerError(e)),
        };
        assert(ct == compression_of(code));
        match BinaryData::deser(ct, bytes) {
            Ok(b) => Ok(Value::Binary(b)),
            Err(e) => Err(ValueSerError::BinarySerError(e)),
        }
    }

    fn deser_integer(byte: u8, bytes: &mut Cursor<u8>) -> (r: Result<Self, ValueSerError>)
        requires
            old(bytes).wf(),
        ensures
            final(bytes).wf(),
            final(bytes).items() == old(bytes).items(),
            decoded_as(integer_decoded(byte, old(bytes).rest()), r, old(bytes).head(), final(bytes).head()),
    {
        let code = byte & 0b11;
        assert(code == byte % 4) by (bit_vector)
            requires
                code == byte & 0b11,
        ;
        let ss = match SignedState::try_from_u8(code) {
            Ok(ss) => ss,
            Err(e) => return Err(ValueSerError::IntegerSerError(e)),
        };
        match Integer::deser(ss, bytes) {
            Ok(i) => Ok(Value::Integer(i)),
            Err(e) => Err(ValueSerError::IntegerSerError(e)),
        }
    }

    fn deser_imaginary(byte: u8, bytes: &mut Cursor<u8>) -> (r: Result<Self, ValueSerError>)
        requires
            old(bytes).wf(),
        ensures
            final(bytes).wf(),
            final(bytes).items() == old(bytes).items(),
            decoded_as(
                match imaginary_decoded(byte % 16, old(bytes).rest()) {
                    Ok((v, c)) => Ok((ValueView::Imaginary(v), c)),
                    Err(e) => Err(ValueErrorKind::Integer(e)),
                },
                r,
                old(bytes).head(),
                final(bytes).head(),
            ),
    {
        let magic = byte & 0b1111;
        assert(magic == byte % 16) by (bit_vector)
            requires
                magic == byte & 0b1111,
        ;
        match Imaginary::deser(magic, bytes) {
            Ok(i) => Ok(Value::Imaginary(i)),
            Err(e) => Err(ValueSerError::IntegerSerError(e)),
        }
    }

    fn deser_timestamp(byte: u8, bytes: &mut Cursor<u8>) -> (r: Result<Self, ValueSerError>)
        requires
            old(bytes).wf(),
        ensures
            final(bytes).wf(),
            final(bytes).items() == old(bytes).items(),
            decoded_as(timestamp_decoded(byte, old(bytes).rest()), r, old(bytes).head(), final(bytes).head()),
    {
        proof {
            reveal(timestamp_decoded);
        }
        let code = byte & 0b1;
        assert(code == byte % 2) by (bit_vector)
            requires
                code == byte & 0b1,
        ;
        let ss = match SignedState::try_from_u8(code) {
            Ok(ss) => ss,
            Err(e) => return Err(ValueSerError::IntegerSerError(e)),
        };
        match Timestamp::deser(ss, bytes) {
            Ok(t) => Ok(Value::Timestamp(t)),
            Err(TSError::IntegerSerError(e)) => Err(ValueSerError::IntegerSerError(e)),
            Err(TSError::InvalidDateOrTime) => Err(ValueSerError::InvalidDateOrTime),
        }
    }

    fn deser_fixed(byte: u8, bytes: &mut Cursor<u8>) -> (r: Result<Self, ValueSerError>)
        requires
            old(bytes).wf(),
            byte / 16 == 3 || byte / 16 == 9 || byte / 16 == 10 || byte / 16 == 13 || byte / 16 == 14
                || byte / 16 == 15,
        ensures
            final(bytes).wf(),
            final(bytes).items() == old(bytes).items(),
            decoded_as(fixed_decoded(byte, old(bytes).rest()), r, old(bytes).head(), final(bytes).head()),
    {
        let ghost s = old(bytes).rest();
        let ty = byte >> 4;
        assert(ty == byte / 16) by (bit_vector)
            requires
                ty == byte >> 4,
        ;
        proof {
            lemma_pow256_16();
        }
        if ty == 3 {
            let flag = byte & 0b1;
            assert(flag == byte % 2) by (bit_vector)
                requires
                    flag == byte & 0b1,
            ;
            Ok(Value::Boolean(flag > 0))
        } else if ty == 9 {
            Ok(Value::Null(()))
        } else if ty == 15 {
            match bytes.read(4) {
                Some(b) => {
                    assert(b@ =~= s.take(4));
                    Ok(Value::SingleFloat(le_value_of(b) as u32))
                },
                None => Err(ValueSerError::NotEnoughBytes),
            }
        } else if ty == 10 {
            match bytes.read(8) {
                Some(b) => {
                    assert(b@ =~= s.take(8));
                    Ok(Value::DoubleFloat(le_value_of(b)))
                },
                None => Err(ValueSerError::NotEnoughBytes),
            }
        } else if ty == 13 {
            match bytes.read(4) {
                Some(b) => {
                    let a: [u8; 4] = [b[0], b[1], b[2], b[3]];
                    assert(a@ =~= s.take(4));
                    Ok(Value::Ipv4Addr(a))
                },
                None => Err(ValueSerError::NotEnoughBytes),
            }
        } else {
            match bytes.read(16) {
                Some(b) => {
                    let a: [u16; 8] = [
                        b[0] as u16 + 256 * (b[1] as u16),
                        b[2] as u16 + 256 * (b[3] as u16),
                        b[4] as u16 + 256 * (b[5] as u16),
                        b[6] as u16 + 256 * (b[7] as u16),
                        b[8] as u16 + 256 * (b[9] as u16),
                        b[10] as u16 + 256 * (b[11] as u16),
                        b[12] as u16 + 256 * (b[13] as u16),
                        b[14] as u16 + 256 * (b[15] as u16),
                    ];
                    assert(b@ =~= s.take(16));
                    assert(a@ =~= segments(s));
                    Ok(Value::Ipv6Addr(a))
                },
                None => Err(ValueSerError::NotEnoughBytes),
            }
        }
    }
}

/// `vs` and `c` put in front of a list decoding result.
pub open spec fn prepend_values(
    vs: Seq<ValueView>,
    c: nat,
    r: Option<Result<(Seq<ValueView>, nat), ValueErrorKind>>,
) -> Option<Result<(Seq<ValueView>, nat), ValueErrorKind>> {
    match r {
        Some(Ok((ws, k))) => Some(Ok((vs + ws, c + k))),
        other => other,
    }
}

/// `es` and `c` put in front of an entry list decoding result.
pub open spec fn prepend_entries(
    es: Seq<(Seq<char>, ValueView)>,
    c: nat,
    r: Option<Result<(Seq<(Seq<char>, ValueView)>, nat), ValueErrorKind>>,
) -> Option<Result<(Seq<(Seq<char>, ValueView)>, nat), ValueErrorKind>> {
    match r {
        Some(Ok((fs, k))) => Some(Ok((es + fs, c + k))),
        other => other,
    }
}

/// [`values_view`] maps each value to its view.
pub proof fn lemma_values_view(s: Seq<Value>)
    ensures
        values_view(s).len() == s.len(),
        forall|i: int|
            #![trigger values_view(s)[i]]
            #![trigger s[i]]
            0 <= i < s.len() ==> values_view(s)[i] == value_view(s[i]),
    decreases s.len(),
{
    if s.len() > 0 {
        lemma_values_view(s.drop_last());
        assert forall|i: int| 0 <= i < s.len() implies values_view(s)[i] == value_view(
            #[trigger] s[i],
        ) by {
            if i < s.len() - 1 {
                assert(s.drop_last()[i] == s[i]);
            }
        }
    }
}

/// [`entries_view`] maps each entry to its key's characters and its value's view.
pub proof fn lemma_entries_view(s: Seq<(String, Value)>)
    ensures
        entries_view(s).len() == s.len(),
        forall|i: int|
            #![trigger entries_view(s)[i]]
            #![trigger s[i]]
            0 <= i < s.len() ==> entries_view(s)[i] == (s[i].0@, value_view(s[i].1)),
    decreases s.len(),
{
    if s.len() > 0 {
        lemma_entries_view(s.drop_last());
        assert forall|i: int| 0 <= i < s.len() implies entries_view(s)[i] == (
            (#[trigger] s[i]).0@,
            value_view(s[i].1),
        ) by {
            if i < s.len() - 1 {
                assert(s.drop_last()[i] == s[i]);
            }
        }
    }
}

/// Where a search from the front finds key `k` first, or that it finds none.
pub proof fn lemma_key_position(es: Seq<(Seq<char>, ValueView)>, k: Seq<char>, j: nat)
    requires
        j <= es.len(),
        forall|m: int| 0 <= m < j ==> es[m].0 != k,
    ensures
        j < es.len() && es[j as int].0 == k ==> key_position(es, k) == Some(j),
        j == es.len() ==> key_position(es, k) is None,
    decreases es.len(),
{
    if es.len() > 0 && j > 0 {
        assert(es[0].0 != k);
        assert forall|m: int| 0 <= m < j - 1 implies es.drop_first()[m].0 != k by {
            assert(es.drop_first()[m] == es[m + 1]);
        }
        lemma_key_position(es.drop_first(), k, (j - 1) as nat);
        if j < es.len() {
            assert(es.drop_first()[j - 1] == es[j as int]);
        }
    }
}

/// Inserts `value` under `key`: see [`insert_entry`].
pub(crate) fn dict_insert(d: &mut Vec<(String, Value)>, key: String, value: Value)
    ensures
        entries_view(final(d)@) == insert_entry(entries_view(old(d)@), key@, value_view(value)),
{
    let ghost old_d = d@;
    proof {
        lemma_entries_view(old_d);
    }
    let mut j: usize = 0;
    while j < d.len()
        invariant
            j <= d@.len(),
            d@ == old_d,
            old_d == old(d)@,
            entries_view(old_d).len() == old_d.len(),
            forall|i: int| 0 <= i < old_d.len() ==> entries_view(old_d)[i] == (
                (#[trigger] old_d[i]).0@,
                value_view(old_d[i].1),
            ),
            forall|m: int| 0 <= m < j ==> entries_view(old_d)[m].0 != key@,
        decreases d.len() - j,
    {
        if d[j].0 == key {
            proof {
                assert(old_d[j as int].0@ == key@);
                assert(entries_view(old_d)[j as int].0 == key@);
                lemma_key_position(entries_view(old_d), key@, j as nat);
            }
            d.set(j, (key, value));
            proof {
                lemma_entries_view(d@);
                assert forall|i: int| 0 <= i < old_d.len() && i != j implies #[trigger] d@[i]
                    == old_d[i] by {}
                assert forall|i: int| 0 <= i < old_d.len() && i != j implies entries_view(d@)[i]
                    == entries_view(old_d)[i] by {
                    assert(d@[i] == old_d[i]);
                }
                assert(entries_view(d@) =~= entries_view(old_d).update(
                    j as int,
                    (key@, value_view(value)),
                ));
            }
            return;
        }
        j = j + 1;
    }
    proof {
        lemma_key_position(entries_view(old_d), key@, j as nat);
    }
    d.push((key, value));
    assert(d@.drop_last() =~= old_d);
}

impl Value {
    /// The length of an array or dictionary whose header byte is `byte`: see [`len_decoded`].
    /// The top four bits of `byte` must name `expected_type`.
    ///
    /// # Errors
    /// - [`ValueSerError::UnexpectedValueType`] if `byte` names another kind;
    /// - [`ValueSerError::IntegerSerError`] if the length cannot be read or does not fit a
    ///   `usize`.
    pub fn deser_array_or_map_len(byte: u8, input: &mut Cursor<u8>, expected_type: ValueTy) -> (r: Result<
        usize,
        ValueSerError,
    >)
        requires
            old(input).wf(),
        ensures
            final(input).wf(),
            final(input).items() == old(input).items(),
            ty_of_id(byte / 16) != expected_type ==> (r matches Err(e) && kind_of(e)
                == ValueErrorKind::UnexpectedValueType(ty_of_id(byte / 16), expected_type)),
            ty_of_id(byte / 16) == expected_type ==> match len_decoded(byte, old(input).rest()) {
                Ok((n, c)) => r == Ok::<usize, ValueSerError>(n as usize) && final(input).head()
                    == old(input).head() + c,
                Err(k) => r matches Err(e) && kind_of(e) == k,
            },
    {
        let ty_bits = (byte & 0b1111_0000) >> 4;
        assert(ty_bits == byte / 16) by (bit_vector)
            requires
                ty_bits == (byte & 0b1111_0000) >> 4,
        ;
        let ty = match ValueTy::try_from_u8(ty_bits) {
            Ok(t) => t,
            Err(e) => return Err(e),
        };
        if ty == expected_type {
            let flag = byte & 0b0000_0001;
            let short = (byte & 0b0000_1110) >> 1;
            assert(flag == byte % 2 && short == (byte % 16) / 2) by (bit_vector)
                requires
                    flag == byte & 0b0000_0001,
                    short == (byte & 0b0000_1110) >> 1,
            ;
            if flag > 0 {
                let i = match Integer::deser(SignedState::Positive, input) {
                    Ok(i) => i,
                    Err(e) => return Err(ValueSerError::IntegerSerError(e)),
                };
                match i.try_into_usize() {
                    Ok(n) => Ok(n),
                    Err(e) => Err(ValueSerError::IntegerSerError(e)),
                }
            } else {
                Ok(short as usize)
            }
        } else {
            Err(ValueSerError::UnexpectedValueType { found: ty, expected: expected_type })
        }
    }

    /// Deserialises a value from the cursor, decoding huffman-coded strings with `huffman`:
    /// see [`value_decoded`] for what comes back and how far the cursor moves.
    ///
    /// Bytes on which decoding cannot go on (see [`value_decoded`]) are left out.
    ///
    /// # Errors
    /// - [`ValueSerError::NotEnoughBytes`] if the bytes run out;
    /// - [`ValueSerError::IntegerSerError`] if an integer, or a number or time made of them,
    ///   cannot be read or does not fit;
    /// - [`ValueSerError::InvalidCharacter`], [`ValueSerError::NonUTF8String`],
    ///   [`ValueSerError::SerdeJson`], [`ValueSerError::TzError`] and
    ///   [`ValueSerError::InvalidDateOrTime`] for contents that are not what their kind allows;
    /// - [`ValueSerError::NoHuffman`] for a huffman-coded string without a coder;
    /// - [`ValueSerError::BinarySerError`] if a blob cannot be read;
    /// - [`ValueSerError::UnexpectedValueType`] where a string was needed and another kind was
    ///   found.
    pub fn deser(bytes: &mut Cursor<u8>, huffman: Option<&Huffman<char>>) -> (r: Result<
        Self,
        ValueSerError,
    >)
        requires
            old(bytes).wf(),
            huffman matches Some(h) ==> h.wf(),
            value_decoded(old(bytes).rest(), root_of(huffman)) is Some,
        ensures
            final(bytes).wf(),
            final(bytes).items() == old(bytes).items(),
            decoded_as(
                value_decoded(old(bytes).rest(), root_of(huffman)).unwrap(),
                r,
                old(bytes).head(),
                final(bytes).head(),
            ),
        decreases old(bytes).rest().len(), 0nat,
    {
        let ghost s = old(bytes).rest();
        proof {
            reveal(leaf_decoded);
        }
        let byte = match bytes.next() {
            Some(b) => *b,
            None => return Err(ValueSerError::NotEnoughBytes),
        };
        assert(byte == s[0]);
        assert(bytes.rest() =~= s.subrange(1, s.len() as int));
        let ty_bits = (byte & 0b1111_0000) >> 4;
        assert(ty_bits == byte / 16) by (bit_vector)
            requires
                ty_bits == (byte & 0b1111_0000) >> 4,
        ;
        let ty = match ValueTy::try_from_u8(ty_bits) {
            Ok(t) => t,
            Err(e) => return Err(e),
        };
        match ty {
            ValueTy::JSON | ValueTy::Timezone => Self::deser_nested(byte, bytes, huffman),
            ValueTy::Array => Self::deser_array(byte, bytes, huffman),
            ValueTy::Dict => Self::deser_dict(byte, bytes, huffman),
            ValueTy::Character => Self::deser_char(bytes),
            ValueTy::String => Self::deser_string(byte, bytes, huffman),
            ValueTy::Binary => Self::deser_binary(byte, bytes),
            ValueTy::Integer => Self::deser_integer(byte, bytes),
            ValueTy::Imaginary => Self::deser_imaginary(byte, bytes),
            ValueTy::Timestamp => Self::deser_timestamp(byte, bytes),
            _ => Self::deser_fixed(byte, bytes),
        }
    }

    fn deser_nested(byte: u8, bytes: &mut Cursor<u8>, huffman: Option<&Huffman<char>>) -> (r: Result<
        Self,
        ValueSerError,
    >)
        requires
            old(bytes).wf(),
            huffman matches Some(h) ==> h.wf(),
            byte / 16 == 7 || byte / 16 == 12,
            nested_decoded(byte, old(bytes).rest(), root_of(huffman)) is Some,
        ensures
            final(bytes).wf(),
            final(bytes).items() == old(bytes).items(),
            decoded_as(
                nested_decoded(byte, old(bytes).rest(), root_of(huffman)).unwrap(),
                r,
                old(bytes).head(),
                final(bytes).head(),
            ),
        decreases old(bytes).rest().len(), 1nat,
    {
        let val = match Value::deser(bytes, huffman) {
            Ok(v) => v,
            Err(e) => return Err(e),
        };
        let ty_bits = byte >> 4;
        assert(ty_bits == byte / 16) by (bit_vector)
            requires
                ty_bits == byte >> 4,
        ;
        match val {
            Value::String(st) => {
                if ty_bits == 7 {
                    match json_canonical(st.as_str()) {
                        Ok(c) => Ok(Value::JSON(c)),
                        Err(e) => Err(ValueSerError::SerdeJson(e)),
                    }
                } else {
                    match tz_check(st.as_str()) {
                        Ok(()) => Ok(Value::Timezone(st)),
                        Err(e) => Err(ValueSerError::TzError(e)),
                    }
                }
            },
            other => {
                let found = other.as_ty();
                Err(ValueSerError::UnexpectedValueType { found, expected: ValueTy::String })
            },
        }
    }

    #[verifier::rlimit(50)]
    fn deser_array(byte: u8, bytes: &mut Cursor<u8>, huffman: Option<&Huffman<char>>) -> (r: Result<
        Self,
        ValueSerError,
    >)
        requires
            old(bytes).wf(),
            huffman matches Some(h) ==> h.wf(),
            byte / 16 == 11,
            array_decoded(byte, old(bytes).rest(), root_of(huffman)) is Some,
        ensures
            final(bytes).wf(),
            final(bytes).items() == old(bytes).items(),
            decoded_as(
                array_decoded(byte, old(bytes).rest(), root_of(huffman)).unwrap(),
                r,
                old(bytes).head(),
                final(bytes).head(),
            ),
        decreases old(bytes).rest().len(), 2nat,
    {
        let ghost s = old(bytes).rest();
        let ghost h0 = old(bytes).head();
        let ghost items = old(bytes).items();
        let ghost hv = root_of(huffman);
        let len = match Self::deser_array_or_map_len(byte, bytes, ValueTy::Array) {
            Ok(l) => l,
            Err(e) => return Err(e),
        };
        let ghost c = (bytes.head() - h0) as nat;
        let ghost t0 = bytes.rest();
        assert(t0 =~= skip_bytes(s, c));
        let ghost whole = values_decoded(t0, len as nat, hv);
        assert(array_decoded(byte, s, hv) == as_array(c, whole));
        let mut out: Vec<Value> = Vec::new();
        let mut i: usize = 0;
        while i < len
            invariant
                bytes.wf(),
                bytes.items() == items,
                huffman matches Some(h) ==> h.wf(),
                hv == root_of(huffman),
                i <= len,
                whole is Some,
                h0 + c <= bytes.head(),
                old(bytes).rest().len() == s.len(),
                s == items.subrange(h0, items.len() as int),
                items == old(bytes).items(),
                0 <= h0 <= items.len(),
                array_decoded(byte, s, hv) == as_array(c, whole),
                s == old(bytes).rest(),
                h0 == old(bytes).head(),
                whole == prepend_values(
                    values_view(out@),
                    (bytes.head() - h0 - c) as nat,
                    values_decoded(bytes.rest(), (len - i) as nat, hv),
                ),
            decreases len - i,
        {
            let ghost t = bytes.rest();
            let ghost hi = bytes.head();
            let ghost prev = out@;
            let ghost m = (len - i) as nat;
            proof {
                lemma_values_some(t, m, hv);
            }
            let x = match Value::deser(bytes, huffman) {
                Ok(x) => x,
                Err(e) => {
                    proof {
                        lemma_values_err(t, m, hv);
                    }
                    return Err(e);
                },
            };
            let ghost k = (bytes.head() - hi) as nat;
            assert(bytes.rest() =~= skip_bytes(t, k));
            proof {
                lemma_values_step(t, m, hv, values_view(prev), (hi - h0 - c) as nat);
            }
            out.push(x);
            assert(out@.drop_last() =~= prev);
            i = i + 1;
        }
        Ok(Value::Array(out))
    }
}

impl Value {
    #[verifier::rlimit(100)]
    #[verifier::spinoff_prover]
    fn deser_dict(byte: u8, bytes: &mut Cursor<u8>, huffman: Option<&Huffman<char>>) -> (r: Result<
        Self,
        ValueSerError,
    >)
        requires
            old(bytes).wf(),
            huffman matches Some(h) ==> h.wf(),
            byte / 16 == 8,
            dict_decoded(byte, old(bytes).rest(), root_of(huffman)) is Some,
        ensures
            final(bytes).wf(),
            final(bytes).items() == old(bytes).items(),
            decoded_as(
                dict_decoded(byte, old(bytes).rest(), root_of(huffman)).unwrap(),
                r,
                old(bytes).head(),
                final(bytes).head(),
            ),
        decreases old(bytes).rest().len(), 2nat,
    {
        let ghost s = old(bytes).rest();
        let ghost h0 = old(bytes).head();
        let ghost items = old(bytes).items();
        let ghost hv = root_of(huffman);
        let len = match Self::deser_array_or_map_len(byte, bytes, ValueTy::Dict) {
            Ok(l) => l,
            Err(e) => return Err(e),
        };
        let ghost c = (bytes.head() - h0) as nat;
        let ghost t0 = bytes.rest();
        assert(t0 =~= skip_bytes(s, c));
        let ghost whole = entries_decoded(t0, len as nat, hv);
        assert(dict_decoded(byte, s, hv) == as_dict(c, whole));
        let mut d: Vec<(String, Value)> = Vec::new();
        let ghost mut raw: Seq<(Seq<char>, ValueView)> = Seq::empty();
        let mut i: usize = 0;
        while i < len
            invariant
                bytes.wf(),
                bytes.items() == items,
                huffman matches Some(h) ==> h.wf(),
                hv == root_of(huffman),
                i <= len,
                whole is Some,
                h0 + c <= bytes.head(),
                old(bytes).rest().len() == s.len(),
                s == items.subrange(h0, items.len() as int),
                items == old(bytes).items(),
                0 <= h0 <= items.len(),
                entries_view(d@) == dict_of(raw),
                dict_decoded(byte, s, hv) == as_dict(c, whole),
                s == old(bytes).rest(),
                h0 == old(bytes).head(),
                whole == prepend_entries(
                    raw,
                    (bytes.head() - h0 - c) as nat,
                    entries_decoded(bytes.rest(), (len - i) as nat, hv),
                ),
            decreases len - i,
        {
            let ghost t = bytes.rest();
            let ghost hi = bytes.head();
            let ghost m = (len - i) as nat;
            proof {
                lemma_entries_some(t, m, hv);
            }
            let (key, value) = match Self::deser_entry(bytes, huffman) {
                Ok(kv) => kv,
                Err(e) => {
                    proof {
                        lemma_entries_err(t, m, hv);
                    }
                    return Err(e);
                },
            };
            let ghost k = (bytes.head() - hi) as nat;
            assert(bytes.rest() =~= skip_bytes(t, k));
            proof {
                lemma_entries_step(t, m, hv, raw, (hi - h0 - c) as nat);
                let prev_raw = raw;
                raw = raw.push((key@, value_view(value)));
                assert(raw.drop_last() =~= prev_raw);
            }
            dict_insert(&mut d, key, value);
            i = i + 1;
        }
        Ok(Value::Dict(d))
    }
}

impl Value {
    fn deser_entry(bytes: &mut Cursor<u8>, huffman: Option<&Huffman<char>>) -> (r: Result<
        (String, Value),
        ValueSerError,
    >)
        requires
            old(bytes).wf(),
            huffman matches Some(h) ==> h.wf(),
            entry_decoded(old(bytes).rest(), root_of(huffman)) is Some,
        ensures
            final(bytes).wf(),
            final(bytes).items() == old(bytes).items(),
            match entry_decoded(old(bytes).rest(), root_of(huffman)).unwrap() {
                Ok(((k, v), n)) => r matches Ok((ks, vs)) && ks@ == k && value_view(vs) == v
                    && final(bytes).head() == old(bytes).head() + n,
                Err(kind) => r matches Err(e) && kind_of(e) == kind,
            },
        decreases old(bytes).rest().len(), 1nat,
    {
        let ghost t = old(bytes).rest();
        let ghost hi = old(bytes).head();
        let key = match Value::deser(bytes, huffman) {
            Ok(x) => x,
            Err(e) => return Err(e),
        };
        let ghost c1 = (bytes.head() - hi) as nat;
        assert(bytes.rest() =~= skip_bytes(t, c1));
        let key = match key {
            Value::String(k) => k,
            other => {
                let found = other.as_ty();
                return Err(ValueSerError::UnexpectedValueType { found, expected: ValueTy::String });
            },
        };
        let value = match Value::deser(bytes, huffman) {
            Ok(x) => x,
            Err(e) => return Err(e),
        };
        Ok((key, value))
    }
}

/// A list decoding that can go on starts with a value decoding that can.
pub proof fn lemma_values_some(t: Seq<u8>, m: nat, h: Option<Node<char>>)
    requires
        m > 0,
        values_decoded(t, m, h) is Some,
    ensures
        value_decoded(t, h) is Some,
{
}

/// A list decoding whose first value fails fails the same way.
pub proof fn lemma_values_err(t: Seq<u8>, m: nat, h: Option<Node<char>>)
    requires
        m > 0,
        value_decoded(t, h) matches Some(Err(_)),
    ensures
        values_decoded(t, m, h) == Some(
            Err::<(Seq<ValueView>, nat), ValueErrorKind>(value_decoded(t, h).unwrap()->Err_0),
        ),
{
}

/// Moving the first value of a list decoding to the part already read.
pub proof fn lemma_values_step(
    t: Seq<u8>,
    m: nat,
    h: Option<Node<char>>,
    prev: Seq<ValueView>,
    a: nat,
)
    requires
        m > 0,
        value_decoded(t, h) matches Some(Ok(_)),
    ensures
        ({
            let (v, k) = value_decoded(t, h).unwrap()->Ok_0;
            prepend_values(prev, a, values_decoded(t, m, h)) == prepend_values(
                prev.push(v),
                a + k,
                values_decoded(skip_bytes(t, k), (m - 1) as nat, h),
            )
        }),
{
    let (v, k) = value_decoded(t, h).unwrap()->Ok_0;
    let tail = values_decoded(skip_bytes(t, k), (m - 1) as nat, h);
    match tail {
        Some(Ok((ws, kk))) => {
            assert(prev + (seq![v] + ws) =~= prev.push(v) + ws);
        },
        _ => {},
    }
}

/// An entry list decoding that can go on starts with an entry decoding that can.
pub proof fn lemma_entries_some(t: Seq<u8>, m: nat, h: Option<Node<char>>)
    requires
        m > 0,
        entries_decoded(t, m, h) is Some,
    ensures
        entry_decoded(t, h) is Some,
{
}

/// An entry list decoding whose first entry fails fails the same way.
pub proof fn lemma_entries_err(t: Seq<u8>, m: nat, h: Option<Node<char>>)
    requires
        m > 0,
        entry_decoded(t, h) matches Some(Err(_)),
    ensures
        entries_decoded(t, m, h) == Some(
            Err::<(Seq<(Seq<char>, ValueView)>, nat), ValueErrorKind>(
                entry_decoded(t, h).unwrap()->Err_0,
            ),
        ),
{
}

/// Moving the first entry of an entry list decoding to the part already read.
pub proof fn lemma_entries_step(
    t: Seq<u8>,
    m: nat,
    h: Option<Node<char>>,
    prev: Seq<(Seq<char>, ValueView)>,
    a: nat,
)
    requires
        m > 0,
        entry_decoded(t, h) matches Some(Ok(_)),
    ensures
        ({
            let (e, k) = entry_decoded(t, h).unwrap()->Ok_0;
            prepend_entries(prev, a, entries_decoded(t, m, h)) == prepend_entries(
                prev.push(e),
                a + k,
                entries_decoded(skip_bytes(t, k), (m - 1) as nat, h),
            )
        }),
{
    let (e, k) = entry_decoded(t, h).unwrap()->Ok_0;
    let tail = entries_decoded(skip_bytes(t, k), (m - 1) as nat, h);
    match tail {
        Some(Ok((fs, kk))) => {
            assert(prev + (seq![e] + fs) =~= prev.push(e) + fs);
        },
        _ => {},
    }
}

/// The byte of a signed state: `0` for positive, `1` for negative.
pub open spec fn ss_code(ss: SignedState) -> u8 {
    if ss == SignedState::Negative {
        1
    } else {
        0
    }
}

/// The header of an array (`ty` = 11) or dictionary (`ty` = 8) of length `n`: a length below
/// seven sits in bits one to three of the header byte; a longer one follows it as an
/// [`Integer`], and the low bit of the header byte is set.
pub open spec fn len_header(ty: u8, n: nat) -> Seq<u8> {
    if n < 7 {
        seq![(ty * 16 + n * 2) as u8]
    } else {
        seq![(ty * 16 + 1) as u8] + encoding(SignedState::Positive, n).1
    }
}

/// The bytes of a string value: huffman-coded bits when `h` can code every character of `s`
/// (with the low bit of the header byte set), else the UTF-8 length and bytes.
pub open spec fn string_encodes(s: Seq<char>, h: Option<Node<char>>, out: Seq<u8>) -> bool {
    let coded = match h {
        Some(root) => encode_path(root, s),
        None => None,
    };
    match coded {
        Some(bits) => exists|b: Bits|
            #![trigger b.bytes()]
            b.wf() && b@ == bits && out == seq![0x11u8] + encoding(
                SignedState::Positive,
                bits.len(),
            ).1 + b.bytes(),
        None => encode_utf8(s).len() <= usize::MAX && out == seq![0x10u8] + encoding(
            SignedState::Positive,
            encode_utf8(s).len(),
        ).1 + encode_utf8(s),
    }
}

/// The bytes of a blob value: the header byte with the compression, then whichever
/// compression of the blob is smallest (see [`BinaryData::ser`]).
pub open spec fn binary_encodes(d: Seq<u8>, out: Seq<u8>) -> bool {
    &&& exists|hh: Seq<u8>|
        #[trigger] huffman_output(d, hh) && ({
            let (ct, bytes) = smallest(vanilla(d), rle_encoded(d), lz_encoded(d), hh);
            out == seq![(0x20 + compression_byte(ct)) as u8] + bytes
        })
    &&& d.len() > 0 ==> lz4_decompressed(lz4_compressed(d), d.len()) == Some(d)
    &&& d.len() > 0 ==> lz4_compressed(d).len() <= usize::MAX
}

/// The sixteen bytes of eight segments, each little-endian.
pub open spec fn segment_bytes(a: Seq<u16>) -> Seq<u8> {
    Seq::new(
        16,
        |i: int|
            if i % 2 == 0 {
                (a[i / 2] % 256) as u8
            } else {
                (a[i / 2] / 256) as u8
            },
    )
}

/// Whether `out` is what [`Value::ser`] may give for `v` with the huffman tree `h`. Only a
/// blob leaves a choice: which huffman tree compresses it.
pub open spec fn encodes(v: Value, h: Option<Node<char>>, out: Seq<u8>) -> bool
    decreases v,
{
    match v {
        Value::Character(c) => out == seq![0x00u8] + encoding(
            SignedState::Positive,
            (c as u32) as nat,
        ).1,
        Value::String(s) => string_encodes(s@, h, out),
        Value::Binary(b) => binary_encodes(b.0@, out),
        Value::Boolean(x) => out == seq![
            if x {
                0x31u8
            } else {
                0x30u8
            },
        ],
        Value::Integer(i) => {
            let (ss, bytes) = encoding(i.sign(), i.magnitude());
            out == seq![(0x40 + ss_code(ss)) as u8] + bytes
        },
        Value::Imaginary(i) => {
            let (m, bytes) = imaginary_encoded(i);
            out == seq![(0x50 + m) as u8] + bytes
        },
        Value::Timestamp(t) => out == seq![(0x60 + ss_code(int_encoding(t.year()).0)) as u8]
            + t.encoded(),
        Value::JSON(s) => out.len() > 0 && out[0] == 0x70 && string_encodes(s@, h, out.drop_first()),
        Value::Null(_) => out == seq![0x90u8],
        Value::SingleFloat(x) => out == seq![0xF0u8] + le_bytes(x as nat, 4),
        Value::DoubleFloat(x) => out == seq![0xA0u8] + le_bytes(x as nat, 8),
        Value::Array(a) => {
            let hd = len_header(11, a@.len());
            out.len() >= hd.len() && out.take(hd.len() as int) == hd && seq_encodes(
                a@,
                h,
                out.skip(hd.len() as int),
            )
        },
        Value::Dict(d) => {
            let hd = len_header(8, d@.len());
            out.len() >= hd.len() && out.take(hd.len() as int) == hd && entries_encodes(
                d@,
                h,
                out.skip(hd.len() as int),
            )
        },
        Value::Timezone(s) => out.len() > 0 && out[0] == 0xC0 && string_encodes(
            s@,
            h,
            out.drop_first(),
        ),
        Value::Ipv4Addr(a) => out == seq![0xD0u8] + a@,
        Value::Ipv6Addr(a) => out == seq![0xE0u8] + segment_bytes(a@),
    }
}

/// Whether `out` is the values of `vs` serialised one after another.
pub open spec fn seq_encodes(vs: Seq<Value>, h: Option<Node<char>>, out: Seq<u8>) -> bool
    decreases vs,
{
    if vs.len() == 0 {
        out.len() == 0
    } else {
        exists|k: int|
            0 <= k <= out.len() && encodes(vs[0], h, out.take(k)) && seq_encodes(
                vs.drop_first(),
                h,
                out.skip(k),
            )
    }
}

/// Whether `out` is an entry serialised: its key as a string value, then its value.
pub open spec fn entry_encodes(e: (String, Value), h: Option<Node<char>>, out: Seq<u8>) -> bool
    decreases e,
{
    exists|k: int|
        0 <= k <= out.len() && string_encodes(e.0@, h, out.take(k)) && encodes(
            e.1,
            h,
            out.skip(k),
        )
}

/// Whether `out` is the entries of `es` serialised one after another.
pub open spec fn entries_encodes(es: Seq<(String, Value)>, h: Option<Node<char>>, out: Seq<u8>) -> bool
    decreases es,
{
    if es.len() == 0 {
        out.len() == 0
    } else {
        exists|k: int|
            0 <= k <= out.len() && entry_encodes(es[0], h, out.take(k)) && entries_encodes(
                es.drop_first(),
                h,
                out.skip(k),
            )
    }
}

/// Whether a string can be serialised with the huffman tree `h`: its coded length must fit.
pub open spec fn string_ok(s: Seq<char>, h: Option<Node<char>>) -> bool {
    h matches Some(root) ==> s.len() * root.depth() <= usize::MAX
}

/// Whether [`Value::ser`] can serialise `v` with the huffman tree `h`: every string's coded
/// length and every blob's worst-case compressed length must fit in a `usize`.
pub open spec fn ser_ok(v: Value, h: Option<Node<char>>) -> bool
    decreases v,
{
    match v {
        Value::String(s) => string_ok(s@, h),
        Value::JSON(s) => string_ok(s@, h),
        Value::Timezone(s) => string_ok(s@, h),
        Value::Binary(b) => b.0@.len() * 256 <= usize::MAX,
        Value::Array(a) => seq_ok(a@, h),
        Value::Dict(d) => entries_ok(d@, h),
        _ => true,
    }
}

/// [`ser_ok`] for each value of a list.
pub open spec fn seq_ok(vs: Seq<Value>, h: Option<Node<char>>) -> bool
    decreases vs,
{
    vs.len() == 0 || (ser_ok(vs[0], h) && seq_ok(vs.drop_first(), h))
}

/// [`ser_ok`] for each key and value of a dictionary.
pub open spec fn entries_ok(es: Seq<(String, Value)>, h: Option<Node<char>>) -> bool
    decreases es,
{
    es.len() == 0 || (string_ok(es[0].0@, h) && ser_ok(es[0].1, h) && entries_ok(
        es.drop_first(),
        h,
    ))
}

/// Each value of a list that [`seq_ok`] holds of is one [`ser_ok`] holds of.
pub proof fn lemma_seq_ok(vs: Seq<Value>, h: Option<Node<char>>)
    requires
        seq_ok(vs, h),
    ensures
        forall|i: int| 0 <= i < vs.len() ==> ser_ok(#[trigger] vs[i], h),
    decreases vs.len(),
{
    if vs.len() > 0 {
        lemma_seq_ok(vs.drop_first(), h);
        assert forall|i: int| 0 <= i < vs.len() implies ser_ok(#[trigger] vs[i], h) by {
            if i > 0 {
                assert(vs.drop_first()[i - 1] == vs[i]);
            }
        }
    }
}

/// Each entry of a dictionary that [`entries_ok`] holds of has a key and value that can be
/// serialised.
pub proof fn lemma_entries_ok(es: Seq<(String, Value)>, h: Option<Node<char>>)
    requires
        entries_ok(es, h),
    ensures
        forall|i: int| 0 <= i < es.len() ==> string_ok((#[trigger] es[i]).0@, h) && ser_ok(es[i].1, h),
    decreases es.len(),
{
    if es.len() > 0 {
        lemma_entries_ok(es.drop_first(), h);
        assert forall|i: int| 0 <= i < es.len() implies string_ok((#[trigger] es[i]).0@, h)
            && ser_ok(es[i].1, h) by {
            if i > 0 {
                assert(es.drop_first()[i - 1] == es[i]);
            }
        }
    }
}

/// Serialising one more value after a list.
pub proof fn lemma_seq_encodes_push(
    vs: Seq<Value>,
    h: Option<Node<char>>,
    out: Seq<u8>,
    v: Value,
    part: Seq<u8>,
)
    requires
        seq_encodes(vs, h, out),
        encodes(v, h, part),
    ensures
        seq_encodes(vs.push(v), h, out + part),
    decreases vs.len(),
{
    if vs.len() == 0 {
        let k = part.len() as int;
        assert((out + part).take(k) =~= part);
        assert((out + part).skip(k).len() == 0);
        assert(vs.push(v).drop_first() =~= vs);
        assert(seq_encodes(vs.push(v).drop_first(), h, (out + part).skip(k)));
    } else {
        let k = choose|k: int|
            0 <= k <= out.len() && encodes(vs[0], h, out.take(k)) && seq_encodes(
                vs.drop_first(),
                h,
                out.skip(k),
            );
        lemma_seq_encodes_push(vs.drop_first(), h, out.skip(k), v, part);
        assert(vs.push(v).drop_first() =~= vs.drop_first().push(v));
        assert((out + part).take(k) =~= out.take(k));
        assert((out + part).skip(k) =~= out.skip(k) + part);
        assert(vs.push(v)[0] == vs[0]);
    }
}

/// Serialising one more entry after a list of entries.
pub proof fn lemma_entries_encodes_push(
    es: Seq<(String, Value)>,
    h: Option<Node<char>>,
    out: Seq<u8>,
    e: (String, Value),
    part: Seq<u8>,
)
    requires
        entries_encodes(es, h, out),
        entry_encodes(e, h, part),
    ensures
        entries_encodes(es.push(e), h, out + part),
    decreases es.len(),
{
    if es.len() == 0 {
        let k = part.len() as int;
        assert((out + part).take(k) =~= part);
        assert((out + part).skip(k).len() == 0);
        assert(es.push(e).drop_first() =~= es);
        assert(entries_encodes(es.push(e).drop_first(), h, (out + part).skip(k)));
    } else {
        let k = choose|k: int|
            0 <= k <= out.len() && entry_encodes(es[0], h, out.take(k)) && entries_encodes(
                es.drop_first(),
                h,
                out.skip(k),
            );
        lemma_entries_encodes_push(es.drop_first(), h, out.skip(k), e, part);
        assert(es.push(e).drop_first() =~= es.drop_first().push(e));
        assert((out + part).take(k) =~= out.take(k));
        assert((out + part).skip(k) =~= out.skip(k) + part);
        assert(es.push(e)[0] == es[0]);
    }
}

/// Appends `src` to `dst`.
fn extend(dst: &mut Vec<u8>, src: &[u8])
    ensures
        final(dst)@ == old(dst)@ + src@,
{
    let mut i: usize = 0;
    while i < src.len()
        invariant
            i <= src@.len(),
            dst@ == old(dst)@ + src@.take(i as int),
        decreases src.len() - i,
    {
        dst.push(src[i]);
        i = i + 1;
        assert(dst@ =~= old(dst)@ + src@.take(i as int));
    }
    assert(src@.take(src@.len() as int) =~= src@);
}

/// The header of an array or dictionary of kind `ty` and length `len`: see [`len_header`].
fn collection_header(ty: u8, len: usize) -> (r: Vec<u8>)
    requires
        ty < 16,
    ensures
        r@ == len_header(ty, len as nat),
{
    if len < 7 {
        let l = len as u8;
        let b: u8 = (ty << 4) | (l << 1);
        assert(b == ty * 16 + l * 2) by (bit_vector)
            requires
                b == (ty << 4) | (l << 1),
                ty < 16,
                l < 7,
        ;
        let mut r: Vec<u8> = Vec::new();
        r.push(b);
        assert(r@ =~= len_header(ty, len as nat));
        r
    } else {
        let b: u8 = (ty << 4) | 1;
        assert(b == ty * 16 + 1) by (bit_vector)
            requires
                b == (ty << 4) | 1,
                ty < 16,
        ;
        let mut r: Vec<u8> = Vec::new();
        r.push(b);
        let (_, len_bytes) = Integer::usize(len).ser();
        extend(&mut r, len_bytes.as_slice());
        r
    }
}

/// Serialises a string value: see [`string_encodes`].
fn ser_string(s: &String, huffman: Option<&Huffman<char>>) -> (r: Vec<u8>)
    requires
        huffman matches Some(h) ==> h.wf(),
        string_ok(s@, root_of(huffman)),
    ensures
        string_encodes(s@, root_of(huffman), r@),
{
    let coded: Option<Bits> = match huffman {
        Some(h) => h.encode_string(s.as_str()),
        None => None,
    };
    let mut res: Vec<u8> = Vec::new();
    match coded {
        Some(bits) => {
            res.push(0x11);
            let sered = bits.ser();
            extend(&mut res, sered.as_slice());
            assert(res@ =~= seq![0x11u8] + encoding(SignedState::Positive, bits@.len()).1
                + bits.bytes());
            res
        },
        None => {
            let str_bytes = s.as_str().as_bytes();
            let (_, len_bytes) = Integer::usize(str_bytes.len()).ser();
            res.push(0x10);
            extend(&mut res, len_bytes.as_slice());
            extend(&mut res, str_bytes);
            res
        },
    }
}

/// A header byte: the kind `ty` in the top four bits, `low` in the bottom four.
fn header_byte(ty: u8, low: u8) -> (b: u8)
    requires
        ty < 16,
        low < 16,
    ensures
        b == ty * 16 + low,
{
    let b: u8 = (ty << 4) | low;
    assert(b == ty * 16 + low) by (bit_vector)
        requires
            b == (ty << 4) | low,
            ty < 16,
            low < 16,
    ;
    b
}

impl Value {
    /// Serialises the value, coding strings (and dictionary keys, JSON text and zone names)
    /// with `huffman` where it can code every character: see [`encodes`].
    ///
    /// Arrays keep their order; a dictionary is written in the order of its entries.
    pub fn ser(&self, huffman: Option<&Huffman<char>>) -> (r: Vec<u8>)
        requires
            huffman matches Some(h) ==> h.wf(),
            ser_ok(*self, root_of(huffman)),
        ensures
            encodes(*self, root_of(huffman), r@),
        decreases self,
    {
        match self {
            Value::Array(a) => Self::ser_array(a, huffman),
            Value::Dict(d) => Self::ser_dict(d, huffman),
            Value::String(st) => ser_string(st, huffman),
            Value::JSON(st) => {
                let mut res: Vec<u8> = Vec::new();
                res.push(header_byte(7, 0));
                let inner = ser_string(st, huffman);
                extend(&mut res, inner.as_slice());
                assert(res@.drop_first() =~= inner@);
                res
            },
            Value::Timezone(st) => {
                let mut res: Vec<u8> = Vec::new();
                res.push(header_byte(12, 0));
                let inner = ser_string(st, huffman);
                extend(&mut res, inner.as_slice());
                assert(res@.drop_first() =~= inner@);
                res
            },
            _ => self.ser_leaf(),
        }
    }

    fn ser_leaf(&self) -> (r: Vec<u8>)
        requires
            ser_ok(*self, None),
            !(self is Array || self is Dict || self is String || self is JSON || self is Timezone),
        ensures
            forall|h: Option<Node<char>>| encodes(*self, h, r@),
    {
        let mut res: Vec<u8> = Vec::new();
        match self {
            Value::Character(ch) => {
                let (_, bytes) = Integer::u32(*ch as u32).ser();
                res.push(header_byte(0, 0));
                extend(&mut res, bytes.as_slice());
            },
            Value::Binary(b) => {
                let (ct, bytes) = b.ser();
                res.push(header_byte(2, ct.to_u8()));
                extend(&mut res, bytes.as_slice());
            },
            Value::Boolean(b) => {
                res.push(
                    header_byte(
                        3,
                        if *b {
                            1
                        } else {
                            0
                        },
                    ),
                );
            },
            Value::Integer(i) => {
                let (signed_state, bytes) = i.ser();
                res.push(header_byte(4, signed_state.to_u8()));
                extend(&mut res, bytes.as_slice());
            },
            Value::Imaginary(i) => {
                let (magic_bits, bytes) = i.ser();
                res.push(header_byte(5, magic_bits));
                extend(&mut res, bytes.as_slice());
            },
            Value::Timestamp(t) => {
                let (year_ss, bytes) = t.ser();
                res.push(header_byte(6, year_ss.to_u8()));
                extend(&mut res, bytes.as_slice());
            },
            Value::Null(_) => {
                res.push(header_byte(9, 0));
            },
            Value::SingleFloat(x) => {
                res.push(header_byte(15, 0));
                let bytes = le_bytes_of(*x as u64, 4);
                extend(&mut res, bytes.as_slice());
            },
            Value::DoubleFloat(x) => {
                res.push(header_byte(10, 0));
                let bytes = le_bytes_of(*x, 8);
                extend(&mut res, bytes.as_slice());
            },
            Value::Ipv4Addr(a) => {
                res.push(header_byte(13, 0));
                extend(&mut res, a.as_slice());
            },
            Value::Ipv6Addr(a) => {
                res.push(header_byte(14, 0));
                let ghost start = res@;
                let mut i: usize = 0;
                while i < 8
                    invariant
                        i <= 8,
                        res@ == start + segment_bytes(a@).take(2 * i as int),
                    decreases 8 - i,
                {
                    let seg = a[i];
                    res.push((seg % 256) as u8);
                    res.push((seg / 256) as u8);
                    i = i + 1;
                    assert(res@ =~= start + segment_bytes(a@).take(2 * i as int));
                }
                assert(segment_bytes(a@).take(16) =~= segment_bytes(a@));
            },
            _ => {},
        }
        res
    }

    fn ser_array(a: &Vec<Value>, huffman: Option<&Huffman<char>>) -> (r: Vec<u8>)
        requires
            huffman matches Some(h) ==> h.wf(),
            seq_ok(a@, root_of(huffman)),
        ensures
            encodes(Value::Array(*a), root_of(huffman), r@),
        decreases a,
    {
        let ghost hv = root_of(huffman);
        proof {
            lemma_seq_ok(a@, hv);
        }
        let mut res = collection_header(11, a.len());
        let ghost hd = res@;
        let mut i: usize = 0;
        assert(res@.skip(hd.len() as int).len() == 0);
        assert(a@.take(0).len() == 0);
        while i < a.len()
            invariant
                i <= a@.len(),
                hd == len_header(11, a@.len()),
                res@.len() >= hd.len(),
                res@.take(hd.len() as int) == hd,
                seq_encodes(a@.take(i as int), hv, res@.skip(hd.len() as int)),
                hv == root_of(huffman),
                huffman matches Some(h) ==> h.wf(),
                forall|j: int| 0 <= j < a@.len() ==> ser_ok(#[trigger] a@[j], hv),
            decreases a.len() - i,
        {
            let part = a[i].ser(huffman);
            let ghost body = res@.skip(hd.len() as int);
            proof {
                lemma_seq_encodes_push(a@.take(i as int), hv, body, a@[i as int], part@);
                assert(a@.take(i as int).push(a@[i as int]) =~= a@.take(i as int + 1));
            }
            extend(&mut res, part.as_slice());
            assert(res@.skip(hd.len() as int) =~= body + part@);
            assert(res@.take(hd.len() as int) =~= hd);
            i = i + 1;
        }
        assert(a@.take(a@.len() as int) =~= a@);
        res
    }

    pub(crate) fn ser_dict(d: &Vec<(String, Value)>, huffman: Option<&Huffman<char>>) -> (r: Vec<u8>)
        requires
            huffman matches Some(h) ==> h.wf(),
            entries_ok(d@, root_of(huffman)),
        ensures
            encodes(Value::Dict(*d), root_of(huffman), r@),
        decreases d,
    {
        let ghost hv = root_of(huffman);
        proof {
            lemma_entries_ok(d@, hv);
        }
        let mut res = collection_header(8, d.len());
        let ghost hd = res@;
        let mut i: usize = 0;
        assert(res@.skip(hd.len() as int).len() == 0);
        assert(d@.take(0).len() == 0);
        while i < d.len()
            invariant
                i <= d@.len(),
                hd == len_header(8, d@.len()),
                res@.len() >= hd.len(),
                res@.take(hd.len() as int) == hd,
                entries_encodes(d@.take(i as int), hv, res@.skip(hd.len() as int)),
                hv == root_of(huffman),
                huffman matches Some(h) ==> h.wf(),
                forall|j: int| 0 <= j < d@.len() ==> string_ok((#[trigger] d@[j]).0@, hv) && ser_ok(
                    d@[j].1,
                    hv,
                ),
            decreases d.len() - i,
        {
            let kpart = ser_string(&d[i].0, huffman);
            let vpart = d[i].1.ser(huffman);
            let ghost body = res@.skip(hd.len() as int);
            let ghost part = kpart@ + vpart@;
            proof {
                let k = kpart@.len() as int;
                assert(part.take(k) =~= kpart@);
                assert(part.skip(k) =~= vpart@);
                assert(entry_encodes(d@[i as int], hv, part));
                lemma_entries_encodes_push(d@.take(i as int), hv, body, d@[i as int], part);
                assert(d@.take(i as int).push(d@[i as int]) =~= d@.take(i as int + 1));
            }
            extend(&mut res, kpart.as_slice());
            extend(&mut res, vpart.as_slice());
            assert(res@.skip(hd.len() as int) =~= body + part);
            assert(res@.take(hd.len() as int) =~= hd);
            i = i + 1;
        }
        assert(d@.take(d@.len() as int) =~= d@);
        res
    }
}

/// Whether a string comes back from its serialisation with the huffman tree `h`: a huffman
/// tree that is a single leaf codes every character with no bits at all, so a non-empty
/// string coded with it comes back empty.
pub open spec fn string_roundtrips(s: Seq<char>, h: Option<Node<char>>) -> bool {
    match h {
        Some(root) => encode_path(root, s) is Some && s.len() > 0 ==> root is Branch,
        None => true,
    }
}

/// Whether no two entries have the same key.
pub open spec fn keys_distinct(es: Seq<(String, Value)>) -> bool {
    forall|i: int, j: int| 0 <= i < j < es.len() ==> (#[trigger] es[i]).0@ != (#[trigger] es[j]).0@
}

/// Whether `v` comes back from its serialisation with the huffman tree `h`: no string that
/// [`string_roundtrips`] excludes, no integer that is a negative zero, timestamps whose day
/// and time exist, JSON text that parses, zone names that are known, and dictionaries without
/// a repeated key.
pub open spec fn roundtrips(v: Value, h: Option<Node<char>>) -> bool
    decreases v,
{
    match v {
        Value::String(s) => string_roundtrips(s@, h),
        Value::JSON(s) => json_valid(s@) && canonical_json(s@) == s@ && string_roundtrips(s@, h),
        Value::Timezone(s) => tz_name_known(s@) && string_roundtrips(s@, h),
        Value::Binary(b) => b.0@.len() <= isize::MAX,
        Value::Integer(i) => !(i.sign() == SignedState::Negative && i.magnitude() == 0),
        Value::Imaginary(i) => normalised(imaginary_view(i)) == imaginary_view(i),
        Value::Timestamp(t) => t.wf(),
        Value::Array(a) => seq_roundtrips(a@, h),
        Value::Dict(d) => keys_distinct(d@) && entries_roundtrip(d@, h),
        _ => true,
    }
}

/// [`roundtrips`] for each value of a list.
pub open spec fn seq_roundtrips(vs: Seq<Value>, h: Option<Node<char>>) -> bool
    decreases vs,
{
    vs.len() == 0 || (roundtrips(vs[0], h) && seq_roundtrips(vs.drop_first(), h))
}

/// [`roundtrips`] for each key and value of a dictionary.
pub open spec fn entries_roundtrip(es: Seq<(String, Value)>, h: Option<Node<char>>) -> bool
    decreases es,
{
    es.len() == 0 || (string_roundtrips(es[0].0@, h) && roundtrips(es[0].1, h)
        && entries_roundtrip(es.drop_first(), h))
}

/// A string with a huffman code uses only characters of the tree.
pub proof fn lemma_encode_path_codes(root: Node<char>, s: Seq<char>)
    requires
        encode_path(root, s) is Some,
    ensures
        forall|i: int| 0 <= i < s.len() ==> root.leaf_codes().contains(#[trigger] s[i].spec_code()),
    decreases s.len(),
{
    if s.len() > 0 {
        lemma_encode_path_codes(root, s.drop_last());
        root.lemma_path_to(s.last().spec_code());
        assert forall|i: int| 0 <= i < s.len() implies root.leaf_codes().contains(
            #[trigger] s[i].spec_code(),
        ) by {
            if i < s.len() - 1 {
                assert(s.drop_last()[i] == s[i]);
            }
        }
    }
}

/// A string value read back from its serialisation, whatever follows it.
pub proof fn lemma_string_roundtrip(s: Seq<char>, h: Option<Node<char>>, out: Seq<u8>, rest: Seq<u8>)
    requires
        string_encodes(s, h, out),
        string_roundtrips(s, h),
    ensures
        value_decoded(out + rest, h) == Some(
            Ok::<(ValueView, nat), ValueErrorKind>((ValueView::String(s), out.len())),
        ),
{
    let coded = match h {
        Some(root) => encode_path(root, s),
        None => None,
    };
    match coded {
        Some(bits) => lemma_coded_string_roundtrip(s, h.unwrap(), out, rest),
        None => lemma_plain_string_roundtrip(s, h, out, rest),
    }
}

/// A huffman-coded string value read back from its serialisation, whatever follows it.
#[verifier::rlimit(50)]
proof fn lemma_coded_string_roundtrip(s: Seq<char>, root: Node<char>, out: Seq<u8>, rest: Seq<u8>)
    requires
        encode_path(root, s) is Some,
        string_encodes(s, Some(root), out),
        string_roundtrips(s, Some(root)),
    ensures
        value_decoded(out + rest, Some(root)) == Some(
            Ok::<(ValueView, nat), ValueErrorKind>((ValueView::String(s), out.len())),
        ),
{
    let h = Some(root);
    let all = out + rest;
    let tail = all.subrange(1, all.len() as int);
    let bits = encode_path(root, s).unwrap();
    let b = choose|b: Bits|
        #![trigger b.bytes()]
        b.wf() && b@ == bits && out == seq![0x11u8] + encoding(SignedState::Positive, bits.len()).1
            + b.bytes();
    let enc = encoding(SignedState::Positive, bits.len()).1;
    lemma_bits_ser_deser_roundtrip(b, rest);
    assert(tail =~= enc + b.bytes() + rest);
    assert(all[0] == 0x11);
    lemma_leaf_string(all[0], tail, h);
    if s.len() > 0 {
        lemma_encode_path_codes(root, s);
        lemma_decode_encoded(root, s, Seq::empty());
        crate::utilities::huffman::lemma_encoded_walk_ends(root, s, Seq::empty());
        assert(bits + Seq::<bool>::empty() =~= bits);
        assert(s + Seq::<char>::empty() =~= s);
    } else {
        assert(bits.len() == 0);
        assert(s =~= Seq::<char>::empty());
    }
}

/// A string value written as UTF-8 read back from its serialisation, whatever follows it.
#[verifier::rlimit(50)]
proof fn lemma_plain_string_roundtrip(s: Seq<char>, h: Option<Node<char>>, out: Seq<u8>, rest: Seq<u8>)
    requires
        (match h {
            Some(root) => encode_path(root, s),
            None => None,
        }) is None,
        string_encodes(s, h, out),
    ensures
        value_decoded(out + rest, h) == Some(
            Ok::<(ValueView, nat), ValueErrorKind>((ValueView::String(s), out.len())),
        ),
{
    let all = out + rest;
    let tail = all.subrange(1, all.len() as int);
    let u = encode_utf8(s);
    let enc = encoding(SignedState::Positive, u.len()).1;
    lemma_encoding_roundtrip(SignedState::Positive, u.len(), u + rest);
    assert(tail =~= enc + (u + rest));
    assert(all[0] == 0x10);
    lemma_leaf_string(all[0], tail, h);
    assert(tail.subrange(enc.len() as int, (enc.len() + u.len()) as int) =~= u);
    vstd::utf8::encode_utf8_valid_utf8(s);
    vstd::utf8::encode_utf8_decode_utf8(s);
}

/// A list of views starts with the view of its first value.
pub proof fn lemma_values_view_front(vs: Seq<Value>)
    requires
        vs.len() > 0,
    ensures
        values_view(vs) == seq![value_view(vs[0])] + values_view(vs.drop_first()),
{
    lemma_values_view(vs);
    lemma_values_view(vs.drop_first());
    assert forall|i: int| 0 <= i < vs.len() implies values_view(vs)[i] == (seq![value_view(vs[0])]
        + values_view(vs.drop_first()))[i] by {
        if i > 0 {
            assert(vs.drop_first()[i - 1] == vs[i]);
        }
    }
    assert(values_view(vs) =~= seq![value_view(vs[0])] + values_view(vs.drop_first()));
}

/// A list of entry views starts with the view of its first entry.
pub proof fn lemma_entries_view_front(es: Seq<(String, Value)>)
    requires
        es.len() > 0,
    ensures
        entries_view(es) == seq![(es[0].0@, value_view(es[0].1))] + entries_view(es.drop_first()),
{
    lemma_entries_view(es);
    lemma_entries_view(es.drop_first());
    assert forall|i: int| 0 <= i < es.len() implies entries_view(es)[i] == (seq![
        (es[0].0@, value_view(es[0].1)),
    ] + entries_view(es.drop_first()))[i] by {
        if i > 0 {
            assert(es.drop_first()[i - 1] == es[i]);
        }
    }
    assert(entries_view(es) =~= seq![(es[0].0@, value_view(es[0].1))] + entries_view(
        es.drop_first(),
    ));
}

/// Inserting entries with distinct keys in order gives them back in that order.
pub proof fn lemma_dict_of_distinct(raw: Seq<(Seq<char>, ValueView)>)
    requires
        forall|i: int, j: int| 0 <= i < j < raw.len() ==> (#[trigger] raw[i]).0 != (#[trigger] raw[j]).0,
    ensures
        dict_of(raw) == raw,
    decreases raw.len(),
{
    if raw.len() > 0 {
        let prev = raw.drop_last();
        assert forall|i: int, j: int| 0 <= i < j < prev.len() implies (#[trigger] prev[i]).0
            != (#[trigger] prev[j]).0 by {
            assert(prev[i] == raw[i] && prev[j] == raw[j]);
        }
        lemma_dict_of_distinct(prev);
        assert forall|m: int| 0 <= m < prev.len() implies prev[m].0 != raw.last().0 by {
            assert(prev[m] == raw[m]);
            assert(raw.last() == raw[raw.len() - 1]);
        }
        lemma_key_position(prev, raw.last().0, prev.len());
        assert(prev.push(raw.last()) =~= raw);
    }
}

/// What a value's header byte selects, for a value without values inside it.
proof fn lemma_leaf_string(b: u8, s: Seq<u8>, h: Option<Node<char>>)
    requires
        b / 16 == 1,
    ensures
        leaf_decoded(b, s, h) == string_decoded(b, s, h),
{
    reveal(leaf_decoded);
}

proof fn lemma_leaf_char(b: u8, s: Seq<u8>, h: Option<Node<char>>)
    requires
        b / 16 == 0,
    ensures
        leaf_decoded(b, s, h) == Some(char_decoded(s)),
{
    reveal(leaf_decoded);
}

proof fn lemma_leaf_binary(b: u8, s: Seq<u8>, h: Option<Node<char>>)
    requires
        b / 16 == 2,
    ensures
        leaf_decoded(b, s, h) == binary_value_decoded(b, s),
{
    reveal(leaf_decoded);
}

proof fn lemma_leaf_integer(b: u8, s: Seq<u8>, h: Option<Node<char>>)
    requires
        b / 16 == 4,
    ensures
        leaf_decoded(b, s, h) == Some(integer_decoded(b, s)),
{
    reveal(leaf_decoded);
}

proof fn lemma_leaf_imaginary(b: u8, s: Seq<u8>, h: Option<Node<char>>)
    requires
        b / 16 == 5,
    ensures
        leaf_decoded(b, s, h) == match imaginary_decoded(b % 16, s) {
            Ok((v, c)) => Some(Ok::<(ValueView, nat), ValueErrorKind>((ValueView::Imaginary(v), c))),
            Err(e) => Some(Err::<(ValueView, nat), ValueErrorKind>(ValueErrorKind::Integer(e))),
        },
{
    reveal(leaf_decoded);
}

proof fn lemma_leaf_timestamp(b: u8, s: Seq<u8>, h: Option<Node<char>>)
    requires
        b / 16 == 6,
    ensures
        leaf_decoded(b, s, h) == Some(timestamp_decoded(b, s)),
{
    reveal(leaf_decoded);
}

proof fn lemma_leaf_fixed(b: u8, s: Seq<u8>, h: Option<Node<char>>)
    requires
        b / 16 == 3 || b / 16 == 9 || b / 16 == 10 || b / 16 == 13 || b / 16 == 14 || b / 16 == 15,
    ensures
        leaf_decoded(b, s, h) == Some(fixed_decoded(b, s)),
{
    reveal(leaf_decoded);
}

/// A character value read back from its serialisation, whatever follows it.
proof fn lemma_char_roundtrip(c: char, h: Option<Node<char>>, out: Seq<u8>, rest: Seq<u8>)
    requires
        out == seq![0x00u8] + encoding(SignedState::Positive, (c as u32) as nat).1,
    ensures
        value_decoded(out + rest, h) == Some(
            Ok::<(ValueView, nat), ValueErrorKind>((ValueView::Character(c), out.len())),
        ),
{
    let all = out + rest;
    let tail = all.subrange(1, all.len() as int);
    let code = (c as u32) as nat;
    lemma_leaf_char(all[0], tail, h);
    lemma_encoding_roundtrip(SignedState::Positive, code, rest);
    assert(tail =~= encoding(SignedState::Positive, code).1 + rest);
    vstd::utf8::char_is_scalar(c);
    vstd::utf8::char_u32_cast(c, c as u32);
}

/// A blob value read back from its serialisation, whatever follows it.
#[verifier::rlimit(100)]
#[verifier::spinoff_prover]
proof fn lemma_binary_value_roundtrip(d: Seq<u8>, h: Option<Node<char>>, out: Seq<u8>, rest: Seq<u8>)
    requires
        binary_encodes(d, out),
        d.len() <= isize::MAX,
    ensures
        value_decoded(out + rest, h) == Some(
            Ok::<(ValueView, nat), ValueErrorKind>((ValueView::Binary(d), out.len())),
        ),
{
    let all = out + rest;
    let tail = all.subrange(1, all.len() as int);
    let hh = choose|hh: Seq<u8>|
        #[trigger] huffman_output(d, hh) && ({
            let (ct, bytes) = smallest(vanilla(d), rle_encoded(d), lz_encoded(d), hh);
            out == seq![(0x20 + compression_byte(ct)) as u8] + bytes
        });
    let (ct, bytes) = smallest(vanilla(d), rle_encoded(d), lz_encoded(d), hh);
    lemma_leaf_binary(all[0], tail, h);
    lemma_binary_roundtrip(d, hh, ct, bytes, rest);
    assert(tail =~= bytes + rest);
}

/// An integer value read back from its serialisation, whatever follows it.
proof fn lemma_integer_value_roundtrip(i: Integer, h: Option<Node<char>>, out: Seq<u8>, rest: Seq<u8>)
    requires
        out == seq![(0x40 + ss_code(encoding(i.sign(), i.magnitude()).0)) as u8] + encoding(
            i.sign(),
            i.magnitude(),
        ).1,
        !(i.sign() == SignedState::Negative && i.magnitude() == 0),
    ensures
        value_decoded(out + rest, h) == Some(
            Ok::<(ValueView, nat), ValueErrorKind>(
                (ValueView::Integer(i.sign(), i.magnitude()), out.len()),
            ),
        ),
{
    let all = out + rest;
    let tail = all.subrange(1, all.len() as int);
    i.lemma_magnitude_bound();
    let (ss, bytes) = encoding(i.sign(), i.magnitude());
    lemma_leaf_integer(all[0], tail, h);
    lemma_encoding_roundtrip(i.sign(), i.magnitude(), rest);
    assert(tail =~= bytes + rest);
}

/// A complex number value read back from its serialisation, whatever follows it.
proof fn lemma_imaginary_value_roundtrip(
    i: Imaginary,
    h: Option<Node<char>>,
    out: Seq<u8>,
    rest: Seq<u8>,
)
    requires
        out == seq![(0x50 + imaginary_encoded(i).0) as u8] + imaginary_encoded(i).1,
        normalised(imaginary_view(i)) == imaginary_view(i),
    ensures
        value_decoded(out + rest, h) == Some(
            Ok::<(ValueView, nat), ValueErrorKind>(
                (ValueView::Imaginary(imaginary_view(i)), out.len()),
            ),
        ),
{
    let all = out + rest;
    let tail = all.subrange(1, all.len() as int);
    let (m, bytes) = imaginary_encoded(i);
    lemma_imaginary_roundtrip(i, rest);
    lemma_leaf_imaginary(all[0], tail, h);
    assert(tail =~= bytes + rest);
}

/// The body of a timestamp value is read back as the timestamp, whatever follows it.
#[verifier::spinoff_prover]
proof fn lemma_timestamp_body(t: Timestamp, b: u8, rest: Seq<u8>)
    requires
        b == (0x60 + ss_code(int_encoding(t.year()).0)) as u8,
        t.wf(),
    ensures
        timestamp_decoded(b, t.encoded() + rest) == Ok::<(ValueView, nat), ValueErrorKind>(
            (ValueView::Timestamp(t.fields()), t.encoded().len()),
        ),
{
    reveal(timestamp_decoded);
    lemma_ts_roundtrip(t, rest);
    let ss = int_encoding(t.year()).0;
    assert((b % 2 == 0) <==> ss == SignedState::Positive);
}

/// A timestamp value read back from its serialisation, whatever follows it.
#[verifier::spinoff_prover]
proof fn lemma_timestamp_value_roundtrip(
    t: Timestamp,
    h: Option<Node<char>>,
    out: Seq<u8>,
    rest: Seq<u8>,
)
    requires
        out == seq![(0x60 + ss_code(int_encoding(t.year()).0)) as u8] + t.encoded(),
        t.wf(),
    ensures
        value_decoded(out + rest, h) == Some(
            Ok::<(ValueView, nat), ValueErrorKind>((ValueView::Timestamp(t.fields()), out.len())),
        ),
{
    let all = out + rest;
    let tail = all.subrange(1, all.len() as int);
    let b = all[0];
    assert(b == (0x60 + ss_code(int_encoding(t.year()).0)) as u8);
    assert(b / 16 == 6);
    lemma_leaf_timestamp(b, tail, h);
    assert(tail =~= t.encoded() + rest);
    lemma_timestamp_body(t, b, rest);
}

/// A value of fixed size read back from its serialisation, whatever follows it.
proof fn lemma_fixed_roundtrip(v: Value, h: Option<Node<char>>, out: Seq<u8>, rest: Seq<u8>)
    requires
        encodes(v, h, out),
        v is Boolean || v is Null || v is SingleFloat || v is DoubleFloat || v is Ipv4Addr
            || v is Ipv6Addr,
    ensures
        value_decoded(out + rest, h) == Some(
            Ok::<(ValueView, nat), ValueErrorKind>((value_view(v), out.len())),
        ),
{
    let all = out + rest;
    let tail = all.subrange(1, all.len() as int);
    lemma_leaf_fixed(all[0], tail, h);
    match v {
        Value::SingleFloat(x) => {
            lemma_pow256_16();
            lemma_le_value_of_bytes(x as nat, 4);
            vstd::arithmetic::div_mod::lemma_small_mod(x as nat, pow256(4));
            assert(tail.take(4) =~= le_bytes(x as nat, 4));
        },
        Value::DoubleFloat(x) => {
            lemma_pow256_16();
            lemma_le_value_of_bytes(x as nat, 8);
            vstd::arithmetic::div_mod::lemma_small_mod(x as nat, pow256(8));
            assert(tail.take(8) =~= le_bytes(x as nat, 8));
        },
        Value::Ipv4Addr(a) => {
            assert(tail.take(4) =~= a@);
        },
        Value::Ipv6Addr(a) => {
            assert forall|i: int| 0 <= i < 8 implies #[trigger] segments(tail)[i] == a@[i] by {
                assert(tail[2 * i] == segment_bytes(a@)[2 * i]);
                assert(tail[2 * i + 1] == segment_bytes(a@)[2 * i + 1]);
                assert((2 * i) % 2 == 0);
                assert((2 * i + 1) % 2 == 1);
                assert((2 * i) / 2 == i);
                assert((2 * i + 1) / 2 == i);
            }
            assert(segments(tail) =~= a@);
        },
        _ => {},
    }
}

/// A JSON or time zone value read back from its serialisation, whatever follows it.
proof fn lemma_nested_roundtrip(v: Value, h: Option<Node<char>>, out: Seq<u8>, rest: Seq<u8>)
    requires
        encodes(v, h, out),
        roundtrips(v, h),
        v is JSON || v is Timezone,
    ensures
        value_decoded(out + rest, h) == Some(
            Ok::<(ValueView, nat), ValueErrorKind>((value_view(v), out.len())),
        ),
{
    let all = out + rest;
    let tail = all.subrange(1, all.len() as int);
    let inner = out.drop_first();
    assert(tail =~= inner + rest);
    match v {
        Value::JSON(st) => {
            lemma_string_roundtrip(st@, h, inner, rest);
        },
        Value::Timezone(st) => {
            lemma_string_roundtrip(st@, h, inner, rest);
        },
        _ => {},
    }
}

/// What [`Value::ser`] writes for a value that [`roundtrips`] holds of is read back by
/// [`Value::deser`] as a value holding the same, moving past exactly those bytes, whatever
/// follows them.
pub proof fn lemma_value_roundtrip(v: Value, h: Option<Node<char>>, out: Seq<u8>, rest: Seq<u8>)
    requires
        encodes(v, h, out),
        roundtrips(v, h),
    ensures
        value_decoded(out + rest, h) == Some(
            Ok::<(ValueView, nat), ValueErrorKind>((value_view(v), out.len())),
        ),
    decreases v, 0nat,
{
    match v {
        Value::String(st) => {
            lemma_string_roundtrip(st@, h, out, rest);
        },
        Value::JSON(_) => {
            lemma_nested_roundtrip(v, h, out, rest);
        },
        Value::Timezone(_) => {
            lemma_nested_roundtrip(v, h, out, rest);
        },
        Value::Character(c) => {
            lemma_char_roundtrip(c, h, out, rest);
        },
        Value::Binary(b) => {
            lemma_binary_value_roundtrip(b.0@, h, out, rest);
        },
        Value::Integer(i) => {
            lemma_integer_value_roundtrip(i, h, out, rest);
        },
        Value::Imaginary(i) => {
            lemma_imaginary_value_roundtrip(i, h, out, rest);
        },
        Value::Timestamp(t) => {
            lemma_timestamp_value_roundtrip(t, h, out, rest);
        },
        Value::Array(a) => {
            lemma_array_roundtrip(a, h, out, rest);
        },
        Value::Dict(d) => {
            lemma_dict_roundtrip(d, h, out, rest);
        },
        _ => {
            lemma_fixed_roundtrip(v, h, out, rest);
        },
    }
}

/// The header of an array or dictionary is read back as its kind and length.
pub proof fn lemma_len_header(ty: u8, n: nat, rest: Seq<u8>)
    requires
        ty == 8 || ty == 11,
        n <= usize::MAX,
    ensures
        ({
            let hd = len_header(ty, n);
            let all = hd + rest;
            &&& hd.len() >= 1
            &&& all[0] / 16 == ty
            &&& len_decoded(all[0], all.subrange(1, all.len() as int)) == Ok::<
                (nat, nat),
                ValueErrorKind,
            >((n, (hd.len() - 1) as nat))
        }),
{
    let hd = len_header(ty, n);
    let all = hd + rest;
    if n >= 7 {
        lemma_encoding_roundtrip(SignedState::Positive, n, rest);
        assert(all.subrange(1, all.len() as int) =~= encoding(SignedState::Positive, n).1 + rest);
    }
}

/// The values of a list, serialised one after another, read back in order, whatever follows
/// them.
pub proof fn lemma_values_roundtrip(vs: Seq<Value>, h: Option<Node<char>>, body: Seq<u8>, rest: Seq<u8>)
    requires
        seq_encodes(vs, h, body),
        seq_roundtrips(vs, h),
    ensures
        values_decoded(body + rest, vs.len(), h) == Some(
            Ok::<(Seq<ValueView>, nat), ValueErrorKind>((values_view(vs), body.len())),
        ),
    decreases vs, 0nat,
{
    if vs.len() == 0 {
        assert(values_view(vs) =~= Seq::<ValueView>::empty());
    } else {
        let k = choose|k: int|
            0 <= k <= body.len() && encodes(vs[0], h, body.take(k)) && seq_encodes(
                vs.drop_first(),
                h,
                body.skip(k),
            );
        let p0 = body.take(k);
        let b1 = body.skip(k);
        assert(body + rest =~= p0 + (b1 + rest));
        lemma_value_roundtrip(vs[0], h, p0, b1 + rest);
        assert(skip_bytes(body + rest, p0.len()) =~= b1 + rest);
        lemma_values_roundtrip(vs.drop_first(), h, b1, rest);
        lemma_values_view_front(vs);
    }
}

/// The entries of a dictionary, serialised one after another, read back in order, whatever
/// follows them.
pub proof fn lemma_entries_roundtrip(
    es: Seq<(String, Value)>,
    h: Option<Node<char>>,
    body: Seq<u8>,
    rest: Seq<u8>,
)
    requires
        entries_encodes(es, h, body),
        entries_roundtrip(es, h),
    ensures
        entries_decoded(body + rest, es.len(), h) == Some(
            Ok::<(Seq<(Seq<char>, ValueView)>, nat), ValueErrorKind>((entries_view(es), body.len())),
        ),
    decreases es, 0nat,
{
    if es.len() == 0 {
        assert(entries_view(es) =~= Seq::<(Seq<char>, ValueView)>::empty());
    } else {
        let k = choose|k: int|
            0 <= k <= body.len() && entry_encodes(es[0], h, body.take(k)) && entries_encodes(
                es.drop_first(),
                h,
                body.skip(k),
            );
        let p0 = body.take(k);
        let b1 = body.skip(k);
        let kk = choose|kk: int|
            0 <= kk <= p0.len() && string_encodes(es[0].0@, h, p0.take(kk)) && encodes(
                es[0].1,
                h,
                p0.skip(kk),
            );
        let kp = p0.take(kk);
        let vp = p0.skip(kk);
        assert(body + rest =~= kp + (vp + (b1 + rest)));
        lemma_string_roundtrip(es[0].0@, h, kp, vp + (b1 + rest));
        assert(skip_bytes(body + rest, kp.len()) =~= vp + (b1 + rest));
        lemma_value_roundtrip(es[0].1, h, vp, b1 + rest);
        assert(kp.len() + vp.len() == p0.len());
        assert(skip_bytes(body + rest, p0.len()) =~= b1 + rest);
        assert(entry_decoded(body + rest, h) == Some(
            Ok::<((Seq<char>, ValueView), nat), ValueErrorKind>(
                ((es[0].0@, value_view(es[0].1)), p0.len()),
            ),
        ));
        lemma_entries_roundtrip(es.drop_first(), h, b1, rest);
        lemma_entries_view_front(es);
        assert(seq![(es[0].0@, value_view(es[0].1))] + entries_view(es.drop_first())
            == entries_view(es));
    }
}

/// An array value read back from its serialisation, whatever follows it.
proof fn lemma_array_roundtrip(a: Vec<Value>, h: Option<Node<char>>, out: Seq<u8>, rest: Seq<u8>)
    requires
        encodes(Value::Array(a), h, out),
        seq_roundtrips(a@, h),
    ensures
        value_decoded(out + rest, h) == Some(
            Ok::<(ValueView, nat), ValueErrorKind>((value_view(Value::Array(a)), out.len())),
        ),
    decreases a, 1nat,
{
    let all = out + rest;
    let tail = all.subrange(1, all.len() as int);
    let n = a@.len();
    assert(a.len() == n);
    let hd = len_header(11, n);
    let body = out.skip(hd.len() as int);
    assert(out =~= hd + body);
    lemma_len_header(11, n, body + rest);
    assert(all =~= hd + (body + rest));
    lemma_values_roundtrip(a@, h, body, rest);
    assert(skip_bytes(tail, (hd.len() - 1) as nat) =~= body + rest);
}

/// A dictionary value without a repeated key read back from its serialisation, whatever
/// follows it.
proof fn lemma_dict_roundtrip(
    d: Vec<(String, Value)>,
    h: Option<Node<char>>,
    out: Seq<u8>,
    rest: Seq<u8>,
)
    requires
        encodes(Value::Dict(d), h, out),
        keys_distinct(d@),
        entries_roundtrip(d@, h),
    ensures
        value_decoded(out + rest, h) == Some(
            Ok::<(ValueView, nat), ValueErrorKind>((value_view(Value::Dict(d)), out.len())),
        ),
    decreases d, 1nat,
{
    let all = out + rest;
    let tail = all.subrange(1, all.len() as int);
    let n = d@.len();
    assert(d.len() == n);
    let hd = len_header(8, n);
    let body = out.skip(hd.len() as int);
    assert(out =~= hd + body);
    lemma_len_header(8, n, body + rest);
    assert(all =~= hd + (body + rest));
    lemma_entries_roundtrip(d@, h, body, rest);
    assert(skip_bytes(tail, (hd.len() - 1) as nat) =~= body + rest);
    lemma_entries_view(d@);
    assert forall|i: int, j: int| 0 <= i < j < entries_view(d@).len() implies (
    #[trigger] entries_view(d@)[i]).0 != (#[trigger] entries_view(d@)[j]).0 by {
        assert(d@[i].0@ != d@[j].0@);
    }
    lemma_dict_of_distinct(entries_view(d@));
}

impl Value {
    /// Whether [`Value::deser`] can read a value from the front of `s` with the huffman tree
    /// `huffman`, as it must before it is called (see [`value_decoded`]). It cannot where, at
    /// any depth, a huffman-coded string holds bits but the tree is a single leaf, a blob
    /// compressed with LZ4 gives a length beyond `isize::MAX`, or a huffman-compressed blob
    /// holds a single-leaf tree followed by bits.
    pub fn can_deser(s: &[u8], huffman: Option<&Huffman<char>>) -> (b: bool)
        requires
            huffman matches Some(h) ==> h.wf(),
        ensures
            b == (value_decoded(s@, root_of(huffman)) is Some),
        decreases s@.len(), 0nat,
    {
        if s.len() == 0 {
            return true;
        }
        let b = s[0];
        let mut c = Cursor::new(s);
        let _ = c.next();
        let body = c.peek_remaining();
        assert(body@ =~= s@.subrange(1, s@.len() as int));
        let ghost h = root_of(huffman);
        assert(value_decoded(s@, h) == after_header(body_decoded(b, body@, h)));
        assert((value_decoded(s@, h) is Some) == (body_decoded(b, body@, h) is Some));
        let ty = b / 16;
        if ty == 7 || ty == 12 {
            assert(body_decoded(b, body@, h) == nested_decoded(b, body@, h));
            Self::can_deser(body, huffman)
        } else if ty == 11 {
            Self::can_deser_array(b, body, huffman)
        } else if ty == 8 {
            Self::can_deser_dict(b, body, huffman)
        } else if ty == 1 {
            proof {
                reveal(leaf_decoded);
            }
            assert(body_decoded(b, body@, h) == string_decoded(b, body@, h));
            if b % 2 == 1 {
                match huffman {
                    None => true,
                    Some(hf) => {
                        let mut c2 = Cursor::new(body);
                        assert(c2.rest() =~= body@);
                        match Bits::deser(&mut c2) {
                            Ok(bits) => bits.len() == 0 || hf.depth() > 0,
                            Err(_) => true,
                        }
                    },
                }
            } else {
                true
            }
        } else if ty == 2 {
            proof {
                reveal(leaf_decoded);
            }
            assert(body_decoded(b, body@, h) == binary_value_decoded(b, body@));
            let code = b % 16;
            assert(code == b % 16);
            if code == 2 {
                assert(compression_of(code) == BinaryCompression::LempelZiv);
                let mut c2 = Cursor::new(body);
                assert(c2.rest() =~= body@);
                match Integer::deser(SignedState::Positive, &mut c2) {
                    Ok(i) => i.try_into_isize().is_ok(),
                    Err(_) => true,
                }
            } else if code == 3 {
                assert(compression_of(code) == BinaryCompression::Huffman);
                readable(body)
            } else {
                assert(code <= 1 ==> compression_of(code) != BinaryCompression::Huffman && compression_of(code) != BinaryCompression::LempelZiv);
                true
            }
        } else {
            proof {
                reveal(leaf_decoded);
            }
            true
        }
    }

    fn can_deser_array(b: u8, body: &[u8], huffman: Option<&Huffman<char>>) -> (r: bool)
        requires
            huffman matches Some(h) ==> h.wf(),
            b / 16 == 11,
        ensures
            r == (array_decoded(b, body@, root_of(huffman)) is Some),
        decreases body@.len(), 1nat,
    {
        let ghost h = root_of(huffman);
        let mut cur = Cursor::new(body);
        assert(cur.rest() =~= body@);
        assert(ty_of_id(b / 16) == ValueTy::Array);
        let n = match Value::deser_array_or_map_len(b, &mut cur, ValueTy::Array) {
            Ok(n) => n,
            Err(_) => return true,
        };
        let ghost c = (cur.head() - 0) as nat;
        assert(cur.rest() =~= skip_bytes(body@, c));
        assert(len_decoded(b, body@) == Ok::<(nat, nat), ValueErrorKind>((n as nat, c)));
        assert((array_decoded(b, body@, h) is Some) == (values_decoded(skip_bytes(body@, c), n as nat, h) is Some));
        let mut i: usize = 0;
        while i < n
            invariant
                cur.wf(),
                cur.items() == body@,
                i <= n,
                huffman matches Some(hh) ==> hh.wf(),
                h == root_of(huffman),
                (array_decoded(b, body@, h) is Some) == (values_decoded(skip_bytes(body@, c), n as nat, h) is Some),
                (values_decoded(skip_bytes(body@, c), n as nat, h) is Some) == (values_decoded(
                    cur.rest(),
                    (n - i) as nat,
                    h,
                ) is Some),
            decreases n - i,
        {
            let rest = cur.peek_remaining();
            if !Self::can_deser(rest, huffman) {
                return false;
            }
            let ghost r0 = cur.rest();
            let ghost head0 = cur.head();
            match Value::deser(&mut cur, huffman) {
                Ok(_) => {
                    let ghost k = (cur.head() - head0) as nat;
                    assert(cur.rest() =~= skip_bytes(r0, k));
                },
                Err(_) => return true,
            }
            i = i + 1;
        }
        true
    }

    #[verifier::rlimit(60)]
    fn can_deser_dict(b: u8, body: &[u8], huffman: Option<&Huffman<char>>) -> (r: bool)
        requires
            huffman matches Some(h) ==> h.wf(),
            b / 16 == 8,
        ensures
            r == (dict_decoded(b, body@, root_of(huffman)) is Some),
        decreases body@.len(), 1nat,
    {
        let ghost h = root_of(huffman);
        let mut cur = Cursor::new(body);
        assert(cur.rest() =~= body@);
        assert(ty_of_id(b / 16) == ValueTy::Dict);
        let n = match Value::deser_array_or_map_len(b, &mut cur, ValueTy::Dict) {
            Ok(n) => n,
            Err(_) => return true,
        };
        let ghost c = (cur.head() - 0) as nat;
        assert(cur.rest() =~= skip_bytes(body@, c));
        assert(len_decoded(b, body@) == Ok::<(nat, nat), ValueErrorKind>((n as nat, c)));
        assert((dict_decoded(b, body@, h) is Some) == (entries_decoded(skip_bytes(body@, c), n as nat, h) is Some));
        let mut i: usize = 0;
        while i < n
            invariant
                cur.wf(),
                cur.items() == body@,
                i <= n,
                huffman matches Some(hh) ==> hh.wf(),
                h == root_of(huffman),
                (dict_decoded(b, body@, h) is Some) == (entries_decoded(skip_bytes(body@, c), n as nat, h) is Some),
                (entries_decoded(skip_bytes(body@, c), n as nat, h) is Some) == (entries_decoded(
                    cur.rest(),
                    (n - i) as nat,
                    h,
                ) is Some),
            decreases n - i,
        {
            let ghost r0 = cur.rest();
            let ghost head0 = cur.head();
            let ghost m = (n - i) as nat;
            assert(m > 0);
            assert(entries_decoded(r0, m, h) is Some <==> match entry_decoded(r0, h) {
                None => false,
                Some(Err(_)) => true,
                Some(Ok((e, k))) => entries_decoded(skip_bytes(r0, k), (m - 1) as nat, h) is Some,
            });
            let rest = cur.peek_remaining();
            if !Self::can_deser(rest, huffman) {
                assert(entry_decoded(r0, h) is None);
                return false;
            }
            let key = match Value::deser(&mut cur, huffman) {
                Ok(v) => v,
                Err(_) => {
                    assert(entry_decoded(r0, h) is Some);
                    return true;
                },
            };
            let ghost c1 = (cur.head() - head0) as nat;
            assert(cur.rest() =~= skip_bytes(r0, c1));
            assert(value_decoded(r0, h) == Some(
                Ok::<(ValueView, nat), ValueErrorKind>((value_view(key), c1)),
            ));
            match key {
                Value::String(_) => {},
                _ => {
                    assert(entry_decoded(r0, h) is Some);
                    return true;
                },
            }
            let ghost r1 = cur.rest();
            let ghost head1 = cur.head();
            let rest = cur.peek_remaining();
            if !Self::can_deser(rest, huffman) {
                assert(entry_decoded(r0, h) is None);
                return false;
            }
            match Value::deser(&mut cur, huffman) {
                Ok(_) => {
                    let ghost c2 = (cur.head() - head1) as nat;
                    assert(cur.rest() =~= skip_bytes(r1, c2));
                    assert(cur.rest() =~= skip_bytes(r0, c1 + c2));
                    assert(entry_decoded(r0, h) matches Some(Ok((_, k))) && k == c1 + c2);
                },
                Err(_) => {
                    assert(entry_decoded(r0, h) is Some);
                    return true;
                },
            }
            i = i + 1;
        }
        true
    }
}

/// Whether the `f32`s with these bit patterns are equal as `f32`s: see [`f32_bits_eq`].
pub fn f32_bits_equal(a: u32, b: u32) -> (r: bool)
    ensures
        r == f32_bits_eq(a, b),
{
    let nan_a = (a / 0x80_0000) % 0x100 == 0xFF && a % 0x80_0000 != 0;
    let nan_b = (b / 0x80_0000) % 0x100 == 0xFF && b % 0x80_0000 != 0;
    !nan_a && !nan_b && (a == b || (a % 0x8000_0000 == 0 && b % 0x8000_0000 == 0))
}

/// Whether two byte slices hold the same bytes.
fn bytes_equal(a: &[u8], b: &[u8]) -> (r: bool)
    ensures
        r == (a@ == b@),
{
    if a.len() != b.len() {
        return false;
    }
    let mut i: usize = 0;
    while i < a.len()
        invariant
            i <= a@.len(),
            a@.len() == b@.len(),
            forall|j: int| 0 <= j < i ==> a@[j] == b@[j],
        decreases a.len() - i,
    {
        if a[i] != b[i] {
            return false;
        }
        i = i + 1;
    }
    assert(a@ =~= b@);
    true
}

impl Value {
    fn values_equal(a: &Value, b: &Value) -> (r: bool)
        ensures
            r == value_eq(value_view(*a), value_view(*b)),
        decreases a,
    {
        match a {
            Value::Character(c) => match b {
                Value::Character(d) => *c == *d,
                _ => false,
            },
            Value::String(x) => match b {
                Value::String(y) => *x == *y,
                _ => false,
            },
            Value::JSON(x) => match b {
                Value::JSON(y) => *x == *y,
                _ => false,
            },
            Value::Timezone(x) => match b {
                Value::Timezone(y) => *x == *y,
                _ => false,
            },
            Value::Binary(x) => match b {
                Value::Binary(y) => bytes_equal(x.0.as_slice(), y.0.as_slice()),
                _ => false,
            },
            Value::Boolean(x) => match b {
                Value::Boolean(y) => *x == *y,
                _ => false,
            },
            Value::Integer(x) => match b {
                Value::Integer(y) => {
                    proof {
                        Integer::lemma_view_eq(*x, *y);
                    }
                    *x == *y
                },
                _ => false,
            },
            Value::Imaginary(x) => match b {
                Value::Imaginary(y) => *x == *y,
                _ => false,
            },
            Value::Timestamp(x) => match b {
                Value::Timestamp(y) => {
                    proof {
                        Timestamp::lemma_fields_eq(*x, *y);
                    }
                    *x == *y
                },
                _ => false,
            },
            Value::Null(_) => match b {
                Value::Null(_) => true,
                _ => false,
            },
            Value::SingleFloat(x) => match b {
                Value::SingleFloat(y) => f32_bits_equal(*x, *y),
                _ => false,
            },
            Value::DoubleFloat(x) => match b {
                Value::DoubleFloat(y) => f64_bits_equal(*x, *y),
                _ => false,
            },
            Value::Ipv4Addr(x) => match b {
                Value::Ipv4Addr(y) => {
                    let r = x[0] == y[0] && x[1] == y[1] && x[2] == y[2] && x[3] == y[3];
                    assert(r ==> x@ =~= y@);
                    r
                },
                _ => false,
            },
            Value::Ipv6Addr(x) => match b {
                Value::Ipv6Addr(y) => {
                    let r = x[0] == y[0] && x[1] == y[1] && x[2] == y[2] && x[3] == y[3]
                        && x[4] == y[4] && x[5] == y[5] && x[6] == y[6] && x[7] == y[7];
                    assert(r ==> x@ =~= y@);
                    r
                },
                _ => false,
            },
            Value::Array(xs) => match b {
                Value::Array(ys) => {
                    proof {
                        lemma_values_view(xs@);
                        lemma_values_view(ys@);
                    }
                    Self::arrays_equal(xs, ys)
                },
                _ => false,
            },
            Value::Dict(xs) => match b {
                Value::Dict(ys) => Self::dicts_equal(xs, ys),
                _ => false,
            },
        }
    }

    fn arrays_equal(xs: &Vec<Value>, ys: &Vec<Value>) -> (r: bool)
        ensures
            r == (xs@.len() == ys@.len() && arrays_eq(values_view(xs@), values_view(ys@))),
        decreases xs,
    {
        proof {
            lemma_values_view(xs@);
            lemma_values_view(ys@);
        }
        if xs.len() != ys.len() {
            return false;
        }
        let mut i: usize = 0;
        while i < xs.len()
            invariant
                i <= xs@.len(),
                xs@.len() == ys@.len(),
                values_view(xs@).len() == xs@.len(),
                values_view(ys@).len() == ys@.len(),
                forall|j: int| 0 <= j < xs@.len() ==> values_view(xs@)[j] == value_view(#[trigger] xs@[j]),
                forall|j: int| 0 <= j < ys@.len() ==> values_view(ys@)[j] == value_view(#[trigger] ys@[j]),
                forall|j: int| 0 <= j < i ==> #[trigger] value_eq(values_view(xs@)[j], values_view(ys@)[j]),
            decreases xs.len() - i,
        {
            if !Self::values_equal(&xs[i], &ys[i]) {
                proof {
                    lemma_arrays_eq(values_view(xs@), values_view(ys@));
                    assert(!value_eq(values_view(xs@)[i as int], values_view(ys@)[i as int]));
                }
                return false;
            }
            i = i + 1;
        }
        proof {
            lemma_arrays_eq(values_view(xs@), values_view(ys@));
        }
        true
    }

    pub(crate) fn dicts_equal(xs: &Vec<(String, Value)>, ys: &Vec<(String, Value)>) -> (r: bool)
        ensures
            r == dicts_eq(entries_view(xs@), entries_view(ys@)),
        decreases xs,
    {
        proof {
            lemma_entries_view(xs@);
            lemma_entries_view(ys@);
        }
        let ghost xv = entries_view(xs@);
        let ghost yv = entries_view(ys@);
        if xs.len() != ys.len() {
            return false;
        }
        let mut i: usize = 0;
        while i < xs.len()
            invariant
                i <= xs@.len(),
                xv == entries_view(xs@),
                yv == entries_view(ys@),
                xv.len() == xs@.len(),
                yv.len() == ys@.len(),
                xs@.len() == ys@.len(),
                forall|j: int| 0 <= j < xs@.len() ==> #[trigger] xv[j] == (xs@[j].0@, value_view(xs@[j].1)),
                forall|j: int| 0 <= j < ys@.len() ==> #[trigger] yv[j] == (ys@[j].0@, value_view(ys@[j].1)),
                forall|j: int| 0 <= j < i ==> (match #[trigger] entry_value(yv, xv[j].0) {
                    Some(w) => value_eq(xv[j].1, w),
                    None => false,
                }),
            decreases xs.len() - i,
        {
            let key = &xs[i].0;
            let mut j: usize = 0;
            assert(yv.subrange(0, yv.len() as int) =~= yv);
            while j < ys.len() && ys[j].0 != *key
                invariant
                    j <= ys@.len(),
                    yv.len() == ys@.len(),
                    forall|k: int| 0 <= k < ys@.len() ==> #[trigger] yv[k] == (ys@[k].0@, value_view(ys@[k].1)),
                    entry_value(yv.subrange(j as int, yv.len() as int), key@) == entry_value(yv, key@),
                decreases ys.len() - j,
            {
                assert(yv.subrange(j as int, yv.len() as int)[0] == yv[j as int]);
                assert(yv.subrange(j as int, yv.len() as int).drop_first() =~= yv.subrange(j + 1, yv.len() as int));
                j = j + 1;
            }
            assert(xv[i as int].0 == key@);
            if j == ys.len() {
                assert(yv.subrange(j as int, yv.len() as int).len() == 0);
                proof {
                    lemma_dict_matches(xv, yv);
                }
                return false;
            }
            assert(yv.subrange(j as int, yv.len() as int)[0] == yv[j as int]);
            assert(entry_value(yv, key@) == Some(value_view(ys@[j as int].1)));
            if !Self::values_equal(&xs[i].1, &ys[j].1) {
                proof {
                    lemma_dict_matches(xv, yv);
                }
                return false;
            }
            i = i + 1;
        }
        proof {
            lemma_dict_matches(xv, yv);
        }
        true
    }
}

impl PartialEq for Value {
    fn eq(&self, other: &Self) -> (r: bool) {
        Self::values_equal(self, other)
    }
}

impl vstd::std_specs::cmp::PartialEqSpecImpl for Value {
    open spec fn obeys_eq_spec() -> bool {
        true
    }

    open spec fn eq_spec(&self, other: &Self) -> bool {
        value_eq(value_view(*self), value_view(*other))
    }
}

impl Eq for Value {}

} // verus!
