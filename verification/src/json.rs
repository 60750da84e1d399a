//! JSON trees ([`Json`]) and the conversions between them and [`Value`]s.
//!
//! Numbers are held as JSON holds them: non-negative and negative integers of 64 bits, and
//! other numbers as the bit pattern of an `f64`. The kinds that JSON has no form for are
//! written as objects, tagged with their kind under the key `souris_type` when asked; reading
//! such a tagged object gives that kind back.
use vstd::prelude::*;
use vstd::arithmetic::power2::pow2;
use vstd::string::StringExecFns;
use crate::string_push;
use crate::types::binary::BinaryData;
use crate::types::imaginary::{Imaginary, ImaginaryView};
use crate::types::integer::{Integer, SignedState};
use crate::types::ts::{date_exists, time_exists, timestamp_parsed, timestamp_text, chrono_parse, space_to_t, Timestamp};
use crate::utilities::huffman::{chars_of, string_from_chars};
use crate::store::Store;
use crate::values::{
    dict_of,
    entries_view,
    lemma_dict_of_distinct,
    lemma_entries_view,
    lemma_values_view,
    tz_check,
    tz_name_known,
    ty_id,
    ty_of_id,
    value_view,
    values_view,
    view_ty,
    Value,
    ValueTy,
    ValueView,
};

verus! {

/// A JSON value.
#[derive(Debug)]
pub enum Json {
    /// `null`.
    Null,
    /// `true` or `false`.
    Bool(bool),
    /// A non-negative integer.
    PosInt(u64),
    /// A negative integer.
    NegInt(i64),
    /// Any other number, as the bit pattern of a finite `f64`.
    Float(u64),
    /// A string.
    String(String),
    /// An array.
    Array(Vec<Json>),
    /// An object's members, in order.
    Object(Vec<(String, Json)>),
    /// JSON text that stands for the value it parses to.
    Text(String),
}

/// What a [`Json`] holds, as plain values.
pub ghost enum JsonView {
    /// `null`.
    Null,
    /// A boolean.
    Bool(bool),
    /// A non-negative integer.
    PosInt(u64),
    /// A negative integer.
    NegInt(i64),
    /// The bit pattern of an `f64`.
    Float(u64),
    /// A string.
    String(Seq<char>),
    /// An array.
    Array(Seq<JsonView>),
    /// Members, in order.
    Object(Seq<(Seq<char>, JsonView)>),
    /// JSON text.
    Text(Seq<char>),
}

/// What a JSON value holds.
pub open spec fn json_view(j: Json) -> JsonView
    decreases j,
{
    match j {
        Json::Null => JsonView::Null,
        Json::Bool(b) => JsonView::Bool(b),
        Json::PosInt(u) => JsonView::PosInt(u),
        Json::NegInt(i) => JsonView::NegInt(i),
        Json::Float(b) => JsonView::Float(b),
        Json::String(s) => JsonView::String(s@),
        Json::Array(a) => JsonView::Array(jsons_view(a@)),
        Json::Object(m) => JsonView::Object(members_view(m@)),
        Json::Text(t) => JsonView::Text(t@),
    }
}

/// What each value of a JSON array holds.
pub open spec fn jsons_view(s: Seq<Json>) -> Seq<JsonView>
    decreases s,
{
    if s.len() == 0 {
        Seq::empty()
    } else {
        jsons_view(s.drop_last()).push(json_view(s.last()))
    }
}

/// What each member of a JSON object holds.
pub open spec fn members_view(s: Seq<(String, Json)>) -> Seq<(Seq<char>, JsonView)>
    decreases s,
{
    if s.len() == 0 {
        Seq::empty()
    } else {
        members_view(s.drop_last()).push((s.last().0@, json_view(s.last().1)))
    }
}

/// [`jsons_view`] maps each value to its view.
pub proof fn lemma_jsons_view(s: Seq<Json>)
    ensures
        jsons_view(s).len() == s.len(),
        forall|i: int|
            #![trigger jsons_view(s)[i]]
            #![trigger s[i]]
            0 <= i < s.len() ==> jsons_view(s)[i] == json_view(s[i]),
    decreases s.len(),
{
    if s.len() > 0 {
        lemma_jsons_view(s.drop_last());
        assert forall|i: int| 0 <= i < s.len() implies jsons_view(s)[i] == json_view(
            #[trigger] s[i],
        ) by {
            if i < s.len() - 1 {
                assert(s.drop_last()[i] == s[i]);
            }
        }
    }
}

/// [`members_view`] maps each member to its key's characters and its value's view.
pub proof fn lemma_members_view(s: Seq<(String, Json)>)
    ensures
        members_view(s).len() == s.len(),
        forall|i: int|
            #![trigger members_view(s)[i]]
            #![trigger s[i]]
            0 <= i < s.len() ==> members_view(s)[i] == (s[i].0@, json_view(s[i].1)),
    decreases s.len(),
{
    if s.len() > 0 {
        lemma_members_view(s.drop_last());
        assert forall|i: int| 0 <= i < s.len() implies members_view(s)[i] == (
            (#[trigger] s[i]).0@,
            json_view(s[i].1),
        ) by {
            if i < s.len() - 1 {
                assert(s.drop_last()[i] == s[i]);
            }
        }
    }
}

/// Whether the `f64` with this bit pattern is finite: its exponent bits are not all ones.
pub open spec fn f64_finite(b: u64) -> bool {
    (b / 0x10_0000_0000_0000) % 0x800 != 0x7FF
}

/// Whether the `f32` with this bit pattern is finite: its exponent bits are not all ones.
pub open spec fn f32_finite(b: u32) -> bool {
    (b / 0x80_0000) % 0x100 != 0xFF
}

/// Doubles `n` until it reaches `2^23` (at most until `k` is `23`), counting the doublings.
pub open spec fn normalised(n: nat, k: nat) -> (nat, nat)
    decreases 23 - k,
{
    if n == 0 || n >= 0x80_0000 || k >= 23 {
        (n, k)
    } else {
        normalised(2 * n, k + 1)
    }
}

/// The bit pattern of the `f64` equal to the `f32` with bit pattern `b`, for a finite `f32`:
/// the sign is kept, a normal number keeps its fraction with the exponent rebiased, and a
/// subnormal one is normalised first.
pub open spec fn f32_widened(b: u32) -> u64 {
    let s = b / 0x8000_0000;
    let e = (b / 0x80_0000) % 0x100;
    let m = b % 0x80_0000;
    if e == 0 && m == 0 {
        (s * 0x8000_0000_0000_0000) as u64
    } else if e != 0 {
        (s * 0x8000_0000_0000_0000 + (e + 896) * 0x10_0000_0000_0000 + m * 0x2000_0000) as u64
    } else {
        let (n, k) = normalised(m as nat, 0);
        let f: int = if n >= 0x80_0000 {
            n - 0x80_0000
        } else {
            0
        };
        (s * 0x8000_0000_0000_0000 + (897 - k) * 0x10_0000_0000_0000 + f * 0x2000_0000) as u64
    }
}

/// The bit pattern of the `f64` equal to the finite `f32` with bit pattern `b`: see
/// [`f32_widened`].
pub fn widen_f32(b: u32) -> (r: u64)
    ensures
        r == f32_widened(b),
{
    let s: u64 = (b / 0x8000_0000) as u64;
    let e: u64 = ((b / 0x80_0000) % 0x100) as u64;
    let m: u64 = (b % 0x80_0000) as u64;
    if e == 0 && m == 0 {
        s * 0x8000_0000_0000_0000
    } else if e != 0 {
        s * 0x8000_0000_0000_0000 + (e + 896) * 0x10_0000_0000_0000 + m * 0x2000_0000
    } else {
        let mut n: u64 = m;
        let mut k: u64 = 0;
        while n < 0x80_0000 && k < 23
            invariant
                0 < n < 0x100_0000,
                k <= 23,
                normalised(n as nat, k as nat) == normalised(m as nat, 0),
            decreases 23 - k,
        {
            n = 2 * n;
            k = k + 1;
        }
        let f: u64 = if n >= 0x80_0000 {
            n - 0x80_0000
        } else {
            0
        };
        s * 0x8000_0000_0000_0000 + (897 - k) * 0x10_0000_0000_0000 + f * 0x2000_0000
    }
}

/// An integer with this signed state and magnitude as a JSON number: `None` beyond what an
/// `i64` (negative) or a `u64` holds.
pub open spec fn int_json(ss: SignedState, mag: nat) -> Option<JsonView> {
    if ss == SignedState::Negative {
        if mag <= 0x8000_0000_0000_0000 {
            Some(JsonView::NegInt((-mag) as i64))
        } else {
            None
        }
    } else if mag <= u64::MAX {
        Some(JsonView::PosInt(mag as u64))
    } else {
        None
    }
}

/// A float with this bit pattern as a JSON number, or `0` when it is not finite.
pub open spec fn float_or_zero(b: u64) -> JsonView {
    if f64_finite(b) {
        JsonView::Float(b)
    } else {
        JsonView::PosInt(0)
    }
}

/// The key under which a tagged object names its kind.
pub open spec fn tag_key() -> Seq<char> {
    "souris_type"@
}

/// `members`, after the tag naming kind `t` when `add` is set.
pub open spec fn tagged(add: bool, t: ValueTy, members: Seq<(Seq<char>, JsonView)>) -> Seq<
    (Seq<char>, JsonView),
> {
    if add {
        seq![(tag_key(), JsonView::PosInt(ty_id(t) as u64))] + members
    } else {
        members
    }
}

/// Numbers as JSON numbers.
pub open spec fn bytes_json(b: Seq<u8>) -> Seq<JsonView> {
    Seq::new(b.len(), |i: int| JsonView::PosInt(b[i] as u64))
}

/// Numbers as JSON numbers.
pub open spec fn segments_json(b: Seq<u16>) -> Seq<JsonView> {
    Seq::new(b.len(), |i: int| JsonView::PosInt(b[i] as u64))
}

/// Whether seven fields make a valid timestamp.
pub open spec fn fields_valid(f: Seq<int>) -> bool {
    f.len() == 7 && date_exists(f[0], f[1], f[2]) && time_exists(f[3], f[4], f[5], f[6])
}

/// A value as JSON: `None` for an integer beyond 64 bits or a float that is not finite, at
/// any depth. With `add`, the kinds written as objects are tagged with their kind.
pub open spec fn json_of(v: ValueView, add: bool) -> Option<JsonView>
    decreases v,
{
    match v {
        ValueView::Character(c) => Some(JsonView::String(seq![c])),
        ValueView::String(s) => Some(JsonView::String(s)),
        ValueView::Boolean(b) => Some(JsonView::Bool(b)),
        ValueView::Integer(ss, m) => int_json(ss, m),
        ValueView::JSON(t) => Some(JsonView::Text(t)),
        ValueView::Null => Some(JsonView::Null),
        ValueView::SingleFloat(b) => if f32_finite(b) {
            Some(JsonView::Float(f32_widened(b)))
        } else {
            None
        },
        ValueView::DoubleFloat(b) => if f64_finite(b) {
            Some(JsonView::Float(b))
        } else {
            None
        },
        ValueView::Array(vs) => match jsons_of(vs, add) {
            Some(js) => Some(JsonView::Array(js)),
            None => None,
        },
        ValueView::Dict(es) => match members_of(es, add) {
            Some(ms) => Some(JsonView::Object(ms)),
            None => None,
        },
        ValueView::Imaginary(ImaginaryView::Cartesian(rs, rm, is, im)) => match (
            int_json(rs, rm),
            int_json(is, im),
        ) {
            (Some(a), Some(b)) => Some(
                JsonView::Object(
                    tagged(add, ValueTy::Imaginary, seq![("real"@, a), ("imaginary"@, b)]),
                ),
            ),
            _ => None,
        },
        ValueView::Imaginary(ImaginaryView::Polar(m, a)) => Some(
            JsonView::Object(
                tagged(
                    add,
                    ValueTy::Imaginary,
                    seq![("modulus"@, float_or_zero(m)), ("argument"@, float_or_zero(a))],
                ),
            ),
        ),
        ValueView::Timestamp(f) => if fields_valid(f) {
            Some(
                JsonView::Object(
                    tagged(
                        add,
                        ValueTy::Timestamp,
                        seq![("timestamp"@, JsonView::String(timestamp_text(f)))],
                    ),
                ),
            )
        } else {
            None
        },
        ValueView::Timezone(n) => Some(
            JsonView::Object(
                tagged(add, ValueTy::Timezone, seq![("timezone"@, JsonView::String(n))]),
            ),
        ),
        ValueView::Binary(b) => Some(
            JsonView::Object(
                tagged(add, ValueTy::Binary, seq![("bytes"@, JsonView::Array(bytes_json(b)))]),
            ),
        ),
        ValueView::Ipv4Addr(o) => if add {
            Some(
                JsonView::Object(
                    tagged(
                        true,
                        ValueTy::Ipv4Addr,
                        seq![("octets"@, JsonView::Array(bytes_json(o)))],
                    ),
                ),
            )
        } else {
            Some(JsonView::Array(bytes_json(o)))
        },
        ValueView::Ipv6Addr(o) => if add {
            Some(
                JsonView::Object(
                    tagged(
                        true,
                        ValueTy::Ipv6Addr,
                        seq![("octets"@, JsonView::Array(segments_json(o)))],
                    ),
                ),
            )
        } else {
            Some(JsonView::Array(segments_json(o)))
        },
    }
}

/// The values of a list as JSON, in order; `None` if one of them has no JSON form.
pub open spec fn jsons_of(vs: Seq<ValueView>, add: bool) -> Option<Seq<JsonView>>
    decreases vs,
{
    if vs.len() == 0 {
        Some(Seq::empty())
    } else {
        match (jsons_of(vs.drop_last(), add), json_of(vs.last(), add)) {
            (Some(js), Some(j)) => Some(js.push(j)),
            _ => None,
        }
    }
}

/// The entries of a dictionary as JSON members, in order; `None` if a value has no JSON form.
pub open spec fn members_of(es: Seq<(Seq<char>, ValueView)>, add: bool) -> Option<
    Seq<(Seq<char>, JsonView)>,
>
    decreases es,
{
    if es.len() == 0 {
        Some(Seq::empty())
    } else {
        match (members_of(es.drop_last(), add), json_of(es.last().1, add)) {
            (Some(ms), Some(j)) => Some(ms.push((es.last().0, j))),
            _ => None,
        }
    }
}

/// [`jsons_of`] succeeds exactly when every value has a JSON form, and then holds each one's.
pub proof fn lemma_jsons_of(vs: Seq<ValueView>, add: bool)
    ensures
        jsons_of(vs, add) is Some <==> forall|i: int|
            0 <= i < vs.len() ==> (#[trigger] json_of(vs[i], add)) is Some,
        jsons_of(vs, add) matches Some(js) ==> js.len() == vs.len() && forall|i: int|
            0 <= i < vs.len() ==> Some(#[trigger] js[i]) == json_of(vs[i], add),
    decreases vs.len(),
{
    if vs.len() > 0 {
        lemma_jsons_of(vs.drop_last(), add);
        assert forall|i: int| 0 <= i < vs.len() - 1 implies vs.drop_last()[i] == vs[i] by {}
        assert(vs.last() == vs[vs.len() - 1]);
        if forall|i: int| 0 <= i < vs.len() ==> (#[trigger] json_of(vs[i], add)) is Some {
            assert forall|i: int| 0 <= i < vs.drop_last().len() implies (#[trigger] json_of(
                vs.drop_last()[i],
                add,
            )) is Some by {
                assert(json_of(vs[i], add) is Some);
            }
            assert(json_of(vs[vs.len() - 1], add) is Some);
        }
        if jsons_of(vs.drop_last(), add) is None {
            let i = choose|i: int|
                0 <= i < vs.drop_last().len() && (#[trigger] json_of(vs.drop_last()[i], add))
                    is None;
            assert(json_of(vs[i], add) is None);
        }
    }
}

/// [`members_of`] succeeds exactly when every value has a JSON form, and then holds each
/// key with its value's.
pub proof fn lemma_members_of(es: Seq<(Seq<char>, ValueView)>, add: bool)
    ensures
        members_of(es, add) is Some <==> forall|i: int|
            0 <= i < es.len() ==> (#[trigger] json_of(es[i].1, add)) is Some,
        members_of(es, add) matches Some(ms) ==> ms.len() == es.len() && forall|i: int|
            0 <= i < es.len() ==> (#[trigger] ms[i]).0 == es[i].0 && Some(ms[i].1) == json_of(
                es[i].1,
                add,
            ),
    decreases es.len(),
{
    if es.len() > 0 {
        lemma_members_of(es.drop_last(), add);
        assert forall|i: int| 0 <= i < es.len() - 1 implies es.drop_last()[i] == es[i] by {}
        assert(es.last() == es[es.len() - 1]);
        if forall|i: int| 0 <= i < es.len() ==> (#[trigger] json_of(es[i].1, add)) is Some {
            assert forall|i: int| 0 <= i < es.drop_last().len() implies (#[trigger] json_of(
                es.drop_last()[i].1,
                add,
            )) is Some by {
                assert(json_of(es[i].1, add) is Some);
            }
            assert(json_of(es[es.len() - 1].1, add) is Some);
        }
        if members_of(es.drop_last(), add) is None {
            let i = choose|i: int|
                0 <= i < es.drop_last().len() && (#[trigger] json_of(es.drop_last()[i].1, add))
                    is None;
            assert(json_of(es[i].1, add) is None);
        }
    }
}

/// The value of the first member whose key is `key`, if any.
pub open spec fn lookup(ms: Seq<(Seq<char>, JsonView)>, key: Seq<char>) -> Option<JsonView>
    decreases ms.len(),
{
    if ms.len() == 0 {
        None
    } else if ms[0].0 == key {
        Some(ms[0].1)
    } else {
        lookup(ms.drop_first(), key)
    }
}

/// A JSON number as a `u64`, if it is a non-negative integer.
pub open spec fn json_u64(j: JsonView) -> Option<u64> {
    match j {
        JsonView::PosInt(u) => Some(u),
        JsonView::NegInt(i) => if i >= 0 {
            Some(i as u64)
        } else {
            None
        },
        _ => None,
    }
}

/// A JSON number as the signed state and magnitude of an integer, if it is an integer.
pub open spec fn json_int(j: JsonView) -> Option<(SignedState, nat)> {
    match j {
        JsonView::PosInt(u) => Some((SignedState::Positive, u as nat)),
        JsonView::NegInt(i) => if i < 0 {
            Some((SignedState::Negative, (-i) as nat))
        } else {
            Some((SignedState::Positive, i as nat))
        },
        _ => None,
    }
}

/// Whether every item is a non-negative integer no greater than `max`.
pub open spec fn all_at_most(items: Seq<JsonView>, max: u64) -> bool {
    forall|i: int|
        0 <= i < items.len() ==> ((#[trigger] json_u64(items[i])) matches Some(n) && n <= max)
}

/// The items as bytes.
pub open spec fn items_bytes(items: Seq<JsonView>) -> Seq<u8> {
    Seq::new(items.len(), |i: int| json_u64(items[i]).unwrap() as u8)
}

/// The items as 16-bit segments.
pub open spec fn items_segments(items: Seq<JsonView>) -> Seq<u16> {
    Seq::new(items.len(), |i: int| json_u64(items[i]).unwrap() as u16)
}

/// The value of kind `t` that a tagged object with members `ms` stands for, if its members
/// make one.
pub open spec fn tagged_kind(t: ValueTy, ms: Seq<(Seq<char>, JsonView)>) -> Option<ValueView> {
    if t == ValueTy::Imaginary {
        let cartesian = match (lookup(ms, "real"@), lookup(ms, "imaginary"@)) {
            (Some(a), Some(b)) => match (json_int(a), json_int(b)) {
                (Some(x), Some(y)) => Some(ValueView::Imaginary(ImaginaryView::Cartesian(x.0, x.1, y.0, y.1))),
                _ => None,
            },
            _ => None,
        };
        if cartesian is Some {
            cartesian
        } else {
            match (lookup(ms, "modulus"@), lookup(ms, "argument"@)) {
                (Some(a), Some(g)) => match (json_f64(a), json_f64(g)) {
                    (Some(x), Some(y)) => Some(ValueView::Imaginary(ImaginaryView::Polar(x, y))),
                    _ => None,
                },
                _ => None,
            }
        }
    } else if t == ValueTy::Timestamp {
        match lookup(ms, "timestamp"@) {
            Some(JsonView::String(text)) => match read_timestamp(text) {
                Some(f) => if fields_valid(f) {
                    Some(ValueView::Timestamp(f))
                } else {
                    None
                },
                None => None,
            },
            _ => None,
        }
    } else if t == ValueTy::Timezone {
        match lookup(ms, "timezone"@) {
            Some(JsonView::String(n)) => if tz_name_known(n) {
                Some(ValueView::Timezone(n))
            } else {
                None
            },
            _ => None,
        }
    } else if t == ValueTy::Binary {
        match lookup(ms, "bytes"@) {
            Some(JsonView::Array(items)) => if all_at_most(items, 255) {
                Some(ValueView::Binary(items_bytes(items)))
            } else {
                None
            },
            _ => None,
        }
    } else if t == ValueTy::Ipv4Addr {
        match lookup(ms, "octets"@) {
            Some(JsonView::Array(items)) => if items.len() == 4 && all_at_most(items, 255) {
                Some(ValueView::Ipv4Addr(items_bytes(items)))
            } else {
                None
            },
            _ => None,
        }
    } else if t == ValueTy::Ipv6Addr {
        match lookup(ms, "octets"@) {
            Some(JsonView::Array(items)) => if items.len() == 8 && all_at_most(items, 65535) {
                Some(ValueView::Ipv6Addr(items_segments(items)))
            } else {
                None
            },
            _ => None,
        }
    } else {
        None
    }
}

/// The value a tagged object stands for: the kind named under `souris_type`, when it is one
/// of the tagged kinds and the other members make a value of it.
pub open spec fn tagged_value(ms: Seq<(Seq<char>, JsonView)>) -> Option<ValueView> {
    match lookup(ms, tag_key()) {
        Some(t) => match json_u64(t) {
            Some(n) => if n < 16 {
                tagged_kind(ty_of_id(n as u8), ms)
            } else {
                None
            },
            None => None,
        },
        None => None,
    }
}

/// A JSON value as a value: integers as integers, other numbers as double floats, tagged
/// objects as their kind and other objects as dictionaries.
pub open spec fn value_of_json(j: JsonView) -> ValueView
    decreases j,
{
    match j {
        JsonView::Null => ValueView::Null,
        JsonView::Bool(b) => ValueView::Boolean(b),
        JsonView::PosInt(u) => ValueView::Integer(SignedState::Positive, u as nat),
        JsonView::NegInt(i) => if i < 0 {
            ValueView::Integer(SignedState::Negative, (-i) as nat)
        } else {
            ValueView::Integer(SignedState::Positive, i as nat)
        },
        JsonView::Float(b) => ValueView::DoubleFloat(b),
        JsonView::String(s) => ValueView::String(s),
        JsonView::Text(t) => ValueView::JSON(t),
        JsonView::Array(js) => ValueView::Array(values_of_json(js)),
        JsonView::Object(ms) => match tagged_value(ms) {
            Some(v) => v,
            None => ValueView::Dict(entries_of_json(ms)),
        },
    }
}

/// Each JSON value of an array as a value.
pub open spec fn values_of_json(js: Seq<JsonView>) -> Seq<ValueView>
    decreases js,
{
    if js.len() == 0 {
        Seq::empty()
    } else {
        values_of_json(js.drop_last()).push(value_of_json(js.last()))
    }
}

/// Each member of an object as a dictionary entry.
pub open spec fn entries_of_json(ms: Seq<(Seq<char>, JsonView)>) -> Seq<(Seq<char>, ValueView)>
    decreases ms,
{
    if ms.len() == 0 {
        Seq::empty()
    } else {
        entries_of_json(ms.drop_last()).push((ms.last().0, value_of_json(ms.last().1)))
    }
}

/// [`values_of_json`] maps each JSON value to its value.
pub proof fn lemma_values_of_json(js: Seq<JsonView>)
    ensures
        values_of_json(js).len() == js.len(),
        forall|i: int| 0 <= i < js.len() ==> #[trigger] values_of_json(js)[i] == value_of_json(js[i]),
    decreases js.len(),
{
    if js.len() > 0 {
        lemma_values_of_json(js.drop_last());
        assert forall|i: int| 0 <= i < js.len() implies #[trigger] values_of_json(js)[i] == value_of_json(js[i]) by {
            if i < js.len() - 1 {
                assert(js.drop_last()[i] == js[i]);
            }
        }
    }
}

/// [`entries_of_json`] maps each member to its key and its value's value.
pub proof fn lemma_entries_of_json(ms: Seq<(Seq<char>, JsonView)>)
    ensures
        entries_of_json(ms).len() == ms.len(),
        forall|i: int| 0 <= i < ms.len() ==> #[trigger] entries_of_json(ms)[i] == (ms[i].0, value_of_json(ms[i].1)),
    decreases ms.len(),
{
    if ms.len() > 0 {
        lemma_entries_of_json(ms.drop_last());
        assert forall|i: int| 0 <= i < ms.len() implies #[trigger] entries_of_json(ms)[i] == (ms[i].0, value_of_json(ms[i].1)) by {
            if i < ms.len() - 1 {
                assert(ms.drop_last()[i] == ms[i]);
            }
        }
    }
}

/// Whether a value of one of the tagged kinds comes back from its tagged JSON: an address of
/// the right length, a known time zone, a valid timestamp, a cartesian form whose parts fit
/// JSON integers and are not a negative zero, a polar form with finite parts, or any blob.
pub open spec fn tagged_roundtrips(v: ValueView) -> bool {
    match v {
        ValueView::Binary(_) => true,
        ValueView::Timestamp(f) => fields_valid(f),
        ValueView::Ipv4Addr(o) => o.len() == 4,
        ValueView::Ipv6Addr(o) => o.len() == 8,
        ValueView::Timezone(n) => tz_name_known(n),
        ValueView::Imaginary(ImaginaryView::Cartesian(rs, rm, is, im)) => {
            &&& int_json(rs, rm) is Some
            &&& int_json(is, im) is Some
            &&& (rs == SignedState::Negative ==> rm > 0)
            &&& (is == SignedState::Negative ==> im > 0)
        },
        ValueView::Imaginary(ImaginaryView::Polar(m, a)) => f64_finite(m) && f64_finite(a),
        _ => false,
    }
}

/// A JSON integer reads back as the integer it was written from, unless that was a negative
/// zero.
proof fn lemma_int_roundtrip(ss: SignedState, m: nat)
    requires
        int_json(ss, m) is Some,
        ss == SignedState::Negative ==> m > 0,
    ensures
        json_int(int_json(ss, m).unwrap()) == Some((ss, m)),
{
}

/// A value of a tagged kind other than a timestamp, written as JSON with its tag and read
/// back, is the same value. (For a timestamp the round trip rests on the text chrono writes,
/// and [`Value::convert_to_json`] states it for the text it was given.)
pub proof fn lemma_tagged_roundtrip(v: ValueView)
    requires
        tagged_roundtrips(v),
        !(v is Timestamp),
    ensures
        json_of(v, true) is Some,
        value_of_json(json_of(v, true).unwrap()) == v,
{
    reveal_strlit("souris_type");
    reveal_strlit("bytes");
    reveal_strlit("octets");
    reveal_strlit("timezone");
    reveal_strlit("real");
    reveal_strlit("imaginary");
    reveal_strlit("modulus");
    reveal_strlit("argument");
    assert(tag_key().len() == 11 && "bytes"@.len() == 5 && "octets"@.len() == 6);
    assert("timezone"@.len() == 8 && "real"@.len() == 4 && "imaginary"@.len() == 9);
    assert("modulus"@.len() == 7 && "argument"@.len() == 8);
    let j = json_of(v, true).unwrap();
    let ms = j->Object_0;
    assert(ms[0].0 == tag_key());
    assert(lookup(ms, tag_key()) == Some(ms[0].1));
    match v {
        ValueView::Binary(b) => {
            assert(tag_key().len() != "bytes"@.len());
            assert(ms.drop_first()[0] == ms[1]);
            assert(ms.drop_first()[0].0 == "bytes"@);
            assert(lookup(ms.drop_first(), "bytes"@) == Some(ms[1].1));
            assert(ms[0].0 != "bytes"@);
            assert(lookup(ms, "bytes"@) == Some(ms[1].1));
            assert(items_bytes(bytes_json(b)) =~= b);
        },
        ValueView::Ipv4Addr(o) => {
            assert(tag_key().len() != "octets"@.len());
            assert(ms.drop_first()[0] == ms[1]);
            assert(ms.drop_first()[0].0 == "octets"@);
            assert(lookup(ms.drop_first(), "octets"@) == Some(ms[1].1));
            assert(ms[0].0 != "octets"@);
            assert(lookup(ms, "octets"@) == Some(ms[1].1));
            assert(items_bytes(bytes_json(o)) =~= o);
        },
        ValueView::Ipv6Addr(o) => {
            assert(tag_key().len() != "octets"@.len());
            assert(ms.drop_first()[0] == ms[1]);
            assert(ms.drop_first()[0].0 == "octets"@);
            assert(lookup(ms.drop_first(), "octets"@) == Some(ms[1].1));
            assert(ms[0].0 != "octets"@);
            assert(lookup(ms, "octets"@) == Some(ms[1].1));
            assert(items_segments(segments_json(o)) =~= o);
        },
        ValueView::Timezone(n) => {
            assert(ms.drop_first()[0] == ms[1]);
            assert(ms.drop_first()[0].0 == "timezone"@);
            assert(lookup(ms.drop_first(), "timezone"@) == Some(ms[1].1));
            assert(ms[0].0 != "timezone"@);
            assert(lookup(ms, "timezone"@) == Some(ms[1].1));
        },
        ValueView::Imaginary(ImaginaryView::Cartesian(rs, rm, is, im)) => {
            lemma_int_roundtrip(rs, rm);
            lemma_int_roundtrip(is, im);
            let d = ms.drop_first();
            let e = d.drop_first();
            assert(d[0] == ms[1] && e[0] == ms[2]);
            assert(ms[0].0 != "real"@ && ms[1].0 == "real"@);
            assert(lookup(d, "real"@) == Some(ms[1].1));
            assert(lookup(ms, "real"@) == Some(ms[1].1));
            assert(ms[0].0 != "imaginary"@ && ms[1].0 != "imaginary"@ && ms[2].0 == "imaginary"@);
            assert(lookup(e, "imaginary"@) == Some(ms[2].1));
            assert(lookup(d, "imaginary"@) == Some(ms[2].1));
            assert(lookup(ms, "imaginary"@) == Some(ms[2].1));
        },
        ValueView::Imaginary(ImaginaryView::Polar(m, a)) => {
            let d = ms.drop_first();
            let e = d.drop_first();
            assert(e.drop_first().len() == 0);
            assert(lookup(e.drop_first(), "real"@) is None);
            assert(e[0] == ms[2] && d[0] == ms[1]);
            assert(ms[2].0 != "real"@ && ms[1].0 != "real"@ && ms[0].0 != "real"@);
            assert(lookup(e, "real"@) is None);
            assert(lookup(d, "real"@) is None);
            assert(lookup(ms, "real"@) is None);
            assert(d[0].0 == "modulus"@);
            assert(lookup(d, "modulus"@) == Some(ms[1].1));
            assert(lookup(ms, "modulus"@) == Some(ms[1].1));
            assert(e[0].0 == "argument"@ && ms[1].0 != "argument"@ && ms[0].0 != "argument"@);
            assert(lookup(e, "argument"@) == Some(ms[2].1));
            assert(lookup(d, "argument"@) == Some(ms[2].1));
            assert(lookup(ms, "argument"@) == Some(ms[2].1));
        },
        _ => {},
    }
}

/// A store's entries as JSON: the value itself when the one key is `JSON`, otherwise an
/// object of the entries; `None` where a value has no JSON form.
pub open spec fn store_json(es: Seq<(Seq<char>, ValueView)>, add: bool) -> Option<JsonView> {
    if es.len() == 1 && es[0].0 == "JSON"@ {
        json_of(es[0].1, add)
    } else {
        match members_of(es, add) {
            Some(ms) => Some(JsonView::Object(ms)),
            None => None,
        }
    }
}

/// The entries of the store read from JSON: an object's members, or any other value under
/// the key `JSON`.
pub open spec fn store_entries_of_json(j: JsonView) -> Seq<(Seq<char>, ValueView)> {
    match value_of_json(j) {
        ValueView::Dict(es) => es,
        v => seq![("JSON"@, v)],
    }
}

/// A character becomes the JSON string of just that character; a string, a boolean, null and
/// JSON text become the JSON string, boolean, null and text holding the same; an integer
/// becomes the JSON integer of its sign and magnitude when a 64-bit JSON integer holds it, and
/// has no JSON form otherwise; a double float becomes the JSON number with its bits when it is
/// finite, and has no JSON form otherwise. Tagging changes none of these.
pub proof fn lemma_json_of_plain(v: ValueView, add: bool)
    ensures
        v matches ValueView::Character(c) ==> json_of(v, add) == Some(JsonView::String(seq![c])),
        v matches ValueView::String(s) ==> json_of(v, add) == Some(JsonView::String(s)),
        v matches ValueView::Boolean(b) ==> json_of(v, add) == Some(JsonView::Bool(b)),
        v is Null ==> json_of(v, add) == Some(JsonView::Null),
        v matches ValueView::JSON(t) ==> json_of(v, add) == Some(JsonView::Text(t)),
        v matches ValueView::Integer(ss, m) ==> (ss == SignedState::Positive && m <= u64::MAX
            ==> (json_of(v, add) matches Some(JsonView::PosInt(u)) && u == m)),
        v matches ValueView::Integer(ss, m) ==> (ss == SignedState::Negative && 0 < m
            <= 0x8000_0000_0000_0000 ==> (json_of(v, add) matches Some(JsonView::NegInt(i))
            && i == -m)),
        v matches ValueView::Integer(ss, m) ==> (m > u64::MAX || (ss == SignedState::Negative
            && m > 0x8000_0000_0000_0000) ==> json_of(v, add) is None),
        v matches ValueView::DoubleFloat(b) ==> (f64_finite(b) ==> json_of(v, add) == Some(
            JsonView::Float(b),
        )),
        v matches ValueView::DoubleFloat(b) ==> (!f64_finite(b) ==> json_of(v, add) is None),
        v is Character || v is String || v is Boolean || v is Null || v is JSON || v is Integer
            || v is DoubleFloat ==> json_of(v, true) == json_of(v, false),
{
}

/// A list becomes the JSON array of its values' JSON, in order, and a dictionary the JSON
/// object of its entries, key by key in order, each value as its JSON; either has a JSON form
/// exactly when each of its values has one.
pub proof fn lemma_json_of_collections(
    vs: Seq<ValueView>,
    es: Seq<(Seq<char>, ValueView)>,
    add: bool,
)
    ensures
        json_of(ValueView::Array(vs), add) is Some <==> forall|i: int|
            0 <= i < vs.len() ==> (#[trigger] json_of(vs[i], add)) is Some,
        json_of(ValueView::Array(vs), add) is Some ==> (json_of(ValueView::Array(vs), add).unwrap() matches JsonView::Array(
            js,
        ) && js.len() == vs.len() && forall|i: int|
            0 <= i < vs.len() ==> Some(#[trigger] js[i]) == json_of(vs[i], add)),
        json_of(ValueView::Dict(es), add) is Some <==> forall|i: int|
            0 <= i < es.len() ==> (#[trigger] json_of(es[i].1, add)) is Some,
        json_of(ValueView::Dict(es), add) is Some ==> (json_of(ValueView::Dict(es), add).unwrap() matches JsonView::Object(
            ms,
        ) && ms.len() == es.len() && forall|i: int|
            0 <= i < es.len() ==> (#[trigger] ms[i]).0 == es[i].0 && Some(ms[i].1) == json_of(
                es[i].1,
                add,
            )),
{
    lemma_jsons_of(vs, add);
    lemma_members_of(es, add);
}

/// For the kinds written as objects (complex numbers, timestamps, time zones and blobs),
/// tagging puts one member in front, naming the kind under `souris_type`, and changes nothing
/// else. An address is written untagged as the array of its octets or segments, in order, and
/// tagged as an object holding that array under `octets`, after the tag.
pub proof fn lemma_json_of_tagging(v: ValueView)
    ensures
        v is Imaginary || v is Timestamp || v is Timezone || v is Binary ==> (json_of(v, true) is Some
            <==> json_of(v, false) is Some),
        (v is Imaginary || v is Timestamp || v is Timezone || v is Binary) && json_of(v, false) is Some
            ==> (json_of(v, false).unwrap() matches JsonView::Object(ms) && json_of(v, true) == Some(
            JsonView::Object(
                seq![(tag_key(), JsonView::PosInt(ty_id(view_ty(v)) as u64))] + ms,
            ),
        )),
        v matches ValueView::Ipv4Addr(o) ==> (json_of(v, false) matches Some(JsonView::Array(items))
            && items.len() == o.len() && (forall|i: int|
            0 <= i < o.len() ==> #[trigger] items[i] == JsonView::PosInt(o[i] as u64)) && json_of(
            v,
            true,
        ) == Some(
            JsonView::Object(
                seq![(tag_key(), JsonView::PosInt(13)), ("octets"@, JsonView::Array(items))],
            ),
        )),
        v matches ValueView::Ipv6Addr(o) ==> (json_of(v, false) matches Some(JsonView::Array(items))
            && items.len() == o.len() && (forall|i: int|
            0 <= i < o.len() ==> #[trigger] items[i] == JsonView::PosInt(o[i] as u64)) && json_of(
            v,
            true,
        ) == Some(
            JsonView::Object(
                seq![(tag_key(), JsonView::PosInt(14)), ("octets"@, JsonView::Array(items))],
            ),
        )),
{
    match v {
        ValueView::Ipv4Addr(o) => {
            let m = ("octets"@, JsonView::Array(bytes_json(o)));
            assert(seq![(tag_key(), JsonView::PosInt(13))] + seq![m] =~= seq![
                (tag_key(), JsonView::PosInt(13)),
                m,
            ]);
        },
        ValueView::Ipv6Addr(o) => {
            let m = ("octets"@, JsonView::Array(segments_json(o)));
            assert(seq![(tag_key(), JsonView::PosInt(14))] + seq![m] =~= seq![
                (tag_key(), JsonView::PosInt(14)),
                m,
            ]);
        },
        _ => {},
    }
}

/// JSON null, booleans, strings and text are read as the value holding the same; a
/// non-negative integer as a positive integer of that magnitude and a negative one as a
/// negative integer of its magnitude; any other number as the double float with its bits;
/// an array as the list of its items read one by one, in order; an object without a
/// `souris_type` member as the dictionary of its members, each value read, in order.
pub proof fn lemma_value_of_json_plain(j: JsonView)
    ensures
        j is Null ==> value_of_json(j) == ValueView::Null,
        j matches JsonView::Bool(b) ==> value_of_json(j) == ValueView::Boolean(b),
        j matches JsonView::String(s) ==> value_of_json(j) == ValueView::String(s),
        j matches JsonView::Text(t) ==> value_of_json(j) == ValueView::JSON(t),
        j matches JsonView::PosInt(u) ==> value_of_json(j) matches ValueView::Integer(ss, m)
            && ss == SignedState::Positive && m == u,
        j matches JsonView::NegInt(i) ==> value_of_json(j) matches ValueView::Integer(ss, m) && (
        if i < 0 {
            ss == SignedState::Negative && m == -i
        } else {
            ss == SignedState::Positive && m == i
        }),
        j matches JsonView::Float(b) ==> value_of_json(j) == ValueView::DoubleFloat(b),
        j matches JsonView::Array(js) ==> value_of_json(j) matches ValueView::Array(vs) && vs.len()
            == js.len() && forall|i: int| 0 <= i < js.len() ==> #[trigger] vs[i] == value_of_json(js[i]),
        j matches JsonView::Object(ms) ==> (lookup(ms, tag_key()) is None ==> (value_of_json(j) matches ValueView::Dict(
            es,
        ) && es.len() == ms.len() && forall|i: int|
            0 <= i < ms.len() ==> #[trigger] es[i] == (ms[i].0, value_of_json(ms[i].1)))),
{
    match j {
        JsonView::Array(js) => lemma_values_of_json(js),
        JsonView::Object(ms) => lemma_entries_of_json(ms),
        _ => {},
    }
}

/// Whether a value written as JSON without tags reads back as itself: a string, a boolean,
/// null, JSON text, a finite double float, and an integer that a 64-bit JSON integer holds
/// and that is not a negative zero.
pub open spec fn plain_roundtrips(v: ValueView) -> bool {
    match v {
        ValueView::String(_) | ValueView::Boolean(_) | ValueView::Null | ValueView::JSON(_) => true,
        ValueView::DoubleFloat(b) => f64_finite(b),
        ValueView::Integer(ss, m) => if ss == SignedState::Negative {
            0 < m <= 0x8000_0000_0000_0000
        } else {
            m <= u64::MAX
        },
        _ => false,
    }
}

/// A string, boolean, null, JSON text, finite double float or 64-bit integer, written as JSON
/// (tagged or not) and read back, is the same value; a character comes back as the string of
/// just that character.
pub proof fn lemma_plain_roundtrip(v: ValueView, add: bool)
    ensures
        plain_roundtrips(v) ==> json_of(v, add) is Some && value_of_json(json_of(v, add).unwrap())
            == v,
        v matches ValueView::Character(c) ==> json_of(v, add) is Some && value_of_json(
            json_of(v, add).unwrap(),
        ) == ValueView::String(seq![c]),
{
    lemma_json_of_plain(v, add);
    if json_of(v, add) is Some {
        lemma_value_of_json_plain(json_of(v, add).unwrap());
    }
}

/// JSON null, a boolean, a string, text, a non-negative or negative integer, or a finite
/// number, read as a value and written back (tagged or not), is the same JSON.
pub proof fn lemma_json_plain_roundtrip(j: JsonView, add: bool)
    requires
        j is Null || j is Bool || j is String || j is Text || j is PosInt || (j matches JsonView::NegInt(
            i,
        ) && i < 0) || (j matches JsonView::Float(b) && f64_finite(b)),
    ensures
        json_of(value_of_json(j), add) == Some(j),
{
    lemma_value_of_json_plain(j);
    lemma_json_of_plain(value_of_json(j), add);
}

/// A store is written as a JSON object of its entries, key by key in order, each value as its
/// JSON, unless it holds just one entry and that entry's key is `JSON`: then it is written as
/// that entry's value alone. It has a JSON form exactly when each of its values has one.
pub proof fn lemma_store_json(es: Seq<(Seq<char>, ValueView)>, add: bool)
    ensures
        es.len() == 1 && es[0].0 == "JSON"@ ==> store_json(es, add) == json_of(es[0].1, add),
        !(es.len() == 1 && es[0].0 == "JSON"@) ==> (store_json(es, add) is Some <==> forall|i: int|
            0 <= i < es.len() ==> (#[trigger] json_of(es[i].1, add)) is Some),
        !(es.len() == 1 && es[0].0 == "JSON"@) && store_json(es, add) is Some ==> (store_json(
            es,
            add,
        ).unwrap() matches JsonView::Object(ms) && ms.len() == es.len() && forall|i: int|
            0 <= i < es.len() ==> (#[trigger] ms[i]).0 == es[i].0 && Some(ms[i].1) == json_of(
                es[i].1,
                add,
            )),
{
    lemma_members_of(es, add);
}

/// An object gives nothing for a key that none of its members has.
proof fn lemma_lookup_absent(ms: Seq<(Seq<char>, JsonView)>, key: Seq<char>)
    requires
        forall|i: int| 0 <= i < ms.len() ==> (#[trigger] ms[i]).0 != key,
    ensures
        lookup(ms, key) is None,
    decreases ms.len(),
{
    if ms.len() > 0 {
        assert(ms[0].0 != key);
        assert forall|i: int| 0 <= i < ms.drop_first().len() implies (#[trigger] ms.drop_first()[i]).0
            != key by {
            assert(ms.drop_first()[i] == ms[i + 1]);
        }
        lemma_lookup_absent(ms.drop_first(), key);
    }
}

/// A store whose values are strings, booleans, nulls, JSON text, finite double floats or
/// 64-bit integers (not a negative zero), and none of whose keys is `souris_type`, written as
/// JSON (tagged or not) and read back, has the same entries in the same order; so without a
/// repeated key, [`Store::from_json`] of what [`Store::to_json`] wrote is the same store.
pub proof fn lemma_store_json_roundtrip(es: Seq<(Seq<char>, ValueView)>, add: bool)
    requires
        forall|i: int| 0 <= i < es.len() ==> plain_roundtrips(#[trigger] es[i].1),
        forall|i: int| 0 <= i < es.len() ==> (#[trigger] es[i]).0 != tag_key(),
    ensures
        store_json(es, add) is Some,
        store_entries_of_json(store_json(es, add).unwrap()) == es,
        (forall|i: int, j: int| 0 <= i < j < es.len() ==> (#[trigger] es[i]).0 != (#[trigger] es[j]).0)
            ==> dict_of(store_entries_of_json(store_json(es, add).unwrap())) == es,
{
    if forall|i: int, j: int| 0 <= i < j < es.len() ==> (#[trigger] es[i]).0 != (#[trigger] es[j]).0 {
        lemma_dict_of_distinct(es);
    }
    assert forall|i: int| 0 <= i < es.len() implies (#[trigger] json_of(es[i].1, add)) is Some
        && value_of_json(json_of(es[i].1, add).unwrap()) == es[i].1 by {
        assert(plain_roundtrips(es[i].1));
        lemma_plain_roundtrip(es[i].1, add);
    }
    if es.len() == 1 && es[0].0 == "JSON"@ {
        let v = es[0].1;
        lemma_plain_roundtrip(v, add);
        assert(seq![("JSON"@, v)] =~= es);
    } else {
        lemma_members_of(es, add);
        let ms = members_of(es, add).unwrap();
        assert forall|i: int| 0 <= i < ms.len() implies (#[trigger] ms[i]).0 != tag_key() by {
            assert(ms[i].0 == es[i].0);
        }
        lemma_lookup_absent(ms, tag_key());
        lemma_entries_of_json(ms);
        assert forall|i: int| 0 <= i < es.len() implies #[trigger] entries_of_json(ms)[i] == es[i] by {
            assert(ms[i].0 == es[i].0 && Some(ms[i].1) == json_of(es[i].1, add));
        }
        assert(entries_of_json(ms) =~= es);
    }
}

/// The highest power of two no greater than `u`, found by doubling `t` (counting the doublings
/// from `p`) while it stays no greater than `u`; with its exponent.
pub open spec fn top_power(u: nat, t: nat, p: nat) -> (nat, nat)
    decreases u - t,
{
    if t == 0 || t * 2 > u {
        (t, p)
    } else {
        top_power(u, t * 2, p + 1)
    }
}

/// `q` doubled until `k` reaches `52`.
pub open spec fn doubled(q: nat, k: nat) -> nat
    decreases 52 - k,
{
    if k >= 52 {
        q
    } else {
        doubled(2 * q, k + 1)
    }
}

/// `u / d`, rounded to the nearest integer, ties to even.
pub open spec fn rounded(u: nat, d: nat) -> nat {
    let q = u / d;
    let r = u % d;
    if r * 2 > d || (r * 2 == d && q % 2 == 1) {
        q + 1
    } else {
        q
    }
}

/// The bit pattern of the `f64` nearest to `u` (ties to even), which is what `u as f64` gives
/// for a `u64`: the exponent of the highest bit, and the 53 bits from it rounded.
pub open spec fn u64_f64(u: nat) -> nat {
    if u == 0 {
        0
    } else {
        let (t, p) = top_power(u, 1, 0);
        let q: nat = if p <= 52 {
            doubled(u, p)
        } else {
            rounded(u, t / 0x10_0000_0000_0000)
        };
        ((1023 + p) * 0x10_0000_0000_0000 + q - 0x10_0000_0000_0000) as nat
    }
}

/// A JSON number as the bit pattern of an `f64`: a float as it is, an integer converted as
/// `as f64` converts it.
pub open spec fn json_f64(j: JsonView) -> Option<u64> {
    match j {
        JsonView::Float(b) => Some(b),
        JsonView::PosInt(u) => Some(u64_f64(u as nat) as u64),
        JsonView::NegInt(i) => if i < 0 {
            Some((0x8000_0000_0000_0000 + u64_f64((-i) as nat)) as u64)
        } else {
            Some(u64_f64(i as nat) as u64)
        },
        _ => None,
    }
}

/// The bit pattern of the `f64` nearest to `u`: see [`u64_f64`].
pub fn u64_to_f64_bits(u: u64) -> (r: u64)
    ensures
        r == u64_f64(u as nat),
        r < 0x8000_0000_0000_0000,
{
    if u == 0 {
        return 0;
    }
    let mut t: u64 = 1;
    let mut p: u64 = 0;
    proof {
        vstd::arithmetic::power2::lemma2_to64();
    }
    while t <= u / 2
        invariant
            1 <= t <= u,
            t == pow2(p as nat),
            top_power(u as nat, t as nat, p as nat) == top_power(u as nat, 1, 0),
            p <= 63,
        decreases u - t,
    {
        proof {
            vstd::arithmetic::power2::lemma_pow2_unfold((p + 1) as nat);
            vstd::arithmetic::power2::lemma2_to64();
            if p + 1 >= 64 {
                vstd::arithmetic::power2::lemma_pow2_strictly_increases(63, (p + 1) as nat);
                vstd::arithmetic::power2::lemma2_to64_rest();
            }
        }
        t = t * 2;
        p = p + 1;
    }
    assert(top_power(u as nat, t as nat, p as nat) == (t as nat, p as nat));
    let q: u64 = if p <= 52 {
        let mut q: u64 = u;
        let mut k: u64 = p;
        proof {
            vstd::arithmetic::power2::lemma_pow2_unfold((p + 1) as nat);
        }
        while k < 52
            invariant
                p <= k <= 52,
                pow2(k as nat) <= q < pow2((k + 1) as nat),
                doubled(q as nat, k as nat) == doubled(u as nat, p as nat),
            decreases 52 - k,
        {
            proof {
                vstd::arithmetic::power2::lemma_pow2_unfold((k + 1) as nat);
                vstd::arithmetic::power2::lemma_pow2_unfold((k + 2) as nat);
                vstd::arithmetic::power2::lemma2_to64_rest();
                vstd::arithmetic::power2::lemma_pow2_strictly_increases((k + 2) as nat, 54);
            }
            q = 2 * q;
            k = k + 1;
        }
        proof {
            vstd::arithmetic::power2::lemma2_to64_rest();
        }
        q
    } else {
        proof {
            vstd::arithmetic::power2::lemma_pow2_adds((p - 52) as nat, 52);
            vstd::arithmetic::power2::lemma_pow2_pos((p - 52) as nat);
            vstd::arithmetic::power2::lemma2_to64_rest();
            vstd::arithmetic::power2::lemma_pow2_unfold((p + 1) as nat);
        }
        let d: u64 = t / 0x10_0000_0000_0000;
        assert(d == pow2((p - 52) as nat)) by (nonlinear_arith)
            requires
                t == pow2((p - 52) as nat) * 0x10_0000_0000_0000,
                d == t / 0x10_0000_0000_0000,
        ;
        let q0: u64 = u / d;
        let r: u64 = u % d;
        assert(0x10_0000_0000_0000 <= q0 < 0x20_0000_0000_0000) by (nonlinear_arith)
            requires
                d > 0,
                t == d * 0x10_0000_0000_0000,
                t <= u,
                u < 2 * t,
                q0 == u / d,
        ;
        assert(r < d);
        if r * 2 > d || (r * 2 == d && q0 % 2 == 1) {
            q0 + 1
        } else {
            q0
        }
    };
    assert(0x10_0000_0000_0000 <= q <= 0x20_0000_0000_0000);
    (1023 + p) * 0x10_0000_0000_0000 + (q - 0x10_0000_0000_0000)
}

/// The fields chrono reads from timestamp text: from the text with its first space turned into
/// a `T` (the form its `Display` writes), or else from the text as it is.
pub open spec fn read_timestamp(text: Seq<char>) -> Option<Seq<int>> {
    if timestamp_parsed(space_to_t(text)) is Some {
        timestamp_parsed(space_to_t(text))
    } else {
        timestamp_parsed(text)
    }
}

/// The text with its first space turned into a `T`: see [`space_to_t`].
fn first_space_to_t(text: &str) -> (r: String)
    ensures
        r@ == space_to_t(text@),
{
    let mut chars = chars_of(text);
    let ghost s = text@;
    let mut i: usize = 0;
    while i < chars.len() && chars[i] != ' '
        invariant
            chars@ == s,
            i <= s.len(),
            forall|j: int| 0 <= j < i ==> s[j] != ' ',
        decreases chars.len() - i,
    {
        i = i + 1;
    }
    proof {
        lemma_space_to_t(s, i as int);
    }
    if i < chars.len() {
        chars.set(i, 'T');
    }
    assert(i < s.len() ==> chars@ =~= s.update(i as int, 'T'));
    string_from_chars(&chars)
}

/// Where the first space of `s` stands (`s.len()` when it has none), [`space_to_t`] turns it
/// into a `T`.
proof fn lemma_space_to_t(s: Seq<char>, i: int)
    requires
        0 <= i <= s.len(),
        forall|j: int| 0 <= j < i ==> s[j] != ' ',
        i < s.len() ==> s[i] == ' ',
    ensures
        i < s.len() ==> space_to_t(s) == s.update(i, 'T'),
        i == s.len() ==> space_to_t(s) == s,
    decreases s.len(),
{
    if s.len() > 0 {
        if i == 0 {
            assert(seq!['T'] + s.drop_first() =~= s.update(0, 'T'));
        } else {
            lemma_space_to_t(s.drop_first(), i - 1);
            if i < s.len() {
                assert(seq![s[0]] + s.drop_first().update(i - 1, 'T') =~= s.update(i, 'T'));
            } else {
                assert(seq![s[0]] + s.drop_first() =~= s);
            }
        }
    }
}

/// A timestamp written as a tagged object with text that chrono reads back as its fields is
/// read back as the same timestamp.
proof fn lemma_timestamp_roundtrip(f: Seq<int>, text: Seq<char>)
    requires
        fields_valid(f),
        timestamp_parsed(space_to_t(text)) == Some(f),
    ensures
        value_of_json(
            JsonView::Object(
                tagged(true, ValueTy::Timestamp, seq![("timestamp"@, JsonView::String(text))]),
            ),
        ) == ValueView::Timestamp(f),
{
    reveal_strlit("souris_type");
    reveal_strlit("timestamp");
    assert(tag_key().len() == 11 && "timestamp"@.len() == 9);
    let ms = tagged(true, ValueTy::Timestamp, seq![("timestamp"@, JsonView::String(text))]);
    assert(ms[0].0 == tag_key());
    assert(lookup(ms, tag_key()) == Some(ms[0].1));
    assert(ms.drop_first()[0] == ms[1]);
    assert(lookup(ms.drop_first(), "timestamp"@) == Some(ms[1].1));
    assert(ms[0].0 != "timestamp"@);
    assert(lookup(ms, "timestamp"@) == Some(ms[1].1));
    assert(ty_of_id(6) == ValueTy::Timestamp);
}

/// A member with this literal key.
fn member(key: &str, j: Json) -> (r: (String, Json))
    ensures
        r.0@ == key@,
        r.1 == j,
{
    (String::from_str(key), j)
}

/// An object of `members`, after the tag naming kind `t` when `add` is set.
fn tagged_object(add: bool, t: ValueTy, members: Vec<(String, Json)>) -> (r: Json)
    ensures
        json_view(r) == JsonView::Object(tagged(add, t, members_view(members@))),
{
    let mut out: Vec<(String, Json)> = Vec::new();
    if add {
        let id = t.to_u8();
        out.push(member("souris_type", Json::PosInt(id as u64)));
    }
    let ghost first = out@;
    let mut rest = members;
    out.append(&mut rest);
    proof {
        lemma_members_view(out@);
        lemma_members_view(members@);
        lemma_members_view(first);
        assert(members_view(out@) =~= tagged(add, t, members_view(members@)));
    }
    Json::Object(out)
}

/// Numbers as JSON numbers, in order.
fn numbers_json(b: &[u8]) -> (r: Vec<Json>)
    ensures
        jsons_view(r@) == bytes_json(b@),
{
    let mut out: Vec<Json> = Vec::new();
    let mut i: usize = 0;
    while i < b.len()
        invariant
            i <= b@.len(),
            out@.len() == i,
            forall|j: int| 0 <= j < i ==> json_view(#[trigger] out@[j]) == JsonView::PosInt(b@[j] as u64),
        decreases b.len() - i,
    {
        out.push(Json::PosInt(b[i] as u64));
        i = i + 1;
    }
    proof {
        lemma_jsons_view(out@);
        assert(jsons_view(out@) =~= bytes_json(b@));
    }
    out
}

/// Numbers as JSON numbers, in order.
fn segments_to_json(b: &[u16]) -> (r: Vec<Json>)
    ensures
        jsons_view(r@) == segments_json(b@),
{
    let mut out: Vec<Json> = Vec::new();
    let mut i: usize = 0;
    while i < b.len()
        invariant
            i <= b@.len(),
            out@.len() == i,
            forall|j: int| 0 <= j < i ==> json_view(#[trigger] out@[j]) == JsonView::PosInt(b@[j] as u64),
        decreases b.len() - i,
    {
        out.push(Json::PosInt(b[i] as u64));
        i = i + 1;
    }
    proof {
        lemma_jsons_view(out@);
        assert(jsons_view(out@) =~= segments_json(b@));
    }
    out
}

/// A float's bit pattern as a JSON number, or `0` when it is not finite.
fn float_or_zero_json(b: u64) -> (r: Json)
    ensures
        json_view(r) == float_or_zero(b),
{
    if (b / 0x10_0000_0000_0000) % 0x800 != 0x7FF {
        Json::Float(b)
    } else {
        Json::PosInt(0)
    }
}

impl Integer {
    /// This integer as a JSON number: `None` if it does not fit in an `i64` (negative) or a
    /// `u64` (see [`int_json`]).
    pub fn to_json(self) -> (r: Option<Json>)
        ensures
            match int_json(self.sign(), self.magnitude()) {
                Some(j) => r matches Some(x) && json_view(x) == j,
                None => r is None,
            },
    {
        if self.is_negative() {
            match self.try_into_i64() {
                Ok(v) => Some(Json::NegInt(v)),
                Err(_) => None,
            }
        } else {
            match self.try_into_u64() {
                Ok(v) => Some(Json::PosInt(v)),
                Err(_) => None,
            }
        }
    }
}

impl BinaryData {
    /// The blob as a JSON object holding its bytes under `bytes`, tagged when
    /// `add_souris_types` is set.
    pub fn to_json(&self, add_souris_types: bool) -> (r: Json)
        ensures
            json_view(r) == JsonView::Object(
                tagged(
                    add_souris_types,
                    ValueTy::Binary,
                    seq![("bytes"@, JsonView::Array(bytes_json(self.0@)))],
                ),
            ),
    {
        let arr = numbers_json(self.0.as_slice());
        let members = vec![member("bytes", Json::Array(arr))];
        proof {
            lemma_members_view(members@);
            assert(members_view(members@) =~= seq![("bytes"@, JsonView::Array(bytes_json(self.0@)))]);
        }
        tagged_object(add_souris_types, ValueTy::Binary, members)
    }
}

impl Value {
    /// Converts the value to JSON: see [`json_of`]. With `add_souris_types`, imaginary
    /// numbers, timestamps, time zones, blobs and addresses are written as objects tagged with
    /// their kind, which [`Value::convert_from_json`] reads back as that kind. `None` for an
    /// integer beyond 64 bits or a float that is not finite, at any depth.
    pub fn convert_to_json(self, add_souris_types: bool) -> (r: Option<Json>)
        ensures
            match json_of(value_view(self), add_souris_types) {
                Some(j) => r matches Some(x) && json_view(x) == j,
                None => r is None,
            },
            add_souris_types && tagged_roundtrips(value_view(self)) ==> (r matches Some(x)
                && value_of_json(json_view(x)) == value_view(self)),
    {
        let r = self.to_json_ref(add_souris_types);
        proof {
            if add_souris_types && tagged_roundtrips(value_view(self)) && !(self is Timestamp) {
                lemma_tagged_roundtrip(value_view(self));
            }
        }
        r
    }

    fn to_json_ref(&self, add: bool) -> (r: Option<Json>)
        ensures
            match json_of(value_view(*self), add) {
                Some(j) => r matches Some(x) && json_view(x) == j,
                None => r is None,
            },
            add && *self is Timestamp && tagged_roundtrips(value_view(*self)) ==> (r matches Some(x)
                && value_of_json(json_view(x)) == value_view(*self)),
        decreases self,
    {
        match self {
            Value::Character(c) => {
                let mut s = String::new();
                string_push(&mut s, *c);
                assert(s@ =~= seq![*c]);
                Some(Json::String(s))
            },
            Value::String(s) => Some(Json::String(s.clone())),
            Value::Boolean(b) => Some(Json::Bool(*b)),
            Value::Integer(i) => i.to_json(),
            Value::JSON(t) => Some(Json::Text(t.clone())),
            Value::Null(_) => Some(Json::Null),
            Value::SingleFloat(b) => {
                if (*b / 0x80_0000) % 0x100 != 0xFF {
                    Some(Json::Float(widen_f32(*b)))
                } else {
                    None
                }
            },
            Value::DoubleFloat(b) => {
                if (*b / 0x10_0000_0000_0000) % 0x800 != 0x7FF {
                    Some(Json::Float(*b))
                } else {
                    None
                }
            },
            Value::Array(a) => match Self::array_to_json(a, add) {
                Some(js) => Some(Json::Array(js)),
                None => None,
            },
            Value::Dict(d) => match Self::dict_to_json(d, add) {
                Some(ms) => Some(Json::Object(ms)),
                None => None,
            },
            Value::Imaginary(Imaginary::CartesianForm { real: re_part, imaginary }) => {
                let re = match re_part.to_json() {
                    Some(j) => j,
                    None => return None,
                };
                let im = match imaginary.to_json() {
                    Some(j) => j,
                    None => return None,
                };
                let members = vec![member("real", re), member("imaginary", im)];
                proof {
                    lemma_members_view(members@);
                    assert(members_view(members@) =~= seq![("real"@, json_view(re)), ("imaginary"@, json_view(im))]);
                }
                let r = tagged_object(add, ValueTy::Imaginary, members);
                assert(json_view(r) == json_of(value_view(*self), add).unwrap());
                Some(r)
            },
            Value::Imaginary(Imaginary::PolarForm { modulus, argument }) => {
                let members = vec![
                    member("modulus", float_or_zero_json(*modulus)),
                    member("argument", float_or_zero_json(*argument)),
                ];
                proof {
                    lemma_members_view(members@);
                    assert(members_view(members@) =~= seq![("modulus"@, float_or_zero(*modulus)), ("argument"@, float_or_zero(*argument))]);
                }
                let r = tagged_object(add, ValueTy::Imaginary, members);
                assert(json_view(r) == json_of(value_view(*self), add).unwrap());
                Some(r)
            },
            Value::Timestamp(t) => {
                let text = match t.chrono_text() {
                    Some(x) => x,
                    None => return None,
                };
                let ghost tv = text@;
                let members = vec![member("timestamp", Json::String(text))];
                proof {
                    lemma_members_view(members@);
                    assert(members_view(members@) =~= seq![("timestamp"@, JsonView::String(tv))]);
                }
                let r = tagged_object(add, ValueTy::Timestamp, members);
                assert(json_view(r) == json_of(value_view(*self), add).unwrap());
                proof {
                    if add {
                        lemma_timestamp_roundtrip(t.fields(), tv);
                    }
                }
                Some(r)
            },
            Value::Timezone(n) => {
                let members = vec![member("timezone", Json::String(n.clone()))];
                proof {
                    lemma_members_view(members@);
                    assert(members_view(members@) =~= seq![("timezone"@, JsonView::String(n@))]);
                }
                let r = tagged_object(add, ValueTy::Timezone, members);
                assert(json_view(r) == json_of(value_view(*self), add).unwrap());
                Some(r)
            },
            Value::Binary(b) => Some(b.to_json(add)),
            Value::Ipv4Addr(o) => {
                let arr = numbers_json(o.as_slice());
                if add {
                    let ghost av = jsons_view(arr@);
                    let members = vec![member("octets", Json::Array(arr))];
                    proof {
                        lemma_members_view(members@);
                        assert(members_view(members@) =~= seq![("octets"@, JsonView::Array(av))]);
                    }
                    let r = tagged_object(true, ValueTy::Ipv4Addr, members);
                    assert(json_view(r) == json_of(value_view(*self), add).unwrap());
                    Some(r)
                } else {
                    Some(Json::Array(arr))
                }
            },
            Value::Ipv6Addr(o) => {
                let arr = segments_to_json(o.as_slice());
                if add {
                    let ghost av = jsons_view(arr@);
                    let members = vec![member("octets", Json::Array(arr))];
                    proof {
                        lemma_members_view(members@);
                        assert(members_view(members@) =~= seq![("octets"@, JsonView::Array(av))]);
                    }
                    let r = tagged_object(true, ValueTy::Ipv6Addr, members);
                    assert(json_view(r) == json_of(value_view(*self), add).unwrap());
                    Some(r)
                } else {
                    Some(Json::Array(arr))
                }
            },
        }
    }

    fn array_to_json(a: &Vec<Value>, add: bool) -> (r: Option<Vec<Json>>)
        ensures
            match jsons_of(values_view(a@), add) {
                Some(js) => r matches Some(x) && jsons_view(x@) == js,
                None => r is None,
            },
        decreases a,
    {
        proof {
            lemma_values_view(a@);
            lemma_jsons_of(values_view(a@), add);
        }
        let mut out: Vec<Json> = Vec::new();
        let mut i: usize = 0;
        while i < a.len()
            invariant
                i <= a@.len(),
                out@.len() == i,
                values_view(a@).len() == a@.len(),
                forall|j: int| 0 <= j < a@.len() ==> values_view(a@)[j] == value_view(#[trigger] a@[j]),
                forall|j: int| 0 <= j < i ==> Some(json_view(#[trigger] out@[j])) == json_of(value_view(a@[j]), add),
            decreases a.len() - i,
        {
            match a[i].to_json_ref(add) {
                Some(j) => out.push(j),
                None => {
                    proof {
                        lemma_jsons_of(values_view(a@), add);
                    }
                    assert(json_of(values_view(a@)[i as int], add) is None);
                    return None;
                },
            }
            i = i + 1;
        }
        proof {
            lemma_jsons_view(out@);
            assert forall|j: int| 0 <= j < a@.len() implies (#[trigger] json_of(values_view(a@)[j], add)) is Some by {
                assert(Some(json_view(out@[j])) == json_of(value_view(a@[j]), add));
            }
            assert(jsons_view(out@) =~= jsons_of(values_view(a@), add).unwrap());
        }
        Some(out)
    }

    fn dict_to_json(d: &Vec<(String, Value)>, add: bool) -> (r: Option<Vec<(String, Json)>>)
        ensures
            match members_of(entries_view(d@), add) {
                Some(ms) => r matches Some(x) && members_view(x@) == ms,
                None => r is None,
            },
        decreases d,
    {
        proof {
            lemma_entries_view(d@);
            lemma_members_of(entries_view(d@), add);
        }
        let mut out: Vec<(String, Json)> = Vec::new();
        let mut i: usize = 0;
        while i < d.len()
            invariant
                i <= d@.len(),
                out@.len() == i,
                entries_view(d@).len() == d@.len(),
                forall|j: int| 0 <= j < d@.len() ==> entries_view(d@)[j] == ((#[trigger] d@[j]).0@, value_view(d@[j].1)),
                forall|j: int| 0 <= j < i ==> (#[trigger] out@[j]).0@ == d@[j].0@ && Some(json_view(out@[j].1)) == json_of(value_view(d@[j].1), add),
            decreases d.len() - i,
        {
            let (k, v) = &d[i];
            match v.to_json_ref(add) {
                Some(j) => out.push((k.clone(), j)),
                None => {
                    proof {
                        lemma_members_of(entries_view(d@), add);
                    }
                    assert(json_of(entries_view(d@)[i as int].1, add) is None);
                    return None;
                },
            }
            i = i + 1;
        }
        proof {
            lemma_members_view(out@);
            assert forall|j: int| 0 <= j < d@.len() implies (#[trigger] json_of(entries_view(d@)[j].1, add)) is Some by {
                assert(Some(json_view(out@[j].1)) == json_of(value_view(d@[j].1), add));
            }
            assert(members_view(out@) =~= members_of(entries_view(d@), add).unwrap());
        }
        Some(out)
    }
}

/// Where the first member whose key is `key` stands, if any: see [`lookup`].
fn find_member(ms: &Vec<(String, Json)>, key: &str) -> (r: Option<usize>)
    ensures
        match lookup(members_view(ms@), key@) {
            Some(j) => r matches Some(i) && i < ms@.len() && json_view(ms@[i as int].1) == j,
            None => r is None,
        },
{
    let k = String::from_str(key);
    proof {
        lemma_members_view(ms@);
    }
    let ghost mv = members_view(ms@);
    let mut i: usize = 0;
    assert(mv.subrange(0, mv.len() as int) =~= mv);
    while i < ms.len()
        invariant
            i <= ms@.len(),
            mv == members_view(ms@),
            mv.len() == ms@.len(),
            forall|j: int| 0 <= j < ms@.len() ==> #[trigger] mv[j] == (ms@[j].0@, json_view(ms@[j].1)),
            k@ == key@,
            lookup(mv.subrange(i as int, mv.len() as int), key@) == lookup(mv, key@),
        decreases ms.len() - i,
    {
        if ms[i].0 == k {
            assert(mv.subrange(i as int, mv.len() as int)[0] == mv[i as int]);
            return Some(i);
        }
        assert(mv.subrange(i as int, mv.len() as int)[0] == mv[i as int]);
        assert(mv.subrange(i as int, mv.len() as int).drop_first() =~= mv.subrange(i + 1, mv.len() as int));
        i = i + 1;
    }
    None
}

/// A JSON number as the bit pattern of an `f64`: see [`json_f64`].
fn json_to_f64_bits(j: &Json) -> (r: Option<u64>)
    ensures
        r == json_f64(json_view(*j)),
{
    match j {
        Json::Float(b) => Some(*b),
        Json::PosInt(u) => Some(u64_to_f64_bits(*u)),
        Json::NegInt(i) => {
            if *i < 0 {
                let mag: u64 = if *i == i64::MIN {
                    0x8000_0000_0000_0000
                } else {
                    (-*i) as u64
                };
                Some(0x8000_0000_0000_0000 + u64_to_f64_bits(mag))
            } else {
                Some(u64_to_f64_bits(*i as u64))
            }
        },
        _ => None,
    }
}

/// A JSON value as a `u64`, if it is a non-negative integer: see [`json_u64`].
fn json_to_u64(j: &Json) -> (r: Option<u64>)
    ensures
        r == json_u64(json_view(*j)),
{
    match j {
        Json::PosInt(u) => Some(*u),
        Json::NegInt(i) => if *i >= 0 {
            Some(*i as u64)
        } else {
            None
        },
        _ => None,
    }
}

/// The items as bytes, if each is an integer from `0` to `255`.
fn items_to_u8s(items: &Vec<Json>) -> (r: Option<Vec<u8>>)
    ensures
        r is Some <==> all_at_most(jsons_view(items@), 255),
        r matches Some(v) ==> v@ == items_bytes(jsons_view(items@)),
{
    proof {
        lemma_jsons_view(items@);
    }
    let ghost iv = jsons_view(items@);
    let mut out: Vec<u8> = Vec::new();
    let mut i: usize = 0;
    while i < items.len()
        invariant
            i <= items@.len(),
            iv == jsons_view(items@),
            iv.len() == items@.len(),
            forall|j: int| 0 <= j < items@.len() ==> #[trigger] iv[j] == json_view(items@[j]),
            out@.len() == i,
            forall|j: int| 0 <= j < i ==> (json_u64(#[trigger] iv[j]) matches Some(n) && n <= 255 && out@[j] == n as u8),
        decreases items.len() - i,
    {
        match json_to_u64(&items[i]) {
            Some(n) => {
                if n > 255 {
                    assert(!((json_u64(iv[i as int]) matches Some(n) && n <= 255)));
                    return None;
                }
                out.push(n as u8);
            },
            None => {
                assert(json_u64(iv[i as int]) is None);
                return None;
            },
        }
        i = i + 1;
    }
    assert(out@ =~= items_bytes(iv));
    Some(out)
}

/// The items as 16-bit segments, if each is an integer from `0` to `65535`.
fn items_to_u16s(items: &Vec<Json>) -> (r: Option<Vec<u16>>)
    ensures
        r is Some <==> all_at_most(jsons_view(items@), 65535),
        r matches Some(v) ==> v@ == items_segments(jsons_view(items@)),
{
    proof {
        lemma_jsons_view(items@);
    }
    let ghost iv = jsons_view(items@);
    let mut out: Vec<u16> = Vec::new();
    let mut i: usize = 0;
    while i < items.len()
        invariant
            i <= items@.len(),
            iv == jsons_view(items@),
            iv.len() == items@.len(),
            forall|j: int| 0 <= j < items@.len() ==> #[trigger] iv[j] == json_view(items@[j]),
            out@.len() == i,
            forall|j: int| 0 <= j < i ==> (json_u64(#[trigger] iv[j]) matches Some(n) && n <= 65535 && out@[j] == n as u16),
        decreases items.len() - i,
    {
        match json_to_u64(&items[i]) {
            Some(n) => {
                if n > 65535 {
                    assert(!((json_u64(iv[i as int]) matches Some(n) && n <= 65535)));
                    return None;
                }
                out.push(n as u16);
            },
            None => {
                assert(json_u64(iv[i as int]) is None);
                return None;
            },
        }
        i = i + 1;
    }
    assert(out@ =~= items_segments(iv));
    Some(out)
}

impl Integer {
    /// An integer from a JSON number: `None` unless it is an integer (see [`json_int`]).
    pub fn from_json(n: &Json) -> (r: Option<Integer>)
        ensures
            match json_int(json_view(*n)) {
                Some((ss, m)) => r matches Some(i) && i.sign() == ss && i.magnitude() == m,
                None => r is None,
            },
    {
        match n {
            Json::PosInt(u) => Some(Integer::u64(*u)),
            Json::NegInt(i) => Some(Integer::i64(*i)),
            _ => None,
        }
    }
}

impl Value {
    /// Converts JSON back into a value: see [`value_of_json`]. Integers become integers and
    /// other numbers double floats; an object tagged by [`Value::convert_to_json`] becomes its
    /// kind again, and any other object a dictionary of its members, in order.
    pub fn convert_from_json(val: Json) -> (v: Value)
        ensures
            value_view(v) == value_of_json(json_view(val)),
    {
        Self::from_json_ref(&val)
    }

    fn from_json_ref(j: &Json) -> (v: Value)
        ensures
            value_view(v) == value_of_json(json_view(*j)),
        decreases j,
    {
        match j {
            Json::Null => Value::Null(()),
            Json::Bool(b) => Value::Boolean(*b),
            Json::PosInt(u) => Value::Integer(Integer::u64(*u)),
            Json::NegInt(i) => Value::Integer(Integer::i64(*i)),
            Json::Float(b) => Value::DoubleFloat(*b),
            Json::String(s) => Value::String(s.clone()),
            Json::Text(t) => Value::JSON(t.clone()),
            Json::Array(js) => Value::Array(Self::array_from_json(js)),
            Json::Object(ms) => match Self::tagged_from_json(ms) {
                Some(v) => v,
                None => Value::Dict(Self::dict_from_json(ms)),
            },
        }
    }

    fn array_from_json(js: &Vec<Json>) -> (r: Vec<Value>)
        ensures
            values_view(r@) == values_of_json(jsons_view(js@)),
        decreases js,
    {
        let mut out: Vec<Value> = Vec::new();
        let mut i: usize = 0;
        while i < js.len()
            invariant
                i <= js@.len(),
                out@.len() == i,
                forall|k: int| 0 <= k < i ==> value_view(#[trigger] out@[k]) == value_of_json(json_view(js@[k])),
            decreases js.len() - i,
        {
            out.push(Self::from_json_ref(&js[i]));
            i = i + 1;
        }
        proof {
            lemma_values_view(out@);
            lemma_jsons_view(js@);
            lemma_values_of_json(jsons_view(js@));
            assert(values_view(out@) =~= values_of_json(jsons_view(js@)));
        }
        out
    }

    fn dict_from_json(ms: &Vec<(String, Json)>) -> (r: Vec<(String, Value)>)
        ensures
            entries_view(r@) == entries_of_json(members_view(ms@)),
        decreases ms,
    {
        let mut out: Vec<(String, Value)> = Vec::new();
        let mut i: usize = 0;
        while i < ms.len()
            invariant
                i <= ms@.len(),
                out@.len() == i,
                forall|k: int| 0 <= k < i ==> (#[trigger] out@[k]).0@ == ms@[k].0@ && value_view(out@[k].1) == value_of_json(json_view(ms@[k].1)),
            decreases ms.len() - i,
        {
            let (key, val) = &ms[i];
            out.push((key.clone(), Self::from_json_ref(val)));
            i = i + 1;
        }
        proof {
            lemma_entries_view(out@);
            lemma_members_view(ms@);
            lemma_entries_of_json(members_view(ms@));
            assert(entries_view(out@) =~= entries_of_json(members_view(ms@)));
        }
        out
    }

    fn tagged_from_json(ms: &Vec<(String, Json)>) -> (r: Option<Value>)
        ensures
            match tagged_value(members_view(ms@)) {
                Some(v) => r matches Some(x) && value_view(x) == v,
                None => r is None,
            },
    {
        let ghost mv = members_view(ms@);
        let t = match find_member(ms, "souris_type") {
            Some(i) => i,
            None => return None,
        };
        let n = match json_to_u64(&ms[t].1) {
            Some(n) => n,
            None => return None,
        };
        if n >= 16 {
            return None;
        }
        let ty = match ValueTy::try_from_u8(n as u8) {
            Ok(x) => x,
            Err(_) => return None,
        };
        assert(ty == ty_of_id(n as u8));
        match ty {
            ValueTy::Imaginary => {
                let cartesian = match (find_member(ms, "real"), find_member(ms, "imaginary")) {
                    (Some(a), Some(b)) => match (Integer::from_json(&ms[a].1), Integer::from_json(&ms[b].1)) {
                        (Some(x), Some(y)) => Some(Value::Imaginary(Imaginary::CartesianForm { real: x, imaginary: y })),
                        _ => None,
                    },
                    _ => None,
                };
                if cartesian.is_some() {
                    return cartesian;
                }
                match (find_member(ms, "modulus"), find_member(ms, "argument")) {
                    (Some(a), Some(b)) => match (json_to_f64_bits(&ms[a].1), json_to_f64_bits(&ms[b].1)) {
                        (Some(m), Some(g)) => Some(Value::Imaginary(Imaginary::PolarForm { modulus: m, argument: g })),
                        _ => None,
                    },
                    _ => None,
                }
            },
            ValueTy::Timestamp => match find_member(ms, "timestamp") {
                Some(i) => match &ms[i].1 {
                    Json::String(text) => {
                        let iso = first_space_to_t(text.as_str());
                        let parsed = match chrono_parse(iso.as_str()) {
                            Some(f) => Some(f),
                            None => chrono_parse(text.as_str()),
                        };
                        match parsed {
                            Some(f) => match Timestamp::new(f.0, f.1, f.2, f.3, f.4, f.5, f.6) {
                                Some(ts) => {
                                    assert(ts.fields() =~= read_timestamp(text@).unwrap());
                                    Some(Value::Timestamp(ts))
                                },
                                None => None,
                            },
                            None => None,
                        }
                    },
                    _ => None,
                },
                None => None,
            },
            ValueTy::Timezone => match find_member(ms, "timezone") {
                Some(i) => match &ms[i].1 {
                    Json::String(name) => match tz_check(name.as_str()) {
                        Ok(()) => Some(Value::Timezone(name.clone())),
                        Err(_) => None,
                    },
                    _ => None,
                },
                None => None,
            },
            ValueTy::Binary => match find_member(ms, "bytes") {
                Some(i) => match &ms[i].1 {
                    Json::Array(items) => match items_to_u8s(items) {
                        Some(b) => Some(Value::Binary(BinaryData(b))),
                        None => None,
                    },
                    _ => None,
                },
                None => None,
            },
            ValueTy::Ipv4Addr => match find_member(ms, "octets") {
                Some(i) => match &ms[i].1 {
                    Json::Array(items) => {
                        proof {
                            lemma_jsons_view(items@);
                        }
                        if items.len() != 4 {
                            return None;
                        }
                        match items_to_u8s(items) {
                            Some(b) => {
                                let a = [b[0], b[1], b[2], b[3]];
                                assert(a@ =~= b@);
                                Some(Value::Ipv4Addr(a))
                            },
                            None => None,
                        }
                    },
                    _ => None,
                },
                None => None,
            },
            ValueTy::Ipv6Addr => match find_member(ms, "octets") {
                Some(i) => match &ms[i].1 {
                    Json::Array(items) => {
                        proof {
                            lemma_jsons_view(items@);
                        }
                        if items.len() != 8 {
                            return None;
                        }
                        match items_to_u16s(items) {
                            Some(b) => {
                                let a = [b[0], b[1], b[2], b[3], b[4], b[5], b[6], b[7]];
                                assert(a@ =~= b@);
                                Some(Value::Ipv6Addr(a))
                            },
                            None => None,
                        }
                    },
                    _ => None,
                },
                None => None,
            },
            _ => None,
        }
    }
}

impl Store {
    /// The store as JSON: see [`store_json`]. `None` where a value has no JSON form.
    pub fn to_json(self, add_souris_types: bool) -> (r: Option<Json>)
        ensures
            match store_json(entries_view(self.entries()), add_souris_types) {
                Some(j) => r matches Some(x) && json_view(x) == j,
                None => r is None,
            },
    {
        let entries = self.into_entries();
        proof {
            lemma_entries_view(entries@);
        }
        if entries.len() == 1 {
            let k = String::from_str("JSON");
            if entries[0].0 == k {
                return entries[0].1.to_json_ref(add_souris_types);
            }
        }
        match Value::dict_to_json(&entries, add_souris_types) {
            Some(ms) => Some(Json::Object(ms)),
            None => None,
        }
    }

    /// A store from JSON: an object's members, or any other value under the key `JSON` (see
    /// [`store_entries_of_json`]); a key given twice keeps its last value.
    pub fn from_json(val: Json) -> (s: Store)
        ensures
            s.wf(),
            entries_view(s.entries()) == dict_of(store_entries_of_json(json_view(val))),
    {
        let v = Value::convert_from_json(val);
        let d = match v {
            Value::Dict(d) => Value::Dict(d),
            other => {
                let entry = member_value("JSON", other);
                let d = vec![entry];
                proof {
                    lemma_entries_view(d@);
                    assert(entries_view(d@) =~= seq![("JSON"@, value_view(other))]);
                }
                Value::Dict(d)
            },
        };
        match Store::try_from_value(d) {
            Ok(s) => s,
            Err(_) => {
                proof {
                    assert(false);
                }
                Store::new()
            },
        }
    }
}

/// A dictionary entry with this literal key.
fn member_value(key: &str, v: Value) -> (r: (String, Value))
    ensures
        r.0@ == key@,
        r.1 == v,
{
    (String::from_str(key), v)
}

} // verus!
