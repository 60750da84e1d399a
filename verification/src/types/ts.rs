//! [`Timestamp`]: a calendar date and a time of day, without a time zone, as seven integers.
use vstd::prelude::*;
use crate::types::integer::{
    decoding,
    encoding,
    lemma_encoding_roundtrip,
    Integer,
    IntegerSerError,
    SignedState,
};
use crate::utilities::cursor::Cursor;
use chrono::{Datelike, Timelike};

verus! {

/// Whether `year` is a leap year of the proleptic Gregorian calendar.
pub open spec fn is_leap_year(year: int) -> bool {
    (year % 4 == 0 && year % 100 != 0) || year % 400 == 0
}

/// The number of days in a month of a year.
pub open spec fn days_in_month(year: int, month: int) -> int {
    if month == 2 {
        if is_leap_year(year) {
            29
        } else {
            28
        }
    } else if month == 4 || month == 6 || month == 9 || month == 11 {
        30
    } else {
        31
    }
}

/// Whether a day exists in chrono's calendar, which covers the years `-262143..=262142`.
pub open spec fn date_exists(year: int, month: int, day: int) -> bool {
    &&& -262143 <= year <= 262142
    &&& 1 <= month <= 12
    &&& 1 <= day <= days_in_month(year, month)
}

/// Whether a time of day exists in chrono's clock: a nanosecond count of a second or more
/// stands for a leap second, and is only allowed in the last second of a minute.
pub open spec fn time_exists(hour: int, minute: int, second: int, nanosecond: int) -> bool {
    &&& 0 <= hour < 24
    &&& 0 <= minute < 60
    &&& 0 <= second < 60
    &&& 0 <= nanosecond < 2_000_000_000
    &&& (nanosecond < 1_000_000_000 || second == 59)
}

/// Calls `chrono::NaiveDate::from_ymd_opt`, which gives a date exactly when the day exists
/// (see [`date_exists`]), and says whether it gave one.
#[verifier::external_body]
fn chrono_date_exists(year: i32, month: u32, day: u32) -> (b: bool)
    ensures
        b == date_exists(year as int, month as int, day as int),
{
    chrono::NaiveDate::from_ymd_opt(year, month, day).is_some()
}

/// Calls `chrono::NaiveTime::from_hms_nano_opt`, which gives a time exactly when the time
/// exists (see [`time_exists`]), and says whether it gave one.
#[verifier::external_body]
fn chrono_time_exists(hour: u32, minute: u32, second: u32, nanosecond: u32) -> (b: bool)
    ensures
        b == time_exists(hour as int, minute as int, second as int, nanosecond as int),
{
    chrono::NaiveTime::from_hms_nano_opt(hour, minute, second, nanosecond).is_some()
}

/// `s` with its first space turned into a `T`: chrono's `Display` text of a date and time
/// made into the text its `FromStr` reads.
pub open spec fn space_to_t(s: Seq<char>) -> Seq<char>
    decreases s.len(),
{
    if s.len() == 0 {
        s
    } else if s[0] == ' ' {
        seq!['T'] + s.drop_first()
    } else {
        seq![s[0]] + space_to_t(s.drop_first())
    }
}

/// Calls `str::parse` for a `chrono::NaiveDateTime` and hands back its seven fields, year
/// first, through `Datelike` and `Timelike`; `None` when chrono does not read the text (see
/// [`timestamp_parsed`]).
#[verifier::external_body]
pub(crate) fn chrono_parse(text: &str) -> (r: Option<(i32, u32, u32, u32, u32, u32, u32)>)
    ensures
        r is None <==> timestamp_parsed(text@) is None,
        r matches Some(t) ==> timestamp_parsed(text@) == Some(
            seq![t.0 as int, t.1 as int, t.2 as int, t.3 as int, t.4 as int, t.5 as int, t.6 as int],
        ),
{
    text.parse::<chrono::NaiveDateTime>().ok().map(
        |d| (d.year(), d.month(), d.day(), d.hour(), d.minute(), d.second(), d.nanosecond()),
    )
}

/// The text chrono's `Display` for `NaiveDateTime` gives for a valid timestamp with these
/// seven fields (`%Y-%m-%d %H:%M:%S%.f`).
pub uninterp spec fn timestamp_text(fields: Seq<int>) -> Seq<char>;

/// The seven fields of the `NaiveDateTime` that chrono's `FromStr` reads from this text, if it
/// reads one.
pub uninterp spec fn timestamp_parsed(text: Seq<char>) -> Option<Seq<int>>;

/// A point in time without a time zone: a day of chrono's calendar and a time of that day.
#[derive(Copy, Clone, Debug, PartialEq, Eq, Structural, Hash)]
pub struct Timestamp {
    year: i32,
    month: u32,
    day: u32,
    hour: u32,
    minute: u32,
    second: u32,
    nanosecond: u32,
}

/// An error when reading a [`Timestamp`].
#[derive(Debug)]
pub enum TSError {
    /// One of the seven integers could not be read, or did not fit its type.
    IntegerSerError(IntegerSerError),
    /// The integers do not make a day or a time of day.
    InvalidDateOrTime,
}

/// The signed state and bytes that [`Integer::ser`] gives for an integer with this value.
pub open spec fn int_encoding(value: int) -> (SignedState, Seq<u8>) {
    if value < 0 {
        encoding(SignedState::Negative, (-value) as nat)
    } else {
        encoding(SignedState::Positive, value as nat)
    }
}

/// The value of the integer with signed state `ss` at the front of `s`, and the number of
/// bytes it takes up; `None` if `s` is too short.
pub open spec fn int_read(ss: SignedState, s: Seq<u8>) -> Option<(int, nat)> {
    match decoding(s) {
        Some((m, n)) => Some((if ss == SignedState::Negative { -(m as int) } else { m as int }, n)),
        None => None,
    }
}

impl Timestamp {
    /// The year.
    pub closed spec fn year(self) -> int {
        self.year as int
    }

    /// The month, from 1.
    pub closed spec fn month(self) -> int {
        self.month as int
    }

    /// The day of the month, from 1.
    pub closed spec fn day(self) -> int {
        self.day as int
    }

    /// The hour.
    pub closed spec fn hour(self) -> int {
        self.hour as int
    }

    /// The minute.
    pub closed spec fn minute(self) -> int {
        self.minute as int
    }

    /// The second.
    pub closed spec fn second(self) -> int {
        self.second as int
    }

    /// The nanosecond within the second.
    pub closed spec fn nanosecond(self) -> int {
        self.nanosecond as int
    }

    /// The fields make a day that exists and a time of day that exists.
    pub open spec fn wf(self) -> bool {
        &&& date_exists(self.year(), self.month(), self.day())
        &&& time_exists(self.hour(), self.minute(), self.second(), self.nanosecond())
    }

    /// The fields always fit their types.
    pub proof fn lemma_field_bounds(self)
        ensures
            i32::MIN <= self.year() <= i32::MAX,
            0 <= self.month() <= u32::MAX,
            0 <= self.day() <= u32::MAX,
            0 <= self.hour() <= u32::MAX,
            0 <= self.minute() <= u32::MAX,
            0 <= self.second() <= u32::MAX,
            0 <= self.nanosecond() <= u32::MAX,
    {
    }

    /// The timestamp with these fields; `None` if the day or the time of day does not exist.
    pub fn new(
        year: i32,
        month: u32,
        day: u32,
        hour: u32,
        minute: u32,
        second: u32,
        nanosecond: u32,
    ) -> (r: Option<Self>)
        ensures
            r is Some <==> date_exists(year as int, month as int, day as int) && time_exists(
                hour as int,
                minute as int,
                second as int,
                nanosecond as int,
            ),
            r matches Some(t) ==> t.wf() && t.year() == year && t.month() == month && t.day()
                == day && t.hour() == hour && t.minute() == minute && t.second() == second
                && t.nanosecond() == nanosecond,
    {
        if !chrono_date_exists(year, month, day) {
            return None;
        }
        if !chrono_time_exists(hour, minute, second, nanosecond) {
            return None;
        }
        Some(Timestamp { year, month, day, hour, minute, second, nanosecond })
    }

    /// Calls `chrono::NaiveDate::from_ymd_opt`, then `and_hms_nano_opt`, then `to_string` on
    /// the `NaiveDateTime`: text exactly when the timestamp is valid (the first two give a value
    /// exactly when the day and the time exist), and that text is [`timestamp_text`] of the
    /// fields. chrono documents its `Display` as `%Y-%m-%d %H:%M:%S%.f` and its `FromStr` as
    /// reading `%Y-%m-%dT%H:%M:%S%.f`, the format of its `Debug`: so the text with its space
    /// turned into a `T` reads back as the same fields.
    #[verifier::external_body]
    pub(crate) fn chrono_text(&self) -> (r: Option<String>)
        ensures
            r is Some <==> self.wf(),
            r matches Some(s) ==> s@ == timestamp_text(self.fields()),
            r matches Some(s) ==> timestamp_parsed(space_to_t(s@)) == Some(self.fields()),
    {
        chrono::NaiveDate::from_ymd_opt(self.year, self.month, self.day)
            .and_then(|d| d.and_hms_nano_opt(self.hour, self.minute, self.second, self.nanosecond))
            .map(|d| d.to_string())
    }

    /// The year.
    pub fn get_year(&self) -> (y: i32)
        ensures
            y == self.year(),
    {
        self.year
    }

    /// The month, from 1.
    pub fn get_month(&self) -> (m: u32)
        ensures
            m == self.month(),
    {
        self.month
    }

    /// The day of the month, from 1.
    pub fn get_day(&self) -> (d: u32)
        ensures
            d == self.day(),
    {
        self.day
    }

    /// The hour.
    pub fn get_hour(&self) -> (h: u32)
        ensures
            h == self.hour(),
    {
        self.hour
    }

    /// The minute.
    pub fn get_minute(&self) -> (m: u32)
        ensures
            m == self.minute(),
    {
        self.minute
    }

    /// The second.
    pub fn get_second(&self) -> (s: u32)
        ensures
            s == self.second(),
    {
        self.second
    }

    /// The nanosecond within the second.
    pub fn get_nanosecond(&self) -> (n: u32)
        ensures
            n == self.nanosecond(),
    {
        self.nanosecond
    }

    /// The bytes that [`Timestamp::ser`] gives: each field as an [`Integer`], the year first
    /// and the nanosecond last.
    pub open spec fn encoded(self) -> Seq<u8> {
        int_encoding(self.year()).1 + int_encoding(self.month()).1 + int_encoding(self.day()).1
            + int_encoding(self.hour()).1 + int_encoding(self.minute()).1 + int_encoding(
            self.second(),
        ).1 + int_encoding(self.nanosecond()).1
    }

    /// Serialises the timestamp: the signed state of the year, and [`Timestamp::encoded`].
    pub fn ser(&self) -> (r: (SignedState, Vec<u8>))
        ensures
            r.0 == int_encoding(self.year()).0,
            r.1@ == self.encoded(),
    {
        let (year_ss, year) = Integer::i32(self.year).ser();
        let (_, month) = Integer::u32(self.month).ser();
        let (_, day) = Integer::u32(self.day).ser();
        let (_, hour) = Integer::u32(self.hour).ser();
        let (_, minute) = Integer::u32(self.minute).ser();
        let (_, sec) = Integer::u32(self.second).ser();
        let (_, nanos) = Integer::u32(self.nanosecond).ser();
        let mut res: Vec<u8> = Vec::new();
        extend(&mut res, &year);
        extend(&mut res, &month);
        extend(&mut res, &day);
        extend(&mut res, &hour);
        extend(&mut res, &minute);
        extend(&mut res, &sec);
        extend(&mut res, &nanos);
        assert(res@ =~= self.encoded());
        (year_ss, res)
    }
}

/// The field at the front of `s`, read as an integer with signed state `ss` and checked to
/// lie in `lo..=hi`, with the number of bytes it takes up.
pub open spec fn field_read(ss: SignedState, s: Seq<u8>, lo: int, hi: int) -> Result<(int, nat), TSError> {
    match int_read(ss, s) {
        None => Err(TSError::IntegerSerError(IntegerSerError::NotEnoughBytes)),
        Some((v, n)) => if lo <= v <= hi {
            Ok((v, n))
        } else {
            Err(TSError::IntegerSerError(IntegerSerError::WrongType))
        },
    }
}

/// `s` without its first `n` bytes.
pub open spec fn after(s: Seq<u8>, n: nat) -> Seq<u8> {
    s.subrange(n as int, s.len() as int)
}

/// The year, month and day at the front of `s`, with the number of bytes they take up; or
/// the error, which for a day that does not exist is [`TSError::InvalidDateOrTime`].
pub open spec fn date_decoded(year_ss: SignedState, s: Seq<u8>) -> Result<((int, int, int), nat), TSError> {
    let m = u32::MAX as int;
    match field_read(year_ss, s, i32::MIN as int, i32::MAX as int) {
        Err(e) => Err(e),
        Ok((y, c1)) => match field_read(SignedState::Positive, after(s, c1), 0, m) {
            Err(e) => Err(e),
            Ok((mo, c2)) => match field_read(SignedState::Positive, after(s, c1 + c2), 0, m) {
                Err(e) => Err(e),
                Ok((d, c3)) => if date_exists(y, mo, d) {
                    Ok(((y, mo, d), c1 + c2 + c3))
                } else {
                    Err(TSError::InvalidDateOrTime)
                },
            },
        },
    }
}

/// The hour, minute, second and nanosecond at the front of `s`, with the number of bytes
/// they take up; or the error, which for a time that does not exist is
/// [`TSError::InvalidDateOrTime`].
pub open spec fn time_decoded(s: Seq<u8>) -> Result<((int, int, int, int), nat), TSError> {
    let p = SignedState::Positive;
    let m = u32::MAX as int;
    match field_read(p, s, 0, m) {
        Err(e) => Err(e),
        Ok((h, c1)) => match field_read(p, after(s, c1), 0, m) {
            Err(e) => Err(e),
            Ok((mi, c2)) => match field_read(p, after(s, c1 + c2), 0, m) {
                Err(e) => Err(e),
                Ok((se, c3)) => match field_read(p, after(s, c1 + c2 + c3), 0, m) {
                    Err(e) => Err(e),
                    Ok((ns, c4)) => if time_exists(h, mi, se, ns) {
                        Ok(((h, mi, se, ns), c1 + c2 + c3 + c4))
                    } else {
                        Err(TSError::InvalidDateOrTime)
                    },
                },
            },
        },
    }
}

/// The seven fields that [`Timestamp::deser`] reads from `s`, year first, and the number of
/// bytes they take up; or the error.
pub open spec fn ts_decoded(year_ss: SignedState, s: Seq<u8>) -> Result<(Seq<int>, nat), TSError> {
    match date_decoded(year_ss, s) {
        Err(e) => Err(e),
        Ok(((y, mo, d), c)) => match time_decoded(after(s, c)) {
            Err(e) => Err(e),
            Ok(((h, mi, se, ns), c2)) => Ok((seq![y, mo, d, h, mi, se, ns], c + c2)),
        },
    }
}

impl Timestamp {
    /// Two timestamps are the same exactly when their fields are.
    pub proof fn lemma_fields_eq(a: Timestamp, b: Timestamp)
        ensures
            (a.fields() == b.fields()) == (a == b),
    {
        if a.fields() == b.fields() {
            assert(a.fields()[0] == b.fields()[0] && a.fields()[1] == b.fields()[1]);
            assert(a.fields()[2] == b.fields()[2] && a.fields()[3] == b.fields()[3]);
            assert(a.fields()[4] == b.fields()[4] && a.fields()[5] == b.fields()[5]);
            assert(a.fields()[6] == b.fields()[6]);
        }
    }

    /// The seven fields, year first.
    pub open spec fn fields(self) -> Seq<int> {
        seq![
            self.year(),
            self.month(),
            self.day(),
            self.hour(),
            self.minute(),
            self.second(),
            self.nanosecond(),
        ]
    }

    /// Deserialises a timestamp whose year has signed state `year_signed_state`: see
    /// [`ts_decoded`].
    ///
    /// # Errors
    /// - [`TSError::IntegerSerError`] if a field cannot be read or does not fit its type;
    /// - [`TSError::InvalidDateOrTime`] if the fields make no day or no time of day.
    pub fn deser(year_signed_state: SignedState, bytes: &mut Cursor<u8>) -> (r: Result<
        Self,
        TSError,
    >)
        requires
            old(bytes).wf(),
        ensures
            final(bytes).wf(),
            final(bytes).items() == old(bytes).items(),
            match ts_decoded(year_signed_state, old(bytes).rest()) {
                Ok((f, n)) => r matches Ok(t) && t.wf() && t.fields() == f && final(bytes).head()
                    == old(bytes).head() + n,
                Err(e) => r matches Err(e2) && e2 == e,
            },
    {
        let ghost s = old(bytes).rest();
        let ghost h0 = old(bytes).head();
        let (year, month, day) = match read_date(year_signed_state, bytes) {
            Ok(d) => d,
            Err(e) => return Err(e),
        };
        let ghost c = (bytes.head() - h0) as nat;
        assert(bytes.rest() =~= after(s, c));
        let (hour, minute, second, nanosecond) = match read_time(bytes) {
            Ok(t) => t,
            Err(e) => return Err(e),
        };
        let t = Timestamp { year, month, day, hour, minute, second, nanosecond };
        assert(t.fields() =~= seq![
            year as int,
            month as int,
            day as int,
            hour as int,
            minute as int,
            second as int,
            nanosecond as int,
        ]);
        Ok(t)
    }
}

/// Reads a year, month and day: see [`date_decoded`].
fn read_date(year_ss: SignedState, bytes: &mut Cursor<u8>) -> (r: Result<(i32, u32, u32), TSError>)
    requires
        old(bytes).wf(),
    ensures
        final(bytes).wf(),
        final(bytes).items() == old(bytes).items(),
        match date_decoded(year_ss, old(bytes).rest()) {
            Ok(((y, mo, d), n)) => r matches Ok(v) && v.0 == y && v.1 == mo && v.2 == d
                && final(bytes).head() == old(bytes).head() + n,
            Err(e) => r matches Err(e2) && e2 == e,
        },
{
    let ghost s = old(bytes).rest();
    let ghost h0 = old(bytes).head();
    let year = match read_field_i32(year_ss, bytes) {
        Ok(v) => v,
        Err(e) => return Err(e),
    };
    let ghost c1 = (bytes.head() - h0) as nat;
    assert(bytes.rest() =~= after(s, c1));
    let month = match read_field_u32(bytes) {
        Ok(v) => v,
        Err(e) => return Err(e),
    };
    let ghost c2 = (bytes.head() - h0 - c1) as nat;
    assert(bytes.rest() =~= after(s, c1 + c2));
    let day = match read_field_u32(bytes) {
        Ok(v) => v,
        Err(e) => return Err(e),
    };
    if !chrono_date_exists(year, month, day) {
        return Err(TSError::InvalidDateOrTime);
    }
    Ok((year, month, day))
}

/// Reads an hour, minute, second and nanosecond: see [`time_decoded`].
fn read_time(bytes: &mut Cursor<u8>) -> (r: Result<(u32, u32, u32, u32), TSError>)
    requires
        old(bytes).wf(),
    ensures
        final(bytes).wf(),
        final(bytes).items() == old(bytes).items(),
        match time_decoded(old(bytes).rest()) {
            Ok(((h, mi, se, ns), n)) => r matches Ok(v) && v.0 == h && v.1 == mi && v.2 == se
                && v.3 == ns && final(bytes).head() == old(bytes).head() + n,
            Err(e) => r matches Err(e2) && e2 == e,
        },
{
    let ghost s = old(bytes).rest();
    let ghost h0 = old(bytes).head();
    let hour = match read_field_u32(bytes) {
        Ok(v) => v,
        Err(e) => return Err(e),
    };
    let ghost c1 = (bytes.head() - h0) as nat;
    assert(bytes.rest() =~= after(s, c1));
    let minute = match read_field_u32(bytes) {
        Ok(v) => v,
        Err(e) => return Err(e),
    };
    let ghost c2 = (bytes.head() - h0 - c1) as nat;
    assert(bytes.rest() =~= after(s, c1 + c2));
    let second = match read_field_u32(bytes) {
        Ok(v) => v,
        Err(e) => return Err(e),
    };
    let ghost c3 = (bytes.head() - h0 - c1 - c2) as nat;
    assert(bytes.rest() =~= after(s, c1 + c2 + c3));
    let nanosecond = match read_field_u32(bytes) {
        Ok(v) => v,
        Err(e) => return Err(e),
    };
    if !chrono_time_exists(hour, minute, second, nanosecond) {
        return Err(TSError::InvalidDateOrTime);
    }
    Ok((hour, minute, second, nanosecond))
}

/// Reads a field of type `i32` with signed state `ss`: see [`field_read`].
fn read_field_i32(ss: SignedState, bytes: &mut Cursor<u8>) -> (r: Result<i32, TSError>)
    requires
        old(bytes).wf(),
    ensures
        final(bytes).wf(),
        final(bytes).items() == old(bytes).items(),
        match field_read(ss, old(bytes).rest(), i32::MIN as int, i32::MAX as int) {
            Ok((v, n)) => r == Ok::<i32, TSError>(v as i32) && final(bytes).head() == old(
                bytes,
            ).head() + n,
            Err(e) => r matches Err(e2) && e2 == e,
        },
{
    match Integer::deser(ss, bytes) {
        Ok(i) => match i.try_into_i32() {
            Ok(v) => Ok(v),
            Err(e) => Err(TSError::IntegerSerError(e)),
        },
        Err(e) => Err(TSError::IntegerSerError(e)),
    }
}

/// Reads a field of type `u32`: see [`field_read`].
fn read_field_u32(bytes: &mut Cursor<u8>) -> (r: Result<u32, TSError>)
    requires
        old(bytes).wf(),
    ensures
        final(bytes).wf(),
        final(bytes).items() == old(bytes).items(),
        match field_read(SignedState::Positive, old(bytes).rest(), 0, u32::MAX as int) {
            Ok((v, n)) => r == Ok::<u32, TSError>(v as u32) && final(bytes).head() == old(
                bytes,
            ).head() + n,
            Err(e) => r matches Err(e2) && e2 == e,
        },
{
    match Integer::deser(SignedState::Positive, bytes) {
        Ok(i) => match i.try_into_u32() {
            Ok(v) => Ok(v),
            Err(e) => Err(TSError::IntegerSerError(e)),
        },
        Err(e) => Err(TSError::IntegerSerError(e)),
    }
}

/// An integer read back from its own encoding, whatever follows it.
pub proof fn lemma_int_roundtrip(v: int, tail: Seq<u8>)
    requires
        -u128::MAX <= v <= u128::MAX,
    ensures
        int_read(int_encoding(v).0, int_encoding(v).1 + tail) == Some((v, int_encoding(v).1.len())),
        v >= 0 ==> int_encoding(v).0 == SignedState::Positive,
{
    if v < 0 {
        lemma_encoding_roundtrip(SignedState::Negative, (-v) as nat, tail);
    } else {
        lemma_encoding_roundtrip(SignedState::Positive, v as nat, tail);
    }
}

/// A year, month and day read back from their encodings, whatever follows them.
pub proof fn lemma_date_roundtrip(y: int, mo: int, d: int, tail: Seq<u8>)
    requires
        date_exists(y, mo, d),
        i32::MIN <= y <= i32::MAX,
        0 <= mo <= u32::MAX,
        0 <= d <= u32::MAX,
    ensures
        date_decoded(int_encoding(y).0, int_encoding(y).1 + int_encoding(mo).1 + int_encoding(d).1 + tail)
            == Ok::<((int, int, int), nat), TSError>(
            ((y, mo, d), int_encoding(y).1.len() + int_encoding(mo).1.len() + int_encoding(d).1.len()),
        ),
{
    let ey = int_encoding(y).1;
    let emo = int_encoding(mo).1;
    let ed = int_encoding(d).1;
    let s = ey + emo + ed + tail;
    assert(s =~= ey + (emo + (ed + tail)));
    lemma_int_roundtrip(y, emo + (ed + tail));
    assert(after(s, ey.len()) =~= emo + (ed + tail));
    lemma_int_roundtrip(mo, ed + tail);
    assert(after(s, ey.len() + emo.len()) =~= ed + tail);
    lemma_int_roundtrip(d, tail);
}

/// An hour, minute, second and nanosecond read back from their encodings, whatever follows
/// them.
pub proof fn lemma_time_roundtrip(h: int, mi: int, se: int, ns: int, tail: Seq<u8>)
    requires
        time_exists(h, mi, se, ns),
    ensures
        time_decoded(int_encoding(h).1 + int_encoding(mi).1 + int_encoding(se).1 + int_encoding(ns).1 + tail)
            == Ok::<((int, int, int, int), nat), TSError>(
            (
                (h, mi, se, ns),
                int_encoding(h).1.len() + int_encoding(mi).1.len() + int_encoding(se).1.len()
                    + int_encoding(ns).1.len(),
            ),
        ),
{
    let eh = int_encoding(h).1;
    let emi = int_encoding(mi).1;
    let es = int_encoding(se).1;
    let ens = int_encoding(ns).1;
    let u = eh + emi + es + ens + tail;
    assert(u =~= eh + (emi + (es + (ens + tail))));
    lemma_int_roundtrip(h, emi + (es + (ens + tail)));
    assert(after(u, eh.len()) =~= emi + (es + (ens + tail)));
    lemma_int_roundtrip(mi, es + (ens + tail));
    assert(after(u, eh.len() + emi.len()) =~= es + (ens + tail));
    lemma_int_roundtrip(se, ens + tail);
    assert(after(u, eh.len() + emi.len() + es.len()) =~= ens + tail);
    lemma_int_roundtrip(ns, tail);
}

/// Reading back the bytes of a timestamp, with the signed state of its year, gives the same
/// fields and moves past exactly those bytes, whatever follows them.
pub proof fn lemma_ts_roundtrip(t: Timestamp, rest: Seq<u8>)
    requires
        t.wf(),
    ensures
        ts_decoded(int_encoding(t.year()).0, t.encoded() + rest) == Ok::<(Seq<int>, nat), TSError>(
            (t.fields(), t.encoded().len()),
        ),
{
    t.lemma_field_bounds();
    let ey = int_encoding(t.year()).1;
    let emo = int_encoding(t.month()).1;
    let ed = int_encoding(t.day()).1;
    let eh = int_encoding(t.hour()).1;
    let emi = int_encoding(t.minute()).1;
    let es = int_encoding(t.second()).1;
    let ens = int_encoding(t.nanosecond()).1;
    let s = t.encoded() + rest;
    let tail_time = eh + emi + es + ens + rest;
    assert(s =~= ey + emo + ed + tail_time);
    lemma_date_roundtrip(t.year(), t.month(), t.day(), tail_time);
    let c = ey.len() + emo.len() + ed.len();
    assert(after(s, c) =~= tail_time);
    lemma_time_roundtrip(t.hour(), t.minute(), t.second(), t.nanosecond(), rest);
    assert(t.fields() =~= seq![
        t.year(),
        t.month(),
        t.day(),
        t.hour(),
        t.minute(),
        t.second(),
        t.nanosecond(),
    ]);
}

/// Appends `src` to `dst`.
fn extend(dst: &mut Vec<u8>, src: &Vec<u8>)
    ensures
        final(dst)@ == old(dst)@ + src@,
{
    let mut i: usize = 0;
    while i < src.len()
        invariant
            i <= src@.len(),
            dst@ == old(dst)@ + src@.take(i as int),
        decreases src.len() - i,
    {
        dst.push(src[i]);
        i = i + 1;
        assert(dst@ =~= old(dst)@ + src@.take(i as int));
    }
    assert(src@.take(src@.len() as int) =~= src@);
}

} // verus!
