//! Timestamps of the result log: calendar validity, the fixed text form
//! `YYYY-MM-DD HH:MM:SS`, and whole-day differences between dates.
use chrono::{Datelike, Timelike};
use vstd::prelude::*;

verus! {

/// Smallest year of the proleptic Gregorian calendar that dates can hold.
pub const MIN_YEAR: i32 = -262143;

/// Largest year of the proleptic Gregorian calendar that dates can hold.
pub const MAX_YEAR: i32 = 262142;

/// A local date and time of day, to the second, without a time zone.
#[derive(Clone, Copy, Debug, PartialEq, Eq, Structural)]
pub struct Timestamp {
    pub year: i32,
    pub month: u32,
    pub day: u32,
    pub hour: u32,
    pub minute: u32,
    pub second: u32,
}

pub open spec fn is_leap(y: int) -> bool {
    y % 4 == 0 && (y % 100 != 0 || y % 400 == 0)
}

pub open spec fn days_in_month(y: int, m: int) -> int {
    if m == 2 {
        if is_leap(y) {
            29
        } else {
            28
        }
    } else if m == 4 || m == 6 || m == 9 || m == 11 {
        30
    } else {
        31
    }
}

/// A day that exists in the proleptic Gregorian calendar, within the years
/// that dates can hold.
pub open spec fn valid_date(y: int, m: int, d: int) -> bool {
    MIN_YEAR <= y <= MAX_YEAR && 1 <= m <= 12 && 1 <= d <= days_in_month(y, m)
}

/// Days of year `y` in the months before month `m`.
pub open spec fn days_before_month(y: int, m: int) -> int
    decreases m,
{
    if m <= 1 {
        0
    } else {
        days_before_month(y, m - 1) + days_in_month(y, m - 1)
    }
}

/// The day number of a date in the proleptic Gregorian calendar, January 1
/// of year 1 being day 1: the day of the year, plus 365 days for each year
/// before, plus one for each leap year before.
pub open spec fn days_from_ce(y: int, m: int, d: int) -> int {
    let p = y - 1;
    days_before_month(y, m) + d + 365 * p + p / 4 - p / 100 + p / 400
}

impl Timestamp {
    /// An existing day and a time of day with seconds below 60.
    pub open spec fn valid(&self) -> bool {
        valid_date(self.year as int, self.month as int, self.day as int) && self.hour < 24
            && self.minute < 60 && self.second < 60
    }

    /// Valid, with a year that takes four digits.
    pub open spec fn printable(&self) -> bool {
        self.valid() && 0 <= self.year <= 9999
    }

    pub open spec fn day_count(&self) -> int {
        days_from_ce(self.year as int, self.month as int, self.day as int)
    }

    /// The text form `YYYY-MM-DD HH:MM:SS`.
    pub open spec fn text(&self) -> Seq<char> {
        let y = self.year as int;
        seq![digit_char(y / 1000), digit_char(y / 100 % 10), digit_char(y / 10 % 10), digit_char(y % 10)]
            + seq!['-'] + two_digits(self.month as int) + seq!['-'] + two_digits(self.day as int)
            + seq![' '] + two_digits(self.hour as int) + seq![':'] + two_digits(self.minute as int)
            + seq![':'] + two_digits(self.second as int)
    }
}

pub open spec fn digit_char(d: int) -> char {
    ((d + 48) as u8) as char
}

pub open spec fn two_digits(n: int) -> Seq<char> {
    seq![digit_char(n / 10), digit_char(n % 10)]
}

pub open spec fn is_digit(c: char) -> bool {
    '0' <= c && c <= '9'
}

pub open spec fn digit_value(c: char) -> int {
    c as int - 48
}

/// Value of the decimal digits `s[from..to]`.
pub open spec fn number_at(s: Seq<char>, from: int, to: int) -> int
    decreases to - from,
{
    if to <= from {
        0
    } else {
        10 * number_at(s, from, to - 1) + digit_value(s[to - 1])
    }
}

/// Text in the exact shape `DDDD-DD-DD DD:DD:DD`, each `D` a decimal digit.
pub open spec fn shaped(s: Seq<char>) -> bool {
    &&& s.len() == 19
    &&& forall|i: int|
        0 <= i < 19 && i != 4 && i != 7 && i != 10 && i != 13 && i != 16 ==> is_digit(
            #[trigger] s[i],
        )
    &&& s[4] == '-' && s[7] == '-' && s[10] == ' ' && s[13] == ':' && s[16] == ':'
}

/// The fields that text in the shape `DDDD-DD-DD DD:DD:DD` spells.
pub open spec fn spelled(s: Seq<char>) -> Timestamp {
    Timestamp {
        year: number_at(s, 0, 4) as i32,
        month: number_at(s, 5, 7) as u32,
        day: number_at(s, 8, 10) as u32,
        hour: number_at(s, 11, 13) as u32,
        minute: number_at(s, 14, 16) as u32,
        second: number_at(s, 17, 19) as u32,
    }
}

/// Relies on `chrono::Local::now` and `NaiveDateTime`'s field accessors: the
/// local date and time now, on an existing day, with seconds below 60 (a leap
/// second shows as second 59).
#[verifier::external_body]
pub(crate) fn local_now() -> (r: Timestamp)
    ensures
        r.valid(),
{
    let t = chrono::Local::now().naive_local();
    Timestamp {
        year: t.year(),
        month: t.month(),
        day: t.day(),
        hour: t.hour(),
        minute: t.minute(),
        second: t.second(),
    }
}

/// Relies on `chrono::NaiveDate::from_ymd_opt`, which accepts every existing
/// day in its range of years, and on `Datelike::num_days_from_ce`, which
/// counts days in the proleptic Gregorian calendar from January 1 of year 1.
#[verifier::external_body]
fn day_number(y: i32, m: u32, d: u32) -> (r: i32)
    requires
        valid_date(y as int, m as int, d as int),
    ensures
        r == days_from_ce(y as int, m as int, d as int),
{
    chrono::NaiveDate::from_ymd_opt(y, m, d).unwrap().num_days_from_ce()
}

/// Relies on `chrono::NaiveDateTime::parse_from_str` with the format
/// `%Y-%m-%d %H:%M:%S`: what it accepts is an existing day and time, and text
/// of the exact shape `DDDD-DD-DD DD:DD:DD` with seconds below 60 is accepted
/// exactly when the fields it spells are in range.
#[verifier::external_body]
pub(crate) fn parse_timestamp(s: &str) -> (r: Option<Timestamp>)
    ensures
        r matches Some(t) ==> t.valid(),
        shaped(s@) && spelled(s@).second < 60 ==> r == (if spelled(s@).valid() {
            Some(spelled(s@))
        } else {
            None
        }),
{
    match chrono::NaiveDateTime::parse_from_str(s, "%Y-%m-%d %H:%M:%S") {
        Ok(t) => Some(
            Timestamp {
                year: t.year(),
                month: t.month(),
                day: t.day(),
                hour: t.hour(),
                minute: t.minute(),
                second: t.second(),
            },
        ),
        Err(_) => None,
    }
}

fn digit(d: u32) -> (r: char)
    requires
        d < 10,
    ensures
        r == digit_char(d as int),
{
    ((d as u8) + 48u8) as char
}

impl Timestamp {
    /// The text form `YYYY-MM-DD HH:MM:SS`.
    pub fn to_text(&self) -> (r: Vec<char>)
        requires
            self.printable(),
        ensures
            r@ == self.text(),
    {
        let y = self.year as u32;
        let mut r: Vec<char> = Vec::new();
        r.push(digit(y / 1000));
        r.push(digit(y / 100 % 10));
        r.push(digit(y / 10 % 10));
        r.push(digit(y % 10));
        r.push('-');
        r.push(digit(self.month / 10));
        r.push(digit(self.month % 10));
        r.push('-');
        r.push(digit(self.day / 10));
        r.push(digit(self.day % 10));
        r.push(' ');
        r.push(digit(self.hour / 10));
        r.push(digit(self.hour % 10));
        r.push(':');
        r.push(digit(self.minute / 10));
        r.push(digit(self.minute % 10));
        r.push(':');
        r.push(digit(self.second / 10));
        r.push(digit(self.second % 10));
        proof {
            assert(r@ =~= self.text());
        }
        r
    }
}

/// The time for a log entry, from a clock reading: the reading itself where
/// its year takes four digits, nothing otherwise.
pub fn log_time(t: Timestamp) -> (r: Option<Timestamp>)
    requires
        t.valid(),
    ensures
        r == (if 0 <= t.year <= 9999 {
            Some(t)
        } else {
            None
        }),
        r matches Some(u) ==> u.printable(),
{
    if 0 <= t.year && t.year <= 9999 {
        Some(t)
    } else {
        None
    }
}

/// The local time now, for a log entry: what `log_time` makes of the clock.
pub fn log_time_now() -> (r: Option<Timestamp>)
    ensures
        exists|t: Timestamp| t.valid() && r == log_time_spec(t),
        r matches Some(u) ==> u.printable(),
{
    let t = local_now();
    log_time(t)
}

pub open spec fn log_time_spec(t: Timestamp) -> Option<Timestamp> {
    if 0 <= t.year <= 9999 {
        Some(t)
    } else {
        None
    }
}

/// Whether `s` has the exact shape `DDDD-DD-DD DD:DD:DD` with seconds below 60.
pub fn shaped_below_leap(s: &[char]) -> (r: bool)
    ensures
        r == (shaped(s@) && spelled(s@).second < 60),
{
    if s.len() != 19 {
        return false;
    }
    let mut i: usize = 0;
    while i < 19
        invariant
            0 <= i <= 19,
            s@.len() == 19,
            forall|k: int|
                0 <= k < i && k != 4 && k != 7 && k != 10 && k != 13 && k != 16 ==> is_digit(
                    #[trigger] s@[k],
                ),
        decreases 19 - i,
    {
        if i != 4 && i != 7 && i != 10 && i != 13 && i != 16 && !('0' <= s[i] && s[i] <= '9') {
            return false;
        }
        i = i + 1;
    }
    if !(s[4] == '-' && s[7] == '-' && s[10] == ' ' && s[13] == ':' && s[16] == ':') {
        return false;
    }
    proof {
        reveal_with_fuel(number_at, 3);
        assert(is_digit(s@[17]) && is_digit(s@[18]));
    }
    s[17] <= '5'
}

/// Whole calendar days from the date of `last` to the date of `now`; the
/// times of day play no part.
pub fn days_between(last: &Timestamp, now: &Timestamp) -> (r: i64)
    requires
        last.valid(),
        now.valid(),
    ensures
        r == now.day_count() - last.day_count(),
{
    let a = day_number(last.year, last.month, last.day);
    let b = day_number(now.year, now.month, now.day);
    (b as i64) - (a as i64)
}

proof fn lemma_digit(d: int)
    requires
        0 <= d < 10,
    ensures
        digit_value(digit_char(d)) == d,
{
    assert(((d + 48) as u8) as char as int == d + 48);
}

/// The year of text in the exact shape takes four digits.
pub proof fn lemma_shaped_year(s: Seq<char>)
    requires
        shaped(s),
    ensures
        0 <= spelled(s).year <= 9999,
{
    assert(is_digit(s[0]) && is_digit(s[1]) && is_digit(s[2]) && is_digit(s[3]));
    reveal_with_fuel(number_at, 5);
}

/// A printable timestamp spells itself back from its text form.
pub proof fn lemma_text_spelled(t: Timestamp)
    requires
        t.printable(),
    ensures
        shaped(t.text()),
        spelled(t.text()) == t,
{
    let s = t.text();
    let y = t.year as int;
    assert(s.len() == 19);
    assert forall|i: int|
        0 <= i < 19 && i != 4 && i != 7 && i != 10 && i != 13 && i != 16 implies is_digit(
        #[trigger] s[i],
    ) by {}
    lemma_digit(y / 1000);
    lemma_digit(y / 100 % 10);
    lemma_digit(y / 10 % 10);
    lemma_digit(y % 10);
    lemma_digit(t.month as int / 10);
    lemma_digit(t.month as int % 10);
    lemma_digit(t.day as int / 10);
    lemma_digit(t.day as int % 10);
    lemma_digit(t.hour as int / 10);
    lemma_digit(t.hour as int % 10);
    lemma_digit(t.minute as int / 10);
    lemma_digit(t.minute as int % 10);
    lemma_digit(t.second as int / 10);
    lemma_digit(t.second as int % 10);
    reveal_with_fuel(number_at, 5);
    let n = number_at(s, 0, 4);
    assert(n == ((y / 1000 * 10 + y / 100 % 10) * 10 + y / 10 % 10) * 10 + y % 10);
    assert(n == y) by (nonlinear_arith)
        requires
            n == ((y / 1000 * 10 + y / 100 % 10) * 10 + y / 10 % 10) * 10 + y % 10,
            0 <= y <= 9999,
    {}
    assert(number_at(s, 5, 7) == t.month as int);
    assert(number_at(s, 8, 10) == t.day as int);
    assert(number_at(s, 11, 13) == t.hour as int);
    assert(number_at(s, 14, 16) == t.minute as int);
    assert(number_at(s, 17, 19) == t.second as int);
}

} // verus!
