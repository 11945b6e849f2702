use crate::text::{lemma_lex_le_concat, lemma_lex_le_reflexive, lex_le};
use chrono::{Datelike, NaiveDate};
use vstd::prelude::*;

verus! {

/// The earliest year a calendar date may lie in.
pub const MIN_YEAR: i32 = -262143;

/// The latest year a calendar date may lie in.
pub const MAX_YEAR: i32 = 262142;

/// Leap years of the proleptic Gregorian calendar.
pub open spec fn is_leap_year(year: int) -> bool {
    year % 4 == 0 && (year % 100 != 0 || year % 400 == 0)
}

/// The number of days of a month; 0 for a month number outside 1..=12.
pub open spec fn days_in_month(year: int, month: int) -> int {
    if month == 2 {
        if is_leap_year(year) {
            29
        } else {
            28
        }
    } else if month == 4 || month == 6 || month == 9 || month == 11 {
        30
    } else if 1 <= month <= 12 {
        31
    } else {
        0
    }
}

/// Whether year, month and day name a day of the proleptic Gregorian calendar
/// within the supported range of years.
pub open spec fn is_calendar_date(year: int, month: int, day: int) -> bool {
    &&& MIN_YEAR <= year <= MAX_YEAR
    &&& 1 <= month <= 12
    &&& 1 <= day <= days_in_month(year, month)
}

/// Whether hour, minute and second name a second of a day (leap seconds excluded).
pub open spec fn is_clock_time(hour: int, minute: int, second: int) -> bool {
    0 <= hour < 24 && 0 <= minute < 60 && 0 <= second < 60
}

/// How many days lie between 1 January of the year 1 and 1 January of `year`; negative
/// for the years before the year 1. A year has 365 days, and one more where it is a
/// leap year.
pub open spec fn days_before_year(year: int) -> int {
    let years = year - 1;
    365 * years + years / 4 - years / 100 + years / 400
}

/// How many days of `year` lie before the first day of `month`.
pub open spec fn days_before_month(year: int, month: int) -> int
    decreases month,
{
    if month <= 1 {
        0
    } else {
        days_before_month(year, month - 1) + days_in_month(year, month - 1)
    }
}

/// The number of a calendar day, counted from 1 January of the year 1, which is day 1.
pub open spec fn days_from_ce(year: int, month: int, day: int) -> int {
    days_before_year(year) + days_before_month(year, month) + day
}

/// Calls `chrono::NaiveDate::from_ymd_opt` and, on the date it gives,
/// `chrono::Datelike::num_days_from_ce`.
///
/// Trusted: chrono accepts exactly the days of the proleptic Gregorian calendar in the
/// years `MIN_YEAR..=MAX_YEAR`, and the number it then returns is the count of the days
/// of that calendar from 1 January of the year 1, which is day 1.
#[verifier::external_body]
fn chrono_day_number(date: &Date) -> (r: Option<i32>)
    ensures
        r is Some <==> date.valid(),
        r matches Some(n) ==> n == days_from_ce(date.year as int, date.month as int, date.day as int),
{
    match NaiveDate::from_ymd_opt(date.year, date.month as u32, date.day as u32) {
        Some(day) => Some(day.num_days_from_ce()),
        None => None,
    }
}

/// The decimal digit that stands for `value`, which is meant to be below ten.
pub open spec fn digit_char(value: int) -> char {
    if value == 0 {
        '0'
    } else if value == 1 {
        '1'
    } else if value == 2 {
        '2'
    } else if value == 3 {
        '3'
    } else if value == 4 {
        '4'
    } else if value == 5 {
        '5'
    } else if value == 6 {
        '6'
    } else if value == 7 {
        '7'
    } else if value == 8 {
        '8'
    } else {
        '9'
    }
}

/// The last `width` decimal digits of a natural number, most significant first.
pub open spec fn decimal_digits(value: nat, width: nat) -> Seq<char>
    decreases width,
{
    if width == 0 {
        Seq::empty()
    } else {
        decimal_digits(value / 10, (width - 1) as nat).push(digit_char((value % 10) as int))
    }
}

/// How many digits the year of a timestamp takes: four, or as many as its magnitude needs.
pub open spec fn year_width(magnitude: nat) -> nat {
    if magnitude < 10000 {
        4
    } else if magnitude < 100000 {
        5
    } else {
        6
    }
}

/// The year as a timestamp writes it: four digits for the years 0..=9999, and otherwise
/// a sign followed by at least four digits.
pub open spec fn year_text(year: int) -> Seq<char> {
    if 0 <= year <= 9999 {
        decimal_digits(year as nat, 4)
    } else if year > 9999 {
        seq!['+'] + decimal_digits(year as nat, year_width(year as nat))
    } else {
        seq!['-'] + decimal_digits((-year) as nat, year_width((-year) as nat))
    }
}

/// The text `YYYYMMDD_HHMMSS` of a moment.
pub open spec fn timestamp_text(
    year: int,
    month: int,
    day: int,
    hour: int,
    minute: int,
    second: int,
) -> Seq<char> {
    year_text(year) + decimal_digits(month as nat, 2) + decimal_digits(day as nat, 2) + seq!['_']
        + decimal_digits(hour as nat, 2) + decimal_digits(minute as nat, 2) + decimal_digits(
        second as nat,
        2,
    )
}

/// Calls `chrono::NaiveDate::from_ymd_opt`, `chrono::NaiveDate::and_hms_opt` and
/// `chrono::NaiveDateTime::format` with the pattern `%Y%m%d_%H%M%S`.
///
/// Trusted: chrono accepts exactly the calendar dates and clock times described by
/// `is_calendar_date` and `is_clock_time`, and writes the year with four digits (signed
/// and wider outside 0..=9999) and every other field with two.
#[verifier::external_body]
fn chrono_timestamp(moment: &DateTime) -> (r: Option<String>)
    ensures
        r is Some <==> moment.valid(),
        r matches Some(text) ==> text@ == moment.timestamp(),
{
    let date = &moment.date;
    match NaiveDate::from_ymd_opt(date.year, date.month as u32, date.day as u32) {
        Some(day) => match day.and_hms_opt(
            moment.hour as u32,
            moment.minute as u32,
            moment.second as u32,
        ) {
            Some(instant) => Some(instant.format("%Y%m%d_%H%M%S").to_string()),
            None => None,
        },
        None => None,
    }
}

/// How many days a month of a year of the calendar has.
fn month_length(year: i32, month: u8) -> (days: u8)
    requires
        MIN_YEAR <= year <= MAX_YEAR,
        1 <= month <= 12,
    ensures
        days == days_in_month(year as int, month as int),
{
    if month == 2 {
        // The leap years repeat every 400 years, so a year and the year 262400 years
        // later are leap years together; the later one is not negative.
        let shifted: u32 = (year + 262400) as u32;
        proof {
            let y = year as int;
            assert((y + 262400) % 4 == y % 4);
            assert((y + 262400) % 100 == y % 100);
            assert((y + 262400) % 400 == y % 400);
        }
        if shifted % 4 == 0 && (shifted % 100 != 0 || shifted % 400 == 0) {
            29
        } else {
            28
        }
    } else if month == 4 || month == 6 || month == 9 || month == 11 {
        30
    } else {
        31
    }
}

/// A day of the calendar, by year, month and day of the month.
#[derive(Clone, Copy, Debug, PartialEq, Eq, Structural)]
pub struct Date {
    pub year: i32,
    pub month: u8,
    pub day: u8,
}

impl Date {
    /// The day exists in the calendar.
    pub open spec fn valid(self) -> bool {
        is_calendar_date(self.year as int, self.month as int, self.day as int)
    }

    /// A number that orders dates as the calendar does: an earlier date has a smaller key,
    /// and different dates have different keys.
    pub open spec fn key(self) -> nat {
        (((self.year + 0x8000_0000) * 256 + self.month) * 256 + self.day) as nat
    }

    /// The number of the day, counted from 1 January of the year 1.
    pub open spec fn day_number(self) -> int {
        days_from_ce(self.year as int, self.month as int, self.day as int)
    }

    pub fn new(year: i32, month: u8, day: u8) -> (date: Date)
        ensures
            date == (Date { year, month, day }),
    {
        Date { year, month, day }
    }

    pub fn is_valid(&self) -> (ok: bool)
        ensures
            ok == self.valid(),
    {
        if self.year < MIN_YEAR || self.year > MAX_YEAR || self.month < 1 || self.month > 12
            || self.day < 1 {
            return false;
        }
        self.day <= month_length(self.year, self.month)
    }

    /// The day after this one.
    pub open spec fn next(self) -> Date {
        if self.day < days_in_month(self.year as int, self.month as int) {
            Date { year: self.year, month: self.month, day: (self.day + 1) as u8 }
        } else if self.month < 12 {
            Date { year: self.year, month: (self.month + 1) as u8, day: 1 }
        } else {
            Date { year: (self.year + 1) as i32, month: 1, day: 1 }
        }
    }

    /// The day after this one, where this is a day of the calendar that is not its last.
    pub fn following(&self) -> (r: Option<Date>)
        ensures
            r is Some <==> self.valid() && self.next().valid(),
            r matches Some(date) ==> date == self.next() && date.key() > self.key(),
            self.valid() && r is None ==> *self == (Date { year: MAX_YEAR, month: 12, day: 31 }),
    {
        if !self.is_valid() {
            return None;
        }
        if self.day < month_length(self.year, self.month) {
            Some(Date { year: self.year, month: self.month, day: self.day + 1 })
        } else if self.month < 12 {
            Some(Date { year: self.year, month: self.month + 1, day: 1 })
        } else if self.year < MAX_YEAR {
            Some(Date { year: self.year + 1, month: 1, day: 1 })
        } else {
            None
        }
    }

    pub fn order_key(&self) -> (k: u128)
        ensures
            k == self.key(),
    {
        let year: u128 = (self.year as i64 + 0x8000_0000) as u128;
        (year * 256 + self.month as u128) * 256 + self.day as u128
    }

    /// The number of the day, where the day exists.
    pub fn to_day_number(&self) -> (r: Option<i32>)
        ensures
            r is Some <==> self.valid(),
            r matches Some(n) ==> n == self.day_number(),
    {
        chrono_day_number(self)
    }
}

/// A second of a day of the calendar.
#[derive(Clone, Copy, Debug, PartialEq, Eq, Structural)]
pub struct DateTime {
    pub date: Date,
    pub hour: u8,
    pub minute: u8,
    pub second: u8,
}

impl DateTime {
    pub open spec fn valid(self) -> bool {
        self.date.valid() && is_clock_time(self.hour as int, self.minute as int, self.second as int)
    }

    /// A number that orders moments as time does: an earlier moment has a smaller key,
    /// and different moments have different keys.
    pub open spec fn key(self) -> nat {
        (((self.date.key() * 256 + self.hour) * 256 + self.minute) * 256 + self.second) as nat
    }

    /// The text `YYYYMMDD_HHMMSS` of this moment.
    pub open spec fn timestamp(self) -> Seq<char> {
        timestamp_text(
            self.date.year as int,
            self.date.month as int,
            self.date.day as int,
            self.hour as int,
            self.minute as int,
            self.second as int,
        )
    }

    pub fn new(date: Date, hour: u8, minute: u8, second: u8) -> (moment: DateTime)
        ensures
            moment == (DateTime { date, hour, minute, second }),
    {
        DateTime { date, hour, minute, second }
    }

    /// The moment on `date` at `hour:minute:00`, or midnight where these name no time of day.
    pub fn at(date: Date, hour: u32, minute: u32) -> (moment: DateTime)
        ensures
            moment.date == date,
            moment.second == 0,
            hour < 24 && minute < 60 ==> moment.hour == hour && moment.minute == minute,
            !(hour < 24 && minute < 60) ==> moment.hour == 0 && moment.minute == 0,
    {
        if hour < 24 && minute < 60 {
            DateTime { date, hour: hour as u8, minute: minute as u8, second: 0 }
        } else {
            DateTime { date, hour: 0, minute: 0, second: 0 }
        }
    }

    pub fn is_valid(&self) -> (ok: bool)
        ensures
            ok == self.valid(),
    {
        self.date.is_valid() && self.hour < 24 && self.minute < 60 && self.second < 60
    }

    pub fn order_key(&self) -> (k: u128)
        ensures
            k == self.key(),
    {
        ((self.date.order_key() * 256 + self.hour as u128) * 256 + self.minute as u128) * 256
            + self.second as u128
    }

    /// The second after this one.
    pub open spec fn next_second(self) -> DateTime {
        if self.second < 59 {
            DateTime { second: (self.second + 1) as u8, ..self }
        } else if self.minute < 59 {
            DateTime { minute: (self.minute + 1) as u8, second: 0, ..self }
        } else if self.hour < 23 {
            DateTime { hour: (self.hour + 1) as u8, minute: 0, second: 0, ..self }
        } else {
            DateTime { date: self.date.next(), hour: 0, minute: 0, second: 0 }
        }
    }

    /// The second after this one, where this is a moment of the calendar that is not
    /// its last.
    pub fn following_second(&self) -> (r: Option<DateTime>)
        ensures
            r is Some <==> self.valid() && self.next_second().valid(),
            r matches Some(moment) ==> moment == self.next_second() && moment.key() > self.key(),
    {
        if !self.is_valid() {
            return None;
        }
        if self.second < 59 {
            Some(DateTime { date: self.date, hour: self.hour, minute: self.minute, second: self.second + 1 })
        } else if self.minute < 59 {
            Some(DateTime { date: self.date, hour: self.hour, minute: self.minute + 1, second: 0 })
        } else if self.hour < 23 {
            Some(DateTime { date: self.date, hour: self.hour + 1, minute: 0, second: 0 })
        } else {
            match self.date.following() {
                Some(date) => Some(DateTime { date, hour: 0, minute: 0, second: 0 }),
                None => None,
            }
        }
    }

    /// The text `YYYYMMDD_HHMMSS` of this moment, where it is a moment of the calendar.
    pub fn to_timestamp(&self) -> (r: Option<String>)
        ensures
            r is Some <==> self.valid(),
            r matches Some(text) ==> text@ == self.timestamp(),
    {
        chrono_timestamp(self)
    }
}

/// Dates are ordered by their keys as by year, then month, then day.
pub proof fn lemma_date_key_order(a: Date, b: Date)
    ensures
        a.key() <= b.key() <==> (a.year < b.year || (a.year == b.year && (a.month < b.month || (
        a.month == b.month && a.day <= b.day)))),
        a.key() == b.key() <==> a == b,
{
}

/// Moments are ordered by their keys as by date, then hour, minute and second.
pub proof fn lemma_datetime_key_order(a: DateTime, b: DateTime)
    ensures
        a.key() <= b.key() <==> (a.date.key() < b.date.key() || (a.date == b.date && (a.hour
            < b.hour || (a.hour == b.hour && (a.minute < b.minute || (a.minute == b.minute
            && a.second <= b.second)))))),
        a.key() == b.key() <==> a == b,
        a.key() <= b.key() ==> a.date.key() <= b.date.key(),
{
    lemma_date_key_order(a.date, b.date);
}

/// Two digits stand for one number below a hundred, and are ordered as the numbers are.
pub proof fn lemma_two_digits(u: nat, v: nat)
    requires
        u < 100,
        v < 100,
    ensures
        decimal_digits(u, 2).len() == 2,
        decimal_digits(v, 2).len() == 2,
        (decimal_digits(u, 2) == decimal_digits(v, 2)) == (u == v),
        lex_le(decimal_digits(u, 2), decimal_digits(v, 2)) == (u <= v),
{
    reveal_with_fuel(decimal_digits, 3);
    reveal_with_fuel(lex_le, 3);
    let a = decimal_digits(u, 2);
    let b = decimal_digits(v, 2);
    assert(a =~= seq![digit_char((u / 10) as int), digit_char((u % 10) as int)]);
    assert(b =~= seq![digit_char((v / 10) as int), digit_char((v % 10) as int)]);
    assert(a.drop_first() =~= seq![digit_char((u % 10) as int)]);
    assert(b.drop_first() =~= seq![digit_char((v % 10) as int)]);
    assert(a.drop_first().drop_first() =~= Seq::<char>::empty());
    assert(a.drop_first()[0] == a[1] && b.drop_first()[0] == b[1]);
    if u == v {
        assert(a == b);
    } else {
        assert(a[0] != b[0] || a[1] != b[1]);
    }
}

/// The last hundred of a number, and what stands before it, digit by digit.
proof fn lemma_hundreds(v: nat)
    ensures
        v / 10 / 10 == v / 100,
        (v % 100) / 10 == (v / 10) % 10,
        (v % 100) % 10 == v % 10,
        (v % 100) / 10 / 10 == 0,
{
}

/// The digits of a number are those of its hundreds, followed by the two of the rest.
pub proof fn lemma_digits_split(v: nat, width: nat)
    ensures
        decimal_digits(v, width + 2) == decimal_digits(v / 100, width) + decimal_digits(
            v % 100,
            2,
        ),
{
    lemma_hundreds(v);
    let low = v % 100;
    assert(decimal_digits(low, 2) =~= seq![
        digit_char(((v / 10) % 10) as int),
        digit_char((v % 10) as int),
    ]) by {
        reveal_with_fuel(decimal_digits, 3);
    }
    assert(decimal_digits(v, width + 2) == decimal_digits(v / 10, width + 1).push(
        digit_char((v % 10) as int),
    ));
    assert(decimal_digits(v / 10, width + 1) == decimal_digits(v / 10 / 10, width).push(
        digit_char(((v / 10) % 10) as int),
    ));
    assert(decimal_digits(v, width + 2) =~= decimal_digits(v / 100, width) + decimal_digits(
        low,
        2,
    ));
}

/// Four digits stand for one number below ten thousand, and are ordered as the
/// numbers are.
pub proof fn lemma_four_digits(u: nat, v: nat)
    requires
        u < 10000,
        v < 10000,
    ensures
        decimal_digits(u, 4).len() == 4,
        decimal_digits(v, 4).len() == 4,
        (decimal_digits(u, 4) == decimal_digits(v, 4)) == (u == v),
        lex_le(decimal_digits(u, 4), decimal_digits(v, 4)) == (u <= v),
{
    let uh = decimal_digits(u / 100, 2);
    let ul = decimal_digits(u % 100, 2);
    let vh = decimal_digits(v / 100, 2);
    let vl = decimal_digits(v % 100, 2);
    lemma_digits_split(u, 2);
    lemma_digits_split(v, 2);
    lemma_two_digits(u / 100, v / 100);
    lemma_two_digits(u % 100, v % 100);
    lemma_lex_le_concat(uh, ul, vh, vl);
    if uh + ul == vh + vl {
        assert(uh =~= (uh + ul).subrange(0, 2));
        assert(vh =~= (vh + vl).subrange(0, 2));
        assert(ul =~= (uh + ul).subrange(2, 4));
        assert(vl =~= (vh + vl).subrange(2, 4));
    }
}

/// In the years 0 to 9999 the texts of moments are ordered as the moments are, and
/// different moments have different texts.
pub proof fn lemma_timestamps_follow_time(a: DateTime, b: DateTime)
    requires
        a.valid(),
        b.valid(),
        0 <= a.date.year <= 9999,
        0 <= b.date.year <= 9999,
    ensures
        a.timestamp().len() == 15,
        b.timestamp().len() == 15,
        (a.timestamp() == b.timestamp()) == (a == b),
        lex_le(a.timestamp(), b.timestamp()) == (a.key() <= b.key()),
{
    let ya = decimal_digits(a.date.year as nat, 4);
    let yb = decimal_digits(b.date.year as nat, 4);
    let ma = decimal_digits(a.date.month as nat, 2);
    let mb = decimal_digits(b.date.month as nat, 2);
    let da = decimal_digits(a.date.day as nat, 2);
    let db = decimal_digits(b.date.day as nat, 2);
    let ha = decimal_digits(a.hour as nat, 2);
    let hb = decimal_digits(b.hour as nat, 2);
    let ia = decimal_digits(a.minute as nat, 2);
    let ib = decimal_digits(b.minute as nat, 2);
    let sa = decimal_digits(a.second as nat, 2);
    let sb = decimal_digits(b.second as nat, 2);
    let bar = seq!['_'];
    lemma_four_digits(a.date.year as nat, b.date.year as nat);
    lemma_two_digits(a.date.month as nat, b.date.month as nat);
    lemma_two_digits(a.date.day as nat, b.date.day as nat);
    lemma_two_digits(a.hour as nat, b.hour as nat);
    lemma_two_digits(a.minute as nat, b.minute as nat);
    lemma_two_digits(a.second as nat, b.second as nat);
    let ta = a.timestamp();
    let tb = b.timestamp();
    let a5 = ia + sa;
    let b5 = ib + sb;
    let a4 = ha + a5;
    let b4 = hb + b5;
    let a3 = bar + a4;
    let b3 = bar + b4;
    let a2 = da + a3;
    let b2 = db + b3;
    let a1 = ma + a2;
    let b1 = mb + b2;
    assert(ta =~= ya + a1);
    assert(tb =~= yb + b1);
    lemma_lex_le_concat(ia, sa, ib, sb);
    lemma_lex_le_concat(ha, a5, hb, b5);
    lemma_lex_le_concat(bar, a4, bar, b4);
    lemma_lex_le_concat(da, a3, db, b3);
    lemma_lex_le_concat(ma, a2, mb, b2);
    lemma_lex_le_concat(ya, a1, yb, b1);
    lemma_lex_le_reflexive(sa);
    lemma_datetime_key_order(a, b);
    lemma_date_key_order(a.date, b.date);
    if ta == tb {
        assert(ya =~= ta.subrange(0, 4) && yb =~= tb.subrange(0, 4));
        assert(ma =~= ta.subrange(4, 6) && mb =~= tb.subrange(4, 6));
        assert(da =~= ta.subrange(6, 8) && db =~= tb.subrange(6, 8));
        assert(ha =~= ta.subrange(9, 11) && hb =~= tb.subrange(9, 11));
        assert(ia =~= ta.subrange(11, 13) && ib =~= tb.subrange(11, 13));
        assert(sa =~= ta.subrange(13, 15) && sb =~= tb.subrange(13, 15));
    }
    assert((a5 == b5) == (ia == ib && sa == sb)) by {
        if ia == ib && sa == sb {
        } else if a5 == b5 {
            assert(ia =~= a5.subrange(0, 2) && ib =~= b5.subrange(0, 2));
            assert(sa =~= a5.subrange(2, 4) && sb =~= b5.subrange(2, 4));
        }
    }
    assert((a4 == b4) == (ha == hb && a5 == b5)) by {
        if a4 == b4 {
            assert(ha =~= a4.subrange(0, 2) && hb =~= b4.subrange(0, 2));
            assert(a5 =~= a4.subrange(2, 6) && b5 =~= b4.subrange(2, 6));
        }
    }
    assert((a3 == b3) == (a4 == b4)) by {
        if a3 == b3 {
            assert(a4 =~= a3.subrange(1, 7) && b4 =~= b3.subrange(1, 7));
        }
    }
    assert((a2 == b2) == (da == db && a3 == b3)) by {
        if a2 == b2 {
            assert(da =~= a2.subrange(0, 2) && db =~= b2.subrange(0, 2));
            assert(a3 =~= a2.subrange(2, 9) && b3 =~= b2.subrange(2, 9));
        }
    }
    assert((a1 == b1) == (ma == mb && a2 == b2)) by {
        if a1 == b1 {
            assert(ma =~= a1.subrange(0, 2) && mb =~= b1.subrange(0, 2));
            assert(a2 =~= a1.subrange(2, 11) && b2 =~= b1.subrange(2, 11));
        }
    }
}

/// The second after a moment of the calendar is later than the moment, and it is a
/// moment of the calendar unless the moment is the last second of the last year.
pub proof fn lemma_next_second(moment: DateTime)
    requires
        moment.valid(),
    ensures
        moment.next_second().key() > moment.key(),
        moment.next_second().valid() <==> !(moment.date == (Date {
            year: MAX_YEAR,
            month: 12,
            day: 31,
        }) && moment.hour == 23 && moment.minute == 59 && moment.second == 59),
{
}

/// The characters that stand for digits.
pub open spec fn is_digit(c: char) -> bool {
    c == '0' || c == '1' || c == '2' || c == '3' || c == '4' || c == '5' || c == '6' || c == '7'
        || c == '8' || c == '9'
}

/// Ten to the power of `width`.
pub open spec fn ten_to(width: nat) -> nat
    decreases width,
{
    if width == 0 {
        1
    } else {
        10 * ten_to((width - 1) as nat)
    }
}

/// The digits of a number are as many as asked for, and all of them are digits.
pub proof fn lemma_digits(value: nat, width: nat)
    ensures
        decimal_digits(value, width).len() == width,
        forall|i: int| 0 <= i < width ==> is_digit(#[trigger] decimal_digits(value, width)[i]),
    decreases width,
{
    if width > 0 {
        lemma_digits(value / 10, (width - 1) as nat);
    }
}

/// Numbers with the same digits are the same number, where the digits are enough to
/// write them.
pub proof fn lemma_digits_injective(u: nat, v: nat, width: nat)
    requires
        u < ten_to(width),
        v < ten_to(width),
        decimal_digits(u, width) == decimal_digits(v, width),
    ensures
        u == v,
    decreases width,
{
    if width > 0 {
        let a = decimal_digits(u / 10, (width - 1) as nat);
        let b = decimal_digits(v / 10, (width - 1) as nat);
        lemma_digits(u / 10, (width - 1) as nat);
        lemma_digits(v / 10, (width - 1) as nat);
        assert(a =~= decimal_digits(u, width).drop_last());
        assert(b =~= decimal_digits(v, width).drop_last());
        assert(decimal_digits(u, width).last() == digit_char((u % 10) as int));
        assert(decimal_digits(v, width).last() == digit_char((v % 10) as int));
        lemma_digits_injective(u / 10, v / 10, (width - 1) as nat);
    }
}

/// Different years are written differently.
pub proof fn lemma_year_text_injective(a: int, b: int)
    requires
        MIN_YEAR <= a <= MAX_YEAR,
        MIN_YEAR <= b <= MAX_YEAR,
        year_text(a) == year_text(b),
    ensures
        a == b,
{
    reveal_with_fuel(ten_to, 7);
    let ma: nat = if a < 0 {
        (-a) as nat
    } else {
        a as nat
    };
    let mb: nat = if b < 0 {
        (-b) as nat
    } else {
        b as nat
    };
    let wa: nat = if 0 <= a <= 9999 {
        4
    } else {
        year_width(ma)
    };
    let wb: nat = if 0 <= b <= 9999 {
        4
    } else {
        year_width(mb)
    };
    lemma_digits(ma, wa);
    lemma_digits(mb, wb);
    let da = decimal_digits(ma, wa);
    let db = decimal_digits(mb, wb);
    assert(is_digit(da[0]) && is_digit(db[0]));
    let plain_a = 0 <= a <= 9999;
    let plain_b = 0 <= b <= 9999;
    if plain_a {
        assert(year_text(a)[0] == da[0]);
    } else {
        assert(year_text(a)[0] == if a > 0 {
            '+'
        } else {
            '-'
        });
        assert(da =~= year_text(a).drop_first());
    }
    if plain_b {
        assert(year_text(b)[0] == db[0]);
    } else {
        assert(year_text(b)[0] == if b > 0 {
            '+'
        } else {
            '-'
        });
        assert(db =~= year_text(b).drop_first());
    }
    assert(plain_a == plain_b);
    assert(da == db);
    assert(wa == wb);
    lemma_digits_injective(ma, mb, wa);
}

/// The text of a moment without its year: month and day, a bar, and the time of day.
pub open spec fn day_and_time_text(moment: DateTime) -> Seq<char> {
    decimal_digits(moment.date.month as nat, 2) + decimal_digits(moment.date.day as nat, 2)
        + seq!['_'] + decimal_digits(moment.hour as nat, 2) + decimal_digits(
        moment.minute as nat,
        2,
    ) + decimal_digits(moment.second as nat, 2)
}

/// Different moments of the calendar have different texts, whatever their years.
pub proof fn lemma_timestamp_injective(a: DateTime, b: DateTime)
    requires
        a.valid(),
        b.valid(),
        a.timestamp() == b.timestamp(),
    ensures
        a == b,
{
    let ra = day_and_time_text(a);
    let rb = day_and_time_text(b);
    let ya = year_text(a.date.year as int);
    let yb = year_text(b.date.year as int);
    lemma_two_digits(a.date.month as nat, b.date.month as nat);
    lemma_two_digits(a.date.day as nat, b.date.day as nat);
    lemma_two_digits(a.hour as nat, b.hour as nat);
    lemma_two_digits(a.minute as nat, b.minute as nat);
    lemma_two_digits(a.second as nat, b.second as nat);
    assert(ra.len() == 11 && rb.len() == 11);
    let ta = a.timestamp();
    let tb = b.timestamp();
    assert(ta =~= ya + ra);
    assert(tb =~= yb + rb);
    assert(ya =~= ta.subrange(0, ta.len() - 11));
    assert(yb =~= tb.subrange(0, tb.len() - 11));
    assert(ra =~= ta.subrange(ta.len() - 11, ta.len() as int));
    assert(rb =~= tb.subrange(tb.len() - 11, tb.len() as int));
    lemma_year_text_injective(a.date.year as int, b.date.year as int);
    assert(decimal_digits(a.date.month as nat, 2) =~= ra.subrange(0, 2));
    assert(decimal_digits(b.date.month as nat, 2) =~= rb.subrange(0, 2));
    assert(decimal_digits(a.date.day as nat, 2) =~= ra.subrange(2, 4));
    assert(decimal_digits(b.date.day as nat, 2) =~= rb.subrange(2, 4));
    assert(decimal_digits(a.hour as nat, 2) =~= ra.subrange(5, 7));
    assert(decimal_digits(b.hour as nat, 2) =~= rb.subrange(5, 7));
    assert(decimal_digits(a.minute as nat, 2) =~= ra.subrange(7, 9));
    assert(decimal_digits(b.minute as nat, 2) =~= rb.subrange(7, 9));
    assert(decimal_digits(a.second as nat, 2) =~= ra.subrange(9, 11));
    assert(decimal_digits(b.second as nat, 2) =~= rb.subrange(9, 11));
}

/// A year has as many days as its months have together: 365, or 366 where it is a leap
/// year; and so many days lie between its first day and that of the next year.
pub proof fn lemma_year_length(year: int)
    ensures
        days_before_month(year, 13) == if is_leap_year(year) {
            366int
        } else {
            365int
        },
        days_before_year(year + 1) == days_before_year(year) + days_before_month(year, 13),
{
    reveal_with_fuel(days_before_month, 14);
}

/// Before a later month lie at least the days that lie before an earlier one, and
/// those of the earlier month itself.
pub proof fn lemma_months_add_up(year: int, earlier: int, later: int)
    requires
        1 <= earlier < later <= 13,
    ensures
        days_before_month(year, earlier) + days_in_month(year, earlier) <= days_before_month(
            year,
            later,
        ),
        days_before_month(year, earlier) >= 0,
    decreases later - earlier,
{
    lemma_months_not_negative(year, earlier);
    if later > earlier + 1 {
        lemma_months_add_up(year, earlier, later - 1);
    }
}

proof fn lemma_months_not_negative(year: int, month: int)
    requires
        1 <= month <= 13,
    ensures
        days_before_month(year, month) >= 0,
    decreases month,
{
    if month > 1 {
        lemma_months_not_negative(year, month - 1);
    }
}

/// Before a later year lie at least the days that lie before an earlier one, and
/// those of the earlier year itself.
pub proof fn lemma_years_add_up(earlier: int, later: int)
    requires
        earlier < later,
    ensures
        days_before_year(earlier) + days_before_month(earlier, 13) <= days_before_year(later),
    decreases later - earlier,
{
    lemma_year_length(earlier);
    if later > earlier + 1 {
        lemma_years_add_up(earlier, later - 1);
        lemma_year_length(later - 1);
    }
}

/// Days are numbered as they follow each other: a later day has a greater number, and
/// the day after a day has the next number.
pub proof fn lemma_day_numbers_follow_time(a: Date, b: Date)
    requires
        a.valid(),
        b.valid(),
    ensures
        a.key() <= b.key() <==> a.day_number() <= b.day_number(),
        a.key() == b.key() <==> a.day_number() == b.day_number(),
        a.next().valid() ==> a.next().day_number() == a.day_number() + 1,
        -0x8000_0000 <= a.day_number() < 0x8000_0000,
{
    lemma_date_key_order(a, b);
    lemma_day_number_below(a, b);
    lemma_day_number_below(b, a);
    lemma_year_length(a.year as int);
    lemma_months_not_negative(a.year as int, a.month as int);
    if a.month < 12 {
        lemma_months_add_up(a.year as int, a.month as int, a.month + 1);
    }
    assert(days_before_month(a.year as int, 1) == 0);
    assert(days_before_month(a.year as int, a.month + 1) == days_before_month(
        a.year as int,
        a.month as int,
    ) + days_in_month(a.year as int, a.month as int));
    lemma_months_add_up(a.year as int, a.month as int, 13);
    lemma_year_bounds(a.year as int);
}

/// The days before a year of the calendar are fewer than fit in 31 bits.
proof fn lemma_year_bounds(year: int)
    requires
        MIN_YEAR <= year <= MAX_YEAR,
    ensures
        -100_000_000 <= days_before_year(year) <= 100_000_000,
{
}

/// A day that comes before another in the calendar has a smaller number.
proof fn lemma_day_number_below(a: Date, b: Date)
    requires
        a.valid(),
        b.valid(),
    ensures
        a.key() < b.key() ==> a.day_number() < b.day_number(),
{
    lemma_date_key_order(a, b);
    lemma_date_key_order(b, a);
    if a.key() < b.key() {
        lemma_months_add_up(a.year as int, a.month as int, 13);
        lemma_months_not_negative(b.year as int, b.month as int);
        if a.year < b.year {
            lemma_years_add_up(a.year as int, b.year as int);
        } else if a.month < b.month {
            lemma_months_add_up(a.year as int, a.month as int, b.month as int);
        }
    }
}

} // verus!
