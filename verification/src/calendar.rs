//! Dates of the Gregorian calendar and the text of a point in time.

use vstd::prelude::*;
use crate::text::{all_digits, comes_before, digit_chars, digits, lemma_comes_before};
use crate::text::{digits_are_written_in_ascii, digits_spell_the_number, leading_zeros_do_not_count};
use crate::text::{lemma_four_places, lemma_two_places, number_of, push_padded, zero_padded};

verus! {

/// Whether a year has a 29th of February.
pub open spec fn is_leap(year: int) -> bool {
    year % 4 == 0 && (year % 100 != 0 || year % 400 == 0)
}

/// The number of days in a month.
pub open spec fn month_length(year: int, month: int) -> int {
    if month == 2 {
        if is_leap(year) {
            29
        } else {
            28
        }
    } else if month == 4 || month == 6 || month == 9 || month == 11 {
        30
    } else {
        31
    }
}

/// A date of the Gregorian calendar.
pub struct Date {
    pub year: int,
    pub month: int,
    pub day: int,
}

impl Date {
    /// Whether the calendar has the date.
    pub open spec fn is_valid(self) -> bool {
        &&& 1 <= self.month <= 12
        &&& 1 <= self.day <= month_length(self.year, self.month)
    }

    /// The day after.
    pub open spec fn next(self) -> Date {
        if self.day < month_length(self.year, self.month) {
            Date { day: self.day + 1, ..self }
        } else if self.month < 12 {
            Date { month: self.month + 1, day: 1, ..self }
        } else {
            Date { year: self.year + 1, month: 1, day: 1 }
        }
    }

    /// The number of days from 1970-01-01 to the date.
    pub open spec fn number(self) -> int {
        days_before_year(self.year) + days_before_month(self.year, self.month) + self.day - 1
            - 719528
    }
}

/// The number of days from the start of year 0 to the start of `year`.
pub open spec fn days_before_year(year: int) -> int {
    365 * year + (year + 3) / 4 - (year + 99) / 100 + (year + 399) / 400
}

/// The number of days of `year` before the start of `month`.
pub open spec fn days_before_month(year: int, month: int) -> int
    decreases month,
{
    if month <= 1 {
        0
    } else {
        days_before_month(year, month - 1) + month_length(year, month - 1)
    }
}

/// The date with the given number.
pub open spec fn date_on(number: int) -> Date {
    choose|d: Date| d.is_valid() && #[trigger] d.number() == number
}

/// The calendar starts to count at 1970-01-01, and each date has the number
/// that follows that of the day before.
pub proof fn numbers_follow_the_calendar(d: Date)
    requires
        d.is_valid(),
    ensures
        (Date { year: 1970, month: 1, day: 1 }).number() == 0,
        d.next().is_valid(),
        d.next().number() == d.number() + 1,
{
    lemma_months(d.year);
    lemma_months(1970);
    lemma_months(d.year + 1);
    lemma_year(d.year);
}

/// A year has 365 days, or 366 if it is a leap year.
proof fn lemma_year(year: int)
    ensures
        days_before_year(year + 1) == days_before_year(year) + (if is_leap(year) {
            366int
        } else {
            365
        }),
{
}

/// The days before each month, written out.
proof fn lemma_months(year: int)
    ensures
        forall|m: int|
            1 <= m <= 12 ==> #[trigger] days_before_month(year, m) == (if m == 1 {
                0
            } else if m == 2 {
                31
            } else {
                month_start(m) + (if is_leap(year) {
                    1int
                } else {
                    0
                })
            }),
{
    reveal_with_fuel(days_before_month, 13);
}

/// The days before a month from March on in a year without a leap day.
spec fn month_start(m: int) -> int {
    if m == 3 {
        59
    } else if m == 4 {
        90
    } else if m == 5 {
        120
    } else if m == 6 {
        151
    } else if m == 7 {
        181
    } else if m == 8 {
        212
    } else if m == 9 {
        243
    } else if m == 10 {
        273
    } else if m == 11 {
        304
    } else {
        334
    }
}

/// Years that follow start at least as many years of 365 days later.
proof fn lemma_years_ascend(a: int, b: int)
    requires
        a < b,
    ensures
        days_before_year(a) + (if is_leap(a) {
            366int
        } else {
            365
        }) <= days_before_year(b),
    decreases b - a,
{
    lemma_year(a);
    if a + 1 < b {
        lemma_years_ascend(a + 1, b);
    }
}

/// No two dates have the same number.
pub proof fn dates_differ_in_their_numbers(a: Date, b: Date)
    requires
        a.is_valid(),
        b.is_valid(),
        a.number() == b.number(),
    ensures
        a == b,
{
    lemma_months(a.year);
    lemma_months(b.year);
    if a.year < b.year {
        lemma_years_ascend(a.year, b.year);
    } else if b.year < a.year {
        lemma_years_ascend(b.year, a.year);
    }
}

/// Seconds since 1970 as whole days, rounded toward zero.
pub open spec fn whole_days(secs: int) -> int {
    if secs >= 0 {
        secs / 86400
    } else {
        -((-secs) / 86400)
    }
}

/// A year with at least four characters: leading zeros, behind the sign of a
/// negative one.
pub open spec fn year_text(year: int) -> Seq<char> {
    if year < 0 {
        seq!['-'] + digit_chars(zero_padded(digits((-year) as nat), 3))
    } else {
        digit_chars(zero_padded(digits(year as nat), 4))
    }
}

/// A number with at least two digits.
pub open spec fn two_digits(v: int) -> Seq<char> {
    digit_chars(zero_padded(digits(v as nat), 2))
}

/// The text of a point in time: the date, a hyphen and the time of day. The year
/// is taken as a number of 32 bits.
pub open spec fn timestamp(secs: int) -> Seq<char> {
    let date = date_on(whole_days(secs));
    let time = secs % 86400;
    year_text(date.year as i32 as int) + two_digits(date.month) + two_digits(date.day) + seq!['-']
        + two_digits(time / 3600) + two_digits(time % 3600 / 60) + two_digits(time % 60)
}

/// The year within an era of 400 years that day `doe` of the era falls in, and
/// its place in that year. These years start in March.
proof fn lemma_year_of_era(doe: int)
    requires
        0 <= doe < 146097,
    ensures
        ({
            let yoe = (doe - doe / 1460 + doe / 36524 - doe / 146096) / 365;
            let doy = doe - (365 * yoe + yoe / 4 - yoe / 100);
            &&& 0 <= yoe < 400
            &&& 0 <= doy <= 365
            &&& doy == 365 ==> is_leap(yoe + 1)
        }),
{
}

/// The month and the day that place `doy` of a year falls on that starts in
/// March.
proof fn lemma_month_of_year(doy: int)
    requires
        0 <= doy <= 365,
    ensures
        ({
            let mp = (5 * doy + 2) / 153;
            let day = doy - (153 * mp + 2) / 5 + 1;
            &&& 0 <= mp <= 11
            &&& 1 <= day
            &&& mp <= 9 ==> day <= month_length(1, mp + 3) && doy == month_start(mp + 3) - 59 + day
                - 1
            &&& mp == 10 ==> day <= 31 && doy == 306 + day - 1
            &&& mp == 11 ==> day <= 29 && doy == 337 + day - 1 && (day == 29 ==> doy == 365)
        }),
{
}

/// The year `yoe` of era `era` starts as many days after year 0 as it does in
/// its era.
proof fn lemma_era(era: int, yoe: int)
    requires
        0 <= yoe < 400,
    ensures
        days_before_year(400 * era + yoe) + 59 + (if is_leap(400 * era + yoe) {
            1int
        } else {
            0
        }) == 146097 * era + 365 * yoe + yoe / 4 - yoe / 100 + 60,
        is_leap(400 * era + yoe + 1) == is_leap(yoe + 1),
{
    let y = 400 * era + yoe;
    assert((y + 3) / 4 == 100 * era + (yoe + 3) / 4);
    assert((y + 99) / 100 == 4 * era + (yoe + 99) / 100);
    assert((y + 399) / 400 == era + (yoe + 399) / 400);
    lemma_leap_in_era(era, yoe);
    lemma_leap_in_era(era, yoe + 1);
    lemma_leap_days(yoe);
}

/// Leap years recur in every era.
proof fn lemma_leap_in_era(era: int, year: int)
    ensures
        is_leap(400 * era + year) == is_leap(year),
{
    let y = 400 * era + year;
    assert(y % 4 == year % 4);
    assert(y % 100 == year % 100);
    assert(y % 400 == year % 400);
}

/// The leap days up to a year of the first era.
proof fn lemma_leap_days(year: int)
    requires
        0 <= year < 400,
    ensures
        (year + 3) / 4 - (year + 99) / 100 + (year + 399) / 400 + (if is_leap(year) {
            1int
        } else {
            0
        }) == year / 4 - year / 100 + 1,
{
}

/// The date that an era, the year in it, and a place in that year make.
proof fn lemma_civil(era: int, yoe: int, doy: int)
    requires
        0 <= yoe < 400,
        0 <= doy <= 365,
        doy == 365 ==> is_leap(yoe + 1),
    ensures
        ({
            let mp = (5 * doy + 2) / 153;
            let day = doy - (153 * mp + 2) / 5 + 1;
            let month = if mp < 10 {
                mp + 3
            } else {
                mp - 9
            };
            let year = 400 * era + yoe + (if month <= 2 {
                1int
            } else {
                0
            });
            let date = Date { year, month, day };
            &&& date.is_valid()
            &&& date.number() == 146097 * era + 365 * yoe + yoe / 4 - yoe / 100 + doy - 719468
        }),
{
    let mp = (5 * doy + 2) / 153;
    let start = 400 * era + yoe;
    lemma_month_of_year(doy);
    lemma_era(era, yoe);
    lemma_year(start);
    lemma_months(start);
    lemma_months(start + 1);
}

/// The date of a day, given as days since 1970-01-01.
pub fn days_to_ymd(days_since_epoch: i64) -> (r: (i32, u32, u32))
    requires
        days_since_epoch + 719468 <= i64::MAX,
    ensures
        r.0 == date_on(days_since_epoch as int).year as i32,
        r.1 == date_on(days_since_epoch as int).month,
        r.2 == date_on(days_since_epoch as int).day,
{
    let z: i64 = days_since_epoch + 719468;
    let era: i64 = match z.checked_div_euclid(146097) {
        Some(q) => q,
        None => {
            assert(false);
            0
        },
    };
    let doe: i64 = match z.checked_rem_euclid(146097) {
        Some(r) => r,
        None => {
            assert(false);
            0
        },
    };
    let doe: u64 = doe as u64;
    let yoe: u64 = (doe - doe / 1460 + doe / 36524 - doe / 146096) / 365;
    proof {
        lemma_year_of_era(doe as int);
    }
    let y: i64 = yoe as i64 + era * 400;
    let doy: u64 = doe - (365 * yoe + yoe / 4 - yoe / 100);
    let mp: u64 = (5 * doy + 2) / 153;
    proof {
        lemma_month_of_year(doy as int);
    }
    let d: u64 = doy - (153 * mp + 2) / 5 + 1;
    let m: u64 = if mp < 10 {
        mp + 3
    } else {
        mp - 9
    };
    let y: i64 = if m <= 2 {
        y + 1
    } else {
        y
    };
    proof {
        lemma_civil(era as int, yoe as int, doy as int);
        let date = Date { year: y as int, month: m as int, day: d as int };
        let found = date_on(days_since_epoch as int);
        assert(date.number() == days_since_epoch);
        dates_differ_in_their_numbers(found, date);
    }
    #[verifier::truncate]
    let year: i32 = y as i32;
    (year, m as u32, d as u32)
}

/// The text of a point in time, given as seconds since 1970.
pub fn format_timestamp(secs: i64) -> (r: String)
    ensures
        r@ == timestamp(secs as int),
{
    let floor: i64 = match secs.checked_div_euclid(86400) {
        Some(q) => q,
        None => {
            assert(false);
            0
        },
    };
    let rem: i64 = match secs.checked_rem_euclid(86400) {
        Some(r) => r,
        None => {
            assert(false);
            0
        },
    };
    let rem: u64 = rem as u64;
    let days: i64 = if secs < 0 && rem != 0 {
        floor + 1
    } else {
        floor
    };
    assert(days == whole_days(secs as int));
    let (y, mo, d) = days_to_ymd(days);
    let mut out = String::new();
    if y < 0 {
        out.append("-");
        proof {
            reveal_strlit("-");
        }
        assert(out@ =~= seq!['-']);
        push_padded(&mut out, (-(y as i64)) as u64, 3);
    } else {
        push_padded(&mut out, y as u64, 4);
    }
    assert(out@ =~= year_text(y as int));
    push_padded(&mut out, mo as u64, 2);
    push_padded(&mut out, d as u64, 2);
    let ghost date = out@;
    out.append("-");
    proof {
        reveal_strlit("-");
        assert(out@ =~= date + seq!['-']);
    }
    push_padded(&mut out, rem / 3600, 2);
    push_padded(&mut out, rem % 3600 / 60, 2);
    push_padded(&mut out, rem % 60, 2);
    out
}

/// Every day has a date.
pub proof fn every_day_has_a_date(number: int)
    ensures
        date_on(number).is_valid(),
        date_on(number).number() == number,
{
    let z = number + 719468;
    let era = z / 146097;
    let doe = z % 146097;
    let yoe = (doe - doe / 1460 + doe / 36524 - doe / 146096) / 365;
    let doy = doe - (365 * yoe + yoe / 4 - yoe / 100);
    lemma_year_of_era(doe);
    lemma_civil(era, yoe, doy);
    let mp = (5 * doy + 2) / 153;
    let day = doy - (153 * mp + 2) / 5 + 1;
    let month = if mp < 10 {
        mp + 3
    } else {
        mp - 9
    };
    let year = 400 * era + yoe + (if month <= 2 {
        1int
    } else {
        0
    });
    let date = Date { year, month, day };
    assert(date.is_valid() && date.number() == number);
}

/// Whether one date is earlier than another: by the year, then by the month, then
/// by the day.
pub open spec fn is_earlier(a: Date, b: Date) -> bool {
    a.year < b.year || a.year == b.year && (a.month < b.month || a.month == b.month && a.day
        < b.day)
}

/// An earlier day has an earlier date.
pub proof fn dates_follow_their_numbers(a: Date, b: Date)
    requires
        a.is_valid(),
        b.is_valid(),
        a.number() < b.number(),
    ensures
        is_earlier(a, b),
{
    lemma_months(a.year);
    lemma_months(b.year);
    if b.year < a.year {
        lemma_years_ascend(b.year, a.year);
    }
}

/// The years of the days from 1970 to 9999.
proof fn lemma_year_range(number: int)
    requires
        0 <= number < 2932897,
    ensures
        1970 <= date_on(number).year <= 9999,
{
    let date = date_on(number);
    every_day_has_a_date(number);
    lemma_months(date.year);
    lemma_months(1970);
    lemma_months(10000);
    if date.year < 1970 {
        lemma_years_ascend(date.year, 1970);
    }
    if date.year == 10000 {
        assert(days_before_year(10000) == 2932897 + 719528);
    } else if date.year > 10000 {
        lemma_years_ascend(10000, date.year);
    }
}

/// A lower number of two digits comes before a higher one.
proof fn lemma_two_digits_ascend(u: int, v: int)
    requires
        0 <= u < v < 100,
    ensures
        comes_before(two_digits(u), two_digits(v)),
{
    lemma_two_places(u as nat);
    lemma_two_places(v as nat);
    let x = two_digits(u);
    let y = two_digits(v);
    let k: int = if u / 10 < v / 10 {
        0
    } else {
        1
    };
    assert(x.take(k) =~= y.take(k));
    assert(x[k] < y[k]);
}

/// A year as two numbers of two digits.
proof fn lemma_year_halves(year: int)
    requires
        0 <= year < 10000,
    ensures
        year_text(year) == two_digits(year / 100) + two_digits(year % 100),
{
    lemma_four_places(year as nat);
    lemma_two_places((year / 100) as nat);
    lemma_two_places((year % 100) as nat);
    assert(year / 100 / 10 == year / 1000);
    assert(year % 100 / 10 == year / 10 % 10);
    assert(year % 100 % 10 == year % 10);
    assert(year_text(year) =~= two_digits(year / 100) + two_digits(year % 100));
}

/// A lower year comes before a higher one.
proof fn lemma_years_ascend_as_text(u: int, v: int)
    requires
        0 <= u < v < 10000,
    ensures
        comes_before(year_text(u), year_text(v)),
{
    lemma_year_halves(u);
    lemma_year_halves(v);
    lemma_two_places((u / 100) as nat);
    lemma_two_places((v / 100) as nat);
    if u / 100 < v / 100 {
        lemma_two_digits_ascend(u / 100, v / 100);
    } else {
        lemma_two_digits_ascend(u % 100, v % 100);
    }
    lemma_comes_before(
        two_digits(u / 100),
        two_digits(v / 100),
        two_digits(u % 100),
        two_digits(v % 100),
    );
}

/// Up to the year 9999 the text of a point in time has fifteen characters: eight
/// digits, a hyphen and six digits.
pub proof fn timestamps_have_one_form(secs: int)
    requires
        0 <= secs < 253402300800,
    ensures
        timestamp(secs).len() == 15,
        timestamp(secs)[8] == '-',
        all_digits(timestamp(secs).take(8)),
        all_digits(timestamp(secs).skip(9)),
{
    let date = date_on(whole_days(secs));
    let time = secs % 86400;
    every_day_has_a_date(whole_days(secs));
    lemma_year_range(whole_days(secs));
    lemma_four_places(date.year as nat);
    lemma_two_places(date.month as nat);
    lemma_two_places(date.day as nat);
    lemma_two_places((time / 3600) as nat);
    lemma_two_places((time % 3600 / 60) as nat);
    lemma_two_places((time % 60) as nat);
    let day = year_text(date.year) + two_digits(date.month) + two_digits(date.day);
    let clock = two_digits(time / 3600) + two_digits(time % 3600 / 60) + two_digits(time % 60);
    assert(timestamp(secs) =~= day + seq!['-'] + clock);
    assert(timestamp(secs).take(8) =~= day);
    assert(timestamp(secs).skip(9) =~= clock);
}

/// Appends a number of two digits to each of two texts that are alike, or the
/// first of which comes before the other.
proof fn lemma_next_field(
    p: Seq<char>,
    q: Seq<char>,
    alike: bool,
    u: int,
    v: int,
) -> (r: (Seq<char>, Seq<char>))
    requires
        p.len() == q.len(),
        alike ==> p == q && 0 <= u <= v < 100,
        !alike ==> comes_before(p, q),
        0 <= u < 100,
        0 <= v < 100,
    ensures
        r.0 == p + two_digits(u),
        r.1 == q + two_digits(v),
        r.0.len() == r.1.len(),
        alike && u == v ==> r.0 == r.1,
        !(alike && u == v) ==> comes_before(r.0, r.1),
{
    lemma_two_places(u as nat);
    lemma_two_places(v as nat);
    if alike {
        if u < v {
            lemma_two_digits_ascend(u, v);
            lemma_comes_before(p, q, two_digits(u), two_digits(v));
        }
    } else {
        lemma_comes_before(p, q, two_digits(u), two_digits(v));
    }
    (p + two_digits(u), q + two_digits(v))
}

/// The text of an earlier date comes before that of a later one.
proof fn lemma_dates_ascend(d: Date, e: Date)
    requires
        d.is_valid(),
        e.is_valid(),
        0 <= d.year < 10000,
        0 <= e.year < 10000,
        is_earlier(d, e),
    ensures
        comes_before(
            year_text(d.year) + two_digits(d.month) + two_digits(d.day),
            year_text(e.year) + two_digits(e.month) + two_digits(e.day),
        ),
{
    lemma_four_places(d.year as nat);
    lemma_four_places(e.year as nat);
    if d.year < e.year {
        lemma_years_ascend_as_text(d.year, e.year);
    }
    let same_year = d.year == e.year;
    let (p, q) = lemma_next_field(
        year_text(d.year),
        year_text(e.year),
        same_year,
        d.month,
        e.month,
    );
    lemma_next_field(p, q, same_year && d.month == e.month, d.day, e.day);
}

/// Behind texts that are alike, an earlier time of day comes before a later one.
proof fn lemma_clock_ascends(p: Seq<char>, s: int, t: int)
    requires
        0 <= s < t < 86400,
    ensures
        comes_before(
            p + two_digits(s / 3600) + two_digits(s % 3600 / 60) + two_digits(s % 60),
            p + two_digits(t / 3600) + two_digits(t % 3600 / 60) + two_digits(t % 60),
        ),
{
    let same_hour = s / 3600 == t / 3600;
    let same_minute = same_hour && s % 3600 / 60 == t % 3600 / 60;
    assert(s == 3600 * (s / 3600) + 60 * (s % 3600 / 60) + s % 60);
    assert(t == 3600 * (t / 3600) + 60 * (t % 3600 / 60) + t % 60);
    let (x, y) = lemma_next_field(p, p, true, s / 3600, t / 3600);
    let (x, y) = lemma_next_field(x, y, same_hour, s % 3600 / 60, t % 3600 / 60);
    lemma_next_field(x, y, same_minute, s % 60, t % 60);
}

/// A text does not come before itself.
proof fn lemma_not_before_itself(s: Seq<char>)
    ensures
        !comes_before(s, s),
{
}

/// The text of a point in time in two parts: the date, and the hyphen with the time
/// of day.
proof fn lemma_stamp_parts(secs: int)
    requires
        0 <= secs < 253402300800,
    ensures
        ({
            let d = date_on(whole_days(secs));
            let s = secs % 86400;
            let p = year_text(d.year) + two_digits(d.month) + two_digits(d.day);
            &&& d.is_valid()
            &&& d.number() == whole_days(secs)
            &&& 1970 <= d.year <= 9999
            &&& p.len() == 8
            &&& timestamp(secs) == p + (seq!['-'] + two_digits(s / 3600) + two_digits(
                s % 3600 / 60,
            ) + two_digits(s % 60))
            &&& timestamp(secs) == p + seq!['-'] + two_digits(s / 3600) + two_digits(s % 3600 / 60)
                + two_digits(s % 60)
        }),
{
    let d = date_on(whole_days(secs));
    let s = secs % 86400;
    every_day_has_a_date(whole_days(secs));
    lemma_year_range(whole_days(secs));
    lemma_four_places(d.year as nat);
    lemma_two_places(d.month as nat);
    lemma_two_places(d.day as nat);
    let p = year_text(d.year) + two_digits(d.month) + two_digits(d.day);
    assert(timestamp(secs) =~= p + (seq!['-'] + two_digits(s / 3600) + two_digits(s % 3600 / 60)
        + two_digits(s % 60)));
}

/// Up to the year 9999 the text of an earlier point in time comes before that of
/// a later one, so that texts sort by time and no two times share one.
pub proof fn timestamps_sort_by_time(a: int, b: int)
    requires
        0 <= a < b < 253402300800,
    ensures
        comes_before(timestamp(a), timestamp(b)),
        timestamp(a) != timestamp(b),
{
    let d = date_on(whole_days(a));
    let e = date_on(whole_days(b));
    let s = a % 86400;
    let t = b % 86400;
    lemma_stamp_parts(a);
    lemma_stamp_parts(b);
    let p = year_text(d.year) + two_digits(d.month) + two_digits(d.day);
    let q = year_text(e.year) + two_digits(e.month) + two_digits(e.day);
    if whole_days(a) < whole_days(b) {
        dates_follow_their_numbers(d, e);
        lemma_dates_ascend(d, e);
        let x = seq!['-'] + two_digits(s / 3600) + two_digits(s % 3600 / 60) + two_digits(s % 60);
        let y = seq!['-'] + two_digits(t / 3600) + two_digits(t % 3600 / 60) + two_digits(t % 60);
        lemma_comes_before(p, q, x, y);
    } else {
        assert(whole_days(a) == whole_days(b));
        lemma_clock_ascends(p + seq!['-'], s, t);
    }
    lemma_not_before_itself(timestamp(a));
}

/// The number that two characters spell.
pub open spec fn pair_value(a: char, b: char) -> int {
    10 * (a as int - '0' as int) + (b as int - '0' as int)
}

/// Two digits spell their number.
proof fn lemma_pair_value(v: int)
    requires
        0 <= v < 100,
    ensures
        two_digits(v).len() == 2,
        pair_value(two_digits(v)[0], two_digits(v)[1]) == v,
{
    lemma_two_places(v as nat);
}

/// The text of a point in time tells the time: up to the year 9999 its first eight
/// digits are the year, month and day of a date that the calendar has, as many days
/// after 1970-01-01 as have passed, and the last six the hour, the minute and the
/// second of the day.
pub proof fn timestamps_tell_the_time(secs: int)
    requires
        0 <= secs < 253402300800,
    ensures
        ({
            let s = timestamp(secs);
            let date = Date {
                year: 100 * pair_value(s[0], s[1]) + pair_value(s[2], s[3]),
                month: pair_value(s[4], s[5]),
                day: pair_value(s[6], s[7]),
            };
            let (h, m, sec) = (
                pair_value(s[9], s[10]),
                pair_value(s[11], s[12]),
                pair_value(s[13], s[14]),
            );
            &&& date.is_valid()
            &&& 0 <= h < 24
            &&& 0 <= m < 60
            &&& 0 <= sec < 60
            &&& secs == 86400 * date.number() + 3600 * h + 60 * m + sec
        }),
{
    let s = timestamp(secs);
    let date = date_on(whole_days(secs));
    let time = secs % 86400;
    timestamps_have_one_form(secs);
    every_day_has_a_date(whole_days(secs));
    lemma_year_range(whole_days(secs));
    lemma_year_halves(date.year);
    lemma_pair_value(date.year / 100);
    lemma_pair_value(date.year % 100);
    lemma_pair_value(date.month);
    lemma_pair_value(date.day);
    lemma_pair_value(time / 3600);
    lemma_pair_value(time % 3600 / 60);
    lemma_pair_value(time % 60);
    let x = two_digits(date.year / 100);
    let y = two_digits(date.year % 100);
    assert(s =~= x + y + two_digits(date.month) + two_digits(date.day) + seq!['-'] + two_digits(
        time / 3600,
    ) + two_digits(time % 3600 / 60) + two_digits(time % 60));
    assert(date == (Date { year: date.year, month: date.month, day: date.day }));
    assert(date.year == 100 * (date.year / 100) + date.year % 100);
    assert(time == 3600 * (time / 3600) + 60 * (time % 3600 / 60) + time % 60);
}

/// Months have the lengths of the Gregorian calendar, and every fourth year is a
/// leap year, but for the centuries that are no multiple of 400.
pub proof fn months_have_their_lengths(year: int)
    ensures
        month_length(year, 1) == 31,
        month_length(year, 2) == 28 || month_length(year, 2) == 29,
        month_length(year, 2) == 29 <==> year % 400 == 0 || year % 4 == 0 && year % 100 != 0,
        month_length(year, 3) == 31,
        month_length(year, 4) == 30,
        month_length(year, 5) == 31,
        month_length(year, 6) == 30,
        month_length(year, 7) == 31,
        month_length(year, 8) == 31,
        month_length(year, 9) == 30,
        month_length(year, 10) == 31,
        month_length(year, 11) == 30,
        month_length(year, 12) == 31,
{
}

/// The number that the decimal digits of a text spell.
pub open spec fn spelled(s: Seq<char>) -> nat {
    number_of(Seq::new(s.len(), |i: int| (s[i] as int - '0' as int) as u8))
}

/// Padded digits spell their number.
proof fn lemma_spelled(v: nat, width: nat)
    ensures
        all_digits(digit_chars(zero_padded(digits(v), width))),
        spelled(digit_chars(zero_padded(digits(v), width))) == v,
        digit_chars(zero_padded(digits(v), width)).len() >= width,
{
    let d = zero_padded(digits(v), width);
    let s = digit_chars(d);
    digits_spell_the_number(v);
    leading_zeros_do_not_count(digits(v), width);
    assert forall|i: int| 0 <= i < d.len() implies #[trigger] d[i] < 10 by {
        if digits(v).len() < width {
            let zeros = width - digits(v).len();
            if i >= zeros {
                assert(d[i] == digits(v)[i - zeros]);
            }
        }
    }
    assert forall|i: int| 0 <= i < s.len() implies '0' <= #[trigger] s[i] <= '9' by {
        digits_are_written_in_ascii(d, i);
    }
    assert(Seq::new(s.len(), |i: int| (s[i] as int - '0' as int) as u8) =~= d) by {
        assert forall|i: int| 0 <= i < d.len() implies (s[i] as int - '0' as int) as u8
            == d[i] by {
            digits_are_written_in_ascii(d, i);
        }
    }
}

/// At any time the text is the year, behind a hyphen if it is negative, two digits
/// each of the month and the day, a hyphen, and two digits each of the hour, the
/// minute and the second. The date is as many days from 1970-01-01 as whole days
/// lie between, and the clock tells the seconds since midnight.
pub proof fn timestamps_tell_any_time(secs: int, date: Date)
    requires
        date.is_valid(),
        i32::MIN <= date.year <= i32::MAX,
        secs >= 0 ==> 86400 * date.number() <= secs < 86400 * date.number() + 86400,
        secs < 0 ==> 86400 * date.number() - 86400 < secs <= 86400 * date.number(),
    ensures
        ({
            let s = timestamp(secs);
            let n = s.len() - 11;
            let year = s.take(n);
            let clock = 3600 * pair_value(s[n + 5], s[n + 6]) + 60 * pair_value(s[n + 7], s[n + 8])
                + pair_value(s[n + 9], s[n + 10]);
            &&& n >= 4
            &&& date.year >= 0 ==> all_digits(year) && spelled(year) == date.year
            &&& date.year < 0 ==> year[0] == '-' && all_digits(year.skip(1)) && spelled(
                year.skip(1),
            ) == -date.year
            &&& pair_value(s[n], s[n + 1]) == date.month
            &&& pair_value(s[n + 2], s[n + 3]) == date.day
            &&& s[n + 4] == '-'
            &&& 0 <= pair_value(s[n + 7], s[n + 8]) < 60
            &&& 0 <= pair_value(s[n + 9], s[n + 10]) < 60
            &&& 0 <= clock < 86400
            &&& (secs - clock) % 86400 == 0
        }),
{
    let s = timestamp(secs);
    let time = secs % 86400;
    assert(whole_days(secs) == date.number());
    every_day_has_a_date(whole_days(secs));
    dates_differ_in_their_numbers(date_on(whole_days(secs)), date);
    assert(date_on(whole_days(secs)) == date);
    let y = year_text(date.year);
    if date.year < 0 {
        lemma_spelled((-date.year) as nat, 3);
        assert(y.skip(1) =~= digit_chars(zero_padded(digits((-date.year) as nat), 3)));
    } else {
        lemma_spelled(date.year as nat, 4);
    }
    lemma_pair_value(date.month);
    lemma_pair_value(date.day);
    lemma_pair_value(time / 3600);
    lemma_pair_value(time % 3600 / 60);
    lemma_pair_value(time % 60);
    assert(s =~= y + two_digits(date.month) + two_digits(date.day) + seq!['-'] + two_digits(
        time / 3600,
    ) + two_digits(time % 3600 / 60) + two_digits(time % 60));
    assert(s.take(s.len() - 11) =~= y);
    assert(time == 3600 * (time / 3600) + 60 * (time % 3600 / 60) + time % 60);
}

} // verus!
