//! Calendar dates and the time stamps that go into logs and results.

use vstd::prelude::*;

use crate::text::{
    a_common_front_keeps_the_order, decimal, padded_length, padded_number, padded_numerals_sort,
    power_of_ten, sorts_before, what_follows_keeps_the_order, zero_padded,
};

verus! {

/// A day of the Gregorian calendar.
pub struct Date {
    pub year: int,
    pub month: int,
    pub day: int,
}

pub open spec fn leap(year: int) -> bool {
    year % 4 == 0 && (year % 100 != 0 || year % 400 == 0)
}

pub open spec fn year_length(year: int) -> int {
    if leap(year) {
        366
    } else {
        365
    }
}

pub open spec fn month_length(year: int, month: int) -> int {
    if month == 2 {
        if leap(year) {
            29
        } else {
            28
        }
    } else if month == 4 || month == 6 || month == 9 || month == 11 {
        30
    } else {
        31
    }
}

/// From 1970 on: the month is one of twelve and the day one of that month's.
pub open spec fn valid(date: Date) -> bool {
    &&& date.year >= 1970
    &&& 1 <= date.month <= 12
    &&& 1 <= date.day <= month_length(date.year, date.month)
}

/// The days from the start of 1970 to the start of `year`.
pub open spec fn days_before_year(year: int) -> int
    decreases year - 1970,
{
    if year <= 1970 {
        0
    } else {
        days_before_year(year - 1) + year_length(year - 1)
    }
}

/// The days from the start of `year` to the start of `month`.
pub open spec fn days_before_month(year: int, month: int) -> int
    decreases month,
{
    if month <= 1 {
        0
    } else {
        days_before_month(year, month - 1) + month_length(year, month - 1)
    }
}

/// The days from the 1st of January 1970 to `date`.
pub open spec fn day_number(date: Date) -> int {
    days_before_year(date.year) + days_before_month(date.year, date.month) + date.day - 1
}

/// The date that lies `days` days after the 1st of January 1970.
pub open spec fn date_of(days: nat) -> Date {
    choose|date: Date| valid(date) && day_number(date) == days
}

/// `YYYY-MM-DDThh:mm:ssZ`, for a number of seconds since the start of 1970 in UTC.
pub open spec fn iso_text(seconds: nat) -> Seq<char> {
    let date = date_of(seconds / 86400);
    let second = seconds % 86400;
    zero_padded(date.year as nat, 4).push('-') + zero_padded(date.month as nat, 2).push('-')
        + zero_padded(date.day as nat, 2).push('T') + zero_padded(second / 3600, 2).push(':')
        + zero_padded((second / 60) % 60, 2).push(':') + zero_padded(second % 60, 2).push('Z')
}

/// The leap days in the years 1 to `year`.
spec fn leap_days(year: int) -> int {
    year / 4 - year / 100 + year / 400
}

proof fn lemma_leap_days(year: int)
    ensures
        leap_days(year) - leap_days(year - 1) == year_length(year) - 365,
{
    lemma_multiples(year, 4);
    lemma_multiples(year, 100);
    lemma_multiples(year, 400);
    assert(year % 400 == 0 ==> year % 100 == 0);
    assert(year % 100 == 0 ==> year % 4 == 0);
}

/// The multiples of `d` up to `year` are one more than those before it if it is one itself.
proof fn lemma_multiples(year: int, d: int)
    requires
        d > 1,
    ensures
        year / d - (year - 1) / d == (if year % d == 0 {
            1int
        } else {
            0
        }),
{
    let q = year / d;
    let r = year % d;
    vstd::arithmetic::div_mod::lemma_fundamental_div_mod(year, d);
    vstd::arithmetic::div_mod::lemma_mod_bound(year, d);
    if r == 0 {
        assert(d * (q - 1) + (d - 1) == year - 1) by (nonlinear_arith)
            requires
                year == d * q,
        ;
        vstd::arithmetic::div_mod::lemma_fundamental_div_mod_converse(year - 1, d, q - 1, d - 1);
    } else {
        vstd::arithmetic::div_mod::lemma_fundamental_div_mod_converse(year - 1, d, q, r - 1);
    }
}

proof fn lemma_days_before_year(year: int)
    requires
        year >= 1970,
    ensures
        days_before_year(year) == 365 * (year - 1970) + leap_days(year - 1) - leap_days(1969),
    decreases year,
{
    if year > 1970 {
        lemma_days_before_year(year - 1);
        lemma_leap_days(year - 1);
    }
}

proof fn lemma_days_before_month(year: int, month: int)
    requires
        1 <= month <= 12,
    ensures
        days_before_month(year, month) == (if month <= 2 {
            31 * (month - 1)
        } else {
            (153 * (month - 3) + 2) / 5 + 59 + (if leap(year) {
                1int
            } else {
                0
            })
        }),
{
    reveal_with_fuel(days_before_month, 13);
}

/// Where a day of a 400-year cycle that starts on a 1st of March falls.
proof fn lemma_year_of_era(doe: int, yoe: int)
    requires
        0 <= doe < 146097,
        yoe == (doe - doe / 1460 + doe / 36524 - doe / 146096) / 365,
    ensures
        0 <= yoe < 400,
        365 * yoe + yoe / 4 - yoe / 100 <= doe,
        doe < 365 * (yoe + 1) + (yoe + 1) / 4 - (yoe + 1) / 100 + (yoe + 1) / 400,
{
    let c = doe / 36524;
    if c == 4 {
        assert(doe == 146096);
    } else {
        let r1 = doe - 36524 * c;
        let q = r1 / 1461;
        let r2 = r1 - 1461 * q;
        assert(0 <= q <= 24);
        let t = (24 * c + q + r2) / 1460;
        assert(doe / 1460 == 25 * c + q + t);
        assert(0 <= t <= 1);
        assert(doe / 146096 == 0);
        assert(yoe == 100 * c + 4 * q + (r2 - t) / 365);
        let k = (r2 - t) / 365;
        assert(0 <= k <= 3);
        assert(yoe / 4 == 25 * c + q);
        assert(yoe / 100 == c);
        assert(365 * k <= r2);
        assert(r2 < 365 * (k + 1) || (k == 3 && r2 <= 1460));
    }
}

proof fn lemma_within_year(date: Date)
    requires
        valid(date),
    ensures
        0 <= day_number(date) - days_before_year(date.year) < year_length(date.year),
{
    lemma_days_before_month(date.year, date.month);
}

proof fn lemma_years_grow(a: int, b: int)
    requires
        1970 <= a < b,
    ensures
        days_before_year(a) + year_length(a) <= days_before_year(b),
    decreases b - a,
{
    if a + 1 < b {
        lemma_years_grow(a, b - 1);
    }
}

/// No two dates have the same day number.
pub proof fn day_number_is_injective(a: Date, b: Date)
    requires
        valid(a),
        valid(b),
        day_number(a) == day_number(b),
    ensures
        a == b,
{
    lemma_within_year(a);
    lemma_within_year(b);
    if a.year < b.year {
        lemma_years_grow(a.year, b.year);
    } else if b.year < a.year {
        lemma_years_grow(b.year, a.year);
    }
    lemma_days_before_month(a.year, a.month);
    lemma_days_before_month(b.year, b.month);
}

/// The month and the day in it, for a day of a year that starts in March.
spec fn month_of(doy: int) -> (int, int) {
    let mp = (5 * doy + 2) / 153;
    (
        if mp < 10 {
            mp + 3
        } else {
            mp - 9
        },
        doy - (153 * mp + 2) / 5 + 1,
    )
}

/// `next_leap`: whether the February at the end of the year has 29 days.
proof fn lemma_month_of(doy: int, next_leap: bool)
    requires
        0 <= doy <= (if next_leap {
            365int
        } else {
            364
        }),
    ensures
        ({
            let (month, day) = month_of(doy);
            let mp = (5 * doy + 2) / 153;
            &&& 0 <= mp <= 11
            &&& 1 <= month <= 12
            &&& 1 <= day
            &&& month > 2 ==> day <= month_length(1970, month) && mp == month - 3
            &&& month == 1 ==> day <= 31 && mp == 10
            &&& month == 2 ==> day <= (if next_leap {
                29int
            } else {
                28
            }) && mp == 11
        }),
{
    let mp = (5 * doy + 2) / 153;
    assert(0 <= mp <= 11);
}

/// The day number of the day `doy` of the year that starts in March of `year`.
proof fn lemma_march_year(year: int, doy: int, date: Date)
    requires
        0 <= doy <= (if leap(year + 1) {
            365int
        } else {
            364
        }),
        date.month == month_of(doy).0,
        date.day == month_of(doy).1,
        date.year == (if date.month <= 2 {
            year + 1
        } else {
            year
        }),
        date.year >= 1970,
    ensures
        valid(date),
        day_number(date) == 365 * year + leap_days(year) + doy - 719_468,
{
    lemma_month_of(doy, leap(year + 1));
    lemma_days_before_year(date.year);
    lemma_days_before_month(date.year, date.month);
    lemma_leap_days(year);
    assert(leap_days(1969) == 477);
}

/// A day counted in 400-year cycles of years that start in March, as a date.
proof fn lemma_civil(days: int, date: Date)
    requires
        days >= 0,
        ({
            let z = days + 719_468;
            let doe = z % 146_097;
            let yoe = (doe - doe / 1460 + doe / 36524 - doe / 146_096) / 365;
            let doy = doe - (365 * yoe + yoe / 4 - yoe / 100);
            &&& date.month == month_of(doy).0
            &&& date.day == month_of(doy).1
            &&& date.year == yoe + (z / 146_097) * 400 + (if date.month <= 2 {
                1int
            } else {
                0
            })
        }),
    ensures
        valid(date),
        day_number(date) == days,
{
    let z = days + 719_468;
    let era = z / 146_097;
    let doe = z % 146_097;
    let yoe = (doe - doe / 1460 + doe / 36524 - doe / 146_096) / 365;
    lemma_year_of_era(doe, yoe);
    let doy = doe - (365 * yoe + yoe / 4 - yoe / 100);
    let year = yoe + era * 400;
    lemma_cycle(yoe, era);
    lemma_cycle(yoe + 1, era);
    lemma_leap_days(year + 1);
    assert(365 * year + leap_days(year) + doy == z);
    assert(doy <= (if leap(year + 1) {
        365int
    } else {
        364
    }));
    lemma_month_of(doy, leap(year + 1));
    assert(year >= 1970 || (year == 1969 && doy >= 306)) by {
        lemma_not_before_1970(year, doy, z);
    }
    lemma_march_year(year, doy, date);
}

/// A cycle of 400 years has 97 leap days.
proof fn lemma_cycle(year: int, era: int)
    ensures
        leap_days(year + 400 * era) == leap_days(year) + 97 * era,
{
    assert((year + 400 * era) / 4 == year / 4 + 100 * era);
    assert((year + 400 * era) / 100 == year / 100 + 4 * era);
    assert((year + 400 * era) / 400 == year / 400 + era);
}

/// The 1st of January 1970 is day 306 of the year that starts in March 1969.
proof fn lemma_not_before_1970(year: int, doy: int, z: int)
    requires
        z >= 719_468,
        365 * year + leap_days(year) + doy == z,
        0 <= doy <= 365,
    ensures
        year >= 1970 || (year == 1969 && doy >= 306),
{
    if year <= 1968 {
        assert(leap_days(year) <= 477);
        assert(365 * year + leap_days(year) + doy <= 365 * 1968 + 477 + 365);
    }
    assert(leap_days(1969) == 477);
}

/// Every day from the 1st of January 1970 on has a date.
pub proof fn every_day_has_a_date(days: nat)
    ensures
        valid(date_of(days)),
        day_number(date_of(days)) == days,
{
    let z = days + 719_468;
    let doe = z % 146_097;
    let yoe = (doe - doe / 1460 + doe / 36524 - doe / 146_096) / 365;
    let doy = doe - (365 * yoe + yoe / 4 - yoe / 100);
    let (month, day) = month_of(doy);
    let date = Date {
        year: yoe + (z / 146_097) * 400 + (if month <= 2 {
            1int
        } else {
            0
        }),
        month,
        day,
    };
    lemma_civil(days as int, date);
    assert(valid(date) && day_number(date) == days);
}

/// The calendar date that lies `days` days after the 1st of January 1970: year, month, day.
pub fn civil(days: u64) -> (r: (u64, u64, u64))
    requires
        days <= 0x1_0000_0000_0000,
    ensures
        date_of(days as nat) == (Date { year: r.0 as int, month: r.1 as int, day: r.2 as int }),
        valid(date_of(days as nat)),
        day_number(date_of(days as nat)) == days,
{
    let z: u64 = days + 719_468;
    let era: u64 = z / 146_097;
    let doe: u64 = z % 146_097;
    let yoe: u64 = (doe - doe / 1460 + doe / 36524 - doe / 146_096) / 365;
    proof {
        lemma_year_of_era(doe as int, yoe as int);
    }
    let doy: u64 = doe - (365 * yoe + yoe / 4 - yoe / 100);
    let mp: u64 = (5 * doy + 2) / 153;
    let day: u64 = doy - (153 * mp + 2) / 5 + 1;
    let month: u64 = if mp < 10 {
        mp + 3
    } else {
        mp - 9
    };
    let year: u64 = yoe + era * 400 + if month <= 2 {
        1
    } else {
        0
    };
    proof {
        let date = Date { year: year as int, month: month as int, day: day as int };
        lemma_civil(days as int, date);
        every_day_has_a_date(days as nat);
        day_number_is_injective(date, date_of(days as nat));
    }
    (year, month, day)
}

/// The time stamp of a number of seconds since the start of 1970 in UTC.
pub fn iso_at(seconds: u64) -> (r: String)
    ensures
        r@ == iso_text(seconds as nat),
{
    let (year, month, day) = civil(seconds / 86400);
    let second: u64 = seconds % 86400;
    let mut out = padded_number(year, 4);
    out.push('-');
    out.append(padded_number(month, 2).as_str());
    out.push('-');
    out.append(padded_number(day, 2).as_str());
    out.push('T');
    out.append(padded_number(second / 3600, 2).as_str());
    out.push(':');
    out.append(padded_number((second / 60) % 60, 2).as_str());
    out.push(':');
    out.append(padded_number(second % 60, 2).as_str());
    out.push('Z');
    assert(out@ =~= iso_text(seconds as nat));
    out
}

#[verifier::external_type_specification]
#[verifier::external_body]
pub struct ExSystemTime(std::time::SystemTime);

#[verifier::external_type_specification]
#[verifier::external_body]
pub struct ExSystemTimeError(std::time::SystemTimeError);

/// `SystemTime::now`: whatever the system's clock says; nothing is claimed of it.
pub assume_specification[ std::time::SystemTime::now ]() -> std::time::SystemTime
;

/// The time from the Unix epoch to a reading of the clock, as `SystemTime::duration_since` gives it;
/// an error where the reading lies before the epoch.
pub uninterp spec fn time_since_epoch(now: std::time::SystemTime) -> Result<
    std::time::Duration,
    std::time::SystemTimeError,
>;

/// `SystemTime::duration_since`, from the Unix epoch: the time that has passed since then, or
/// an error where the clock stands before it. It is only named.
#[verifier::external_body]
fn since_epoch(now: std::time::SystemTime) -> (r: Result<
    std::time::Duration,
    std::time::SystemTimeError,
>)
    ensures
        r == time_since_epoch(now),
{
    now.duration_since(std::time::UNIX_EPOCH)
}

/// The whole seconds of a span of time, as `Duration::as_secs` gives them.
pub uninterp spec fn whole_seconds(d: std::time::Duration) -> u64;

/// `Duration::as_secs`: the whole seconds of a span of time. They are only named.
pub assume_specification[ std::time::Duration::as_secs ](d: &std::time::Duration) -> (r: u64)
    ensures
        r == whole_seconds(*d),
;

/// The seconds since the start of 1970 for a reading of the clock. One before 1970 counts as the
/// start of 1970.
pub open spec fn seconds_of(since: Result<std::time::Duration, std::time::SystemTimeError>) -> u64 {
    match since {
        Ok(d) => whole_seconds(d),
        Err(_) => 0,
    }
}

/// The clock was read, and stood at so many seconds since the start of 1970.
pub open spec fn clock_says(seconds: u64) -> bool {
    exists|now: std::time::SystemTime|
        call_ensures(std::time::SystemTime::now, (), now) && seconds == seconds_of(
            #[trigger] time_since_epoch(now),
        )
}

/// The time stamp for a reading of the clock. A clock that stands before 1970 counts as the start of
/// 1970.
pub fn iso_since(since: Result<std::time::Duration, std::time::SystemTimeError>) -> (r: String)
    ensures
        r@ == iso_text(seconds_of(since) as nat),
        since is Err ==> r@ == "1970-01-01T00:00:00Z"@,
{
    let seconds: u64 = match since {
        Ok(d) => d.as_secs(),
        Err(_) => 0,
    };
    proof {
        lemma_start_of_1970();
    }
    iso_at(seconds)
}

/// The current time. A clock that stands before 1970 counts as the start of 1970.
pub fn now_iso() -> (r: String)
    ensures
        exists|seconds: u64| clock_says(seconds) && r@ == #[trigger] iso_text(seconds as nat),
{
    iso_since(since_epoch(std::time::SystemTime::now()))
}

proof fn lemma_start_of_1970()
    ensures
        iso_text(0) == "1970-01-01T00:00:00Z"@,
{
    reveal_strlit("1970-01-01T00:00:00Z");
    let start = Date { year: 1970, month: 1, day: 1 };
    every_day_has_a_date(0);
    day_number_is_injective(start, date_of(0));
    reveal_with_fuel(decimal, 4);
    assert(decimal(1970) =~= seq!['1', '9', '7', '0']);
    assert(zero_padded(1970, 4) =~= seq!['1', '9', '7', '0']);
    assert(zero_padded(1, 2) =~= seq!['0', '1']);
    assert(zero_padded(0, 2) =~= seq!['0', '0']);
    assert(iso_text(0) =~= "1970-01-01T00:00:00Z"@);
}

/// The parts of a text, one after the other.
spec fn together(parts: Seq<Seq<char>>) -> Seq<char>
    decreases parts.len(),
{
    if parts.len() == 0 {
        Seq::empty()
    } else {
        together(parts.drop_last()) + parts.last()
    }
}

/// Texts that are made of the same parts up to one sort as that part does.
proof fn lemma_together_sorts(a: Seq<Seq<char>>, b: Seq<Seq<char>>, i: int)
    requires
        0 <= i < a.len(),
        a.len() == b.len(),
        forall|j: int| 0 <= j < i ==> #[trigger] a[j] == b[j],
        sorts_before(a[i], b[i]),
    ensures
        sorts_before(together(a), together(b)),
    decreases a.len(),
{
    if i == a.len() - 1 {
        assert(a.drop_last() =~= b.drop_last());
        a_common_front_keeps_the_order(together(a.drop_last()), a.last(), b.last());
    } else {
        lemma_together_sorts(a.drop_last(), b.drop_last(), i);
        what_follows_keeps_the_order(
            together(a.drop_last()),
            together(b.drop_last()),
            a.last(),
            b.last(),
        );
    }
}

/// A numeral of a time stamp with the mark behind it.
spec fn part(n: nat, width: nat, mark: char) -> Seq<char> {
    zero_padded(n, width).push(mark)
}

/// The parts of a time stamp.
spec fn stamp_parts(seconds: nat) -> Seq<Seq<char>> {
    let date = date_of(seconds / 86400);
    let second = seconds % 86400;
    seq![
        part(date.year as nat, 4, '-'),
        part(date.month as nat, 2, '-'),
        part(date.day as nat, 2, 'T'),
        part(second / 3600, 2, ':'),
        part((second / 60) % 60, 2, ':'),
        part(second % 60, 2, 'Z'),
    ]
}

proof fn lemma_stamp_parts(seconds: nat)
    ensures
        iso_text(seconds) == together(stamp_parts(seconds)),
{
    let parts = stamp_parts(seconds);
    reveal_with_fuel(together, 7);
    assert(parts.drop_last().drop_last().drop_last().drop_last().drop_last().drop_last()
        =~= Seq::<Seq<char>>::empty());
    assert(together(parts) =~= iso_text(seconds));
}

proof fn lemma_part_sorts(a: nat, b: nat, width: nat, mark: char)
    requires
        width >= 1,
        a < b < power_of_ten(width),
    ensures
        sorts_before(part(a, width, mark), part(b, width, mark)),
{
    padded_numerals_sort(a, b, width);
    what_follows_keeps_the_order(
        zero_padded(a, width),
        zero_padded(b, width),
        seq![mark],
        seq![mark],
    );
    assert(part(a, width, mark) =~= zero_padded(a, width) + seq![mark]);
    assert(part(b, width, mark) =~= zero_padded(b, width) + seq![mark]);
}

proof fn lemma_powers_of_ten()
    ensures
        power_of_ten(2) == 100,
        power_of_ten(4) == 10_000,
{
    reveal_with_fuel(power_of_ten, 5);
}

/// The number of seconds from the start of 1970 to the start of the year 10000.
pub const YEAR_10000: u64 = 253_402_300_800;

proof fn lemma_four_digit_year(seconds: nat)
    requires
        seconds < YEAR_10000,
    ensures
        valid(date_of(seconds / 86400)),
        day_number(date_of(seconds / 86400)) == seconds / 86400,
        date_of(seconds / 86400).year < 10_000,
{
    let date = date_of(seconds / 86400);
    every_day_has_a_date(seconds / 86400);
    lemma_within_year(date);
    if date.year >= 10_000 {
        lemma_days_before_year(10_000);
        if date.year > 10_000 {
            lemma_years_grow(10_000, date.year);
        }
        assert(leap_days(9999) == 2424 && leap_days(1969) == 477);
    }
}

/// An earlier day has a smaller year, or a smaller month in the same year, or a smaller day in the
/// same month.
proof fn lemma_earlier_date(a: Date, b: Date)
    requires
        valid(a),
        valid(b),
        day_number(a) < day_number(b),
    ensures
        a.year < b.year || (a.year == b.year && (a.month < b.month || (a.month == b.month && a.day
            < b.day))),
{
    lemma_within_year(a);
    lemma_within_year(b);
    if b.year < a.year {
        lemma_years_grow(b.year, a.year);
    }
    lemma_days_before_month(a.year, a.month);
    lemma_days_before_month(b.year, b.month);
}

/// A time stamp before the year 10000 has twenty characters.
proof fn lemma_stamp_length(seconds: nat)
    requires
        seconds < YEAR_10000,
    ensures
        iso_text(seconds).len() == 20,
{
    let date = date_of(seconds / 86400);
    let second = seconds % 86400;
    lemma_four_digit_year(seconds);
    lemma_powers_of_ten();
    padded_length(date.year as nat, 4);
    padded_length(date.month as nat, 2);
    padded_length(date.day as nat, 2);
    padded_length(second / 3600, 2);
    padded_length((second / 60) % 60, 2);
    padded_length(second % 60, 2);
}

/// The stamps of different days sort as the days do.
proof fn lemma_days_sort(a: nat, b: nat)
    requires
        a / 86400 < b / 86400,
        b < YEAR_10000,
    ensures
        sorts_before(together(stamp_parts(a)), together(stamp_parts(b))),
{
    let from = date_of(a / 86400);
    let to = date_of(b / 86400);
    lemma_four_digit_year(a);
    lemma_four_digit_year(b);
    lemma_powers_of_ten();
    lemma_earlier_date(from, to);
    if from.year < to.year {
        lemma_part_sorts(from.year as nat, to.year as nat, 4, '-');
        lemma_together_sorts(stamp_parts(a), stamp_parts(b), 0);
    } else if from.month < to.month {
        lemma_part_sorts(from.month as nat, to.month as nat, 2, '-');
        lemma_together_sorts(stamp_parts(a), stamp_parts(b), 1);
    } else {
        lemma_part_sorts(from.day as nat, to.day as nat, 2, 'T');
        lemma_together_sorts(stamp_parts(a), stamp_parts(b), 2);
    }
}

/// The hours, minutes and seconds of a second of a day.
proof fn lemma_clock_face(x: nat)
    requires
        x < 86400,
    ensures
        x / 3600 < 24,
        (x / 60) % 60 < 60,
        x % 60 < 60,
        x == 3600 * (x / 3600) + 60 * ((x / 60) % 60) + x % 60,
{
    assert(x / 3600 == (x / 60) / 60);
}

/// Numbers of an earlier second: the first that differs is smaller.
proof fn lemma_earlier_second(
    hour: nat,
    minute: nat,
    second: nat,
    other_hour: nat,
    other_minute: nat,
    other_second: nat,
)
    requires
        minute < 60,
        second < 60,
        other_minute < 60,
        other_second < 60,
        3600 * hour + 60 * minute + second < 3600 * other_hour + 60 * other_minute + other_second,
    ensures
        hour < other_hour || (hour == other_hour && (minute < other_minute || (minute
            == other_minute && second < other_second))),
{
}

/// The stamps of one day sort as the seconds of the day do.
proof fn lemma_seconds_sort(a: nat, b: nat)
    requires
        a / 86400 == b / 86400,
        a % 86400 < b % 86400 < 86400,
    ensures
        sorts_before(together(stamp_parts(a)), together(stamp_parts(b))),
{
    let x = a % 86400;
    let y = b % 86400;
    let (hour, minute, second) = (x / 3600, (x / 60) % 60, x % 60);
    let (other_hour, other_minute, other_second) = (y / 3600, (y / 60) % 60, y % 60);
    lemma_powers_of_ten();
    lemma_clock_face(x);
    lemma_clock_face(y);
    lemma_earlier_second(hour, minute, second, other_hour, other_minute, other_second);
    if hour < other_hour {
        lemma_part_sorts(hour, other_hour, 2, ':');
        lemma_together_sorts(stamp_parts(a), stamp_parts(b), 3);
    } else if minute < other_minute {
        lemma_part_sorts(minute, other_minute, 2, ':');
        lemma_together_sorts(stamp_parts(a), stamp_parts(b), 4);
    } else {
        lemma_part_sorts(second, other_second, 2, 'Z');
        lemma_together_sorts(stamp_parts(a), stamp_parts(b), 5);
    }
}

/// Time stamps before the year 10000 have twenty characters and sort as the times do.
pub proof fn stamps_sort_as_times(a: nat, b: nat)
    requires
        a < b < YEAR_10000,
    ensures
        iso_text(a).len() == 20,
        iso_text(b).len() == 20,
        sorts_before(iso_text(a), iso_text(b)),
{
    lemma_stamp_length(a);
    lemma_stamp_length(b);
    lemma_stamp_parts(a);
    lemma_stamp_parts(b);
    if a / 86400 < b / 86400 {
        lemma_days_sort(a, b);
    } else {
        lemma_seconds_sort(a, b);
    }
}

/// The calendar starts on the 1st of January 1970 and goes on day by day: to the next day of the
/// month, behind its last to the next month, behind the last month to the next year. A year that can
/// be divided by four has a 29th of February, one that can be divided by a hundred only if it can be
/// divided by four hundred.
pub proof fn the_calendar_goes_on_day_by_day(year: int, month: int, day: int)
    requires
        year >= 1970,
        1 <= month <= 12,
        1 <= day,
        day <= (if month == 2 {
            if year % 4 == 0 && (year % 100 != 0 || year % 400 == 0) {
                29int
            } else {
                28
            }
        } else if month == 4 || month == 6 || month == 9 || month == 11 {
            30
        } else {
            31
        }),
    ensures
        ({
            let date = Date { year, month, day };
            let last = if month == 2 {
                if year % 4 == 0 && (year % 100 != 0 || year % 400 == 0) {
                    29int
                } else {
                    28
                }
            } else if month == 4 || month == 6 || month == 9 || month == 11 {
                30
            } else {
                31
            };
            let next = if day < last {
                Date { year, month, day: day + 1 }
            } else if month < 12 {
                Date { year, month: month + 1, day: 1 }
            } else {
                Date { year: year + 1, month: 1, day: 1 }
            };
            &&& valid(date)
            &&& day_number(date) >= 0
            &&& date_of(day_number(date) as nat) == date
            &&& date_of((day_number(date) + 1) as nat) == next
        }),
        date_of(0) == (Date { year: 1970, month: 1, day: 1 }),
{
    let date = Date { year, month, day };
    let start = Date { year: 1970, month: 1, day: 1 };
    assert(valid(start) && day_number(start) == 0);
    every_day_has_a_date(0);
    day_number_is_injective(start, date_of(0));
    lemma_days_before_year(year);
    lemma_leap_days_grow(1969, year - 1);
    lemma_days_before_month(year, month);
    let n = day_number(date);
    every_day_has_a_date(n as nat);
    day_number_is_injective(date, date_of(n as nat));
    every_day_has_a_date((n + 1) as nat);
    let next = if day < month_length(year, month) {
        Date { year, month, day: day + 1 }
    } else if month < 12 {
        Date { year, month: month + 1, day: 1 }
    } else {
        Date { year: year + 1, month: 1, day: 1 }
    };
    reveal_with_fuel(days_before_month, 13);
    assert(valid(next) && day_number(next) == n + 1);
    day_number_is_injective(next, date_of((n + 1) as nat));
}

proof fn lemma_leap_days_grow(a: int, b: int)
    requires
        a <= b,
    ensures
        leap_days(a) <= leap_days(b),
    decreases b - a,
{
    if a < b {
        lemma_leap_days_grow(a, b - 1);
        lemma_leap_days(b);
    }
}

/// A time stamp shows the date and the time of the day, each with its mark behind it, for every
/// second of every day.
pub proof fn a_stamp_shows_date_and_time(date: Date, hour: nat, minute: nat, second: nat)
    requires
        valid(date),
        day_number(date) >= 0,
        hour < 24,
        minute < 60,
        second < 60,
    ensures
        iso_text((86400 * day_number(date) + 3600 * hour + 60 * minute + second) as nat)
            == zero_padded(date.year as nat, 4) + "-"@ + zero_padded(date.month as nat, 2) + "-"@
            + zero_padded(date.day as nat, 2) + "T"@ + zero_padded(hour, 2) + ":"@ + zero_padded(
            minute,
            2,
        ) + ":"@ + zero_padded(second, 2) + "Z"@,
{
    let days = day_number(date) as nat;
    let x = 3600 * hour + 60 * minute + second;
    let s = 86400 * days + x;
    lemma_clock_numbers(days, hour, minute, second);
    every_day_has_a_date(days);
    day_number_is_injective(date, date_of(days));
    reveal_strlit("-");
    reveal_strlit("T");
    reveal_strlit(":");
    reveal_strlit("Z");
    assert("-"@ =~= seq!['-'] && "T"@ =~= seq!['T'] && ":"@ =~= seq![':'] && "Z"@ =~= seq!['Z']);
    let y = zero_padded(date.year as nat, 4);
    let m = zero_padded(date.month as nat, 2);
    let d = zero_padded(date.day as nat, 2);
    let (h, mi, sec) = (zero_padded(hour, 2), zero_padded(minute, 2), zero_padded(second, 2));
    assert(y.push('-') =~= y + "-"@);
    lemma_mark(y + "-"@, m, '-');
    lemma_mark(y + "-"@ + m + "-"@, d, 'T');
    lemma_mark(y + "-"@ + m + "-"@ + d + "T"@, h, ':');
    lemma_mark(y + "-"@ + m + "-"@ + d + "T"@ + h + ":"@, mi, ':');
    lemma_mark(y + "-"@ + m + "-"@ + d + "T"@ + h + ":"@ + mi + ":"@, sec, 'Z');
}

proof fn lemma_mark(front: Seq<char>, numeral: Seq<char>, mark: char)
    ensures
        front + numeral.push(mark) == front + numeral + seq![mark],
{
    assert(front + numeral.push(mark) =~= front + numeral + seq![mark]);
}

proof fn lemma_clock_numbers(days: nat, hour: nat, minute: nat, second: nat)
    requires
        hour < 24,
        minute < 60,
        second < 60,
    ensures
        ({
            let s = 86400 * days + 3600 * hour + 60 * minute + second;
            &&& s / 86400 == days
            &&& (s % 86400) / 3600 == hour
            &&& ((s % 86400) / 60) % 60 == minute
            &&& (s % 86400) % 60 == second
        }),
{
    let x = 3600 * hour + 60 * minute + second;
    let s = 86400 * days + x;
    assert(s / 86400 == days && s % 86400 == x);
    assert(x / 3600 == hour);
    assert(x / 60 == 60 * hour + minute);
}

/// A reading of the clock counts by its whole seconds, one before 1970 as the start of 1970; and what
/// the clock says is such a reading.
pub proof fn a_reading_counts_in_whole_seconds(
    d: std::time::Duration,
    e: std::time::SystemTimeError,
    seconds: u64,
)
    ensures
        seconds_of(Ok(d)) == whole_seconds(d),
        seconds_of(Err(e)) == 0,
        clock_says(seconds) <==> exists|now: std::time::SystemTime|
            call_ensures(std::time::SystemTime::now, (), now) && seconds == (
            match #[trigger] time_since_epoch(now) {
                Ok(d) => whole_seconds(d),
                Err(_) => 0,
            }),
{
}

}
