//! RFC 3339 timestamps: parsing and formatting of microseconds since the Unix
//! epoch, over the proleptic Gregorian calendar. Output is always UTC.
//!
//! Nothing here reads the clock, so the same input always gives the same
//! answer.

use vstd::prelude::*;
use vstd::string::*;

use crate::error::{Fault, Result, RewindError};
use crate::text;
use crate::text::{padded, padded_int};

verus! {

pub const MICROSECONDS_PER_SECOND: i64 = 1_000_000;

pub const MICROSECONDS_PER_DAY: i64 = 86_400_000_000;

// ---------------------------------------------------------------------------
// The calendar
// ---------------------------------------------------------------------------

pub open spec fn leap(year: int) -> bool {
    (year % 4 == 0 && year % 100 != 0) || year % 400 == 0
}

/// The number of days of a month; zero when there is no such month.
pub open spec fn month_length(year: int, month: int) -> int {
    if month == 2 {
        if leap(year) {
            29
        } else {
            28
        }
    } else if month == 4 || month == 6 || month == 9 || month == 11 {
        30
    } else if 1 <= month <= 12 {
        31
    } else {
        0
    }
}

/// The days of the year before the first of `month`.
pub open spec fn days_before_month(year: int, month: int) -> int
    decreases month,
{
    if month <= 1 {
        0
    } else {
        days_before_month(year, month - 1) + month_length(year, month - 1)
    }
}

/// The days from the first of January of year 1 to that of `year`.
pub open spec fn days_before_year(year: int) -> int {
    365 * (year - 1) + (year - 1) / 4 - (year - 1) / 100 + (year - 1) / 400
}

/// The days from 1970-01-01 to a civil date.
pub open spec fn day_number(year: int, month: int, day: int) -> int {
    days_before_year(year) - days_before_year(1970) + days_before_month(year, month) + day - 1
}

pub open spec fn valid_date(year: int, month: int, day: int) -> bool {
    1 <= month <= 12 && 1 <= day <= month_length(year, month)
}

/// The civil date of a day.
pub open spec fn civil(days: int) -> (int, int, int) {
    choose|year: int, month: int, day: int|
        valid_date(year, month, day) && #[trigger] day_number(year, month, day) == days
}

proof fn months_table(year: int)
    ensures
        days_before_month(year, 1) == 0,
        days_before_month(year, 2) == 31,
        days_before_month(year, 3) == 59 + if leap(year) { 1int } else { 0 },
        days_before_month(year, 4) == 90 + if leap(year) { 1int } else { 0 },
        days_before_month(year, 5) == 120 + if leap(year) { 1int } else { 0 },
        days_before_month(year, 6) == 151 + if leap(year) { 1int } else { 0 },
        days_before_month(year, 7) == 181 + if leap(year) { 1int } else { 0 },
        days_before_month(year, 8) == 212 + if leap(year) { 1int } else { 0 },
        days_before_month(year, 9) == 243 + if leap(year) { 1int } else { 0 },
        days_before_month(year, 10) == 273 + if leap(year) { 1int } else { 0 },
        days_before_month(year, 11) == 304 + if leap(year) { 1int } else { 0 },
        days_before_month(year, 12) == 334 + if leap(year) { 1int } else { 0 },
{
    reveal_with_fuel(days_before_month, 13);
}

/// A year is 365 days long, a leap year 366.
pub proof fn year_length(year: int)
    ensures
        days_before_year(year + 1) - days_before_year(year) == 365 + if leap(year) {
            1int
        } else {
            0
        },
{
}

proof fn years_apart(a: int, b: int)
    requires
        a <= b,
    ensures
        days_before_year(b) - days_before_year(a) >= 365 * (b - a),
    decreases b - a,
{
    if a < b {
        years_apart(a, b - 1);
        year_length(b - 1);
    }
}

proof fn within_year(year: int, month: int, day: int)
    requires
        valid_date(year, month, day),
    ensures
        0 <= days_before_month(year, month) + day - 1 < 365 + if leap(year) { 1int } else { 0 },
{
    months_table(year);
    assert(month == 1 || month == 2 || month == 3 || month == 4 || month == 5 || month == 6
        || month == 7 || month == 8 || month == 9 || month == 10 || month == 11 || month == 12);
}

/// A day has one civil date only.
pub proof fn date_unique(y1: int, m1: int, d1: int, y2: int, m2: int, d2: int)
    requires
        valid_date(y1, m1, d1),
        valid_date(y2, m2, d2),
        day_number(y1, m1, d1) == day_number(y2, m2, d2),
    ensures
        y1 == y2,
        m1 == m2,
        d1 == d2,
{
    within_year(y1, m1, d1);
    within_year(y2, m2, d2);
    if y1 < y2 {
        years_apart(y1 + 1, y2);
        year_length(y1);
    } else if y2 < y1 {
        years_apart(y2 + 1, y1);
        year_length(y2);
    }
    months_table(y1);
    assert(m1 == 1 || m1 == 2 || m1 == 3 || m1 == 4 || m1 == 5 || m1 == 6 || m1 == 7 || m1 == 8
        || m1 == 9 || m1 == 10 || m1 == 11 || m1 == 12);
    assert(m2 == 1 || m2 == 2 || m2 == 3 || m2 == 4 || m2 == 5 || m2 == 6 || m2 == 7 || m2 == 8
        || m2 == 9 || m2 == 10 || m2 == 11 || m2 == 12);
}

/// The civil date of the day of a civil date is that date.
pub proof fn civil_of_day_number(year: int, month: int, day: int)
    requires
        valid_date(year, month, day),
    ensures
        civil(day_number(year, month, day)) == (year, month, day),
{
    let days = day_number(year, month, day);
    let (y, m, d) = civil(days);
    assert(valid_date(y, m, d) && day_number(y, m, d) == days);
    date_unique(y, m, d, year, month, day);
}

pub(crate) fn floor_div(a: i64, b: i64) -> (r: i64)
    requires
        b > 1,
    ensures
        r as int == a as int / b as int,
{
    proof {
        assert(i64::MIN <= a as int / b as int <= i64::MAX) by (nonlinear_arith)
            requires
                b > 1,
                i64::MIN <= a <= i64::MAX,
        ;
    }
    match a.checked_div_euclid(b) {
        Some(q) => q,
        None => 0,
    }
}

pub(crate) fn floor_rem(a: i64, b: i64) -> (r: i64)
    requires
        b > 1,
    ensures
        r as int == a as int % b as int,
{
    proof {
        assert(0 <= (a as int) % (b as int) < b) by (nonlinear_arith)
            requires
                b > 1,
        ;
    }
    match a.checked_rem_euclid(b) {
        Some(q) => q,
        None => 0,
    }
}

#[verifier::spinoff_prover]
#[verifier::rlimit(60)]
proof fn era_year(doe: int, yoe: int)
    requires
        0 <= doe < 146097,
        yoe == (doe - doe / 1460 + doe / 36524 - doe / 146096) / 365,
    ensures
        0 <= yoe <= 399,
        0 <= doe - (365 * yoe + yoe / 4 - yoe / 100),
        doe - (365 * yoe + yoe / 4 - yoe / 100) <= 365,
        doe - (365 * yoe + yoe / 4 - yoe / 100) == 365 ==> leap(yoe + 1),
{
}

/// The day of a civil date, counted in years that begin in March.
proof fn march_based(year: int, month: int, day: int, y: int, mp: int)
    requires
        1 <= month <= 12,
        y == if month <= 2 { year - 1 } else { year },
        mp == if month > 2 { month - 3 } else { month + 9 },
    ensures
        day_number(year, month, day) == 365 * y + y / 4 - y / 100 + y / 400 + (153 * mp + 2) / 5
            + day - 1 - 719_468,
{
    months_table(year);
    year_length(year);
    assert(month == 1 || month == 2 || month == 3 || month == 4 || month == 5 || month == 6
        || month == 7 || month == 8 || month == 9 || month == 10 || month == 11 || month == 12);
}

#[verifier::spinoff_prover]
proof fn era_split(y: int, era: int, yoe: int)
    requires
        y == 400 * era + yoe,
        0 <= yoe < 400,
    ensures
        365 * y + y / 4 - y / 100 + y / 400 == 146_097 * era + 365 * yoe + yoe / 4 - yoe / 100,
{
    assert(y / 400 == era);
    assert(y / 100 == 4 * era + yoe / 100);
    assert(y / 4 == 100 * era + yoe / 4);
}

proof fn march_date(year: int, y: int, doy: int, mp: int, month: int, day: int)
    requires
        0 <= doy <= 365,
        doy == 365 ==> leap(y + 1),
        mp == (5 * doy + 2) / 153,
        day == doy - (153 * mp + 2) / 5 + 1,
        month == if mp < 10 { mp + 3 } else { mp - 9 },
        year == if month <= 2 { y + 1 } else { y },
    ensures
        0 <= mp <= 11,
        valid_date(year, month, day),
        mp == if month > 2 { month - 3 } else { month + 9 },
        y == if month <= 2 { year - 1 } else { year },
{
}

proof fn leap_era(era: int, yoe: int)
    ensures
        leap(yoe + 400 * era) == leap(yoe),
{
}

/// Converts days since 1970-01-01 to a civil date.
pub fn civil_from_days(days: i64) -> (r: (i64, u32, u32))
    requires
        days <= i64::MAX - 719_468,
    ensures
        valid_date(r.0 as int, r.1 as int, r.2 as int),
        day_number(r.0 as int, r.1 as int, r.2 as int) == days,
        (r.0 as int, r.1 as int, r.2 as int) == civil(days as int),
{
    let z: i64 = days + 719_468;
    let era: i64 = floor_div(z, 146_097);
    let day_of_era: i64 = floor_rem(z, 146_097);
    let year_of_era: i64 = (day_of_era - day_of_era / 1460 + day_of_era / 36524 - day_of_era
        / 146_096) / 365;
    proof {
        era_year(day_of_era as int, year_of_era as int);
    }
    let march_year: i64 = year_of_era + era * 400;
    let day_of_year: i64 = day_of_era - (365 * year_of_era + year_of_era / 4 - year_of_era / 100);
    let mp: i64 = (5 * day_of_year + 2) / 153;
    proof {
        leap_era(era as int, year_of_era + 1);
        march_date(
            if mp < 10 { march_year as int } else { march_year + 1 },
            march_year as int,
            day_of_year as int,
            mp as int,
            if mp < 10 { mp + 3 } else { mp - 9 },
            day_of_year - (153 * mp + 2) / 5 + 1,
        );
    }
    let day: i64 = day_of_year - (153 * mp + 2) / 5 + 1;
    let month: i64 = if mp < 10 {
        mp + 3
    } else {
        mp - 9
    };
    let year: i64 = if month <= 2 {
        march_year + 1
    } else {
        march_year
    };
    proof {
        march_based(year as int, month as int, day as int, march_year as int, mp as int);
        era_split(march_year as int, era as int, year_of_era as int);
        civil_of_day_number(year as int, month as int, day as int);
    }
    (year, month as u32, day as u32)
}

/// Inverse of [`civil_from_days`].
pub fn days_from_civil(year: i64, month: u32, day: u32) -> (r: i64)
    requires
        -25_000_000_000_000_000 <= year <= 25_000_000_000_000_000,
        1 <= month <= 12,
        1 <= day,
    ensures
        r == day_number(year as int, month as int, day as int),
{
    let y: i64 = if month <= 2 {
        year - 1
    } else {
        year
    };
    let era: i64 = floor_div(y, 400);
    let year_of_era: i64 = y - era * 400;
    let mp: i64 = if month > 2 {
        month as i64 - 3
    } else {
        month as i64 + 9
    };
    let day_of_year: i64 = (153 * mp + 2) / 5 + day as i64 - 1;
    let day_of_era: i64 = 365 * year_of_era + year_of_era / 4 - year_of_era / 100 + day_of_year;
    proof {
        march_based(year as int, month as int, day as int, y as int, mp as int);
        era_split(y as int, era as int, year_of_era as int);
    }
    era * 146_097 + day_of_era - 719_468
}

pub fn is_leap_year(year: i64) -> (r: bool)
    ensures
        r == leap(year as int),
{
    (floor_rem(year, 4) == 0 && floor_rem(year, 100) != 0) || floor_rem(year, 400) == 0
}

pub fn days_in_month(year: i64, month: u32) -> (r: u32)
    ensures
        r == month_length(year as int, month as int),
{
    if month == 2 {
        if is_leap_year(year) {
            29
        } else {
            28
        }
    } else if month == 4 || month == 6 || month == 9 || month == 11 {
        30
    } else if 1 <= month && month <= 12 {
        31
    } else {
        0
    }
}

// ---------------------------------------------------------------------------
// Parsing
// ---------------------------------------------------------------------------

pub open spec fn digit_byte(b: u8) -> bool {
    48 <= b <= 57
}

/// The number that a run of digit bytes denotes.
pub open spec fn value(b: Seq<u8>) -> int
    decreases b.len(),
{
    if b.len() == 0 {
        0
    } else {
        10 * value(b.drop_last()) + (b.last() - 48)
    }
}

/// The number in the `count` bytes from `at` on, if they are all digits.
pub open spec fn field(b: Seq<u8>, at: int, count: int) -> Option<int> {
    if at + count <= b.len() && forall|i: int| at <= i < at + count ==> digit_byte(#[trigger] b[i]) {
        Some(value(b.subrange(at, at + count)))
    } else {
        None
    }
}

/// The first thing wrong with the date and time of day, if anything is.
pub open spec fn date_time_fault(b: Seq<u8>) -> Option<Seq<char>> {
    if b.len() < 20 {
        Some("timestamp too short"@)
    } else if field(b, 0, 4) is None {
        Some("year must be four digits"@)
    } else if b[4] != 45 {
        Some("expected '-' after year"@)
    } else if field(b, 5, 2) is None {
        Some("month must be two digits"@)
    } else if b[7] != 45 {
        Some("expected '-' after month"@)
    } else if field(b, 8, 2) is None {
        Some("day must be two digits"@)
    } else if b[10] != 84 && b[10] != 116 && b[10] != 32 {
        Some("expected 'T' between date and time"@)
    } else if field(b, 11, 2) is None {
        Some("hour must be two digits"@)
    } else if b[13] != 58 {
        Some("expected ':' after hour"@)
    } else if field(b, 14, 2) is None {
        Some("minute must be two digits"@)
    } else if b[16] != 58 {
        Some("expected ':' after minute"@)
    } else if field(b, 17, 2) is None {
        Some("second must be two digits"@)
    } else {
        let year = field(b, 0, 4)->0;
        let month = field(b, 5, 2)->0;
        let day = field(b, 8, 2)->0;
        let hour = field(b, 11, 2)->0;
        let minute = field(b, 14, 2)->0;
        let second = field(b, 17, 2)->0;
        if !(1 <= month <= 12) {
            Some("month out of range"@)
        } else if day < 1 || day > month_length(year, month) {
            Some("day invalid for the given year and month"@)
        } else if hour > 23 || minute > 59 || second > 60 {
            Some("time of day out of range"@)
        } else if second == 60 && (hour != 23 || minute != 59) {
            Some("a leap second is only valid at 23:59:60"@)
        } else {
            None
        }
    }
}

/// The instant that the first nineteen bytes name, read as UTC. A leap second
/// is the second after it.
pub open spec fn date_time(b: Seq<u8>) -> int {
    day_number(field(b, 0, 4)->0, field(b, 5, 2)->0, field(b, 8, 2)->0) * MICROSECONDS_PER_DAY + (
    field(b, 11, 2)->0 * 3600 + field(b, 14, 2)->0 * 60 + field(b, 17, 2)->0)
        * MICROSECONDS_PER_SECOND
}

/// How many digits follow one another from `at` on.
pub open spec fn digit_run(b: Seq<u8>, at: int) -> int
    decreases b.len() - at,
{
    if 0 <= at < b.len() && digit_byte(b[at]) {
        1 + digit_run(b, at + 1)
    } else {
        0
    }
}

pub open spec fn has_fraction(b: Seq<u8>) -> bool {
    b.len() > 19 && b[19] == 46
}

/// Where the UTC designator or the offset begins.
pub open spec fn zone_start(b: Seq<u8>) -> int {
    if has_fraction(b) {
        20 + digit_run(b, 20)
    } else {
        19
    }
}

/// The `k`-th digit of the fraction; zero beyond its end.
pub open spec fn fraction_digit(b: Seq<u8>, k: int) -> int {
    if k < digit_run(b, 20) {
        b[20 + k] - 48
    } else {
        0
    }
}

/// The microseconds of the fraction: its first six digits.
pub open spec fn fraction(b: Seq<u8>) -> int {
    if has_fraction(b) {
        fraction_digit(b, 0) * 100_000 + fraction_digit(b, 1) * 10_000 + fraction_digit(b, 2)
            * 1_000 + fraction_digit(b, 3) * 100 + fraction_digit(b, 4) * 10 + fraction_digit(b, 5)
    } else {
        0
    }
}

/// The seconds by which the zone that begins at `at` is ahead of UTC.
pub open spec fn zone(b: Seq<u8>, at: int) -> std::result::Result<int, Seq<char>> {
    if at >= b.len() {
        Err("missing UTC designator or offset"@)
    } else if b[at] == 90 || b[at] == 122 {
        if at + 1 == b.len() {
            Ok(0)
        } else {
            Err("trailing characters after timestamp"@)
        }
    } else if b[at] == 43 || b[at] == 45 {
        if field(b, at + 1, 2) is None {
            Err("offset hour must be two digits"@)
        } else if at + 3 >= b.len() || b[at + 3] != 58 {
            Err("offset must be ±HH:MM"@)
        } else if field(b, at + 4, 2) is None {
            Err("offset minute must be two digits"@)
        } else {
            let hours = field(b, at + 1, 2)->0;
            let minutes = field(b, at + 4, 2)->0;
            if hours > 23 || minutes > 59 {
                Err("offset out of range"@)
            } else if at + 6 != b.len() {
                Err("trailing characters after timestamp"@)
            } else if b[at] == 45 {
                Ok(-(hours * 3600 + minutes * 60))
            } else {
                Ok(hours * 3600 + minutes * 60)
            }
        }
    } else {
        Err("unexpected character "@ + seq![b[at] as char])
    }
}

/// The instant that a timestamp names, or what is wrong with it.
pub open spec fn instant(b: Seq<u8>) -> std::result::Result<int, Seq<char>> {
    if date_time_fault(b) is Some {
        Err(date_time_fault(b)->0)
    } else if has_fraction(b) && digit_run(b, 20) == 0 {
        Err("fraction must have at least one digit"@)
    } else {
        match zone(b, zone_start(b)) {
            Err(fault) => Err(fault),
            Ok(ahead) => Ok(date_time(b) + fraction(b) - ahead * MICROSECONDS_PER_SECOND),
        }
    }
}

proof fn value_step(b: Seq<u8>, at: int, i: int)
    requires
        0 <= at <= i < b.len(),
    ensures
        value(b.subrange(at, i + 1)) == 10 * value(b.subrange(at, i)) + (b[i] - 48),
{
    assert(b.subrange(at, i + 1).drop_last() =~= b.subrange(at, i));
}

proof fn value_bound(b: Seq<u8>)
    requires
        forall|i: int| 0 <= i < b.len() ==> digit_byte(#[trigger] b[i]),
    ensures
        0 <= value(b) < text::power10(b.len()),
    decreases b.len(),
{
    reveal_with_fuel(text::power10, 2);
    if b.len() > 0 {
        value_bound(b.drop_last());
    }
}

/// The fields of a timestamp that are read have two or four digits.
proof fn field_bound(b: Seq<u8>, at: int, count: int)
    requires
        0 <= at,
        count == 2 || count == 4,
        field(b, at, count) is Some,
    ensures
        0 <= field(b, at, count)->0,
        count == 2 ==> field(b, at, count)->0 <= 99,
        count == 4 ==> field(b, at, count)->0 <= 9999,
{
    let s = b.subrange(at, at + count);
    assert forall|i: int| 0 <= i < s.len() implies digit_byte(#[trigger] s[i]) by {
        assert(s[i] == b[at + i]);
    }
    value_bound(s);
    reveal_with_fuel(text::power10, 5);
    assert(text::power10(2) == 100);
    assert(text::power10(4) == 10_000);
}

/// Reads `count` ASCII digits starting at `position`.
pub fn digits(bytes: &[u8], position: usize, count: usize) -> (r: Option<i64>)
    requires
        count == 2 || count == 4,
        position + count <= usize::MAX,
    ensures
        match r {
            Some(v) => field(bytes@, position as int, count as int) == Some(v as int),
            None => field(bytes@, position as int, count as int) is None,
        },
{
    if position + count > bytes.len() {
        return None;
    }
    let mut v: i64 = 0;
    let mut i: usize = position;
    assert(bytes@.subrange(position as int, position as int) =~= Seq::<u8>::empty());
    while i < position + count
        invariant
            position <= i <= position + count <= bytes@.len(),
            count == 2 || count == 4,
            position + count <= usize::MAX,
            forall|k: int| position <= k < i ==> digit_byte(#[trigger] bytes@[k]),
            v == value(bytes@.subrange(position as int, i as int)),
            0 <= v,
            i == position ==> v == 0,
            i == position + 1 ==> v <= 9,
            i == position + 2 ==> v <= 99,
            i == position + 3 ==> v <= 999,
            i == position + 4 ==> v <= 9999,
        decreases position + count - i,
    {
        let byte = bytes[i];
        if byte < 48 || byte > 57 {
            assert(!digit_byte(bytes@[i as int]));
            return None;
        }
        proof {
            value_step(bytes@, position as int, i as int);
        }
        v = v * 10 + (byte - 48) as i64;
        i = i + 1;
    }
    Some(v)
}

/// The date and time of day, as far as they are well formed.
fn parse_date_time(bytes: &[u8]) -> (r: std::result::Result<i64, String>)
    ensures
        match r {
            Ok(v) => date_time_fault(bytes@) is None && v == date_time(bytes@)
                && -100_000_000_000_000_000 <= v <= 300_000_000_000_000_000,
            Err(detail) => date_time_fault(bytes@) == Some(detail@),
        },
{
    if bytes.len() < 20 {
        return Err(text::copy("timestamp too short"));
    }
    let year: i64 = match digits(bytes, 0, 4) {
        Some(v) => v,
        None => return Err(text::copy("year must be four digits")),
    };
    if bytes[4] != 45 {
        return Err(text::copy("expected '-' after year"));
    }
    let month: i64 = match digits(bytes, 5, 2) {
        Some(v) => v,
        None => return Err(text::copy("month must be two digits")),
    };
    if bytes[7] != 45 {
        return Err(text::copy("expected '-' after month"));
    }
    let day: i64 = match digits(bytes, 8, 2) {
        Some(v) => v,
        None => return Err(text::copy("day must be two digits")),
    };
    if bytes[10] != 84 && bytes[10] != 116 && bytes[10] != 32 {
        return Err(text::copy("expected 'T' between date and time"));
    }
    let hour: i64 = match digits(bytes, 11, 2) {
        Some(v) => v,
        None => return Err(text::copy("hour must be two digits")),
    };
    if bytes[13] != 58 {
        return Err(text::copy("expected ':' after hour"));
    }
    let minute: i64 = match digits(bytes, 14, 2) {
        Some(v) => v,
        None => return Err(text::copy("minute must be two digits")),
    };
    if bytes[16] != 58 {
        return Err(text::copy("expected ':' after minute"));
    }
    let second: i64 = match digits(bytes, 17, 2) {
        Some(v) => v,
        None => return Err(text::copy("second must be two digits")),
    };
    proof {
        field_bound(bytes@, 0, 4);
        field_bound(bytes@, 5, 2);
        field_bound(bytes@, 8, 2);
        field_bound(bytes@, 11, 2);
        field_bound(bytes@, 14, 2);
        field_bound(bytes@, 17, 2);
    }
    if !(1 <= month && month <= 12) {
        return Err(text::copy("month out of range"));
    }
    if day < 1 || day > days_in_month(year, month as u32) as i64 {
        return Err(text::copy("day invalid for the given year and month"));
    }
    if hour > 23 || minute > 59 || second > 60 {
        return Err(text::copy("time of day out of range"));
    }
    if second == 60 && (hour != 23 || minute != 59) {
        return Err(text::copy("a leap second is only valid at 23:59:60"));
    }
    let days = days_from_civil(year, month as u32, day as u32);
    proof {
        within_year(year as int, month as int, day as int);
        assert(-720_000 <= days <= 3_000_000);
    }
    Ok(days * MICROSECONDS_PER_DAY + (hour * 3600 + minute * 60 + second) * MICROSECONDS_PER_SECOND)
}

fn run_end(bytes: &[u8], start: usize) -> (r: usize)
    requires
        start <= bytes@.len(),
    ensures
        r == start + digit_run(bytes@, start as int),
        start <= r <= bytes@.len(),
{
    let mut position: usize = start;
    while position < bytes.len() && 48 <= bytes[position] && bytes[position] <= 57
        invariant
            start <= position <= bytes@.len(),
            digit_run(bytes@, start as int) == position - start + digit_run(
                bytes@,
                position as int,
            ),
        decreases bytes@.len() - position,
    {
        position = position + 1;
    }
    position
}

proof fn run_digits(b: Seq<u8>, at: int)
    requires
        0 <= at <= b.len(),
    ensures
        digit_run(b, at) >= 0,
        at + digit_run(b, at) <= b.len(),
        forall|i: int| at <= i < at + digit_run(b, at) ==> digit_byte(#[trigger] b[i]),
        at + digit_run(b, at) < b.len() ==> !digit_byte(b[at + digit_run(b, at)]),
    decreases b.len() - at,
{
    if at < b.len() && digit_byte(b[at]) {
        run_digits(b, at + 1);
    }
}

fn kept_digit(bytes: &[u8], start: usize, end: usize, k: usize) -> (r: i64)
    requires
        start == 20,
        end == 20 + digit_run(bytes@, 20),
        start <= end <= bytes@.len(),
        k < 6,
    ensures
        r == fraction_digit(bytes@, k as int),
        0 <= r <= 9,
{
    proof {
        run_digits(bytes@, 20);
    }
    if k < end - start {
        assert(digit_byte(bytes@[20 + k]));
        (bytes[start + k] - 48) as i64
    } else {
        0
    }
}

fn parse_zone(bytes: &[u8], position: usize) -> (r: std::result::Result<i64, String>)
    requires
        position <= bytes@.len(),
    ensures
        match r {
            Ok(v) => zone(bytes@, position as int) == Ok::<int, Seq<char>>(v as int)
                && -90_000 <= v <= 90_000,
            Err(detail) => zone(bytes@, position as int) == Err::<int, Seq<char>>(detail@),
        },
{
    if position >= bytes.len() {
        return Err(text::copy("missing UTC designator or offset"));
    }
    let sign = bytes[position];
    if sign == 90 || sign == 122 {
        if position + 1 == bytes.len() {
            return Ok(0);
        }
        return Err(text::copy("trailing characters after timestamp"));
    }
    if sign == 43 || sign == 45 {
        if bytes.len() - position < 3 {
            return Err(text::copy("offset hour must be two digits"));
        }
        let hours: i64 = match digits(bytes, position + 1, 2) {
            Some(v) => v,
            None => return Err(text::copy("offset hour must be two digits")),
        };
        if bytes.len() - position < 4 || bytes[position + 3] != 58 {
            return Err(text::copy("offset must be ±HH:MM"));
        }
        if bytes.len() - position < 6 {
            return Err(text::copy("offset minute must be two digits"));
        }
        let minutes: i64 = match digits(bytes, position + 4, 2) {
            Some(v) => v,
            None => return Err(text::copy("offset minute must be two digits")),
        };
        proof {
            field_bound(bytes@, position + 1, 2);
            field_bound(bytes@, position + 4, 2);
        }
        if hours > 23 || minutes > 59 {
            return Err(text::copy("offset out of range"));
        }
        if bytes.len() - position != 6 {
            return Err(text::copy("trailing characters after timestamp"));
        }
        let magnitude: i64 = hours * 3600 + minutes * 60;
        if sign == 45 {
            return Ok(-magnitude);
        }
        return Ok(magnitude);
    }
    let mut detail = text::copy("unexpected character ");
    detail.push(sign as char);
    assert(detail@ =~= "unexpected character "@ + seq![sign as char]);
    Err(detail)
}

pub fn parse_rfc3339_impl(input: &str) -> (r: std::result::Result<i64, String>)
    ensures
        match r {
            Ok(v) => instant(input.spec_bytes()) == Ok::<int, Seq<char>>(v as int),
            Err(detail) => instant(input.spec_bytes()) == Err::<int, Seq<char>>(detail@),
        },
{
    let bytes = input.as_bytes();
    let base: i64 = match parse_date_time(bytes) {
        Ok(v) => v,
        Err(detail) => return Err(detail),
    };
    let mut position: usize = 19;
    let mut micros: i64 = 0;
    if bytes[19] == 46 {
        position = run_end(bytes, 20);
        if position == 20 {
            return Err(text::copy("fraction must have at least one digit"));
        }
        let d0 = kept_digit(bytes, 20, position, 0);
        let d1 = kept_digit(bytes, 20, position, 1);
        let d2 = kept_digit(bytes, 20, position, 2);
        let d3 = kept_digit(bytes, 20, position, 3);
        let d4 = kept_digit(bytes, 20, position, 4);
        let d5 = kept_digit(bytes, 20, position, 5);
        micros = d0 * 100_000 + d1 * 10_000 + d2 * 1_000 + d3 * 100 + d4 * 10 + d5;
    }
    let ahead: i64 = match parse_zone(bytes, position) {
        Ok(v) => v,
        Err(detail) => return Err(detail),
    };
    Ok(base + micros - ahead * MICROSECONDS_PER_SECOND)
}

/// The error for a text that is no timestamp.
pub open spec fn timestamp_fault(input: Seq<char>, detail: Seq<char>) -> Fault {
    Fault::Storage("invalid RFC 3339 timestamp "@ + text::debug_text(input) + ": "@ + detail)
}

/// Parses an RFC 3339 timestamp into microseconds since the Unix epoch.
///
/// Accepted: `YYYY-MM-DDTHH:MM:SS(.fraction+)?(Z|±HH:MM)`. Lowercase `t`/`z`
/// and a space instead of `T` are accepted. Fractional seconds are truncated
/// (not rounded) to microseconds. A leap second (`23:59:60`) is accepted and
/// mapped to the following second.
pub fn parse_rfc3339(input: &str) -> (r: Result<i64>)
    ensures
        match r {
            Ok(v) => instant(input.spec_bytes()) == Ok::<int, Seq<char>>(v as int),
            Err(e) => instant(input.spec_bytes()) matches Err(detail) && e@ == timestamp_fault(
                input@,
                detail,
            ),
        },
{
    match parse_rfc3339_impl(input) {
        Ok(v) => Ok(v),
        Err(detail) => {
            let mut message = text::copy("invalid RFC 3339 timestamp ");
            let quoted = text::debug(input);
            message.append(quoted.as_str());
            message.append(": ");
            message.append(detail.as_str());
            Err(RewindError::Storage(message))
        },
    }
}

// ---------------------------------------------------------------------------
// Formatting
// ---------------------------------------------------------------------------

/// The RFC 3339 text of an instant, in UTC with six fraction digits.
pub open spec fn formatted(micros: int) -> Seq<char> {
    let date = civil(micros / MICROSECONDS_PER_DAY as int);
    let second_of_day = (micros % MICROSECONDS_PER_DAY as int) / MICROSECONDS_PER_SECOND as int;
    padded_int(date.0, 4) + "-"@ + padded(date.1 as nat, 2) + "-"@ + padded(date.2 as nat, 2)
        + "T"@ + padded((second_of_day / 3600) as nat, 2) + ":"@ + padded(
        ((second_of_day % 3600) / 60) as nat,
        2,
    ) + ":"@ + padded((second_of_day % 60) as nat, 2) + "."@ + padded(
        (micros % MICROSECONDS_PER_SECOND as int) as nat,
        6,
    ) + "Z"@
}

/// Formats microseconds since the Unix epoch as an RFC 3339 UTC timestamp with
/// microsecond precision (`YYYY-MM-DDTHH:MM:SS.ffffffZ`).
pub fn format_rfc3339(micros: i64) -> (r: String)
    ensures
        r@ == formatted(micros as int),
{
    let days = floor_div(micros, MICROSECONDS_PER_DAY);
    let seconds_of_day = floor_rem(micros, MICROSECONDS_PER_DAY) / MICROSECONDS_PER_SECOND;
    let fractional = floor_rem(micros, MICROSECONDS_PER_SECOND);
    let (year, month, day) = civil_from_days(days);
    let mut out = text::padded_i64(year, 4);
    out.append("-");
    out.append(text::padded_u64(month as u64, 2).as_str());
    out.append("-");
    out.append(text::padded_u64(day as u64, 2).as_str());
    out.append("T");
    out.append(text::padded_u64((seconds_of_day / 3600) as u64, 2).as_str());
    out.append(":");
    out.append(text::padded_u64(((seconds_of_day % 3600) / 60) as u64, 2).as_str());
    out.append(":");
    out.append(text::padded_u64((seconds_of_day % 60) as u64, 2).as_str());
    out.append(".");
    out.append(text::padded_u64(fractional as u64, 6).as_str());
    out.append("Z");
    out
}

// ---------------------------------------------------------------------------
// Laws
// ---------------------------------------------------------------------------

/// The bytes of an ASCII text.
pub open spec fn ascii(s: Seq<char>) -> Seq<u8> {
    Seq::new(s.len(), |i: int| s[i] as u8)
}

proof fn value_of_digits(s: Seq<char>)
    requires
        text::all_digits(s),
    ensures
        value(ascii(s)) == text::number(s),
        forall|i: int| 0 <= i < s.len() ==> digit_byte(#[trigger] ascii(s)[i]),
    decreases s.len(),
{
    assert forall|i: int| 0 <= i < s.len() implies digit_byte(#[trigger] ascii(s)[i]) by {
        assert(text::is_digit(s[i]));
    }
    if s.len() > 0 {
        value_of_digits(s.drop_last());
        assert(ascii(s).drop_last() =~= ascii(s.drop_last()));
        assert(text::is_digit(s[s.len() - 1]));
    }
}

/// A padded number that stands in a text is read back from its bytes.
proof fn field_of_padded(s: Seq<char>, at: int, n: nat, width: nat)
    requires
        0 <= at,
        width > 0,
        n < text::power10(width),
        at + width <= s.len(),
        s.subrange(at, at + width) == padded(n, width),
    ensures
        field(ascii(s), at, width as int) == Some(n as int),
{
    text::decimal_length(n, width);
    text::padded_denotes(n, width);
    let p = padded(n, width);
    value_of_digits(p);
    assert(ascii(s).subrange(at, at + width) =~= ascii(p));
    assert forall|i: int| at <= i < at + width implies digit_byte(#[trigger] ascii(s)[i]) by {
        assert(s[i] == p[i - at]);
        assert(digit_byte(ascii(p)[i - at]));
    }
}

proof fn run_of_six(b: Seq<u8>)
    requires
        b.len() == 27,
        forall|i: int| 20 <= i < 26 ==> digit_byte(#[trigger] b[i]),
        !digit_byte(b[26]),
    ensures
        digit_run(b, 20) == 6,
{
    reveal_with_fuel(digit_run, 8);
    assert(digit_byte(b[20]));
    assert(digit_byte(b[21]));
    assert(digit_byte(b[22]));
    assert(digit_byte(b[23]));
    assert(digit_byte(b[24]));
    assert(digit_byte(b[25]));
}

proof fn six_digits(b: Seq<u8>)
    requires
        b.len() == 6,
    ensures
        value(b) == (b[0] - 48) * 100_000 + (b[1] - 48) * 10_000 + (b[2] - 48) * 1_000 + (b[3] - 48)
            * 100 + (b[4] - 48) * 10 + (b[5] - 48),
{
    reveal_with_fuel(value, 7);
    assert(b.drop_last()[4] == b[4]);
    assert(b.drop_last().drop_last()[3] == b[3]);
    assert(b.drop_last().drop_last().drop_last()[2] == b[2]);
    assert(b.drop_last().drop_last().drop_last().drop_last()[1] == b[1]);
    assert(b.drop_last().drop_last().drop_last().drop_last().drop_last()[0] == b[0]);
}

/// The layout of a formatted timestamp, given its seven numbers.
spec fn laid_out(
    py: Seq<char>,
    pm: Seq<char>,
    pd: Seq<char>,
    ph: Seq<char>,
    pn: Seq<char>,
    ps: Seq<char>,
    pf: Seq<char>,
) -> Seq<char> {
    py + "-"@ + pm + "-"@ + pd + "T"@ + ph + ":"@ + pn + ":"@ + ps + "."@ + pf + "Z"@
}

proof fn layout(
    py: Seq<char>,
    pm: Seq<char>,
    pd: Seq<char>,
    ph: Seq<char>,
    pn: Seq<char>,
    ps: Seq<char>,
    pf: Seq<char>,
)
    requires
        py.len() == 4 && pm.len() == 2 && pd.len() == 2 && ph.len() == 2 && pn.len() == 2
            && ps.len() == 2 && pf.len() == 6,
        text::all_digits(py) && text::all_digits(pm) && text::all_digits(pd) && text::all_digits(ph)
            && text::all_digits(pn) && text::all_digits(ps) && text::all_digits(pf),
    ensures
        ({
            let s = laid_out(py, pm, pd, ph, pn, ps, pf);
            &&& s.len() == 27
            &&& s.subrange(0, 4) == py
            &&& s.subrange(5, 7) == pm
            &&& s.subrange(8, 10) == pd
            &&& s.subrange(11, 13) == ph
            &&& s.subrange(14, 16) == pn
            &&& s.subrange(17, 19) == ps
            &&& s.subrange(20, 26) == pf
            &&& s[4] == '-' && s[7] == '-' && s[10] == 'T' && s[13] == ':' && s[16] == ':' && s[19]
                == '.' && s[26] == 'Z'
            &&& vstd::utf8::is_ascii_chars(s)
        }),
{
    reveal_strlit("-");
    reveal_strlit("T");
    reveal_strlit(":");
    reveal_strlit(".");
    reveal_strlit("Z");
    let s = laid_out(py, pm, pd, ph, pn, ps, pf);
    assert(s.subrange(0, 4) =~= py);
    assert(s.subrange(5, 7) =~= pm);
    assert(s.subrange(8, 10) =~= pd);
    assert(s.subrange(11, 13) =~= ph);
    assert(s.subrange(14, 16) =~= pn);
    assert(s.subrange(17, 19) =~= ps);
    assert(s.subrange(20, 26) =~= pf);
    assert forall|i: int| 0 <= i < s.len() implies '\0' <= #[trigger] s[i] <= '\u{7f}' by {
        if i < 4 {
            assert(text::is_digit(py[i]));
        } else if 5 <= i < 7 {
            assert(text::is_digit(pm[i - 5]));
        } else if 8 <= i < 10 {
            assert(text::is_digit(pd[i - 8]));
        } else if 11 <= i < 13 {
            assert(text::is_digit(ph[i - 11]));
        } else if 14 <= i < 16 {
            assert(text::is_digit(pn[i - 14]));
        } else if 17 <= i < 19 {
            assert(text::is_digit(ps[i - 17]));
        } else if 20 <= i < 26 {
            assert(text::is_digit(pf[i - 20]));
        }
    }
}

#[verifier::spinoff_prover]
proof fn recomposed(micros: int, days: int, sod: int, frac: int)
    requires
        days == micros / MICROSECONDS_PER_DAY as int,
        sod == (micros % MICROSECONDS_PER_DAY as int) / MICROSECONDS_PER_SECOND as int,
        frac == micros % MICROSECONDS_PER_SECOND as int,
    ensures
        0 <= sod < 86_400,
        0 <= frac < 1_000_000,
        days * MICROSECONDS_PER_DAY + ((sod / 3600) * 3600 + ((sod % 3600) / 60) * 60 + sod % 60)
            * MICROSECONDS_PER_SECOND + frac == micros,
{
    let r = micros % MICROSECONDS_PER_DAY as int;
    assert(micros == 86_400_000_000 * days + r);
    assert(r == 1_000_000 * sod + r % 1_000_000);
    assert(r % 1_000_000 == frac);
    assert(sod == (sod / 3600) * 3600 + sod % 3600);
    assert(sod % 3600 == ((sod % 3600) / 60) * 60 + (sod % 3600) % 60);
    assert((sod % 3600) % 60 == sod % 60);
}

/// What the bytes of a formatted timestamp name, given its fields.
#[verifier::spinoff_prover]
proof fn read_back(s: Seq<char>, year: int, month: int, day: int, hour: int, minute: int, second: int, frac: nat)
    requires
        s.len() == 27,
        field(ascii(s), 0, 4) == Some(year),
        field(ascii(s), 5, 2) == Some(month),
        field(ascii(s), 8, 2) == Some(day),
        field(ascii(s), 11, 2) == Some(hour),
        field(ascii(s), 14, 2) == Some(minute),
        field(ascii(s), 17, 2) == Some(second),
        field(ascii(s), 20, 6) == Some(frac as int),
        s[4] == '-' && s[7] == '-' && s[10] == 'T' && s[13] == ':' && s[16] == ':' && s[19] == '.'
            && s[26] == 'Z',
        valid_date(year, month, day),
        hour <= 23 && minute <= 59 && second <= 59,
    ensures
        instant(ascii(s)) == Ok::<int, Seq<char>>(
            day_number(year, month, day) * MICROSECONDS_PER_DAY + (hour * 3600 + minute * 60
                + second) * MICROSECONDS_PER_SECOND + frac,
        ),
{
    let b = ascii(s);
    assert(b[4] == 45 && b[7] == 45 && b[10] == 84 && b[13] == 58 && b[16] == 58 && b[19] == 46
        && b[26] == 90);
    run_of_six(b);
    six_digits(b.subrange(20, 26));
    assert(fraction(b) == frac);
    assert(date_time_fault(b) is None);
    assert(zone(b, 26) == Ok::<int, Seq<char>>(0));
}

/// What [`format_rfc3339`] writes, [`parse_rfc3339`] reads back: an instant of
/// a year from 0 to 9999 is recovered from its text.
pub proof fn parse_inverts_format(micros: int)
    requires
        0 <= civil(micros / MICROSECONDS_PER_DAY as int).0 <= 9999,
    ensures
        instant(vstd::utf8::encode_utf8(formatted(micros))) == Ok::<int, Seq<char>>(micros),
{
    let days = micros / MICROSECONDS_PER_DAY as int;
    let (year, month, day) = civil(days);
    civil_exists(days);
    let sod = (micros % MICROSECONDS_PER_DAY as int) / MICROSECONDS_PER_SECOND as int;
    let hour = (sod / 3600) as nat;
    let minute = ((sod % 3600) / 60) as nat;
    let second = (sod % 60) as nat;
    let frac = (micros % MICROSECONDS_PER_SECOND as int) as nat;
    recomposed(micros, days, sod, frac as int);
    let s = formatted(micros);
    reveal_with_fuel(text::power10, 7);
    assert(text::power10(2) == 100 && text::power10(4) == 10_000 && text::power10(6) == 1_000_000);
    text::decimal_length(year as nat, 4);
    text::decimal_length(month as nat, 2);
    text::decimal_length(day as nat, 2);
    text::decimal_length(hour, 2);
    text::decimal_length(minute, 2);
    text::decimal_length(second, 2);
    text::decimal_length(frac, 6);
    text::padded_denotes(year as nat, 4);
    text::padded_denotes(month as nat, 2);
    text::padded_denotes(day as nat, 2);
    text::padded_denotes(hour, 2);
    text::padded_denotes(minute, 2);
    text::padded_denotes(second, 2);
    text::padded_denotes(frac, 6);
    layout(
        padded(year as nat, 4),
        padded(month as nat, 2),
        padded(day as nat, 2),
        padded(hour, 2),
        padded(minute, 2),
        padded(second, 2),
        padded(frac, 6),
    );
    field_of_padded(s, 0, year as nat, 4);
    field_of_padded(s, 5, month as nat, 2);
    field_of_padded(s, 8, day as nat, 2);
    field_of_padded(s, 11, hour, 2);
    field_of_padded(s, 14, minute, 2);
    field_of_padded(s, 17, second, 2);
    field_of_padded(s, 20, frac, 6);
    read_back(s, year, month, day, hour as int, minute as int, second as int, frac);
    vstd::utf8::is_ascii_chars_encode_utf8(s);
    assert(vstd::utf8::encode_utf8(s) =~= ascii(s));
}

/// Every day has a civil date.
pub proof fn civil_exists(days: int)
    ensures
        ({
            let date = civil(days);
            valid_date(date.0, date.1, date.2) && day_number(date.0, date.1, date.2) == days
        }),
{
    let z = days + 719_468;
    let era = z / 146_097;
    let doe = z % 146_097;
    let yoe = (doe - doe / 1460 + doe / 36524 - doe / 146_096) / 365;
    era_year(doe, yoe);
    leap_era(era, yoe + 1);
    let y = yoe + era * 400;
    let doy = doe - (365 * yoe + yoe / 4 - yoe / 100);
    let mp = (5 * doy + 2) / 153;
    let day = doy - (153 * mp + 2) / 5 + 1;
    let month = if mp < 10 { mp + 3 } else { mp - 9 };
    let year = if mp < 10 { y } else { y + 1 };
    march_date(year, y, doy, mp, month, day);
    march_based(year, month, day, y, mp);
    era_split(y, era, yoe);
    assert(day_number(year, month, day) == days);
    civil_of_day_number(year, month, day);
}

proof fn fields_of_prefix(prefix: Seq<u8>, a: Seq<u8>, b: Seq<u8>, at: int, count: int)
    requires
        0 <= at,
        0 <= count,
        at + count <= prefix.len(),
    ensures
        field(prefix + a, at, count) == field(prefix + b, at, count),
{
    let x = prefix + a;
    let y = prefix + b;
    assert(x.subrange(at, at + count) =~= y.subrange(at, at + count));
    assert forall|i: int| at <= i < at + count implies x[i] == y[i] by {}
    if forall|i: int| at <= i < at + count ==> digit_byte(#[trigger] x[i]) {
        assert forall|i: int| at <= i < at + count implies digit_byte(#[trigger] y[i]) by {
            assert(digit_byte(x[i]));
        }
    } else {
        let i = choose|i: int| at <= i < at + count && !digit_byte(#[trigger] x[i]);
        assert(!digit_byte(y[i]));
    }
}

proof fn run_of_prefix(prefix: Seq<u8>, a: Seq<u8>, b: Seq<u8>, at: int)
    requires
        0 <= at <= prefix.len(),
        a.len() > 0 && !digit_byte(a[0]),
        b.len() > 0 && !digit_byte(b[0]),
    ensures
        digit_run(prefix + a, at) == digit_run(prefix + b, at),
        at + digit_run(prefix + a, at) <= prefix.len(),
    decreases prefix.len() - at,
{
    if at < prefix.len() {
        run_of_prefix(prefix, a, b, at + 1);
        assert((prefix + a)[at] == prefix[at] && (prefix + b)[at] == prefix[at]);
    } else {
        assert((prefix + a)[at] == a[0] && (prefix + b)[at] == b[0]);
    }
}

/// An offset shifts into the UTC instant: the timestamp that ends in `±HH:MM`
/// names the instant that the same date and time name in UTC, less the offset.
#[verifier::rlimit(40)]
pub proof fn offset_shifts(prefix: Seq<u8>, offset: Seq<u8>)
    requires
        prefix.len() >= 19,
        instant(prefix + seq![90u8]) is Ok,
        zone_start(prefix + seq![90u8]) == prefix.len(),
        offset.len() == 6,
        offset[0] == 43 || offset[0] == 45,
        zone(offset, 0) is Ok,
    ensures
        instant(prefix + offset) == Ok::<int, Seq<char>>(
            instant(prefix + seq![90u8])->Ok_0 - zone(offset, 0)->Ok_0 * MICROSECONDS_PER_SECOND,
        ),
{
    let utc = seq![90u8];
    let x = prefix + utc;
    let y = prefix + offset;
    let n = prefix.len() as int;
    fields_of_prefix(prefix, utc, offset, 0, 4);
    fields_of_prefix(prefix, utc, offset, 5, 2);
    fields_of_prefix(prefix, utc, offset, 8, 2);
    fields_of_prefix(prefix, utc, offset, 11, 2);
    fields_of_prefix(prefix, utc, offset, 14, 2);
    fields_of_prefix(prefix, utc, offset, 17, 2);
    assert(forall|i: int| 0 <= i < n ==> x[i] == y[i]);
    assert(x[n] == 90 && y[n] == offset[0]);
    assert(date_time_fault(y) is None);
    assert(date_time(x) == date_time(y));
    if n == 19 {
        assert(!has_fraction(x) && !has_fraction(y));
    } else {
        run_of_prefix(prefix, utc, offset, 20);
        assert(has_fraction(x) == has_fraction(y));
        run_digits(x, 20);
        if has_fraction(x) {
            assert forall|k: int| 0 <= k < 6 implies fraction_digit(x, k) == #[trigger] fraction_digit(
                y,
                k,
            ) by {}
            assert(fraction_digit(x, 0) == fraction_digit(y, 0));
            assert(fraction_digit(x, 1) == fraction_digit(y, 1));
            assert(fraction_digit(x, 2) == fraction_digit(y, 2));
            assert(fraction_digit(x, 3) == fraction_digit(y, 3));
            assert(fraction_digit(x, 4) == fraction_digit(y, 4));
            assert(fraction_digit(x, 5) == fraction_digit(y, 5));
        }
    }
    assert(zone_start(y) == n);
    assert(y.subrange(n + 1, n + 3) =~= offset.subrange(1, 3));
    assert(y.subrange(n + 4, n + 6) =~= offset.subrange(4, 6));
    assert(y[n + 1] == offset[1] && y[n + 2] == offset[2] && y[n + 3] == offset[3] && y[n + 4]
        == offset[4] && y[n + 5] == offset[5]);
    assert(field(offset, 1, 2) is Some && field(offset, 4, 2) is Some);
    assert(digit_byte(offset[1]) && digit_byte(offset[2]) && digit_byte(offset[4]) && digit_byte(
        offset[5],
    ));
    assert(field(y, n + 1, 2) == field(offset, 1, 2));
    assert(field(y, n + 4, 2) == field(offset, 4, 2));
    assert(zone(y, n) == zone(offset, 0));
    assert(zone(x, n) == Ok::<int, Seq<char>>(0));
}

/// A leap second is the first instant of the next day.
pub proof fn leap_second_is_next_day(b: Seq<u8>)
    requires
        date_time_fault(b) is None,
        field(b, 17, 2) == Some(60int),
    ensures
        date_time(b) == (day_number(field(b, 0, 4)->0, field(b, 5, 2)->0, field(b, 8, 2)->0) + 1)
            * MICROSECONDS_PER_DAY,
{
}

// ---------------------------------------------------------------------------
// What the calls promise
// ---------------------------------------------------------------------------

/// A time that was written is read back: what formatting an instant of a year
/// from 0 to 9999 gives, parsing takes for that instant.
pub proof fn a_written_time_is_read_back(micros: i64, shown: String, input: &str, r: Result<i64>)
    requires
        0 <= civil(micros as int / MICROSECONDS_PER_DAY as int).0 <= 9999,
        call_ensures(format_rfc3339, (micros,), shown),
        input@ == shown@,
        call_ensures(parse_rfc3339, (input,), r),
    ensures
        r == Ok::<i64, RewindError>(micros),
{
    parse_inverts_format(micros as int);
    assert(input.spec_bytes() == vstd::utf8::encode_utf8(input@));
}

/// The calendar is the one that everyone uses. A year has a leap day when it is
/// divisible by four, but of the full centuries only when by four hundred. The
/// days follow one another: the next day of a month, the first of the next month
/// after the last, and the first of January after the last of December. The
/// first of January of 1970 is day zero.
pub proof fn days_follow_one_another(
    year: i64,
    month: u32,
    day: u32,
    is_leap: bool,
    length: u32,
    here: i64,
    next: i64,
    turn: i64,
    epoch: i64,
)
    requires
        -25_000_000_000_000_000 <= year < 25_000_000_000_000_000,
        1 <= month <= 12,
        1 <= day <= length,
        call_ensures(is_leap_year, (year,), is_leap),
        call_ensures(days_in_month, (year, month), length),
        call_ensures(days_from_civil, (year, month, day), here),
        call_ensures(days_from_civil, (year, month, (day + 1) as u32), next),
        call_ensures(
            days_from_civil,
            (
                if month == 12 {
                    (year + 1) as i64
                } else {
                    year
                },
                if month == 12 {
                    1
                } else {
                    (month + 1) as u32
                },
                1,
            ),
            turn,
        ),
        call_ensures(days_from_civil, (1970, 1, 1), epoch),
    ensures
        is_leap == (year % 4 == 0 && (year % 100 != 0 || year % 400 == 0)),
        length == if month == 2 {
            if is_leap {
                29int
            } else {
                28
            }
        } else if month == 4 || month == 6 || month == 9 || month == 11 {
            30
        } else {
            31
        },
        next == here + 1,
        day == length ==> turn == here + 1,
        epoch == 0,
{
    months_table(year as int);
    year_length(year as int);
    if month == 12 {
        months_table(year + 1);
    }
    months_table(1970);
}

/// A day has one date, and the date leads back to it.
pub proof fn a_date_leads_back_to_its_day(days: i64, date: (i64, u32, u32), r: i64)
    requires
        days <= i64::MAX - 719_468,
        call_ensures(civil_from_days, (days,), date),
        -25_000_000_000_000_000 <= date.0 <= 25_000_000_000_000_000,
        call_ensures(days_from_civil, (date.0, date.1, date.2), r),
    ensures
        r == days,
        1 <= date.1 <= 12,
        1 <= date.2 <= 31,
{
}

}
