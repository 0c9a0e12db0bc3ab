//! Dates: from days and seconds since 1970 to year, month and day.
use vstd::prelude::*;

use crate::text::{dec, push_zero_filled, zero_filled};

verus! {

/// A leap year of the Gregorian calendar.
pub open spec fn is_leap(y: int) -> bool {
    y % 4 == 0 && (y % 100 != 0 || y % 400 == 0)
}

/// How many leap years there are among the years `1, .., y - 1`; counted downwards before the
/// first.
pub open spec fn leaps_before(y: int) -> int {
    (y - 1) / 4 - (y - 1) / 100 + (y - 1) / 400
}

/// The day on which a year begins, counted from the first day of 1970.
pub open spec fn year_start(y: int) -> int {
    365 * (y - 1970) + leaps_before(y) - 477
}

/// The days of a year before each month.
pub open spec fn month_start(y: int, m: int) -> int {
    let leap_day: int = if is_leap(y) {
        1
    } else {
        0
    };
    if m <= 1 {
        0
    } else if m == 2 {
        31
    } else if m == 3 {
        59 + leap_day
    } else if m == 4 {
        90 + leap_day
    } else if m == 5 {
        120 + leap_day
    } else if m == 6 {
        151 + leap_day
    } else if m == 7 {
        181 + leap_day
    } else if m == 8 {
        212 + leap_day
    } else if m == 9 {
        243 + leap_day
    } else if m == 10 {
        273 + leap_day
    } else if m == 11 {
        304 + leap_day
    } else if m == 12 {
        334 + leap_day
    } else {
        365 + leap_day
    }
}

/// The day with this date, counted from the first day of 1970.
pub open spec fn day_number(y: int, m: int, d: int) -> int {
    year_start(y) + month_start(y, m) + d - 1
}

/// There is such a day in the calendar.
pub open spec fn is_date(y: int, m: int, d: int) -> bool {
    1 <= m <= 12 && 1 <= d <= month_start(y, m + 1) - month_start(y, m)
}

/// A year is followed by the next after 365 days, or 366 where it is a leap year, and 1970 begins
/// on day zero.
pub proof fn years_follow_each_other(y: int)
    ensures
        year_start(1970) == 0,
        year_start(y + 1) == year_start(y) + if is_leap(y) {
            366int
        } else {
            365int
        },
        month_start(y, 13) == year_start(y + 1) - year_start(y),
{
}

/// Days before year `y` of a four-century era whose years begin in March.
spec fn march_start(y: int) -> int {
    365 * y + y / 4 - y / 100
}

/// The year of a day in an era.
proof fn lemma_year_of_era(doe: int, yoe: int)
    requires
        0 <= doe <= 146096,
        yoe == (doe - doe / 1460 + doe / 36524 - doe / 146096) / 365,
    ensures
        0 <= yoe <= 399,
        march_start(yoe) <= doe,
        doe <= march_start(yoe) + 365,
        doe == march_start(yoe) + 365 ==> is_leap(yoe + 1),
{
}

/// The month and day of a day in a year that begins in March.
proof fn lemma_month_of_year(doy: int, mp: int)
    requires
        0 <= doy <= 365,
        mp == (5 * doy + 2) / 153,
    ensures
        0 <= mp <= 11,
        (153 * mp + 2) / 5 <= doy,
        doy < (153 * (mp + 1) + 2) / 5 || mp == 11,
{
}

/// The first of March of a year in the first era.
proof fn lemma_first_march(yoe: int)
    requires
        0 <= yoe <= 399,
    ensures
        day_number(yoe, 3, 1) == march_start(yoe) - 719468,
{
    assert(yoe % 400 == 0 <==> yoe == 0);
    assert((yoe - 1) / 400 == if yoe == 0 {
        -1int
    } else {
        0int
    });
    assert((yoe - 1) / 4 == if yoe % 4 == 0 {
        yoe / 4 - 1
    } else {
        yoe / 4
    });
    assert((yoe - 1) / 100 == if yoe % 100 == 0 {
        yoe / 100 - 1
    } else {
        yoe / 100
    });
}

/// Four centuries take 146097 days.
proof fn lemma_eras(era: int, a: int, b: int)
    requires
        b == a + era * 400,
    ensures
        year_start(b) == year_start(a) + 146097 * era,
        is_leap(a) == is_leap(b),
{
    assert((b - 1) / 4 == 100 * era + (a - 1) / 4);
    assert((b - 1) / 100 == 4 * era + (a - 1) / 100);
    assert((b - 1) / 400 == era + (a - 1) / 400);
    lemma_same_leap(era, a, b);
}

/// The date of a day in a year that begins in March.
proof fn lemma_date(y: int, doy: int, mp: int, m: int, d: int, year: int)
    requires
        0 <= doy <= 365,
        doy == 365 ==> is_leap(y + 1),
        mp == (5 * doy + 2) / 153,
        m == if mp < 10 {
            mp + 3
        } else {
            mp - 9
        },
        d == doy - (153 * mp + 2) / 5 + 1,
        year == if m <= 2 {
            y + 1
        } else {
            y
        },
    ensures
        is_date(year, m, d),
        day_number(year, m, d) == day_number(y, 3, 1) + doy,
        1 <= d <= 31,
{
    lemma_month_of_year(doy, mp);
    years_follow_each_other(y);
}

/// No day from day zero on lies before 1970.
proof fn lemma_not_before_1970(y: int, m: int, d: int)
    requires
        is_date(y, m, d),
        day_number(y, m, d) >= 0,
    ensures
        y >= 1970,
{
    if y < 1970 {
        years_follow_each_other(y);
        assert(month_start(y, m + 1) <= month_start(y, 13));
        assert(year_start(y + 1) <= 0) by {
            assert(leaps_before(y + 1) <= 477);
        }
    }
}

/// The four-century era of a day, counted from the first of March of the year zero, and the day in
/// that era.
fn era_of(z: i64) -> (r: (i64, i64))
    requires
        z >= i64::MIN + 719468,
    ensures
        z == r.0 * 146097 + r.1,
        0 <= r.1 <= 146096,
        -70000000000000 <= r.0 <= 70000000000000,
{
    let era: i64 = if z >= 0 {
        z / 146097
    } else {
        -((146096 - z) / 146097)
    };
    (era, z - era * 146097)
}

/// The year of a day in an era.
fn year_of_era(doe: i64) -> (yoe: i64)
    requires
        0 <= doe <= 146096,
    ensures
        0 <= yoe <= 399,
        march_start(yoe as int) <= doe,
        doe <= march_start(yoe as int) + 365,
        doe == march_start(yoe as int) + 365 ==> is_leap(yoe + 1),
{
    let yoe: i64 = (doe - doe / 1460 + doe / 36524 - doe / 146096) / 365;
    proof {
        lemma_year_of_era(doe as int, yoe as int);
    }
    yoe
}

/// The month of a day in a year that begins in March, and the day in that month.
fn month_and_day(doy: i64, Ghost(y): Ghost<int>) -> (r: (u32, u32))
    requires
        0 <= doy <= 365,
        doy == 365 ==> is_leap(y + 1),
    ensures
        is_date(if r.0 <= 2 { y + 1 } else { y }, r.0 as int, r.1 as int),
        day_number(if r.0 <= 2 { y + 1 } else { y }, r.0 as int, r.1 as int) == day_number(y, 3, 1) + doy,
{
    let mp: i64 = (5 * doy + 2) / 153;
    proof {
        lemma_month_of_year(doy as int, mp as int);
    }
    let d: i64 = doy - (153 * mp + 2) / 5 + 1;
    let m: i64 = if mp < 10 {
        mp + 3
    } else {
        mp - 9
    };
    proof {
        let year = if m <= 2 {
            y + 1
        } else {
            y
        };
        lemma_date(y, doy as int, mp as int, m as int, d as int, year);
    }
    (m as u32, d as u32)
}

/// Days since the first day of 1970 as year, month and day. The days since the first of March of the
/// year zero must fit.
pub fn civil_from_days(days: i64) -> (r: (i64, u32, u32))
    requires
        days + 719468 <= i64::MAX,
    ensures
        is_date(r.0 as int, r.1 as int, r.2 as int),
        day_number(r.0 as int, r.1 as int, r.2 as int) == days,
        days >= 0 ==> r.0 >= 1970,
{
    let z: i64 = days + 719468;
    let (era, doe): (i64, i64) = era_of(z);
    let yoe: i64 = year_of_era(doe);
    let y: i64 = yoe + era * 400;
    let doy: i64 = doe - (365 * yoe + yoe / 4 - yoe / 100);
    proof {
        lemma_first_march(yoe as int);
        lemma_eras(era as int, yoe as int, y as int);
        lemma_same_leap(era as int, yoe + 1, y + 1);
    }
    let (m, d): (u32, u32) = month_and_day(doy, Ghost(y as int));
    let year: i64 = if m <= 2 {
        y + 1
    } else {
        y
    };
    proof {
        if days >= 0 {
            lemma_not_before_1970(year as int, m as int, d as int);
        }
    }
    (year, m, d)
}

/// Years four centuries apart are alike.
proof fn lemma_same_leap(era: int, a: int, b: int)
    requires
        b == a + era * 400,
    ensures
        is_leap(a) == is_leap(b),
{
    assert(b % 4 == a % 4);
    assert(b % 100 == a % 100);
    assert(b % 400 == a % 400);
}

/// Later years begin later.
proof fn lemma_years_ordered(a: int, b: int)
    requires
        a <= b,
    ensures
        year_start(a) <= year_start(b),
    decreases b - a,
{
    if a < b {
        lemma_years_ordered(a, b - 1);
        years_follow_each_other(b - 1);
    }
}

/// No two dates are the same day.
pub proof fn a_day_has_one_date(y1: int, m1: int, d1: int, y2: int, m2: int, d2: int)
    requires
        is_date(y1, m1, d1),
        is_date(y2, m2, d2),
        day_number(y1, m1, d1) == day_number(y2, m2, d2),
    ensures
        y1 == y2 && m1 == m2 && d1 == d2,
{
    years_follow_each_other(y1);
    years_follow_each_other(y2);
    assert(month_start(y1, m1 + 1) <= month_start(y1, 13));
    assert(month_start(y2, m2 + 1) <= month_start(y2, 13));
    if y1 < y2 {
        lemma_years_ordered(y1 + 1, y2);
    } else if y2 < y1 {
        lemma_years_ordered(y2 + 1, y1);
    }
}

/// The date of a day.
pub open spec fn date_of(days: int) -> (int, int, int) {
    choose|t: (int, int, int)| #[trigger] is_date(t.0, t.1, t.2) && day_number(t.0, t.1, t.2) == days
}

/// A time, in seconds since 1970, as `YYYY-mm-DD_HHMM`.
pub open spec fn timestamp_text(secs: int) -> Seq<char> {
    let (y, m, d) = date_of(secs / 86400);
    zero_filled(dec(y as nat), 4) + "-"@ + zero_filled(dec(m as nat), 2) + "-"@ + zero_filled(
        dec(d as nat),
        2,
    ) + "_"@ + zero_filled(dec(((secs % 86400) / 3600) as nat), 2) + zero_filled(
        dec(((secs % 3600) / 60) as nat),
        2,
    )
}

/// Format a UTC time, in seconds since 1970, as `YYYY-mm-DD_HHMM`.
pub fn timestamp_utc(secs: u64) -> (r: String)
    ensures
        r@ == timestamp_text(secs as int),
{
    let h: u64 = (secs % 86400) / 3600;
    let mi: u64 = (secs % 3600) / 60;
    let days: i64 = (secs / 86400) as i64;
    let (y, m, d): (i64, u32, u32) = civil_from_days(days);
    proof {
        let t = date_of(days as int);
        assert(is_date(y as int, m as int, d as int));
        let w = (y as int, m as int, d as int);
        assert(is_date(w.0, w.1, w.2) && day_number(w.0, w.1, w.2) == days);
        a_day_has_one_date(t.0, t.1, t.2, y as int, m as int, d as int);
    }
    let mut s = String::new();
    push_zero_filled(&mut s, y as u64, 10, 4);
    s.append("-");
    push_zero_filled(&mut s, m as u64, 10, 2);
    s.append("-");
    push_zero_filled(&mut s, d as u64, 10, 2);
    s.append("_");
    push_zero_filled(&mut s, h, 10, 2);
    push_zero_filled(&mut s, mi, 10, 2);
    assert(s@ =~= timestamp_text(secs as int));
    s
}

/// The months have the lengths that they have, and February has one day more in leap years: those that
/// 4 divides, but of the centuries only those that 400 divides.
pub proof fn the_months_have_their_lengths(y: int, m: int)
    requires
        1 <= m <= 12,
    ensures
        m == 4 || m == 6 || m == 9 || m == 11 ==> month_start(y, m + 1) - month_start(y, m) == 30,
        m == 2 && y % 4 == 0 && (y % 100 != 0 || y % 400 == 0) ==> month_start(y, m + 1) - month_start(y, m) == 29,
        m == 2 && !(y % 4 == 0 && (y % 100 != 0 || y % 400 == 0)) ==> month_start(y, m + 1) - month_start(y, m) == 28,
        m != 2 && m != 4 && m != 6 && m != 9 && m != 11 ==> month_start(y, m + 1) - month_start(y, m) == 31,
        month_start(y, 1) == 0,
{
}

/// A time stamp shows the date, the hour and the minute of its time.
pub proof fn a_timestamp_shows_its_time(y: int, m: int, d: int, h: int, mi: int, s: int)
    requires
        is_date(y, m, d),
        0 <= h < 24,
        0 <= mi < 60,
        0 <= s < 60,
    ensures
        timestamp_text(86400 * day_number(y, m, d) + 3600 * h + 60 * mi + s) == zero_filled(dec(y as nat), 4) + "-"@
            + zero_filled(dec(m as nat), 2) + "-"@ + zero_filled(dec(d as nat), 2) + "_"@ + zero_filled(
            dec(h as nat),
            2,
        ) + zero_filled(dec(mi as nat), 2),
{
    lemma_time_parts(day_number(y, m, d), h, mi, s);
    lemma_date_of(y, m, d);
}

proof fn lemma_time_parts(n: int, h: int, mi: int, s: int)
    requires
        0 <= h < 24,
        0 <= mi < 60,
        0 <= s < 60,
    ensures
        (86400 * n + 3600 * h + 60 * mi + s) / 86400 == n,
        ((86400 * n + 3600 * h + 60 * mi + s) % 86400) / 3600 == h,
        ((86400 * n + 3600 * h + 60 * mi + s) % 3600) / 60 == mi,
{
    let t = 86400 * n + 3600 * h + 60 * mi + s;
    let x = 3600 * h + 60 * mi + s;
    assert(t / 86400 == n && t % 86400 == x);
    assert(x / 3600 == h);
    assert(t == 3600 * (24 * n + h) + (60 * mi + s));
    assert(t % 3600 == 60 * mi + s);
    assert((60 * mi + s) / 60 == mi);
}

proof fn lemma_date_of(y: int, m: int, d: int)
    requires
        is_date(y, m, d),
    ensures
        date_of(day_number(y, m, d)) == (y, m, d),
{
    let n = day_number(y, m, d);
    let w = (y, m, d);
    assert(is_date(w.0, w.1, w.2) && day_number(w.0, w.1, w.2) == n);
    let (a, b, c) = date_of(n);
    a_day_has_one_date(a, b, c, y, m, d);
}

} // verus!
