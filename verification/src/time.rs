//! Times for people: how long ago, which weekday, which date.

use crate::text::{concat, decimal, signed_decimal, signed_decimal_string};
use std::time::{Duration, SystemTime};
use vstd::prelude::*;

verus! {

/// Whether a year of the proleptic Gregorian calendar has a leap day.
pub open spec fn leap(y: int) -> bool {
    y % 4 == 0 && (y % 100 != 0 || y % 400 == 0)
}

/// Number of days of a month.
pub open spec fn month_len(y: int, m: int) -> int {
    if m == 2 {
        if leap(y) {
            29
        } else {
            28
        }
    } else if m == 4 || m == 6 || m == 9 || m == 11 {
        30
    } else {
        31
    }
}

/// Number of days of a year before a month.
pub open spec fn month_start(y: int, m: int) -> int
    decreases m,
{
    if m <= 1 {
        0
    } else {
        month_start(y, m - 1) + month_len(y, m - 1)
    }
}

/// Number of days from 1 January 1970 to 1 January of a year. Up to the end
/// of 1969 there are 477 leap days.
#[verifier::opaque]
pub open spec fn year_start(y: int) -> int {
    365 * (y - 1970) + (y - 1) / 4 - (y - 1) / 100 + (y - 1) / 400 - 477
}

/// Whether a year, month and day are a date.
pub open spec fn is_date(y: int, m: int, d: int) -> bool {
    1 <= m <= 12 && 1 <= d <= month_len(y, m)
}

/// Number of days from 1 January 1970 to a date.
pub open spec fn day_number(y: int, m: int, d: int) -> int {
    year_start(y) + month_start(y, m) + d - 1
}

/// A year has 365 days, one more with a leap day.
pub proof fn year_has_its_days(y: int)
    ensures
        year_start(y + 1) == year_start(y) + 365 + (if leap(y) {
            1int
        } else {
            0int
        }),
        month_start(y, 13) == 365 + (if leap(y) {
            1int
        } else {
            0int
        }),
{
    month_starts(y);
    quarters(y);
    hundreds(y);
    assert(year_start(y + 1) - year_start(y) == 365 + y / 4 - (y - 1) / 4 - y / 100 + (y - 1) / 100
        + y / 400 - (y - 1) / 400) by {
        reveal(year_start);
    }
}

proof fn quarters(y: int)
    ensures
        y / 4 - (y - 1) / 4 == (if y % 4 == 0 {
            1int
        } else {
            0int
        }),
        y % 100 == 0 ==> y % 4 == 0,
{
}

proof fn hundreds(y: int)
    ensures
        y / 100 - (y - 1) / 100 == (if y % 100 == 0 {
            1int
        } else {
            0int
        }),
        y / 400 - (y - 1) / 400 == (if y % 400 == 0 {
            1int
        } else {
            0int
        }),
        y % 400 == 0 ==> y % 100 == 0,
{
}

proof fn month_starts(y: int)
    ensures
        ({
            let l = if leap(y) {
                1int
            } else {
                0int
            };
            &&& month_start(y, 1) == 0
            &&& month_start(y, 2) == 31
            &&& month_start(y, 3) == 59 + l
            &&& month_start(y, 4) == 90 + l
            &&& month_start(y, 5) == 120 + l
            &&& month_start(y, 6) == 151 + l
            &&& month_start(y, 7) == 181 + l
            &&& month_start(y, 8) == 212 + l
            &&& month_start(y, 9) == 243 + l
            &&& month_start(y, 10) == 273 + l
            &&& month_start(y, 11) == 304 + l
            &&& month_start(y, 12) == 334 + l
            &&& month_start(y, 13) == 365 + l
        }),
{
    reveal_with_fuel(month_start, 14);
}

/// The number of days before a year that begins in March, within an era of
/// 400 such years.
spec fn march_start(n: int) -> int {
    365 * n + n / 4 - n / 100
}

#[verifier::spinoff_prover]
#[verifier::rlimit(60)]
proof fn year_of_era(doe: int)
    requires
        0 <= doe <= 146096,
    ensures
        ({
            let yoe = (doe - doe / 1460 + doe / 36524 - doe / 146096) / 365;
            let doy = doe - march_start(yoe);
            &&& 0 <= yoe <= 399
            &&& 0 <= doy <= 365
            &&& doy == 365 ==> leap(yoe + 1)
        }),
{
}

/// Converts a count of days since 1 January 1970 into a civil (year, month,
/// day) date of the proleptic Gregorian calendar.
pub fn civil_from_days(z: i64) -> (r: (i64, i64, i64))
    requires
        z + 719_468 <= i64::MAX,
    ensures
        is_date(r.0 as int, r.1 as int, r.2 as int),
        day_number(r.0 as int, r.1 as int, r.2 as int) == z,
{
    let z1: i64 = z + 719_468;
    let era: i64 = (if z1 >= 0 {
        z1
    } else {
        z1 - 146_096
    }) / 146_097;
    let doe: i64 = z1 - era * 146_097;
    assert(0 <= doe <= 146_096);
    proof {
        year_of_era(doe as int);
    }
    let yoe: i64 = (doe - doe / 1460 + doe / 36524 - doe / 146_096) / 365;
    let y: i64 = yoe + era * 400;
    let doy: i64 = doe - (365 * yoe + yoe / 4 - yoe / 100);
    let mp: i64 = (5 * doy + 2) / 153;
    let d: i64 = doy - (153 * mp + 2) / 5 + 1;
    let m: i64 = if mp < 10 {
        mp + 3
    } else {
        mp - 9
    };
    let year: i64 = if m <= 2 {
        y + 1
    } else {
        y
    };
    proof {
        date_in_march_year(era as int, yoe as int, doy as int);
    }
    (year, m, d)
}

/// The date of the day `doy` after 1 March of the year `yoe` of an era.
proof fn date_in_march_year(era: int, yoe: int, doy: int)
    requires
        0 <= yoe <= 399,
        0 <= doy <= 365,
        doy == 365 ==> leap(yoe + 1),
    ensures
        ({
            let mp = (5 * doy + 2) / 153;
            let d = doy - (153 * mp + 2) / 5 + 1;
            let m = if mp < 10 {
                mp + 3
            } else {
                mp - 9
            };
            let y = yoe + era * 400 + (if m <= 2 {
                1int
            } else {
                0int
            });
            &&& is_date(y, m, d)
            &&& day_number(y, m, d) == era * 146_097 + march_start(yoe) + doy - 719_468
        }),
{
    let mp = (5 * doy + 2) / 153;
    let m = if mp < 10 {
        mp + 3
    } else {
        mp - 9
    };
    let y = yoe + era * 400 + (if m <= 2 {
        1int
    } else {
        0int
    });
    month_of_day(doy);
    month_starts(y);
    year_after(era, yoe);
    year_has_its_days(yoe + era * 400);
    leap_years_recur(era, yoe + 1);
}

proof fn leap_years_recur(era: int, n: int)
    ensures
        leap(n + era * 400) == leap(n),
{
    assert((n + era * 400) % 4 == n % 4);
    assert((n + era * 400) % 100 == n % 100);
    assert((n + era * 400) % 400 == n % 400);
}

/// The first day of the year that begins within the year `yoe` of an era.
proof fn year_after(era: int, yoe: int)
    requires
        0 <= yoe <= 399,
    ensures
        year_start(yoe + era * 400 + 1) == era * 146_097 + march_start(yoe) + 306 - 719_468,
{
    reveal(year_start);
    assert((yoe + era * 400) / 4 == yoe / 4 + era * 100);
    assert((yoe + era * 400) / 100 == yoe / 100 + era * 4);
    assert((yoe + era * 400) / 400 == era);
}

/// The months of a year that begins in March, counted from zero.
proof fn month_of_day(doy: int)
    requires
        0 <= doy <= 365,
    ensures
        ({
            let mp = (5 * doy + 2) / 153;
            let start = (153 * mp + 2) / 5;
            &&& 0 <= mp <= 11
            &&& start == (if mp == 0 {
                0int
            } else if mp == 1 {
                31
            } else if mp == 2 {
                61
            } else if mp == 3 {
                92
            } else if mp == 4 {
                122
            } else if mp == 5 {
                153
            } else if mp == 6 {
                184
            } else if mp == 7 {
                214
            } else if mp == 8 {
                245
            } else if mp == 9 {
                275
            } else if mp == 10 {
                306
            } else {
                337
            })
            &&& start <= doy
            &&& mp == 0 ==> doy < 31
            &&& mp == 1 ==> doy < 61
            &&& mp == 2 ==> doy < 92
            &&& mp == 3 ==> doy < 122
            &&& mp == 4 ==> doy < 153
            &&& mp == 5 ==> doy < 184
            &&& mp == 6 ==> doy < 214
            &&& mp == 7 ==> doy < 245
            &&& mp == 8 ==> doy < 275
            &&& mp == 9 ==> doy < 306
            &&& mp == 10 ==> doy < 337
        }),
{
}

proof fn years_ascend(a: int, b: int)
    requires
        a <= b,
    ensures
        year_start(a) + 365 * (b - a) <= year_start(b),
    decreases b - a,
{
    if a < b {
        year_has_its_days(a);
        years_ascend(a + 1, b);
    }
}

proof fn months_ascend(y: int, a: int, b: int)
    requires
        1 <= a < b <= 13,
    ensures
        month_start(y, a) + month_len(y, a) <= month_start(y, b),
    decreases b - a,
{
    if a + 1 < b {
        months_ascend(y, a, b - 1);
    }
}

proof fn earlier_date(y: int, m: int, d: int, v: int, n: int, e: int)
    requires
        is_date(y, m, d),
        is_date(v, n, e),
        y < v || (y == v && m < n) || (y == v && m == n && d < e),
    ensures
        day_number(y, m, d) < day_number(v, n, e),
{
    if y < v {
        year_has_its_days(y);
        years_ascend(y + 1, v);
        months_ascend(y, m, 13);
        if n > 1 {
            months_ascend(v, 1, n);
        }
    } else if m < n {
        months_ascend(y, m, n);
    }
}

/// Two dates with the same number of days are the same, and later dates have
/// higher numbers.
pub proof fn dates_are_unique(y: int, m: int, d: int, v: int, n: int, e: int)
    requires
        is_date(y, m, d),
        is_date(v, n, e),
        day_number(y, m, d) == day_number(v, n, e),
    ensures
        y == v,
        m == n,
        d == e,
{
    if y != v || m != n || d != e {
        if y < v || (y == v && m < n) || (y == v && m == n && d < e) {
            earlier_date(y, m, d, v, n, e);
        } else {
            earlier_date(v, n, e, y, m, d);
        }
    }
}

/// The date of a day.
pub open spec fn civil(day: int) -> (int, int, int) {
    choose|t: (int, int, int)| #[trigger] is_date(t.0, t.1, t.2) && day_number(t.0, t.1, t.2) == day
}

proof fn civil_is(day: int, y: int, m: int, d: int)
    requires
        is_date(y, m, d),
        day_number(y, m, d) == day,
    ensures
        civil(day) == (y, m, d),
{
    let t = (y, m, d);
    assert(is_date(t.0, t.1, t.2) && day_number(t.0, t.1, t.2) == day);
    let c = civil(day);
    dates_are_unique(y, m, d, c.0, c.1, c.2);
}

/// The short name of the weekday of a day; 1 January 1970 was a Thursday.
pub open spec fn weekday(day: int) -> Seq<char> {
    let n = (day + 3) % 7;
    if n == 0 {
        "Mon"@
    } else if n == 1 {
        "Tue"@
    } else if n == 2 {
        "Wed"@
    } else if n == 3 {
        "Thu"@
    } else if n == 4 {
        "Fri"@
    } else if n == 5 {
        "Sat"@
    } else {
        "Sun"@
    }
}

/// The short name of a month.
pub open spec fn month_name(m: int) -> Seq<char> {
    if m == 1 {
        "Jan"@
    } else if m == 2 {
        "Feb"@
    } else if m == 3 {
        "Mar"@
    } else if m == 4 {
        "Apr"@
    } else if m == 5 {
        "May"@
    } else if m == 6 {
        "Jun"@
    } else if m == 7 {
        "Jul"@
    } else if m == 8 {
        "Aug"@
    } else if m == 9 {
        "Sep"@
    } else if m == 10 {
        "Oct"@
    } else if m == 11 {
        "Nov"@
    } else {
        "Dec"@
    }
}

fn weekday_name(n: i64) -> (r: String)
    requires
        0 <= n < 7,
    ensures
        forall|day: int| (day + 3) % 7 == n ==> r@ == #[trigger] weekday(day),
{
    (if n == 0 {
        "Mon"
    } else if n == 1 {
        "Tue"
    } else if n == 2 {
        "Wed"
    } else if n == 3 {
        "Thu"
    } else if n == 4 {
        "Fri"
    } else if n == 5 {
        "Sat"
    } else {
        "Sun"
    }).to_owned()
}

fn short_month(m: i64) -> (r: String)
    ensures
        r@ == month_name(m as int),
{
    (if m == 1 {
        "Jan"
    } else if m == 2 {
        "Feb"
    } else if m == 3 {
        "Mar"
    } else if m == 4 {
        "Apr"
    } else if m == 5 {
        "May"
    } else if m == 6 {
        "Jun"
    } else if m == 7 {
        "Jul"
    } else if m == 8 {
        "Aug"
    } else if m == 9 {
        "Sep"
    } else if m == 10 {
        "Oct"
    } else if m == 11 {
        "Nov"
    } else {
        "Dec"
    }).to_owned()
}

/// A number of seconds ago in words: in minutes, hours, days or weeks.
pub open spec fn ago(diff: int) -> Seq<char> {
    if diff < 60 {
        "now"@
    } else if diff < 3600 {
        signed_decimal(diff / 60) + "m"@
    } else if diff < 86400 {
        signed_decimal(diff / 3600) + "h"@
    } else if diff < 604800 {
        signed_decimal(diff / 86400) + "d"@
    } else {
        signed_decimal(diff / 604800) + "w"@
    }
}

/// A date in words, with the year where it is before the current one.
pub open spec fn date_text(day: int, today: int) -> Seq<char> {
    let (y, m, d) = civil(day);
    let short = signed_decimal(d) + " "@ + month_name(m);
    if y < civil(today).0 {
        short + " "@ + signed_decimal(y)
    } else {
        short
    }
}

/// A time in few letters: minutes or hours ago, the weekday within a week,
/// else the date.
pub open spec fn compact(now: int, unix: int) -> Seq<char> {
    let diff = now - unix;
    if diff < 86400 {
        ago(diff)
    } else if diff < 604800 {
        weekday(unix / 86400)
    } else {
        date_text(unix / 86400, now / 86400)
    }
}

fn count_text(n: i128, unit: &str) -> (r: String)
    requires
        n > i128::MIN,
    ensures
        r@ == signed_decimal(n as int) + unit@,
{
    let digits = signed_decimal_string(n);
    concat(digits.as_str(), unit)
}

/// How long ago a time was, as of `now`.
pub fn relative_time_at(now: i64, unix_secs: i64) -> (r: String)
    ensures
        r@ == ago(now - unix_secs),
{
    let diff: i128 = now as i128 - unix_secs as i128;
    if diff < 60 {
        "now".to_owned()
    } else if diff < 3600 {
        count_text(diff / 60, "m")
    } else if diff < 86400 {
        count_text(diff / 3600, "h")
    } else if diff < 604800 {
        count_text(diff / 86400, "d")
    } else {
        count_text(diff / 604800, "w")
    }
}

fn day_of(secs: i64) -> (r: i64)
    ensures
        r == secs as int / 86400,
{
    if secs >= 0 {
        secs / 86400
    } else {
        let q: i64 = secs / 86400;
        if q * 86400 == secs {
            q
        } else {
            q - 1
        }
    }
}

/// A compact timestamp as of `now`.
pub fn compact_time_at(now: i64, unix_secs: i64) -> (r: String)
    ensures
        r@ == compact(now as int, unix_secs as int),
{
    let diff: i128 = now as i128 - unix_secs as i128;
    if diff < 86400 {
        return relative_time_at(now, unix_secs);
    }
    let day: i64 = day_of(unix_secs);
    if diff < 604800 {
        let n: i64 = (day + 3) % 7;
        let k: i64 = if n < 0 {
            n + 7
        } else {
            n
        };
        assert(k == (day as int + 3) % 7);
        return weekday_name(k);
    }
    let (y, m, d) = civil_from_days(day);
    let today: i64 = day_of(now);
    let (cur_y, cm, cd) = civil_from_days(today);
    proof {
        civil_is(day as int, y as int, m as int, d as int);
        civil_is(today as int, cur_y as int, cm as int, cd as int);
    }
    let dd = signed_decimal_string(d as i128);
    let spaced = concat(dd.as_str(), " ");
    let name = short_month(m);
    let short = concat(spaced.as_str(), name.as_str());
    if y < cur_y {
        let yy = signed_decimal_string(y as i128);
        let wide = concat(short.as_str(), " ");
        concat(wide.as_str(), yy.as_str())
    } else {
        short
    }
}

/// A point in time on the system's clock.
#[verifier::external_type_specification]
#[verifier::external_body]
pub struct ExSystemTime(SystemTime);

/// Calls `SystemTime::now`. Nothing is said of what the clock shows.
#[verifier::external_body]
fn read_clock() -> (r: SystemTime) {
    SystemTime::now()
}

/// Calls `SystemTime::duration_since` with the start of 1970. Nothing is said of
/// the duration; there is none where the clock is before that.
#[verifier::external_body]
fn since_epoch(t: SystemTime) -> (r: Option<Duration>) {
    t.duration_since(SystemTime::UNIX_EPOCH).ok()
}

/// Calls `Duration::as_secs`. Nothing is said of the whole seconds of the
/// duration, which comes from the clock.
#[verifier::external_body]
fn whole_secs(d: Duration) -> (r: u64) {
    d.as_secs()
}

/// The system's time in seconds since the start of 1970, or zero where the
/// clock is before that.
pub fn now_secs() -> (r: i64) {
    match since_epoch(read_clock()) {
        Some(d) => secs_shown(Some(whole_secs(d))),
        None => secs_shown(None),
    }
}

/// The time in seconds that a clock shows which has run for the given whole
/// seconds since the start of 1970; zero for one that is before that.
pub fn secs_shown(elapsed: Option<u64>) -> (r: i64)
    ensures
        r == (match elapsed {
            Some(s) => s as i64,
            None => 0,
        }),
{
    match elapsed {
        Some(s) => s as i64,
        None => 0,
    }
}

/// Verbose relative time, as of the system's clock.
pub fn relative_time(unix_secs: i64) -> (r: String)
    ensures
        exists|now: i64| r@ == #[trigger] ago(now - unix_secs),
{
    let now: i64 = now_secs();
    relative_time_at(now, unix_secs)
}

/// Compact timestamp, as of the system's clock.
pub fn compact_time(unix_secs: i64) -> (r: String)
    ensures
        exists|now: i64| r@ == #[trigger] compact(now as int, unix_secs as int),
{
    let now: i64 = now_secs();
    compact_time_at(now, unix_secs)
}

/// A time is told in the largest unit that it reaches, rounded down: minutes,
/// hours, days or weeks; below a minute it is now.
pub proof fn units_are_rounded_down(diff: int, n: nat)
    ensures
        diff < 60 ==> ago(diff) == "now"@,
        60 <= diff < 3600 && n * 60 <= diff < (n + 1) * 60 ==> ago(diff) == decimal(n) + "m"@,
        3600 <= diff < 86400 && n * 3600 <= diff < (n + 1) * 3600 ==> ago(diff) == decimal(n)
            + "h"@,
        86400 <= diff < 604800 && n * 86400 <= diff < (n + 1) * 86400 ==> ago(diff) == decimal(n)
            + "d"@,
        604800 <= diff && n * 604800 <= diff < (n + 1) * 604800 ==> ago(diff) == decimal(n) + "w"@,
{
}

/// The first day of 1970 was a Thursday, and the days of the week follow each
/// other.
pub proof fn weekdays_follow(week: int)
    ensures
        weekday(7 * week) == "Thu"@,
        weekday(7 * week + 1) == "Fri"@,
        weekday(7 * week + 2) == "Sat"@,
        weekday(7 * week + 3) == "Sun"@,
        weekday(7 * week + 4) == "Mon"@,
        weekday(7 * week + 5) == "Tue"@,
        weekday(7 * week + 6) == "Wed"@,
{
}

/// The days of a month follow each other, the first of a month follows the last
/// of the one before, and the first of a year the last of the one before. The
/// count begins in 1970.
pub proof fn days_follow(y: int, m: int, d: int)
    ensures
        day_number(y, m, d + 1) == day_number(y, m, d) + 1,
        1 <= m ==> day_number(y, m + 1, 1) == day_number(y, m, month_len(y, m)) + 1,
        day_number(y + 1, 1, 1) == day_number(y, 12, 31) + 1,
        day_number(1970, 1, 1) == 0,
{
    month_starts(y);
    month_starts(y + 1);
    year_has_its_days(y);
    assert(year_start(1970) == 0) by {
        reveal(year_start);
    }
    month_starts(1970);
}

/// A time within a day is told by how long ago it was, within a week by its
/// weekday, and any other by its day and month; the year stands behind these
/// where it is before the current one.
pub proof fn older_times_are_dates(
    now: int,
    unix: int,
    date: (int, int, int),
    today: (int, int, int),
)
    requires
        is_date(date.0, date.1, date.2),
        day_number(date.0, date.1, date.2) == unix / 86400,
        is_date(today.0, today.1, today.2),
        day_number(today.0, today.1, today.2) == now / 86400,
    ensures
        now - unix < 86400 ==> compact(now, unix) == ago(now - unix),
        86400 <= now - unix < 604800 ==> compact(now, unix) == weekday(unix / 86400),
        now - unix >= 604800 && date.0 >= today.0 ==> compact(now, unix) == decimal(date.2 as nat)
            + " "@ + month_name(date.1),
        now - unix >= 604800 && 0 <= date.0 < today.0 ==> compact(now, unix) == decimal(
            date.2 as nat,
        ) + " "@ + month_name(date.1) + " "@ + decimal(date.0 as nat),
{
    civil_is(unix / 86400, date.0, date.1, date.2);
    civil_is(now / 86400, today.0, today.1, today.2);
}

/// Months are named by their first three letters.
pub proof fn months_have_their_names(m: int)
    ensures
        m == 1 ==> month_name(m) == "Jan"@,
        m == 2 ==> month_name(m) == "Feb"@,
        m == 3 ==> month_name(m) == "Mar"@,
        m == 4 ==> month_name(m) == "Apr"@,
        m == 5 ==> month_name(m) == "May"@,
        m == 6 ==> month_name(m) == "Jun"@,
        m == 7 ==> month_name(m) == "Jul"@,
        m == 8 ==> month_name(m) == "Aug"@,
        m == 9 ==> month_name(m) == "Sep"@,
        m == 10 ==> month_name(m) == "Oct"@,
        m == 11 ==> month_name(m) == "Nov"@,
        m == 12 ==> month_name(m) == "Dec"@,
{
}

} // verus!
