use launcher::time::{
    civil_from_days, compact_time, compact_time_at, now_secs, relative_time, relative_time_at, secs_shown,
};

const DAY: i64 = 86400;

#[test]
fn dates_of_days() {
    assert_eq!(civil_from_days(0), (1970, 1, 1));
    assert_eq!(civil_from_days(-1), (1969, 12, 31));
    assert_eq!(civil_from_days(11016), (2000, 2, 29));
    assert_eq!(civil_from_days(11017), (2000, 3, 1));
    assert_eq!(civil_from_days(20000), (2024, 10, 4));
    assert_eq!(civil_from_days(-719468), (0, 3, 1));
}

#[test]
fn days_in_sequence_have_dates_in_sequence() {
    let len = |y: i64, m: i64| match m {
        2 => if (y % 4 == 0 && y % 100 != 0) || y % 400 == 0 { 29 } else { 28 },
        4 | 6 | 9 | 11 => 30,
        _ => 31,
    };
    let (mut y, mut m, mut d) = (1600i64, 1i64, 1i64);
    let mut day = -135140i64;
    while y < 2401 {
        assert_eq!(civil_from_days(day), (y, m, d));
        day += 1;
        d += 1;
        if d > len(y, m) {
            d = 1;
            m += 1;
        }
        if m > 12 {
            m = 1;
            y += 1;
        }
    }
}

#[test]
fn relative_times() {
    let now = 10_000_000;
    assert_eq!(relative_time_at(now, now), "now");
    assert_eq!(relative_time_at(now, now + 5), "now");
    assert_eq!(relative_time_at(now, now - 59), "now");
    assert_eq!(relative_time_at(now, now - 60), "1m");
    assert_eq!(relative_time_at(now, now - 3599), "59m");
    assert_eq!(relative_time_at(now, now - 3600), "1h");
    assert_eq!(relative_time_at(now, now - DAY), "1d");
    assert_eq!(relative_time_at(now, now - 7 * DAY), "1w");
    assert_eq!(relative_time_at(now, now - 30 * DAY), "4w");
}

#[test]
fn compact_times() {
    // Friday, 4 October 2024.
    let now = 20000 * DAY + 3600;
    assert_eq!(compact_time_at(now, now + 100), "now");
    assert_eq!(compact_time_at(now, now - 30), "now");
    assert_eq!(compact_time_at(now, now - 300), "5m");
    assert_eq!(compact_time_at(now, now - 7200), "2h");
    assert_eq!(compact_time_at(now, now - DAY), "Thu");
    assert_eq!(compact_time_at(now, now - 4 * DAY), "Mon");
    assert_eq!(compact_time_at(now, now - 7 * DAY), "27 Sep");
    assert_eq!(compact_time_at(now, (20000 - 400) * DAY), "31 Aug 2023");
    assert_eq!(compact_time_at(0, -8 * DAY), "24 Dec 1969");
}

#[test]
fn the_clock_is_read() {
    assert!(now_secs() > 1_700_000_000);
    assert_eq!(relative_time(now_secs()), "now");
    assert_eq!(compact_time(now_secs()), "now");
    assert_eq!(relative_time(now_secs() - 7200), "2h");
    assert_eq!(compact_time(0), "1 Jan 1970");
}

#[test]
fn clock_shows_whole_seconds() {
    assert_eq!(secs_shown(None), 0);
    assert_eq!(secs_shown(Some(0)), 0);
    assert_eq!(secs_shown(Some(1_700_000_000)), 1_700_000_000);
    assert_eq!(secs_shown(Some(u64::MAX)), -1);
}
