use bogo_gpu::calendar::civil_from_days;
use bogo_gpu::history::{
    format_relative, format_relative_at, format_timestamp, now_nanos, now_unix, to_nanos,
    to_seconds,
};

#[test]
fn days_become_dates() {
    assert_eq!(civil_from_days(0), (1970, 1, 1));
    assert_eq!(civil_from_days(-1), (1969, 12, 31));
    assert_eq!(civil_from_days(59), (1970, 3, 1));
    assert_eq!(civil_from_days(11016), (2000, 2, 29));
    assert_eq!(civil_from_days(11017), (2000, 3, 1));
    assert_eq!(civil_from_days(19782), (2024, 2, 29));
    assert_eq!(civil_from_days(47540), (2100, 2, 28));
    assert_eq!(civil_from_days(47541), (2100, 3, 1));
    assert_eq!(civil_from_days(-719162), (1, 1, 1));
    assert_eq!(civil_from_days(-719163), (0, 12, 31));
}

#[test]
fn neighbouring_days_have_neighbouring_dates() {
    let mut last = civil_from_days(-1000);
    for day in -999..50_000i64 {
        let (y, m, d) = civil_from_days(day);
        let follows = (y, m, d) == (last.0, last.1, last.2 + 1)
            || (y, m, d) == (last.0, last.1 + 1, 1)
            || (y, m, d) == (last.0 + 1, 1, 1) && last.1 == 12 && last.2 == 31;
        assert!(follows);
        last = (y, m, d);
    }
}

#[test]
fn timestamps_are_written_out() {
    assert_eq!(format_timestamp(0), "1970-01-01 00:00:00 UTC");
    assert_eq!(format_timestamp(-1), "1969-12-31 23:59:59 UTC");
    assert_eq!(format_timestamp(951_782_400), "2000-02-29 00:00:00 UTC");
    assert_eq!(format_timestamp(1_700_000_000), "2023-11-14 22:13:20 UTC");
    assert_eq!(format_timestamp(253_402_300_800), "10000-01-01 00:00:00 UTC");
    assert_eq!(format_timestamp(-62_167_219_201), "-001-12-31 23:59:59 UTC");
    assert_eq!(format_timestamp(i64::MAX), "292277026596-12-04 15:30:07 UTC");
}

#[test]
fn later_times_sort_later() {
    let first: i64 = -62_167_219_200;
    let last: i64 = 253_402_300_799;
    assert_eq!(format_timestamp(first), "0000-01-01 00:00:00 UTC");
    assert_eq!(format_timestamp(last), "9999-12-31 23:59:59 UTC");
    let mut times: Vec<i64> = vec![first, -1, 0, 1, 59, 60, 3599, 3600, 86_399, 86_400, last];
    let step = (last - first) / 997;
    for k in 0..997i64 {
        times.push(first + k * step);
    }
    times.sort();
    times.dedup();
    for pair in times.windows(2) {
        let (a, b) = (format_timestamp(pair[0]), format_timestamp(pair[1]));
        assert_eq!((a.len(), b.len()), (23, 23));
        assert!(a < b);
    }
}

#[test]
fn times_are_relative_for_a_month() {
    let now: i64 = 1_700_000_000;
    assert_eq!(format_relative_at(now, now), "just now");
    assert_eq!(format_relative_at(now, now + 100), "just now");
    assert_eq!(format_relative_at(now, now - 4), "just now");
    assert_eq!(format_relative_at(now, now - 5), "5s ago");
    assert_eq!(format_relative_at(now, now - 59), "59s ago");
    assert_eq!(format_relative_at(now, now - 60), "1m ago");
    assert_eq!(format_relative_at(now, now - 3599), "59m ago");
    assert_eq!(format_relative_at(now, now - 3600), "1h ago");
    assert_eq!(format_relative_at(now, now - 86_399), "23h ago");
    assert_eq!(format_relative_at(now, now - 86_400), "1d ago");
    assert_eq!(format_relative_at(now, now - 86_400 * 30 + 1), "29d ago");
    assert_eq!(format_relative_at(now, now - 86_400 * 30), "2023-10-15 22:13:20 UTC");
    assert_eq!(format_relative_at(i64::MAX, i64::MIN + 1_000_000), format_timestamp(i64::MIN + 1_000_000));
}

#[test]
fn the_clock_is_read() {
    // the first of January 2020
    assert!(now_unix() > 1_577_836_800);
    assert!(now_nanos() > 1_577_836_800_000_000_000);
    assert_eq!(format_relative(now_unix()), "just now");
    assert_eq!(format_relative(0), "1970-01-01 00:00:00 UTC");
}

#[test]
fn readings_of_the_clock_are_converted() {
    assert_eq!(to_nanos(None), 0);
    assert_eq!(to_seconds(None), 0);
    assert_eq!(to_nanos(Some((3, 7))), 3_000_000_007);
    assert_eq!(to_seconds(Some((3, 7))), 3);
    assert_eq!(to_nanos(Some((18_446_744_073, 709_551_616))), 0);
    assert_eq!(to_seconds(Some((u64::MAX, 0))), -1);
}
