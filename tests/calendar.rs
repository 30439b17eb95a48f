use kass::calendar::{
    add_months_naive_date, format_date_time, last_day_of_month, last_day_of_month_0, to_unix_seconds,
    Date, DateTime, DateTimeRange, Time,
};
use kass::error::ErrorKind;

fn date_time(y: i32, m: u32, d: u32, hh: u32, mm: u32, ss: u32) -> DateTime {
    DateTime {
        date: Date { year: y, month: m, day: d },
        time: Time { hour: hh, minute: mm, second: ss },
    }
}

fn collect(mut range: DateTimeRange) -> Vec<DateTime> {
    let mut out = Vec::new();
    while let Some(t) = range.next() {
        out.push(t);
    }
    out
}

#[test]
pub fn test_fixed_interval_range_weeks() {
    assert_eq!(
        vec![
            date_time(2019, 9, 1, 10, 32, 20),
            date_time(2019, 9, 15, 10, 32, 20),
            date_time(2019, 9, 29, 10, 32, 20),
            date_time(2019, 10, 13, 10, 32, 20),
        ],
        collect(
            DateTimeRange::parse_date_time_strs("2019-09-01T10:32:20", "2019-10-15T10:32:20", "2", "w")
                .unwrap()
        )
    )
}

#[test]
pub fn test_fixed_interval_range_days() {
    assert_eq!(
        vec![
            date_time(2019, 9, 1, 0, 0, 0),
            date_time(2019, 9, 2, 0, 0, 0),
            date_time(2019, 9, 3, 0, 0, 0),
            date_time(2019, 9, 4, 0, 0, 0),
        ],
        collect(DateTimeRange::parse_date_strs("2019-09-01", "2019-09-05", "1", "d").unwrap())
    )
}

#[test]
pub fn test_fixed_interval_range_hours() {
    assert_eq!(
        vec![
            date_time(2019, 9, 1, 10, 32, 20),
            date_time(2019, 9, 1, 16, 32, 20),
            date_time(2019, 9, 1, 22, 32, 20),
            date_time(2019, 9, 2, 4, 32, 20),
        ],
        collect(
            DateTimeRange::parse_date_time_strs("2019-09-01T10:32:20", "2019-09-02T10:31:20", "6", "H")
                .unwrap()
        )
    )
}

#[test]
pub fn test_fixed_interval_range_minutes() {
    assert_eq!(
        vec![
            date_time(2019, 9, 1, 10, 32, 20),
            date_time(2019, 9, 1, 10, 37, 20),
            date_time(2019, 9, 1, 10, 42, 20),
            date_time(2019, 9, 1, 10, 47, 20),
            date_time(2019, 9, 1, 10, 52, 20),
            date_time(2019, 9, 1, 10, 57, 20),
        ],
        collect(
            DateTimeRange::parse_date_time_strs("2019-09-01T10:32:20", "2019-09-01T11:00:10", "5", "M")
                .unwrap()
        )
    )
}

#[test]
pub fn test_fixed_interval_range_edge_cases() {
    assert_eq!(
        None,
        DateTimeRange::parse_date_time_strs("2019-09-01T10:32:20", "2019-09-01T10:32:20", "1", "H")
            .unwrap()
            .next()
    );

    assert_eq!(
        None,
        DateTimeRange::parse_date_time_strs("2019-09-01T10:32:20", "2019-09-01T10:30:20", "1", "H")
            .unwrap()
            .next()
    )
}

#[test]
pub fn test_monthly_interval_range() {
    assert_eq!(
        vec![
            date_time(2019, 9, 2, 10, 32, 20),
            date_time(2019, 10, 2, 10, 32, 20),
            date_time(2019, 11, 2, 10, 32, 20),
            date_time(2019, 12, 2, 10, 32, 20),
            date_time(2020, 1, 2, 10, 32, 20),
            date_time(2020, 2, 2, 10, 32, 20),
        ],
        collect(
            DateTimeRange::parse_date_time_strs("2019-09-02T10:32:20", "2020-02-03T09:00:10", "1", "m")
                .unwrap()
        )
    )
}

#[test]
fn monthly_steps_clamp_the_day_to_the_month() {
    assert_eq!(
        vec![
            date_time(2020, 1, 31, 0, 0, 0),
            date_time(2020, 2, 29, 0, 0, 0),
            date_time(2020, 3, 29, 0, 0, 0),
        ],
        collect(DateTimeRange::parse_date_strs("2020-01-31", "2020-04-01", "1", "m").unwrap())
    );
    assert_eq!(
        vec![date_time(2019, 1, 31, 0, 0, 0), date_time(2019, 3, 31, 0, 0, 0)],
        collect(DateTimeRange::parse_date_strs("2019-01-31", "2019-05-01", "2", "m").unwrap())
    );
}

#[test]
fn add_months_carries_into_the_year() {
    let d = Date { year: 2019, month: 11, day: 30 };
    assert_eq!(Some(Date { year: 2020, month: 2, day: 29 }), add_months_naive_date(d, 3));
    assert_eq!(Some(Date { year: 2021, month: 11, day: 30 }), add_months_naive_date(d, 24));
    assert_eq!(None, add_months_naive_date(Date { year: 9999, month: 12, day: 1 }, 1));
}

#[test]
fn last_days_of_months() {
    assert_eq!(29, last_day_of_month(2020, 2));
    assert_eq!(28, last_day_of_month(2019, 2));
    assert_eq!(28, last_day_of_month(1900, 2));
    assert_eq!(29, last_day_of_month(2000, 2));
    assert_eq!(31, last_day_of_month(2019, 12));
    assert_eq!(30, last_day_of_month_0(2019, 3));
}

#[test]
fn unix_seconds_of_date_times() {
    assert_eq!(Some(0), to_unix_seconds(&date_time(1970, 1, 1, 0, 0, 0)));
    assert_eq!(Some(1566383530), to_unix_seconds(&date_time(2019, 8, 21, 10, 32, 10)));
    assert_eq!(None, to_unix_seconds(&date_time(2019, 2, 29, 0, 0, 0)));
    assert_eq!(None, to_unix_seconds(&date_time(2019, 2, 28, 24, 0, 0)));
}

#[test]
fn formats_date_times() {
    let t = date_time(2019, 9, 1, 10, 32, 20);
    assert_eq!(Some("20190901".to_string()), format_date_time(&t, "%Y%m%d"));
    assert_eq!(Some("2019-09-01T10:32:20".to_string()), format_date_time(&t, "%Y-%m-%dT%H:%M:%S"));
    assert_eq!(None, format_date_time(&t, "%Q"));
}

#[test]
fn calendar_range_errors() {
    let unit = DateTimeRange::parse_date_strs("2019-09-01", "2019-09-05", "1", "x").unwrap_err();
    assert_eq!(ErrorKind::InvalidUnit, unit.kind);
    let date = DateTimeRange::parse_date_strs("2019-02-30", "2019-09-05", "1", "d").unwrap_err();
    assert_eq!(ErrorKind::InvalidDateTime, date.kind);
    let shape = DateTimeRange::parse_date_time_strs("2019-09-01 10:00:00", "2019-09-05T10:00:00", "1", "d")
        .unwrap_err();
    assert_eq!(ErrorKind::InvalidDateTime, shape.kind);
    let step = DateTimeRange::parse_date_strs("2019-09-01", "2019-09-05", "x", "d").unwrap_err();
    assert_eq!(ErrorKind::InvalidInt, step.kind);
    let zero = DateTimeRange::parse_date_strs("2019-09-01", "2019-09-05", "0", "d").unwrap_err();
    assert_eq!(ErrorKind::InvalidRange, zero.kind);
}
