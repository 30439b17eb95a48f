use std::fmt::Write;
use vstd::prelude::*;

use crate::error::{AppError, AppResult, ErrorKind};
use crate::steps::stepped;
use crate::text::{all_digits, digits_at, digits_value, number_within, parse_number};

verus! {

/// Largest year the date model holds: years are written with four digits.
pub const MAX_YEAR: i32 = 9999;

/// A calendar date in the proleptic Gregorian calendar.
#[derive(Clone, Copy, Debug, PartialEq, Eq, Structural)]
pub struct Date {
    pub year: i32,
    pub month: u32,
    pub day: u32,
}

/// A time of day with whole seconds.
#[derive(Clone, Copy, Debug, PartialEq, Eq, Structural)]
pub struct Time {
    pub hour: u32,
    pub minute: u32,
    pub second: u32,
}

/// A date with a time of day, without time zone.
#[derive(Clone, Copy, Debug, PartialEq, Eq, Structural)]
pub struct DateTime {
    pub date: Date,
    pub time: Time,
}

pub open spec fn is_leap_year(y: int) -> bool {
    (y % 4 == 0 && y % 100 != 0) || y % 400 == 0
}

pub open spec fn days_in_month(y: int, m: int) -> int {
    if m == 2 {
        if is_leap_year(y) { 29 } else { 28 }
    } else if m == 4 || m == 6 || m == 9 || m == 11 {
        30
    } else {
        31
    }
}

pub open spec fn valid_date(d: Date) -> bool {
    0 <= d.year <= MAX_YEAR && 1 <= d.month <= 12 && 1 <= d.day <= days_in_month(
        d.year as int,
        d.month as int,
    )
}

pub open spec fn valid_time(t: Time) -> bool {
    t.hour < 24 && t.minute < 60 && t.second < 60
}

pub open spec fn valid_date_time(t: DateTime) -> bool {
    valid_date(t.date) && valid_time(t.time)
}

/// Days from 0000-01-01 to the first day of year `y` (for `y >= 0`).
pub open spec fn days_before_year(y: int) -> int {
    365 * y + (y + 3) / 4 - (y + 99) / 100 + (y + 399) / 400
}

pub open spec fn days_before_month(y: int, m: int) -> int
    decreases m,
{
    if m <= 1 {
        0
    } else {
        days_before_month(y, m - 1) + days_in_month(y, m - 1)
    }
}

/// Days from 0000-01-01 to `d`.
pub open spec fn day_number(d: Date) -> int {
    days_before_year(d.year as int) + days_before_month(d.year as int, d.month as int) + d.day - 1
}

pub open spec fn seconds_of_day(t: Time) -> int {
    t.hour * 3600 + t.minute * 60 + t.second
}

/// Days from 0000-01-01 to 1970-01-01.
pub open spec fn unix_epoch_day() -> int {
    719528
}

/// Seconds since 1970-01-01T00:00:00 of `t`.
pub open spec fn unix_seconds(t: DateTime) -> int {
    (day_number(t.date) - unix_epoch_day()) * 86400 + seconds_of_day(t.time)
}

/// Chronological order of two date-times.
pub open spec fn before(a: DateTime, b: DateTime) -> bool {
    if a.date.year != b.date.year {
        a.date.year < b.date.year
    } else if a.date.month != b.date.month {
        a.date.month < b.date.month
    } else if a.date.day != b.date.day {
        a.date.day < b.date.day
    } else if a.time.hour != b.time.hour {
        a.time.hour < b.time.hour
    } else if a.time.minute != b.time.minute {
        a.time.minute < b.time.minute
    } else {
        a.time.second < b.time.second
    }
}

/// `a` comes strictly before `b`.
pub fn is_before(a: &DateTime, b: &DateTime) -> (r: bool)
    ensures
        r == before(*a, *b),
{
    if a.date.year != b.date.year {
        a.date.year < b.date.year
    } else if a.date.month != b.date.month {
        a.date.month < b.date.month
    } else if a.date.day != b.date.day {
        a.date.day < b.date.day
    } else if a.time.hour != b.time.hour {
        a.time.hour < b.time.hour
    } else if a.time.minute != b.time.minute {
        a.time.minute < b.time.minute
    } else {
        a.time.second < b.time.second
    }
}

/// Relies on chrono's `NaiveDate::from_ymd_opt`, which accepts the first day
/// of every month of the years in range, and `Datelike::num_days_in_month`.
#[verifier::external_body]
fn chrono_days_in_month(year: i32, month: u32) -> (r: Option<u32>)
    requires
        0 <= year <= MAX_YEAR,
        1 <= month <= 12,
    ensures
        r == Some(days_in_month(year as int, month as int) as u32),
{
    let first = chrono::NaiveDate::from_ymd_opt(year, month, 1)?;
    Some(chrono::Datelike::num_days_in_month(&first) as u32)
}

/// Number of days in month `month` (1-based) of `year`.
pub fn last_day_of_month(year: i32, month: u32) -> (r: u32)
    requires
        0 <= year <= MAX_YEAR,
        1 <= month <= 12,
    ensures
        r == days_in_month(year as int, month as int),
{
    match chrono_days_in_month(year, month) {
        Some(days) => days,
        None => 31,
    }
}

/// Number of days in month `month_0` (0-based) of `year`.
pub fn last_day_of_month_0(year: i32, month_0: u32) -> (r: u32)
    requires
        0 <= year <= MAX_YEAR,
        month_0 < 12,
    ensures
        r == days_in_month(year as int, month_0 + 1),
{
    last_day_of_month(year, month_0 + 1)
}

/// Seconds since 1970-01-01T00:00:00 of 0000-01-01T00:00:00.
pub const UNIX_MIN: i64 = -62167219200;

/// Seconds since 1970-01-01T00:00:00 of 9999-12-31T23:59:59.
pub const UNIX_MAX: i64 = 253402300799;

/// Largest step of a fixed interval: `u32::MAX` weeks, in seconds.
pub const MAX_STEP_SECONDS: i64 = 2597671725984000;

proof fn lemma_days_before_year_step(y: int)
    requires
        y >= 0,
    ensures
        days_before_year(y + 1) == days_before_year(y) + 365 + (if is_leap_year(y) { 1int } else { 0 }),
{
    assert((y + 4) / 4 - (y + 3) / 4 == (if y % 4 == 0 { 1int } else { 0 }));
    assert((y + 100) / 100 - (y + 99) / 100 == (if y % 100 == 0 { 1int } else { 0 }));
    assert((y + 400) / 400 - (y + 399) / 400 == (if y % 400 == 0 { 1int } else { 0 }));
}

proof fn lemma_days_before_year_mono(a: int, b: int)
    requires
        0 <= a <= b,
    ensures
        days_before_year(a) <= days_before_year(b),
{
}

proof fn lemma_days_before_month_bounds(y: int, m: int)
    requires
        1 <= m <= 12,
    ensures
        0 <= days_before_month(y, m),
        days_before_month(y, m) + days_in_month(y, m) <= 365 + (if is_leap_year(y) { 1int } else { 0 }),
    decreases m,
{
    reveal_with_fuel(days_before_month, 13);
}

/// Every valid date-time lies between the first and the last second of the
/// four-digit years.
pub proof fn lemma_unix_seconds_range(t: DateTime)
    requires
        valid_date_time(t),
    ensures
        UNIX_MIN <= unix_seconds(t) <= UNIX_MAX,
{
    let y = t.date.year as int;
    lemma_days_before_month_bounds(y, t.date.month as int);
    lemma_days_before_year_step(y);
    lemma_days_before_year_mono(y + 1, 10000);
    lemma_days_before_year_mono(0, y);
    assert(days_before_year(10000) == 3652425);
    assert(days_before_year(0) == 0);
}

/// Relies on chrono's `NaiveDate::from_ymd_opt` and `NaiveDate::and_hms_opt`,
/// which refuse a day or a time of day that does not exist, and on
/// `DateTime::timestamp`, which counts the seconds since 1970-01-01T00:00:00.
#[verifier::external_body]
fn chrono_unix_seconds(t: &DateTime) -> (r: Option<i64>)
    requires
        0 <= t.date.year <= MAX_YEAR,
    ensures
        r is Some <==> valid_date_time(*t),
        r matches Some(s) ==> s == unix_seconds(*t),
{
    let date = chrono::NaiveDate::from_ymd_opt(t.date.year, t.date.month, t.date.day)?;
    let naive = date.and_hms_opt(t.time.hour, t.time.minute, t.time.second)?;
    Some(naive.and_utc().timestamp())
}

/// Relies on chrono's `DateTime::from_timestamp`, which gives the date and time
/// of day that lie `secs` seconds after 1970-01-01T00:00:00.
#[verifier::external_body]
fn chrono_from_unix_seconds(secs: i64) -> (r: Option<DateTime>)
    ensures
        UNIX_MIN <= secs <= UNIX_MAX ==> r is Some,
        r matches Some(t) ==> (UNIX_MIN <= secs <= UNIX_MAX ==> valid_date_time(t)
            && unix_seconds(t) == secs),
{
    let naive = chrono::DateTime::from_timestamp(secs, 0)?.naive_utc();
    Some(
        DateTime {
            date: Date {
                year: chrono::Datelike::year(&naive),
                month: chrono::Datelike::month(&naive),
                day: chrono::Datelike::day(&naive),
            },
            time: Time {
                hour: chrono::Timelike::hour(&naive),
                minute: chrono::Timelike::minute(&naive),
                second: chrono::Timelike::second(&naive),
            },
        },
    )
}

/// What chrono's strftime-style formatting writes for the date-time `unix`
/// seconds after 1970-01-01T00:00:00 with the format `fmt`, or `None` when the
/// format holds a specifier that cannot be written.
pub uninterp spec fn strftime(unix: int, fmt: Seq<char>) -> Option<Seq<char>>;

/// Relies on chrono's `NaiveDateTime::format`: the text depends on the
/// date-time and the format alone; a format that cannot be written makes the
/// `Display` impl fail.
#[verifier::external_body]
fn chrono_format(t: &DateTime, fmt: &str) -> (r: Option<String>)
    requires
        valid_date_time(*t),
    ensures
        r matches Some(s) ==> strftime(unix_seconds(*t), fmt@) == Some(s@),
        r is None ==> strftime(unix_seconds(*t), fmt@) is None,
{
    let date = chrono::NaiveDate::from_ymd_opt(t.date.year, t.date.month, t.date.day)?;
    let naive = date.and_hms_opt(t.time.hour, t.time.minute, t.time.second)?;
    let mut out = String::new();
    write!(out, "{}", naive.format(fmt)).ok()?;
    Some(out)
}

/// Seconds since 1970-01-01T00:00:00 of `t`, or `None` when `t` names no
/// real date and time of day.
pub fn to_unix_seconds(t: &DateTime) -> (r: Option<i64>)
    requires
        0 <= t.date.year <= MAX_YEAR,
    ensures
        r is Some <==> valid_date_time(*t),
        r matches Some(s) ==> s == unix_seconds(*t),
{
    chrono_unix_seconds(t)
}

/// Writes `t` with the strftime-style format `fmt`.
pub fn format_date_time(t: &DateTime, fmt: &str) -> (r: Option<String>)
    requires
        valid_date_time(*t),
    ensures
        r matches Some(s) ==> strftime(unix_seconds(*t), fmt@) == Some(s@),
        r is None ==> strftime(unix_seconds(*t), fmt@) is None,
{
    chrono_format(t, fmt)
}

pub open spec fn year_month(d: Date) -> int {
    d.year * 12 + d.month - 1
}

pub open spec fn min_int(a: int, b: int) -> int {
    if a <= b { a } else { b }
}

/// `d` moved by `months` calendar months, its day clamped to the length of
/// the target month; `None` past the largest year.
pub open spec fn months_later(d: Date, months: int) -> Option<Date> {
    let total = year_month(d) + months;
    let y = total / 12;
    let m = total % 12 + 1;
    if y > MAX_YEAR {
        None
    } else {
        Some(Date { year: y as i32, month: m as u32, day: min_int(d.day as int, days_in_month(y, m)) as u32 })
    }
}

/// Moves `date` by `months` calendar months, clamping the day to the last day
/// of the target month; `None` when the year would pass the largest year.
pub fn add_months_naive_date(date: Date, months: u32) -> (r: Option<Date>)
    requires
        valid_date(date),
    ensures
        r == months_later(date, months as int),
        r matches Some(d) ==> valid_date(d) && year_month(d) == year_month(date) + months,
{
    let total: i64 = date.year as i64 * 12 + (date.month as i64 - 1) + months as i64;
    let next_year_wide: i64 = total / 12;
    let next_month_0: u32 = (total % 12) as u32;
    if next_year_wide > MAX_YEAR as i64 {
        return None;
    }
    let next_year = next_year_wide as i32;
    let last = last_day_of_month_0(next_year, next_month_0);
    let next_day = if date.day <= last { date.day } else { last };
    Some(Date { year: next_year, month: next_month_0 + 1, day: next_day })
}

/// Iterates from a start to an end (exclusive) by a fixed number of seconds.
#[derive(Debug, PartialEq)]
pub struct FixedInterval {
    start: i64,
    end: i64,
    step: i64,
}

impl FixedInterval {
    pub closed spec fn wf(&self) -> bool {
        &&& UNIX_MIN <= self.start <= UNIX_MAX + self.step
        &&& self.end <= UNIX_MAX
        &&& 1 <= self.step <= MAX_STEP_SECONDS
    }

    /// What is left to yield, as seconds since 1970-01-01T00:00:00.
    pub closed spec fn pending(&self) -> Seq<int> {
        stepped(self.start as int, self.end as int, self.step as int)
    }

    pub fn new(start: &DateTime, end: &DateTime, step_seconds: i64) -> (r: FixedInterval)
        requires
            valid_date_time(*start),
            valid_date_time(*end),
            1 <= step_seconds <= MAX_STEP_SECONDS,
        ensures
            r.wf(),
            r.pending() == stepped(unix_seconds(*start), unix_seconds(*end), step_seconds as int),
    {
        proof {
            lemma_unix_seconds_range(*start);
            lemma_unix_seconds_range(*end);
        }
        let s = to_unix_seconds(start).unwrap();
        let e = to_unix_seconds(end).unwrap();
        FixedInterval { start: s, end: e, step: step_seconds }
    }

    pub fn next(&mut self) -> (r: Option<DateTime>)
        requires
            old(self).wf(),
        ensures
            final(self).wf(),
            old(self).pending().len() == 0 ==> r is None && final(self).pending() == old(self).pending(),
            old(self).pending().len() > 0 ==> (r matches Some(t) && valid_date_time(t) && unix_seconds(t)
                == old(self).pending()[0]) && final(self).pending() == old(self).pending().drop_first(),
    {
        if self.start >= self.end {
            None
        } else {
            let current = chrono_from_unix_seconds(self.start);
            self.start = self.start + self.step;
            assert(old(self).pending().drop_first() =~= final(self).pending());
            current
        }
    }
}

/// `Some` of its distance from the end (plus one) while a monthly interval at
/// `cur` still has something to yield before `end`.
pub open spec fn monthly_measure(cur: Option<Date>, end: DateTime) -> int {
    match cur {
        Some(d) => if year_month(d) <= year_month(end.date) {
            year_month(end.date) - year_month(d) + 1
        } else {
            0
        },
        None => 0,
    }
}

/// The timestamps, as seconds since 1970-01-01T00:00:00, that a monthly
/// interval at `cur` yields.
pub open spec fn monthly_pending(cur: Option<Date>, tod: Time, end: DateTime, months: int) -> Seq<int>
    decreases monthly_measure(cur, end),
{
    match cur {
        Some(d) => {
            let t = DateTime { date: d, time: tod };
            if before(t, end) && months >= 1 && valid_date(d) {
                seq![unix_seconds(t)].add(monthly_pending(months_later(d, months), tod, end, months))
            } else {
                Seq::empty()
            }
        },
        None => Seq::empty(),
    }
}

/// Iterates by whole calendar months from a start to an end (exclusive),
/// keeping the time of day and clamping the day to the month's length.
#[derive(Debug, PartialEq)]
pub struct MonthlyInterval {
    current_date: Option<Date>,
    time_of_day: Time,
    end: DateTime,
    months: u32,
}

impl MonthlyInterval {
    pub closed spec fn wf(&self) -> bool {
        &&& self.current_date matches Some(d) ==> valid_date(d)
        &&& valid_time(self.time_of_day)
        &&& self.months >= 1
    }

    pub closed spec fn pending(&self) -> Seq<int> {
        monthly_pending(self.current_date, self.time_of_day, self.end, self.months as int)
    }

    pub fn new(start: &DateTime, end: &DateTime, months: u32) -> (r: MonthlyInterval)
        requires
            valid_date_time(*start),
            months >= 1,
        ensures
            r.wf(),
            r.pending() == monthly_pending(Some(start.date), start.time, *end, months as int),
    {
        MonthlyInterval { current_date: Some(start.date), time_of_day: start.time, end: *end, months }
    }

    pub fn next(&mut self) -> (r: Option<DateTime>)
        requires
            old(self).wf(),
        ensures
            final(self).wf(),
            old(self).pending().len() == 0 ==> r is None && final(self).pending() == old(self).pending(),
            old(self).pending().len() > 0 ==> (r matches Some(t) && valid_date_time(t) && unix_seconds(t)
                == old(self).pending()[0]) && final(self).pending() == old(self).pending().drop_first(),
    {
        match self.current_date {
            Some(d) => {
                let current = DateTime { date: d, time: self.time_of_day };
                if !is_before(&current, &self.end) {
                    None
                } else {
                    self.current_date = add_months_naive_date(d, self.months);
                    assert(old(self).pending().drop_first() =~= final(self).pending());
                    Some(current)
                }
            },
            None => None,
        }
    }
}

/// A lazy sequence of timestamps, stepped by a fixed duration or by months.
#[derive(Debug, PartialEq)]
pub enum DateTimeRange {
    FixedStep(FixedInterval),
    MonthlyStep(MonthlyInterval),
}

/// Seconds in one unit of a fixed step: `S`econds, `M`inutes, `H`ours,
/// `d`ays and `w`eeks. Months (`m`) have no fixed length.
pub open spec fn unit_seconds(unit: Seq<char>) -> Option<int> {
    if unit == seq!['S'] {
        Some(1)
    } else if unit == seq!['M'] {
        Some(60)
    } else if unit == seq!['H'] {
        Some(3600)
    } else if unit == seq!['d'] {
        Some(86400)
    } else if unit == seq!['w'] {
        Some(604800)
    } else {
        None
    }
}

pub open spec fn is_month_unit(unit: Seq<char>) -> bool {
    unit == seq!['m']
}

/// What a range from `start` to `end` by `step` of `unit` yields, or the kind
/// of error that refuses it.
pub open spec fn range_outcome(start: DateTime, end: DateTime, step: Seq<char>, unit: Seq<char>) -> Result<
    Seq<int>,
    ErrorKind,
> {
    match number_within(step, u32::MAX as int) {
        None => Err(ErrorKind::InvalidInt),
        Some(n) => if !is_month_unit(unit) && unit_seconds(unit) is None {
            Err(ErrorKind::InvalidUnit)
        } else if n == 0 {
            Err(ErrorKind::InvalidRange)
        } else if is_month_unit(unit) {
            Ok(monthly_pending(Some(start.date), start.time, end, n))
        } else {
            Ok(stepped(unix_seconds(start), unix_seconds(end), n * unit_seconds(unit).unwrap()))
        },
    }
}

fn is_single(s: &str, c: char) -> (r: bool)
    ensures
        r == (s@ == seq![c]),
{
    if s.unicode_len() == 1 {
        let first = s.get_char(0);
        if first == c {
            assert(s@ =~= seq![c]);
            true
        } else {
            false
        }
    } else {
        false
    }
}

fn unit_to_seconds(unit: &str) -> (r: Option<i64>)
    ensures
        r matches Some(n) ==> unit_seconds(unit@) == Some(n as int),
        r is None ==> unit_seconds(unit@) is None,
{
    if is_single(unit, 'S') {
        Some(1)
    } else if is_single(unit, 'M') {
        Some(60)
    } else if is_single(unit, 'H') {
        Some(3600)
    } else if is_single(unit, 'd') {
        Some(86400)
    } else if is_single(unit, 'w') {
        Some(604800)
    } else {
        None
    }
}

impl DateTimeRange {
    pub closed spec fn wf(&self) -> bool {
        match self {
            DateTimeRange::FixedStep(x) => x.wf(),
            DateTimeRange::MonthlyStep(x) => x.wf(),
        }
    }

    /// What is left to yield, as seconds since 1970-01-01T00:00:00.
    pub closed spec fn pending(&self) -> Seq<int> {
        match self {
            DateTimeRange::FixedStep(x) => x.pending(),
            DateTimeRange::MonthlyStep(x) => x.pending(),
        }
    }

    /// Builds the range from `start` to `end` stepped by `step` units; the unit
    /// `m` steps by calendar months.
    pub fn new_date_time_range(start: &DateTime, end: &DateTime, step: &str, unit: &str) -> (r: AppResult<
        DateTimeRange,
    >)
        requires
            valid_date_time(*start),
            valid_date_time(*end),
        ensures
            match r {
                Ok(range) => range.wf() && range_outcome(*start, *end, step@, unit@) == Ok::<
                    Seq<int>,
                    ErrorKind,
                >(range.pending()),
                Err(e) => range_outcome(*start, *end, step@, unit@) == Err::<Seq<int>, ErrorKind>(
                    e.kind,
                ),
            },
    {
        let step_n = match parse_number(step, u32::MAX as u64) {
            Some(n) => n as u32,
            None => {
                return Err(AppError::of_kind(ErrorKind::InvalidInt, "Error parsing integer"));
            },
        };
        if is_single(unit, 'm') {
            if step_n == 0 {
                return Err(AppError::of_kind(ErrorKind::InvalidRange, "step must be positive"));
            }
            Ok(DateTimeRange::MonthlyStep(MonthlyInterval::new(start, end, step_n)))
        } else {
            let unit_secs = match unit_to_seconds(unit) {
                Some(u) => u,
                None => {
                    return Err(AppError::of_kind(ErrorKind::InvalidUnit, "Invalid step unit"));
                },
            };
            if step_n == 0 {
                return Err(AppError::of_kind(ErrorKind::InvalidRange, "step must be positive"));
            }
            assert(step_n as i64 * unit_secs <= MAX_STEP_SECONDS) by (nonlinear_arith)
                requires
                    step_n <= u32::MAX,
                    1 <= unit_secs <= 604800,
            ;
            Ok(DateTimeRange::FixedStep(FixedInterval::new(start, end, step_n as i64 * unit_secs)))
        }
    }

    /// The next timestamp, or `None` when the range is exhausted.
    pub fn next(&mut self) -> (r: Option<DateTime>)
        requires
            old(self).wf(),
        ensures
            final(self).wf(),
            old(self).pending().len() == 0 ==> r is None && final(self).pending() == old(self).pending(),
            old(self).pending().len() > 0 ==> (r matches Some(t) && valid_date_time(t) && unix_seconds(t)
                == old(self).pending()[0]) && final(self).pending() == old(self).pending().drop_first(),
    {
        match self {
            DateTimeRange::FixedStep(x) => x.next(),
            DateTimeRange::MonthlyStep(x) => x.next(),
        }
    }
}

/// `s` has the shape `YYYY-MM-DD`.
pub open spec fn date_shape(s: Seq<char>) -> bool {
    &&& s.len() == 10
    &&& all_digits(s.subrange(0, 4))
    &&& s[4] == '-'
    &&& all_digits(s.subrange(5, 7))
    &&& s[7] == '-'
    &&& all_digits(s.subrange(8, 10))
}

/// `s` has the shape `YYYY-MM-DDThh:mm:ss`.
pub open spec fn date_time_shape(s: Seq<char>) -> bool {
    &&& s.len() == 19
    &&& date_shape(s.subrange(0, 10))
    &&& s[10] == 'T'
    &&& all_digits(s.subrange(11, 13))
    &&& s[13] == ':'
    &&& all_digits(s.subrange(14, 16))
    &&& s[16] == ':'
    &&& all_digits(s.subrange(17, 19))
}

/// The fields written in `s`, whose first ten characters read `YYYY-MM-DD`
/// and, where there are more, go on with `Thh:mm:ss`.
pub open spec fn written_date_time(s: Seq<char>) -> DateTime {
    DateTime {
        date: Date {
            year: digits_value(s.subrange(0, 4)) as i32,
            month: digits_value(s.subrange(5, 7)) as u32,
            day: digits_value(s.subrange(8, 10)) as u32,
        },
        time: if s.len() > 10 {
            Time {
                hour: digits_value(s.subrange(11, 13)) as u32,
                minute: digits_value(s.subrange(14, 16)) as u32,
                second: digits_value(s.subrange(17, 19)) as u32,
            }
        } else {
            Time { hour: 0, minute: 0, second: 0 }
        },
    }
}

/// The midnight at the start of the date written `YYYY-MM-DD` in `s`, when
/// that date exists.
pub open spec fn date_of_text(s: Seq<char>) -> Option<DateTime> {
    if date_shape(s) && valid_date_time(written_date_time(s)) {
        Some(written_date_time(s))
    } else {
        None
    }
}

/// The date-time written `YYYY-MM-DDThh:mm:ss` in `s`, when it exists.
pub open spec fn date_time_of_text(s: Seq<char>) -> Option<DateTime> {
    if date_time_shape(s) && valid_date_time(written_date_time(s)) {
        Some(written_date_time(s))
    } else {
        None
    }
}

/// Reads `YYYY-MM-DD` at the start of `s`.
fn read_date(s: &str) -> (r: Option<Date>)
    requires
        s@.len() >= 10,
    ensures
        r is Some <==> date_shape(s@.subrange(0, 10)),
        r matches Some(d) ==> d == written_date_time(s@).date && 0 <= d.year <= MAX_YEAR,
{
    let year = digits_at(s, 0, 4);
    let month = digits_at(s, 5, 7);
    let day = digits_at(s, 8, 10);
    let dash1 = s.get_char(4);
    let dash2 = s.get_char(7);
    let ghost t = s@.subrange(0, 10);
    assert(t.subrange(0, 4) =~= s@.subrange(0, 4));
    assert(t.subrange(5, 7) =~= s@.subrange(5, 7));
    assert(t.subrange(8, 10) =~= s@.subrange(8, 10));
    match (year, month, day) {
        (Some(y), Some(m), Some(d)) => if dash1 == '-' && dash2 == '-' {
            Some(Date { year: y as i32, month: m, day: d })
        } else {
            None
        },
        _ => None,
    }
}

/// Reads `hh:mm:ss` at position 11 of `s`.
fn read_time(s: &str) -> (r: Option<Time>)
    requires
        s@.len() == 19,
    ensures
        r is Some <==> (all_digits(s@.subrange(11, 13)) && s@[13] == ':' && all_digits(
            s@.subrange(14, 16),
        ) && s@[16] == ':' && all_digits(s@.subrange(17, 19))),
        r matches Some(t) ==> t == written_date_time(s@).time,
{
    let hour = digits_at(s, 11, 13);
    let minute = digits_at(s, 14, 16);
    let second = digits_at(s, 17, 19);
    let colon1 = s.get_char(13);
    let colon2 = s.get_char(16);
    match (hour, minute, second) {
        (Some(h), Some(m), Some(sec)) => if colon1 == ':' && colon2 == ':' {
            Some(Time { hour: h, minute: m, second: sec })
        } else {
            None
        },
        _ => None,
    }
}

/// Reads a date written `YYYY-MM-DD` as the midnight that starts it.
pub fn parse_date_str(s: &str) -> (r: Option<DateTime>)
    ensures
        r == date_of_text(s@),
{
    if s.unicode_len() != 10 {
        return None;
    }
    match read_date(s) {
        Some(date) => {
            assert(s@.subrange(0, 10) =~= s@);
            let t = DateTime { date, time: Time { hour: 0, minute: 0, second: 0 } };
            match to_unix_seconds(&t) {
                Some(_) => Some(t),
                None => None,
            }
        },
        None => {
            assert(s@.subrange(0, 10) =~= s@);
            None
        },
    }
}

/// Reads a date-time written `YYYY-MM-DDThh:mm:ss`.
pub fn parse_date_time_str(s: &str) -> (r: Option<DateTime>)
    ensures
        r == date_time_of_text(s@),
{
    if s.unicode_len() != 19 {
        return None;
    }
    let date = read_date(s);
    let time = read_time(s);
    let sep = s.get_char(10);
    match (date, time) {
        (Some(d), Some(tm)) => if sep == 'T' {
            let t = DateTime { date: d, time: tm };
            match to_unix_seconds(&t) {
                Some(_) => Some(t),
                None => None,
            }
        } else {
            None
        },
        _ => None,
    }
}

/// What a range between two written bounds yields, `start` and `end` being
/// what the bounds read as: both must name existing date-times.
pub open spec fn text_range_outcome(
    start: Option<DateTime>,
    end: Option<DateTime>,
    step: Seq<char>,
    unit: Seq<char>,
) -> Result<Seq<int>, ErrorKind> {
    match (start, end) {
        (Some(s), Some(e)) => range_outcome(s, e, step, unit),
        _ => Err(ErrorKind::InvalidDateTime),
    }
}

impl DateTimeRange {
    /// The range between two dates written `YYYY-MM-DD`, from midnight to
    /// midnight.
    pub fn parse_date_strs(start: &str, end: &str, step: &str, unit: &str) -> (r: AppResult<
        DateTimeRange,
    >)
        ensures
            match r {
                Ok(range) => range.wf() && text_range_outcome(
                    date_of_text(start@),
                    date_of_text(end@),
                    step@,
                    unit@,
                ) == Ok::<Seq<int>, ErrorKind>(range.pending()),
                Err(e) => text_range_outcome(date_of_text(start@), date_of_text(end@), step@, unit@)
                    == Err::<Seq<int>, ErrorKind>(e.kind),
            },
    {
        let s = match parse_date_str(start) {
            Some(t) => t,
            None => {
                return Err(AppError::of_kind(ErrorKind::InvalidDateTime, "Error parsing date"));
            },
        };
        let e = match parse_date_str(end) {
            Some(t) => t,
            None => {
                return Err(AppError::of_kind(ErrorKind::InvalidDateTime, "Error parsing date"));
            },
        };
        DateTimeRange::new_date_time_range(&s, &e, step, unit)
    }

    /// The range between two date-times written `YYYY-MM-DDThh:mm:ss`.
    pub fn parse_date_time_strs(start: &str, end: &str, step: &str, unit: &str) -> (r: AppResult<
        DateTimeRange,
    >)
        ensures
            match r {
                Ok(range) => range.wf() && text_range_outcome(
                    date_time_of_text(start@),
                    date_time_of_text(end@),
                    step@,
                    unit@,
                ) == Ok::<Seq<int>, ErrorKind>(range.pending()),
                Err(e) => text_range_outcome(
                    date_time_of_text(start@),
                    date_time_of_text(end@),
                    step@,
                    unit@,
                ) == Err::<Seq<int>, ErrorKind>(e.kind),
            },
    {
        let s = match parse_date_time_str(start) {
            Some(t) => t,
            None => {
                return Err(
                    AppError::of_kind(ErrorKind::InvalidDateTime, "Error parsing date time"),
                );
            },
        };
        let e = match parse_date_time_str(end) {
            Some(t) => t,
            None => {
                return Err(
                    AppError::of_kind(ErrorKind::InvalidDateTime, "Error parsing date time"),
                );
            },
        };
        DateTimeRange::new_date_time_range(&s, &e, step, unit)
    }
}

} // verus!
