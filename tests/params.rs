use kass::error::ErrorKind;
use kass::grammar::{match_date_range, match_date_time_range, match_int_range, CalendarPieces};
use kass::params::{comma_separated, parse_args, parse_int_range, parse_query_values, to_values, QueryValue, QueryValues};

fn int_groups(s: &'static str) -> Option<Vec<&'static str>> {
    match_int_range(s).map(|(a, b, c, d)| vec![a, b, c.unwrap_or(""), d.unwrap_or("")])
}

fn calendar_groups(p: Option<CalendarPieces<'static>>) -> Option<Vec<&'static str>> {
    p.map(|(start, end, step, fmt)| {
        let (n, u) = step.unwrap_or(("", ""));
        vec![start, end, n, u, fmt.unwrap_or("")]
    })
}

fn text(s: &str) -> QueryValue {
    QueryValue::Text(s.to_string())
}

fn values(token: &str) -> Vec<QueryValue> {
    to_values(parse_query_values(token).unwrap()).unwrap()
}

#[test]
fn test_parse_int_range_valid_ranges() {
    assert_eq!(
        parse_int_range("1", "10", None).unwrap(),
        QueryValues::IntRange { from: 1, to: 10, step: 1 }
    );
    assert_eq!(
        parse_int_range("1", "10", Some("3")).unwrap(),
        QueryValues::IntRange { from: 1, to: 10, step: 3 }
    );
}

#[test]
fn test_int_range_regex() {
    assert_eq!(Some(vec!["1", "10", "2", "tinyint"]), int_groups("1..10/2/tinyint"));
    assert_eq!(Some(vec!["1", "10", "", ""]), int_groups("1..10"));
    assert_eq!(Some(vec!["1", "10", "3", ""]), int_groups("1..10/3"));
    assert_eq!(None, int_groups("1..10/int"));
}

#[test]
fn test_date_range_regex() {
    assert_eq!(
        Some(vec!["2019-09-01", "2019-12-01", "", "", ""]),
        calendar_groups(match_date_range("2019-09-01..2019-12-01"))
    );
    assert_eq!(
        Some(vec!["2019-09-01", "2019-12-01", "2", "w", ""]),
        calendar_groups(match_date_range("2019-09-01..2019-12-01/2w"))
    );
    assert_eq!(
        Some(vec!["2019-09-01", "2019-12-01", "10", "d", ""]),
        calendar_groups(match_date_range("2019-09-01..2019-12-01/10d"))
    );
    assert_eq!(
        Some(vec!["2019-09-01", "2019-12-01", "1", "m", ""]),
        calendar_groups(match_date_range("2019-09-01..2019-12-01/1m"))
    );
    assert_eq!(
        Some(vec!["2019-09-01", "2019-12-01", "2", "w", "%Y%m%d"]),
        calendar_groups(match_date_range("2019-09-01..2019-12-01/2w/%Y%m%d"))
    );
    assert_eq!(
        Some(vec!["2019-09-01", "2019-12-01", "2", "w", "%d/%m/%Y"]),
        calendar_groups(match_date_range("2019-09-01..2019-12-01/2w/%d/%m/%Y"))
    );
}

#[test]
fn test_date_time_range_regex() {
    assert_eq!(
        Some(vec!["2019-09-01T10:13:12", "2019-12-01T14:35:22", "", "", ""]),
        calendar_groups(match_date_time_range("2019-09-01T10:13:12..2019-12-01T14:35:22"))
    );
    assert_eq!(
        Some(vec!["2019-09-01T10:13:12", "2019-12-01T14:35:22", "5", "H", ""]),
        calendar_groups(match_date_time_range("2019-09-01T10:13:12..2019-12-01T14:35:22/5H"))
    );
    assert_eq!(
        Some(vec!["2019-09-01T10:13:12", "2019-12-01T14:35:22", "5", "M", ""]),
        calendar_groups(match_date_time_range("2019-09-01T10:13:12..2019-12-01T14:35:22/5M"))
    );
    assert_eq!(
        Some(vec!["2019-09-01T10:13:12", "2019-12-01T14:35:22", "30", "S", ""]),
        calendar_groups(match_date_time_range("2019-09-01T10:13:12..2019-12-01T14:35:22/30S"))
    );
    assert_eq!(
        Some(vec!["2019-09-01T10:13:12", "2019-12-01T14:35:22", "30", "S", "%Y%m%d%H%M"]),
        calendar_groups(match_date_time_range(
            "2019-09-01T10:13:12..2019-12-01T14:35:22/30S/%Y%m%d%H%M"
        ))
    );
    assert_eq!(
        Some(vec!["2019-09-01T10:13:12", "2019-12-01T14:35:22", "30", "S", "%H:%M:%S-%d/%d/%Y"]),
        calendar_groups(match_date_time_range(
            "2019-09-01T10:13:12..2019-12-01T14:35:22/30S/%H:%M:%S-%d/%d/%Y"
        ))
    );
}

#[test]
fn int_range_expands_by_its_step() {
    assert_eq!(vec![QueryValue::Int(1), QueryValue::Int(4), QueryValue::Int(7)], values("1..10/3"));
    assert_eq!(vec![QueryValue::Int(0), QueryValue::Int(5)], values("0..10/5"));
    assert_eq!(vec![QueryValue::Int(2)], values("2..3/1000"));
}

#[test]
fn invalid_ranges_are_refused() {
    assert_eq!(ErrorKind::InvalidRange, parse_query_values("5..5").unwrap_err().kind);
    assert_eq!(ErrorKind::InvalidRange, parse_query_values("5..3").unwrap_err().kind);
    assert_eq!(vec![QueryValue::Int(3), QueryValue::Int(4)], values("3..5"));
    assert_eq!(ErrorKind::InvalidRange, parse_query_values("1..5/0").unwrap_err().kind);
    assert_eq!(ErrorKind::InvalidInt, parse_query_values("1..99999999999").unwrap_err().kind);
}

#[test]
fn cartesian_product_varies_the_last_parameter_fastest() {
    let tuples = parse_args(&["1..3", "a,b"]).unwrap();
    assert_eq!(
        vec![
            vec![QueryValue::Int(1), text("a")],
            vec![QueryValue::Int(1), text("b")],
            vec![QueryValue::Int(2), text("a")],
            vec![QueryValue::Int(2), text("b")],
        ],
        tuples
    );
}

#[test]
fn parse_args_reports_the_first_refused_token() {
    assert_eq!(ErrorKind::InvalidRange, parse_args(&["x", "4..2", "2019-02-30..2019-03-01"]).unwrap_err().kind);
    assert_eq!(ErrorKind::InvalidDateTime, parse_args(&["x", "2019-02-30..2019-03-01", "4..2"]).unwrap_err().kind);
    assert_eq!(0, parse_args(&[]).unwrap().len());
}

#[test]
fn literal_lists_split_on_commas() {
    assert_eq!(vec!["a".to_string(), "".to_string(), "b".to_string()], comma_separated("a,,b"));
    assert_eq!(vec!["hello".to_string()], comma_separated("hello"));
    assert_eq!(vec![text("1..x"), text("y")], values("1..x,y"));
}

#[test]
fn date_ranges_expand_to_formatted_text() {
    assert_eq!(vec![text("2019-09-01"), text("2019-09-02")], values("2019-09-01..2019-09-03"));
    assert_eq!(
        vec![text("20190901"), text("20190915"), text("20190929")],
        values("2019-09-01..2019-10-01/2w/%Y%m%d")
    );
    assert_eq!(
        vec![text("2019-09-01T10:00:00"), text("2019-09-01T10:00:30")],
        values("2019-09-01T10:00:00..2019-09-01T10:01:00/30S")
    );
    assert_eq!(vec![text("2019-10-31"), text("2019-11-30")], values("2019-10-31..2019-12-01/1m"));
}

#[test]
fn calendar_token_errors() {
    assert_eq!(ErrorKind::InvalidDateTime, parse_query_values("2019-02-30..2019-03-01").unwrap_err().kind);
    let q = parse_query_values("2019-09-01..2019-09-03/1d/%Q").unwrap();
    assert_eq!(ErrorKind::InvalidFormat, to_values(q).unwrap_err().kind);
}

#[test]
fn tokens_read_as_their_grammar() {
    assert_eq!(
        QueryValues::Strings(vec!["1..10/int".to_string()]),
        parse_query_values("1..10/int").unwrap()
    );
    assert_eq!(
        QueryValues::IntRange { from: 1, to: 10, step: 2 },
        parse_query_values("1..10/2/tinyint").unwrap()
    );
    match parse_query_values("2019-09-01..2019-12-01/2w/%d/%m/%Y").unwrap() {
        QueryValues::DateTimeRange { range, fmt } => {
            assert_eq!("%d/%m/%Y", fmt);
            assert_eq!(
                kass::calendar::DateTimeRange::parse_date_strs("2019-09-01", "2019-12-01", "2", "w").unwrap(),
                range
            );
        }
        other => panic!("unexpected {:?}", other),
    }
    match parse_query_values("2019-09-01..2019-12-01").unwrap() {
        QueryValues::DateTimeRange { fmt, .. } => assert_eq!("%Y-%m-%d", fmt),
        other => panic!("unexpected {:?}", other),
    }
    match parse_query_values("2019-09-01T10:00:00..2019-09-02T10:00:00").unwrap() {
        QueryValues::DateTimeRange { fmt, .. } => assert_eq!("%Y-%m-%dT%H:%M:%S", fmt),
        other => panic!("unexpected {:?}", other),
    }
}
