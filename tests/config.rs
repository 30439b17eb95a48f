use kass::config::{ColorChoice, Config};
use kass::error::{AppError, ErrorKind};

#[test]
fn config_defaults() {
    let c = Config::from_options(None, None, None, false);
    assert_eq!("localhost:9042", c.host);
    assert_eq!(ColorChoice::Auto, c.color);
    assert_eq!(5, c.parallelism);
    assert!(!c.pretty);
}

#[test]
fn config_from_options() {
    let c = Config::from_options(Some("db1"), Some("off"), Some("12"), true);
    assert_eq!("db1:9042", c.host);
    assert_eq!(ColorChoice::Off, c.color);
    assert_eq!(12, c.parallelism);
    assert!(c.pretty);
    let d = Config::from_options(Some("db2:19042"), Some("on"), Some("zero"), false);
    assert_eq!("db2:19042", d.host);
    assert_eq!(ColorChoice::On, d.color);
    assert_eq!(5, d.parallelism);
    assert_eq!(5, Config::from_options(None, Some("auto"), Some("0"), false).parallelism);
}

#[test]
fn general_errors_carry_their_message() {
    let e = AppError::general("query is required".to_string());
    assert_eq!(ErrorKind::General, e.kind);
    assert_eq!("query is required", e.to_string());
}
