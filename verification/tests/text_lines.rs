use onebrc::stats::StationStatsMap;
use onebrc::v1::{parse_value, record_line, split_line, LineError};

#[test]
fn v1_value_with_point() {
    assert_eq!(parse_value("12.3").unwrap(), 123);
    assert_eq!(parse_value("-0.5").unwrap(), -5);
}

#[test]
fn v1_value_points_removed_anywhere() {
    assert_eq!(parse_value("1.2.3").unwrap(), 123);
    assert_eq!(parse_value("123").unwrap(), 123);
    assert_eq!(parse_value("+4.2").unwrap(), 42);
}

#[test]
fn v1_value_rejects() {
    assert!(parse_value("").is_err());
    assert!(parse_value(".").is_err());
    assert!(parse_value("-").is_err());
    assert!(parse_value("1a").is_err());
    assert!(parse_value(" 1.0").is_err());
    assert!(parse_value("3276.8").is_err());
    assert!(parse_value("--1.0").is_err());
}

#[test]
fn v1_value_limits() {
    assert_eq!(parse_value("3276.7").unwrap(), i16::MAX);
    assert_eq!(parse_value("-3276.8").unwrap(), i16::MIN);
    assert_eq!(parse_value("00012.3").unwrap(), 123);
}

#[test]
fn v1_split() {
    assert_eq!(split_line("Zürich;1.0"), Some(("Zürich", "1.0")));
    assert_eq!(split_line("a;b;c"), Some(("a", "b;c")));
    assert_eq!(split_line("abc"), None);
}

#[test]
fn v1_record_lines() {
    let mut m = StationStatsMap::new();
    assert!(record_line(&mut m, "Hamburg;12.0").is_ok());
    assert!(record_line(&mut m, "Bulawayo;8.9").is_ok());
    assert!(record_line(&mut m, "Hamburg;34.2").is_ok());
    assert!(matches!(record_line(&mut m, "Hamburg 1.0"), Err(LineError::InvalidLine)));
    assert!(matches!(record_line(&mut m, "Hamburg;x"), Err(LineError::InvalidValue)));
    assert_eq!(m.report().unwrap().to_string(), "{Bulawayo=8.9/8.9/8.9, Hamburg=12.0/23.1/34.2}\n");
}
