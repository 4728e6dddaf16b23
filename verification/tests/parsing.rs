use onebrc::station_name;
use onebrc::value;

#[test]
fn value_two_digits() {
    assert_eq!(value::parse(b"12.3\nrest"), Some((123, &b"\nrest"[..])));
}

#[test]
fn value_one_digit() {
    assert_eq!(value::parse(b"4.5"), Some((45, &b""[..])));
}

#[test]
fn value_negative_two_digits() {
    assert_eq!(value::parse(b"-99.9\n"), Some((-999, &b"\n"[..])));
}

#[test]
fn value_negative_one_digit() {
    assert_eq!(value::parse(b"-0.7\n"), Some((-7, &b"\n"[..])));
}

#[test]
fn value_extra_fraction_digit_stays_in_rest() {
    assert_eq!(value::parse(b"1.23"), Some((12, &b"3"[..])));
}

#[test]
fn value_rejects_non_digits() {
    assert_eq!(value::parse(b"a.5\n"), None);
    assert_eq!(value::parse(b"--1.5"), None);
    assert_eq!(value::parse(b"1x.5"), None);
}

#[test]
fn value_rejects_missing_point() {
    assert_eq!(value::parse(b"12"), None);
    assert_eq!(value::parse(b""), None);
    assert_eq!(value::parse(b"123\n"), None);
}

#[test]
fn name_simple() {
    assert_eq!(
        station_name::parse(b"Hamburg;12.0\n"),
        Some((&b"Hamburg"[..], &b"12.0\n"[..]))
    );
}

#[test]
fn name_too_short_line() {
    assert_eq!(station_name::parse(b";"), None);
    assert_eq!(station_name::parse(b""), None);
}

#[test]
fn name_empty_is_refused() {
    assert_eq!(station_name::parse(b";1.0"), None);
}

#[test]
fn name_never_holds_a_semicolon() {
    assert_eq!(station_name::parse(b";a;1.0"), None);
    assert_eq!(station_name::parse(b";;1.0"), None);
    assert_eq!(station_name::parse(b"a;;1.0"), Some((&b"a"[..], &b";1.0"[..])));
}

#[test]
fn name_without_semicolon() {
    assert_eq!(station_name::parse(b"Hamburg 12.0\n"), None);
}

#[test]
fn name_of_hundred_bytes() {
    let mut line = vec![b'x'; 100];
    line.extend_from_slice(b";1.0\n");
    let (name, rest) = station_name::parse(&line).unwrap();
    assert_eq!(name.len(), 100);
    assert_eq!(rest, b"1.0\n");
}

#[test]
fn name_of_hundred_and_one_bytes() {
    let mut line = vec![b'x'; 101];
    line.extend_from_slice(b";1.0\n");
    assert_eq!(station_name::parse(&line), None);
}

#[test]
fn name_stops_at_first_semicolon() {
    assert_eq!(station_name::parse(b"a;b;1.0"), Some((&b"a"[..], &b"b;1.0"[..])));
}

#[test]
fn name_utf8() {
    assert_eq!(
        station_name::parse("Zürich;-3.4\n".as_bytes()),
        Some(("Zürich".as_bytes(), &b"-3.4\n"[..]))
    );
}

#[test]
fn decimal_form_reads_back() {
    for v in -999i16..=999 {
        let text = onebrc::stats::DecimalValue(v).to_string();
        let mut line = text.into_bytes();
        line.extend_from_slice(b"\nnext");
        assert_eq!(value::parse(&line), Some((v, &b"\nnext"[..])));
    }
}
