use onebrc::v2::{parse_value, split_at_char, value_readable, readable, LineProcessor, _process};

#[test]
fn v2_value_positive() {
    assert_eq!(parse_value(b"12.3\nrest"), Some((123, &b"rest"[..])));
}

#[test]
fn v2_value_negative() {
    assert_eq!(parse_value(b"-4.5\n"), Some((-45, &b""[..])));
}

#[test]
fn v2_value_without_line_break() {
    assert_eq!(parse_value(b"12.3"), None);
}

#[test]
fn v2_value_readability() {
    assert!(value_readable(b"12.3\n"));
    assert!(!value_readable(b"1x.3\n"));
    assert!(!value_readable(b"99999\n"));
    assert!(value_readable(b"3276.7\n"));
    assert!(!value_readable(b"3276.8\n"));
    assert!(value_readable(b"12.3"));
    assert!(readable(b"no semicolon at all"));
    assert!(!readable(b"a;b\n"));
}

#[test]
fn v2_split() {
    assert_eq!(split_at_char(b"a;b;c", b';'), Some((&b"a"[..], &b"b;c"[..])));
    assert_eq!(split_at_char(b"abc", b';'), None);
}

#[test]
fn v2_record() {
    assert_eq!(_process(b"Oslo;-1.0\nX"), Some((&b"Oslo"[..], -10, &b"X"[..])));
    assert_eq!(_process(b"Oslo;-1.0"), None);
    assert_eq!(_process(b"Oslo"), None);
}

#[test]
fn v2_stitches_split_lines() {
    let mut lp = LineProcessor::new();
    assert!(lp.can_process(b"Ham"));
    let rest = lp.process(b"Ham");
    assert_eq!(rest, b"");
    assert!(lp.can_process(b"burg;12.0\nOslo;1.0\n"));
    let rest = lp.process(b"burg;12.0\nOslo;1.0\n");
    assert_eq!(rest, b"Oslo;1.0\n");
    let rest = lp.process(rest);
    assert_eq!(rest, b"");
    let (stats, buffer, count) = lp.into_parts();
    assert!(buffer.is_empty());
    assert_eq!(count, 2);
    assert_eq!(stats.report().unwrap().to_string(), "{Hamburg=12.0/12.0/12.0, Oslo=1.0/1.0/1.0}\n");
}

#[test]
fn v2_process_all() {
    let mut lp = LineProcessor::new();
    assert!(lp.process_all(b"a;1.0\nb;2.0\na;3.0\n"));
    let (stats, buffer, count) = lp.into_parts();
    assert!(buffer.is_empty());
    assert_eq!(count, 3);
    assert_eq!(stats.report().unwrap().to_string(), "{a=1.0/2.0/3.0, b=2.0/2.0/2.0}\n");
}

#[test]
fn v2_pieces_equal_whole() {
    let data = b"Hamburg;12.0\nBulawayo;8.9\nHamburg;34.2\n";
    for cut in 0..data.len() {
        let mut lp = LineProcessor::new();
        assert!(lp.process_all(&data[..cut]));
        assert!(lp.process_all(&data[cut..]));
        let (stats, buffer, count) = lp.into_parts();
        assert!(buffer.is_empty());
        assert_eq!(count, 3);
        assert_eq!(
            stats.report().unwrap().to_string(),
            "{Bulawayo=8.9/8.9/8.9, Hamburg=12.0/23.1/34.2}\n"
        );
    }
}

#[test]
fn v2_refuses_invalid_digit() {
    let mut lp = LineProcessor::new();
    assert!(!lp.can_process(b"a;1x\n"));
    assert!(!lp.process_all(b"a;1x\n"));
}

#[test]
fn v2_keeps_incomplete_line() {
    let mut lp = LineProcessor::new();
    assert!(lp.process_all(b"a;1.0\nb;2"));
    let (_, buffer, count) = lp.into_parts();
    assert_eq!(buffer, b"b;2".to_vec());
    assert_eq!(count, 1);
}
