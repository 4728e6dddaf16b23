use onebrc::challenge::{chunk_bounds, memchr, merge_chunk_stats, process, strip_newline, ChunkError, LineFault};
use onebrc::stats::StationStatsMap;

fn report_of(m: &StationStatsMap) -> String {
    m.report().unwrap().to_string()
}

#[test]
fn memchr_finds_first() {
    assert_eq!(memchr(b'k', b"the quick brown fox"), Some(8));
    assert_eq!(memchr(b'z', b"the quick brown fox"), None);
    assert_eq!(memchr(b'a', b""), None);
}

#[test]
fn strip_newline_removes_one() {
    assert_eq!(strip_newline(b"\n\nx"), b"\nx");
    assert_eq!(strip_newline(b"x\n"), b"x\n");
    assert_eq!(strip_newline(b""), b"");
}

#[test]
fn process_lines() {
    let (stats, lines) = process(b"Hamburg;12.0\nBulawayo;8.9\nHamburg;34.2\n").unwrap();
    assert_eq!(lines, 3);
    assert_eq!(report_of(&stats), "{Bulawayo=8.9/8.9/8.9, Hamburg=12.0/23.1/34.2}\n");
}

#[test]
fn process_last_line_without_break() {
    let (stats, lines) = process(b"a;1.0\nb;-2.5").unwrap();
    assert_eq!(lines, 2);
    assert_eq!(report_of(&stats), "{a=1.0/1.0/1.0, b=-2.5/-2.5/-2.5}\n");
}

#[test]
fn process_empty() {
    let (stats, lines) = process(b"").unwrap();
    assert_eq!(lines, 0);
    assert_eq!(report_of(&stats), "{}\n");
}

#[test]
fn process_reports_missing_semicolon() {
    match process(b"a;1.0\nbad line\n") {
        Err(ChunkError::Invalid { fault: LineFault::NoSemicolon, at }) => assert_eq!(at, 6),
        other => panic!("unexpected {:?}", other.map(|(_, n)| n)),
    }
}

#[test]
fn process_reports_missing_value() {
    match process(b"a;1.0\nb;x\n") {
        Err(ChunkError::Invalid { fault: LineFault::NoValue, at }) => assert_eq!(at, 8),
        other => panic!("unexpected {:?}", other.map(|(_, n)| n)),
    }
}

#[test]
fn process_reports_short_line() {
    match process(b"a;1.0\nb") {
        Err(ChunkError::Invalid { fault: LineFault::NoSemicolon, at }) => assert_eq!(at, 6),
        other => panic!("unexpected {:?}", other.map(|(_, n)| n)),
    }
}

#[test]
fn chunks_end_at_line_breaks() {
    let data = b"a;1.0\nb;2.0\nc;3.0\n";
    let bounds = chunk_bounds(data, 2);
    assert_eq!(bounds, vec![(0, 12), (12, 18)]);
}

#[test]
fn chunks_with_more_workers_than_lines() {
    let data = b"a;1.0\nb;2.0\n";
    let bounds = chunk_bounds(data, 5);
    assert_eq!(bounds, vec![(0, 6), (6, 12), (12, 12), (12, 12), (12, 12)]);
}

#[test]
fn chunks_of_empty_input() {
    assert_eq!(chunk_bounds(b"", 3), vec![(0, 0), (0, 0), (0, 0)]);
}

#[test]
fn one_chunk_is_everything() {
    let data = b"x;1.0";
    assert_eq!(chunk_bounds(data, 1), vec![(0, 5)]);
}

#[test]
fn chunked_processing_equals_whole() {
    let data = b"Hamburg;12.0\nBulawayo;8.9\nPalembang;38.8\nHamburg;34.2\nSt. John's;15.2\nCracow;12.6\nBulawayo;-1.4\n";
    for count in 1..9 {
        let bounds = chunk_bounds(data, count);
        assert_eq!(bounds.last().unwrap().1, data.len());
        let mut total = StationStatsMap::new();
        for &(start, end) in &bounds {
            let (stats, _) = process(&data[start..end]).unwrap();
            assert!(total.can_extend(&stats));
            total.extend(&stats);
        }
        let (whole, _) = process(data).unwrap();
        assert_eq!(report_of(&total), report_of(&whole));
    }
}

#[test]
fn merging_chunk_statistics() {
    let (a, _) = process(b"x;1.0\ny;2.0\n").unwrap();
    let (b, _) = process(b"x;3.0\n").unwrap();
    let total = merge_chunk_stats(&vec![a, b]).unwrap();
    assert_eq!(report_of(&total), "{x=1.0/2.0/3.0, y=2.0/2.0/2.0}\n");
    let none = merge_chunk_stats(&Vec::new()).unwrap();
    assert_eq!(report_of(&none), "{}\n");
}

#[test]
fn merging_chunk_statistics_refuses_overflow() {
    let mut a = StationStatsMap::new();
    for _ in 0..40000 {
        a.update(b"hot", i16::MAX);
    }
    let mut b = StationStatsMap::new();
    for _ in 0..40000 {
        b.update(b"hot", i16::MAX);
    }
    assert!(merge_chunk_stats(&vec![a, b]).is_none());
}

#[test]
fn name_across_line_break_depends_on_chunks() {
    let data = b"a\nb;1.0\n";
    let (whole, lines) = process(data).unwrap();
    assert_eq!(lines, 1);
    assert_eq!(whole.into_entries()[0].0, b"a\nb".to_vec());
    let bounds = chunk_bounds(data, 8);
    assert_eq!(bounds[0], (0, 2));
    match process(&data[bounds[0].0..bounds[0].1]) {
        Err(ChunkError::Invalid { fault: LineFault::NoSemicolon, at }) => assert_eq!(at, 0),
        other => panic!("unexpected {:?}", other.map(|(_, n)| n)),
    }
}

#[test]
fn line_starting_with_semicolon_is_refused() {
    match process(b"a;1.0\n;2.0\n") {
        Err(ChunkError::Invalid { fault: LineFault::NoSemicolon, at }) => assert_eq!(at, 6),
        other => panic!("unexpected {:?}", other.map(|(_, n)| n)),
    }
}
