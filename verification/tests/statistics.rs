use onebrc::stats::{average, can_average, DecimalValue, ReportError, StationStatsMap};

fn report_text(m: &StationStatsMap) -> String {
    assert!(m.can_report());
    let r = m.report().unwrap();
    assert!(r.is_printable());
    r.to_string()
}

#[test]
fn average_rounds_down_below_half() {
    assert_eq!(average(10, 3), 3);
}

#[test]
fn average_rounds_half_up() {
    assert_eq!(average(5, 2), 3);
    assert_eq!(average(-5, 2), -2);
}

#[test]
fn average_negative() {
    assert_eq!(average(-13, 5), -3);
    assert_eq!(average(-1, 2), 0);
    assert_eq!(average(-3, 2), -1);
}

#[test]
fn average_exact() {
    assert_eq!(average(0, 1), 0);
    assert_eq!(average(462, 2), 231);
    assert_eq!(average(-999, 1), -999);
}

#[test]
fn average_checks() {
    assert!(can_average(10, 3));
    assert!(!can_average(10, 0));
    assert!(!can_average(i32::MAX, 1));
    assert!(!can_average(1, (i32::MAX as usize) + 1));
}

#[test]
fn decimal_forms() {
    assert_eq!(DecimalValue(123).to_string(), "12.3");
    assert_eq!(DecimalValue(-5).to_string(), "-0.5");
    assert_eq!(DecimalValue(0).to_string(), "0.0");
    assert_eq!(DecimalValue(-999).to_string(), "-99.9");
    assert_eq!(DecimalValue(32767).to_string(), "3276.7");
}

#[test]
fn empty_report() {
    let m = StationStatsMap::new();
    assert_eq!(report_text(&m), "{}\n");
}

#[test]
fn update_and_report() {
    let mut m = StationStatsMap::new();
    m.update(b"Hamburg", 120);
    m.update(b"Bulawayo", 89);
    m.update(b"Hamburg", 342);
    assert_eq!(report_text(&m), "{Bulawayo=8.9/8.9/8.9, Hamburg=12.0/23.1/34.2}\n");
}

#[test]
fn report_sorted_by_bytes() {
    let mut m = StationStatsMap::new();
    m.update(b"b", 1);
    m.update(b"ab", 2);
    m.update(b"a", 3);
    m.update(b"B", 4);
    assert_eq!(
        report_text(&m),
        "{B=0.4/0.4/0.4, a=0.3/0.3/0.3, ab=0.2/0.2/0.2, b=0.1/0.1/0.1}\n"
    );
}

#[test]
fn report_rejects_invalid_names() {
    let mut m = StationStatsMap::new();
    m.update(&[0xff, 0xfe], 10);
    match m.report() {
        Err(ReportError::InvalidStationName) => {}
        Ok(_) => panic!("an invalid name was accepted"),
    }
}

#[test]
fn extend_merges() {
    let mut a = StationStatsMap::new();
    a.update(b"x", 10);
    a.update(b"y", -20);
    let mut b = StationStatsMap::new();
    b.update(b"x", 30);
    b.update(b"z", 5);
    assert!(a.can_extend(&b));
    a.extend(&b);
    assert_eq!(report_text(&a), "{x=1.0/2.0/3.0, y=-2.0/-2.0/-2.0, z=0.5/0.5/0.5}\n");
}

#[test]
fn merging_in_either_order_gives_the_same_report() {
    let mut a = StationStatsMap::new();
    a.update(b"x", 10);
    a.update(b"y", -20);
    let mut b = StationStatsMap::new();
    b.update(b"x", 31);
    b.update(b"z", 5);
    let mut ab = StationStatsMap::new();
    ab.extend(&a);
    ab.extend(&b);
    let mut ba = StationStatsMap::new();
    ba.extend(&b);
    ba.extend(&a);
    assert_eq!(report_text(&ab), report_text(&ba));
}

#[test]
fn try_update_refuses_overflow() {
    let mut m = StationStatsMap::new();
    for _ in 0..65538 {
        assert!(m.try_update(b"hot", i16::MAX));
    }
    assert!(!m.can_record(b"hot", i16::MAX));
    assert!(!m.try_update(b"hot", i16::MAX));
    assert!(m.can_record(b"cold", i16::MAX));
}

#[test]
fn can_extend_refuses_overflow() {
    let mut a = StationStatsMap::new();
    for _ in 0..40000 {
        a.update(b"hot", i16::MAX);
    }
    let mut b = StationStatsMap::new();
    for _ in 0..40000 {
        b.update(b"hot", i16::MAX);
    }
    assert!(!a.can_extend(&b));
    let mut c = StationStatsMap::new();
    c.update(b"cold", i16::MAX);
    assert!(a.can_extend(&c));
}

#[test]
fn report_needs_computable_means() {
    let mut m = StationStatsMap::new();
    for _ in 0..10 {
        m.update(b"a", 1);
    }
    assert!(m.can_report());
}

#[test]
fn report_len_counts_stations() {
    let mut m = StationStatsMap::new();
    m.update(b"a", 1);
    m.update(b"b", 1);
    m.update(b"a", 2);
    let r = m.report().unwrap();
    assert_eq!(r.len(), 2);
}

#[test]
fn entries_of_table() {
    let mut m = StationStatsMap::new();
    m.update(b"a", 10);
    m.update(b"b", -20);
    m.update(b"a", 30);
    let mut entries = m.into_entries();
    entries.sort_by(|x, y| x.0.cmp(&y.0));
    assert_eq!(entries.len(), 2);
    assert_eq!(entries[0].0, b"a".to_vec());
    assert_eq!((entries[0].1.min, entries[0].1.max, entries[0].1.sum, entries[0].1.count), (10, 30, 40, 2));
    assert_eq!(entries[1].0, b"b".to_vec());
    assert_eq!((entries[1].1.min, entries[1].1.max, entries[1].1.sum, entries[1].1.count), (-20, -20, -20, 1));
}

#[test]
fn mean_between_minimum_and_maximum() {
    let mut m = StationStatsMap::new();
    let values = [-999i16, 5, 17, 999, -3, 0, 250];
    for &v in &values {
        m.update(b"s", v);
    }
    let text = report_text(&m);
    assert_eq!(text, "{s=-99.9/3.8/99.9}\n");
}

#[test]
fn updates_give_least_greatest_sum_and_count() {
    let records: [(&[u8], i16); 7] = [
        (b"x", 5), (b"y", -40), (b"x", -12), (b"z", 0), (b"x", 99), (b"y", 7), (b"x", 3),
    ];
    let mut m = StationStatsMap::new();
    for &(name, v) in &records {
        m.update(name, v);
    }
    let mut entries = m.into_entries();
    entries.sort_by(|a, b| a.0.cmp(&b.0));
    let names: Vec<Vec<u8>> = entries.iter().map(|e| e.0.clone()).collect();
    assert_eq!(names, vec![b"x".to_vec(), b"y".to_vec(), b"z".to_vec()]);
    for (name, s) in &entries {
        let vals: Vec<i16> = records.iter().filter(|r| r.0 == &name[..]).map(|r| r.1).collect();
        assert_eq!(s.min, *vals.iter().min().unwrap());
        assert_eq!(s.max, *vals.iter().max().unwrap());
        assert_eq!(s.sum, vals.iter().map(|&v| v as i32).sum::<i32>());
        assert_eq!(s.count, vals.len());
    }
}
