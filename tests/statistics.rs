use protean::statistics::{decimal_string, format_duration, ranked_rows};
use protean::table::FrequencyTable;

#[test]
fn formats_durations() {
    assert_eq!(format_duration(0), "0s");
    assert_eq!(format_duration(45), "45s");
    assert_eq!(format_duration(60), "1m 0s");
    assert_eq!(format_duration(23 * 60 + 45), "23m 45s");
    assert_eq!(format_duration(3600), "1h 0m 0s");
    assert_eq!(format_duration(3600 + 23 * 60 + 45), "1h 23m 45s");
    assert_eq!(format_duration(100 * 3600 + 5), "100h 0m 5s");
}

#[test]
fn decimal_text() {
    assert_eq!(decimal_string(0), "0");
    assert_eq!(decimal_string(907), "907");
    assert_eq!(decimal_string(u64::MAX), u64::MAX.to_string());
}

#[test]
fn ranks_rows_by_count_keeping_ties_in_order() {
    let t = FrequencyTable::from_rows(vec![
        ("A".to_string(), 1),
        ("B".to_string(), 5),
        ("C".to_string(), 1),
        ("D".to_string(), 3),
    ])
    .unwrap();
    let r = ranked_rows(&t);
    let names: Vec<&str> = r.iter().map(|(n, _)| n.as_str()).collect();
    assert_eq!(names, vec!["B", "D", "A", "C"]);
}
