use station_stats::aggregation::Aggregation;
use station_stats::report::{format_report, push_aggregation};

#[test]
fn push_aggregation_writes_name_min_mean_max() {
    let mut out = Vec::new();
    push_aggregation(&mut out, b"Paris", &Aggregation { min: -10, max: 123, sum: 113, count: 2 });
    assert_eq!(String::from_utf8(out).unwrap(), "Paris=-1.0/5.7/12.3");
}

#[test]
fn push_aggregation_appends() {
    let mut out = b"{".to_vec();
    push_aggregation(&mut out, b"a", &Aggregation { min: 0, max: 0, sum: 0, count: 3 });
    push_aggregation(&mut out, b"", &Aggregation { min: -999, max: 999, sum: 0, count: 2 });
    assert_eq!(String::from_utf8(out).unwrap(), "{a=0.0/0.0/0.0=-99.9/0.0/99.9");
}

#[test]
fn report_of_no_entry_is_empty_braces() {
    assert_eq!(format_report(&Vec::new()), b"{}".to_vec());
}

#[test]
fn report_of_one_entry() {
    let entries = vec![(b"x".to_vec(), Aggregation { min: 55, max: 55, sum: 55, count: 1 })];
    assert_eq!(String::from_utf8(format_report(&entries)).unwrap(), "{x=5.5/5.5/5.5}");
}

#[test]
fn report_separates_entries_by_comma_and_space() {
    let entries = vec![
        (b"London".to_vec(), Aggregation { min: 55, max: 55, sum: 55, count: 1 }),
        (b"Paris".to_vec(), Aggregation { min: -10, max: 123, sum: 113, count: 2 }),
        (b"Rome".to_vec(), Aggregation { min: -999, max: -1, sum: -1000, count: 2 }),
    ];
    assert_eq!(
        String::from_utf8(format_report(&entries)).unwrap(),
        "{London=5.5/5.5/5.5, Paris=-1.0/5.7/12.3, Rome=-99.9/-50.0/-0.1}"
    );
}

#[test]
fn report_keeps_the_order_it_is_given() {
    let entries = vec![
        (b"b".to_vec(), Aggregation { min: 1, max: 1, sum: 1, count: 1 }),
        (b"a".to_vec(), Aggregation { min: 2, max: 2, sum: 2, count: 1 }),
    ];
    assert_eq!(String::from_utf8(format_report(&entries)).unwrap(), "{b=0.1/0.1/0.1, a=0.2/0.2/0.2}");
}
