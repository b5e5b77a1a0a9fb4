use station_stats::aggregation::Aggregation;
use station_stats::registry::{
    merge_registries, process_line, reduce_registries, scan_chunk, ReduceError, Registry,
    ScanError,
};
use station_stats::tally::LineError;

fn entries(registry: Registry) -> Vec<(String, Aggregation)> {
    registry
        .into_sorted()
        .into_iter()
        .map(|(name, a)| (String::from_utf8(name).unwrap(), a))
        .collect()
}

fn scanned(chunk: &str) -> Registry {
    let mut registry = Registry::new();
    assert_eq!(scan_chunk(&mut registry, chunk.as_bytes()), Ok(()));
    registry
}

#[test]
fn new_registry_is_empty() {
    assert_eq!(entries(Registry::new()), vec![]);
}

#[test]
fn first_record_creates_and_later_records_update() {
    let mut registry = Registry::new();
    assert_eq!(process_line(&mut registry, b"Paris;12.3"), Ok(()));
    assert_eq!(process_line(&mut registry, b"London;5.5"), Ok(()));
    assert_eq!(process_line(&mut registry, b"Paris;-1.0"), Ok(()));
    assert_eq!(
        entries(registry),
        vec![
            ("London".to_string(), Aggregation { min: 55, max: 55, sum: 55, count: 1 }),
            ("Paris".to_string(), Aggregation { min: -10, max: 123, sum: 113, count: 2 }),
        ]
    );
}

#[test]
fn malformed_line_changes_nothing() {
    let mut registry = Registry::new();
    assert_eq!(process_line(&mut registry, b"Paris;12.3"), Ok(()));
    assert_eq!(process_line(&mut registry, b"Paris;12.34"), Err(LineError::Malformed));
    assert_eq!(process_line(&mut registry, b""), Err(LineError::Malformed));
    assert_eq!(
        entries(registry),
        vec![("Paris".to_string(), Aggregation { min: 123, max: 123, sum: 123, count: 1 })]
    );
}

#[test]
fn names_are_keys_by_their_bytes() {
    let mut registry = Registry::new();
    for line in ["a;1.0", "A;2.0", "a ;3.0", "a;4.0", ";5.0", ";6.0"] {
        assert_eq!(process_line(&mut registry, line.as_bytes()), Ok(()));
    }
    assert_eq!(
        entries(registry),
        vec![
            ("".to_string(), Aggregation { min: 50, max: 60, sum: 110, count: 2 }),
            ("A".to_string(), Aggregation { min: 20, max: 20, sum: 20, count: 1 }),
            ("a".to_string(), Aggregation { min: 10, max: 40, sum: 50, count: 2 }),
            ("a ".to_string(), Aggregation { min: 30, max: 30, sum: 30, count: 1 }),
        ]
    );
}

#[test]
fn scan_folds_every_line_of_a_chunk() {
    let registry = scanned("Paris;12.3\nParis;-1.0\nLondon;5.5");
    assert_eq!(
        entries(registry),
        vec![
            ("London".to_string(), Aggregation { min: 55, max: 55, sum: 55, count: 1 }),
            ("Paris".to_string(), Aggregation { min: -10, max: 123, sum: 113, count: 2 }),
        ]
    );
}

#[test]
fn scan_of_single_line() {
    assert_eq!(
        entries(scanned("x;-0.1")),
        vec![("x".to_string(), Aggregation { min: -1, max: -1, sum: -1, count: 1 })]
    );
}

#[test]
fn scan_goes_on_from_what_the_registry_holds() {
    let mut registry = scanned("a;1.0\nb;2.0");
    assert_eq!(scan_chunk(&mut registry, b"b;4.0\nc;-3.0"), Ok(()));
    assert_eq!(
        entries(registry),
        vec![
            ("a".to_string(), Aggregation { min: 10, max: 10, sum: 10, count: 1 }),
            ("b".to_string(), Aggregation { min: 20, max: 40, sum: 60, count: 2 }),
            ("c".to_string(), Aggregation { min: -30, max: -30, sum: -30, count: 1 }),
        ]
    );
}

#[test]
fn scan_stops_at_the_first_malformed_line() {
    let chunk = b"a;1.0\nb;2.0\nbroken\nc;3.0\nalso broken";
    let mut registry = Registry::new();
    let error = scan_chunk(&mut registry, chunk).unwrap_err();
    assert_eq!(error, ScanError { cause: LineError::Malformed, line: 2, start: 12, end: 18 });
    assert_eq!(&chunk[error.start..error.end], b"broken");
    assert_eq!(
        entries(registry),
        vec![
            ("a".to_string(), Aggregation { min: 10, max: 10, sum: 10, count: 1 }),
            ("b".to_string(), Aggregation { min: 20, max: 20, sum: 20, count: 1 }),
        ]
    );
}

#[test]
fn scan_takes_empty_lines_as_malformed() {
    let mut registry = Registry::new();
    assert_eq!(
        scan_chunk(&mut registry, b""),
        Err(ScanError { cause: LineError::Malformed, line: 0, start: 0, end: 0 })
    );
    assert_eq!(
        scan_chunk(&mut registry, b"a;1.0\n"),
        Err(ScanError { cause: LineError::Malformed, line: 1, start: 6, end: 6 })
    );
    assert_eq!(
        scan_chunk(&mut registry, b"a;1.0\n\nb;2.0"),
        Err(ScanError { cause: LineError::Malformed, line: 1, start: 6, end: 6 })
    );
}

#[test]
fn scan_reports_a_sum_without_room() {
    // 2_149_633 records of 99.9 sum up to 2_147_483_367; one more is too much
    let fits = 2_149_633usize;
    let mut chunk = Vec::with_capacity((fits + 1) * 7);
    for _ in 0..fits {
        chunk.extend_from_slice(b"x;99.9\n");
    }
    chunk.extend_from_slice(b"x;99.9");
    let mut registry = Registry::new();
    assert_eq!(
        scan_chunk(&mut registry, &chunk),
        Err(ScanError { cause: LineError::Overflow, line: fits, start: fits * 7, end: fits * 7 + 6 })
    );
    // the sum is 280 short of the largest sum
    assert_eq!(process_line(&mut registry, b"x;28.1"), Err(LineError::Overflow));
    assert_eq!(process_line(&mut registry, b"x;28.0"), Ok(()));
    assert_eq!(process_line(&mut registry, b"x;0.1"), Err(LineError::Overflow));
    assert_eq!(process_line(&mut registry, b"x;-99.9"), Ok(()));
    assert_eq!(process_line(&mut registry, b"y;99.9"), Ok(()));
    assert_eq!(
        entries(registry),
        vec![
            (
                "x".to_string(),
                Aggregation { min: -999, max: 999, sum: i32::MAX - 999, count: 2_149_635 }
            ),
            ("y".to_string(), Aggregation { min: 999, max: 999, sum: 999, count: 1 }),
        ]
    );
}

#[test]
fn merge_moves_and_merges_stations() {
    let mut a = scanned("a;1.0\nb;2.0\nb;2.5");
    let b = scanned("b;-4.0\nc;3.0");
    assert!(merge_registries(&mut a, b).is_ok());
    assert_eq!(
        entries(a),
        vec![
            ("a".to_string(), Aggregation { min: 10, max: 10, sum: 10, count: 1 }),
            ("b".to_string(), Aggregation { min: -40, max: 25, sum: 5, count: 3 }),
            ("c".to_string(), Aggregation { min: 30, max: 30, sum: 30, count: 1 }),
        ]
    );
}

#[test]
fn merge_with_empty_registries() {
    let mut a = Registry::new();
    assert!(merge_registries(&mut a, scanned("a;1.0")).is_ok());
    assert!(merge_registries(&mut a, Registry::new()).is_ok());
    assert_eq!(
        entries(a),
        vec![("a".to_string(), Aggregation { min: 10, max: 10, sum: 10, count: 1 })]
    );
}

#[test]
fn merge_does_not_depend_on_the_order() {
    let chunks = ["a;1.0\nb;2.0", "b;-4.0\nc;3.0\na;9.9", "c;0.0\nd;-99.9"];
    let mut forward = Registry::new();
    for chunk in chunks {
        assert!(merge_registries(&mut forward, scanned(chunk)).is_ok());
    }
    let mut backward = Registry::new();
    for chunk in chunks.iter().rev() {
        assert!(merge_registries(&mut backward, scanned(chunk)).is_ok());
    }
    let mut grouped = scanned(chunks[1]);
    assert!(merge_registries(&mut grouped, scanned(chunks[2])).is_ok());
    let mut first = scanned(chunks[0]);
    assert!(merge_registries(&mut first, grouped).is_ok());
    let sequential = scanned(&chunks.join("\n"));

    let expected = entries(sequential);
    assert_eq!(entries(forward), expected);
    assert_eq!(entries(backward), expected);
    assert_eq!(entries(first), expected);
}

#[test]
fn merge_without_room_leaves_the_registry_as_it_was() {
    let half = 1_100_000usize;
    let mut chunk = Vec::with_capacity(half * 7);
    for _ in 0..half {
        chunk.extend_from_slice(b"x;99.9\n");
    }
    chunk.extend_from_slice(b"y;1.0");
    let mut a = Registry::new();
    assert_eq!(scan_chunk(&mut a, &chunk), Ok(()));
    let mut b = Registry::new();
    assert_eq!(scan_chunk(&mut b, &chunk), Ok(()));
    assert_eq!(process_line(&mut b, b"z;2.0"), Ok(()));
    assert!(merge_registries(&mut a, b).is_err());
    assert_eq!(
        entries(a),
        vec![
            ("x".to_string(), Aggregation { min: 999, max: 999, sum: 1_098_900_000, count: 1_100_000 }),
            ("y".to_string(), Aggregation { min: 10, max: 10, sum: 10, count: 1 }),
        ]
    );
}

#[test]
fn reduce_merges_all_registries() {
    let registries = vec![scanned("a;1.0\nb;2.0"), Registry::new(), scanned("b;3.0"), scanned("c;4.0")];
    let merged = reduce_registries(registries).ok().unwrap();
    assert_eq!(
        entries(merged),
        vec![
            ("a".to_string(), Aggregation { min: 10, max: 10, sum: 10, count: 1 }),
            ("b".to_string(), Aggregation { min: 20, max: 30, sum: 50, count: 2 }),
            ("c".to_string(), Aggregation { min: 40, max: 40, sum: 40, count: 1 }),
        ]
    );
}

#[test]
fn reduce_of_one_registry_is_that_registry() {
    let merged = reduce_registries(vec![scanned("a;1.0")]).ok().unwrap();
    assert_eq!(
        entries(merged),
        vec![("a".to_string(), Aggregation { min: 10, max: 10, sum: 10, count: 1 })]
    );
}

#[test]
fn reduce_reports_a_merged_sum_without_room() {
    let half = 1_100_000usize;
    let mut chunk = Vec::with_capacity(half * 7);
    for _ in 0..half {
        chunk.extend_from_slice(b"x;99.9\n");
    }
    chunk.pop();
    let mut a = Registry::new();
    assert_eq!(scan_chunk(&mut a, &chunk), Ok(()));
    let mut b = Registry::new();
    assert_eq!(scan_chunk(&mut b, &chunk), Ok(()));
    assert_eq!(
        reduce_registries(vec![scanned("x;1.0"), a, Registry::new(), b]).err(),
        Some(ReduceError::Overflow)
    );
}

#[test]
fn reduce_of_no_registry_is_an_error() {
    assert_eq!(reduce_registries(Vec::new()).err(), Some(ReduceError::Empty));
}

#[test]
fn into_sorted_orders_names_by_their_bytes() {
    let registry = scanned("b;1.0\nB;1.0\nab;1.0\na;1.0\n\u{e9};1.0\nZ;1.0\n~;1.0\nabc;1.0");
    let names: Vec<String> = entries(registry).into_iter().map(|(name, _)| name).collect();
    assert_eq!(names, vec!["B", "Z", "a", "ab", "abc", "b", "~", "\u{e9}"]);
}
