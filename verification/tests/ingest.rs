use station_stats::ingest::{
    ensure_registries, is_newline, plan_round, report_region, report_registries, scan_partitions,
    scan_round, stream_report, IngestError, PartitionError, Round,
};
use station_stats::registry::{scan_chunk, ReduceError, Registry, ScanError};
use station_stats::tally::LineError;

fn text(result: Result<Vec<u8>, IngestError>) -> String {
    String::from_utf8(result.unwrap()).unwrap()
}

fn sample(records: usize, trailing_newline: bool) -> Vec<u8> {
    let names = ["Paris", "London", "Zagreb", "Abha", "St. John's", "Ürümqi", "X"];
    let mut region = Vec::new();
    let mut seed: u32 = 2024;
    for i in 0..records {
        seed = seed.wrapping_mul(1664525).wrapping_add(1013904223);
        let tenths = (seed >> 8) as i32 % 1000;
        let sign = if seed & 1 == 0 || tenths == 0 { "" } else { "-" };
        let name = names[(seed >> 20) as usize % names.len()];
        region.extend_from_slice(
            format!("{};{}{}.{}", name, sign, tenths / 10, tenths % 10).as_bytes(),
        );
        if i + 1 < records || trailing_newline {
            region.push(b'\n');
        }
    }
    region
}

fn naive(region: &[u8]) -> String {
    let mut registry = Registry::new();
    let body = match region.last() {
        Some(b'\n') => &region[..region.len() - 1],
        _ => region,
    };
    if !region.is_empty() {
        assert_eq!(scan_chunk(&mut registry, body), Ok(()));
    }
    String::from_utf8(report_registries(vec![registry]).ok().unwrap()).unwrap()
}

#[test]
fn is_newline_tells_the_newline() {
    assert!(is_newline(&b'\n'));
    assert!(!is_newline(&b'\r'));
    assert!(!is_newline(&b';'));
}

#[test]
fn round_before_the_end_splits_at_the_last_newline() {
    assert_eq!(
        plan_round(b"a;1.0\nb;2.0\nc;3", false),
        Ok(Round::Scan { to_process: b"a;1.0\nb;2.0", remainder: b"c;3" })
    );
    assert_eq!(
        plan_round(b"a;1.0\n", false),
        Ok(Round::Scan { to_process: b"a;1.0", remainder: b"" })
    );
    assert_eq!(
        plan_round(b"\nabc", false),
        Ok(Round::Scan { to_process: b"", remainder: b"abc" })
    );
    assert_eq!(
        plan_round(b"a\n\n", false),
        Ok(Round::Scan { to_process: b"a\n", remainder: b"" })
    );
}

#[test]
fn round_before_the_end_needs_a_newline() {
    assert_eq!(plan_round(b"a;1.0", false), Err(IngestError::NoNewline));
    assert_eq!(plan_round(b"", false), Err(IngestError::NoNewline));
}

#[test]
fn round_at_the_end_takes_all_but_the_final_newline() {
    assert_eq!(
        plan_round(b"a;1.0\nb;2.0", true),
        Ok(Round::Scan { to_process: b"a;1.0\nb;2.0", remainder: b"" })
    );
    assert_eq!(
        plan_round(b"a;1.0\nb;2.0\n", true),
        Ok(Round::Scan { to_process: b"a;1.0\nb;2.0", remainder: b"" })
    );
    assert_eq!(plan_round(b"\n", true), Ok(Round::Scan { to_process: b"", remainder: b"" }));
    assert_eq!(plan_round(b"", true), Ok(Round::Done));
}

#[test]
fn ensure_registries_only_adds() {
    let mut registries = Vec::new();
    ensure_registries(&mut registries, 3);
    assert_eq!(registries.len(), 3);
    ensure_registries(&mut registries, 2);
    assert_eq!(registries.len(), 3);
    ensure_registries(&mut registries, 0);
    assert_eq!(registries.len(), 3);
}

#[test]
fn partitions_go_to_their_own_registries() {
    let mut registries = Vec::new();
    ensure_registries(&mut registries, 3);
    let chunks: Vec<&[u8]> = vec![b"a;1.0\nb;2.0", b"a;3.0"];
    assert_eq!(scan_partitions(&mut registries, &chunks), Ok(()));
    let third = registries.pop().unwrap();
    let second = registries.pop().unwrap();
    let first = registries.pop().unwrap();
    assert_eq!(third.into_sorted().len(), 0);
    assert_eq!(second.into_sorted().len(), 1);
    assert_eq!(first.into_sorted().len(), 2);
}

#[test]
fn partitions_stop_at_the_first_fault() {
    let mut registries = Vec::new();
    ensure_registries(&mut registries, 3);
    let chunks: Vec<&[u8]> = vec![b"a;1.0", b"b;2.0\nbad", b"worse"];
    assert_eq!(
        scan_partitions(&mut registries, &chunks),
        Err(PartitionError {
            chunk: 1,
            error: ScanError { cause: LineError::Malformed, line: 1, start: 6, end: 9 },
        })
    );
}

#[test]
fn scan_round_returns_what_is_done_with() {
    let mut registries = Vec::new();
    let working = b"a;1.0\nb;2.0\nc;3";
    assert_eq!(scan_round(&mut registries, working, false, 2).ok(), Some(12));
    assert_eq!(scan_round(&mut registries, &working[12..], true, 2).ok(), None);
    assert_eq!(scan_round(&mut registries, b"c;3.0\n", true, 2).ok(), Some(6));
    assert_eq!(scan_round(&mut registries, b"", true, 2).ok(), Some(0));
    assert_eq!(
        String::from_utf8(report_registries(registries).ok().unwrap()).unwrap(),
        "{a=1.0/1.0/1.0, b=2.0/2.0/2.0, c=3.0/3.0/3.0}"
    );
}

#[test]
fn report_registries_needs_a_registry() {
    assert_eq!(report_registries(Vec::new()).err(), Some(ReduceError::Empty));
}

#[test]
fn end_to_end_example() {
    let region = b"Paris;12.3\nParis;-1.0\nLondon;5.5\n";
    let expected = "{London=5.5/5.5/5.5, Paris=-1.0/5.7/12.3}";
    for parts in [0, 1, 2, 3, 8, 100] {
        assert_eq!(text(report_region(region, parts)), expected);
        for block in [13, 16, 23, 33, 34, 1000] {
            assert_eq!(text(stream_report(region, block, parts)), expected);
        }
    }
    assert_eq!(naive(region), expected);
}

#[test]
fn single_record_file() {
    for region in [&b"Oslo;-7.3"[..], &b"Oslo;-7.3\n"[..]] {
        assert_eq!(text(report_region(region, 8)), "{Oslo=-7.3/-7.3/-7.3}");
        assert_eq!(text(stream_report(region, 4096, 8)), "{Oslo=-7.3/-7.3/-7.3}");
        assert_eq!(text(stream_report(region, region.len(), 8)), "{Oslo=-7.3/-7.3/-7.3}");
    }
}

#[test]
fn file_without_trailing_newline() {
    let with = b"a;1.0\nb;2.0\na;3.0\n";
    let without = &with[..with.len() - 1];
    let expected = "{a=1.0/2.0/3.0, b=2.0/2.0/2.0}";
    assert_eq!(text(report_region(with, 2)), expected);
    assert_eq!(text(report_region(without, 2)), expected);
    for block in 6..=20 {
        assert_eq!(text(stream_report(with, block, 2)), expected, "block {}", block);
        assert_eq!(text(stream_report(without, block, 2)), expected, "block {}", block);
    }
}

#[test]
fn empty_file_gives_empty_braces() {
    assert_eq!(text(report_region(b"", 8)), "{}");
    assert_eq!(text(stream_report(b"", 1024, 8)), "{}");
    assert_eq!(text(stream_report(b"", 0, 8)), "{}");
}

#[test]
fn strategies_agree_with_the_sequential_scan() {
    for trailing_newline in [true, false] {
        let region = sample(5000, trailing_newline);
        let expected = naive(&region);
        assert!(expected.starts_with("{Abha="));
        for parts in [1, 2, 7, 8, 64] {
            assert_eq!(text(report_region(&region, parts)), expected);
            for block in [64, 100, 1000, 4096, region.len(), region.len() + 1] {
                assert_eq!(text(stream_report(&region, block, parts)), expected);
            }
        }
    }
}

#[test]
fn malformed_line_is_handed_back() {
    let region = b"a;1.0\nb;2.0\nnot a record\nc;3.0\n";
    for parts in [1, 2, 3] {
        let expected = Err(IngestError::Malformed { line: b"not a record".to_vec() });
        assert_eq!(report_region(region, parts), expected);
        for block in [16, 25, 100] {
            assert_eq!(stream_report(region, block, parts), expected);
        }
    }
}

#[test]
fn empty_lines_are_malformed() {
    for region in [&b"\n"[..], &b"a;1.0\n\n"[..], &b"a;1.0\n\nb;1.0"[..], &b"\na;1.0"[..]] {
        let expected = Err(IngestError::Malformed { line: Vec::new() });
        assert_eq!(report_region(region, 1), expected);
        assert_eq!(stream_report(region, 8, 1), expected);
    }
}

#[test]
fn block_without_newline_before_the_end() {
    let region = b"a;1.0\nLongerName;2.0\nb;3.0\n";
    assert_eq!(stream_report(region, 5, 1), Err(IngestError::NoNewline));
    assert_eq!(stream_report(region, 14, 1), Err(IngestError::NoNewline));
    assert_eq!(stream_report(region, 0, 1), Err(IngestError::NoNewline));
    assert_eq!(
        text(stream_report(region, 15, 1)),
        "{LongerName=2.0/2.0/2.0, a=1.0/1.0/1.0, b=3.0/3.0/3.0}"
    );
}

#[test]
fn overflow_is_reported() {
    let mut region = Vec::new();
    for _ in 0..2_149_634 {
        region.extend_from_slice(b"x;99.9\n");
    }
    assert_eq!(report_region(&region, 1), Err(IngestError::Overflow));
    assert_eq!(report_region(&region, 8), Err(IngestError::Overflow));
    assert_eq!(stream_report(&region, 1 << 20, 8), Err(IngestError::Overflow));
    region.truncate(2_149_633 * 7);
    assert_eq!(text(report_region(&region, 8)), "{x=99.9/99.9/99.9}");
}
