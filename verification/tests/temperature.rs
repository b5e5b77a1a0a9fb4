use station_stats::temperature::{parse_line, push_float};

fn text_of(value: i32) -> String {
    let mut out = Vec::new();
    push_float(&mut out, value);
    String::from_utf8(out).unwrap()
}

fn parsed(line: &str) -> Option<(String, i32)> {
    parse_line(line.as_bytes()).map(|(name, v)| (String::from_utf8(name.to_vec()).unwrap(), v))
}

#[test]
fn parse_reads_the_four_shapes() {
    assert_eq!(parsed("Paris;12.3"), Some(("Paris".to_string(), 123)));
    assert_eq!(parsed("Paris;1.2"), Some(("Paris".to_string(), 12)));
    assert_eq!(parsed("Paris;-12.3"), Some(("Paris".to_string(), -123)));
    assert_eq!(parsed("Paris;-1.2"), Some(("Paris".to_string(), -12)));
}

#[test]
fn parse_reads_the_extremes() {
    assert_eq!(parsed("x;99.9"), Some(("x".to_string(), 999)));
    assert_eq!(parsed("x;-99.9"), Some(("x".to_string(), -999)));
    assert_eq!(parsed("x;0.0"), Some(("x".to_string(), 0)));
    assert_eq!(parsed("x;-0.1"), Some(("x".to_string(), -1)));
}

#[test]
fn parse_borrows_the_name_from_the_line() {
    let line = b"Zuerich;7.5".to_vec();
    let (name, value) = parse_line(&line).unwrap();
    assert_eq!(name, &line[..7]);
    assert_eq!(value, 75);
}

#[test]
fn parse_takes_any_bytes_as_name() {
    assert_eq!(parsed(";1.0"), Some(("".to_string(), 10)));
    assert_eq!(parsed("a;b;1.0"), Some(("a;b".to_string(), 10)));
    assert_eq!(parsed("ab;;1.2"), Some(("ab;".to_string(), 12)));
    assert_eq!(parsed("a-;1.0"), Some(("a-".to_string(), 10)));
    assert_eq!(parsed("St. John's;-3.4"), Some(("St. John's".to_string(), -34)));
    let line = [0xc3, 0x9c, b';', b'1', b'.', b'0'];
    assert_eq!(parse_line(&line), Some((&line[..2], 10)));
}

#[test]
fn parse_reads_texts_that_are_not_canonical() {
    assert_eq!(parsed("x;01.2"), Some(("x".to_string(), 12)));
    assert_eq!(parsed("x;-0.0"), Some(("x".to_string(), 0)));
    assert_eq!(parsed("x;-00.0"), Some(("x".to_string(), 0)));
}

#[test]
fn parse_rejects_what_is_no_record() {
    for line in [
        "", "x", "1.0", "x;", "x;1", "x;1.", "x;.1", "x;1.23", "x;123.4", "x;1,2", "x;a.b",
        "x;1a.2", "x;a1.2", "x;+1.2", "x;--1.2", "x;-.2", "x 1.2", "x;1.2 ", "x;1.2\n", "x-1.2",
        "x;12", "x;-1", ";", "-1.2", "x:1.2", "x;1.2;", "x;ab.c",
    ] {
        assert_eq!(parsed(line), None, "line {:?}", line);
    }
}

#[test]
fn push_float_writes_each_shape() {
    assert_eq!(text_of(123), "12.3");
    assert_eq!(text_of(12), "1.2");
    assert_eq!(text_of(-123), "-12.3");
    assert_eq!(text_of(-12), "-1.2");
    assert_eq!(text_of(0), "0.0");
    assert_eq!(text_of(-1), "-0.1");
    assert_eq!(text_of(5), "0.5");
    assert_eq!(text_of(100), "10.0");
    assert_eq!(text_of(99), "9.9");
    assert_eq!(text_of(999), "99.9");
    assert_eq!(text_of(-999), "-99.9");
    assert_eq!(text_of(-100), "-10.0");
}

#[test]
fn push_float_appends_to_what_is_there() {
    let mut out = b"t=".to_vec();
    push_float(&mut out, 57);
    push_float(&mut out, -3);
    assert_eq!(out, b"t=5.7-0.3".to_vec());
}

#[test]
fn round_trip_of_the_shapes() {
    for text in ["-12.3", "-1.2", "12.3", "1.2", "0.0", "-0.1"] {
        let line = format!("Station;{}", text);
        let (name, value) = parse_line(line.as_bytes()).unwrap();
        assert_eq!(name, b"Station");
        assert_eq!(text_of(value), text);
    }
}

#[test]
fn round_trip_of_every_temperature() {
    for value in -999..=999 {
        let mut line = b"Some Name;".to_vec();
        push_float(&mut line, value);
        assert_eq!(parse_line(&line), Some((&b"Some Name"[..], value)));
    }
}
