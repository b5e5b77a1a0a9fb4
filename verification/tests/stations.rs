use station_stats::stations::{station_name, station_names};

fn lines(text: &[&str]) -> Vec<Vec<u8>> {
    text.iter().map(|line| line.as_bytes().to_vec()).collect()
}

fn names(text: &[&str]) -> Vec<String> {
    station_names(&lines(text)).into_iter().map(|n| String::from_utf8(n).unwrap()).collect()
}

#[test]
fn name_is_what_comes_before_the_first_semicolon() {
    assert_eq!(station_name(b"Paris;12.3"), Some(&b"Paris"[..]));
    assert_eq!(station_name(b"Paris;12.3;more"), Some(&b"Paris"[..]));
    assert_eq!(station_name(b";12.3"), Some(&b""[..]));
    assert_eq!(station_name(b"St. John's;"), Some(&b"St. John's"[..]));
    assert_eq!(station_name(b"No. #5;1.0"), Some(&b"No. #5"[..]));
}

#[test]
fn comment_lines_name_no_station() {
    assert_eq!(station_name(b"# Adapted from some list"), None);
    assert_eq!(station_name(b"#Paris;12.3"), None);
    assert_eq!(station_name(b"#"), None);
}

#[test]
fn lines_without_semicolon_name_no_station() {
    assert_eq!(station_name(b"Paris"), None);
    assert_eq!(station_name(b""), None);
    assert_eq!(station_name(b"Paris 12.3"), None);
}

#[test]
fn names_come_once_and_sorted() {
    assert_eq!(
        names(&[
            "# comment;not a name",
            "Paris;2.34",
            "London;11.1",
            "Paris;9.0",
            "no semicolon",
            "Aachen;1.0",
            "London;-3.0",
            "Paris, Texas;18.0",
        ]),
        vec!["Aachen", "London", "Paris", "Paris, Texas"]
    );
}

#[test]
fn names_of_no_line() {
    assert_eq!(names(&[]), Vec::<String>::new());
    assert_eq!(names(&["# only", "comments", ""]), Vec::<String>::new());
}

#[test]
fn names_keep_bytes_beyond_ascii() {
    assert_eq!(names(&["Zürich;9.3", "Ürümqi;7.4", "Zürich;1.0"]), vec!["Zürich", "Ürümqi"]);
}
