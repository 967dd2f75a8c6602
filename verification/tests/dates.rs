use crab_gallery::dates::{format_date, pick_reading, read_date, Date};
use crab_gallery::templates::missing_templates;

const FORMAT: &str = "%d.%m.%Y %H:%M:%S %:z";

fn shown(text: &str) -> String {
    format_date(read_date(Some(text)).unwrap(), FORMAT).unwrap()
}

#[test]
fn dates_are_read_and_written() {
    assert_eq!(shown("2024-01-02T03:04:05+02:00"), "02.01.2024 03:04:05 +02:00");
    assert_eq!(shown("2024-01-02T03:04:05.75Z"), "02.01.2024 03:04:05 +00:00");
    assert_eq!(shown("2024-01-02 03:04:05 -0530"), "02.01.2024 03:04:05 -05:30");
    assert_eq!(shown("2016-12-31T23:59:60Z"), "31.12.2016 23:59:60 +00:00");
    let date = read_date(Some("1970-01-01T01:00:01.5+01:00")).unwrap();
    assert_eq!(date, Date { secs: 1, nanos: 500_000_000, offset_secs: 3600 });
}

#[test]
fn unreadable_dates_are_told() {
    assert_eq!(
        read_date(None).unwrap_err(),
        "Filter `date_format` expected a string value"
    );
    for text in ["", "yesterday", "2024-01-02 03:04:05", "2024-13-02T03:04:05Z"] {
        let last = chrono::DateTime::parse_from_str(text, "%Y-%m-%d %H:%M:%S").unwrap_err();
        assert_eq!(
            read_date(Some(text)).unwrap_err(),
            format!("Failed to parse date '{text}': {last}")
        );
    }
}

#[test]
fn first_reading_that_succeeds_counts() {
    let date = |secs| Date { secs, nanos: 0, offset_secs: 0 };
    let bad = |e: &str| Err(e.to_string());
    assert_eq!(pick_reading("t", Some(date(1)), Ok(date(2)), Ok(date(3))), Ok(date(1)));
    assert_eq!(pick_reading("t", None, Ok(date(2)), Ok(date(3))), Ok(date(2)));
    assert_eq!(pick_reading("t", None, bad("a"), Ok(date(3))), Ok(date(3)));
    assert_eq!(
        pick_reading("t", None, bad("a"), bad("b")),
        Err("Failed to parse date 't': b".to_string())
    );
}

#[test]
fn bad_patterns_give_no_text() {
    let date = Date { secs: 0, nanos: 0, offset_secs: 0 };
    assert_eq!(format_date(date, "%Y").as_deref(), Some("1970"));
    assert_eq!(format_date(date, ""), Some(String::new()));
    assert_eq!(format_date(date, "%Q"), None);
    assert_eq!(format_date(Date { offset_secs: 86_400, ..date }, "%Y"), None);
    assert_eq!(format_date(Date { secs: i64::MAX, ..date }, "%Y"), None);
}

#[test]
fn templates_missing_on_disk_are_compiled_in() {
    let names = |n: &[&str]| -> Vec<String> { n.iter().map(|s| s.to_string()).collect() };
    let embedded = names(&["index.tera", "view.tera", "style.css"]);
    assert_eq!(missing_templates(&embedded, &[]), [0, 1, 2]);
    assert_eq!(missing_templates(&embedded, &names(&["view.tera", "other"])), [0, 2]);
    assert!(missing_templates(&embedded, &embedded).is_empty());
}
