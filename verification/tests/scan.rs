use pinout_kicad::record::Record;
use pinout_kicad::scan::{scan, Line, ScanState, Scanner};

fn text(lines: &[&str]) -> Vec<String> {
    lines.iter().map(|s| s.to_string()).collect()
}

fn value<'a>(r: &'a Record, name: &str) -> Option<&'a str> {
    r.get(name).map(|s| s.as_str())
}

fn row<'a>(fields: &[&'a str]) -> Line<'a> {
    Line { blank: false, fields: fields.to_vec() }
}

fn blank<'a>() -> Line<'a> {
    Line { blank: true, fields: vec![""] }
}

#[test]
fn new_scanner_seeks_the_table() {
    let s = Scanner::new();
    assert_eq!(s.state(), ScanState::SeekTable);
    assert!(s.headers().is_empty());
    assert!(s.records().is_empty());
    assert_eq!(s.pins_parsed(), 0);
}

#[test]
fn seek_table_skips_text_until_a_blank_line() {
    let mut s = Scanner::new();
    s.feed(row(&["Some prose", "with a gap"]));
    assert_eq!(s.state(), ScanState::SeekTable);
    s.feed(blank());
    assert_eq!(s.state(), ScanState::ReadHeader);
    assert!(s.headers().is_empty());
    assert!(s.records().is_empty());
}

#[test]
fn line_behind_the_blank_line_is_the_header() {
    let mut s = Scanner::new();
    s.feed(blank());
    s.feed(row(&["Pin", "Pin Name", "Bank"]));
    assert_eq!(s.state(), ScanState::ReadTable);
    assert_eq!(s.headers(), &vec!["Pin".to_string(), "Pin Name".to_string(), "Bank".to_string()]);
}

#[test]
fn header_is_taken_even_if_blank() {
    let mut s = Scanner::new();
    s.feed(blank());
    s.feed(blank());
    assert_eq!(s.state(), ScanState::ReadTable);
    assert_eq!(s.headers(), &vec!["".to_string()]);
}

#[test]
fn rows_become_records_until_a_blank_line() {
    let mut s = Scanner::new();
    s.feed(blank());
    s.feed(row(&["Pin", "Pin Name", "Bank"]));
    s.feed(row(&["A1", "CLK", "0"]));
    s.feed(row(&["A2", "VCC", "0"]));
    assert_eq!(s.state(), ScanState::ReadTable);
    assert_eq!(s.records().len(), 2);
    assert_eq!(s.pins_parsed(), 0);
    s.feed(blank());
    assert_eq!(s.state(), ScanState::End);
    assert_eq!(s.pins_parsed(), 2);
    assert_eq!(value(&s.records()[0], "Pin"), Some("A1"));
    assert_eq!(value(&s.records()[0], "Pin Name"), Some("CLK"));
    assert_eq!(value(&s.records()[1], "Pin"), Some("A2"));
    assert_eq!(value(&s.records()[1], "Bank"), Some("0"));
}

#[test]
fn row_with_too_few_fields_is_dropped() {
    let mut s = Scanner::new();
    s.feed(blank());
    s.feed(row(&["Pin", "Pin Name", "Bank"]));
    s.feed(row(&["A1", "CLK"]));
    assert_eq!(s.state(), ScanState::ReadTable);
    assert_eq!(s.records().len(), 0);
    s.feed(row(&["A2", "VCC", "0"]));
    s.feed(blank());
    assert_eq!(s.records().len(), 1);
    assert_eq!(s.pins_parsed(), 1);
    assert_eq!(value(&s.records()[0], "Pin"), Some("A2"));
}

#[test]
fn row_with_too_many_fields_is_dropped() {
    let mut s = Scanner::new();
    s.feed(blank());
    s.feed(row(&["Pin", "Pin Name"]));
    s.feed(row(&["A1", "CLK", "0"]));
    s.feed(blank());
    assert_eq!(s.records().len(), 0);
    assert_eq!(s.pins_parsed(), 0);
    assert_eq!(s.state(), ScanState::End);
}

#[test]
fn end_is_terminal() {
    let mut s = Scanner::new();
    s.feed(blank());
    s.feed(row(&["Pin", "Pin Name"]));
    s.feed(row(&["A1", "CLK"]));
    s.feed(blank());
    s.feed(row(&["B1", "GND"]));
    s.feed(blank());
    s.feed(row(&["Pin", "Other"]));
    assert_eq!(s.state(), ScanState::End);
    assert_eq!(s.records().len(), 1);
    assert_eq!(s.pins_parsed(), 1);
    assert_eq!(s.headers(), &vec!["Pin".to_string(), "Pin Name".to_string()]);
}

#[test]
fn feed_line_asks_the_line_rules() {
    let mut s = Scanner::new();
    assert_eq!(s.feed_line("Pinout of the device"), Ok(()));
    assert_eq!(s.state(), ScanState::SeekTable);
    assert_eq!(s.feed_line("   "), Ok(()));
    assert_eq!(s.state(), ScanState::ReadHeader);
    assert_eq!(s.feed_line("  Pin   Pin Name   Bank  "), Ok(()));
    assert_eq!(s.state(), ScanState::ReadTable);
    assert_eq!(s.headers(), &vec!["Pin".to_string(), "Pin Name".to_string(), "Bank".to_string()]);
    assert_eq!(s.feed_line("A1     CLK IN     0"), Ok(()));
    assert_eq!(s.feed_line("A2     VCC"), Ok(()));
    assert_eq!(s.feed_line(""), Ok(()));
    assert_eq!(s.state(), ScanState::End);
    assert_eq!(s.feed_line("trailing text"), Ok(()));
    assert_eq!(s.records().len(), 1);
    assert_eq!(s.pins_parsed(), 1);
    assert_eq!(value(&s.records()[0], "Pin Name"), Some("CLK IN"));
}

#[test]
fn scan_finds_the_table_between_prose() {
    let lines = text(&[
        "Device pinout, see table.",
        "",
        "Pin  Pin Name  Bank",
        "A1  CLK  0",
        "A2  VCC  0",
        "B1  GND  1",
        "",
        "End of document.",
    ]);
    let s = scan(&lines).unwrap();
    assert_eq!(s.state(), ScanState::End);
    assert_eq!(s.headers(), &vec!["Pin".to_string(), "Pin Name".to_string(), "Bank".to_string()]);
    assert_eq!(s.records().len(), 3);
    assert_eq!(s.pins_parsed(), 3);
    assert_eq!(value(&s.records()[2], "Pin"), Some("B1"));
    assert_eq!(value(&s.records()[2], "Pin Name"), Some("GND"));
    assert_eq!(value(&s.records()[2], "Bank"), Some("1"));
}

#[test]
fn record_count_is_the_number_of_matching_rows() {
    let lines = text(&[
        "x  y  z",
        "",
        "Pin  Pin Name  Bank",
        "A1  CLK  0",
        "A2  VCC",
        "A3  IO  1  extra",
        "A4 IO 1",
        "A5  IO  2",
        "",
        "A6  IO  2",
    ]);
    let s = scan(&lines).unwrap();
    assert_eq!(s.records().len(), 2);
    assert_eq!(s.pins_parsed(), 2);
    assert_eq!(value(&s.records()[0], "Pin"), Some("A1"));
    assert_eq!(value(&s.records()[1], "Pin"), Some("A5"));
}

#[test]
fn two_fields_against_three_headers_leave_no_record() {
    let lines = text(&["", "Pin  Pin Name  Bank", "A1  CLK", ""]);
    let s = scan(&lines).unwrap();
    assert_eq!(s.headers().len(), 3);
    assert_eq!(s.records().len(), 0);
    assert_eq!(s.pins_parsed(), 0);
    assert_eq!(s.state(), ScanState::End);
}

#[test]
fn scanning_twice_gives_the_same_records() {
    let lines = text(&["", "Pin  Pin Name", "A1  CLK", "bad", "A2  VCC", "", "tail"]);
    let first = scan(&lines).unwrap();
    let second = scan(&lines).unwrap();
    assert_eq!(first.state(), second.state());
    assert_eq!(first.headers(), second.headers());
    assert_eq!(first.pins_parsed(), second.pins_parsed());
    assert_eq!(first.records().len(), second.records().len());
    for (a, b) in first.records().iter().zip(second.records().iter()) {
        for h in first.headers() {
            assert_eq!(a.get(h), b.get(h));
        }
    }
}

#[test]
fn text_without_blank_line_has_no_table() {
    let s = scan(&text(&["Pin  Pin Name", "A1  CLK"])).unwrap();
    assert_eq!(s.state(), ScanState::SeekTable);
    assert!(s.headers().is_empty());
    assert!(s.records().is_empty());
}

#[test]
fn table_that_runs_to_the_end_of_the_text_is_kept() {
    let s = scan(&text(&["", "Pin  Pin Name", "A1  CLK"])).unwrap();
    assert_eq!(s.state(), ScanState::ReadTable);
    assert_eq!(s.records().len(), 1);
    assert_eq!(s.pins_parsed(), 0);
}

#[test]
fn empty_text_leaves_the_scanner_as_new() {
    let s = scan(&Vec::new()).unwrap();
    assert_eq!(s.state(), ScanState::SeekTable);
    assert_eq!(s.records().len(), 0);
}
