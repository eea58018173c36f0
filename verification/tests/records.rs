use pinout_kicad::record::{clone_strings, str_eq, Record};

fn strings(items: &[&str]) -> Vec<String> {
    items.iter().map(|s| s.to_string()).collect()
}

fn value<'a>(r: &'a Record, name: &str) -> Option<&'a str> {
    r.get(name).map(|s| s.as_str())
}

#[test]
fn record_pairs_headers_with_values() {
    let r = Record::new(&strings(&["Pin", "Pin Name", "Bank"]), &["A1", "CLK", "0"]);
    assert_eq!(value(&r, "Pin"), Some("A1"));
    assert_eq!(value(&r, "Pin Name"), Some("CLK"));
    assert_eq!(value(&r, "Bank"), Some("0"));
    assert_eq!(value(&r, "Type"), None);
}

#[test]
fn record_lookup_is_exact_about_names() {
    let r = Record::new(&strings(&["Pin Name"]), &["CLK"]);
    assert_eq!(value(&r, "Pin"), None);
    assert_eq!(value(&r, "pin name"), None);
    assert_eq!(value(&r, "Pin Name "), None);
    assert_eq!(value(&r, "Pin Name"), Some("CLK"));
}

#[test]
fn repeated_header_keeps_last_value() {
    let r = Record::new(&strings(&["Pin", "Bank", "Pin"]), &["A1", "0", "B2"]);
    assert_eq!(value(&r, "Pin"), Some("B2"));
    assert_eq!(value(&r, "Bank"), Some("0"));
}

#[test]
fn record_ignores_columns_without_a_partner() {
    let more_headers = Record::new(&strings(&["Pin", "Bank"]), &["A1"]);
    assert_eq!(value(&more_headers, "Pin"), Some("A1"));
    assert_eq!(value(&more_headers, "Bank"), None);
    let more_values = Record::new(&strings(&["Pin"]), &["A1", "0"]);
    assert_eq!(value(&more_values, "Pin"), Some("A1"));
}

#[test]
fn empty_record_has_no_fields() {
    let r = Record::new(&[], &[]);
    assert_eq!(value(&r, "Pin"), None);
    assert_eq!(value(&r, ""), None);
}

#[test]
fn clone_keeps_every_field() {
    let r = Record::new(&strings(&["Pin", "Pin Name"]), &["A1", "CLK"]);
    let c = r.clone();
    assert_eq!(value(&c, "Pin"), Some("A1"));
    assert_eq!(value(&c, "Pin Name"), Some("CLK"));
    assert_eq!(value(&c, "Bank"), None);
}

#[test]
fn clone_strings_copies_in_order() {
    let v = strings(&["b", "a", ""]);
    assert_eq!(clone_strings(&v), v);
    assert_eq!(clone_strings(&Vec::new()), Vec::<String>::new());
}

#[test]
fn str_eq_compares_characters() {
    assert!(str_eq("Pin", "Pin"));
    assert!(str_eq("", ""));
    assert!(!str_eq("Pin", "Pin "));
    assert!(!str_eq("Pin", "pin"));
    assert!(!str_eq("", "a"));
    assert!(str_eq("é☃", "é☃"));
    assert!(!str_eq("é", "e"));
}

#[test]
fn field_names_are_sorted_and_distinct() {
    let r = Record::new(&strings(&["Pin", "Bank", "Pin Name", "Bank", "A"]), &["1", "2", "3", "4", "5"]);
    assert_eq!(r.field_names(), strings(&["A", "Bank", "Pin", "Pin Name"]));
    assert_eq!(Record::new(&[], &[]).field_names(), Vec::<String>::new());
    let partial = Record::new(&strings(&["b", "a", "c"]), &["1", "2"]);
    assert_eq!(partial.field_names(), strings(&["a", "b"]));
}

#[test]
fn render_lists_fields_in_order_of_their_names() {
    let r = Record::new(&strings(&["Pin", "Pin Name", "Bank"]), &["A1", "CLK", "0"]);
    assert_eq!(r.render(), "\"Bank\": \"0\" \"Pin\": \"A1\" \"Pin Name\": \"CLK\" ");
    assert_eq!(Record::new(&[], &[]).render(), "");
}

#[test]
fn render_escapes_what_does_not_print() {
    let r = Record::new(&strings(&["Na\"me"]), &["a\tb\\"]);
    assert_eq!(r.render(), "\"Na\\\"me\": \"a\\tb\\\\\" ");
}
