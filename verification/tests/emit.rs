use pinout_kicad::emit::{emit, EmitError};
use pinout_kicad::group::{group_and_sort, Group};
use pinout_kicad::record::Record;
use pinout_kicad::scan::scan;
use pinout_kicad::text::decimal_string;

fn strings(items: &[&str]) -> Vec<String> {
    items.iter().map(|s| s.to_string()).collect()
}

fn group(key: &str, pins: &[(&str, &str)]) -> Group {
    let h = strings(&["Pin", "Pin Name"]);
    Group {
        key: key.to_string(),
        records: pins.iter().map(|(pin, name)| Record::new(&h, &[*pin, *name])).collect(),
    }
}

const HEAD: &str = "EESchema-LIBRARY Version 2.4\n#encoding utf-8\n";
const FIELDS: &str = "F0 \"U\" 0 300 50 H V C CNN\nF1 \"FPGA\" 0 200 50 H V C CNN\nF2 \"\" 0 0 50 H I C CNN\nF3 \"\" 0 0 50 H I C CNN\nDRAW\n";
const TAIL: &str = "ENDDRAW\nENDDEF\n#\n#End Library\n";

#[test]
fn no_groups_give_an_empty_symbol() {
    let text = emit(&Vec::new(), "XilinxFPGA").unwrap();
    assert_eq!(text, format!("{}DEF XilinxFPGA U 0 40 Y Y 0 L N\n{}{}", HEAD, FIELDS, TAIL));
}

#[test]
fn group_of_three_has_one_pin_left_and_two_right() {
    let groups = vec![group("0", &[("A1", "CLK"), ("A2", "VCC"), ("B1", "GND")])];
    let text = emit(&groups, "Part").unwrap();
    let units = "S 150 150 2850 -150 1 1 0 f\n\
                 X CLK A1 0 -0 150 R 50 50 1 1 P\n\
                 X VCC A2 3000 -0 150 L 50 50 1 1 P\n\
                 X GND B1 3000 -100 150 L 50 50 1 1 P\n";
    assert_eq!(text, format!("{}DEF Part U 0 40 Y Y 1 L N\n{}{}{}", HEAD, FIELDS, units, TAIL));
}

#[test]
fn units_are_numbered_from_one_in_group_order() {
    let groups = vec![
        group("b", &[("1", "a"), ("2", "b"), ("3", "c"), ("4", "d")]),
        group("a", &[]),
        group("c", &[("5", "e")]),
    ];
    let text = emit(&groups, "X").unwrap();
    let units = "S 150 150 2850 -250 1 1 0 f\n\
                 X a 1 0 -0 150 R 50 50 1 1 P\n\
                 X b 2 0 -100 150 R 50 50 1 1 P\n\
                 X c 3 3000 -0 150 L 50 50 1 1 P\n\
                 X d 4 3000 -100 150 L 50 50 1 1 P\n\
                 S 150 150 2850 -50 2 1 0 f\n\
                 S 150 150 2850 -50 3 1 0 f\n\
                 X e 5 3000 -0 150 L 50 50 3 1 P\n";
    assert_eq!(text, format!("{}DEF X U 0 40 Y Y 3 L N\n{}{}{}", HEAD, FIELDS, units, TAIL));
}

#[test]
fn pin_and_unit_counts_match_the_groups() {
    let sizes = [0usize, 1, 2, 5, 12];
    let groups: Vec<Group> = sizes
        .iter()
        .map(|n| {
            let pins: Vec<(String, String)> =
                (0..*n).map(|i| (format!("Q{}", i), format!("N{}", i))).collect();
            let refs: Vec<(&str, &str)> = pins.iter().map(|(a, b)| (a.as_str(), b.as_str())).collect();
            group("k", &refs)
        })
        .collect();
    let text = emit(&groups, "Many").unwrap();
    assert!(text.contains("DEF Many U 0 40 Y Y 5 L N\n"));
    assert_eq!(text.lines().filter(|l| l.starts_with("S ")).count(), sizes.len());
    for (g, n) in sizes.iter().enumerate() {
        let tail = format!(" 50 50 {} 1 P", g + 1);
        let count = text.lines().filter(|l| l.starts_with("X ") && l.ends_with(&tail)).count();
        assert_eq!(count, *n);
    }
    let right_facing = text.lines().filter(|l| l.contains(" 150 R 50 50 5 1 P")).count();
    let left_facing = text.lines().filter(|l| l.contains(" 150 L 50 50 5 1 P")).count();
    assert_eq!((right_facing, left_facing), (6, 6));
    assert!(text.contains("S 150 150 2850 -650 5 1 0 f\n"));
    assert!(text.contains("X N5 Q5 0 -500 150 R 50 50 5 1 P\n"));
    assert!(text.contains("X N6 Q6 3000 -0 150 L 50 50 5 1 P\n"));
    assert!(text.contains("X N11 Q11 3000 -500 150 L 50 50 5 1 P\n"));
}

#[test]
fn record_without_pin_stops_the_emission() {
    let mut groups = vec![group("0", &[("A1", "CLK")])];
    groups[0].records.push(Record::new(&strings(&["Pin Name"]), &["VCC"]));
    assert_eq!(emit(&groups, "Part"), Err(EmitError::MissingPin));
}

#[test]
fn record_without_pin_name_stops_the_emission() {
    let mut groups = vec![group("0", &[("A1", "CLK")]), group("1", &[])];
    groups[1].records.push(Record::new(&strings(&["Pin"]), &["A2"]));
    assert_eq!(emit(&groups, "Part"), Err(EmitError::MissingPinName));
}

#[test]
fn record_without_either_field_reports_the_pin() {
    let groups = vec![Group { key: "0".to_string(), records: vec![Record::new(&[], &[])] }];
    assert_eq!(emit(&groups, "Part"), Err(EmitError::MissingPin));
}

#[test]
fn first_defective_record_decides_the_error() {
    let mut groups = vec![group("0", &[]), group("1", &[])];
    groups[0].records.push(Record::new(&strings(&["Pin"]), &["A2"]));
    groups[1].records.push(Record::new(&strings(&["Pin Name"]), &["VCC"]));
    assert_eq!(emit(&groups, "Part"), Err(EmitError::MissingPinName));
    groups.reverse();
    assert_eq!(emit(&groups, "Part"), Err(EmitError::MissingPin));
}

#[test]
fn decimal_string_writes_base_ten() {
    assert_eq!(decimal_string(0), "0");
    assert_eq!(decimal_string(7), "7");
    assert_eq!(decimal_string(10), "10");
    assert_eq!(decimal_string(150), "150");
    assert_eq!(decimal_string(3000), "3000");
    assert_eq!(decimal_string(1234567890), "1234567890");
    assert_eq!(decimal_string(u128::MAX), u128::MAX.to_string());
}

#[test]
fn text_to_library_end_to_end() {
    let lines = strings(&[
        "Pinout",
        "",
        "Pin  Pin Name  Bank",
        "A1  CLK  0",
        "A2  VCC  0",
        "broken row",
        "B1  GND  1",
        "",
    ]);
    let table = scan(&lines).unwrap();
    let groups = group_and_sort(table.records(), table.headers(), 2, 1).unwrap();
    let text = emit(&groups, "XilinxFPGA").unwrap();
    let units = "S 150 150 2850 -150 1 1 0 f\n\
                 X CLK A1 0 -0 150 R 50 50 1 1 P\n\
                 X VCC A2 3000 -0 150 L 50 50 1 1 P\n\
                 S 150 150 2850 -50 2 1 0 f\n\
                 X GND B1 3000 -0 150 L 50 50 2 1 P\n";
    assert_eq!(text, format!("{}DEF XilinxFPGA U 0 40 Y Y 2 L N\n{}{}{}", HEAD, FIELDS, units, TAIL));
}
