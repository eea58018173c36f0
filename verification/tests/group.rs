use pinout_kicad::group::{group_and_sort, insert_sorted, Group, GroupError};
use pinout_kicad::record::Record;

fn strings(items: &[&str]) -> Vec<String> {
    items.iter().map(|s| s.to_string()).collect()
}

fn headers() -> Vec<String> {
    strings(&["Pin", "Pin Name", "Bank"])
}

fn records(rows: &[[&str; 3]]) -> Vec<Record> {
    let h = headers();
    rows.iter().map(|r| Record::new(&h, &r[..])).collect()
}

fn pins(group: &Group) -> Vec<String> {
    group.records.iter().map(|r| r.get("Pin").unwrap().clone()).collect()
}

fn keys(groups: &[Group]) -> Vec<String> {
    groups.iter().map(|g| g.key.clone()).collect()
}

fn grouped(rows: &[[&str; 3]], by: usize, sort: usize) -> Vec<Group> {
    match group_and_sort(&records(rows), &headers(), by, sort) {
        Ok(groups) => groups,
        Err(e) => panic!("grouping failed: {:?}", e),
    }
}

#[test]
fn groups_by_bank_and_sorts_by_pin_name() {
    let groups = grouped(&[["A1", "CLK", "0"], ["A2", "VCC", "0"], ["B1", "GND", "1"]], 2, 1);
    assert_eq!(keys(&groups), strings(&["0", "1"]));
    assert_eq!(pins(&groups[0]), strings(&["A1", "A2"]));
    assert_eq!(pins(&groups[1]), strings(&["B1"]));
    assert_eq!(groups[0].records[0].get("Pin Name").unwrap(), "CLK");
    assert_eq!(groups[0].records[1].get("Pin Name").unwrap(), "VCC");
}

#[test]
fn groups_come_in_first_seen_order() {
    let groups = grouped(
        &[["A1", "x", "2"], ["A2", "x", "0"], ["A3", "x", "2"], ["A4", "x", "1"], ["A5", "x", "0"]],
        2,
        0,
    );
    assert_eq!(keys(&groups), strings(&["2", "0", "1"]));
    assert_eq!(pins(&groups[0]), strings(&["A1", "A3"]));
    assert_eq!(pins(&groups[1]), strings(&["A2", "A5"]));
    assert_eq!(pins(&groups[2]), strings(&["A4"]));
}

#[test]
fn sort_is_ascending_and_not_numeric() {
    let groups = grouped(
        &[["A2", "n", "0"], ["A10", "n", "0"], ["A1", "n", "0"], ["B1", "n", "0"], ["A", "n", "0"]],
        2,
        0,
    );
    assert_eq!(pins(&groups[0]), strings(&["A", "A1", "A10", "A2", "B1"]));
}

#[test]
fn sort_keeps_ties_in_input_order() {
    let groups = grouped(
        &[["D3", "IO", "0"], ["D1", "GND", "0"], ["D2", "IO", "0"], ["D0", "GND", "0"], ["D9", "IO", "0"]],
        2,
        1,
    );
    assert_eq!(pins(&groups[0]), strings(&["D1", "D0", "D3", "D2", "D9"]));
}

#[test]
fn sorting_a_sorted_group_changes_nothing() {
    let rows = [["A3", "c", "0"], ["A1", "a", "0"], ["A2", "b", "1"], ["A4", "a", "0"]];
    let once = grouped(&rows, 2, 1);
    for g in &once {
        let again = group_and_sort(&g.records, &headers(), 2, 1).unwrap();
        assert_eq!(again.len(), 1);
        assert_eq!(again[0].key, g.key);
        assert_eq!(pins(&again[0]), pins(g));
    }
}

#[test]
fn groups_partition_the_records() {
    let rows = [
        ["A1", "a", "0"],
        ["A2", "b", "1"],
        ["A3", "c", "0"],
        ["A4", "d", "2"],
        ["A5", "e", "1"],
        ["A6", "f", "0"],
    ];
    let groups = grouped(&rows, 2, 0);
    let mut seen: Vec<String> = Vec::new();
    for g in &groups {
        for r in &g.records {
            assert_eq!(r.get("Bank").unwrap(), &g.key);
            seen.push(r.get("Pin").unwrap().clone());
        }
    }
    assert_eq!(seen.len(), rows.len());
    seen.sort();
    assert_eq!(seen, strings(&["A1", "A2", "A3", "A4", "A5", "A6"]));
    let mut ks = keys(&groups);
    ks.sort();
    ks.dedup();
    assert_eq!(ks.len(), groups.len());
}

#[test]
fn group_keys_are_compared_exactly() {
    let groups = grouped(&[["A1", "a", "0"], ["A2", "b", "00"], ["A3", "c", "0 "], ["A4", "d", "0"]], 2, 0);
    assert_eq!(keys(&groups), strings(&["0", "00", "0 "]));
    assert_eq!(pins(&groups[0]), strings(&["A1", "A4"]));
}

#[test]
fn grouping_and_sorting_by_one_field() {
    let groups = grouped(&[["A1", "b", "0"], ["A2", "a", "0"], ["A3", "b", "0"]], 1, 1);
    assert_eq!(keys(&groups), strings(&["b", "a"]));
    assert_eq!(pins(&groups[0]), strings(&["A1", "A3"]));
    assert_eq!(pins(&groups[1]), strings(&["A2"]));
}

#[test]
fn no_records_give_no_groups() {
    let groups = group_and_sort(&Vec::new(), &headers(), 0, 1).unwrap();
    assert!(groups.is_empty());
}

#[test]
fn group_index_out_of_range_is_refused() {
    let r = group_and_sort(&records(&[["A1", "a", "0"]]), &headers(), 3, 0);
    assert_eq!(r.err(), Some(GroupError::GroupIndex));
    let r = group_and_sort(&records(&[["A1", "a", "0"]]), &headers(), usize::MAX, 7);
    assert_eq!(r.err(), Some(GroupError::GroupIndex));
    let r = group_and_sort(&Vec::new(), &Vec::new(), 0, 0);
    assert_eq!(r.err(), Some(GroupError::GroupIndex));
}

#[test]
fn sort_index_out_of_range_is_refused() {
    let r = group_and_sort(&records(&[["A1", "a", "0"]]), &headers(), 2, 3);
    assert_eq!(r.err(), Some(GroupError::SortIndex));
}

#[test]
fn record_without_the_chosen_field_is_refused() {
    let mut rs = records(&[["A1", "a", "0"]]);
    rs.push(Record::new(&strings(&["Pin", "Pin Name"]), &["A2", "b"]));
    let r = group_and_sort(&rs, &headers(), 2, 0);
    assert_eq!(r.err(), Some(GroupError::MissingField));
    let r = group_and_sort(&rs, &headers(), 0, 2);
    assert_eq!(r.err(), Some(GroupError::MissingField));
    let r = group_and_sort(&rs, &headers(), 0, 1);
    assert!(r.is_ok());
}

#[test]
fn insert_sorted_puts_a_record_behind_its_equals() {
    let h = strings(&["Pin", "Pin Name"]);
    let mut v: Vec<Record> = Vec::new();
    insert_sorted(&mut v, Record::new(&h, &["1", "m"]), "Pin Name");
    insert_sorted(&mut v, Record::new(&h, &["2", "z"]), "Pin Name");
    insert_sorted(&mut v, Record::new(&h, &["3", "a"]), "Pin Name");
    insert_sorted(&mut v, Record::new(&h, &["4", "m"]), "Pin Name");
    insert_sorted(&mut v, Record::new(&h, &["5", "zz"]), "Pin Name");
    let order: Vec<&str> = v.iter().map(|r| r.get("Pin").unwrap().as_str()).collect();
    assert_eq!(order, vec!["3", "1", "4", "2", "5"]);
}
