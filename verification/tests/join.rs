use csv::StringRecord;
use csv_join::{DataSet, IndexError};

fn record(fields: &[&str]) -> StringRecord {
    StringRecord::from(fields.to_vec())
}

fn table(headers: &[&str], rows: &[&[&str]]) -> DataSet {
    DataSet::new(record(headers), rows.iter().map(|row| record(row)).collect())
}

fn rows_of(data: &DataSet) -> Vec<Vec<String>> {
    data.records()
        .iter()
        .map(|row| row.iter().map(|field| field.to_string()).collect())
        .collect()
}

fn strings(rows: &[&[&str]]) -> Vec<Vec<String>> {
    rows.iter().map(|row| row.iter().map(|field| field.to_string()).collect()).collect()
}

#[test]
fn joins_matching_rows_and_drops_the_rest() {
    let mut left = table(&["id", "name"], &[&["1", "a"], &["2", "b"]]);
    let mut right = table(&["id", "amt"], &[&["2", "x"], &["2", "y"], &["3", "z"]]);
    let joined = left.inner_join(&mut right, "id").unwrap();
    assert_eq!(joined.headers(), &record(&["id", "name", "id", "amt"]));
    assert_eq!(rows_of(&joined), strings(&[&["2", "b", "2", "x"], &["2", "b", "2", "y"]]));
}

#[test]
fn empty_left_gives_headers_and_no_rows() {
    let mut left = table(&["id", "name"], &[]);
    let mut right = table(&["id", "amt"], &[&["2", "x"], &["1", "y"]]);
    let joined = left.inner_join(&mut right, "id").unwrap();
    assert_eq!(joined.headers(), &record(&["id", "name", "id", "amt"]));
    assert_eq!(joined.records().len(), 0);
    // Nothing was sorted.
    assert_eq!(rows_of(&right), strings(&[&["2", "x"], &["1", "y"]]));
}

#[test]
fn empty_right_gives_headers_and_no_rows() {
    let mut left = table(&["id", "name"], &[&["9", "z"], &["1", "a"], &["5", "m"]]);
    let mut right = table(&["k", "id"], &[]);
    let joined = left.inner_join(&mut right, "id").unwrap();
    assert_eq!(joined.headers(), &record(&["id", "name", "k", "id"]));
    assert!(joined.records().is_empty());
    assert_eq!(rows_of(&left), strings(&[&["9", "z"], &["1", "a"], &["5", "m"]]));
}

#[test]
fn both_empty_gives_headers_and_no_rows() {
    let mut left = table(&["id"], &[]);
    let mut right = table(&["id"], &[]);
    let joined = left.inner_join(&mut right, "id").unwrap();
    assert_eq!(joined.headers(), &record(&["id", "id"]));
    assert!(joined.records().is_empty());
}

#[test]
fn missing_column_on_the_left_fails() {
    let mut left = table(&["name", "age"], &[&["a", "1"]]);
    let mut right = table(&["id", "amt"], &[&["1", "x"]]);
    let error = left.inner_join(&mut right, "id").unwrap_err();
    assert_eq!(error, IndexError::ColumnNotFound { column: "id".to_string() });
    assert_eq!(rows_of(&left), strings(&[&["a", "1"]]));
    assert_eq!(rows_of(&right), strings(&[&["1", "x"]]));
}

#[test]
fn missing_column_on_the_right_fails() {
    let mut left = table(&["id", "name"], &[&["2", "b"], &["1", "a"]]);
    let mut right = table(&["ident", "amt"], &[&["1", "x"]]);
    let error = left.inner_join(&mut right, "id").unwrap_err();
    assert_eq!(error, IndexError::ColumnNotFound { column: "id".to_string() });
    // The failure came before any sorting.
    assert_eq!(rows_of(&left), strings(&[&["2", "b"], &["1", "a"]]));
}

#[test]
fn missing_column_fails_even_without_rows() {
    let mut left = table(&["id"], &[]);
    let mut right = table(&["other"], &[]);
    let error = left.inner_join(&mut right, "id").unwrap_err();
    assert_eq!(error, IndexError::ColumnNotFound { column: "id".to_string() });
}

#[test]
fn duplicate_keys_fan_out() {
    let mut left = table(&["k", "l"], &[&["A", "l1"], &["B", "l2"], &["A", "l3"]]);
    let mut right =
        table(&["r", "k"], &[&["r1", "A"], &["r2", "C"], &["r3", "A"], &["r4", "A"]]);
    let joined = left.inner_join(&mut right, "k").unwrap();
    assert_eq!(
        rows_of(&joined),
        strings(&[
            &["A", "l1", "r1", "A"],
            &["A", "l1", "r3", "A"],
            &["A", "l1", "r4", "A"],
            &["A", "l3", "r1", "A"],
            &["A", "l3", "r3", "A"],
            &["A", "l3", "r4", "A"],
        ])
    );
}

#[test]
fn fan_out_counts_are_products() {
    let mut left_rows: Vec<StringRecord> = Vec::new();
    let mut right_rows: Vec<StringRecord> = Vec::new();
    for i in 0..4 {
        left_rows.push(StringRecord::from(vec!["A".to_string(), format!("l{}", i)]));
    }
    for i in 0..2 {
        left_rows.push(StringRecord::from(vec!["B".to_string(), format!("m{}", i)]));
    }
    for i in 0..3 {
        right_rows.push(StringRecord::from(vec!["A".to_string(), format!("r{}", i)]));
    }
    for i in 0..5 {
        right_rows.push(StringRecord::from(vec!["B".to_string(), format!("s{}", i)]));
    }
    right_rows.push(record(&["C", "t"]));
    let mut left = DataSet::new(record(&["key", "left"]), left_rows);
    let mut right = DataSet::new(record(&["key", "right"]), right_rows);
    let joined = left.inner_join(&mut right, "key").unwrap();
    let with_a = joined.records().iter().filter(|row| &row[0] == "A").count();
    let with_b = joined.records().iter().filter(|row| &row[0] == "B").count();
    let with_c = joined.records().iter().filter(|row| &row[0] == "C").count();
    assert_eq!(with_a, 12);
    assert_eq!(with_b, 10);
    assert_eq!(with_c, 0);
    assert_eq!(joined.records().len(), 22);
}

#[test]
fn every_matching_pair_appears_exactly_once() {
    let left_data: Vec<[&str; 2]> =
        vec![["3", "c"], ["1", "a"], ["2", "b"], ["1", "d"], ["4", "e"], ["2", "f"]];
    let right_data: Vec<[&str; 2]> =
        vec![["x", "2"], ["y", "1"], ["z", "5"], ["w", "1"], ["v", "3"], ["u", "2"]];
    let mut left = DataSet::new(
        record(&["id", "name"]),
        left_data.iter().map(|row| record(row)).collect(),
    );
    let mut right = DataSet::new(
        record(&["tag", "id"]),
        right_data.iter().map(|row| record(row)).collect(),
    );
    let joined = left.inner_join(&mut right, "id").unwrap();
    let rows = rows_of(&joined);
    let mut expected = 0;
    for l in &left_data {
        for r in &right_data {
            let pair: Vec<String> =
                vec![l[0].to_string(), l[1].to_string(), r[0].to_string(), r[1].to_string()];
            let count = rows.iter().filter(|row| **row == pair).count();
            if l[0] == r[1] {
                assert_eq!(count, 1);
                expected += 1;
            } else {
                assert_eq!(count, 0);
            }
        }
    }
    assert_eq!(rows.len(), expected);
    assert_eq!(rows.len(), 9);
}

#[test]
fn equal_rows_appear_with_their_multiplicity() {
    let mut left = table(&["k", "v"], &[&["a", "1"], &["a", "1"]]);
    let mut right = table(&["k", "w"], &[&["a", "2"], &["a", "2"], &["a", "2"]]);
    let joined = left.inner_join(&mut right, "k").unwrap();
    let rows = rows_of(&joined);
    assert_eq!(rows.len(), 6);
    for row in rows {
        assert_eq!(row, vec!["a", "1", "a", "2"]);
    }
}

#[test]
fn unmatched_rows_take_no_part() {
    let mut left = table(&["id", "name"], &[&["1", "only-left"], &["2", "both"]]);
    let mut right = table(&["id", "amt"], &[&["3", "only-right"], &["2", "both"]]);
    let joined = left.inner_join(&mut right, "id").unwrap();
    assert_eq!(rows_of(&joined), strings(&[&["2", "both", "2", "both"]]));
    for row in joined.records() {
        assert!(row.iter().all(|field| field != "only-left" && field != "only-right"));
    }
}

#[test]
fn no_key_in_common_gives_no_rows() {
    let mut left = table(&["id"], &[&["1"], &["3"], &["5"]]);
    let mut right = table(&["id"], &[&["2"], &["4"], &["6"]]);
    let joined = left.inner_join(&mut right, "id").unwrap();
    assert_eq!(joined.headers(), &record(&["id", "id"]));
    assert!(joined.records().is_empty());
}

#[test]
fn headers_are_concatenated_even_when_names_collide() {
    let mut left = table(&["id", "name", "note"], &[&["1", "a", "n"]]);
    let mut right = table(&["note", "id", "name"], &[&["m", "1", "b"]]);
    let joined = left.inner_join(&mut right, "id").unwrap();
    assert_eq!(joined.headers(), &record(&["id", "name", "note", "note", "id", "name"]));
    assert_eq!(rows_of(&joined), strings(&[&["1", "a", "n", "m", "1", "b"]]));
}

#[test]
fn key_column_may_stand_at_different_positions() {
    let mut left = table(&["name", "city", "id"], &[&["a", "x", "7"], &["b", "y", "8"]]);
    let mut right = table(&["id", "amt"], &[&["8", "10"], &["7", "20"]]);
    let joined = left.inner_join(&mut right, "id").unwrap();
    assert_eq!(
        rows_of(&joined),
        strings(&[&["a", "x", "7", "7", "20"], &["b", "y", "8", "8", "10"]])
    );
}

#[test]
fn join_uses_the_first_column_of_that_name() {
    let mut left = table(&["id", "id"], &[&["1", "2"], &["2", "1"]]);
    let mut right = table(&["id", "v"], &[&["1", "one"]]);
    let joined = left.inner_join(&mut right, "id").unwrap();
    assert_eq!(rows_of(&joined), strings(&[&["1", "2", "1", "one"]]));
}

#[test]
fn join_leaves_both_inputs_sorted_by_the_key() {
    let mut left = table(&["id", "n"], &[&["c", "1"], &["a", "2"], &["b", "3"], &["a", "4"]]);
    let mut right = table(&["v", "id"], &[&["x", "b"], &["y", "a"], &["z", "b"]]);
    let joined = left.inner_join(&mut right, "id").unwrap();
    assert_eq!(rows_of(&left), strings(&[&["a", "2"], &["a", "4"], &["b", "3"], &["c", "1"]]));
    assert_eq!(rows_of(&right), strings(&[&["y", "a"], &["x", "b"], &["z", "b"]]));
    assert_eq!(
        rows_of(&joined),
        strings(&[
            &["a", "2", "y", "a"],
            &["a", "4", "y", "a"],
            &["b", "3", "x", "b"],
            &["b", "3", "z", "b"],
        ])
    );
}

#[test]
fn keys_are_compared_as_text_not_as_numbers() {
    let mut left = table(&["id"], &[&["10"], &["9"], &["2"]]);
    let mut right = table(&["id"], &[&["2"], &["10"], &["09"]]);
    let joined = left.inner_join(&mut right, "id").unwrap();
    assert_eq!(rows_of(&left), strings(&[&["10"], &["2"], &["9"]]));
    assert_eq!(rows_of(&joined), strings(&[&["10", "10"], &["2", "2"]]));
}

#[test]
fn joined_table_is_well_formed() {
    let mut left = table(&["id", "a", "b"], &[&["1", "x", "y"], &["2", "p", "q"]]);
    let mut right = table(&["id", "c"], &[&["2", "r"], &["1", "s"]]);
    assert!(left.is_well_formed());
    assert!(right.is_well_formed());
    let joined = left.inner_join(&mut right, "id").unwrap();
    assert!(joined.is_well_formed());
    for row in joined.records() {
        assert_eq!(row.len(), 5);
    }
}

#[test]
fn join_with_empty_key_fields() {
    let mut left = table(&["id", "n"], &[&["", "blank"], &["a", "named"]]);
    let mut right = table(&["id", "m"], &[&["a", "1"], &["", "2"], &["", "3"]]);
    let joined = left.inner_join(&mut right, "id").unwrap();
    assert_eq!(
        rows_of(&joined),
        strings(&[&["", "blank", "", "2"], &["", "blank", "", "3"], &["a", "named", "a", "1"]])
    );
}
