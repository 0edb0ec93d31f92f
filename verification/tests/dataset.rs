use csv::StringRecord;
use csv_join::lexical::{compare_bytes, Comparison};
use csv_join::record::{concat_records, field_bytes};
use csv_join::sorting::stable_sort_by_column;
use csv_join::{DataSet, IndexError};

fn rec(fields: &[&str]) -> StringRecord {
    StringRecord::from(fields.to_vec())
}

fn data(headers: &[&str], rows: &[&[&str]]) -> DataSet {
    DataSet::new(rec(headers), rows.iter().map(|row| rec(row)).collect())
}

#[test]
fn new_keeps_headers_and_rows() {
    let table = data(&["a", "b"], &[&["1", "2"], &["3", "4"]]);
    assert_eq!(table.headers(), &rec(&["a", "b"]));
    assert_eq!(table.records(), &vec![rec(&["1", "2"]), rec(&["3", "4"])]);
}

#[test]
fn key_index_finds_every_header() {
    let table = data(&["id", "name", "email"], &[]);
    assert_eq!(table.key_index("id"), Ok(0));
    assert_eq!(table.key_index("name"), Ok(1));
    assert_eq!(table.key_index("email"), Ok(2));
}

#[test]
fn key_index_takes_the_first_of_equal_headers() {
    let table = data(&["x", "dup", "y", "dup", "dup"], &[]);
    assert_eq!(table.key_index("dup"), Ok(1));
}

#[test]
fn key_index_fails_for_an_absent_name() {
    let table = data(&["id", "name"], &[&["1", "id"]]);
    assert_eq!(
        table.key_index("email"),
        Err(IndexError::ColumnNotFound { column: "email".to_string() })
    );
}

#[test]
fn key_index_wants_the_whole_name() {
    let table = data(&["identity", "id "], &[]);
    assert_eq!(
        table.key_index("id"),
        Err(IndexError::ColumnNotFound { column: "id".to_string() })
    );
    assert_eq!(
        table.key_index("ID"),
        Err(IndexError::ColumnNotFound { column: "ID".to_string() })
    );
    assert_eq!(table.key_index("id "), Ok(1));
}

#[test]
fn key_index_on_no_headers_fails() {
    let table = data(&[], &[]);
    assert_eq!(
        table.key_index(""),
        Err(IndexError::ColumnNotFound { column: String::new() })
    );
}

#[test]
fn key_index_finds_an_empty_header() {
    let table = data(&["a", ""], &[]);
    assert_eq!(table.key_index(""), Ok(1));
}

#[test]
fn sort_by_index_orders_rows_by_the_column() {
    let mut table = data(&["id", "v"], &[&["c", "1"], &["a", "2"], &["b", "3"]]);
    assert_eq!(table.sort_by_index(0), Ok(()));
    assert_eq!(table.records(), &vec![rec(&["a", "2"]), rec(&["b", "3"]), rec(&["c", "1"])]);
    assert_eq!(table.headers(), &rec(&["id", "v"]));
    assert_eq!(table.sort_by_index(1), Ok(()));
    assert_eq!(table.records(), &vec![rec(&["c", "1"]), rec(&["a", "2"]), rec(&["b", "3"])]);
}

#[test]
fn sort_by_index_is_stable() {
    let mut table = data(
        &["k", "n"],
        &[
            &["b", "1"],
            &["a", "2"],
            &["b", "3"],
            &["a", "4"],
            &["c", "5"],
            &["a", "6"],
            &["b", "7"],
        ],
    );
    assert_eq!(table.sort_by_index(0), Ok(()));
    assert_eq!(
        table.records(),
        &vec![
            rec(&["a", "2"]),
            rec(&["a", "4"]),
            rec(&["a", "6"]),
            rec(&["b", "1"]),
            rec(&["b", "3"]),
            rec(&["b", "7"]),
            rec(&["c", "5"]),
        ]
    );
}

#[test]
fn sort_by_index_rejects_a_position_past_the_headers() {
    let mut table = data(&["id", "v"], &[&["b", "1"], &["a", "2"]]);
    assert_eq!(table.sort_by_index(2), Err(IndexError::IndexOutOfRange { index: 2 }));
    assert_eq!(table.sort_by_index(99), Err(IndexError::IndexOutOfRange { index: 99 }));
    assert_eq!(table.records(), &vec![rec(&["b", "1"]), rec(&["a", "2"])]);
}

#[test]
fn sort_by_index_on_no_headers_fails() {
    let mut table = data(&[], &[]);
    assert_eq!(table.sort_by_index(0), Err(IndexError::IndexOutOfRange { index: 0 }));
}

#[test]
fn sort_by_index_on_no_rows_and_one_row() {
    let mut none = data(&["id"], &[]);
    assert_eq!(none.sort_by_index(0), Ok(()));
    assert!(none.records().is_empty());
    let mut one = data(&["id"], &[&["x"]]);
    assert_eq!(one.sort_by_index(0), Ok(()));
    assert_eq!(one.records(), &vec![rec(&["x"])]);
}

#[test]
fn sort_by_index_uses_byte_order() {
    let mut table = data(
        &["k"],
        &[&["b"], &["ab"], &["B"], &["a"], &[""], &["é"], &["10"], &["9"], &["abc"], &["z"]],
    );
    assert_eq!(table.sort_by_index(0), Ok(()));
    let keys: Vec<&str> = table.records().iter().map(|row| &row[0]).collect();
    assert_eq!(keys, vec!["", "10", "9", "B", "a", "ab", "abc", "b", "z", "é"]);
}

#[test]
fn sort_by_index_agrees_with_a_stable_sort_of_many_rows() {
    let mut rows: Vec<StringRecord> = Vec::new();
    let mut seed: u32 = 12345;
    for n in 0..500 {
        seed = seed.wrapping_mul(1103515245).wrapping_add(12345);
        let key = format!("k{}", (seed >> 16) % 23);
        rows.push(StringRecord::from(vec![n.to_string(), key]));
    }
    let mut expected = rows.clone();
    expected.sort_by(|a, b| a[1].cmp(&b[1]));
    let mut table = DataSet::new(rec(&["n", "key"]), rows);
    assert_eq!(table.sort_by_index(1), Ok(()));
    assert_eq!(table.records(), &expected);
}

#[test]
fn stable_sort_by_column_keeps_ties_in_order() {
    let rows = vec![rec(&["2", "x"]), rec(&["1", "y"]), rec(&["2", "z"]), rec(&["1", "w"])];
    let sorted = stable_sort_by_column(rows, 0);
    assert_eq!(
        sorted,
        vec![rec(&["1", "y"]), rec(&["1", "w"]), rec(&["2", "x"]), rec(&["2", "z"])]
    );
}

#[test]
fn is_well_formed_compares_row_and_header_widths() {
    assert!(data(&["a", "b"], &[&["1", "2"], &["3", "4"]]).is_well_formed());
    assert!(data(&["a", "b"], &[]).is_well_formed());
    assert!(data(&[], &[]).is_well_formed());
    assert!(!data(&["a", "b"], &[&["1", "2"], &["3"]]).is_well_formed());
    assert!(!data(&["a"], &[&["1", "2"]]).is_well_formed());
}

#[test]
fn compare_bytes_orders_lexicographically() {
    assert_eq!(compare_bytes(b"abc", b"abd"), Comparison::Less);
    assert_eq!(compare_bytes(b"abd", b"abc"), Comparison::Greater);
    assert_eq!(compare_bytes(b"abc", b"abc"), Comparison::Equal);
    assert_eq!(compare_bytes(b"", b""), Comparison::Equal);
    assert_eq!(compare_bytes(b"", b"a"), Comparison::Less);
    assert_eq!(compare_bytes(b"a", b""), Comparison::Greater);
    assert_eq!(compare_bytes(b"ab", b"abc"), Comparison::Less);
    assert_eq!(compare_bytes(b"abc", b"ab"), Comparison::Greater);
    assert_eq!(compare_bytes(b"b", b"abc"), Comparison::Greater);
    assert_eq!(compare_bytes(b"10", b"9"), Comparison::Less);
    assert_eq!(compare_bytes(b"Z", b"a"), Comparison::Less);
    assert_eq!(compare_bytes(&[0x7f], &[0x80]), Comparison::Less);
    assert_eq!(compare_bytes(&[0xff], &[0x00, 0x01]), Comparison::Greater);
}

#[test]
fn compare_bytes_agrees_with_the_order_of_strings() {
    let words = ["", "a", "A", "ab", "b", "é", "e", "z", "zz", "日本", "10", "2"];
    for a in words {
        for b in words {
            let expected = match a.cmp(b) {
                std::cmp::Ordering::Less => Comparison::Less,
                std::cmp::Ordering::Equal => Comparison::Equal,
                std::cmp::Ordering::Greater => Comparison::Greater,
            };
            assert_eq!(compare_bytes(a.as_bytes(), b.as_bytes()), expected);
        }
    }
}

#[test]
fn concat_records_puts_left_fields_before_right_fields() {
    let joined = concat_records(&rec(&["a", "b"]), &rec(&["c"]));
    assert_eq!(joined, rec(&["a", "b", "c"]));
    assert_eq!(joined.len(), 3);
    assert_eq!(concat_records(&rec(&[]), &rec(&["x"])), rec(&["x"]));
    assert_eq!(concat_records(&rec(&["x"]), &rec(&[])), rec(&["x"]));
    assert_eq!(concat_records(&rec(&[]), &rec(&[])), rec(&[]));
    assert_eq!(concat_records(&rec(&["ab", ""]), &rec(&["", "c"])), rec(&["ab", "", "", "c"]));
}

#[test]
fn field_bytes_gives_the_field_as_utf8() {
    let record = rec(&["id", "é", ""]);
    assert_eq!(field_bytes(&record, 0), b"id");
    assert_eq!(field_bytes(&record, 1), "é".as_bytes());
    assert_eq!(field_bytes(&record, 1).len(), 2);
    assert_eq!(field_bytes(&record, 2), b"");
}
