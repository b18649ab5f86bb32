use csv_slice::columns::{find_column, project_row, resolve_columns};
use csv_slice::{extract_columns, CsvSliceError};

const PEOPLE: &str = "Name,Age\nAlice,30\nBob,25\nCharlie,40\n";

fn owned(row: &[&str]) -> Vec<String> {
    row.iter().map(|field| field.to_string()).collect()
}

fn missing(name: &str) -> CsvSliceError {
    CsvSliceError::ColumnNotFound(name.to_string())
}

#[test]
fn test_extract_columns() {
    let csv_data = "Name,Age\nAlice,30\nBob,25\nCharlie,40\n";
    let columns = extract_columns(csv_data.as_bytes(), &["Name"]).unwrap();
    assert_eq!(columns.len(), 3);
    assert_eq!(columns[0][0], "Alice");
    assert_eq!(columns[1][0], "Bob");
    assert_eq!(columns[2][0], "Charlie");
}

#[test]
fn test_extract_columns_not_found() {
    let csv_data = "Name,Age\nAlice,30\n";
    let result = extract_columns(csv_data.as_bytes(), &["Email"]);
    assert!(result.is_err());
}

#[test]
fn columns_single_name() {
    let rows = extract_columns(PEOPLE.as_bytes(), &["Name"]).unwrap();
    assert_eq!(rows, vec![owned(&["Alice"]), owned(&["Bob"]), owned(&["Charlie"])]);
}

#[test]
fn columns_absent_name_is_named() {
    let result = extract_columns(PEOPLE.as_bytes(), &["Email"]);
    assert_eq!(result, Err(missing("Email")));
}

#[test]
fn columns_two_names_from_three() {
    let data = "Name,Email,Age\nAlice,alice@example.com,30\nBob,bob@example.com,25\n";
    let rows = extract_columns(data.as_bytes(), &["Name", "Email"]).unwrap();
    assert_eq!(rows.len(), 2);
    assert_eq!(rows[0][0], "Alice");
    assert_eq!(rows[0][1], "alice@example.com");
    assert_eq!(rows[1], owned(&["Bob", "bob@example.com"]));
}

#[test]
fn columns_follow_the_order_asked() {
    let rows = extract_columns(PEOPLE.as_bytes(), &["Age", "Name"]).unwrap();
    assert_eq!(rows, vec![owned(&["30", "Alice"]), owned(&["25", "Bob"]), owned(&["40", "Charlie"])]);
}

#[test]
fn columns_name_asked_twice_gives_value_twice() {
    let rows = extract_columns(PEOPLE.as_bytes(), &["Age", "Name", "Age"]).unwrap();
    assert_eq!(rows.len(), 3);
    for row in &rows {
        assert_eq!(row.len(), 3);
        assert_eq!(row[0], row[2]);
    }
    assert_eq!(rows[1], owned(&["25", "Bob", "25"]));
}

#[test]
fn columns_one_row_for_each_data_row() {
    let requests: [&[&str]; 4] = [&[], &["Name"], &["Age", "Name"], &["Name", "Name", "Name"]];
    for request in requests {
        assert_eq!(extract_columns(PEOPLE.as_bytes(), request).unwrap().len(), 3);
    }
    assert!(extract_columns("Name,Age\n".as_bytes(), &["Age"]).unwrap().is_empty());
}

#[test]
fn columns_no_names_gives_empty_rows() {
    let rows = extract_columns(PEOPLE.as_bytes(), &[]).unwrap();
    assert_eq!(rows, vec![Vec::<String>::new(); 3]);
}

#[test]
fn columns_first_absent_name_is_reported() {
    let result = extract_columns(PEOPLE.as_bytes(), &["Name", "Email", "Phone"]);
    assert_eq!(result, Err(missing("Email")));
    let result = extract_columns(PEOPLE.as_bytes(), &["Phone", "Age", "Email"]);
    assert_eq!(result, Err(missing("Phone")));
}

#[test]
fn columns_absent_name_is_reported_before_any_row_is_read() {
    let data: &[u8] = b"a,b\n\xff,1\n2,3\n";
    assert_eq!(extract_columns(data, &["c"]), Err(missing("c")));
    assert!(matches!(extract_columns(data, &["a"]), Err(CsvSliceError::Csv(_))));
}

#[test]
fn columns_names_are_compared_exactly() {
    assert_eq!(extract_columns(PEOPLE.as_bytes(), &["name"]), Err(missing("name")));
    assert_eq!(extract_columns(PEOPLE.as_bytes(), &["Name "]), Err(missing("Name ")));
    assert_eq!(extract_columns(PEOPLE.as_bytes(), &[""]), Err(missing("")));
}

#[test]
fn columns_repeated_header_name_means_its_first_place() {
    let data = "id,value,value\n1,first,second\n2,third,fourth\n";
    let rows = extract_columns(data.as_bytes(), &["value", "id"]).unwrap();
    assert_eq!(rows, vec![owned(&["first", "1"]), owned(&["third", "2"])]);
}

#[test]
fn columns_bad_row_is_a_parse_failure() {
    let data: &[u8] = b"a,b\n1,2\n3,\xff\n";
    let result = extract_columns(data, &["a"]);
    let mut reader = csv::ReaderBuilder::new().flexible(true).from_reader(data);
    reader.headers().unwrap();
    let expected = reader.records().nth(1).unwrap().unwrap_err().to_string();
    assert_eq!(result, Err(CsvSliceError::Csv(expected)));
}

#[test]
fn columns_bad_row_anywhere_fails_the_whole_call() {
    let data: &[u8] = b"a,b\n1,2\n3,4\n5,6\n7,\xff\n";
    assert!(matches!(extract_columns(data, &["a"]), Err(CsvSliceError::Csv(_))));
    assert!(matches!(extract_columns(data, &[]), Err(CsvSliceError::Csv(_))));
}

#[test]
fn columns_failure_at_the_first_row_tells_the_place_behind_the_header() {
    let data: &[u8] = b"a,b\n1,\xff\n";
    assert_eq!(
        extract_columns(data, &["a"]),
        Err(CsvSliceError::Csv(
            "CSV parse error: record 1 (line 2, field: 1, byte: 4): \
             invalid utf-8: invalid UTF-8 in field 1 near byte index 0"
                .to_string()
        ))
    );
}

#[test]
fn columns_failure_at_a_later_row_reads_as_for_rows() {
    let data: &[u8] = b"a,b\n1,2\n3,\xff\n";
    assert_eq!(
        extract_columns(data, &["b"]),
        Err(CsvSliceError::Csv(
            "CSV parse error: record 2 (line 3, field: 1, byte: 8): \
             invalid utf-8: invalid UTF-8 in field 1 near byte index 0"
                .to_string()
        ))
    );
    assert_eq!(
        extract_columns(data, &["b"]).unwrap_err(),
        csv_slice::extract_rows(data, 0, 5).unwrap_err()
    );
}

#[test]
fn columns_short_row_is_filled_with_empty_text() {
    let data = "a,b,c\n1,2,3\n4\n5,6\n";
    let rows = extract_columns(data.as_bytes(), &["c", "a", "b"]).unwrap();
    assert_eq!(rows, vec![owned(&["3", "1", "2"]), owned(&["", "4", ""]), owned(&["", "5", "6"])]);
}

#[test]
fn columns_long_row_loses_what_has_no_name() {
    let data = "a,b\n1,2,3\n";
    let rows = extract_columns(data.as_bytes(), &["b", "a"]).unwrap();
    assert_eq!(rows, vec![owned(&["2", "1"])]);
}

#[test]
fn columns_unreadable_header_is_a_parse_failure() {
    let data: &[u8] = b"a,\xff\n1,2\n";
    let result = extract_columns(data, &["a"]);
    let mut reader = csv::ReaderBuilder::new().flexible(true).from_reader(data);
    let expected = reader.headers().unwrap_err().to_string();
    assert_eq!(result, Err(CsvSliceError::Csv(expected)));
    assert!(matches!(extract_columns(data, &["missing"]), Err(CsvSliceError::Csv(_))));
}

#[test]
fn columns_of_empty_input() {
    assert_eq!(extract_columns(b"", &[]), Ok(Vec::new()));
    assert_eq!(extract_columns(b"", &["a"]), Err(missing("a")));
}

#[test]
fn columns_keep_quoted_fields_whole() {
    let data = "name,note\n\"Smith, J\",\"two\nlines\"\n";
    let rows = extract_columns(data.as_bytes(), &["note", "name"]).unwrap();
    assert_eq!(rows, vec![owned(&["two\nlines", "Smith, J"])]);
}

#[test]
fn find_column_gives_the_first_place() {
    let header = owned(&["a", "b", "a", "c"]);
    assert_eq!(find_column(&header, "a"), Some(0));
    assert_eq!(find_column(&header, "b"), Some(1));
    assert_eq!(find_column(&header, "c"), Some(3));
    assert_eq!(find_column(&header, "d"), None);
    assert_eq!(find_column(&[], "a"), None);
}

#[test]
fn resolve_columns_keeps_order_and_repeats() {
    let header = owned(&["x", "y", "z", "y"]);
    assert_eq!(resolve_columns(&header, &["z", "y", "x", "y"]), Ok(vec![2, 1, 0, 1]));
    assert_eq!(resolve_columns(&header, &[]), Ok(vec![]));
}

#[test]
fn resolve_columns_names_the_first_absent() {
    let header = owned(&["x", "y"]);
    assert_eq!(resolve_columns(&header, &["y", "q", "x", "r"]), Err(missing("q")));
    assert_eq!(resolve_columns(&[], &["x"]), Err(missing("x")));
}

#[test]
fn project_row_picks_in_order() {
    let row = owned(&["Alice", "30", "Paris"]);
    assert_eq!(project_row(&row, &[2, 0, 0]), owned(&["Paris", "Alice", "Alice"]));
    assert_eq!(project_row(&row, &[]), Vec::<String>::new());
}

#[test]
fn project_row_fills_short_rows_with_empty_text() {
    let row = owned(&["Alice"]);
    assert_eq!(project_row(&row, &[0, 1, 7]), owned(&["Alice", "", ""]));
    assert_eq!(project_row(&[], &[0, usize::MAX]), owned(&["", ""]));
}
