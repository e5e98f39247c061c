use charlestown::{HeaderedCSVTable, UnheaderedCSVTable};

fn owned(cells: &[&str]) -> Vec<String> {
    cells.iter().map(|c| c.to_string()).collect()
}

#[test]
fn header_balancing_pads_names_and_rows() {
    // Rows of lengths 2, 3 and 1: three columns; the header gains the
    // synthetic name "2", the short data row two empty cells.
    let input = UnheaderedCSVTable::from_rows(vec![
        owned(&["a", "b"]),
        owned(&["c", "d", "e"]),
        owned(&["f"]),
    ]);
    let t = HeaderedCSVTable::from_unheadered_csv_table(input);
    assert_eq!(t.number_of_columns(), 3);
    assert_eq!(t.number_of_rows(), 2);
    assert_eq!(t.get_unheadered_row(0), Ok(owned(&["c", "d", "e"])));
    assert_eq!(t.get_unheadered_row(1), Ok(owned(&["f", "", ""])));
    assert_eq!(t.get_cell(0, "2"), Ok("e".to_string()));
    assert_eq!(t.get_cell(1, "a"), Ok("f".to_string()));
    assert_eq!(t.get_cell(1, "b"), Ok("".to_string()));
}

#[test]
fn column_lookup_by_name() {
    let t = HeaderedCSVTable::from_string("name,age\r\nann,12\r\nbob,34");
    assert_eq!(t.get_column("age"), vec![Ok("12".to_string()), Ok("34".to_string())]);
    assert_eq!(t.get_cell(1, "name"), Ok("bob".to_string()));
}

#[test]
fn unknown_column_yields_one_failure_per_row() {
    let t = HeaderedCSVTable::from_string("a,b\r\n1,2\r\n3,4\r\n5,6");
    let col = t.get_column("missing");
    assert_eq!(col, vec![Err(()), Err(()), Err(())]);
}

#[test]
fn row_out_of_range_fails_without_panicking() {
    let t = HeaderedCSVTable::from_string("a,b\r\n1,2");
    assert_eq!(t.number_of_rows(), 1);
    assert!(t.get_unheadered_row(0).is_ok());
    assert_eq!(t.get_unheadered_row(1), Err(()));
    assert!(t.get_headered_row(1).is_err());
    assert_eq!(t.get_cell(7, "a"), Err(()));
}

#[test]
fn headered_row_pairs_names_with_cells() {
    let t = HeaderedCSVTable::from_string("x,y\r\n1,2");
    let row = t.get_headered_row(0).unwrap();
    assert_eq!(row, vec![("x".to_string(), "1".to_string()), ("y".to_string(), "2".to_string())]);
}

#[test]
fn duplicate_names_resolve_to_last_column() {
    let t = HeaderedCSVTable::from_string("a,a,b\r\n1,2,3");
    assert_eq!(t.number_of_columns(), 2);
    assert_eq!(t.get_cell(0, "a"), Ok("2".to_string()));
    let row = t.get_headered_row(0).unwrap();
    assert_eq!(row, vec![("a".to_string(), "2".to_string()), ("b".to_string(), "3".to_string())]);
}

#[test]
fn to_unheadered_restores_header_row() {
    let t = HeaderedCSVTable::from_string("h1,h2\r\nv1,v2");
    let u = t.to_unheadered_csv_input_table();
    assert_eq!(u.len(), 2);
    assert_eq!(u.get_row(0), Ok(owned(&["h1", "h2"])));
    assert_eq!(u.get_row(1), Ok(owned(&["v1", "v2"])));
}

#[test]
fn headered_stringify_round_trip() {
    let t = HeaderedCSVTable::from_string("h1,h2\r\nv1,v2\r\nv3,v4");
    assert_eq!(t.stringify(), "h1,h2\r\nv1,v2\r\nv3,v4");
}

#[test]
fn empty_source_gives_empty_header() {
    let t = HeaderedCSVTable::from_string("");
    assert_eq!(t.number_of_columns(), 0);
    assert_eq!(t.number_of_rows(), 0);
}

#[test]
fn headered_from_byte_vector() {
    let t = HeaderedCSVTable::from_byte_vector(b"k,v\r\nx,1".to_vec());
    assert_eq!(t.get_cell(0, "k"), Ok("x".to_string()));
    assert!(HeaderedCSVTable::try_from_byte_vector(vec![0xC3, 0x2C]).is_none());
}

#[test]
fn synthetic_names_use_multi_digit_indices() {
    let wide = owned(&["a", "b", "c", "d", "e", "f", "g", "h", "i", "j", "k"]);
    let input = UnheaderedCSVTable::from_rows(vec![owned(&["only"]), wide]);
    let t = HeaderedCSVTable::from_unheadered_csv_table(input);
    assert_eq!(t.number_of_columns(), 11);
    assert_eq!(t.get_cell(0, "10"), Ok("k".to_string()));
    assert_eq!(t.get_cell(0, "1"), Ok("b".to_string()));
}

#[test]
fn distinct_names_detects_duplicates() {
    let ok = HeaderedCSVTable::from_string("a,b\r\n1,2");
    assert!(ok.has_distinct_names());
    let dup = HeaderedCSVTable::from_string("a,a\r\n1,2");
    assert!(!dup.has_distinct_names());
}

#[test]
fn clone_keeps_contents() {
    let t = HeaderedCSVTable::from_string("a,b\r\n1,2");
    let copy = t.clone();
    assert_eq!(copy.get_cell(0, "b"), Ok("2".to_string()));
}

#[test]
fn synthetic_name_avoids_no_collision_check() {
    // A real column named "1" and a synthetic name for the padded third
    // column: the synthetic "2" is just another name, last write wins.
    let input = UnheaderedCSVTable::from_rows(vec![owned(&["0", "1"]), owned(&["a", "b", "c"])]);
    let t = HeaderedCSVTable::from_unheadered_csv_table(input);
    assert_eq!(t.number_of_columns(), 3);
    assert_eq!(t.get_cell(0, "2"), Ok("c".to_string()));
}
