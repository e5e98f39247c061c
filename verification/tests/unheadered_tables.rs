use charlestown::UnheaderedCSVTable;

fn owned(cells: &[&str]) -> Vec<String> {
    cells.iter().map(|c| c.to_string()).collect()
}

fn table_rows(t: &UnheaderedCSVTable) -> Vec<Vec<String>> {
    let mut rows = Vec::new();
    let mut i = 0;
    while i < t.len() {
        rows.push(t.get_row(i).unwrap());
        i += 1;
    }
    rows
}

#[test]
fn parse_simple_two_rows() {
    let t = UnheaderedCSVTable::from_string("a,b\r\nc,d");
    assert_eq!(table_rows(&t), vec![owned(&["a", "b"]), owned(&["c", "d"])]);
}

#[test]
fn line_ending_tolerance() {
    let crlf = UnheaderedCSVTable::from_string("a,b\r\nc,d");
    let lf = UnheaderedCSVTable::from_string("a,b\nc,d");
    assert_eq!(table_rows(&crlf), table_rows(&lf));
    assert_eq!(crlf.len(), 2);
    assert_eq!(crlf.get_row(0).unwrap().len(), 2);
    assert_eq!(crlf.get_row(1).unwrap().len(), 2);
}

#[test]
fn trailing_content_no_newline() {
    let t = UnheaderedCSVTable::from_string("a,b");
    assert_eq!(table_rows(&t), vec![owned(&["a", "b"])]);
}

#[test]
fn trailing_newline_no_spurious_row() {
    let t = UnheaderedCSVTable::from_string("a,b\r\n");
    assert_eq!(table_rows(&t), vec![owned(&["a", "b"])]);
}

#[test]
fn double_trailing_newline_gives_empty_row() {
    let t = UnheaderedCSVTable::from_string("a,b\r\n\r\n");
    assert_eq!(table_rows(&t), vec![owned(&["a", "b"]), owned(&[""])]);
}

#[test]
fn trailing_comma_drops_pending_row() {
    // The input ends just after a comma: the pending cell never sees a row
    // terminator and is dropped together with its row.
    let t = UnheaderedCSVTable::from_string("a,");
    assert_eq!(t.len(), 0);
}

#[test]
fn embedded_delimiter_in_quotes() {
    let t = UnheaderedCSVTable::from_string("\"x,y\",z");
    assert_eq!(table_rows(&t), vec![owned(&["x,y", "z"])]);
}

#[test]
fn escaped_quote_parses_back() {
    let t = UnheaderedCSVTable::from_string("\"a,b\"\"c\"");
    assert_eq!(table_rows(&t), vec![owned(&["a,b\"c"])]);
}

#[test]
fn quoted_cell_serializes_with_doubled_quotes() {
    let t = UnheaderedCSVTable::from_rows(vec![owned(&["a,b\"c"])]);
    assert_eq!(t.stringify(), "\"a,b\"\"c\"");
    let back = UnheaderedCSVTable::from_string(&t.stringify());
    assert_eq!(table_rows(&back), vec![owned(&["a,b\"c"])]);
}

#[test]
fn sanitize_plain_cell_unchanged() {
    assert_eq!(UnheaderedCSVTable::csv_sanitize("plain".to_string()), "plain");
}

#[test]
fn sanitize_newline_cell_quoted() {
    assert_eq!(UnheaderedCSVTable::csv_sanitize("a\nb".to_string()), "\"a\nb\"");
}

#[test]
fn round_trip_plain_table() {
    let rows = vec![owned(&["x", "y"]), owned(&["z", "w"])];
    let t = UnheaderedCSVTable::from_rows(rows.clone());
    assert_eq!(t.stringify(), "x,y\r\nz,w");
    let back = UnheaderedCSVTable::from_string(&t.stringify());
    assert_eq!(table_rows(&back), rows);
}

#[test]
fn round_trip_with_quoted_cells() {
    let rows = vec![owned(&["a,b\"c", "plain"]), owned(&["line\nbreak", "x\ry"])];
    let t = UnheaderedCSVTable::from_rows(rows.clone());
    assert_eq!(t.stringify(), "\"a,b\"\"c\",plain\r\n\"line\nbreak\",\"x\ry\"");
    let back = UnheaderedCSVTable::from_string(&t.stringify());
    assert_eq!(table_rows(&back), rows);
}

#[test]
fn cells_are_trimmed() {
    let t = UnheaderedCSVTable::from_string(" a ,\tb\t\r\n c , d ");
    assert_eq!(table_rows(&t), vec![owned(&["a", "b"]), owned(&["c", "d"])]);
}

#[test]
fn lone_carriage_return_is_content() {
    // A CR not followed by LF stays inside the cell; trimming then removes
    // it only at the edges.
    let t = UnheaderedCSVTable::from_string("a\rb,c");
    assert_eq!(table_rows(&t), vec![owned(&["a\rb", "c"])]);
}

#[test]
fn unterminated_quote_is_flushed() {
    let t = UnheaderedCSVTable::from_string("\"abc");
    assert_eq!(table_rows(&t), vec![owned(&["abc"])]);
}

#[test]
fn empty_input_gives_empty_table() {
    let t = UnheaderedCSVTable::from_string("");
    assert_eq!(t.len(), 0);
}

#[test]
fn get_row_out_of_range_fails() {
    let t = UnheaderedCSVTable::from_string("a,b");
    assert!(t.get_row(0).is_ok());
    assert_eq!(t.get_row(1), Err(()));
    assert_eq!(t.get_row(usize::MAX), Err(()));
}

#[test]
fn get_cell_out_of_range_fails() {
    let t = UnheaderedCSVTable::from_string("a,b\r\nc");
    assert_eq!(t.get_cell(0, 1), Ok("b".to_string()));
    assert_eq!(t.get_cell(1, 1), Err(()));
    assert_eq!(t.get_cell(2, 0), Err(()));
}

#[test]
fn get_column_reports_per_row_failures() {
    let t = UnheaderedCSVTable::from_string("a,b\r\nc\r\nd,e");
    let col = t.get_column(1);
    assert_eq!(col, vec![Ok("b".to_string()), Err(()), Ok("e".to_string())]);
}

#[test]
fn push_row_appends() {
    let mut t = UnheaderedCSVTable::from_rows(vec![owned(&["a"])]);
    t.push_row(owned(&["b", "c"]));
    assert_eq!(t.len(), 2);
    assert_eq!(t.get_row(1), Ok(owned(&["b", "c"])));
}

#[test]
fn from_byte_vector_parses_bytes() {
    let t = UnheaderedCSVTable::from_byte_vector(b"a,b\r\nc,d".to_vec());
    assert_eq!(table_rows(&t), vec![owned(&["a", "b"]), owned(&["c", "d"])]);
}

#[test]
fn from_byte_vector_multibyte_cells() {
    let t = UnheaderedCSVTable::from_byte_vector("héllo,wörld".as_bytes().to_vec());
    assert_eq!(table_rows(&t), vec![owned(&["héllo", "wörld"])]);
}

#[test]
fn try_from_byte_vector_rejects_invalid_utf8() {
    assert!(UnheaderedCSVTable::try_from_byte_vector(vec![0xFF, 0xFE]).is_none());
    let t = UnheaderedCSVTable::try_from_byte_vector(b"a,b".to_vec()).unwrap();
    assert_eq!(table_rows(&t), vec![owned(&["a", "b"])]);
}
