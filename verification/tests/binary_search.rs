use bgrep::{binary_search_in_file, get_column, read_line, Value};

// --- get_column ---

#[test]
fn test_get_column_first() {
    let v = get_column("aaa;bbb;ccc", ';', 0, false).unwrap();
    assert_eq!(v, Value::Text("aaa".to_string()));
}

#[test]
fn test_get_column_middle() {
    let v = get_column("aaa;bbb;ccc", ';', 1, false).unwrap();
    assert_eq!(v, Value::Text("bbb".to_string()));
}

#[test]
fn test_get_column_last() {
    let v = get_column("aaa;bbb;ccc", ';', 2, false).unwrap();
    assert_eq!(v, Value::Text("ccc".to_string()));
}

#[test]
fn test_get_column_last_with_newline() {
    // the '\n' must be ignored on the last column too
    let v = get_column("aaa;bbb;ccc\n", ';', 2, false).unwrap();
    assert_eq!(v, Value::Text("ccc".to_string()));
}

#[test]
fn test_get_column_numeric() {
    let v = get_column("42;foo;bar", ';', 0, true).unwrap();
    assert_eq!(v, Value::Number(42));
}

#[test]
fn test_get_column_numeric_with_spaces() {
    // Value::build trims, so this must work
    let v = get_column("  42  ;foo", ';', 0, true).unwrap();
    assert_eq!(v, Value::Number(42));
}

#[test]
fn test_get_column_out_of_range() {
    // column 5 of a line with 3 columns is an error
    let result = get_column("aaa;bbb;ccc", ';', 5, false);
    assert!(result.is_err());
}

#[test]
fn test_get_column_invalid_numeric() {
    // a column that is not numeric, with the numeric flag, is an error
    let result = get_column("aaa;bbb", ';', 0, true);
    assert!(result.is_err());
}

#[test]
fn test_get_column_custom_delimiter() {
    let v = get_column("aaa,bbb,ccc", ',', 1, false).unwrap();
    assert_eq!(v, Value::Text("bbb".to_string()));
}

#[test]
fn test_get_column_empty_field() {
    // an empty field between two delimiters
    let v = get_column("aaa;;ccc", ';', 1, false).unwrap();
    assert_eq!(v, Value::Text("".to_string()));
}

// --- read_line ---

#[test]
fn test_read_line_from_start() {
    let line = read_line(b"aaa\nbbb\nccc\n", 0).unwrap();
    assert_eq!(line, Some("aaa\n".to_string()));
}

#[test]
fn test_read_line_from_mid_line() {
    // position 1 is inside "aaa": skip to the '\n' and read "bbb"
    let line = read_line(b"aaa\nbbb\nccc\n", 1).unwrap();
    assert_eq!(line, Some("bbb\n".to_string()));
}

#[test]
fn test_read_line_exact_line_start() {
    // position 4 is exactly the start of "bbb", but position > 0,
    // so "bbb\n" is skipped anyway and "ccc" is read
    let line = read_line(b"aaa\nbbb\nccc\n", 4).unwrap();
    assert_eq!(line, Some("ccc\n".to_string()));
}

#[test]
fn test_read_line_last_line_with_newline() {
    let line = read_line(b"aaa\nbbb\n", 1).unwrap();
    assert_eq!(line, Some("bbb\n".to_string()));
}

#[test]
fn test_read_line_last_line_without_newline() {
    let line = read_line(b"aaa\nbbb", 1).unwrap();
    assert_eq!(line, Some("bbb".to_string()));
}

#[test]
fn test_read_line_single_line_with_newline() {
    let line = read_line(b"aaa\n", 0).unwrap();
    assert_eq!(line, Some("aaa\n".to_string()));
}

#[test]
fn test_read_line_single_line_without_newline() {
    let line = read_line(b"aaa", 0).unwrap();
    assert_eq!(line, Some("aaa".to_string()));
}

#[test]
fn test_read_line_empty_file() {
    let line = read_line(b"", 0).unwrap();
    assert_eq!(line, None);
}

#[test]
fn test_read_line_position_at_eof() {
    // position is exactly the last '\n': no line follows
    let line = read_line(b"aaa\n", 3).unwrap();
    assert_eq!(line, None);
}

#[test]
fn test_read_line_position_beyond_eof() {
    let line = read_line(b"aaa\n", 100).unwrap();
    assert_eq!(line, None);
}

// --- binary_search_in_file ---

fn txt(s: &str) -> Value {
    Value::Text(s.to_string())
}

fn num(n: i128) -> Value {
    Value::Number(n)
}

#[test]
fn test_search_first_line() {
    // "aaa;1\n" starts at byte 0
    let pos = binary_search_in_file(b"aaa;1\nbbb;2\nccc;3\n", ';', &txt("aaa"), 0, false).unwrap();
    assert_eq!(pos, Some(0));
}

#[test]
fn test_search_middle_line() {
    // "bbb;2\n" starts at byte 6
    let pos = binary_search_in_file(b"aaa;1\nbbb;2\nccc;3\n", ';', &txt("bbb"), 0, false).unwrap();
    assert_eq!(pos, Some(6));
}

#[test]
fn test_search_last_line() {
    // "ccc;3\n" starts at byte 12
    let pos = binary_search_in_file(b"aaa;1\nbbb;2\nccc;3\n", ';', &txt("ccc"), 0, false).unwrap();
    assert_eq!(pos, Some(12));
}

#[test]
fn test_search_not_found() {
    let pos = binary_search_in_file(b"aaa;1\nbbb;2\nccc;3\n", ';', &txt("ddd"), 0, false).unwrap();
    assert_eq!(pos, None);
}

#[test]
fn test_search_not_found_before_first() {
    // a value below all keys: None, without an endless loop
    let pos = binary_search_in_file(b"bbb;1\nccc;2\nddd;3\n", ';', &txt("aaa"), 0, false).unwrap();
    assert_eq!(pos, None);
}

#[test]
fn test_search_multiple_occurrences_returns_first() {
    // "aaa" occurs twice: the first, at byte 0, is returned
    let pos = binary_search_in_file(b"aaa;1\naaa;2\nbbb;3\n", ';', &txt("aaa"), 0, false).unwrap();
    assert_eq!(pos, Some(0));
}

#[test]
fn test_search_multiple_occurrences_in_middle() {
    // "bbb" occurs twice in the middle; the first starts at byte 6
    let pos = binary_search_in_file(
        b"aaa;1\nbbb;2\nbbb;3\nccc;4\n",
        ';',
        &txt("bbb"),
        0,
        false,
    )
    .unwrap();
    assert_eq!(pos, Some(6));
}

#[test]
fn test_search_empty_file() {
    let pos = binary_search_in_file(b"", ';', &txt("aaa"), 0, false).unwrap();
    assert_eq!(pos, None);
}

#[test]
fn test_search_single_line_found() {
    let pos = binary_search_in_file(b"aaa;1\n", ';', &txt("aaa"), 0, false).unwrap();
    assert_eq!(pos, Some(0));
}

#[test]
fn test_search_single_line_not_found() {
    let pos = binary_search_in_file(b"aaa;1\n", ';', &txt("bbb"), 0, false).unwrap();
    assert_eq!(pos, None);
}

#[test]
fn test_search_last_line_without_newline() {
    // no final '\n'; "ccc;3" starts at byte 12
    let pos = binary_search_in_file(b"aaa;1\nbbb;2\nccc;3", ';', &txt("ccc"), 0, false).unwrap();
    assert_eq!(pos, Some(12));
}

#[test]
fn test_search_numeric() {
    // "2;bar\n" starts at byte 6
    let pos = binary_search_in_file(b"1;foo\n2;bar\n3;baz\n", ';', &num(2), 0, true).unwrap();
    assert_eq!(pos, Some(6));
}

#[test]
fn test_search_non_default_column() {
    // search on column 1; "bbb;2\n" starts at byte 6
    let pos = binary_search_in_file(b"aaa;1\nbbb;2\nccc;3\n", ';', &num(2), 1, true).unwrap();
    assert_eq!(pos, Some(6));
}
