use fu::hist::{first_field, hist_field_spans};

fn fields(bytes: &[u8], d: u8, h: bool) -> Vec<&[u8]> {
    hist_field_spans(bytes, d, h)
        .unwrap()
        .into_iter()
        .map(|(a, b)| &bytes[a..b])
        .collect()
}

#[test]
fn first_field_trims_blanks() {
    assert_eq!(first_field(b" 12.5 \t7", b'\t'), b"12.5");
    assert_eq!(first_field(b"\r 3 ,x", b','), b"3");
    assert_eq!(first_field(b"abc", b','), b"abc");
    assert_eq!(first_field(b"   ", b','), b"");
    assert_eq!(first_field(b",5", b','), b"");
    assert_eq!(first_field(b"", b','), b"");
    assert_eq!(first_field(b"\x0b4\x0c", b','), b"4");
}

#[test]
fn blank_first_fields_are_handed_out() {
    // The line reader refuses a blank first field; the byte reader hands it
    // out so that reading it as a number fails the same way.
    assert_eq!(fields(b"\t5\n7", b'\t', false), vec![&b""[..], b"7"]);
    assert_eq!(fields(b" \n7", b'\t', false), vec![&b""[..], b"7"]);
    // A lone carriage return at the very end is a line of its own.
    assert_eq!(fields(b"7\n\r", b'\t', false), vec![&b"7"[..], b""]);
    assert_eq!(fields(b"7\r\n", b'\t', false), vec![&b"7"[..]]);
}

#[test]
fn header_is_the_first_non_empty_line() {
    assert_eq!(fields(b"\n\r\nvalue\n1", b'\t', true), vec![&b"1"[..]]);
    assert_eq!(hist_field_spans(b"\n\r\n", b'\t', true).unwrap_err(), "no data (expected header row)");
}

#[test]
fn spans_cover_each_line() {
    let text = b"1\n2.5\t9\n\n 3 \r\n";
    assert_eq!(fields(text, b'\t', false), vec![&b"1"[..], b"2.5", b"3"]);
}

#[test]
fn header_line_is_skipped() {
    let text = b"value\n4\n5";
    assert_eq!(fields(text, b'\t', true), vec![&b"4"[..], b"5"]);
    assert_eq!(fields(b"value", b'\t', true), Vec::<&[u8]>::new());
}

#[test]
fn empty_input_with_header_is_an_error() {
    assert_eq!(hist_field_spans(b"", b'\t', true).unwrap_err(), "no data (expected header row)");
    assert_eq!(hist_field_spans(b"", b'\t', false).unwrap(), vec![]);
}

#[test]
fn bad_fields_are_still_handed_out() {
    assert_eq!(fields(b"abc\n", b'\t', false), vec![&b"abc"[..]]);
}

#[test]
fn csv_first_column() {
    let text = b"12.5,extra\n-3,x,y\n,7\n";
    assert_eq!(fields(text, b',', false), vec![&b"12.5"[..], b"-3", b""]);
}

#[test]
fn byte_path_reads_what_the_line_path_reads() {
    let text = "\nvalue\n1\n 2.5 \t9\r\n\n-3e2\x0c\r\n4";
    let lines: Vec<String> = text.lines().map(String::from).collect();
    let by_lines = fu::data::parse_hist_lines(&lines, '\t', true).unwrap();
    let by_bytes: Vec<String> = fields(text.as_bytes(), b'\t', true)
        .into_iter()
        .map(|f| String::from_utf8(f.to_vec()).unwrap())
        .collect();
    assert_eq!(by_bytes, by_lines);
    assert_eq!(by_bytes, vec!["1", "2.5", "-3e2", "4"]);
}
