use fu::data::{
    format_bin_labels, parse_bar_lines, parse_count_lines, parse_hist_lines, parse_table,
    tally_bins, transpose_lines,
};

fn strings(v: &[&str]) -> Vec<String> {
    v.iter().map(|s| s.to_string()).collect()
}

fn nums(v: &[String]) -> Vec<f64> {
    v.iter().map(|s| s.parse::<f64>().unwrap()).collect()
}

#[test]
fn parse_two_columns() {
    let lines = strings(&["1\t10", "2\t20", "3\t15"]);
    let t = parse_table(&lines, '\t', false).unwrap();
    let x: Vec<f64> = t.rows.iter().map(|r| r[0].parse().unwrap()).collect();
    let y: Vec<f64> = t.rows.iter().map(|r| r[1].parse().unwrap()).collect();
    assert_eq!(x, vec![1.0, 2.0, 3.0]);
    assert_eq!(y, vec![10.0, 20.0, 15.0]);
    assert!(t.headers.is_none());
}

#[test]
fn parse_single_column() {
    let lines = strings(&["10", "20", "15"]);
    let t = parse_table(&lines, '\t', false).unwrap();
    assert_eq!(t.rows, vec![vec!["10"], vec!["20"], vec!["15"]]);
}

#[test]
fn parse_with_headers() {
    let lines = strings(&["x\ty", "1\t10", "2\t20"]);
    let t = parse_table(&lines, '\t', true).unwrap();
    assert_eq!(t.headers.as_ref().unwrap(), &vec!["x", "y"]);
    assert_eq!(t.rows, vec![vec!["1", "10"], vec!["2", "20"]]);
}

#[test]
fn parse_csv_delimiter() {
    let lines = strings(&["1,10", "2,20"]);
    let t = parse_table(&lines, ',', false).unwrap();
    assert_eq!(t.rows, vec![vec!["1", "10"], vec!["2", "20"]]);
}

#[test]
fn parse_multi_series() {
    let lines = strings(&["0\t1\t2", "1\t3\t4"]);
    let t = parse_table(&lines, '\t', false).unwrap();
    assert_eq!(t.rows, vec![vec!["0", "1", "2"], vec!["1", "3", "4"]]);
}

#[test]
fn parse_empty_is_err() {
    let lines: Vec<String> = vec![];
    assert!(parse_table(&lines, '\t', false).is_err());
}

#[test]
fn skip_empty_lines() {
    let lines = strings(&["1\t10", "", "2\t20", ""]);
    let t = parse_table(&lines, '\t', false).unwrap();
    let x: Vec<f64> = t.rows.iter().map(|r| r[0].parse().unwrap()).collect();
    assert_eq!(x, vec![1.0, 2.0]);
}

#[test]
fn table_errors() {
    assert_eq!(parse_table(&strings(&[]), '\t', false).unwrap_err(), "no data");
    assert_eq!(parse_table(&strings(&["", ""]), '\t', true).unwrap_err(), "no data (expected header row)");
    assert_eq!(parse_table(&strings(&["x\ty"]), '\t', true).unwrap_err(), "no data");
    assert_eq!(
        parse_table(&strings(&["1\t2", "3\t x "]), '\t', false).unwrap_err(),
        "cannot parse as number: \" x \""
    );
}

#[test]
fn table_fields_are_trimmed_and_may_be_ragged() {
    let t = parse_table(&strings(&[" 1 , 2 ", "3"]), ',', false).unwrap();
    assert_eq!(t.rows, vec![vec!["1", "2"], vec!["3"]]);
    let t = parse_table(&strings(&[" a , b "]), ',', true);
    assert_eq!(t.unwrap_err(), "no data");
}

#[test]
fn parse_bar_two_columns() {
    let lines = strings(&["cat\t30", "dog\t45", "parrot\t12"]);
    let bd = parse_bar_lines(&lines, '\t', false).unwrap();
    assert_eq!(bd.labels, vec!["cat", "dog", "parrot"]);
    assert_eq!(nums(&bd.values), vec![30.0, 45.0, 12.0]);
}

#[test]
fn parse_bar_single_column() {
    let lines = strings(&["10", "20", "15"]);
    let bd = parse_bar_lines(&lines, '\t', false).unwrap();
    assert_eq!(bd.labels, vec!["1", "2", "3"]);
    assert_eq!(nums(&bd.values), vec![10.0, 20.0, 15.0]);
}

#[test]
fn parse_bar_with_headers() {
    let lines = strings(&["name\tval", "a\t5", "b\t10"]);
    let bd = parse_bar_lines(&lines, '\t', true).unwrap();
    assert_eq!(bd.labels, vec!["a", "b"]);
    assert_eq!(nums(&bd.values), vec![5.0, 10.0]);
}

#[test]
fn bar_errors() {
    assert_eq!(parse_bar_lines(&strings(&["a\tx"]), '\t', false).unwrap_err(), "cannot parse as number: \"x\"");
    assert_eq!(parse_bar_lines(&strings(&[]), '\t', false).unwrap_err(), "no data");
    assert_eq!(parse_bar_lines(&strings(&[]), '\t', true).unwrap_err(), "no data (expected header row)");
}

#[test]
fn bar_mixed_rows_number_by_position() {
    let bd = parse_bar_lines(&strings(&["a\t1", "7", "b\t2\textra"]), '\t', false).unwrap();
    assert_eq!(bd.labels, vec!["a", "2", "b"]);
    assert_eq!(bd.values, vec!["1", "7", "2"]);
}

#[test]
fn parse_hist_values() {
    let lines = strings(&["1.5", "2.3", "3.1", "1.8"]);
    let vals = parse_hist_lines(&lines, '\t', false).unwrap();
    assert_eq!(vals.len(), 4);
    assert!((vals[0].parse::<f64>().unwrap() - 1.5).abs() < f64::EPSILON);
}

#[test]
fn hist_lines_take_first_field() {
    let vals = parse_hist_lines(&strings(&["h", " 4 ,x", "5"]), ',', true).unwrap();
    assert_eq!(vals, vec!["4", "5"]);
    assert_eq!(parse_hist_lines(&strings(&["4", "q"]), ',', false).unwrap_err(), "cannot parse as number: \"q\"");
}

#[test]
fn count_occurrences() {
    let lines = strings(&["apple", "banana", "apple", "apple", "banana", "cherry"]);
    let bd = parse_count_lines(&lines, '\t', false).unwrap();
    assert_eq!(bd.labels[0], "apple");
    assert_eq!(bd.counts[0] as f64, 3.0);
    assert_eq!(bd.labels[1], "banana");
    assert_eq!(bd.counts[1] as f64, 2.0);
    assert_eq!(bd.labels[2], "cherry");
    assert_eq!(bd.counts[2] as f64, 1.0);
}

#[test]
fn count_tiebreak_alphabetical() {
    let lines = strings(&["cat", "dog", "ant", "dog", "cat", "ant"]);
    let bd = parse_count_lines(&lines, '\t', false).unwrap();
    assert_eq!(bd.labels, vec!["ant", "cat", "dog"]);
    assert!(bd.counts.iter().all(|&v| v as f64 == 2.0));
}

#[test]
fn count_uses_trimmed_first_field_and_header() {
    let bd = parse_count_lines(&strings(&["proto", "tcp ,1", " udp,2", "tcp", ""]), ',', true).unwrap();
    assert_eq!(bd.labels, vec!["tcp", "udp"]);
    assert_eq!(bd.counts, vec![2, 1]);
    let total: u64 = bd.counts.iter().sum();
    assert_eq!(total, 3);
}

#[test]
fn count_errors() {
    assert_eq!(parse_count_lines(&strings(&["", ""]), '\t', false).unwrap_err(), "no data");
    assert_eq!(parse_count_lines(&strings(&[]), '\t', true).unwrap_err(), "no data (expected header row)");
    assert_eq!(parse_count_lines(&strings(&["only header"]), '\t', true).unwrap_err(), "no data");
}

#[test]
fn count_orders_by_count_then_name() {
    let bd = parse_count_lines(&strings(&["b", "a", "c", "c", "b", "c", "B"]), '\t', false).unwrap();
    assert_eq!(bd.labels, vec!["c", "b", "B", "a"]);
    assert_eq!(bd.counts, vec![3, 2, 1, 1]);
}

#[test]
fn transpose_basic() {
    let lines = strings(&["1\t2\t3", "4\t5\t6"]);
    let t = transpose_lines(&lines, '\t');
    assert_eq!(t.len(), 3);
    assert_eq!(t[0], "1\t4");
    assert_eq!(t[1], "2\t5");
    assert_eq!(t[2], "3\t6");
}

#[test]
fn transpose_ragged_and_empty() {
    let t = transpose_lines(&strings(&["a, b", "", "c"]), ',');
    assert_eq!(t, vec!["a,c", "b,"]);
    assert!(transpose_lines(&strings(&["", ""]), ',').is_empty());
}

#[test]
fn transpose_twice_restores_a_square_grid() {
    let lines = strings(&["1,2", "3,4"]);
    let back = transpose_lines(&transpose_lines(&lines, ','), ',');
    assert_eq!(back, lines);
}

#[test]
fn bin_labels_are_padded_to_the_widest_edge() {
    let edges = vec![
        ("0.0".to_string(), "2.5".to_string()),
        ("2.5".to_string(), "10.0".to_string()),
    ];
    assert_eq!(format_bin_labels(&edges), vec!["[ 0.0,  2.5)", "[ 2.5, 10.0)"]);
    assert!(format_bin_labels(&[]).is_empty());
}

#[test]
fn bins_count_every_index_once() {
    let idx = vec![0, 1, 1, 4, 9, 2];
    let t = tally_bins(&idx, 5);
    assert_eq!(t, vec![1, 2, 1, 0, 2]);
    assert_eq!(t.iter().sum::<u64>(), idx.len() as u64);
    assert_eq!(tally_bins(&[], 3), vec![0, 0, 0]);
    assert_eq!(tally_bins(&[7, 7], 1), vec![2]);
}

#[test]
fn bin_labels_line_up() {
    let edges = vec![
        ("-10.0".to_string(), "0.0".to_string()),
        ("0.0".to_string(), "10.0".to_string()),
        ("10.0".to_string(), "100.0".to_string()),
    ];
    let labels = format_bin_labels(&edges);
    for l in &labels {
        assert_eq!(l.len(), 2 * 5 + 4);
    }
}

#[test]
fn columns_of_a_single_column_table() {
    let t = parse_table(&strings(&["10", "20", "15"]), '\t', false).unwrap();
    let c = fu::data::table_columns(&t);
    assert_eq!(c.x, vec!["1", "2", "3"]);
    assert_eq!(c.series, vec![vec!["10", "20", "15"]]);
}

#[test]
fn columns_of_a_ragged_table() {
    let t = parse_table(&strings(&["0\t1\t2", "1\t3", "2\t5\t6\t7"]), '\t', false).unwrap();
    let c = fu::data::table_columns(&t);
    assert_eq!(c.x, vec!["0", "1", "2"]);
    assert_eq!(c.series, vec![vec!["1", "3", "5"], vec!["2", "0", "6"]]);
}
