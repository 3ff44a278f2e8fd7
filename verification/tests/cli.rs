use fu::cli::{arg_value, parse_from, usage, usage_line, Command, Options, Output, Sides};

fn args(s: &str) -> Vec<String> {
    s.split_whitespace().map(String::from).collect()
}

#[test]
fn parse_line_defaults() {
    let opts = parse_from(args("line")).unwrap();
    assert_eq!(opts.command, Command::Line);
    assert_eq!(opts.delimiter, '\t');
    assert!(!opts.has_headers);
    assert_eq!(opts.width, None);
    assert_eq!(opts.height, None);
    assert_eq!(opts.output, Output::Stderr);
}

#[test]
fn parse_line_with_options() {
    let opts = parse_from(args("line -d , -H -t MyTitle -w 60 -h 20")).unwrap();
    assert_eq!(opts.delimiter, ',');
    assert!(opts.has_headers);
    assert_eq!(opts.title.as_deref(), Some("MyTitle"));
    assert_eq!(opts.width, Some(60));
    assert_eq!(opts.height, Some(20));
}

#[test]
fn parse_output_stdout() {
    let opts = parse_from(args("line -o")).unwrap();
    assert_eq!(opts.output, Output::Stdout);
}

#[test]
fn parse_output_file() {
    let opts = parse_from(args("line -o chart.txt")).unwrap();
    assert_eq!(opts.output, Output::File("chart.txt".to_string()));
}

#[test]
fn parse_file_args() {
    let opts = parse_from(args("line data.tsv")).unwrap();
    assert_eq!(opts.files, vec!["data.tsv"]);
}

#[test]
fn parse_no_args_is_err() {
    assert!(parse_from(vec![]).is_err());
}

#[test]
fn parse_bar_command() {
    let opts = parse_from(args("bar")).unwrap();
    assert_eq!(opts.command, Command::Bar);
}

#[test]
fn parse_barplot_alias() {
    let opts = parse_from(args("barplot -t Test")).unwrap();
    assert_eq!(opts.command, Command::Bar);
    assert_eq!(opts.title.as_deref(), Some("Test"));
}

#[test]
fn parse_hist_command() {
    let opts = parse_from(args("hist -n 20")).unwrap();
    assert_eq!(opts.command, Command::Hist);
    assert_eq!(opts.nbins, Some(20));
}

#[test]
fn parse_count_command() {
    let opts = parse_from(args("count")).unwrap();
    assert_eq!(opts.command, Command::Count);
}

#[test]
fn parse_transpose_and_labels() {
    let opts = parse_from(args("line -T --xlabel Time --ylabel Value")).unwrap();
    assert!(opts.transpose);
    assert_eq!(opts.xlabel.as_deref(), Some("Time"));
    assert_eq!(opts.ylabel.as_deref(), Some("Value"));
}

#[test]
fn parse_lines_command() {
    let opts = parse_from(args("lines")).unwrap();
    assert_eq!(opts.command, Command::Lines);
}

#[test]
fn parse_lineplots_alias() {
    let opts = parse_from(args("lineplots -t Multi")).unwrap();
    assert_eq!(opts.command, Command::Lines);
    assert_eq!(opts.title.as_deref(), Some("Multi"));
}

#[test]
fn parse_scatter_command() {
    let opts = parse_from(args("scatter")).unwrap();
    assert_eq!(opts.command, Command::Scatter);
}

#[test]
fn parse_scatter_alias() {
    let opts = parse_from(args("s -t Dots")).unwrap();
    assert_eq!(opts.command, Command::Scatter);
    assert_eq!(opts.title.as_deref(), Some("Dots"));
}

#[test]
fn parse_unknown_command_is_err() {
    assert!(parse_from(args("bogus")).is_err());
}

#[test]
fn help_texts() {
    assert_eq!(parse_from(vec![]).unwrap_err(), usage());
    assert_eq!(parse_from(args("--help")).unwrap_err(), usage());
    assert_eq!(parse_from(args("line -H --help")).unwrap_err(), usage_line());
    assert!(usage().starts_with("Program: fu (brutally fast terminal plotting)"));
    assert!(usage().contains("    --gt N              exclude values <= N (histogram filter)"));
    assert!(usage_line().starts_with("Usage: fu line [options] <in.tsv>"));
}

#[test]
fn unknown_command_message() {
    let e = parse_from(args("bogus")).unwrap_err();
    assert_eq!(e, format!("unknown command: bogus\n\n{}", usage()));
}

#[test]
fn unknown_option_message() {
    assert_eq!(parse_from(args("line --bogus")).unwrap_err(), "unknown option: --bogus");
}

#[test]
fn missing_values() {
    assert_eq!(parse_from(args("line -t")).unwrap_err(), "-t requires an argument");
    assert_eq!(parse_from(args("line -w")).unwrap_err(), "-w requires an argument");
    assert_eq!(parse_from(args("line --ylim")).unwrap_err(), "--ylim requires an argument");
    assert_eq!(parse_from(args("hist --gt")).unwrap_err(), "--gt requires an argument");
}

#[test]
fn bad_numbers() {
    assert_eq!(parse_from(args("line -w wide")).unwrap_err(), "-w must be a positive integer");
    assert_eq!(parse_from(args("line -h -3")).unwrap_err(), "-h must be a positive integer");
    assert_eq!(parse_from(args("hist -n 1.5")).unwrap_err(), "-n must be a positive integer");
    assert_eq!(parse_from(args("line -w +7")).unwrap().width, Some(7));
}

#[test]
fn axis_limits() {
    let o = parse_from(args("line --xlim 0,100 --ylim -1.5,2e3")).unwrap();
    assert_eq!(o.xlim, Some(("0".to_string(), "100".to_string())));
    assert_eq!(o.ylim, Some(("-1.5".to_string(), "2e3".to_string())));
    let o = parse_from(vec!["line".into(), "--xlim".into(), " 1 , 2 ".into()]).unwrap();
    assert_eq!(o.xlim, Some(("1".to_string(), "2".to_string())));
}

#[test]
fn axis_limit_errors() {
    assert_eq!(
        parse_from(args("line --xlim 1,2,3")).unwrap_err(),
        "--xlim requires two comma-separated numbers (e.g. 0,100)"
    );
    assert_eq!(
        parse_from(args("line --ylim 1,abc")).unwrap_err(),
        "--ylim: cannot parse \"abc\" as number"
    );
    assert_eq!(
        parse_from(args("line --xlim x,1")).unwrap_err(),
        "--xlim: cannot parse \"x\" as number"
    );
}

#[test]
fn histogram_filters() {
    let o = parse_from(args("hist --log --gt 30 --lt 70.5")).unwrap();
    assert!(o.log_scale);
    assert_eq!(o.gt.as_deref(), Some("30"));
    assert_eq!(o.lt.as_deref(), Some("70.5"));
    assert_eq!(parse_from(args("hist --gt many")).unwrap_err(), "--gt must be a number");
    assert_eq!(parse_from(args("hist --lt 1..2")).unwrap_err(), "--lt must be a number");
    let o = parse_from(args("hist --gt inf --lt NaN")).unwrap();
    assert_eq!(o.gt.as_deref(), Some("inf"));
}

#[test]
fn color_flags() {
    let o = parse_from(args("line -c red -C --grid")).unwrap();
    assert_eq!(o.color, Some(fu::color::Color::Named(1)));
    assert!(o.force_color);
    assert!(o.grid);
    assert!(parse_from(args("line -M")).unwrap().monochrome);
    assert_eq!(parse_from(args("line -c 300")).unwrap_err(), "color index out of range: 300 (0-255)");
}

#[test]
fn output_dash_is_stdout_and_flag_is_not_a_file() {
    assert_eq!(parse_from(args("line -o -")).unwrap_err(), "unknown option: -");
    let o = parse_from(args("line -o -H")).unwrap();
    assert_eq!(o.output, Output::Stdout);
    assert!(o.has_headers);
}

#[test]
fn delimiter_takes_first_char_or_tab() {
    assert_eq!(parse_from(args("line -d ;;")).unwrap().delimiter, ';');
    let o = parse_from(vec!["line".into(), "-d".into(), "".into()]).unwrap();
    assert_eq!(o.delimiter, '\t');
}

#[test]
fn margin_and_padding() {
    let o = parse_from(args("line -m 1")).unwrap();
    assert_eq!(o.margin, Some(Sides::all(1)));
    let o = parse_from(args("line -m 1,2 --padding 0,0,0,3")).unwrap();
    assert_eq!(o.margin, Some(Sides::new(1, 2, 1, 2)));
    assert_eq!(o.padding, Some(Sides::new(0, 0, 0, 3)));
    assert_eq!(parse_from(args("line")).unwrap().margin, None);
    assert_eq!(
        parse_from(args("line -m 1,2,3")).unwrap_err(),
        "-m takes 1, 2, or 4 comma-separated values"
    );
    assert_eq!(
        parse_from(args("line --padding a")).unwrap_err(),
        "--padding values must be non-negative integers"
    );
}

#[test]
fn later_flags_win_and_files_keep_order() {
    let o = parse_from(args("c -t a -t b x.tsv y.tsv")).unwrap();
    assert_eq!(o.command, Command::Count);
    assert_eq!(o.title.as_deref(), Some("b"));
    assert_eq!(o.files, vec!["x.tsv", "y.tsv"]);
}

#[test]
fn arg_value_present_and_missing() {
    let a = args("line -t x");
    assert_eq!(arg_value(&a, 2, "-t"), Ok("x".to_string()));
    assert_eq!(arg_value(&a, 3, "-t"), Err("-t requires an argument".to_string()));
}

#[test]
fn default_options() {
    let o = Options::default();
    assert_eq!(o.command, Command::Line);
    assert_eq!(o.delimiter, '\t');
    assert_eq!(o.output, Output::Stderr);
    assert!(o.files.is_empty());
    assert_eq!(o.xlim, None);
    assert_eq!(o.padding, None);
}

#[test]
fn usage_lists_margin_and_padding() {
    assert!(usage().contains("    -m MARGIN           per-side margin: 1, 2, or 4 values"));
    assert!(usage().contains("    --padding PAD       per-side padding: 1, 2, or 4 values"));
}
