use fu::canvas::BrailleCanvas;
use fu::cli::Sides;
use fu::color::{Color, ColorMode};
use fu::plot::{bar_area, render_barplot, render_frame, series_labels};

fn strings(v: &[&str]) -> Vec<String> {
    v.iter().map(|s| s.to_string()).collect()
}

fn ticks(v: &[(&str, usize)]) -> Vec<(String, usize)> {
    v.iter().map(|(s, p)| (s.to_string(), *p)).collect()
}

fn bar_lens(values: &[f64], area: usize) -> Vec<usize> {
    let max = values.iter().cloned().fold(f64::MIN_POSITIVE, f64::max);
    values.iter().map(|v| ((v / max) * area as f64).round() as usize).collect()
}

fn barplot(labels: &[&str], values: &[f64], width: usize, title: Option<&str>, cm: &ColorMode) -> String {
    let vl: Vec<String> = values.iter().map(|v| format!("{}", v)).collect();
    let area = bar_area(width, &vl, &Sides::all(0));
    render_barplot(
        &strings(labels),
        &vl,
        &bar_lens(values, area),
        width,
        title,
        cm,
        &Sides::all(0),
        &Sides::all(0),
        '■',
    )
}

#[test]
fn frame_of_a_blank_canvas() {
    let c = BrailleCanvas::new(2, 2);
    let out = render_frame(
        &c,
        &ticks(&[("0", 0), ("10", 1)]),
        "1",
        "5",
        None,
        None,
        None,
        &ColorMode::Off,
        &[],
        &Sides::all(0),
        &Sides::all(0),
    );
    assert_eq!(
        out,
        "   ┌──┐ \n10 │\u{2800}\u{2800}│ \n 0 │\u{2800}\u{2800}│ \n   └──┘ \n   1  5\n"
    );
}

#[test]
fn frame_with_title_labels_and_spacing() {
    let mut c = BrailleCanvas::new(2, 2);
    c.set(0, 0);
    let out = render_frame(
        &c,
        &ticks(&[("10", 1)]),
        "0",
        "9",
        Some("T"),
        Some("x"),
        Some("y"),
        &ColorMode::Off,
        &[],
        &Sides::new(1, 0, 1, 0),
        &Sides::new(0, 1, 0, 0),
    );
    let expect = "\n    T\n   ┌───┐ \n10 │\u{2801}\u{2800} │ \n y │\u{2800}\u{2800} │ \n   └───┘ \n   0   9\n   x\n\n";
    assert_eq!(out, expect);
}

#[test]
fn frame_padding_rows_and_long_ylabel() {
    let c = BrailleCanvas::new(1, 2);
    let out = render_frame(
        &c,
        &ticks(&[]),
        "",
        "",
        None,
        None,
        Some("too long"),
        &ColorMode::Off,
        &[],
        &Sides::all(0),
        &Sides::new(1, 0, 1, 0),
    );
    assert_eq!(out, "   ┌─┐ \n   │ │ \n   │\u{2800}│ \n   │\u{2800}│ \n   │ │ \n   └─┘ \n\n");
}

#[test]
fn frame_with_colors_has_dim_borders_and_legend() {
    let c = BrailleCanvas::new(2, 2);
    let cm = ColorMode::Auto(vec![Color::Named(1), Color::Named(2)]);
    let out = render_frame(
        &c,
        &ticks(&[("1", 1)]),
        "0",
        "1",
        None,
        None,
        None,
        &cm,
        &strings(&["temp", "pressure"]),
        &Sides::all(0),
        &Sides::all(0),
    );
    assert!(out.contains("\x1b[31mtemp\x1b[0m    \n"));
    assert!(out.contains("\x1b[32mpressure\x1b[0m\n"));
    assert!(out.contains("\x1b[90m1 │\x1b[39m"));
    assert!(out.starts_with("  \x1b[90m┌──┐\x1b[39m         \n"));
}

#[test]
fn no_legend_without_colors() {
    let c = BrailleCanvas::new(2, 2);
    let out = render_frame(
        &c,
        &ticks(&[]),
        "0",
        "1",
        None,
        None,
        None,
        &ColorMode::Off,
        &strings(&["temp"]),
        &Sides::all(0),
        &Sides::all(0),
    );
    assert!(!out.contains("temp"));
}

#[test]
fn x_labels_meet_on_a_narrow_frame() {
    let c = BrailleCanvas::new(1, 1);
    let out = render_frame(
        &c,
        &ticks(&[("0", 0)]),
        "-123",
        "45",
        None,
        None,
        None,
        &ColorMode::Off,
        &[],
        &Sides::all(0),
        &Sides::all(0),
    );
    assert!(out.ends_with("  -45\n"));
}

#[test]
fn render_basic_barplot() {
    let output = barplot(&["cat", "dog", "parrot"], &[30.0, 45.0, 12.0], 40, Some("Animals"), &ColorMode::Off);
    assert!(output.contains("Animals"));
    assert!(output.contains("cat"));
    assert!(output.contains("dog"));
    assert!(output.contains("parrot"));
    assert!(output.contains("45"));
    assert!(output.contains('■'));
    assert!(output.contains("┤"));
}

#[test]
fn barplot_max_bar_is_full() {
    let output = barplot(&["a", "b"], &[100.0, 50.0], 30, None, &ColorMode::Off);
    let lines: Vec<&str> = output.lines().collect();
    let a_blocks = lines[1].matches('■').count();
    let b_blocks = lines[2].matches('■').count();
    assert!(a_blocks > b_blocks);
}

#[test]
fn barplot_exact_layout() {
    let out = render_barplot(
        &strings(&["a", "bb"]),
        &strings(&["3", "10"]),
        &[2, 4],
        10,
        None,
        &ColorMode::Off,
        &Sides::all(0),
        &Sides::all(0),
        '#',
    );
    // area = 10 - (1 + 2) = 7; inner = 7 + 1 + 2 = 10
    assert_eq!(
        out,
        "   ┌           ┐ \n a ┤## 3      \nbb ┤#### 10   \n   └           ┘ \n"
    );
}

#[test]
fn barplot_colors_the_bars() {
    let out = render_barplot(
        &strings(&["a"]),
        &strings(&["1"]),
        &[1],
        4,
        Some("t"),
        &ColorMode::Single(Color::Named(2)),
        &Sides::all(0),
        &Sides::all(0),
        '#',
    );
    assert!(out.contains("\x1b[32m#\x1b[39m\x1b[0m 1"));
    assert!(out.contains("\x1b[0ma\x1b[90m ┤\x1b[39m"));
    assert!(out.contains("\x1b[90m \x1b[39m\n"));
}

#[test]
fn bar_area_has_a_floor_of_four() {
    assert_eq!(bar_area(40, &strings(&["30", "45"]), &Sides::all(0)), 37);
    assert_eq!(bar_area(5, &strings(&["30"]), &Sides::all(0)), 4);
    assert_eq!(bar_area(20, &strings(&[]), &Sides::new(0, 2, 0, 3)), 14);
}

#[test]
fn legend_from_headers() {
    assert_eq!(series_labels(&Some(strings(&["x", "temp", "pressure"]))), vec!["temp", "pressure"]);
    assert!(series_labels(&Some(strings(&["x"]))).is_empty());
    assert!(series_labels(&None).is_empty());
}

#[test]
fn uncolored_frame_is_a_rectangle() {
    let mut c = BrailleCanvas::new(4, 3);
    c.line(0, 0, 7, 11);
    let out = render_frame(
        &c,
        &ticks(&[("-1.5", 0), ("0", 1), ("1.5", 2)]),
        "0",
        "10",
        None,
        None,
        Some("v"),
        &ColorMode::Off,
        &[],
        &Sides::new(0, 2, 0, 3),
        &Sides::all(1),
    );
    let lines: Vec<&str> = out.lines().collect();
    let w = lines[0].chars().count();
    for l in &lines[..lines.len() - 1] {
        assert_eq!(l.chars().count(), w);
    }
}

#[test]
fn render_lineplot_with_color() {
    // One series drawn in the single color: its cells carry the red code and a reset.
    let mut c = BrailleCanvas::new(4, 2);
    let cm = ColorMode::Single(Color::Named(1));
    let ci = cm.series_color_idx(0);
    c.line_colored(0, 7, 3, 0, ci);
    c.line_colored(3, 0, 7, 4, ci);
    let output = render_frame(&c, &ticks(&[("10", 0), ("20", 1)]), "1", "3", None, None, None, &cm, &[],
        &Sides::all(0), &Sides::all(0));
    assert!(output.contains("\x1b[31m"), "should contain red ANSI code");
    assert!(output.contains("\x1b[0m"), "should contain reset code");
}

#[test]
fn render_lineplot_multi_series_auto_color() {
    let mut c = BrailleCanvas::new(4, 2);
    let cm = ColorMode::Auto(vec![Color::Named(1), Color::Named(2)]);
    c.line_colored(0, 7, 7, 0, cm.series_color_idx(0));
    c.line_colored(0, 0, 0, 7, cm.series_color_idx(1));
    let output = render_frame(&c, &ticks(&[("0", 0)]), "1", "3", None, None, None, &cm, &[],
        &Sides::all(0), &Sides::all(0));
    assert!(output.contains("\x1b[31m"), "should contain red");
    assert!(output.contains("\x1b[32m"), "should contain green");
}

#[test]
fn uncolored_output_has_no_codes() {
    let mut c = BrailleCanvas::new(2, 1);
    c.line_colored(0, 0, 3, 3, Some(0));
    let out = render_frame(&c, &ticks(&[]), "0", "1", None, None, None, &ColorMode::Off, &[],
        &Sides::all(0), &Sides::all(0));
    assert!(!out.contains('\x1b'));
}

#[test]
fn series_are_lines_or_dots() {
    let pts = vec![(0, 0), (3, 0), (3, 3)];
    let mut lines = BrailleCanvas::new(2, 1);
    fu::plot::draw_series(&mut lines, &pts, true, None);
    let mut dots = BrailleCanvas::new(2, 1);
    fu::plot::draw_series(&mut dots, &pts, false, None);
    assert_eq!(lines.row_chars(0), "\u{2809}\u{28b9}");
    assert_eq!(dots.row_chars(0), "\u{2801}\u{2888}");
    let mut one = BrailleCanvas::new(2, 1);
    fu::plot::draw_series(&mut one, &pts[..1], true, None);
    assert_eq!(one.row_chars(0), "\u{2800}\u{2800}");
}

#[test]
fn series_take_their_color() {
    let mut c = BrailleCanvas::new(2, 1);
    fu::plot::draw_series(&mut c, &[(0, 0), (1, 0)], true, Some(1));
    let palette = vec![Color::Named(1), Color::Named(2)];
    assert_eq!(c.row_chars_colored(0, &palette), "\x1b[32m\u{2809}\x1b[0m\u{2800}");
}
