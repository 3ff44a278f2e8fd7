use fu::canvas::{BrailleCanvas, BRAILLE_BASE};
use fu::color::Color;
use fu::plot::{draw_grid, draw_row};

fn lit_cells(c: &BrailleCanvas) -> usize {
    let mut n = 0;
    for row in 0..c.chars_tall() {
        for ch in c.row_chars(row).chars() {
            if ch != '\u{2800}' {
                n += 1;
            }
        }
    }
    n
}

fn cell(c: &BrailleCanvas, cx: usize, cy: usize) -> u32 {
    c.row_chars(cy).chars().nth(cx).unwrap() as u32 - BRAILLE_BASE
}

#[test]
fn new_canvas_is_blank() {
    let c = BrailleCanvas::new(5, 3);
    assert_eq!(c.pixel_width(), 10);
    assert_eq!(c.pixel_height(), 12);
    for row in 0..3 {
        let s = c.row_chars(row);
        assert_eq!(s.chars().count(), 5);
        for ch in s.chars() {
            assert_eq!(ch, '\u{2800}');
        }
    }
}

#[test]
fn set_top_left_pixel() {
    let mut c = BrailleCanvas::new(2, 2);
    c.set(0, 0);
    let row = c.row_chars(0);
    let first = row.chars().next().unwrap();
    assert_eq!(first, '\u{2801}');
}

#[test]
fn set_bottom_right_of_cell() {
    let mut c = BrailleCanvas::new(1, 1);
    c.set(1, 3);
    let ch = c.row_chars(0).chars().next().unwrap();
    assert_eq!(ch, '\u{2880}');
}

#[test]
fn set_multiple_dots_in_cell() {
    let mut c = BrailleCanvas::new(1, 1);
    c.set(0, 0);
    c.set(1, 0);
    c.set(0, 3);
    c.set(1, 3);
    let ch = c.row_chars(0).chars().next().unwrap();
    assert_eq!(ch as u32, BRAILLE_BASE + 0x01 + 0x08 + 0x40 + 0x80);
}

#[test]
fn out_of_bounds_ignored() {
    let mut c = BrailleCanvas::new(1, 1);
    c.set(2, 0);
    c.set(0, 4);
    c.set(100, 100);
    let ch = c.row_chars(0).chars().next().unwrap();
    assert_eq!(ch, '\u{2800}');
}

#[test]
fn horizontal_line() {
    let mut c = BrailleCanvas::new(5, 1);
    c.line(0, 2, 9, 2);
    let row = c.row_chars(0);
    for ch in row.chars() {
        assert_ne!(ch, '\u{2800}', "all cells along horizontal line should have dots");
    }
}

#[test]
fn vertical_line() {
    let mut c = BrailleCanvas::new(1, 3);
    c.line(0, 0, 0, 11);
    for row in 0..3 {
        let ch = c.row_chars(row).chars().next().unwrap();
        assert_ne!(ch, '\u{2800}');
    }
}

#[test]
fn diagonal_line() {
    let mut c = BrailleCanvas::new(3, 3);
    c.line(0, 0, 5, 11);
    let mut any_set = false;
    for row in 0..3 {
        for ch in c.row_chars(row).chars() {
            if ch != '\u{2800}' {
                any_set = true;
            }
        }
    }
    assert!(any_set);
}

#[test]
fn every_dot_has_its_own_bit() {
    let expect = [[0x01u32, 0x08], [0x02, 0x10], [0x04, 0x20], [0x40, 0x80]];
    for row in 0..4 {
        for col in 0..2 {
            let mut c = BrailleCanvas::new(1, 1);
            c.set(col, row);
            assert_eq!(cell(&c, 0, 0), expect[row][col]);
        }
    }
}

#[test]
fn set_lands_in_the_right_cell() {
    let mut c = BrailleCanvas::new(3, 2);
    c.set(5, 6);
    assert_eq!(cell(&c, 2, 1), 0x20);
    assert_eq!(lit_cells(&c), 1);
}

#[test]
fn setting_twice_changes_nothing() {
    let mut a = BrailleCanvas::new(2, 2);
    a.set(1, 5);
    let once = a.row_chars(1);
    a.set(1, 5);
    assert_eq!(a.row_chars(1), once);
}

#[test]
fn set_order_does_not_matter() {
    let mut a = BrailleCanvas::new(2, 2);
    let mut b = BrailleCanvas::new(2, 2);
    a.set(0, 1);
    a.set(3, 7);
    b.set(3, 7);
    b.set(0, 1);
    for row in 0..2 {
        assert_eq!(a.row_chars(row), b.row_chars(row));
    }
}

#[test]
fn line_sets_both_endpoints() {
    let mut c = BrailleCanvas::new(4, 4);
    c.line(7, 1, 0, 14);
    assert_ne!(cell(&c, 3, 0) & 0x10, 0);
    assert_ne!(cell(&c, 0, 3) & 0x04, 0);
}

#[test]
fn single_point_line_is_one_dot() {
    let mut c = BrailleCanvas::new(2, 2);
    c.line(2, 5, 2, 5);
    assert_eq!(cell(&c, 1, 1), 0x02);
    assert_eq!(lit_cells(&c), 1);
}

#[test]
fn line_is_symmetric_for_horizontal_runs() {
    let mut a = BrailleCanvas::new(4, 1);
    let mut b = BrailleCanvas::new(4, 1);
    a.line(0, 1, 7, 1);
    b.line(7, 1, 0, 1);
    assert_eq!(a.row_chars(0), b.row_chars(0));
    assert_eq!(a.row_chars(0), "\u{2812}\u{2812}\u{2812}\u{2812}");
}

#[test]
fn line_off_canvas_is_clipped() {
    let mut c = BrailleCanvas::new(1, 1);
    c.line(0, 0, 9, 0);
    assert_eq!(cell(&c, 0, 0), 0x09);
}

#[test]
fn grid_of_four_lines_on_one_row_canvas() {
    // 4 pixel rows: lines at rows 1, 2 and 3; dots every 4th pixel.
    let mut c = BrailleCanvas::new(3, 1);
    draw_grid(&mut c, 4);
    assert_eq!(cell(&c, 0, 0), 0x02 | 0x04 | 0x40);
    assert_eq!(cell(&c, 1, 0), 0);
    assert_eq!(cell(&c, 2, 0), 0x02 | 0x04 | 0x40);
}

#[test]
fn grid_rows_round_half_up() {
    // 8 pixel rows, 3 lines: 8/3 = 2.67 -> 3 and 16/3 = 5.33 -> 5.
    let mut c = BrailleCanvas::new(1, 2);
    draw_grid(&mut c, 3);
    assert_eq!(cell(&c, 0, 0), 0x40);
    assert_eq!(cell(&c, 0, 1), 0x02);
}

#[test]
fn grid_with_no_lines_draws_nothing() {
    let mut c = BrailleCanvas::new(3, 3);
    draw_grid(&mut c, 0);
    draw_grid(&mut c, 1);
    assert_eq!(lit_cells(&c), 0);
}

#[test]
fn draw_row_fills_a_pixel_row() {
    let mut c = BrailleCanvas::new(3, 2);
    draw_row(&mut c, 5);
    assert_eq!(c.row_chars(0), "\u{2800}\u{2800}\u{2800}");
    assert_eq!(c.row_chars(1), "\u{2812}\u{2812}\u{2812}");
    draw_row(&mut c, 8);
    assert_eq!(c.row_chars(1), "\u{2812}\u{2812}\u{2812}");
}

#[test]
fn colored_dots_wrap_their_cells() {
    let mut c = BrailleCanvas::new(3, 1);
    c.set_colored(0, 0, Some(1));
    c.set(5, 0);
    let palette = vec![Color::Named(1), Color::Named(2)];
    assert_eq!(c.row_chars_colored(0, &palette), "\x1b[32m\u{2801}\x1b[0m\u{2800}\u{2808}");
    assert_eq!(c.row_chars_colored(0, &[]), c.row_chars(0));
    c.set_colored(1, 1, None);
    assert_eq!(c.row_chars_colored(0, &palette), "\x1b[32m\u{2811}\x1b[0m\u{2800}\u{2808}");
}

#[test]
fn colored_line_paints_the_cells_it_crosses() {
    let mut c = BrailleCanvas::new(3, 1);
    c.line_colored(0, 1, 3, 1, Some(0));
    let palette = vec![Color::Named(1)];
    assert_eq!(
        c.row_chars_colored(0, &palette),
        "\x1b[31m\u{2812}\x1b[0m\x1b[31m\u{2812}\x1b[0m\u{2800}"
    );
    c.line_colored(2, 0, 5, 0, None);
    assert_eq!(
        c.row_chars_colored(0, &palette),
        "\x1b[31m\u{2812}\x1b[0m\x1b[31m\u{281b}\x1b[0m\u{2809}"
    );
}

#[test]
fn far_off_endpoints_still_draw_the_visible_part() {
    let mut c = BrailleCanvas::new(2, 1);
    c.line(0, 0, 1_000_000, 0);
    assert_eq!(cell(&c, 0, 0), 0x09);
    assert_eq!(cell(&c, 1, 0), 0x09);
}
