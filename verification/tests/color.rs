use fu::color::{default_palette, parse_color, resolve_color, Color, ColorMode};

#[test]
fn parse_named_colors() {
    assert_eq!(parse_color("red").unwrap(), Color::Named(1));
    assert_eq!(parse_color("Green").unwrap(), Color::Named(2));
    assert_eq!(parse_color("CYAN").unwrap(), Color::Named(6));
    assert_eq!(parse_color("bright_red").unwrap(), Color::Named(9));
}

#[test]
fn parse_indexed_colors() {
    assert_eq!(parse_color("0").unwrap(), Color::Indexed(0));
    assert_eq!(parse_color("196").unwrap(), Color::Indexed(196));
    assert_eq!(parse_color("255").unwrap(), Color::Indexed(255));
}

#[test]
fn parse_out_of_range() {
    assert!(parse_color("256").is_err());
    assert!(parse_color("999").is_err());
}

#[test]
fn parse_unknown() {
    assert!(parse_color("rainbow").is_err());
}

#[test]
fn fg_code_named() {
    assert_eq!(Color::Named(1).fg_code(), "\x1b[31m");
    assert_eq!(Color::Named(0).fg_code(), "\x1b[30m");
    assert_eq!(Color::Named(9).fg_code(), "\x1b[91m");
}

#[test]
fn fg_code_indexed() {
    assert_eq!(Color::Indexed(196).fg_code(), "\x1b[38;5;196m");
}

#[test]
fn palette_has_entries() {
    assert!(default_palette().len() >= 6);
}

#[test]
fn out_of_range_message() {
    assert_eq!(parse_color("256").unwrap_err(), "color index out of range: 256 (0-255)");
    assert_eq!(parse_color("65535").unwrap_err(), "color index out of range: 65535 (0-255)");
}

#[test]
fn unknown_color_message_quotes_the_name() {
    assert_eq!(parse_color("rainbow").unwrap_err(), "unknown color: \"rainbow\"");
    assert_eq!(parse_color("65536").unwrap_err(), "unknown color: \"65536\"");
    assert_eq!(parse_color("").unwrap_err(), "unknown color: \"\"");
}

#[test]
fn parse_spaced_and_plus_forms() {
    assert_eq!(parse_color("bright white").unwrap(), Color::Named(15));
    assert_eq!(parse_color("BRIGHT_Black").unwrap(), Color::Named(8));
    assert_eq!(parse_color("+7").unwrap(), Color::Indexed(7));
    assert_eq!(parse_color("007").unwrap(), Color::Indexed(7));
    assert!(parse_color(" red").is_err());
}

#[test]
fn fg_code_boundaries() {
    assert_eq!(Color::Named(7).fg_code(), "\x1b[37m");
    assert_eq!(Color::Named(8).fg_code(), "\x1b[90m");
    assert_eq!(Color::Named(15).fg_code(), "\x1b[97m");
    assert_eq!(Color::Indexed(0).fg_code(), "\x1b[38;5;0m");
}

#[test]
fn default_palette_order() {
    assert_eq!(
        default_palette(),
        vec![
            Color::Named(2),
            Color::Named(6),
            Color::Named(5),
            Color::Named(3),
            Color::Named(1),
            Color::Named(4),
            Color::Named(10),
            Color::Named(14),
            Color::Named(13),
            Color::Named(11),
        ]
    );
}

#[test]
fn color_modes() {
    let off = ColorMode::Off;
    assert!(!off.is_enabled());
    assert!(off.palette().is_empty());
    assert_eq!(off.series_color_idx(3), None);

    let single = ColorMode::Single(Color::Named(1));
    assert!(single.is_enabled());
    assert_eq!(single.palette(), vec![Color::Named(1)]);
    assert_eq!(single.series_color_idx(5), Some(0));

    let auto = ColorMode::Auto(vec![Color::Named(1), Color::Named(2), Color::Indexed(9)]);
    assert_eq!(auto.palette().len(), 3);
    assert_eq!(auto.series_color_idx(0), Some(0));
    assert_eq!(auto.series_color_idx(4), Some(1));
    assert_eq!(auto.series_color_idx(5), Some(2));

    let empty = ColorMode::Auto(vec![]);
    assert!(empty.is_enabled());
    assert_eq!(empty.series_color_idx(0), None);
}

#[test]
fn auto_colors_wrap_around() {
    let cm = ColorMode::Auto(default_palette());
    let n = default_palette().len();
    for i in 0..3 * n {
        let c = cm.series_color_idx(i).unwrap();
        assert!(c < n);
        assert_eq!(cm.series_color_idx(i + n), Some(c));
    }
}

#[test]
fn color_mode_resolution() {
    assert!(!resolve_color(true, true, true, Some(Color::Named(1))).is_enabled());
    assert!(!resolve_color(false, false, false, None).is_enabled());
    assert_eq!(resolve_color(false, true, false, Some(Color::Named(3))).palette(), vec![Color::Named(3)]);
    assert_eq!(resolve_color(false, false, true, None).palette(), default_palette());
}

#[test]
fn every_index_parses() {
    for n in 0..=255u16 {
        assert_eq!(parse_color(&n.to_string()).unwrap(), Color::Indexed(n as u8));
    }
    for n in [256u32, 1000, 65535] {
        assert_eq!(
            parse_color(&n.to_string()).unwrap_err(),
            format!("color index out of range: {n} (0-255)")
        );
    }
}

#[test]
fn names_ignore_case_and_bright_has_two_spellings() {
    for s in ["red", "Bright_Cyan", "bright white", "7", "+12", "nope", "300"] {
        assert_eq!(parse_color(&s.to_ascii_uppercase()).ok(), parse_color(s).ok());
        assert_eq!(parse_color(&s.to_ascii_lowercase()).ok(), parse_color(s).ok());
    }
    for b in ["black", "red", "green", "yellow", "blue", "magenta", "cyan", "white"] {
        let a = parse_color(&format!("bright_{b}"));
        assert!(a.is_ok());
        assert_eq!(a, parse_color(&format!("bright {b}")));
    }
}

#[test]
fn bright_spellings_agree_on_any_text() {
    for t in ["", "x", "RED", "Magenta", "redd"] {
        assert_eq!(
            parse_color(&format!("bright_{t}")).ok(),
            parse_color(&format!("bright {t}")).ok()
        );
    }
    assert_eq!(parse_color("BRIGHT MAGENTA").unwrap(), Color::Named(13));
}
