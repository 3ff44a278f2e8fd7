//! ANSI color support: 16 named colors + 256 indexed.
use vstd::prelude::*;
use crate::text::{
    chars_eq_str, lower_eq, lowered, chars_of, debug_string, decimal, parse_unsigned, parse_unsigned_chars,
    push_decimal, push_str, str_debug, string_from_chars,
};

verus! {

#[derive(Debug, Clone, Copy, PartialEq, Eq, Structural)]
pub enum Color {
    /// 0-15: standard + bright
    Named(u8),
    /// 0-255
    Indexed(u8),
}

/// The escape sequence that selects `c` as the foreground color.
pub open spec fn fg_code_spec(c: Color) -> Seq<char> {
    match c {
        Color::Named(n) => if n < 8 {
            "\x1b["@ + decimal((30 + n) as nat) + "m"@
        } else {
            "\x1b["@ + decimal((90 + n - 8) as nat) + "m"@
        },
        Color::Indexed(n) => "\x1b[38;5;"@ + decimal(n as nat) + "m"@,
    }
}

impl Color {
    /// The ANSI escape sequence that sets this color as the foreground.
    pub fn fg_code(self) -> (s: String)
        requires
            self matches Color::Named(n) ==> n <= 165,
        ensures
            s@ == fg_code_spec(self),
    {
        let mut out: Vec<char> = Vec::new();
        match self {
            Color::Named(n) => {
                push_str(&mut out, "\x1b[");
                if n < 8 {
                    push_decimal(&mut out, (30 + n) as u64);
                } else {
                    push_decimal(&mut out, (90 + n - 8) as u64);
                }
                push_str(&mut out, "m");
            },
            Color::Indexed(n) => {
                push_str(&mut out, "\x1b[38;5;");
                push_decimal(&mut out, n as u64);
                push_str(&mut out, "m");
            },
        }
        string_from_chars(&out)
    }
}

/// The escape sequence that resets all attributes.
pub const RESET: &'static str = "\x1b[0m";

/// Default palette for auto-assigning series colors.
/// Green, cyan, magenta, yellow, red, blue, then the bright green, cyan,
/// magenta and yellow — high-contrast on dark terminals.
pub open spec fn palette_colors() -> Seq<Color> {
    seq![
        Color::Named(2), Color::Named(6), Color::Named(5), Color::Named(3), Color::Named(1),
        Color::Named(4), Color::Named(10), Color::Named(14), Color::Named(13), Color::Named(11),
    ]
}

/// The default palette (see `palette_colors`).
pub fn default_palette() -> (v: Vec<Color>)
    ensures
        v@ == palette_colors(),
{
    let v = vec![
        Color::Named(2), Color::Named(6), Color::Named(5), Color::Named(3), Color::Named(1),
        Color::Named(4), Color::Named(10), Color::Named(14), Color::Named(13), Color::Named(11),
    ];
    proof { assert(v@ =~= palette_colors()); }
    v
}

/// The named color a lowercase-insensitive name selects.
pub open spec fn named_color(s: Seq<char>) -> Option<u8> {
    if lower_eq(s, "black"@) { Some(0u8) }
    else if lower_eq(s, "red"@) { Some(1u8) }
    else if lower_eq(s, "green"@) { Some(2u8) }
    else if lower_eq(s, "yellow"@) { Some(3u8) }
    else if lower_eq(s, "blue"@) { Some(4u8) }
    else if lower_eq(s, "magenta"@) { Some(5u8) }
    else if lower_eq(s, "cyan"@) { Some(6u8) }
    else if lower_eq(s, "white"@) { Some(7u8) }
    else if lower_eq(s, "bright_black"@) || lower_eq(s, "bright black"@) { Some(8u8) }
    else if lower_eq(s, "bright_red"@) || lower_eq(s, "bright red"@) { Some(9u8) }
    else if lower_eq(s, "bright_green"@) || lower_eq(s, "bright green"@) { Some(10u8) }
    else if lower_eq(s, "bright_yellow"@) || lower_eq(s, "bright yellow"@) { Some(11u8) }
    else if lower_eq(s, "bright_blue"@) || lower_eq(s, "bright blue"@) { Some(12u8) }
    else if lower_eq(s, "bright_magenta"@) || lower_eq(s, "bright magenta"@) { Some(13u8) }
    else if lower_eq(s, "bright_cyan"@) || lower_eq(s, "bright cyan"@) { Some(14u8) }
    else if lower_eq(s, "bright_white"@) || lower_eq(s, "bright white"@) { Some(15u8) }
    else { None }
}

/// What `parse_color` returns for the text `s`.
pub open spec fn parse_color_spec(s: Seq<char>) -> Result<Color, Seq<char>> {
    match parse_unsigned(s, 65535) {
        Some(n) => if n > 255 {
            Err("color index out of range: "@ + decimal(n) + " (0-255)"@)
        } else {
            Ok(Color::Indexed(n as u8))
        },
        None => match named_color(s) {
            Some(k) => Ok(Color::Named(k)),
            None => Err("unknown color: "@ + str_debug(s)),
        },
    }
}

fn is_name(lower: &Vec<char>, name: &str) -> (r: bool)
    ensures
        r == (lower@ == name@),
{
    chars_eq_str(lower, name)
}

/// Parse a color string: named color or numeric index.
pub fn parse_color(s: &str) -> (r: Result<Color, String>)
    ensures
        r matches Ok(c) ==> parse_color_spec(s@) == Ok::<Color, Seq<char>>(c),
        r matches Err(m) ==> parse_color_spec(s@) == Err::<Color, Seq<char>>(m@),
{
    let v = chars_of(s);
    if let Some(n) = parse_unsigned_chars(&v, 65535) {
        if n > 255 {
            let mut out: Vec<char> = Vec::new();
            push_str(&mut out, "color index out of range: ");
            push_decimal(&mut out, n);
            push_str(&mut out, " (0-255)");
            return Err(string_from_chars(&out));
        }
        return Ok(Color::Indexed(n as u8));
    }
    let l = lowered(&v);
    let k: Option<u8> =
        if is_name(&l, "black") { Some(0) }
        else if is_name(&l, "red") { Some(1) }
        else if is_name(&l, "green") { Some(2) }
        else if is_name(&l, "yellow") { Some(3) }
        else if is_name(&l, "blue") { Some(4) }
        else if is_name(&l, "magenta") { Some(5) }
        else if is_name(&l, "cyan") { Some(6) }
        else if is_name(&l, "white") { Some(7) }
        else if is_name(&l, "bright_black") || is_name(&l, "bright black") { Some(8) }
        else if is_name(&l, "bright_red") || is_name(&l, "bright red") { Some(9) }
        else if is_name(&l, "bright_green") || is_name(&l, "bright green") { Some(10) }
        else if is_name(&l, "bright_yellow") || is_name(&l, "bright yellow") { Some(11) }
        else if is_name(&l, "bright_blue") || is_name(&l, "bright blue") { Some(12) }
        else if is_name(&l, "bright_magenta") || is_name(&l, "bright magenta") { Some(13) }
        else if is_name(&l, "bright_cyan") || is_name(&l, "bright cyan") { Some(14) }
        else if is_name(&l, "bright_white") || is_name(&l, "bright white") { Some(15) }
        else { None };
    match k {
        Some(k) => Ok(Color::Named(k)),
        None => {
            let mut out: Vec<char> = Vec::new();
            push_str(&mut out, "unknown color: ");
            let d = debug_string(s);
            let mut dv = chars_of(d.as_str());
            out.append(&mut dv);
            Err(string_from_chars(&out))
        },
    }
}

/// Resolved color configuration for rendering.
#[derive(Debug, Clone)]
pub enum ColorMode {
    /// No color output.
    Off,
    /// Single explicit color for all series.
    Single(Color),
    /// Auto-assign from palette. Vec is the resolved palette.
    Auto(Vec<Color>),
}

impl ColorMode {
    /// The colors a canvas draws with: none when off, the one color, or the palette.
    pub open spec fn palette_spec(&self) -> Seq<Color> {
        match self {
            ColorMode::Off => Seq::empty(),
            ColorMode::Single(c) => seq![*c],
            ColorMode::Auto(p) => p@,
        }
    }

    /// The palette index of series `i`: none when off or the palette is
    /// empty, 0 for a single color, else `i` wrapped around the palette.
    pub open spec fn color_idx_spec(&self, i: int) -> Option<int> {
        match self {
            ColorMode::Off => None,
            ColorMode::Single(_) => Some(0int),
            ColorMode::Auto(p) => if p@.len() == 0 { None } else { Some(i % (p@.len() as int)) },
        }
    }

    /// Build a palette for the canvas. Returns an empty vector for Off.
    pub fn palette(&self) -> (r: Vec<Color>)
        ensures
            r@ == self.palette_spec(),
    {
        match self {
            ColorMode::Off => Vec::new(),
            ColorMode::Single(c) => {
                let mut v: Vec<Color> = Vec::new();
                v.push(*c);
                proof { assert(v@ =~= seq![*c]); }
                v
            },
            ColorMode::Auto(p) => {
                let mut v: Vec<Color> = Vec::new();
                let mut i: usize = 0;
                while i < p.len()
                    invariant
                        i <= p@.len(),
                        v@ =~= p@.take(i as int),
                    decreases p.len() - i,
                {
                    v.push(p[i]);
                    proof { assert(p@.take(i + 1) =~= p@.take(i as int).push(p@[i as int])); }
                    i = i + 1;
                }
                proof { assert(p@.take(p@.len() as int) =~= p@); }
                v
            },
        }
    }

    pub fn is_enabled(&self) -> (r: bool)
        ensures
            r == !(self is Off),
    {
        !matches!(self, ColorMode::Off)
    }

    /// Map series index to color index for the canvas.
    /// For Single mode, everything maps to 0.
    /// For Auto mode, wraps around the palette.
    pub fn series_color_idx(&self, series_idx: usize) -> (r: Option<usize>)
        ensures
            r == (match self.color_idx_spec(series_idx as int) {
                Some(i) => Some(i as usize),
                None => None,
            }),
    {
        match self {
            ColorMode::Off => None,
            ColorMode::Single(_) => Some(0),
            ColorMode::Auto(p) => {
                if p.len() == 0 {
                    None
                } else {
                    Some(series_idx % p.len())
                }
            },
        }
    }
}

/// Every series that gets a color gets one of the palette's: the index is
/// within the palette.
pub proof fn lemma_series_color_in_palette(cm: ColorMode, i: int)
    requires
        i >= 0,
    ensures
        cm.color_idx_spec(i) matches Some(c) ==> 0 <= c < cm.palette_spec().len(),
{
}

/// Auto colors wrap around the palette: series `i` and `i + n` share a color
/// when the palette has `n` colors.
pub proof fn lemma_auto_colors_cycle(p: Vec<Color>, i: int)
    requires
        i >= 0,
    ensures
        ColorMode::Auto(p).color_idx_spec(i + p@.len()) == ColorMode::Auto(p).color_idx_spec(i),
{
    if p@.len() > 0 {
        vstd::arithmetic::div_mod::lemma_mod_add_multiples_vanish(i, p@.len() as int);
    }
}

/// The color mode a chart is drawn in: none when monochrome is asked for,
/// or when the output is not a terminal and color is not forced; else the
/// chosen color, or the default palette.
pub fn resolve_color(monochrome: bool, force_color: bool, output_is_tty: bool, color: Option<Color>) -> (m: ColorMode)
    ensures
        (monochrome || (!force_color && !output_is_tty)) ==> m is Off,
        !(monochrome || (!force_color && !output_is_tty)) ==> match color {
            Some(c) => m matches ColorMode::Single(x) && x == c,
            None => m is Auto && m.palette_spec() == palette_colors(),
        },
{
    if monochrome {
        return ColorMode::Off;
    }
    if !force_color && !output_is_tty {
        return ColorMode::Off;
    }
    match color {
        Some(c) => ColorMode::Single(c),
        None => ColorMode::Auto(default_palette()),
    }
}

proof fn lemma_decimal_reads_back(n: nat)
    ensures
        decimal(n).len() >= 1,
        crate::text::all_digits(decimal(n)),
        crate::text::digits_value(decimal(n)) == n,
    decreases n,
{
    if n >= 10 {
        lemma_decimal_reads_back(n / 10);
        let s = decimal(n / 10);
        let d = crate::text::digit_char((n % 10) as int);
        assert(decimal(n).drop_last() =~= s);
        assert(decimal(n).last() == d);
        assert(d as int == 48 + n % 10);
        assert(crate::text::digits_value(decimal(n)) == crate::text::digits_value(s) * 10 + (d as int - 48));
        assert((n / 10) * 10 + n % 10 == n);
        assert forall|i: int| 0 <= i < decimal(n).len() implies crate::text::is_digit(#[trigger] decimal(n)[i]) by {
            if i < s.len() {
                assert(decimal(n)[i] == s[i]);
            }
        }
    } else {
        let d = crate::text::digit_char(n as int);
        assert(d as int == 48 + n);
        assert(decimal(n).drop_last() =~= Seq::<char>::empty());
        assert(decimal(n).last() == d);
        assert(crate::text::digits_value(Seq::<char>::empty()) == 0);
        assert(crate::text::digits_value(decimal(n)) == n);
    }
}

/// Every color index from 0 to 255, written in decimal, selects that indexed
/// color; larger numbers up to 65535 are refused as out of range.
pub proof fn lemma_indices_parse(n: nat)
    requires
        n <= 65535,
    ensures
        n <= 255 ==> parse_color_spec(decimal(n)) == Ok::<Color, Seq<char>>(Color::Indexed(n as u8)),
        n > 255 ==> parse_color_spec(decimal(n)) == Err::<Color, Seq<char>>(
            "color index out of range: "@ + decimal(n) + " (0-255)"@),
{
    lemma_decimal_reads_back(n);
    let s = decimal(n);
    assert(crate::text::is_digit(s[0]));
    assert(crate::text::unsigned_body(s) == s);
}

/// `char::to_ascii_uppercase`.
pub open spec fn ascii_upper(c: char) -> char {
    if 'a' <= c && c <= 'z' { ((c as int) - 32) as char } else { c }
}

/// `char::to_ascii_lowercase`.
pub open spec fn ascii_lower(c: char) -> char {
    if 'A' <= c && c <= 'Z' { ((c as int) + 32) as char } else { c }
}

/// `s` and `t` differ at most in the case of letters: their characters lower
/// alike pair by pair, and digits and `+` are the same in both.
pub open spec fn same_but_case(s: Seq<char>, t: Seq<char>) -> bool {
    &&& s.len() == t.len()
    &&& forall|i: int| 0 <= i < s.len() ==> crate::text::lower_char(#[trigger] s[i]) == crate::text::lower_char(t[i])
        && (crate::text::is_digit(s[i]) || s[i] == '+' || crate::text::is_digit(t[i]) || t[i] == '+' ==> s[i] == t[i])
}

proof fn lemma_parse_unsigned_same_but_case(s: Seq<char>, t: Seq<char>)
    requires
        same_but_case(s, t),
    ensures
        parse_unsigned(s, 65535) is Some || parse_unsigned(t, 65535) is Some ==> s == t,
{
    if parse_unsigned(s, 65535) is Some {
        let b = crate::text::unsigned_body(s);
        assert forall|i: int| 0 <= i < s.len() implies s[i] == t[i] by {
            if s[0] == '+' {
                if i > 0 {
                    assert(b[i - 1] == s[i]);
                    assert(crate::text::is_digit(b[i - 1]));
                }
            } else {
                assert(b[i] == s[i]);
                assert(crate::text::is_digit(b[i]));
            }
        }
        assert(s =~= t);
    } else if parse_unsigned(t, 65535) is Some {
        let b = crate::text::unsigned_body(t);
        assert forall|i: int| 0 <= i < t.len() implies s[i] == t[i] by {
            if t[0] == '+' {
                if i > 0 {
                    assert(b[i - 1] == t[i]);
                    assert(crate::text::is_digit(b[i - 1]));
                }
            } else {
                assert(b[i] == t[i]);
                assert(crate::text::is_digit(b[i]));
            }
        }
        assert(s =~= t);
    }
}

proof fn lemma_color_same_but_case(s: Seq<char>, t: Seq<char>)
    requires
        same_but_case(s, t),
    ensures
        parse_color_spec(s) is Ok <==> parse_color_spec(t) is Ok,
        parse_color_spec(s) is Ok ==> parse_color_spec(s) == parse_color_spec(t),
{
    lemma_parse_unsigned_same_but_case(s, t);
    assert(s.map_values(|c: char| crate::text::lower_char(c)) =~= t.map_values(|c: char| crate::text::lower_char(c)));
}

/// Color names ignore case: changing the ASCII letters of the text to upper
/// or to lower case does not change whether it parses, nor the color.
pub proof fn lemma_color_names_ignore_case(s: Seq<char>)
    ensures
        parse_color_spec(s.map_values(|c: char| ascii_upper(c))) is Ok <==> parse_color_spec(s) is Ok,
        parse_color_spec(s) is Ok ==> parse_color_spec(s.map_values(|c: char| ascii_upper(c))) == parse_color_spec(s),
        parse_color_spec(s.map_values(|c: char| ascii_lower(c))) is Ok <==> parse_color_spec(s) is Ok,
        parse_color_spec(s) is Ok ==> parse_color_spec(s.map_values(|c: char| ascii_lower(c))) == parse_color_spec(s),
{
    let u = s.map_values(|c: char| ascii_upper(c));
    let l = s.map_values(|c: char| ascii_lower(c));
    assert(same_but_case(s, u));
    assert(same_but_case(s, l));
    lemma_color_same_but_case(s, u);
    lemma_color_same_but_case(s, l);
}

proof fn lemma_not_lower_eq_len(s: Seq<char>, name: Seq<char>)
    requires
        s.len() != name.len(),
    ensures
        !crate::text::lower_eq(s, name),
{
    assert(s.map_values(|c: char| crate::text::lower_char(c)).len() == s.len());
}

proof fn lemma_not_lower_eq_at(s: Seq<char>, name: Seq<char>, i: int)
    requires
        0 <= i < s.len(),
        i < name.len(),
        crate::text::lower_char(s[i]) != name[i],
    ensures
        !crate::text::lower_eq(s, name),
{
    assert(s.map_values(|c: char| crate::text::lower_char(c))[i] == crate::text::lower_char(s[i]));
}

/// `lower_eq` against two pieces: the text splits where the pieces meet.
proof fn lemma_lower_eq_concat(s: Seq<char>, p: Seq<char>, q: Seq<char>)
    ensures
        crate::text::lower_eq(s, p + q) <==> (s.len() == p.len() + q.len()
            && crate::text::lower_eq(s.take(p.len() as int), p) && crate::text::lower_eq(s.skip(p.len() as int), q)),
{
    let m = s.map_values(|c: char| crate::text::lower_char(c));
    let n = p.len() as int;
    assert(m.len() == s.len());
    assert((p + q).len() == p.len() + q.len());
    if s.len() >= n {
        assert(s.take(n).map_values(|c: char| crate::text::lower_char(c)) =~= m.take(n));
        assert(s.skip(n).map_values(|c: char| crate::text::lower_char(c)) =~= m.skip(n));
        if s.len() == p.len() + q.len() && m.take(n) == p && m.skip(n) == q {
            assert(m =~= p + q);
        }
        if m == p + q {
            assert(m.take(n) =~= p);
            assert(m.skip(n) =~= q);
        }
    }
}

/// The eight base color names, in order of their numbers.
pub open spec fn base_color(s: Seq<char>) -> Option<u8> {
    if lower_eq(s, "black"@) { Some(0u8) }
    else if lower_eq(s, "red"@) { Some(1u8) }
    else if lower_eq(s, "green"@) { Some(2u8) }
    else if lower_eq(s, "yellow"@) { Some(3u8) }
    else if lower_eq(s, "blue"@) { Some(4u8) }
    else if lower_eq(s, "magenta"@) { Some(5u8) }
    else if lower_eq(s, "cyan"@) { Some(6u8) }
    else if lower_eq(s, "white"@) { Some(7u8) }
    else { None }
}

/// A named color is a base name, or `bright` with `_` or a space and a base
/// name (numbered eight higher).
proof fn lemma_named_color_structure(s: Seq<char>)
    ensures
        named_color(s) == match base_color(s) {
            Some(k) => Some(k),
            None => if s.len() >= 7 && (lower_eq(s.take(7), "bright_"@) || lower_eq(s.take(7), "bright "@)) {
                match base_color(s.skip(7)) {
                    Some(k) => Some((k + 8) as u8),
                    None => None,
                }
            } else {
                None
            },
        },
{
    reveal_strlit("bright_");
    reveal_strlit("bright ");
    reveal_strlit("black");
    reveal_strlit("bright_black");
    reveal_strlit("bright black");
    assert("bright_black"@ =~= "bright_"@ + "black"@);
    assert("bright black"@ =~= "bright "@ + "black"@);
    lemma_lower_eq_concat(s, "bright_"@, "black"@);
    lemma_lower_eq_concat(s, "bright "@, "black"@);
    reveal_strlit("red");
    reveal_strlit("bright_red");
    reveal_strlit("bright red");
    assert("bright_red"@ =~= "bright_"@ + "red"@);
    assert("bright red"@ =~= "bright "@ + "red"@);
    lemma_lower_eq_concat(s, "bright_"@, "red"@);
    lemma_lower_eq_concat(s, "bright "@, "red"@);
    reveal_strlit("green");
    reveal_strlit("bright_green");
    reveal_strlit("bright green");
    assert("bright_green"@ =~= "bright_"@ + "green"@);
    assert("bright green"@ =~= "bright "@ + "green"@);
    lemma_lower_eq_concat(s, "bright_"@, "green"@);
    lemma_lower_eq_concat(s, "bright "@, "green"@);
    reveal_strlit("yellow");
    reveal_strlit("bright_yellow");
    reveal_strlit("bright yellow");
    assert("bright_yellow"@ =~= "bright_"@ + "yellow"@);
    assert("bright yellow"@ =~= "bright "@ + "yellow"@);
    lemma_lower_eq_concat(s, "bright_"@, "yellow"@);
    lemma_lower_eq_concat(s, "bright "@, "yellow"@);
    reveal_strlit("blue");
    reveal_strlit("bright_blue");
    reveal_strlit("bright blue");
    assert("bright_blue"@ =~= "bright_"@ + "blue"@);
    assert("bright blue"@ =~= "bright "@ + "blue"@);
    lemma_lower_eq_concat(s, "bright_"@, "blue"@);
    lemma_lower_eq_concat(s, "bright "@, "blue"@);
    reveal_strlit("magenta");
    reveal_strlit("bright_magenta");
    reveal_strlit("bright magenta");
    assert("bright_magenta"@ =~= "bright_"@ + "magenta"@);
    assert("bright magenta"@ =~= "bright "@ + "magenta"@);
    lemma_lower_eq_concat(s, "bright_"@, "magenta"@);
    lemma_lower_eq_concat(s, "bright "@, "magenta"@);
    reveal_strlit("cyan");
    reveal_strlit("bright_cyan");
    reveal_strlit("bright cyan");
    assert("bright_cyan"@ =~= "bright_"@ + "cyan"@);
    assert("bright cyan"@ =~= "bright "@ + "cyan"@);
    lemma_lower_eq_concat(s, "bright_"@, "cyan"@);
    lemma_lower_eq_concat(s, "bright "@, "cyan"@);
    reveal_strlit("white");
    reveal_strlit("bright_white");
    reveal_strlit("bright white");
    assert("bright_white"@ =~= "bright_"@ + "white"@);
    assert("bright white"@ =~= "bright "@ + "white"@);
    lemma_lower_eq_concat(s, "bright_"@, "white"@);
    lemma_lower_eq_concat(s, "bright "@, "white"@);
}

/// Bright colors have two spellings: for any text `t`, `bright_` and
/// `bright ` followed by `t` parse alike (both or neither, to the same color),
/// and they parse when `t` is a base color name.
pub proof fn lemma_bright_spellings(t: Seq<char>)
    ensures
        parse_color_spec("bright_"@ + t) is Ok <==> parse_color_spec("bright "@ + t) is Ok,
        parse_color_spec("bright_"@ + t) is Ok ==> parse_color_spec("bright_"@ + t) == parse_color_spec("bright "@ + t),
        base_color(t) is Some ==> parse_color_spec("bright_"@ + t) is Ok,
{
    reveal_strlit("bright_");
    reveal_strlit("bright ");
    lemma_bright_prefix(t, "bright_"@);
    lemma_bright_prefix(t, "bright "@);
}

proof fn lemma_bright_prefix(t: Seq<char>, pre: Seq<char>)
    requires
        pre == "bright_"@ || pre == "bright "@,
    ensures
        parse_color_spec(pre + t) == match base_color(t) {
            Some(k) => Ok::<Color, Seq<char>>(Color::Named((k + 8) as u8)),
            None => Err("unknown color: "@ + str_debug(pre + t)),
        },
{
    reveal_strlit("bright_");
    reveal_strlit("bright ");
    let s = pre + t;
    assert(s[0] == 'b');
    assert(!crate::text::is_digit(s[0]));
    assert(crate::text::unsigned_body(s) == s);
    assert(s.take(7) =~= pre);
    assert(s.skip(7) =~= t);
    assert(pre.map_values(|c: char| crate::text::lower_char(c)) =~= pre);
    reveal_strlit("black");
    if s.len() != "black"@.len() {
        lemma_not_lower_eq_len(s, "black"@);
    } else {
        lemma_not_lower_eq_at(s, "black"@, 0);
    }
    reveal_strlit("red");
    if s.len() != "red"@.len() {
        lemma_not_lower_eq_len(s, "red"@);
    } else {
        lemma_not_lower_eq_at(s, "red"@, 0);
    }
    reveal_strlit("green");
    if s.len() != "green"@.len() {
        lemma_not_lower_eq_len(s, "green"@);
    } else {
        lemma_not_lower_eq_at(s, "green"@, 0);
    }
    reveal_strlit("yellow");
    if s.len() != "yellow"@.len() {
        lemma_not_lower_eq_len(s, "yellow"@);
    } else {
        lemma_not_lower_eq_at(s, "yellow"@, 0);
    }
    reveal_strlit("blue");
    if s.len() != "blue"@.len() {
        lemma_not_lower_eq_len(s, "blue"@);
    } else {
        lemma_not_lower_eq_at(s, "blue"@, 0);
    }
    reveal_strlit("magenta");
    if s.len() != "magenta"@.len() {
        lemma_not_lower_eq_len(s, "magenta"@);
    } else {
        lemma_not_lower_eq_at(s, "magenta"@, 0);
    }
    reveal_strlit("cyan");
    if s.len() != "cyan"@.len() {
        lemma_not_lower_eq_len(s, "cyan"@);
    } else {
        lemma_not_lower_eq_at(s, "cyan"@, 0);
    }
    reveal_strlit("white");
    if s.len() != "white"@.len() {
        lemma_not_lower_eq_len(s, "white"@);
    } else {
        lemma_not_lower_eq_at(s, "white"@, 0);
    }
    lemma_named_color_structure(s);
}


/// The eight base color names in the order of the ANSI color numbers.
pub open spec fn ansi_color_names() -> Seq<Seq<char>> {
    seq!["black"@, "red"@, "green"@, "yellow"@, "blue"@, "magenta"@, "cyan"@, "white"@]
}

/// Each base name is the base color with its ANSI number, and does not
/// start with a digit.
proof fn lemma_base_color_names(k: int)
    requires
        0 <= k < 8,
    ensures
        base_color(ansi_color_names()[k]) == Some(k as u8),
        ansi_color_names()[k].len() > 0,
        !crate::text::is_digit(ansi_color_names()[k][0]),
        ansi_color_names()[k][0] != '+',
{
    reveal_strlit("black");
    assert("black"@.len() == 5 && "black"@[0] == 'b');
    assert("black"@.map_values(|c: char| crate::text::lower_char(c)) =~= "black"@);
    reveal_strlit("red");
    assert("red"@.len() == 3 && "red"@[0] == 'r');
    assert("red"@.map_values(|c: char| crate::text::lower_char(c)) =~= "red"@);
    reveal_strlit("green");
    assert("green"@.len() == 5 && "green"@[0] == 'g');
    assert("green"@.map_values(|c: char| crate::text::lower_char(c)) =~= "green"@);
    reveal_strlit("yellow");
    assert("yellow"@.len() == 6 && "yellow"@[0] == 'y');
    assert("yellow"@.map_values(|c: char| crate::text::lower_char(c)) =~= "yellow"@);
    reveal_strlit("blue");
    assert("blue"@.len() == 4 && "blue"@[0] == 'b');
    assert("blue"@.map_values(|c: char| crate::text::lower_char(c)) =~= "blue"@);
    reveal_strlit("magenta");
    assert("magenta"@.len() == 7 && "magenta"@[0] == 'm');
    assert("magenta"@.map_values(|c: char| crate::text::lower_char(c)) =~= "magenta"@);
    reveal_strlit("cyan");
    assert("cyan"@.len() == 4 && "cyan"@[0] == 'c');
    assert("cyan"@.map_values(|c: char| crate::text::lower_char(c)) =~= "cyan"@);
    reveal_strlit("white");
    assert("white"@.len() == 5 && "white"@[0] == 'w');
    assert("white"@.map_values(|c: char| crate::text::lower_char(c)) =~= "white"@);
}

/// Color names follow the ANSI numbering: `black`, `red`, `green`, `yellow`,
/// `blue`, `magenta`, `cyan` and `white` are the named colors 0 to 7 in that
/// order (so distinct names are distinct colors), their `bright_` and
/// `bright ` forms are the colors 8 to 15, and these select the foreground
/// escape codes 30 to 37 and 90 to 97.
pub proof fn lemma_ansi_color_names(k: int)
    requires
        0 <= k < 8,
    ensures
        parse_color_spec(ansi_color_names()[k]) == Ok::<Color, Seq<char>>(Color::Named(k as u8)),
        parse_color_spec("bright_"@ + ansi_color_names()[k]) == Ok::<Color, Seq<char>>(Color::Named((k + 8) as u8)),
        parse_color_spec("bright "@ + ansi_color_names()[k]) == Ok::<Color, Seq<char>>(Color::Named((k + 8) as u8)),
        fg_code_spec(Color::Named(k as u8)) == "\x1b["@ + decimal((30 + k) as nat) + "m"@,
        fg_code_spec(Color::Named((k + 8) as u8)) == "\x1b["@ + decimal((90 + k) as nat) + "m"@,
{
    let t = ansi_color_names()[k];
    lemma_base_color_names(k);
    reveal_strlit("bright_");
    reveal_strlit("bright ");
    lemma_bright_prefix(t, "bright_"@);
    lemma_bright_prefix(t, "bright "@);
    assert(crate::text::unsigned_body(t) == t);
    lemma_named_color_structure(t);
}

} // verus!
