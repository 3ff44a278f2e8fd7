//! Chart layout: grid lines on the canvas, and the frame, axes, labels and
//! legend around it.
use vstd::prelude::*;
use crate::canvas::{lemma_set_lit, lemma_touches_push, line_points, BrailleCanvas};
use crate::cli::Sides;
use crate::color::{fg_code_spec, Color, ColorMode, RESET};
use crate::text::{chars_of, push_str, string_from_chars, string_views};

verus! {

/// The pixel row of grid line `i` of `n` on a canvas `ph` pixels tall:
/// `i·ph/n` rounded to the nearest row, halves up.
pub open spec fn grid_row(i: int, n: int, ph: int) -> int {
    (i * ph) / n + if 2 * ((i * ph) % n) >= n { 1int } else { 0int }
}

/// Whether pixel `(x, y)` is a dot of the dotted grid of `n` lines on a canvas
/// `ph` pixels tall: every fourth pixel along each line strictly inside.
pub open spec fn is_grid_dot(x: int, y: int, n: int, ph: int) -> bool {
    x % 4 == 0 && exists|i: int| 1 <= i < n && #[trigger] grid_row(i, n, ph) == y && y < ph
}

/// Draw `n_lines - 1` dotted horizontal grid lines at regular intervals.
pub fn draw_grid(canvas: &mut BrailleCanvas, n_lines: usize)
    requires
        old(canvas).width() * 2 <= usize::MAX,
        old(canvas).height() * 4 <= usize::MAX,
    ensures
        final(canvas).width() == old(canvas).width(),
        final(canvas).height() == old(canvas).height(),
        forall|x: int, y: int| #[trigger] final(canvas).lit(x, y) <==> (old(canvas).lit(x, y)
            || (old(canvas).in_bounds(x, y) && is_grid_dot(x, y, n_lines as int, old(canvas).height() as int * 4))),
        forall|cx: int, cy: int| 0 <= cx < old(canvas).width() && 0 <= cy < old(canvas).height()
            ==> #[trigger] final(canvas).color(cx, cy) == old(canvas).color(cx, cy),
{
    let ghost start = *canvas;
    let pw = canvas.pixel_width();
    let ph = canvas.pixel_height();
    if n_lines == 0 || ph == 0 {
        proof {
            assert forall|x: int, y: int| #[trigger] canvas.lit(x, y) <==> (start.lit(x, y)
                || (start.in_bounds(x, y) && is_grid_dot(x, y, n_lines as int, start.height() as int * 4))) by {
                if start.in_bounds(x, y) && is_grid_dot(x, y, n_lines as int, start.height() as int * 4) {
                    let i = choose|i: int| 1 <= i < n_lines && #[trigger] grid_row(i, n_lines as int, ph as int) == y && y < ph;
                }
            }
        }
        return;
    }
    let mut i: usize = 1;
    while i < n_lines
        invariant
            1 <= i <= n_lines,
            pw == start.width() * 2,
            ph == start.height() * 4,
            ph > 0,
            canvas.width() == start.width(),
            canvas.height() == start.height(),
            forall|cx: int, cy: int| 0 <= cx < start.width() && 0 <= cy < start.height() ==> #[trigger] canvas.color(cx, cy) == start.color(cx, cy),
            forall|x: int, y: int| #[trigger] canvas.lit(x, y) <==> (start.lit(x, y)
                || (start.in_bounds(x, y) && x % 4 == 0 && exists|k: int| 1 <= k < i && #[trigger] grid_row(k, n_lines as int, ph as int) == y && y < ph)),
        decreases n_lines - i,
    {
        proof {
            assert((i as int) * (ph as int) <= 0xffff_ffff_ffff_ffffu64 as int * 0xffff_ffff_ffff_ffffu64 as int) by (nonlinear_arith)
                requires i <= 0xffff_ffff_ffff_ffffu64, ph <= 0xffff_ffff_ffff_ffffu64;
        }
        let p: u128 = (i as u128) * (ph as u128);
        let n128: u128 = n_lines as u128;
        let q: u128 = p / n128 + if 2 * (p % n128) >= n128 { 1 } else { 0 };
        proof {
            assert(q == grid_row(i as int, n_lines as int, ph as int));
        }
        if q < ph as u128 {
            let py = q as usize;
            let mut px: usize = 0;
            while px < pw
                invariant
                    i < n_lines,
                    pw == start.width() * 2,
                    ph == start.height() * 4,
                    py < ph,
                    py == grid_row(i as int, n_lines as int, ph as int),
                    px % 4 == 0 || px == pw,
                    px <= pw,
                    canvas.width() == start.width(),
                    canvas.height() == start.height(),
                    forall|cx: int, cy: int| 0 <= cx < start.width() && 0 <= cy < start.height() ==> #[trigger] canvas.color(cx, cy) == start.color(cx, cy),
                    forall|x: int, y: int| #[trigger] canvas.lit(x, y) <==> (start.lit(x, y)
                        || (start.in_bounds(x, y) && x % 4 == 0 && exists|k: int| 1 <= k < i && #[trigger] grid_row(k, n_lines as int, ph as int) == y && y < ph)
                        || (start.in_bounds(x, y) && x % 4 == 0 && y == py && x < px)),
                decreases pw - px,
            {
                let ghost before = *canvas;
                canvas.set(px, py);
                proof {
                    lemma_set_lit(&before, &*canvas, px as int, py as int);
                    assert(start.in_bounds(px as int, py as int));
                }
                if pw - px <= 4 {
                    px = pw;
                } else {
                    px = px + 4;
                }
            }
        }
        proof {
            assert forall|x: int, y: int| #[trigger] canvas.lit(x, y) <==> (start.lit(x, y)
                || (start.in_bounds(x, y) && x % 4 == 0 && exists|k: int| 1 <= k < i + 1 && #[trigger] grid_row(k, n_lines as int, ph as int) == y && y < ph)) by {
                if start.in_bounds(x, y) && x % 4 == 0 && y == grid_row(i as int, n_lines as int, ph as int) && y < ph {
                    assert(exists|k: int| 1 <= k < i + 1 && #[trigger] grid_row(k, n_lines as int, ph as int) == y && y < ph);
                }
                if exists|k: int| 1 <= k < i + 1 && #[trigger] grid_row(k, n_lines as int, ph as int) == y && y < ph {
                    let k = choose|k: int| 1 <= k < i + 1 && #[trigger] grid_row(k, n_lines as int, ph as int) == y && y < ph;
                    if k < i {
                        assert(exists|k2: int| 1 <= k2 < i && #[trigger] grid_row(k2, n_lines as int, ph as int) == y && y < ph);
                    }
                }
            }
        }
        i = i + 1;
    }
}

} // verus!

verus! {

/// ANSI dark gray for borders and labels.
pub const DIM: &'static str = "\x1b[90m";
/// Back to the default foreground.
pub const DIM_RESET: &'static str = "\x1b[39m";

/// `n` copies of `c`.
pub open spec fn rep(c: char, n: int) -> Seq<char> {
    Seq::new(if n > 0 { n as nat } else { 0 }, |i: int| c)
}

/// `s` repeated `n` times.
pub open spec fn rep_seq(s: Seq<char>, n: nat) -> Seq<char>
    decreases n,
{
    if n == 0 { Seq::empty() } else { rep_seq(s, (n - 1) as nat) + s }
}

/// The dim code, when color is on.
pub open spec fn dim(on: bool) -> Seq<char> {
    if on { DIM@ } else { Seq::empty() }
}

/// The code that ends dimming, when color is on.
pub open spec fn undim(on: bool) -> Seq<char> {
    if on { DIM_RESET@ } else { Seq::empty() }
}

/// `s` right-aligned in a field of `w` characters (`{:>w$}`).
pub open spec fn right_align(s: Seq<char>, w: int) -> Seq<char> {
    rep(' ', w - s.len()) + s
}

/// Length in bytes of the UTF-8 text with these characters (`str::len`).
pub open spec fn blen(s: Seq<char>) -> int {
    vstd::utf8::encode_utf8(s).len() as int
}

/// `a − b`, or 0 when `b` is larger (`usize::saturating_sub`).
pub open spec fn sat_sub(a: int, b: int) -> int {
    if a >= b { a - b } else { 0 }
}

/// The largest byte length of the strings, or `dflt` when there are none.
pub open spec fn max_blen(s: Seq<Seq<char>>, dflt: int) -> int
    decreases s.len(),
{
    if s.len() == 0 {
        dflt
    } else if s.len() == 1 {
        blen(s[0])
    } else {
        let m = max_blen(s.drop_last(), dflt);
        if blen(s.last()) > m { blen(s.last()) } else { m }
    }
}

} // verus!

verus! {

/// The measures of a framed chart.
pub struct FrameGeom {
    /// Whether colors are on.
    pub on: bool,
    /// Width of the y-axis labels, margin included.
    pub label_field: int,
    /// Columns before the left border.
    pub gutter: int,
    /// Columns between the borders.
    pub inner: int,
    /// Columns after the right border.
    pub right_trail: int,
    /// Whether series names are listed to the right.
    pub has_legend: bool,
    /// Position of the bottom row in tick positions.
    pub last_y: int,
    /// The row where the y label goes.
    pub mid: int,
}

/// The tick labels of the y axis.
pub open spec fn tick_labels(ticks: Seq<(Seq<char>, usize)>) -> Seq<Seq<char>> {
    ticks.map_values(|t: (Seq<char>, usize)| t.0)
}

/// The measures of a chart of `cw`×`ch` cells with these ticks, legend and spacing.
pub open spec fn frame_geom(cw: int, ch: int, ticks: Seq<(Seq<char>, usize)>, on: bool,
    legend: Seq<Seq<char>>, margin: Sides, padding: Sides) -> FrameGeom {
    let label_field = margin.left + max_blen(tick_labels(ticks), 2);
    let has_legend = on && legend.len() > 0;
    let legend_width = if has_legend { max_blen(legend, 0) + 1 } else { 0 };
    FrameGeom {
        on,
        label_field,
        gutter: label_field + 1,
        inner: padding.left + cw + padding.right,
        right_trail: (if legend_width > 1 { legend_width } else { 1 }) + margin.right,
        has_legend,
        last_y: if ch >= 2 { ch - 1 } else { 1 },
        mid: ch / 2,
    }
}

/// The label of the first tick at row `row` (counted from the top).
pub open spec fn tick_label_at(ticks: Seq<(Seq<char>, usize)>, row: int, last_y: int) -> Option<Seq<char>>
    decreases ticks.len(),
{
    if ticks.len() == 0 {
        None
    } else if last_y - ticks[0].1 == row {
        Some(ticks[0].0)
    } else {
        tick_label_at(ticks.drop_first(), row, last_y)
    }
}

/// The y-axis label of a row: its tick label, else the y label on the middle
/// row (when it fits), else blank; right-aligned to the label field.
pub open spec fn row_label(g: FrameGeom, ticks: Seq<(Seq<char>, usize)>, ylabel: Option<Seq<char>>, row: int) -> Seq<char> {
    match tick_label_at(ticks, row, g.last_y) {
        Some(t) => right_align(t, g.label_field),
        None => if row == g.mid && ylabel is Some && blen(ylabel->0) <= g.label_field {
            right_align(ylabel->0, g.label_field)
        } else {
            rep(' ', g.label_field)
        },
    }
}

/// What follows the right border on a row: the series name in its color, or blanks.
pub open spec fn legend_part(g: FrameGeom, cm: ColorMode, legend: Seq<Seq<char>>, row: int) -> Seq<char> {
    if g.has_legend && row < legend.len() {
        let palette = cm.palette_spec();
        let fg = match cm.color_idx_spec(row) {
            Some(ci) => if ci < palette.len() { fg_code_spec(palette[ci]) } else { Seq::empty() },
            None => Seq::empty(),
        };
        let rs = if cm.color_idx_spec(row) is Some { RESET@ } else { Seq::<char>::empty() };
        " "@ + fg + legend[row] + rs + rep(' ', sat_sub(g.right_trail, 1 + blen(legend[row])))
    } else {
        rep(' ', g.right_trail)
    }
}

/// The braille characters of canvas row `row`, each cell in its color from
/// the palette (plain when colors are off, as the palette is then empty).
pub open spec fn canvas_row(c: BrailleCanvas, row: int, palette: Seq<Color>) -> Seq<char> {
    c.colored_cells(row, palette, c.width())
}

/// A row's y label, the left border and the left padding.
pub open spec fn row_left(g: FrameGeom, ticks: Seq<(Seq<char>, usize)>, ylabel: Option<Seq<char>>,
    padding: Sides, row: int) -> Seq<char> {
    dim(g.on) + row_label(g, ticks, ylabel, row) + " │"@ + undim(g.on) + rep(' ', padding.left as int)
}

/// A row's right padding, the right border and the legend entry.
pub open spec fn row_right(g: FrameGeom, cm: ColorMode, legend: Seq<Seq<char>>, padding: Sides, row: int) -> Seq<char> {
    rep(' ', padding.right as int) + dim(g.on) + "│"@ + undim(g.on) + legend_part(g, cm, legend, row) + "\n"@
}

/// One canvas row of the chart with its label, borders and legend.
pub open spec fn frame_row(g: FrameGeom, c: BrailleCanvas, ticks: Seq<(Seq<char>, usize)>, ylabel: Option<Seq<char>>,
    cm: ColorMode, legend: Seq<Seq<char>>, padding: Sides, row: int) -> Seq<char> {
    row_left(g, ticks, ylabel, padding, row) + canvas_row(c, row, cm.palette_spec()) + row_right(g, cm, legend, padding, row)
}

/// The first `n` canvas rows of the chart.
pub open spec fn frame_rows(g: FrameGeom, c: BrailleCanvas, ticks: Seq<(Seq<char>, usize)>, ylabel: Option<Seq<char>>,
    cm: ColorMode, legend: Seq<Seq<char>>, padding: Sides, n: nat) -> Seq<char>
    decreases n,
{
    if n == 0 {
        Seq::empty()
    } else {
        frame_rows(g, c, ticks, ylabel, cm, legend, padding, (n - 1) as nat)
            + frame_row(g, c, ticks, ylabel, cm, legend, padding, n - 1)
    }
}

/// A border row (`left`, a run of `─`, `right`), or an empty row inside the
/// borders when `fill` is a space.
pub open spec fn border_row(g: FrameGeom, left: char, fill: char, right: char) -> Seq<char> {
    rep(' ', g.gutter) + dim(g.on) + seq![left] + rep(fill, g.inner) + seq![right] + undim(g.on)
        + rep(' ', g.right_trail) + "\n"@
}

/// An empty row inside the borders.
pub open spec fn empty_row(g: FrameGeom) -> Seq<char> {
    rep(' ', g.gutter) + dim(g.on) + "│"@ + undim(g.on) + rep(' ', g.inner) + dim(g.on) + "│"@ + undim(g.on)
        + rep(' ', g.right_trail) + "\n"@
}

/// The x-axis line: the low label at the left border, the high label ending
/// under the right border (over the low one where they meet), trailing blanks dropped.
pub open spec fn x_axis_line(g: FrameGeom, lo: Seq<char>, hi: Seq<char>) -> Seq<char> {
    let total = g.gutter + g.inner + 2;
    let lo_end = if lo.len() < total - g.gutter { g.gutter + lo.len() } else { total };
    let hi_start = sat_sub(total, hi.len() as int);
    let buf = Seq::new(total as nat, |k: int|
        if k >= hi_start { hi[k - hi_start] } else if g.gutter <= k < lo_end { lo[k - g.gutter] } else { ' ' });
    dim(g.on) + crate::text::trim_end(buf) + undim(g.on) + "\n"@
}

/// The title line, centred over the chart and its legend.
pub open spec fn title_line(g: FrameGeom, title: Option<Seq<char>>) -> Seq<char> {
    match title {
        Some(t) => rep(' ', sat_sub(g.gutter + 1 + g.inner + 1 + g.right_trail, blen(t)) / 2) + t + "\n"@,
        None => Seq::empty(),
    }
}

/// The x label line, centred under the chart.
pub open spec fn xlabel_line(g: FrameGeom, xlabel: Option<Seq<char>>) -> Seq<char> {
    match xlabel {
        Some(x) => (if g.on { RESET@ } else { Seq::<char>::empty() })
            + rep(' ', sat_sub(g.gutter + 1 + g.inner + 1, blen(x)) / 2) + x + "\n"@,
        None => Seq::empty(),
    }
}

/// The measures of the chart drawn around canvas `c`.
pub open spec fn chart_geom(c: BrailleCanvas, ticks: Seq<(Seq<char>, usize)>, cm: ColorMode,
    legend: Seq<Seq<char>>, margin: Sides, padding: Sides) -> FrameGeom {
    frame_geom(c.width() as int, c.height() as int, ticks, !(cm is Off), legend, margin, padding)
}

/// The whole framed chart.
pub open spec fn frame_spec(c: BrailleCanvas, ticks: Seq<(Seq<char>, usize)>, lo: Seq<char>, hi: Seq<char>,
    title: Option<Seq<char>>, xlabel: Option<Seq<char>>, ylabel: Option<Seq<char>>, cm: ColorMode,
    legend: Seq<Seq<char>>, margin: Sides, padding: Sides) -> Seq<char> {
    let g = chart_geom(c, ticks, cm, legend, margin, padding);
    rep('\n', margin.top as int) + title_line(g, title) + border_row(g, '┌', '─', '┐')
        + rep_seq(empty_row(g), padding.top as nat)
        + frame_rows(g, c, ticks, ylabel, cm, legend, padding, c.height())
        + rep_seq(empty_row(g), padding.bottom as nat)
        + border_row(g, '└', '─', '┘') + x_axis_line(g, lo, hi) + xlabel_line(g, xlabel)
        + rep('\n', margin.bottom as int)
}

} // verus!

verus! {

fn push_rep(out: &mut Vec<char>, c: char, n: usize)
    ensures
        final(out)@ == old(out)@ + rep(c, n as int),
{
    let ghost start = out@;
    let mut k: usize = 0;
    while k < n
        invariant
            k <= n,
            out@ =~= start + rep(c, k as int),
        decreases n - k,
    {
        out.push(c);
        k = k + 1;
    }
}

fn push_dim(out: &mut Vec<char>, on: bool)
    ensures
        final(out)@ == old(out)@ + dim(on),
{
    if on {
        push_str(out, DIM);
    } else {
        proof { assert(out@ + dim(on) =~= out@); }
    }
}

fn push_undim(out: &mut Vec<char>, on: bool)
    ensures
        final(out)@ == old(out)@ + undim(on),
{
    if on {
        push_str(out, DIM_RESET);
    } else {
        proof { assert(out@ + undim(on) =~= out@); }
    }
}

fn push_chars(out: &mut Vec<char>, s: &Vec<char>)
    ensures
        final(out)@ == old(out)@ + s@,
{
    let mut i: usize = 0;
    let ghost start = out@;
    while i < s.len()
        invariant
            i <= s@.len(),
            out@ =~= start + s@.take(i as int),
        decreases s.len() - i,
    {
        out.push(s[i]);
        i = i + 1;
    }
    proof { assert(s@.take(s@.len() as int) =~= s@); }
}

fn push_right_aligned(out: &mut Vec<char>, s: &Vec<char>, w: usize)
    ensures
        final(out)@ == old(out)@ + right_align(s@, w as int),
{
    let ghost start = out@;
    if s.len() < w {
        push_rep(out, ' ', w - s.len());
    } else {
        proof { assert(rep(' ', w - s@.len()) =~= Seq::<char>::empty()); }
    }
    push_chars(out, s);
    proof { assert(out@ =~= start + right_align(s@, w as int)); }
}

/// Byte length of a string slice.
fn str_len(s: &str) -> (n: usize)
    requires
        blen(s@) <= usize::MAX,
    ensures
        n == blen(s@),
{
    s.len()
}

/// The exec counterpart of `FrameGeom`.
struct Geom {
    on: bool,
    label_field: usize,
    gutter: usize,
    inner: usize,
    right_trail: usize,
    has_legend: bool,
    last_y: usize,
    mid: usize,
}

impl Geom {
    spec fn view(&self) -> FrameGeom {
        FrameGeom {
            on: self.on,
            label_field: self.label_field as int,
            gutter: self.gutter as int,
            inner: self.inner as int,
            right_trail: self.right_trail as int,
            has_legend: self.has_legend,
            last_y: self.last_y as int,
            mid: self.mid as int,
        }
    }
}

/// The views of `(label, position)` ticks.
pub open spec fn ticks_view(t: Seq<(String, usize)>) -> Seq<(Seq<char>, usize)> {
    t.map_values(|p: (String, usize)| (p.0@, p.1))
}

/// Whether the chart's widths all fit in `usize`.
pub open spec fn frame_fits(g: FrameGeom) -> bool {
    g.gutter + g.inner + 2 + g.right_trail <= usize::MAX
}

/// The largest byte length of the strings, or `dflt` when there are none.
fn max_len_of(s: &[String], dflt: usize) -> (m: usize)
    requires
        forall|k: int| 0 <= k < s@.len() ==> blen(#[trigger] s@[k]@) <= usize::MAX,
    ensures
        m == max_blen(crate::text::string_views(s@), dflt as int),
{
    let ghost v = crate::text::string_views(s@);
    let mut m: usize = dflt;
    let mut i: usize = 0;
    proof { assert(v.take(0) =~= Seq::<Seq<char>>::empty()); }
    while i < s.len()
        invariant
            i <= s@.len(),
            v == crate::text::string_views(s@),
            forall|k: int| 0 <= k < s@.len() ==> blen(#[trigger] s@[k]@) <= usize::MAX,
            m == max_blen(v.take(i as int), dflt as int),
        decreases s.len() - i,
    {
        let b = str_len(s[i].as_str());
        proof {
            assert(v.take(i + 1).drop_last() =~= v.take(i as int));
            assert(v.take(i + 1).last() == s@[i as int]@);
            if i == 0 {
                assert(v.take(1)[0] == s@[0]@);
            }
        }
        if i == 0 || b > m {
            m = b;
        }
        i = i + 1;
    }
    proof { assert(v.take(s@.len() as int) =~= v); }
    m
}

} // verus!

verus! {

fn max_tick_len(ticks: &[(String, usize)]) -> (m: usize)
    requires
        forall|k: int| 0 <= k < ticks@.len() ==> blen(#[trigger] ticks@[k].0@) <= usize::MAX,
    ensures
        m == max_blen(tick_labels(ticks_view(ticks@)), 2),
{
    let ghost v = tick_labels(ticks_view(ticks@));
    let mut m: usize = 2;
    let mut i: usize = 0;
    proof { assert(v.take(0) =~= Seq::<Seq<char>>::empty()); }
    while i < ticks.len()
        invariant
            i <= ticks@.len(),
            v == tick_labels(ticks_view(ticks@)),
            forall|k: int| 0 <= k < ticks@.len() ==> blen(#[trigger] ticks@[k].0@) <= usize::MAX,
            m == max_blen(v.take(i as int), 2),
        decreases ticks.len() - i,
    {
        let b = str_len(ticks[i].0.as_str());
        proof {
            assert(v.take(i + 1).drop_last() =~= v.take(i as int));
            assert(v.take(i + 1).last() == ticks@[i as int].0@);
            if i == 0 {
                assert(v.take(1)[0] == ticks@[0].0@);
            }
        }
        if i == 0 || b > m {
            m = b;
        }
        i = i + 1;
    }
    proof { assert(v.take(ticks@.len() as int) =~= v); }
    m
}

/// The label of the first tick at `row`.
fn find_tick(ticks: &[(String, usize)], row: usize, last_y: usize) -> (r: Option<usize>)
    requires
        forall|k: int| 0 <= k < ticks@.len() ==> #[trigger] ticks@[k].1 <= last_y,
    ensures
        r matches Some(k) ==> k < ticks@.len() && tick_label_at(ticks_view(ticks@), row as int, last_y as int) == Some(ticks@[k as int].0@),
        r is None ==> tick_label_at(ticks_view(ticks@), row as int, last_y as int) is None,
{
    let ghost v = ticks_view(ticks@);
    let mut k: usize = 0;
    proof { assert(v.skip(0) =~= v); }
    while k < ticks.len()
        invariant
            k <= ticks@.len(),
            v == ticks_view(ticks@),
            forall|q: int| 0 <= q < ticks@.len() ==> #[trigger] ticks@[q].1 <= last_y,
            tick_label_at(v, row as int, last_y as int) == tick_label_at(v.skip(k as int), row as int, last_y as int),
        decreases ticks.len() - k,
    {
        proof {
            assert(v.skip(k as int)[0] == (ticks@[k as int].0@, ticks@[k as int].1));
            assert(v.skip(k as int).drop_first() =~= v.skip(k + 1));
        }
        if last_y - ticks[k].1 == row {
            return Some(k);
        }
        k = k + 1;
    }
    None
}

fn push_row_label(out: &mut Vec<char>, g: &Geom, ticks: &[(String, usize)], ylabel: Option<&str>, row: usize)
    requires
        forall|k: int| 0 <= k < ticks@.len() ==> #[trigger] ticks@[k].1 <= g.last_y,
        ylabel matches Some(y) ==> blen(y@) <= usize::MAX,
    ensures
        final(out)@ == old(out)@ + row_label(g.view(), ticks_view(ticks@), opt_str(ylabel), row as int),
{
    match find_tick(ticks, row, g.last_y) {
        Some(k) => {
            let t = chars_of(ticks[k].0.as_str());
            push_right_aligned(out, &t, g.label_field);
        },
        None => {
            let mut done = false;
            if row == g.mid {
                if let Some(yl) = ylabel {
                    if str_len(yl) <= g.label_field {
                        let y = chars_of(yl);
                        push_right_aligned(out, &y, g.label_field);
                        done = true;
                    }
                }
            }
            if !done {
                push_rep(out, ' ', g.label_field);
            }
        },
    }
}

/// The characters of an optional string slice.
pub open spec fn opt_str(o: Option<&str>) -> Option<Seq<char>> {
    match o {
        Some(s) => Some(s@),
        None => None,
    }
}

/// Whether `fg_code` can be called on every palette color.
pub open spec fn palette_ok(cm: ColorMode) -> bool {
    forall|k: int| 0 <= k < cm.palette_spec().len() ==> !(#[trigger] cm.palette_spec()[k] matches crate::color::Color::Named(n) && n > 165)
}

fn push_legend_part(out: &mut Vec<char>, g: &Geom, cm: &ColorMode, palette: &Vec<crate::color::Color>, legend: &[String], row: usize)
    requires
        palette@ == cm.palette_spec(),
        palette_ok(*cm),
        forall|k: int| 0 <= k < legend@.len() ==> blen(#[trigger] legend@[k]@) < usize::MAX,
    ensures
        final(out)@ == old(out)@ + legend_part(g.view(), *cm, crate::text::string_views(legend@), row as int),
{
    let ghost start = out@;
    if g.has_legend && row < legend.len() {
        out.push(' ');
        proof {
            reveal_strlit(" ");
            assert(out@ =~= start + " "@);
        }
        let ci = cm.series_color_idx(row);
        let ghost palette_s = cm.palette_spec();
        let ghost fg_s = match cm.color_idx_spec(row as int) {
            Some(q) => if q < palette_s.len() { fg_code_spec(palette_s[q]) } else { Seq::<char>::empty() },
            None => Seq::<char>::empty(),
        };
        let ghost mid1 = out@;
        match ci {
            Some(c) => {
                if c < palette.len() {
                    proof { assert(!(palette@[c as int] matches crate::color::Color::Named(n) && n > 165)); }
                    let code = palette[c].fg_code();
                    push_str(out, code.as_str());
                }
            },
            None => {},
        }
        proof { assert(out@ =~= mid1 + fg_s); }
        let l = chars_of(legend[row].as_str());
        push_chars(out, &l);
        if ci.is_some() {
            push_str(out, RESET);
        }
        let n = str_len(legend[row].as_str());
        let pad = if g.right_trail >= 1 + n { g.right_trail - (1 + n) } else { 0 };
        push_rep(out, ' ', pad);
        proof {
            assert(crate::text::string_views(legend@)[row as int] == legend@[row as int]@);
            assert(out@ =~= start + legend_part(g.view(), *cm, crate::text::string_views(legend@), row as int));
        }
    } else {
        push_rep(out, ' ', g.right_trail);
    }
}

} // verus!

verus! {

fn push_row_left(out: &mut Vec<char>, g: &Geom, ticks: &[(String, usize)], ylabel: Option<&str>,
    padding: &Sides, row: usize)
    requires
        forall|k: int| 0 <= k < ticks@.len() ==> #[trigger] ticks@[k].1 <= g.last_y,
        ylabel matches Some(y) ==> blen(y@) <= usize::MAX,
    ensures
        final(out)@ == old(out)@ + row_left(g.view(), ticks_view(ticks@), opt_str(ylabel), *padding, row as int),
{
    let ghost start = out@;
    push_dim(out, g.on);
    push_row_label(out, g, ticks, ylabel, row);
    push_str(out, " │");
    push_undim(out, g.on);
    push_rep(out, ' ', padding.left);
    proof {
        assert(out@ =~= start + row_left(g.view(), ticks_view(ticks@), opt_str(ylabel), *padding, row as int));
    }
}

fn push_row_right(out: &mut Vec<char>, g: &Geom, cm: &ColorMode, palette: &Vec<crate::color::Color>,
    legend: &[String], padding: &Sides, row: usize)
    requires
        palette@ == cm.palette_spec(),
        palette_ok(*cm),
        forall|k: int| 0 <= k < legend@.len() ==> blen(#[trigger] legend@[k]@) < usize::MAX,
    ensures
        final(out)@ == old(out)@ + row_right(g.view(), *cm, string_views(legend@), *padding, row as int),
{
    let ghost start = out@;
    push_rep(out, ' ', padding.right);
    push_dim(out, g.on);
    push_str(out, "│");
    push_undim(out, g.on);
    push_legend_part(out, g, cm, palette, legend, row);
    push_str(out, "\n");
    proof {
        assert(out@ =~= start + row_right(g.view(), *cm, string_views(legend@), *padding, row as int));
    }
}

fn push_frame_row(out: &mut Vec<char>, g: &Geom, canvas: &BrailleCanvas, ticks: &[(String, usize)],
    ylabel: Option<&str>, cm: &ColorMode, palette: &Vec<crate::color::Color>, legend: &[String],
    padding: &Sides, row: usize)
    requires
        row < canvas.height(),
        forall|k: int| 0 <= k < ticks@.len() ==> #[trigger] ticks@[k].1 <= g.last_y,
        ylabel matches Some(y) ==> blen(y@) <= usize::MAX,
        palette@ == cm.palette_spec(),
        palette_ok(*cm),
        forall|k: int| 0 <= k < legend@.len() ==> blen(#[trigger] legend@[k]@) < usize::MAX,
    ensures
        final(out)@ == old(out)@ + frame_row(g.view(), *canvas, ticks_view(ticks@), opt_str(ylabel), *cm,
            string_views(legend@), *padding, row as int),
{
    let ghost start = out@;
    push_row_left(out, g, ticks, ylabel, padding, row);
    let ghost a = out@;
    let cells = canvas.row_chars_colored(row, palette.as_slice());
    push_str(out, cells.as_str());
    let ghost b = out@;
    push_row_right(out, g, cm, palette, legend, padding, row);
    proof {
        assert(b == a + canvas_row(*canvas, row as int, cm.palette_spec()));
        assert(out@ =~= start + frame_row(g.view(), *canvas, ticks_view(ticks@), opt_str(ylabel), *cm,
            string_views(legend@), *padding, row as int));
    }
}

fn push_border_row(out: &mut Vec<char>, g: &Geom, left: char, fill: char, right: char)
    ensures
        final(out)@ == old(out)@ + border_row(g.view(), left, fill, right),
{
    let ghost start = out@;
    push_rep(out, ' ', g.gutter);
    push_dim(out, g.on);
    out.push(left);
    push_rep(out, fill, g.inner);
    out.push(right);
    push_undim(out, g.on);
    push_rep(out, ' ', g.right_trail);
    push_str(out, "\n");
    proof {
        assert(out@ =~= start + border_row(g.view(), left, fill, right));
    }
}

fn push_empty_rows(out: &mut Vec<char>, g: &Geom, n: usize)
    ensures
        final(out)@ == old(out)@ + rep_seq(empty_row(g.view()), n as nat),
{
    let ghost start = out@;
    let mut k: usize = 0;
    while k < n
        invariant
            k <= n,
            out@ == start + rep_seq(empty_row(g.view()), k as nat),
        decreases n - k,
    {
        let ghost before = out@;
        push_rep(out, ' ', g.gutter);
        push_dim(out, g.on);
        push_str(out, "│");
        push_undim(out, g.on);
        push_rep(out, ' ', g.inner);
        push_dim(out, g.on);
        push_str(out, "│");
        push_undim(out, g.on);
        push_rep(out, ' ', g.right_trail);
        push_str(out, "\n");
        proof {
            assert(out@ =~= before + empty_row(g.view()));
            assert(rep_seq(empty_row(g.view()), (k + 1) as nat) == rep_seq(empty_row(g.view()), k as nat) + empty_row(g.view()));
            assert(out@ =~= start + rep_seq(empty_row(g.view()), (k + 1) as nat));
        }
        k = k + 1;
    }
}

fn push_x_axis(out: &mut Vec<char>, g: &Geom, lo: &Vec<char>, hi: &Vec<char>)
    requires
        g.gutter + g.inner + 2 <= usize::MAX,
        hi@.len() <= g.gutter + g.inner + 2,
    ensures
        final(out)@ == old(out)@ + x_axis_line(g.view(), lo@, hi@),
{
    let ghost start = out@;
    let total = g.gutter + g.inner + 2;
    let lo_end = if lo.len() < total - g.gutter { g.gutter + lo.len() } else { total };
    let hi_start = total - hi.len();
    let ghost buf = Seq::new(total as nat, |k: int|
        if k >= hi_start { hi@[k - hi_start] } else if g.gutter <= k < lo_end { lo@[k - g.gutter] } else { ' ' });
    let mut line: Vec<char> = Vec::new();
    let mut k: usize = 0;
    while k < total
        invariant
            k <= total,
            total == g.gutter + g.inner + 2,
            lo_end <= total,
            lo_end <= g.gutter + lo@.len(),
            hi_start == total - hi@.len(),
            buf == Seq::new(total as nat, |k: int|
                if k >= hi_start { hi@[k - hi_start] } else if g.gutter <= k < lo_end { lo@[k - g.gutter] } else { ' ' }),
            line@ =~= buf.take(k as int),
        decreases total - k,
    {
        let c = if k >= hi_start { hi[k - hi_start] } else if g.gutter <= k && k < lo_end { lo[k - g.gutter] } else { ' ' };
        line.push(c);
        k = k + 1;
    }
    proof { assert(buf.take(total as int) =~= buf); }
    let mut end: usize = total;
    while end > 0 && crate::text::is_ws_exec(line[end - 1])
        invariant
            end <= total,
            line@ == buf,
            buf.len() == total,
            crate::text::trim_end(buf) == crate::text::trim_end(buf.take(end as int)),
        decreases end,
    {
        proof { assert(buf.take(end as int).drop_last() =~= buf.take(end - 1)); }
        end = end - 1;
    }
    push_dim(out, g.on);
    let kept = crate::text::sub_chars(&line, 0, end);
    proof {
        assert(kept@ =~= buf.take(end as int));
    }
    push_chars(out, &kept);
    push_undim(out, g.on);
    push_str(out, "\n");
    proof {
        assert(out@ =~= start + x_axis_line(g.view(), lo@, hi@));
    }
}

fn push_title(out: &mut Vec<char>, g: &Geom, title: Option<&str>)
    requires
        g.gutter + g.inner + 2 + g.right_trail <= usize::MAX,
        title matches Some(t) ==> blen(t@) <= usize::MAX,
    ensures
        final(out)@ == old(out)@ + title_line(g.view(), opt_str(title)),
{
    let ghost start = out@;
    match title {
        Some(t) => {
            let total = g.gutter + 1 + g.inner + 1 + g.right_trail;
            let n = str_len(t);
            let pad = (if total >= n { total - n } else { 0 }) / 2;
            push_rep(out, ' ', pad);
            push_str(out, t);
            push_str(out, "\n");
            proof { assert(out@ =~= start + title_line(g.view(), opt_str(title))); }
        },
        None => {
            proof { assert(out@ =~= start + title_line(g.view(), opt_str(title))); }
        },
    }
}

fn push_xlabel(out: &mut Vec<char>, g: &Geom, xlabel: Option<&str>)
    requires
        g.gutter + g.inner + 2 <= usize::MAX,
        xlabel matches Some(t) ==> blen(t@) <= usize::MAX,
    ensures
        final(out)@ == old(out)@ + xlabel_line(g.view(), opt_str(xlabel)),
{
    let ghost start = out@;
    match xlabel {
        Some(x) => {
            let total = g.gutter + 1 + g.inner + 1;
            let n = str_len(x);
            let pad = (if total >= n { total - n } else { 0 }) / 2;
            if g.on {
                push_str(out, RESET);
            }
            let ghost mid = out@;
            push_rep(out, ' ', pad);
            push_str(out, x);
            push_str(out, "\n");
            proof {
                assert(mid =~= start + (if g.on { RESET@ } else { Seq::<char>::empty() }));
                assert(out@ =~= start + xlabel_line(g.view(), opt_str(xlabel)));
            }
        },
        None => {
            proof { assert(out@ =~= start + xlabel_line(g.view(), opt_str(xlabel))); }
        },
    }
}

fn push_newlines(out: &mut Vec<char>, n: usize)
    ensures
        final(out)@ == old(out)@ + rep('\n', n as int),
{
    push_rep(out, '\n', n);
}

} // verus!

verus! {

/// Draw the frame around a canvas: y tick labels (each at its row, counted
/// from the bottom), the borders, the x-axis bounds `x_lo` and `x_hi`, the
/// title, the axis labels and, with colors on, the legend of series names.
pub fn render_frame(
    canvas: &BrailleCanvas,
    y_ticks: &[(String, usize)],
    x_lo: &str,
    x_hi: &str,
    title: Option<&str>,
    xlabel: Option<&str>,
    ylabel: Option<&str>,
    color_mode: &ColorMode,
    legend: &[String],
    margin: &Sides,
    padding: &Sides,
) -> (s: String)
    requires
        frame_fits(chart_geom(*canvas, ticks_view(y_ticks@), *color_mode, string_views(legend@), *margin, *padding)),
        forall|k: int| 0 <= k < y_ticks@.len() ==> blen(#[trigger] y_ticks@[k].0@) <= usize::MAX,
        forall|k: int| 0 <= k < y_ticks@.len() ==> #[trigger] y_ticks@[k].1
            <= chart_geom(*canvas, ticks_view(y_ticks@), *color_mode, string_views(legend@), *margin, *padding).last_y,
        forall|k: int| 0 <= k < legend@.len() ==> blen(#[trigger] legend@[k]@) < usize::MAX,
        title matches Some(t) ==> blen(t@) <= usize::MAX,
        xlabel matches Some(t) ==> blen(t@) <= usize::MAX,
        ylabel matches Some(t) ==> blen(t@) <= usize::MAX,
        x_hi@.len() <= chart_geom(*canvas, ticks_view(y_ticks@), *color_mode, string_views(legend@), *margin, *padding).gutter
            + chart_geom(*canvas, ticks_view(y_ticks@), *color_mode, string_views(legend@), *margin, *padding).inner + 2,
        palette_ok(*color_mode),
    ensures
        s@ == frame_spec(*canvas, ticks_view(y_ticks@), x_lo@, x_hi@, opt_str(title), opt_str(xlabel),
            opt_str(ylabel), *color_mode, string_views(legend@), *margin, *padding),
{
    let ghost gs = chart_geom(*canvas, ticks_view(y_ticks@), *color_mode, string_views(legend@), *margin, *padding);
    let cw = canvas.chars_wide();
    let ch = canvas.chars_tall();
    let on = color_mode.is_enabled();
    let palette = color_mode.palette();
    let y_label_width = max_tick_len(y_ticks);
    let label_field = margin.left + y_label_width;
    let has_legend = on && legend.len() > 0;
    let legend_width = if has_legend { max_len_of(legend, 0) + 1 } else { 0 };
    let right_trail = (if legend_width > 1 { legend_width } else { 1 }) + margin.right;
    let g = Geom {
        on,
        label_field,
        gutter: label_field + 1,
        inner: padding.left + cw + padding.right,
        right_trail,
        has_legend,
        last_y: if ch >= 2 { ch - 1 } else { 1 },
        mid: ch / 2,
    };
    proof { assert(g.view() == gs); }
    let mut out: Vec<char> = Vec::new();
    push_newlines(&mut out, margin.top);
    push_title(&mut out, &g, title);
    push_border_row(&mut out, &g, '┌', '─', '┐');
    push_empty_rows(&mut out, &g, padding.top);
    let ghost head = out@;
    let mut row: usize = 0;
    while row < ch
        invariant
            row <= ch,
            ch == canvas.height(),
            g.view() == gs,
            palette@ == color_mode.palette_spec(),
            palette_ok(*color_mode),
            forall|k: int| 0 <= k < y_ticks@.len() ==> #[trigger] y_ticks@[k].1 <= g.last_y,
            forall|k: int| 0 <= k < legend@.len() ==> blen(#[trigger] legend@[k]@) < usize::MAX,
            ylabel matches Some(t) ==> blen(t@) <= usize::MAX,
            out@ == head + frame_rows(gs, *canvas, ticks_view(y_ticks@), opt_str(ylabel), *color_mode,
                string_views(legend@), *padding, row as nat),
        decreases ch - row,
    {
        push_frame_row(&mut out, &g, canvas, y_ticks, ylabel, color_mode, &palette, legend, padding, row);
        proof {
            assert(out@ =~= head + frame_rows(gs, *canvas, ticks_view(y_ticks@), opt_str(ylabel), *color_mode,
                string_views(legend@), *padding, (row + 1) as nat));
        }
        row = row + 1;
    }
    push_empty_rows(&mut out, &g, padding.bottom);
    push_border_row(&mut out, &g, '└', '─', '┘');
    let lo = chars_of(x_lo);
    let hi = chars_of(x_hi);
    push_x_axis(&mut out, &g, &lo, &hi);
    push_xlabel(&mut out, &g, xlabel);
    push_newlines(&mut out, margin.bottom);
    proof {
        assert(out@ =~= frame_spec(*canvas, ticks_view(y_ticks@), x_lo@, x_hi@, opt_str(title), opt_str(xlabel),
            opt_str(ylabel), *color_mode, string_views(legend@), *margin, *padding));
    }
    string_from_chars(&out)
}

} // verus!

verus! {

/// Columns left for the bars: the width less the value labels and padding,
/// at least 4.
pub open spec fn bar_area_spec(width: int, val_width: int, padding: Sides) -> int {
    let a = sat_sub(width, 1 + val_width + padding.left + padding.right);
    if a > 4 { a } else { 4 }
}

/// The measures of a bar chart, in the terms of a framed chart: the borders
/// stand one column left of the `┤` of the bars, and enclose one more column.
pub open spec fn bar_geom(labels: Seq<Seq<char>>, vals: Seq<Seq<char>>, width: int, on: bool,
    margin: Sides, padding: Sides) -> FrameGeom {
    let label_field = margin.left + max_blen(labels, 0);
    let vw = max_blen(vals, 0);
    FrameGeom {
        on,
        label_field,
        gutter: label_field + 1,
        inner: padding.left + bar_area_spec(width, vw, padding) + 1 + vw + padding.right + 1,
        right_trail: if margin.right > 1 { margin.right as int } else { 1 },
        has_legend: false,
        last_y: 0,
        mid: 0,
    }
}

/// The escape code the bars are drawn in: that of the first series' color, if any.
pub open spec fn bar_fg(cm: ColorMode) -> Option<Seq<char>> {
    match cm.color_idx_spec(0) {
        Some(ci) => if ci < cm.palette_spec().len() { Some(fg_code_spec(cm.palette_spec()[ci])) } else { None },
        None => None,
    }
}

/// Whether `fg_code` can be called on the bar color.
pub open spec fn bar_color_ok(cm: ColorMode) -> bool {
    match cm.color_idx_spec(0) {
        Some(ci) => ci < cm.palette_spec().len() ==> !(cm.palette_spec()[ci] matches crate::color::Color::Named(n) && n > 165),
        None => true,
    }
}

/// What precedes a bar: its label right-aligned, `┤` and the left padding.
pub open spec fn bar_head(g: FrameGeom, label: Seq<char>, padding: Sides) -> Seq<char> {
    (if g.on { RESET@ } else { Seq::<char>::empty() }) + right_align(label, g.label_field) + dim(g.on)
        + " ┤"@ + undim(g.on) + rep(' ', padding.left as int)
}

/// The bar itself: `len` symbols, in the bar color if there is one.
pub open spec fn bar_body(fg: Option<Seq<char>>, len: int, symbol: char) -> Seq<char> {
    match fg {
        Some(f) => f + rep(symbol, len) + DIM_RESET@,
        None => rep(symbol, len),
    }
}

/// What follows a bar: the value label, blanks up to the right border and,
/// with colors on, the right trail.
pub open spec fn bar_tail(g: FrameGeom, vl: Seq<char>, len: int, padding: Sides) -> Seq<char> {
    (if g.on { RESET@ } else { Seq::<char>::empty() }) + " "@ + vl
        + rep(' ', sat_sub(g.inner - 1, padding.left + len + 1 + blen(vl) + padding.right))
        + (if g.on { DIM@ + rep(' ', g.right_trail) + DIM_RESET@ } else { Seq::<char>::empty() }) + "\n"@
}

/// One row of a bar chart.
pub open spec fn bar_row(g: FrameGeom, fg: Option<Seq<char>>, label: Seq<char>, vl: Seq<char>, len: int,
    symbol: char, padding: Sides) -> Seq<char> {
    bar_head(g, label, padding) + bar_body(fg, len, symbol) + bar_tail(g, vl, len, padding)
}

/// The first `n` bars.
pub open spec fn bar_rows(g: FrameGeom, fg: Option<Seq<char>>, labels: Seq<Seq<char>>, vals: Seq<Seq<char>>,
    lens: Seq<usize>, symbol: char, padding: Sides, n: nat) -> Seq<char>
    decreases n,
{
    if n == 0 {
        Seq::empty()
    } else {
        bar_rows(g, fg, labels, vals, lens, symbol, padding, (n - 1) as nat)
            + bar_row(g, fg, labels[n - 1], vals[n - 1], lens[n - 1] as int, symbol, padding)
    }
}

/// The whole bar chart.
pub open spec fn barplot_spec(labels: Seq<Seq<char>>, vals: Seq<Seq<char>>, lens: Seq<usize>, width: int,
    title: Option<Seq<char>>, cm: ColorMode, margin: Sides, padding: Sides, symbol: char) -> Seq<char> {
    let g = bar_geom(labels, vals, width, !(cm is Off), margin, padding);
    rep('\n', margin.top as int) + title_line(g, title) + border_row(g, '┌', ' ', '┐')
        + rep_seq(empty_row(g), padding.top as nat)
        + bar_rows(g, bar_fg(cm), labels, vals, lens, symbol, padding, labels.len())
        + rep_seq(empty_row(g), padding.bottom as nat)
        + border_row(g, '└', ' ', '┘') + rep('\n', margin.bottom as int)
}

/// Columns left for the bars, given the chart width and the value labels.
pub fn bar_area(width: usize, value_labels: &[String], padding: &Sides) -> (a: usize)
    requires
        forall|k: int| 0 <= k < value_labels@.len() ==> blen(#[trigger] value_labels@[k]@) <= usize::MAX,
        1 + max_blen(string_views(value_labels@), 0) + padding.left + padding.right <= usize::MAX,
    ensures
        a == bar_area_spec(width as int, max_blen(string_views(value_labels@), 0), *padding),
{
    let vw = max_len_of(value_labels, 0);
    let need = 1 + vw + padding.left + padding.right;
    let a = if width >= need { width - need } else { 0 };
    if a > 4 { a } else { 4 }
}

fn push_bar_head(out: &mut Vec<char>, g: &Geom, label: &str, padding: &Sides)
    ensures
        final(out)@ == old(out)@ + bar_head(g.view(), label@, *padding),
{
    let ghost start = out@;
    if g.on {
        push_str(out, RESET);
    }
    let ghost a = out@;
    let l = chars_of(label);
    push_right_aligned(out, &l, g.label_field);
    push_dim(out, g.on);
    push_str(out, " ┤");
    push_undim(out, g.on);
    push_rep(out, ' ', padding.left);
    proof {
        assert(a =~= start + (if g.on { RESET@ } else { Seq::<char>::empty() }));
        assert(out@ =~= start + bar_head(g.view(), label@, *padding));
    }
}

fn push_bar_body(out: &mut Vec<char>, fg: &Option<String>, len: usize, symbol: char)
    ensures
        final(out)@ == old(out)@ + bar_body(crate::cli::opt_view(*fg), len as int, symbol),
{
    let ghost start = out@;
    match fg {
        Some(f) => {
            push_str(out, f.as_str());
            push_rep(out, symbol, len);
            push_str(out, DIM_RESET);
        },
        None => {
            push_rep(out, symbol, len);
        },
    }
    proof { assert(out@ =~= start + bar_body(crate::cli::opt_view(*fg), len as int, symbol)); }
}

fn push_bar_tail(out: &mut Vec<char>, g: &Geom, vl: &str, len: usize, padding: &Sides)
    requires
        g.inner >= 1,
        blen(vl@) <= usize::MAX,
        padding.left + len + 1 + blen(vl@) + padding.right <= usize::MAX,
    ensures
        final(out)@ == old(out)@ + bar_tail(g.view(), vl@, len as int, *padding),
{
    let ghost start = out@;
    if g.on {
        push_str(out, RESET);
    }
    let ghost a = out@;
    push_str(out, " ");
    push_str(out, vl);
    let used = padding.left + len + 1 + str_len(vl) + padding.right;
    let pad = if used < g.inner - 1 { g.inner - 1 - used } else { 0 };
    push_rep(out, ' ', pad);
    let ghost c = out@;
    if g.on {
        push_str(out, DIM);
        push_rep(out, ' ', g.right_trail);
        push_str(out, DIM_RESET);
    }
    let ghost d = out@;
    push_str(out, "\n");
    proof {
        assert(a =~= start + (if g.on { RESET@ } else { Seq::<char>::empty() }));
        assert(d =~= c + (if g.on { DIM@ + rep(' ', g.right_trail as int) + DIM_RESET@ } else { Seq::<char>::empty() }));
        assert(out@ =~= start + bar_tail(g.view(), vl@, len as int, *padding));
    }
}

fn push_bar_row(out: &mut Vec<char>, g: &Geom, fg: &Option<String>, label: &str, vl: &str, len: usize,
    symbol: char, padding: &Sides)
    requires
        g.inner >= 1,
        blen(vl@) <= usize::MAX,
        padding.left + len + 1 + blen(vl@) + padding.right <= usize::MAX,
    ensures
        final(out)@ == old(out)@ + bar_row(g.view(), crate::cli::opt_view(*fg), label@, vl@, len as int, symbol, *padding),
{
    let ghost start = out@;
    push_bar_head(out, g, label, padding);
    push_bar_body(out, fg, len, symbol);
    push_bar_tail(out, g, vl, len, padding);
    proof {
        assert(out@ =~= start + bar_row(g.view(), crate::cli::opt_view(*fg), label@, vl@, len as int, symbol, *padding));
    }
}

/// Draw a horizontal bar chart: one row per label, with a bar of the given
/// length and the value label after it, framed like the other charts.
pub fn render_barplot(
    labels: &[String],
    value_labels: &[String],
    bar_lens: &[usize],
    width: usize,
    title: Option<&str>,
    color_mode: &ColorMode,
    margin: &Sides,
    padding: &Sides,
    symbol: char,
) -> (s: String)
    requires
        value_labels@.len() == labels@.len(),
        bar_lens@.len() == labels@.len(),
        forall|k: int| 0 <= k < labels@.len() ==> blen(#[trigger] labels@[k]@) <= usize::MAX,
        forall|k: int| 0 <= k < value_labels@.len() ==> blen(#[trigger] value_labels@[k]@) <= usize::MAX,
        1 + max_blen(string_views(value_labels@), 0) + padding.left + padding.right <= usize::MAX,
        frame_fits(bar_geom(string_views(labels@), string_views(value_labels@), width as int,
            !(*color_mode is Off), *margin, *padding)),
        forall|k: int| 0 <= k < bar_lens@.len() ==>
            padding.left + #[trigger] bar_lens@[k] + 1 + blen(value_labels@[k]@) + padding.right <= usize::MAX,
        title matches Some(t) ==> blen(t@) <= usize::MAX,
        bar_color_ok(*color_mode),
    ensures
        s@ == barplot_spec(string_views(labels@), string_views(value_labels@), bar_lens@, width as int,
            opt_str(title), *color_mode, *margin, *padding, symbol),
{
    let ghost gs = bar_geom(string_views(labels@), string_views(value_labels@), width as int,
        !(*color_mode is Off), *margin, *padding);
    let on = color_mode.is_enabled();
    let palette = color_mode.palette();
    let label_field = margin.left + max_len_of(labels, 0);
    let vw = max_len_of(value_labels, 0);
    let area = bar_area(width, value_labels, padding);
    let g = Geom {
        on,
        label_field,
        gutter: label_field + 1,
        inner: padding.left + area + 1 + vw + padding.right + 1,
        right_trail: if margin.right > 1 { margin.right } else { 1 },
        has_legend: false,
        last_y: 0,
        mid: 0,
    };
    proof { assert(g.view() == gs); }
    let fg: Option<String> = match color_mode.series_color_idx(0) {
        Some(ci) => if ci < palette.len() { Some(palette[ci].fg_code()) } else { None },
        None => None,
    };
    let ghost fgs = crate::cli::opt_view(fg);
    proof { assert(fgs == bar_fg(*color_mode)); }
    let mut out: Vec<char> = Vec::new();
    push_newlines(&mut out, margin.top);
    push_title(&mut out, &g, title);
    push_border_row(&mut out, &g, '┌', ' ', '┐');
    push_empty_rows(&mut out, &g, padding.top);
    let ghost head = out@;
    let mut i: usize = 0;
    while i < labels.len()
        invariant
            i <= labels@.len(),
            value_labels@.len() == labels@.len(),
            bar_lens@.len() == labels@.len(),
            g.view() == gs,
            g.inner >= 1,
            fgs == crate::cli::opt_view(fg),
            forall|k: int| 0 <= k < value_labels@.len() ==> blen(#[trigger] value_labels@[k]@) <= usize::MAX,
            forall|k: int| 0 <= k < bar_lens@.len() ==>
                padding.left + #[trigger] bar_lens@[k] + 1 + blen(value_labels@[k]@) + padding.right <= usize::MAX,
            out@ == head + bar_rows(gs, fgs, string_views(labels@), string_views(value_labels@), bar_lens@,
                symbol, *padding, i as nat),
        decreases labels.len() - i,
    {
        proof {
            assert(padding.left + bar_lens@[i as int] + 1 + blen(value_labels@[i as int]@) + padding.right <= usize::MAX);
        }
        push_bar_row(&mut out, &g, &fg, labels[i].as_str(), value_labels[i].as_str(), bar_lens[i], symbol, padding);
        proof {
            assert(string_views(labels@)[i as int] == labels@[i as int]@);
            assert(string_views(value_labels@)[i as int] == value_labels@[i as int]@);
            assert(out@ =~= head + bar_rows(gs, fgs, string_views(labels@), string_views(value_labels@), bar_lens@,
                symbol, *padding, (i + 1) as nat));
        }
        i = i + 1;
    }
    push_empty_rows(&mut out, &g, padding.bottom);
    push_border_row(&mut out, &g, '└', ' ', '┘');
    push_newlines(&mut out, margin.bottom);
    proof {
        assert(string_views(labels@).len() == labels@.len());
        assert(out@ =~= barplot_spec(string_views(labels@), string_views(value_labels@), bar_lens@, width as int,
            opt_str(title), *color_mode, *margin, *padding, symbol));
    }
    string_from_chars(&out)
}

} // verus!

verus! {

/// Set every pixel of pixel row `py` (a full horizontal line, as drawn at y = 0).
pub fn draw_row(canvas: &mut BrailleCanvas, py: usize)
    requires
        old(canvas).width() * 2 <= usize::MAX,
        old(canvas).height() * 4 <= usize::MAX,
    ensures
        final(canvas).width() == old(canvas).width(),
        final(canvas).height() == old(canvas).height(),
        forall|x: int, y: int| #[trigger] final(canvas).lit(x, y) <==> (old(canvas).lit(x, y)
            || (old(canvas).in_bounds(x, y) && y == py)),
        forall|cx: int, cy: int| 0 <= cx < old(canvas).width() && 0 <= cy < old(canvas).height()
            ==> #[trigger] final(canvas).color(cx, cy) == old(canvas).color(cx, cy),
{
    let ghost start = *canvas;
    let pw = canvas.pixel_width();
    let mut px: usize = 0;
    while px < pw
        invariant
            px <= pw,
            pw == start.width() * 2,
            canvas.width() == start.width(),
            canvas.height() == start.height(),
            forall|cx: int, cy: int| 0 <= cx < start.width() && 0 <= cy < start.height() ==> #[trigger] canvas.color(cx, cy) == start.color(cx, cy),
            forall|x: int, y: int| #[trigger] canvas.lit(x, y) <==> (start.lit(x, y)
                || (start.in_bounds(x, y) && y == py && x < px)),
        decreases pw - px,
    {
        let ghost before = *canvas;
        canvas.set(px, py);
        proof { lemma_set_lit(&before, &*canvas, px as int, py as int); }
        px = px + 1;
    }
}

/// The names of the series: the column headers after the first, when there
/// are at least two.
pub open spec fn series_labels_spec(headers: Option<Seq<Seq<char>>>) -> Seq<Seq<char>> {
    match headers {
        Some(h) => if h.len() > 1 { h.skip(1) } else { Seq::empty() },
        None => Seq::empty(),
    }
}

/// The legend entries of a data set with these column headers.
pub fn series_labels(headers: &Option<Vec<String>>) -> (r: Vec<String>)
    ensures
        string_views(r@) == series_labels_spec(match headers { Some(h) => Some(string_views(h@)), None => None }),
{
    let mut r: Vec<String> = Vec::new();
    match headers {
        Some(h) => {
            if h.len() > 1 {
                let mut k: usize = 1;
                while k < h.len()
                    invariant
                        1 <= k <= h@.len(),
                        string_views(r@) =~= string_views(h@).subrange(1, k as int),
                    decreases h.len() - k,
                {
                    let ghost before = r@;
                    r.push(h[k].clone());
                    proof {
                        assert(r@ == before.push(r@.last()));
                        assert(r@.last()@ == h@[k as int]@);
                        assert(string_views(r@) =~= string_views(before).push(h@[k as int]@));
                        assert(string_views(r@) =~= string_views(h@).subrange(1, k + 1));
                    }
                    k = k + 1;
                }
            }
        },
        None => {},
    }
    proof { assert(string_views(r@) =~= series_labels_spec(match headers { Some(h) => Some(string_views(h@)), None => None })); }
    r
}

} // verus!

verus! {

proof fn lemma_blen_at_least_len(s: Seq<char>)
    ensures
        blen(s) >= s.len(),
    decreases s.len(),
{
    if s.len() > 0 {
        lemma_blen_at_least_len(s.drop_first());
        assert(vstd::utf8::encode_utf8(s) == vstd::utf8::encode_scalar(s[0] as u32) + vstd::utf8::encode_utf8(s.drop_first()));
        assert(vstd::utf8::encode_scalar(s[0] as u32).len() >= 1);
    }
}

proof fn lemma_max_blen_bound(s: Seq<Seq<char>>, dflt: int, k: int)
    requires
        0 <= k < s.len(),
    ensures
        blen(s[k]) <= max_blen(s, dflt),
    decreases s.len(),
{
    if s.len() > 1 && k < s.len() - 1 {
        lemma_max_blen_bound(s.drop_last(), dflt, k);
        assert(s.drop_last()[k] == s[k]);
    }
}

proof fn lemma_tick_label_is_a_tick(ticks: Seq<(Seq<char>, usize)>, row: int, last_y: int)
    ensures
        tick_label_at(ticks, row, last_y) matches Some(t) ==> exists|k: int| 0 <= k < ticks.len() && ticks[k].0 == t,
    decreases ticks.len(),
{
    if ticks.len() > 0 && last_y - ticks[0].1 != row {
        lemma_tick_label_is_a_tick(ticks.drop_first(), row, last_y);
        if tick_label_at(ticks, row, last_y) is Some {
            let t = tick_label_at(ticks, row, last_y)->0;
            let k = choose|k: int| 0 <= k < ticks.drop_first().len() && ticks.drop_first()[k].0 == t;
            assert(ticks[k + 1].0 == t);
        }
    }
}

proof fn lemma_plain_row_len(c: BrailleCanvas, row: int, n: nat)
    ensures
        c.colored_cells(row, Seq::empty(), n).len() == n,
    decreases n,
{
    if n > 0 {
        lemma_plain_row_len(c, row, (n - 1) as nat);
    }
}

/// Without colors the chart is a rectangle: every canvas row, padding row
/// and border row of the frame is equally wide (newline included).
pub proof fn lemma_frame_rows_equal_width(c: BrailleCanvas, ticks: Seq<(Seq<char>, usize)>,
    ylabel: Option<Seq<char>>, legend: Seq<Seq<char>>, margin: Sides, padding: Sides, row: int)
    requires
        0 <= row < c.height(),
    ensures
        ({
            let g = chart_geom(c, ticks, ColorMode::Off, legend, margin, padding);
            let w = border_row(g, '┌', '─', '┐').len();
            &&& w == g.gutter + g.inner + g.right_trail + 3
            &&& border_row(g, '└', '─', '┘').len() == w
            &&& empty_row(g).len() == w
            &&& frame_row(g, c, ticks, ylabel, ColorMode::Off, legend, padding, row).len() == w
        }),
{
    let g = chart_geom(c, ticks, ColorMode::Off, legend, margin, padding);
    reveal_strlit(" │");
    reveal_strlit("│");
    reveal_strlit("\n");
    assert(!g.on && !g.has_legend);
    assert(g.label_field >= 0);
    assert(g.label_field >= max_blen(tick_labels(ticks), 2));
    assert(row_label(g, ticks, ylabel, row).len() == g.label_field) by {
        lemma_tick_label_is_a_tick(ticks, row, g.last_y);
        match tick_label_at(ticks, row, g.last_y) {
            Some(t) => {
                let k = choose|k: int| 0 <= k < ticks.len() && ticks[k].0 == t;
                assert(tick_labels(ticks)[k] == t);
                lemma_max_blen_bound(tick_labels(ticks), 2, k);
                lemma_blen_at_least_len(t);
            },
            None => {
                if row == g.mid && ylabel is Some && blen(ylabel->0) <= g.label_field {
                    lemma_blen_at_least_len(ylabel->0);
                }
            },
        }
    }
    lemma_plain_row_len(c, row, c.width());
}

} // verus!

verus! {

/// The pixels of the lines through neighbouring points among the first `n`.
pub open spec fn segments(points: Seq<(usize, usize)>, n: int) -> Seq<(int, int)>
    decreases n,
{
    if n < 2 || n > points.len() {
        Seq::empty()
    } else {
        segments(points, n - 1) + line_points(points[n - 2].0 as int, points[n - 2].1 as int,
            points[n - 1].0 as int, points[n - 1].1 as int)
    }
}

/// The pixels a series covers: the lines through neighbouring points when
/// they are connected, else the points themselves.
pub open spec fn series_pixels(points: Seq<(usize, usize)>, connect: bool) -> Seq<(int, int)> {
    if connect {
        segments(points, points.len() as int)
    } else {
        points.map_values(|p: (usize, usize)| (p.0 as int, p.1 as int))
    }
}

proof fn lemma_contains_concat(a: Seq<(int, int)>, b: Seq<(int, int)>, p: (int, int))
    ensures
        (a + b).contains(p) <==> a.contains(p) || b.contains(p),
{
    if a.contains(p) {
        let k = choose|k: int| 0 <= k < a.len() && a[k] == p;
        assert((a + b)[k] == p);
    }
    if b.contains(p) {
        let k = choose|k: int| 0 <= k < b.len() && b[k] == p;
        assert((a + b)[a.len() + k] == p);
    }
    if (a + b).contains(p) {
        let k = choose|k: int| 0 <= k < (a + b).len() && (a + b)[k] == p;
        if k < a.len() {
            assert(a[k] == p);
        } else {
            assert(b[k - a.len()] == p);
        }
    }
}

proof fn lemma_touches_concat(c: &BrailleCanvas, a: Seq<(int, int)>, b: Seq<(int, int)>, cx: int, cy: int)
    ensures
        c.touches(a + b, cx, cy) <==> c.touches(a, cx, cy) || c.touches(b, cx, cy),
{
    if c.touches(a + b, cx, cy) {
        let p = choose|p: (int, int)| #[trigger] (a + b).contains(p) && c.in_bounds(p.0, p.1) && p.0 / 2 == cx && p.1 / 4 == cy;
        lemma_contains_concat(a, b, p);
    }
    if c.touches(a, cx, cy) {
        let p = choose|p: (int, int)| #[trigger] a.contains(p) && c.in_bounds(p.0, p.1) && p.0 / 2 == cx && p.1 / 4 == cy;
        lemma_contains_concat(a, b, p);
    }
    if c.touches(b, cx, cy) {
        let p = choose|p: (int, int)| #[trigger] b.contains(p) && c.in_bounds(p.0, p.1) && p.0 / 2 == cx && p.1 / 4 == cy;
        lemma_contains_concat(a, b, p);
    }
}

/// Draw a series of pixel points: lines through neighbouring points when
/// `connect` is set, else the points alone; every cell drawn takes `color`
/// when one is given.
pub fn draw_series(canvas: &mut BrailleCanvas, points: &[(usize, usize)], connect: bool, color: Option<usize>)
    ensures
        final(canvas).width() == old(canvas).width(),
        final(canvas).height() == old(canvas).height(),
        forall|x: int, y: int| #[trigger] final(canvas).lit(x, y) <==> (old(canvas).lit(x, y)
            || (old(canvas).in_bounds(x, y) && series_pixels(points@, connect).contains((x, y)))),
        forall|cx: int, cy: int| 0 <= cx < old(canvas).width() && 0 <= cy < old(canvas).height()
            ==> #[trigger] final(canvas).color(cx, cy) == if color is Some
                && old(canvas).touches(series_pixels(points@, connect), cx, cy) {
                color
            } else {
                old(canvas).color(cx, cy)
            },
{
    let ghost start = *canvas;
    let ghost pts = points@;
    if connect {
        if points.len() < 2 {
            proof {
                assert(series_pixels(pts, connect) =~= Seq::<(int, int)>::empty());
                assert forall|cx: int, cy: int| 0 <= cx < start.width() && 0 <= cy < start.height()
                    implies !start.touches(Seq::<(int, int)>::empty(), cx, cy) by {
                    if start.touches(Seq::<(int, int)>::empty(), cx, cy) {
                        let p = choose|p: (int, int)| #[trigger] Seq::<(int, int)>::empty().contains(p)
                            && start.in_bounds(p.0, p.1) && p.0 / 2 == cx && p.1 / 4 == cy;
                    }
                }
            }
            return;
        }
        let mut k: usize = 1;
        proof {
            assert(segments(pts, 1) =~= Seq::<(int, int)>::empty());
            assert forall|cx: int, cy: int| 0 <= cx < start.width() && 0 <= cy < start.height()
                implies !start.touches(segments(pts, 1), cx, cy) by {
                if start.touches(segments(pts, 1), cx, cy) {
                    let p = choose|p: (int, int)| #[trigger] segments(pts, 1).contains(p)
                        && start.in_bounds(p.0, p.1) && p.0 / 2 == cx && p.1 / 4 == cy;
                }
            }
        }
        while k < points.len()
            invariant
                1 <= k <= pts.len(),
                pts == points@,
                canvas.width() == start.width(),
                canvas.height() == start.height(),
                forall|x: int, y: int| #[trigger] canvas.lit(x, y) <==> (start.lit(x, y)
                    || (start.in_bounds(x, y) && segments(pts, k as int).contains((x, y)))),
                forall|cx: int, cy: int| 0 <= cx < start.width() && 0 <= cy < start.height()
                    ==> #[trigger] canvas.color(cx, cy) == if color is Some && start.touches(segments(pts, k as int), cx, cy) {
                        color
                    } else {
                        start.color(cx, cy)
                    },
            decreases points.len() - k,
        {
            let ghost before = *canvas;
            let (x0, y0) = points[k - 1];
            let (x1, y1) = points[k];
            canvas.line_colored(x0, y0, x1, y1, color);
            proof {
                let seg = segments(pts, k as int);
                let lp = line_points(x0 as int, y0 as int, x1 as int, y1 as int);
                assert(segments(pts, k + 1) == seg + lp);
                assert forall|x: int, y: int| #[trigger] canvas.lit(x, y) <==> (start.lit(x, y)
                    || (start.in_bounds(x, y) && segments(pts, k + 1).contains((x, y)))) by {
                    lemma_contains_concat(seg, lp, (x, y));
                }
                assert forall|cx: int, cy: int| 0 <= cx < start.width() && 0 <= cy < start.height() implies
                    #[trigger] canvas.color(cx, cy) == if color is Some && start.touches(segments(pts, k + 1), cx, cy) {
                        color
                    } else {
                        start.color(cx, cy)
                    } by {
                    lemma_touches_concat(&start, seg, lp, cx, cy);
                    assert(before.touches(lp, cx, cy) == start.touches(lp, cx, cy));
                }
            }
            k = k + 1;
        }
    } else {
        let ghost mapped = pts.map_values(|p: (usize, usize)| (p.0 as int, p.1 as int));
        let mut k: usize = 0;
        proof {
            assert forall|cx: int, cy: int| 0 <= cx < start.width() && 0 <= cy < start.height()
                implies !start.touches(mapped.take(0), cx, cy) by {
                if start.touches(mapped.take(0), cx, cy) {
                    let p = choose|p: (int, int)| #[trigger] mapped.take(0).contains(p)
                        && start.in_bounds(p.0, p.1) && p.0 / 2 == cx && p.1 / 4 == cy;
                }
            }
        }
        while k < points.len()
            invariant
                k <= pts.len(),
                pts == points@,
                mapped == pts.map_values(|p: (usize, usize)| (p.0 as int, p.1 as int)),
                canvas.width() == start.width(),
                canvas.height() == start.height(),
                forall|x: int, y: int| #[trigger] canvas.lit(x, y) <==> (start.lit(x, y)
                    || (start.in_bounds(x, y) && mapped.take(k as int).contains((x, y)))),
                forall|cx: int, cy: int| 0 <= cx < start.width() && 0 <= cy < start.height()
                    ==> #[trigger] canvas.color(cx, cy) == if color is Some && start.touches(mapped.take(k as int), cx, cy) {
                        color
                    } else {
                        start.color(cx, cy)
                    },
            decreases points.len() - k,
        {
            let ghost before = *canvas;
            let (px, py) = points[k];
            canvas.set_colored(px, py, color);
            proof {
                lemma_set_lit(&before, &*canvas, px as int, py as int);
                let old_t = mapped.take(k as int);
                let q = (px as int, py as int);
                assert(mapped.take(k + 1) =~= old_t.push(q));
                assert forall|x: int, y: int| #[trigger] canvas.lit(x, y) <==> (start.lit(x, y)
                    || (start.in_bounds(x, y) && mapped.take(k + 1).contains((x, y)))) by {
                    lemma_contains_concat(old_t, seq![q], (x, y));
                    assert(old_t.push(q) =~= old_t + seq![q]);
                    assert(mapped.take(k + 1) == old_t + seq![q]);
                    assert(seq![q][0] == q);
                    assert(seq![q].contains((x, y)) <==> (x, y) == q);
                    assert(before.lit(x, y) <==> (start.lit(x, y) || (start.in_bounds(x, y) && old_t.contains((x, y)))));
                }
                assert forall|cx: int, cy: int| 0 <= cx < start.width() && 0 <= cy < start.height() implies
                    #[trigger] canvas.color(cx, cy) == if color is Some && start.touches(mapped.take(k + 1), cx, cy) {
                        color
                    } else {
                        start.color(cx, cy)
                    } by {
                    lemma_touches_push(&start, old_t, q, cx, cy);
                }
            }
            k = k + 1;
        }
        proof { assert(mapped.take(pts.len() as int) =~= mapped); }
    }
}

} // verus!
