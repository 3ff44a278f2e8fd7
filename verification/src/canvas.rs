//! A braille-dot canvas: every character cell holds a 2×4 grid of dots.
use vstd::prelude::*;
use crate::color::{fg_code_spec, Color, RESET};
use crate::text::{char_from_u32, push_str, string_from_chars};

verus! {

/// First code point of the Unicode braille block.
pub const BRAILLE_BASE: u32 = 0x2800;

/// Bit of the braille dot at `row` (0..4) and `col` (0..2) inside a cell.
/// Rows 0-2 map to dots 1-3 (left) and 4-6 (right); row 3 to dots 7 and 8.
pub open spec fn dot_bit(row: int, col: int) -> u8 {
    if col == 0 {
        if row == 0 { 0x01u8 } else if row == 1 { 0x02u8 } else if row == 2 { 0x04u8 } else { 0x40u8 }
    } else {
        if row == 0 { 0x08u8 } else if row == 1 { 0x10u8 } else if row == 2 { 0x20u8 } else { 0x80u8 }
    }
}

fn dot_bit_exec(row: usize, col: usize) -> (b: u8)
    requires
        row < 4,
        col < 2,
    ensures
        b == dot_bit(row as int, col as int),
{
    if col == 0 {
        if row == 0 { 0x01 } else if row == 1 { 0x02 } else if row == 2 { 0x04 } else { 0x40 }
    } else {
        if row == 0 { 0x08 } else if row == 1 { 0x10 } else if row == 2 { 0x20 } else { 0x80 }
    }
}

/// One cell as text: its braille character, in its palette color (with a
/// reset after it) when it has one that the palette holds.
pub open spec fn colored_cell(bits: u8, color: Option<usize>, palette: Seq<Color>) -> Seq<char> {
    match color {
        Some(ci) => if ci < palette.len() {
            fg_code_spec(palette[ci as int]) + seq![braille_char(bits)] + RESET@
        } else {
            seq![braille_char(bits)]
        },
        None => seq![braille_char(bits)],
    }
}

/// The braille character whose dots are the set bits of `bits`.
pub open spec fn braille_char(bits: u8) -> char {
    (0x2800 + bits) as char
}

pub struct BrailleCanvas {
    chars_wide: usize,
    chars_tall: usize,
    cells: Vec<u8>,
    /// The palette index each cell is drawn in, if any.
    colors: Vec<Option<usize>>,
}

impl BrailleCanvas {
    #[verifier::type_invariant]
    spec fn well_formed(self) -> bool {
        &&& self.cells@.len() == self.chars_wide * self.chars_tall
        &&& self.colors@.len() == self.chars_wide * self.chars_tall
    }

    /// Width in character cells.
    pub closed spec fn width(&self) -> nat {
        self.chars_wide as nat
    }

    /// Height in character cells.
    pub closed spec fn height(&self) -> nat {
        self.chars_tall as nat
    }

    /// The dot bits of the cell in column `cx` and row `cy`.
    pub closed spec fn cell(&self, cx: int, cy: int) -> u8 {
        self.cells@[cy * self.chars_wide + cx]
    }

    /// The palette index the cell in column `cx` and row `cy` is drawn in, if any.
    pub closed spec fn color(&self, cx: int, cy: int) -> Option<usize> {
        self.colors@[cy * self.chars_wide + cx]
    }

    /// Whether the pixel `(px, py)` lies on the canvas.
    pub open spec fn in_bounds(&self, px: int, py: int) -> bool {
        0 <= px && 0 <= py && px / 2 < self.width() && py / 4 < self.height()
    }

    /// Whether the dot of pixel `(px, py)` is set.
    pub open spec fn lit(&self, px: int, py: int) -> bool {
        self.in_bounds(px, py) && self.cell(px / 2, py / 4) & dot_bit(py % 4, px % 2) != 0
    }

    /// A blank canvas of `chars_wide` × `chars_tall` cells.
    pub fn new(chars_wide: usize, chars_tall: usize) -> (c: Self)
        requires
            chars_wide * chars_tall <= usize::MAX,
        ensures
            c.width() == chars_wide,
            c.height() == chars_tall,
            forall|cx: int, cy: int|
                0 <= cx < chars_wide && 0 <= cy < chars_tall ==> #[trigger] c.cell(cx, cy) == 0,
            forall|cx: int, cy: int|
                0 <= cx < chars_wide && 0 <= cy < chars_tall ==> #[trigger] c.color(cx, cy) is None,
    {
        let n: usize = chars_wide * chars_tall;
        let mut cells: Vec<u8> = Vec::new();
        let mut colors: Vec<Option<usize>> = Vec::new();
        let mut i: usize = 0;
        while i < n
            invariant
                i <= n,
                cells@.len() == i,
                colors@.len() == i,
                forall|k: int| 0 <= k < i ==> cells@[k] == 0,
                forall|k: int| 0 <= k < i ==> colors@[k] is None,
            decreases n - i,
        {
            cells.push(0);
            colors.push(None);
            i = i + 1;
        }
        let c = BrailleCanvas { chars_wide, chars_tall, cells, colors };
        proof {
            assert forall|cx: int, cy: int|
                0 <= cx < chars_wide && 0 <= cy < chars_tall implies #[trigger] c.cell(cx, cy) == 0 by {
                lemma_cell_index(cx, cy, chars_wide as int, chars_tall as int);
            }
            assert forall|cx: int, cy: int|
                0 <= cx < chars_wide && 0 <= cy < chars_tall implies #[trigger] c.color(cx, cy) is None by {
                lemma_cell_index(cx, cy, chars_wide as int, chars_tall as int);
            }
        }
        c
    }

    pub fn pixel_width(&self) -> (w: usize)
        requires
            self.width() * 2 <= usize::MAX,
        ensures
            w == self.width() * 2,
    {
        self.chars_wide * 2
    }

    pub fn pixel_height(&self) -> (h: usize)
        requires
            self.height() * 4 <= usize::MAX,
        ensures
            h == self.height() * 4,
    {
        self.chars_tall * 4
    }

    pub fn chars_wide(&self) -> (w: usize)
        ensures
            w == self.width(),
    {
        self.chars_wide
    }

    pub fn chars_tall(&self) -> (h: usize)
        ensures
            h == self.height(),
    {
        self.chars_tall
    }

    /// The dots after setting pixel `(px, py)`: the dot is added to its cell
    /// when the pixel is on the canvas; every other cell is unchanged.
    pub open spec fn dots_post(&self, after: &Self, px: int, py: int) -> bool {
        &&& after.width() == self.width()
        &&& after.height() == self.height()
        &&& forall|cx: int, cy: int|
            0 <= cx < self.width() && 0 <= cy < self.height() ==> #[trigger] after.cell(cx, cy) == if self.in_bounds(px, py) && cx == px / 2 && cy == py / 4 {
                self.cell(cx, cy) | dot_bit(py % 4, px % 2)
            } else {
                self.cell(cx, cy)
            }
    }

    /// The canvas after setting pixel `(px, py)` in `color`: the dot as
    /// `dots_post` says, and, when a color is given and the pixel is on the
    /// canvas, its cell takes that color; every other color is unchanged.
    pub open spec fn paint_post(&self, after: &Self, px: int, py: int, color: Option<usize>) -> bool {
        &&& self.dots_post(after, px, py)
        &&& forall|cx: int, cy: int|
            0 <= cx < self.width() && 0 <= cy < self.height() ==> #[trigger] after.color(cx, cy) == if color is Some
                && self.in_bounds(px, py) && cx == px / 2 && cy == py / 4 {
                color
            } else {
                self.color(cx, cy)
            }
    }

    /// The canvas after setting pixel `(px, py)` with no color: colors unchanged.
    pub open spec fn set_post(&self, after: &Self, px: int, py: int) -> bool {
        self.paint_post(after, px, py, None)
    }

    /// Set the dot of pixel `(px, py)`; pixels off the canvas are ignored.
    pub fn set(&mut self, px: usize, py: usize)
        ensures
            old(self).set_post(&*final(self), px as int, py as int),
    {
        self.set_colored(px, py, None);
    }

    /// Set the dot of pixel `(px, py)` and, when `color` is given, draw its
    /// cell in that palette index; pixels off the canvas are ignored.
    pub fn set_colored(&mut self, px: usize, py: usize, color: Option<usize>)
        ensures
            old(self).paint_post(&*final(self), px as int, py as int, color),
    {
        proof { use_type_invariant(&*self); }
        let ghost old_c = *self;
        let cx = px / 2;
        let cy = py / 4;
        if cx >= self.chars_wide || cy >= self.chars_tall {
            return;
        }
        let dot_col = px % 2;
        let dot_row = py % 4;
        let len = self.cells.len();
        proof {
            lemma_cell_index(cx as int, cy as int, self.chars_wide as int, self.chars_tall as int);
            assert(cy * self.chars_wide + cx < len);
        }
        let idx = cy * self.chars_wide + cx;
        let bits = self.cells[idx] | dot_bit_exec(dot_row, dot_col);
        let ghost w = self.chars_wide as int;
        let ghost h = self.chars_tall as int;
        let mut taken = BrailleCanvas::new(0, 0);
        std::mem::swap(self, &mut taken);
        let BrailleCanvas { chars_wide, chars_tall, mut cells, mut colors } = taken;
        cells.set(idx, bits);
        let ghost old_col = colors@[idx as int];
        if color.is_some() {
            colors.set(idx, color);
        }
        *self = BrailleCanvas { chars_wide, chars_tall, cells, colors };
        proof {
            use_type_invariant(&*self);
            assert forall|x: int, y: int| 0 <= x < w && 0 <= y < h implies
                #[trigger] self.cell(x, y) == (if x == cx && y == cy { bits } else { old_c.cell(x, y) })
                && self.color(x, y) == (if color is Some && x == cx && y == cy { color } else { old_c.color(x, y) }) by {
                lemma_cell_index(x, y, w, h);
                lemma_cell_index_injective(x, y, cx as int, cy as int, w);
            }
            assert forall|x: int, y: int| 0 <= x < w && 0 <= y < h implies
                #[trigger] self.color(x, y) == (if color is Some && old_c.in_bounds(px as int, py as int)
                    && x == px / 2 && y == py / 4 { color } else { old_c.color(x, y) }) by {
                assert(self.cell(x, y) == (if x == cx && y == cy { bits } else { old_c.cell(x, y) }));
            }
        }
    }

    /// The characters of cell row `row`, one braille character per cell.
    pub fn row_chars(&self, row: usize) -> (s: String)
        requires
            self.width() == 0 || row < self.height(),
        ensures
            s@ == Seq::new(self.width(), |i: int| braille_char(self.cell(i, row as int))),
    {
        proof { use_type_invariant(self); }
        let w = self.chars_wide;
        let mut out: Vec<char> = Vec::new();
        if w == 0 {
            proof { assert(out@ =~= Seq::new(self.width(), |i: int| braille_char(self.cell(i, row as int)))); }
            return string_from_chars(&out);
        }
        let len = self.cells.len();
        proof {
            lemma_cell_index(0, row as int, w as int, self.chars_tall as int);
            lemma_cell_index(w - 1, row as int, w as int, self.chars_tall as int);
        }
        let start = row * w;
        let mut i: usize = 0;
        while i < w
            invariant
                w == self.chars_wide,
                self.cells@.len() == len,
                start == row * w,
                start + w <= len,
                i <= w,
                out@ =~= Seq::new(i as nat, |k: int| braille_char(self.cell(k, row as int))),
            decreases w - i,
        {
            let bits = self.cells[start + i];
            let c = match char_from_u32(BRAILLE_BASE + bits as u32) {
                Some(c) => c,
                None => ' ',
            };
            proof {
                assert(self.cell(i as int, row as int) == bits);
            }
            out.push(c);
            i = i + 1;
        }
        string_from_chars(&out)
    }

    /// The characters of cell row `row` in color: a cell drawn in a palette
    /// index that the palette has is wrapped in that color's escape code and
    /// the reset code; the other cells are plain.
    pub fn row_chars_colored(&self, row: usize, palette: &[Color]) -> (s: String)
        requires
            self.width() == 0 || row < self.height(),
            forall|k: int| 0 <= k < palette@.len() ==> !(#[trigger] palette@[k] matches Color::Named(n) && n > 165),
        ensures
            s@ == self.colored_cells(row as int, palette@, self.width()),
    {
        proof { use_type_invariant(self); }
        let w = self.chars_wide;
        let mut out: Vec<char> = Vec::new();
        if w == 0 {
            return string_from_chars(&out);
        }
        let len = self.cells.len();
        proof {
            assert(len == w * self.chars_tall);
            lemma_cell_index(0, row as int, w as int, self.chars_tall as int);
            lemma_cell_index(w - 1, row as int, w as int, self.chars_tall as int);
        }
        let start = row * w;
        let mut i: usize = 0;
        while i < w
            invariant
                w == self.chars_wide,
                self.cells@.len() == self.colors@.len(),
                self.cells@.len() == len,
                start == row * w,
                start + w <= self.cells@.len(),
                i <= w,
                forall|k: int| 0 <= k < palette@.len() ==> !(#[trigger] palette@[k] matches Color::Named(n) && n > 165),
                out@ == self.colored_cells(row as int, palette@, i as nat),
            decreases w - i,
        {
            let bits = self.cells[start + i];
            let c = match char_from_u32(BRAILLE_BASE + bits as u32) {
                Some(c) => c,
                None => ' ',
            };
            let ghost before = out@;
            proof {
                assert(self.cell(i as int, row as int) == bits);
                assert(self.color(i as int, row as int) == self.colors@[start + i]);
            }
            match self.colors[start + i] {
                Some(ci) => {
                    if ci < palette.len() {
                        let code = palette[ci].fg_code();
                        push_str(&mut out, code.as_str());
                        out.push(c);
                        push_str(&mut out, RESET);
                    } else {
                        out.push(c);
                    }
                },
                None => {
                    out.push(c);
                },
            }
            proof {
                assert(out@ =~= before + colored_cell(bits, self.color(i as int, row as int), palette@));
            }
            i = i + 1;
        }
        string_from_chars(&out)
    }

    /// The colored text of the first `n` cells of row `row`.
    pub open spec fn colored_cells(&self, row: int, palette: Seq<Color>, n: nat) -> Seq<char>
        decreases n,
    {
        if n == 0 {
            Seq::empty()
        } else {
            self.colored_cells(row, palette, (n - 1) as nat)
                + colored_cell(self.cell(n - 1, row), self.color(n - 1, row), palette)
        }
    }

    /// The canvas after drawing the line from `(x0, y0)` to `(x1, y1)`: the
    /// dots of exactly the on-canvas points of `line_points` are added.
    pub open spec fn line_post(&self, after: &Self, x0: int, y0: int, x1: int, y1: int) -> bool {
        &&& after.width() == self.width()
        &&& after.height() == self.height()
        &&& forall|px: int, py: int|
            #[trigger] after.lit(px, py) <==> (self.lit(px, py) || (self.in_bounds(px, py)
                && line_points(x0, y0, x1, y1).contains((px, py))))
    }

    /// Whether one of the on-canvas points `pts` lies in cell `(cx, cy)`.
    pub open spec fn touches(&self, pts: Seq<(int, int)>, cx: int, cy: int) -> bool {
        exists|p: (int, int)| #[trigger] pts.contains(p) && self.in_bounds(p.0, p.1) && p.0 / 2 == cx && p.1 / 4 == cy
    }

    /// The canvas after drawing the line in `color`: the dots as `line_post`
    /// says, and, when a color is given, every cell the line passes through
    /// takes that color; every other color is unchanged.
    pub open spec fn line_paint_post(&self, after: &Self, x0: int, y0: int, x1: int, y1: int, color: Option<usize>) -> bool {
        &&& self.line_post(after, x0, y0, x1, y1)
        &&& forall|cx: int, cy: int|
            0 <= cx < self.width() && 0 <= cy < self.height() ==> #[trigger] after.color(cx, cy) == if color is Some
                && self.touches(line_points(x0, y0, x1, y1), cx, cy) {
                color
            } else {
                self.color(cx, cy)
            }
    }

    /// Draw a line between two pixels (Bresenham); off-canvas points are skipped.
    pub fn line(&mut self, x0: usize, y0: usize, x1: usize, y1: usize)
        ensures
            old(self).line_paint_post(&*final(self), x0 as int, y0 as int, x1 as int, y1 as int, None),
    {
        self.line_colored(x0, y0, x1, y1, None);
    }

    /// Draw a line between two pixels (Bresenham), its cells in palette index
    /// `color` when one is given; off-canvas points are skipped.
    pub fn line_colored(&mut self, x0: usize, y0: usize, x1: usize, y1: usize, color: Option<usize>)
        ensures
            old(self).line_paint_post(&*final(self), x0 as int, y0 as int, x1 as int, y1 as int, color),
    {
        let ghost start = *self;
        let ix0 = x0 as i128;
        let iy0 = y0 as i128;
        let ix1 = x1 as i128;
        let iy1 = y1 as i128;
        let dx: i128 = if ix1 >= ix0 { ix1 - ix0 } else { ix0 - ix1 };
        let dy: i128 = -(if iy1 >= iy0 { iy1 - iy0 } else { iy0 - iy1 });
        let sx: i128 = if x0 < x1 { 1 } else { -1 };
        let sy: i128 = if y0 < y1 { 1 } else { -1 };
        let mut err: i128 = dx + dy;
        let mut x: i128 = ix0;
        let mut y: i128 = iy0;
        let ghost big_x: int = dx as int;
        let ghost big_y: int = -dy;
        let ghost mut a: int = 0;
        let ghost mut b: int = 0;
        let ghost mut done: Seq<(int, int)> = Seq::empty();
        let ghost all = line_steps(big_x, big_y, 0, 0);
        proof {
            assert(done + line_steps(big_x, big_y, a, b) =~= all);
            assert forall|px: int, py: int| #[trigger] self.lit(px, py) <==> (start.lit(px, py)
                || (start.in_bounds(px, py) && offsets_to_points(done, x0 as int, y0 as int, sx as int, sy as int).contains((px, py)))) by {}
            assert forall|cx: int, cy: int| 0 <= cx < start.width() && 0 <= cy < start.height() implies
                #[trigger] self.color(cx, cy) == if color is Some
                    && start.touches(offsets_to_points(done, x0 as int, y0 as int, sx as int, sy as int), cx, cy) {
                    color
                } else {
                    start.color(cx, cy)
                } by {
                let pts = offsets_to_points(done, x0 as int, y0 as int, sx as int, sy as int);
                assert(pts.len() == 0);
                if start.touches(pts, cx, cy) {
                    let p = choose|p: (int, int)| #[trigger] pts.contains(p) && start.in_bounds(p.0, p.1) && p.0 / 2 == cx && p.1 / 4 == cy;
                    assert(false);
                }
            }
        }
        loop
            invariant_except_break
                done + line_steps(big_x, big_y, a, b) == all,
            invariant
                self.width() == start.width(),
                self.height() == start.height(),
                ix0 == x0,
                iy0 == y0,
                ix1 == x1,
                iy1 == y1,
                big_x == dx as int,
                big_y == -dy,
                big_x == if x1 >= x0 { x1 - x0 } else { x0 - x1 },
                big_y == if y1 >= y0 { y1 - y0 } else { y0 - y1 },
                sx == (if x0 < x1 { 1int } else { -1int }),
                sy == (if y0 < y1 { 1int } else { -1int }),
                0 <= a <= big_x,
                0 <= b <= big_y,
                x == x0 + sx * a,
                y == y0 + sy * b,
                err == (b + 1) * big_x - (a + 1) * big_y,
                -3 * big_y <= 2 * err <= 3 * big_x,
                all == line_steps(big_x, big_y, 0, 0),
                forall|px: int, py: int| #[trigger] self.lit(px, py) <==> (start.lit(px, py)
                    || (start.in_bounds(px, py) && offsets_to_points(done, x0 as int, y0 as int, sx as int, sy as int).contains((px, py)))),
                forall|cx: int, cy: int| 0 <= cx < start.width() && 0 <= cy < start.height() ==>
                    #[trigger] self.color(cx, cy) == if color is Some
                        && start.touches(offsets_to_points(done, x0 as int, y0 as int, sx as int, sy as int), cx, cy) {
                        color
                    } else {
                        start.color(cx, cy)
                    },
            ensures
                self.width() == start.width(),
                self.height() == start.height(),
                forall|px: int, py: int| #[trigger] self.lit(px, py) <==> (start.lit(px, py)
                    || (start.in_bounds(px, py) && offsets_to_points(all, x0 as int, y0 as int, sx as int, sy as int).contains((px, py)))),
                forall|cx: int, cy: int| 0 <= cx < start.width() && 0 <= cy < start.height() ==>
                    #[trigger] self.color(cx, cy) == if color is Some
                        && start.touches(offsets_to_points(all, x0 as int, y0 as int, sx as int, sy as int), cx, cy) {
                        color
                    } else {
                        start.color(cx, cy)
                    },
            decreases (big_x - a) + (big_y - b),
        {
            proof {
                lemma_x_between(x0 as int, x1 as int, sx as int, a, big_x);
                lemma_x_between(y0 as int, y1 as int, sy as int, b, big_y);
            }
            let ghost before = *self;
            self.set_colored(x as usize, y as usize, color);
            proof {
                lemma_set_lit(&before, &*self, x as int, y as int);
                let pts_old = offsets_to_points(done, x0 as int, y0 as int, sx as int, sy as int);
                done = done.push((a, b));
                let pts_new = offsets_to_points(done, x0 as int, y0 as int, sx as int, sy as int);
                assert(pts_new =~= pts_old.push((x as int, y as int)));
                assert forall|cx: int, cy: int| 0 <= cx < start.width() && 0 <= cy < start.height() implies
                    #[trigger] self.color(cx, cy) == if color is Some && start.touches(pts_new, cx, cy) {
                        color
                    } else {
                        start.color(cx, cy)
                    } by {
                    lemma_touches_push(&start, pts_old, (x as int, y as int), cx, cy);
                    assert(before.color(cx, cy) == (if color is Some && start.touches(pts_old, cx, cy) { color } else { start.color(cx, cy) }));
                }
                assert forall|px: int, py: int| #[trigger] self.lit(px, py) <==> (start.lit(px, py)
                    || (start.in_bounds(px, py) && pts_new.contains((px, py)))) by {
                    assert(pts_new[pts_old.len() as int] == (x as int, y as int));
                    if pts_new.contains((px, py)) && !pts_old.contains((px, py)) {
                        let k = choose|k: int| 0 <= k < pts_new.len() && pts_new[k] == (px, py);
                        if k < pts_old.len() {
                            assert(pts_old[k] == (px, py));
                        }
                        assert((px, py) == (x as int, y as int));
                    }
                    if pts_old.contains((px, py)) {
                        let k = choose|k: int| 0 <= k < pts_old.len() && pts_old[k] == (px, py);
                        assert(pts_new[k] == (px, py));
                    }
                    if before.lit(px, py) {
                    }
                }
            }
            if x == ix1 && y == iy1 {
                proof {
                    assert(a == big_x && b == big_y) by {
                        lemma_at_end(x0 as int, x1 as int, sx as int, a, big_x);
                        lemma_at_end(y0 as int, y1 as int, sy as int, b, big_y);
                    }
                    assert(line_steps(big_x, big_y, a, b) =~= seq![(a, b)]);
                    assert(done =~= all);
                }
                break;
            }
            proof {
                assert(!(a == big_x && b == big_y)) by {
                    if a == big_x && b == big_y {
                        lemma_reach(x0 as int, x1 as int, sx as int, big_x);
                        lemma_reach(y0 as int, y1 as int, sy as int, big_y);
                    }
                }
            }
            let e2 = 2 * err;
            let ghost na: int = if 2 * err >= -big_y { a + 1 } else { a };
            let ghost nb: int = if 2 * err <= big_x { b + 1 } else { b };
            proof {
                lemma_steps_stay_in_box(big_x, big_y, a, b);
                assert(line_steps(big_x, big_y, a, b) =~= seq![(a, b)] + line_steps(big_x, big_y, na, nb));
            }
            if e2 >= dy {
                if x == ix1 {
                    proof {
                        lemma_at_end(x0 as int, x1 as int, sx as int, a, big_x);
                        assert(false);
                    }
                    break;
                }
                err = err + dy;
                x = x + sx;
            }
            if e2 <= dx {
                if y == iy1 {
                    proof {
                        lemma_at_end(y0 as int, y1 as int, sy as int, b, big_y);
                        assert(false);
                    }
                    break;
                }
                err = err + dx;
                y = y + sy;
            }
            proof {
                lemma_advance(x0 as int, sx as int, a, na);
                lemma_advance(y0 as int, sy as int, b, nb);
                assert((nb + 1) * big_x == (b + 1) * big_x + (nb - b) * big_x) by (nonlinear_arith);
                assert((na + 1) * big_y == (a + 1) * big_y + (na - a) * big_y) by (nonlinear_arith);
                assert((nb - b) * big_x == if nb == b + 1 { big_x } else { 0 }) by (nonlinear_arith)
                    requires nb == b || nb == b + 1;
                assert((na - a) * big_y == if na == a + 1 { big_y } else { 0 }) by (nonlinear_arith)
                    requires na == a || na == a + 1;
                a = na;
                b = nb;
                assert(done + line_steps(big_x, big_y, a, b) =~= all);
            }
        }
    }
}

pub(crate) proof fn lemma_touches_push(c: &BrailleCanvas, pts: Seq<(int, int)>, q: (int, int), cx: int, cy: int)
    ensures
        c.touches(pts.push(q), cx, cy) <==> (c.touches(pts, cx, cy)
            || (c.in_bounds(q.0, q.1) && q.0 / 2 == cx && q.1 / 4 == cy)),
{
    let n = pts.push(q);
    if c.touches(pts, cx, cy) {
        let p = choose|p: (int, int)| #[trigger] pts.contains(p) && c.in_bounds(p.0, p.1) && p.0 / 2 == cx && p.1 / 4 == cy;
        let k = choose|k: int| 0 <= k < pts.len() && pts[k] == p;
        assert(n[k] == p);
        assert(n.contains(p));
    }
    if c.in_bounds(q.0, q.1) && q.0 / 2 == cx && q.1 / 4 == cy {
        assert(n[pts.len() as int] == q);
        assert(n.contains(q));
    }
    if c.touches(n, cx, cy) {
        let p = choose|p: (int, int)| #[trigger] n.contains(p) && c.in_bounds(p.0, p.1) && p.0 / 2 == cx && p.1 / 4 == cy;
        let k = choose|k: int| 0 <= k < n.len() && n[k] == p;
        if k < pts.len() {
            assert(pts[k] == p);
            assert(pts.contains(p));
        }
    }
}

/// The offsets `(a, b)` (steps taken along x and along y) that the line
/// algorithm visits from `(a, b)` on, for a line spanning `dx` columns and
/// `dy` rows. At each step the error term `(b+1)·dx − (a+1)·dy` decides
/// whether x, y, or both advance.
pub open spec fn line_steps(dx: int, dy: int, a: int, b: int) -> Seq<(int, int)>
    decreases (dx - a) + (dy - b),
{
    if a < 0 || b < 0 || a > dx || b > dy {
        Seq::empty()
    } else if a == dx && b == dy {
        seq![(a, b)]
    } else {
        let e2 = 2 * ((b + 1) * dx - (a + 1) * dy);
        let na = if e2 >= -dy { a + 1 } else { a };
        let nb = if e2 <= dx { b + 1 } else { b };
        if na > dx || nb > dy {
            seq![(a, b)]
        } else {
            seq![(a, b)] + line_steps(dx, dy, na, nb)
        }
    }
}

/// Offsets turned into pixels: `a` steps in direction `sx` from `x0`, `b` in `sy` from `y0`.
pub open spec fn offsets_to_points(offs: Seq<(int, int)>, x0: int, y0: int, sx: int, sy: int) -> Seq<(int, int)> {
    offs.map_values(|o: (int, int)| (x0 + sx * o.0, y0 + sy * o.1))
}

/// The pixels of the line from `(x0, y0)` to `(x1, y1)`, in drawing order.
pub open spec fn line_points(x0: int, y0: int, x1: int, y1: int) -> Seq<(int, int)> {
    let dx = if x1 >= x0 { x1 - x0 } else { x0 - x1 };
    let dy = if y1 >= y0 { y1 - y0 } else { y0 - y1 };
    let sx = if x0 < x1 { 1int } else { -1int };
    let sy = if y0 < y1 { 1int } else { -1int };
    offsets_to_points(line_steps(dx, dy, 0, 0), x0, y0, sx, sy)
}

/// While the end is not reached, a step never overshoots the end in x or in y.
proof fn lemma_steps_stay_in_box(dx: int, dy: int, a: int, b: int)
    requires
        0 <= a <= dx,
        0 <= b <= dy,
        !(a == dx && b == dy),
    ensures
        2 * ((b + 1) * dx - (a + 1) * dy) >= -dy ==> a < dx,
        2 * ((b + 1) * dx - (a + 1) * dy) <= dx ==> b < dy,
{
    if a == dx {
        assert((b + 1) * dx <= dy * dx) by (nonlinear_arith)
            requires b + 1 <= dy, 0 <= dx;
        assert((a + 1) * dy == dx * dy + dy) by (nonlinear_arith)
            requires a == dx;
    }
    if b == dy {
        assert((a + 1) * dy <= dx * dy) by (nonlinear_arith)
            requires a + 1 <= dx, 0 <= dy;
        assert((b + 1) * dx == dy * dx + dx) by (nonlinear_arith)
            requires b == dy;
    }
}

proof fn lemma_x_between(x0: int, x1: int, s: int, a: int, d: int)
    requires
        d == (if x1 >= x0 { x1 - x0 } else { x0 - x1 }),
        s == (if x0 < x1 { 1int } else { -1int }),
        0 <= a <= d,
    ensures
        x0 <= x1 ==> x0 <= x0 + s * a <= x1,
        x1 < x0 ==> x1 <= x0 + s * a <= x0,
{
    if x0 < x1 {
        assert(s * a == a) by (nonlinear_arith) requires s == 1;
    } else {
        assert(s * a == -a) by (nonlinear_arith) requires s == -1;
    }
}

proof fn lemma_at_end(x0: int, x1: int, s: int, a: int, d: int)
    requires
        d == (if x1 >= x0 { x1 - x0 } else { x0 - x1 }),
        s == (if x0 < x1 { 1int } else { -1int }),
        0 <= a <= d,
    ensures
        (x0 + s * a == x1) <==> a == d,
{
    if x0 < x1 {
        assert(s * a == a) by (nonlinear_arith) requires s == 1;
    } else {
        assert(s * a == -a) by (nonlinear_arith) requires s == -1;
    }
}

proof fn lemma_advance(x0: int, s: int, a: int, na: int)
    ensures
        x0 + s * (a + 1) == x0 + s * a + s,
{
    assert(s * (a + 1) == s * a + s) by (nonlinear_arith);
}

proof fn lemma_reach(x0: int, x1: int, s: int, d: int)
    requires
        d == (if x1 >= x0 { x1 - x0 } else { x0 - x1 }),
        s == (if x0 < x1 { 1int } else { -1int }),
    ensures
        x0 + s * d == x1,
{
    if x0 < x1 {
        assert(s * d == d) by (nonlinear_arith) requires s == 1;
    } else {
        assert(s * d == -d) by (nonlinear_arith) requires s == -1;
    }
}

/// Shape of the step sequence from `(a, b)`: it starts at `(a, b)`, ends at
/// `(dx, dy)`, stays inside the box, and every move advances x, y, or both by one.
proof fn lemma_line_steps_shape(dx: int, dy: int, a: int, b: int)
    requires
        0 <= a <= dx,
        0 <= b <= dy,
    ensures
        line_steps(dx, dy, a, b).len() >= 1,
        line_steps(dx, dy, a, b)[0] == (a, b),
        line_steps(dx, dy, a, b).last() == (dx, dy),
        forall|k: int| 0 <= k < line_steps(dx, dy, a, b).len() ==> {
            let o = #[trigger] line_steps(dx, dy, a, b)[k];
            a <= o.0 <= dx && b <= o.1 <= dy
        },
        forall|k: int| 0 <= k < line_steps(dx, dy, a, b).len() - 1 ==> {
            let o = #[trigger] line_steps(dx, dy, a, b)[k];
            let n = line_steps(dx, dy, a, b)[k + 1];
            (n == (o.0 + 1, o.1) || n == (o.0, o.1 + 1) || n == (o.0 + 1, o.1 + 1))
        },
    decreases (dx - a) + (dy - b),
{
    if a == dx && b == dy {
    } else {
        lemma_steps_stay_in_box(dx, dy, a, b);
        let e2 = 2 * ((b + 1) * dx - (a + 1) * dy);
        let na = if e2 >= -dy { a + 1 } else { a };
        let nb = if e2 <= dx { b + 1 } else { b };
        lemma_line_steps_shape(dx, dy, na, nb);
        let rest = line_steps(dx, dy, na, nb);
        let all = line_steps(dx, dy, a, b);
        assert(all == seq![(a, b)] + rest);
        assert forall|k: int| 0 <= k < all.len() - 1 implies {
            let o = #[trigger] all[k];
            let n = all[k + 1];
            (n == (o.0 + 1, o.1) || n == (o.0, o.1 + 1) || n == (o.0 + 1, o.1 + 1))
        } by {
            if k > 0 {
                assert(all[k] == rest[k - 1]);
                assert(all[k + 1] == rest[k]);
            }
        }
        assert forall|k: int| 0 <= k < all.len() implies {
            let o = #[trigger] all[k];
            a <= o.0 <= dx && b <= o.1 <= dy
        } by {
            if k > 0 {
                assert(all[k] == rest[k - 1]);
            }
        }
    }
}

/// The line from `(x0, y0)` to `(x1, y1)` starts at `(x0, y0)`, ends at
/// `(x1, y1)`, never leaves the bounding box of its ends, and consecutive
/// points are neighbours (they differ by one in x, in y, or in both).
pub proof fn lemma_line_points_shape(x0: int, y0: int, x1: int, y1: int)
    ensures
        line_points(x0, y0, x1, y1).len() >= 1,
        line_points(x0, y0, x1, y1)[0] == (x0, y0),
        line_points(x0, y0, x1, y1).last() == (x1, y1),
        forall|k: int| 0 <= k < line_points(x0, y0, x1, y1).len() ==> {
            let p = #[trigger] line_points(x0, y0, x1, y1)[k];
            &&& (if x0 <= x1 { x0 <= p.0 <= x1 } else { x1 <= p.0 <= x0 })
            &&& (if y0 <= y1 { y0 <= p.1 <= y1 } else { y1 <= p.1 <= y0 })
        },
        forall|k: int| 0 <= k < line_points(x0, y0, x1, y1).len() - 1 ==> {
            let p = #[trigger] line_points(x0, y0, x1, y1)[k];
            let q = line_points(x0, y0, x1, y1)[k + 1];
            &&& p != q
            &&& -1 <= q.0 - p.0 <= 1
            &&& -1 <= q.1 - p.1 <= 1
        },
{
    let dx = if x1 >= x0 { x1 - x0 } else { x0 - x1 };
    let dy = if y1 >= y0 { y1 - y0 } else { y0 - y1 };
    let sx = if x0 < x1 { 1int } else { -1int };
    let sy = if y0 < y1 { 1int } else { -1int };
    lemma_line_steps_shape(dx, dy, 0, 0);
    let offs = line_steps(dx, dy, 0, 0);
    let pts = line_points(x0, y0, x1, y1);
    assert(pts == offsets_to_points(offs, x0, y0, sx, sy));
    lemma_reach(x0, x1, sx, dx);
    lemma_reach(y0, y1, sy, dy);
    assert(offs[0].0 == 0 && offs[0].1 == 0);
    assert(sx * 0 == 0 && sy * 0 == 0);
    assert(pts[0] == (x0, y0));
    assert(pts.last() == pts[pts.len() - 1]);
    assert(pts[pts.len() - 1] == (x0 + sx * dx, y0 + sy * dy));
    assert forall|k: int| 0 <= k < pts.len() implies {
        let p = #[trigger] pts[k];
        &&& (if x0 <= x1 { x0 <= p.0 <= x1 } else { x1 <= p.0 <= x0 })
        &&& (if y0 <= y1 { y0 <= p.1 <= y1 } else { y1 <= p.1 <= y0 })
    } by {
        let o = offs[k];
        lemma_x_between(x0, x1, sx, o.0, dx);
        lemma_x_between(y0, y1, sy, o.1, dy);
    }
    assert forall|k: int| 0 <= k < pts.len() - 1 implies {
        let p = #[trigger] pts[k];
        let q = pts[k + 1];
        &&& p != q
        &&& -1 <= q.0 - p.0 <= 1
        &&& -1 <= q.1 - p.1 <= 1
    } by {
        let o = offs[k];
        let n = offs[k + 1];
        lemma_advance(x0, sx, o.0, n.0);
        lemma_advance(y0, sy, o.1, n.1);
        assert(sx == 1 || sx == -1);
        assert(sy == 1 || sy == -1);
    }
}

/// Setting a pixel lights exactly that pixel, if it is on the canvas.
pub proof fn lemma_set_lit(before: &BrailleCanvas, after: &BrailleCanvas, px: int, py: int)
    requires
        before.dots_post(after, px, py),
    ensures
        forall|qx: int, qy: int| #[trigger] after.lit(qx, qy) <==> (before.lit(qx, qy)
            || (qx == px && qy == py && before.in_bounds(px, py))),
{
    assert forall|qx: int, qy: int| #[trigger] after.lit(qx, qy) <==> (before.lit(qx, qy)
        || (qx == px && qy == py && before.in_bounds(px, py))) by {
        if before.in_bounds(qx, qy) {
            let c = before.cell(qx / 2, qy / 4);
            let q = dot_bit(qy % 4, qx % 2);
            let p = dot_bit(py % 4, px % 2);
            lemma_dot_bit_is_bit(qy % 4, qx % 2);
            lemma_dot_bit_is_bit(py % 4, px % 2);
            assert(after.in_bounds(qx, qy));
            if before.in_bounds(px, py) && qx / 2 == px / 2 && qy / 4 == py / 4 {
                assert(after.cell(qx / 2, qy / 4) == c | p);
                assert((c | p) & q != 0 <==> (c & q != 0 || p & q != 0)) by (bit_vector);
                assert(q & p == p & q) by (bit_vector);
                if qx != px || qy != py {
                    assert(qx % 2 != px % 2 || qy % 4 != py % 4);
                    lemma_dot_bits_distinct(qy % 4, qx % 2, py % 4, px % 2);
                }
            }
        }
    }
}

/// A canvas whose cells are all zero has no dot set.
pub proof fn lemma_blank_has_no_dots(c: &BrailleCanvas)
    requires
        forall|cx: int, cy: int| 0 <= cx < c.width() && 0 <= cy < c.height() ==> #[trigger] c.cell(cx, cy) == 0,
    ensures
        forall|px: int, py: int| !(#[trigger] c.lit(px, py)),
{
    assert forall|px: int, py: int| !(#[trigger] c.lit(px, py)) by {
        if c.in_bounds(px, py) {
            let q = dot_bit(py % 4, px % 2);
            assert(c.cell(px / 2, py / 4) == 0);
            assert(0u8 & q == 0) by (bit_vector);
        }
    }
}

/// The lit dots determine the canvas: two canvases of the same size with the
/// same lit pixels hold the same cells.
pub proof fn lemma_dots_determine_cells(c1: &BrailleCanvas, c2: &BrailleCanvas)
    requires
        c1.width() == c2.width(),
        c1.height() == c2.height(),
        forall|px: int, py: int| #[trigger] c1.lit(px, py) == c2.lit(px, py),
    ensures
        forall|cx: int, cy: int| 0 <= cx < c1.width() && 0 <= cy < c1.height() ==> #[trigger] c1.cell(cx, cy) == c2.cell(cx, cy),
{
    assert forall|cx: int, cy: int| 0 <= cx < c1.width() && 0 <= cy < c1.height() implies #[trigger] c1.cell(cx, cy) == c2.cell(cx, cy) by {
        let a = c1.cell(cx, cy);
        let b = c2.cell(cx, cy);
        assert(c1.lit(2 * cx, 4 * cy) == c2.lit(2 * cx, 4 * cy));
        assert(c1.lit(2 * cx, 4 * cy + 1) == c2.lit(2 * cx, 4 * cy + 1));
        assert(c1.lit(2 * cx, 4 * cy + 2) == c2.lit(2 * cx, 4 * cy + 2));
        assert(c1.lit(2 * cx, 4 * cy + 3) == c2.lit(2 * cx, 4 * cy + 3));
        assert(c1.lit(2 * cx + 1, 4 * cy) == c2.lit(2 * cx + 1, 4 * cy));
        assert(c1.lit(2 * cx + 1, 4 * cy + 1) == c2.lit(2 * cx + 1, 4 * cy + 1));
        assert(c1.lit(2 * cx + 1, 4 * cy + 2) == c2.lit(2 * cx + 1, 4 * cy + 2));
        assert(c1.lit(2 * cx + 1, 4 * cy + 3) == c2.lit(2 * cx + 1, 4 * cy + 3));
        assert(
            ((a & 0x01u8 != 0) == (b & 0x01u8 != 0)) && ((a & 0x02u8 != 0) == (b & 0x02u8 != 0))
            && ((a & 0x04u8 != 0) == (b & 0x04u8 != 0)) && ((a & 0x40u8 != 0) == (b & 0x40u8 != 0))
            && ((a & 0x08u8 != 0) == (b & 0x08u8 != 0)) && ((a & 0x10u8 != 0) == (b & 0x10u8 != 0))
            && ((a & 0x20u8 != 0) == (b & 0x20u8 != 0)) && ((a & 0x80u8 != 0) == (b & 0x80u8 != 0))
            ==> a == b
        ) by (bit_vector);
    }
}

/// Setting two pixels gives the same canvas in either order, and setting a
/// pixel twice is the same as setting it once.
pub proof fn lemma_set_order_irrelevant(
    c0: &BrailleCanvas,
    c1: &BrailleCanvas,
    c2: &BrailleCanvas,
    d1: &BrailleCanvas,
    d2: &BrailleCanvas,
    p: (int, int),
    q: (int, int),
)
    requires
        c0.set_post(c1, p.0, p.1),
        c1.set_post(c2, q.0, q.1),
        c0.set_post(d1, q.0, q.1),
        d1.set_post(d2, p.0, p.1),
    ensures
        c2.width() == d2.width() && c2.height() == d2.height(),
        forall|cx: int, cy: int| 0 <= cx < c2.width() && 0 <= cy < c2.height() ==> #[trigger] c2.cell(cx, cy) == d2.cell(cx, cy),
        p == q ==> forall|cx: int, cy: int| 0 <= cx < c2.width() && 0 <= cy < c2.height() ==> #[trigger] c2.cell(cx, cy) == c1.cell(cx, cy),
{
    lemma_set_lit(c0, c1, p.0, p.1);
    lemma_set_lit(c1, c2, q.0, q.1);
    lemma_set_lit(c0, d1, q.0, q.1);
    lemma_set_lit(d1, d2, p.0, p.1);
    assert forall|px: int, py: int| #[trigger] c2.lit(px, py) == d2.lit(px, py) by {
        assert(c1.lit(px, py) == (c0.lit(px, py) || (px == p.0 && py == p.1 && c0.in_bounds(p.0, p.1))));
        assert(d1.lit(px, py) == (c0.lit(px, py) || (px == q.0 && py == q.1 && c0.in_bounds(q.0, q.1))));
    }
    lemma_dots_determine_cells(c2, d2);
    if p == q {
        assert forall|px: int, py: int| #[trigger] c2.lit(px, py) == c1.lit(px, py) by {}
        lemma_dots_determine_cells(c2, c1);
    }
}

pub open spec fn is_single_bit(v: u8) -> bool {
    v == 1 || v == 2 || v == 4 || v == 8 || v == 16 || v == 32 || v == 64 || v == 128
}

proof fn lemma_dot_bit_is_bit(r: int, c: int)
    ensures
        is_single_bit(dot_bit(r, c)),
        dot_bit(r, c) & dot_bit(r, c) != 0,
{
    let v = dot_bit(r, c);
    assert(is_single_bit(v) ==> v & v != 0) by (bit_vector);
}

proof fn lemma_dot_bits_distinct(r1: int, c1: int, r2: int, c2: int)
    requires
        0 <= r1 < 4,
        0 <= r2 < 4,
        0 <= c1 < 2,
        0 <= c2 < 2,
        r1 != r2 || c1 != c2,
    ensures
        dot_bit(r1, c1) & dot_bit(r2, c2) == 0,
{
    let u = dot_bit(r1, c1);
    let v = dot_bit(r2, c2);
    lemma_dot_bit_is_bit(r1, c1);
    lemma_dot_bit_is_bit(r2, c2);
    assert(u != v);
    assert(is_single_bit(u) && is_single_bit(v) && u != v ==> u & v == 0) by (bit_vector);
}



proof fn lemma_cell_index(cx: int, cy: int, w: int, h: int)
    requires
        0 <= cx < w,
        0 <= cy < h,
    ensures
        0 <= cy * w + cx < w * h,
{
    assert(cy * w + cx < w * h) by (nonlinear_arith)
        requires 0 <= cx < w, 0 <= cy < h;
    assert(0 <= cy * w) by (nonlinear_arith)
        requires 0 <= cy, 0 <= w;
}

proof fn lemma_cell_index_injective(x1: int, y1: int, x2: int, y2: int, w: int)
    requires
        0 <= x1 < w,
        0 <= x2 < w,
        0 <= y1,
        0 <= y2,
    ensures
        (y1 * w + x1 == y2 * w + x2) <==> (x1 == x2 && y1 == y2),
{
    if y1 * w + x1 == y2 * w + x2 {
        if y1 < y2 {
            assert(y1 * w + w <= y2 * w) by (nonlinear_arith)
                requires y1 < y2, 0 <= w;
        } else if y2 < y1 {
            assert(y2 * w + w <= y1 * w) by (nonlinear_arith)
                requires y2 < y1, 0 <= w;
        }
    }
}

} // verus!
