//! Braille-dot canvas and numbers for terminal charts.
//!
//! A character cell holds a grid of braille dots, two across and four down,
//! so a canvas has twice as many pixels across as cells, and four times as
//! many down.
use vstd::prelude::*;

use crate::colors::Dash;
use crate::text;

verus! {

pub struct BrailleCanvas {
    pub w: usize,
    pub px_w: usize,
    pub px_h: usize,
    /// The dots of each cell, one bit each.
    pub cells: Vec<u8>,
    /// The colour of each cell.
    pub colors: Vec<u8>,
}

/// The bit of a dot in its cell.
pub open spec fn dot_bit(x: int, y: int) -> u8 {
    let right = x % 2 == 1;
    let row = y % 4;
    if row == 0 {
        if right {
            0x08
        } else {
            0x01
        }
    } else if row == 1 {
        if right {
            0x10
        } else {
            0x02
        }
    } else if row == 2 {
        if right {
            0x20
        } else {
            0x04
        }
    } else {
        if right {
            0x80
        } else {
            0x40
        }
    }
}

fn bit_of(x: usize, y: usize) -> (r: u8)
    ensures
        r == dot_bit(x as int, y as int),
{
    let right: bool = x % 2 == 1;
    match y % 4 {
        0 => if right {
            0x08
        } else {
            0x01
        },
        1 => if right {
            0x10
        } else {
            0x02
        },
        2 => if right {
            0x20
        } else {
            0x04
        },
        _ => if right {
            0x80
        } else {
            0x40
        },
    }
}

/// Setting one dot of a cell leaves the others as they are.
proof fn lemma_set_dot(b: u8, x: int, y: int, u: int, v: int)
    ensures
        (((b | dot_bit(x, y)) & dot_bit(u, v)) != 0) == ((b & dot_bit(u, v)) != 0 || (x % 2 == u % 2
            && y % 4 == v % 4)),
{
    let m = dot_bit(x, y);
    let n = dot_bit(u, v);
    assert((((b | m) & n) != 0) == ((b & n) != 0 || m == n)) by (bit_vector)
        requires
            m == 1 || m == 2 || m == 4 || m == 8 || m == 16 || m == 32 || m == 64 || m == 128,
            n == 1 || n == 2 || n == 4 || n == 8 || n == 16 || n == 32 || n == 64 || n == 128,
    ;
}

/// The cell in column `c` of row `r` of a canvas so many cells wide.
pub open spec fn cell_index(w: int, r: int, c: int) -> int {
    r * w + c
}

/// Cells stand in their rows, each at its own place.
proof fn lemma_cell_index(w: int, h: int, r: int, c: int)
    requires
        0 <= c < w,
        0 <= r < h,
    ensures
        0 <= cell_index(w, r, c) < w * h,
        cell_index(w, r, c) / w == r,
        cell_index(w, r, c) % w == c,
{
    assert(0 <= r * w + c < w * h) by (nonlinear_arith)
        requires
            0 <= c < w,
            0 <= r < h,
    ;
    vstd::arithmetic::div_mod::lemma_fundamental_div_mod_converse(r * w + c, w, r, c);
}

impl BrailleCanvas {
    /// Height in cells.
    pub open spec fn h(&self) -> int {
        self.px_h as int / 4
    }

    /// There are so many pixels and cells as the size says.
    pub open spec fn wf(&self) -> bool {
        &&& self.px_w == 2 * self.w
        &&& self.px_h == 4 * self.h()
        &&& self.cells@.len() == self.w * self.h()
        &&& self.colors@.len() == self.w * self.h()
    }

    /// The pixel is on the canvas.
    pub open spec fn has(&self, x: int, y: int) -> bool {
        0 <= x < self.px_w && 0 <= y < self.px_h
    }

    /// The pixel is on the canvas and set.
    pub open spec fn lit(&self, x: int, y: int) -> bool {
        self.has(x, y) && self.cells@[cell_index(self.w as int, y / 4, x / 2)] & dot_bit(x, y) != 0
    }

    /// The colour of a cell.
    pub open spec fn color_at(&self, r: int, c: int) -> u8 {
        self.colors@[cell_index(self.w as int, r, c)]
    }

    pub fn new(w: usize, h: usize) -> (r: Self)
        requires
            2 * w <= usize::MAX,
            4 * h <= usize::MAX,
            w * h <= usize::MAX,
        ensures
            r.wf(),
            r.w == w,
            r.h() == h,
            forall|x: int, y: int| !r.lit(x, y),
            forall|row: int, c: int| 0 <= row < h && 0 <= c < w ==> r.color_at(row, c) == 0,
    {
        let r: BrailleCanvas = BrailleCanvas {
            w,
            px_w: w * 2,
            px_h: h * 4,
            cells: vec![0u8; w * h],
            colors: vec![0u8; w * h],
        };
        proof {
            assert forall|x: int, y: int| !r.lit(x, y) by {
                if r.has(x, y) {
                    lemma_cell_index(w as int, h as int, y / 4, x / 2);
                    let n = dot_bit(x, y);
                    assert(0u8 & n == 0) by (bit_vector);
                }
            }
            assert forall|row: int, c: int| 0 <= row < h && 0 <= c < w implies r.color_at(row, c)
                == 0 by {
                lemma_cell_index(w as int, h as int, row, c);
            }
        }
        r
    }

    /// Set a pixel, if it is on the canvas; its cell takes the colour.
    pub fn dot(&mut self, x: i64, y: i64, color: u8)
        requires
            old(self).wf(),
        ensures
            final(self).wf(),
            final(self).w == old(self).w,
            final(self).px_h == old(self).px_h,
            forall|u: int, v: int| #[trigger]
                final(self).lit(u, v) == (old(self).lit(u, v) || (old(self).has(u, v) && u == x
                    && v == y)),
            forall|r: int, c: int|
                0 <= r < old(self).h() && 0 <= c < old(self).w ==> #[trigger] final(self).color_at(
                    r,
                    c,
                ) == if old(self).has(x as int, y as int) && r == y as int / 4 && c == x as int / 2 {
                    color
                } else {
                    old(self).color_at(r, c)
                },
    {
        if x < 0 || y < 0 || x as u64 >= self.px_w as u64 || y as u64 >= self.px_h as u64 {
            return;
        }
        let px: usize = x as usize;
        let py: usize = y as usize;
        let ghost w = self.w as int;
        let ghost h = self.h();
        proof {
            lemma_cell_index(w, h, py as int / 4, px as int / 2);
            assert((py / 4) * w <= w * h) by (nonlinear_arith)
                requires
                    0 <= py / 4 <= h,
                    0 <= w,
            ;
            assert(self.cells.len() == w * h);
        }
        let idx: usize = py / 4 * self.w + px / 2;
        let bit: u8 = bit_of(px, py);
        let was: u8 = self.cells[idx];
        self.cells.set(idx, was | bit);
        self.colors.set(idx, color);
        proof {
            assert forall|u: int, v: int| #[trigger]
                self.lit(u, v) == (old(self).lit(u, v) || (old(self).has(u, v) && u == x && v
                    == y)) by {
                if self.has(u, v) {
                    lemma_cell_index(w, h, v / 4, u / 2);
                    if cell_index(w, v / 4, u / 2) == idx {
                        lemma_set_dot(was, px as int, py as int, u, v);
                    }
                }
            }
            assert forall|r: int, c: int| 0 <= r < h && 0 <= c < w implies #[trigger] self.color_at(
                r,
                c,
            ) == if r == py as int / 4 && c == px as int / 2 {
                color
            } else {
                old(self).color_at(r, c)
            } by {
                lemma_cell_index(w, h, r, c);
            }
        }
    }

    /// The braille character and the colour of a cell with any dot set.
    pub fn cell_char(&self, row: usize, col: usize) -> (r: Option<(char, u8)>)
        requires
            self.wf(),
            row < self.h(),
            col < self.w,
        ensures
            ({
                let bits = self.cells@[cell_index(self.w as int, row as int, col as int)];
                if bits == 0 {
                    r is None
                } else {
                    &&& r is Some
                    &&& (r->0).0 as int == 0x2800 + bits
                    &&& (r->0).1 == self.color_at(row as int, col as int)
                }
            }),
    {
        proof {
            lemma_cell_index(self.w as int, self.h(), row as int, col as int);
            assert(row * self.w <= self.w * self.h()) by (nonlinear_arith)
                requires
                    row <= self.h(),
            ;
            assert(self.cells.len() == self.w * self.h());
        }
        let idx: usize = row * self.w + col;
        let bits: u8 = self.cells[idx];
        if bits == 0 {
            return None;
        }
        match text::char_of(0x2800 + bits as u32) {
            Some(ch) => Some((ch, self.colors[idx])),
            None => None,
        }
    }
}

// ---------------------------------------------------------------------------
// Lines
// ---------------------------------------------------------------------------
pub open spec fn distance(a: int, b: int) -> int {
    if a < b {
        b - a
    } else {
        a - b
    }
}

/// The longer of the two distances that a line covers: so many steps it has.
pub open spec fn line_steps(x0: int, y0: int, x1: int, y1: int) -> int {
    if distance(x0, x1) >= distance(y0, y1) {
        distance(x0, x1)
    } else {
        distance(y0, y1)
    }
}

/// How far along one axis a line has come after `k` of `n` steps, if it is to
/// cover `d` in all: `k * d / n`, rounded to the nearest, halves up.
pub open spec fn progress(d: int, n: int, k: int) -> int {
    if n == 0 {
        0
    } else {
        (2 * (k * d) + n) / (2 * n)
    }
}

/// From `a` towards `b`, so far.
pub open spec fn towards(a: int, b: int, by: int) -> int {
    if a < b {
        a + by
    } else {
        a - by
    }
}

/// The pixel that a line reaches after `k` steps.
pub open spec fn line_point(x0: int, y0: int, x1: int, y1: int, k: int) -> (int, int) {
    let n = line_steps(x0, y0, x1, y1);
    (
        towards(x0, x1, progress(distance(x0, x1), n, k)),
        towards(y0, y1, progress(distance(y0, y1), n, k)),
    )
}

/// The pattern draws the pixel that the line reaches after `k` steps.
pub open spec fn stroke_covers(dash: Dash, phase: int, k: int) -> bool {
    dash.covered((phase + k) % 0x1_0000_0000)
}

/// The pixel is drawn in the first `n` pixels of the line, whose pattern
/// starts at `phase`.
pub open spec fn on_stroke(
    from: (int, int),
    to: (int, int),
    dash: Dash,
    phase: int,
    n: int,
    x: int,
    y: int,
) -> bool {
    exists|k: int|
        0 <= k < n && stroke_covers(dash, phase, k) && #[trigger] line_point(
            from.0,
            from.1,
            to.0,
            to.1,
            k,
        ) == (x, y)
}

/// A drawn pixel of the line is on the canvas and in this cell.
pub open spec fn stroke_in_cell(
    canvas: BrailleCanvas,
    from: (int, int),
    to: (int, int),
    dash: Dash,
    phase: int,
    n: int,
    r: int,
    c: int,
) -> bool {
    exists|k: int|
        0 <= k < n && stroke_covers(dash, phase, k) && ({
            let p = #[trigger] line_point(from.0, from.1, to.0, to.1, k);
            canvas.has(p.0, p.1) && p.1 / 4 == r && p.0 / 2 == c
        })
}

/// `after` is `before` with the first `n` pixels of the line drawn.
pub open spec fn stroked(
    before: BrailleCanvas,
    after: BrailleCanvas,
    from: (int, int),
    to: (int, int),
    color: u8,
    dash: Dash,
    phase: int,
    n: int,
) -> bool {
    &&& after.wf()
    &&& after.w == before.w
    &&& after.px_h == before.px_h
    &&& forall|x: int, y: int| #[trigger]
        after.lit(x, y) == (before.lit(x, y) || (before.has(x, y) && on_stroke(
            from,
            to,
            dash,
            phase,
            n,
            x,
            y,
        )))
    &&& forall|r: int, c: int|
        0 <= r < before.h() && 0 <= c < before.w ==> #[trigger] after.color_at(r, c)
            == if stroke_in_cell(before, from, to, dash, phase, n, r, c) {
            color
        } else {
            before.color_at(r, c)
        }
}

/// Progress is the quotient that it says it is.
proof fn lemma_progress(d: int, n: int, k: int, q: int)
    requires
        n > 0,
        2 * (q * n) <= 2 * (k * d) + n < 2 * (q * n) + 2 * n,
    ensures
        progress(d, n, k) == q,
{
    let a = 2 * (k * d) + n;
    assert(a == q * (2 * n) + (a - 2 * (q * n))) by (nonlinear_arith);
    vstd::arithmetic::div_mod::lemma_fundamental_div_mod_converse(a, 2 * n, q, a - 2 * (q * n));
}

proof fn lemma_progress_bounds(d: int, n: int, k: int)
    requires
        n > 0,
    ensures
        ({
            let q = progress(d, n, k);
            2 * (q * n) <= 2 * (k * d) + n < 2 * (q * n) + 2 * n
        }),
{
    let a = 2 * (k * d) + n;
    let q = progress(d, n, k);
    vstd::arithmetic::div_mod::lemma_fundamental_div_mod(a, 2 * n);
    assert((2 * n) * q == 2 * (q * n)) by (nonlinear_arith);
    assert(0 <= a % (2 * n) < 2 * n) by (nonlinear_arith)
        requires
            n > 0,
    ;
}

/// Where a line stands after no step and after all of them.
proof fn lemma_progress_ends(d: int, n: int)
    requires
        0 <= d <= n,
    ensures
        progress(d, n, 0) == 0,
        progress(d, n, n) == d,
{
    if n > 0 {
        assert(0 * d == 0);
        lemma_progress(d, n, 0, 0);
        assert(n * d == d * n) by (nonlinear_arith);
        lemma_progress(d, n, n, d);
    }
}

/// Along the longer way every step counts.
proof fn lemma_progress_major(n: int, k: int)
    requires
        n > 0,
    ensures
        progress(n, n, k) == k,
{
    lemma_progress(n, n, k, k);
}

/// Progress grows by one or not at all, and by one just where the error term
/// says so.
proof fn lemma_progress_next(d: int, n: int, k: int)
    requires
        0 <= d <= n,
        0 < n,
        0 <= k < n,
    ensures
        ({
            let q = progress(d, n, k);
            &&& progress(d, n, k + 1) == if 2 * (q * n) + n <= 2 * (k * d) + 2 * d {
                q + 1
            } else {
                q
            }
            &&& 0 <= q <= k
        }),
{
    let q = progress(d, n, k);
    lemma_progress_bounds(d, n, k);
    assert((k + 1) * d == k * d + d) by (nonlinear_arith);
    assert((q + 1) * n == q * n + n) by (nonlinear_arith);
    if 2 * (q * n) + n <= 2 * (k * d) + 2 * d {
        lemma_progress(d, n, k + 1, q + 1);
    } else {
        lemma_progress(d, n, k + 1, q);
    }
    assert(0 <= k * d <= k * n) by (nonlinear_arith)
        requires
            0 <= d <= n,
            0 <= k,
    ;
    assert(0 <= q <= k) by (nonlinear_arith)
        requires
            0 < n,
            0 <= k * d <= k * n,
            2 * (q * n) <= 2 * (k * d) + n < 2 * (q * n) + 2 * n,
    ;
}

/// One more pixel of a line.
proof fn lemma_stroked_next(
    before: BrailleCanvas,
    mid: BrailleCanvas,
    after: BrailleCanvas,
    from: (int, int),
    to: (int, int),
    color: u8,
    dash: Dash,
    phase: int,
    n: int,
)
    requires
        before.wf(),
        0 <= n,
        stroked(before, mid, from, to, color, dash, phase, n),
        ({
            let p = line_point(from.0, from.1, to.0, to.1, n);
            if stroke_covers(dash, phase, n) {
                &&& after.wf()
                &&& after.w == mid.w
                &&& after.px_h == mid.px_h
                &&& forall|u: int, v: int| #[trigger]
                    after.lit(u, v) == (mid.lit(u, v) || (mid.has(u, v) && u == p.0 && v == p.1))
                &&& forall|r: int, c: int|
                    0 <= r < mid.h() && 0 <= c < mid.w ==> #[trigger] after.color_at(r, c)
                        == if mid.has(p.0, p.1) && r == p.1 / 4 && c == p.0 / 2 {
                        color
                    } else {
                        mid.color_at(r, c)
                    }
            } else {
                after == mid
            }
        }),
    ensures
        stroked(before, after, from, to, color, dash, phase, n + 1),
{
    let p = line_point(from.0, from.1, to.0, to.1, n);
    assert forall|x: int, y: int| #[trigger]
        after.lit(x, y) == (before.lit(x, y) || (before.has(x, y) && on_stroke(
            from,
            to,
            dash,
            phase,
            n + 1,
            x,
            y,
        ))) by {
        assert(mid.lit(x, y) == (before.lit(x, y) || (before.has(x, y) && on_stroke(
            from,
            to,
            dash,
            phase,
            n,
            x,
            y,
        ))));
        if on_stroke(from, to, dash, phase, n, x, y) {
            let k = choose|k: int|
                0 <= k < n && stroke_covers(dash, phase, k) && #[trigger] line_point(
                    from.0,
                    from.1,
                    to.0,
                    to.1,
                    k,
                ) == (x, y);
            assert(0 <= k < n + 1 && line_point(from.0, from.1, to.0, to.1, k) == (x, y));
        }
        if on_stroke(from, to, dash, phase, n + 1, x, y) {
            let k = choose|k: int|
                0 <= k < n + 1 && stroke_covers(dash, phase, k) && #[trigger] line_point(
                    from.0,
                    from.1,
                    to.0,
                    to.1,
                    k,
                ) == (x, y);
            if k < n {
                assert(on_stroke(from, to, dash, phase, n, x, y));
            }
        }
    }
    assert forall|r: int, c: int|
        0 <= r < before.h() && 0 <= c < before.w implies #[trigger] after.color_at(r, c)
        == if stroke_in_cell(before, from, to, dash, phase, n + 1, r, c) {
        color
    } else {
        before.color_at(r, c)
    } by {
        assert(mid.color_at(r, c) == if stroke_in_cell(before, from, to, dash, phase, n, r, c) {
            color
        } else {
            before.color_at(r, c)
        });
        if stroke_in_cell(before, from, to, dash, phase, n, r, c) {
            let k = choose|k: int|
                0 <= k < n && stroke_covers(dash, phase, k) && ({
                    let p = #[trigger] line_point(from.0, from.1, to.0, to.1, k);
                    before.has(p.0, p.1) && p.1 / 4 == r && p.0 / 2 == c
                });
            let q = line_point(from.0, from.1, to.0, to.1, k);
            assert(0 <= k < n + 1 && before.has(q.0, q.1));
            assert(stroke_in_cell(before, from, to, dash, phase, n + 1, r, c));
        }
        if stroke_in_cell(before, from, to, dash, phase, n + 1, r, c) {
            let k = choose|k: int|
                0 <= k < n + 1 && stroke_covers(dash, phase, k) && ({
                    let p = #[trigger] line_point(from.0, from.1, to.0, to.1, k);
                    before.has(p.0, p.1) && p.1 / 4 == r && p.0 / 2 == c
                });
            let q = line_point(from.0, from.1, to.0, to.1, k);
            if k < n {
                assert(0 <= k < n && before.has(q.0, q.1));
                assert(stroke_in_cell(before, from, to, dash, phase, n, r, c));
            }
        }
    }
}

impl BrailleCanvas {
    /// Draw a line from one pixel to another, both ends included, with the
    /// pattern of `dash`. `phase` is the place in the pattern: it moves on by
    /// one with every pixel, drawn or not, so that a pattern goes on over the
    /// pieces of a curve.
    pub fn line_styled(
        &mut self,
        from: (i64, i64),
        to: (i64, i64),
        color: u8,
        dash: Dash,
        phase: &mut u32,
    )
        requires
            old(self).wf(),
        ensures
            ({
                let a = (from.0 as int, from.1 as int);
                let b = (to.0 as int, to.1 as int);
                let n = line_steps(a.0, a.1, b.0, b.1) + 1;
                &&& stroked(*old(self), *final(self), a, b, color, dash, *old(phase) as int, n)
                &&& *final(phase) == (*old(phase) + n) % 0x1_0000_0000
            }),
    {
        let ghost a = (from.0 as int, from.1 as int);
        let ghost b = (to.0 as int, to.1 as int);
        let ghost n = line_steps(a.0, a.1, b.0, b.1);
        let ghost start = *phase as int;
        let mut x: i64 = from.0;
        let mut y: i64 = from.1;
        let dx: i128 = if from.0 < to.0 {
            to.0 as i128 - from.0 as i128
        } else {
            from.0 as i128 - to.0 as i128
        };
        let dy: i128 = if from.1 < to.1 {
            to.1 as i128 - from.1 as i128
        } else {
            from.1 as i128 - to.1 as i128
        };
        let mut err: i128 = dx - dy;
        let ghost mut k: int = 0;
        let ghost mut p: int = 0;
        let ghost mut q: int = 0;
        proof {
            lemma_progress_ends(dx as int, n);
            lemma_progress_ends(dy as int, n);
            assert(0 * dx == 0 && 0 * dy == 0);
        }
        loop
            invariant
                old(self).wf(),
                self.wf(),
                a == (from.0 as int, from.1 as int),
                b == (to.0 as int, to.1 as int),
                n == line_steps(a.0, a.1, b.0, b.1),
                dx == distance(a.0, b.0),
                dy == distance(a.1, b.1),
                start == *old(phase),
                0 <= k <= n,
                p == progress(dx as int, n, k),
                q == progress(dy as int, n, k),
                0 <= p <= dx,
                0 <= q <= dy,
                x == towards(a.0, b.0, p),
                y == towards(a.1, b.1, q),
                (x as int, y as int) == line_point(a.0, a.1, b.0, b.1, k),
                err == q * dx + dx - p * dy - dy,
                -(2 * n) <= err <= 2 * n,
                *phase == (start + k) % 0x1_0000_0000,
                stroked(*old(self), *self, a, b, color, dash, start, k),
            decreases n - k,
        {
            let ghost mid = *self;
            if dash.covers(*phase) {
                self.dot(x, y, color);
            }
            *phase = phase.wrapping_add(1);
            proof {
                lemma_stroked_next(*old(self), mid, *self, a, b, color, dash, start, k);
                lemma_ends(a, b, k);
            }
            if x == to.0 && y == to.1 {
                return;
            }
            let ghost p0 = p;
            let ghost q0 = q;
            proof {
                lemma_error_step(dx as int, dy as int, n, k);
                assert(p0 * dy + dy == (p0 + 1) * dy) by (nonlinear_arith);
                assert(q0 * dx + dx == (q0 + 1) * dx) by (nonlinear_arith);
            }
            let e2: i128 = 2 * err;
            if e2 >= -dy {
                err = err - dy;
                x = if from.0 < to.0 {
                    x + 1
                } else {
                    x - 1
                };
            }
            if e2 <= dx {
                err = err + dx;
                y = if from.1 < to.1 {
                    y + 1
                } else {
                    y - 1
                };
            }
            proof {
                k = k + 1;
                p = progress(dx as int, n, k);
                q = progress(dy as int, n, k);
            }
        }
    }

    /// Draw an unbroken line from one pixel to another, both ends included.
    pub fn line(&mut self, x0: i64, y0: i64, x1: i64, y1: i64, color: u8)
        requires
            old(self).wf(),
        ensures
            stroked(
                *old(self),
                *final(self),
                (x0 as int, y0 as int),
                (x1 as int, y1 as int),
                color,
                Dash::style(0),
                0,
                line_steps(x0 as int, y0 as int, x1 as int, y1 as int) + 1,
            ),
    {
        let mut phase: u32 = 0;
        self.line_styled((x0, y0), (x1, y1), color, Dash::solid(), &mut phase);
    }
}

/// A line is at its end after all its steps and not before.
proof fn lemma_ends(a: (int, int), b: (int, int), k: int)
    requires
        0 <= k <= line_steps(a.0, a.1, b.0, b.1),
    ensures
        line_point(a.0, a.1, b.0, b.1, k) == b <==> k == line_steps(a.0, a.1, b.0, b.1),
{
    let n = line_steps(a.0, a.1, b.0, b.1);
    lemma_progress_ends(distance(a.0, b.0), n);
    lemma_progress_ends(distance(a.1, b.1), n);
    if n > 0 {
        lemma_progress_major(n, k);
    }
}

/// What the error term decides: one step of either axis, or of both.
proof fn lemma_error_step(dx: int, dy: int, n: int, k: int)
    requires
        0 <= dx <= n,
        0 <= dy <= n,
        n == dx || n == dy,
        0 <= k < n,
    ensures
        ({
            let p = progress(dx, n, k);
            let q = progress(dy, n, k);
            let err = q * dx + dx - p * dy - dy;
            &&& progress(dx, n, k + 1) == if 2 * err >= -dy {
                p + 1
            } else {
                p
            }
            &&& progress(dy, n, k + 1) == if 2 * err <= dx {
                q + 1
            } else {
                q
            }
            &&& progress(dx, n, k + 1) <= dx
            &&& progress(dy, n, k + 1) <= dy
            &&& ({
                let p1 = progress(dx, n, k + 1);
                let q1 = progress(dy, n, k + 1);
                -(2 * n) <= q1 * dx + dx - p1 * dy - dy <= 2 * n
            })
        }),
{
    let p = progress(dx, n, k);
    let q = progress(dy, n, k);
    lemma_progress_next(dx, n, k);
    lemma_progress_next(dy, n, k);
    lemma_progress_bounds(dx, n, k);
    lemma_progress_bounds(dy, n, k);
    lemma_progress_bounds(dx, n, k + 1);
    lemma_progress_bounds(dy, n, k + 1);
    lemma_progress_major(n, k);
    lemma_progress_major(n, k + 1);
    lemma_progress_at_most(dx, n, k + 1);
    lemma_progress_at_most(dy, n, k + 1);
}

proof fn lemma_progress_at_most(d: int, n: int, k: int)
    requires
        0 <= d <= n,
        0 < n,
        0 <= k <= n,
    ensures
        0 <= progress(d, n, k) <= d,
{
    let q = progress(d, n, k);
    lemma_progress_bounds(d, n, k);
    assert(0 <= k * d <= n * d) by (nonlinear_arith)
        requires
            0 <= d,
            0 <= k <= n,
    ;
    assert(0 <= q <= d) by (nonlinear_arith)
        requires
            0 < n,
            0 <= k * d <= n * d,
            2 * (q * n) <= 2 * (k * d) + n < 2 * (q * n) + 2 * n,
    ;
}

// ---------------------------------------------------------------------------
// Laws of lines and cells
// ---------------------------------------------------------------------------
/// A line starts at the one pixel and ends at the other.
pub proof fn law_line_has_both_ends(x0: int, y0: int, x1: int, y1: int)
    ensures
        line_point(x0, y0, x1, y1, 0) == (x0, y0),
        line_point(x0, y0, x1, y1, line_steps(x0, y0, x1, y1)) == (x1, y1),
{
    let n = line_steps(x0, y0, x1, y1);
    lemma_progress_ends(distance(x0, x1), n);
    lemma_progress_ends(distance(y0, y1), n);
}

/// A line has no gaps: each of its pixels touches the next one.
pub proof fn law_line_is_connected(x0: int, y0: int, x1: int, y1: int, k: int)
    requires
        0 <= k < line_steps(x0, y0, x1, y1),
    ensures
        ({
            let p = line_point(x0, y0, x1, y1, k);
            let q = line_point(x0, y0, x1, y1, k + 1);
            &&& distance(p.0, q.0) <= 1
            &&& distance(p.1, q.1) <= 1
            &&& p != q
        }),
{
    let n = line_steps(x0, y0, x1, y1);
    lemma_progress_next(distance(x0, x1), n, k);
    lemma_progress_next(distance(y0, y1), n, k);
    lemma_progress_major(n, k);
    lemma_progress_major(n, k + 1);
}

/// An unbroken line on the canvas sets both of its ends.
pub proof fn law_line_sets_its_ends(
    before: BrailleCanvas,
    after: BrailleCanvas,
    from: (int, int),
    to: (int, int),
    color: u8,
)
    requires
        stroked(
            before,
            after,
            from,
            to,
            color,
            Dash::style(0),
            0,
            line_steps(from.0, from.1, to.0, to.1) + 1,
        ),
    ensures
        before.has(from.0, from.1) ==> after.lit(from.0, from.1),
        before.has(to.0, to.1) ==> after.lit(to.0, to.1),
{
    law_line_has_both_ends(from.0, from.1, to.0, to.1);
    let n = line_steps(from.0, from.1, to.0, to.1);
    assert(line_point(from.0, from.1, to.0, to.1, 0) == from);
    assert(line_point(from.0, from.1, to.0, to.1, n) == to);
    assert(stroke_covers(Dash::style(0), 0, 0) && stroke_covers(Dash::style(0), 0, n));
    assert(on_stroke(from, to, Dash::style(0), 0, n + 1, from.0, from.1));
    assert(on_stroke(from, to, Dash::style(0), 0, n + 1, to.0, to.1));
}

/// A cell shows a character just where one of its pixels is set.
pub proof fn law_blank_cell_has_no_pixel(canvas: BrailleCanvas, r: int, c: int)
    requires
        canvas.wf(),
        0 <= r < canvas.h(),
        0 <= c < canvas.w,
    ensures
        canvas.cells@[cell_index(canvas.w as int, r, c)] == 0 <==> forall|x: int, y: int|
            y / 4 == r && x / 2 == c ==> !canvas.lit(x, y),
{
    let b = canvas.cells@[cell_index(canvas.w as int, r, c)];
    if b == 0 {
        assert forall|x: int, y: int| y / 4 == r && x / 2 == c implies !canvas.lit(x, y) by {
            let n = dot_bit(x, y);
            assert(0u8 & n == 0) by (bit_vector);
        }
    }
    if forall|x: int, y: int| y / 4 == r && x / 2 == c ==> !canvas.lit(x, y) {
        let x = 2 * c;
        let y = 4 * r;
        assert(!canvas.lit(x, y) && !canvas.lit(x + 1, y));
        assert(!canvas.lit(x, y + 1) && !canvas.lit(x + 1, y + 1));
        assert(!canvas.lit(x, y + 2) && !canvas.lit(x + 1, y + 2));
        assert(!canvas.lit(x, y + 3) && !canvas.lit(x + 1, y + 3));
        assert(b == 0) by (bit_vector)
            requires
                b & 0x01u8 == 0,
                b & 0x02u8 == 0,
                b & 0x04u8 == 0,
                b & 0x08u8 == 0,
                b & 0x10u8 == 0,
                b & 0x20u8 == 0,
                b & 0x40u8 == 0,
                b & 0x80u8 == 0,
        ;
    }
}


/// A line is straight: no pixel of it is more than half a pixel away from where
/// the straight line is after as many of its steps.
pub proof fn law_line_is_straight(x0: int, y0: int, x1: int, y1: int, k: int)
    ensures
        ({
            let p = line_point(x0, y0, x1, y1, k);
            let n = line_steps(x0, y0, x1, y1);
            &&& n >= distance(x0, x1)
            &&& n >= distance(y0, y1)
            &&& n == distance(x0, x1) || n == distance(y0, y1)
            &&& n > 0 ==> -n <= 2 * ((p.0 - x0) * n - k * (x1 - x0)) <= n
            &&& n > 0 ==> -n <= 2 * ((p.1 - y0) * n - k * (y1 - y0)) <= n
        }),
{
    let n = line_steps(x0, y0, x1, y1);
    if n > 0 {
        lemma_straight(x0, x1, n, k);
        lemma_straight(y0, y1, n, k);
    }
}

proof fn lemma_straight(a: int, b: int, n: int, k: int)
    requires
        n > 0,
    ensures
        ({
            let p = towards(a, b, progress(distance(a, b), n, k));
            -n <= 2 * ((p - a) * n - k * (b - a)) <= n
        }),
{
    let d = distance(a, b);
    let q = progress(d, n, k);
    lemma_progress_bounds(d, n, k);
    if a < b {
        assert((a + q - a) * n == q * n);
    } else {
        assert((a - q - a) * n == -(q * n)) by (nonlinear_arith);
        assert(k * (b - a) == -(k * d)) by (nonlinear_arith)
            requires
                d == a - b,
        ;
    }
}

/// Each of the eight pixels of a cell has a dot of its own in the braille
/// character: the upper three of the left column, the upper three of the right
/// one, and the two lowest.
pub proof fn law_dots_of_a_cell(r: int, c: int)
    ensures
        dot_bit(2 * c, 4 * r) == 0x01,
        dot_bit(2 * c, 4 * r + 1) == 0x02,
        dot_bit(2 * c, 4 * r + 2) == 0x04,
        dot_bit(2 * c + 1, 4 * r) == 0x08,
        dot_bit(2 * c + 1, 4 * r + 1) == 0x10,
        dot_bit(2 * c + 1, 4 * r + 2) == 0x20,
        dot_bit(2 * c, 4 * r + 3) == 0x40,
        dot_bit(2 * c + 1, 4 * r + 3) == 0x80,
{
}

} // verus!
