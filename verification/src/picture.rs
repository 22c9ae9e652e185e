//! Curves on a canvas.
use vstd::prelude::*;

use crate::colors::Dash;
use crate::plot;
use crate::plot::BrailleCanvas;

verus! {

/// What a canvas shows: the pixels that are set, and the colour number of each
/// cell by row and column.
pub struct Picture {
    pub lit: Set<(int, int)>,
    pub tone: Map<(int, int), u8>,
}

/// The pixel is on a canvas of so many cells.
pub open spec fn on_canvas(w: int, h: int, x: int, y: int) -> bool {
    0 <= x < 2 * w && 0 <= y < 4 * h
}

/// Nothing is set.
pub open spec fn blank(w: int, h: int) -> Picture {
    Picture {
        lit: Set::empty(),
        tone: Map::new(|c: (int, int)| 0 <= c.0 < h && 0 <= c.1 < w, |c: (int, int)| 0u8),
    }
}

/// A line, or as much of it as is on the canvas.
pub struct Stroke {
    pub from: (int, int),
    pub to: (int, int),
    pub color: u8,
    pub dash: Dash,
    pub phase: int,
}

/// How many pixels a line has, drawn or not.
pub open spec fn stroke_len(s: Stroke) -> int {
    plot::line_steps(s.from.0, s.from.1, s.to.0, s.to.1) + 1
}

/// A drawn pixel of the line is on the canvas and in this cell.
pub open spec fn touches(w: int, h: int, s: Stroke, r: int, c: int) -> bool {
    exists|k: int|
        0 <= k < stroke_len(s) && plot::stroke_covers(s.dash, s.phase, k) && ({
            let p = #[trigger] plot::line_point(s.from.0, s.from.1, s.to.0, s.to.1, k);
            on_canvas(w, h, p.0, p.1) && p.1 / 4 == r && p.0 / 2 == c
        })
}

/// The picture with one more line: its pixels are set, and the cells that it
/// touches take its colour.
pub open spec fn with_stroke(p: Picture, w: int, h: int, s: Stroke) -> Picture {
    Picture {
        lit: p.lit.union(
            Set::new(
                |q: (int, int)|
                    on_canvas(w, h, q.0, q.1) && plot::on_stroke(
                        s.from,
                        s.to,
                        s.dash,
                        s.phase,
                        stroke_len(s),
                        q.0,
                        q.1,
                    ),
            ),
        ),
        tone: Map::new(
            |c: (int, int)| 0 <= c.0 < h && 0 <= c.1 < w,
            |c: (int, int)|
                if touches(w, h, s, c.0, c.1) {
                    s.color
                } else {
                    p.tone[c]
                },
        ),
    }
}

/// The canvas shows the picture.
pub open spec fn shows(canvas: BrailleCanvas, p: Picture) -> bool {
    &&& canvas.wf()
    &&& forall|x: int, y: int| #[trigger] canvas.lit(x, y) == p.lit.contains((x, y))
    &&& forall|r: int, c: int|
        0 <= r < canvas.h() && 0 <= c < canvas.w ==> #[trigger] canvas.color_at(r, c) == p.tone[(
            r,
            c,
        )]
}

/// A canvas with one more line shows the picture with one more line.
proof fn lemma_shows_stroke(before: BrailleCanvas, after: BrailleCanvas, p: Picture, s: Stroke)
    requires
        shows(before, p),
        plot::stroked(before, after, s.from, s.to, s.color, s.dash, s.phase, stroke_len(s)),
    ensures
        shows(after, with_stroke(p, before.w as int, before.h(), s)),
{
    let w = before.w as int;
    let h = before.h();
    let q = with_stroke(p, w, h, s);
    assert forall|x: int, y: int| #[trigger] after.lit(x, y) == q.lit.contains((x, y)) by {
        assert(before.lit(x, y) == p.lit.contains((x, y)));
        assert(before.has(x, y) == on_canvas(w, h, x, y));
    }
    assert forall|r: int, c: int|
        0 <= r < after.h() && 0 <= c < after.w implies #[trigger] after.color_at(r, c)
        == q.tone[(r, c)] by {
        assert(before.color_at(r, c) == p.tone[(r, c)]);
        assert(plot::stroke_in_cell(
            before,
            s.from,
            s.to,
            s.dash,
            s.phase,
            stroke_len(s),
            r,
            c,
        ) == touches(w, h, s, r, c)) by {
            if touches(w, h, s, r, c) {
                let k = choose|k: int|
                    0 <= k < stroke_len(s) && plot::stroke_covers(s.dash, s.phase, k) && ({
                        let p = #[trigger] plot::line_point(s.from.0, s.from.1, s.to.0, s.to.1, k);
                        on_canvas(w, h, p.0, p.1) && p.1 / 4 == r && p.0 / 2 == c
                    });
                let p = plot::line_point(s.from.0, s.from.1, s.to.0, s.to.1, k);
                assert(before.has(p.0, p.1));
            }
            if plot::stroke_in_cell(
                before,
                s.from,
                s.to,
                s.dash,
                s.phase,
                stroke_len(s),
                r,
                c,
            ) {
                let k = choose|k: int|
                    0 <= k < stroke_len(s) && plot::stroke_covers(s.dash, s.phase, k) && ({
                        let p = #[trigger] plot::line_point(s.from.0, s.from.1, s.to.0, s.to.1, k);
                        before.has(p.0, p.1) && p.1 / 4 == r && p.0 / 2 == c
                    });
                let p = plot::line_point(s.from.0, s.from.1, s.to.0, s.to.1, k);
                assert(on_canvas(w, h, p.0, p.1));
            }
        }
    }
}

// ---------------------------------------------------------------------------
// Curves
// ---------------------------------------------------------------------------
pub open spec fn pixel(p: (i64, i64)) -> (int, int) {
    (p.0 as int, p.1 as int)
}

/// The place in the pattern after the first `k` points of a curve. It goes on
/// from piece to piece.
pub open spec fn phase_after(pts: Seq<(i64, i64)>, k: nat) -> int
    decreases k,
{
    if k == 0 {
        0
    } else if k == 1 {
        1
    } else {
        let a = pixel(pts[k - 2]);
        let b = pixel(pts[k - 1]);
        (phase_after(pts, (k - 1) as nat) + plot::line_steps(a.0, a.1, b.0, b.1) + 1)
            % 0x1_0000_0000
    }
}

/// The `k`th piece of a curve: its first point, or the line to the next one.
pub open spec fn piece(pts: Seq<(i64, i64)>, k: int, color: u8, dash: Dash) -> Stroke {
    if k == 0 {
        Stroke {
            from: pixel(pts[0]),
            to: pixel(pts[0]),
            color,
            dash: Dash::style(0),
            phase: 0,
        }
    } else {
        Stroke {
            from: pixel(pts[k - 1]),
            to: pixel(pts[k]),
            color,
            dash,
            phase: phase_after(pts, k as nat),
        }
    }
}

/// The picture with the first `k` points of a curve.
pub open spec fn with_curve(
    p: Picture,
    w: int,
    h: int,
    pts: Seq<(i64, i64)>,
    color: u8,
    dash: Dash,
    k: nat,
) -> Picture
    decreases k,
{
    if k == 0 {
        p
    } else {
        with_stroke(
            with_curve(p, w, h, pts, color, dash, (k - 1) as nat),
            w,
            h,
            piece(pts, k - 1, color, dash),
        )
    }
}

/// A single pixel is the shortest line.
proof fn lemma_dot_is_stroke(before: BrailleCanvas, after: BrailleCanvas, x: int, y: int, color: u8)
    requires
        before.wf(),
        after.wf(),
        after.w == before.w,
        after.px_h == before.px_h,
        forall|u: int, v: int| #[trigger]
            after.lit(u, v) == (before.lit(u, v) || (before.has(u, v) && u == x && v == y)),
        forall|r: int, c: int|
            0 <= r < before.h() && 0 <= c < before.w ==> #[trigger] after.color_at(r, c)
                == if before.has(x, y) && r == y / 4 && c == x / 2 {
                color
            } else {
                before.color_at(r, c)
            },
    ensures
        plot::stroked(before, after, (x, y), (x, y), color, Dash::style(0), 0, 1),
{
    plot::law_line_has_both_ends(x, y, x, y);
    assert(plot::line_point(x, y, x, y, 0) == (x, y));
    assert(plot::stroke_covers(Dash::style(0), 0, 0));
    assert forall|u: int, v: int| #[trigger]
        after.lit(u, v) == (before.lit(u, v) || (before.has(u, v) && plot::on_stroke(
            (x, y),
            (x, y),
            Dash::style(0),
            0,
            1,
            u,
            v,
        ))) by {
        if u == x && v == y {
            let a = (x, y);
            assert(plot::line_point(a.0, a.1, a.0, a.1, 0) == (u, v));
            assert(0 <= 0int < 1 && plot::stroke_covers(Dash::style(0), 0, 0int));
            assert(plot::on_stroke(a, a, Dash::style(0), 0, 1, u, v));
        }
        if plot::on_stroke((x, y), (x, y), Dash::style(0), 0, 1, u, v) {
            let k = choose|k: int|
                0 <= k < 1 && plot::stroke_covers(Dash::style(0), 0, k)
                    && #[trigger] plot::line_point(x, y, x, y, k) == (u, v);
            assert(k == 0);
        }
    }
    assert forall|r: int, c: int|
        0 <= r < before.h() && 0 <= c < before.w implies #[trigger] after.color_at(r, c)
        == if plot::stroke_in_cell(
        before,
        (x, y),
        (x, y),
        Dash::style(0),
        0,
        1,
        r,
        c,
    ) {
        color
    } else {
        before.color_at(r, c)
    } by {
        if before.has(x, y) && r == y / 4 && c == x / 2 {
            let a = (x, y);
            let q = plot::line_point(a.0, a.1, a.0, a.1, 0);
            assert(before.has(q.0, q.1) && q.1 / 4 == r && q.0 / 2 == c);
            assert(0 <= 0int < 1 && plot::stroke_covers(Dash::style(0), 0, 0int));
            assert(plot::stroke_in_cell(before, a, a, Dash::style(0), 0, 1, r, c));
        }
        if plot::stroke_in_cell(before, (x, y), (x, y), Dash::style(0), 0, 1, r, c) {
            let k = choose|k: int|
                0 <= k < 1 && plot::stroke_covers(Dash::style(0), 0, k) && ({
                    let p = #[trigger] plot::line_point(x, y, x, y, k);
                    before.has(p.0, p.1) && p.1 / 4 == r && p.0 / 2 == c
                });
            assert(k == 0);
        }
    }
}

/// Draw a curve through the points: the first one as a dot, and a line to each
/// of the others.
pub(crate) fn draw_curve(canvas: &mut BrailleCanvas, pts: &Vec<(i64, i64)>, color: u8, dash: Dash, Ghost(
    p,
): Ghost<Picture>)
    requires
        shows(*old(canvas), p),
    ensures
        final(canvas).w == old(canvas).w,
        final(canvas).px_h == old(canvas).px_h,
        shows(
            *final(canvas),
            with_curve(
                p,
                old(canvas).w as int,
                old(canvas).h(),
                pts@,
                color,
                dash,
                pts@.len(),
            ),
        ),
{
    let ghost w = canvas.w as int;
    let ghost h = canvas.h();
    let mut phase: u32 = 0;
    let mut i: usize = 0;
    while i < pts.len()
        invariant
            i <= pts@.len(),
            canvas.w == old(canvas).w,
            canvas.px_h == old(canvas).px_h,
            w == canvas.w,
            h == canvas.h(),
            phase == phase_after(pts@, i as nat),
            shows(*canvas, with_curve(p, w, h, pts@, color, dash, i as nat)),
        decreases pts.len() - i,
    {
        let ghost before = *canvas;
        let ghost shown = with_curve(p, w, h, pts@, color, dash, i as nat);
        if i == 0 {
            canvas.dot(pts[0].0, pts[0].1, color);
            phase = 1;
            proof {
                let a = pixel(pts@[0]);
                lemma_dot_is_stroke(before, *canvas, a.0, a.1, color);
            }
        } else {
            canvas.line_styled(pts[i - 1], pts[i], color, dash, &mut phase);
        }
        proof {
            lemma_shows_stroke(before, *canvas, shown, piece(pts@, i as int, color, dash));
        }
        i = i + 1;
    }
}

// ---------------------------------------------------------------------------
// Cells
// ---------------------------------------------------------------------------
/// The number that a set pixel adds to the dots of its cell.
pub open spec fn dot_value(p: Picture, x: int, y: int) -> int {
    if p.lit.contains((x, y)) {
        plot::dot_bit(x, y) as int
    } else {
        0
    }
}

/// The dots of a cell as a number.
pub open spec fn cell_dots(p: Picture, r: int, c: int) -> int {
    let x = 2 * c;
    let y = 4 * r;
    dot_value(p, x, y) + dot_value(p, x + 1, y) + dot_value(p, x, y + 1) + dot_value(p, x + 1, y + 1)
        + dot_value(p, x, y + 2) + dot_value(p, x + 1, y + 2) + dot_value(p, x, y + 3) + dot_value(
        p,
        x + 1,
        y + 3,
    )
}

/// The braille character of a cell.
pub open spec fn glyph(p: Picture, r: int, c: int) -> char {
    (0x2800 + cell_dots(p, r, c)) as char
}

/// A byte is the sum of its bits.
proof fn lemma_byte_is_its_bits(b: u8)
    ensures
        b == (if b & 0x01 != 0 {
            0x01int
        } else {
            0
        }) + (if b & 0x08 != 0 {
            0x08int
        } else {
            0
        }) + (if b & 0x02 != 0 {
            0x02int
        } else {
            0
        }) + (if b & 0x10 != 0 {
            0x10int
        } else {
            0
        }) + (if b & 0x04 != 0 {
            0x04int
        } else {
            0
        }) + (if b & 0x20 != 0 {
            0x20int
        } else {
            0
        }) + (if b & 0x40 != 0 {
            0x40int
        } else {
            0
        }) + (if b & 0x80 != 0 {
            0x80int
        } else {
            0
        }),
{
    assert(b == (b & 0x01) + (b & 0x08) + (b & 0x02) + (b & 0x10) + (b & 0x04) + (b & 0x20) + (b
        & 0x40) + (b & 0x80)) by (bit_vector);
    assert((b & 0x01 == 0 || b & 0x01 == 0x01) && (b & 0x08 == 0 || b & 0x08 == 0x08) && (b & 0x02
        == 0 || b & 0x02 == 0x02) && (b & 0x10 == 0 || b & 0x10 == 0x10) && (b & 0x04 == 0 || b
        & 0x04 == 0x04) && (b & 0x20 == 0 || b & 0x20 == 0x20) && (b & 0x40 == 0 || b & 0x40
        == 0x40) && (b & 0x80 == 0 || b & 0x80 == 0x80)) by (bit_vector);
}

/// The dots of a cell are those of the picture.
pub proof fn lemma_cell_dots(canvas: BrailleCanvas, p: Picture, r: int, c: int)
    requires
        shows(canvas, p),
        0 <= r < canvas.h(),
        0 <= c < canvas.w,
    ensures
        canvas.cells@[plot::cell_index(canvas.w as int, r, c)] == cell_dots(p, r, c),
{
    let b = canvas.cells@[plot::cell_index(canvas.w as int, r, c)];
    let x = 2 * c;
    let y = 4 * r;
    lemma_byte_is_its_bits(b);
    assert(canvas.lit(x, y) == p.lit.contains((x, y)));
    assert(canvas.lit(x + 1, y) == p.lit.contains((x + 1, y)));
    assert(canvas.lit(x, y + 1) == p.lit.contains((x, y + 1)));
    assert(canvas.lit(x + 1, y + 1) == p.lit.contains((x + 1, y + 1)));
    assert(canvas.lit(x, y + 2) == p.lit.contains((x, y + 2)));
    assert(canvas.lit(x + 1, y + 2) == p.lit.contains((x + 1, y + 2)));
    assert(canvas.lit(x, y + 3) == p.lit.contains((x, y + 3)));
    assert(canvas.lit(x + 1, y + 3) == p.lit.contains((x + 1, y + 3)));
}

/// A new canvas shows nothing.
pub fn new_canvas(w: usize, h: usize) -> (r: BrailleCanvas)
    requires
        2 * w <= usize::MAX,
        4 * h <= usize::MAX,
        w * h <= usize::MAX,
    ensures
        r.w == w,
        r.h() == h,
        shows(r, blank(w as int, h as int)),
{
    let r: BrailleCanvas = BrailleCanvas::new(w, h);
    proof {
        assert forall|x: int, y: int| #[trigger] r.lit(x, y) == blank(
            w as int,
            h as int,
        ).lit.contains((x, y)) by {}
    }
    r
}


// ---------------------------------------------------------------------------
// Laws
// ---------------------------------------------------------------------------
/// The pixel is on the straight line from one point of the curve to the next
/// one, or it is the first point.
pub open spec fn on_curve(pts: Seq<(i64, i64)>, q: (int, int)) -> bool {
    ||| pts.len() > 0 && q == (pts[0].0 as int, pts[0].1 as int)
    ||| exists|k: int, j: int|
        0 < k < pts.len() && 0 <= j <= plot::line_steps(
            pts[k - 1].0 as int,
            pts[k - 1].1 as int,
            pts[k].0 as int,
            pts[k].1 as int,
        ) && q == #[trigger] plot::line_point(
            pts[k - 1].0 as int,
            pts[k - 1].1 as int,
            pts[k].0 as int,
            pts[k].1 as int,
            j,
        )
}

/// More points of a curve only add to the picture, and the cells of what they
/// add take its colour.
proof fn lemma_curve_grows(
    p: Picture,
    w: int,
    h: int,
    pts: Seq<(i64, i64)>,
    color: u8,
    dash: Dash,
    k: nat,
    n: nat,
)
    requires
        k <= n,
    ensures
        ({
            let a = with_curve(p, w, h, pts, color, dash, k);
            let b = with_curve(p, w, h, pts, color, dash, n);
            &&& a.lit.subset_of(b.lit)
            &&& forall|c: (int, int)|
                0 <= c.0 < h && 0 <= c.1 < w && a.tone[c] == color ==> #[trigger] b.tone[c] == color
        }),
    decreases n - k,
{
    if k < n {
        lemma_curve_grows(p, w, h, pts, color, dash, k, (n - 1) as nat);
    }
}

/// Where the pattern draws it, a pixel between two neighbouring points of a
/// curve is set, and its cell has the colour of the curve.
proof fn lemma_curve_pixel(
    p: Picture,
    w: int,
    h: int,
    pts: Seq<(i64, i64)>,
    color: u8,
    dash: Dash,
    k: int,
    j: int,
)
    requires
        0 < k < pts.len(),
        0 <= j <= plot::line_steps(
            pts[k - 1].0 as int,
            pts[k - 1].1 as int,
            pts[k].0 as int,
            pts[k].1 as int,
        ),
        dash.covered((phase_after(pts, k as nat) + j) % 0x1_0000_0000),
    ensures
        ({
            let q = plot::line_point(
                pts[k - 1].0 as int,
                pts[k - 1].1 as int,
                pts[k].0 as int,
                pts[k].1 as int,
                j,
            );
            let after = with_curve(p, w, h, pts, color, dash, pts.len());
            0 <= q.0 < 2 * w && 0 <= q.1 < 4 * h ==> after.lit.contains(q) && after.tone[(
                q.1 / 4,
                q.0 / 2,
            )] == color
        }),
{
    let s = piece(pts, k, color, dash);
    let q = plot::line_point(s.from.0, s.from.1, s.to.0, s.to.1, j);
    let there = with_curve(p, w, h, pts, color, dash, (k + 1) as nat);
    if 0 <= q.0 < 2 * w && 0 <= q.1 < 4 * h {
        assert(plot::stroke_covers(s.dash, s.phase, j));
        assert(plot::on_stroke(s.from, s.to, s.dash, s.phase, stroke_len(s), q.0, q.1));
        assert(touches(w, h, s, q.1 / 4, q.0 / 2));
        assert(there.lit.contains(q));
        assert(there.tone[(q.1 / 4, q.0 / 2)] == color);
        lemma_curve_grows(p, w, h, pts, color, dash, (k + 1) as nat, pts.len());
        let after = with_curve(p, w, h, pts, color, dash, pts.len());
        assert(after.tone[(q.1 / 4, q.0 / 2)] == color);
    }
}

/// An unbroken curve joins each of its points to the next one by a straight
/// line: every pixel of it that is on the canvas is set and takes the colour.
pub proof fn law_curve_joins_neighbours(
    p: Picture,
    w: int,
    h: int,
    pts: Seq<(i64, i64)>,
    color: u8,
    k: int,
    j: int,
)
    requires
        0 < k < pts.len(),
        0 <= j <= plot::line_steps(
            pts[k - 1].0 as int,
            pts[k - 1].1 as int,
            pts[k].0 as int,
            pts[k].1 as int,
        ),
    ensures
        ({
            let q = plot::line_point(
                pts[k - 1].0 as int,
                pts[k - 1].1 as int,
                pts[k].0 as int,
                pts[k].1 as int,
                j,
            );
            let after = with_curve(p, w, h, pts, color, Dash { on: 1, period: 1 }, pts.len());
            0 <= q.0 < 2 * w && 0 <= q.1 < 4 * h ==> after.lit.contains(q) && after.tone[(
                q.1 / 4,
                q.0 / 2,
            )] == color
        }),
{
    lemma_curve_pixel(p, w, h, pts, color, Dash { on: 1, period: 1 }, k, j);
}

/// Every curve, broken or not, sets its first point; an unbroken one sets all
/// of its points.
pub proof fn law_curve_goes_through_its_points(
    p: Picture,
    w: int,
    h: int,
    pts: Seq<(i64, i64)>,
    color: u8,
    dash: Dash,
    k: int,
)
    requires
        0 <= k < pts.len(),
        k == 0 || dash == (Dash { on: 1, period: 1 }),
        0 <= pts[k].0 < 2 * w,
        0 <= pts[k].1 < 4 * h,
    ensures
        with_curve(p, w, h, pts, color, dash, pts.len()).lit.contains(
            (pts[k].0 as int, pts[k].1 as int),
        ),
{
    let q = (pts[k].0 as int, pts[k].1 as int);
    if k == 0 {
        let s = piece(pts, 0, color, dash);
        plot::law_line_has_both_ends(q.0, q.1, q.0, q.1);
        assert(plot::line_point(s.from.0, s.from.1, s.to.0, s.to.1, 0) == q);
        assert(plot::stroke_covers(s.dash, s.phase, 0));
        assert(plot::on_stroke(s.from, s.to, s.dash, s.phase, stroke_len(s), q.0, q.1));
        assert(with_curve(p, w, h, pts, color, dash, 0) == p);
        assert(with_curve(p, w, h, pts, color, dash, 1).lit.contains(q));
        lemma_curve_grows(p, w, h, pts, color, dash, 1, pts.len());
    } else {
        let a = (pts[k - 1].0 as int, pts[k - 1].1 as int);
        plot::law_line_has_both_ends(a.0, a.1, q.0, q.1);
        law_curve_joins_neighbours(
            p,
            w,
            h,
            pts,
            color,
            k,
            plot::line_steps(a.0, a.1, q.0, q.1),
        );
    }
}

/// A curve, broken or not, sets nothing but pixels on the canvas that lie on
/// it; what was set before stays. A cell changes its colour only to that of the
/// curve, and only where a pixel of the curve is in it.
pub proof fn law_curve_sets_nothing_else(
    p: Picture,
    w: int,
    h: int,
    pts: Seq<(i64, i64)>,
    color: u8,
    dash: Dash,
    n: nat,
    q: (int, int),
)
    requires
        n <= pts.len(),
    ensures
        ({
            let after = with_curve(p, w, h, pts, color, dash, n);
            &&& p.lit.contains(q) ==> after.lit.contains(q)
            &&& after.lit.contains(q) && !p.lit.contains(q) ==> 0 <= q.0 < 2 * w && 0 <= q.1 < 4 * h
                && on_curve(pts, q)
            &&& 0 <= q.0 < h && 0 <= q.1 < w && after.tone[q] != p.tone[q] ==> after.tone[q]
                == color && exists|u: (int, int)|
                u.1 / 4 == q.0 && u.0 / 2 == q.1 && #[trigger] on_curve(pts, u)
        }),
    decreases n,
{
    if n > 0 {
        let fewer = with_curve(p, w, h, pts, color, dash, (n - 1) as nat);
        let after = with_curve(p, w, h, pts, color, dash, n);
        law_curve_sets_nothing_else(p, w, h, pts, color, dash, (n - 1) as nat, q);
        let s = piece(pts, n - 1, color, dash);
        if after.lit.contains(q) && !fewer.lit.contains(q) {
            let k = choose|k: int|
                0 <= k < stroke_len(s) && plot::stroke_covers(s.dash, s.phase, k)
                    && #[trigger] plot::line_point(s.from.0, s.from.1, s.to.0, s.to.1, k) == (
                q.0,
                q.1,
            );
            lemma_piece_on_curve(pts, n - 1, color, dash, k);
        }
        if 0 <= q.0 < h && 0 <= q.1 < w && touches(w, h, s, q.0, q.1) {
            let k = choose|k: int|
                0 <= k < stroke_len(s) && plot::stroke_covers(s.dash, s.phase, k) && ({
                    let u = #[trigger] plot::line_point(s.from.0, s.from.1, s.to.0, s.to.1, k);
                    on_canvas(w, h, u.0, u.1) && u.1 / 4 == q.0 && u.0 / 2 == q.1
                });
            lemma_piece_on_curve(pts, n - 1, color, dash, k);
            let u = plot::line_point(s.from.0, s.from.1, s.to.0, s.to.1, k);
            assert(on_curve(pts, u));
        }
    }
}

proof fn lemma_piece_on_curve(pts: Seq<(i64, i64)>, i: int, color: u8, dash: Dash, k: int)
    requires
        0 <= i < pts.len(),
        0 <= k < stroke_len(piece(pts, i, color, dash)),
    ensures
        ({
            let s = piece(pts, i, color, dash);
            on_curve(pts, plot::line_point(s.from.0, s.from.1, s.to.0, s.to.1, k))
        }),
{
    let s = piece(pts, i, color, dash);
    if i == 0 {
        plot::law_line_has_both_ends(s.from.0, s.from.1, s.to.0, s.to.1);
    }
}

/// The pattern of a curve runs on from piece to piece: the dot at its first
/// point is the first pixel of the pattern, and each line starts where the one
/// before it left off.
pub proof fn law_pattern_runs_on(
    p: Picture,
    w: int,
    h: int,
    pts: Seq<(i64, i64)>,
    color: u8,
    dash: Dash,
    k: int,
    j: int,
)
    requires
        0 < k < pts.len(),
        0 <= j <= plot::line_steps(
            pts[k - 1].0 as int,
            pts[k - 1].1 as int,
            pts[k].0 as int,
            pts[k].1 as int,
        ),
    ensures
        phase_after(pts, 1) == 1,
        phase_after(pts, (k + 1) as nat) == (phase_after(pts, k as nat) + plot::line_steps(
            pts[k - 1].0 as int,
            pts[k - 1].1 as int,
            pts[k].0 as int,
            pts[k].1 as int,
        ) + 1) % 0x1_0000_0000,
        dash.covered((phase_after(pts, k as nat) + j) % 0x1_0000_0000) ==> ({
            let q = plot::line_point(
                pts[k - 1].0 as int,
                pts[k - 1].1 as int,
                pts[k].0 as int,
                pts[k].1 as int,
                j,
            );
            0 <= q.0 < 2 * w && 0 <= q.1 < 4 * h ==> with_curve(
                p,
                w,
                h,
                pts,
                color,
                dash,
                pts.len(),
            ).lit.contains(q)
        }),
{
    if dash.covered((phase_after(pts, k as nat) + j) % 0x1_0000_0000) {
        lemma_curve_pixel(p, w, h, pts, color, dash, k, j);
    }
}

/// The picture of a canvas is what its braille characters show: the character
/// of a cell has the dot of a pixel if and only if the pixel is set, and there
/// is none where no pixel is set.
pub proof fn law_glyph_shows_the_pixels(p: Picture, r: int, c: int)
    ensures
        ({
            let x = 2 * c;
            let y = 4 * r;
            let d = cell_dots(p, r, c);
            &&& 0 <= d < 0x100
            &&& glyph(p, r, c) as int == 0x2800 + d
            &&& d % 2 == 1 <==> p.lit.contains((x, y))
            &&& d / 2 % 2 == 1 <==> p.lit.contains((x, y + 1))
            &&& d / 4 % 2 == 1 <==> p.lit.contains((x, y + 2))
            &&& d / 8 % 2 == 1 <==> p.lit.contains((x + 1, y))
            &&& d / 16 % 2 == 1 <==> p.lit.contains((x + 1, y + 1))
            &&& d / 32 % 2 == 1 <==> p.lit.contains((x + 1, y + 2))
            &&& d / 64 % 2 == 1 <==> p.lit.contains((x, y + 3))
            &&& d / 128 % 2 == 1 <==> p.lit.contains((x + 1, y + 3))
        }),
{
}


/// A pixel that a curve sets gives its cell the colour of the curve.
pub proof fn lemma_new_pixel_colours(
    p: Picture,
    w: int,
    h: int,
    pts: Seq<(i64, i64)>,
    color: u8,
    dash: Dash,
    n: nat,
    q: (int, int),
)
    requires
        n <= pts.len(),
        !p.lit.contains(q),
        with_curve(p, w, h, pts, color, dash, n).lit.contains(q),
    ensures
        with_curve(p, w, h, pts, color, dash, n).tone[(q.1 / 4, q.0 / 2)] == color,
    decreases n,
{
    if n > 0 {
        let fewer = with_curve(p, w, h, pts, color, dash, (n - 1) as nat);
        let s = piece(pts, n - 1, color, dash);
        law_curve_sets_nothing_else(p, w, h, pts, color, dash, n, q);
        if fewer.lit.contains(q) {
            lemma_new_pixel_colours(p, w, h, pts, color, dash, (n - 1) as nat, q);
        } else {
            let k = choose|k: int|
                0 <= k < stroke_len(s) && plot::stroke_covers(s.dash, s.phase, k)
                    && #[trigger] plot::line_point(s.from.0, s.from.1, s.to.0, s.to.1, k) == (
                q.0,
                q.1,
            );
            assert(touches(w, h, s, q.1 / 4, q.0 / 2));
        }
    }
}

} // verus!
