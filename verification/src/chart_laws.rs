//! What holds of a chart: where its parts stand and what they show.
use vstd::prelude::*;

use crate::charts;
use crate::charts::{Chart, Curve};
use crate::colors::{Dash, Palette};
use crate::numbers;
use crate::paint::{PutView, Rect};
use crate::picture;
use crate::plot;

verus! {

// ---------------------------------------------------------------------------
// The vertical axis
// ---------------------------------------------------------------------------
/// The row of the plot shows this pixel row: four pixels are in each row, and
/// those above and below the plot count for the first and the last.
pub open spec fn row_shows(area: Rect, row: int, py: int) -> bool {
    &&& 0 <= row < area.height - 2
    &&& 0 <= py < 4 * (area.height - 2) ==> 4 * row <= py < 4 * row + 4
    &&& py < 0 ==> row == 0
    &&& py >= 4 * (area.height - 2) ==> row == area.height - 3
}

/// A tick stands in the row in which a curve pixel of the same height is drawn.
pub proof fn law_tick_stands_in_its_row(area: Rect, py: int)
    requires
        charts::roomy(area),
    ensures
        row_shows(area, charts::tick_row(area, py), py),
{
}

/// For each tick there is a label and a cross on the axis in the row of its
/// value. The label ends right before the axis; it is the whole text where that
/// has no more than nine characters, else its first nine.
pub proof fn law_ticks_stand_at_their_values(
    area: Rect,
    ticks: Seq<(i64, String)>,
    n: nat,
    k: int,
)
    requires
        charts::roomy(area),
        0 <= k < n <= ticks.len(),
    ensures
        ({
            let ls = charts::tick_lines(area, ticks, n);
            let label = ls[2 * k];
            let cross = ls[2 * k + 1];
            let t = ticks[k].1@;
            &&& ls.len() == 2 * n
            &&& row_shows(area, label.y - area.y - 1, ticks[k].0 as int)
            &&& cross.y == label.y
            &&& cross.x == area.x + 9
            &&& cross.text == "┼"@
            &&& label.x + label.text.len() == area.x + 9
            &&& label.text.len() <= 9
            &&& label.text == t.take(label.text.len() as int)
            &&& label.text.len() == t.len() || label.text.len() == 9
        }),
    decreases n,
{
    let t = ticks[n - 1];
    law_tick_stands_in_its_row(area, t.0 as int);
    let fewer = charts::tick_lines(area, ticks, (n - 1) as nat);
    let ls = charts::tick_lines(area, ticks, n);
    if n > 1 {
        law_ticks_stand_at_their_values(
            area,
            ticks,
            (n - 1) as nat,
            if k < n - 1 {
                k
            } else {
                0
            },
        );
    }
    if k < n - 1 {
        assert(ls[2 * k] == fewer[2 * k]);
        assert(ls[2 * k + 1] == fewer[2 * k + 1]);
    } else {
        assert(fewer.len() == 2 * (n - 1));
        let label = charts::gutter_label(t.1@);
        assert(label =~= t.1@.take(label.len() as int));
    }
}

/// The axis has a mark in every row of the plot, in its column.
pub proof fn law_axis_spans_the_plot(area: Rect, r: int)
    requires
        charts::roomy(area),
        0 <= r < area.height - 2,
    ensures
        ({
            let ls = charts::axis_lines(area, charts::plot_h(area) as nat);
            &&& ls.len() == area.height - 2
            &&& ls[r].x == area.x + 9
            &&& ls[r].y == area.y + 1 + r
            &&& ls[r].text == "│"@
        }),
{
}

// ---------------------------------------------------------------------------
// The horizontal axis
// ---------------------------------------------------------------------------
/// The labels of the horizontal axis stand below the plot, whole. Each starts
/// at its column and the last one ends at its column, but none starts before
/// the plot, and none that fits runs out of the chart.
pub proof fn law_labels_stand_at_their_columns(
    area: Rect,
    labels: Seq<(u16, String)>,
    n: nat,
    k: int,
)
    requires
        charts::roomy(area),
        0 <= k < n <= labels.len(),
    ensures
        ({
            let ls = charts::label_lines(area, labels, n);
            let put = ls[k];
            let len = labels[k].1@.len();
            let left = area.x + 10;
            let right = area.x + area.width;
            let want = if k + 1 == labels.len() {
                left + labels[k].0 - len
            } else {
                left + labels[k].0
            };
            &&& ls.len() == n
            &&& put.y == area.y + area.height - 1
            &&& put.text == labels[k].1@
            &&& put.x >= left
            &&& left + len < right ==> put.x + len < right
            &&& want >= left && want + len < right ==> put.x == want
            &&& want < left ==> put.x == left
        }),
    decreases n,
{
    let fewer = charts::label_lines(area, labels, (n - 1) as nat);
    let ls = charts::label_lines(area, labels, n);
    if n > 1 {
        law_labels_stand_at_their_columns(
            area,
            labels,
            (n - 1) as nat,
            if k < n - 1 {
                k
            } else {
                0
            },
        );
    }
    if k < n - 1 {
        assert(ls[k] == fewer[k]);
    }
}

// ---------------------------------------------------------------------------
// Curves
// ---------------------------------------------------------------------------
/// A set pixel is seen: the character in its cell has its dot, in the colour of
/// the cell.
pub open spec fn seen_at(
    ls: Seq<PutView>,
    i: int,
    area: Rect,
    palette: Palette,
    p: picture::Picture,
    x: int,
    y: int,
) -> bool {
    &&& 0 <= i < ls.len()
    &&& ls[i].x == area.x + 10 + x / 2
    &&& ls[i].y == area.y + 1 + y / 4
    &&& ls[i].text == seq![picture::glyph(p, y / 4, x / 2)]
    &&& ls[i].style.fg == Some(palette.color_of(p.tone[(y / 4, x / 2)] - 1))
}

proof fn lemma_row_shows_pixel(
    area: Rect,
    palette: Palette,
    p: picture::Picture,
    r: int,
    n: nat,
    x: int,
    y: int,
) -> (i: int)
    requires
        p.lit.contains((x, y)),
        p.tone[(r, x / 2)] >= 1,
        y / 4 == r,
        0 <= x / 2 < n,
    ensures
        seen_at(charts::cells_of_row(area, palette, p, r, n), i, area, palette, p, x, y),
    decreases n,
{
    let ls = charts::cells_of_row(area, palette, p, r, n);
    let fewer = charts::cells_of_row(area, palette, p, r, (n - 1) as nat);
    if x / 2 < n - 1 {
        let i = lemma_row_shows_pixel(area, palette, p, r, (n - 1) as nat, x, y);
        assert(ls[i] == fewer[i]);
        i
    } else {
        picture::law_glyph_shows_the_pixels(p, r, x / 2);
        assert(picture::cell_dots(p, r, x / 2) != 0) by {
            assert(x == 2 * (x / 2) || x == 2 * (x / 2) + 1);
            assert(y == 4 * r || y == 4 * r + 1 || y == 4 * r + 2 || y == 4 * r + 3);
        }
        assert(ls[fewer.len() as int] == charts::cell_line(area, palette, p, r, n - 1)[0]);
        fewer.len() as int
    }
}

/// Every pixel of the plot that is set is seen in its place: two pixels across
/// and four down are in each cell.
pub proof fn law_pixels_are_seen(
    area: Rect,
    palette: Palette,
    p: picture::Picture,
    n: nat,
    x: int,
    y: int,
) -> (i: int)
    requires
        charts::roomy(area),
        p.lit.contains((x, y)),
        p.tone[(y / 4, x / 2)] >= 1,
        0 <= x < 2 * charts::plot_w(area),
        0 <= y < 4 * n,
    ensures
        seen_at(charts::cell_lines(area, palette, p, n), i, area, palette, p, x, y),
    decreases n,
{
    let ls = charts::cell_lines(area, palette, p, n);
    let fewer = charts::cell_lines(area, palette, p, (n - 1) as nat);
    let row = charts::cells_of_row(area, palette, p, n - 1, charts::plot_w(area) as nat);
    if y / 4 < n - 1 {
        let i = law_pixels_are_seen(area, palette, p, (n - 1) as nat, x, y);
        assert(ls[i] == fewer[i]);
        i
    } else {
        let i = lemma_row_shows_pixel(
            area,
            palette,
            p,
            n - 1,
            charts::plot_w(area) as nat,
            x,
            y,
        );
        assert(ls[fewer.len() + i] == row[i]);
        fewer.len() + i
    }
}

/// There is a set pixel in the cell that the line is drawn in.
pub open spec fn has_pixel(area: Rect, p: picture::Picture, put: PutView, w: int, h: int) -> bool {
    exists|x: int, y: int| #[trigger]
        p.lit.contains((x, y)) && put.x == area.x + 10 + x / 2 && put.y == area.y + 1 + y / 4 && 0
            <= x < 2 * w && 0 <= y < 4 * h
}

proof fn lemma_row_draws_only_pixels(
    area: Rect,
    palette: Palette,
    p: picture::Picture,
    r: int,
    n: nat,
    i: int,
)
    requires
        0 <= r,
        0 <= i < charts::cells_of_row(area, palette, p, r, n).len(),
    ensures
        has_pixel(area, p, charts::cells_of_row(area, palette, p, r, n)[i], n as int, r + 1),
    decreases n,
{
    let ls = charts::cells_of_row(area, palette, p, r, n);
    let fewer = charts::cells_of_row(area, palette, p, r, (n - 1) as nat);
    if i < fewer.len() {
        lemma_row_draws_only_pixels(area, palette, p, r, (n - 1) as nat, i);
        assert(ls[i] == fewer[i]);
        let (x, y) = choose|x: int, y: int| #[trigger]
            p.lit.contains((x, y)) && ls[i].x == area.x + 10 + x / 2 && ls[i].y == area.y + 1 + y
                / 4 && 0 <= x < 2 * (n - 1) && 0 <= y < 4 * (r + 1);
        assert(p.lit.contains((x, y)));
    } else {
        let c = n - 1;
        let x = 2 * c;
        let y = 4 * r;
        assert(ls[i] == charts::cell_line(area, palette, p, r, c)[0]);
        if p.lit.contains((x, y)) {
        } else if p.lit.contains((x + 1, y)) {
        } else if p.lit.contains((x, y + 1)) {
        } else if p.lit.contains((x + 1, y + 1)) {
        } else if p.lit.contains((x, y + 2)) {
        } else if p.lit.contains((x + 1, y + 2)) {
        } else if p.lit.contains((x, y + 3)) {
        } else {
            assert(p.lit.contains((x + 1, y + 3)));
        }
    }
}

/// No character of a curve stands in a cell without a set pixel.
pub proof fn law_only_pixels_are_drawn(
    area: Rect,
    palette: Palette,
    p: picture::Picture,
    n: nat,
    i: int,
)
    requires
        charts::roomy(area),
        0 <= i < charts::cell_lines(area, palette, p, n).len(),
    ensures
        has_pixel(
            area,
            p,
            charts::cell_lines(area, palette, p, n)[i],
            charts::plot_w(area),
            n as int,
        ),
    decreases n,
{
    let ls = charts::cell_lines(area, palette, p, n);
    let fewer = charts::cell_lines(area, palette, p, (n - 1) as nat);
    let w = charts::plot_w(area);
    if i < fewer.len() {
        law_only_pixels_are_drawn(area, palette, p, (n - 1) as nat, i);
        assert(ls[i] == fewer[i]);
        let (x, y) = choose|x: int, y: int| #[trigger]
            p.lit.contains((x, y)) && ls[i].x == area.x + 10 + x / 2 && ls[i].y == area.y + 1 + y
                / 4 && 0 <= x < 2 * w && 0 <= y < 4 * (n - 1);
        assert(p.lit.contains((x, y)));
    } else {
        lemma_row_draws_only_pixels(area, palette, p, n - 1, w as nat, i - fewer.len());
        let row = charts::cells_of_row(area, palette, p, n - 1, w as nat);
        assert(ls[i] == row[i - fewer.len()]);
    }
}

/// What the picture of the first curves has, that of more of them has too.
proof fn lemma_picture_grows(
    w: int,
    h: int,
    palette: Palette,
    curves: Seq<Curve>,
    k: nat,
    n: nat,
    q: (int, int),
)
    requires
        k <= n,
        charts::chart_picture(w, h, palette, curves, k).lit.contains(q),
    ensures
        charts::chart_picture(w, h, palette, curves, n).lit.contains(q),
    decreases n - k,
{
    if k < n {
        lemma_picture_grows(w, h, palette, curves, k, (n - 1) as nat, q);
        let c = curves[n - 1];
        picture::law_curve_sets_nothing_else(
            charts::chart_picture(w, h, palette, curves, (n - 1) as nat),
            w,
            h,
            c.pts@,
            charts::tone_of(c.slot as int),
            palette.dash_of(c.slot as int),
            c.pts@.len(),
            q,
        );
    }
}

/// Every curve is in the picture: one of the first eight slots as unbroken
/// lines from each of its points to the next. The last one drawn keeps its
/// colour everywhere.
pub proof fn law_every_curve_is_drawn(
    w: int,
    h: int,
    palette: Palette,
    curves: Seq<Curve>,
    i: int,
    k: int,
    j: int,
)
    requires
        0 <= i < curves.len(),
        curves[i].slot < 8,
        0 < k < curves[i].pts@.len(),
        0 <= j <= plot::line_steps(
            curves[i].pts@[k - 1].0 as int,
            curves[i].pts@[k - 1].1 as int,
            curves[i].pts@[k].0 as int,
            curves[i].pts@[k].1 as int,
        ),
    ensures
        ({
            let pts = curves[i].pts@;
            let q = plot::line_point(
                pts[k - 1].0 as int,
                pts[k - 1].1 as int,
                pts[k].0 as int,
                pts[k].1 as int,
                j,
            );
            let p = charts::chart_picture(w, h, palette, curves, curves.len());
            0 <= q.0 < 2 * w && 0 <= q.1 < 4 * h ==> {
                &&& p.lit.contains(q)
                &&& i + 1 == curves.len() ==> palette.color_of(p.tone[(q.1 / 4, q.0 / 2)] - 1)
                    == palette.color_of(curves[i].slot as int)
            }
        }),
{
    let c = curves[i];
    let pts = c.pts@;
    let q = plot::line_point(
        pts[k - 1].0 as int,
        pts[k - 1].1 as int,
        pts[k].0 as int,
        pts[k].1 as int,
        j,
    );
    if 0 <= q.0 < 2 * w && 0 <= q.1 < 4 * h {
        let before = charts::chart_picture(w, h, palette, curves, i as nat);
        assert(palette.dash_of(c.slot as int) == (Dash { on: 1, period: 1 }));
        picture::law_curve_joins_neighbours(
            before,
            w,
            h,
            pts,
            charts::tone_of(c.slot as int),
            k,
            j,
        );
        lemma_picture_grows(w, h, palette, curves, (i + 1) as nat, curves.len(), q);
    }
}

/// Every pixel that is set belongs to one of the curves.
pub proof fn law_only_curves_are_drawn(
    w: int,
    h: int,
    palette: Palette,
    curves: Seq<Curve>,
    n: nat,
    q: (int, int),
)
    requires
        n <= curves.len(),
        charts::chart_picture(w, h, palette, curves, n).lit.contains(q),
    ensures
        0 <= q.0 < 2 * w,
        0 <= q.1 < 4 * h,
        exists|i: int| 0 <= i < n && picture::on_curve(#[trigger] curves[i].pts@, q),
    decreases n,
{
    if n > 0 {
        let c = curves[n - 1];
        let before = charts::chart_picture(w, h, palette, curves, (n - 1) as nat);
        picture::law_curve_sets_nothing_else(
            before,
            w,
            h,
            c.pts@,
            charts::tone_of(c.slot as int),
            palette.dash_of(c.slot as int),
            c.pts@.len(),
            q,
        );
        if before.lit.contains(q) {
            law_only_curves_are_drawn(w, h, palette, curves, (n - 1) as nat, q);
            let i = choose|i: int|
                0 <= i < n - 1 && picture::on_curve(#[trigger] curves[i].pts@, q);
            assert(picture::on_curve(curves[i].pts@, q));
        } else {
            assert(picture::on_curve(curves[n - 1].pts@, q));
        }
    }
}

/// A cell where a pixel was set has a colour, whatever is drawn later.
pub proof fn law_drawn_cells_have_a_colour(
    w: int,
    h: int,
    palette: Palette,
    curves: Seq<Curve>,
    n: nat,
    q: (int, int),
)
    requires
        n <= curves.len(),
        charts::chart_picture(w, h, palette, curves, n).lit.contains(q),
    ensures
        ({
            let t = charts::chart_picture(w, h, palette, curves, n).tone[(q.1 / 4, q.0 / 2)];
            &&& 1 <= t <= 8
            &&& exists|i: int| 0 <= i < n && t == (#[trigger] curves[i]).slot % 8 + 1
        }),
    decreases n,
{
    if n > 0 {
        let c = curves[n - 1];
        let pts = c.pts@;
        let before = charts::chart_picture(w, h, palette, curves, (n - 1) as nat);
        let after = charts::chart_picture(w, h, palette, curves, n);
        let tone = charts::tone_of(c.slot as int);
        let cell = (q.1 / 4, q.0 / 2);
        law_only_curves_are_drawn(w, h, palette, curves, n, q);
        picture::law_curve_sets_nothing_else(
            before,
            w,
            h,
            pts,
            tone,
            palette.dash_of(c.slot as int),
            pts.len(),
            cell,
        );
        if before.lit.contains(q) {
            law_drawn_cells_have_a_colour(w, h, palette, curves, (n - 1) as nat, q);
            if after.tone[cell] == before.tone[cell] {
                let i = choose|i: int|
                    0 <= i < n - 1 && before.tone[cell] == (#[trigger] curves[i]).slot % 8 + 1;
                assert(after.tone[cell] == curves[i].slot % 8 + 1);
            } else {
                assert(after.tone[cell] == curves[n - 1].slot % 8 + 1);
            }
        } else {
            picture::lemma_new_pixel_colours(
                before,
                w,
                h,
                pts,
                tone,
                palette.dash_of(c.slot as int),
                pts.len(),
                q,
            );
            assert(after.tone[cell] == curves[n - 1].slot % 8 + 1);
        }
    }
}

// ---------------------------------------------------------------------------
// Cursor and legend
// ---------------------------------------------------------------------------
/// The data cursor stands in the column of its pixel, in every row of the plot
/// where no curve is, and nowhere else.
pub proof fn law_cursor_stands_in_its_column(
    area: Rect,
    p: picture::Picture,
    col: int,
    n: nat,
    r: int,
)
    requires
        0 <= col,
        0 <= r < n,
    ensures
        ({
            let ls = charts::cursor_lines(area, p, col / 2, n);
            &&& forall|i: int|
                0 <= i < ls.len() ==> 2 * ((#[trigger] ls[i]).x - area.x - 10) <= col < 2 * (
                ls[i].x - area.x - 10) + 2 && area.y + 1 <= ls[i].y <= area.y + n && ls[i].text
                    == "┊"@ && picture::cell_dots(p, ls[i].y - area.y - 1, ls[i].x - area.x - 10)
                    == 0
            &&& picture::cell_dots(p, r, col / 2) == 0 ==> exists|i: int|
                0 <= i < ls.len() && (#[trigger] ls[i]).y == area.y + 1 + r
        }),
    decreases n,
{
    let ls = charts::cursor_lines(area, p, col / 2, n);
    let fewer = charts::cursor_lines(area, p, col / 2, (n - 1) as nat);
    if n > 1 {
        law_cursor_stands_in_its_column(
            area,
            p,
            col,
            (n - 1) as nat,
            if r < n - 1 {
                r
            } else {
                0
            },
        );
    }
    assert forall|i: int| 0 <= i < ls.len() implies 2 * ((#[trigger] ls[i]).x - area.x - 10) <= col
        < 2 * (ls[i].x - area.x - 10) + 2 && area.y + 1 <= ls[i].y <= area.y + n && ls[i].text
        == "┊"@ && picture::cell_dots(p, ls[i].y - area.y - 1, ls[i].x - area.x - 10) == 0 by {
        if i < fewer.len() {
            assert(ls[i] == fewer[i]);
        }
    }
    if picture::cell_dots(p, r, col / 2) == 0 {
        if r < n - 1 {
            let i = choose|i: int|
                0 <= i < fewer.len() && (#[trigger] fewer[i]).y == area.y + 1 + r;
            assert(ls[i] == fewer[i]);
        } else {
            assert(ls[ls.len() - 1].y == area.y + 1 + r);
        }
    }
}

/// The legend has a line for each curve, from the top down: a mark in the
/// colour of the curve, and behind it the name, followed by the value and the
/// step under the cursor where there is one. It ends one column before the
/// right edge, if it fits.
pub proof fn law_legend_names_the_curves(
    area: Rect,
    palette: Palette,
    curves: Seq<Curve>,
    n: nat,
    k: int,
)
    requires
        charts::roomy(area),
        0 <= k < n <= curves.len(),
    ensures
        ({
            let ls = charts::legend_lines(area, palette, curves, n);
            let mark = ls[2 * k];
            let line = ls[2 * k + 1];
            let c = curves[k];
            &&& ls.len() == 2 * n
            &&& mark.y == area.y + 1 + k
            &&& line.y == area.y + 1 + k
            &&& line.x == mark.x + 2
            &&& mark.style.fg == Some(palette.color_of(c.slot as int))
            &&& mark.text == palette.dash_of(c.slot as int).marker_text()
            &&& line.text.len() >= c.name@.len()
            &&& line.text.take(c.name@.len() as int) == c.name@
            &&& c.readout is None ==> line.text == c.name@
            &&& c.readout matches Some((value, step)) ==> step >= 0 ==> line.text == c.name@ + "  "@
                + value@ + " @ "@ + numbers::count_text(step as nat)
            &&& mark.x >= area.x + 10
            &&& line.text.len() + 13 <= area.width && line.text.len() < 0x1_0000 ==> line.x
                + line.text.len() + 1 == area.x + area.width
        }),
    decreases n,
{
    let ls = charts::legend_lines(area, palette, curves, n);
    let fewer = charts::legend_lines(area, palette, curves, (n - 1) as nat);
    if n > 1 {
        law_legend_names_the_curves(
            area,
            palette,
            curves,
            (n - 1) as nat,
            if k < n - 1 {
                k
            } else {
                0
            },
        );
    }
    if k < n - 1 {
        assert(ls[2 * k] == fewer[2 * k]);
        assert(ls[2 * k + 1] == fewer[2 * k + 1]);
    } else {
        let c = curves[k];
        assert(fewer.len() == 2 * (n - 1));
        assert(charts::legend_text(c).take(c.name@.len() as int) =~= c.name@);
    }
}

// ---------------------------------------------------------------------------
// The whole
// ---------------------------------------------------------------------------
/// A line in the middle of an area has as much room on the one side as on the
/// other, give or take one column, where it fits, and stands in the middle row.
pub proof fn law_messages_are_centered(area: Rect, msg: Seq<char>)
    ensures
        ({
            let put = charts::centered(area, msg);
            &&& put.text == msg
            &&& put.x >= area.x
            &&& msg.len() <= area.width ==> 0 <= (area.x + area.width - (put.x + msg.len())) - (
            put.x - area.x) <= 1
            &&& msg.len() > area.width ==> put.x == area.x
            &&& 0 <= 2 * (put.y - area.y) <= area.height <= 2 * (put.y - area.y) + 1
        }),
{
}

/// A chart begins with its title, over the plot. It is bold if the chart stands
/// out, and marked if it is the first of a grid.
pub proof fn law_title_comes_first(
    cell: charts::ChartCell,
    tag: Seq<char>,
    grid: bool,
    palette: Palette,
    state: charts::ChartState,
)
    requires
        charts::roomy(cell.area),
    ensures
        ({
            let v = charts::chart_views(cell, tag, grid, palette, state);
            &&& v.len() > 0
            &&& v[0].x == cell.area.x + 10
            &&& v[0].y == cell.area.y
            &&& v[0].text.len() >= tag.len()
            &&& v[0].text.skip(v[0].text.len() - tag.len()) == tag
            &&& !(grid && cell.highlight) ==> v[0].text == tag
            &&& grid && cell.highlight ==> v[0].text == "▶ "@ + tag
        }),
{
    let v = charts::chart_views(cell, tag, grid, palette, state);
    assert(v[0] == charts::chart_title(cell.area, tag, grid, cell.highlight));
    let t = v[0].text;
    assert(t.skip(t.len() - tag.len()) =~= tag);
}

/// A chart without data says so, and an area that is too small shows nothing.
pub proof fn law_empty_charts_say_so(
    cell: charts::ChartCell,
    tag: Seq<char>,
    grid: bool,
    palette: Palette,
    state: charts::ChartState,
)
    ensures
        cell.area.height < 5 || cell.area.width < 21 ==> charts::chart_views(
            cell,
            tag,
            grid,
            palette,
            state,
        ).len() == 0,
        charts::roomy(cell.area) && state is NoData ==> {
            let v = charts::chart_views(cell, tag, grid, palette, state);
            v.len() == 2 && v[1].text == "no data in enabled runs"@
        },
        charts::roomy(cell.area) && state is NoPoints ==> {
            let v = charts::chart_views(cell, tag, grid, palette, state);
            v.len() == 2 && v[1].text == "no drawable points"@
        },
{
}

/// Behind the title come the axis, the ticks, the curves, the corner and the
/// labels, and at last, only where there is room for details, the cursor and the
/// legend of no more than eight curves.
pub proof fn law_parts_of_a_chart(
    cell: charts::ChartCell,
    tag: Seq<char>,
    grid: bool,
    palette: Palette,
    chart: Chart,
)
    requires
        charts::roomy(cell.area),
    ensures
        ({
            let area = cell.area;
            let w = area.width - 11;
            let h = area.height - 2;
            let p = charts::chart_picture(w, h, palette, chart.curves@, chart.curves@.len());
            let v = charts::chart_views(
                cell,
                tag,
                grid,
                palette,
                charts::ChartState::Drawn(chart),
            );
            let axis = charts::axis_lines(area, h as nat);
            let ticks = charts::tick_lines(area, chart.y_ticks@, chart.y_ticks@.len());
            let cells = charts::cell_lines(area, palette, p, h as nat);
            let labels = charts::label_lines(area, chart.x_labels@, chart.x_labels@.len());
            let legend = charts::legend_lines(
                area,
                palette,
                chart.curves@,
                if chart.curves@.len() < 8 {
                    chart.curves@.len()
                } else {
                    8
                },
            );
            let cursor = match chart.cursor {
                Some(col) => charts::cursor_lines(area, p, col as int / 2, h as nat),
                None => seq![],
            };
            let a = 1 + axis.len();
            let b = a + ticks.len();
            let c = b + cells.len();
            let d = c + 1 + labels.len();
            &&& v.subrange(1, a as int) == axis
            &&& v.subrange(a as int, b as int) == ticks
            &&& v.subrange(b as int, c as int) == cells
            &&& v[c as int].text == "└"@
            &&& v[c as int].x == area.x + 9
            &&& v[c as int].y == area.y + area.height - 1
            &&& v.subrange((c + 1) as int, d as int) == labels
            &&& cell.detailed ==> v.skip(d as int) == cursor + legend
            &&& !cell.detailed ==> v.len() == d
        }),
{
    let area = cell.area;
    let w = area.width - 11;
    let h = area.height - 2;
    let p = charts::chart_picture(w, h, palette, chart.curves@, chart.curves@.len());
    let v = charts::chart_views(cell, tag, grid, palette, charts::ChartState::Drawn(chart));
    let axis = charts::axis_lines(area, h as nat);
    let ticks = charts::tick_lines(area, chart.y_ticks@, chart.y_ticks@.len());
    let cells = charts::cell_lines(area, palette, p, h as nat);
    let labels = charts::label_lines(area, chart.x_labels@, chart.x_labels@.len());
    let a = 1 + axis.len();
    let b = a + ticks.len();
    let c = b + cells.len();
    let d = c + 1 + labels.len();
    assert(v.subrange(1, a as int) =~= axis);
    assert(v.subrange(a as int, b as int) =~= ticks);
    assert(v.subrange(b as int, c as int) =~= cells);
    assert(v.subrange((c + 1) as int, d as int) =~= labels);
    if cell.detailed {
        assert(v.skip(d as int) =~= charts::detail_lines(area, palette, chart, p));
    }
}

// ---------------------------------------------------------------------------
// Whose data
// ---------------------------------------------------------------------------
/// A run is charted if and only if it is listed, shown, and has points of the
/// tag, and the charted runs keep the order of the list.
pub proof fn law_charted_runs(
    st: crate::store::StoreView,
    disabled: Set<Seq<char>>,
    names: Seq<Seq<char>>,
    tag: Seq<char>,
    n: Seq<char>,
)
    ensures
        charts::charted(st, disabled, names, tag).contains(n) <==> {
            &&& names.contains(n)
            &&& !disabled.contains(n)
            &&& st.runs.contains_key(n)
            &&& st.runs[n].series.contains_key(tag)
            &&& st.runs[n].series[tag].points.len() > 0
        },
        crate::text::ascending(names) ==> crate::text::ascending(
            charts::charted(st, disabled, names, tag),
        ),
    decreases names.len(),
{
    let all = charts::charted(st, disabled, names, tag);
    if names.len() > 0 {
        let fewer = names.drop_last();
        let rest = charts::charted(st, disabled, fewer, tag);
        let last = names.last();
        law_charted_runs(st, disabled, fewer, tag, n);
        assert(names[names.len() - 1] == last);
        if all.contains(n) {
            let i = choose|i: int| 0 <= i < all.len() && all[i] == n;
            if i < rest.len() {
                assert(rest[i] == n);
                let j = choose|j: int| 0 <= j < fewer.len() && fewer[j] == n;
                assert(names[j] == n);
            }
        }
        if names.contains(n) && charts::has_points(st, disabled, n, tag) {
            let j = choose|j: int| 0 <= j < names.len() && names[j] == n;
            if j < fewer.len() {
                assert(fewer[j] == n);
                let i = choose|i: int| 0 <= i < rest.len() && rest[i] == n;
                assert(all[i] == n);
            } else {
                assert(all[all.len() - 1] == n);
            }
        }
        if crate::text::ascending(names) {
            assert forall|i: int, j: int| 0 <= i < j < fewer.len() implies #[trigger]
            crate::text::text_lt(fewer[i], fewer[j]) by {
                assert(crate::text::text_lt(names[i], names[j]));
            }
            assert forall|i: int, j: int| 0 <= i < j < all.len() implies #[trigger]
            crate::text::text_lt(all[i], all[j]) by {
                if j < rest.len() {
                    assert(crate::text::text_lt(rest[i], rest[j]));
                } else {
                    assert(rest.contains(rest[i]));
                    law_charted_runs(st, disabled, fewer, tag, rest[i]);
                    let x = choose|x: int| 0 <= x < fewer.len() && fewer[x] == rest[i];
                    assert(crate::text::text_lt(names[x], names[names.len() - 1]));
                }
            }
        }
    }
}

/// There is room for a plot if it gets ten columns and three rows at least.
pub proof fn law_room_for_a_plot(area: Rect)
    ensures
        charts::roomy(area) <==> charts::plot_w(area) >= 10 && charts::plot_h(area) >= 3,
{
}

/// What a chart says in place of a plot stands between its first row, which has
/// the title, and its last one.
pub proof fn law_messages_leave_the_title(area: Rect, x: int, y: int)
    requires
        area.wf(),
        area.height >= 2,
    ensures
        charts::message_area(area).has(x, y) <==> area.has(x, y) && y != area.y && y != area.y
            + area.height - 1,
{
}

} // verus!
