//! Charts: which ones are drawn, where, and with what.
use vstd::prelude::*;

use crate::app;
use crate::app::App;
use crate::colors::Palette;
use crate::layout;
use crate::layout::{cell_of, grid_shape};
use crate::numbers;
use crate::numbers::fmt_count;
use crate::paint;
use crate::paint::{add_put, mark, style_of, Put, PutView, Rect, Style, BOLD, DIM};
use crate::picture;
use crate::plot::BrailleCanvas;
use crate::store;
use crate::store::Store;
use crate::tags;
use crate::text;

verus! {

// ---------------------------------------------------------------------------
// Which charts
// ---------------------------------------------------------------------------
/// A line in the middle of an area.
pub open spec fn centered(area: Rect, msg: Seq<char>) -> PutView {
    PutView {
        x: area.x + layout::larger(area.width - msg.len(), 0) / 2,
        y: area.y + area.height as int / 2,
        text: msg,
        style: paint::with_bits(0x02),
    }
}

/// A line in the middle of an area.
pub fn center_msg(area: Rect, msg: &str) -> (r: Put)
    requires
        area.wf(),
    ensures
        r@ == centered(area, msg@),
{
    let n: usize = text::char_count(msg);
    let w: usize = area.width as usize;
    let gap: usize = if n < w {
        w - n
    } else {
        0
    };
    Put {
        x: area.x + (gap / 2) as u16,
        y: area.y + area.height / 2,
        text: msg.to_string(),
        style: style_of(DIM),
    }
}

/// A chart to draw: where, of which of the tags, with cursor and legend or
/// without, and whether its title stands out.
#[derive(Clone, Copy, PartialEq, Eq, Structural, Debug)]
pub struct ChartCell {
    pub area: Rect,
    pub tag: usize,
    pub detailed: bool,
    pub highlight: bool,
}

/// What the chart pane shows.
pub enum ChartsPlan {
    Message(Put),
    Cells(Vec<ChartCell>),
}

/// The tag whose chart comes first: the first one to which the selected row
/// leads, or the first of all if it leads to none.
pub open spec fn first_tag(a: app::AppView, names: Seq<Seq<char>>, first: int) -> bool {
    let rows = app::shown_rows(a, names);
    let row = rows[app::within(a.tag_sel, rows.len() as int)];
    if rows.len() == 0 || forall|j: int|
        0 <= j < names.len() ==> !tags::leads_to(row, #[trigger] names[j]) {
        first == 0
    } else {
        &&& 0 <= first < names.len()
        &&& tags::leads_to(row, names[first])
        &&& forall|j: int| 0 <= j < first ==> !tags::leads_to(row, #[trigger] names[j])
    }
}

/// The charts of the grid: so many from the first tag on.
pub open spec fn grid_cells(area: Rect, first: int, cols: int, rows: int, n: nat) -> Seq<ChartCell> {
    Seq::new(
        n,
        |i: int|
            ChartCell {
                area: layout::grid_cell(area, cols, rows, i),
                tag: (first + i) as usize,
                detailed: false,
                highlight: i == 0,
            },
    )
}

/// What the chart pane shows: a message where there is nothing to chart, else
/// one chart, or a grid of them.
pub open spec fn plans(plan: ChartsPlan, a: app::AppView, area: Rect, names: Seq<Seq<char>>) -> bool {
    if !a.loaded {
        plan matches ChartsPlan::Message(p) && p@ == centered(area, "loading event files…"@)
    } else if names.len() == 0 {
        plan matches ChartsPlan::Message(p) && p@ == centered(
            area,
            if a.filter_text.len() == 0 {
                "no scalars found"@
            } else {
                "no tags match filter"@
            },
        )
    } else {
        &&& plan matches ChartsPlan::Cells(cells)
        &&& exists|first: int| #[trigger]
            first_tag(a, names, first) && if a.grid {
                let n = layout::chart_count(
                    area.width as int,
                    area.height as int,
                    names.len() - first,
                );
                exists|cols: int| #[trigger]
                    layout::best_cols(area.width as int, area.height as int, n, cols) && cells@
                        == grid_cells(area, first, cols, layout::rows_for(n, cols), n as nat)
            } else {
                cells@ == seq![
                    ChartCell { area, tag: first as usize, detailed: true, highlight: true },
                ]
            }
    }
}

/// Plan the chart pane.
pub fn plan_charts(area: Rect, app: &App, names: &[String]) -> (r: ChartsPlan)
    requires
        app.wf(),
        area.wf(),
    ensures
        plans(r, app@, area, text::texts(names@)),
        r matches ChartsPlan::Cells(cells) ==> forall|i: int|
            0 <= i < cells@.len() ==> (#[trigger] cells@[i]).tag < names@.len() && cells@[i].area.wf()
                && cells@[i].area.inside(area),
{
    let ghost all = text::texts(names@);
    assert(all.len() == names@.len());
    if !app.loaded {
        return ChartsPlan::Message(center_msg(area, "loading event files…"));
    }
    if names.len() == 0 {
        let msg: &str = if text::char_count(app.filter_text.as_str()) == 0 {
            "no scalars found"
        } else {
            "no tags match filter"
        };
        return ChartsPlan::Message(center_msg(area, msg));
    }
    let first: usize = match app.selected_tag(names) {
        Some(i) => i,
        None => 0,
    };
    assert(first_tag(app@, all, first as int));
    let mut out: Vec<ChartCell> = Vec::new();
    if !app.grid {
        out.push(ChartCell { area, tag: first, detailed: true, highlight: true });
        assert(out@ =~= seq![
            ChartCell { area, tag: first as usize, detailed: true, highlight: true },
        ]);
        return ChartsPlan::Cells(out);
    }
    let (cols, rows, n) = grid_shape(area, names.len() - first);
    let mut i: u16 = 0;
    assert(cols * rows <= 9) by (nonlinear_arith)
        requires
            cols <= 3,
            rows <= 3,
    ;
    while (i as usize) < n
        invariant
            area.wf(),
            i <= n,
            1 <= cols <= 3,
            1 <= rows <= 3,
            n <= cols * rows,
            n <= 9,
            first < names.len(),
            n <= names.len() - first,
            out@ == grid_cells(area, first as int, cols as int, rows as int, i as nat),
            forall|k: int|
                0 <= k < out@.len() ==> (#[trigger] out@[k]).tag < names@.len()
                    && out@[k].area.wf() && out@[k].area.inside(area),
        decreases n - i,
    {
        proof {
            assert(i as int / (cols as int) < rows) by (nonlinear_arith)
                requires
                    i < cols * rows,
                    0 < cols,
            ;
        }
        let cell: Rect = cell_of(area, cols, rows, i);
        out.push(
            ChartCell { area: cell, tag: first + i as usize, detailed: false, highlight: i == 0 },
        );
        i = i + 1;
        assert(out@ =~= grid_cells(area, first as int, cols as int, rows as int, i as nat));
    }
    ChartsPlan::Cells(out)
}

// ---------------------------------------------------------------------------
// Whose data
// ---------------------------------------------------------------------------
/// The run is shown and has points of this tag.
pub open spec fn has_points(
    st: store::StoreView,
    disabled: Set<Seq<char>>,
    name: Seq<char>,
    tag: Seq<char>,
) -> bool {
    &&& !disabled.contains(name)
    &&& st.runs.contains_key(name)
    &&& st.runs[name].series.contains_key(tag)
    &&& st.runs[name].series[tag].points.len() > 0
}

/// The runs that are charted, in their order.
pub open spec fn charted(
    st: store::StoreView,
    disabled: Set<Seq<char>>,
    names: Seq<Seq<char>>,
    tag: Seq<char>,
) -> Seq<Seq<char>>
    decreases names.len(),
{
    if names.len() == 0 {
        seq![]
    } else {
        let rest = charted(st, disabled, names.drop_last(), tag);
        if has_points(st, disabled, names.last(), tag) {
            rest.push(names.last())
        } else {
            rest
        }
    }
}

/// Whether the run is shown and has points of this tag.
fn run_has_points(store: &Store, app: &App, name: &str, tag: &str) -> (r: bool)
    requires
        store.wf(),
        app.wf(),
    ensures
        r == has_points(store@, app@.disabled, name@, tag@),
{
    if app.disabled.contains(name) {
        return false;
    }
    match store.runs.find(name) {
        Ok(i) => {
            proof {
                store.runs.lemma_position(i as int);
            }
            let run: &store::Run = &store.runs.vals[i];
            match run.series.get(tag) {
                Some(s) => !s.is_empty(),
                None => false,
            }
        },
        Err(_) => false,
    }
}

/// The runs that are charted, in their order.
pub fn charted_runs(store: &Store, app: &App, names: &[String], tag: &str) -> (r: Vec<String>)
    requires
        store.wf(),
        app.wf(),
    ensures
        text::texts(r@) == charted(store@, app@.disabled, text::texts(names@), tag@),
{
    let mut out: Vec<String> = Vec::new();
    let ghost all = text::texts(names@);
    let mut i: usize = 0;
    assert(all.take(0) =~= seq![]);
    assert(text::texts(out@) =~= seq![]);
    while i < names.len()
        invariant
            store.wf(),
            app.wf(),
            all == text::texts(names@),
            i <= names@.len(),
            text::texts(out@) == charted(store@, app@.disabled, all.take(i as int), tag@),
        decreases names.len() - i,
    {
        assert(all.take(i + 1).drop_last() =~= all.take(i as int));
        assert(all.take(i + 1).last() == names@[i as int]@);
        if run_has_points(store, app, names[i].as_str(), tag) {
            let ghost before = out@;
            out.push(names[i].clone());
            assert(text::texts(out@) =~= text::texts(before).push(names@[i as int]@));
        }
        i = i + 1;
    }
    assert(all.take(i as int) =~= all);
    out
}

// ---------------------------------------------------------------------------
// One chart
// ---------------------------------------------------------------------------
/// A curve: whose it is, its colour slot, the pixels that it goes through, and
/// the value and step under the data cursor, if there is one.
pub struct Curve {
    pub name: String,
    pub slot: usize,
    pub pts: Vec<(i64, i64)>,
    pub readout: Option<(String, i64)>,
}

/// What a chart shows.
pub struct Chart {
    pub curves: Vec<Curve>,
    /// Pixel rows with the values that they stand for.
    pub y_ticks: Vec<(i64, String)>,
    /// Columns of the plot with the values that they stand for.
    pub x_labels: Vec<(u16, String)>,
    /// The pixel column of the data cursor.
    pub cursor: Option<usize>,
}

/// Columns that the labels of the vertical axis take.
pub const GUTTER: u16 = 9;

/// The area is large enough for a chart.
pub open spec fn roomy(area: Rect) -> bool {
    area.height >= 5 && area.width >= 21
}

/// Width of the plot in cells.
pub open spec fn plot_w(area: Rect) -> int {
    area.width - 11
}

/// Height of the plot in cells.
pub open spec fn plot_h(area: Rect) -> int {
    area.height - 2
}

/// The column of the vertical axis.
pub open spec fn axis_x(area: Rect) -> int {
    area.x + 9
}

/// Whether the area is large enough for a chart.
pub fn is_roomy(area: Rect) -> (r: bool)
    ensures
        r == roomy(area),
{
    area.height >= 5 && area.width >= 21
}

/// Width and height of the plot in cells.
pub fn plot_size(area: Rect) -> (r: (usize, usize))
    requires
        roomy(area),
    ensures
        r.0 == plot_w(area),
        r.1 == plot_h(area),
{
    ((area.width - 11) as usize, (area.height - 2) as usize)
}

/// How many pieces the horizontal axis is labelled in.
pub fn x_pieces(width: usize) -> (r: usize)
    ensures
        r == layout::larger(width as int / 22, 2),
{
    if width / 22 < 2 {
        2
    } else {
        width / 22
    }
}

/// How many ticks the vertical axis is to have.
pub fn y_tick_goal(height: usize) -> (r: usize)
    ensures
        r == layout::larger(height as int / 4, 3),
{
    if height / 4 < 3 {
        3
    } else {
        height / 4
    }
}

/// The colour number of a slot: the hues count from one.
pub open spec fn tone_of(slot: int) -> u8 {
    (slot % 8 + 1) as u8
}

/// The picture of the first `k` curves.
pub open spec fn chart_picture(
    w: int,
    h: int,
    palette: Palette,
    curves: Seq<Curve>,
    k: nat,
) -> picture::Picture
    decreases k,
{
    if k == 0 {
        picture::blank(w, h)
    } else {
        let c = curves[k - 1];
        picture::with_curve(
            chart_picture(w, h, palette, curves, (k - 1) as nat),
            w,
            h,
            c.pts@,
            tone_of(c.slot as int),
            palette.dash_of(c.slot as int),
            c.pts@.len(),
        )
    }
}

/// The title: bold, dim where another chart stands out, and with a mark where
/// it is the first of a grid.
pub open spec fn chart_title(area: Rect, tag: Seq<char>, grid: bool, highlight: bool) -> PutView {
    PutView {
        x: area.x + 10,
        y: area.y as int,
        text: if highlight && grid {
            "▶ "@ + tag
        } else {
            tag
        },
        style: paint::with_bits(
            if highlight {
                0x01
            } else {
                0x03
            },
        ),
    }
}

/// The vertical axis, in its first `k` rows.
pub open spec fn axis_lines(area: Rect, k: nat) -> Seq<PutView> {
    Seq::new(
        k,
        |i: int|
            PutView {
                x: axis_x(area),
                y: area.y + 1 + i,
                text: "│"@,
                style: paint::with_bits(0x02),
            },
    )
}

/// A label of the vertical axis, cut to the room that there is.
pub open spec fn gutter_label(label: Seq<char>) -> Seq<char> {
    if label.len() > 9 {
        label.take(9)
    } else {
        label
    }
}

/// The row of the plot in which a pixel row is, or the nearest.
pub open spec fn tick_row(area: Rect, py: int) -> int {
    layout::clamped(py / 4, 0, plot_h(area) - 1)
}

/// The first `k` ticks of the vertical axis, a label and a cross for each.
pub open spec fn tick_lines(area: Rect, ticks: Seq<(i64, String)>, k: nat) -> Seq<PutView>
    decreases k,
{
    if k == 0 {
        seq![]
    } else {
        let t = ticks[k - 1];
        let label = gutter_label(t.1@);
        let y = area.y + 1 + tick_row(area, t.0 as int);
        tick_lines(area, ticks, (k - 1) as nat) + seq![
            PutView {
                x: area.x + 9 - label.len(),
                y,
                text: label,
                style: paint::with_bits(0x02),
            },
            PutView { x: axis_x(area), y, text: "┼"@, style: paint::with_bits(0x02) },
        ]
    }
}

/// The line of a cell with dots.
pub open spec fn cell_line(
    area: Rect,
    palette: Palette,
    p: picture::Picture,
    r: int,
    c: int,
) -> Seq<PutView> {
    if picture::cell_dots(p, r, c) == 0 {
        seq![]
    } else {
        seq![
            PutView {
                x: axis_x(area) + 1 + c,
                y: area.y + 1 + r,
                text: seq![picture::glyph(p, r, c)],
                style: paint::mark_style(palette.color_of(p.tone[(r, c)] + 7)),
            },
        ]
    }
}

/// The lines of the first `c` cells of a row.
pub open spec fn cells_of_row(
    area: Rect,
    palette: Palette,
    p: picture::Picture,
    r: int,
    c: nat,
) -> Seq<PutView>
    decreases c,
{
    if c == 0 {
        seq![]
    } else {
        cells_of_row(area, palette, p, r, (c - 1) as nat) + cell_line(area, palette, p, r, c - 1)
    }
}

/// The lines of the cells of the first `r` rows.
pub open spec fn cell_lines(area: Rect, palette: Palette, p: picture::Picture, r: nat) -> Seq<
    PutView,
>
    decreases r,
{
    if r == 0 {
        seq![]
    } else {
        cell_lines(area, palette, p, (r - 1) as nat) + cells_of_row(
            area,
            palette,
            p,
            r - 1,
            plot_w(area) as nat,
        )
    }
}

/// Where a label of the horizontal axis starts: at its column, the last one so
/// that it ends there, and none so that it runs out of the chart.
pub open spec fn label_x(area: Rect, at: int, len: int, last: bool) -> int {
    let left = axis_x(area) + 1;
    let px = left + at - if last {
        len
    } else {
        0
    };
    layout::clamped(px, left, layout::larger(area.x + area.width - len - 1, left))
}

/// The first `k` labels of the horizontal axis.
pub open spec fn label_lines(area: Rect, labels: Seq<(u16, String)>, k: nat) -> Seq<PutView>
    decreases k,
{
    if k == 0 {
        seq![]
    } else {
        let l = labels[k - 1];
        label_lines(area, labels, (k - 1) as nat).push(
            PutView {
                x: label_x(area, l.0 as int, l.1@.len() as int, k == labels.len()),
                y: area.y + 1 + plot_h(area),
                text: l.1@,
                style: paint::with_bits(0x02),
            },
        )
    }
}

/// The data cursor, in the blank cells of the first `k` rows.
pub open spec fn cursor_lines(area: Rect, p: picture::Picture, cell: int, k: nat) -> Seq<PutView>
    decreases k,
{
    if k == 0 {
        seq![]
    } else {
        let rest = cursor_lines(area, p, cell, (k - 1) as nat);
        if picture::cell_dots(p, k - 1, cell) == 0 {
            rest.push(
                PutView {
                    x: axis_x(area) + 1 + cell,
                    y: area.y + k,
                    text: "┊"@,
                    style: paint::with_bits(0x02),
                },
            )
        } else {
            rest
        }
    }
}

/// The text of a curve in the legend.
pub open spec fn legend_text(c: Curve) -> Seq<char> {
    match c.readout {
        None => c.name@,
        Some((value, step)) => c.name@ + "  "@ + value@ + " @ "@ + numbers::count_text(
            layout::larger(step as int, 0) as nat,
        ),
    }
}

/// Where a legend text of so many characters starts: so that it ends at the
/// right edge, but not before the plot.
pub open spec fn legend_x(area: Rect, len: int) -> int {
    layout::larger(area.x + area.width - (len % 0x1_0000 + 3), area.x + 10)
}

/// The legend of the first `k` curves: a mark and a text for each.
pub open spec fn legend_lines(area: Rect, palette: Palette, curves: Seq<Curve>, k: nat) -> Seq<
    PutView,
>
    decreases k,
{
    if k == 0 {
        seq![]
    } else {
        let c = curves[k - 1];
        let x = legend_x(area, legend_text(c).len() as int);
        legend_lines(area, palette, curves, (k - 1) as nat) + seq![
            PutView {
                x,
                y: area.y + k,
                text: palette.dash_of(c.slot as int).marker_text(),
                style: paint::mark_style(palette.color_of(c.slot as int)),
            },
            PutView { x: x + 2, y: area.y + k, text: legend_text(c), style: paint::with_bits(0) },
        ]
    }
}

/// The lines of the plot: axes, ticks, curves and labels.
pub open spec fn plot_lines(area: Rect, palette: Palette, chart: Chart, p: picture::Picture) -> Seq<
    PutView,
> {
    axis_lines(area, plot_h(area) as nat) + tick_lines(
        area,
        chart.y_ticks@,
        chart.y_ticks@.len(),
    ) + cell_lines(area, palette, p, plot_h(area) as nat) + seq![
        PutView {
            x: axis_x(area),
            y: area.y + 1 + plot_h(area),
            text: "└"@,
            style: paint::with_bits(0x02),
        },
    ] + label_lines(area, chart.x_labels@, chart.x_labels@.len())
}

/// Cursor and legend.
pub open spec fn detail_lines(
    area: Rect,
    palette: Palette,
    chart: Chart,
    p: picture::Picture,
) -> Seq<PutView> {
    (match chart.cursor {
        Some(col) => cursor_lines(area, p, col as int / 2, plot_h(area) as nat),
        None => seq![],
    }) + legend_lines(
        area,
        palette,
        chart.curves@,
        layout::smaller(chart.curves@.len() as int, 8) as nat,
    )
}

fn draw_curves(area: Rect, palette: &Palette, curves: &Vec<Curve>) -> (r: BrailleCanvas)
    requires
        roomy(area),
    ensures
        r.w == plot_w(area),
        r.h() == plot_h(area),
        picture::shows(
            r,
            chart_picture(plot_w(area), plot_h(area), *palette, curves@, curves@.len()),
        ),
{
    let (w, h) = plot_size(area);
    proof {
        assert(w * h <= 0xffff_ffff) by (nonlinear_arith)
            requires
                w <= 0xffff,
                h <= 0xffff,
        ;
    }
    let mut canvas: BrailleCanvas = picture::new_canvas(w, h);
    let mut i: usize = 0;
    while i < curves.len()
        invariant
            i <= curves@.len(),
            canvas.w == w,
            canvas.h() == h,
            w == plot_w(area),
            h == plot_h(area),
            picture::shows(canvas, chart_picture(w as int, h as int, *palette, curves@, i as nat)),
        decreases curves.len() - i,
    {
        let c: &Curve = &curves[i];
        let tone: u8 = (c.slot % 8 + 1) as u8;
        assert(tone == tone_of(c.slot as int));
        picture::draw_curve(
            &mut canvas,
            &c.pts,
            tone,
            palette.dash(c.slot),
            Ghost(chart_picture(w as int, h as int, *palette, curves@, i as nat)),
        );
        i = i + 1;
    }
    canvas
}

fn add_axis(area: Rect, out: &mut Vec<Put>)
    requires
        area.wf(),
        roomy(area),
    ensures
        paint::put_views(final(out)@) == paint::put_views(old(out)@) + axis_lines(
            area,
            plot_h(area) as nat,
        ),
{
    let ghost start = paint::put_views(out@);
    let h: u16 = area.height - 2;
    let mut i: u16 = 0;
    assert(start + axis_lines(area, 0) =~= start);
    while i < h
        invariant
            area.wf(),
            roomy(area),
            h == area.height - 2,
            i <= h,
            paint::put_views(out@) == start + axis_lines(area, i as nat),
        decreases h - i,
    {
        add_put(out, area.x + GUTTER, area.y + 1 + i, "│".to_string(), style_of(DIM));
        i = i + 1;
        assert(paint::put_views(out@) =~= start + axis_lines(area, i as nat));
    }
}

fn cut_label(label: &str) -> (r: String)
    ensures
        r@ == gutter_label(label@),
        r@.len() <= 9,
{
    let chars: Vec<char> = text::chars_of(label);
    if chars.len() > 9 {
        let mut out: String = String::new();
        text::push_chars(&mut out, &chars, 0, 9);
        assert(out@ =~= label@.take(9));
        out
    } else {
        label.to_string()
    }
}

fn row_of_tick(area: Rect, py: i64) -> (r: u16)
    requires
        roomy(area),
    ensures
        r == tick_row(area, py as int),
{
    let last: i64 = area.height as i64 - 3;
    if py < 0 {
        0
    } else if py / 4 > last {
        last as u16
    } else {
        (py / 4) as u16
    }
}

fn add_ticks(area: Rect, ticks: &Vec<(i64, String)>, out: &mut Vec<Put>)
    requires
        area.wf(),
        roomy(area),
    ensures
        paint::put_views(final(out)@) == paint::put_views(old(out)@) + tick_lines(
            area,
            ticks@,
            ticks@.len(),
        ),
{
    let ghost start = paint::put_views(out@);
    let mut i: usize = 0;
    assert(start + tick_lines(area, ticks@, 0) =~= start);
    while i < ticks.len()
        invariant
            area.wf(),
            roomy(area),
            i <= ticks@.len(),
            paint::put_views(out@) == start + tick_lines(area, ticks@, i as nat),
        decreases ticks.len() - i,
    {
        let label: String = cut_label(ticks[i].1.as_str());
        let n: u16 = text::char_count(label.as_str()) as u16;
        let y: u16 = area.y + 1 + row_of_tick(area, ticks[i].0);
        add_put(out, area.x + GUTTER - n, y, label, style_of(DIM));
        add_put(out, area.x + GUTTER, y, "┼".to_string(), style_of(DIM));
        i = i + 1;
        assert(paint::put_views(out@) =~= start + tick_lines(area, ticks@, i as nat));
    }
}

fn add_cell(
    area: Rect,
    palette: &Palette,
    canvas: &BrailleCanvas,
    r: u16,
    c: u16,
    out: &mut Vec<Put>,
    Ghost(p): Ghost<picture::Picture>,
)
    requires
        area.wf(),
        roomy(area),
        canvas.w == plot_w(area),
        canvas.h() == plot_h(area),
        picture::shows(*canvas, p),
        r < plot_h(area),
        c < plot_w(area),
    ensures
        paint::put_views(final(out)@) == paint::put_views(old(out)@) + cell_line(
            area,
            *palette,
            p,
            r as int,
            c as int,
        ),
{
    let ghost start = paint::put_views(out@);
    proof {
        picture::lemma_cell_dots(*canvas, p, r as int, c as int);
        assert(canvas.color_at(r as int, c as int) == p.tone[(r as int, c as int)]);
    }
    match canvas.cell_char(r as usize, c as usize) {
        Some((ch, tone)) => {
            let mut s: String = String::new();
            text::push_char(&mut s, ch);
            proof {
                assert(ch == picture::glyph(p, r as int, c as int));
                assert(s@ =~= seq![ch]);
            }
            add_put(
                out,
                area.x + GUTTER + 1 + c,
                area.y + 1 + r,
                s,
                mark(palette.color(tone as usize + 7)),
            );
        },
        None => {},
    }
    assert(paint::put_views(out@) =~= start + cell_line(area, *palette, p, r as int, c as int));
}

fn add_cells(
    area: Rect,
    palette: &Palette,
    canvas: &BrailleCanvas,
    out: &mut Vec<Put>,
    Ghost(p): Ghost<picture::Picture>,
)
    requires
        area.wf(),
        roomy(area),
        canvas.w == plot_w(area),
        canvas.h() == plot_h(area),
        picture::shows(*canvas, p),
    ensures
        paint::put_views(final(out)@) == paint::put_views(old(out)@) + cell_lines(
            area,
            *palette,
            p,
            plot_h(area) as nat,
        ),
{
    let ghost start = paint::put_views(out@);
    let w: u16 = area.width - 11;
    let h: u16 = area.height - 2;
    let mut r: u16 = 0;
    assert(start + cell_lines(area, *palette, p, 0) =~= start);
    while r < h
        invariant
            area.wf(),
            roomy(area),
            w == plot_w(area),
            h == plot_h(area),
            canvas.w == plot_w(area),
            canvas.h() == plot_h(area),
            picture::shows(*canvas, p),
            r <= h,
            paint::put_views(out@) == start + cell_lines(area, *palette, p, r as nat),
        decreases h - r,
    {
        let ghost row_start = paint::put_views(out@);
        let mut c: u16 = 0;
        assert(row_start + cells_of_row(area, *palette, p, r as int, 0) =~= row_start);
        while c < w
            invariant
                area.wf(),
                roomy(area),
                w == plot_w(area),
                h == plot_h(area),
                canvas.w == plot_w(area),
                canvas.h() == plot_h(area),
                picture::shows(*canvas, p),
                r < h,
                c <= w,
                paint::put_views(out@) == row_start + cells_of_row(
                    area,
                    *palette,
                    p,
                    r as int,
                    c as nat,
                ),
            decreases w - c,
        {
            add_cell(area, palette, canvas, r, c, out, Ghost(p));
            c = c + 1;
            assert(paint::put_views(out@) =~= row_start + cells_of_row(
                area,
                *palette,
                p,
                r as int,
                c as nat,
            ));
        }
        r = r + 1;
        assert(paint::put_views(out@) =~= start + cell_lines(area, *palette, p, r as nat));
    }
}

fn x_of_label(area: Rect, at: u16, len: usize, last: bool) -> (r: u16)
    requires
        area.wf(),
        roomy(area),
    ensures
        r == label_x(area, at as int, len as int, last),
{
    let left: i128 = area.x as i128 + 10;
    let px: i128 = left + at as i128 - if last {
        len as i128
    } else {
        0
    };
    let room: i128 = area.x as i128 + area.width as i128 - len as i128 - 1;
    let most: i128 = if room < left {
        left
    } else {
        room
    };
    if px < left {
        left as u16
    } else if px > most {
        most as u16
    } else {
        px as u16
    }
}

fn add_labels(area: Rect, labels: &Vec<(u16, String)>, out: &mut Vec<Put>)
    requires
        area.wf(),
        roomy(area),
    ensures
        paint::put_views(final(out)@) == paint::put_views(old(out)@) + label_lines(
            area,
            labels@,
            labels@.len(),
        ),
{
    let ghost start = paint::put_views(out@);
    let y: u16 = area.y + area.height - 1;
    let mut i: usize = 0;
    assert(start + label_lines(area, labels@, 0) =~= start);
    while i < labels.len()
        invariant
            area.wf(),
            roomy(area),
            y == area.y + 1 + plot_h(area),
            i <= labels@.len(),
            paint::put_views(out@) == start + label_lines(area, labels@, i as nat),
        decreases labels.len() - i,
    {
        let n: usize = text::char_count(labels[i].1.as_str());
        let x: u16 = x_of_label(area, labels[i].0, n, i + 1 == labels.len());
        add_put(out, x, y, labels[i].1.clone(), style_of(DIM));
        i = i + 1;
        assert(paint::put_views(out@) =~= start + label_lines(area, labels@, i as nat));
    }
}

fn add_cursor(
    area: Rect,
    canvas: &BrailleCanvas,
    col: usize,
    out: &mut Vec<Put>,
    Ghost(p): Ghost<picture::Picture>,
)
    requires
        area.wf(),
        roomy(area),
        canvas.w == plot_w(area),
        canvas.h() == plot_h(area),
        picture::shows(*canvas, p),
        col < 2 * plot_w(area),
    ensures
        paint::put_views(final(out)@) == paint::put_views(old(out)@) + cursor_lines(
            area,
            p,
            col as int / 2,
            plot_h(area) as nat,
        ),
{
    let ghost start = paint::put_views(out@);
    let h: u16 = area.height - 2;
    let cell: u16 = (col / 2) as u16;
    let mut r: u16 = 0;
    assert(start + cursor_lines(area, p, cell as int, 0) =~= start);
    while r < h
        invariant
            area.wf(),
            roomy(area),
            h == plot_h(area),
            canvas.w == plot_w(area),
            canvas.h() == plot_h(area),
            picture::shows(*canvas, p),
            cell < plot_w(area),
            r <= h,
            paint::put_views(out@) == start + cursor_lines(area, p, cell as int, r as nat),
        decreases h - r,
    {
        proof {
            picture::lemma_cell_dots(*canvas, p, r as int, cell as int);
        }
        let ghost before = paint::put_views(out@);
        match canvas.cell_char(r as usize, cell as usize) {
            Some(_) => {},
            None => {
                add_put(
                    out,
                    area.x + GUTTER + 1 + cell,
                    area.y + 1 + r,
                    "┊".to_string(),
                    style_of(DIM),
                );
            },
        }
        r = r + 1;
        assert(paint::put_views(out@) =~= start + cursor_lines(area, p, cell as int, r as nat));
    }
}

fn text_in_legend(c: &Curve) -> (r: String)
    ensures
        r@ == legend_text(*c),
{
    let mut out: String = c.name.clone();
    match &c.readout {
        None => {},
        Some((value, step)) => {
            out.append("  ");
            out.append(value.as_str());
            out.append(" @ ");
            let n: u64 = if *step > 0 {
                *step as u64
            } else {
                0
            };
            out.append(fmt_count(n).as_str());
        },
    }
    out
}

fn x_in_legend(area: Rect, len: usize) -> (r: u16)
    requires
        area.wf(),
        roomy(area),
    ensures
        r == legend_x(area, len as int),
        r + 2 <= u16::MAX,
{
    let n: i32 = (len % 0x1_0000) as i32 + 3;
    let right: i32 = area.x as i32 + area.width as i32;
    let left: i32 = area.x as i32 + 10;
    if right - n < left {
        left as u16
    } else {
        (right - n) as u16
    }
}

fn add_legend(area: Rect, palette: &Palette, curves: &Vec<Curve>, out: &mut Vec<Put>)
    requires
        area.wf(),
        roomy(area),
        area.y + 8 <= u16::MAX,
    ensures
        paint::put_views(final(out)@) == paint::put_views(old(out)@) + legend_lines(
            area,
            *palette,
            curves@,
            layout::smaller(curves@.len() as int, 8) as nat,
        ),
{
    let ghost start = paint::put_views(out@);
    let mut i: usize = 0;
    assert(start + legend_lines(area, *palette, curves@, 0) =~= start);
    while i < curves.len() && i < 8
        invariant
            area.wf(),
            roomy(area),
            area.y + 8 <= u16::MAX,
            i <= layout::smaller(curves@.len() as int, 8),
            paint::put_views(out@) == start + legend_lines(area, *palette, curves@, i as nat),
        decreases curves.len() - i,
    {
        let c: &Curve = &curves[i];
        let line: String = text_in_legend(c);
        let x: u16 = x_in_legend(area, text::char_count(line.as_str()));
        let y: u16 = area.y + 1 + i as u16;
        add_put(
            out,
            x,
            y,
            palette.dash(c.slot).marker().to_string(),
            mark(palette.color(c.slot)),
        );
        add_put(out, x + 2, y, line, style_of(0));
        i = i + 1;
        assert(paint::put_views(out@) =~= start + legend_lines(
            area,
            *palette,
            curves@,
            i as nat,
        ));
    }
}

/// What there is to draw in a chart.
pub enum ChartState {
    /// No run that is shown has points of the tag.
    NoData,
    /// None of the points can be drawn.
    NoPoints,
    Drawn(Chart),
}

/// The part of a chart in which a message stands.
pub open spec fn message_area(area: Rect) -> Rect {
    Rect { y: (area.y + 1) as u16, height: (area.height - 2) as u16, ..area }
}

/// The lines of a chart.
pub open spec fn chart_views(
    cell: ChartCell,
    tag: Seq<char>,
    grid: bool,
    palette: Palette,
    state: ChartState,
) -> Seq<PutView> {
    let area = cell.area;
    if !roomy(area) {
        seq![]
    } else {
        seq![chart_title(area, tag, grid, cell.highlight)] + match state {
            ChartState::NoData => seq![
                centered(message_area(area), "no data in enabled runs"@),
            ],
            ChartState::NoPoints => seq![centered(message_area(area), "no drawable points"@)],
            ChartState::Drawn(chart) => {
                let p = chart_picture(
                    plot_w(area),
                    plot_h(area),
                    palette,
                    chart.curves@,
                    chart.curves@.len(),
                );
                plot_lines(area, palette, chart, p) + if cell.detailed {
                    detail_lines(area, palette, chart, p)
                } else {
                    seq![]
                }
            },
        }
    }
}

fn add_drawn(cell: ChartCell, palette: &Palette, chart: &Chart, out: &mut Vec<Put>)
    requires
        cell.area.wf(),
        roomy(cell.area),
        cell.area.y + 8 <= u16::MAX,
        chart.cursor matches Some(col) ==> col < 2 * plot_w(cell.area),
    ensures
        ({
            let area = cell.area;
            let p = chart_picture(
                plot_w(area),
                plot_h(area),
                *palette,
                chart.curves@,
                chart.curves@.len(),
            );
            paint::put_views(final(out)@) == paint::put_views(old(out)@) + (plot_lines(
                area,
                *palette,
                *chart,
                p,
            ) + if cell.detailed {
                detail_lines(area, *palette, *chart, p)
            } else {
                seq![]
            })
        }),
{
    let area: Rect = cell.area;
    let ghost start = paint::put_views(out@);
    let ghost p = chart_picture(
        plot_w(area),
        plot_h(area),
        *palette,
        chart.curves@,
        chart.curves@.len(),
    );
    let canvas: BrailleCanvas = draw_curves(area, palette, &chart.curves);
    add_axis(area, out);
    add_ticks(area, &chart.y_ticks, out);
    add_cells(area, palette, &canvas, out, Ghost(p));
    add_put(
        out,
        area.x + GUTTER,
        area.y + area.height - 1,
        "└".to_string(),
        style_of(DIM),
    );
    add_labels(area, &chart.x_labels, out);
    assert(paint::put_views(out@) =~= start + plot_lines(area, *palette, *chart, p));
    let ghost plotted = paint::put_views(out@);
    if cell.detailed {
        match chart.cursor {
            Some(col) => {
                add_cursor(area, &canvas, col, out, Ghost(p));
            },
            None => {},
        }
        add_legend(area, palette, &chart.curves, out);
        assert(paint::put_views(out@) =~= plotted + detail_lines(area, *palette, *chart, p));
    }
    assert(paint::put_views(out@) =~= start + (plot_lines(area, *palette, *chart, p)
        + if cell.detailed {
        detail_lines(area, *palette, *chart, p)
    } else {
        seq![]
    }));
}

/// The lines of a chart: its title, and a message or the plot.
pub fn chart_puts(
    cell: ChartCell,
    tag: &str,
    grid: bool,
    palette: &Palette,
    state: &ChartState,
    out: &mut Vec<Put>,
)
    requires
        cell.area.wf(),
        roomy(cell.area) ==> cell.area.y + 8 <= u16::MAX,
        state matches ChartState::Drawn(chart) ==> (chart.cursor matches Some(col) ==> roomy(
            cell.area,
        ) ==> col < 2 * plot_w(cell.area)),
    ensures
        paint::put_views(final(out)@) == paint::put_views(old(out)@) + chart_views(
            cell,
            tag@,
            grid,
            *palette,
            *state,
        ),
{
    let area: Rect = cell.area;
    let ghost start = paint::put_views(out@);
    if !is_roomy(area) {
        assert(start + chart_views(cell, tag@, grid, *palette, *state) =~= start);
        return;
    }
    let mut title: String = String::new();
    if cell.highlight && grid {
        title.append("▶ ");
    }
    title.append(tag);
    assert(title@ =~= chart_title(area, tag@, grid, cell.highlight).text);
    let style: Style = style_of(
        if cell.highlight {
            BOLD
        } else {
            0x03
        },
    );
    add_put(out, area.x + 10, area.y, title, style);
    let ghost titled = paint::put_views(out@);
    let inner: Rect = Rect {
        x: area.x,
        y: area.y + 1,
        width: area.width,
        height: area.height - 2,
    };
    match state {
        ChartState::NoData => {
            let m: Put = center_msg(inner, "no data in enabled runs");
            add_put(out, m.x, m.y, m.text, m.style);
        },
        ChartState::NoPoints => {
            let m: Put = center_msg(inner, "no drawable points");
            add_put(out, m.x, m.y, m.text, m.style);
        },
        ChartState::Drawn(chart) => {
            add_drawn(cell, palette, chart, out);
        },
    }
    assert(paint::put_views(out@) =~= start + chart_views(cell, tag@, grid, *palette, *state));
}

} // verus!
