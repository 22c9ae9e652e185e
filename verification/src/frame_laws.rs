//! What holds of every frame.
use vstd::prelude::*;

use crate::app;
use crate::charts;
use crate::charts::{ChartCell, ChartState, ChartsPlan, Curve};
use crate::colors;
use crate::colors::Palette;
use crate::frame;
use crate::layout;
use crate::paint;
use crate::paint::{CellView, PutView, Rect, Style};
use crate::picture;
use crate::store;
use crate::tags;
use crate::ui;

verus! {

/// No line starts before the area.
pub open spec fn all_from(puts: Seq<PutView>, area: Rect) -> bool {
    forall|i: int| 0 <= i < puts.len() ==> paint::not_before(#[trigger] puts[i], area)
}

proof fn lemma_join(a: Seq<PutView>, b: Seq<PutView>, area: Rect)
    requires
        all_from(a, area),
        all_from(b, area),
    ensures
        all_from(a + b, area),
{
    assert forall|i: int| 0 <= i < (a + b).len() implies paint::not_before(
        #[trigger] (a + b)[i],
        area,
    ) by {
        if i < a.len() {
            assert((a + b)[i] == a[i]);
        } else {
            assert((a + b)[i] == b[i - a.len()]);
        }
    }
}

proof fn lemma_widen(puts: Seq<PutView>, inner: Rect, outer: Rect)
    requires
        all_from(puts, inner),
        inner.inside(outer),
    ensures
        all_from(puts, outer),
{
    assert forall|i: int| 0 <= i < puts.len() implies paint::not_before(
        #[trigger] puts[i],
        outer,
    ) by {
        assert(paint::not_before(puts[i], inner));
    }
}

// ---------------------------------------------------------------------------
// Sidebar and help
// ---------------------------------------------------------------------------
proof fn lemma_runs(
    area: Rect,
    st: store::StoreView,
    palette: Palette,
    a: app::AppView,
    listed: Seq<Seq<char>>,
    k: nat,
)
    ensures
        all_from(ui::runs_lines(area, st, palette, a, listed, k), area),
    decreases k,
{
    if k > 0 {
        let i = k - 1;
        let at = a.run_scroll + i;
        lemma_runs(area, st, palette, a, listed, i as nat);
        lemma_join(
            ui::runs_lines(area, st, palette, a, listed, i as nat),
            ui::run_lines(
                area,
                st,
                palette,
                a,
                listed[at],
                a.focus == app::Focus::Runs && at == a.run_sel,
                area.y + 1 + i,
            ),
            area,
        );
    }
}

proof fn lemma_rows(area: Rect, a: app::AppView, rows: Seq<tags::RowView>, top: int, k: nat)
    requires
        area.y <= top,
    ensures
        all_from(ui::rows_lines(area, a, rows, top, k), area),
    decreases k,
{
    if k > 0 {
        lemma_rows(area, a, rows, top, (k - 1) as nat);
    }
}

proof fn lemma_sidebar(
    area: Rect,
    st: store::StoreView,
    palette: Palette,
    a: app::AppView,
    listed: Seq<Seq<char>>,
    ntags: nat,
    rows: Seq<tags::RowView>,
)
    requires
        area.width > 0,
    ensures
        all_from(ui::sidebar_views(area, st, palette, a, listed, ntags, rows), area),
{
    let runs_h = layout::runs_height(listed.len() as int, area.height as int);
    let top = area.y + runs_h;
    let runs_seen = ui::in_sight(listed.len() as int, a.run_scroll, runs_h - 1);
    let rows_seen = ui::in_sight(
        rows.len() as int,
        a.tag_scroll,
        layout::larger(area.height - runs_h - 1, 0),
    );
    let t1 = seq![
        PutView {
            x: area.x as int,
            y: area.y as int,
            text: ui::runs_title(a, listed.len(), st.runs.dom().len()),
            style: paint::with_bits(ui::title_bits(a.focus == app::Focus::Runs)),
        },
    ];
    let t2 = seq![
        PutView {
            x: area.x as int,
            y: top,
            text: ui::tags_title(a, ntags),
            style: paint::with_bits(ui::title_bits(a.focus == app::Focus::Tags)),
        },
    ];
    let p1 = ui::runs_lines(area, st, palette, a, listed, runs_seen as nat);
    let p2 = ui::rows_lines(area, a, rows, top, rows_seen as nat);
    let p3 = ui::rule_lines(area, area.height as nat);
    lemma_runs(area, st, palette, a, listed, runs_seen as nat);
    lemma_rows(area, a, rows, top, rows_seen as nat);
    lemma_join(t1, p1, area);
    lemma_join(t1 + p1, t2, area);
    lemma_join(t1 + p1 + t2, p2, area);
    lemma_join(t1 + p1 + t2 + p2, p3, area);
}

proof fn lemma_keys(b: Rect, n: nat)
    ensures
        all_from(ui::key_lines(b, n), b),
    decreases n,
{
    if n > 0 {
        lemma_keys(b, (n - 1) as nat);
    }
}

proof fn lemma_help(area: Rect)
    requires
        area.wf(),
        !frame::too_small(area),
    ensures
        all_from(ui::help_views(area), area),
{
    let b = ui::help_box(area);
    assert(b.inside(area));
    let title = PutView {
        x: b.x + 2,
        y: b.y + 1,
        text: "terminal-tensorboard — keys"@,
        style: paint::panel_bold_style(),
    };
    let p = ui::panel_lines(b, b.height as nat).push(title);
    let k = ui::key_lines(b, layout::larger(b.height - 4, 0) as nat);
    assert(all_from(p, b));
    lemma_keys(b, layout::larger(b.height - 4, 0) as nat);
    lemma_join(p, k, b);
    lemma_widen(p + k, b, area);
}

// ---------------------------------------------------------------------------
// Charts
// ---------------------------------------------------------------------------
proof fn lemma_ticks(area: Rect, ticks: Seq<(i64, String)>, k: nat)
    requires
        charts::roomy(area),
    ensures
        all_from(charts::tick_lines(area, ticks, k), area),
    decreases k,
{
    if k > 0 {
        lemma_ticks(area, ticks, (k - 1) as nat);
    }
}

proof fn lemma_cells_of_row(area: Rect, palette: Palette, p: picture::Picture, r: int, c: nat)
    requires
        0 <= r,
    ensures
        all_from(charts::cells_of_row(area, palette, p, r, c), area),
    decreases c,
{
    if c > 0 {
        lemma_cells_of_row(area, palette, p, r, (c - 1) as nat);
        lemma_join(
            charts::cells_of_row(area, palette, p, r, (c - 1) as nat),
            charts::cell_line(area, palette, p, r, c - 1),
            area,
        );
    }
}

proof fn lemma_cells(area: Rect, palette: Palette, p: picture::Picture, r: nat)
    ensures
        all_from(charts::cell_lines(area, palette, p, r), area),
    decreases r,
{
    if r > 0 {
        lemma_cells(area, palette, p, (r - 1) as nat);
        lemma_cells_of_row(area, palette, p, r - 1, charts::plot_w(area) as nat);
        lemma_join(
            charts::cell_lines(area, palette, p, (r - 1) as nat),
            charts::cells_of_row(area, palette, p, r - 1, charts::plot_w(area) as nat),
            area,
        );
    }
}

proof fn lemma_labels(area: Rect, labels: Seq<(u16, String)>, k: nat)
    requires
        charts::roomy(area),
    ensures
        all_from(charts::label_lines(area, labels, k), area),
    decreases k,
{
    if k > 0 {
        lemma_labels(area, labels, (k - 1) as nat);
    }
}

proof fn lemma_cursor(area: Rect, p: picture::Picture, cell: int, k: nat)
    requires
        0 <= cell,
    ensures
        all_from(charts::cursor_lines(area, p, cell, k), area),
    decreases k,
{
    if k > 0 {
        lemma_cursor(area, p, cell, (k - 1) as nat);
    }
}

proof fn lemma_legend(area: Rect, palette: Palette, curves: Seq<Curve>, k: nat)
    ensures
        all_from(charts::legend_lines(area, palette, curves, k), area),
    decreases k,
{
    if k > 0 {
        lemma_legend(area, palette, curves, (k - 1) as nat);
    }
}

proof fn lemma_drawn(area: Rect, palette: Palette, chart: charts::Chart, p: picture::Picture)
    requires
        charts::roomy(area),
    ensures
        all_from(charts::plot_lines(area, palette, chart, p), area),
        all_from(charts::detail_lines(area, palette, chart, p), area),
{
    let h = charts::plot_h(area) as nat;
    let a = charts::axis_lines(area, h);
    let t = charts::tick_lines(area, chart.y_ticks@, chart.y_ticks@.len());
    let c = charts::cell_lines(area, palette, p, h);
    let corner = seq![
        PutView {
            x: charts::axis_x(area),
            y: area.y + 1 + charts::plot_h(area),
            text: "└"@,
            style: paint::with_bits(0x02),
        },
    ];
    let l = charts::label_lines(area, chart.x_labels@, chart.x_labels@.len());
    lemma_ticks(area, chart.y_ticks@, chart.y_ticks@.len());
    lemma_cells(area, palette, p, h);
    lemma_labels(area, chart.x_labels@, chart.x_labels@.len());
    lemma_join(a, t, area);
    lemma_join(a + t, c, area);
    lemma_join(a + t + c, corner, area);
    lemma_join(a + t + c + corner, l, area);
    let shown = layout::smaller(chart.curves@.len() as int, 8) as nat;
    lemma_legend(area, palette, chart.curves@, shown);
    let cur = match chart.cursor {
        Some(col) => charts::cursor_lines(area, p, col as int / 2, h),
        None => seq![],
    };
    if let Some(col) = chart.cursor {
        lemma_cursor(area, p, col as int / 2, h);
    }
    lemma_join(cur, charts::legend_lines(area, palette, chart.curves@, shown), area);
}

proof fn lemma_chart(
    cell: ChartCell,
    tag: Seq<char>,
    grid: bool,
    palette: Palette,
    state: ChartState,
)
    requires
        cell.area.wf(),
    ensures
        all_from(charts::chart_views(cell, tag, grid, palette, state), cell.area),
{
    let area = cell.area;
    if charts::roomy(area) {
        let title = seq![charts::chart_title(area, tag, grid, cell.highlight)];
        let rest = match state {
            ChartState::NoData => seq![
                charts::centered(charts::message_area(area), "no data in enabled runs"@),
            ],
            ChartState::NoPoints => seq![
                charts::centered(charts::message_area(area), "no drawable points"@),
            ],
            ChartState::Drawn(chart) => {
                let p = charts::chart_picture(
                    charts::plot_w(area),
                    charts::plot_h(area),
                    palette,
                    chart.curves@,
                    chart.curves@.len(),
                );
                charts::plot_lines(area, palette, chart, p) + if cell.detailed {
                    charts::detail_lines(area, palette, chart, p)
                } else {
                    seq![]
                }
            },
        };
        if let ChartState::Drawn(chart) = state {
            let p = charts::chart_picture(
                charts::plot_w(area),
                charts::plot_h(area),
                palette,
                chart.curves@,
                chart.curves@.len(),
            );
            lemma_drawn(area, palette, chart, p);
            lemma_join(
                charts::plot_lines(area, palette, chart, p),
                if cell.detailed {
                    charts::detail_lines(area, palette, chart, p)
                } else {
                    seq![]
                },
                area,
            );
        }
        lemma_join(title, rest, area);
    }
}

proof fn lemma_all_charts(
    area: Rect,
    cells: Seq<ChartCell>,
    tags: Seq<Seq<char>>,
    grid: bool,
    palette: Palette,
    states: Seq<ChartState>,
    k: nat,
)
    requires
        k <= cells.len(),
        forall|i: int|
            0 <= i < cells.len() ==> (#[trigger] cells[i]).area.wf() && cells[i].area.inside(area),
    ensures
        all_from(frame::cells_views(cells, tags, grid, palette, states, k), area),
    decreases k,
{
    if k > 0 {
        let i = k - 1;
        lemma_all_charts(area, cells, tags, grid, palette, states, i as nat);
        let tag = tags[cells[i].tag as int];
        lemma_chart(cells[i], tag, grid, palette, states[i]);
        let views = charts::chart_views(cells[i], tag, grid, palette, states[i]);
        lemma_widen(views, cells[i].area, area);
        lemma_join(
            frame::cells_views(cells, tags, grid, palette, states, i as nat),
            views,
            area,
        );
    }
}

// ---------------------------------------------------------------------------
// Laws
// ---------------------------------------------------------------------------
/// Header, footer and sidebar never start before the screen.
pub proof fn law_border_is_on_the_screen(
    a: app::AppView,
    area: Rect,
    st: store::StoreView,
    palette: Palette,
    busy: bool,
    runs: Seq<Seq<char>>,
    tags: Seq<Seq<char>>,
    stride: nat,
    smooth: Seq<char>,
    now: int,
)
    requires
        area.wf(),
        !frame::too_small(area),
    ensures
        all_from(
            frame::border_views(a, area, st, palette, busy, runs, tags, stride, smooth, now),
            area,
        ),
{
    let bars = frame::bar_views(a, area, st, busy, runs, tags, stride, smooth, now);
    assert(all_from(bars, area));
    if a.sidebar {
        let w = frame::side_width(a, area, runs, tags);
        let side = frame::side_pane(area, w);
        let rows = app::shown_rows(a, tags);
        layout::law_sidebar_is_bounded(
            area.width as int,
            app::listed(runs, a.run_filter_text),
            rows,
        );
        lemma_sidebar(
            side,
            st,
            palette,
            frame::frame_state(a, area, runs, tags),
            app::listed(runs, a.run_filter_text),
            tags.len(),
            rows,
        );
        let views = ui::sidebar_views(
            side,
            st,
            palette,
            frame::frame_state(a, area, runs, tags),
            app::listed(runs, a.run_filter_text),
            tags.len(),
            rows,
        );
        lemma_widen(views, side, area);
        lemma_join(bars, views, area);
    }
}

/// The charts and the help never start before the screen.
pub proof fn law_charts_are_on_the_screen(
    area: Rect,
    f: frame::Frame,
    grid: bool,
    palette: Palette,
    states: Seq<ChartState>,
)
    requires
        area.wf(),
        frame::drawable(area, f, states),
        f.charts matches ChartsPlan::Message(p) ==> paint::not_before(p@, area),
    ensures
        all_from(
            frame::pane_views(f.charts, crate::text::texts(f.tags@), grid, palette, states),
            area,
        ),
        !frame::too_small(area) ==> all_from(ui::help_views(area), area),
{
    if let ChartsPlan::Cells(cells) = f.charts {
        assert forall|i: int| 0 <= i < cells@.len() implies (#[trigger] cells@[i]).area.wf()
            && cells@[i].area.inside(area) by {
            assert(cells@[i].tag < f.tags@.len());
        }
        lemma_all_charts(
            area,
            cells@,
            crate::text::texts(f.tags@),
            grid,
            palette,
            states,
            cells@.len(),
        );
    }
    if !frame::too_small(area) {
        lemma_help(area);
    }
}

/// The panel of the help is opaque: where a blank of it is written, nothing of
/// the cell below is left but its place.
pub proof fn law_panel_is_opaque(cell: CellView, c: char)
    ensures
        ({
            let after = paint::restyled(cell, c, paint::panel_style());
            &&& after.symbol == seq![c]
            &&& after.fg == Some(colors::Color::Reset)
            &&& after.bg == Some(colors::Color::Reset)
            &&& after.bits & 0x43 == 0x40
        }),
{
    let b = cell.bits;
    assert(((b | 0x40u16) & !0x03u16) & 0x43u16 == 0x40u16) by (bit_vector);
}

} // verus!
