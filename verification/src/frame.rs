//! One frame: everything that is drawn, in the order in which it is drawn.
use vstd::prelude::*;

use ratatui::buffer::Buffer;

use crate::app;
use crate::app::App;
use crate::charts;
use crate::charts::{chart_puts, plan_charts, ChartCell, ChartState, ChartsPlan};
use crate::colors::Palette;
use crate::layout;
use crate::layout::sidebar_width;
use crate::paint;
use crate::paint::{add_put, style_of, try_paint, Put, PutView, Rect};
use crate::store;
use crate::store::Store;
use crate::tags::Row;
use crate::text;
use crate::ui;
use crate::ui::{footer_put, header_put, help_puts, settle_lists, sidebar_puts, visible_tags, UiState};

verus! {

/// A frame as far as it is drawn.
pub struct Frame {
    pub puts: Vec<Put>,
    /// All runs, in order.
    pub runs: Vec<String>,
    /// The tags that the filter lists, in order.
    pub tags: Vec<String>,
    /// What the chart pane is to show.
    pub charts: ChartsPlan,
    /// The screen is large enough for all of it.
    pub whole: bool,
}

/// The screen is too small to draw on.
pub open spec fn too_small(area: Rect) -> bool {
    area.height < 8 || area.width < 40
}

/// What lies between header and footer.
pub open spec fn body(area: Rect) -> Rect {
    Rect { y: (area.y + 1) as u16, height: (area.height - 2) as u16, ..area }
}

/// The sidebar.
pub open spec fn side_pane(area: Rect, width: int) -> Rect {
    Rect { width: width as u16, ..body(area) }
}

/// What the sidebar leaves for the charts.
pub open spec fn chart_pane(area: Rect, width: int) -> Rect {
    Rect {
        x: (area.x + width) as u16,
        width: (area.width - width) as u16,
        ..body(area)
    }
}

/// The state with the selected run in the list.
pub open spec fn run_selected(a: app::AppView, listed: int) -> app::AppView {
    app::AppView { run_sel: layout::smaller(a.run_sel, ui::last_place(listed)), ..a }
}

/// What a frame is drawn of, besides the state and the store: how far points
/// were thinned, the smoothing weight as it is shown, and the time.
pub struct Extras<'a> {
    pub stride: u64,
    pub smooth: &'a str,
    pub now: u64,
}

/// The state once the frame is drawn.
pub open spec fn frame_state(
    a: app::AppView,
    area: Rect,
    runs: Seq<Seq<char>>,
    tags: Seq<Seq<char>>,
) -> app::AppView {
    let listed = app::listed(runs, a.run_filter_text);
    let b = run_selected(a, listed.len() as int);
    if a.sidebar {
        ui::lists_drawn(
            b,
            listed.len() as int,
            app::shown_rows(b, tags).len() as int,
            area.height - 2,
        )
    } else {
        b
    }
}

/// The width that the sidebar takes, none where it is hidden.
pub open spec fn side_width(
    a: app::AppView,
    area: Rect,
    runs: Seq<Seq<char>>,
    tags: Seq<Seq<char>>,
) -> int {
    if a.sidebar {
        layout::sidebar_fit(
            area.width as int,
            app::listed(runs, a.run_filter_text),
            app::shown_rows(a, tags),
        )
    } else {
        0
    }
}

/// The lines of header and footer.
pub open spec fn bar_views(
    a: app::AppView,
    area: Rect,
    st: store::StoreView,
    busy: bool,
    runs: Seq<Seq<char>>,
    tags: Seq<Seq<char>>,
    stride: nat,
    smooth: Seq<char>,
    now: int,
) -> Seq<PutView> {
    seq![
        PutView {
            x: area.x as int,
            y: area.y as int,
            text: ui::header_text(
                st,
                a,
                busy,
                runs,
                tags.len(),
                stride,
                smooth,
                area.width as int,
            ),
            style: paint::with_bits(0x40),
        },
        PutView {
            x: area.x as int,
            y: area.y + area.height - 1,
            text: text::padded(ui::footer_text(a, now), area.width as int),
            style: paint::with_bits(0x02),
        },
    ]
}

/// The lines of header, footer and sidebar.
pub open spec fn border_views(
    a: app::AppView,
    area: Rect,
    st: store::StoreView,
    palette: Palette,
    busy: bool,
    runs: Seq<Seq<char>>,
    tags: Seq<Seq<char>>,
    stride: nat,
    smooth: Seq<char>,
    now: int,
) -> Seq<PutView> {
    let bars = bar_views(a, area, st, busy, runs, tags, stride, smooth, now);
    if a.sidebar {
        bars + ui::sidebar_views(
            side_pane(area, side_width(a, area, runs, tags)),
            st,
            palette,
            frame_state(a, area, runs, tags),
            app::listed(runs, a.run_filter_text),
            tags.len(),
            app::shown_rows(a, tags),
        )
    } else {
        bars
    }
}

/// Draw header, footer and sidebar, and plan the charts. On a screen that is
/// too small there is a message instead.
#[verifier::rlimit(60)]
pub fn begin_frame(area: Rect, app: &mut App, store: &Store, ui: &UiState, extras: &Extras<'_>) -> (r:
    Frame)
    requires
        area.wf(),
        old(app).wf(),
        store.wf(),
    ensures
        final(app).wf(),
        r.whole == !too_small(area),
        text::texts(r.runs@) == store.runs.keys(),
        ui::tags_listed(store@, old(app)@, text::texts(r.tags@)),
        too_small(area) ==> {
            &&& final(app)@.equals(old(app)@)
            &&& r.charts matches ChartsPlan::Cells(cells) && cells@.len() == 0
            &&& paint::put_views(r.puts@) == seq![
                PutView {
                    x: area.x as int,
                    y: area.y as int,
                    text: "terminal too small"@,
                    style: paint::with_bits(0),
                },
            ]
        },
        !too_small(area) ==> {
            let runs = text::texts(r.runs@);
            let tags = text::texts(r.tags@);
            &&& final(app)@.equals(frame_state(old(app)@, area, runs, tags))
            &&& paint::put_views(r.puts@) == border_views(
                old(app)@,
                area,
                store@,
                ui.palette,
                ui.busy,
                runs,
                tags,
                extras.stride as nat,
                extras.smooth@,
                extras.now as int,
            )
            &&& charts::plans(
                r.charts,
                final(app)@,
                chart_pane(area, side_width(old(app)@, area, runs, tags)),
                tags,
            )
        },
        r.charts matches ChartsPlan::Cells(cells) ==> forall|i: int|
            0 <= i < cells@.len() ==> (#[trigger] cells@[i]).tag < r.tags@.len() && cells@[i].area.wf()
                && cells@[i].area.inside(area),
{
    let ghost a = app@;
    let mut puts: Vec<Put> = Vec::new();
    let runs: Vec<String> = store.run_names();
    let tags: Vec<String> = visible_tags(store, app);
    if area.height < 8 || area.width < 40 {
        add_put(&mut puts, area.x, area.y, "terminal too small".to_string(), style_of(0));
        let none: Vec<ChartCell> = Vec::new();
        assert(paint::put_views(puts@) =~= seq![
            PutView {
                x: area.x as int,
                y: area.y as int,
                text: "terminal too small"@,
                style: paint::with_bits(0),
            },
        ]);
        return Frame { puts, runs, tags, charts: ChartsPlan::Cells(none), whole: false };
    }
    let listed: Vec<String> = app.visible_runs(runs.as_slice());
    let ghost names = text::texts(runs@);
    let ghost all = text::texts(tags@);
    proof {
        assert(all.len() == tags@.len());
        assert(text::texts(listed@).len() == listed@.len());
    }
    let header: Put = header_put(
        area,
        app,
        store,
        ui,
        runs.as_slice(),
        tags.len(),
        extras.stride,
        extras.smooth,
    );
    let footer: Put = footer_put(area, app, extras.now);
    puts.push(header);
    puts.push(footer);
    let ghost bars = paint::put_views(puts@);
    select_run(app, listed.len());
    let inner: Rect = Rect {
        x: area.x,
        y: area.y + 1,
        width: area.width,
        height: area.height - 2,
    };
    let ghost b = app@;
    let mut side_w: u16 = 0;
    if app.sidebar {
        let rows: Vec<Row> = app.tag_rows(tags.as_slice());
        side_w = sidebar_width(area.width, listed.as_slice(), rows.as_slice());
        let side: Rect = Rect { x: inner.x, y: inner.y, width: side_w, height: inner.height };
        proof {
            layout::law_sidebar_is_bounded(
                area.width as int,
                text::texts(listed@),
                app::shown_rows(a, all),
            );
            assert(app::shown_rows(b, all) == app::shown_rows(a, all));
            assert(crate::tags::row_views(rows@).len() == rows@.len());
        }
        settle_lists(app, listed.len(), rows.len(), inner.height);
        sidebar_puts(
            side,
            app,
            store,
            ui,
            listed.as_slice(),
            tags.len(),
            rows.as_slice(),
            &mut puts,
        );
    }
    let pane: Rect = Rect {
        x: inner.x + side_w,
        y: inner.y,
        width: inner.width - side_w,
        height: inner.height,
    };
    let plan: ChartsPlan = plan_charts(pane, app, tags.as_slice());
    proof {
        let want = border_views(
            a,
            area,
            store@,
            ui.palette,
            ui.busy,
            names,
            all,
            extras.stride as nat,
            extras.smooth@,
            extras.now as int,
        );
        assert(paint::put_views(puts@) =~= want);
    }
    Frame { puts, runs, tags, charts: plan, whole: true }
}

/// Put the selected run into the list.
#[verifier::rlimit(40)]
fn select_run(app: &mut App, listed: usize)
    requires
        old(app).wf(),
    ensures
        final(app).wf(),
        final(app)@.equals(run_selected(old(app)@, listed as int)),
{
    let last: usize = if listed > 0 {
        listed - 1
    } else {
        0
    };
    if app.run_sel > last {
        app.run_sel = last;
    }
}

/// The lines of the first `k` charts.
pub open spec fn cells_views(
    cells: Seq<ChartCell>,
    tags: Seq<Seq<char>>,
    grid: bool,
    palette: Palette,
    states: Seq<ChartState>,
    k: nat,
) -> Seq<PutView>
    decreases k,
{
    if k == 0 {
        seq![]
    } else {
        let i = k - 1;
        cells_views(cells, tags, grid, palette, states, i as nat) + charts::chart_views(
            cells[i],
            tags[cells[i].tag as int],
            grid,
            palette,
            states[i],
        )
    }
}

/// The lines of the chart pane.
pub open spec fn pane_views(
    plan: ChartsPlan,
    tags: Seq<Seq<char>>,
    grid: bool,
    palette: Palette,
    states: Seq<ChartState>,
) -> Seq<PutView> {
    match plan {
        ChartsPlan::Message(p) => seq![p@],
        ChartsPlan::Cells(cells) => cells_views(cells@, tags, grid, palette, states, cells@.len()),
    }
}

/// The cursor is on the plot.
pub open spec fn cursor_on_plot(cell: ChartCell, state: ChartState) -> bool {
    state matches ChartState::Drawn(chart) ==> (chart.cursor matches Some(col) ==> charts::roomy(
        cell.area,
    ) ==> col < 2 * charts::plot_w(cell.area))
}

/// The charts of a frame can be drawn: there is one state for each, of a tag
/// that there is, in a place on the screen.
pub open spec fn drawable(area: Rect, frame: Frame, states: Seq<ChartState>) -> bool {
    frame.charts matches ChartsPlan::Cells(cells) ==> {
        &&& states.len() == cells@.len()
        &&& forall|i: int|
            0 <= i < cells@.len() ==> (#[trigger] cells@[i]).tag < frame.tags@.len()
                && cells@[i].area.wf() && cells@[i].area.inside(area) && cursor_on_plot(
                cells@[i],
                states[i],
            )
    }
}

/// Draw the charts into a frame that was begun, and the help over all of it
/// where it is asked for.
pub fn finish_frame(
    area: Rect,
    app: &App,
    palette: &Palette,
    frame: &mut Frame,
    states: &Vec<ChartState>,
)
    requires
        area.wf(),
        area.y + area.height + 3 <= u16::MAX,
        app.wf(),
        drawable(area, *old(frame), states@),
        old(frame).whole == !too_small(area),
    ensures
        final(frame).runs == old(frame).runs,
        final(frame).tags == old(frame).tags,
        final(frame).charts == old(frame).charts,
        final(frame).whole == old(frame).whole,
        paint::put_views(final(frame).puts@) == paint::put_views(old(frame).puts@) + pane_views(
            old(frame).charts,
            text::texts(old(frame).tags@),
            app@.grid,
            *palette,
            states@,
        ) + (if app@.help_visible && !too_small(area) {
            ui::help_views(area)
        } else {
            seq![]
        }),
{
    let ghost start = paint::put_views(frame.puts@);
    let ghost names = text::texts(frame.tags@);
    match &frame.charts {
        ChartsPlan::Message(p) => {
            add_put(&mut frame.puts, p.x, p.y, p.text.clone(), p.style);
        },
        ChartsPlan::Cells(cells) => {
            let mut i: usize = 0;
            assert(start + cells_views(cells@, names, app@.grid, *palette, states@, 0) =~= start);
            while i < cells.len()
                invariant
                    area.wf(),
                    area.y + area.height + 3 <= u16::MAX,
                    frame.tags == old(frame).tags,
                    frame.charts == old(frame).charts,
                    frame.runs == old(frame).runs,
                    frame.whole == old(frame).whole,
                    frame.charts == ChartsPlan::Cells(*cells),
                    drawable(area, *old(frame), states@),
                    names == text::texts(frame.tags@),
                    i <= cells@.len(),
                    paint::put_views(frame.puts@) == start + cells_views(
                        cells@,
                        names,
                        app@.grid,
                        *palette,
                        states@,
                        i as nat,
                    ),
                decreases cells.len() - i,
            {
                let cell: ChartCell = cells[i];
                assert(cursor_on_plot(cells@[i as int], states@[i as int]));
                assert(names[cell.tag as int] == frame.tags@[cell.tag as int]@);
                chart_puts(
                    cell,
                    frame.tags[cell.tag].as_str(),
                    app.grid,
                    palette,
                    &states[i],
                    &mut frame.puts,
                );
                i = i + 1;
                assert(paint::put_views(frame.puts@) =~= start + cells_views(
                    cells@,
                    names,
                    app@.grid,
                    *palette,
                    states@,
                    i as nat,
                ));
            }
        },
    }
    let ghost mid = paint::put_views(frame.puts@);
    assert(mid =~= start + pane_views(frame.charts, names, app@.grid, *palette, states@));
    if app.help_visible && frame.whole {
        help_puts(area, &mut frame.puts);
    } else {
        assert(mid + Seq::<PutView>::empty() =~= mid);
    }
}

/// Put a frame into the buffer of the screen. Nothing happens, and the answer
/// is no, where the buffer lacks cells of its area or a line starts before it.
pub fn draw(buf: &mut Buffer, frame: &Frame) -> (r: bool)
    ensures
        paint::buffer_area(*final(buf)) == paint::buffer_area(*old(buf)),
        r == (paint::buffer_whole(*old(buf)) && forall|i: int|
            0 <= i < frame.puts@.len() ==> paint::not_before(
                (#[trigger] frame.puts@[i])@,
                paint::buffer_area(*old(buf)),
            )),
        paint::buffer_cells(*final(buf)) == if r {
            paint::put_all(
                paint::buffer_cells(*old(buf)),
                paint::buffer_area(*old(buf)),
                paint::put_views(frame.puts@),
            )
        } else {
            paint::buffer_cells(*old(buf))
        },
{
    try_paint(buf, &frame.puts)
}

} // verus!
