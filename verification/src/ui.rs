//! What is drawn where: header, footer, sidebar, charts, help.
//!
//! Everything that is drawn is a list of lines of text with their places.
use vstd::prelude::*;

use crate::app;
use crate::app::{App, Focus};
use crate::colors::{Color, Dash, Palette};
use crate::layout;
use crate::layout::scroll_for;
use crate::names::NameSet;
use crate::numbers;
use crate::numbers::fmt_count;
use crate::paint;
use crate::paint::{add_put, mark, overlay, overlay_bold, style_of, Put, PutView, Rect, Style};
use crate::paint::{BOLD, DIM, REVERSED};
use crate::store;
use crate::store::Store;
use crate::tags;
use crate::tags::{elide, Row};
use crate::text;

verus! {

/// What the screen is drawn with.
pub struct UiState {
    pub palette: Palette,
    pub busy: bool,
}

/// The bits of a title: bold, with its colours swapped where it has the focus.
pub open spec fn title_bits(focused: bool) -> u16 {
    if focused {
        0x41
    } else {
        0x01
    }
}

/// The bits of a row: its colours are swapped where it is selected.
pub open spec fn row_bits(selected: bool) -> u16 {
    if selected {
        0x40
    } else {
        0
    }
}

fn title_style(focused: bool) -> (r: Style)
    ensures
        r == paint::with_bits(title_bits(focused)),
{
    style_of(
        if focused {
            0x41
        } else {
            BOLD
        },
    )
}

fn row_style(selected: bool) -> (r: Style)
    ensures
        r == paint::with_bits(row_bits(selected)),
{
    style_of(
        if selected {
            REVERSED
        } else {
            0
        },
    )
}

// ---------------------------------------------------------------------------
// Runs and tags
// ---------------------------------------------------------------------------
/// The colour slot of a run; the first one for a name that is no run.
pub open spec fn slot_of(st: store::StoreView, name: Seq<char>) -> int {
    if st.runs.contains_key(name) {
        st.runs[name].color_slot
    } else {
        0
    }
}

/// The colour slot of a run.
pub fn run_slot(store: &Store, name: &str) -> (r: usize)
    requires
        store.wf(),
    ensures
        r == slot_of(store@, name@),
{
    match store.runs.get(name) {
        Some(run) => run.color_slot,
        None => 0,
    }
}

/// Colour and stroke of a run. They come of the run's own slot, so they do
/// not change when other runs appear or are hidden.
pub fn run_style(store: &Store, ui: &UiState, name: &str) -> (r: (Color, Dash))
    requires
        store.wf(),
    ensures
        r.0 == ui.palette.color_of(slot_of(store@, name@)),
        r.1 == ui.palette.dash_of(slot_of(store@, name@)),
{
    let slot: usize = run_slot(store, name);
    (ui.palette.color(slot), ui.palette.dash(slot))
}

/// The runs that are shown.
pub open spec fn enabled_runs(st: store::StoreView, a: app::AppView) -> Set<Seq<char>> {
    st.runs.dom().difference(a.disabled)
}

/// The runs that are shown.
fn enabled_set(store: &Store, app: &App) -> (r: NameSet)
    requires
        store.wf(),
        app.wf(),
    ensures
        r.wf(),
        r@ == enabled_runs(store@, app@),
{
    let mut out: NameSet = NameSet::new();
    let mut i: usize = 0;
    let ghost keys = store.runs.keys();
    while i < store.runs.names.len()
        invariant
            store.wf(),
            app.wf(),
            out.wf(),
            keys == store.runs.keys(),
            i <= store.runs.names@.len(),
            forall|n: Seq<char>| #[trigger]
                out@.contains(n) <==> !app@.disabled.contains(n) && exists|k: int|
                    0 <= k < i && #[trigger] keys[k] == n,
        decreases store.runs.names.len() - i,
    {
        let name: &str = store.runs.names[i].as_str();
        assert(keys[i as int] == name@);
        let ghost before = out@;
        if !app.disabled.contains(name) {
            out.insert(name);
        }
        proof {
            assert forall|n: Seq<char>| #[trigger]
                out@.contains(n) <==> !app@.disabled.contains(n) && exists|k: int|
                    0 <= k < i + 1 && #[trigger] keys[k] == n by {
                if exists|k: int| 0 <= k < i && #[trigger] keys[k] == n {
                    let k = choose|k: int| 0 <= k < i && #[trigger] keys[k] == n;
                    assert(0 <= k < i + 1 && keys[k] == n);
                }
                assert(before.contains(n) <==> !app@.disabled.contains(n) && exists|k: int|
                    0 <= k < i && #[trigger] keys[k] == n);
            }
        }
        i = i + 1;
    }
    assert(out@ =~= enabled_runs(store@, app@));
    out
}

/// The tags that the tag filter lists, of the runs that are shown: each once,
/// in order.
pub open spec fn tags_listed(
    st: store::StoreView,
    a: app::AppView,
    tags: Seq<Seq<char>>,
) -> bool {
    exists|all: Seq<Seq<char>>|
        #![trigger app::listed(all, a.filter_text)]
        {
            &&& text::ascending(all)
            &&& forall|t: Seq<char>| #[trigger]
                all.contains(t) <==> store::has_tag(st, enabled_runs(st, a), t)
            &&& tags == app::listed(all, a.filter_text)
        }
}

/// The tags that the tag filter lists.
pub fn visible_tags(store: &Store, app: &App) -> (r: Vec<String>)
    requires
        store.wf(),
        app.wf(),
    ensures
        tags_listed(store@, app@, text::texts(r@)),
{
    let enabled: NameSet = enabled_set(store, app);
    let all: Vec<String> = store.tags(&enabled);
    let out: Vec<String> = app::list_matching(all.as_slice(), app.filter_text.as_str());
    proof {
        let names = text::texts(all@);
        assert(text::texts(out@) == app::listed(names, app@.filter_text));
        assert forall|t: Seq<char>| #[trigger] names.contains(t) <==> store::has_tag(
            store@,
            enabled_runs(store@, app@),
            t,
        ) by {}
    }
    out
}

// ---------------------------------------------------------------------------
// Header
// ---------------------------------------------------------------------------
/// How many of the names are not in the set.
pub open spec fn count_outside(names: Seq<Seq<char>>, set: Set<Seq<char>>) -> nat
    decreases names.len(),
{
    if names.len() == 0 {
        0
    } else {
        count_outside(names.drop_last(), set) + if set.contains(names.last()) {
            0nat
        } else {
            1nat
        }
    }
}

fn count_not_in(names: &[String], set: &NameSet) -> (r: usize)
    requires
        set.wf(),
    ensures
        r == count_outside(text::texts(names@), set@),
{
    let ghost all = text::texts(names@);
    let mut n: usize = 0;
    let mut i: usize = 0;
    assert(all.take(0) =~= seq![]);
    while i < names.len()
        invariant
            set.wf(),
            all == text::texts(names@),
            i <= names@.len(),
            n <= i,
            n == count_outside(all.take(i as int), set@),
        decreases names.len() - i,
    {
        assert(all.take(i + 1).drop_last() =~= all.take(i as int));
        assert(all.take(i + 1).last() == names@[i as int]@);
        if !set.contains(names[i].as_str()) {
            n = n + 1;
        }
        i = i + 1;
    }
    assert(all.take(i as int) =~= all);
    n
}

/// What the header says of the following of files.
pub open spec fn state_text(follow: bool, busy: bool) -> Seq<char> {
    if follow {
        if busy {
            "live ●"@
        } else {
            "live ○"@
        }
    } else {
        "paused"@
    }
}

/// The counts in the header.
pub open spec fn header_counts(
    st: store::StoreView,
    a: app::AppView,
    runs: Seq<Seq<char>>,
    ntags: nat,
    stride: nat,
) -> Seq<char> {
    let counts = " runs "@ + text::decimal(count_outside(runs, a.disabled)) + "/"@ + text::decimal(
        runs.len(),
    ) + " │ tags "@ + text::decimal(ntags) + " │ pts "@ + numbers::count_text(
        st.total_points as nat,
    );
    if stride > 1 {
        counts + " ÷"@ + text::decimal(stride)
    } else {
        counts
    }
}

/// What the header says of how the charts are shown.
pub open spec fn header_modes(a: app::AppView, busy: bool, smooth: Seq<char>) -> Seq<char> {
    " │ "@ + state_text(a.follow, busy) + " │ x:"@ + a.xmode.name() + " │ y:"@ + (if a.log_y {
        "log"@
    } else {
        "lin"@
    }) + " │ smooth "@ + smooth + " "@
}

/// The right part of the header.
pub open spec fn header_right(
    st: store::StoreView,
    a: app::AppView,
    busy: bool,
    runs: Seq<Seq<char>>,
    ntags: nat,
    stride: nat,
    smooth: Seq<char>,
) -> Seq<char> {
    header_counts(st, a, runs, ntags, stride) + header_modes(a, busy, smooth)
}

fn counts_line(app: &App, store: &Store, runs: &[String], ntags: usize, stride: u64) -> (r: String)
    requires
        store.wf(),
        app.wf(),
    ensures
        r@ == header_counts(store@, app@, text::texts(runs@), ntags as nat, stride as nat),
{
    let mut out: String = " runs ".to_string();
    text::push_decimal(&mut out, count_not_in(runs, &app.disabled) as u64);
    out.append("/");
    assert(text::texts(runs@).len() == runs@.len());
    text::push_decimal(&mut out, runs.len() as u64);
    out.append(" │ tags ");
    text::push_decimal(&mut out, ntags as u64);
    out.append(" │ pts ");
    out.append(fmt_count(store.total_points).as_str());
    if stride > 1 {
        out.append(" ÷");
        text::push_decimal(&mut out, stride);
    }
    out
}

fn modes_line(app: &App, busy: bool, smooth: &str) -> (r: String)
    requires
        app.wf(),
    ensures
        r@ == header_modes(app@, busy, smooth@),
{
    let mut out: String = " │ ".to_string();
    out.append(
        if app.follow {
            if busy {
                "live ●"
            } else {
                "live ○"
            }
        } else {
            "paused"
        },
    );
    out.append(" │ x:");
    out.append(app.xmode.label());
    out.append(" │ y:");
    out.append(
        if app.log_y {
            "log"
        } else {
            "lin"
        },
    );
    out.append(" │ smooth ");
    out.append(smooth);
    out.append(" ");
    out
}

/// The header: what is looked at on the left, how on the right.
pub open spec fn header_text(
    st: store::StoreView,
    a: app::AppView,
    busy: bool,
    runs: Seq<Seq<char>>,
    ntags: nat,
    stride: nat,
    smooth: Seq<char>,
    width: int,
) -> Seq<char> {
    let left = " ttb  "@ + st.logdir + " "@;
    let right = header_right(st, a, busy, runs, ntags, stride, smooth);
    let gap = layout::larger(width - left.len() - right.len(), 1);
    text::padded(left + text::repeated(' ', gap as nat) + right, width)
}

/// The line of the header. `stride` says by how much the points were thinned,
/// and `smooth` is the smoothing weight as it is shown.
pub fn header_put(
    area: Rect,
    app: &App,
    store: &Store,
    ui: &UiState,
    runs: &[String],
    ntags: usize,
    stride: u64,
    smooth: &str,
) -> (r: Put)
    requires
        store.wf(),
        app.wf(),
    ensures
        r@ == (PutView {
            x: area.x as int,
            y: area.y as int,
            text: header_text(
                store@,
                app@,
                ui.busy,
                text::texts(runs@),
                ntags as nat,
                stride as nat,
                smooth@,
                area.width as int,
            ),
            style: paint::with_bits(0x40),
        }),
{
    let mut left: String = " ttb  ".to_string();
    left.append(store.logdir.as_str());
    left.append(" ");
    let mut right: String = counts_line(app, store, runs, ntags, stride);
    right.append(modes_line(app, ui.busy, smooth).as_str());
    let l: usize = text::char_count(left.as_str());
    let n: usize = text::char_count(right.as_str());
    let w: usize = area.width as usize;
    let gap: usize = if l < w && n < w - l {
        w - l - n
    } else {
        1
    };
    let mut bar: String = left;
    text::push_repeated(&mut bar, ' ', gap);
    bar.append(right.as_str());
    Put { x: area.x, y: area.y, text: text::pad(bar.as_str(), w), style: style_of(REVERSED) }
}

// ---------------------------------------------------------------------------
// Footer
// ---------------------------------------------------------------------------
/// The footer: the filter that is being edited, a message while it lasts, or
/// the keys.
pub open spec fn footer_text(a: app::AppView, now: int) -> Seq<char> {
    if a.filter_editing {
        " filter "@ + (if a.filter_target == Focus::Runs {
            "runs"@ + ": "@ + a.run_filter_text
        } else {
            "tags"@ + ": "@ + a.filter_text
        }) + "▏  (Enter apply · Esc cancel)"@
    } else if now < a.flash_until {
        " "@ + a.flash_msg
    } else {
        "  Tab:focus  Space:run on/off  Enter:solo/open  a:all  /:filter  s/S:smooth  +/-/[/]:zoom·pan  g:grid  L:log  x:axis  f:follow  ?:help  q:quit"@
    }
}

/// The line of the footer.
pub fn footer_put(area: Rect, app: &App, now: u64) -> (r: Put)
    requires
        app.wf(),
        area.wf(),
        area.height > 0,
    ensures
        r@ == (PutView {
            x: area.x as int,
            y: area.y + area.height - 1,
            text: text::padded(footer_text(app@, now as int), area.width as int),
            style: paint::with_bits(0x02),
        }),
{
    let mut line: String = String::new();
    if app.filter_editing {
        line.append(" filter ");
        if app.filter_target == Focus::Runs {
            line.append("runs");
            line.append(": ");
            line.append(app.run_filter_text.as_str());
        } else {
            line.append("tags");
            line.append(": ");
            line.append(app.filter_text.as_str());
        }
        line.append("▏  (Enter apply · Esc cancel)");
    } else if now < app.flash_until {
        line.append(" ");
        line.append(app.flash_msg.as_str());
    } else {
        line.append(
            "  Tab:focus  Space:run on/off  Enter:solo/open  a:all  /:filter  s/S:smooth  +/-/[/]:zoom·pan  g:grid  L:log  x:axis  f:follow  ?:help  q:quit",
        );
    }
    assert(line@ =~= footer_text(app@, now as int));
    Put {
        x: area.x,
        y: area.y + area.height - 1,
        text: text::pad(line.as_str(), area.width as usize),
        style: style_of(DIM),
    }
}

// ---------------------------------------------------------------------------
// Help
// ---------------------------------------------------------------------------
/// Keys and what they do.
pub open spec fn help_lines() -> Seq<(Seq<char>, Seq<char>)> {
    seq![
        ("Tab / Shift-Tab"@, "cycle focus: runs -> tags -> chart"@),
        ("j k / arrows"@, "move in lists; prev/next tag in chart"@),
        ("Space"@, "show/hide the selected run"@),
        ("Enter"@, "run: show only it · group: open/close · tag: chart"@),
        ("→ ←  or  l h"@, "in the tag tree: open / close a group"@),
        ("a"@, "show/hide every run the filter lists"@),
        ("/"@, "filter the focused list — runs or tags"@),
        ("h l / arrows"@, "move data cursor (chart focus), c/Esc clear"@),
        ("+ - [ ] 0"@, "zoom in/out, pan left/right, reset view"@),
        ("s / S"@, "less / more smoothing"@),
        ("L"@, "toggle log-scale Y"@),
        ("x"@, "cycle X axis: step -> reltime -> wall"@),
        ("g"@, "grid view: as many charts as fit, up to 3x3"@),
        ("f"@, "toggle live follow    r: reload now"@),
        ("b"@, "toggle sidebar"@),
        ("q"@, "quit"@),
    ]
}

fn help_table() -> (r: Vec<(&'static str, &'static str)>)
    ensures
        r@.len() == 16,
        forall|i: int|
            0 <= i < 16 ==> ((#[trigger] r@[i]).0@, r@[i].1@) == help_lines()[i],
{
    let mut out: Vec<(&'static str, &'static str)> = Vec::new();
    out.push(("Tab / Shift-Tab", "cycle focus: runs -> tags -> chart"));
    out.push(("j k / arrows", "move in lists; prev/next tag in chart"));
    out.push(("Space", "show/hide the selected run"));
    out.push(("Enter", "run: show only it · group: open/close · tag: chart"));
    out.push(("→ ←  or  l h", "in the tag tree: open / close a group"));
    out.push(("a", "show/hide every run the filter lists"));
    out.push(("/", "filter the focused list — runs or tags"));
    out.push(("h l / arrows", "move data cursor (chart focus), c/Esc clear"));
    out.push(("+ - [ ] 0", "zoom in/out, pan left/right, reset view"));
    out.push(("s / S", "less / more smoothing"));
    out.push(("L", "toggle log-scale Y"));
    out.push(("x", "cycle X axis: step -> reltime -> wall"));
    out.push(("g", "grid view: as many charts as fit, up to 3x3"));
    out.push(("f", "toggle live follow    r: reload now"));
    out.push(("b", "toggle sidebar"));
    out.push(("q", "quit"));
    out
}

/// The panel of the help, in the middle of the screen.
pub open spec fn help_box(area: Rect) -> Rect {
    let w = layout::smaller(64, layout::larger(area.width - 4, 0));
    let h = layout::smaller(20, layout::larger(area.height - 2, 0));
    Rect {
        x: (area.x + (area.width - w) / 2) as u16,
        y: (area.y + (area.height - h) / 2) as u16,
        width: w as u16,
        height: h as u16,
    }
}

/// The blank lines of the first `n` rows of the panel.
pub open spec fn panel_lines(b: Rect, n: nat) -> Seq<PutView> {
    Seq::new(
        n,
        |i: int|
            PutView {
                x: b.x as int,
                y: b.y + i,
                text: text::repeated(' ', b.width as nat),
                style: paint::panel_style(),
            },
    )
}

/// The lines of the first `n` keys, two for each.
pub open spec fn key_lines(b: Rect, n: nat) -> Seq<PutView>
    decreases n,
{
    if n == 0 {
        seq![]
    } else {
        let i = n - 1;
        key_lines(b, i as nat) + seq![
            PutView {
                x: b.x + 2,
                y: b.y + 3 + i,
                text: text::padded(help_lines()[i].0, 18),
                style: paint::panel_bold_style(),
            },
            PutView {
                x: b.x + 20,
                y: b.y + 3 + i,
                text: help_lines()[i].1,
                style: paint::panel_style(),
            },
        ]
    }
}

/// The lines of the help.
pub open spec fn help_views(area: Rect) -> Seq<PutView> {
    let b = help_box(area);
    panel_lines(b, b.height as nat).push(
        PutView {
            x: b.x + 2,
            y: b.y + 1,
            text: "terminal-tensorboard — keys"@,
            style: paint::panel_bold_style(),
        },
    ) + key_lines(b, layout::larger(b.height - 4, 0) as nat)
}

/// The lines of the help: a panel over everything else.
pub fn help_puts(area: Rect, out: &mut Vec<Put>)
    requires
        area.wf(),
        area.width >= 40,
        area.height >= 8,
    ensures
        paint::put_views(final(out)@) == paint::put_views(old(out)@) + help_views(area),
{
    let w: u16 = if area.width - 4 < 64 {
        area.width - 4
    } else {
        64
    };
    let h: u16 = if area.height - 2 < 20 {
        area.height - 2
    } else {
        20
    };
    let top: u16 = area.y + (area.height - h) / 2;
    let left: u16 = area.x + (area.width - w) / 2;
    let ghost b = help_box(area);
    assert(b == (Rect { x: left, y: top, width: w, height: h }));
    let ghost start = paint::put_views(out@);
    let mut y: u16 = 0;
    assert(start + panel_lines(b, 0) =~= start);
    while y < h
        invariant
            y <= h,
            area.wf(),
            b == (Rect { x: left, y: top, width: w, height: h }),
            top + h <= area.y + area.height,
            paint::put_views(out@) == start + panel_lines(b, y as nat),
        decreases h - y,
    {
        let mut blank: String = String::new();
        text::push_repeated(&mut blank, ' ', w as usize);
        assert(blank@ =~= text::repeated(' ', w as nat));
        add_put(out, left, top + y, blank, overlay());
        y = y + 1;
        assert(paint::put_views(out@) =~= start + panel_lines(b, y as nat));
    }
    assert(top + 3 <= u16::MAX);
    add_put(out, left + 2, top + 1, "terminal-tensorboard — keys".to_string(), overlay_bold());
    let ghost head = paint::put_views(out@);
    let table: Vec<(&'static str, &'static str)> = help_table();
    let n: usize = if h > 4 {
        (h - 4) as usize
    } else {
        0
    };
    let mut i: usize = 0;
    assert(head + key_lines(b, 0) =~= head);
    while i < n
        invariant
            i <= n <= 16,
            n == layout::larger(h - 4, 0),
            area.wf(),
            h <= 20,
            b == (Rect { x: left, y: top, width: w, height: h }),
            top + h <= area.y + area.height,
            left + 20 <= u16::MAX,
            table@.len() == 16,
            forall|k: int|
                0 <= k < 16 ==> ((#[trigger] table@[k]).0@, table@[k].1@) == help_lines()[k],
            paint::put_views(out@) == head + key_lines(b, i as nat),
        decreases n - i,
    {
        let row: u16 = top + 3 + i as u16;
        assert((table@[i as int].0@, table@[i as int].1@) == help_lines()[i as int]);
        add_put(out, left + 2, row, text::pad(table[i].0, 18), overlay_bold());
        add_put(out, left + 20, row, table[i].1.to_string(), overlay());
        i = i + 1;
        assert(paint::put_views(out@) =~= head + key_lines(b, i as nat));
    }
    assert(paint::put_views(out@) =~= start + help_views(area));
}

// ---------------------------------------------------------------------------
// Sidebar
// ---------------------------------------------------------------------------
/// How many rows of a list are in sight: so many as there is room for, and as
/// there are from where it is scrolled to.
pub open spec fn in_sight(len: int, scroll: int, visible: int) -> int {
    layout::smaller(visible, layout::larger(len - scroll, 0))
}

/// The last place of a list.
pub open spec fn last_place(len: int) -> int {
    layout::larger(len - 1, 0)
}

/// The state once the lists are drawn: the selections are in their lists and
/// in sight.
pub open spec fn lists_drawn(
    a: app::AppView,
    nruns: int,
    nrows: int,
    height: int,
) -> app::AppView {
    let runs_h = layout::runs_height(nruns, height);
    let tag_sel = layout::smaller(a.tag_sel, last_place(nrows));
    app::AppView {
        run_scroll: layout::scrolled(a.run_scroll, a.run_sel, runs_h - 1),
        tag_sel,
        tag_scroll: layout::scrolled(
            a.tag_scroll,
            tag_sel,
            layout::larger(height - runs_h - 1, 0),
        ),
        ..a
    }
}

/// The title of the list of runs: how many are listed, of how many where a
/// filter is set, and the filter.
pub open spec fn runs_title(a: app::AppView, listed: nat, total: nat) -> Seq<char> {
    let filtered = a.run_filter_text.len() > 0;
    let head = if filtered {
        " RUNS ("@ + text::decimal(listed) + "/"@ + text::decimal(total) + ")"@
    } else {
        " RUNS ("@ + text::decimal(listed) + ")"@
    };
    if filtered || (a.filter_editing && a.filter_target == Focus::Runs) {
        head + "  /"@ + a.run_filter_text
    } else {
        head
    }
}

/// The lines of a run: a box that says whether it is shown, its mark, and its
/// name.
pub open spec fn run_lines(
    area: Rect,
    st: store::StoreView,
    palette: Palette,
    a: app::AppView,
    name: Seq<char>,
    selected: bool,
    y: int,
) -> Seq<PutView> {
    let on = !a.disabled.contains(name);
    let slot = slot_of(st, name);
    let bits = row_bits(selected);
    seq![
        PutView {
            x: area.x as int,
            y,
            text: if on {
                " ▣ "@
            } else {
                " ☐ "@
            },
            style: paint::with_bits(bits),
        },
        PutView {
            x: area.x + 3,
            y,
            text: palette.dash_of(slot).marker_text(),
            style: paint::mark_style(palette.color_of(slot)),
        },
        PutView {
            x: area.x + 4,
            y,
            text: text::padded(" "@ + name, layout::larger(area.width - 6, 0)),
            style: paint::with_bits(
                if on {
                    bits
                } else if selected {
                    0x42
                } else {
                    0x02
                },
            ),
        },
    ]
}

/// The lines of the first `k` runs in sight.
pub open spec fn runs_lines(
    area: Rect,
    st: store::StoreView,
    palette: Palette,
    a: app::AppView,
    listed: Seq<Seq<char>>,
    k: nat,
) -> Seq<PutView>
    decreases k,
{
    if k == 0 {
        seq![]
    } else {
        let i = k - 1;
        let at = a.run_scroll + i;
        runs_lines(area, st, palette, a, listed, i as nat) + run_lines(
            area,
            st,
            palette,
            a,
            listed[at],
            a.focus == Focus::Runs && at == a.run_sel,
            area.y + 1 + i,
        )
    }
}

/// The title of the list of tags.
pub open spec fn tags_title(a: app::AppView, ntags: nat) -> Seq<char> {
    let head = " TAGS ("@ + text::decimal(ntags) + ")"@;
    if a.filter_text.len() > 0 || a.filter_editing {
        head + "  /"@ + a.filter_text
    } else {
        head
    }
}

/// What stands before the label of a row: whether it is selected, how deep it
/// is, and whether it is open.
pub open spec fn row_head(row: tags::RowView, here: bool) -> Seq<char> {
    " "@ + (if here {
        "▶"@
    } else {
        " "@
    }) + text::repeated(' ', (2 * row.depth) as nat) + (if row.leaf {
        "  "@
    } else if row.expanded {
        "▾ "@
    } else {
        "▸ "@
    })
}

/// What stands behind the label of a row: how many tags a group holds.
pub open spec fn row_count(row: tags::RowView) -> Seq<char> {
    if row.leaf {
        seq![]
    } else {
        " ("@ + text::decimal(row.leaves as nat) + ")"@
    }
}

/// A row of the tag list, so many columns wide: its label is shortened to fit.
pub open spec fn row_text(row: tags::RowView, here: bool, width: int) -> Seq<char> {
    let room = layout::larger(width - (4 + 2 * row.depth + row_count(row).len()), 0);
    text::padded(row_head(row, here) + tags::elided(row.label, room) + row_count(row), width)
}

/// The lines of the first `k` rows in sight of the tag list, which starts
/// below the title in row `top`.
pub open spec fn rows_lines(
    area: Rect,
    a: app::AppView,
    rows: Seq<tags::RowView>,
    top: int,
    k: nat,
) -> Seq<PutView>
    decreases k,
{
    if k == 0 {
        seq![]
    } else {
        let i = k - 1;
        let at = a.tag_scroll + i;
        rows_lines(area, a, rows, top, i as nat).push(
            PutView {
                x: area.x as int,
                y: top + 1 + i,
                text: row_text(rows[at], at == a.tag_sel, layout::larger(area.width - 2, 0)),
                style: paint::with_bits(row_bits(a.focus == Focus::Tags && at == a.tag_sel)),
            },
        )
    }
}

/// The rule at the right edge, in the first `k` rows.
pub open spec fn rule_lines(area: Rect, k: nat) -> Seq<PutView> {
    Seq::new(
        k,
        |i: int|
            PutView {
                x: area.x + area.width - 1,
                y: area.y + i,
                text: "│"@,
                style: paint::with_bits(0x02),
            },
    )
}

/// The lines of the sidebar, in the state once the lists are drawn.
pub open spec fn sidebar_views(
    area: Rect,
    st: store::StoreView,
    palette: Palette,
    a: app::AppView,
    listed: Seq<Seq<char>>,
    ntags: nat,
    rows: Seq<tags::RowView>,
) -> Seq<PutView> {
    let runs_h = layout::runs_height(listed.len() as int, area.height as int);
    let top = area.y + runs_h;
    let runs_seen = in_sight(listed.len() as int, a.run_scroll, runs_h - 1);
    let rows_seen = in_sight(
        rows.len() as int,
        a.tag_scroll,
        layout::larger(area.height - runs_h - 1, 0),
    );
    seq![
        PutView {
            x: area.x as int,
            y: area.y as int,
            text: runs_title(a, listed.len(), st.runs.dom().len()),
            style: paint::with_bits(title_bits(a.focus == Focus::Runs)),
        },
    ] + runs_lines(area, st, palette, a, listed, runs_seen as nat) + seq![
        PutView {
            x: area.x as int,
            y: top,
            text: tags_title(a, ntags),
            style: paint::with_bits(title_bits(a.focus == Focus::Tags)),
        },
    ] + rows_lines(area, a, rows, top, rows_seen as nat) + rule_lines(area, area.height as nat)
}

fn runs_title_text(app: &App, listed: usize, total: usize) -> (r: String)
    requires
        app.wf(),
    ensures
        r@ == runs_title(app@, listed as nat, total as nat),
{
    let filtered: bool = text::char_count(app.run_filter_text.as_str()) > 0;
    let mut out: String = " RUNS (".to_string();
    text::push_decimal(&mut out, listed as u64);
    if filtered {
        out.append("/");
        text::push_decimal(&mut out, total as u64);
    }
    out.append(")");
    if filtered || (app.filter_editing && app.filter_target == Focus::Runs) {
        out.append("  /");
        out.append(app.run_filter_text.as_str());
    }
    out
}

fn tags_title_text(app: &App, ntags: usize) -> (r: String)
    requires
        app.wf(),
    ensures
        r@ == tags_title(app@, ntags as nat),
{
    let mut out: String = " TAGS (".to_string();
    text::push_decimal(&mut out, ntags as u64);
    out.append(")");
    if text::char_count(app.filter_text.as_str()) > 0 || app.filter_editing {
        out.append("  /");
        out.append(app.filter_text.as_str());
    }
    out
}

fn row_line(row: &Row, here: bool, width: u16) -> (r: String)
    ensures
        r@ == row_text(row@, here, width as int),
{
    let mut count: String = String::new();
    if !row.leaf {
        count.append(" (");
        text::push_decimal(&mut count, row.leaves as u64);
        count.append(")");
    }
    assert(count@ =~= row_count(row@));
    let mut out: String = " ".to_string();
    out.append(
        if here {
            "▶"
        } else {
            " "
        },
    );
    let ghost before = out@;
    text::push_repeated(&mut out, ' ', row.depth);
    text::push_repeated(&mut out, ' ', row.depth);
    assert(out@ =~= before + text::repeated(' ', (2 * row.depth) as nat));
    out.append(
        if row.leaf {
            "  "
        } else if row.expanded {
            "▾ "
        } else {
            "▸ "
        },
    );
    assert(out@ == row_head(row@, here));
    let extra: usize = text::char_count(count.as_str());
    let wide: usize = width as usize;
    let room: usize = if row.depth < 0x1_0000 && 4 + 2 * row.depth < wide && extra < wide - 4 - 2
        * row.depth {
        wide - 4 - 2 * row.depth - extra
    } else {
        0
    };
    out.append(elide(row.label.as_str(), room).as_str());
    out.append(count.as_str());
    text::pad(out.as_str(), wide)
}

fn add_run_lines(
    area: Rect,
    store: &Store,
    ui: &UiState,
    app: &App,
    name: &str,
    selected: bool,
    y: u16,
    out: &mut Vec<Put>,
)
    requires
        store.wf(),
        app.wf(),
        area.x + 4 <= u16::MAX,
    ensures
        paint::put_views(final(out)@) == paint::put_views(old(out)@) + run_lines(
            area,
            store@,
            ui.palette,
            app@,
            name@,
            selected,
            y as int,
        ),
{
    let ghost start = paint::put_views(out@);
    let on: bool = !app.disabled.contains(name);
    let boxed: &str = if on {
        " ▣ "
    } else {
        " ☐ "
    };
    add_put(out, area.x, y, boxed.to_string(), row_style(selected));
    let (color, dash) = run_style(store, ui, name);
    add_put(out, area.x + 3, y, dash.marker().to_string(), mark(color));
    let style: Style = if on {
        row_style(selected)
    } else if selected {
        style_of(0x42)
    } else {
        style_of(DIM)
    };
    let mut label: String = " ".to_string();
    label.append(name);
    let w: usize = if area.width > 6 {
        (area.width - 6) as usize
    } else {
        0
    };
    add_put(out, area.x + 4, y, text::pad(label.as_str(), w), style);
    assert(paint::put_views(out@) =~= start + run_lines(
        area,
        store@,
        ui.palette,
        app@,
        name@,
        selected,
        y as int,
    ));
}

fn add_runs(
    area: Rect,
    store: &Store,
    ui: &UiState,
    app: &App,
    listed: &[String],
    visible: u16,
    out: &mut Vec<Put>,
)
    requires
        store.wf(),
        app.wf(),
        area.wf(),
        area.width >= 5,
        visible < area.height,
    ensures
        paint::put_views(final(out)@) == paint::put_views(old(out)@) + runs_lines(
            area,
            store@,
            ui.palette,
            app@,
            text::texts(listed@),
            in_sight(listed@.len() as int, app@.run_scroll, visible as int) as nat,
        ),
{
    let ghost start = paint::put_views(out@);
    let ghost names = text::texts(listed@);
    let mut i: u16 = 0;
    assert(start + runs_lines(area, store@, ui.palette, app@, names, 0) =~= start);
    while i < visible && app.run_scroll < listed.len() && (i as usize) < listed.len()
        - app.run_scroll
        invariant
            store.wf(),
            app.wf(),
            area.wf(),
            area.width >= 5,
            visible < area.height,
            i <= in_sight(listed@.len() as int, app@.run_scroll, visible as int),
            names == text::texts(listed@),
            paint::put_views(out@) == start + runs_lines(
                area,
                store@,
                ui.palette,
                app@,
                names,
                i as nat,
            ),
        decreases visible - i,
    {
        let at: usize = app.run_scroll + i as usize;
        assert(names[at as int] == listed@[at as int]@);
        let selected: bool = app.focus == Focus::Runs && at == app.run_sel;
        add_run_lines(area, store, ui, app, listed[at].as_str(), selected, area.y + 1 + i, out);
        i = i + 1;
        assert(paint::put_views(out@) =~= start + runs_lines(
            area,
            store@,
            ui.palette,
            app@,
            names,
            i as nat,
        ));
    }
}

fn add_rows(area: Rect, app: &App, rows: &[Row], top: u16, visible: u16, out: &mut Vec<Put>)
    requires
        app.wf(),
        area.wf(),
        top + visible <= u16::MAX,
    ensures
        paint::put_views(final(out)@) == paint::put_views(old(out)@) + rows_lines(
            area,
            app@,
            tags::row_views(rows@),
            top as int,
            in_sight(rows@.len() as int, app@.tag_scroll, visible as int) as nat,
        ),
{
    let ghost start = paint::put_views(out@);
    let ghost views = tags::row_views(rows@);
    let w: u16 = if area.width > 2 {
        area.width - 2
    } else {
        0
    };
    let mut i: u16 = 0;
    assert(start + rows_lines(area, app@, views, top as int, 0) =~= start);
    while i < visible && app.tag_scroll < rows.len() && (i as usize) < rows.len() - app.tag_scroll
        invariant
            app.wf(),
            area.wf(),
            w == layout::larger(area.width - 2, 0),
            top + visible <= u16::MAX,
            i <= in_sight(rows@.len() as int, app@.tag_scroll, visible as int),
            views == tags::row_views(rows@),
            paint::put_views(out@) == start + rows_lines(area, app@, views, top as int, i as nat),
        decreases visible - i,
    {
        let at: usize = app.tag_scroll + i as usize;
        assert(views[at as int] == rows@[at as int]@);
        let here: bool = at == app.tag_sel;
        let line: String = row_line(&rows[at], here, w);
        add_put(out, area.x, top + 1 + i, line, row_style(app.focus == Focus::Tags && here));
        i = i + 1;
        assert(paint::put_views(out@) =~= start + rows_lines(
            area,
            app@,
            views,
            top as int,
            i as nat,
        ));
    }
}

fn add_rule(area: Rect, out: &mut Vec<Put>)
    requires
        area.wf(),
        area.width > 0,
    ensures
        paint::put_views(final(out)@) == paint::put_views(old(out)@) + rule_lines(
            area,
            area.height as nat,
        ),
{
    let ghost start = paint::put_views(out@);
    let mut i: u16 = 0;
    assert(start + rule_lines(area, 0) =~= start);
    while i < area.height
        invariant
            area.wf(),
            area.width > 0,
            i <= area.height,
            paint::put_views(out@) == start + rule_lines(area, i as nat),
        decreases area.height - i,
    {
        add_put(out, area.x + area.width - 1, area.y + i, "│".to_string(), style_of(DIM));
        i = i + 1;
        assert(paint::put_views(out@) =~= start + rule_lines(area, i as nat));
    }
}

/// How many rows the list of runs takes with its title.
fn runs_rows(runs: usize, height: u16) -> (r: u16)
    requires
        height >= 2,
    ensures
        r == layout::runs_height(runs as int, height as int),
        2 <= r <= height,
{
    let low: u32 = (runs % 0x1_0000) as u32;
    let n: u32 = (low + 1) % 0x1_0000;
    let third: u32 = (height / 3) as u32;
    let most: u32 = if third < 2 {
        2
    } else {
        third
    };
    if n < 2 {
        2
    } else if n > most {
        most as u16
    } else {
        n as u16
    }
}

/// Move the lists so that their selections are in them and in sight.
#[verifier::rlimit(40)]
pub fn settle_lists(app: &mut App, nruns: usize, nrows: usize, height: u16)
    requires
        old(app).wf(),
        height >= 2,
    ensures
        final(app).wf(),
        final(app)@.equals(
            lists_drawn(old(app)@, nruns as int, nrows as int, height as int),
        ),
{
    let runs_h: u16 = runs_rows(nruns, height);
    let tags_h: u16 = height - runs_h;
    let tags_seen: u16 = if tags_h > 0 {
        tags_h - 1
    } else {
        0
    };
    app.run_scroll = scroll_for(app.run_scroll, app.run_sel, (runs_h - 1) as usize);
    let last: usize = if nrows > 0 {
        nrows - 1
    } else {
        0
    };
    if app.tag_sel > last {
        app.tag_sel = last;
    }
    app.tag_scroll = scroll_for(app.tag_scroll, app.tag_sel, tags_seen as usize);
}

/// The lines of the sidebar: the runs that the filter lists, the tags as a
/// tree, and a rule at the right edge.
pub fn sidebar_puts(
    area: Rect,
    app: &App,
    store: &Store,
    ui: &UiState,
    listed: &[String],
    ntags: usize,
    rows: &[Row],
    out: &mut Vec<Put>,
)
    requires
        app.wf(),
        store.wf(),
        area.wf(),
        area.width >= 5,
        area.height >= 2,
    ensures
        paint::put_views(final(out)@) == paint::put_views(old(out)@) + sidebar_views(
            area,
            store@,
            ui.palette,
            app@,
            text::texts(listed@),
            ntags as nat,
            tags::row_views(rows@),
        ),
{
    let runs_h: u16 = runs_rows(listed.len(), area.height);
    let tags_h: u16 = area.height - runs_h;
    let tags_seen: u16 = if tags_h > 0 {
        tags_h - 1
    } else {
        0
    };
    let ghost start = paint::put_views(out@);
    let ghost names = text::texts(listed@);
    proof {
        lemma_run_count(*store);
        assert(names.len() == listed@.len());
        assert(tags::row_views(rows@).len() == rows@.len());
    }
    add_put(
        out,
        area.x,
        area.y,
        runs_title_text(app, listed.len(), store.runs.len()),
        title_style(app.focus == Focus::Runs),
    );
    add_runs(area, store, ui, app, listed, runs_h - 1, out);
    add_put(
        out,
        area.x,
        area.y + runs_h,
        tags_title_text(app, ntags),
        title_style(app.focus == Focus::Tags),
    );
    add_rows(area, app, rows, area.y + runs_h, tags_seen, out);
    add_rule(area, out);
    assert(paint::put_views(out@) =~= start + sidebar_views(
        area,
        store@,
        ui.palette,
        app@,
        names,
        ntags as nat,
        tags::row_views(rows@),
    ));
}

/// There are as many runs as names.
proof fn lemma_run_count(s: Store)
    requires
        s.wf(),
    ensures
        s@.runs.dom().len() == s.runs.names@.len(),
{
    let keys = s.runs.keys();
    crate::names::lemma_ascending_distinct(keys);
    keys.unique_seq_to_set();
    assert(s@.runs.dom() =~= keys.to_set());
}

} // verus!
