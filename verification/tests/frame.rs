use ratatui::buffer::Buffer;
use ratatui::layout::Rect as Area;
use ratatui::style::{Color as Shade, Modifier};
use ttb::app::{App, Focus, XMode};
use ttb::charts::{
    center_msg, chart_puts, charted_runs, is_roomy, plot_size, x_pieces, y_tick_goal, Chart, ChartCell, ChartState,
    ChartsPlan, Curve,
};
use ttb::colors::{Color, Dash, Depth, Palette};
use ttb::frame::{begin_frame, draw, finish_frame, Extras, Frame};
use ttb::paint::{overlay, paint, put, style_of, try_paint, Put, Rect, Style, BOLD, DIM, REVERSED};
use ttb::store::{FileRead, Store};
use ttb::ui::{footer_put, header_put, help_puts, run_slot, run_style, visible_tags, UiState};
use ttb::writer::{encode_scalar_event, frame_record};

fn screen(w: u16, h: u16) -> Buffer {
    Buffer::empty(Area { x: 0, y: 0, width: w, height: h })
}

fn rect(w: u16, h: u16) -> Rect {
    Rect { x: 0, y: 0, width: w, height: h }
}

fn line(buf: &Buffer, y: u16) -> String {
    let a = buf.area;
    (a.x..a.x + a.width).map(|x| buf[(x, y)].symbol().to_string()).collect()
}

fn ui() -> UiState {
    UiState { palette: Palette::new(Depth::Truecolor), busy: false }
}

/// A store in which each run has one file with these tags.
fn store(list: &[(&str, &[&str])]) -> Store {
    let mut st = Store::new("/logs");
    let mut reads = Vec::new();
    for (run, tags) in list {
        st.discover(run, "e.tfevents", &format!("/logs/{}/e.tfevents", run));
        let mut bytes = Vec::new();
        for tag in *tags {
            bytes.extend(frame_record(&encode_scalar_event(tag, 1, 1, 0x3f80_0000, false)));
        }
        reads.push(FileRead::Data(bytes));
    }
    let pending = st.pending_files();
    assert_eq!(pending.len(), reads.len());
    st.refresh(&pending, &reads);
    st
}

fn app() -> App {
    let mut a = App::new(true, XMode::Step, 0);
    a.loaded = true;
    a
}

fn extras() -> Extras<'static> {
    Extras { stride: 1, smooth: "0.60", now: 5_000 }
}

fn begin(w: u16, h: u16, a: &mut App, st: &Store) -> Frame {
    begin_frame(rect(w, h), a, st, &ui(), &extras())
}

fn show(w: u16, h: u16, a: &App, frame: &mut Frame, states: Vec<ChartState>) -> Buffer {
    finish_frame(rect(w, h), a, &ui().palette, frame, &states);
    let mut buf = screen(w, h);
    assert!(draw(&mut buf, frame));
    buf
}

#[test]
fn text_is_put_and_cut_off_at_the_edge() {
    let mut buf = screen(6, 2);
    put(&mut buf, 3, 1, "abcdef", style_of(BOLD));
    assert_eq!(line(&buf, 0), "      ");
    assert_eq!(line(&buf, 1), "   abc");
    assert!(buf[(3, 1)].modifier.contains(Modifier::BOLD));
    assert!(!buf[(2, 1)].modifier.contains(Modifier::BOLD));
    // outside, nothing happens
    put(&mut buf, 6, 0, "x", style_of(0));
    put(&mut buf, 0, 2, "x", style_of(0));
    assert_eq!(line(&buf, 0), "      ");
}

#[test]
fn styles_come_through() {
    let mut buf = screen(4, 1);
    let style = Style { fg: Some(Color::Rgb(1, 2, 3)), bg: Some(Color::Indexed(9)), add: DIM | REVERSED, sub: 0 };
    put(&mut buf, 0, 0, "x", style);
    let cell = &buf[(0, 0)];
    assert_eq!(cell.fg, Shade::Rgb(1, 2, 3));
    assert_eq!(cell.bg, Shade::Indexed(9));
    assert_eq!(cell.modifier, Modifier::DIM | Modifier::REVERSED);
    for (own, theirs) in [
        (Color::Reset, Shade::Reset),
        (Color::Blue, Shade::Blue),
        (Color::LightRed, Shade::LightRed),
        (Color::Cyan, Shade::Cyan),
        (Color::Yellow, Shade::Yellow),
        (Color::LightMagenta, Shade::LightMagenta),
        (Color::Green, Shade::Green),
        (Color::LightBlue, Shade::LightBlue),
        (Color::Red, Shade::Red),
    ] {
        put(&mut buf, 1, 0, "y", Style { fg: Some(own), bg: None, add: 0, sub: 0 });
        assert_eq!(buf[(1, 0)].fg, theirs);
    }
}

#[test]
fn an_overlay_hides_what_is_under_it() {
    let mut buf = screen(4, 1);
    put(&mut buf, 0, 0, "xxxx", Style { fg: Some(Color::Red), bg: None, add: BOLD | DIM, sub: 0 });
    put(&mut buf, 0, 0, "    ", overlay());
    for x in 0..4 {
        let cell = &buf[(x, 0)];
        assert_eq!(cell.symbol(), " ");
        assert_eq!(cell.fg, Shade::Reset);
        assert_eq!(cell.bg, Shade::Reset);
        assert_eq!(cell.modifier, Modifier::REVERSED);
    }
}

#[test]
fn lines_before_the_buffer_are_refused() {
    let mut buf = Buffer::empty(Area { x: 5, y: 5, width: 4, height: 4 });
    let puts = vec![Put { x: 4, y: 5, text: "a".to_string(), style: style_of(0) }];
    assert!(!try_paint(&mut buf, &puts));
    let puts = vec![Put { x: 5, y: 5, text: "a".to_string(), style: style_of(0) }];
    assert!(try_paint(&mut buf, &puts));
    assert_eq!(buf[(5, 5)].symbol(), "a");
    paint(&mut buf, &puts);
    assert_eq!(buf[(5, 5)].symbol(), "a");
}

#[test]
fn a_small_terminal_says_so() {
    let st = store(&[("r", &["x"])]);
    let mut a = app();
    let mut f = begin(39, 20, &mut a, &st);
    assert!(!f.whole);
    let buf = show(39, 20, &a, &mut f, Vec::new());
    assert_eq!(line(&buf, 0).trim_end(), "terminal too small");
    let f = begin(40, 7, &mut a, &st);
    assert!(!f.whole);
    let f = begin(40, 8, &mut a, &st);
    assert!(f.whole);
}

#[test]
fn the_header_tells_the_state() {
    let st = store(&[("r", &["x"]), ("s", &["x", "y"])]);
    let mut a = app();
    a.disabled.insert("s");
    a.log_y = true;
    let p = header_put(rect(120, 10), &a, &st, &ui(), &st.run_names(), 2, 1, "0.60");
    let right = " runs 1/2 │ tags 2 │ pts 3 │ live ○ │ x:step │ y:log │ smooth 0.60 ";
    let want = format!("{}{}{}", " ttb  /logs ", " ".repeat(120 - 12 - right.chars().count()), right);
    assert_eq!(p.text, want);
    assert_eq!(p.style, style_of(REVERSED));
    let p = header_put(rect(20, 10), &a, &st, &ui(), &st.run_names(), 2, 4, "0.60");
    assert!(p.text.contains("pts 3 ÷4 │"), "{}", p.text);
    a.follow = false;
    let p = header_put(rect(20, 10), &a, &st, &ui(), &st.run_names(), 2, 1, "0.60");
    assert!(p.text.contains("│ paused │"));
    assert!(p.text.starts_with(" ttb  /logs   runs"), "one space at least");
}

#[test]
fn the_footer_has_a_message_a_filter_or_hints() {
    let mut a = app();
    let p = footer_put(rect(200, 10), &a, 0);
    assert!(p.text.starts_with("  Tab:focus  Space:run on/off  Enter:solo/open  a:all  /:filter  s/S:smooth  +/-/[/]:zoom·pan"));
    assert!(p.text.trim_end().ends_with("f:follow  ?:help  q:quit"));
    assert_eq!(p.text.chars().count(), 200);
    assert_eq!((p.x, p.y), (0, 9));
    a.flash("hello", 100);
    assert_eq!(footer_put(rect(20, 10), &a, 2_599).text.trim_end(), " hello");
    assert!(footer_put(rect(20, 10), &a, 2_600).text.starts_with("  Tab"));
    a.filter_editing = true;
    a.filter_target = Focus::Runs;
    a.run_filter_text = "ab".into();
    assert_eq!(footer_put(rect(20, 10), &a, 0).text, " filter runs: ab▏  (Enter apply · Esc cancel)");
    a.filter_target = Focus::Tags;
    assert_eq!(footer_put(rect(20, 10), &a, 0).text, " filter tags: ▏  (Enter apply · Esc cancel)");
}

#[test]
fn the_sidebar_lists_runs_and_tags() {
    let st = store(&[("base", &["train/acc", "train/loss", "lr"]), ("other", &["lr"])]);
    let mut a = app();
    a.disabled.insert("other");
    a.focus = Focus::Runs;
    let mut f = begin(80, 20, &mut a, &st);
    assert_eq!(f.runs, vec!["base", "other"]);
    assert_eq!(f.tags, vec!["lr", "train/acc", "train/loss"]);
    let n = match &f.charts {
        ChartsPlan::Cells(cells) => cells.len(),
        ChartsPlan::Message(_) => 0,
    };
    assert_eq!(n, 1);
    let buf = show(80, 20, &a, &mut f, vec![ChartState::NoData]);
    assert!(line(&buf, 1).starts_with(" RUNS (2)"));
    assert!(line(&buf, 2).starts_with(" ▣ ● base"));
    assert!(line(&buf, 3).starts_with(" ☐ ● other"));
    assert!(line(&buf, 4).starts_with(" TAGS (3)"));
    assert!(line(&buf, 5).starts_with(" ▶  lr"));
    assert!(line(&buf, 6).starts_with("  ▾ train (2)"));
    assert!(line(&buf, 7).starts_with("      acc"));
    assert!(buf[(1, 2)].modifier.contains(Modifier::REVERSED), "the selected run");
    assert!(buf[(5, 3)].modifier.contains(Modifier::DIM), "a hidden run");
    assert_eq!(buf[(3, 2)].fg, Shade::Rgb(0x39, 0x87, 0xe5));
    for y in 1..19 {
        assert_eq!(buf[(23, y)].symbol(), "│");
    }
    assert!(line(&buf, 1).contains("lr"), "the title of the chart");
    assert!(line(&buf, 10).contains("no data in enabled runs"));
}

#[test]
fn messages_stand_in_the_middle() {
    let p = center_msg(Rect { x: 10, y: 4, width: 20, height: 9 }, "hello!");
    assert_eq!((p.x, p.y), (17, 8));
    let st = store(&[("r", &["x"])]);
    let mut a = app();
    a.loaded = false;
    let mut f = begin(80, 20, &mut a, &st);
    let buf = show(80, 20, &a, &mut f, Vec::new());
    assert!(line(&buf, 10).contains("loading event files…"));
    a.loaded = true;
    a.filter_text = "nothing".into();
    let mut f = begin(80, 20, &mut a, &st);
    let buf = show(80, 20, &a, &mut f, Vec::new());
    assert!(line(&buf, 10).contains("no tags match filter"));
    a.filter_text.clear();
    a.disabled.insert("r");
    let mut f = begin(80, 20, &mut a, &st);
    let buf = show(80, 20, &a, &mut f, Vec::new());
    assert!(line(&buf, 10).contains("no scalars found"));
}

#[test]
fn the_grid_starts_at_the_selected_tag() {
    let st = store(&[("r", &["a", "b", "c", "d", "e"])]);
    let mut a = app();
    a.grid = true;
    a.sidebar = false;
    a.tag_sel = 1;
    let f = begin(160, 32, &mut a, &st);
    match &f.charts {
        ChartsPlan::Cells(cells) => {
            let tags: Vec<usize> = cells.iter().map(|c| c.tag).collect();
            assert_eq!(tags, vec![1, 2, 3, 4]);
            assert!(cells[0].highlight && !cells[1].highlight);
            assert!(cells.iter().all(|c| !c.detailed));
            assert_eq!(cells[3].area, Rect { x: 80, y: 16, width: 80, height: 15 });
        }
        ChartsPlan::Message(_) => panic!("no charts"),
    }
}

#[test]
fn the_help_lies_over_everything() {
    let st = store(&[("r", &["x"])]);
    let mut a = app();
    a.help_visible = true;
    let mut f = begin(80, 24, &mut a, &st);
    let buf = show(80, 24, &a, &mut f, vec![ChartState::NoData]);
    let all: String = (0..24).map(|y| line(&buf, y)).collect();
    assert!(all.contains("terminal-tensorboard — keys"));
    assert!(all.contains("Tab / Shift-Tab   cycle focus: runs -> tags -> chart"));
    assert!(all.contains("q                 quit"));
    let mut out = Vec::new();
    help_puts(rect(80, 24), &mut out);
    assert_eq!(out.len(), 20 + 1 + 2 * 16);
    // the title is bold, though the panel takes bold and dim away
    let title = out.iter().find(|p| p.text.starts_with("terminal-tensorboard")).unwrap();
    assert_eq!(title.style, Style { add: BOLD | REVERSED, sub: DIM, ..overlay() });
    let cell = &buf[(title.x, title.y)];
    assert_eq!(cell.symbol(), "t");
    assert!(cell.modifier.contains(Modifier::BOLD | Modifier::REVERSED));
    assert!(!buf[(title.x, title.y + 2)].modifier.contains(Modifier::DIM));
    let mut out = Vec::new();
    help_puts(rect(40, 10), &mut out);
    assert_eq!(out.len(), 8 + 1 + 2 * 4);
}

fn one_curve(name: &str, slot: usize, pts: Vec<(i64, i64)>, readout: Option<(String, i64)>) -> Curve {
    Curve { name: name.to_string(), slot, pts, readout }
}

#[test]
fn a_chart_has_its_curve_axes_and_legend() {
    let area = rect(40, 10);
    assert!(is_roomy(area));
    assert_eq!(plot_size(area), (29, 8));
    assert_eq!(x_pieces(29), 2);
    assert_eq!(x_pieces(110), 5);
    assert_eq!(y_tick_goal(8), 3);
    assert_eq!(y_tick_goal(40), 10);
    let chart = Chart {
        curves: vec![one_curve("run", 1, vec![(0, 31), (57, 31)], Some(("0.5".to_string(), 12_000)))],
        y_ticks: vec![(0, "1".to_string()), (31, "0.123456789".to_string())],
        x_labels: vec![(0, "0".to_string()), (14, "50".to_string()), (28, "100".to_string())],
        cursor: Some(20),
    };
    let cell = ChartCell { area, tag: 0, detailed: true, highlight: true };
    let mut puts = Vec::new();
    chart_puts(cell, "loss", false, &ui().palette, &ChartState::Drawn(chart), &mut puts);
    let mut buf = screen(40, 10);
    assert!(try_paint(&mut buf, &puts));
    assert_eq!(&line(&buf, 0).trim_end(), &"          loss");
    assert!(line(&buf, 1).starts_with("        1┼"));
    assert!(line(&buf, 8).starts_with("0.1234567┼"));
    assert!(line(&buf, 2).starts_with("         │"));
    // the curve runs along the lowest pixels
    for x in 10..39 {
        assert_eq!(buf[(x, 8)].symbol(), "⣀");
        assert_eq!(buf[(x, 8)].fg, Shade::Rgb(0xd9, 0x59, 0x26));
    }
    assert_eq!(buf[(20, 4)].symbol(), "┊");
    assert_eq!(line(&buf, 9), "         └0             50         100  ");
    assert!(line(&buf, 1).trim_end().ends_with("● run  0.5 @ 12k"));
}

#[test]
fn a_chart_without_points_says_so() {
    let area = rect(60, 10);
    let cell = ChartCell { area, tag: 0, detailed: true, highlight: false };
    let mut puts = Vec::new();
    chart_puts(cell, "loss", true, &ui().palette, &ChartState::NoPoints, &mut puts);
    let mut buf = screen(60, 10);
    try_paint(&mut buf, &puts);
    assert!(line(&buf, 5).contains("no drawable points"));
    assert!(buf[(10, 0)].modifier.contains(Modifier::BOLD | Modifier::DIM));
    let mut puts = Vec::new();
    chart_puts(
        ChartCell { area: rect(20, 10), tag: 0, detailed: true, highlight: false },
        "loss",
        true,
        &ui().palette,
        &ChartState::NoData,
        &mut puts,
    );
    assert!(puts.is_empty(), "there is no room");
}

#[test]
fn the_first_chart_of_a_grid_is_marked() {
    let cell = ChartCell { area: rect(60, 10), tag: 0, detailed: false, highlight: true };
    let mut puts = Vec::new();
    chart_puts(cell, "loss", true, &ui().palette, &ChartState::NoData, &mut puts);
    assert_eq!(puts[0].text, "▶ loss");
}

#[test]
fn the_legend_shows_eight_runs() {
    let area = rect(60, 20);
    let curves: Vec<Curve> = (0..10).map(|i| one_curve(&format!("run{}", i), i, vec![(0, 0)], None)).collect();
    let chart = Chart { curves, y_ticks: Vec::new(), x_labels: Vec::new(), cursor: None };
    let cell = ChartCell { area, tag: 0, detailed: true, highlight: true };
    let mut puts = Vec::new();
    chart_puts(cell, "loss", false, &ui().palette, &ChartState::Drawn(chart), &mut puts);
    let mut buf = screen(60, 20);
    try_paint(&mut buf, &puts);
    assert!(line(&buf, 8).trim_end().ends_with("● run7"));
    let all: String = (0..20).map(|y| line(&buf, y)).collect();
    assert!(!all.contains("run8"));
}

#[test]
fn runs_are_styled_by_their_slots() {
    let st = store(&[("a", &["x"]), ("b", &["x"])]);
    assert_eq!(run_slot(&st, "b"), 1);
    assert_eq!(run_slot(&st, "nobody"), 0);
    assert_eq!(run_style(&st, &ui(), "b"), (Color::Rgb(0xd9, 0x59, 0x26), Dash::solid()));
}

#[test]
fn a_chart_shows_the_enabled_runs_with_the_tag() {
    let st = store(&[("a", &["x"]), ("b", &["x", "y"]), ("c", &["y"])]);
    let mut a = app();
    assert_eq!(charted_runs(&st, &a, &st.run_names(), "x"), vec!["a", "b"]);
    a.disabled.insert("a");
    assert_eq!(charted_runs(&st, &a, &st.run_names(), "x"), vec!["b"]);
    assert_eq!(visible_tags(&st, &a), vec!["x", "y"]);
    a.disabled.insert("b");
    assert_eq!(visible_tags(&st, &a), vec!["y"]);
    a.filter_text = "Z".into();
    assert!(visible_tags(&st, &a).is_empty());
}
