use ttb::app::{keep_passing, list_matching, App, Focus, Key, KeyPress, ViewChange, XMode};
use ttb::names::NameSet;

fn names(n: usize) -> Vec<String> {
    (0..n).map(|i| format!("run{:03}", i)).collect()
}

fn app(max_runs: usize) -> App {
    App::new(true, XMode::Step, max_runs)
}

fn press(a: &mut App, key: Key, runs: &[String], tags: &[String]) -> Option<ViewChange> {
    a.handle_key(KeyPress::plain(key), runs, tags, 1_000)
}

fn set_of(names: &[String]) -> NameSet {
    let mut s = NameSet::new();
    for n in names {
        s.insert(n);
    }
    s
}

fn strings(list: &[&str]) -> Vec<String> {
    list.iter().map(|s| s.to_string()).collect()
}

#[test]
fn only_the_first_n_runs_start_enabled() {
    let runs = names(300);
    let mut a = app(8);
    a.sync_runs(&runs);
    let enabled: Vec<&String> = runs.iter().filter(|n| !a.disabled.contains(n)).collect();
    assert_eq!(enabled.len(), 8);
    assert_eq!(enabled[0], "run000");
    assert_eq!(enabled[7], "run007");
    assert_eq!(a.capped_notice, Some(300));
}

#[test]
fn max_runs_zero_enables_everything() {
    let runs = names(300);
    let mut a = app(0);
    a.sync_runs(&runs);
    assert!(a.disabled.len() == 0);
    assert_eq!(a.capped_notice, None);
}

#[test]
fn the_cap_never_overrides_a_users_choice() {
    let runs = names(20);
    let mut a = app(3);
    a.sync_runs(&runs);
    assert_eq!(runs.iter().filter(|n| !a.disabled.contains(n)).count(), 3);

    // user switches on five more by hand
    for n in runs.iter().skip(3).take(5) {
        a.disabled.remove(n);
    }
    a.sync_runs(&runs); // nothing new discovered
    assert_eq!(runs.iter().filter(|n| !a.disabled.contains(n)).count(), 8);

    // a run appearing later starts hidden, and leaves the others alone
    let mut grown = runs.clone();
    grown.push("run999".into());
    a.sync_runs(&grown);
    assert!(a.disabled.contains("run999"));
    assert_eq!(grown.iter().filter(|n| !a.disabled.contains(n)).count(), 8);
}

#[test]
fn run_filter_narrows_the_list() {
    let runs = vec!["lr_high".to_string(), "lr_low".to_string(), "baseline".to_string()];
    let mut a = app(0);
    a.run_filter_text = "LR_".into(); // case-insensitive
    assert_eq!(a.visible_runs(&runs), vec!["lr_high", "lr_low"]);
    a.run_filter_text.clear();
    assert_eq!(a.visible_runs(&runs).len(), 3);
}

#[test]
fn toggle_all_is_scoped_to_the_filtered_runs() {
    let runs = vec!["lr_high".to_string(), "lr_low".to_string(), "baseline".to_string()];
    let mut a = app(0);
    a.sync_runs(&runs);
    a.disabled = set_of(&runs); // start with all hidden
    a.run_filter_text = "lr_".into();
    a.focus = Focus::Runs;
    press(&mut a, Key::Char('a'), &runs, &[]);
    assert!(!a.disabled.contains("lr_high"));
    assert!(!a.disabled.contains("lr_low"));
    assert!(a.disabled.contains("baseline"), "a run outside the filter was touched");
}

#[test]
fn enter_on_a_run_solos_it() {
    let runs = names(5);
    let mut a = app(0);
    a.sync_runs(&runs);
    a.focus = Focus::Runs;
    a.run_sel = 2;
    press(&mut a, Key::Enter, &runs, &[]);
    let enabled: Vec<&String> = runs.iter().filter(|n| !a.disabled.contains(n)).collect();
    assert_eq!(enabled, vec!["run002"]);
}

#[test]
fn solo_respects_the_filter_selection_not_the_full_list() {
    let runs = vec!["a1".to_string(), "b1".to_string(), "b2".to_string()];
    let mut a = app(0);
    a.sync_runs(&runs);
    a.focus = Focus::Runs;
    a.run_filter_text = "b".into();
    a.run_sel = 1; // "b2" within the filtered list
    press(&mut a, Key::Enter, &runs, &[]);
    let enabled: Vec<&String> = runs.iter().filter(|n| !a.disabled.contains(n)).collect();
    assert_eq!(enabled, vec!["b2"]);
}

#[test]
fn slash_filters_whichever_list_has_focus() {
    let runs = names(3);
    let mut a = app(0);
    a.focus = Focus::Runs;
    press(&mut a, Key::Char('/'), &runs, &[]);
    assert!(a.filter_editing);
    assert_eq!(a.filter_target, Focus::Runs);
    for c in "run0".chars() {
        press(&mut a, Key::Char(c), &runs, &[]);
    }
    press(&mut a, Key::Enter, &runs, &[]);
    assert_eq!(a.run_filter_text, "run0");
    assert!(a.filter_text.is_empty(), "tag filter must be untouched");

    a.focus = Focus::Tags;
    press(&mut a, Key::Char('/'), &runs, &[]);
    assert_eq!(a.filter_target, Focus::Tags);
    press(&mut a, Key::Esc, &runs, &[]);
    assert_eq!(a.run_filter_text, "run0", "run filter must survive a tag-filter cancel");
}

#[test]
fn filters_ignore_case_beyond_ascii() {
    let list = strings(&["Größe", "GRÖSSE", "other"]);
    assert_eq!(list_matching(&list, "größe"), vec!["Größe"]);
    assert_eq!(list_matching(&list, "GRÖ"), vec!["Größe", "GRÖSSE"]);
    assert_eq!(list_matching(&list, "").len(), 3);
    let low = strings(&["abc", "b", "c"]);
    let shown = strings(&["1", "2", "3"]);
    assert_eq!(keep_passing(&shown, &low, "b"), vec!["1", "2"]);
}

#[test]
fn escape_brings_the_old_filter_back() {
    let mut a = app(0);
    a.focus = Focus::Tags;
    a.filter_text = "old".into();
    press(&mut a, Key::Char('/'), &[], &[]);
    press(&mut a, Key::Backspace, &[], &[]);
    press(&mut a, Key::Char('é'), &[], &[]);
    assert_eq!(a.filter_text, "olé");
    press(&mut a, Key::Esc, &[], &[]);
    assert_eq!(a.filter_text, "old");
    assert!(!a.filter_editing);
}

#[test]
fn keys_that_switch_something() {
    let runs = names(2);
    let mut a = app(0);
    a.sync_runs(&runs);
    press(&mut a, Key::Char('g'), &runs, &[]);
    assert!(a.grid);
    press(&mut a, Key::Char('L'), &runs, &[]);
    assert!(a.log_y);
    press(&mut a, Key::Char('b'), &runs, &[]);
    assert!(!a.sidebar);
    press(&mut a, Key::Char('f'), &runs, &[]);
    assert!(!a.follow && !a.reload_requested);
    assert_eq!(a.flash_msg, "follow off");
    assert_eq!(a.flash_until, 3_500);
    press(&mut a, Key::Char('f'), &runs, &[]);
    assert!(a.follow && a.reload_requested);
    assert_eq!(a.flash_msg, "follow on");
    a.reload_requested = false;
    press(&mut a, Key::Char('r'), &runs, &[]);
    assert!(a.reload_requested);
    assert_eq!(a.flash_msg, "reloading…");
    assert_eq!(press(&mut a, Key::Char('x'), &runs, &[]), Some(ViewChange::Reset));
    assert_eq!(a.xmode, XMode::RelTime);
    press(&mut a, Key::Char('a'), &runs, &[]);
    assert_eq!(a.flash_msg, "hid 2 run(s)");
    press(&mut a, Key::Char('a'), &runs, &[]);
    assert_eq!(a.flash_msg, "showing 2 run(s)");
    press(&mut a, Key::Char('Q'), &runs, &[]);
    assert!(a.quit);
}

#[test]
fn control_c_quits() {
    let mut a = app(0);
    a.handle_key(KeyPress { key: Key::Char('c'), ctrl: true }, &[], &[], 0);
    assert!(a.quit);
    let mut a = app(0);
    a.focus = Focus::Chart;
    let asked = press(&mut a, Key::Char('c'), &[], &[]);
    assert_eq!(asked, Some(ViewChange::CursorClear));
    assert!(!a.quit);
}

#[test]
fn enter_comes_in_several_forms() {
    for key in [
        KeyPress::plain(Key::Enter),
        KeyPress::plain(Key::Char('\n')),
        KeyPress::plain(Key::Char('\r')),
        KeyPress { key: Key::Char('j'), ctrl: true },
        KeyPress { key: Key::Char('m'), ctrl: true },
    ] {
        let mut a = app(0);
        a.grid = true;
        a.handle_key(key, &[], &[], 0);
        assert_eq!(a.focus, Focus::Chart);
        assert!(!a.grid);
    }
}

#[test]
fn help_swallows_one_key() {
    let mut a = app(0);
    press(&mut a, Key::Char('?'), &[], &[]);
    assert!(a.help_visible);
    press(&mut a, Key::Char('q'), &[], &[]);
    assert!(!a.help_visible);
    assert!(!a.quit);
}

#[test]
fn the_view_keys_ask_for_a_change() {
    let mut a = app(0);
    for (c, want) in [
        ('s', ViewChange::LessSmoothing),
        ('S', ViewChange::MoreSmoothing),
        ('+', ViewChange::ZoomIn),
        ('=', ViewChange::ZoomIn),
        ('-', ViewChange::ZoomOut),
        ('_', ViewChange::ZoomOut),
        ('[', ViewChange::PanLeft),
        (']', ViewChange::PanRight),
        ('0', ViewChange::Reset),
        ('z', ViewChange::Keep),
    ] {
        assert_eq!(press(&mut a, Key::Char(c), &[], &[]), Some(want), "{}", c);
    }
    a.focus = Focus::Chart;
    for (key, want) in [
        (Key::Char('h'), ViewChange::CursorLeft),
        (Key::Left, ViewChange::CursorLeft),
        (Key::Char('l'), ViewChange::CursorRight),
        (Key::Right, ViewChange::CursorRight),
        (Key::Esc, ViewChange::CursorClear),
        (Key::Down, ViewChange::Keep),
    ] {
        assert_eq!(press(&mut a, key, &[], &[]), Some(want));
    }
}

#[test]
fn the_axis_goes_round() {
    assert_eq!(XMode::Step.next(), XMode::RelTime);
    assert_eq!(XMode::RelTime.next(), XMode::Wall);
    assert_eq!(XMode::Wall.next(), XMode::Step);
    assert_eq!(XMode::Step.label(), "step");
    assert_eq!(XMode::RelTime.label(), "reltime");
    assert_eq!(XMode::Wall.label(), "wall");
}

#[test]
fn tab_goes_round_and_back() {
    let mut a = app(0);
    let start = a.focus;
    for _ in 0..3 {
        press(&mut a, Key::Tab, &[], &[]);
    }
    assert_eq!(a.focus, start);
    press(&mut a, Key::Tab, &[], &[]);
    press(&mut a, Key::BackTab, &[], &[]);
    assert_eq!(a.focus, start);
}

#[test]
fn the_selection_stays_in_the_list() {
    let runs = names(3);
    let mut a = app(0);
    a.focus = Focus::Runs;
    press(&mut a, Key::Up, &runs, &[]);
    assert_eq!(a.run_sel, 0);
    for _ in 0..9 {
        press(&mut a, Key::Down, &runs, &[]);
    }
    assert_eq!(a.run_sel, 2);
    press(&mut a, Key::Home, &runs, &[]);
    assert_eq!(a.run_sel, 0);
    press(&mut a, Key::End, &runs, &[]);
    assert_eq!(a.run_sel, 2);
}

#[test]
fn a_toggle_twice_is_none() {
    let runs = names(3);
    let mut a = app(0);
    a.sync_runs(&runs);
    a.focus = Focus::Runs;
    a.run_sel = 1;
    press(&mut a, Key::Char(' '), &runs, &[]);
    assert!(a.disabled.contains("run001"));
    press(&mut a, Key::Char(' '), &runs, &[]);
    assert_eq!(a.disabled.len(), 0);
}

#[test]
fn a_selection_that_is_not_listed_is_refused() {
    let runs = names(2);
    let mut a = app(0);
    a.focus = Focus::Runs;
    a.run_sel = 7;
    assert_eq!(press(&mut a, Key::Enter, &runs, &[]), None);
    assert_eq!(press(&mut a, Key::Char(' '), &runs, &[]), None);
    assert_eq!(a.disabled.len(), 0);
    assert_eq!(press(&mut a, Key::Enter, &[], &[]), Some(ViewChange::Keep));
    assert_eq!(press(&mut a, Key::Up, &runs, &[]), Some(ViewChange::Keep));
    assert_eq!(a.run_sel, 6);
}

#[test]
fn groups_open_and_close() {
    let tags = strings(&["a/b/x", "a/b/y", "a/c/z", "a/c/w"]);
    let mut a = app(0);
    a.focus = Focus::Tags;
    let labels = |a: &App| -> Vec<String> { a.tag_rows(&tags).into_iter().map(|r| r.path).collect() };
    assert_eq!(labels(&a), vec!["a", "a/b", "a/c"]);
    a.tag_sel = 1;
    assert_eq!(a.selected_tag(&tags), Some(0));
    assert!(a.handle_tree_key(KeyPress::plain(Key::Right), &tags));
    assert_eq!(labels(&a), vec!["a", "a/b", "a/b/x", "a/b/y", "a/c"]);
    a.tag_sel = 4;
    assert_eq!(a.selected_tag(&tags), Some(2));
    a.tag_sel = 0;
    assert!(a.handle_tree_key(KeyPress::plain(Key::Left), &tags));
    assert_eq!(labels(&a), vec!["a"]);
    // a filter opens everything
    a.filter_text = "/".into();
    assert_eq!(labels(&a).len(), 7);
}

#[test]
fn a_press_opens_groups_or_moves_over_the_rows() {
    let tags = strings(&["a/b/x", "a/b/y", "a/c/z", "a/c/w"]);
    let runs = strings(&["r1", "r2"]);
    let mut a = app(0);
    a.focus = Focus::Tags;
    let plain = |a: &mut App, key: Key| a.handle_press(KeyPress::plain(key), &runs, &tags, 1_000);
    // three rows are shown, and the selection stops at the last
    for _ in 0..9 {
        assert_eq!(plain(&mut a, Key::Down), Some(ViewChange::Keep));
    }
    assert_eq!(a.tag_sel, 2);
    assert_eq!(plain(&mut a, Key::Enter), Some(ViewChange::Keep));
    assert_eq!(a.opened.get("a/c"), Some(&true));
    assert_eq!(a.tag_rows(&tags).len(), 5);
    assert_eq!(plain(&mut a, Key::Char('h')), Some(ViewChange::Keep));
    assert_eq!(a.opened.get("a/c"), Some(&false));
    // what is no key of the tree acts as always
    assert_eq!(plain(&mut a, Key::Char('?')), Some(ViewChange::Keep));
    assert!(a.help_visible);
    assert_eq!(plain(&mut a, Key::Enter), Some(ViewChange::Keep));
    assert!(!a.help_visible);
    assert_eq!(a.opened.get("a/c"), Some(&false));
    // and nothing happens where no run is listed in the place
    a.focus = Focus::Runs;
    a.run_sel = 7;
    assert_eq!(plain(&mut a, Key::Enter), None);
    assert_eq!(a.disabled.len(), 0);
    a.run_sel = 1;
    assert_eq!(plain(&mut a, Key::Char(' ')), Some(ViewChange::Keep));
    assert!(a.disabled.contains("r2"));
}

#[test]
fn a_run_that_takes_the_place_of_another_gets_its_default() {
    let mut a = app(1);
    a.sync_runs(&strings(&["a", "b"]));
    assert!(!a.disabled.contains("a") && a.disabled.contains("b"));
    a.sync_runs(&strings(&["a", "c"]));
    assert!(a.disabled.contains("c"));
    assert!(!a.disabled.contains("a"));
    assert!(a.known_runs.contains("c"));
    // where the run that was shown is gone, there is room
    a.sync_runs(&strings(&["c", "d"]));
    assert!(!a.disabled.contains("d"));
}

#[test]
fn a_selected_row_always_leads_to_a_tag() {
    let tags = strings(&["/loss", "a//b", "a//c"]);
    let mut a = app(0);
    for sel in 0..9 {
        a.tag_sel = sel;
        assert!(a.selected_tag(&tags).is_some());
    }
    a.tag_sel = 0;
    assert_eq!(a.tag_rows(&tags)[0].path, "a");
    assert_eq!(a.selected_tag(&tags), Some(1));
    a.tag_sel = 3;
    assert_eq!(a.selected_tag(&tags), Some(0));
}
