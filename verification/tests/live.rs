use ttb::app::{App, Key, KeyPress, XMode};
use ttb::live::{settle_key, Loader, LoaderAction, Screen};

#[test]
fn the_loader_looks_once_and_then_while_following() {
    let mut l = Loader::new();
    assert_eq!(l.next(false, false), LoaderAction::Scan);
    assert_eq!(l.next(true, true), LoaderAction::Leave);
    l.scanned(0);
    assert!(!l.loaded);
    l.passed();
    assert!(l.loaded);
    assert_eq!(l.next(false, false), LoaderAction::Wait);
    assert_eq!(l.next(false, true), LoaderAction::Scan);

    let mut l = Loader::new();
    l.scanned(3);
    assert!(l.loaded && !l.first);
}

#[test]
fn a_frame_is_drawn_when_something_changed() {
    let mut app = App::new(true, XMode::Step, 0);
    let mut s = Screen::new();
    s.look(&mut app, false, 0, &[], 0);
    // while loading, every time
    assert_eq!(s.take_draw(false, false), Some(true));
    assert_eq!(s.take_draw(false, false), Some(true));
    s.look(&mut app, true, 0, &[], 0);
    assert!(app.loaded);
    assert_eq!(s.take_draw(true, false), Some(false));
    s.look(&mut app, true, 0, &[], 0);
    assert_eq!(s.take_draw(true, true), None);
    s.look(&mut app, true, 1, &[], 0);
    assert_eq!(s.take_draw(true, true), Some(true));
    s.resized();
    assert_eq!(s.take_draw(true, false), Some(false));
}

#[test]
fn the_cap_is_explained_once() {
    let runs: Vec<String> = (0..12).map(|i| format!("r{:02}", i)).collect();
    let mut app = App::new(true, XMode::Step, 8);
    let mut s = Screen::new();
    s.look(&mut app, true, 1, &runs, 100);
    assert_eq!(
        app.flash_msg,
        "12 runs found — showing the first 8. Shift-Tab for RUNS, then Space to add, / to filter"
    );
    assert_eq!(app.flash_until, 2_600);
    s.take_draw(true, false);
    s.look(&mut app, true, 1, &runs, 9_000);
    assert_eq!(app.flash_until, 2_600);
    assert_eq!(s.take_draw(true, false), None);
}

#[test]
fn a_reload_is_passed_on_once() {
    let mut app = App::new(true, XMode::Step, 0);
    let mut s = Screen::new();
    s.take_draw(true, false);
    app.handle_key(KeyPress::plain(Key::Char('r')), &[], &[], 0);
    let after = settle_key(&mut app, &mut s);
    assert!(after.wake && after.follow && !after.quit);
    assert!(s.dirty);
    app.handle_key(KeyPress::plain(Key::Char('q')), &[], &[], 0);
    let after = settle_key(&mut app, &mut s);
    assert!(!after.wake && after.quit);
}
