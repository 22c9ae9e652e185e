//! What each key does, wherever it is pressed.
use vstd::prelude::*;

use crate::app;
use crate::app::{AppView, Focus, Key, KeyPress, ViewChange, XMode};
use crate::app_laws;
use crate::tags;

verus! {

/// The key without Control.
pub open spec fn press(key: Key) -> KeyPress {
    KeyPress { key, ctrl: false }
}

/// These keys move down in a list, or to the next tag.
pub open spec fn is_down(k: Key) -> bool {
    k == Key::Char('j') || k == Key::Down
}

/// These keys move up in a list, or to the previous tag.
pub open spec fn is_up(k: Key) -> bool {
    k == Key::Char('k') || k == Key::Up
}

// ---------------------------------------------------------------------------
// Moving
// ---------------------------------------------------------------------------
/// In the list of runs, down and up lead to the next run and to the one before,
/// and nowhere from the last one and the first; Home and End lead to these.
/// Nothing else changes.
pub proof fn law_moving_over_runs(
    a: AppView,
    k: Key,
    all: Seq<Seq<char>>,
    listed: Seq<Seq<char>>,
    ntags: int,
    now: int,
)
    requires
        app_laws::ready(a),
        a.focus == Focus::Runs,
        0 <= a.run_sel < listed.len(),
    ensures
        ({
            let after = app::after_key(a, press(k), all, listed, ntags, now);
            let n = listed.len() as int;
            &&& is_down(k) && a.run_sel + 1 < n ==> after == (
                AppView { run_sel: a.run_sel + 1, ..a },
                ViewChange::Keep,
            )
            &&& is_down(k) && a.run_sel + 1 == n ==> after == (a, ViewChange::Keep)
            &&& is_up(k) && a.run_sel > 0 ==> after == (
                AppView { run_sel: a.run_sel - 1, ..a },
                ViewChange::Keep,
            )
            &&& is_up(k) && a.run_sel == 0 ==> after == (a, ViewChange::Keep)
            &&& k == Key::Home ==> after == (AppView { run_sel: 0, ..a }, ViewChange::Keep)
            &&& k == Key::End ==> after == (AppView { run_sel: n - 1, ..a }, ViewChange::Keep)
        }),
{
}

/// In the list of tags, down and up lead to the next row and to the one before,
/// and nowhere from the last one and the first; Home and End lead to these.
/// Nothing else changes.
pub proof fn law_moving_over_tags(
    a: AppView,
    k: Key,
    all: Seq<Seq<char>>,
    listed: Seq<Seq<char>>,
    ntags: int,
    now: int,
)
    requires
        app_laws::ready(a),
        a.focus == Focus::Tags,
        0 <= a.tag_sel < ntags,
    ensures
        ({
            let after = app::after_key(a, press(k), all, listed, ntags, now);
            &&& is_down(k) && a.tag_sel + 1 < ntags ==> after == (
                AppView { tag_sel: a.tag_sel + 1, ..a },
                ViewChange::Keep,
            )
            &&& is_down(k) && a.tag_sel + 1 == ntags ==> after == (a, ViewChange::Keep)
            &&& is_up(k) && a.tag_sel > 0 ==> after == (
                AppView { tag_sel: a.tag_sel - 1, ..a },
                ViewChange::Keep,
            )
            &&& is_up(k) && a.tag_sel == 0 ==> after == (a, ViewChange::Keep)
            &&& k == Key::Home ==> after == (AppView { tag_sel: 0, ..a }, ViewChange::Keep)
            &&& k == Key::End ==> after == (AppView { tag_sel: ntags - 1, ..a }, ViewChange::Keep)
            &&& k == Key::Enter ==> after == (
                AppView { grid: false, focus: Focus::Chart, ..a },
                ViewChange::Keep,
            )
        }),
{
}

/// With the chart in focus, down charts the next tag and up the one before, and
/// the one undoes the other. Left and right move the data cursor, and c and Esc
/// take it away.
pub proof fn law_moving_over_the_chart(
    a: AppView,
    k: Key,
    back: Key,
    all: Seq<Seq<char>>,
    listed: Seq<Seq<char>>,
    ntags: int,
    now: int,
)
    requires
        app_laws::ready(a),
        a.focus == Focus::Chart,
        0 <= a.tag_sel < ntags,
        is_up(back),
    ensures
        ({
            let after = app::after_key(a, press(k), all, listed, ntags, now);
            let undone = app::after_key(after.0, press(back), all, listed, ntags, now);
            &&& is_down(k) && a.tag_sel + 1 < ntags ==> after == (
                AppView { tag_sel: a.tag_sel + 1, ..a },
                ViewChange::Keep,
            ) && undone == (a, ViewChange::Keep)
            &&& is_down(k) && a.tag_sel + 1 == ntags ==> after == (a, ViewChange::Keep)
            &&& is_up(k) && a.tag_sel > 0 ==> after == (
                AppView { tag_sel: a.tag_sel - 1, ..a },
                ViewChange::Keep,
            )
            &&& is_up(k) && a.tag_sel == 0 ==> after == (a, ViewChange::Keep)
            &&& k == Key::Left || k == Key::Char('h') ==> after == (a, ViewChange::CursorLeft)
            &&& k == Key::Right || k == Key::Char('l') ==> after == (a, ViewChange::CursorRight)
            &&& k == Key::Esc || k == Key::Char('c') ==> after == (a, ViewChange::CursorClear)
        }),
{
}

/// In an empty list there is nowhere to go.
pub proof fn law_empty_lists_stay(
    a: AppView,
    k: Key,
    all: Seq<Seq<char>>,
    listed: Seq<Seq<char>>,
    now: int,
)
    requires
        app_laws::ready(a),
        is_down(k) || k == Key::End,
        a.focus == Focus::Runs ==> listed.len() == 0,
    ensures
        app::after_key(a, press(k), all, listed, 0, now) == (a, ViewChange::Keep),
{
}

// ---------------------------------------------------------------------------
// Keys that act everywhere
// ---------------------------------------------------------------------------
/// Tab goes from the runs to the tags, from there to the chart and on to the
/// runs; Shift-Tab goes the other way.
pub proof fn law_focus_order(
    a: AppView,
    all: Seq<Seq<char>>,
    listed: Seq<Seq<char>>,
    ntags: int,
    now: int,
)
    requires
        app_laws::ready(a),
    ensures
        ({
            let tab = app::after_key(a, press(Key::Tab), all, listed, ntags, now);
            let back = app::after_key(a, press(Key::BackTab), all, listed, ntags, now);
            let next = match a.focus {
                Focus::Runs => Focus::Tags,
                Focus::Tags => Focus::Chart,
                Focus::Chart => Focus::Runs,
            };
            let last = match a.focus {
                Focus::Runs => Focus::Chart,
                Focus::Tags => Focus::Runs,
                Focus::Chart => Focus::Tags,
            };
            &&& tab == (AppView { focus: next, ..a }, ViewChange::Keep)
            &&& back == (AppView { focus: last, ..a }, ViewChange::Keep)
        }),
{
}

/// The keys that switch the sidebar, the grid and the logarithmic axis switch
/// just that, and x goes from steps to relative time, to wall time and back,
/// with the whole range in view again.
pub proof fn law_switches(
    a: AppView,
    all: Seq<Seq<char>>,
    listed: Seq<Seq<char>>,
    ntags: int,
    now: int,
)
    requires
        app_laws::ready(a),
    ensures
        app::after_key(a, press(Key::Char('b')), all, listed, ntags, now) == (
            AppView { sidebar: !a.sidebar, ..a },
            ViewChange::Keep,
        ),
        app::after_key(a, press(Key::Char('g')), all, listed, ntags, now) == (
            AppView { grid: !a.grid, ..a },
            ViewChange::Keep,
        ),
        app::after_key(a, press(Key::Char('L')), all, listed, ntags, now) == (
            AppView { log_y: !a.log_y, ..a },
            ViewChange::Keep,
        ),
        app::after_key(a, press(Key::Char('x')), all, listed, ntags, now) == (
            AppView {
                xmode: match a.xmode {
                    XMode::Step => XMode::RelTime,
                    XMode::RelTime => XMode::Wall,
                    XMode::Wall => XMode::Step,
                },
                ..a
            },
            ViewChange::Reset,
        ),
        app::after_key(a, press(Key::Char('?')), all, listed, ntags, now) == (
            AppView { help_visible: true, ..a },
            ViewChange::Keep,
        ),
{
}

/// q and Q leave, and so does Control with c. No other key does.
pub proof fn law_leaving(
    a: AppView,
    k: KeyPress,
    all: Seq<Seq<char>>,
    listed: Seq<Seq<char>>,
    ntags: int,
    now: int,
)
    requires
        !a.quit,
    ensures
        ({
            let after = app::after_key(a, k, all, listed, ntags, now).0;
            after.quit <==> app_laws::ready(a) && (k.key == Key::Char('q') || k.key == Key::Char(
                'Q',
            ) || (k.key == Key::Char('c') && k.ctrl))
        }),
        app_laws::ready(a) ==> app::after_key(a, press(Key::Char('q')), all, listed, ntags, now)
            == (AppView { quit: true, ..a }, ViewChange::Keep),
        app_laws::ready(a) ==> app::after_key(a, press(Key::Char('Q')), all, listed, ntags, now)
            == (AppView { quit: true, ..a }, ViewChange::Keep),
        app_laws::ready(a) ==> app::after_key(
            a,
            KeyPress { key: Key::Char('c'), ctrl: true },
            all,
            listed,
            ntags,
            now,
        ) == (AppView { quit: true, ..a }, ViewChange::Keep),
{
}

/// The keys that change the smoothing and the visible range do only that,
/// wherever the focus is.
pub proof fn law_view_keys(
    a: AppView,
    k: char,
    all: Seq<Seq<char>>,
    listed: Seq<Seq<char>>,
    ntags: int,
    now: int,
)
    requires
        app_laws::ready(a),
    ensures
        ({
            let after = app::after_key(a, press(Key::Char(k)), all, listed, ntags, now);
            &&& k == 's' ==> after == (a, ViewChange::LessSmoothing)
            &&& k == 'S' ==> after == (a, ViewChange::MoreSmoothing)
            &&& k == '+' || k == '=' ==> after == (a, ViewChange::ZoomIn)
            &&& k == '-' || k == '_' ==> after == (a, ViewChange::ZoomOut)
            &&& k == '[' ==> after == (a, ViewChange::PanLeft)
            &&& k == ']' ==> after == (a, ViewChange::PanRight)
            &&& k == '0' ==> after == (a, ViewChange::Reset)
        }),
{
}

/// f switches live following and says so for two and a half seconds; switched
/// on, it reloads at once. r reloads.
pub proof fn law_following_and_reloading(
    a: AppView,
    all: Seq<Seq<char>>,
    listed: Seq<Seq<char>>,
    ntags: int,
    now: int,
)
    requires
        app_laws::ready(a),
    ensures
        app::after_key(a, press(Key::Char('f')), all, listed, ntags, now) == (
            AppView {
                follow: !a.follow,
                reload_requested: a.reload_requested || !a.follow,
                flash_msg: if a.follow {
                    "follow off"@
                } else {
                    "follow on"@
                },
                flash_until: now + 2500,
                ..a
            },
            ViewChange::Keep,
        ),
        app::after_key(a, press(Key::Char('r')), all, listed, ntags, now) == (
            AppView {
                reload_requested: true,
                flash_msg: "reloading…"@,
                flash_until: now + 2500,
                ..a
            },
            ViewChange::Keep,
        ),
{
}

/// Keys that mean nothing do nothing.
pub proof fn law_other_keys_do_nothing(
    a: AppView,
    all: Seq<Seq<char>>,
    listed: Seq<Seq<char>>,
    ntags: int,
    now: int,
)
    requires
        app_laws::ready(a),
    ensures
        app::after_key(a, press(Key::Other), all, listed, ntags, now) == (a, ViewChange::Keep),
        app::after_key(a, press(Key::Backspace), all, listed, ntags, now) == (a, ViewChange::Keep),
        a.focus != Focus::Chart ==> app::after_key(a, press(Key::Esc), all, listed, ntags, now) == (
            a,
            ViewChange::Keep,
        ),
{
}

/// A line feed, a carriage return, and Control with j or m all are Enter.
pub proof fn law_forms_of_enter(
    a: AppView,
    all: Seq<Seq<char>>,
    listed: Seq<Seq<char>>,
    ntags: int,
    now: int,
)
    ensures
        ({
            let enter = app::after_key(a, press(Key::Enter), all, listed, ntags, now);
            &&& app::after_key(a, press(Key::Char('\n')), all, listed, ntags, now) == enter
            &&& app::after_key(a, press(Key::Char('\r')), all, listed, ntags, now) == enter
            &&& app::after_key(
                a,
                KeyPress { key: Key::Char('j'), ctrl: true },
                all,
                listed,
                ntags,
                now,
            ) == enter
            &&& app::after_key(
                a,
                KeyPress { key: Key::Char('m'), ctrl: true },
                all,
                listed,
                ntags,
                now,
            ) == enter
        }),
{
}

// ---------------------------------------------------------------------------
// Runs
// ---------------------------------------------------------------------------
/// Space hides the selected run if it is shown and shows it if it is hidden. No
/// other run is touched and nothing else changes.
pub proof fn law_space_toggles_the_selected_run(
    a: AppView,
    all: Seq<Seq<char>>,
    listed: Seq<Seq<char>>,
    ntags: int,
    now: int,
    n: Seq<char>,
)
    requires
        app_laws::ready(a),
        a.focus == Focus::Runs,
        0 <= a.run_sel < listed.len(),
    ensures
        ({
            let after = app::after_key(a, press(Key::Char(' ')), all, listed, ntags, now);
            &&& after.0 == (AppView { disabled: after.0.disabled, ..a })
            &&& after.1 == ViewChange::Keep
            &&& n == listed[a.run_sel] ==> after.0.disabled.contains(n) != a.disabled.contains(n)
            &&& n != listed[a.run_sel] ==> after.0.disabled.contains(n) == a.disabled.contains(n)
        }),
{
}

/// Enter shows the selected run and hides every other one, and says so for two
/// and a half seconds.
pub proof fn law_enter_shows_only_the_selected_run(
    a: AppView,
    all: Seq<Seq<char>>,
    listed: Seq<Seq<char>>,
    ntags: int,
    now: int,
    n: Seq<char>,
)
    requires
        app_laws::ready(a),
        a.focus == Focus::Runs,
        0 <= a.run_sel < listed.len(),
    ensures
        ({
            let after = app::after_key(a, press(Key::Enter), all, listed, ntags, now);
            &&& after.0 == (AppView {
                disabled: after.0.disabled,
                flash_msg: "only "@ + listed[a.run_sel],
                flash_until: now + 2500,
                ..a
            })
            &&& after.1 == ViewChange::Keep
            &&& after.0.disabled.contains(n) <==> all.contains(n) && n != listed[a.run_sel]
        }),
{
}

/// a shows every listed run if any of them is hidden, else hides them all, and
/// touches no other run.
pub proof fn law_toggling_all_runs(
    a: AppView,
    all: Seq<Seq<char>>,
    listed: Seq<Seq<char>>,
    ntags: int,
    now: int,
    n: Seq<char>,
)
    requires
        app_laws::ready(a),
    ensures
        ({
            let after = app::after_key(a, press(Key::Char('a')), all, listed, ntags, now);
            let any = exists|m: Seq<char>| #[trigger]
                listed.contains(m) && a.disabled.contains(m);
            let count = crate::text::decimal(listed.len());
            &&& after.0 == (AppView {
                disabled: after.0.disabled,
                flash_msg: if any {
                    "showing "@ + count + " run(s)"@
                } else {
                    "hid "@ + count + " run(s)"@
                },
                flash_until: now + 2500,
                ..a
            })
            &&& after.1 == ViewChange::Keep
            &&& listed.contains(n) ==> after.0.disabled.contains(n) == !any
            &&& !listed.contains(n) ==> after.0.disabled.contains(n) == a.disabled.contains(n)
        }),
{
    if exists|i: int| 0 <= i < listed.len() && a.disabled.contains(#[trigger] listed[i]) {
        let i = choose|i: int| 0 <= i < listed.len() && a.disabled.contains(#[trigger] listed[i]);
        assert(listed.contains(listed[i]));
    }
    if exists|m: Seq<char>| #[trigger] listed.contains(m) && a.disabled.contains(m) {
        let m = choose|m: Seq<char>| #[trigger] listed.contains(m) && a.disabled.contains(m);
        let i = choose|i: int| 0 <= i < listed.len() && listed[i] == m;
        assert(a.disabled.contains(listed[i]));
    }
}

// ---------------------------------------------------------------------------
// Filters
// ---------------------------------------------------------------------------
/// The slash starts a filter on the runs where they have the focus, else on the
/// tags. Its text stays for the time being.
pub proof fn law_slash_starts_a_filter(
    a: AppView,
    all: Seq<Seq<char>>,
    listed: Seq<Seq<char>>,
    ntags: int,
    now: int,
)
    requires
        app_laws::ready(a),
    ensures
        app::after_key(a, press(Key::Char('/')), all, listed, ntags, now) == (
            AppView {
                filter_editing: true,
                filter_target: if a.focus == Focus::Runs {
                    Focus::Runs
                } else {
                    Focus::Tags
                },
                filter_backup: if a.focus == Focus::Runs {
                    a.run_filter_text
                } else {
                    a.filter_text
                },
                focus: if a.focus == Focus::Runs {
                    Focus::Runs
                } else {
                    Focus::Tags
                },
                ..a
            },
            ViewChange::Keep,
        ),
{
}

/// The state with another text of the filter that is being edited.
pub open spec fn with_filter(a: AppView, s: Seq<char>) -> AppView {
    if a.filter_target == Focus::Runs {
        AppView { run_filter_text: s, ..a }
    } else {
        AppView { filter_text: s, ..a }
    }
}

/// The text of the filter that is being edited.
pub open spec fn filter_of(a: AppView) -> Seq<char> {
    if a.filter_target == Focus::Runs {
        a.run_filter_text
    } else {
        a.filter_text
    }
}

/// While a filter is edited, a character is put at its end and the selection
/// goes to the first entry; Backspace takes the last character away; Enter ends
/// the editing and keeps the text; Esc ends it and brings the old text back.
/// Other keys, and characters with Control, do nothing.
pub proof fn law_editing_a_filter(
    a: AppView,
    c: char,
    all: Seq<Seq<char>>,
    listed: Seq<Seq<char>>,
    ntags: int,
    now: int,
)
    requires
        !a.help_visible,
        a.filter_editing,
    ensures
        ({
            let b = if a.filter_target == Focus::Runs {
                AppView { run_sel: 0, ..a }
            } else {
                AppView { tag_sel: 0, ..a }
            };
            let s = filter_of(a);
            &&& c != '\n' && c != '\r' ==> app::after_key(
                a,
                press(Key::Char(c)),
                all,
                listed,
                ntags,
                now,
            ) == (with_filter(b, s.push(c)), ViewChange::Keep)
            &&& s.len() > 0 ==> app::after_key(
                a,
                press(Key::Backspace),
                all,
                listed,
                ntags,
                now,
            ) == (with_filter(a, s.drop_last()), ViewChange::Keep)
            &&& s.len() == 0 ==> app::after_key(
                a,
                press(Key::Backspace),
                all,
                listed,
                ntags,
                now,
            ) == (a, ViewChange::Keep)
            &&& app::after_key(a, press(Key::Enter), all, listed, ntags, now) == (
                AppView { filter_editing: false, ..b },
                ViewChange::Keep,
            )
            &&& app::after_key(a, press(Key::Esc), all, listed, ntags, now) == (
                AppView { filter_editing: false, ..with_filter(a, a.filter_backup) },
                ViewChange::Keep,
            )
            &&& app::after_key(a, press(Key::Tab), all, listed, ntags, now) == (a, ViewChange::Keep)
            &&& app::after_key(a, press(Key::Down), all, listed, ntags, now) == (
                a,
                ViewChange::Keep,
            )
            &&& c != '\n' && c != '\r' && c != 'j' && c != 'm' ==> app::after_key(
                a,
                KeyPress { key: Key::Char(c), ctrl: true },
                all,
                listed,
                ntags,
                now,
            ) == (a, ViewChange::Keep)
        }),
{
}

// ---------------------------------------------------------------------------
// The tag tree
// ---------------------------------------------------------------------------
/// On a group, Enter opens it if it is closed and closes it if it is open, right
/// and l open it, and left and h close it; the choice is kept under the path of
/// the group and nothing else changes. Every other key, and every key on a leaf,
/// acts as it does in a plain list of as many entries as there are rows.
pub proof fn law_keys_on_the_tree(
    a: AppView,
    k: Key,
    all: Seq<Seq<char>>,
    names: Seq<Seq<char>>,
    now: int,
)
    requires
        app_laws::ready(a),
        a.focus == Focus::Tags,
        0 <= a.tag_sel < app::shown_rows(a, names).len(),
    ensures
        ({
            let rows = app::shown_rows(a, names);
            let row = rows[a.tag_sel];
            let after = app::press_outcome(a, press(k), all, names, now);
            let opens = k == Key::Right || k == Key::Char('l');
            let closes = k == Key::Left || k == Key::Char('h');
            &&& !row.leaf && k == Key::Enter ==> after == Some(
                (AppView { opened: a.opened.insert(row.path, !row.expanded), ..a }, ViewChange::Keep),
            )
            &&& !row.leaf && opens ==> after == Some(
                (AppView { opened: a.opened.insert(row.path, true), ..a }, ViewChange::Keep),
            )
            &&& !row.leaf && closes ==> after == Some(
                (AppView { opened: a.opened.insert(row.path, false), ..a }, ViewChange::Keep),
            )
            &&& row.leaf || is_down(k) || is_up(k) || k == Key::Tab || k == Key::Home || k
                == Key::End || k == Key::Char('q') ==> after == Some(
                app::after_key(
                    a,
                    press(k),
                    all,
                    app::listed(all, a.run_filter_text),
                    rows.len() as int,
                    now,
                ),
            )
        }),
{
}

/// Away from the tags, and while help or a filter takes the keys, a key acts as
/// it does without a tree.
pub proof fn law_keys_off_the_tree(
    a: AppView,
    k: KeyPress,
    all: Seq<Seq<char>>,
    names: Seq<Seq<char>>,
    now: int,
)
    requires
        a.help_visible || a.filter_editing || a.focus == Focus::Chart,
    ensures
        app::press_outcome(a, k, all, names, now) == Some(
            app::after_key(
                a,
                k,
                all,
                app::listed(all, a.run_filter_text),
                app::shown_rows(a, names).len() as int,
                now,
            ),
        ),
{
}

/// A key that acts on the selected run does nothing where none is listed in that
/// place, and acts as ever where one is.
pub proof fn law_keys_need_their_run(
    a: AppView,
    k: KeyPress,
    all: Seq<Seq<char>>,
    names: Seq<Seq<char>>,
    now: int,
)
    requires
        app_laws::ready(a),
        a.focus == Focus::Runs,
    ensures
        ({
            let listed = app::listed(all, a.run_filter_text);
            let acts = k == press(Key::Enter) || k == press(Key::Char(' '));
            &&& acts && 0 < listed.len() <= a.run_sel ==> app::press_outcome(
                a,
                k,
                all,
                names,
                now,
            ) is None
            &&& a.run_sel < listed.len() ==> app::press_outcome(a, k, all, names, now) == Some(
                app::after_key(
                    a,
                    k,
                    all,
                    listed,
                    app::shown_rows(a, names).len() as int,
                    now,
                ),
            )
        }),
{
}

/// The tag that is selected among so many rows is that of the selected row, or
/// of the last one where there are fewer.
pub proof fn law_selected_row(a: AppView, rows: Seq<tags::RowView>)
    requires
        rows.len() > 0,
        0 <= a.tag_sel,
    ensures
        ({
            let i = app::within(a.tag_sel, rows.len() as int);
            &&& 0 <= i < rows.len()
            &&& a.tag_sel < rows.len() ==> i == a.tag_sel
            &&& a.tag_sel >= rows.len() ==> i == rows.len() - 1
        }),
{
}

} // verus!
