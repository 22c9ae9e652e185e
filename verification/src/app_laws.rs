//! What holds of the application state as a whole.
use vstd::prelude::*;

use crate::app;
use crate::app::{AppView, Focus, Handout, Key, KeyPress, ViewChange, XMode};

verus! {

// ---------------------------------------------------------------------------
// Defaults of runs
// ---------------------------------------------------------------------------
/// What handing defaults out leaves as it was.
proof fn lemma_handed_keeps(h: Handout, max: int, names: Seq<Seq<char>>)
    ensures
        ({
            let e = app::handed_all(h, max, names);
            &&& forall|n: Seq<char>| #[trigger]
                h.known.contains(n) ==> e.known.contains(n) && (e.disabled.contains(n)
                    <==> h.disabled.contains(n))
            &&& forall|n: Seq<char>| #[trigger]
                e.known.contains(n) <==> h.known.contains(n) || names.contains(n)
            &&& forall|n: Seq<char>| #[trigger]
                e.disabled.contains(n) ==> h.disabled.contains(n) || names.contains(n)
            &&& e.hidden >= h.hidden
        }),
    decreases names.len(),
{
    if names.len() > 0 {
        let fewer = names.drop_last();
        lemma_handed_keeps(h, max, fewer);
        let last = names.last();
        assert(names[names.len() - 1] == last);
        assert forall|n: Seq<char>| names.contains(n) <==> fewer.contains(n) || n == last by {
            if fewer.contains(n) {
                let i = choose|i: int| 0 <= i < fewer.len() && fewer[i] == n;
                assert(names[i] == n);
            }
            if names.contains(n) {
                let i = choose|i: int| 0 <= i < names.len() && names[i] == n;
                if i < fewer.len() {
                    assert(fewer[i] == n);
                }
            }
        }
    }
}

/// Where every run is known, there is nothing to hand out.
proof fn lemma_nothing_to_hand_out(h: Handout, max: int, names: Seq<Seq<char>>)
    requires
        forall|i: int| 0 <= i < names.len() ==> h.known.contains(#[trigger] names[i]),
    ensures
        app::handed_all(h, max, names) == h,
    decreases names.len(),
{
    if names.len() > 0 {
        let fewer = names.drop_last();
        assert forall|i: int| 0 <= i < fewer.len() implies h.known.contains(
            #[trigger] fewer[i],
        ) by {
            assert(fewer[i] == names[i]);
        }
        lemma_nothing_to_hand_out(h, max, fewer);
        assert(h.known.contains(names[names.len() - 1]));
    }
}

/// The default never overrides a choice: a run that is known keeps its state,
/// whatever other runs appear.
pub proof fn law_sync_overrides_no_choice(a: AppView, names: Seq<Seq<char>>, n: Seq<char>)
    requires
        a.known_runs.contains(n),
    ensures
        app::synced(a, names).disabled.contains(n) <==> a.disabled.contains(n),
        app::synced(a, names).known_runs.contains(n),
{
    lemma_handed_keeps(
        Handout {
            known: a.known_runs,
            disabled: a.disabled,
            enabled: app::enabled_count(names, a.known_runs, a.disabled),
            hidden: 0,
        },
        a.max_runs,
        names,
    );
}

/// Runs that were found once are not found again: doing it twice is doing it
/// once.
pub proof fn law_sync_is_idempotent(a: AppView, names: Seq<Seq<char>>)
    ensures
        app::synced(app::synced(a, names), names) == app::synced(a, names),
{
    if a.max_runs != 0 {
        let b = app::synced(a, names);
        let h = Handout {
            known: a.known_runs,
            disabled: a.disabled,
            enabled: app::enabled_count(names, a.known_runs, a.disabled),
            hidden: 0,
        };
        lemma_handed_keeps(h, a.max_runs, names);
        assert forall|i: int| 0 <= i < names.len() implies b.known_runs.contains(
            #[trigger] names[i],
        ) by {
            assert(names.contains(names[i]));
        }
        lemma_nothing_to_hand_out(
            Handout {
                known: b.known_runs,
                disabled: b.disabled,
                enabled: app::enabled_count(names, b.known_runs, b.disabled),
                hidden: 0,
            },
            b.max_runs,
            names,
        );
    }
}

proof fn lemma_first_handout(max: int, names: Seq<Seq<char>>)
    requires
        0 < max,
        names.no_duplicates(),
    ensures
        ({
            let e = app::handed_all(
                Handout { known: Set::empty(), disabled: Set::empty(), enabled: 0, hidden: 0 },
                max,
                names,
            );
            &&& forall|i: int|
                0 <= i < names.len() ==> (e.disabled.contains(#[trigger] names[i]) <==> i >= max)
            &&& e.enabled == if names.len() < max {
                names.len() as int
            } else {
                max
            }
            &&& e.hidden == names.len() - e.enabled
        }),
    decreases names.len(),
{
    if names.len() > 0 {
        let fewer = names.drop_last();
        let start = Handout { known: Set::empty(), disabled: Set::empty(), enabled: 0, hidden: 0 };
        assert(fewer.no_duplicates()) by {
            assert forall|i: int, j: int|
                0 <= i < fewer.len() && 0 <= j < fewer.len() && i != j implies fewer[i]
                != fewer[j] by {
                assert(names[i] != names[j]);
            }
        }
        lemma_first_handout(max, fewer);
        lemma_handed_keeps(start, max, fewer);
        let e = app::handed_all(start, max, fewer);
        let last = names.last();
        assert(!fewer.contains(last)) by {
            if fewer.contains(last) {
                let i = choose|i: int| 0 <= i < fewer.len() && fewer[i] == last;
                assert(names[i] == names[names.len() - 1]);
            }
        }
        assert(!e.known.contains(last));
        assert forall|i: int| 0 <= i < names.len() implies (app::handed_all(
            start,
            max,
            names,
        ).disabled.contains(#[trigger] names[i]) <==> i >= max) by {
            if i < fewer.len() {
                assert(fewer[i] == names[i]);
                assert(names[i] != last);
            } else {
                assert(!e.disabled.contains(last));
            }
        }
    }
}

proof fn lemma_none_enabled(names: Seq<Seq<char>>, disabled: Set<Seq<char>>)
    ensures
        app::enabled_count(names, Set::empty(), disabled) == 0,
    decreases names.len(),
{
    if names.len() > 0 {
        lemma_none_enabled(names.drop_last(), disabled);
    }
}

/// Of the runs that are found at first, exactly the first `max_runs` are
/// shown, and if any is hidden a notice says how many there are.
pub proof fn law_first_runs_start_enabled(a: AppView, names: Seq<Seq<char>>)
    requires
        a.known_runs == Set::<Seq<char>>::empty(),
        a.disabled == Set::<Seq<char>>::empty(),
        a.capped_notice is None,
        0 < a.max_runs,
        names.no_duplicates(),
        names.len() <= usize::MAX,
    ensures
        forall|i: int|
            0 <= i < names.len() ==> (app::synced(a, names).disabled.contains(#[trigger] names[i])
                <==> i >= a.max_runs),
        app::synced(a, names).capped_notice == if names.len() > a.max_runs {
            Some(names.len() as usize)
        } else {
            None
        },
{
    lemma_none_enabled(names, a.disabled);
    lemma_first_handout(a.max_runs, names);
}

/// How far the defaults have been handed out when it is the turn of the run in
/// that place.
pub open spec fn before_turn(a: AppView, names: Seq<Seq<char>>, i: int) -> Handout {
    app::handed_all(
        Handout {
            known: a.known_runs,
            disabled: a.disabled,
            enabled: app::enabled_count(names, a.known_runs, a.disabled),
            hidden: 0,
        },
        a.max_runs,
        names.take(i),
    )
}

proof fn lemma_handed_on(h: Handout, max: int, a: Seq<Seq<char>>, b: Seq<Seq<char>>)
    ensures
        app::handed_all(h, max, a + b) == app::handed_all(app::handed_all(h, max, a), max, b),
    decreases b.len(),
{
    if b.len() == 0 {
        assert(a + b =~= a);
    } else {
        assert((a + b).drop_last() =~= a + b.drop_last());
        lemma_handed_on(h, max, a, b.drop_last());
    }
}

/// No new run is overlooked: with a cap, every run of the list is known
/// afterwards, and one that was not known before starts hidden exactly if as
/// many runs as the cap allows are shown when its turn comes.
pub proof fn law_new_runs_get_their_default(a: AppView, names: Seq<Seq<char>>, i: int)
    requires
        0 < a.max_runs,
        0 <= i < names.len(),
    ensures
        app::synced(a, names).known_runs.contains(names[i]),
        !a.known_runs.contains(names[i]) && !a.disabled.contains(names[i]) && !names.take(
            i,
        ).contains(names[i]) ==> (app::synced(a, names).disabled.contains(names[i])
            <==> before_turn(a, names, i).enabled >= a.max_runs),
{
    let h = Handout {
        known: a.known_runs,
        disabled: a.disabled,
        enabled: app::enabled_count(names, a.known_runs, a.disabled),
        hidden: 0,
    };
    let n = names[i];
    let first = names.take(i);
    let upto = names.take(i + 1);
    let rest = names.skip(i + 1);
    assert(upto + rest =~= names);
    assert(upto.drop_last() =~= first);
    lemma_handed_on(h, a.max_runs, upto, rest);
    lemma_handed_keeps(h, a.max_runs, first);
    lemma_handed_keeps(h, a.max_runs, upto);
    let e = app::handed_all(h, a.max_runs, upto);
    assert(upto[i] == n);
    assert(e.known.contains(n));
    lemma_handed_keeps(e, a.max_runs, rest);
}

/// Without a cap every run is shown.
pub proof fn law_no_cap_hides_nothing(a: AppView, names: Seq<Seq<char>>)
    requires
        a.max_runs == 0,
    ensures
        app::synced(a, names) == a,
{
}

// ---------------------------------------------------------------------------
// Keys
// ---------------------------------------------------------------------------
/// The state takes keys as such: neither help nor a filter is in the way.
pub open spec fn ready(a: AppView) -> bool {
    !a.help_visible && !a.filter_editing
}

/// Shift-Tab undoes Tab, and Tab undoes Shift-Tab.
pub proof fn law_tab_and_back(
    a: AppView,
    all: Seq<Seq<char>>,
    listed: Seq<Seq<char>>,
    ntags: int,
    now: int,
)
    requires
        ready(a),
    ensures
        ({
            let tab = KeyPress { key: Key::Tab, ctrl: false };
            let back = KeyPress { key: Key::BackTab, ctrl: false };
            let there = app::after_key(a, tab, all, listed, ntags, now).0;
            let other = app::after_key(a, back, all, listed, ntags, now).0;
            &&& app::after_key(there, back, all, listed, ntags, now).0 == a
            &&& app::after_key(other, tab, all, listed, ntags, now).0 == a
        }),
{
}

/// Three Tabs come back to where they started.
pub proof fn law_tab_cycles(f: Focus)
    ensures
        app::focus_after(app::focus_after(app::focus_after(f))) == f,
        app::focus_after(f) != f,
        app::focus_after(app::focus_after(f)) != f,
{
}

/// The axis modes come round after three.
pub proof fn law_axis_cycles(x: XMode)
    ensures
        x.after().after().after() == x,
        x.after() != x,
        x.after().after() != x,
{
}

/// Any key closes the help and does nothing else.
pub proof fn law_help_swallows_one_key(
    a: AppView,
    k: KeyPress,
    all: Seq<Seq<char>>,
    listed: Seq<Seq<char>>,
    ntags: int,
    now: int,
)
    requires
        ready(a),
    ensures
        ({
            let ask = KeyPress { key: Key::Char('?'), ctrl: false };
            let shown = app::after_key(a, ask, all, listed, ntags, now).0;
            app::after_key(shown, k, all, listed, ntags, now) == (a, ViewChange::Keep)
        }),
{
}

/// Editing a filter and cancelling it leaves both filters as they were,
/// whatever was typed or erased in between.
pub proof fn law_escape_restores_the_filter(a: AppView, typed: Seq<KeyPress>)
    requires
        ready(a),
        forall|i: int|
            0 <= i < typed.len() ==> (#[trigger] typed[i]).key != Key::Enter && typed[i].key
                != Key::Esc,
    ensures
        ({
            let edited = keys_typed(app::filter_started(a), typed);
            let b = app::filter_key(edited, KeyPress { key: Key::Esc, ctrl: false });
            &&& b.filter_text == a.filter_text
            &&& b.run_filter_text == a.run_filter_text
            &&& !b.filter_editing
            &&& b.disabled == a.disabled
        }),
{
    lemma_typing_keeps(app::filter_started(a), typed);
}

/// The state after keys typed into a filter.
pub open spec fn keys_typed(a: AppView, typed: Seq<KeyPress>) -> AppView
    decreases typed.len(),
{
    if typed.len() == 0 {
        a
    } else {
        app::filter_key(keys_typed(a, typed.drop_last()), typed.last())
    }
}

proof fn lemma_typing_keeps(a: AppView, typed: Seq<KeyPress>)
    requires
        a.filter_editing,
        forall|i: int|
            0 <= i < typed.len() ==> (#[trigger] typed[i]).key != Key::Enter && typed[i].key
                != Key::Esc,
    ensures
        ({
            let b = keys_typed(a, typed);
            &&& b.filter_editing
            &&& b.filter_target == a.filter_target
            &&& b.filter_backup == a.filter_backup
            &&& b.disabled == a.disabled
            &&& a.filter_target == Focus::Runs ==> b.filter_text == a.filter_text
            &&& a.filter_target != Focus::Runs ==> b.run_filter_text == a.run_filter_text
        }),
    decreases typed.len(),
{
    if typed.len() > 0 {
        let fewer = typed.drop_last();
        assert forall|i: int| 0 <= i < fewer.len() implies (#[trigger] fewer[i]).key != Key::Enter
            && fewer[i].key != Key::Esc by {
            assert(fewer[i] == typed[i]);
        }
        lemma_typing_keeps(a, fewer);
        assert(typed.last() == typed[typed.len() - 1]);
    }
}

/// Showing or hiding all is scoped to the runs that the filter lists: no
/// other run is touched.
pub proof fn law_toggle_all_is_scoped(a: AppView, listed: Seq<Seq<char>>, now: int, n: Seq<char>)
    ensures
        !listed.contains(n) ==> (app::all_toggled(a, listed, now).disabled.contains(n)
            <==> a.disabled.contains(n)),
        listed.contains(n) ==> (app::all_toggled(a, listed, now).disabled.contains(n) <==> !(exists|
            i: int,
        | 0 <= i < listed.len() && a.disabled.contains(#[trigger] listed[i]))),
{
}

/// Showing only one run hides every other one.
pub proof fn law_solo_shows_one_run(
    a: AppView,
    all: Seq<Seq<char>>,
    name: Seq<char>,
    now: int,
    n: Seq<char>,
)
    requires
        all.contains(n),
    ensures
        app::soloed(a, all, name, now).disabled.contains(n) <==> n != name,
{
}

/// Toggling a run twice leaves it as it was.
pub proof fn law_toggle_twice(s: Set<Seq<char>>, n: Seq<char>)
    ensures
        app::toggled(app::toggled(s, n), n) == s,
{
    assert(app::toggled(app::toggled(s, n), n) =~= s);
}

/// A selection that moves stays in its list.
pub proof fn law_selection_stays_in_the_list(sel: int, len: int)
    requires
        0 <= sel < len,
    ensures
        0 <= app::down(sel, len) < len,
        0 <= app::up(sel) < len,
        app::up(app::down(sel, len)) == if sel + 1 < len {
            sel
        } else {
            app::up(sel)
        },
{
}

/// A filter lists a run exactly if its name holds the text of the filter, upper
/// and lower case alike; an empty filter lists every run.
pub proof fn law_filter_lists_matches(names: Seq<Seq<char>>, filter: Seq<char>, n: Seq<char>)
    ensures
        filter.len() == 0 ==> app::listed(names, filter) == names,
        filter.len() > 0 ==> (app::listed(names, filter).contains(n) <==> names.contains(n)
            && crate::text::has_part(crate::text::lowercase(n), crate::text::lowercase(filter))),
{
    if filter.len() > 0 {
        lemma_passing(names, app::lowered(names), crate::text::lowercase(filter), n);
    }
}

proof fn lemma_passing(
    names: Seq<Seq<char>>,
    low: Seq<Seq<char>>,
    needle: Seq<char>,
    n: Seq<char>,
)
    requires
        names.len() <= low.len(),
        forall|i: int|
            0 <= i < names.len() ==> #[trigger] low[i] == crate::text::lowercase(names[i]),
    ensures
        app::passing(names, low, needle).contains(n) <==> names.contains(n)
            && crate::text::has_part(crate::text::lowercase(n), needle),
    decreases names.len(),
{
    if names.len() > 0 {
        let fewer = names.drop_last();
        let last = names.len() - 1;
        lemma_passing(fewer, low, needle, n);
        let rest = app::passing(fewer, low, needle);
        let all = app::passing(names, low, needle);
        assert(low[last] == crate::text::lowercase(names[last]));
        if all.contains(n) {
            let i = choose|i: int| 0 <= i < all.len() && all[i] == n;
            if i < rest.len() {
                assert(rest[i] == n);
                let j = choose|j: int| 0 <= j < fewer.len() && fewer[j] == n;
                assert(names[j] == n);
            } else {
                assert(names[last] == n);
            }
        }
        if names.contains(n) && crate::text::has_part(crate::text::lowercase(n), needle) {
            let j = choose|j: int| 0 <= j < names.len() && names[j] == n;
            if j < last {
                assert(fewer[j] == n);
                let i = choose|i: int| 0 <= i < rest.len() && rest[i] == n;
                assert(all[i] == n);
            } else {
                assert(all[all.len() - 1] == n);
            }
        }
    }
}

/// A group that is opened shows as open, and one that is closed as closed.
pub proof fn law_tree_key_is_remembered(
    a: AppView,
    k: KeyPress,
    rows: Seq<crate::tags::RowView>,
)
    requires
        0 <= a.tag_sel,
        app::tree_key(a, k, rows) is Some,
    ensures
        ({
            let row = rows[a.tag_sel];
            let b = app::tree_key(a, k, rows)->0;
            let key = app::normalized(k).key;
            crate::tags::open_at(b.opened, row.path, row.depth) == if key == Key::Enter {
                !row.expanded
            } else {
                key == Key::Right || key == Key::Char('l')
            }
        }),
{
}

} // verus!
