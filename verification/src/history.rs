//! What holds of a store from its beginning on, pass after pass.
use vstd::prelude::*;

use crate::series;
use crate::series::Held;
use crate::store;
use crate::store::{FileRead, PendingView, RunView, StoreView};
use crate::tailing;
use crate::tfevents;

verus! {

// ---------------------------------------------------------------------------
// Sums
// ---------------------------------------------------------------------------
/// The sum of `f` over the values.
pub open spec fn sum_over<V>(m: Map<Seq<char>, V>, f: spec_fn(V) -> int) -> int
    decreases m.dom().len(),
{
    if !m.dom().finite() || m.dom().len() == 0 {
        0
    } else {
        let k = m.dom().choose();
        f(m[k]) + sum_over(m.remove(k), f)
    }
}

/// One value and the sum of the others.
proof fn lemma_sum_take<V>(m: Map<Seq<char>, V>, f: spec_fn(V) -> int, k: Seq<char>)
    requires
        m.dom().finite(),
        m.contains_key(k),
    ensures
        sum_over(m, f) == f(m[k]) + sum_over(m.remove(k), f),
    decreases m.dom().len(),
{
    let c = m.dom().choose();
    if c != k {
        lemma_sum_take(m.remove(c), f, k);
        lemma_sum_take(m.remove(k), f, c);
        assert(m.remove(c).remove(k) =~= m.remove(k).remove(c));
    }
}

/// One value put in or replaced.
proof fn lemma_sum_insert<V>(m: Map<Seq<char>, V>, f: spec_fn(V) -> int, k: Seq<char>, v: V)
    requires
        m.dom().finite(),
    ensures
        m.insert(k, v).dom().finite(),
        sum_over(m.insert(k, v), f) == sum_over(m, f) + f(v) - if m.contains_key(k) {
            f(m[k])
        } else {
            0
        },
{
    let n = m.insert(k, v);
    assert(n.dom() =~= m.dom().insert(k));
    lemma_sum_take(n, f, k);
    assert(n.remove(k) =~= m.remove(k));
    if m.contains_key(k) {
        lemma_sum_take(m, f, k);
    } else {
        assert(m.remove(k) =~= m);
    }
}

/// Values of the same weight under the same names.
proof fn lemma_sum_same<V>(m: Map<Seq<char>, V>, n: Map<Seq<char>, V>, f: spec_fn(V) -> int)
    requires
        m.dom().finite(),
        m.dom() == n.dom(),
        forall|k: Seq<char>| m.contains_key(k) ==> f(#[trigger] m[k]) == f(n[k]),
    ensures
        sum_over(m, f) == sum_over(n, f),
    decreases m.dom().len(),
{
    if m.dom().len() > 0 {
        let k = m.dom().choose();
        assert(m.contains_key(k));
        let a = m.remove(k);
        let b = n.remove(k);
        assert(a.dom() =~= b.dom());
        assert forall|j: Seq<char>| a.contains_key(j) implies f(#[trigger] a[j]) == f(b[j]) by {
            assert(m.contains_key(j) && a[j] == m[j] && b[j] == n[j]);
        }
        lemma_sum_same(a, b, f);
    }
}

/// How many points a series holds.
pub open spec fn held_len() -> spec_fn(Held) -> int {
    |h: Held| h.points.len() as int
}

/// How many points the series of a run hold.
pub open spec fn run_len() -> spec_fn(RunView) -> int {
    |run: RunView| sum_over(run.series, held_len())
}

/// How many points the series of all runs hold.
pub open spec fn points_held(st: StoreView) -> int {
    sum_over(st.runs, run_len())
}

// ---------------------------------------------------------------------------
// The invariant
// ---------------------------------------------------------------------------
/// No series of the run is thinned.
pub open spec fn run_unthinned(run: RunView) -> bool {
    &&& run.series.dom().finite()
    &&& forall|tag: Seq<char>|
        run.series.contains_key(tag) ==> (#[trigger] run.series[tag]).stride == 1
            && run.series[tag].skip == 0
}

/// No series is thinned, and the points that were counted are those that the
/// series hold.
pub open spec fn tallied(st: StoreView) -> bool {
    &&& st.runs.dom().finite()
    &&& forall|name: Seq<char>|
        st.runs.contains_key(name) ==> run_unthinned(#[trigger] st.runs[name])
    &&& st.total_points == points_held(st)
}

/// Every series is in step order.
pub open spec fn in_order(st: StoreView) -> bool {
    forall|name: Seq<char>, tag: Seq<char>|
        st.runs.contains_key(name) && st.runs[name].series.contains_key(tag)
            ==> series::in_step_order((#[trigger] st.runs[name].series[tag]).points)
}

/// What holds of a store that is only refreshed: each run has a colour slot of
/// its own, every point is kept and counted, and every series is sorted.
pub open spec fn sound(st: StoreView) -> bool {
    store::slots_distinct(st) && tallied(st) && in_order(st)
}

/// A store without runs.
pub open spec fn beginning(logdir: Seq<char>) -> StoreView {
    StoreView {
        logdir,
        runs: Map::empty(),
        next_color_slot: 0,
        version: 0,
        total_points: 0,
        errors: seq![],
    }
}

// ---------------------------------------------------------------------------
// Passes
// ---------------------------------------------------------------------------
/// One look at the log directory: the event files in it, each with its
/// directory and its path, then the files that are followed and what the disk
/// gave for them.
pub struct Pass {
    pub files: Seq<(Seq<char>, Seq<char>)>,
    pub pending: Seq<PendingView>,
    pub reads: Seq<FileRead>,
}

/// The store once the files have been discovered one after the other.
pub open spec fn discovered_all(st: StoreView, files: Seq<(Seq<char>, Seq<char>)>) -> StoreView
    decreases files.len(),
{
    if files.len() == 0 {
        st
    } else {
        let f = files.last();
        store::discovered(discovered_all(st, files.drop_last()), f.0, f.1)
    }
}

/// `after` is the store after a pass: files are discovered, then what is new
/// in them is taken in, and if there are new points every series is sorted.
pub open spec fn passed(st: StoreView, p: Pass, after: StoreView) -> bool {
    let found = discovered_all(st, p.files);
    let all = store::absorbed_all(found, p.pending, p.reads);
    &&& p.pending.len() == p.reads.len()
    &&& forall|i: int| 0 <= i < p.pending.len() ==> store::known(found, #[trigger] p.pending[i])
    &&& if all.total_points > found.total_points {
        store::settled(all, after)
    } else {
        after == all
    }
}

/// The states that a store goes through, from its beginning, in these passes.
pub open spec fn goes_through(states: Seq<StoreView>, passes: Seq<Pass>, logdir: Seq<char>) -> bool {
    &&& states.len() == passes.len() + 1
    &&& states[0] == beginning(logdir)
    &&& forall|i: int|
        0 <= i < passes.len() ==> passed(states[i], #[trigger] passes[i], states[i + 1])
}

// ---------------------------------------------------------------------------
// Points
// ---------------------------------------------------------------------------
proof fn lemma_point_tallied(run: RunView, p: tfevents::PointView)
    requires
        run_unthinned(run),
    ensures
        run_unthinned(store::with_point(run, p)),
        run_len()(store::with_point(run, p)) == run_len()(run) + 1,
{
    let tag = store::tag_text(p.tag);
    let after = store::with_point(run, p);
    lemma_sum_insert(run.series, held_len(), tag, after.series[tag]);
    assert(after.series =~= run.series.insert(tag, after.series[tag]));
}

proof fn lemma_points_tallied(run: RunView, points: Seq<tfevents::PointView>)
    requires
        run_unthinned(run),
    ensures
        run_unthinned(store::with_points(run, points)),
        run_len()(store::with_points(run, points)) == run_len()(run) + points.len(),
    decreases points.len(),
{
    if points.len() > 0 {
        lemma_points_tallied(run, points.drop_last());
        lemma_point_tallied(store::with_points(run, points.drop_last()), points.last());
    }
}

/// A run replaced by one that holds so many more points.
proof fn lemma_run_tallied(st: StoreView, after: StoreView, name: Seq<char>, more: int)
    requires
        tallied(st),
        st.runs.contains_key(name),
        after.runs == st.runs.insert(name, after.runs[name]),
        run_unthinned(after.runs[name]),
        run_len()(after.runs[name]) == run_len()(st.runs[name]) + more,
        after.total_points == st.total_points + more,
    ensures
        tallied(after),
{
    lemma_sum_insert(st.runs, run_len(), name, after.runs[name]);
    assert forall|n: Seq<char>| after.runs.contains_key(n) implies run_unthinned(
        #[trigger] after.runs[n],
    ) by {
        if n != name {
            assert(after.runs[n] == st.runs[n]);
        }
    }
}

proof fn lemma_absorbed_tallied(st: StoreView, p: PendingView, read: FileRead)
    requires
        tallied(st),
        store::known(st, p),
    ensures
        tallied(store::absorbed(st, p, read)),
{
    let after = store::absorbed(st, p, read);
    match read {
        FileRead::Skipped => {},
        FileRead::Failed(reason) => {
            lemma_run_tallied(st, after, p.run, 0);
        },
        FileRead::Data(data) => {
            let c = tfevents::chunk_from(data@, 0);
            lemma_points_tallied(st.runs[p.run], c.points);
            lemma_run_tallied(st, after, p.run, c.points.len() as int);
        },
    }
}

proof fn lemma_absorbed_all_tallied(st: StoreView, pending: Seq<PendingView>, reads: Seq<FileRead>)
    requires
        tallied(st),
        pending.len() == reads.len(),
        forall|i: int| 0 <= i < pending.len() ==> store::known(st, #[trigger] pending[i]),
    ensures
        tallied(store::absorbed_all(st, pending, reads)),
    decreases pending.len(),
{
    if pending.len() > 0 {
        let p = pending.drop_last();
        let r = reads.drop_last();
        assert forall|i: int| 0 <= i < p.len() implies store::known(st, #[trigger] p[i]) by {
            assert(p[i] == pending[i]);
        }
        lemma_absorbed_all_tallied(st, p, r);
        store::lemma_absorbed_all_keeps(st, p, r);
        assert(store::known(st, pending[pending.len() - 1]));
        lemma_absorbed_tallied(store::absorbed_all(st, p, r), pending.last(), reads.last());
    }
}

proof fn lemma_settled_tallied(a: StoreView, b: StoreView)
    requires
        tallied(a),
        store::settled(a, b),
    ensures
        tallied(b),
{
    assert forall|name: Seq<char>| a.runs.contains_key(name) implies run_unthinned(
        #[trigger] b.runs[name],
    ) && run_len()(a.runs[name]) == run_len()(b.runs[name]) by {
        let x = a.runs[name];
        let y = b.runs[name];
        assert(store::run_settled(x, y));
        assert(run_unthinned(x));
        assert forall|tag: Seq<char>| y.series.contains_key(tag) implies (
        #[trigger] y.series[tag]).stride == 1 && y.series[tag].skip == 0 by {
            assert(x.series.contains_key(tag));
            assert(series::put_in_order(x.series[tag], y.series[tag]));
        }
        assert forall|tag: Seq<char>| x.series.contains_key(tag) implies held_len()(
            #[trigger] x.series[tag],
        ) == held_len()(y.series[tag]) by {
            let s = x.series[tag].points;
            let t = y.series[tag].points;
            assert(series::put_in_order(x.series[tag], y.series[tag]));
            let order = choose|order: Seq<int>| #[trigger] series::sorted_along(s, t, order);
            series::law_sort_keeps_every_point(s, t, order);
        }
        lemma_sum_same(x.series, y.series, held_len());
    }
    assert forall|name: Seq<char>| a.runs.contains_key(name) implies run_len()(
        #[trigger] a.runs[name],
    ) == run_len()(b.runs[name]) by {
        assert(run_unthinned(b.runs[name]));
    }
    lemma_sum_same(a.runs, b.runs, run_len());
}

// ---------------------------------------------------------------------------
// Discovery
// ---------------------------------------------------------------------------
pub proof fn lemma_discovered_sound(st: StoreView, dir: Seq<char>, path: Seq<char>)
    requires
        sound(st),
    ensures
        sound(store::discovered(st, dir, path)),
{
    let after = store::discovered(st, dir, path);
    let name = store::run_name(dir);
    tailing::law_new_run_repaints_none(st, dir, path);
    if st.runs.contains_key(name) {
        lemma_run_tallied(st, after, name, 0);
    } else {
        lemma_sum_insert(st.runs, run_len(), name, after.runs[name]);
        assert(after.runs[name].series =~= Map::empty());
        assert(run_len()(after.runs[name]) == 0);
        assert forall|n: Seq<char>| after.runs.contains_key(n) implies run_unthinned(
            #[trigger] after.runs[n],
        ) by {
            if n != name {
                assert(after.runs[n] == st.runs[n]);
            }
        }
    }
    assert forall|n: Seq<char>, tag: Seq<char>|
        after.runs.contains_key(n) && after.runs[n].series.contains_key(
            tag,
        ) implies series::in_step_order((#[trigger] after.runs[n].series[tag]).points) by {
        assert(st.runs.contains_key(n) && st.runs[n].series.contains_key(tag));
        assert(after.runs[n].series[tag] == st.runs[n].series[tag]);
    }
}

/// What discovery leaves as it was, and which slots it hands out.
proof fn lemma_discovered_all(st: StoreView, files: Seq<(Seq<char>, Seq<char>)>)
    requires
        store::slots_distinct(st),
    ensures
        ({
            let found = discovered_all(st, files);
            &&& store::slots_distinct(found)
            &&& sound(st) ==> sound(found)
            &&& found.total_points == st.total_points
            &&& found.version == st.version
            &&& found.errors == st.errors
            &&& forall|name: Seq<char>|
                st.runs.contains_key(name) ==> found.runs.contains_key(name) && (
                #[trigger] found.runs[name]).color_slot == st.runs[name].color_slot
            &&& forall|name: Seq<char>|
                found.runs.contains_key(name) && !st.runs.contains_key(name) ==> (
                #[trigger] found.runs[name]).color_slot >= st.next_color_slot
            &&& found.next_color_slot >= st.next_color_slot
            &&& forall|q: PendingView| #[trigger]
                store::known(st, q) ==> store::known(found, q)
                    && found.runs[q.run].files[q.path] == st.runs[q.run].files[q.path]
        }),
    decreases files.len(),
{
    if files.len() > 0 {
        let f = files.last();
        let before = discovered_all(st, files.drop_last());
        let found = discovered_all(st, files);
        lemma_discovered_all(st, files.drop_last());
        tailing::law_new_run_repaints_none(before, f.0, f.1);
        if sound(st) {
            lemma_discovered_sound(before, f.0, f.1);
        }
        assert forall|name: Seq<char>|
            found.runs.contains_key(name) && !st.runs.contains_key(name) implies (
        #[trigger] found.runs[name]).color_slot >= st.next_color_slot by {
            if before.runs.contains_key(name) {
                assert(found.runs[name].color_slot == before.runs[name].color_slot);
            }
        }
        assert forall|q: PendingView| #[trigger] store::known(st, q) implies store::known(found, q)
            && found.runs[q.run].files[q.path] == st.runs[q.run].files[q.path] by {
            assert(store::known(before, q));
        }
    }
}

// ---------------------------------------------------------------------------
// Taking in
// ---------------------------------------------------------------------------
/// Without new points the series and the version stay; with some the version
/// goes up.
proof fn lemma_absorbed_all_change(st: StoreView, pending: Seq<PendingView>, reads: Seq<FileRead>)
    requires
        pending.len() == reads.len(),
        forall|i: int| 0 <= i < pending.len() ==> store::known(st, #[trigger] pending[i]),
    ensures
        ({
            let all = store::absorbed_all(st, pending, reads);
            &&& all.total_points >= st.total_points
            &&& all.total_points > st.total_points <==> all.version > st.version
            &&& all.total_points == st.total_points ==> all.version == st.version && forall|
                name: Seq<char>,
            |
                st.runs.contains_key(name) ==> (#[trigger] all.runs[name]).series
                    == st.runs[name].series
            &&& forall|q: PendingView| #[trigger]
                store::known(st, q) && st.runs[q.run].files[q.path].dead ==> store::known(all, q)
                    && all.runs[q.run].files[q.path].dead
        }),
    decreases pending.len(),
{
    if pending.len() > 0 {
        let p = pending.drop_last();
        let r = reads.drop_last();
        let x = pending.last();
        assert forall|i: int| 0 <= i < p.len() implies store::known(st, #[trigger] p[i]) by {
            assert(p[i] == pending[i]);
        }
        lemma_absorbed_all_change(st, p, r);
        store::lemma_absorbed_all_keeps(st, p, r);
        let before = store::absorbed_all(st, p, r);
        let all = store::absorbed_all(st, pending, reads);
        assert(store::known(st, pending[pending.len() - 1]));
        assert(store::known(before, x));
        if let FileRead::Data(data) = reads.last() {
            let c = tfevents::chunk_from(data@, 0);
            store::lemma_points_keep(before.runs[x.run], c.points);
        }
        assert forall|q: PendingView| #[trigger]
            store::known(st, q) && st.runs[q.run].files[q.path].dead implies store::known(all, q)
            && all.runs[q.run].files[q.path].dead by {
            assert(store::known(before, q) && before.runs[q.run].files[q.path].dead);
        }
    }
}

// ---------------------------------------------------------------------------
// Laws
// ---------------------------------------------------------------------------
/// A new store is sound.
pub proof fn law_new_store_is_sound(logdir: Seq<char>)
    ensures
        sound(beginning(logdir)),
{
}

/// A store that is sound stays so in every pass: the points that were counted
/// are those that the series hold, every series is in step order, and each run
/// has a colour slot of its own.
pub proof fn law_pass_keeps_the_store_sound(st: StoreView, p: Pass, after: StoreView)
    requires
        sound(st),
        passed(st, p, after),
    ensures
        sound(after),
{
    let found = discovered_all(st, p.files);
    let all = store::absorbed_all(found, p.pending, p.reads);
    lemma_discovered_all(st, p.files);
    law_pass_repaints_none(st, p, after);
    lemma_absorbed_all_tallied(found, p.pending, p.reads);
    lemma_absorbed_all_change(found, p.pending, p.reads);
    store::lemma_absorbed_all_keeps(found, p.pending, p.reads);
    if all.total_points > found.total_points {
        lemma_settled_tallied(all, after);
        tailing::law_refreshed_in_step_order(all, after);
    } else {
        assert forall|n: Seq<char>, tag: Seq<char>|
            after.runs.contains_key(n) && after.runs[n].series.contains_key(
                tag,
            ) implies series::in_step_order((#[trigger] after.runs[n].series[tag]).points) by {
            assert(found.runs.contains_key(n));
            assert(after.runs[n].series == found.runs[n].series);
            assert(found.runs[n].series[tag] == after.runs[n].series[tag]);
        }
    }
}

/// A pass repaints no run: every run that was there is still there with its
/// colour slot, no two runs share one, and those of new runs lie above every
/// slot that was handed out before.
pub proof fn law_pass_repaints_none(st: StoreView, p: Pass, after: StoreView)
    requires
        store::slots_distinct(st),
        passed(st, p, after),
    ensures
        store::slots_distinct(after),
        forall|name: Seq<char>|
            st.runs.contains_key(name) ==> after.runs.contains_key(name) && (
            #[trigger] after.runs[name]).color_slot == st.runs[name].color_slot,
        forall|new: Seq<char>, old_name: Seq<char>|
            after.runs.contains_key(new) && !st.runs.contains_key(new) && st.runs.contains_key(
                old_name,
            ) ==> (#[trigger] after.runs[new]).color_slot > (
            #[trigger] st.runs[old_name]).color_slot,
        forall|new: Seq<char>|
            after.runs.contains_key(new) && !st.runs.contains_key(new) ==> (
            #[trigger] after.runs[new]).color_slot >= st.next_color_slot,
        after.next_color_slot >= st.next_color_slot,
{
    let found = discovered_all(st, p.files);
    let all = store::absorbed_all(found, p.pending, p.reads);
    lemma_discovered_all(st, p.files);
    store::lemma_absorbed_all_keeps(found, p.pending, p.reads);
    assert(after.runs.dom() == found.runs.dom());
    assert forall|name: Seq<char>| found.runs.contains_key(name) implies (
    #[trigger] after.runs[name]).color_slot == found.runs[name].color_slot by {
        assert(all.runs.contains_key(name));
        assert(all.runs[name].color_slot == found.runs[name].color_slot);
        if all.total_points > found.total_points {
            assert(store::run_settled(all.runs[name], after.runs[name]));
        }
    }
    assert forall|a: Seq<char>| after.runs.contains_key(a) implies 0 <= (
    #[trigger] after.runs[a]).color_slot < after.next_color_slot by {
        assert(found.runs.contains_key(a));
        assert(after.runs[a].color_slot == found.runs[a].color_slot);
    }
    assert forall|a: Seq<char>, b: Seq<char>|
        after.runs.contains_key(a) && after.runs.contains_key(b) && a != b implies (
    #[trigger] after.runs[a]).color_slot != (#[trigger] after.runs[b]).color_slot by {
        assert(found.runs.contains_key(a) && found.runs.contains_key(b));
        assert(after.runs[a].color_slot == found.runs[a].color_slot);
        assert(after.runs[b].color_slot == found.runs[b].color_slot);
    }
    assert forall|name: Seq<char>| st.runs.contains_key(name) implies after.runs.contains_key(name)
        && (#[trigger] after.runs[name]).color_slot == st.runs[name].color_slot by {
        assert(found.runs.contains_key(name));
        assert(found.runs[name].color_slot == st.runs[name].color_slot);
    }
    assert forall|new: Seq<char>|
        after.runs.contains_key(new) && !st.runs.contains_key(new) implies (
    #[trigger] after.runs[new]).color_slot >= st.next_color_slot by {
        assert(found.runs.contains_key(new));
        assert(found.runs[new].color_slot >= st.next_color_slot);
    }
}

/// A pass never loses a count: the number of points goes up exactly if the
/// version does, and neither ever goes down.
pub proof fn law_version_tells_of_new_points(st: StoreView, p: Pass, after: StoreView)
    requires
        store::slots_distinct(st),
        passed(st, p, after),
    ensures
        after.total_points >= st.total_points,
        after.version >= st.version,
        after.total_points > st.total_points <==> after.version > st.version,
{
    let found = discovered_all(st, p.files);
    lemma_discovered_all(st, p.files);
    lemma_absorbed_all_change(found, p.pending, p.reads);
    store::lemma_absorbed_all_keeps(found, p.pending, p.reads);
}

/// A file that was given up stays given up: no pass follows it again.
pub proof fn law_given_up_for_good(st: StoreView, p: Pass, after: StoreView, q: PendingView)
    requires
        store::slots_distinct(st),
        passed(st, p, after),
        store::known(st, q),
        st.runs[q.run].files[q.path].dead,
    ensures
        store::known(after, q),
        after.runs[q.run].files[q.path].dead,
        !tailing::followed(after, q),
{
    let found = discovered_all(st, p.files);
    let all = store::absorbed_all(found, p.pending, p.reads);
    lemma_discovered_all(st, p.files);
    lemma_absorbed_all_change(found, p.pending, p.reads);
    assert(store::known(found, q) && found.runs[q.run].files[q.path].dead);
    if all.total_points > found.total_points {
        assert(store::run_settled(all.runs[q.run], after.runs[q.run]));
    }
}

/// A store that came from nothing and was only refreshed is sound at all times.
pub proof fn law_every_state_is_sound(
    states: Seq<StoreView>,
    passes: Seq<Pass>,
    logdir: Seq<char>,
    i: int,
)
    requires
        goes_through(states, passes, logdir),
        0 <= i < states.len(),
    ensures
        sound(states[i]),
    decreases i,
{
    if i == 0 {
        law_new_store_is_sound(logdir);
    } else {
        law_every_state_is_sound(states, passes, logdir, i - 1);
        assert(passed(states[i - 1], passes[i - 1], states[i - 1 + 1]));
        law_pass_keeps_the_store_sound(states[i - 1], passes[i - 1], states[i]);
    }
}

} // verus!
