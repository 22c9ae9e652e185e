//! What holds of a store while it follows its files.
use vstd::prelude::*;

use crate::bits;
use crate::names;
use crate::names::NameMap;
use crate::roundtrip;
use crate::series;
use crate::store;
use crate::store::{EventFile, FileRead, PendingView, Run, RunView, StoreView};
use crate::tfevents;

verus! {

// ---------------------------------------------------------------------------
// Colours
// ---------------------------------------------------------------------------
/// A run that appears later repaints none of the others: they keep their
/// colour slots, and a new one is taken by no other run.
pub proof fn law_new_run_repaints_none(st: StoreView, dir: Seq<char>, path: Seq<char>)
    requires
        store::slots_distinct(st),
    ensures
        ({
            let after = store::discovered(st, dir, path);
            &&& forall|name: Seq<char>|
                st.runs.contains_key(name) ==> after.runs.contains_key(name) && (
                #[trigger] after.runs[name]).color_slot == st.runs[name].color_slot
            &&& store::slots_distinct(after)
            &&& after.next_color_slot >= st.next_color_slot
        }),
{
    let after = store::discovered(st, dir, path);
    assert forall|name: Seq<char>| st.runs.contains_key(name) implies (
    #[trigger] after.runs[name]).color_slot == st.runs[name].color_slot by {}
}

/// Taking in data repaints no run.
pub proof fn law_refresh_repaints_none(
    st: StoreView,
    pending: Seq<PendingView>,
    reads: Seq<FileRead>,
    after: StoreView,
)
    requires
        pending.len() == reads.len(),
        forall|i: int| 0 <= i < pending.len() ==> store::known(st, #[trigger] pending[i]),
        store::settled(store::absorbed_all(st, pending, reads), after),
    ensures
        after.runs.dom() == st.runs.dom(),
        forall|name: Seq<char>|
            st.runs.contains_key(name) ==> (#[trigger] after.runs[name]).color_slot
                == st.runs[name].color_slot,
{
    store::lemma_absorbed_all_keeps(st, pending, reads);
    let all = store::absorbed_all(st, pending, reads);
    assert forall|name: Seq<char>| st.runs.contains_key(name) implies (
    #[trigger] after.runs[name]).color_slot == st.runs[name].color_slot by {
        assert(all.runs.contains_key(name));
        assert(store::run_settled(all.runs[name], after.runs[name]));
        assert(all.runs[name].color_slot == st.runs[name].color_slot);
    }
}

// ---------------------------------------------------------------------------
// Discovery
// ---------------------------------------------------------------------------
/// Finding a file again changes nothing: it is read on from where it was.
pub proof fn law_discovery_is_idempotent(st: StoreView, dir: Seq<char>, path: Seq<char>)
    ensures
        ({
            let once = store::discovered(st, dir, path);
            store::discovered(once, dir, path) == once
        }),
{
    let once = store::discovered(st, dir, path);
    assert(store::discovered(once, dir, path).runs =~= once.runs);
}

// ---------------------------------------------------------------------------
// Tailing
// ---------------------------------------------------------------------------
/// Points are added one after the other, however they are grouped.
pub proof fn law_points_in_groups(
    run: RunView,
    a: Seq<tfevents::PointView>,
    b: Seq<tfevents::PointView>,
)
    ensures
        store::with_points(run, a + b) == store::with_points(store::with_points(run, a), b),
    decreases b.len(),
{
    if b.len() == 0 {
        assert(a + b =~= a);
    } else {
        assert((a + b).drop_last() =~= a + b.drop_last());
        law_points_in_groups(run, a, b.drop_last());
    }
}

/// A file that is read in two instalments, the second from where the first
/// stopped, leaves the store as one that is read at once.
pub proof fn law_tailing(st: StoreView, p: PendingView, a: Seq<u8>, b: Seq<u8>)
    requires
        store::known(st, p),
        !tfevents::chunk_from(a, 0).corrupt,
        !st.runs[p.run].files[p.path].dead,
        0 <= p.offset,
        p.offset + a.len() + b.len() <= u64::MAX,
    ensures
        ({
            let first = tfevents::chunk_from(a, 0);
            let then = PendingView { offset: p.offset + first.consumed, ..p };
            let mid = store::taken_in(st, p, first);
            let end = store::taken_in(
                mid,
                then,
                tfevents::chunk_from((a + b).skip(first.consumed), 0),
            );
            let whole = store::taken_in(st, p, tfevents::chunk_from(a + b, 0));
            &&& mid.runs[p.run].files[p.path].offset == then.offset
            &&& store::known(mid, then)
            &&& end.runs == whole.runs
            &&& end.errors == whole.errors
            &&& end.total_points == whole.total_points
        }),
{
    let first = tfevents::chunk_from(a, 0);
    let again = tfevents::chunk_from((a + b).skip(first.consumed), 0);
    let whole = tfevents::chunk_from(a + b, 0);
    roundtrip::law_consumed_in_bounds(a, 0);
    roundtrip::law_resume(a, b);
    let then = PendingView { offset: p.offset + first.consumed, ..p };
    let run = st.runs[p.run];
    let mid = store::taken_in(st, p, first);
    store::lemma_points_keep(run, first.points);
    store::lemma_points_keep(run, whole.points);
    law_points_in_groups(run, first.points, again.points);
    let file = EventFile { offset: (p.offset + first.consumed) as u64, dead: false };
    store::lemma_files_apart(
        store::with_points(run, first.points),
        run.files.insert(p.path, file),
        again.points,
    );
    let end = store::taken_in(mid, then, again);
    let want = store::taken_in(st, p, whole);
    assert(end.runs[p.run].files =~= want.runs[p.run].files);
    assert(end.runs[p.run] == want.runs[p.run]);
    assert(end.runs =~= want.runs);
}

/// Where the disk has nothing new, a refresh changes nothing.
pub proof fn law_nothing_new(st: StoreView, pending: Seq<PendingView>, reads: Seq<FileRead>)
    requires
        pending.len() == reads.len(),
        forall|i: int| 0 <= i < reads.len() ==> #[trigger] reads[i] is Skipped,
    ensures
        store::absorbed_all(st, pending, reads) == st,
    decreases pending.len(),
{
    if pending.len() > 0 {
        assert(reads.last() == reads[reads.len() - 1]);
        assert forall|i: int| 0 <= i < reads.drop_last().len() implies
            #[trigger] reads.drop_last()[i] is Skipped by {
            assert(reads.drop_last()[i] == reads[i]);
        }
        law_nothing_new(st, pending.drop_last(), reads.drop_last());
    }
}

/// After a refresh that changed something, every series is in step order.
pub proof fn law_refreshed_in_step_order(before: StoreView, after: StoreView)
    requires
        store::settled(before, after),
    ensures
        forall|name: Seq<char>, tag: Seq<char>|
            after.runs.contains_key(name) && after.runs[name].series.contains_key(tag)
                ==> series::in_step_order((#[trigger] after.runs[name].series[tag]).points),
{
    assert forall|name: Seq<char>, tag: Seq<char>|
        after.runs.contains_key(name) && after.runs[name].series.contains_key(
            tag,
        ) implies series::in_step_order((#[trigger] after.runs[name].series[tag]).points) by {
        assert(store::run_settled(before.runs[name], after.runs[name]));
        assert(before.runs[name].series.contains_key(tag));
        series::law_sorted_stays_sorted(
            before.runs[name].series[tag].points,
            after.runs[name].series[tag].points,
        );
    }
}

// ---------------------------------------------------------------------------
// Files that are followed
// ---------------------------------------------------------------------------
/// This file is known, has not been given up, and has been read up to there.
pub open spec fn followed(st: StoreView, q: PendingView) -> bool {
    &&& store::known(st, q)
    &&& !st.runs[q.run].files[q.path].dead
    &&& st.runs[q.run].files[q.path].offset == q.offset
}

proof fn lemma_run_pending(name: Seq<char>, files: NameMap<EventFile>, n: nat, q: PendingView)
    requires
        files.wf(),
        n <= files.names@.len(),
    ensures
        store::run_pending(name, files, n).contains(q) <==> q.run == name && exists|k: int|
            0 <= k < n && (#[trigger] files.names@[k])@ == q.path && !files.vals@[k].dead
                && files.vals@[k].offset == q.offset,
    decreases n,
{
    if n > 0 {
        let k = n - 1;
        let rest = store::run_pending(name, files, k as nat);
        lemma_run_pending(name, files, k as nat, q);
        if !files.vals@[k].dead {
            let x = PendingView {
                run: name,
                path: files.names@[k]@,
                offset: files.vals@[k].offset as int,
            };
            let all = rest.push(x);
            assert(all[all.len() - 1] == x);
            if rest.contains(q) {
                let i = choose|i: int| 0 <= i < rest.len() && rest[i] == q;
                assert(all[i] == q);
            }
            if all.contains(q) {
                let i = choose|i: int| 0 <= i < all.len() && all[i] == q;
                if i < rest.len() {
                    assert(rest[i] == q);
                } else {
                    assert(files.names@[k]@ == q.path);
                }
            }
        }
    }
}

proof fn lemma_all_pending(runs: NameMap<Run>, n: nat, q: PendingView)
    requires
        store::runs_wf(runs),
        n <= runs.names@.len(),
    ensures
        store::all_pending(runs, n).contains(q) <==> exists|i: int|
            0 <= i < n && (#[trigger] runs.names@[i])@ == q.run && runs.vals@[i].files.map().contains_key(
                q.path,
            ) && !runs.vals@[i].files.map()[q.path].dead
                && runs.vals@[i].files.map()[q.path].offset == q.offset,
    decreases n,
{
    if n > 0 {
        let i = n - 1;
        let run = runs.vals@[i];
        let a = store::all_pending(runs, i as nat);
        let b = store::run_pending(runs.names@[i]@, run.files, run.files.names@.len());
        lemma_all_pending(runs, i as nat, q);
        lemma_run_pending(runs.names@[i]@, run.files, run.files.names@.len(), q);
        let all = a + b;
        if a.contains(q) {
            let k = choose|k: int| 0 <= k < a.len() && a[k] == q;
            assert(all[k] == q);
        }
        if b.contains(q) {
            let k = choose|k: int| 0 <= k < b.len() && b[k] == q;
            assert(all[a.len() + k] == q);
            let j = choose|k: int|
                0 <= k < run.files.names@.len() && (#[trigger] run.files.names@[k])@ == q.path
                    && !run.files.vals@[k].dead && run.files.vals@[k].offset == q.offset;
            run.files.lemma_position(j);
            assert(runs.names@[i]@ == q.run);
        }
        if all.contains(q) {
            let k = choose|k: int| 0 <= k < all.len() && all[k] == q;
            if k < a.len() {
                assert(a[k] == q);
            } else {
                assert(b[k - a.len()] == q);
            }
        }
        if runs.names@[i]@ == q.run && run.files.map().contains_key(q.path) {
            let j = names::lemma_key_position(run.files, q.path);
        }
    }
}

/// The pending files are exactly the files that are followed: a file that was
/// given up is never read again, and no other is forgotten.
pub proof fn law_pending_are_followed(s: store::Store, q: PendingView)
    requires
        s.wf(),
    ensures
        store::all_pending(s.runs, s.runs.names@.len()).contains(q) <==> followed(s@, q),
{
    lemma_all_pending(s.runs, s.runs.names@.len(), q);
    if store::all_pending(s.runs, s.runs.names@.len()).contains(q) {
        let i = choose|i: int|
            0 <= i < s.runs.names@.len() && (#[trigger] s.runs.names@[i])@ == q.run
                && s.runs.vals@[i].files.map().contains_key(q.path)
                && !s.runs.vals@[i].files.map()[q.path].dead
                && s.runs.vals@[i].files.map()[q.path].offset == q.offset;
        s.runs.lemma_position(i);
    }
    if followed(s@, q) {
        let i = names::lemma_key_position(s.runs, q.run);
        assert(s.runs.names@[i]@ == q.run);
    }
}

/// A file with a record that cannot be read is given up, and everything that
/// stands before that record is kept.
pub proof fn law_corrupt_file_is_given_up(st: StoreView, p: PendingView, data: Seq<u8>)
    requires
        store::known(st, p),
        tfevents::chunk_from(data, 0).corrupt,
    ensures
        ({
            let c = tfevents::chunk_from(data, 0);
            let after = store::taken_in(st, p, c);
            &&& forall|q: PendingView| q.run == p.run && q.path == p.path ==> !followed(after, q)
            &&& after.runs[p.run].series == store::with_points(st.runs[p.run], c.points).series
            &&& after.errors == st.errors.push(p.path + ": corrupt record"@)
        }),
{
}

// ---------------------------------------------------------------------------
// Points and tags
// ---------------------------------------------------------------------------
/// Those of the points that have the tag, in their order.
pub open spec fn samples_of(points: Seq<tfevents::PointView>, tag: Seq<char>) -> Seq<series::Sample>
    decreases points.len(),
{
    if points.len() == 0 {
        seq![]
    } else {
        let rest = samples_of(points.drop_last(), tag);
        let p = points.last();
        if store::tag_text(p.tag) == tag {
            rest.push(series::Sample { step: p.step, wall: p.wall, val: p.value })
        } else {
            rest
        }
    }
}

/// What the run holds of the tag.
pub open spec fn held_of(run: RunView, tag: Seq<char>) -> series::Held {
    if run.series.contains_key(tag) {
        run.series[tag]
    } else {
        series::nothing()
    }
}

/// A series that is not thinned takes in all points of its tag and no others,
/// in the order in which they are read; a tag without points stays unknown.
pub proof fn law_series_hold_their_points(
    run: RunView,
    points: Seq<tfevents::PointView>,
    tag: Seq<char>,
)
    requires
        held_of(run, tag).stride == 1,
        held_of(run, tag).skip == 0,
    ensures
        ({
            let after = store::with_points(run, points);
            let new = samples_of(points, tag);
            &&& held_of(after, tag) == (series::Held {
                points: held_of(run, tag).points + new,
                stride: 1,
                skip: 0,
            })
            &&& after.series.contains_key(tag) <==> run.series.contains_key(tag) || new.len() > 0
        }),
    decreases points.len(),
{
    let was = held_of(run, tag).points;
    if points.len() == 0 {
        assert(was + Seq::<series::Sample>::empty() =~= was);
    } else {
        let fewer = points.drop_last();
        law_series_hold_their_points(run, fewer, tag);
        let p = points.last();
        let x = series::Sample { step: p.step, wall: p.wall, val: p.value };
        assert((was + samples_of(fewer, tag)).push(x) =~= was + samples_of(fewer, tag).push(x));
    }
}


/// The first wall time of a run is the earliest of those of its points, but
/// for zeros, which stand for a time that was not given. A time that is no
/// number is neither earlier nor later than another.
pub proof fn law_first_wall_is_earliest(run: RunView, points: Seq<tfevents::PointView>)
    requires
        run.first_wall is None,
    ensures
        match store::with_points(run, points).first_wall {
            None => forall|i: int|
                0 <= i < points.len() ==> bits::is_zero_bits((#[trigger] points[i]).wall),
            Some(w) => {
                &&& !bits::is_zero_bits(w)
                &&& exists|i: int| 0 <= i < points.len() && (#[trigger] points[i]).wall == w
                &&& forall|i: int|
                    0 <= i < points.len() && !bits::is_zero_bits((#[trigger] points[i]).wall)
                        ==> !bits::below(points[i].wall, w)
            },
        },
    decreases points.len(),
{
    if points.len() > 0 {
        let fewer = points.drop_last();
        let last = points.len() - 1;
        law_first_wall_is_earliest(run, fewer);
        let before = store::with_points(run, fewer).first_wall;
        let after = store::with_points(run, points).first_wall;
        assert(points.last() == points[last]);
        assert forall|i: int| 0 <= i < fewer.len() implies fewer[i] == #[trigger] points[i] by {}
        if after == before {
            if let Some(w) = after {
                let i = choose|i: int| 0 <= i < fewer.len() && (#[trigger] fewer[i]).wall == w;
                assert(points[i].wall == w);
            }
        } else {
            assert(points[last].wall == after->0);
        }
        if let Some(w) = after {
            assert forall|i: int|
                0 <= i < points.len() && !bits::is_zero_bits(
                    (#[trigger] points[i]).wall,
                ) implies !bits::below(points[i].wall, w) by {
                if i < last {
                    assert(fewer[i] == points[i]);
                }
            }
        }
    }
}


} // verus!
