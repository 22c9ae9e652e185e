//! What finding and reading files does to a store, and to nothing else.
use vstd::prelude::*;
use vstd::utf8::*;

use crate::series;
use crate::store;
use crate::store::{FileRead, PendingView, RunView, StoreView};
use crate::tailing;
use crate::text;
use crate::tfevents;

verus! {

// ---------------------------------------------------------------------------
// Discovery
// ---------------------------------------------------------------------------
/// A file is one of events if `tfevents` is in its name and the name does not
/// end as that of an empty profile does.
pub proof fn law_event_file_names(a: Seq<char>, b: Seq<char>)
    ensures
        store::event_file_name(a + "tfevents"@ + b + ".profile-empty"@) == false,
        b.len() >= ".profile-empty"@.len() && b.skip(b.len() - ".profile-empty"@.len())
            != ".profile-empty"@ ==> store::event_file_name(a + "tfevents"@ + b),
        b.len() == 0 ==> store::event_file_name(a + "tfevents"@ + b),
        !text::has_part(a, "tfevents"@) ==> !store::event_file_name(a),
{
    reveal_strlit("tfevents");
    reveal_strlit(".profile-empty");
    let end = ".profile-empty"@;
    let s = a + "tfevents"@ + b + end;
    let at = s.len() - end.len();
    assert(s.subrange(at, at + end.len()) =~= end);
    let t = a + "tfevents"@ + b;
    assert(t.subrange(a.len() as int, (a.len() + "tfevents"@.len()) as int) =~= "tfevents"@);
    assert(text::stands_at(t, "tfevents"@, a.len() as int));
    let from = t.len() - end.len();
    if b.len() >= end.len() {
        assert(t.subrange(from, from + end.len()) =~= b.skip(b.len() - end.len()));
    } else if b.len() == 0 {
        if text::stands_at(t, end, from) {
            assert(t.subrange(from, from + end.len())[end.len() - 1] == end[end.len() - 1]);
            assert(t[t.len() - 1] == "tfevents"@[7]);
        }
    }
}

/// A new file is followed from its beginning, in the run of its directory, which
/// is called `.` for the log directory itself. A new run has no points and the
/// next colour slot. Nothing else changes.
pub proof fn law_new_file_is_followed(st: StoreView, dir: Seq<char>, path: Seq<char>)
    ensures
        ({
            let name = if dir.len() == 0 {
                "."@
            } else {
                dir
            };
            let after = store::discovered(st, dir, path);
            let new = !st.runs.contains_key(name);
            &&& after.runs.dom() == st.runs.dom().insert(name)
            &&& new || !st.runs[name].files.contains_key(path) ==> tailing::followed(
                after,
                PendingView { run: name, path, offset: 0 },
            )
            &&& forall|n: Seq<char>| n != name && st.runs.contains_key(n) ==> #[trigger] after.runs[n]
                == st.runs[n]
            &&& new ==> after.runs[name].series == Map::<Seq<char>, series::Held>::empty()
                && after.runs[name].first_wall is None && after.runs[name].color_slot
                == st.next_color_slot && after.next_color_slot == st.next_color_slot + 1
                && after.runs[name].files.dom() == set![path]
            &&& !new ==> after.runs[name].series == st.runs[name].series
                && after.runs[name].first_wall == st.runs[name].first_wall
                && after.next_color_slot == st.next_color_slot && after.runs[name].color_slot
                == st.runs[name].color_slot
            &&& !new ==> forall|q: Seq<char>|
                st.runs[name].files.contains_key(q) ==> #[trigger] after.runs[name].files[q]
                    == st.runs[name].files[q]
            &&& after.logdir == st.logdir
            &&& after.version == st.version
            &&& after.total_points == st.total_points
            &&& after.errors == st.errors
        }),
{
    let name = store::run_name(dir);
    let after = store::discovered(st, dir, path);
    assert(after.runs.dom() =~= st.runs.dom().insert(name));
    if !st.runs.contains_key(name) {
        assert(after.runs[name].files.dom() =~= set![path]);
    }
}

// ---------------------------------------------------------------------------
// Reading
// ---------------------------------------------------------------------------
/// What is read of one file touches that file and its run only: no other file
/// and no other run changes.
pub proof fn law_reading_touches_one_file(
    st: StoreView,
    p: PendingView,
    read: FileRead,
    run: Seq<char>,
    path: Seq<char>,
)
    requires
        store::known(st, p),
        st.runs.contains_key(run),
    ensures
        ({
            let after = store::absorbed(st, p, read);
            &&& after.runs.dom() == st.runs.dom()
            &&& after.logdir == st.logdir
            &&& after.next_color_slot == st.next_color_slot
            &&& after.runs[run].color_slot == st.runs[run].color_slot
            &&& after.runs[run].files.dom() == st.runs[run].files.dom()
            &&& run != p.run ==> after.runs[run] == st.runs[run]
            &&& path != p.path && st.runs[run].files.contains_key(path)
                ==> after.runs[run].files[path] == st.runs[run].files[path]
        }),
{
    let after = store::absorbed(st, p, read);
    assert(after.runs.dom() =~= st.runs.dom());
    if let FileRead::Data(data) = read {
        store::lemma_points_keep(st.runs[p.run], tfevents::chunk_from(data@, 0).points);
    }
    assert(after.runs[run].files.dom() =~= st.runs[run].files.dom());
}

/// Bytes that were read bring their points into the run, and the file is read on
/// from behind the whole records, if none of them was broken. The points are
/// counted, and the version goes up by one if there are any.
pub proof fn law_bytes_bring_points(st: StoreView, p: PendingView, data: Vec<u8>)
    requires
        store::known(st, p),
        0 <= p.offset,
        p.offset + data@.len() <= u64::MAX,
    ensures
        ({
            let c = tfevents::chunk_from(data@, 0);
            let after = store::absorbed(st, p, FileRead::Data(data));
            let file = after.runs[p.run].files[p.path];
            &&& file.offset == p.offset + c.consumed
            &&& file.dead <==> st.runs[p.run].files[p.path].dead || c.corrupt
            &&& after.runs[p.run].series == store::with_points(st.runs[p.run], c.points).series
            &&& after.runs[p.run].first_wall == store::with_points(
                st.runs[p.run],
                c.points,
            ).first_wall
            &&& after.total_points == st.total_points + c.points.len()
            &&& c.points.len() > 0 ==> after.version == st.version + 1
            &&& c.points.len() == 0 ==> after.version == st.version
            &&& !c.corrupt ==> after.errors == st.errors
            &&& c.corrupt ==> after.errors == st.errors + seq![p.path + ": corrupt record"@]
        }),
{
    crate::roundtrip::law_consumed_in_bounds(data@, 0);
    let c = tfevents::chunk_from(data@, 0);
    store::lemma_points_keep(st.runs[p.run], c.points);
    if c.corrupt {
        let after = store::absorbed(st, p, FileRead::Data(data));
        assert(after.errors =~= st.errors + seq![p.path + ": corrupt record"@]);
    }
}

/// A file that cannot be read is given up with a note of the reason; nothing of
/// what was read is lost.
pub proof fn law_unreadable_file_is_given_up(st: StoreView, p: PendingView, reason: String)
    requires
        store::known(st, p),
    ensures
        ({
            let after = store::absorbed(st, p, FileRead::Failed(reason));
            &&& forall|q: PendingView|
                q.run == p.run && q.path == p.path ==> !tailing::followed(after, q)
            &&& after.runs[p.run].files[p.path].offset == st.runs[p.run].files[p.path].offset
            &&& after.runs[p.run].series == st.runs[p.run].series
            &&& after.runs[p.run].first_wall == st.runs[p.run].first_wall
            &&& after.errors == st.errors + seq![p.path + ": "@ + reason@]
            &&& after.total_points == st.total_points
            &&& after.version == st.version
        }),
{
    let after = store::absorbed(st, p, FileRead::Failed(reason));
    assert(after.errors =~= st.errors + seq![p.path + ": "@ + reason@]);
}

/// A point goes behind those of its tag in the run, and no series of another tag
/// changes.
pub proof fn law_point_goes_to_its_tag(run: RunView, p: tfevents::PointView, other: Seq<char>)
    ensures
        ({
            let tag = store::tag_text(p.tag);
            let after = store::with_point(run, p);
            let x = series::Sample { step: p.step, wall: p.wall, val: p.value };
            &&& after.series.dom() == run.series.dom().insert(tag)
            &&& !run.series.contains_key(tag) ==> after.series[tag].points == seq![x]
            &&& run.series.contains_key(tag) && run.series[tag].skip == 0
                ==> after.series[tag].points == run.series[tag].points + seq![x]
            &&& other != tag && run.series.contains_key(other) ==> after.series[other]
                == run.series[other]
            &&& after.files == run.files
            &&& after.color_slot == run.color_slot
        }),
{
    let tag = store::tag_text(p.tag);
    let after = store::with_point(run, p);
    let x = series::Sample { step: p.step, wall: p.wall, val: p.value };
    assert(after.series.dom() =~= run.series.dom().insert(tag));
    if !run.series.contains_key(tag) {
        assert(after.series[tag].points =~= seq![x]);
    } else if run.series[tag].skip == 0 {
        assert(after.series[tag].points =~= run.series[tag].points + seq![x]);
    }
}

/// A tag that is text keeps its text, and any other is replaced by a note.
pub proof fn law_tags_keep_their_text(s: Seq<char>, b: Seq<u8>)
    ensures
        store::tag_text(encode_utf8(s)) == s,
        !valid_utf8(b) ==> store::tag_text(b) == "<invalid-utf8>"@,
{
    encode_utf8_valid_utf8(s);
    encode_utf8_decode_utf8(s);
}

/// The tags of the enabled runs are those of which one of them has points.
pub proof fn law_tags_of_enabled_runs(
    st: StoreView,
    enabled: Set<Seq<char>>,
    name: Seq<char>,
    tag: Seq<char>,
)
    ensures
        enabled.contains(name) && st.runs.contains_key(name) && st.runs[name].series.contains_key(
            tag,
        ) ==> store::has_tag(st, enabled, tag),
        store::has_tag(st, enabled, tag) ==> exists|n: Seq<char>|
            enabled.contains(n) && st.runs.contains_key(n) && (
            #[trigger] st.runs[n]).series.contains_key(tag),
        !store::has_tag(st, Set::empty(), tag),
{
}

/// Files are read one after the other: what the first ones bring stands when the
/// next one is read.
pub proof fn law_files_are_read_in_order(
    st: StoreView,
    p: Seq<PendingView>,
    r: Seq<FileRead>,
    q: PendingView,
    read: FileRead,
)
    requires
        p.len() == r.len(),
    ensures
        store::absorbed_all(st, p.push(q), r.push(read)) == store::absorbed(
            store::absorbed_all(st, p, r),
            q,
            read,
        ),
        store::absorbed_all(st, seq![], seq![]) == st,
        store::absorbed(st, q, FileRead::Skipped) == st,
{
    assert(p.push(q).drop_last() =~= p);
    assert(r.push(read).drop_last() =~= r);
}

// ---------------------------------------------------------------------------
// Thinning
// ---------------------------------------------------------------------------
/// Thinning a store thins each of its series and changes nothing else. A series
/// that is short enough keeps every point.
pub proof fn law_thinning_a_store(
    st: StoreView,
    cap: int,
    name: Seq<char>,
    tag: Seq<char>,
)
    requires
        st.runs.contains_key(name),
        st.runs[name].series.contains_key(tag),
    ensures
        ({
            let after = store::store_thinned(st, cap);
            let was = st.runs[name];
            let run = after.runs[name];
            &&& after.runs.dom() == st.runs.dom()
            &&& run.series.dom() == was.series.dom()
            &&& run.files == was.files
            &&& run.color_slot == was.color_slot
            &&& run.first_wall == was.first_wall
            &&& after.total_points == st.total_points
            &&& after.version == st.version
            &&& after.errors == st.errors
            &&& cap == 0 || was.series[tag].points.len() <= cap ==> run.series[tag]
                == was.series[tag]
            &&& cap > 0 && was.series[tag].stride > 0 && was.series[tag].stride * (
            was.series[tag].points.len() - 1) <= u64::MAX / 2 ==> run.series[tag].points.len() <= cap
            &&& was.series[tag].points.len() > 0 ==> run.series[tag].points.len() > 0
                && run.series[tag].points[0] == was.series[tag].points[0]
        }),
{
    let after = store::store_thinned(st, cap);
    let h = st.runs[name].series[tag];
    assert(after.runs.dom() =~= st.runs.dom());
    assert(after.runs[name].series.dom() =~= st.runs[name].series.dom());
    if cap > 0 && h.stride > 0 && h.stride * (h.points.len() - 1) <= u64::MAX / 2 {
        series::law_thinned_fits(h, cap);
    }
    if h.points.len() > 0 {
        lemma_first_point_stays(h, cap);
    }
}

proof fn lemma_first_point_stays(h: series::Held, cap: int)
    requires
        h.points.len() > 0,
    ensures
        series::thinned(h, cap).points.len() > 0,
        series::thinned(h, cap).points[0] == h.points[0],
    decreases h.points.len(),
{
    if cap > 0 && h.points.len() > cap && 2 * h.stride <= u64::MAX {
        lemma_first_point_stays(series::halved(h), cap);
    }
}

/// The largest stride of a store is that of one of its series and not below that
/// of any other; there is only one such number, and without series it is 1.
pub proof fn law_largest_stride(
    st: StoreView,
    r: int,
    q: int,
    name: Seq<char>,
    tag: Seq<char>,
)
    requires
        store::largest_stride(st, r),
    ensures
        store::largest_stride(st, q) ==> q == r,
        st.runs.contains_key(name) && st.runs[name].series.contains_key(tag)
            ==> st.runs[name].series[tag].stride <= r,
        (forall|n: Seq<char>, t: Seq<char>|
            st.runs.contains_key(n) && st.runs[n].series.contains_key(t) ==> (
            #[trigger] st.runs[n].series[t]).stride == 1) ==> r == 1,
        (forall|n: Seq<char>|
            st.runs.contains_key(n) ==> (#[trigger] st.runs[n]).series.dom().len() == 0
                && st.runs[n].series.dom().finite()) ==> r == 1,
{
    if store::largest_stride(st, q) && q != r {
        let s = if q < r {
            r
        } else {
            q
        };
        assert(s > 1);
        let (n, t) = choose|n: Seq<char>, t: Seq<char>|
            st.runs.contains_key(n) && st.runs[n].series.contains_key(t) && (
            #[trigger] st.runs[n].series[t]).stride == s;
        assert(st.runs[n].series[t].stride == s);
    }
}

} // verus!
