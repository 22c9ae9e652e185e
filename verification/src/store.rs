//! Runs, their event files, and their series.
//!
//! A run is a directory below the log directory that holds event files. Each
//! refresh takes in only the bytes that were appended since the one before.
use vstd::prelude::*;
use vstd::utf8::*;

use crate::bits;
use crate::history;
use crate::names;
use crate::names::{NameMap, NameSet};
use crate::series;
use crate::series::Series;
use crate::text;
use crate::tfevents;
use crate::tfevents::{parse_chunk, ChunkResult, Point};

verus! {

/// How far an event file has been read, and whether it has been given up.
#[derive(Clone, Copy, PartialEq, Eq, Structural, Debug)]
pub struct EventFile {
    pub offset: u64,
    pub dead: bool,
}

pub struct Run {
    pub files: NameMap<EventFile>,
    pub series: NameMap<Series>,
    /// The bits of the earliest wall time.
    pub first_wall: Option<u64>,
    /// Colour slot, handed out once when the run is discovered. It is never
    /// computed anew, so a run keeps its colour as other runs appear.
    pub color_slot: usize,
}

pub struct Store {
    pub logdir: String,
    pub runs: NameMap<Run>,
    /// Next colour slot to hand out.
    pub next_color_slot: usize,
    /// Goes up with every change of the data.
    pub version: u64,
    pub total_points: u64,
    pub errors: Vec<String>,
}

/// A run as a value.
pub struct RunView {
    pub files: Map<Seq<char>, EventFile>,
    pub series: Map<Seq<char>, series::Held>,
    pub first_wall: Option<u64>,
    pub color_slot: int,
}

/// A store as a value.
pub struct StoreView {
    pub logdir: Seq<char>,
    pub runs: Map<Seq<char>, RunView>,
    pub next_color_slot: int,
    pub version: int,
    pub total_points: int,
    pub errors: Seq<Seq<char>>,
}

/// What the series hold, by tag.
pub open spec fn series_view(m: NameMap<Series>) -> Map<Seq<char>, series::Held> {
    m.map().map_values(|s: Series| s.held())
}

/// The runs by name.
pub open spec fn runs_view(m: NameMap<Run>) -> Map<Seq<char>, RunView> {
    m.map().map_values(|r: Run| r@)
}

impl View for Run {
    type V = RunView;

    open spec fn view(&self) -> RunView {
        RunView {
            files: self.files.map(),
            series: series_view(self.series),
            first_wall: self.first_wall,
            color_slot: self.color_slot as int,
        }
    }
}

impl View for Store {
    type V = StoreView;

    open spec fn view(&self) -> StoreView {
        StoreView {
            logdir: self.logdir@,
            runs: runs_view(self.runs),
            next_color_slot: self.next_color_slot as int,
            version: self.version as int,
            total_points: self.total_points as int,
            errors: text::texts(self.errors@),
        }
    }
}

/// Every series is well formed.
pub open spec fn series_wf(m: NameMap<Series>) -> bool {
    m.wf() && forall|i: int| 0 <= i < m.vals@.len() ==> (#[trigger] m.vals@[i]).wf()
}

impl Run {
    pub open spec fn wf(&self) -> bool {
        self.files.wf() && series_wf(self.series)
    }
}

/// Every run is well formed.
pub open spec fn runs_wf(m: NameMap<Run>) -> bool {
    m.wf() && forall|i: int| 0 <= i < m.vals@.len() ==> (#[trigger] m.vals@[i]).wf()
}

/// No two runs have one colour slot, and the next one is free.
pub open spec fn slots_distinct(st: StoreView) -> bool {
    &&& 0 <= st.next_color_slot
    &&& forall|a: Seq<char>|
        st.runs.contains_key(a) ==> 0 <= (#[trigger] st.runs[a]).color_slot < st.next_color_slot
    &&& forall|a: Seq<char>, b: Seq<char>|
        st.runs.contains_key(a) && st.runs.contains_key(b) && a != b ==> (
        #[trigger] st.runs[a]).color_slot != (#[trigger] st.runs[b]).color_slot
}

impl Store {
    /// As many slots have been handed out as there are runs, one to each.
    pub open spec fn wf(&self) -> bool {
        &&& runs_wf(self.runs)
        &&& self.next_color_slot == self.runs.names@.len()
        &&& slots_distinct(self@)
    }
}

// ---------------------------------------------------------------------------
// Discovery
// ---------------------------------------------------------------------------
/// A file of this name holds events.
pub open spec fn event_file_name(name: Seq<char>) -> bool {
    text::has_part(name, "tfevents"@) && !text::stands_at(
        name,
        ".profile-empty"@,
        name.len() - ".profile-empty"@.len(),
    )
}

/// The name of the run in a directory, given its path below the log directory.
pub open spec fn run_name(dir: Seq<char>) -> Seq<char> {
    if dir.len() == 0 {
        "."@
    } else {
        dir
    }
}

/// A run as it is when it is discovered.
pub open spec fn fresh_run(slot: int) -> RunView {
    RunView {
        files: Map::empty(),
        series: Map::empty(),
        first_wall: None,
        color_slot: slot,
    }
}

/// A run once a file of it is known.
pub open spec fn with_file(run: RunView, path: Seq<char>) -> RunView {
    if run.files.contains_key(path) {
        run
    } else {
        RunView {
            files: run.files.insert(path, EventFile { offset: 0, dead: false }),
            ..run
        }
    }
}

/// The store once an event file below the log directory is known.
pub open spec fn discovered(st: StoreView, dir: Seq<char>, path: Seq<char>) -> StoreView {
    let name = run_name(dir);
    if st.runs.contains_key(name) {
        StoreView { runs: st.runs.insert(name, with_file(st.runs[name], path)), ..st }
    } else {
        StoreView {
            runs: st.runs.insert(name, with_file(fresh_run(st.next_color_slot), path)),
            next_color_slot: st.next_color_slot + 1,
            ..st
        }
    }
}

/// A file of this name holds events.
pub fn is_event_file(name: &str) -> (r: bool)
    ensures
        r == event_file_name(name@),
{
    text::contains(name, "tfevents") && !text::ends_with(name, ".profile-empty")
}

/// The views of the runs change where a run is replaced.
proof fn lemma_run_replaced(a: NameMap<Run>, b: NameMap<Run>, i: int, run: Run)
    requires
        runs_wf(a),
        run.wf(),
        0 <= i < a.names@.len(),
        b.names@ == a.names@,
        b.vals@ == a.vals@.update(i, run),
    ensures
        runs_wf(b),
        runs_view(b) == runs_view(a).insert(a.names@[i]@, run@),
{
    names::lemma_replaced(a, b, i, run);
    assert(runs_view(b) =~= runs_view(a).insert(a.names@[i]@, run@));
}

/// The views of the series change where a series is replaced.
proof fn lemma_series_replaced(a: NameMap<Series>, b: NameMap<Series>, i: int, s: Series)
    requires
        series_wf(a),
        s.wf(),
        0 <= i < a.names@.len(),
        b.names@ == a.names@,
        b.vals@ == a.vals@.update(i, s),
    ensures
        series_wf(b),
        series_view(b) == series_view(a).insert(a.names@[i]@, s.held()),
{
    names::lemma_replaced(a, b, i, s);
    assert(series_view(b) =~= series_view(a).insert(a.names@[i]@, s.held()));
}

impl Store {
    pub fn new(logdir: &str) -> (r: Self)
        ensures
            r.wf(),
            r@ == (StoreView {
                logdir: logdir@,
                runs: Map::empty(),
                next_color_slot: 0,
                version: 0,
                total_points: 0,
                errors: seq![],
            }),
            history::sound(r@),
    {
        let r: Store = Store {
            logdir: logdir.to_string(),
            runs: NameMap::new(),
            next_color_slot: 0,
            version: 0,
            total_points: 0,
            errors: Vec::new(),
        };
        assert(r@.runs =~= Map::empty());
        assert(r@.errors =~= seq![]);
        proof {
            history::law_new_store_is_sound(logdir@);
        }
        r
    }

    /// Take note of a file below the log directory: `dir` is the path of its
    /// directory below the log directory, `name` its name, `path` its path.
    pub fn discover(&mut self, dir: &str, name: &str, path: &str)
        requires
            old(self).wf(),
        ensures
            final(self).wf(),
            final(self)@ == if event_file_name(name@) {
                discovered(old(self)@, dir@, path@)
            } else {
                old(self)@
            },
            history::sound(old(self)@) ==> history::sound(final(self)@),
    {
        if !is_event_file(name) {
            return;
        }
        let ghost st = self@;
        let key: &str = if text::char_count(dir) == 0 {
            "."
        } else {
            dir
        };
        assert(key@ == run_name(dir@));
        let known: bool = self.runs.contains(key);
        let ghost was = self.runs;
        let fresh: Run = Run {
            files: NameMap::new(),
            series: NameMap::new(),
            first_wall: None,
            color_slot: self.next_color_slot,
        };
        assert(fresh@.series =~= Map::empty());
        assert(fresh.wf());
        let ghost fresh_view = fresh@;
        let i: usize = self.runs.enter(key, fresh);
        proof {
            assert(runs_wf(self.runs)) by {
                assert forall|k: int| 0 <= k < self.runs.vals@.len() implies (
                #[trigger] self.runs.vals@[k]).wf() by {
                    self.runs.lemma_position(k);
                    let n = self.runs.names@[k]@;
                    if n != key@ || known {
                        let j = names::lemma_key_position(was, n);
                    }
                }
            }
            if known {
                assert(runs_view(self.runs) =~= st.runs);
            } else {
                assert(runs_view(self.runs) =~= st.runs.insert(key@, fresh@));
            }
            self.runs.lemma_position(i as int);
        }
        if !known {
            self.next_color_slot = self.runs.len();
        }
        let ghost mid = self.runs;
        let run: &mut Run = &mut self.runs.vals[i];
        let ghost files = run.files;
        run.files.enter(path, EventFile { offset: 0, dead: false });
        proof {
            let run = self.runs.vals@[i as int];
            lemma_run_replaced(mid, self.runs, i as int, run);
            assert(run@ == with_file(mid.vals@[i as int]@, path@));
            assert(self@.runs =~= discovered(st, dir@, path@).runs);
            lemma_discovery_keeps_slots(st, dir@, path@);
            if history::sound(st) {
                history::lemma_discovered_sound(st, dir@, path@);
            }
        }
    }
}

/// Discovery keeps the colour slots apart.
proof fn lemma_discovery_keeps_slots(st: StoreView, dir: Seq<char>, path: Seq<char>)
    requires
        slots_distinct(st),
    ensures
        slots_distinct(discovered(st, dir, path)),
{
}

// ---------------------------------------------------------------------------
// Taking in what was read
// ---------------------------------------------------------------------------
/// A file that is still followed, and how far it has been read.
pub struct Pending {
    pub run: String,
    pub path: String,
    pub offset: u64,
}

pub struct PendingView {
    pub run: Seq<char>,
    pub path: Seq<char>,
    pub offset: int,
}

impl View for Pending {
    type V = PendingView;

    open spec fn view(&self) -> PendingView {
        PendingView { run: self.run@, path: self.path@, offset: self.offset as int }
    }
}

/// The pending files as values.
pub open spec fn pending_views(v: Seq<Pending>) -> Seq<PendingView> {
    Seq::new(v.len(), |i: int| v[i]@)
}

/// What the disk gave for a pending file.
pub enum FileRead {
    /// The file is gone, or no longer than what has been read of it.
    Skipped,
    /// It could not be read, for this reason.
    Failed(String),
    /// The bytes behind the offset.
    Data(Vec<u8>),
}

/// The text of a tag.
pub open spec fn tag_text(tag: Seq<u8>) -> Seq<char> {
    if valid_utf8(tag) {
        decode_utf8(tag)
    } else {
        "<invalid-utf8>"@
    }
}

/// This wall time becomes the first one of the run.
pub open spec fn comes_first(wall: u64, first: Option<u64>) -> bool {
    !bits::is_zero_bits(wall) && match first {
        None => true,
        Some(w) => bits::below(wall, w),
    }
}

/// A run with one more point.
pub open spec fn with_point(run: RunView, p: tfevents::PointView) -> RunView {
    let tag = tag_text(p.tag);
    let s = if run.series.contains_key(tag) {
        run.series[tag]
    } else {
        series::nothing()
    };
    let sample = series::Sample { step: p.step, wall: p.wall, val: p.value };
    RunView {
        series: run.series.insert(tag, series::pushed(s, sample)),
        first_wall: if comes_first(p.wall, run.first_wall) {
            Some(p.wall)
        } else {
            run.first_wall
        },
        ..run
    }
}

/// A run with more points, in their order.
pub open spec fn with_points(run: RunView, points: Seq<tfevents::PointView>) -> RunView
    decreases points.len(),
{
    if points.len() == 0 {
        run
    } else {
        with_point(with_points(run, points.drop_last()), points.last())
    }
}

/// The store knows this file.
pub open spec fn known(st: StoreView, p: PendingView) -> bool {
    st.runs.contains_key(p.run) && st.runs[p.run].files.contains_key(p.path)
}

/// The store once a piece of a file has been taken in.
pub open spec fn taken_in(st: StoreView, p: PendingView, c: tfevents::Chunk) -> StoreView {
    let was = st.runs[p.run];
    let run = with_points(was, c.points);
    let file = EventFile {
        offset: (p.offset + c.consumed) as u64,
        dead: was.files[p.path].dead || c.corrupt,
    };
    StoreView {
        runs: st.runs.insert(p.run, RunView { files: was.files.insert(p.path, file), ..run }),
        errors: if c.corrupt {
            st.errors.push(p.path + ": corrupt record"@)
        } else {
            st.errors
        },
        total_points: st.total_points + c.points.len(),
        version: if c.points.len() > 0 {
            st.version + 1
        } else {
            st.version
        },
        ..st
    }
}

/// The store once a file has been given up.
pub open spec fn given_up(st: StoreView, p: PendingView, reason: Seq<char>) -> StoreView {
    let run = st.runs[p.run];
    let file = EventFile { dead: true, ..run.files[p.path] };
    StoreView {
        runs: st.runs.insert(p.run, RunView { files: run.files.insert(p.path, file), ..run }),
        errors: st.errors.push(p.path + ": "@ + reason),
        ..st
    }
}

/// The store once it has heard what the disk gave for a file.
pub open spec fn absorbed(st: StoreView, p: PendingView, read: FileRead) -> StoreView {
    match read {
        FileRead::Skipped => st,
        FileRead::Failed(reason) => given_up(st, p, reason@),
        FileRead::Data(data) => taken_in(st, p, tfevents::chunk_from(data@, 0)),
    }
}

/// There is something to read behind the offset.
pub fn has_grown(len: u64, offset: u64) -> (r: bool)
    ensures
        r == (len > offset),
{
    len > offset
}

/// The views of the series when a name is entered among them.
proof fn lemma_series_entered(a: NameMap<Series>, b: NameMap<Series>, name: Seq<char>, v: Series)
    requires
        series_wf(a),
        b.wf(),
        v.wf(),
        a.map().contains_key(name) ==> b == a,
        !a.map().contains_key(name) ==> b.map() == a.map().insert(name, v),
    ensures
        series_wf(b),
        a.map().contains_key(name) ==> series_view(b) == series_view(a),
        !a.map().contains_key(name) ==> series_view(b) == series_view(a).insert(name, v.held()),
{
    assert forall|k: int| 0 <= k < b.vals@.len() implies (#[trigger] b.vals@[k]).wf() by {
        b.lemma_position(k);
        let n = b.names@[k]@;
        if n != name || a.map().contains_key(name) {
            let j = names::lemma_key_position(a, n);
        }
    }
    if !a.map().contains_key(name) {
        assert(series_view(b) =~= series_view(a).insert(name, v.held()));
    }
}

/// Append one point to the run.
fn add_point(run: &mut Run, p: &Point<'_>)
    requires
        old(run).wf(),
    ensures
        final(run).wf(),
        final(run)@ == with_point(old(run)@, p@),
{
    let ghost was = run.series;
    let tag: &str = match text::from_utf8(p.tag) {
        Some(s) => s,
        None => "<invalid-utf8>",
    };
    assert(tag@ == tag_text(p.tag@));
    let fresh: Series = Series::default();
    let ghost fresh_series = fresh;
    let i: usize = run.series.enter(tag, fresh);
    let ghost mid = run.series;
    proof {
        lemma_series_entered(was, mid, tag@, fresh_series);
        mid.lemma_position(i as int);
    }
    let s: &mut Series = &mut run.series.vals[i];
    s.push(p.step, p.wall, p.value);
    proof {
        let s = run.series.vals@[i as int];
        lemma_series_replaced(mid, run.series, i as int, s);
        assert(run@.series =~= with_point(old(run)@, p@).series);
    }
    let first: bool = match run.first_wall {
        None => true,
        Some(w) => bits::is_below(p.wall, w),
    };
    if !bits::is_zero(p.wall) && first {
        run.first_wall = Some(p.wall);
    }
}

/// Points change neither the files nor the colour of a run.
pub proof fn lemma_points_keep(run: RunView, points: Seq<tfevents::PointView>)
    ensures
        with_points(run, points).files == run.files,
        with_points(run, points).color_slot == run.color_slot,
    decreases points.len(),
{
    if points.len() > 0 {
        lemma_points_keep(run, points.drop_last());
    }
}

/// Append the points to the run, in their order.
fn add_points(run: &mut Run, points: &Vec<Point<'_>>)
    requires
        old(run).wf(),
    ensures
        final(run).wf(),
        final(run)@ == with_points(old(run)@, tfevents::point_views(points@)),
{
    let ghost views = tfevents::point_views(points@);
    let mut i: usize = 0;
    while i < points.len()
        invariant
            i <= points@.len(),
            views == tfevents::point_views(points@),
            run.wf(),
            run@ == with_points(old(run)@, views.take(i as int)),
        decreases points.len() - i,
    {
        add_point(run, &points[i]);
        i = i + 1;
        assert(views.take(i as int).drop_last() =~= views.take(i - 1));
        assert(views.take(i as int).last() == points@[i - 1]@);
    }
    assert(views.take(i as int) =~= views);
}

/// Replacing a run by one of the same colour keeps the slots apart.
proof fn lemma_slots_kept(a: StoreView, b: StoreView, name: Seq<char>, run: RunView)
    requires
        slots_distinct(a),
        a.runs.contains_key(name),
        b.runs == a.runs.insert(name, run),
        b.next_color_slot == a.next_color_slot,
        run.color_slot == a.runs[name].color_slot,
    ensures
        slots_distinct(b),
{
}

impl Store {
    /// Where the run stands, and where its file stands in it.
    fn locate(&self, p: &Pending) -> (r: (usize, usize))
        requires
            self.wf(),
            known(self@, p@),
        ensures
            r.0 < self.runs.vals@.len(),
            self.runs.names@[r.0 as int]@ == p.run@,
            self.runs.vals@[r.0 as int]@ == self@.runs[p.run@],
            r.1 < self.runs.vals@[r.0 as int].files.vals@.len(),
            self.runs.vals@[r.0 as int].files.names@[r.1 as int]@ == p.path@,
            self.runs.vals@[r.0 as int].files.vals@[r.1 as int]
                == self@.runs[p.run@].files[p.path@],
    {
        let i: usize = match self.runs.find(p.run.as_str()) {
            Ok(i) => i,
            Err(_) => 0,
        };
        proof {
            self.runs.lemma_position(i as int);
        }
        let run: &Run = &self.runs.vals[i];
        let j: usize = match run.files.find(p.path.as_str()) {
            Ok(j) => j,
            Err(_) => 0,
        };
        proof {
            run.files.lemma_position(j as int);
        }
        (i, j)
    }

    /// Whether the store knows this file.
    pub fn knows(&self, p: &Pending) -> (r: bool)
        requires
            self.wf(),
        ensures
            r == known(self@, p@),
    {
        match self.runs.find(p.run.as_str()) {
            Ok(i) => {
                proof {
                    self.runs.lemma_position(i as int);
                }
                self.runs.vals[i].files.contains(p.path.as_str())
            },
            Err(_) => false,
        }
    }

    /// Give a file up.
    pub fn give_up(&mut self, p: &Pending, reason: &str)
        requires
            old(self).wf(),
            known(old(self)@, p@),
        ensures
            final(self).wf(),
            final(self)@ == given_up(old(self)@, p@, reason@),
    {
        let ghost st = self@;
        let (i, j) = self.locate(p);
        let mut line: String = p.path.clone();
        line.append(": ");
        line.append(reason);
        let ghost was = self.runs;
        let run: &mut Run = &mut self.runs.vals[i];
        let ghost files = run.files;
        let file: EventFile = EventFile { offset: run.files.vals[j].offset, dead: true };
        run.files.vals.set(j, file);
        self.errors.push(line);
        proof {
            let run = self.runs.vals@[i as int];
            names::lemma_replaced(files, run.files, j as int, file);
            lemma_run_replaced(was, self.runs, i as int, run);
            assert(self@.errors =~= given_up(st, p@, reason@).errors);
            lemma_slots_kept(st, self@, p.run@, run@);
            assert(self@ =~= given_up(st, p@, reason@));
        }
    }

    /// Take in the points of a piece of a file, read as `result` says. Says
    /// whether there were any.
    pub fn merge(&mut self, p: &Pending, points: &Vec<Point<'_>>, result: &ChunkResult) -> (r: bool)
        requires
            old(self).wf(),
            known(old(self)@, p@),
            p.offset + result.consumed <= u64::MAX,
            old(self).total_points + points@.len() <= u64::MAX,
            old(self).version < u64::MAX,
        ensures
            final(self).wf(),
            final(self)@ == taken_in(
                old(self)@,
                p@,
                (tfevents::Chunk {
                    points: tfevents::point_views(points@),
                    consumed: result.consumed as int,
                    corrupt: result.corrupt,
                }),
            ),
            r == (points@.len() > 0),
    {
        let ghost st = self@;
        let ghost views = tfevents::point_views(points@);
        let ghost c = tfevents::Chunk {
            points: views,
            consumed: result.consumed as int,
            corrupt: result.corrupt,
        };
        let (i, j) = self.locate(p);
        let ghost was = self.runs;
        let run: &mut Run = &mut self.runs.vals[i];
        let ghost files = run.files;
        let file: EventFile = EventFile {
            offset: p.offset + result.consumed as u64,
            dead: run.files.vals[j].dead || result.corrupt,
        };
        run.files.vals.set(j, file);
        proof {
            names::lemma_replaced(files, run.files, j as int, file);
        }
        let ghost half = run@;
        add_points(run, points);
        if result.corrupt {
            let mut line: String = p.path.clone();
            line.append(": corrupt record");
            self.errors.push(line);
        }
        if points.len() > 0 {
            self.total_points = self.total_points + points.len() as u64;
            self.version = self.version + 1;
        }
        proof {
            let run = self.runs.vals@[i as int];
            lemma_run_replaced(was, self.runs, i as int, run);
            lemma_files_apart(st.runs[p.run@], half.files, views);
            lemma_points_keep(st.runs[p.run@], views);
            lemma_points_keep(half, views);
            let want = taken_in(st, p@, c);
            assert(self@.errors =~= want.errors);
            assert(run@ =~= want.runs[p.run@]);
            assert(self@.runs =~= want.runs);
            lemma_slots_kept(st, self@, p.run@, run@);
            assert(self@ =~= want);
        }
        points.len() > 0
    }

    /// Hear what the disk gave for a file. Says whether there were points.
    pub fn absorb(&mut self, p: &Pending, read: &FileRead) -> (r: bool)
        requires
            old(self).wf(),
            known(old(self)@, p@),
            read matches FileRead::Data(data) ==> {
                &&& p.offset + data@.len() <= u64::MAX
                &&& old(self).total_points + data@.len() <= u64::MAX
            },
            old(self).version < u64::MAX,
        ensures
            final(self).wf(),
            final(self)@ == absorbed(old(self)@, p@, *read),
            r == (final(self)@.total_points > old(self)@.total_points),
    {
        match read {
            FileRead::Skipped => false,
            FileRead::Failed(reason) => {
                self.give_up(p, reason.as_str());
                false
            },
            FileRead::Data(data) => {
                let mut points: Vec<Point<'_>> = Vec::new();
                let result: ChunkResult = parse_chunk(data.as_slice(), &mut points);
                proof {
                    tfevents::lemma_points_fit(data@, 0);
                    let c = tfevents::chunk_from(data@, 0);
                    assert(tfevents::point_views(points@) =~= c.points);
                    assert(points@.len() == tfevents::point_views(points@).len());
                }
                self.merge(p, &points, &result)
            },
        }
    }
}

/// The points of a run do not depend on its files.
pub proof fn lemma_files_apart(
    run: RunView,
    files: Map<Seq<char>, EventFile>,
    points: Seq<tfevents::PointView>,
)
    ensures
        with_points(RunView { files, ..run }, points) == (RunView {
            files,
            ..with_points(run, points)
        }),
    decreases points.len(),
{
    if points.len() > 0 {
        lemma_files_apart(run, files, points.drop_last());
    }
}

// ---------------------------------------------------------------------------
// Refreshing
// ---------------------------------------------------------------------------
/// The files among the first `n` of a run that are still followed.
pub open spec fn run_pending(run: Seq<char>, files: NameMap<EventFile>, n: nat) -> Seq<PendingView>
    decreases n,
{
    if n == 0 {
        seq![]
    } else {
        let k = n - 1;
        let rest = run_pending(run, files, k as nat);
        if files.vals@[k].dead {
            rest
        } else {
            rest.push(
                PendingView {
                    run,
                    path: files.names@[k]@,
                    offset: files.vals@[k].offset as int,
                },
            )
        }
    }
}

/// The files of the first `n` runs that are still followed: by run, and by
/// path in each run.
pub open spec fn all_pending(runs: NameMap<Run>, n: nat) -> Seq<PendingView>
    decreases n,
{
    if n == 0 {
        seq![]
    } else {
        let run = runs.vals@[n - 1];
        all_pending(runs, (n - 1) as nat) + run_pending(
            runs.names@[n - 1]@,
            run.files,
            run.files.names@.len(),
        )
    }
}

/// The store once it has heard of the files one after the other.
pub open spec fn absorbed_all(
    st: StoreView,
    pending: Seq<PendingView>,
    reads: Seq<FileRead>,
) -> StoreView
    decreases pending.len(),
{
    if pending.len() == 0 {
        st
    } else {
        absorbed(
            absorbed_all(st, pending.drop_last(), reads.drop_last()),
            pending.last(),
            reads.last(),
        )
    }
}

/// `b` is the run `a` with every series sorted.
pub open spec fn run_settled(a: RunView, b: RunView) -> bool {
    &&& b.files == a.files
    &&& b.first_wall == a.first_wall
    &&& b.color_slot == a.color_slot
    &&& b.series.dom() == a.series.dom()
    &&& forall|tag: Seq<char>|
        a.series.contains_key(tag) ==> series::put_in_order(
            a.series[tag],
            #[trigger] b.series[tag],
        )
}

/// `b` is the store `a` with every series sorted.
pub open spec fn settled(a: StoreView, b: StoreView) -> bool {
    &&& b == (StoreView { runs: b.runs, ..a })
    &&& b.runs.dom() == a.runs.dom()
    &&& forall|name: Seq<char>|
        a.runs.contains_key(name) ==> run_settled(a.runs[name], #[trigger] b.runs[name])
}

/// How many bytes were read.
pub open spec fn bytes_read(reads: Seq<FileRead>) -> nat
    decreases reads.len(),
{
    if reads.len() == 0 {
        0
    } else {
        bytes_read(reads.drop_last()) + match reads.last() {
            FileRead::Data(data) => data@.len(),
            _ => 0,
        }
    }
}

/// What one absorption leaves as it was.
proof fn lemma_absorbed_keeps(st: StoreView, p: PendingView, read: FileRead)
    requires
        known(st, p),
    ensures
        forall|q: PendingView| known(st, q) ==> #[trigger] known(absorbed(st, p, read), q),
        absorbed(st, p, read).logdir == st.logdir,
        absorbed(st, p, read).next_color_slot == st.next_color_slot,
        absorbed(st, p, read).runs.dom() == st.runs.dom(),
        forall|name: Seq<char>|
            st.runs.contains_key(name) ==> (#[trigger] absorbed(st, p, read).runs[name]).color_slot
                == st.runs[name].color_slot,
        st.version <= absorbed(st, p, read).version <= st.version + 1,
        st.total_points <= absorbed(st, p, read).total_points,
        absorbed(st, p, read).total_points <= st.total_points + match read {
            FileRead::Data(data) => data@.len(),
            _ => 0,
        },
{
    if let FileRead::Data(data) = read {
        let c = tfevents::chunk_from(data@, 0);
        tfevents::lemma_points_fit(data@, 0);
        lemma_points_keep(st.runs[p.run], c.points);
    }
    assert(absorbed(st, p, read).runs.dom() =~= st.runs.dom());
}

/// What a series of absorptions leaves as it was.
pub proof fn lemma_absorbed_all_keeps(st: StoreView, pending: Seq<PendingView>, reads: Seq<FileRead>)
    requires
        pending.len() == reads.len(),
        forall|i: int| 0 <= i < pending.len() ==> known(st, #[trigger] pending[i]),
    ensures
        forall|q: PendingView|
            known(st, q) ==> #[trigger] known(absorbed_all(st, pending, reads), q),
        absorbed_all(st, pending, reads).logdir == st.logdir,
        absorbed_all(st, pending, reads).next_color_slot == st.next_color_slot,
        absorbed_all(st, pending, reads).runs.dom() == st.runs.dom(),
        forall|name: Seq<char>|
            st.runs.contains_key(name) ==> (#[trigger] absorbed_all(
                st,
                pending,
                reads,
            ).runs[name]).color_slot == st.runs[name].color_slot,
        st.version <= absorbed_all(st, pending, reads).version <= st.version + pending.len(),
        st.total_points <= absorbed_all(st, pending, reads).total_points <= st.total_points
            + bytes_read(reads),
    decreases pending.len(),
{
    if pending.len() > 0 {
        let before = absorbed_all(st, pending.drop_last(), reads.drop_last());
        assert(pending.last() == pending[pending.len() - 1]);
        lemma_absorbed_all_keeps(st, pending.drop_last(), reads.drop_last());
        lemma_absorbed_keeps(before, pending.last(), reads.last());
    }
}

/// Sort every series of a run.
fn settle_series(m: &mut NameMap<Series>)
    requires
        series_wf(*old(m)),
    ensures
        series_wf(*final(m)),
        final(m).names@ == old(m).names@,
        forall|i: int|
            0 <= i < old(m).vals@.len() ==> series::put_in_order(
                old(m).vals@[i].held(),
                (#[trigger] final(m).vals@[i]).held(),
            ) && !final(m).vals@[i].unsorted,
{
    let mut i: usize = 0;
    while i < m.vals.len()
        invariant
            i <= m.vals@.len(),
            series_wf(*old(m)),
            series_wf(*m),
            m.names@ == old(m).names@,
            m.vals@.len() == old(m).vals@.len(),
            forall|k: int|
                0 <= k < i ==> series::put_in_order(
                    old(m).vals@[k].held(),
                    (#[trigger] m.vals@[k]).held(),
                ) && !m.vals@[k].unsorted,
            forall|k: int| i <= k < m.vals@.len() ==> #[trigger] m.vals@[k] == old(m).vals@[k],
        decreases m.vals.len() - i,
    {
        let ghost was = *m;
        let s: &mut Series = &mut m.vals[i];
        s.ensure_sorted();
        proof {
            lemma_series_replaced(was, *m, i as int, m.vals@[i as int]);
        }
        i = i + 1;
    }
}

/// A run whose series have been sorted one by one is the run sorted.
proof fn lemma_run_settled(a: Run, b: Run)
    requires
        a.wf(),
        series_wf(b.series),
        b.files == a.files,
        b.first_wall == a.first_wall,
        b.color_slot == a.color_slot,
        b.series.names@ == a.series.names@,
        forall|i: int|
            0 <= i < a.series.vals@.len() ==> series::put_in_order(
                a.series.vals@[i].held(),
                (#[trigger] b.series.vals@[i]).held(),
            ),
    ensures
        run_settled(a@, b@),
{
    assert(a.series.keys() == b.series.keys());
    assert(b@.series.dom() =~= a@.series.dom());
    assert forall|tag: Seq<char>| a@.series.contains_key(tag) implies series::put_in_order(
        a@.series[tag],
        #[trigger] b@.series[tag],
    ) by {
        let i = names::lemma_key_position(a.series, tag);
        b.series.lemma_position(i);
        assert(b.series.vals@[i].held() == b@.series[tag]);
    }
}

impl Store {
    /// The files that are still followed, with the offsets behind which there
    /// may be more.
    pub fn pending_files(&self) -> (r: Vec<Pending>)
        requires
            self.wf(),
        ensures
            pending_views(r@) == all_pending(self.runs, self.runs.names@.len()),
            forall|i: int| 0 <= i < r@.len() ==> known(self@, (#[trigger] r@[i])@),
    {
        let mut out: Vec<Pending> = Vec::new();
        let mut i: usize = 0;
        assert(pending_views(out@) =~= seq![]);
        while i < self.runs.names.len()
            invariant
                self.wf(),
                i <= self.runs.names@.len(),
                pending_views(out@) == all_pending(self.runs, i as nat),
                forall|k: int| 0 <= k < out@.len() ==> known(self@, (#[trigger] out@[k])@),
            decreases self.runs.names.len() - i,
        {
            let run: &Run = &self.runs.vals[i];
            let name: &String = &self.runs.names[i];
            let ghost before = pending_views(out@);
            let mut j: usize = 0;
            assert(before + run_pending(name@, run.files, 0) =~= before);
            proof {
                self.runs.lemma_position(i as int);
            }
            while j < run.files.names.len()
                invariant
                    self.wf(),
                    i < self.runs.names@.len(),
                    *run == self.runs.vals@[i as int],
                    *name == self.runs.names@[i as int],
                    self.runs.map().contains_key(name@),
                    self.runs.map()[name@] == *run,
                    run.wf(),
                    j <= run.files.names@.len(),
                    pending_views(out@) == before + run_pending(name@, run.files, j as nat),
                    forall|k: int| 0 <= k < out@.len() ==> known(self@, (#[trigger] out@[k])@),
                decreases run.files.names.len() - j,
            {
                proof {
                    run.files.lemma_position(j as int);
                }
                if !run.files.vals[j].dead {
                    let ghost so_far = out@;
                    let p: Pending = Pending {
                        run: name.clone(),
                        path: run.files.names[j].clone(),
                        offset: run.files.vals[j].offset,
                    };
                    out.push(p);
                    proof {
                        assert(known(self@, p@));
                        assert(pending_views(out@) =~= pending_views(so_far).push(p@));
                        assert(pending_views(out@) =~= before + run_pending(
                            name@,
                            run.files,
                            j as nat,
                        ).push(p@));
                    }
                }
                j = j + 1;
            }
            i = i + 1;
        }
        out
    }

    /// Sort every series.
    pub fn settle(&mut self)
        requires
            old(self).wf(),
        ensures
            final(self).wf(),
            settled(old(self)@, final(self)@),
    {
        let ghost st = self@;
        let ghost was = self.runs;
        let mut i: usize = 0;
        while i < self.runs.vals.len()
            invariant
                i <= self.runs.vals@.len(),
                was == old(self).runs,
                runs_wf(was),
                runs_wf(self.runs),
                self.logdir == old(self).logdir,
                self.next_color_slot == old(self).next_color_slot,
                self.version == old(self).version,
                self.total_points == old(self).total_points,
                self.errors == old(self).errors,
                self.runs.names@ == was.names@,
                self.runs.vals@.len() == was.vals@.len(),
                forall|k: int|
                    0 <= k < i ==> run_settled(was.vals@[k]@, (#[trigger] self.runs.vals@[k])@),
                forall|k: int|
                    i <= k < self.runs.vals@.len() ==> #[trigger] self.runs.vals@[k]
                        == was.vals@[k],
            decreases self.runs.vals.len() - i,
        {
            let ghost before = self.runs;
            let run: &mut Run = &mut self.runs.vals[i];
            settle_series(&mut run.series);
            proof {
                let run = self.runs.vals@[i as int];
                lemma_run_settled(before.vals@[i as int], run);
                lemma_run_replaced(before, self.runs, i as int, run);
            }
            i = i + 1;
        }
        proof {
            assert(self.runs.keys() == was.keys());
            assert(self@.runs.dom() =~= st.runs.dom());
            assert forall|name: Seq<char>| st.runs.contains_key(name) implies run_settled(
                st.runs[name],
                #[trigger] self@.runs[name],
            ) by {
                let k = names::lemma_key_position(was, name);
                self.runs.lemma_position(k);
                assert(self.runs.vals@[k]@ == self@.runs[name]);
            }
            lemma_settled_keeps(st, self@);
        }
    }

    /// Take in what the disk gave for the pending files, in order. Says
    /// whether any data changed; if so, every series is sorted again.
    pub fn refresh(&mut self, pending: &Vec<Pending>, reads: &Vec<FileRead>) -> (r: bool)
        requires
            old(self).wf(),
            pending@.len() == reads@.len(),
            forall|i: int| 0 <= i < pending@.len() ==> known(old(self)@, (#[trigger] pending@[i])@),
            forall|i: int|
                0 <= i < reads@.len() ==> (#[trigger] reads@[i] matches FileRead::Data(data)
                    ==> pending@[i].offset + data@.len() <= u64::MAX),
            old(self).total_points + bytes_read(reads@) <= u64::MAX,
            old(self).version + pending@.len() <= u64::MAX,
        ensures
            final(self).wf(),
            ({
                let all = absorbed_all(old(self)@, pending_views(pending@), reads@);
                &&& r == (all.total_points > old(self)@.total_points)
                &&& if r {
                    settled(all, final(self)@)
                } else {
                    final(self)@ == all
                }
            }),
            r == (final(self)@.total_points > old(self)@.total_points),
            r == (final(self)@.version > old(self)@.version),
            history::sound(old(self)@) ==> history::sound(final(self)@),
    {
        let ghost st = self@;
        let ghost views = pending_views(pending@);
        let mut changed: bool = false;
        let mut i: usize = 0;
        assert(views.take(0) =~= seq![]);
        assert(reads@.take(0) =~= seq![]);
        while i < pending.len()
            invariant
                i <= pending@.len(),
                self.wf(),
                st == old(self)@,
                views == pending_views(pending@),
                pending@.len() == reads@.len(),
                forall|k: int|
                    0 <= k < pending@.len() ==> known(st, (#[trigger] pending@[k])@),
                forall|k: int|
                    0 <= k < reads@.len() ==> (#[trigger] reads@[k] matches FileRead::Data(data)
                        ==> pending@[k].offset + data@.len() <= u64::MAX),
                st.total_points + bytes_read(reads@) <= u64::MAX,
                st.version + pending@.len() <= u64::MAX,
                self@ == absorbed_all(st, views.take(i as int), reads@.take(i as int)),
                changed == (self@.total_points > st.total_points),
                self@.version >= st.version,
                changed == (self@.version > st.version),
            decreases pending.len() - i,
        {
            let ghost now = self@;
            proof {
                let done = views.take(i as int);
                assert forall|k: int| 0 <= k < done.len() implies known(
                    st,
                    #[trigger] done[k],
                ) by {
                    assert(done[k] == pending@[k]@);
                }
                lemma_absorbed_all_keeps(st, done, reads@.take(i as int));
                assert(known(now, pending@[i as int]@));
                assert(reads@.take(i + 1).drop_last() =~= reads@.take(i as int));
                assert(views.take(i + 1).drop_last() =~= done);
                lemma_bytes_take(reads@, i + 1);
                lemma_bytes_take(reads@, i as int);
            }
            if self.absorb(&pending[i], &reads[i]) {
                changed = true;
            }
            proof {
                assert(views.take(i + 1).last() == pending@[i as int]@);
                lemma_absorbed_keeps(now, pending@[i as int]@, reads@[i as int]);
            }
            i = i + 1;
        }
        assert(views.take(i as int) =~= views);
        assert(reads@.take(i as int) =~= reads@);
        if changed {
            self.settle();
        }
        proof {
            let pass = history::Pass { files: seq![], pending: views, reads: reads@ };
            assert forall|i: int| 0 <= i < views.len() implies known(st, #[trigger] views[i]) by {
                assert(views[i] == pending@[i]@);
            }
            assert(history::passed(st, pass, self@));
            if history::sound(st) {
                history::law_pass_keeps_the_store_sound(st, pass, self@);
            }
        }
        changed
    }

    /// The names of the runs, in order.
    pub fn run_names(&self) -> (r: Vec<String>)
        requires
            self.wf(),
        ensures
            text::texts(r@) == self.runs.keys(),
            text::ascending(text::texts(r@)),
            forall|n: Seq<char>| #[trigger]
                text::texts(r@).contains(n) <==> self@.runs.contains_key(n),
    {
        let mut out: Vec<String> = Vec::new();
        let mut i: usize = 0;
        while i < self.runs.names.len()
            invariant
                i <= self.runs.names@.len(),
                text::texts(out@) == self.runs.keys().take(i as int),
            decreases self.runs.names.len() - i,
        {
            let ghost before = out@;
            out.push(self.runs.names[i].clone());
            assert(text::texts(out@) =~= text::texts(before).push(self.runs.keys()[i as int]));
            i = i + 1;
            assert(text::texts(out@) =~= self.runs.keys().take(i as int));
        }
        assert(self.runs.keys().take(i as int) =~= self.runs.keys());
        out
    }

    /// The tags of the enabled runs: each once, in order.
    pub fn tags(&self, enabled: &NameSet) -> (r: Vec<String>)
        requires
            self.wf(),
            enabled.wf(),
        ensures
            text::ascending(text::texts(r@)),
            forall|t: Seq<char>|
                #[trigger] text::texts(r@).contains(t) <==> has_tag(self@, enabled@, t),
    {
        let mut seen: NameSet = NameSet::new();
        let mut i: usize = 0;
        while i < self.runs.names.len()
            invariant
                self.wf(),
                enabled.wf(),
                seen.wf(),
                i <= self.runs.names@.len(),
                forall|t: Seq<char>| #[trigger]
                    seen@.contains(t) <==> tag_among(self.runs, enabled@, i as int, t),
            decreases self.runs.names.len() - i,
        {
            let run: &Run = &self.runs.vals[i];
            if enabled.contains(self.runs.names[i].as_str()) {
                let ghost before = seen@;
                let mut j: usize = 0;
                while j < run.series.names.len()
                    invariant
                        seen.wf(),
                        j <= run.series.names@.len(),
                        forall|t: Seq<char>| #[trigger]
                            seen@.contains(t) <==> before.contains(t) || run.series.keys().take(
                                j as int,
                            ).contains(t),
                    decreases run.series.names.len() - j,
                {
                    seen.insert(run.series.names[j].as_str());
                    proof {
                        let keys = run.series.keys();
                        assert(keys.take(j + 1) =~= keys.take(j as int).push(keys[j as int]));
                        assert forall|t: Seq<char>| keys.take(j + 1).contains(t) <==> keys.take(
                            j as int,
                        ).contains(t) || t == keys[j as int] by {
                            let a = keys.take(j as int);
                            if a.contains(t) {
                                let q = choose|q: int| 0 <= q < a.len() && a[q] == t;
                                assert(keys.take(j + 1)[q] == t);
                            }
                            assert(keys.take(j + 1)[j as int] == keys[j as int]);
                        }
                    }
                    j = j + 1;
                }
                assert(run.series.keys().take(j as int) =~= run.series.keys());
            }
            proof {
                assert forall|t: Seq<char>| #[trigger]
                    seen@.contains(t) <==> tag_among(self.runs, enabled@, i + 1, t) by {
                    lemma_tag_among_next(self.runs, enabled@, i as int, t);
                }
            }
            i = i + 1;
        }
        proof {
            seen.lemma_view();
            assert forall|t: Seq<char>| #[trigger]
                text::texts(seen.names@).contains(t) <==> has_tag(self@, enabled@, t) by {
                assert(seen@.contains(t) <==> seen.keys().contains(t));
                lemma_tag_among_all(self.runs, enabled@, t);
            }
        }
        seen.names
    }
}

/// Some enabled run has a series of this tag.
pub open spec fn has_tag(st: StoreView, enabled: Set<Seq<char>>, tag: Seq<char>) -> bool {
    exists|name: Seq<char>|
        enabled.contains(name) && st.runs.contains_key(name) && (
        #[trigger] st.runs[name]).series.contains_key(tag)
}

/// One of the first `n` runs is enabled and has a series of this tag.
spec fn tag_among(runs: NameMap<Run>, enabled: Set<Seq<char>>, n: int, tag: Seq<char>) -> bool {
    exists|i: int|
        0 <= i < n && enabled.contains(runs.names@[i]@) && (
        #[trigger] runs.vals@[i]).series.keys().contains(tag)
}

proof fn lemma_tag_among_next(runs: NameMap<Run>, enabled: Set<Seq<char>>, n: int, tag: Seq<char>)
    requires
        0 <= n < runs.vals@.len(),
    ensures
        tag_among(runs, enabled, n + 1, tag) <==> tag_among(runs, enabled, n, tag) || (
        enabled.contains(runs.names@[n]@) && runs.vals@[n].series.keys().contains(tag)),
{
    if tag_among(runs, enabled, n, tag) {
        let i = choose|i: int|
            0 <= i < n && enabled.contains(runs.names@[i]@) && (
            #[trigger] runs.vals@[i]).series.keys().contains(tag);
        assert(runs.vals@[i].series.keys().contains(tag));
    }
}

proof fn lemma_tag_among_all(runs: NameMap<Run>, enabled: Set<Seq<char>>, tag: Seq<char>)
    requires
        runs_wf(runs),
    ensures
        tag_among(runs, enabled, runs.names@.len() as int, tag) <==> exists|name: Seq<char>|
            enabled.contains(name) && runs_view(runs).contains_key(name) && (
            #[trigger] runs_view(runs)[name]).series.contains_key(tag),
{
    if tag_among(runs, enabled, runs.names@.len() as int, tag) {
        let i = choose|i: int|
            0 <= i < runs.names@.len() && enabled.contains(runs.names@[i]@) && (
            #[trigger] runs.vals@[i]).series.keys().contains(tag);
        runs.lemma_position(i);
        assert(runs_view(runs)[runs.names@[i]@].series.contains_key(tag));
    }
    if exists|name: Seq<char>|
        enabled.contains(name) && runs_view(runs).contains_key(name) && (
        #[trigger] runs_view(runs)[name]).series.contains_key(tag) {
        let name = choose|name: Seq<char>|
            enabled.contains(name) && runs_view(runs).contains_key(name) && (
            #[trigger] runs_view(runs)[name]).series.contains_key(tag);
        let i = names::lemma_key_position(runs, name);
        assert(runs.vals@[i].series.keys().contains(tag));
    }
}

/// Bytes read early are bytes read.
proof fn lemma_bytes_take(reads: Seq<FileRead>, n: int)
    requires
        0 <= n <= reads.len(),
    ensures
        bytes_read(reads.take(n)) <= bytes_read(reads),
        n > 0 ==> bytes_read(reads.take(n)) == bytes_read(reads.take(n - 1)) + match reads[n - 1] {
            FileRead::Data(data) => data@.len(),
            _ => 0,
        },
    decreases reads.len() - n,
{
    if n > 0 {
        assert(reads.take(n).drop_last() =~= reads.take(n - 1));
        assert(reads.take(n).last() == reads[n - 1]);
    }
    if n < reads.len() {
        lemma_bytes_take(reads, n + 1);
    } else {
        assert(reads.take(n) =~= reads);
    }
}

/// Sorting keeps the colour slots apart.
proof fn lemma_settled_keeps(a: StoreView, b: StoreView)
    requires
        slots_distinct(a),
        settled(a, b),
    ensures
        slots_distinct(b),
{
    assert forall|n: Seq<char>| b.runs.contains_key(n) implies (
    #[trigger] b.runs[n]).color_slot == a.runs[n].color_slot by {
        assert(a.runs.contains_key(n));
        assert(run_settled(a.runs[n], b.runs[n]));
    }
    assert forall|n: Seq<char>| b.runs.contains_key(n) implies 0 <= (
    #[trigger] b.runs[n]).color_slot < b.next_color_slot by {
        assert(a.runs.contains_key(n));
        assert(a.runs[n].color_slot == b.runs[n].color_slot);
    }
}

// ---------------------------------------------------------------------------
// Thinning
// ---------------------------------------------------------------------------
/// A run with every series thinned to at most `cap` points.
pub open spec fn run_thinned(run: RunView, cap: int) -> RunView {
    RunView { series: run.series.map_values(|h: series::Held| series::thinned(h, cap)), ..run }
}

/// The store with every series thinned to at most `cap` points.
pub open spec fn store_thinned(st: StoreView, cap: int) -> StoreView {
    StoreView { runs: st.runs.map_values(|run: RunView| run_thinned(run, cap)), ..st }
}

/// The largest stride of the series, or 1 if there are none.
pub open spec fn largest_stride(st: StoreView, r: int) -> bool {
    &&& r >= 1
    &&& forall|name: Seq<char>, tag: Seq<char>|
        st.runs.contains_key(name) && st.runs[name].series.contains_key(tag)
            ==> (#[trigger] st.runs[name].series[tag]).stride <= r
    &&& r == 1 || exists|name: Seq<char>, tag: Seq<char>|
        st.runs.contains_key(name) && st.runs[name].series.contains_key(tag) && (
        #[trigger] st.runs[name].series[tag]).stride == r
}

/// Thin every series of a run.
fn thin_series(m: &mut NameMap<Series>, cap: usize)
    requires
        series_wf(*old(m)),
    ensures
        series_wf(*final(m)),
        final(m).names@ == old(m).names@,
        forall|i: int|
            0 <= i < old(m).vals@.len() ==> (#[trigger] final(m).vals@[i]).held()
                == series::thinned(old(m).vals@[i].held(), cap as int),
{
    let mut i: usize = 0;
    while i < m.vals.len()
        invariant
            i <= m.vals@.len(),
            series_wf(*old(m)),
            series_wf(*m),
            m.names@ == old(m).names@,
            m.vals@.len() == old(m).vals@.len(),
            forall|k: int|
                0 <= k < i ==> (#[trigger] m.vals@[k]).held() == series::thinned(
                    old(m).vals@[k].held(),
                    cap as int,
                ),
            forall|k: int| i <= k < m.vals@.len() ==> #[trigger] m.vals@[k] == old(m).vals@[k],
        decreases m.vals.len() - i,
    {
        let ghost was = *m;
        let s: &mut Series = &mut m.vals[i];
        s.thin(cap);
        proof {
            lemma_series_replaced(was, *m, i as int, m.vals@[i as int]);
        }
        i = i + 1;
    }
}

/// A run whose series have been thinned one by one is the run thinned.
proof fn lemma_run_thinned(a: Run, b: Run, cap: int)
    requires
        a.wf(),
        series_wf(b.series),
        b.files == a.files,
        b.first_wall == a.first_wall,
        b.color_slot == a.color_slot,
        b.series.names@ == a.series.names@,
        forall|i: int|
            0 <= i < a.series.vals@.len() ==> (#[trigger] b.series.vals@[i]).held()
                == series::thinned(a.series.vals@[i].held(), cap),
    ensures
        b@ == run_thinned(a@, cap),
{
    let want = run_thinned(a@, cap).series;
    assert(a.series.keys() == b.series.keys());
    assert forall|tag: Seq<char>| a@.series.contains_key(tag) implies #[trigger] b@.series[tag]
        == want[tag] by {
        let i = names::lemma_key_position(a.series, tag);
        b.series.lemma_position(i);
        assert(b.series.vals@[i].held() == b@.series[tag]);
    }
    assert(b@.series =~= want);
}

impl Store {
    /// Thin every series that has more than `cap` points, so that what one
    /// very long run costs is bounded. Where `cap` is 0, every point is kept.
    pub fn thin(&mut self, cap: usize)
        requires
            old(self).wf(),
        ensures
            final(self).wf(),
            final(self)@ == store_thinned(old(self)@, cap as int),
    {
        let ghost st = self@;
        let ghost was = self.runs;
        let mut i: usize = 0;
        while i < self.runs.vals.len()
            invariant
                i <= self.runs.vals@.len(),
                was == old(self).runs,
                runs_wf(was),
                runs_wf(self.runs),
                self.logdir == old(self).logdir,
                self.next_color_slot == old(self).next_color_slot,
                self.version == old(self).version,
                self.total_points == old(self).total_points,
                self.errors == old(self).errors,
                self.runs.names@ == was.names@,
                self.runs.vals@.len() == was.vals@.len(),
                forall|k: int|
                    0 <= k < i ==> (#[trigger] self.runs.vals@[k])@ == run_thinned(
                        was.vals@[k]@,
                        cap as int,
                    ),
                forall|k: int|
                    i <= k < self.runs.vals@.len() ==> #[trigger] self.runs.vals@[k]
                        == was.vals@[k],
            decreases self.runs.vals.len() - i,
        {
            let ghost before = self.runs;
            let run: &mut Run = &mut self.runs.vals[i];
            thin_series(&mut run.series, cap);
            proof {
                let run = self.runs.vals@[i as int];
                lemma_run_thinned(before.vals@[i as int], run, cap as int);
                lemma_run_replaced(before, self.runs, i as int, run);
            }
            i = i + 1;
        }
        proof {
            let want = store_thinned(st, cap as int);
            assert(self.runs.keys() == was.keys());
            assert forall|name: Seq<char>| st.runs.contains_key(name) implies
                #[trigger] self@.runs[name] == want.runs[name] by {
                let k = names::lemma_key_position(was, name);
                self.runs.lemma_position(k);
                assert(self.runs.vals@[k]@ == self@.runs[name]);
            }
            assert(self@.runs =~= want.runs);
        }
    }

    /// The largest stride with which a series is thinned; 1 where none is.
    pub fn max_stride(&self) -> (r: u64)
        requires
            self.wf(),
        ensures
            largest_stride(self@, r as int),
    {
        let mut best: u64 = 1;
        let mut i: usize = 0;
        while i < self.runs.vals.len()
            invariant
                self.wf(),
                i <= self.runs.vals@.len(),
                best >= 1,
                forall|k: int, j: int|
                    0 <= k < i && 0 <= j < self.runs.vals@[k].series.vals@.len() ==> (
                    #[trigger] self.runs.vals@[k].series.vals@[j]).stride <= best,
                best == 1 || exists|k: int, j: int|
                    0 <= k < self.runs.vals@.len() && 0 <= j
                        < self.runs.vals@[k].series.vals@.len() && (
                    #[trigger] self.runs.vals@[k].series.vals@[j]).stride == best,
            decreases self.runs.vals.len() - i,
        {
            let m: &NameMap<Series> = &self.runs.vals[i].series;
            let mut j: usize = 0;
            while j < m.vals.len()
                invariant
                    self.wf(),
                    i < self.runs.vals@.len(),
                    *m == self.runs.vals@[i as int].series,
                    j <= m.vals@.len(),
                    best >= 1,
                    forall|k: int, l: int|
                        0 <= k < i && 0 <= l < self.runs.vals@[k].series.vals@.len() ==> (
                        #[trigger] self.runs.vals@[k].series.vals@[l]).stride <= best,
                    forall|l: int|
                        0 <= l < j ==> (#[trigger] self.runs.vals@[i as int].series.vals@[l]).stride
                            <= best,
                    best == 1 || exists|k: int, l: int|
                        0 <= k < self.runs.vals@.len() && 0 <= l
                            < self.runs.vals@[k].series.vals@.len() && (
                        #[trigger] self.runs.vals@[k].series.vals@[l]).stride == best,
                decreases m.vals.len() - j,
            {
                if m.vals[j].stride > best {
                    best = m.vals[j].stride;
                    assert(self.runs.vals@[i as int].series.vals@[j as int].stride == best);
                }
                j = j + 1;
            }
            i = i + 1;
        }
        proof {
            lemma_largest_stride(*self, best as int);
        }
        best
    }
}

proof fn lemma_largest_stride(s: Store, r: int)
    requires
        s.wf(),
        r >= 1,
        forall|k: int, j: int|
            0 <= k < s.runs.vals@.len() && 0 <= j < s.runs.vals@[k].series.vals@.len() ==> (
            #[trigger] s.runs.vals@[k].series.vals@[j]).stride <= r,
        r == 1 || exists|k: int, j: int|
            0 <= k < s.runs.vals@.len() && 0 <= j < s.runs.vals@[k].series.vals@.len() && (
            #[trigger] s.runs.vals@[k].series.vals@[j]).stride == r,
    ensures
        largest_stride(s@, r),
{
    assert forall|name: Seq<char>, tag: Seq<char>|
        s@.runs.contains_key(name) && s@.runs[name].series.contains_key(tag) implies (
    #[trigger] s@.runs[name].series[tag]).stride <= r by {
        let k = names::lemma_key_position(s.runs, name);
        let j = names::lemma_key_position(s.runs.vals@[k].series, tag);
        assert(s.runs.vals@[k].series.vals@[j].stride <= r);
    }
    if r != 1 {
        let (k, j) = choose|k: int, j: int|
            0 <= k < s.runs.vals@.len() && 0 <= j < s.runs.vals@[k].series.vals@.len() && (
            #[trigger] s.runs.vals@[k].series.vals@[j]).stride == r;
        s.runs.lemma_position(k);
        s.runs.vals@[k].series.lemma_position(j);
        let name = s.runs.names@[k]@;
        let tag = s.runs.vals@[k].series.names@[j]@;
        assert(s@.runs[name].series[tag].stride == r);
    }
}

} // verus!
