use ttb::names::{NameMap, NameSet};
use ttb::series::Series;
use ttb::store::{has_grown, is_event_file, FileRead, Pending, Store};
use ttb::tfevents::Scalar;
use ttb::writer::{encode_scalar_event, frame_record};

fn record(tag: &str, step: i64, wall: f64, value: f32) -> Vec<u8> {
    frame_record(&encode_scalar_event(tag, step, wall.to_bits(), value.to_bits(), false))
}

/// A log directory: each file with its directory, its name and its bytes.
struct Disk {
    files: Vec<(String, String, Vec<u8>)>,
}

impl Disk {
    fn new() -> Self {
        Disk { files: Vec::new() }
    }

    fn write(&mut self, dir: &str, name: &str, bytes: &[u8]) {
        match self.files.iter_mut().find(|f| f.0 == dir && f.1 == name) {
            Some(f) => f.2.extend_from_slice(bytes),
            None => self.files.push((dir.to_string(), name.to_string(), bytes.to_vec())),
        }
    }

    fn path(dir: &str, name: &str) -> String {
        format!("/logs/{}/{}", dir, name)
    }

    fn refresh(&self, store: &mut Store) -> bool {
        for (dir, name, _) in &self.files {
            store.discover(dir, name, &Disk::path(dir, name));
        }
        let pending = store.pending_files();
        let reads: Vec<FileRead> = pending.iter().map(|p| self.read(p)).collect();
        store.refresh(&pending, &reads)
    }

    fn read(&self, p: &Pending) -> FileRead {
        match self.files.iter().find(|f| Disk::path(&f.0, &f.1) == p.path) {
            None => FileRead::Skipped,
            Some(f) if !has_grown(f.2.len() as u64, p.offset) => FileRead::Skipped,
            Some(f) => FileRead::Data(f.2[p.offset as usize..].to_vec()),
        }
    }
}

fn steps(store: &Store, run: &str, tag: &str) -> Vec<i64> {
    store.runs.get(run).unwrap().series.get(tag).unwrap().steps.clone()
}

fn slot(store: &Store, run: &str) -> usize {
    store.runs.get(run).unwrap().color_slot
}

#[test]
fn incremental_refresh() {
    let mut disk = Disk::new();
    disk.write("run1", "events.out.tfevents.123.host", &record("loss", 1, 1.0, 0.9));

    let mut store = Store::new("/logs");
    assert!(disk.refresh(&mut store));
    assert_eq!(store.run_names(), vec!["run1"]);
    assert_eq!(steps(&store, "run1", "loss"), vec![1]);

    disk.write("run1", "events.out.tfevents.123.host", &record("loss", 2, 2.0, 0.8));
    assert!(disk.refresh(&mut store));
    assert_eq!(steps(&store, "run1", "loss"), vec![1, 2]);
    assert!(!disk.refresh(&mut store)); // nothing new
}

#[test]
fn a_new_run_does_not_repaint_the_existing_ones() {
    let mut disk = Disk::new();
    // "zzz" sorts last now, but "aaa" appearing later must not take its slot
    for name in ["mmm", "zzz"] {
        disk.write(name, "events.out.tfevents.1.h", &record("loss", 1, 1.0, 0.5));
    }
    let mut store = Store::new("/logs");
    disk.refresh(&mut store);
    let (mmm, zzz) = (slot(&store, "mmm"), slot(&store, "zzz"));
    assert_ne!(mmm, zzz, "runs discovered together get different slots");

    // a run appearing later sorts first alphabetically but takes a fresh slot
    disk.write("aaa", "events.out.tfevents.1.h", &record("loss", 1, 1.0, 0.5));
    disk.refresh(&mut store);
    assert_eq!(slot(&store, "mmm"), mmm, "existing run was repainted");
    assert_eq!(slot(&store, "zzz"), zzz, "existing run was repainted");
    let aaa = slot(&store, "aaa");
    assert!(aaa != mmm && aaa != zzz, "new run reused a taken slot");
}

#[test]
fn out_of_order_steps_sorted() {
    let mut s = Series::default();
    for (step, val) in [(5i64, 0.5f64), (1, 0.1), (3, 0.3)] {
        s.push(step, (step as f64).to_bits(), Scalar::Double(val.to_bits()));
    }
    s.ensure_sorted();
    assert_eq!(s.steps, vec![1, 3, 5]);
    let want: Vec<Scalar> = [0.1f64, 0.3, 0.5].iter().map(|v| Scalar::Double(v.to_bits())).collect();
    assert_eq!(s.vals, want);
    let walls: Vec<f64> = s.walls.iter().map(|w| f64::from_bits(*w)).collect();
    assert_eq!(walls, vec![1.0, 3.0, 5.0]);
}

#[test]
fn equal_steps_keep_their_order() {
    let mut s = Series::default();
    for (i, step) in [3i64, 1, 3, 1, 2].iter().enumerate() {
        s.push(*step, i as u64, Scalar::Int(i as i64));
    }
    s.ensure_sorted();
    assert_eq!(s.steps, vec![1, 1, 2, 3, 3]);
    assert_eq!(s.walls, vec![1, 3, 4, 0, 2]);
    assert_eq!(s.len(), 5);
    assert!(!s.is_empty());
    assert!(Series::default().is_empty());
}

#[test]
fn sorting_in_instalments_is_sorting_at_once() {
    let points = [4i64, 2, 9, 2, 1, 9, 0];
    let mut once = Series::default();
    let mut twice = Series::default();
    for (i, step) in points.iter().enumerate() {
        once.push(*step, i as u64, Scalar::Int(0));
        twice.push(*step, i as u64, Scalar::Int(0));
        if i == 3 {
            twice.ensure_sorted();
        }
    }
    once.ensure_sorted();
    twice.ensure_sorted();
    assert_eq!(once.steps, twice.steps);
    assert_eq!(once.walls, twice.walls);
}

#[test]
fn event_files_are_told_by_their_names() {
    assert!(is_event_file("events.out.tfevents.123.host"));
    assert!(is_event_file("tfevents"));
    assert!(!is_event_file("events.out"));
    assert!(!is_event_file("x.tfevents.profile-empty"));
    assert!(is_event_file("x.tfevents.profile-empty.1"));
}

#[test]
fn files_at_the_top_are_the_run_dot() {
    let mut disk = Disk::new();
    disk.write("", "a.tfevents", &record("x", 1, 1.0, 0.5));
    disk.write("a/b", "a.tfevents", &record("y", 1, 1.0, 0.5));
    disk.write("a/b", "notes.txt", b"hello");
    let mut store = Store::new("/logs");
    assert!(disk.refresh(&mut store));
    assert_eq!(store.run_names(), vec![".", "a/b"]);
    assert_eq!(store.total_points, 2);
    assert_eq!(store.version, 2);
    assert_eq!(store.pending_files().len(), 2);
}

#[test]
fn a_corrupt_file_is_given_up() {
    let mut disk = Disk::new();
    let mut bytes = record("loss", 1, 1.0, 0.5);
    let good = bytes.len() as u64;
    let mut bad = record("loss", 2, 2.0, 0.6);
    bad[12] = 0x0B;
    bytes.extend(bad);
    disk.write("r", "e.tfevents", &bytes);
    let mut store = Store::new("/logs");
    assert!(disk.refresh(&mut store));
    assert_eq!(store.errors, vec!["/logs/r/e.tfevents: corrupt record"]);
    assert_eq!(store.runs.get("r").unwrap().files.get("/logs/r/e.tfevents").unwrap().offset, good);
    assert!(store.pending_files().is_empty());
    // what is appended later is not looked at
    disk.write("r", "e.tfevents", &record("loss", 3, 3.0, 0.7));
    assert!(!disk.refresh(&mut store));
    assert_eq!(steps(&store, "r", "loss"), vec![1]);
}

#[test]
fn a_file_that_cannot_be_read_is_given_up() {
    let mut store = Store::new("/logs");
    store.discover("r", "e.tfevents", "/logs/r/e.tfevents");
    let pending = store.pending_files();
    assert!(!store.refresh(&pending, &vec![FileRead::Failed("no access".to_string())]));
    assert_eq!(store.errors, vec!["/logs/r/e.tfevents: no access"]);
    assert!(store.pending_files().is_empty());
    assert_eq!(store.version, 0);
}

#[test]
fn a_half_written_record_is_read_when_it_is_whole() {
    let rec = record("loss", 7, 1.0, 0.5);
    let mut disk = Disk::new();
    disk.write("r", "e.tfevents", &rec[..10]);
    let mut store = Store::new("/logs");
    assert!(!disk.refresh(&mut store));
    disk.write("r", "e.tfevents", &rec[10..]);
    assert!(disk.refresh(&mut store));
    assert_eq!(steps(&store, "r", "loss"), vec![7]);
}

#[test]
fn reading_in_chunks_is_reading_at_once() {
    let mut whole = Vec::new();
    for i in 0..12i64 {
        whole.extend(record(if i % 2 == 0 { "a" } else { "b" }, (i * 5) % 7, i as f64, 0.5));
    }
    let mut once = Disk::new();
    once.write("r", "e.tfevents", &whole);
    let mut first = Store::new("/logs");
    once.refresh(&mut first);

    let mut second = Store::new("/logs");
    let mut parts = Disk::new();
    for part in whole.chunks(23) {
        parts.write("r", "e.tfevents", part);
        parts.refresh(&mut second);
    }
    for tag in ["a", "b"] {
        assert_eq!(steps(&first, "r", tag), steps(&second, "r", tag));
    }
    assert_eq!(first.total_points, second.total_points);
}

#[test]
fn the_first_wall_time_is_the_earliest_but_zero() {
    let mut disk = Disk::new();
    let mut bytes = record("x", 1, 0.0, 0.5);
    for w in [5.0, 3.0, 4.0] {
        bytes.extend(record("x", 1, w, 0.5));
    }
    disk.write("r", "e.tfevents", &bytes);
    let mut store = Store::new("/logs");
    disk.refresh(&mut store);
    let first = store.runs.get("r").unwrap().first_wall.map(f64::from_bits);
    assert_eq!(first, Some(3.0));

    let mut disk = Disk::new();
    disk.write("r", "e.tfevents", &record("x", 1, -0.0, 0.5));
    let mut store = Store::new("/logs");
    disk.refresh(&mut store);
    assert_eq!(store.runs.get("r").unwrap().first_wall, None);
}

#[test]
fn a_tag_that_is_no_text_has_a_stand_in() {
    let mut ev = vec![0x10, 1, 0x2A, 11, 0x0A, 9, 0x0A, 2, 0xff, 0xfe, 0x15];
    ev.extend_from_slice(&0.5f32.to_le_bytes());
    let mut disk = Disk::new();
    disk.write("r", "e.tfevents", &frame_record(&ev));
    disk.write("r", "e.tfevents", &record("größe", 1, 1.0, 0.5));
    let mut store = Store::new("/logs");
    assert!(disk.refresh(&mut store));
    let run = store.runs.get("r").unwrap();
    assert!(run.series.contains("<invalid-utf8>"));
    assert!(run.series.contains("größe"));
    assert_eq!(run.series.len(), 2);
}

#[test]
fn tags_are_those_of_the_enabled_runs() {
    let mut disk = Disk::new();
    disk.write("a", "e.tfevents", &record("z", 1, 1.0, 0.5));
    disk.write("a", "e.tfevents", &record("m", 1, 1.0, 0.5));
    disk.write("b", "e.tfevents", &record("m", 1, 1.0, 0.5));
    disk.write("b", "e.tfevents", &record("a", 1, 1.0, 0.5));
    disk.write("c", "e.tfevents", &record("q", 1, 1.0, 0.5));
    let mut store = Store::new("/logs");
    disk.refresh(&mut store);
    let mut on = NameSet::new();
    assert!(store.tags(&on).is_empty());
    on.insert("a");
    on.insert("b");
    on.insert("other");
    assert_eq!(store.tags(&on), vec!["a", "m", "z"]);
}

#[test]
fn names_are_found_in_order() {
    let mut m: NameMap<u32> = NameMap::new();
    for (i, name) in ["m", "b", "é", "z", "", "ab"].iter().enumerate() {
        m.put(name, i as u32);
    }
    m.put("b", 9);
    assert_eq!(m.names, vec!["", "ab", "b", "m", "z", "é"]);
    assert_eq!(m.get("b"), Some(&9));
    assert_eq!(m.get("c"), None);
    assert_eq!(m.find("c"), Err(3));
    assert_eq!(m.len(), 6);
    let mut s = NameSet::new();
    assert!(s.insert("x"));
    assert!(!s.insert("x"));
    assert!(s.remove("x"));
    assert!(!s.remove("x"));
    assert_eq!(s.len(), 0);
}

fn long_series(n: i64) -> Series {
    let mut s = Series::default();
    for i in 0..n {
        s.push(i, i as u64, Scalar::Int(i));
    }
    s
}

#[test]
fn a_long_series_is_thinned_evenly() {
    let mut s = long_series(10);
    s.thin(5);
    assert_eq!(s.steps, vec![0, 2, 4, 6, 8]);
    assert_eq!((s.stride, s.skip), (2, 0));
    for i in 10..15 {
        s.push(i, i as u64, Scalar::Int(i));
    }
    assert_eq!(s.steps, vec![0, 2, 4, 6, 8, 10, 12, 14]);
    s.thin(5);
    assert_eq!(s.steps, vec![0, 4, 8, 12]);
    assert_eq!((s.stride, s.skip), (4, 1));
    s.push(15, 15, Scalar::Int(15));
    s.push(16, 16, Scalar::Int(16));
    assert_eq!(s.steps, vec![0, 4, 8, 12, 16]);
    assert_eq!(s.walls, vec![0, 4, 8, 12, 16]);

    let mut at_once = long_series(17);
    at_once.thin(5);
    assert_eq!(at_once.steps, s.steps);
    assert_eq!((at_once.stride, at_once.skip), (s.stride, s.skip));

    let mut one = long_series(100);
    one.thin(1);
    assert_eq!(one.steps, vec![0]);
    let mut all = long_series(100);
    all.thin(0);
    assert_eq!(all.len(), 100);
    all.thin(100);
    assert_eq!((all.len(), all.stride), (100, 1));
}

#[test]
fn the_store_thins_every_series() {
    let mut disk = Disk::new();
    for i in 0..9 {
        disk.write("a", "e.tfevents", &record("x", i, 1.0, 0.5));
    }
    disk.write("b", "e.tfevents", &record("y", 1, 1.0, 0.5));
    let mut store = Store::new("/logs");
    assert_eq!(store.max_stride(), 1);
    disk.refresh(&mut store);
    store.thin(0);
    assert_eq!(store.max_stride(), 1);
    store.thin(3);
    assert_eq!(steps(&store, "a", "x"), vec![0, 4, 8]);
    assert_eq!(steps(&store, "b", "y"), vec![1]);
    assert_eq!(store.max_stride(), 4);
    assert_eq!(store.total_points, 10);
    for i in 9..13 {
        disk.write("a", "e.tfevents", &record("x", i, 1.0, 0.5));
    }
    assert!(disk.refresh(&mut store));
    assert_eq!(steps(&store, "a", "x"), vec![0, 4, 8, 12]);
    assert_eq!(store.total_points, 14);
}

#[test]
fn counts_slots_and_order_hold_after_every_refresh() {
    let mut disk = Disk::new();
    let mut store = Store::new("/logs");
    let mut highest: Option<usize> = None;
    for pass in 0..6i64 {
        let run = format!("run{}", 9 - pass);
        disk.write(&run, "e.tfevents", &record("x", pass, 1.0, 0.5));
        disk.write(&run, "e.tfevents", &record("y", 5, 1.0, 0.5));
        disk.write("run9", "e.tfevents", &record("x", 10 - pass, 1.0, 0.5));
        let (points, version) = (store.total_points, store.version);
        let before: Vec<(String, usize)> =
            store.run_names().into_iter().map(|n| (n.clone(), slot(&store, &n))).collect();
        let changed = disk.refresh(&mut store);
        assert_eq!(changed, store.total_points > points);
        assert_eq!(changed, store.version > version);
        for (name, s) in &before {
            assert_eq!(slot(&store, name), *s);
        }
        if !before.iter().any(|b| b.0 == run) {
            assert!(highest.map_or(true, |h| slot(&store, &run) > h));
            highest = Some(slot(&store, &run));
        }
        let held: usize = store.runs.vals.iter().flat_map(|r| r.series.vals.iter()).map(|s| s.len()).sum();
        assert_eq!(held as u64, store.total_points);
        for s in store.runs.vals.iter().flat_map(|r| r.series.vals.iter()) {
            assert!(s.steps.windows(2).all(|w| w[0] <= w[1]));
        }
    }
}
