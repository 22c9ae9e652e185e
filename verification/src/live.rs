//! What the two loops of the viewer decide: the one that loads files and the
//! one that draws and takes keys.
use vstd::prelude::*;

use crate::app;
use crate::app::App;
use crate::text;

verus! {

// ---------------------------------------------------------------------------
// Loading
// ---------------------------------------------------------------------------
/// How far the loader has come.
#[derive(Clone, Copy, PartialEq, Eq, Structural, Debug)]
pub struct Loader {
    /// Nothing has been loaded yet.
    pub first: bool,
    /// There is something to show.
    pub loaded: bool,
}

/// What the loader does next.
#[derive(Clone, Copy, PartialEq, Eq, Structural, Debug)]
pub enum LoaderAction {
    Leave,
    /// Look for files, and load what is new in them.
    Scan,
    /// Wait until the next time, or until woken.
    Wait,
}

impl Loader {
    pub fn new() -> (r: Self)
        ensures
            r == (Loader { first: true, loaded: false }),
    {
        Loader { first: true, loaded: false }
    }

    /// What comes next: files are looked at the first time in any case, and
    /// later while they are followed.
    pub open spec fn next_action(self, stop: bool, follow: bool) -> LoaderAction {
        if stop {
            LoaderAction::Leave
        } else if self.first || follow {
            LoaderAction::Scan
        } else {
            LoaderAction::Wait
        }
    }

    pub fn next(&self, stop: bool, follow: bool) -> (r: LoaderAction)
        ensures
            r == self.next_action(stop, follow),
    {
        if stop {
            LoaderAction::Leave
        } else if self.first || follow {
            LoaderAction::Scan
        } else {
            LoaderAction::Wait
        }
    }

    /// The state once the files are known: if there are any, runs and tags can
    /// be shown while their points are still being read.
    pub open spec fn after_scan(self, files: int) -> Loader {
        if self.first && files > 0 {
            Loader { first: false, loaded: true }
        } else {
            self
        }
    }

    pub fn scanned(&mut self, files: usize)
        ensures
            *final(self) == old(self).after_scan(files as int),
    {
        if self.first && files > 0 {
            self.first = false;
            self.loaded = true;
        }
    }

    /// The state once all files have been read.
    pub open spec fn after_pass(self) -> Loader {
        if self.first {
            Loader { first: false, loaded: true }
        } else {
            self
        }
    }

    pub fn passed(&mut self)
        ensures
            *final(self) == old(self).after_pass(),
    {
        if self.first {
            self.first = false;
            self.loaded = true;
        }
    }
}

/// After one pass there is something to show, whether files were found or not,
/// and from then on files are looked at only while they are followed.
pub proof fn law_one_pass_loads(files: int)
    ensures
        ({
            let l = (Loader { first: true, loaded: false }).after_scan(files).after_pass();
            &&& l.loaded
            &&& l.next_action(false, false) == LoaderAction::Wait
            &&& l.next_action(false, true) == LoaderAction::Scan
            &&& l.after_scan(files) == l
            &&& l.after_pass() == l
        }),
{
}

// ---------------------------------------------------------------------------
// Drawing
// ---------------------------------------------------------------------------
/// What the drawing loop keeps.
#[derive(Clone, Copy, PartialEq, Eq, Structural, Debug)]
pub struct Screen {
    /// The version of the data that was seen last, if any was.
    pub seen: Option<u64>,
    /// What is on the screen is out of date.
    pub dirty: bool,
}

/// The message when the cap first hides runs.
pub open spec fn capped_text(total: nat, max: nat) -> Seq<char> {
    text::decimal(total) + " runs found — showing the first "@ + text::decimal(max)
        + ". Shift-Tab for RUNS, then Space to add, / to filter"@
}

/// The state after a look at the loader: runs that are new have their default,
/// and a message says so when the cap first hides some.
pub open spec fn looked(
    a: app::AppView,
    loaded: bool,
    names: Seq<Seq<char>>,
    now: int,
) -> app::AppView {
    let b = app::synced(app::AppView { loaded, ..a }, names);
    match (a.capped_notice, b.capped_notice) {
        (None, Some(total)) => app::flashed(
            b,
            capped_text(total as nat, b.max_runs as nat),
            now,
        ),
        _ => b,
    }
}

/// The screen after a look at the loader: it is out of date where the data
/// changed or a message came up.
pub open spec fn screen_looked(
    s: Screen,
    a: app::AppView,
    version: u64,
    names: Seq<Seq<char>>,
) -> Screen {
    let noticed = a.capped_notice is None && app::synced(a, names).capped_notice is Some;
    Screen {
        seen: Some(version),
        dirty: s.dirty || s.seen != Some(version) || noticed,
    }
}

/// What is drawn now: `Some` with whether the loader is shown as busy.
pub open spec fn draw_now(s: Screen, loaded: bool, busy: bool) -> Option<bool> {
    if !loaded {
        Some(true)
    } else if s.dirty {
        Some(busy)
    } else {
        None
    }
}

impl Screen {
    pub fn new() -> (r: Self)
        ensures
            r == (Screen { seen: None, dirty: true }),
    {
        Screen { seen: None, dirty: true }
    }

    /// Look at what the loader has done.
    #[verifier::rlimit(40)]
    pub fn look(
        &mut self,
        app: &mut App,
        loaded: bool,
        version: u64,
        run_names: &[String],
        now: u64,
    )
        requires
            old(app).wf(),
            now + 2500 <= u64::MAX,
        ensures
            final(app).wf(),
            final(app)@.equals(looked(old(app)@, loaded, text::texts(run_names@), now as int)),
            *final(self) == screen_looked(
                *old(self),
                old(app)@,
                version,
                text::texts(run_names@),
            ),
    {
        app.loaded = loaded;
        match self.seen {
            Some(v) => {
                if v != version {
                    self.dirty = true;
                }
            },
            None => {
                self.dirty = true;
            },
        }
        self.seen = Some(version);
        let unnoticed: bool = app.capped_notice.is_none();
        app.sync_runs(run_names);
        if unnoticed {
            if let Some(total) = app.capped_notice {
                let mut msg: String = String::new();
                text::push_decimal(&mut msg, total as u64);
                msg.append(" runs found — showing the first ");
                text::push_decimal(&mut msg, app.max_runs as u64);
                msg.append(". Shift-Tab for RUNS, then Space to add, / to filter");
                assert(msg@ =~= capped_text(total as nat, app.max_runs as nat));
                app.flash(msg.as_str(), now);
                self.dirty = true;
            }
        }
    }

    /// Whether to draw now, and whether the loader is shown as busy then. What
    /// is drawn is up to date.
    pub fn take_draw(&mut self, loaded: bool, busy: bool) -> (r: Option<bool>)
        ensures
            r == draw_now(*old(self), loaded, busy),
            final(self).seen == old(self).seen,
            final(self).dirty == (old(self).dirty && !loaded),
    {
        if !loaded {
            return Some(true);
        }
        if self.dirty {
            self.dirty = false;
            return Some(busy);
        }
        None
    }

    /// The screen has another size.
    pub fn resized(&mut self)
        ensures
            *final(self) == (Screen { dirty: true, ..*old(self) }),
    {
        self.dirty = true;
    }
}

/// What is to be done after a key.
#[derive(Clone, Copy, PartialEq, Eq, Structural, Debug)]
pub struct AfterKey {
    /// Wake the loader.
    pub wake: bool,
    /// Files are followed.
    pub follow: bool,
    /// Leave.
    pub quit: bool,
}

/// What a key leaves to be done. A reload that was asked for is passed on
/// once.
#[verifier::rlimit(40)]
pub fn settle_key(app: &mut App, screen: &mut Screen) -> (r: AfterKey)
    requires
        old(app).wf(),
    ensures
        final(app).wf(),
        final(app)@.equals((app::AppView { reload_requested: false, ..old(app)@ })),
        r == (AfterKey {
            wake: old(app)@.reload_requested,
            follow: old(app)@.follow,
            quit: old(app)@.quit,
        }),
        *final(screen) == (Screen { dirty: true, ..*old(screen) }),
{
    let wake: bool = app.reload_requested;
    app.reload_requested = false;
    screen.dirty = true;
    AfterKey { wake, follow: app.follow, quit: app.quit }
}

/// Once loaded, nothing is drawn twice: after a frame has been drawn there is
/// none to draw until something changes.
pub proof fn law_nothing_is_drawn_twice(s: Screen, busy: bool, version: u64)
    requires
        s.dirty,
        s.seen == Some(version),
    ensures
        draw_now(s, true, busy) is Some,
        draw_now(Screen { dirty: false, ..s }, true, busy) is None,
{
}


/// The loader leaves when it is told to, and only then; else it looks for files
/// the first time, and later whenever they are followed.
pub proof fn law_loader_decides(l: Loader, stop: bool, follow: bool)
    ensures
        stop <==> l.next_action(stop, follow) == LoaderAction::Leave,
        !stop && (l.first || follow) <==> l.next_action(stop, follow) == LoaderAction::Scan,
        !stop && !l.first && !follow <==> l.next_action(stop, follow) == LoaderAction::Wait,
{
}

/// As soon as files are found there is something to show, and where none are
/// found it takes the whole pass.
pub proof fn law_first_scan(files: int)
    requires
        0 <= files,
    ensures
        ({
            let l = Loader { first: true, loaded: false };
            &&& l.after_scan(files).loaded <==> files > 0
            &&& l.after_scan(0) == l
            &&& l.after_pass().loaded
            &&& !l.after_pass().first
        }),
{
}

/// The screen is out of date if it was, if the data has another version, or if
/// a message came up, and not otherwise; the version that was seen is kept.
pub proof fn law_screen_is_out_of_date(
    s: Screen,
    a: app::AppView,
    version: u64,
    names: Seq<Seq<char>>,
)
    ensures
        ({
            let t = screen_looked(s, a, version, names);
            &&& t.seen == Some(version)
            &&& s.dirty ==> t.dirty
            &&& s.seen is None ==> t.dirty
            &&& s.seen matches Some(v) ==> v != version ==> t.dirty
            &&& !s.dirty && s.seen == Some(version) && app::synced(a, names).capped_notice
                == a.capped_notice ==> !t.dirty
            &&& a.capped_notice is None && app::synced(a, names).capped_notice is Some ==> t.dirty
            &&& screen_looked(t, app::synced(a, names), version, names).dirty == t.dirty
        }),
{
    crate::app_laws::law_sync_is_idempotent(a, names);
}

/// Before anything is loaded the loader is shown as busy, and a frame is drawn
/// every time; later a frame is drawn if the screen is out of date, and shows
/// whether the loader is.
pub proof fn law_when_to_draw(s: Screen, busy: bool)
    ensures
        draw_now(s, false, busy) == Some(true),
        s.dirty ==> draw_now(s, true, busy) == Some(busy),
        !s.dirty ==> draw_now(s, true, busy) is None,
{
}

/// A look at the loader says once, for two and a half seconds, how many runs
/// there are when the cap first hides some, and changes nothing but the runs.
pub proof fn law_look_announces_the_cap(
    a: app::AppView,
    loaded: bool,
    names: Seq<Seq<char>>,
    now: int,
)
    ensures
        ({
            let b = app::synced(a, names);
            let c = looked(a, loaded, names, now);
            let news = a.capped_notice is None && b.capped_notice is Some;
            &&& c.loaded == loaded
            &&& c.disabled == b.disabled
            &&& c.known_runs == b.known_runs
            &&& c.capped_notice == b.capped_notice
            &&& !news ==> c.equals(app::AppView { loaded, ..b })
            &&& news ==> c.equals(
                app::AppView {
                    loaded,
                    flash_msg: text::decimal(b.capped_notice->0 as nat)
                        + " runs found — showing the first "@ + text::decimal(a.max_runs as nat)
                        + ". Shift-Tab for RUNS, then Space to add, / to filter"@,
                    flash_until: now + 2500,
                    ..b
                },
            )
        }),
{
}

} // verus!
