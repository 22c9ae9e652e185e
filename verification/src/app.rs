//! Application state and key handling.
use vstd::prelude::*;

use crate::names::{NameMap, NameSet};
use crate::tag_laws;
use crate::tags;
use crate::tags::Row;
use crate::text;

verus! {

#[derive(Clone, Copy, PartialEq, Eq, Structural, Debug)]
pub enum Focus {
    Runs,
    Tags,
    Chart,
}

/// What the horizontal axis shows.
#[derive(Clone, Copy, PartialEq, Eq, Structural, Debug)]
pub enum XMode {
    Step,
    RelTime,
    Wall,
}

impl XMode {
    pub open spec fn after(self) -> XMode {
        match self {
            XMode::Step => XMode::RelTime,
            XMode::RelTime => XMode::Wall,
            XMode::Wall => XMode::Step,
        }
    }

    pub open spec fn name(self) -> Seq<char> {
        match self {
            XMode::Step => "step"@,
            XMode::RelTime => "reltime"@,
            XMode::Wall => "wall"@,
        }
    }

    pub fn next(self) -> (r: Self)
        ensures
            r == self.after(),
    {
        match self {
            XMode::Step => XMode::RelTime,
            XMode::RelTime => XMode::Wall,
            XMode::Wall => XMode::Step,
        }
    }

    pub fn label(self) -> (r: &'static str)
        ensures
            r@ == self.name(),
    {
        match self {
            XMode::Step => "step",
            XMode::RelTime => "reltime",
            XMode::Wall => "wall",
        }
    }
}

/// A key of the terminal.
#[derive(Clone, Copy, PartialEq, Eq, Structural, Debug)]
pub enum Key {
    Char(char),
    Enter,
    Esc,
    Backspace,
    Tab,
    BackTab,
    Up,
    Down,
    Left,
    Right,
    Home,
    End,
    Other,
}

/// A key, and whether Control was held with it.
#[derive(Clone, Copy, PartialEq, Eq, Structural, Debug)]
pub struct KeyPress {
    pub key: Key,
    pub ctrl: bool,
}

/// What a key asks of the part of the state that is measured in fractions:
/// the smoothing weight, the visible range, and the data cursor.
#[derive(Clone, Copy, PartialEq, Eq, Structural, Debug)]
pub enum ViewChange {
    Keep,
    LessSmoothing,
    MoreSmoothing,
    ZoomIn,
    ZoomOut,
    PanLeft,
    PanRight,
    /// The whole range, and no cursor.
    Reset,
    CursorLeft,
    CursorRight,
    CursorClear,
}

pub struct App {
    pub focus: Focus,
    pub run_sel: usize,
    pub tag_sel: usize,
    pub run_scroll: usize,
    pub tag_scroll: usize,
    pub disabled: NameSet,
    /// Runs seen at least once, so that the default is applied to each run
    /// exactly once and never fights a choice that was made since.
    pub known_runs: NameSet,
    /// How many runs are enabled by default; 0 means all of them.
    pub max_runs: usize,
    /// Set once, when the cap first hides something, to explain it.
    pub capped_notice: Option<usize>,
    pub filter_text: String,
    pub run_filter_text: String,
    pub filter_editing: bool,
    /// Which list is being filtered: runs or tags.
    pub filter_target: Focus,
    pub filter_backup: String,
    pub grid: bool,
    pub log_y: bool,
    pub sidebar: bool,
    pub follow: bool,
    pub xmode: XMode,
    /// Groups of the tag tree that were opened or closed by hand.
    pub opened: NameMap<bool>,
    pub help_visible: bool,
    pub loaded: bool,
    pub flash_msg: String,
    /// Until when the message is shown, in milliseconds.
    pub flash_until: u64,
    /// Set when an immediate reload is asked for.
    pub reload_requested: bool,
    pub quit: bool,
}

/// The state as a value.
pub struct AppView {
    pub focus: Focus,
    pub run_sel: int,
    pub tag_sel: int,
    pub run_scroll: int,
    pub tag_scroll: int,
    pub disabled: Set<Seq<char>>,
    pub known_runs: Set<Seq<char>>,
    pub max_runs: int,
    pub capped_notice: Option<usize>,
    pub filter_text: Seq<char>,
    pub run_filter_text: Seq<char>,
    pub filter_editing: bool,
    pub filter_target: Focus,
    pub filter_backup: Seq<char>,
    pub grid: bool,
    pub log_y: bool,
    pub sidebar: bool,
    pub follow: bool,
    pub xmode: XMode,
    pub opened: Map<Seq<char>, bool>,
    pub help_visible: bool,
    pub loaded: bool,
    pub flash_msg: Seq<char>,
    pub flash_until: int,
    pub reload_requested: bool,
    pub quit: bool,
}

impl View for App {
    type V = AppView;

    open spec fn view(&self) -> AppView {
        AppView {
            focus: self.focus,
            run_sel: self.run_sel as int,
            tag_sel: self.tag_sel as int,
            run_scroll: self.run_scroll as int,
            tag_scroll: self.tag_scroll as int,
            disabled: self.disabled@,
            known_runs: self.known_runs@,
            max_runs: self.max_runs as int,
            capped_notice: self.capped_notice,
            filter_text: self.filter_text@,
            run_filter_text: self.run_filter_text@,
            filter_editing: self.filter_editing,
            filter_target: self.filter_target,
            filter_backup: self.filter_backup@,
            grid: self.grid,
            log_y: self.log_y,
            sidebar: self.sidebar,
            follow: self.follow,
            xmode: self.xmode,
            opened: self.opened.map(),
            help_visible: self.help_visible,
            loaded: self.loaded,
            flash_msg: self.flash_msg@,
            flash_until: self.flash_until as int,
            reload_requested: self.reload_requested,
            quit: self.quit,
        }
    }
}

impl AppView {
    /// The two states are the same.
    pub open spec fn equals(self, other: AppView) -> bool {
        self == other
    }
}

/// The two outcomes are the same.
pub open spec fn same_outcome(x: (AppView, ViewChange), y: (AppView, ViewChange)) -> bool {
    x == y
}

impl App {
    pub open spec fn wf(&self) -> bool {
        self.disabled.wf() && self.known_runs.wf() && self.opened.wf()
    }
}

// ---------------------------------------------------------------------------
// Run filter
// ---------------------------------------------------------------------------
/// The names that pass, in their order.
pub open spec fn passing(
    names: Seq<Seq<char>>,
    lowered: Seq<Seq<char>>,
    needle: Seq<char>,
) -> Seq<Seq<char>>
    decreases names.len(),
{
    if names.len() == 0 {
        seq![]
    } else {
        let rest = passing(names.drop_last(), lowered, needle);
        if text::has_part(lowered[names.len() - 1], needle) {
            rest.push(names.last())
        } else {
            rest
        }
    }
}

/// The names in lower case.
pub open spec fn lowered(names: Seq<Seq<char>>) -> Seq<Seq<char>> {
    names.map_values(|n: Seq<char>| text::lowercase(n))
}

/// The names that a filter lists, in their order: all of them where it is
/// empty, else those that hold its text, upper and lower case alike.
pub open spec fn listed(names: Seq<Seq<char>>, filter: Seq<char>) -> Seq<Seq<char>> {
    if filter.len() == 0 {
        names
    } else {
        passing(names, lowered(names), text::lowercase(filter))
    }
}

/// The names whose lower-case form holds the needle. `low` holds the
/// lower-case forms.
pub fn keep_passing(names: &[String], low: &Vec<String>, needle: &str) -> (r: Vec<String>)
    requires
        low@.len() == names@.len(),
    ensures
        text::texts(r@) == passing(text::texts(names@), text::texts(low@), needle@),
{
    let mut out: Vec<String> = Vec::new();
    let ghost all = text::texts(names@);
    let ghost lows = text::texts(low@);
    let mut i: usize = 0;
    assert(all.take(0) =~= seq![]);
    assert(text::texts(out@) =~= seq![]);
    while i < names.len()
        invariant
            low@.len() == names@.len(),
            all == text::texts(names@),
            lows == text::texts(low@),
            i <= names@.len(),
            text::texts(out@) == passing(all.take(i as int), lows, needle@),
        decreases names.len() - i,
    {
        assert(all.take(i + 1).drop_last() =~= all.take(i as int));
        assert(all.take(i + 1).last() == names@[i as int]@);
        if text::contains(low[i].as_str(), needle) {
            let ghost before = out@;
            out.push(names[i].clone());
            assert(text::texts(out@) =~= text::texts(before).push(names@[i as int]@));
        }
        i = i + 1;
    }
    assert(all.take(i as int) =~= all);
    out
}

/// The names that a filter lists.
pub fn list_matching(names: &[String], filter: &str) -> (r: Vec<String>)
    ensures
        text::texts(r@) == listed(text::texts(names@), filter@),
{
    let plain: bool = text::char_count(filter) == 0;
    let mut low: Vec<String> = Vec::new();
    let mut i: usize = 0;
    let ghost all = text::texts(names@);
    if plain {
        let mut out: Vec<String> = Vec::new();
        while i < names.len()
            invariant
                all == text::texts(names@),
                i <= names@.len(),
                text::texts(out@) == all.take(i as int),
            decreases names.len() - i,
        {
            let ghost before = out@;
            out.push(names[i].clone());
            assert(text::texts(out@) =~= text::texts(before).push(names@[i as int]@));
            i = i + 1;
            assert(text::texts(out@) =~= all.take(i as int));
        }
        assert(all.take(i as int) =~= all);
        return out;
    }
    let needle: String = text::to_lowercase(filter);
    while i < names.len()
        invariant
            all == text::texts(names@),
            i <= names@.len(),
            text::texts(low@) == lowered(all).take(i as int),
        decreases names.len() - i,
    {
        let ghost before = low@;
        low.push(text::to_lowercase(names[i].as_str()));
        assert(text::texts(low@) =~= text::texts(before).push(lowered(all)[i as int]));
        i = i + 1;
        assert(text::texts(low@) =~= lowered(all).take(i as int));
    }
    assert(lowered(all).take(i as int) =~= lowered(all));
    assert(text::texts(low@).len() == low@.len());
    keep_passing(names, &low, needle.as_str())
}

// ---------------------------------------------------------------------------
// Default state of runs
// ---------------------------------------------------------------------------
/// How far the defaults have been handed out.
pub struct Handout {
    pub known: Set<Seq<char>>,
    pub disabled: Set<Seq<char>>,
    pub enabled: int,
    pub hidden: int,
}

/// How many of the names are known and not disabled.
pub open spec fn enabled_count(
    names: Seq<Seq<char>>,
    known: Set<Seq<char>>,
    disabled: Set<Seq<char>>,
) -> int
    decreases names.len(),
{
    if names.len() == 0 {
        0
    } else {
        enabled_count(names.drop_last(), known, disabled) + if known.contains(names.last())
            && !disabled.contains(names.last()) {
            1int
        } else {
            0int
        }
    }
}

/// A run that is not known yet is shown while there is room, else hidden.
pub open spec fn handed(h: Handout, max: int, name: Seq<char>) -> Handout {
    if h.known.contains(name) {
        h
    } else if h.enabled >= max {
        Handout {
            known: h.known.insert(name),
            disabled: h.disabled.insert(name),
            hidden: h.hidden + 1,
            ..h
        }
    } else {
        Handout { known: h.known.insert(name), enabled: h.enabled + 1, ..h }
    }
}

/// The defaults handed out to the runs in their order.
pub open spec fn handed_all(h: Handout, max: int, names: Seq<Seq<char>>) -> Handout
    decreases names.len(),
{
    if names.len() == 0 {
        h
    } else {
        handed(handed_all(h, max, names.drop_last()), max, names.last())
    }
}

/// The state once the runs with these names have been found.
pub open spec fn synced(a: AppView, names: Seq<Seq<char>>) -> AppView {
    if a.max_runs == 0 {
        a
    } else {
        let h = handed_all(
            Handout {
                known: a.known_runs,
                disabled: a.disabled,
                enabled: enabled_count(names, a.known_runs, a.disabled),
                hidden: 0,
            },
            a.max_runs,
            names,
        );
        AppView {
            known_runs: h.known,
            disabled: h.disabled,
            capped_notice: if h.hidden > 0 && a.capped_notice is None {
                Some(names.len() as usize)
            } else {
                a.capped_notice
            },
            ..a
        }
    }
}

/// Hand the defaults out to the runs in their order. Says how many were
/// hidden.
fn hand_out(
    known: &mut NameSet,
    disabled: &mut NameSet,
    shown: usize,
    max: usize,
    names: &[String],
) -> (hidden: usize)
    requires
        old(known).wf(),
        old(disabled).wf(),
    ensures
        final(known).wf(),
        final(disabled).wf(),
        ({
            let h = handed_all(
                Handout {
                    known: old(known)@,
                    disabled: old(disabled)@,
                    enabled: shown as int,
                    hidden: 0,
                },
                max as int,
                text::texts(names@),
            );
            h.known == final(known)@ && h.disabled == final(disabled)@ && h.hidden == hidden
        }),
        forall|i: int| 0 <= i < names@.len() ==> final(known)@.contains((#[trigger] names@[i])@),
{
    let ghost all = text::texts(names@);
    let ghost start = Handout {
        known: known@,
        disabled: disabled@,
        enabled: shown as int,
        hidden: 0,
    };
    let mut enabled: usize = shown;
    let mut hidden: usize = 0;
    let mut j: usize = 0;
    assert(all.take(0) =~= seq![]);
    while j < names.len()
        invariant
            known.wf(),
            disabled.wf(),
            all == text::texts(names@),
            j <= names@.len(),
            hidden <= j,
            forall|i: int| 0 <= i < j ==> known@.contains((#[trigger] names@[i])@),
            handed_all(start, max as int, all.take(j as int)) == (Handout {
                known: known@,
                disabled: disabled@,
                enabled: enabled as int,
                hidden: hidden as int,
            }),
        decreases names.len() - j,
    {
        assert(all.take(j + 1).drop_last() =~= all.take(j as int));
        assert(all.take(j + 1).last() == names@[j as int]@);
        let name: &str = names[j].as_str();
        if !known.contains(name) {
            known.insert(name);
            if enabled >= max {
                disabled.insert(name);
                hidden = hidden + 1;
            } else {
                enabled = enabled + 1;
            }
        }
        j = j + 1;
    }
    assert(all.take(j as int) =~= all);
    hidden
}

impl App {
    pub fn new(follow: bool, xmode: XMode, max_runs: usize) -> (r: Self)
        ensures
            r.wf(),
            r@ == (AppView {
                focus: Focus::Tags,
                run_sel: 0,
                tag_sel: 0,
                run_scroll: 0,
                tag_scroll: 0,
                disabled: Set::empty(),
                known_runs: Set::empty(),
                max_runs: max_runs as int,
                capped_notice: None,
                filter_text: seq![],
                run_filter_text: seq![],
                filter_editing: false,
                filter_target: Focus::Tags,
                filter_backup: seq![],
                grid: false,
                log_y: false,
                sidebar: true,
                follow,
                xmode,
                opened: Map::empty(),
                help_visible: false,
                loaded: false,
                flash_msg: seq![],
                flash_until: 0,
                reload_requested: false,
                quit: false,
            }),
    {
        App {
            focus: Focus::Tags,
            run_sel: 0,
            tag_sel: 0,
            run_scroll: 0,
            tag_scroll: 0,
            disabled: NameSet::new(),
            known_runs: NameSet::new(),
            max_runs,
            capped_notice: None,
            filter_text: String::new(),
            run_filter_text: String::new(),
            filter_editing: false,
            filter_target: Focus::Tags,
            filter_backup: String::new(),
            grid: false,
            log_y: false,
            sidebar: true,
            follow,
            xmode,
            opened: NameMap::new(),
            help_visible: false,
            loaded: false,
            flash_msg: String::new(),
            flash_until: 0,
            reload_requested: false,
            quit: false,
        }
    }

    /// Give runs that are new their default state: the first `max_runs` are
    /// shown, the rest start hidden. Applied to each run once, so it never
    /// overrides a choice that was made later.
    #[verifier::rlimit(40)]
    pub fn sync_runs(&mut self, run_names: &[String])
        requires
            old(self).wf(),
        ensures
            final(self).wf(),
            final(self)@.equals(synced(old(self)@, text::texts(run_names@))),
            old(self)@.max_runs > 0 ==> forall|i: int|
                0 <= i < run_names@.len() ==> final(self)@.known_runs.contains(
                    (#[trigger] run_names@[i])@,
                ),
    {
        if self.max_runs == 0 {
            return;
        }
        let ghost a = self@;
        let ghost all = text::texts(run_names@);
        let mut enabled: usize = 0;
        let mut i: usize = 0;
        assert(all.take(0) =~= seq![]);
        while i < run_names.len()
            invariant
                self.wf(),
                all == text::texts(run_names@),
                i <= run_names@.len(),
                enabled <= i,
                enabled == enabled_count(all.take(i as int), self.known_runs@, self.disabled@),
            decreases run_names.len() - i,
        {
            assert(all.take(i + 1).drop_last() =~= all.take(i as int));
            assert(all.take(i + 1).last() == run_names@[i as int]@);
            let name: &str = run_names[i].as_str();
            if self.known_runs.contains(name) && !self.disabled.contains(name) {
                enabled = enabled + 1;
            }
            i = i + 1;
        }
        assert(all.take(i as int) =~= all);
        let hidden: usize = hand_out(
            &mut self.known_runs,
            &mut self.disabled,
            enabled,
            self.max_runs,
            run_names,
        );
        if hidden > 0 && self.capped_notice.is_none() {
            self.capped_notice = Some(run_names.len());
        }
    }

    /// Names of runs that the run filter lists, in their order.
    pub fn visible_runs(&self, all: &[String]) -> (r: Vec<String>)
        ensures
            text::texts(r@) == listed(text::texts(all@), self@.run_filter_text),
    {
        list_matching(all, self.run_filter_text.as_str())
    }

    /// Show a message for the next two and a half seconds.
    pub fn flash(&mut self, msg: &str, now: u64)
        requires
            old(self).wf(),
            now + 2500 <= u64::MAX,
        ensures
            final(self).wf(),
            final(self)@.equals(flashed(old(self)@, msg@, now as int)),
    {
        self.flash_msg = msg.to_string();
        self.flash_until = now + 2500;
    }
}

/// The state with a message that is shown from now on.
pub open spec fn flashed(a: AppView, msg: Seq<char>, now: int) -> AppView {
    AppView { flash_msg: msg, flash_until: now + 2500, ..a }
}

// ---------------------------------------------------------------------------
// Keys
// ---------------------------------------------------------------------------
/// Some terminals deliver Enter as a raw line feed or carriage return, or as
/// one of these with Control.
pub open spec fn normalized(k: KeyPress) -> KeyPress {
    if k.key == Key::Char('\n') || k.key == Key::Char('\r') || (k.ctrl && (k.key == Key::Char('j')
        || k.key == Key::Char('m'))) {
        KeyPress { key: Key::Enter, ctrl: false }
    } else {
        k
    }
}

/// The focus that follows.
pub open spec fn focus_after(f: Focus) -> Focus {
    match f {
        Focus::Runs => Focus::Tags,
        Focus::Tags => Focus::Chart,
        Focus::Chart => Focus::Runs,
    }
}

/// The focus that comes before.
pub open spec fn focus_before(f: Focus) -> Focus {
    match f {
        Focus::Runs => Focus::Chart,
        Focus::Tags => Focus::Runs,
        Focus::Chart => Focus::Tags,
    }
}

/// One place further down in a list that is not empty.
pub open spec fn down(sel: int, len: int) -> int {
    if sel + 1 < len {
        sel + 1
    } else {
        len - 1
    }
}

/// One place further up.
pub open spec fn up(sel: int) -> int {
    if sel > 0 {
        sel - 1
    } else {
        0
    }
}

/// A key while a filter is being edited.
pub open spec fn filter_key(a: AppView, k: KeyPress) -> AppView {
    let runs = a.filter_target == Focus::Runs;
    match k.key {
        Key::Enter => if runs {
            AppView { filter_editing: false, run_sel: 0, ..a }
        } else {
            AppView { filter_editing: false, tag_sel: 0, ..a }
        },
        Key::Esc => if runs {
            AppView { filter_editing: false, run_filter_text: a.filter_backup, ..a }
        } else {
            AppView { filter_editing: false, filter_text: a.filter_backup, ..a }
        },
        Key::Backspace => if runs {
            AppView { run_filter_text: shortened(a.run_filter_text), ..a }
        } else {
            AppView { filter_text: shortened(a.filter_text), ..a }
        },
        Key::Char(c) => if k.ctrl {
            a
        } else if runs {
            AppView { run_filter_text: a.run_filter_text.push(c), run_sel: 0, ..a }
        } else {
            AppView { filter_text: a.filter_text.push(c), tag_sel: 0, ..a }
        },
        _ => a,
    }
}

/// A text without its last character.
pub open spec fn shortened(s: Seq<char>) -> Seq<char> {
    if s.len() > 0 {
        s.drop_last()
    } else {
        s
    }
}

/// A set with an element in it that was not, or without it if it was.
pub open spec fn toggled(s: Set<Seq<char>>, x: Seq<char>) -> Set<Seq<char>> {
    if s.contains(x) {
        s.remove(x)
    } else {
        s.insert(x)
    }
}

/// Only this run is shown.
pub open spec fn soloed(a: AppView, all: Seq<Seq<char>>, name: Seq<char>, now: int) -> AppView {
    flashed(AppView { disabled: all.to_set().remove(name), ..a }, "only "@ + name, now)
}

/// A key while the list of runs has the focus.
pub open spec fn runs_key(
    a: AppView,
    k: KeyPress,
    all: Seq<Seq<char>>,
    listed: Seq<Seq<char>>,
    now: int,
) -> AppView {
    if listed.len() == 0 {
        a
    } else if k.key == Key::Char('j') || k.key == Key::Down {
        AppView { run_sel: down(a.run_sel, listed.len() as int), ..a }
    } else if k.key == Key::Char('k') || k.key == Key::Up {
        AppView { run_sel: up(a.run_sel), ..a }
    } else if k.key == Key::Home {
        AppView { run_sel: 0, ..a }
    } else if k.key == Key::End {
        AppView { run_sel: listed.len() - 1, ..a }
    } else if k.key == Key::Char(' ') {
        AppView { disabled: toggled(a.disabled, listed[a.run_sel]), ..a }
    } else if k.key == Key::Enter {
        soloed(a, all, listed[a.run_sel], now)
    } else {
        a
    }
}

/// A key while the list of tags has the focus.
pub open spec fn tags_key(a: AppView, k: KeyPress, ntags: int) -> AppView {
    if (k.key == Key::Char('j') || k.key == Key::Down) && ntags > 0 {
        AppView { tag_sel: down(a.tag_sel, ntags), ..a }
    } else if k.key == Key::Char('k') || k.key == Key::Up {
        AppView { tag_sel: up(a.tag_sel), ..a }
    } else if k.key == Key::Home {
        AppView { tag_sel: 0, ..a }
    } else if k.key == Key::End && ntags > 0 {
        AppView { tag_sel: ntags - 1, ..a }
    } else if k.key == Key::Enter {
        AppView { grid: false, focus: Focus::Chart, ..a }
    } else {
        a
    }
}

/// A key while the chart has the focus.
pub open spec fn chart_key(a: AppView, k: KeyPress, ntags: int) -> (AppView, ViewChange) {
    if (k.key == Key::Char('j') || k.key == Key::Down) && ntags > 0 {
        (AppView { tag_sel: down(a.tag_sel, ntags), ..a }, ViewChange::Keep)
    } else if k.key == Key::Char('k') || k.key == Key::Up {
        (AppView { tag_sel: up(a.tag_sel), ..a }, ViewChange::Keep)
    } else if k.key == Key::Char('h') || k.key == Key::Left {
        (a, ViewChange::CursorLeft)
    } else if k.key == Key::Char('l') || k.key == Key::Right {
        (a, ViewChange::CursorRight)
    } else if k.key == Key::Char('c') || k.key == Key::Esc {
        (a, ViewChange::CursorClear)
    } else {
        (a, ViewChange::Keep)
    }
}

/// Show every listed run, if one of them is hidden; else hide them all.
pub open spec fn all_toggled(a: AppView, listed: Seq<Seq<char>>, now: int) -> AppView {
    let n = text::decimal(listed.len());
    if exists|i: int| 0 <= i < listed.len() && a.disabled.contains(#[trigger] listed[i]) {
        flashed(
            AppView { disabled: a.disabled.difference(listed.to_set()), ..a },
            "showing "@ + n + " run(s)"@,
            now,
        )
    } else {
        flashed(
            AppView { disabled: a.disabled.union(listed.to_set()), ..a },
            "hid "@ + n + " run(s)"@,
            now,
        )
    }
}

/// Keys that switch something: leave, help, the focus, and what is shown.
pub open spec fn switch_key(a: AppView, k: KeyPress) -> Option<AppView> {
    if k.key == Key::Char('c') && k.ctrl {
        Some(AppView { quit: true, ..a })
    } else if k.key == Key::Char('q') || k.key == Key::Char('Q') {
        Some(AppView { quit: true, ..a })
    } else if k.key == Key::Char('?') {
        Some(AppView { help_visible: true, ..a })
    } else if k.key == Key::Tab {
        Some(AppView { focus: focus_after(a.focus), ..a })
    } else if k.key == Key::BackTab {
        Some(AppView { focus: focus_before(a.focus), ..a })
    } else if k.key == Key::Char('b') {
        Some(AppView { sidebar: !a.sidebar, ..a })
    } else if k.key == Key::Char('g') {
        Some(AppView { grid: !a.grid, ..a })
    } else if k.key == Key::Char('L') {
        Some(AppView { log_y: !a.log_y, ..a })
    } else if k.key == Key::Char('x') {
        Some(AppView { xmode: a.xmode.after(), ..a })
    } else {
        None
    }
}

/// Keys that change the view. The range starts anew with another axis.
pub open spec fn view_key(k: KeyPress) -> Option<ViewChange> {
    if k.key == Key::Char('s') {
        Some(ViewChange::LessSmoothing)
    } else if k.key == Key::Char('S') {
        Some(ViewChange::MoreSmoothing)
    } else if k.key == Key::Char('+') || k.key == Key::Char('=') {
        Some(ViewChange::ZoomIn)
    } else if k.key == Key::Char('-') || k.key == Key::Char('_') {
        Some(ViewChange::ZoomOut)
    } else if k.key == Key::Char('[') {
        Some(ViewChange::PanLeft)
    } else if k.key == Key::Char(']') {
        Some(ViewChange::PanRight)
    } else if k.key == Key::Char('0') || k.key == Key::Char('x') {
        Some(ViewChange::Reset)
    } else {
        None
    }
}

/// Live following switched on or off; on, there is a reload at once.
pub open spec fn follow_toggled(a: AppView, now: int) -> AppView {
    if a.follow {
        flashed(AppView { follow: false, ..a }, "follow off"@, now)
    } else {
        flashed(AppView { follow: true, reload_requested: true, ..a }, "follow on"@, now)
    }
}

/// A reload is asked for.
pub open spec fn reload_asked(a: AppView, now: int) -> AppView {
    flashed(AppView { reload_requested: true, ..a }, "reloading…"@, now)
}

/// Editing of a filter starts: of the runs where they have the focus, else of
/// the tags.
pub open spec fn filter_started(a: AppView) -> AppView {
    if a.focus == Focus::Runs {
        AppView {
            filter_editing: true,
            filter_target: Focus::Runs,
            filter_backup: a.run_filter_text,
            ..a
        }
    } else {
        AppView {
            filter_editing: true,
            filter_target: Focus::Tags,
            filter_backup: a.filter_text,
            focus: Focus::Tags,
            ..a
        }
    }
}

/// A key that goes to the part with the focus.
pub open spec fn focus_key(
    a: AppView,
    k: KeyPress,
    all: Seq<Seq<char>>,
    listed: Seq<Seq<char>>,
    ntags: int,
    now: int,
) -> (AppView, ViewChange) {
    match a.focus {
        Focus::Runs => (runs_key(a, k, all, listed, now), ViewChange::Keep),
        Focus::Tags => (tags_key(a, k, ntags), ViewChange::Keep),
        Focus::Chart => chart_key(a, k, ntags),
    }
}

/// A key while neither help nor a filter takes it.
pub open spec fn main_key(
    a: AppView,
    k: KeyPress,
    all: Seq<Seq<char>>,
    listed: Seq<Seq<char>>,
    ntags: int,
    now: int,
) -> (AppView, ViewChange) {
    let switched = switch_key(a, k);
    let change = view_key(k);
    if switched is Some || change is Some {
        (
            match switched {
                Some(b) => b,
                None => a,
            },
            match change {
                Some(c) => c,
                None => ViewChange::Keep,
            },
        )
    } else if k.key == Key::Char('f') {
        (follow_toggled(a, now), ViewChange::Keep)
    } else if k.key == Key::Char('r') {
        (reload_asked(a, now), ViewChange::Keep)
    } else if k.key == Key::Char('a') {
        (all_toggled(a, listed, now), ViewChange::Keep)
    } else if k.key == Key::Char('/') {
        (filter_started(a), ViewChange::Keep)
    } else {
        focus_key(a, k, all, listed, ntags, now)
    }
}

/// What a key does. `all` are the names of the runs, `listed` those that the
/// run filter lists, and `ntags` says how many tags there are.
pub open spec fn after_key(
    a: AppView,
    k: KeyPress,
    all: Seq<Seq<char>>,
    listed: Seq<Seq<char>>,
    ntags: int,
    now: int,
) -> (AppView, ViewChange) {
    let k = normalized(k);
    if a.help_visible {
        (AppView { help_visible: false, ..a }, ViewChange::Keep)
    } else if a.filter_editing {
        (filter_key(a, k), ViewChange::Keep)
    } else {
        main_key(a, k, all, listed, ntags, now)
    }
}

/// The key acts on the selected run.
pub open spec fn needs_selection(a: AppView, k: KeyPress) -> bool {
    &&& !a.help_visible
    &&& !a.filter_editing
    &&& a.focus == Focus::Runs
    &&& normalized(k).key == Key::Enter || normalized(k).key == Key::Char(' ')
}

/// The selected run is listed, if the key acts on it.
pub open spec fn selection_listed(a: AppView, k: KeyPress, listed: Seq<Seq<char>>) -> bool {
    needs_selection(a, k) ==> listed.len() == 0 || a.run_sel < listed.len()
}

/// What a key does among these runs, of which the run filter lists some, and
/// so many tags: nothing, where it acts on the selected run and none is listed
/// in that place.
pub open spec fn key_outcome(
    a: AppView,
    k: KeyPress,
    all: Seq<Seq<char>>,
    ntags: int,
    now: int,
) -> Option<(AppView, ViewChange)> {
    let shown = listed(all, a.run_filter_text);
    if selection_listed(a, k, shown) {
        Some(after_key(a, k, all, shown, ntags, now))
    } else {
        None
    }
}

impl KeyPress {
    /// The key without Control.
    pub fn plain(key: Key) -> (r: Self)
        ensures
            r == (KeyPress { key, ctrl: false }),
    {
        KeyPress { key, ctrl: false }
    }

    fn normalize(self) -> (r: Self)
        ensures
            r == normalized(self),
    {
        let enter: bool = match self.key {
            Key::Char(c) => c == '\n' || c == '\r' || (self.ctrl && (c == 'j' || c == 'm')),
            _ => false,
        };
        if enter {
            KeyPress { key: Key::Enter, ctrl: false }
        } else {
            self
        }
    }
}

impl KeyPress {
    /// What the key asks of the view, if it is one of those.
    fn view_change(self) -> (r: Option<ViewChange>)
        ensures
            r == view_key(self),
    {
        match self.key {
            Key::Char('s') => Some(ViewChange::LessSmoothing),
            Key::Char('S') => Some(ViewChange::MoreSmoothing),
            Key::Char('+') | Key::Char('=') => Some(ViewChange::ZoomIn),
            Key::Char('-') | Key::Char('_') => Some(ViewChange::ZoomOut),
            Key::Char('[') => Some(ViewChange::PanLeft),
            Key::Char(']') => Some(ViewChange::PanRight),
            Key::Char('0') | Key::Char('x') => Some(ViewChange::Reset),
            _ => None,
        }
    }
}

fn moved_down(sel: usize, len: usize) -> (r: usize)
    requires
        len > 0,
    ensures
        r == down(sel as int, len as int),
{
    if sel < len - 1 {
        sel + 1
    } else {
        len - 1
    }
}

fn moved_up(sel: usize) -> (r: usize)
    ensures
        r == up(sel as int),
{
    if sel > 0 {
        sel - 1
    } else {
        0
    }
}

/// The set of the names.
fn set_of(names: &[String]) -> (r: NameSet)
    ensures
        r.wf(),
        r@ == text::texts(names@).to_set(),
{
    let mut out: NameSet = NameSet::new();
    insert_all(&mut out, names);
    assert(out@ =~= text::texts(names@).to_set());
    out
}

proof fn lemma_take_set(all: Seq<Seq<char>>, i: int)
    requires
        0 <= i < all.len(),
    ensures
        all.take(i + 1).to_set() == all.take(i).to_set().insert(all[i]),
{
    let a = all.take(i);
    let b = all.take(i + 1);
    assert forall|n: Seq<char>| b.to_set().contains(n) <==> a.to_set().insert(all[i]).contains(
        n,
    ) by {
        if b.contains(n) {
            let k = choose|k: int| 0 <= k < b.len() && b[k] == n;
            if k < i {
                assert(a[k] == n);
            }
        }
        if a.contains(n) {
            let k = choose|k: int| 0 <= k < a.len() && a[k] == n;
            assert(b[k] == n);
        }
        assert(b[i] == all[i]);
    }
    assert(b.to_set() =~= a.to_set().insert(all[i]));
}

fn insert_all(set: &mut NameSet, names: &[String])
    requires
        old(set).wf(),
    ensures
        final(set).wf(),
        final(set)@ == old(set)@.union(text::texts(names@).to_set()),
{
    let ghost all = text::texts(names@);
    let mut i: usize = 0;
    assert(set@ =~= old(set)@.union(all.take(0).to_set()));
    while i < names.len()
        invariant
            set.wf(),
            all == text::texts(names@),
            i <= names@.len(),
            set@ == old(set)@.union(all.take(i as int).to_set()),
        decreases names.len() - i,
    {
        set.insert(names[i].as_str());
        proof {
            lemma_take_set(all, i as int);
            assert(set@ =~= old(set)@.union(all.take(i + 1).to_set()));
        }
        i = i + 1;
    }
    assert(all.take(i as int) =~= all);
}

fn remove_all(set: &mut NameSet, names: &[String])
    requires
        old(set).wf(),
    ensures
        final(set).wf(),
        final(set)@ == old(set)@.difference(text::texts(names@).to_set()),
{
    let ghost all = text::texts(names@);
    let mut i: usize = 0;
    assert(set@ =~= old(set)@.difference(all.take(0).to_set()));
    while i < names.len()
        invariant
            set.wf(),
            all == text::texts(names@),
            i <= names@.len(),
            set@ == old(set)@.difference(all.take(i as int).to_set()),
        decreases names.len() - i,
    {
        set.remove(names[i].as_str());
        proof {
            lemma_take_set(all, i as int);
            assert(set@ =~= old(set)@.difference(all.take(i + 1).to_set()));
        }
        i = i + 1;
    }
    assert(all.take(i as int) =~= all);
}

fn contains_any(set: &NameSet, names: &[String]) -> (r: bool)
    requires
        set.wf(),
    ensures
        r == exists|i: int|
            0 <= i < names@.len() && set@.contains(#[trigger] text::texts(names@)[i]),
{
    let ghost all = text::texts(names@);
    let mut i: usize = 0;
    while i < names.len()
        invariant
            set.wf(),
            all == text::texts(names@),
            i <= names@.len(),
            forall|j: int| 0 <= j < i ==> !set@.contains(#[trigger] all[j]),
        decreases names.len() - i,
    {
        assert(all[i as int] == names@[i as int]@);
        if set.contains(names[i].as_str()) {
            return true;
        }
        i = i + 1;
    }
    false
}

impl App {
    fn close_filter(&mut self)
        requires
            old(self).wf(),
        ensures
            final(self).wf(),
            final(self)@.equals(
                filter_key(old(self)@, (KeyPress { key: Key::Enter, ctrl: false })),
            ),
    {
        self.filter_editing = false;
        if self.filter_target == Focus::Runs {
            self.run_sel = 0;
        } else {
            self.tag_sel = 0;
        }
    }

    fn cancel_filter(&mut self)
        requires
            old(self).wf(),
        ensures
            final(self).wf(),
            final(self)@.equals(filter_key(old(self)@, (KeyPress { key: Key::Esc, ctrl: false }))),
    {
        if self.filter_target == Focus::Runs {
            self.run_filter_text = self.filter_backup.clone();
        } else {
            self.filter_text = self.filter_backup.clone();
        }
        self.filter_editing = false;
    }

    fn shorten_filter(&mut self)
        requires
            old(self).wf(),
        ensures
            final(self).wf(),
            final(self)@.equals(
                filter_key(old(self)@, (KeyPress { key: Key::Backspace, ctrl: false })),
            ),
    {
        if self.filter_target == Focus::Runs {
            text::pop_char(&mut self.run_filter_text);
        } else {
            text::pop_char(&mut self.filter_text);
        }
    }

    fn extend_filter(&mut self, c: char)
        requires
            old(self).wf(),
        ensures
            final(self).wf(),
            final(self)@.equals(
                filter_key(old(self)@, (KeyPress { key: Key::Char(c), ctrl: false })),
            ),
    {
        if self.filter_target == Focus::Runs {
            text::push_char(&mut self.run_filter_text, c);
            self.run_sel = 0;
        } else {
            text::push_char(&mut self.filter_text, c);
            self.tag_sel = 0;
        }
    }

    #[verifier::rlimit(40)]
    fn handle_filter_key(&mut self, k: KeyPress)
        requires
            old(self).wf(),
        ensures
            final(self).wf(),
            final(self)@.equals(filter_key(old(self)@, k)),
    {
        match k.key {
            Key::Enter => self.close_filter(),
            Key::Esc => self.cancel_filter(),
            Key::Backspace => self.shorten_filter(),
            Key::Char(c) => {
                if !k.ctrl {
                    self.extend_filter(c);
                }
            },
            _ => {},
        }
    }

    /// Show or hide a run.
    fn toggle_run(&mut self, name: &str)
        requires
            old(self).wf(),
        ensures
            final(self).wf(),
            final(self)@.equals(
                (AppView { disabled: toggled(old(self)@.disabled, name@), ..old(self)@ }),
            ),
    {
        if !self.disabled.remove(name) {
            assert(old(self)@.disabled.remove(name@) =~= old(self)@.disabled);
            self.disabled.insert(name);
        }
    }

    /// Show only this run.
    fn solo_run(&mut self, name: &str, all: &[String], now: u64)
        requires
            old(self).wf(),
            now + 2500 <= u64::MAX,
        ensures
            final(self).wf(),
            final(self)@.equals(soloed(old(self)@, text::texts(all@), name@, now as int)),
    {
        let mut others: NameSet = set_of(all);
        others.remove(name);
        self.disabled = others;
        let mut msg: String = "only ".to_string();
        msg.append(name);
        self.flash(msg.as_str(), now);
    }

    #[verifier::rlimit(40)]
    fn handle_runs_key(&mut self, k: KeyPress, all: &[String], listed: &[String], now: u64)
        requires
            old(self).wf(),
            now + 2500 <= u64::MAX,
            k.key == Key::Enter || k.key == Key::Char(' ') ==> listed@.len() == 0
                || old(self).run_sel < listed@.len(),
        ensures
            final(self).wf(),
            final(self)@.equals(runs_key(
                old(self)@,
                k,
                text::texts(all@),
                text::texts(listed@),
                now as int,
            )),
    {
        if listed.len() == 0 {
            return;
        }
        match k.key {
            Key::Char('j') | Key::Down => {
                self.run_sel = moved_down(self.run_sel, listed.len());
            },
            Key::Char('k') | Key::Up => {
                self.run_sel = moved_up(self.run_sel);
            },
            Key::Home => {
                self.run_sel = 0;
            },
            Key::End => {
                self.run_sel = listed.len() - 1;
            },
            Key::Char(' ') => {
                self.toggle_run(listed[self.run_sel].as_str());
            },
            Key::Enter => {
                self.solo_run(listed[self.run_sel].as_str(), all, now);
            },
            _ => {},
        }
    }

    #[verifier::rlimit(40)]
    fn handle_tags_key(&mut self, k: KeyPress, ntags: usize)
        requires
            old(self).wf(),
        ensures
            final(self).wf(),
            final(self)@.equals(tags_key(old(self)@, k, ntags as int)),
    {
        match k.key {
            Key::Char('j') | Key::Down => {
                if ntags > 0 {
                    self.tag_sel = moved_down(self.tag_sel, ntags);
                }
            },
            Key::Char('k') | Key::Up => {
                self.tag_sel = moved_up(self.tag_sel);
            },
            Key::Home => {
                self.tag_sel = 0;
            },
            Key::End => {
                if ntags > 0 {
                    self.tag_sel = ntags - 1;
                }
            },
            Key::Enter => {
                self.grid = false;
                self.focus = Focus::Chart;
            },
            _ => {},
        }
    }

    #[verifier::rlimit(40)]
    fn handle_chart_key(&mut self, k: KeyPress, ntags: usize) -> (r: ViewChange)
        requires
            old(self).wf(),
        ensures
            final(self).wf(),
            same_outcome((final(self)@, r), chart_key(old(self)@, k, ntags as int)),
    {
        match k.key {
            Key::Char('j') | Key::Down => {
                if ntags > 0 {
                    self.tag_sel = moved_down(self.tag_sel, ntags);
                }
                ViewChange::Keep
            },
            Key::Char('k') | Key::Up => {
                self.tag_sel = moved_up(self.tag_sel);
                ViewChange::Keep
            },
            Key::Char('h') | Key::Left => ViewChange::CursorLeft,
            Key::Char('l') | Key::Right => ViewChange::CursorRight,
            Key::Char('c') | Key::Esc => ViewChange::CursorClear,
            _ => ViewChange::Keep,
        }
    }

    /// Show every listed run, if one of them is hidden; else hide them all.
    #[verifier::rlimit(40)]
    fn toggle_all(&mut self, listed: &[String], now: u64)
        requires
            old(self).wf(),
            now + 2500 <= u64::MAX,
        ensures
            final(self).wf(),
            final(self)@.equals(all_toggled(old(self)@, text::texts(listed@), now as int)),
    {
        let mut msg: String = String::new();
        if contains_any(&self.disabled, listed) {
            remove_all(&mut self.disabled, listed);
            msg.append("showing ");
        } else {
            insert_all(&mut self.disabled, listed);
            msg.append("hid ");
        }
        text::push_decimal(&mut msg, listed.len() as u64);
        msg.append(" run(s)");
        self.flash(msg.as_str(), now);
        assert(text::texts(listed@).len() == listed@.len());
        assert(self@.flash_msg =~= all_toggled(
            old(self)@,
            text::texts(listed@),
            now as int,
        ).flash_msg);
    }

    fn start_filter(&mut self)
        requires
            old(self).wf(),
        ensures
            final(self).wf(),
            final(self)@.equals(filter_started(old(self)@)),
    {
        self.filter_editing = true;
        if self.focus == Focus::Runs {
            self.filter_target = Focus::Runs;
            self.filter_backup = self.run_filter_text.clone();
        } else {
            self.filter_target = Focus::Tags;
            self.filter_backup = self.filter_text.clone();
            self.focus = Focus::Tags;
        }
    }

    fn toggle_follow(&mut self, now: u64)
        requires
            old(self).wf(),
            now + 2500 <= u64::MAX,
        ensures
            final(self).wf(),
            final(self)@.equals(follow_toggled(old(self)@, now as int)),
    {
        self.follow = !self.follow;
        if self.follow {
            self.reload_requested = true;
            self.flash("follow on", now);
        } else {
            self.flash("follow off", now);
        }
    }

    fn ask_reload(&mut self, now: u64)
        requires
            old(self).wf(),
            now + 2500 <= u64::MAX,
        ensures
            final(self).wf(),
            final(self)@.equals(reload_asked(old(self)@, now as int)),
    {
        self.reload_requested = true;
        self.flash("reloading…", now);
    }

    /// Switch what the key switches. Says whether it was such a key.
    #[verifier::rlimit(40)]
    fn handle_switch_key(&mut self, k: KeyPress) -> (r: bool)
        requires
            old(self).wf(),
        ensures
            final(self).wf(),
            r == switch_key(old(self)@, k) is Some,
            r ==> final(self)@.equals(switch_key(old(self)@, k)->0),
            !r ==> *final(self) == *old(self),
    {
        if k.ctrl && k.key == Key::Char('c') {
            self.quit = true;
            return true;
        }
        match k.key {
            Key::Char('q') | Key::Char('Q') => {
                self.quit = true;
                true
            },
            Key::Char('?') => {
                self.help_visible = true;
                true
            },
            Key::Tab => {
                self.focus = match self.focus {
                    Focus::Runs => Focus::Tags,
                    Focus::Tags => Focus::Chart,
                    Focus::Chart => Focus::Runs,
                };
                true
            },
            Key::BackTab => {
                self.focus = match self.focus {
                    Focus::Runs => Focus::Chart,
                    Focus::Tags => Focus::Runs,
                    Focus::Chart => Focus::Tags,
                };
                true
            },
            Key::Char('b') => {
                self.sidebar = !self.sidebar;
                true
            },
            Key::Char('g') => {
                self.grid = !self.grid;
                true
            },
            Key::Char('L') => {
                self.log_y = !self.log_y;
                true
            },
            Key::Char('x') => {
                self.xmode = self.xmode.next();
                true
            },
            _ => false,
        }
    }

    #[verifier::rlimit(40)]
    fn handle_focus_key(
        &mut self,
        k: KeyPress,
        all: &[String],
        listed: &[String],
        ntags: usize,
        now: u64,
    ) -> (r: ViewChange)
        requires
            old(self).wf(),
            now + 2500 <= u64::MAX,
            old(self).focus == Focus::Runs && (k.key == Key::Enter || k.key == Key::Char(' '))
                ==> listed@.len() == 0 || old(self).run_sel < listed@.len(),
        ensures
            final(self).wf(),
            same_outcome(
                (final(self)@, r),
                focus_key(
                    old(self)@,
                    k,
                    text::texts(all@),
                    text::texts(listed@),
                    ntags as int,
                    now as int,
                ),
            ),
    {
        match self.focus {
            Focus::Runs => {
                self.handle_runs_key(k, all, listed, now);
                ViewChange::Keep
            },
            Focus::Tags => {
                self.handle_tags_key(k, ntags);
                ViewChange::Keep
            },
            Focus::Chart => self.handle_chart_key(k, ntags),
        }
    }

    #[verifier::rlimit(40)]
    fn handle_main_key(
        &mut self,
        k: KeyPress,
        all: &[String],
        listed: &[String],
        ntags: usize,
        now: u64,
    ) -> (r: ViewChange)
        requires
            old(self).wf(),
            now + 2500 <= u64::MAX,
            old(self).focus == Focus::Runs && (k.key == Key::Enter || k.key == Key::Char(' '))
                ==> listed@.len() == 0 || old(self).run_sel < listed@.len(),
        ensures
            final(self).wf(),
            same_outcome(
                (final(self)@, r),
                main_key(
                    old(self)@,
                    k,
                    text::texts(all@),
                    text::texts(listed@),
                    ntags as int,
                    now as int,
                ),
            ),
    {
        let switched: bool = self.handle_switch_key(k);
        match k.view_change() {
            Some(change) => {
                return change;
            },
            None => {
                if switched {
                    return ViewChange::Keep;
                }
            },
        }
        if k.key == Key::Char('f') {
            self.toggle_follow(now);
            return ViewChange::Keep;
        }
        if k.key == Key::Char('r') {
            self.ask_reload(now);
            return ViewChange::Keep;
        }
        if k.key == Key::Char('a') {
            self.toggle_all(listed, now);
            return ViewChange::Keep;
        }
        if k.key == Key::Char('/') {
            self.start_filter();
            return ViewChange::Keep;
        }
        self.handle_focus_key(k, all, listed, ntags, now)
    }

    /// Act on a key, given the runs that the run filter lists. Says what it
    /// asks of the view.
    #[verifier::rlimit(40)]
    pub fn handle_key_listed(
        &mut self,
        key: KeyPress,
        all: &[String],
        listed: &[String],
        ntags: usize,
        now: u64,
    ) -> (r: ViewChange)
        requires
            old(self).wf(),
            now + 2500 <= u64::MAX,
            selection_listed(old(self)@, key, text::texts(listed@)),
        ensures
            final(self).wf(),
            same_outcome((final(self)@, r), after_key(
                old(self)@,
                key,
                text::texts(all@),
                text::texts(listed@),
                ntags as int,
                now as int,
            )),
    {
        let k: KeyPress = key.normalize();
        assert(text::texts(listed@).len() == listed@.len());
        if self.help_visible {
            self.help_visible = false;
            return ViewChange::Keep;
        }
        if self.filter_editing {
            self.handle_filter_key(k);
            return ViewChange::Keep;
        }
        self.handle_main_key(k, all, listed, ntags, now)
    }

    /// Act on a key, given how many tags there are.
    fn handle_key_among(&mut self, key: KeyPress, all: &[String], ntags: usize, now: u64) -> (r:
        Option<ViewChange>)
        requires
            old(self).wf(),
            now + 2500 <= u64::MAX,
        ensures
            final(self).wf(),
            match key_outcome(old(self)@, key, text::texts(all@), ntags as int, now as int) {
                Some(next) => r is Some && same_outcome((final(self)@, r->0), next),
                None => r is None && *final(self) == *old(self),
            },
    {
        let shown: Vec<String> = self.visible_runs(all);
        let k: KeyPress = key.normalize();
        let acts: bool = !self.help_visible && !self.filter_editing && self.focus == Focus::Runs
            && (k.key == Key::Enter || k.key == Key::Char(' '));
        assert(text::texts(shown@).len() == shown@.len());
        if acts && shown.len() > 0 && self.run_sel >= shown.len() {
            return None;
        }
        Some(self.handle_key_listed(key, all, shown.as_slice(), ntags, now))
    }

    /// Act on a key. Says what it asks of the view; nothing happens, and
    /// there is no answer, where the key acts on the selected run and the
    /// run filter lists no run in that place.
    pub fn handle_key(&mut self, key: KeyPress, all: &[String], tags: &[String], now: u64) -> (r:
        Option<ViewChange>)
        requires
            old(self).wf(),
            now + 2500 <= u64::MAX,
        ensures
            final(self).wf(),
            match key_outcome(old(self)@, key, text::texts(all@), tags@.len() as int, now as int) {
                Some(next) => r is Some && same_outcome((final(self)@, r->0), next),
                None => r is None && *final(self) == *old(self),
            },
    {
        self.handle_key_among(key, all, tags.len(), now)
    }
}

// ---------------------------------------------------------------------------
// The tag tree
// ---------------------------------------------------------------------------
/// The rows of the tag list: while a tag filter is set, every group is open.
pub open spec fn shown_rows(a: AppView, tags: Seq<Seq<char>>) -> Seq<tags::RowView> {
    tags::tag_rows(tags, a.opened, a.filter_text.len() > 0)
}

/// The place in the list, or the last one if there are fewer.
pub open spec fn within(sel: int, len: int) -> int {
    if sel < len {
        sel
    } else {
        len - 1
    }
}

/// Keys that open and close the group under the selection.
pub open spec fn tree_key(a: AppView, k: KeyPress, rows: Seq<tags::RowView>) -> Option<AppView> {
    let k = normalized(k).key;
    if a.help_visible || a.filter_editing || a.focus != Focus::Tags || a.tag_sel >= rows.len()
        || rows[a.tag_sel].leaf {
        None
    } else {
        let row = rows[a.tag_sel];
        if k == Key::Enter {
            Some(AppView { opened: a.opened.insert(row.path, !row.expanded), ..a })
        } else if k == Key::Right || k == Key::Char('l') {
            Some(AppView { opened: a.opened.insert(row.path, true), ..a })
        } else if k == Key::Left || k == Key::Char('h') {
            Some(AppView { opened: a.opened.insert(row.path, false), ..a })
        } else {
            None
        }
    }
}

/// What a key does in the viewer, where the tags are listed as a tree.
pub open spec fn press_outcome(
    a: AppView,
    k: KeyPress,
    all: Seq<Seq<char>>,
    tags: Seq<Seq<char>>,
    now: int,
) -> Option<(AppView, ViewChange)> {
    let rows = shown_rows(a, tags);
    match tree_key(a, k, rows) {
        Some(next) => Some((next, ViewChange::Keep)),
        None => key_outcome(a, k, all, rows.len() as int, now),
    }
}

impl App {
    /// The rows of the tag list.
    pub fn tag_rows(&self, tags: &[String]) -> (r: Vec<Row>)
        requires
            self.wf(),
        ensures
            tags::row_views(r@) == shown_rows(self@, text::texts(tags@)),
    {
        tags::rows(tags, &self.opened, text::char_count(self.filter_text.as_str()) > 0)
    }

    /// The tag that the selected row leads to.
    pub fn selected_tag(&self, tags: &[String]) -> (r: Option<usize>)
        requires
            self.wf(),
        ensures
            ({
                let rows = shown_rows(self@, text::texts(tags@));
                if rows.len() == 0 {
                    r is None
                } else {
                    tags::finds_first(
                        text::texts(tags@),
                        rows[within(self@.tag_sel, rows.len() as int)],
                        r,
                    )
                }
            }),
            r is Some <==> shown_rows(self@, text::texts(tags@)).len() > 0,
    {
        let rows: Vec<Row> = self.tag_rows(tags);
        assert(tags::row_views(rows@).len() == rows@.len());
        if rows.len() == 0 {
            return None;
        }
        let at: usize = if self.tag_sel < rows.len() {
            self.tag_sel
        } else {
            rows.len() - 1
        };
        proof {
            let views = tags::row_views(rows@);
            assert(views[at as int] == rows@[at as int]@);
            assert(views.contains(views[at as int]));
            tag_laws::law_every_row_leads_to_a_tag(
                text::texts(tags@),
                self@.opened,
                self@.filter_text.len() > 0,
                views[at as int],
            );
        }
        tags::first_leaf(tags, &rows[at])
    }

    /// Open or close the group under the selection. Says whether the key was
    /// one that does so.
    #[verifier::rlimit(40)]
    pub fn handle_tree_key(&mut self, key: KeyPress, tags: &[String]) -> (r: bool)
        requires
            old(self).wf(),
        ensures
            final(self).wf(),
            ({
                let rows = shown_rows(old(self)@, text::texts(tags@));
                let next = tree_key(old(self)@, key, rows);
                &&& r == next is Some
                &&& r ==> final(self)@.equals(next->0)
                &&& !r ==> *final(self) == *old(self)
            }),
    {
        let k: KeyPress = key.normalize();
        if self.help_visible || self.filter_editing || self.focus != Focus::Tags {
            return false;
        }
        let rows: Vec<Row> = self.tag_rows(tags);
        assert(tags::row_views(rows@).len() == rows@.len());
        if self.tag_sel >= rows.len() {
            return false;
        }
        let row: &Row = &rows[self.tag_sel];
        assert(tags::row_views(rows@)[self.tag_sel as int] == rows@[self.tag_sel as int]@);
        if row.leaf {
            return false;
        }
        let open: bool = match k.key {
            Key::Enter => !row.expanded,
            Key::Right | Key::Char('l') => true,
            Key::Left | Key::Char('h') => false,
            _ => {
                return false;
            },
        };
        self.opened.put(row.path.as_str(), open);
        true
    }

    /// Act on a key in the viewer, where the tags are listed as a tree: a key
    /// that opens or closes the group under the selection does so, and any
    /// other acts as always, with the selection moving over the rows of the
    /// tree. Says what it asks of the view; nothing happens, and there is no
    /// answer, where the key acts on the selected run and the run filter lists
    /// no run in that place.
    pub fn handle_press(&mut self, key: KeyPress, all: &[String], tags: &[String], now: u64) -> (r:
        Option<ViewChange>)
        requires
            old(self).wf(),
            now + 2500 <= u64::MAX,
        ensures
            final(self).wf(),
            match press_outcome(old(self)@, key, text::texts(all@), text::texts(tags@), now as int) {
                Some(next) => r is Some && same_outcome((final(self)@, r->0), next),
                None => r is None && *final(self) == *old(self),
            },
    {
        if self.handle_tree_key(key, tags) {
            return Some(ViewChange::Keep);
        }
        let rows: Vec<Row> = self.tag_rows(tags);
        assert(tags::row_views(rows@).len() == rows@.len());
        self.handle_key_among(key, all, rows.len(), now)
    }
}

} // verus!
