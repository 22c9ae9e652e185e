//! The command line.
use vstd::prelude::*;

use crate::app::XMode;
use crate::text;

verus! {

// ---------------------------------------------------------------------------
// Whole numbers
// ---------------------------------------------------------------------------
/// The value of a decimal digit.
pub open spec fn digit_value(c: char) -> Option<nat> {
    if '0' <= c <= '9' {
        Some((c as int - '0' as int) as nat)
    } else {
        None
    }
}

/// The value of a string of decimal digits.
pub open spec fn digits_value(s: Seq<char>) -> Option<nat>
    decreases s.len(),
{
    if s.len() == 0 {
        Some(0)
    } else {
        match (digits_value(s.drop_last()), digit_value(s.last())) {
            (Some(n), Some(d)) => Some(10 * n + d),
            _ => None,
        }
    }
}

/// The digits of a number behind a sign, if it has one and something follows.
pub open spec fn unsigned_part(s: Seq<char>, sign: char) -> Seq<char> {
    if s.len() > 1 && s[0] == sign {
        s.drop_first()
    } else {
        s
    }
}

/// A number that is not negative: digits, with or without a plus sign before
/// them, if it is at most `max`.
pub open spec fn natural(s: Seq<char>, max: nat) -> Option<nat> {
    match digits_value(unsigned_part(s, '+')) {
        Some(n) => if s.len() > 0 && n <= max {
            Some(n)
        } else {
            None
        },
        None => None,
    }
}

/// A whole number of 64 bits: digits, with or without a sign before them.
pub open spec fn whole(s: Seq<char>) -> Option<int> {
    if s.len() > 1 && s[0] == '-' {
        match digits_value(s.drop_first()) {
            Some(n) => if n <= 0x8000_0000_0000_0000 {
                Some(-(n as int))
            } else {
                None
            },
            None => None,
        }
    } else {
        match natural(s, 0x7fff_ffff_ffff_ffff) {
            Some(n) => Some(n as int),
            None => None,
        }
    }
}

proof fn lemma_digits_stop(s: Seq<char>, i: int)
    requires
        0 <= i <= s.len(),
        digits_value(s.take(i)) is None,
    ensures
        digits_value(s) is None,
    decreases s.len() - i,
{
    if i < s.len() {
        assert(s.take(i + 1).drop_last() =~= s.take(i));
        lemma_digits_stop(s, i + 1);
    } else {
        assert(s.take(i) =~= s);
    }
}

proof fn lemma_digits_grow(s: Seq<char>, i: int)
    requires
        0 <= i <= s.len(),
        digits_value(s) is Some,
    ensures
        digits_value(s.take(i)) is Some,
        digits_value(s.take(i))->0 <= digits_value(s)->0,
    decreases s.len() - i,
{
    if i < s.len() {
        lemma_digits_grow(s, i + 1);
        assert(s.take(i + 1).drop_last() =~= s.take(i));
    } else {
        assert(s.take(i) =~= s);
    }
}

/// The value of the digits from `from` on, if there are only digits and it is
/// at most `max`.
fn value_from(chars: &Vec<char>, from: usize, max: u64) -> (r: Option<u64>)
    requires
        from <= chars@.len(),
    ensures
        match digits_value(chars@.skip(from as int)) {
            Some(n) => if n <= max {
                r is Some && r->0 == n
            } else {
                r is None
            },
            None => r is None,
        },
{
    let ghost s = chars@.skip(from as int);
    let mut n: u64 = 0;
    let mut i: usize = from;
    assert(s.take(0) =~= seq![]);
    while i < chars.len()
        invariant
            from <= i <= chars@.len(),
            s == chars@.skip(from as int),
            n <= max,
            digits_value(s.take(i - from)) == Some(n as nat),
        decreases chars.len() - i,
    {
        let c: char = chars[i];
        assert(s.take(i - from + 1).drop_last() =~= s.take(i - from));
        assert(s.take(i - from + 1).last() == c);
        if c < '0' || c > '9' {
            proof {
                assert(digits_value(s.take(i - from + 1)) is None);
                lemma_digits_stop(s, i - from + 1);
            }
            return None;
        }
        let d: u64 = c as u64 - '0' as u64;
        assert(d == digit_value(c)->0);
        if n > (u64::MAX - d) / 10 || 10 * n + d > max {
            proof {
                assert(10 * n + d > max);
                if digits_value(s) is Some {
                    lemma_digits_grow(s, i - from + 1);
                }
            }
            return None;
        }
        n = 10 * n + d;
        i = i + 1;
    }
    assert(s.take(i - from) =~= s);
    Some(n)
}

/// A number that is not negative.
pub fn parse_usize(s: &str) -> (r: Option<usize>)
    ensures
        match natural(s@, usize::MAX as nat) {
            Some(n) => r is Some && r->0 == n,
            None => r is None,
        },
{
    let chars: Vec<char> = text::chars_of(s);
    if chars.len() == 0 {
        return None;
    }
    let from: usize = if chars.len() > 1 && chars[0] == '+' {
        1
    } else {
        0
    };
    assert(chars@.skip(from as int) =~= unsigned_part(s@, '+'));
    match value_from(&chars, from, usize::MAX as u64) {
        Some(n) => Some(n as usize),
        None => None,
    }
}

/// A whole number of 64 bits.
pub fn parse_i64(s: &str) -> (r: Option<i64>)
    ensures
        match whole(s@) {
            Some(n) => r is Some && r->0 == n,
            None => r is None,
        },
{
    let chars: Vec<char> = text::chars_of(s);
    if chars.len() == 0 {
        return None;
    }
    if chars.len() > 1 && chars[0] == '-' {
        assert(chars@.skip(1) =~= s@.drop_first());
        return match value_from(&chars, 1, 0x8000_0000_0000_0000) {
            Some(n) => if n == 0x8000_0000_0000_0000 {
                Some(i64::MIN)
            } else {
                Some(-(n as i64))
            },
            None => None,
        };
    }
    let from: usize = if chars.len() > 1 && chars[0] == '+' {
        1
    } else {
        0
    };
    assert(chars@.skip(from as int) =~= unsigned_part(s@, '+'));
    match value_from(&chars, from, 0x7fff_ffff_ffff_ffff) {
        Some(n) => Some(n as i64),
        None => None,
    }
}

// ---------------------------------------------------------------------------
// Options of the viewer
// ---------------------------------------------------------------------------
/// What the viewer is started with. The numbers with a fraction are given by
/// their bits, and are `None` where they were not given.
pub struct Args {
    pub logdir: String,
    pub refresh: Option<u64>,
    pub follow: bool,
    pub smoothing: Option<u64>,
    pub xmode: XMode,
    pub max_runs: usize,
    pub max_points: usize,
}

pub struct ArgsView {
    pub logdir: Option<Seq<char>>,
    pub refresh: Option<u64>,
    pub follow: bool,
    pub smoothing: Option<u64>,
    pub xmode: XMode,
    pub max_runs: nat,
    pub max_points: nat,
}

/// What the arguments ask for.
pub enum Parsed {
    Help,
    Version,
    View(Args),
    /// They cannot be understood, for this reason.
    Bad(String),
}

pub enum ParsedView {
    Help,
    Version,
    View(ArgsView),
    Bad(Seq<char>),
}

impl View for Args {
    type V = ArgsView;

    open spec fn view(&self) -> ArgsView {
        ArgsView {
            logdir: Some(self.logdir@),
            refresh: self.refresh,
            follow: self.follow,
            smoothing: self.smoothing,
            xmode: self.xmode,
            max_runs: self.max_runs as nat,
            max_points: self.max_points as nat,
        }
    }
}

impl View for Parsed {
    type V = ParsedView;

    open spec fn view(&self) -> ParsedView {
        match self {
            Parsed::Help => ParsedView::Help,
            Parsed::Version => ParsedView::Version,
            Parsed::View(a) => ParsedView::View(a@),
            Parsed::Bad(e) => ParsedView::Bad(e@),
        }
    }
}

/// What holds without any option: eight runs are shown, which is the number of
/// hues, and 100000 points are kept of each series.
pub open spec fn default_args() -> ArgsView {
    ArgsView {
        logdir: None,
        refresh: None,
        follow: true,
        smoothing: None,
        xmode: XMode::Step,
        max_runs: 8,
        max_points: 100_000,
    }
}

/// The axis of that name.
pub open spec fn axis_named(s: Seq<char>) -> Option<XMode> {
    if s == "step"@ {
        Some(XMode::Step)
    } else if s == "reltime"@ {
        Some(XMode::RelTime)
    } else if s == "wall"@ {
        Some(XMode::Wall)
    } else {
        None
    }
}

/// One argument read: how many it takes with its value, and what is known
/// then; or what ends the reading.
pub enum Step {
    Go(int, ArgsView),
    Stop(ParsedView),
}

/// The number with a fraction that follows an option.
pub open spec fn number_behind(nums: Seq<Option<u64>>, i: int) -> Option<u64> {
    if i + 1 < nums.len() {
        nums[i + 1]
    } else {
        None
    }
}

/// The whole number that follows an option.
pub open spec fn count_behind(argv: Seq<Seq<char>>, i: int) -> Option<nat> {
    if i + 1 < argv.len() {
        natural(argv[i + 1], usize::MAX as nat)
    } else {
        None
    }
}

/// The argument at `i`, and its value if it takes one.
pub open spec fn step(
    argv: Seq<Seq<char>>,
    nums: Seq<Option<u64>>,
    i: int,
    a: ArgsView,
) -> Step {
    let arg = argv[i];
    if arg == "-h"@ || arg == "--help"@ {
        Step::Stop(ParsedView::Help)
    } else if arg == "-V"@ || arg == "--version"@ {
        Step::Stop(ParsedView::Version)
    } else if arg == "--no-follow"@ {
        Step::Go(1, ArgsView { follow: false, ..a })
    } else if arg == "--refresh"@ {
        match number_behind(nums, i) {
            Some(v) => Step::Go(2, ArgsView { refresh: Some(v), ..a }),
            None => Step::Stop(ParsedView::Bad("--refresh needs a number"@)),
        }
    } else if arg == "--smoothing"@ {
        match number_behind(nums, i) {
            Some(v) => Step::Go(2, ArgsView { smoothing: Some(v), ..a }),
            None => Step::Stop(ParsedView::Bad("--smoothing needs a number"@)),
        }
    } else if arg == "--max-runs"@ {
        match count_behind(argv, i) {
            Some(n) => Step::Go(2, ArgsView { max_runs: n, ..a }),
            None => Step::Stop(ParsedView::Bad("--max-runs needs a whole number (0 = all)"@)),
        }
    } else if arg == "--max-points"@ {
        match count_behind(argv, i) {
            Some(n) => Step::Go(2, ArgsView { max_points: n, ..a }),
            None => Step::Stop(
                ParsedView::Bad("--max-points needs a whole number (0 = keep all)"@),
            ),
        }
    } else if arg == "--x"@ {
        if i + 1 < argv.len() && axis_named(argv[i + 1]) is Some {
            Step::Go(2, ArgsView { xmode: axis_named(argv[i + 1])->0, ..a })
        } else {
            Step::Stop(ParsedView::Bad("--x must be step, reltime or wall"@))
        }
    } else if arg.len() > 0 && arg[0] == '-' {
        Step::Stop(ParsedView::Bad("unknown option: "@ + arg))
    } else if a.logdir is Some {
        Step::Stop(ParsedView::Bad("unexpected argument: "@ + arg))
    } else {
        Step::Go(1, ArgsView { logdir: Some(arg), ..a })
    }
}

/// The arguments from `i` on. The first that cannot be understood, or asks for
/// help or the version, decides.
pub open spec fn parsed_from(
    argv: Seq<Seq<char>>,
    nums: Seq<Option<u64>>,
    i: int,
    a: ArgsView,
) -> ParsedView
    decreases
        if i < argv.len() {
            argv.len() - i
        } else {
            0
        },
{
    if i >= argv.len() {
        match a.logdir {
            Some(_) => ParsedView::View(a),
            None => ParsedView::Bad("missing LOGDIR"@),
        }
    } else {
        match step(argv, nums, i, a) {
            Step::Stop(p) => p,
            Step::Go(n, b) => if n > 0 {
                parsed_from(argv, nums, i + n, b)
            } else {
                ParsedView::Bad(seq![])
            },
        }
    }
}

/// What is known so far.
struct Partial {
    logdir: Option<String>,
    refresh: Option<u64>,
    follow: bool,
    smoothing: Option<u64>,
    xmode: XMode,
    max_runs: usize,
    max_points: usize,
}

impl View for Partial {
    type V = ArgsView;

    closed spec fn view(&self) -> ArgsView {
        ArgsView {
            logdir: match self.logdir {
                Some(s) => Some(s@),
                None => None,
            },
            refresh: self.refresh,
            follow: self.follow,
            smoothing: self.smoothing,
            xmode: self.xmode,
            max_runs: self.max_runs as nat,
            max_points: self.max_points as nat,
        }
    }
}

fn number_at(nums: &Vec<Option<u64>>, i: usize) -> (r: Option<u64>)
    ensures
        r == number_behind(nums@, i as int),
{
    if i < nums.len() && i + 1 < nums.len() {
        nums[i + 1]
    } else {
        None
    }
}

fn count_at(argv: &Vec<String>, i: usize) -> (r: Option<usize>)
    requires
        i < argv@.len(),
    ensures
        match count_behind(text::texts(argv@), i as int) {
            Some(n) => r is Some && r->0 == n,
            None => r is None,
        },
{
    if argv.len() - i > 1 {
        parse_usize(argv[i + 1].as_str())
    } else {
        None
    }
}

fn axis_at(argv: &Vec<String>, i: usize) -> (r: Option<XMode>)
    requires
        i < argv@.len(),
    ensures
        r == if i + 1 < argv@.len() {
            axis_named(text::texts(argv@)[i + 1])
        } else {
            None
        },
{
    if argv.len() - i <= 1 {
        return None;
    }
    let s: &str = argv[i + 1].as_str();
    if text::same(s, "step") {
        Some(XMode::Step)
    } else if text::same(s, "reltime") {
        Some(XMode::RelTime)
    } else if text::same(s, "wall") {
        Some(XMode::Wall)
    } else {
        None
    }
}

fn is_one_of(arg: &str, short: &str, long: &str) -> (r: bool)
    ensures
        r == (arg@ == short@ || arg@ == long@),
{
    text::same(arg, short) || text::same(arg, long)
}

/// Read the argument at `i`. Says how many it takes with its value, or what
/// ends the reading.
fn read_step(argv: &Vec<String>, nums: &Vec<Option<u64>>, i: usize, a: &mut Partial) -> (r: Result<
    usize,
    Parsed,
>)
    requires
        i < argv@.len(),
    ensures
        match step(text::texts(argv@), nums@, i as int, old(a)@) {
            Step::Go(n, b) => r is Ok && r->Ok_0 == n && final(a)@ == b && 1 <= n <= 2 && i + n
                <= argv@.len() + 1,
            Step::Stop(p) => r is Err && r->Err_0@ == p,
        },
{
    let arg: &str = argv[i].as_str();
    assert(text::texts(argv@)[i as int] == arg@);
    if is_one_of(arg, "-h", "--help") {
        return Err(Parsed::Help);
    }
    if is_one_of(arg, "-V", "--version") {
        return Err(Parsed::Version);
    }
    if text::same(arg, "--no-follow") {
        a.follow = false;
        return Ok(1);
    }
    if text::same(arg, "--refresh") {
        return match number_at(nums, i) {
            Some(v) => {
                a.refresh = Some(v);
                Ok(2)
            },
            None => Err(Parsed::Bad("--refresh needs a number".to_string())),
        };
    }
    if text::same(arg, "--smoothing") {
        return match number_at(nums, i) {
            Some(v) => {
                a.smoothing = Some(v);
                Ok(2)
            },
            None => Err(Parsed::Bad("--smoothing needs a number".to_string())),
        };
    }
    if text::same(arg, "--max-runs") {
        return match count_at(argv, i) {
            Some(n) => {
                a.max_runs = n;
                Ok(2)
            },
            None => Err(Parsed::Bad("--max-runs needs a whole number (0 = all)".to_string())),
        };
    }
    if text::same(arg, "--max-points") {
        return match count_at(argv, i) {
            Some(n) => {
                a.max_points = n;
                Ok(2)
            },
            None => Err(
                Parsed::Bad("--max-points needs a whole number (0 = keep all)".to_string()),
            ),
        };
    }
    if text::same(arg, "--x") {
        return match axis_at(argv, i) {
            Some(x) => {
                a.xmode = x;
                Ok(2)
            },
            None => Err(Parsed::Bad("--x must be step, reltime or wall".to_string())),
        };
    }
    let chars: Vec<char> = text::chars_of(arg);
    if chars.len() > 0 && chars[0] == '-' {
        let mut msg: String = "unknown option: ".to_string();
        msg.append(arg);
        return Err(Parsed::Bad(msg));
    }
    if a.logdir.is_some() {
        let mut msg: String = "unexpected argument: ".to_string();
        msg.append(arg);
        return Err(Parsed::Bad(msg));
    }
    a.logdir = Some(arg.to_string());
    Ok(1)
}

/// Read the arguments of the viewer, from `from` on. `nums` holds, for each
/// argument, the bits of the number with a fraction that it is, if it is one.
pub fn parse_args(argv: &Vec<String>, nums: &Vec<Option<u64>>, from: usize) -> (r: Parsed)
    requires
        nums@.len() == argv@.len(),
    ensures
        r@ == parsed_from(text::texts(argv@), nums@, from as int, default_args()),
{
    let mut a: Partial = Partial {
        logdir: None,
        refresh: None,
        follow: true,
        smoothing: None,
        xmode: XMode::Step,
        max_runs: 8,
        max_points: 100_000,
    };
    let ghost names = text::texts(argv@);
    let mut i: usize = from;
    while i < argv.len()
        invariant
            names == text::texts(argv@),
            nums@.len() == argv@.len(),
            parsed_from(names, nums@, from as int, default_args()) == parsed_from(
                names,
                nums@,
                i as int,
                a@,
            ),
        decreases argv.len() - i,
    {
        match read_step(argv, nums, i, &mut a) {
            Ok(n) => {
                if argv.len() - i <= n {
                    i = argv.len();
                } else {
                    i = i + n;
                }
            },
            Err(p) => {
                return p;
            },
        }
    }
    match a.logdir {
        Some(logdir) => Parsed::View(
            Args {
                logdir,
                refresh: a.refresh,
                follow: a.follow,
                smoothing: a.smoothing,
                xmode: a.xmode,
                max_runs: a.max_runs,
                max_points: a.max_points,
            },
        ),
        None => Parsed::Bad("missing LOGDIR".to_string()),
    }
}

// ---------------------------------------------------------------------------
// Commands
// ---------------------------------------------------------------------------
/// What the program is to do.
pub enum Command {
    /// Write demo logs: where, how many steps, and whether to go on appending.
    GenDemo(String, i64, bool),
    /// Measure loading: of which directory, and how many points are kept.
    Bench(String, usize),
    /// Show logs.
    Viewer(Parsed),
}

pub enum CommandView {
    GenDemo(Seq<char>, int, bool),
    Bench(Seq<char>, int),
    Viewer(ParsedView),
}

impl View for Command {
    type V = CommandView;

    open spec fn view(&self) -> CommandView {
        match self {
            Command::GenDemo(dir, steps, live) => CommandView::GenDemo(dir@, *steps as int, *live),
            Command::Bench(dir, cap) => CommandView::Bench(dir@, *cap as int),
            Command::Viewer(p) => CommandView::Viewer(p@),
        }
    }
}

/// The options of the demo from `i` on. What is not one of them is passed
/// over, and so is a number of steps that is none.
pub open spec fn demo_from(argv: Seq<Seq<char>>, i: int, steps: int, live: bool) -> (int, bool)
    decreases
        if i < argv.len() {
            argv.len() - i
        } else {
            0
        },
{
    if i >= argv.len() {
        (steps, live)
    } else if argv[i] == "--steps"@ {
        demo_from(
            argv,
            i + 2,
            if i + 1 < argv.len() && whole(argv[i + 1]) is Some {
                whole(argv[i + 1])->0
            } else {
                steps
            },
            live,
        )
    } else if argv[i] == "--live"@ {
        demo_from(argv, i + 1, steps, true)
    } else {
        demo_from(argv, i + 1, steps, live)
    }
}

/// The number behind the first place of the option that caps the points, from
/// `i` on; none if it is missing.
pub open spec fn cap_from(argv: Seq<Seq<char>>, i: int) -> nat
    decreases argv.len() - i,
{
    if i >= argv.len() {
        0
    } else if argv[i] == "--max-points"@ {
        match count_behind(argv, i) {
            Some(n) => n,
            None => 0,
        }
    } else {
        cap_from(argv, i + 1)
    }
}

/// The argument in that place, or the text that stands for it.
pub open spec fn arg_or(argv: Seq<Seq<char>>, i: int, other: Seq<char>) -> Seq<char> {
    if i < argv.len() {
        argv[i]
    } else {
        other
    }
}

/// What the arguments of the program, its name first, ask it to do.
pub open spec fn command_of(argv: Seq<Seq<char>>, nums: Seq<Option<u64>>) -> CommandView {
    if argv.len() > 1 && argv[1] == "gen-demo"@ {
        let d = demo_from(argv, 3, 5000, false);
        CommandView::GenDemo(arg_or(argv, 2, "demo_logs"@), d.0, d.1)
    } else if argv.len() > 1 && argv[1] == "bench"@ {
        CommandView::Bench(arg_or(argv, 2, "."@), cap_from(argv, 0) as int)
    } else {
        CommandView::Viewer(parsed_from(argv, nums, 1, default_args()))
    }
}

fn arg_text(argv: &Vec<String>, i: usize, other: &str) -> (r: String)
    ensures
        r@ == arg_or(text::texts(argv@), i as int, other@),
{
    if i < argv.len() {
        argv[i].clone()
    } else {
        other.to_string()
    }
}

fn demo_options(argv: &Vec<String>) -> (r: (i64, bool))
    ensures
        ({
            let d = demo_from(text::texts(argv@), 3, 5000, false);
            r.0 == d.0 && r.1 == d.1
        }),
{
    let ghost names = text::texts(argv@);
    let mut steps: i64 = 5000;
    let mut live: bool = false;
    let mut i: usize = 3;
    while i < argv.len()
        invariant
            names == text::texts(argv@),
            demo_from(names, 3, 5000, false) == demo_from(names, i as int, steps as int, live),
        decreases argv.len() - i,
    {
        let arg: &str = argv[i].as_str();
        assert(names[i as int] == arg@);
        if text::same(arg, "--steps") {
            if argv.len() - i > 1 {
                match parse_i64(argv[i + 1].as_str()) {
                    Some(n) => {
                        steps = n;
                    },
                    None => {},
                }
                i = i + 1;
            } else {
                assert(demo_from(names, i + 2, steps as int, live) == (steps as int, live));
            }
        } else if text::same(arg, "--live") {
            live = true;
        }
        i = i + 1;
    }
    (steps, live)
}

fn cap_option(argv: &Vec<String>) -> (r: usize)
    ensures
        r == cap_from(text::texts(argv@), 0),
{
    let ghost names = text::texts(argv@);
    let mut i: usize = 0;
    while i < argv.len()
        invariant
            names == text::texts(argv@),
            i <= argv@.len(),
            cap_from(names, 0) == cap_from(names, i as int),
        decreases argv.len() - i,
    {
        assert(names[i as int] == argv@[i as int]@);
        if text::same(argv[i].as_str(), "--max-points") {
            return match count_at(argv, i) {
                Some(n) => n,
                None => 0,
            };
        }
        i = i + 1;
    }
    0
}

/// Read the arguments of the program, its name first. `nums` holds, for each
/// argument, the bits of the number with a fraction that it is, if it is one.
pub fn read_command(argv: &Vec<String>, nums: &Vec<Option<u64>>) -> (r: Command)
    requires
        nums@.len() == argv@.len(),
    ensures
        r@ == command_of(text::texts(argv@), nums@),
{
    if argv.len() > 1 {
        assert(text::texts(argv@)[1] == argv@[1]@);
        if text::same(argv[1].as_str(), "gen-demo") {
            let (steps, live) = demo_options(argv);
            return Command::GenDemo(arg_text(argv, 2, "demo_logs"), steps, live);
        }
        if text::same(argv[1].as_str(), "bench") {
            return Command::Bench(arg_text(argv, 2, "."), cap_option(argv));
        }
    }
    Command::Viewer(parse_args(argv, nums, 1))
}

/// What is said of a log directory that is none.
pub fn not_a_directory(dir: &str) -> (r: String)
    ensures
        r@ == "not a directory: "@ + dir@,
{
    let mut out: String = "not a directory: ".to_string();
    out.append(dir);
    out
}


// ---------------------------------------------------------------------------
// Laws
// ---------------------------------------------------------------------------
/// A number that was written out in digits is read as that number, with a plus
/// sign before it or without, if it is not too large. With a minus sign it is
/// read as its opposite, where a sign is allowed.
pub proof fn law_numbers_are_read(n: nat, max: nat)
    ensures
        natural(text::decimal(n), max) == if n <= max {
            Some(n)
        } else {
            None
        },
        natural(seq!['+'] + text::decimal(n), max) == if n <= max {
            Some(n)
        } else {
            None
        },
        natural(seq!['-'] + text::decimal(n), max) is None,
        natural(seq![], max) is None,
        n <= 0x7fff_ffff_ffff_ffff ==> whole(text::decimal(n)) == Some(n as int),
        n > 0x7fff_ffff_ffff_ffff ==> whole(text::decimal(n)) is None,
        n <= 0x8000_0000_0000_0000 ==> whole(seq!['-'] + text::decimal(n)) == Some(-(n as int)),
        n > 0x8000_0000_0000_0000 ==> whole(seq!['-'] + text::decimal(n)) is None,
{
    let d = text::decimal(n);
    lemma_decimal_value(n);
    crate::number_laws::law_decimals_read_back(n);
    assert('0' <= d[0] <= '9');
    let p = seq!['+'] + d;
    let m = seq!['-'] + d;
    assert(p.drop_first() =~= d);
    assert(m.drop_first() =~= d);
    lemma_no_digit(m, 0);
}

proof fn lemma_decimal_value(n: nat)
    ensures
        digits_value(text::decimal(n)) == Some(n),
    decreases n,
{
    let s = text::decimal(n);
    if n < 10 {
        assert(s.drop_last() =~= seq![]);
        assert(digits_value(seq![]) == Some(0nat));
        assert(s.last() as int == '0' as int + n);
    } else {
        lemma_decimal_value(n / 10);
        assert(s.drop_last() =~= text::decimal(n / 10));
        assert(s.last() as int == '0' as int + n % 10);
    }
}

/// A text with anything but digits in it is no number.
proof fn lemma_no_digit(s: Seq<char>, i: int)
    requires
        0 <= i < s.len(),
        s[i] < '0' || s[i] > '9',
    ensures
        digits_value(s) is None,
    decreases s.len(),
{
    if i < s.len() - 1 {
        assert(s.drop_last()[i] == s[i]);
        lemma_no_digit(s.drop_last(), i);
    }
}

/// Each option sets what it is for, from its value where it takes one, and the
/// rest is read behind it. A value that is missing or cannot be understood is
/// refused by name.
pub proof fn law_options(argv: Seq<Seq<char>>, nums: Seq<Option<u64>>, i: int, a: ArgsView)
    requires
        0 <= i < argv.len(),
        nums.len() == argv.len(),
    ensures
        ({
            let r = parsed_from(argv, nums, i, a);
            let last = i + 1 == argv.len();
            &&& argv[i] == "--help"@ || argv[i] == "-h"@ ==> r == ParsedView::Help
            &&& argv[i] == "--version"@ || argv[i] == "-V"@ ==> r == ParsedView::Version
            &&& argv[i] == "--no-follow"@ ==> r == parsed_from(
                argv,
                nums,
                i + 1,
                ArgsView { follow: false, ..a },
            )
            &&& argv[i] == "--refresh"@ ==> r == if last || nums[i + 1] is None {
                ParsedView::Bad("--refresh needs a number"@)
            } else {
                parsed_from(argv, nums, i + 2, ArgsView { refresh: nums[i + 1], ..a })
            }
            &&& argv[i] == "--smoothing"@ ==> r == if last || nums[i + 1] is None {
                ParsedView::Bad("--smoothing needs a number"@)
            } else {
                parsed_from(argv, nums, i + 2, ArgsView { smoothing: nums[i + 1], ..a })
            }
            &&& argv[i] == "--max-runs"@ ==> r == if last || natural(
                argv[i + 1],
                usize::MAX as nat,
            ) is None {
                ParsedView::Bad("--max-runs needs a whole number (0 = all)"@)
            } else {
                parsed_from(
                    argv,
                    nums,
                    i + 2,
                    ArgsView { max_runs: natural(argv[i + 1], usize::MAX as nat)->0, ..a },
                )
            }
            &&& argv[i] == "--max-points"@ ==> r == if last || natural(
                argv[i + 1],
                usize::MAX as nat,
            ) is None {
                ParsedView::Bad("--max-points needs a whole number (0 = keep all)"@)
            } else {
                parsed_from(
                    argv,
                    nums,
                    i + 2,
                    ArgsView { max_points: natural(argv[i + 1], usize::MAX as nat)->0, ..a },
                )
            }
            &&& argv[i] == "--x"@ && !last && argv[i + 1] == "step"@ ==> r == parsed_from(
                argv,
                nums,
                i + 2,
                ArgsView { xmode: XMode::Step, ..a },
            )
            &&& argv[i] == "--x"@ && !last && argv[i + 1] == "reltime"@ ==> r == parsed_from(
                argv,
                nums,
                i + 2,
                ArgsView { xmode: XMode::RelTime, ..a },
            )
            &&& argv[i] == "--x"@ && !last && argv[i + 1] == "wall"@ ==> r == parsed_from(
                argv,
                nums,
                i + 2,
                ArgsView { xmode: XMode::Wall, ..a },
            )
            &&& argv[i] == "--x"@ && (last || (argv[i + 1] != "step"@ && argv[i + 1] != "reltime"@
                && argv[i + 1] != "wall"@)) ==> r == ParsedView::Bad(
                "--x must be step, reltime or wall"@,
            )
        }),
{
    lemma_option_names();
}

proof fn lemma_option_names()
    ensures
        "-h"@.len() == 2 && "-h"@[1] == 'h',
        "-V"@.len() == 2 && "-V"@[1] == 'V',
        "--help"@.len() == 6,
        "--version"@.len() == 9 && "--version"@[2] == 'v',
        "--no-follow"@.len() == 11 && "--no-follow"@[2] == 'n',
        "--refresh"@.len() == 9 && "--refresh"@[2] == 'r',
        "--smoothing"@.len() == 11 && "--smoothing"@[2] == 's',
        "--max-runs"@.len() == 10,
        "--max-points"@.len() == 12,
        "--x"@.len() == 3,
        "step"@.len() == 4 && "step"@[0] == 's',
        "reltime"@.len() == 7,
        "wall"@.len() == 4 && "wall"@[0] == 'w',
{
    reveal_strlit("-h");
    reveal_strlit("-V");
    reveal_strlit("--help");
    reveal_strlit("--version");
    reveal_strlit("--no-follow");
    reveal_strlit("--refresh");
    reveal_strlit("--smoothing");
    reveal_strlit("--max-runs");
    reveal_strlit("--max-points");
    reveal_strlit("--x");
    reveal_strlit("step");
    reveal_strlit("reltime");
    reveal_strlit("wall");
}

/// The one argument without a dash is the log directory; a second one, an option
/// that does not exist, and a missing log directory are refused.
pub proof fn law_log_directory(argv: Seq<Seq<char>>, nums: Seq<Option<u64>>, i: int, a: ArgsView)
    requires
        0 <= i <= argv.len(),
    ensures
        i < argv.len() && (argv[i].len() == 0 || argv[i][0] != '-') ==> parsed_from(
            argv,
            nums,
            i,
            a,
        ) == if a.logdir is None {
            parsed_from(argv, nums, i + 1, ArgsView { logdir: Some(argv[i]), ..a })
        } else {
            ParsedView::Bad("unexpected argument: "@ + argv[i])
        },
        i < argv.len() && argv[i].len() > 0 && argv[i][0] == '-' && !is_option(argv[i])
            ==> parsed_from(argv, nums, i, a) == ParsedView::Bad("unknown option: "@ + argv[i]),
        i == argv.len() ==> parsed_from(argv, nums, i, a) == if a.logdir is Some {
            ParsedView::View(a)
        } else {
            ParsedView::Bad("missing LOGDIR"@)
        },
{
    lemma_option_names();
    reveal_strlit("-h");
    reveal_strlit("-V");
    reveal_strlit("--help");
    reveal_strlit("--version");
    reveal_strlit("--no-follow");
    reveal_strlit("--refresh");
    reveal_strlit("--smoothing");
    reveal_strlit("--max-runs");
    reveal_strlit("--max-points");
    reveal_strlit("--x");
}

/// These are the options.
pub open spec fn is_option(arg: Seq<char>) -> bool {
    ||| arg == "-h"@ || arg == "--help"@ || arg == "-V"@ || arg == "--version"@
    ||| arg == "--no-follow"@ || arg == "--refresh"@ || arg == "--smoothing"@
    ||| arg == "--max-runs"@ || arg == "--max-points"@ || arg == "--x"@
}

/// What holds where no option says otherwise.
pub proof fn law_defaults()
    ensures
        default_args().logdir is None,
        default_args().refresh is None,
        default_args().smoothing is None,
        default_args().follow,
        default_args().xmode == XMode::Step,
        default_args().max_runs == 8,
        default_args().max_points == 100_000,
{
}

/// The first argument says what the program does: make demo logs, measure the
/// loading, or else show what there is.
pub proof fn law_commands(argv: Seq<Seq<char>>, nums: Seq<Option<u64>>)
    requires
        argv.len() > 1,
    ensures
        argv[1] == "gen-demo"@ ==> command_of(argv, nums) == ({
            let d = demo_from(argv, 3, 5000, false);
            CommandView::GenDemo(
                if argv.len() > 2 {
                    argv[2]
                } else {
                    "demo_logs"@
                },
                d.0,
                d.1,
            )
        }),
        argv[1] == "bench"@ ==> command_of(argv, nums) == CommandView::Bench(
            if argv.len() > 2 {
                argv[2]
            } else {
                "."@
            },
            cap_from(argv, 0) as int,
        ),
        argv[1] != "gen-demo"@ && argv[1] != "bench"@ ==> command_of(argv, nums)
            == CommandView::Viewer(parsed_from(argv, nums, 1, default_args())),
{
    reveal_strlit("gen-demo");
    reveal_strlit("bench");
    assert("gen-demo"@.len() != "bench"@.len());
}

/// The demo takes a number of steps and may go on live; whatever else stands
/// there is passed over.
pub proof fn law_demo_options(argv: Seq<Seq<char>>, i: int, steps: int, live: bool)
    requires
        0 <= i,
    ensures
        i >= argv.len() ==> demo_from(argv, i, steps, live) == (steps, live),
        i + 1 < argv.len() && argv[i] == "--steps"@ && whole(argv[i + 1]) is Some ==> demo_from(
            argv,
            i,
            steps,
            live,
        ) == demo_from(argv, i + 2, whole(argv[i + 1])->0, live),
        i < argv.len() && argv[i] == "--live"@ ==> demo_from(argv, i, steps, live) == demo_from(
            argv,
            i + 1,
            steps,
            true,
        ),
        i < argv.len() && argv[i] != "--steps"@ && argv[i] != "--live"@ ==> demo_from(
            argv,
            i,
            steps,
            live,
        ) == demo_from(argv, i + 1, steps, live),
{
    reveal_strlit("--steps");
    reveal_strlit("--live");
    assert("--steps"@.len() != "--live"@.len());
}

/// The cap of the points is the number behind the first place where it is asked
/// for, and none where it is not.
pub proof fn law_cap_of_points(argv: Seq<Seq<char>>, i: int, j: int)
    requires
        0 <= i <= j,
        forall|k: int| i <= k < j && k < argv.len() ==> #[trigger] argv[k] != "--max-points"@,
    ensures
        j >= argv.len() ==> cap_from(argv, i) == 0,
        j + 1 < argv.len() && argv[j] == "--max-points"@ && natural(
            argv[j + 1],
            usize::MAX as nat,
        ) is Some ==> cap_from(argv, i) == natural(argv[j + 1], usize::MAX as nat)->0,
        j + 1 == argv.len() && argv[j] == "--max-points"@ ==> cap_from(argv, i) == 0,
    decreases j - i,
{
    if i < j && i < argv.len() {
        assert(argv[i] != "--max-points"@);
        law_cap_of_points(argv, i + 1, j);
    }
}

} // verus!
