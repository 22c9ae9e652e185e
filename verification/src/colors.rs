//! Categorical colours for run series.
//!
//! Eight hues in a fixed order: blue, orange, aqua, yellow, magenta, green,
//! violet, red. Two rules drive the assignment:
//!
//! * A run keeps its colour. The slot is handed out once, when the run is
//!   discovered, and never computed anew.
//! * Past the eighth run the hues repeat, but each repeat comes with another
//!   line style, so two runs that share a hue are still told apart.
use vstd::prelude::*;

use crate::text;

verus! {

/// A colour of the terminal.
#[derive(Clone, Copy, PartialEq, Eq, Structural, Debug)]
pub enum Color {
    Reset,
    Blue,
    LightRed,
    Cyan,
    Yellow,
    LightMagenta,
    Green,
    LightBlue,
    Red,
    Rgb(u8, u8, u8),
    Indexed(u8),
}

/// How many hues there are before they repeat.
pub const SLOTS: usize = 8;

/// How a line is stroked.
#[derive(Clone, Copy, PartialEq, Eq, Structural, Debug)]
pub struct Dash {
    /// Pixels drawn out of every `period`.
    pub on: u32,
    pub period: u32,
}

/// How many line styles there are behind the first three: more than a colour
/// slot can ask for.
pub const MORE_STYLES: u64 = 0x2000_0000_0000_0000;

impl Dash {
    /// The line styles, in the order in which they come to be used. Behind the
    /// first three the gaps get longer with every style.
    pub open spec fn style(i: int) -> Dash {
        if i <= 0 {
            Dash { on: 1, period: 1 }
        } else if i == 1 {
            Dash { on: 6, period: 9 }
        } else if i == 2 {
            Dash { on: 2, period: 6 }
        } else {
            let k = if i - 3 < MORE_STYLES {
                i - 3
            } else {
                MORE_STYLES as int
            };
            Dash {
                on: (3 + k / 0x8000_0000) as u32,
                period: (12 + k / 0x8000_0000 + k % 0x8000_0000) as u32,
            }
        }
    }

    /// The line style in that place: solid, then dashed, then dotted, then
    /// ever wider gaps.
    pub fn nth(i: usize) -> (r: Dash)
        ensures
            r == Dash::style(i as int),
    {
        if i == 0 {
            Dash { on: 1, period: 1 }
        } else if i == 1 {
            Dash { on: 6, period: 9 }
        } else if i == 2 {
            Dash { on: 2, period: 6 }
        } else {
            let more: u64 = (i - 3) as u64;
            let k: u64 = if more < MORE_STYLES {
                more
            } else {
                MORE_STYLES
            };
            let high: u64 = k / 0x8000_0000;
            let low: u64 = k % 0x8000_0000;
            Dash { on: (3 + high) as u32, period: (12 + high + low) as u32 }
        }
    }

    /// An unbroken line.
    pub fn solid() -> (r: Dash)
        ensures
            r == Dash::style(0),
    {
        Dash::nth(0)
    }

    /// The pixel at this place of the pattern is drawn.
    pub open spec fn covered(&self, phase: int) -> bool {
        self.period <= 1 || phase % (self.period as int) < self.on
    }

    /// Whether the pixel at this place of the pattern is drawn.
    pub fn covers(&self, phase: u32) -> (r: bool)
        ensures
            r == self.covered(phase as int),
    {
        self.period <= 1 || phase % self.period < self.on
    }

    /// The legend marker of a line style.
    pub open spec fn marker_text(&self) -> Seq<char> {
        if self.period <= 1 {
            "●"@
        } else if self.period == 9 {
            "◆"@
        } else {
            "▪"@
        }
    }

    /// Legend marker: one glyph for solid lines, one for dashed ones and one
    /// for all others, so that identity is never carried by hue alone.
    pub fn marker(&self) -> (r: &'static str)
        ensures
            r@ == self.marker_text(),
    {
        if self.period <= 1 {
            "●"
        } else if self.period == 9 {
            "◆"
        } else {
            "▪"
        }
    }
}

/// How many colours the terminal can render.
#[derive(Clone, Copy, PartialEq, Eq, Structural, Debug)]
pub enum Depth {
    Truecolor,
    Indexed256,
    Basic,
}

/// A letter of the ASCII alphabet in lower case; any other character as it
/// is.
pub open spec fn ascii_lower(c: char) -> char {
    if 'A' <= c <= 'Z' {
        ((c as u32) + 32) as char
    } else {
        c
    }
}

/// The strings are the same but for the case of ASCII letters.
pub open spec fn same_but_case(a: Seq<char>, b: Seq<char>) -> bool {
    a.len() == b.len() && forall|i: int|
        0 <= i < a.len() ==> ascii_lower(#[trigger] a[i]) == ascii_lower(b[i])
}

fn lower(c: char) -> (r: char)
    ensures
        r == ascii_lower(c),
{
    if 'A' <= c && c <= 'Z' {
        (c as u8 + 32) as char
    } else {
        c
    }
}

/// Whether the strings are the same but for the case of ASCII letters.
pub fn equals_ignoring_case(a: &str, b: &str) -> (r: bool)
    ensures
        r == same_but_case(a@, b@),
{
    let x: Vec<char> = text::chars_of(a);
    let y: Vec<char> = text::chars_of(b);
    if x.len() != y.len() {
        return false;
    }
    let mut i: usize = 0;
    while i < x.len()
        invariant
            x@ == a@,
            y@ == b@,
            x@.len() == y@.len(),
            i <= x@.len(),
            forall|j: int| 0 <= j < i ==> ascii_lower(#[trigger] a@[j]) == ascii_lower(b@[j]),
        decreases x.len() - i,
    {
        if lower(x[i]) != lower(y[i]) {
            assert(ascii_lower(a@[i as int]) != ascii_lower(b@[i as int]));
            return false;
        }
        i = i + 1;
    }
    true
}

/// The name of a terminal that is known to render at least 256 colours.
pub open spec fn rich_terminal(term: Seq<char>) -> bool {
    ||| text::has_part(term, "256color"@)
    ||| text::has_part(term, "direct"@)
    ||| text::has_part(term, "kitty"@)
    ||| text::has_part(term, "alacritty"@)
    ||| text::has_part(term, "wezterm"@)
    ||| text::has_part(term, "foot"@)
    ||| text::has_part(term, "contour"@)
    ||| text::has_part(term, "ghostty"@)
}

/// What the terminal can render, as its two environment hints say.
pub open spec fn depth_of(colorterm: Seq<char>, term: Seq<char>) -> Depth {
    if same_but_case(colorterm, "truecolor"@) || same_but_case(colorterm, "24bit"@) {
        Depth::Truecolor
    } else if rich_terminal(term) || colorterm.len() > 0 {
        Depth::Indexed256
    } else {
        Depth::Basic
    }
}

/// What the terminal can render, from the usual environment hints; one that
/// is not set is empty.
pub fn detect_depth(colorterm: &str, term: &str) -> (r: Depth)
    ensures
        r == depth_of(colorterm@, term@),
{
    if equals_ignoring_case(colorterm, "truecolor") || equals_ignoring_case(colorterm, "24bit") {
        return Depth::Truecolor;
    }
    if text::contains(term, "256color") || text::contains(term, "direct") || text::contains(
        term,
        "kitty",
    ) || text::contains(term, "alacritty") || text::contains(term, "wezterm") || text::contains(
        term,
        "foot",
    ) || text::contains(term, "contour") || text::contains(term, "ghostty") || text::char_count(
        colorterm,
    ) > 0 {
        return Depth::Indexed256;
    }
    Depth::Basic
}

/// The hue of a slot among the eight.
pub open spec fn hue(depth: Depth, i: int) -> Color {
    match depth {
        Depth::Truecolor => if i == 0 {
            Color::Rgb(0x39, 0x87, 0xe5)
        } else if i == 1 {
            Color::Rgb(0xd9, 0x59, 0x26)
        } else if i == 2 {
            Color::Rgb(0x19, 0x9e, 0x70)
        } else if i == 3 {
            Color::Rgb(0xc9, 0x85, 0x00)
        } else if i == 4 {
            Color::Rgb(0xd5, 0x51, 0x81)
        } else if i == 5 {
            Color::Rgb(0x00, 0x83, 0x00)
        } else if i == 6 {
            Color::Rgb(0x90, 0x85, 0xe9)
        } else {
            Color::Rgb(0xe6, 0x67, 0x67)
        },
        Depth::Indexed256 => if i == 0 {
            Color::Indexed(32)
        } else if i == 1 {
            Color::Indexed(166)
        } else if i == 2 {
            Color::Indexed(29)
        } else if i == 3 {
            Color::Indexed(136)
        } else if i == 4 {
            Color::Indexed(168)
        } else if i == 5 {
            Color::Indexed(28)
        } else if i == 6 {
            Color::Indexed(68)
        } else {
            Color::Indexed(167)
        },
        Depth::Basic => if i == 0 {
            Color::Blue
        } else if i == 1 {
            Color::LightRed
        } else if i == 2 {
            Color::Cyan
        } else if i == 3 {
            Color::Yellow
        } else if i == 4 {
            Color::LightMagenta
        } else if i == 5 {
            Color::Green
        } else if i == 6 {
            Color::LightBlue
        } else {
            Color::Red
        },
    }
}

#[derive(Clone, Copy)]
pub struct Palette {
    pub depth: Depth,
}

impl Palette {
    /// The hue of a colour slot.
    pub open spec fn color_of(&self, slot: int) -> Color {
        hue(self.depth, slot % 8)
    }

    /// The line style of a colour slot.
    pub open spec fn dash_of(&self, slot: int) -> Dash {
        Dash::style(slot / 8)
    }

    pub fn new(depth: Depth) -> (r: Self)
        ensures
            r.depth == depth,
    {
        Palette { depth }
    }

    /// The palette for a terminal with these environment hints.
    pub fn detect(colorterm: &str, term: &str) -> (r: Self)
        ensures
            r.depth == depth_of(colorterm@, term@),
    {
        Palette::new(detect_depth(colorterm, term))
    }

    /// Hue for a run's colour slot.
    pub fn color(&self, slot: usize) -> (r: Color)
        ensures
            r == self.color_of(slot as int),
    {
        let i: usize = slot % SLOTS;
        match self.depth {
            Depth::Truecolor => match i {
                0 => Color::Rgb(0x39, 0x87, 0xe5),
                1 => Color::Rgb(0xd9, 0x59, 0x26),
                2 => Color::Rgb(0x19, 0x9e, 0x70),
                3 => Color::Rgb(0xc9, 0x85, 0x00),
                4 => Color::Rgb(0xd5, 0x51, 0x81),
                5 => Color::Rgb(0x00, 0x83, 0x00),
                6 => Color::Rgb(0x90, 0x85, 0xe9),
                _ => Color::Rgb(0xe6, 0x67, 0x67),
            },
            Depth::Indexed256 => match i {
                0 => Color::Indexed(32),
                1 => Color::Indexed(166),
                2 => Color::Indexed(29),
                3 => Color::Indexed(136),
                4 => Color::Indexed(168),
                5 => Color::Indexed(28),
                6 => Color::Indexed(68),
                _ => Color::Indexed(167),
            },
            Depth::Basic => match i {
                0 => Color::Blue,
                1 => Color::LightRed,
                2 => Color::Cyan,
                3 => Color::Yellow,
                4 => Color::LightMagenta,
                5 => Color::Green,
                6 => Color::LightBlue,
                _ => Color::Red,
            },
        }
    }

    /// Line style for a run's colour slot: solid for the first eight runs,
    /// then dashed, then dotted, then another one for each further eight.
    pub fn dash(&self, slot: usize) -> (r: Dash)
        ensures
            r == self.dash_of(slot as int),
    {
        Dash::nth(slot / SLOTS)
    }
}

// ---------------------------------------------------------------------------
// Laws
// ---------------------------------------------------------------------------
/// At every depth the first eight slots have distinct hues and solid lines.
pub proof fn law_eight_distinct_hues(p: Palette, a: int, b: int)
    requires
        0 <= a < b < 8,
    ensures
        p.color_of(a) != p.color_of(b),
        p.dash_of(a) == Dash::style(0),
        p.dash_of(b) == Dash::style(0),
{
}

/// Two slots that share a hue differ in line style.
pub proof fn law_repeated_hues_differ_in_style(p: Palette, a: int, b: int)
    requires
        0 <= a <= u64::MAX,
        0 <= b <= u64::MAX,
        a != b,
    ensures
        a % 8 == b % 8 <==> p.color_of(a) == p.color_of(b),
        a % 8 == b % 8 ==> p.dash_of(a) != p.dash_of(b),
{
    if a % 8 < b % 8 {
        law_eight_distinct_hues(p, a % 8, b % 8);
    } else if b % 8 < a % 8 {
        law_eight_distinct_hues(p, b % 8, a % 8);
    }
}

/// Solid, dashed and dotted lines have distinct legend markers.
pub proof fn law_first_styles_differ_in_marker(i: int, j: int)
    requires
        0 <= i < j <= 2,
    ensures
        Dash::style(i).marker_text() != Dash::style(j).marker_text(),
{
    reveal_strlit("●");
    reveal_strlit("◆");
    reveal_strlit("▪");
    assert("●"@[0] != "◆"@[0] && "●"@[0] != "▪"@[0] && "◆"@[0] != "▪"@[0]);
}

/// The hue of a slot repeats every eight slots and depends on nothing else.
pub proof fn law_hues_repeat(p: Palette, slot: int)
    requires
        0 <= slot,
    ensures
        p.color_of(slot + 8) == p.color_of(slot),
{
}

/// The pattern of a line repeats with its period.
pub proof fn law_pattern_repeats(d: Dash, phase: int)
    requires
        0 <= phase,
    ensures
        d.covered(phase + d.period) == d.covered(phase),
{
    if d.period > 1 {
        assert((phase + d.period) % (d.period as int) == phase % (d.period as int))
            by (nonlinear_arith)
            requires
                d.period > 1,
                0 <= phase,
        ;
    }
}

/// A solid line covers every pixel. A dashed one covers six pixels of nine, a
/// dotted one two of six, and each further style three of a stretch that gets
/// longer by one.
pub proof fn law_patterns_of_the_styles(i: int, phase: int)
    requires
        0 <= i <= 0x8000_0000,
        0 <= phase,
    ensures
        Dash::style(0).covered(phase),
        Dash::style(1).covered(phase) <==> phase % 9 < 6,
        Dash::style(2).covered(phase) <==> phase % 6 < 2,
        i >= 3 ==> (Dash::style(i).covered(phase) <==> phase % (9 + i) < 3),
{
}

/// A dashed line has its own marker, and so has a solid one; all others share
/// theirs.
pub proof fn law_markers(i: int)
    requires
        0 <= i <= u64::MAX,
    ensures
        i == 0 <==> Dash::style(i).marker_text() == "●"@,
        i == 1 <==> Dash::style(i).marker_text() == "◆"@,
        i >= 2 <==> Dash::style(i).marker_text() == "▪"@,
{
    reveal_strlit("●");
    reveal_strlit("◆");
    reveal_strlit("▪");
    assert("●"@[0] != "◆"@[0] && "●"@[0] != "▪"@[0] && "◆"@[0] != "▪"@[0]);
}

/// `c` reads like `word`, which is in lower case.
pub open spec fn reads_like(c: Seq<char>, word: Seq<char>) -> bool {
    c.len() == word.len() && forall|i: int|
        0 <= i < c.len() ==> (#[trigger] c[i] == word[i] || ('a' <= word[i] <= 'z' && c[i] as int
            + 32 == word[i] as int))
}

/// A terminal renders all colours exactly if the first hint reads "truecolor" or
/// "24bit", in upper or lower case, whatever its name is.
pub proof fn law_truecolor_terminals(colorterm: Seq<char>, term: Seq<char>)
    ensures
        depth_of(colorterm, term) == Depth::Truecolor <==> reads_like(colorterm, "truecolor"@)
            || reads_like(colorterm, "24bit"@),
{
    reveal_strlit("truecolor");
    reveal_strlit("24bit");
    lemma_reads_like(colorterm, "truecolor"@);
    lemma_reads_like(colorterm, "24bit"@);
}

proof fn lemma_reads_like(c: Seq<char>, word: Seq<char>)
    requires
        forall|i: int| 0 <= i < word.len() ==> !('A' <= #[trigger] word[i] <= 'Z'),
    ensures
        same_but_case(c, word) <==> reads_like(c, word),
{
    assert forall|i: int| 0 <= i < c.len() && c.len() == word.len() implies (ascii_lower(
        #[trigger] c[i],
    ) == ascii_lower(word[i]) <==> (c[i] == word[i] || ('a' <= word[i] <= 'z' && c[i] as int + 32
        == word[i] as int))) by {
        let x = c[i];
        if 'A' <= x <= 'Z' {
            assert(((x as u32) + 32) as char as int == x as int + 32);
        }
    }
    if reads_like(c, word) {
        assert forall|i: int| 0 <= i < c.len() implies ascii_lower(#[trigger] c[i]) == ascii_lower(
            word[i],
        ) by {}
    }
    if same_but_case(c, word) {
        assert forall|i: int| 0 <= i < c.len() implies (#[trigger] c[i] == word[i] || ('a'
            <= word[i] <= 'z' && c[i] as int + 32 == word[i] as int)) by {
            assert(ascii_lower(c[i]) == ascii_lower(word[i]));
        }
    }
}

/// A terminal whose name holds one of the known names renders 256 colours at
/// least, and so does every one with a first hint. One without a hint whose name
/// is shorter than all known ones renders the basic colours alone.
pub proof fn law_names_of_terminals(
    colorterm: Seq<char>,
    before: Seq<char>,
    name: Seq<char>,
    behind: Seq<char>,
)
    requires
        name == "256color"@ || name == "direct"@ || name == "kitty"@ || name == "alacritty"@ || name
            == "wezterm"@ || name == "foot"@ || name == "contour"@ || name == "ghostty"@,
    ensures
        depth_of(colorterm, before + name + behind) != Depth::Basic,
        depth_of(seq![], before + name + behind) == Depth::Indexed256,
        colorterm.len() > 0 ==> depth_of(colorterm, before) != Depth::Basic,
        before.len() < 4 ==> depth_of(seq![], before) == Depth::Basic,
{
    let t = before + name + behind;
    assert(t.subrange(before.len() as int, (before.len() + name.len()) as int) =~= name);
    assert(text::stands_at(t, name, before.len() as int));
    reveal_strlit("256color");
    reveal_strlit("direct");
    reveal_strlit("kitty");
    reveal_strlit("alacritty");
    reveal_strlit("wezterm");
    reveal_strlit("foot");
    reveal_strlit("contour");
    reveal_strlit("ghostty");
    reveal_strlit("truecolor");
    reveal_strlit("24bit");
}

/// The hues of the eight slots, in order, at each depth.
pub proof fn law_hues(slot: int)
    requires
        0 <= slot,
    ensures
        ({
            let i = slot % 8;
            Palette { depth: Depth::Truecolor }.color_of(slot) == seq![
                Color::Rgb(0x39, 0x87, 0xe5),
                Color::Rgb(0xd9, 0x59, 0x26),
                Color::Rgb(0x19, 0x9e, 0x70),
                Color::Rgb(0xc9, 0x85, 0x00),
                Color::Rgb(0xd5, 0x51, 0x81),
                Color::Rgb(0x00, 0x83, 0x00),
                Color::Rgb(0x90, 0x85, 0xe9),
                Color::Rgb(0xe6, 0x67, 0x67),
            ][i]
        }),
        ({
            let i = slot % 8;
            Palette { depth: Depth::Indexed256 }.color_of(slot) == Color::Indexed(
                seq![32u8, 166, 29, 136, 168, 28, 68, 167][i],
            )
        }),
        ({
            let i = slot % 8;
            Palette { depth: Depth::Basic }.color_of(slot) == seq![
                Color::Blue,
                Color::LightRed,
                Color::Cyan,
                Color::Yellow,
                Color::LightMagenta,
                Color::Green,
                Color::LightBlue,
                Color::Red,
            ][i]
        }),
{
}

} // verus!
