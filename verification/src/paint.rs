//! Text on the screen: where it goes and how it looks.
use vstd::prelude::*;

use ratatui::buffer::Buffer;
use ratatui::style::{Color as Tone, Modifier, Style as Look};

use crate::colors::Color;

verus! {

// ---------------------------------------------------------------------------
// Areas and styles
// ---------------------------------------------------------------------------
/// A part of the screen.
#[derive(Clone, Copy, PartialEq, Eq, Structural, Debug)]
pub struct Rect {
    pub x: u16,
    pub y: u16,
    pub width: u16,
    pub height: u16,
}

impl Rect {
    /// The area ends where coordinates still do.
    pub open spec fn wf(&self) -> bool {
        self.x + self.width <= u16::MAX && self.y + self.height <= u16::MAX
    }

    /// The cell stands in the area.
    pub open spec fn has(&self, x: int, y: int) -> bool {
        self.x <= x < self.x + self.width && self.y <= y < self.y + self.height
    }

    /// All of this area lies in the other one.
    pub open spec fn inside(&self, other: Rect) -> bool {
        &&& other.x <= self.x
        &&& self.x + self.width <= other.x + other.width
        &&& other.y <= self.y
        &&& self.y + self.height <= other.y + other.height
    }
}

/// The bit of bold text.
pub const BOLD: u16 = 0x01;

/// The bit of dim text.
pub const DIM: u16 = 0x02;

/// The bit of text with its colours swapped.
pub const REVERSED: u16 = 0x40;

/// How text looks. A colour that is not given stays as it is in the cell; the
/// bits of `add` are set and then those of `sub` cleared.
#[derive(Clone, Copy, PartialEq, Eq, Structural, Debug)]
pub struct Style {
    pub fg: Option<Color>,
    pub bg: Option<Color>,
    pub add: u16,
    pub sub: u16,
}

/// The style that changes nothing but for these bits.
pub open spec fn with_bits(add: u16) -> Style {
    Style { fg: None, bg: None, add, sub: 0 }
}

/// The style of a panel on top of other things.
///
/// Swapping the colours alone would swap whatever the cell holds already, and
/// dim or bold text below would show through. With both colours reset and
/// those leftovers cleared the panel is opaque.
pub open spec fn panel_style() -> Style {
    Style { fg: Some(Color::Reset), bg: Some(Color::Reset), add: 0x40, sub: 0x03 }
}

/// The style of bold text on such a panel. Bits are set before they are
/// cleared, so bold text needs a style that does not clear it.
pub open spec fn panel_bold_style() -> Style {
    Style { fg: Some(Color::Reset), bg: Some(Color::Reset), add: 0x41, sub: 0x02 }
}

/// The style of a coloured mark.
pub open spec fn mark_style(color: Color) -> Style {
    Style { fg: Some(color), bg: None, add: 0x01, sub: 0 }
}

pub fn style_of(add: u16) -> (r: Style)
    ensures
        r == with_bits(add),
{
    Style { fg: None, bg: None, add, sub: 0 }
}

pub fn overlay() -> (r: Style)
    ensures
        r == panel_style(),
{
    Style { fg: Some(Color::Reset), bg: Some(Color::Reset), add: 0x40, sub: 0x03 }
}

pub fn overlay_bold() -> (r: Style)
    ensures
        r == panel_bold_style(),
{
    Style { fg: Some(Color::Reset), bg: Some(Color::Reset), add: 0x41, sub: 0x02 }
}

pub fn mark(color: Color) -> (r: Style)
    ensures
        r == mark_style(color),
{
    Style { fg: Some(color), bg: None, add: 0x01, sub: 0 }
}

// ---------------------------------------------------------------------------
// Text in its place
// ---------------------------------------------------------------------------
/// A line of text, where it starts, and how it looks.
pub struct Put {
    pub x: u16,
    pub y: u16,
    pub text: String,
    pub style: Style,
}

pub struct PutView {
    pub x: int,
    pub y: int,
    pub text: Seq<char>,
    pub style: Style,
}

impl View for Put {
    type V = PutView;

    open spec fn view(&self) -> PutView {
        PutView { x: self.x as int, y: self.y as int, text: self.text@, style: self.style }
    }
}

/// The lines as values.
pub open spec fn put_views(puts: Seq<Put>) -> Seq<PutView> {
    Seq::new(puts.len(), |i: int| puts[i]@)
}

/// The line starts at or behind the corner of the area.
pub open spec fn not_before(p: PutView, area: Rect) -> bool {
    area.x <= p.x && area.y <= p.y
}

/// Add a line.
pub fn add_put(out: &mut Vec<Put>, x: u16, y: u16, text: String, style: Style)
    ensures
        put_views(final(out)@) == put_views(old(out)@).push(
            (PutView { x: x as int, y: y as int, text: text@, style }),
        ),
{
    let ghost before = out@;
    out.push(Put { x, y, text, style });
    assert(put_views(out@) =~= put_views(before).push(
        PutView { x: x as int, y: y as int, text: text@, style },
    ));
}

// ---------------------------------------------------------------------------
// The buffer
// ---------------------------------------------------------------------------
#[verifier::external_type_specification]
#[verifier::external_body]
pub struct ExBuffer(Buffer);

/// A cell of the buffer. A colour that `Color` has no name for is `None`.
pub struct CellView {
    pub symbol: Seq<char>,
    pub fg: Option<Color>,
    pub bg: Option<Color>,
    pub bits: u16,
}

/// The area that a buffer covers.
pub uninterp spec fn buffer_area(b: Buffer) -> Rect;

/// The cells of a buffer, row by row.
pub uninterp spec fn buffer_cells(b: Buffer) -> Seq<CellView>;

/// The cells after text was written into them, at most so many columns of it.
pub uninterp spec fn written(
    cells: Seq<CellView>,
    area: Rect,
    x: u16,
    y: u16,
    text: Seq<char>,
    max: usize,
    style: Style,
) -> Seq<CellView>;

/// The buffer covers an area and has a cell for each of its places.
pub open spec fn buffer_whole(b: Buffer) -> bool {
    let area = buffer_area(b);
    area.wf() && buffer_cells(b).len() == area.width * area.height
}

/// Where the cell at that place stands among the cells of the area.
pub open spec fn place(area: Rect, x: int, y: int) -> int {
    (y - area.y) * area.width + (x - area.x)
}

/// Text of printable ASCII characters, each of which takes one cell.
pub open spec fn printable(text: Seq<char>) -> bool {
    forall|i: int| 0 <= i < text.len() ==> ' ' <= #[trigger] text[i] <= '~'
}

/// A cell with this character in this style.
pub open spec fn restyled(cell: CellView, c: char, style: Style) -> CellView {
    CellView {
        symbol: seq![c],
        fg: if style.fg is Some {
            style.fg
        } else {
            cell.fg
        },
        bg: if style.bg is Some {
            style.bg
        } else {
            cell.bg
        },
        bits: (cell.bits | style.add) & !style.sub,
    }
}

/// `Buffer::area`: the area that the buffer covers.
#[verifier::external_body]
pub(crate) fn area_of(buf: &Buffer) -> (r: Rect)
    ensures
        r == buffer_area(*buf),
{
    Rect { x: buf.area.x, y: buf.area.y, width: buf.area.width, height: buf.area.height }
}

/// `Buffer::set_stringn`: the text goes into the row from `x` on, at most
/// `max` columns of it and no further than the area. The cells that come of it
/// are the same for the same cells, area, place, text, width and style; the
/// area stays, and so does every cell of another row or left of `x`. A
/// printable ASCII character takes one cell, and puts its symbol and the style
/// there. How other characters share cells is left unsaid. The function panics
/// where the place is outside the area.
#[verifier::external_body]
pub(crate) fn write_text(buf: &mut Buffer, x: u16, y: u16, text: &str, max: usize, style: &Style)
    requires
        buffer_whole(*old(buf)),
        buffer_area(*old(buf)).has(x as int, y as int),
    ensures
        buffer_area(*final(buf)) == buffer_area(*old(buf)),
        buffer_cells(*final(buf)) == written(
            buffer_cells(*old(buf)),
            buffer_area(*old(buf)),
            x,
            y,
            text@,
            max,
            *style,
        ),
        buffer_cells(*final(buf)).len() == buffer_cells(*old(buf)).len(),
        forall|u: int, v: int|
            buffer_area(*old(buf)).has(u, v) && (v != y || u < x) ==> buffer_cells(*final(buf))[
                #[trigger] place(buffer_area(*old(buf)), u, v)] == buffer_cells(*old(buf))[place(
                buffer_area(*old(buf)),
                u,
                v,
            )],
        printable(text@) ==> forall|u: int|
            buffer_area(*old(buf)).has(u, y as int) && x <= u ==> buffer_cells(*final(buf))[
                #[trigger] place(buffer_area(*old(buf)), u, y as int)] == if u - x < text@.len()
                && u - x < max {
                restyled(
                    buffer_cells(*old(buf))[place(buffer_area(*old(buf)), u, y as int)],
                    text@[u - x],
                    *style,
                )
            } else {
                buffer_cells(*old(buf))[place(buffer_area(*old(buf)), u, y as int)]
            },
{
    let tone = |c: Color| match c {
        Color::Reset => Tone::Reset,
        Color::Blue => Tone::Blue,
        Color::LightRed => Tone::LightRed,
        Color::Cyan => Tone::Cyan,
        Color::Yellow => Tone::Yellow,
        Color::LightMagenta => Tone::LightMagenta,
        Color::Green => Tone::Green,
        Color::LightBlue => Tone::LightBlue,
        Color::Red => Tone::Red,
        Color::Rgb(r, g, b) => Tone::Rgb(r, g, b),
        Color::Indexed(i) => Tone::Indexed(i),
    };
    let look = Look { fg: style.fg.map(tone), bg: style.bg.map(tone), add_modifier: Modifier::from_bits_retain(style.add), sub_modifier: Modifier::from_bits_retain(style.sub), ..Look::default() };
    buf.set_stringn(x, y, text, max, look);
}

/// The cells after a line was put into them: nothing where the line starts
/// behind the area, else as much as fits.
pub open spec fn put_into(cells: Seq<CellView>, area: Rect, p: PutView) -> Seq<CellView> {
    if p.y >= area.y + area.height || p.x >= area.x + area.width {
        cells
    } else {
        written(
            cells,
            area,
            p.x as u16,
            p.y as u16,
            p.text,
            (area.x + area.width - p.x) as usize,
            p.style,
        )
    }
}

/// The cells after lines were put into them one after the other.
pub open spec fn put_all(cells: Seq<CellView>, area: Rect, puts: Seq<PutView>) -> Seq<CellView>
    decreases puts.len(),
{
    if puts.len() == 0 {
        cells
    } else {
        put_into(put_all(cells, area, puts.drop_last()), area, puts.last())
    }
}

/// Put a line into the buffer, as much of it as fits.
pub fn put(buf: &mut Buffer, x: u16, y: u16, text: &str, style: Style)
    requires
        buffer_whole(*old(buf)),
        buffer_area(*old(buf)).x <= x,
        buffer_area(*old(buf)).y <= y,
    ensures
        buffer_whole(*final(buf)),
        buffer_area(*final(buf)) == buffer_area(*old(buf)),
        buffer_cells(*final(buf)) == put_into(
            buffer_cells(*old(buf)),
            buffer_area(*old(buf)),
            (PutView { x: x as int, y: y as int, text: text@, style }),
        ),
        printable(text@) ==> forall|u: int, v: int|
            buffer_area(*old(buf)).has(u, v) ==> buffer_cells(*final(buf))[#[trigger] place(
                buffer_area(*old(buf)),
                u,
                v,
            )] == if v == y && x <= u < x + text@.len() {
                restyled(
                    buffer_cells(*old(buf))[place(buffer_area(*old(buf)), u, v)],
                    text@[u - x],
                    style,
                )
            } else {
                buffer_cells(*old(buf))[place(buffer_area(*old(buf)), u, v)]
            },
{
    let area: Rect = area_of(buf);
    if y >= area.y + area.height || x >= area.x + area.width {
        return;
    }
    let max: usize = (area.x + area.width - x) as usize;
    write_text(buf, x, y, text, max, &style);
}

/// Put lines into the buffer, one after the other.
pub fn paint(buf: &mut Buffer, puts: &Vec<Put>)
    requires
        buffer_whole(*old(buf)),
        forall|i: int|
            0 <= i < puts@.len() ==> not_before((#[trigger] puts@[i])@, buffer_area(*old(buf))),
    ensures
        buffer_whole(*final(buf)),
        buffer_area(*final(buf)) == buffer_area(*old(buf)),
        buffer_cells(*final(buf)) == put_all(
            buffer_cells(*old(buf)),
            buffer_area(*old(buf)),
            put_views(puts@),
        ),
{
    let mut i: usize = 0;
    let ghost views = put_views(puts@);
    assert(views.take(0) =~= seq![]);
    while i < puts.len()
        invariant
            i <= puts@.len(),
            views == put_views(puts@),
            buffer_whole(*buf),
            buffer_area(*buf) == buffer_area(*old(buf)),
            forall|k: int|
                0 <= k < puts@.len() ==> not_before(
                    (#[trigger] puts@[k])@,
                    buffer_area(*old(buf)),
                ),
            buffer_cells(*buf) == put_all(
                buffer_cells(*old(buf)),
                buffer_area(*old(buf)),
                views.take(i as int),
            ),
        decreases puts.len() - i,
    {
        let p: &Put = &puts[i];
        assert(not_before(puts@[i as int]@, buffer_area(*old(buf))));
        put(buf, p.x, p.y, p.text.as_str(), p.style);
        assert(views.take(i + 1).drop_last() =~= views.take(i as int));
        assert(views.take(i + 1).last() == puts@[i as int]@);
        i = i + 1;
    }
    assert(views.take(i as int) =~= views);
}

/// `Buffer::content`: how many cells the buffer has.
#[verifier::external_body]
pub(crate) fn cell_count(buf: &Buffer) -> (r: usize)
    ensures
        r == buffer_cells(*buf).len(),
{
    buf.content.len()
}

/// Put lines into the buffer, one after the other. Nothing happens, and the
/// answer is no, where the buffer lacks cells of its area or a line starts
/// before the area.
pub fn try_paint(buf: &mut Buffer, puts: &Vec<Put>) -> (r: bool)
    ensures
        buffer_area(*final(buf)) == buffer_area(*old(buf)),
        r == (buffer_whole(*old(buf)) && forall|i: int|
            0 <= i < puts@.len() ==> not_before((#[trigger] puts@[i])@, buffer_area(*old(buf)))),
        buffer_cells(*final(buf)) == if r {
            put_all(buffer_cells(*old(buf)), buffer_area(*old(buf)), put_views(puts@))
        } else {
            buffer_cells(*old(buf))
        },
{
    let area: Rect = area_of(buf);
    if area.x as u32 + area.width as u32 > 0xffff || area.y as u32 + area.height as u32 > 0xffff {
        return false;
    }
    let count: u64 = cell_count(buf) as u64;
    proof {
        assert(area.width * area.height <= 0xffff * 0xffff) by (nonlinear_arith)
            requires
                area.width <= 0xffff,
                area.height <= 0xffff,
        ;
    }
    if count != area.width as u64 * area.height as u64 {
        return false;
    }
    let mut i: usize = 0;
    while i < puts.len()
        invariant
            i <= puts@.len(),
            area == buffer_area(*old(buf)),
            forall|k: int| 0 <= k < i ==> not_before((#[trigger] puts@[k])@, area),
        decreases puts.len() - i,
    {
        if puts[i].x < area.x || puts[i].y < area.y {
            assert(!not_before(puts@[i as int]@, area));
            return false;
        }
        i = i + 1;
    }
    paint(buf, puts);
    true
}

} // verus!
