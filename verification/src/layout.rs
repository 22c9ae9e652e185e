//! How the screen is shared out.
use vstd::prelude::*;

use crate::paint::Rect;
use crate::tags;
use crate::tags::Row;
use crate::text;

verus! {

pub open spec fn smaller(a: int, b: int) -> int {
    if a < b {
        a
    } else {
        b
    }
}

pub open spec fn larger(a: int, b: int) -> int {
    if a < b {
        b
    } else {
        a
    }
}

/// The nearest number from `lo` to `hi`.
pub open spec fn clamped(v: int, lo: int, hi: int) -> int {
    if v < lo {
        lo
    } else if v > hi {
        hi
    } else {
        v
    }
}

// ---------------------------------------------------------------------------
// Sidebar
// ---------------------------------------------------------------------------
/// The longest of the names.
pub open spec fn longest(names: Seq<Seq<char>>) -> int
    decreases names.len(),
{
    if names.len() == 0 {
        0
    } else {
        larger(longest(names.drop_last()), names.last().len() as int)
    }
}

/// What a row takes: cursor, indent, twisty and label, and a count where it is
/// a group.
pub open spec fn row_width(row: tags::RowView) -> int {
    4 + 2 * row.depth + row.label.len() + if row.leaf {
        0int
    } else {
        5int
    }
}

/// The widest of the rows.
pub open spec fn widest(rows: Seq<tags::RowView>) -> int
    decreases rows.len(),
{
    if rows.len() == 0 {
        0
    } else {
        larger(widest(rows.drop_last()), row_width(rows.last()))
    }
}

/// The most that the sidebar takes: two fifths of the screen, within bounds.
pub open spec fn sidebar_ceiling(total: int) -> int {
    clamped(total * 2 / 5, 24, 46)
}

/// The width of the sidebar: enough for the longest name that it has to show,
/// within bounds.
pub open spec fn sidebar_fit(total: int, runs: Seq<Seq<char>>, rows: Seq<tags::RowView>) -> int {
    clamped(larger(longest(runs) + 6, widest(rows)), 24, sidebar_ceiling(total))
}

/// The longest of the names, or 1000 where it is longer.
fn longest_capped(names: &[String]) -> (r: u64)
    ensures
        r == smaller(longest(text::texts(names@)), 1000),
{
    let ghost all = text::texts(names@);
    let mut best: u64 = 0;
    let mut i: usize = 0;
    assert(all.take(0) =~= seq![]);
    while i < names.len()
        invariant
            all == text::texts(names@),
            i <= names@.len(),
            best == smaller(longest(all.take(i as int)), 1000),
            0 <= longest(all.take(i as int)),
        decreases names.len() - i,
    {
        assert(all.take(i + 1).drop_last() =~= all.take(i as int));
        assert(all.take(i + 1).last() == names@[i as int]@);
        let n: usize = text::char_count(names[i].as_str());
        let capped: u64 = if n < 1000 {
            n as u64
        } else {
            1000
        };
        if best < capped {
            best = capped;
        }
        i = i + 1;
    }
    assert(all.take(i as int) =~= all);
    best
}

/// The widest of the rows, or 1000 where it is wider.
fn widest_capped(rows: &[Row]) -> (r: u64)
    ensures
        r == smaller(widest(tags::row_views(rows@)), 1000),
{
    let ghost all = tags::row_views(rows@);
    let mut best: u64 = 0;
    let mut i: usize = 0;
    assert(all.take(0) =~= seq![]);
    while i < rows.len()
        invariant
            all == tags::row_views(rows@),
            i <= rows@.len(),
            best == smaller(widest(all.take(i as int)), 1000),
            0 <= widest(all.take(i as int)),
        decreases rows.len() - i,
    {
        assert(all.take(i + 1).drop_last() =~= all.take(i as int));
        assert(all.take(i + 1).last() == rows@[i as int]@);
        let row: &Row = &rows[i];
        let n: usize = text::char_count(row.label.as_str());
        let label: u64 = if n < 1000 {
            n as u64
        } else {
            1000
        };
        let depth: u64 = if row.depth < 1000 {
            row.depth as u64
        } else {
            1000
        };
        let extra: u64 = if row.leaf {
            0
        } else {
            5
        };
        let width: u64 = 4 + 2 * depth + label + extra;
        let capped: u64 = if width < 1000 {
            width
        } else {
            1000
        };
        if best < capped {
            best = capped;
        }
        i = i + 1;
    }
    assert(all.take(i as int) =~= all);
    best
}

/// Width that the sidebar takes. Short tag sets keep it narrow, deep
/// hierarchies get room for their names, and the chart never gives up more
/// than two fifths of a screen that is wide enough.
pub fn sidebar_width(total: u16, runs: &[String], rows: &[Row]) -> (r: u16)
    ensures
        r == sidebar_fit(total as int, text::texts(runs@), tags::row_views(rows@)),
{
    let runs_w: u64 = longest_capped(runs) + 6;
    let tags_w: u64 = widest_capped(rows);
    let want: u64 = if runs_w < tags_w {
        tags_w
    } else {
        runs_w
    };
    let share: u64 = total as u64 * 2 / 5;
    let ceiling: u64 = if share < 24 {
        24
    } else if share > 46 {
        46
    } else {
        share
    };
    if want < 24 {
        24
    } else if want > ceiling {
        ceiling as u16
    } else {
        want as u16
    }
}

/// From where a list is shown so that the selection is in sight: it moves no
/// further than it has to.
pub open spec fn scrolled(scroll: int, sel: int, visible: int) -> int {
    if visible == 0 {
        0
    } else if sel < scroll {
        sel
    } else if sel >= scroll + visible {
        sel - visible + 1
    } else {
        scroll
    }
}

/// From where a list is shown so that the selection is in sight.
pub fn scroll_for(scroll: usize, sel: usize, visible: usize) -> (r: usize)
    ensures
        r == scrolled(scroll as int, sel as int, visible as int),
{
    if visible == 0 {
        0
    } else if sel < scroll {
        sel
    } else if sel - scroll >= visible {
        sel - visible + 1
    } else {
        scroll
    }
}

/// How many rows the list of runs takes with its title.
pub open spec fn runs_height(runs: int, height: int) -> int {
    clamped((runs + 1) % 0x1_0000, 2, larger(height / 3, 2))
}

// ---------------------------------------------------------------------------
// Grid
// ---------------------------------------------------------------------------
/// How many charts fit across: each needs 40 columns, and there are at most
/// three.
pub open spec fn max_cols(width: int) -> int {
    clamped(width / 40, 1, 3)
}

/// How many charts fit down: each needs nine rows, and there are at most
/// three.
pub open spec fn max_rows(height: int) -> int {
    clamped(height / 9, 1, 3)
}

/// How many charts are shown.
pub open spec fn chart_count(width: int, height: int, available: int) -> int {
    clamped(available, 1, max_cols(width) * max_rows(height))
}

/// How many rows hold `n` charts, so many in each.
pub open spec fn rows_for(n: int, cols: int) -> int {
    (n + cols - 1) / cols
}

/// So many charts across hold `n` of them in the rows that there are.
pub open spec fn shape_holds(width: int, height: int, n: int, cols: int) -> bool {
    1 <= cols <= max_cols(width) && rows_for(n, cols) <= max_rows(height)
}

/// How many cells stay empty.
pub open spec fn empty_cells(n: int, cols: int) -> int {
    cols * rows_for(n, cols) - n
}

/// The arrangement for `n` charts: among those that hold them the one with the
/// fewest empty cells, and among equals the widest.
pub open spec fn best_cols(width: int, height: int, n: int, cols: int) -> bool {
    &&& shape_holds(width, height, n, cols)
    &&& forall|d: int| #[trigger]
        shape_holds(width, height, n, d) ==> empty_cells(n, cols) < empty_cells(n, d) || (
        empty_cells(n, cols) == empty_cells(n, d) && d <= cols)
}

/// Chart count and arrangement for the grid view: columns, rows, charts.
pub fn grid_shape(area: Rect, available: usize) -> (r: (u16, u16, usize))
    ensures
        r.2 == chart_count(area.width as int, area.height as int, available as int),
        best_cols(area.width as int, area.height as int, r.2 as int, r.0 as int),
        r.1 == rows_for(r.2 as int, r.0 as int),
        1 <= r.0 <= 3,
        1 <= r.1 <= 3,
        1 <= r.2 <= r.0 * r.1,
{
    let wide: u16 = area.width / 40;
    let mc: u16 = if wide < 1 {
        1
    } else if wide > 3 {
        3
    } else {
        wide
    };
    let high: u16 = area.height / 9;
    let mr: u16 = if high < 1 {
        1
    } else if high > 3 {
        3
    } else {
        high
    };
    let room: u16 = most(mc, mr);
    let n: usize = if available < 1 {
        1
    } else if available > room as usize {
        room as usize
    } else {
        available
    };
    let k: u16 = n as u16;
    let ghost w = area.width as int;
    let ghost h = area.height as int;
    proof {
        assert(shape_holds(w, h, n as int, mc as int)) by {
            lemma_widest_holds(mc as int, mr as int, n as int);
        }
    }
    let mut best: u16 = mc;
    let mut cols: u16 = mc;
    while cols > 1
        invariant
            1 <= cols <= best <= mc <= 3,
            1 <= mr <= 3,
            mc == max_cols(w),
            mr == max_rows(h),
            1 <= k <= 9,
            k == n,
            shape_holds(w, h, n as int, best as int),
            forall|d: int| #[trigger]
                shape_holds(w, h, n as int, d) && cols <= d ==> empty_cells(n as int, best as int)
                    < empty_cells(n as int, d) || (empty_cells(n as int, best as int)
                    == empty_cells(n as int, d) && d <= best),
        decreases cols,
    {
        cols = cols - 1;
        if tighter(k, mr, cols, best) {
            best = cols;
        }
        assert(shape_holds(w, h, n as int, cols as int) == (rows_for(k as int, cols as int) <= mr));
    }
    let rows: u16 = (k + best - 1) / best;
    proof {
        lemma_rows_hold(n as int, best as int);
    }
    (best, rows, n)
}

fn most(a: u16, b: u16) -> (r: u16)
    requires
        1 <= a <= 3,
        1 <= b <= 3,
    ensures
        r == a * b,
        1 <= r <= 9,
{
    assert(1 <= a * b <= 9) by (nonlinear_arith)
        requires
            1 <= a <= 3,
            1 <= b <= 3,
    ;
    a * b
}

/// Fewer columns hold the charts with fewer empty cells.
fn tighter(n: u16, rows: u16, cols: u16, than: u16) -> (r: bool)
    requires
        1 <= n <= 9,
        1 <= cols <= 3,
        1 <= than <= 3,
    ensures
        r == (rows_for(n as int, cols as int) <= rows && empty_cells(n as int, cols as int)
            < empty_cells(n as int, than as int)),
{
    let a: u16 = (n + cols - 1) / cols;
    let b: u16 = (n + than - 1) / than;
    proof {
        lemma_rows_hold(n as int, cols as int);
        lemma_rows_hold(n as int, than as int);
    }
    let x: u16 = a * cols;
    let y: u16 = b * than;
    proof {
        assert(a * cols == cols * a && b * than == than * b) by (nonlinear_arith);
    }
    a <= rows && x - n < y - n
}

/// The rows that are taken hold the charts, and less than a row is empty.
proof fn lemma_rows_hold(n: int, cols: int)
    requires
        1 <= n <= 9,
        1 <= cols <= 3,
    ensures
        1 <= rows_for(n, cols) <= 9,
        n <= cols * rows_for(n, cols) <= n + 2,
        n <= rows_for(n, cols) * cols <= n + 2,
{
    let a = n + cols - 1;
    let q = rows_for(n, cols);
    vstd::arithmetic::div_mod::lemma_fundamental_div_mod(a, cols);
    assert(0 <= a % cols < cols) by (nonlinear_arith)
        requires
            0 < cols,
    ;
    assert(cols * q == q * cols) by (nonlinear_arith);
    assert(1 <= q <= 9) by (nonlinear_arith)
        requires
            1 <= cols,
            1 <= n <= 9,
            n <= cols * q <= n + cols - 1,
    ;
}

proof fn lemma_widest_holds(mc: int, mr: int, n: int)
    requires
        1 <= mc <= 3,
        1 <= mr <= 3,
        1 <= n <= mc * mr,
    ensures
        rows_for(n, mc) <= mr,
        n == mc * mr ==> rows_for(n, mc) == mr,
{
    let a = n + mc - 1;
    let q = rows_for(n, mc);
    vstd::arithmetic::div_mod::lemma_fundamental_div_mod(a, mc);
    assert(0 <= a % mc < mc) by (nonlinear_arith)
        requires
            0 < mc,
    ;
    assert(q <= mr) by (nonlinear_arith)
        requires
            1 <= mc,
            n <= mc * mr,
            mc * q <= n + mc - 1,
    ;
    if n == mc * mr {
        assert(q >= mr) by (nonlinear_arith)
            requires
                1 <= mc,
                n == mc * mr,
                n <= mc * q,
        ;
    }
}

/// Where the `i`th of the pieces starts that share out a length, each of size
/// `size` and the first `extra` of them one longer.
pub open spec fn piece_start(i: int, size: int, extra: int) -> int {
    i * size + smaller(i, extra)
}

/// How long the `i`th piece is.
pub open spec fn piece_len(i: int, size: int, extra: int) -> int {
    if i < extra {
        size + 1
    } else {
        size
    }
}

/// The cell of the `i`th chart in a grid. What does not divide goes to the
/// first cells, so that no strip stays unused.
pub open spec fn grid_cell(area: Rect, cols: int, rows: int, i: int) -> Rect {
    let c = i % cols;
    let r = i / cols;
    let w = area.width as int;
    let h = area.height as int;
    Rect {
        x: (area.x + piece_start(c, w / cols, w % cols)) as u16,
        y: (area.y + piece_start(r, h / rows, h % rows)) as u16,
        width: piece_len(c, w / cols, w % cols) as u16,
        height: piece_len(r, h / rows, h % rows) as u16,
    }
}

/// Pieces that share out a length lie one behind the other and end with it.
pub proof fn law_pieces_share_out(total: int, n: int, i: int)
    requires
        0 <= total,
        0 < n,
        0 <= i < n,
    ensures
        piece_start(0, total / n, total % n) == 0,
        piece_start(i + 1, total / n, total % n) == piece_start(i, total / n, total % n)
            + piece_len(i, total / n, total % n),
        piece_start(n, total / n, total % n) == total,
        0 <= piece_start(i, total / n, total % n),
        piece_start(i, total / n, total % n) + piece_len(i, total / n, total % n) <= total,
{
    let size = total / n;
    let extra = total % n;
    vstd::arithmetic::div_mod::lemma_fundamental_div_mod(total, n);
    assert(0 <= extra < n && 0 <= size) by (nonlinear_arith)
        requires
            0 <= total,
            0 < n,
            size == total / n,
            extra == total % n,
    ;
    assert((i + 1) * size == i * size + size) by (nonlinear_arith);
    assert(n * size == size * n) by (nonlinear_arith);
    assert(0 <= i * size) by (nonlinear_arith)
        requires
            0 <= i,
            0 <= size,
    ;
    assert((i + 1) * size <= n * size) by (nonlinear_arith)
        requires
            i < n,
            0 <= size,
    ;
}

fn piece(i: u16, total: u16, n: u16) -> (r: (u16, u16))
    requires
        i < n,
    ensures
        r.0 == piece_start(i as int, total as int / n as int, total as int % n as int),
        r.1 == piece_len(i as int, total as int / n as int, total as int % n as int),
        r.0 + r.1 <= total,
{
    let size: u16 = total / n;
    let extra: u16 = total % n;
    proof {
        law_pieces_share_out(total as int, n as int, i as int);
        assert(0 <= i * size) by (nonlinear_arith);
    }
    let more: u16 = if i < extra {
        i
    } else {
        extra
    };
    let start: u16 = i * size + more;
    let len: u16 = if i < extra {
        size + 1
    } else {
        size
    };
    (start, len)
}

/// The cell of the `i`th chart in a grid.
pub fn cell_of(area: Rect, cols: u16, rows: u16, i: u16) -> (r: Rect)
    requires
        area.wf(),
        cols > 0,
        rows > 0,
        i as int / (cols as int) < rows,
    ensures
        r == grid_cell(area, cols as int, rows as int, i as int),
        r.inside(area),
        r.wf(),
{
    let (x, width) = piece(i % cols, area.width, cols);
    let (y, height) = piece(i / cols, area.height, rows);
    Rect { x: area.x + x, y: area.y + y, width, height }
}

// ---------------------------------------------------------------------------
// Laws
// ---------------------------------------------------------------------------
/// The sidebar is between 24 and 46 columns wide, and on a screen of at least
/// 60 columns takes no more than two fifths of it.
pub proof fn law_sidebar_is_bounded(total: int, runs: Seq<Seq<char>>, rows: Seq<tags::RowView>)
    requires
        0 <= total,
    ensures
        24 <= sidebar_fit(total, runs, rows) <= 46,
        60 <= total ==> 5 * sidebar_fit(total, runs, rows) <= 2 * total,
{
}

/// After scrolling the selection is in sight, and a list that shows it already
/// does not move.
pub proof fn law_selection_is_in_sight(scroll: int, sel: int, visible: int)
    requires
        0 <= scroll,
        0 <= sel,
        0 < visible,
    ensures
        0 <= scrolled(scroll, sel, visible) <= sel < scrolled(scroll, sel, visible) + visible,
        scroll <= sel < scroll + visible ==> scrolled(scroll, sel, visible) == scroll,
{
}

/// A full grid leaves no cell empty.
pub proof fn law_full_grid_has_no_gaps(width: int, height: int, cols: int)
    requires
        best_cols(width, height, max_cols(width) * max_rows(height), cols),
    ensures
        empty_cells(max_cols(width) * max_rows(height), cols) == 0,
{
    let n = max_cols(width) * max_rows(height);
    let mc = max_cols(width);
    let mr = max_rows(height);
    assert(1 <= n <= 9) by (nonlinear_arith)
        requires
            1 <= mc <= 3,
            1 <= mr <= 3,
            n == mc * mr,
    ;
    lemma_widest_holds(mc, mr, n);
    assert(shape_holds(width, height, n, mc));
    lemma_rows_hold(n, cols);
}

/// Two cells of a grid share no place.
pub proof fn law_grid_cells_are_apart(area: Rect, cols: int, rows: int, i: int, j: int)
    requires
        area.wf(),
        0 < cols,
        0 < rows,
        0 <= i < j,
        i / cols < rows,
        j / cols < rows,
    ensures
        ({
            let a = grid_cell(area, cols, rows, i);
            let b = grid_cell(area, cols, rows, j);
            forall|x: int, y: int| !(a.has(x, y) && b.has(x, y))
        }),
{
    let w = area.width as int;
    let h = area.height as int;
    let (c, r) = (i % cols, i / cols);
    let (d, s) = (j % cols, j / cols);
    vstd::arithmetic::div_mod::lemma_fundamental_div_mod(i, cols);
    vstd::arithmetic::div_mod::lemma_fundamental_div_mod(j, cols);
    assert(0 <= c < cols && 0 <= d < cols && 0 <= r && 0 <= s) by (nonlinear_arith)
        requires
            0 < cols,
            0 <= i,
            0 <= j,
            c == i % cols,
            d == j % cols,
            r == i / cols,
            s == j / cols,
    ;
    law_pieces_share_out(w, cols, c);
    law_pieces_share_out(w, cols, d);
    law_pieces_share_out(h, rows, r);
    law_pieces_share_out(h, rows, s);
    if c < d {
        lemma_pieces_ascend(w, cols, c, d);
    } else if d < c {
        lemma_pieces_ascend(w, cols, d, c);
    } else {
        assert(r != s);
        if r < s {
            lemma_pieces_ascend(h, rows, r, s);
        } else {
            lemma_pieces_ascend(h, rows, s, r);
        }
    }
}

pub proof fn lemma_pieces_ascend(total: int, n: int, i: int, j: int)
    requires
        0 <= total,
        0 < n,
        0 <= i < j < n,
    ensures
        piece_start(i, total / n, total % n) + piece_len(i, total / n, total % n) <= piece_start(
            j,
            total / n,
            total % n,
        ),
    decreases j - i,
{
    law_pieces_share_out(total, n, i);
    if i + 1 < j {
        law_pieces_share_out(total, n, i + 1);
        lemma_pieces_ascend(total, n, i + 1, j);
        assert(0 <= total / n) by (nonlinear_arith)
            requires
                0 <= total,
                0 < n,
        ;
    }
}

} // verus!
