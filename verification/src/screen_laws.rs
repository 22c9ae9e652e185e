//! What is seen on the screen, and where.
use vstd::prelude::*;

use crate::app;
use crate::app::Focus;
use crate::charts;
use crate::charts::{ChartState, ChartsPlan};
use crate::colors::Palette;
use crate::frame;
use crate::layout;
use crate::numbers;
use crate::paint;
use crate::paint::{CellView, PutView, Rect};
use crate::store;
use crate::tags;
use crate::text;
use crate::ui;

verus! {

// ---------------------------------------------------------------------------
// The list of runs
// ---------------------------------------------------------------------------
/// The runs in sight stand one below the other under their title, from where the
/// list is scrolled to. Each has a box that is ticked if it is shown, a mark in
/// its own colour, and its name, dim if it is hidden. The selected one stands out
/// while the list has the focus, and no other does.
pub proof fn law_runs_are_listed(
    area: Rect,
    st: store::StoreView,
    palette: Palette,
    a: app::AppView,
    listed: Seq<Seq<char>>,
    n: nat,
    i: int,
)
    requires
        0 <= i < n,
        0 <= a.run_scroll,
        a.run_scroll + n <= listed.len(),
    ensures
        ({
            let ls = ui::runs_lines(area, st, palette, a, listed, n);
            let name = listed[a.run_scroll + i];
            let shown = !a.disabled.contains(name);
            let here = a.focus == Focus::Runs && a.run_scroll + i == a.run_sel;
            let slot = if st.runs.contains_key(name) {
                st.runs[name].color_slot
            } else {
                0
            };
            let tick = ls[3 * i];
            let mark = ls[3 * i + 1];
            let line = ls[3 * i + 2];
            &&& ls.len() == 3 * n
            &&& tick.y == area.y + 1 + i && mark.y == tick.y && line.y == tick.y
            &&& tick.x == area.x && mark.x == area.x + 3 && line.x == area.x + 4
            &&& shown ==> tick.text == " ▣ "@
            &&& !shown ==> tick.text == " ☐ "@
            &&& mark.style.fg == Some(palette.color_of(slot))
            &&& mark.text == palette.dash_of(slot).marker_text()
            &&& line.text.len() >= 1 + name.len()
            &&& line.text.take(1 + name.len() as int) == " "@ + name
            &&& tick.style.add == if here {
                0x40u16
            } else {
                0
            }
            &&& line.style.add == if here && shown {
                0x40u16
            } else if here {
                0x42
            } else if shown {
                0
            } else {
                0x02
            }
        }),
    decreases n,
{
    let ls = ui::runs_lines(area, st, palette, a, listed, n);
    let fewer = ui::runs_lines(area, st, palette, a, listed, (n - 1) as nat);
    if n > 1 {
        law_runs_are_listed(
            area,
            st,
            palette,
            a,
            listed,
            (n - 1) as nat,
            if i < n - 1 {
                i
            } else {
                0
            },
        );
    }
    if i < n - 1 {
        assert(ls[3 * i] == fewer[3 * i]);
        assert(ls[3 * i + 1] == fewer[3 * i + 1]);
        assert(ls[3 * i + 2] == fewer[3 * i + 2]);
    } else {
        assert(fewer.len() == 3 * (n - 1));
        let name = listed[a.run_scroll + i];
        let line = ls[3 * i + 2];
        reveal_strlit(" ");
        assert(line.text.take(1 + name.len() as int) =~= " "@ + name);
    }
}

// ---------------------------------------------------------------------------
// The list of tags
// ---------------------------------------------------------------------------
/// A row of the tag list fills its width. It has a pointer if it is selected, two
/// columns of indent for each level, and a twisty if it is a group, which says
/// whether it is open. Its label follows, whole where there is room for it and
/// for the count of a group.
pub proof fn law_row_of_the_tag_list(row: tags::RowView, here: bool, width: int)
    requires
        0 <= row.depth,
        0 <= row.leaves,
    ensures
        ({
            let t = ui::row_text(row, here, width);
            let indent = 2 * row.depth;
            let count = if row.leaf {
                seq![]
            } else {
                " ("@ + text::decimal(row.leaves as nat) + ")"@
            };
            let n = row.label.len();
            &&& t.len() >= width
            &&& t.len() >= 4 + indent
            &&& t[0] == ' '
            &&& t[1] == if here {
                '▶'
            } else {
                ' '
            }
            &&& forall|i: int| 2 <= i < 2 + indent ==> #[trigger] t[i] == ' '
            &&& t[2 + indent] == if row.leaf {
                ' '
            } else if row.expanded {
                '▾'
            } else {
                '▸'
            }
            &&& t[3 + indent] == ' '
            &&& 4 + indent + n + count.len() <= width ==> {
                &&& t.len() == width
                &&& t.subrange(4 + indent, 4 + indent + n) == row.label
                &&& t.subrange(4 + indent + n, 4 + indent + n + count.len()) == count
                &&& forall|i: int| 4 + indent + n + count.len() <= i < width ==> #[trigger] t[i]
                    == ' '
            }
            &&& 4 + indent + count.len() <= width < 4 + indent + n + count.len() ==> {
                &&& t.len() == width
                &&& t.skip(width - count.len()) == count
                &&& t.subrange(4 + indent, width - count.len()) == tags::elided(
                    row.label,
                    width - 4 - indent - count.len(),
                )
            }
        }),
{
    reveal_strlit(" ");
    reveal_strlit("  ");
    reveal_strlit("▶");
    reveal_strlit("▾ ");
    reveal_strlit("▸ ");
    let t = ui::row_text(row, here, width);
    let indent = 2 * row.depth;
    let head = ui::row_head(row, here);
    let count = ui::row_count(row);
    let n = row.label.len();
    let room = layout::larger(width - (4 + 2 * row.depth + count.len()), 0);
    let label = tags::elided(row.label, room);
    assert(head.len() == 4 + indent);
    let line = head + label + count;
    crate::number_laws::law_padding(line, width);
    assert forall|i: int| 0 <= i < line.len() implies t[i] == line[i] by {
        assert(t.take(line.len() as int)[i] == line[i]);
    }
    assert forall|i: int| 2 <= i < 2 + indent implies #[trigger] t[i] == ' ' by {
        assert(line[i] == head[i]);
    }
    assert(t[0] == head[0] && t[1] == head[1]);
    assert(t[2 + indent] == head[2 + indent] && t[3 + indent] == head[3 + indent]);
    crate::tag_laws::law_elided_keeps_both_ends(row.label, room);
    if 4 + indent + n + count.len() <= width {
        assert(label == row.label);
        assert(t.subrange(4 + indent, 4 + indent + n) =~= row.label);
        assert(t.subrange(4 + indent + n, (4 + indent + n + count.len()) as int) =~= count);
    } else if 4 + indent + count.len() <= width {
        lemma_elided_len(row.label, room);
        assert(t.skip(width - count.len()) =~= count);
        assert(t.subrange(4 + indent, width - count.len()) =~= label);
    }
}

proof fn lemma_elided_len(label: Seq<char>, room: int)
    requires
        0 <= room < label.len(),
    ensures
        tags::elided(label, room).len() == room,
{
}

/// The rows in sight stand one below the other under the title, from where the
/// list is scrolled to. The selected one has the pointer, and stands out while
/// the list has the focus.
pub proof fn law_rows_are_listed(
    area: Rect,
    a: app::AppView,
    rows: Seq<tags::RowView>,
    top: int,
    n: nat,
    i: int,
)
    requires
        0 <= i < n,
        0 <= a.tag_scroll,
        a.tag_scroll + n <= rows.len(),
    ensures
        ({
            let ls = ui::rows_lines(area, a, rows, top, n);
            let at = a.tag_scroll + i;
            &&& ls.len() == n
            &&& ls[i].x == area.x
            &&& ls[i].y == top + 1 + i
            &&& ls[i].text == ui::row_text(
                rows[at],
                at == a.tag_sel,
                if area.width >= 2 {
                    area.width - 2
                } else {
                    0
                },
            )
            &&& ls[i].style.add == if a.focus == Focus::Tags && at == a.tag_sel {
                0x40u16
            } else {
                0
            }
        }),
    decreases n,
{
    let ls = ui::rows_lines(area, a, rows, top, n);
    let fewer = ui::rows_lines(area, a, rows, top, (n - 1) as nat);
    if n > 1 {
        law_rows_are_listed(
            area,
            a,
            rows,
            top,
            (n - 1) as nat,
            if i < n - 1 {
                i
            } else {
                0
            },
        );
    }
    if i < n - 1 {
        assert(ls[i] == fewer[i]);
    }
}

// ---------------------------------------------------------------------------
// The sidebar
// ---------------------------------------------------------------------------
/// The titles of the lists say how many entries they have; with a filter the one
/// of the runs says of how many, and both show the filter.
pub proof fn law_titles(a: app::AppView, listed: nat, total: nat, ntags: nat)
    ensures
        a.run_filter_text.len() == 0 && !(a.filter_editing && a.filter_target == Focus::Runs)
            ==> ui::runs_title(a, listed, total) == " RUNS ("@ + text::decimal(listed) + ")"@,
        a.run_filter_text.len() > 0 ==> ui::runs_title(a, listed, total) == " RUNS ("@
            + text::decimal(listed) + "/"@ + text::decimal(total) + ")"@ + "  /"@
            + a.run_filter_text,
        a.filter_text.len() == 0 && !a.filter_editing ==> ui::tags_title(a, ntags) == " TAGS ("@
            + text::decimal(ntags) + ")"@,
        a.filter_text.len() > 0 ==> ui::tags_title(a, ntags) == " TAGS ("@ + text::decimal(ntags)
            + ")"@ + "  /"@ + a.filter_text,
{
}

/// The list of runs takes no more than a third of the height, but two rows at
/// least; below that, as much as it needs.
pub proof fn law_room_for_runs(runs: int, height: int)
    requires
        0 <= runs < 0xffff,
        0 <= height,
    ensures
        ({
            let h = layout::runs_height(runs, height);
            &&& h >= 2
            &&& h == 2 || 3 * h <= height
            &&& runs >= 1 && 3 * (runs + 1) <= height ==> h == runs + 1
            &&& h <= runs + 1 || h == 2
            &&& 3 * (runs + 1) > height && height >= 6 ==> 3 * (h + 1) > height
        }),
{
}

/// Once the lists are drawn, the selected tag is one of the rows, both selections
/// are in sight, and a list that showed its selection has not moved. Nothing else
/// changes.
pub proof fn law_selections_are_in_sight(
    a: app::AppView,
    nruns: int,
    nrows: int,
    height: int,
)
    requires
        0 <= a.run_scroll,
        0 <= a.tag_scroll,
        0 <= a.run_sel < nruns < 0xffff,
        0 <= a.tag_sel,
        0 < nrows,
        6 <= height,
    ensures
        ({
            let b = ui::lists_drawn(a, nruns, nrows, height);
            let h = layout::runs_height(nruns, height);
            &&& b == (app::AppView {
                run_scroll: b.run_scroll,
                tag_sel: b.tag_sel,
                tag_scroll: b.tag_scroll,
                ..a
            })
            &&& 0 <= b.run_scroll <= a.run_sel < b.run_scroll + (h - 1)
            &&& a.tag_sel < nrows ==> b.tag_sel == a.tag_sel
            &&& a.tag_sel >= nrows ==> b.tag_sel == nrows - 1
            &&& 0 <= b.tag_scroll <= b.tag_sel < b.tag_scroll + (height - h - 1)
            &&& a.run_scroll <= a.run_sel < a.run_scroll + (h - 1) ==> b.run_scroll == a.run_scroll
            &&& a.tag_scroll <= b.tag_sel < a.tag_scroll + (height - h - 1) ==> b.tag_scroll
                == a.tag_scroll
        }),
{
    law_room_for_runs(nruns, height);
}

/// A list shows as many entries as there is room for and as are left from where
/// it is scrolled to.
pub proof fn law_entries_in_sight(len: int, scroll: int, visible: int)
    requires
        0 <= scroll,
        0 <= len,
        0 <= visible,
    ensures
        ({
            let n = ui::in_sight(len, scroll, visible);
            &&& 0 <= n <= visible
            &&& n == visible || scroll + n == len || (scroll > len && n == 0)
            &&& n > 0 ==> scroll + n <= len
        }),
{
}

/// The sidebar has the runs at the top and the tags below them, each under a bold
/// title that stands out where the list has the focus, and a rule along its right
/// edge.
pub proof fn law_parts_of_the_sidebar(
    area: Rect,
    st: store::StoreView,
    palette: Palette,
    a: app::AppView,
    listed: Seq<Seq<char>>,
    ntags: nat,
    rows: Seq<tags::RowView>,
)
    requires
        area.height >= 6,
        0 <= a.run_scroll,
        0 <= a.tag_scroll,
        listed.len() < 0xffff,
    ensures
        ({
            let v = ui::sidebar_views(area, st, palette, a, listed, ntags, rows);
            let h = layout::runs_height(listed.len() as int, area.height as int);
            let k = ui::in_sight(listed.len() as int, a.run_scroll, h - 1) as nat;
            let m = ui::in_sight(rows.len() as int, a.tag_scroll, area.height - h - 1) as nat;
            let runs = ui::runs_lines(area, st, palette, a, listed, k);
            let list = ui::rows_lines(area, a, rows, area.y + h, m);
            let t = 1 + runs.len();
            let r = t + 1 + list.len();
            &&& v[0].x == area.x && v[0].y == area.y
            &&& v[0].text == ui::runs_title(a, listed.len(), st.runs.dom().len())
            &&& v[0].style.add == if a.focus == Focus::Runs {
                0x41u16
            } else {
                0x01
            }
            &&& v.subrange(1, t as int) == runs
            &&& v[t as int].x == area.x && v[t as int].y == area.y + h
            &&& v[t as int].text == ui::tags_title(a, ntags)
            &&& v[t as int].style.add == if a.focus == Focus::Tags {
                0x41u16
            } else {
                0x01
            }
            &&& v.subrange((t + 1) as int, r as int) == list
            &&& v.len() == r + area.height
            &&& forall|i: int|
                r <= i < v.len() ==> (#[trigger] v[i]).x == area.x + area.width - 1 && v[i].y
                    == area.y + (i - r) && v[i].text == "│"@
        }),
{
    let v = ui::sidebar_views(area, st, palette, a, listed, ntags, rows);
    law_room_for_runs(listed.len() as int, area.height as int);
    let h = layout::runs_height(listed.len() as int, area.height as int);
    let k = ui::in_sight(listed.len() as int, a.run_scroll, h - 1) as nat;
    let m = ui::in_sight(rows.len() as int, a.tag_scroll, area.height - h - 1) as nat;
    let runs = ui::runs_lines(area, st, palette, a, listed, k);
    let list = ui::rows_lines(area, a, rows, area.y + h, m);
    let rule = ui::rule_lines(area, area.height as nat);
    let t = 1 + runs.len();
    let r = t + 1 + list.len();
    assert(v.subrange(1, t as int) =~= runs);
    assert(v.subrange((t + 1) as int, r as int) =~= list);
    assert forall|i: int| r <= i < v.len() implies (#[trigger] v[i]).x == area.x + area.width - 1
        && v[i].y == area.y + (i - r) && v[i].text == "│"@ by {
        assert(v[i] == rule[i - r]);
    }
}

/// The sidebar is as wide as its longest name or row asks for, if that is not too
/// much: between 24 and 46 columns, and no more than two fifths of the screen
/// unless that is less than 24.
pub proof fn law_sidebar_fits_its_names(
    total: int,
    runs: Seq<Seq<char>>,
    rows: Seq<tags::RowView>,
    i: int,
    j: int,
)
    requires
        0 <= total,
        0 <= i < runs.len(),
        0 <= j < rows.len(),
    ensures
        ({
            let w = layout::sidebar_fit(total, runs, rows);
            let full = w == 46 || 5 * (w + 1) > 2 * total;
            &&& full || runs[i].len() + 6 <= w
            &&& full || 4 + 2 * rows[j].depth + rows[j].label.len() + (if rows[j].leaf {
                0int
            } else {
                5int
            }) <= w
            &&& w > 24 ==> (exists|k: int|
                0 <= k < runs.len() && w <= (#[trigger] runs[k]).len() + 6) || (exists|k: int|
                0 <= k < rows.len() && w <= 4 + 2 * (#[trigger] rows[k]).depth
                    + rows[k].label.len() + (if rows[k].leaf {
                    0int
                } else {
                    5int
                }))
        }),
{
    lemma_longest(runs, i);
    lemma_widest(rows, j);
}

proof fn lemma_longest(names: Seq<Seq<char>>, i: int)
    requires
        0 <= i < names.len(),
    ensures
        names[i].len() <= layout::longest(names),
        exists|k: int| 0 <= k < names.len() && (#[trigger] names[k]).len() == layout::longest(names),
    decreases names.len(),
{
    let fewer = names.drop_last();
    assert(names[names.len() - 1] == names.last());
    if fewer.len() > 0 {
        lemma_longest(
            fewer,
            if i < fewer.len() {
                i
            } else {
                0
            },
        );
        let k = choose|k: int|
            0 <= k < fewer.len() && (#[trigger] fewer[k]).len() == layout::longest(fewer);
        assert(names[k] == fewer[k]);
        if i < fewer.len() {
            assert(names[i] == fewer[i]);
        }
    } else {
        assert(layout::longest(fewer) == 0);
    }
    assert(names[names.len() - 1].len() == names.last().len());
}

proof fn lemma_widest(rows: Seq<tags::RowView>, i: int)
    requires
        0 <= i < rows.len(),
    ensures
        layout::row_width(rows[i]) <= layout::widest(rows),
        layout::widest(rows) == 0 || exists|k: int|
            0 <= k < rows.len() && layout::row_width(#[trigger] rows[k]) == layout::widest(rows),
    decreases rows.len(),
{
    let fewer = rows.drop_last();
    assert(rows[rows.len() - 1] == rows.last());
    if fewer.len() > 0 {
        lemma_widest(
            fewer,
            if i < fewer.len() {
                i
            } else {
                0
            },
        );
        if layout::widest(fewer) != 0 {
            let k = choose|k: int|
                0 <= k < fewer.len() && layout::row_width(#[trigger] fewer[k]) == layout::widest(
                    fewer,
                );
            assert(rows[k] == fewer[k]);
        }
        if i < fewer.len() {
            assert(rows[i] == fewer[i]);
        }
    } else {
        assert(layout::widest(fewer) == 0);
    }
    assert(layout::row_width(rows[rows.len() - 1]) == layout::row_width(rows.last()));
}

// ---------------------------------------------------------------------------
// Header and footer
// ---------------------------------------------------------------------------
/// A name counts if it is not in the set.
pub proof fn law_counting_shown_runs(names: Seq<Seq<char>>, n: Seq<char>, set: Set<Seq<char>>)
    ensures
        ui::count_outside(seq![], set) == 0,
        set.contains(n) ==> ui::count_outside(names.push(n), set) == ui::count_outside(names, set),
        !set.contains(n) ==> ui::count_outside(names.push(n), set) == ui::count_outside(names, set)
            + 1,
{
    assert(names.push(n).drop_last() =~= names);
}

/// The header begins with the log directory and, if there is room, ends with the
/// right edge of the screen: how many of the runs are shown, how many tags and
/// points there are and how far these are thinned, whether files are followed,
/// the axes, and the smoothing.
pub proof fn law_header(
    st: store::StoreView,
    a: app::AppView,
    busy: bool,
    runs: Seq<Seq<char>>,
    ntags: nat,
    stride: nat,
    smooth: Seq<char>,
    width: int,
)
    ensures
        ({
            let t = ui::header_text(st, a, busy, runs, ntags, stride, smooth, width);
            let left = " ttb  "@ + st.logdir + " "@;
            let thinned = if stride > 1 {
                " ÷"@ + text::decimal(stride)
            } else {
                seq![]
            };
            let state = if !a.follow {
                "paused"@
            } else if busy {
                "live ●"@
            } else {
                "live ○"@
            };
            let axis = match a.xmode {
                app::XMode::Step => "step"@,
                app::XMode::RelTime => "reltime"@,
                app::XMode::Wall => "wall"@,
            };
            let scale = if a.log_y {
                "log"@
            } else {
                "lin"@
            };
            let right = " runs "@ + text::decimal(ui::count_outside(runs, a.disabled)) + "/"@
                + text::decimal(runs.len()) + " │ tags "@ + text::decimal(ntags) + " │ pts "@
                + numbers::count_text(st.total_points as nat) + thinned + (" │ "@ + state
                + " │ x:"@ + axis + " │ y:"@ + scale + " │ smooth "@ + smooth + " "@);
            &&& t.len() >= width
            &&& t.len() >= left.len() + 1 + right.len()
            &&& t.take(left.len() as int) == left
            &&& left.len() + 1 + right.len() <= width ==> t.len() == width && t.skip(
                width - right.len(),
            ) == right
            &&& left.len() + 1 + right.len() > width ==> t == left + " "@ + right
        }),
{
    reveal_strlit(" ");
    let t = ui::header_text(st, a, busy, runs, ntags, stride, smooth, width);
    let left = " ttb  "@ + st.logdir + " "@;
    let thinned = if stride > 1 {
        " ÷"@ + text::decimal(stride)
    } else {
        seq![]
    };
    let state = if !a.follow {
        "paused"@
    } else if busy {
        "live ●"@
    } else {
        "live ○"@
    };
    let axis = match a.xmode {
        app::XMode::Step => "step"@,
        app::XMode::RelTime => "reltime"@,
        app::XMode::Wall => "wall"@,
    };
    let scale = if a.log_y {
        "log"@
    } else {
        "lin"@
    };
    let right = " runs "@ + text::decimal(ui::count_outside(runs, a.disabled)) + "/"@
        + text::decimal(runs.len()) + " │ tags "@ + text::decimal(ntags) + " │ pts "@
        + numbers::count_text(st.total_points as nat) + thinned + (" │ "@ + state + " │ x:"@ + axis
        + " │ y:"@ + scale + " │ smooth "@ + smooth + " "@);
    assert(ui::header_right(st, a, busy, runs, ntags, stride, smooth) =~= right);
    let gap = layout::larger(width - left.len() - right.len(), 1);
    let bar = left + text::repeated(' ', gap as nat) + right;
    crate::number_laws::law_padding(bar, width);
    assert(t.take(bar.len() as int) == bar);
    assert(t =~= bar) by {
        assert(t.len() == bar.len());
        assert(t.take(bar.len() as int) =~= t);
    }
    assert(t.take(left.len() as int) =~= left);
    if left.len() + 1 + right.len() <= width {
        assert(t.skip(width - right.len()) =~= right);
    } else {
        assert(t =~= left + " "@ + right);
    }
}

/// The footer shows the filter while it is edited, else a message as long as it
/// lasts, else something that does not depend on the state.
pub proof fn law_footer(a: app::AppView, b: app::AppView, now: int)
    ensures
        a.filter_editing && a.filter_target == Focus::Runs ==> ui::footer_text(a, now)
            == " filter runs: "@ + a.run_filter_text + "▏  (Enter apply · Esc cancel)"@,
        a.filter_editing && a.filter_target != Focus::Runs ==> ui::footer_text(a, now)
            == " filter tags: "@ + a.filter_text + "▏  (Enter apply · Esc cancel)"@,
        !a.filter_editing && now < a.flash_until ==> ui::footer_text(a, now) == " "@ + a.flash_msg,
        !a.filter_editing && !b.filter_editing && a.flash_until <= now && b.flash_until <= now
            ==> ui::footer_text(a, now) == ui::footer_text(b, now),
{
    reveal_strlit(" filter ");
    reveal_strlit("runs");
    reveal_strlit("tags");
    reveal_strlit(": ");
    reveal_strlit(" filter runs: ");
    reveal_strlit(" filter tags: ");
    let end = "▏  (Enter apply · Esc cancel)"@;
    if a.filter_editing {
        if a.filter_target == Focus::Runs {
            assert(ui::footer_text(a, now) =~= " filter runs: "@ + a.run_filter_text + end);
        } else {
            assert(ui::footer_text(a, now) =~= " filter tags: "@ + a.filter_text + end);
        }
    }
}

// ---------------------------------------------------------------------------
// The help
// ---------------------------------------------------------------------------
/// The help stands in the middle of the screen, no larger than 64 by 20 and with
/// a margin around it.
pub proof fn law_help_is_centered(area: Rect)
    requires
        area.wf(),
        area.width >= 40,
        area.height >= 8,
    ensures
        ({
            let b = ui::help_box(area);
            let left = b.x - area.x;
            let right = area.x + area.width - (b.x + b.width);
            let above = b.y - area.y;
            let below = area.y + area.height - (b.y + b.height);
            &&& b.width <= 64 && b.height <= 20
            &&& b.width == 64 || left + right == 4
            &&& b.height == 20 || above + below == 2
            &&& left >= 2 && 0 <= right - left <= 1
            &&& above >= 1 && 0 <= below - above <= 1
        }),
{
}

/// The keys are listed one below the other, as many as there is room for, each
/// with what it does beside it.
pub proof fn law_help_lists_the_keys(b: Rect, n: nat, i: int)
    requires
        0 <= i < n <= 16,
    ensures
        ({
            let ls = ui::key_lines(b, n);
            let key = ls[2 * i];
            let what = ls[2 * i + 1];
            &&& ls.len() == 2 * n
            &&& key.x == b.x + 2 && what.x == b.x + 20
            &&& key.y == b.y + 3 + i && what.y == key.y
            &&& key.text.len() >= ui::help_lines()[i].0.len()
            &&& key.text.take(ui::help_lines()[i].0.len() as int) == ui::help_lines()[i].0
            &&& what.text == ui::help_lines()[i].1
        }),
    decreases n,
{
    let ls = ui::key_lines(b, n);
    let fewer = ui::key_lines(b, (n - 1) as nat);
    if n > 1 {
        law_help_lists_the_keys(
            b,
            (n - 1) as nat,
            if i < n - 1 {
                i
            } else {
                0
            },
        );
    }
    if i < n - 1 {
        assert(ls[2 * i] == fewer[2 * i]);
        assert(ls[2 * i + 1] == fewer[2 * i + 1]);
    } else {
        assert(fewer.len() == 2 * (n - 1));
        crate::number_laws::law_padding(ui::help_lines()[i].0, 18);
    }
}

// ---------------------------------------------------------------------------
// Tags and charts
// ---------------------------------------------------------------------------
/// The tags that are listed are those of which a shown run has points, and which
/// hold the text of the filter, upper and lower case alike.
pub proof fn law_listed_tags(
    st: store::StoreView,
    a: app::AppView,
    names: Seq<Seq<char>>,
    t: Seq<char>,
)
    requires
        ui::tags_listed(st, a, names),
    ensures
        names.contains(t) <==> {
            &&& exists|n: Seq<char>|
                st.runs.contains_key(n) && !a.disabled.contains(n) && (
                #[trigger] st.runs[n]).series.contains_key(t)
            &&& a.filter_text.len() == 0 || text::has_part(
                text::lowercase(t),
                text::lowercase(a.filter_text),
            )
        },
{
    let all = choose|all: Seq<Seq<char>>|
        #![trigger app::listed(all, a.filter_text)]
        {
            &&& text::ascending(all)
            &&& forall|t: Seq<char>| #[trigger]
                all.contains(t) <==> store::has_tag(st, ui::enabled_runs(st, a), t)
            &&& names == app::listed(all, a.filter_text)
        };
    crate::app_laws::law_filter_lists_matches(all, a.filter_text, t);
    assert(all.contains(t) <==> store::has_tag(st, ui::enabled_runs(st, a), t));
    if store::has_tag(st, ui::enabled_runs(st, a), t) {
        let n = choose|n: Seq<char>|
            ui::enabled_runs(st, a).contains(n) && st.runs.contains_key(n) && (
            #[trigger] st.runs[n]).series.contains_key(t);
        assert(!a.disabled.contains(n));
    }
    if exists|n: Seq<char>|
        st.runs.contains_key(n) && !a.disabled.contains(n) && (
        #[trigger] st.runs[n]).series.contains_key(t) {
        let n = choose|n: Seq<char>|
            st.runs.contains_key(n) && !a.disabled.contains(n) && (
            #[trigger] st.runs[n]).series.contains_key(t);
        assert(ui::enabled_runs(st, a).contains(n));
    }
}

/// A row leads to its own tag if it is a leaf, and else to every tag whose
/// segments begin with those of its path.
pub proof fn law_where_rows_lead(row: tags::RowView, tag: Seq<char>)
    ensures
        row.leaf ==> (tags::leads_to(row, tag) <==> tag == row.path),
        !row.leaf ==> (tags::leads_to(row, tag) <==> {
            let s = tags::segments(tag);
            let p = tags::segments(row.path);
            p.len() <= s.len() && forall|i: int| 0 <= i < p.len() ==> s[i] == p[i]
        }),
{
    let s = tags::segments(tag);
    let p = tags::segments(row.path);
    if !row.leaf && p.len() <= s.len() && forall|i: int| 0 <= i < p.len() ==> s[i] == p[i] {
        assert(s.take(p.len() as int) =~= p);
    }
    if !row.leaf && tags::leads_to(row, tag) {
        assert forall|i: int| 0 <= i < p.len() implies s[i] == p[i] by {
            assert(s.take(p.len() as int)[i] == p[i]);
        }
    }
}

/// Until everything is loaded the pane says so, and without tags it says why
/// there is nothing. Else it shows the chart of the first tag that the selected
/// row leads to, filling the pane, with cursor and legend; or a grid of charts of
/// that tag and of those that follow it, of which the first one stands out.
pub proof fn law_what_the_pane_shows(
    plan: ChartsPlan,
    a: app::AppView,
    area: Rect,
    names: Seq<Seq<char>>,
    i: int,
)
    requires
        charts::plans(plan, a, area, names),
        names.len() <= usize::MAX,
    ensures
        !a.loaded ==> (plan matches ChartsPlan::Message(p) && p@.text == "loading event files…"@),
        a.loaded && names.len() == 0 && a.filter_text.len() == 0 ==> (
        plan matches ChartsPlan::Message(p) && p@.text == "no scalars found"@),
        a.loaded && names.len() == 0 && a.filter_text.len() > 0 ==> (
        plan matches ChartsPlan::Message(p) && p@.text == "no tags match filter"@),
        a.loaded && names.len() > 0 ==> plan is Cells,
        plan matches ChartsPlan::Cells(cells) ==> {
            &&& cells@.len() > 0
            &&& charts::first_tag(a, names, cells@[0].tag as int)
            &&& cells@[0].highlight
            &&& !a.grid ==> cells@.len() == 1 && cells@[0].area == area && cells@[0].detailed
            &&& a.grid && 0 <= i < cells@.len() ==> {
                &&& cells@[i].tag == cells@[0].tag + i
                &&& !cells@[i].detailed
                &&& cells@[i].highlight <==> i == 0
                &&& cells@.len() <= 9
                &&& cells@.len() <= names.len() - cells@[0].tag
            }
        },
{
    if plan is Cells {
        let cells = plan->Cells_0;
        let first = choose|first: int| #[trigger]
            charts::first_tag(a, names, first) && if a.grid {
                let n = layout::chart_count(
                    area.width as int,
                    area.height as int,
                    names.len() - first,
                );
                exists|cols: int| #[trigger]
                    layout::best_cols(area.width as int, area.height as int, n, cols) && cells@
                        == charts::grid_cells(
                        area,
                        first,
                        cols,
                        layout::rows_for(n, cols),
                        n as nat,
                    )
            } else {
                cells@ == seq![
                    charts::ChartCell {
                        area,
                        tag: first as usize,
                        detailed: true,
                        highlight: true,
                    },
                ]
            };
        lemma_count(area.width as int, area.height as int, names.len() - first);
    }
}

proof fn lemma_count(width: int, height: int, available: int)
    requires
        available >= 1,
    ensures
        1 <= layout::chart_count(width, height, available) <= 9,
        layout::chart_count(width, height, available) <= available,
{
    let c = layout::max_cols(width);
    let r = layout::max_rows(height);
    assert(1 <= c * r <= 9) by (nonlinear_arith)
        requires
            1 <= c <= 3,
            1 <= r <= 3,
    ;
}

/// A grid shows every chart that there is, up to nine, as far as each has 40
/// columns and nine rows to itself.
pub proof fn law_grid_shows_what_fits(width: int, height: int, available: int)
    requires
        1 <= available,
        0 <= width,
        0 <= height,
    ensures
        ({
            let c = layout::max_cols(width);
            let r = layout::max_rows(height);
            let n = layout::chart_count(width, height, available);
            &&& 1 <= c <= 3 && 1 <= r <= 3
            &&& c == 1 || 40 * c <= width
            &&& c == 3 || 40 * (c + 1) > width
            &&& r == 1 || 9 * r <= height
            &&& r == 3 || 9 * (r + 1) > height
            &&& n == available || (n == c * r && n < available)
        }),
{
    lemma_count(width, height, available);
}

/// The charts of a grid are read like lines of text: the next one stands to the
/// right of a chart, or in the row below it.
pub proof fn law_grid_is_read_in_lines(area: Rect, cols: int, rows: int, i: int, j: int)
    requires
        area.wf(),
        0 < cols <= area.width,
        0 < rows <= area.height,
        0 <= i < j,
        j / cols < rows,
    ensures
        ({
            let a = layout::grid_cell(area, cols, rows, i);
            let b = layout::grid_cell(area, cols, rows, j);
            &&& i / cols == j / cols ==> a.y == b.y && a.height == b.height && a.x + a.width <= b.x
            &&& i / cols < j / cols ==> a.y + a.height <= b.y
            &&& i % cols == j % cols ==> a.x == b.x && a.width == b.width
        }),
{
    let w = area.width as int;
    let h = area.height as int;
    let (c, r) = (i % cols, i / cols);
    let (d, s) = (j % cols, j / cols);
    vstd::arithmetic::div_mod::lemma_fundamental_div_mod(i, cols);
    vstd::arithmetic::div_mod::lemma_fundamental_div_mod(j, cols);
    assert(0 <= c < cols && 0 <= d < cols && 0 <= r && 0 <= s) by (nonlinear_arith)
        requires
            0 < cols,
            0 <= i,
            0 <= j,
            c == i % cols,
            d == j % cols,
            r == i / cols,
            s == j / cols,
    ;
    assert(r <= s) by (nonlinear_arith)
        requires
            0 < cols,
            0 <= i < j,
            r == i / cols,
            s == j / cols,
    ;
    layout::law_pieces_share_out(w, cols, c);
    layout::law_pieces_share_out(w, cols, d);
    layout::law_pieces_share_out(h, rows, r);
    layout::law_pieces_share_out(h, rows, s);
    if r == s {
        assert(c < d);
        layout::lemma_pieces_ascend(w, cols, c, d);
    } else {
        layout::lemma_pieces_ascend(h, rows, r, s);
    }
}

/// Two pieces of a length that is shared out differ by one at most, and the
/// longer ones come first.
pub proof fn law_pieces_are_even(total: int, n: int, i: int, j: int)
    requires
        0 <= total,
        0 < n,
        0 <= i < j < n,
    ensures
        0 <= layout::piece_len(i, total / n, total % n) - layout::piece_len(
            j,
            total / n,
            total % n,
        ) <= 1,
{
}

// ---------------------------------------------------------------------------
// The frame
// ---------------------------------------------------------------------------
/// The header takes the first row and the footer the last one. Between them the
/// sidebar takes the left and the charts all the rest.
pub proof fn law_panes_share_the_screen(area: Rect, width: int, x: int, y: int)
    requires
        area.wf(),
        !frame::too_small(area),
        0 <= width <= area.width,
        area.has(x, y),
    ensures
        ({
            let side = frame::side_pane(area, width);
            let charts = frame::chart_pane(area, width);
            let between = area.y < y < area.y + area.height - 1;
            &&& side.has(x, y) <==> between && x < area.x + width
            &&& charts.has(x, y) <==> between && x >= area.x + width
            &&& charts.width == area.width - width
            &&& charts.height == area.height - 2
        }),
{
}

/// Below 40 columns or eight rows nothing can be shown.
pub proof fn law_smallest_screen(area: Rect)
    ensures
        frame::too_small(area) <==> area.width < 40 || area.height < 8,
{
}

/// The header comes first and the footer second, across the screen; the sidebar
/// follows only where it is switched on.
pub proof fn law_borders_of_a_frame(
    a: app::AppView,
    area: Rect,
    st: store::StoreView,
    palette: Palette,
    busy: bool,
    runs: Seq<Seq<char>>,
    names: Seq<Seq<char>>,
    stride: nat,
    smooth: Seq<char>,
    now: int,
)
    ensures
        ({
            let v = frame::border_views(a, area, st, palette, busy, runs, names, stride, smooth, now);
            &&& v.len() >= 2
            &&& v[0].x == area.x && v[0].y == area.y
            &&& v[0].text == ui::header_text(
                st,
                a,
                busy,
                runs,
                names.len(),
                stride,
                smooth,
                area.width as int,
            )
            &&& v[1].x == area.x && v[1].y == area.y + area.height - 1
            &&& v[1].text.len() >= area.width
            &&& v[1].text.take(ui::footer_text(a, now).len() as int) == ui::footer_text(a, now)
            &&& !a.sidebar ==> v.len() == 2
            &&& !a.sidebar ==> frame::side_width(a, area, runs, names) == 0
            &&& a.sidebar ==> v.skip(2) == ui::sidebar_views(
                frame::side_pane(area, frame::side_width(a, area, runs, names)),
                st,
                palette,
                frame::frame_state(a, area, runs, names),
                app::listed(runs, a.run_filter_text),
                names.len(),
                app::shown_rows(a, names),
            )
        }),
{
    let v = frame::border_views(a, area, st, palette, busy, runs, names, stride, smooth, now);
    crate::number_laws::law_padding(ui::footer_text(a, now), area.width as int);
    if a.sidebar {
        assert(v.skip(2) =~= ui::sidebar_views(
            frame::side_pane(area, frame::side_width(a, area, runs, names)),
            st,
            palette,
            frame::frame_state(a, area, runs, names),
            app::listed(runs, a.run_filter_text),
            names.len(),
            app::shown_rows(a, names),
        ));
    }
}

/// Drawing a frame puts the selected run into the list and changes nothing else
/// but the selected tag and from where the lists are shown.
pub proof fn law_drawing_keeps_the_state(
    a: app::AppView,
    area: Rect,
    runs: Seq<Seq<char>>,
    names: Seq<Seq<char>>,
)
    requires
        0 <= a.run_sel,
    ensures
        ({
            let b = frame::frame_state(a, area, runs, names);
            let listed = app::listed(runs, a.run_filter_text);
            &&& b == (app::AppView {
                run_sel: b.run_sel,
                tag_sel: b.tag_sel,
                run_scroll: b.run_scroll,
                tag_scroll: b.tag_scroll,
                ..a
            })
            &&& a.run_sel < listed.len() ==> b.run_sel == a.run_sel
            &&& 0 < listed.len() <= a.run_sel ==> b.run_sel == listed.len() - 1
            &&& listed.len() == 0 ==> b.run_sel == 0
            &&& !a.sidebar ==> b.tag_sel == a.tag_sel && b.tag_scroll == a.tag_scroll
                && b.run_scroll == a.run_scroll
        }),
{
}

/// The charts of a grid are drawn one after the other, each of its own tag and in
/// its own state.
pub proof fn law_every_chart_is_drawn(
    cells: Seq<charts::ChartCell>,
    names: Seq<Seq<char>>,
    grid: bool,
    palette: Palette,
    states: Seq<ChartState>,
    n: nat,
)
    requires
        n < cells.len(),
        states.len() == cells.len(),
    ensures
        frame::cells_views(cells, names, grid, palette, states, 0).len() == 0,
        frame::cells_views(cells, names, grid, palette, states, n + 1) == frame::cells_views(
            cells,
            names,
            grid,
            palette,
            states,
            n,
        ) + charts::chart_views(
            cells[n as int],
            names[cells[n as int].tag as int],
            grid,
            palette,
            states[n as int],
        ),
{
}

/// What is drawn later is drawn over what is there, and a line that starts beyond
/// the right or the lower edge leaves no trace.
pub proof fn law_lines_are_drawn_in_order(
    cells: Seq<CellView>,
    area: Rect,
    a: Seq<PutView>,
    b: Seq<PutView>,
    p: PutView,
)
    ensures
        paint::put_all(cells, area, a + b) == paint::put_all(
            paint::put_all(cells, area, a),
            area,
            b,
        ),
        paint::put_all(cells, area, seq![]) == cells,
        p.x >= area.x + area.width || p.y >= area.y + area.height ==> paint::put_into(
            cells,
            area,
            p,
        ) == cells,
    decreases b.len(),
{
    if b.len() == 0 {
        assert(a + b =~= a);
    } else {
        assert((a + b).drop_last() =~= a + b.drop_last());
        law_lines_are_drawn_in_order(cells, area, a, b.drop_last(), p);
    }
}

/// A character that is written takes the colours that its style has and leaves
/// the others, and sets and clears the bits that the style says.
pub proof fn law_styles(cell: CellView, c: char, style: paint::Style, bit: u16)
    ensures
        ({
            let after = paint::restyled(cell, c, style);
            &&& after.symbol == seq![c]
            &&& style.fg is Some ==> after.fg == style.fg
            &&& style.fg is None ==> after.fg == cell.fg
            &&& style.bg is Some ==> after.bg == style.bg
            &&& style.bg is None ==> after.bg == cell.bg
            &&& style.sub & bit == bit ==> after.bits & bit == 0
            &&& style.sub & bit == 0 && style.add & bit == bit ==> after.bits & bit == bit
            &&& style.sub & bit == 0 && style.add & bit == 0 ==> after.bits & bit == cell.bits & bit
        }),
{
    let b = cell.bits;
    let add = style.add;
    let sub = style.sub;
    let after = (b | add) & !sub;
    assert(sub & bit == bit ==> after & bit == 0) by (bit_vector)
        requires
            after == (b | add) & !sub,
    ;
    assert(sub & bit == 0 && add & bit == bit ==> after & bit == bit) by (bit_vector)
        requires
            after == (b | add) & !sub,
    ;
    assert(sub & bit == 0 && add & bit == 0 ==> after & bit == b & bit) by (bit_vector)
        requires
            after == (b | add) & !sub,
    ;
}

/// The charts of a grid stand in rows none of which is empty. Any other number of
/// columns and rows that fits and holds them has more cells, or as many and then
/// no more columns.
pub proof fn law_best_arrangement(width: int, height: int, n: int, cols: int, d: int, s: int)
    requires
        1 <= n,
        layout::best_cols(width, height, n, cols),
        1 <= d <= layout::max_cols(width),
        1 <= s <= layout::max_rows(height),
        n <= d * s,
    ensures
        ({
            let rows = layout::rows_for(n, cols);
            &&& 1 <= cols <= layout::max_cols(width)
            &&& 1 <= rows <= layout::max_rows(height)
            &&& cols * (rows - 1) < n <= cols * rows
            &&& cols * rows <= d * s
            &&& cols * rows == d * s ==> d <= cols
        }),
{
    let rows = layout::rows_for(n, cols);
    let least = layout::rows_for(n, d);
    lemma_rows(n, cols);
    lemma_rows(n, d);
    assert(least <= s) by (nonlinear_arith)
        requires
            d * (least - 1) < n,
            n <= d * s,
            1 <= d,
    ;
    assert(d * least <= d * s) by (nonlinear_arith)
        requires
            least <= s,
            1 <= d,
    ;
    assert(layout::shape_holds(width, height, n, d));
}

proof fn lemma_rows(n: int, cols: int)
    requires
        1 <= n,
        1 <= cols,
    ensures
        1 <= layout::rows_for(n, cols),
        cols * (layout::rows_for(n, cols) - 1) < n <= cols * layout::rows_for(n, cols),
{
    let rows = layout::rows_for(n, cols);
    vstd::arithmetic::div_mod::lemma_fundamental_div_mod(n + cols - 1, cols);
    assert(cols * (rows - 1) == cols * rows - cols) by (nonlinear_arith);
    assert(1 <= rows) by (nonlinear_arith)
        requires
            n <= cols * rows,
            1 <= n,
            1 <= cols,
    ;
}

/// A frame with a sidebar is drawn so that both selections are in sight in the
/// pane that the sidebar gets; a list that showed its selection there has not
/// moved.
pub proof fn law_selections_are_in_the_pane(
    a: app::AppView,
    area: Rect,
    runs: Seq<Seq<char>>,
    names: Seq<Seq<char>>,
)
    requires
        area.wf(),
        !frame::too_small(area),
        a.sidebar,
        0 <= a.run_scroll,
        0 <= a.tag_scroll,
        0 <= a.run_sel,
        0 <= a.tag_sel,
        0 < app::listed(runs, a.run_filter_text).len() < 0xffff,
        0 < app::shown_rows(a, names).len(),
    ensures
        ({
            let b = frame::frame_state(a, area, runs, names);
            let pane = frame::side_pane(area, frame::side_width(a, area, runs, names));
            let h = layout::runs_height(
                app::listed(runs, a.run_filter_text).len() as int,
                pane.height as int,
            );
            let left = pane.height - h;
            &&& b.run_scroll <= b.run_sel < b.run_scroll + (h - 1)
            &&& b.tag_scroll <= b.tag_sel < b.tag_scroll + (left - 1)
            &&& a.run_scroll <= b.run_sel < a.run_scroll + (h - 1) ==> b.run_scroll == a.run_scroll
            &&& a.tag_scroll <= b.tag_sel < a.tag_scroll + (left - 1) ==> b.tag_scroll
                == a.tag_scroll
            &&& b.tag_sel < app::shown_rows(a, names).len()
        }),
{
    let n = app::listed(runs, a.run_filter_text).len() as int;
    let sel = frame::run_selected(a, n);
    assert(app::shown_rows(sel, names) == app::shown_rows(a, names));
    law_selections_are_in_sight(
        sel,
        n,
        app::shown_rows(a, names).len() as int,
        area.height - 2,
    );
}

/// A coloured mark is written bold in its colour, on the background that is there.
pub proof fn law_coloured_marks(cell: CellView, c: char, color: crate::colors::Color)
    ensures
        ({
            let after = paint::restyled(cell, c, paint::mark_style(color));
            &&& after.fg == Some(color)
            &&& after.bg == cell.bg
            &&& after.bits == cell.bits | 1
        }),
{
    let b = cell.bits;
    assert((b | 0x01u16) & !0u16 == b | 1u16) by (bit_vector);
}

/// The help covers its whole panel with blanks, writes its title into the second
/// row, and lists as many keys below it as leave the last row free.
pub proof fn law_parts_of_the_help(area: Rect, i: int)
    requires
        area.wf(),
        area.width >= 40,
        area.height >= 8,
    ensures
        ({
            let v = ui::help_views(area);
            let b = ui::help_box(area);
            let h = b.height as int;
            let n = (h - 4) as nat;
            &&& v.len() == h + 1 + 2 * n
            &&& 0 <= i < h ==> v[i].x == b.x && v[i].y == b.y + i && v[i].text.len() == b.width
            &&& v[h].x == b.x + 2 && v[h].y == b.y + 1 && v[h].text
                == "terminal-tensorboard — keys"@
            &&& v.skip(h + 1) == ui::key_lines(b, n)
            &&& b.y + 3 + n == b.y + h - 1
        }),
{
    let v = ui::help_views(area);
    let b = ui::help_box(area);
    let n = (b.height - 4) as nat;
    lemma_key_lines_len(b, n);
    assert(v.skip(b.height + 1) =~= ui::key_lines(b, n));
    if 0 <= i < b.height {
        assert(v[i] == ui::panel_lines(b, b.height as nat)[i]);
    }
}

proof fn lemma_key_lines_len(b: Rect, n: nat)
    ensures
        ui::key_lines(b, n).len() == 2 * n,
    decreases n,
{
    if n > 0 {
        lemma_key_lines_len(b, (n - 1) as nat);
    }
}

/// The keys of the help, from the top down, with what each does.
pub proof fn law_keys_of_the_help(i: int)
    requires
        0 <= i < 16,
    ensures
        ui::help_lines().len() == 16,
        ui::help_lines()[i].0 == seq![
            "Tab / Shift-Tab"@,
            "j k / arrows"@,
            "Space"@,
            "Enter"@,
            "→ ←  or  l h"@,
            "a"@,
            "/"@,
            "h l / arrows"@,
            "+ - [ ] 0"@,
            "s / S"@,
            "L"@,
            "x"@,
            "g"@,
            "f"@,
            "b"@,
            "q"@,
        ][i],
        ui::help_lines()[i].1 == seq![
            "cycle focus: runs -> tags -> chart"@,
            "move in lists; prev/next tag in chart"@,
            "show/hide the selected run"@,
            "run: show only it · group: open/close · tag: chart"@,
            "in the tag tree: open / close a group"@,
            "show/hide every run the filter lists"@,
            "filter the focused list — runs or tags"@,
            "move data cursor (chart focus), c/Esc clear"@,
            "zoom in/out, pan left/right, reset view"@,
            "less / more smoothing"@,
            "toggle log-scale Y"@,
            "cycle X axis: step -> reltime -> wall"@,
            "grid view: as many charts as fit, up to 3x3"@,
            "toggle live follow    r: reload now"@,
            "toggle sidebar"@,
            "quit"@,
        ][i],
{
}

} // verus!
