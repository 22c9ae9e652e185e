//! What holds of the tag tree as a whole.
use vstd::prelude::*;

use crate::tags;
use crate::tags::RowView;
use crate::text;

verus! {

/// The tag has a segment, and single slashes between its segments and none
/// around them.
pub open spec fn plainly_spelled(tag: Seq<char>) -> bool {
    tag.len() > 0 && tags::plain(tag)
}

/// What follows a head in a path lies below it.
proof fn lemma_below_forth(ps: Seq<Seq<Seq<char>>>, h: Seq<char>, i: int)
    requires
        0 <= i < ps.len(),
        ps[i].len() > 0,
        ps[i][0] == h,
    ensures
        tags::below(ps, h).contains(ps[i].drop_first()),
    decreases ps.len(),
{
    let qs = ps.drop_last();
    let b = tags::below(ps, h);
    let rest = tags::below(qs, h);
    if i < qs.len() {
        lemma_below_forth(qs, h, i);
        let k = choose|k: int| 0 <= k < rest.len() && rest[k] == qs[i].drop_first();
        assert(b[k] == rest[k]);
    } else {
        assert(b[b.len() - 1] == ps[i].drop_first());
    }
}

/// What lies below a head follows it in some path.
proof fn lemma_below_back(ps: Seq<Seq<Seq<char>>>, h: Seq<char>, k: int) -> (i: int)
    requires
        0 <= k < tags::below(ps, h).len(),
    ensures
        0 <= i < ps.len(),
        ps[i].len() > 0,
        ps[i][0] == h,
        ps[i].drop_first() == tags::below(ps, h)[k],
    decreases ps.len(),
{
    let qs = ps.drop_last();
    let rest = tags::below(qs, h);
    if k < rest.len() {
        let i = lemma_below_back(qs, h, k);
        assert(ps[i] == qs[i]);
        i
    } else {
        ps.len() - 1
    }
}

/// A path that goes on has a head.
proof fn lemma_path_head(ps: Seq<Seq<Seq<char>>>, i: int) -> (k: int)
    requires
        0 <= i < ps.len(),
        ps[i].len() > 0,
    ensures
        0 <= k < tags::heads(ps).len(),
        tags::heads(ps)[k] == ps[i][0],
{
    tags::lemma_heads(ps);
    assert(tags::is_head(ps, ps[i][0]));
    assert(tags::heads(ps).contains(ps[i][0]));
    choose|k: int| 0 <= k < tags::heads(ps).len() && tags::heads(ps)[k] == ps[i][0]
}

// ---------------------------------------------------------------------------
// Counts
// ---------------------------------------------------------------------------
/// How many of the paths start with these segments.
pub open spec fn starting_with(ps: Seq<Seq<Seq<char>>>, q: Seq<Seq<char>>) -> nat
    decreases ps.len(),
{
    if ps.len() == 0 {
        0
    } else {
        starting_with(ps.drop_last(), q) + if tags::starts(ps.last(), q) {
            1nat
        } else {
            0nat
        }
    }
}

proof fn lemma_starting_below(ps: Seq<Seq<Seq<char>>>, h: Seq<char>, q: Seq<Seq<char>>)
    ensures
        starting_with(ps, seq![h] + q) == starting_with(tags::below(ps, h), q),
    decreases ps.len(),
{
    if ps.len() > 0 {
        let fewer = ps.drop_last();
        let p = ps.last();
        let hq = seq![h] + q;
        lemma_starting_below(fewer, h, q);
        if p.len() > 0 && p[0] == h {
            let t = p.drop_first();
            assert(tags::below(fewer, h).push(t).drop_last() =~= tags::below(fewer, h));
            if tags::starts(p, hq) {
                assert(t.take(q.len() as int) =~= q) by {
                    assert forall|i: int| 0 <= i < q.len() implies t[i] == q[i] by {
                        assert(p.take(hq.len() as int)[i + 1] == hq[i + 1]);
                    }
                }
            }
            if tags::starts(t, q) {
                assert(p.take(hq.len() as int) =~= hq) by {
                    assert forall|i: int| 0 <= i < hq.len() implies p[i] == hq[i] by {
                        if i > 0 {
                            assert(t.take(q.len() as int)[i - 1] == q[i - 1]);
                        }
                    }
                }
            }
        } else if tags::starts(p, hq) {
            assert(p.take(hq.len() as int)[0] == h);
        }
    }
}

proof fn lemma_starting_all(ps: Seq<Seq<Seq<char>>>)
    ensures
        starting_with(ps, seq![]) == ps.len(),
    decreases ps.len(),
{
    if ps.len() > 0 {
        lemma_starting_all(ps.drop_last());
        assert(ps.last().take(0) =~= seq![]);
    }
}

/// Where no path ends and there is one head, all paths lie below it.
proof fn lemma_only_head(ps: Seq<Seq<Seq<char>>>, h: Seq<char>)
    requires
        forall|i: int| 0 <= i < ps.len() ==> (#[trigger] ps[i]).len() > 0 && ps[i][0] == h,
    ensures
        tags::below(ps, h).len() == ps.len(),
    decreases ps.len(),
{
    if ps.len() > 0 {
        let fewer = ps.drop_last();
        assert forall|i: int| 0 <= i < fewer.len() implies (#[trigger] fewer[i]).len() > 0
            && fewer[i][0] == h by {
            assert(fewer[i] == ps[i]);
        }
        lemma_only_head(fewer, h);
        assert(ps.last() == ps[ps.len() - 1]);
    }
}

/// The segments that folding takes into the label.
spec fn chain(ps: Seq<Seq<Seq<char>>>) -> Seq<Seq<char>>
    decreases tags::weight(ps),
{
    if tags::folds(ps) {
        proof {
            tags::lemma_head_at(ps, 0);
        }
        seq![tags::heads(ps)[0]] + chain(tags::below(ps, tags::heads(ps)[0]))
    } else {
        seq![]
    }
}

proof fn lemma_folded_chain(label: Seq<char>, ps: Seq<Seq<Seq<char>>>)
    ensures
        tags::folded(label, ps).0 == tags::walked(label, chain(ps)),
        starting_with(ps, chain(ps)) == ps.len(),
    decreases tags::weight(ps),
{
    if tags::folds(ps) {
        let h = tags::heads(ps)[0];
        let b = tags::below(ps, h);
        tags::lemma_head_at(ps, 0);
        lemma_folded_chain(tags::step(label, h), b);
        assert(chain(ps).drop_first() =~= chain(b));
        assert forall|i: int| 0 <= i < ps.len() implies (#[trigger] ps[i]).len() > 0 && ps[i][0]
            == h by {
            let k = lemma_path_head(ps, i);
        }
        lemma_only_head(ps, h);
        lemma_starting_below(ps, h, chain(b));
    } else {
        lemma_starting_all(ps);
    }
}

proof fn lemma_folded_count(label: Seq<char>, ps: Seq<Seq<Seq<char>>>, q: Seq<Seq<char>>)
    ensures
        starting_with(tags::folded(label, ps).1, q) == starting_with(ps, chain(ps) + q),
    decreases tags::weight(ps),
{
    if tags::folds(ps) {
        let h = tags::heads(ps)[0];
        let b = tags::below(ps, h);
        tags::lemma_head_at(ps, 0);
        lemma_folded_count(tags::step(label, h), b, q);
        lemma_starting_below(ps, h, chain(b) + q);
        assert(seq![h] + (chain(b) + q) =~= chain(ps) + q);
    } else {
        assert(chain(ps) + q =~= q);
    }
}

/// Every path goes on behind the chain as a path that folding leaves,
proof fn lemma_chain_forth(label: Seq<char>, ps: Seq<Seq<Seq<char>>>, i: int) -> (k: int)
    requires
        0 <= i < ps.len(),
    ensures
        0 <= k < tags::folded(label, ps).1.len(),
        ps[i] == chain(ps) + tags::folded(label, ps).1[k],
    decreases tags::weight(ps),
{
    if tags::folds(ps) {
        let h = tags::heads(ps)[0];
        let b = tags::below(ps, h);
        tags::lemma_head_at(ps, 0);
        let x = lemma_path_head(ps, i);
        lemma_below_forth(ps, h, i);
        let j = choose|j: int| 0 <= j < b.len() && b[j] == ps[i].drop_first();
        let k = lemma_chain_forth(tags::step(label, h), b, j);
        assert(ps[i] =~= seq![h] + ps[i].drop_first());
        assert(ps[i] =~= chain(ps) + tags::folded(label, ps).1[k]);
        k
    } else {
        assert(chain(ps) + ps[i] =~= ps[i]);
        i
    }
}

/// and every path that folding leaves is what goes on behind the chain.
proof fn lemma_chain_back(label: Seq<char>, ps: Seq<Seq<Seq<char>>>, k: int) -> (i: int)
    requires
        0 <= k < tags::folded(label, ps).1.len(),
    ensures
        0 <= i < ps.len(),
        ps[i] == chain(ps) + tags::folded(label, ps).1[k],
    decreases tags::weight(ps),
{
    if tags::folds(ps) {
        let h = tags::heads(ps)[0];
        let b = tags::below(ps, h);
        tags::lemma_head_at(ps, 0);
        let j = lemma_chain_back(tags::step(label, h), b, k);
        let i = lemma_below_back(ps, h, j);
        assert(ps[i] =~= seq![h] + ps[i].drop_first());
        assert(ps[i] =~= chain(ps) + tags::folded(label, ps).1[k]);
        i
    } else {
        assert(chain(ps) + ps[k] =~= ps[k]);
        k
    }
}

/// Where the count is not zero, some path starts with the segments.
proof fn lemma_starting_one(ps: Seq<Seq<Seq<char>>>, q: Seq<Seq<char>>) -> (i: int)
    requires
        starting_with(ps, q) > 0,
    ensures
        0 <= i < ps.len(),
        tags::starts(ps[i], q),
    decreases ps.len(),
{
    if tags::starts(ps.last(), q) {
        ps.len() - 1
    } else {
        let i = lemma_starting_one(ps.drop_last(), q);
        assert(ps.drop_last()[i] == ps[i]);
        i
    }
}

proof fn lemma_chain_proper(ps: Seq<Seq<Seq<char>>>)
    requires
        tags::all_proper(ps),
    ensures
        tags::proper(chain(ps)),
        forall|label: Seq<char>| tags::all_proper(#[trigger] tags::folded(label, ps).1),
    decreases tags::weight(ps),
{
    if tags::folds(ps) {
        let h = tags::heads(ps)[0];
        let b = tags::below(ps, h);
        tags::lemma_head_at(ps, 0);
        tags::lemma_head_proper(ps, 0);
        lemma_chain_proper(b);
        let c = chain(ps);
        assert forall|i: int| 0 <= i < c.len() implies tags::is_segment(#[trigger] c[i]) by {
            if i > 0 {
                assert(c[i] == chain(b)[i - 1]);
            }
        }
        assert forall|label: Seq<char>| tags::all_proper(
            #[trigger] tags::folded(label, ps).1,
        ) by {
            assert(tags::folded(label, ps) == tags::folded(tags::step(label, h), b));
        }
    }
}

// ---------------------------------------------------------------------------
// Routes
// ---------------------------------------------------------------------------
/// The segments that lead to the row of a head.
spec fn way_to(ps: Seq<Seq<Seq<char>>>, h: Seq<char>, base: Seq<Seq<char>>) -> Seq<Seq<char>> {
    base + seq![h] + chain(tags::below(ps, h))
}

/// The segments that lead to each row, in the order of the rows.
spec fn ways_of(
    names: Seq<Seq<char>>,
    ps: Seq<Seq<Seq<char>>>,
    n: nat,
    depth: int,
    base: Seq<Seq<char>>,
    state: Map<Seq<char>, bool>,
    force: bool,
) -> Seq<Seq<Seq<char>>>
    decreases tags::weight(ps), n,
{
    if n == 0 || n > tags::heads(ps).len() {
        seq![]
    } else {
        let h = tags::heads(ps)[n - 1];
        let rest = tags::folded(h, tags::below(ps, h)).1;
        let row = tags::head_row(names, ps, h, depth, tags::joined(base), state, force);
        let here = way_to(ps, h, base);
        let above = ways_of(names, ps, (n - 1) as nat, depth, base, state, force).push(here);
        proof {
            tags::lemma_head_at(ps, n - 1);
            tags::lemma_folded(h, tags::below(ps, h));
        }
        if row.expanded {
            above + ways_of(names, rest, tags::heads(rest).len(), depth + 1, here, state, force)
        } else {
            above
        }
    }
}

/// These segments lead to the row, from `base` on through one of the first `n`
/// heads.
spec fn leads(
    names: Seq<Seq<char>>,
    ps: Seq<Seq<Seq<char>>>,
    n: nat,
    base: Seq<Seq<char>>,
    r: RowView,
    q: Seq<Seq<char>>,
) -> bool {
    let on = q.skip(base.len() as int);
    &&& tags::proper(q)
    &&& tags::starts(q, base)
    &&& on.len() > 0
    &&& exists|m: int| 0 <= m < n && #[trigger] tags::heads(ps)[m] == on[0]
    &&& r.path == tags::spelled(names, tags::joined(q), r.leaf)
    &&& r.leaves == starting_with(ps, on)
    &&& r.leaves > 0
    &&& r.leaf ==> ps.contains(on)
}

/// The row of a head.
proof fn lemma_head_leads(
    names: Seq<Seq<char>>,
    ps: Seq<Seq<Seq<char>>>,
    n: nat,
    depth: int,
    base: Seq<Seq<char>>,
    state: Map<Seq<char>, bool>,
    force: bool,
)
    requires
        tags::all_proper(ps),
        tags::proper(base),
        0 < n <= tags::heads(ps).len(),
    ensures
        ({
            let h = tags::heads(ps)[n - 1];
            let here = way_to(ps, h, base);
            let row = tags::head_row(names, ps, h, depth, tags::joined(base), state, force);
            &&& leads(names, ps, n, base, row, here)
            &&& tags::joined(here) == tags::route(ps, h, tags::joined(base))
            &&& tags::proper(here)
            &&& tags::all_proper(tags::folded(h, tags::below(ps, h)).1)
        }),
{
    let h = tags::heads(ps)[n - 1];
    let b = tags::below(ps, h);
    let f = tags::folded(h, b);
    let c = chain(b);
    let here = way_to(ps, h, base);
    let on = seq![h] + c;
    tags::lemma_head_proper(ps, n - 1);
    lemma_chain_proper(b);
    assert(here =~= base + on);
    assert(here.skip(base.len() as int) =~= on);
    assert(here.take(base.len() as int) =~= base);
    assert forall|i: int| 0 <= i < here.len() implies tags::is_segment(#[trigger] here[i]) by {
        if i < base.len() {
            assert(here[i] == base[i]);
        } else if i > base.len() {
            assert(here[i] == c[i - base.len() - 1]);
        }
    }
    // the route
    lemma_folded_chain(h, b);
    tags::lemma_walk_from(tags::joined(base), h, c);
    tags::lemma_walk_on(seq![], base, on);
    assert(on.drop_first() =~= c);
    // the count
    lemma_starting_below(ps, h, c);
    assert(tags::heads(ps)[n - 1] == on[0]);
    // the leaf
    if tags::heads(f.1).len() == 0 {
        let k = lemma_chain_forth(h, b, 0);
        if f.1[k].len() > 0 {
            let x = lemma_path_head(f.1, k);
        }
        let j = lemma_chain_back(h, b, k);
        assert(b[j] =~= c);
        let i = lemma_below_back(ps, h, j);
        assert(ps[i] =~= on);
    }
}

/// A row further down.
proof fn lemma_deeper_leads(
    names: Seq<Seq<char>>,
    ps: Seq<Seq<Seq<char>>>,
    n: nat,
    base: Seq<Seq<char>>,
    r: RowView,
    q: Seq<Seq<char>>,
)
    requires
        0 < n <= tags::heads(ps).len(),
        ({
            let h = tags::heads(ps)[n - 1];
            let rest = tags::folded(h, tags::below(ps, h)).1;
            leads(names, rest, tags::heads(rest).len(), way_to(ps, h, base), r, q)
        }),
    ensures
        leads(names, ps, n, base, r, q),
        q.len() > way_to(ps, tags::heads(ps)[n - 1], base).len(),
        q[base.len() as int] == tags::heads(ps)[n - 1],
{
    let h = tags::heads(ps)[n - 1];
    let b = tags::below(ps, h);
    let f = tags::folded(h, b);
    let c = chain(b);
    let here = way_to(ps, h, base);
    let far = q.skip(here.len() as int);
    let on = q.skip(base.len() as int);
    assert(q =~= q.take(here.len() as int) + far);
    assert(q =~= here + far);
    assert(on =~= seq![h] + (c + far));
    assert(q.take(base.len() as int) =~= base);
    lemma_folded_count(h, b, far);
    lemma_starting_below(ps, h, c + far);
    assert(tags::heads(ps)[n - 1] == on[0]);
    if r.leaf {
        let k = choose|k: int| 0 <= k < f.1.len() && f.1[k] == far;
        let j = lemma_chain_back(h, b, k);
        let i = lemma_below_back(ps, h, j);
        assert(ps[i] =~= on);
    }
}

/// Every row is led to by its own segments, and no two rows by the same.
proof fn lemma_ways(
    names: Seq<Seq<char>>,
    ps: Seq<Seq<Seq<char>>>,
    n: nat,
    depth: int,
    base: Seq<Seq<char>>,
    state: Map<Seq<char>, bool>,
    force: bool,
)
    requires
        tags::all_proper(ps),
        tags::proper(base),
        n <= tags::heads(ps).len(),
    ensures
        ({
            let rows = tags::rows_of(names, ps, n, depth, tags::joined(base), state, force);
            let ways = ways_of(names, ps, n, depth, base, state, force);
            &&& ways.len() == rows.len()
            &&& forall|i: int|
                0 <= i < ways.len() ==> leads(names, ps, n, base, rows[i], #[trigger] ways[i])
            &&& ways.no_duplicates()
        }),
    decreases tags::weight(ps), n,
{
    if n > 0 {
        let k = (n - 1) as nat;
        let h = tags::heads(ps)[n - 1];
        let rest = tags::folded(h, tags::below(ps, h)).1;
        let prefix = tags::joined(base);
        let row = tags::head_row(names, ps, h, depth, prefix, state, force);
        let here = way_to(ps, h, base);
        let rows = tags::rows_of(names, ps, n, depth, prefix, state, force);
        let ways = ways_of(names, ps, n, depth, base, state, force);
        let rows0 = tags::rows_of(names, ps, k, depth, prefix, state, force);
        let ways0 = ways_of(names, ps, k, depth, base, state, force);
        tags::lemma_head_at(ps, n - 1);
        tags::lemma_folded(h, tags::below(ps, h));
        lemma_ways(names, ps, k, depth, base, state, force);
        lemma_head_leads(names, ps, n, depth, base, state, force);
        let deep = tags::heads(rest).len();
        let rows1 = tags::rows_of(names, rest, deep, depth + 1, tags::joined(here), state, force);
        let ways1 = ways_of(names, rest, deep, depth + 1, here, state, force);
        lemma_ways(names, rest, deep, depth + 1, here, state, force);
        let m = ways0.len() as int;
        assert forall|i: int| 0 <= i < ways.len() implies leads(
            names,
            ps,
            n,
            base,
            rows[i],
            #[trigger] ways[i],
        ) && (i < m ==> ways[i] == ways0[i] && leads(names, ps, k, base, rows[i], ways[i])) && (i
            == m ==> ways[i] == here) && (i > m ==> ways[i] == ways1[i - m - 1] && ways[i].len()
            > here.len() && ways[i][base.len() as int] == h) by {
            if i < m {
                assert(leads(names, ps, k, base, rows0[i], ways0[i]));
                assert(rows[i] == rows0[i]);
            } else if i > m {
                assert(leads(names, rest, deep, here, rows1[i - m - 1], ways1[i - m - 1]));
                lemma_deeper_leads(names, ps, n, base, rows1[i - m - 1], ways1[i - m - 1]);
            }
        }
        assert forall|i: int, j: int| 0 <= i < j < ways.len() implies ways[i] != ways[j] by {
            if j < m {
                assert(ways0[i] != ways0[j]);
            } else if i < m {
                assert(leads(names, ps, k, base, rows[i], ways[i]));
                let on = ways[i].skip(base.len() as int);
                let x = choose|x: int| 0 <= x < k && #[trigger] tags::heads(ps)[x] == on[0];
                assert(ways[i][base.len() as int] == tags::heads(ps)[x]);
                tags::lemma_heads(ps);
                crate::names::lemma_ascending_distinct(tags::heads(ps));
                assert(here[base.len() as int] == h);
            } else if i > m {
                assert(ways1[i - m - 1] != ways1[j - m - 1]);
            }
        }
    }
}

/// Every path leads to a row, where all groups are open.
proof fn lemma_all_shown(
    names: Seq<Seq<char>>,
    ps: Seq<Seq<Seq<char>>>,
    i: int,
    n: nat,
    depth: int,
    base: Seq<Seq<char>>,
    state: Map<Seq<char>, bool>,
)
    requires
        0 <= i < ps.len(),
        ps[i].len() > 0,
        n <= tags::heads(ps).len(),
        exists|m: int| 0 <= m < n && #[trigger] tags::heads(ps)[m] == ps[i][0],
    ensures
        ways_of(names, ps, n, depth, base, state, true).contains(base + ps[i]),
    decreases tags::weight(ps), n,
{
    let p = ps[i];
    let k = (n - 1) as nat;
    let h = tags::heads(ps)[n - 1];
    let b = tags::below(ps, h);
    let f = tags::folded(h, b);
    let here = way_to(ps, h, base);
    let all = ways_of(names, ps, n, depth, base, state, true);
    let less = ways_of(names, ps, k, depth, base, state, true);
    tags::lemma_head_at(ps, n - 1);
    tags::lemma_folded(h, b);
    let m = choose|m: int| 0 <= m < n && #[trigger] tags::heads(ps)[m] == p[0];
    if m < k {
        lemma_all_shown(names, ps, i, k, depth, base, state);
        let x = choose|x: int| 0 <= x < less.len() && less[x] == base + p;
        assert(all[x] == base + p);
    } else {
        lemma_below_forth(ps, h, i);
        let j = choose|j: int| 0 <= j < b.len() && b[j] == p.drop_first();
        let y = lemma_chain_forth(h, b, j);
        let q = f.1[y];
        assert(p =~= seq![h] + p.drop_first());
        assert(base + p =~= here + q);
        if q.len() == 0 {
            assert(here + q =~= here);
            assert(all[less.len() as int] == here);
        } else {
            let x = lemma_path_head(f.1, y);
            assert(tags::heads(f.1)[x] == q[0]);
            let deep = ways_of(
                names,
                f.1,
                tags::heads(f.1).len(),
                depth + 1,
                here,
                state,
                true,
            );
            lemma_all_shown(names, f.1, y, tags::heads(f.1).len(), depth + 1, here, state);
            let z = choose|z: int| 0 <= z < deep.len() && deep[z] == here + q;
            assert(all[less.len() + 1 + z] == here + q);
        }
    }
}

// ---------------------------------------------------------------------------
// Tags and routes
// ---------------------------------------------------------------------------
/// The paths of the tags are made of segments, and they are the segments of
/// the tags.
proof fn lemma_paths(names: Seq<Seq<char>>)
    ensures
        tags::all_proper(tags::paths(names)),
        forall|p: Seq<Seq<char>>| #[trigger]
            tags::paths(names).contains(p) <==> p.len() > 0 && exists|i: int|
                0 <= i < names.len() && tags::segments(#[trigger] names[i]) == p,
    decreases names.len(),
{
    if names.len() > 0 {
        let fewer = names.drop_last();
        let rest = tags::paths(fewer);
        let all = tags::paths(names);
        let last = tags::segments(names.last());
        lemma_paths(fewer);
        tags::lemma_segments_proper(names.last());
        assert(names[names.len() - 1] == names.last());
        if last.len() > 0 {
            assert(all[all.len() - 1] == last);
        }
        assert forall|p: Seq<Seq<char>>| #[trigger]
            all.contains(p) <==> p.len() > 0 && exists|i: int|
                0 <= i < names.len() && tags::segments(#[trigger] names[i]) == p by {
            if rest.contains(p) {
                let k = choose|k: int| 0 <= k < rest.len() && rest[k] == p;
                assert(all[k] == p);
                let i = choose|i: int|
                    0 <= i < fewer.len() && tags::segments(#[trigger] fewer[i]) == p;
                assert(names[i] == fewer[i]);
            }
            if all.contains(p) {
                let k = choose|k: int| 0 <= k < all.len() && all[k] == p;
                if k < rest.len() {
                    assert(rest[k] == p);
                }
            }
            if p.len() > 0 && exists|i: int|
                0 <= i < names.len() && tags::segments(#[trigger] names[i]) == p {
                let i = choose|i: int|
                    0 <= i < names.len() && tags::segments(#[trigger] names[i]) == p;
                if i < fewer.len() {
                    assert(fewer[i] == names[i]);
                    assert(rest.contains(p));
                }
            }
        }
    }
}

/// The first of the tags with some segments is one of them, and has them.
proof fn lemma_first_named(names: Seq<Seq<char>>, q: Seq<Seq<char>>) -> (i: int)
    requires
        exists|i: int| 0 <= i < names.len() && tags::segments(#[trigger] names[i]) == q,
    ensures
        0 <= i < names.len(),
        tags::first_named(names, q) == Some(names[i]),
        tags::segments(names[i]) == q,
    decreases names.len(),
{
    let fewer = names.drop_last();
    let k = choose|i: int| 0 <= i < names.len() && tags::segments(#[trigger] names[i]) == q;
    if exists|i: int| 0 <= i < fewer.len() && tags::segments(#[trigger] fewer[i]) == q {
        let i = lemma_first_named(fewer, q);
        assert(fewer[i] == names[i]);
        i
    } else {
        if k < fewer.len() {
            assert(fewer[k] == names[k]);
        }
        lemma_none_named(fewer, q);
        k
    }
}

proof fn lemma_none_named(names: Seq<Seq<char>>, q: Seq<Seq<char>>)
    requires
        forall|i: int| 0 <= i < names.len() ==> tags::segments(#[trigger] names[i]) != q,
    ensures
        tags::first_named(names, q) is None,
    decreases names.len(),
{
    if names.len() > 0 {
        let fewer = names.drop_last();
        assert forall|i: int| 0 <= i < fewer.len() implies tags::segments(
            #[trigger] fewer[i],
        ) != q by {
            assert(fewer[i] == names[i]);
        }
        lemma_none_named(fewer, q);
        assert(names[names.len() - 1] == names.last());
    }
}

/// What a row's path says: its segments are those that lead to it, and a tag
/// stands there or below.
proof fn lemma_row_path(
    names: Seq<Seq<char>>,
    n: nat,
    r: RowView,
    q: Seq<Seq<char>>,
) -> (i: int)
    requires
        leads(names, tags::paths(names), n, seq![], r, q),
    ensures
        0 <= i < names.len(),
        tags::segments(r.path) == q,
        q.len() > 0,
        tags::leads_to(r, names[i]),
        r.leaf ==> tags::named(names, tags::joined(q)) == Some(r.path),
        !r.leaf ==> r.path == tags::joined(q),
{
    let ps = tags::paths(names);
    lemma_paths(names);
    tags::lemma_segments_joined(q);
    assert(q.skip(0) =~= q);
    if r.leaf {
        assert(ps.contains(q));
        let i = lemma_first_named(names, q);
        let x = tags::joined(q);
        if names.contains(x) {
            choose|k: int| 0 <= k < names.len() && names[k] == x
        } else {
            i
        }
    } else {
        let j = lemma_starting_one(ps, q);
        assert(ps.contains(ps[j]));
        let k = choose|k: int|
            0 <= k < names.len() && tags::segments(#[trigger] names[k]) == ps[j];
        assert(tags::starts(tags::segments(names[k]), q));
        k
    }
}

/// A row in the list, and the segments that lead to it.
proof fn lemma_row_at(
    names: Seq<Seq<char>>,
    state: Map<Seq<char>, bool>,
    force: bool,
    i: int,
) -> (q: Seq<Seq<char>>)
    requires
        0 <= i < tags::tag_rows(names, state, force).len(),
    ensures
        ({
            let ps = tags::paths(names);
            let n = tags::heads(ps).len();
            &&& leads(names, ps, n, seq![], tags::tag_rows(names, state, force)[i], q)
            &&& q == ways_of(names, ps, n, 0, seq![], state, force)[i]
        }),
{
    let ps = tags::paths(names);
    let n = tags::heads(ps).len();
    lemma_paths(names);
    assert(tags::joined(seq![]) == Seq::<char>::empty());
    lemma_ways(names, ps, n, 0, seq![], state, force);
    ways_of(names, ps, n, 0, seq![], state, force)[i]
}

/// The row at `j` is the group that the row at `i` stands in: no row between
/// them is on its level.
pub open spec fn stands_in(rows: Seq<RowView>, i: int, j: int) -> bool {
    &&& 0 <= j < i < rows.len()
    &&& rows[j].depth + 1 == rows[i].depth
    &&& !rows[j].leaf
    &&& rows[j].expanded
    &&& forall|k: int| j < k < i ==> (#[trigger] rows[k]).depth > rows[j].depth
}

/// Each row's path is that of the group it stands in and its label, the first
/// ones starting from `prefix`.
proof fn lemma_paths_follow(
    names: Seq<Seq<char>>,
    ps: Seq<Seq<Seq<char>>>,
    n: nat,
    depth: int,
    prefix: Seq<char>,
    state: Map<Seq<char>, bool>,
    force: bool,
)
    ensures
        ({
            let rows = tags::rows_of(names, ps, n, depth, prefix, state, force);
            forall|i: int| 0 <= i < rows.len() ==> #[trigger] follows(names, rows, i, depth, prefix)
        }),
    decreases tags::weight(ps), n,
{
    let rows = tags::rows_of(names, ps, n, depth, prefix, state, force);
    if 0 < n <= tags::heads(ps).len() {
        let h = tags::heads(ps)[n - 1];
        let rest = tags::folded(h, tags::below(ps, h)).1;
        let row = tags::head_row(names, ps, h, depth, prefix, state, force);
        let less = tags::rows_of(names, ps, (n - 1) as nat, depth, prefix, state, force);
        let here = tags::route(ps, h, prefix);
        let m = tags::heads(rest).len();
        let deep = tags::rows_of(names, rest, m, depth + 1, here, state, force);
        tags::lemma_head_at(ps, n - 1);
        tags::lemma_folded(h, tags::below(ps, h));
        lemma_paths_follow(names, ps, (n - 1) as nat, depth, prefix, state, force);
        lemma_paths_follow(names, rest, m, depth + 1, here, state, force);
        let at = less.len() as int;
        assert(rows[at] == row);
        assert forall|i: int| 0 <= i < rows.len() implies #[trigger] follows(
            names,
            rows,
            i,
            depth,
            prefix,
        ) by {
            if i < at {
                assert(follows(names, less, i, depth, prefix));
                assert(rows[i] == less[i]);
                if less[i].depth > depth {
                    let j = choose|j: int| #[trigger] stands_in(less, i, j) && less[i].path
                        == tags::spelled(
                        names,
                        tags::step(less[j].path, less[i].label),
                        less[i].leaf,
                    );
                    assert(rows[j] == less[j]);
                    assert forall|k: int| j < k < i implies (#[trigger] rows[k]).depth
                        > rows[j].depth by {
                        assert(rows[k] == less[k]);
                    }
                    assert(stands_in(rows, i, j));
                }
            } else if i > at {
                let x = i - at - 1;
                assert(follows(names, deep, x, depth + 1, here));
                assert(rows[i] == deep[x]);
                assert forall|k: int| at < k < i implies (#[trigger] rows[k]).depth > depth by {
                    assert(follows(names, deep, k - at - 1, depth + 1, here));
                    assert(rows[k] == deep[k - at - 1]);
                }
                if deep[x].depth > depth + 1 {
                    let y = choose|y: int| #[trigger] stands_in(deep, x, y) && deep[x].path
                        == tags::spelled(
                        names,
                        tags::step(deep[y].path, deep[x].label),
                        deep[x].leaf,
                    );
                    let j = at + 1 + y;
                    assert(rows[j] == deep[y]);
                    assert forall|k: int| j < k < i implies (#[trigger] rows[k]).depth
                        > rows[j].depth by {
                        assert(rows[k] == deep[k - at - 1]);
                    }
                    assert(stands_in(rows, i, j));
                } else {
                    assert(stands_in(rows, i, at));
                }
            }
        }
    }
}

spec fn follows(
    names: Seq<Seq<char>>,
    rows: Seq<RowView>,
    i: int,
    depth: int,
    prefix: Seq<char>,
) -> bool {
    let r = rows[i];
    &&& r.depth >= depth
    &&& r.depth == depth ==> r.path == tags::spelled(names, tags::step(prefix, r.label), r.leaf)
    &&& r.depth > depth ==> exists|j: int| #[trigger] stands_in(rows, i, j) && r.path
        == tags::spelled(names, tags::step(rows[j].path, r.label), r.leaf)
}

/// Each row among these is open as its state says and is followed by a deeper
/// one if and only if it is open; those of the first level start with a head
/// each.
proof fn lemma_rows_open(
    names: Seq<Seq<char>>,
    ps: Seq<Seq<Seq<char>>>,
    n: nat,
    depth: int,
    prefix: Seq<char>,
    state: Map<Seq<char>, bool>,
    force: bool,
)
    requires
        tags::all_proper(ps),
        n <= tags::heads(ps).len(),
    ensures
        ({
            let rows = tags::rows_of(names, ps, n, depth, prefix, state, force);
            &&& n > 0 ==> rows.len() > 0 && rows[0].depth == depth
            &&& forall|i: int|
                0 <= i < rows.len() ==> (#[trigger] rows[i]).depth >= depth && opens(
                    rows,
                    i,
                    state,
                    force,
                )
            &&& forall|i: int|
                0 <= i < rows.len() && (#[trigger] rows[i]).depth == depth ==> begins(
                    ps,
                    n,
                    rows[i].label,
                )
        }),
    decreases tags::weight(ps), n,
{
    if n > 0 {
        let k = (n - 1) as nat;
        let h = tags::heads(ps)[n - 1];
        let b = tags::below(ps, h);
        let rest = tags::folded(h, b).1;
        let row = tags::head_row(names, ps, h, depth, prefix, state, force);
        let rows = tags::rows_of(names, ps, n, depth, prefix, state, force);
        let less = tags::rows_of(names, ps, k, depth, prefix, state, force);
        let m = tags::heads(rest).len();
        let here = tags::route(ps, h, prefix);
        let deep = tags::rows_of(names, rest, m, depth + 1, here, state, force);
        tags::lemma_head_at(ps, n - 1);
        tags::lemma_head_proper(ps, n - 1);
        tags::lemma_folded(h, b);
        lemma_chain_proper(b);
        lemma_folded_chain(h, b);
        tags::lemma_segments_walked(h, chain(b));
        tags::lemma_one_segment(h);
        lemma_rows_open(names, ps, k, depth, prefix, state, force);
        lemma_rows_open(names, rest, m, depth + 1, here, state, force);
        let at = less.len() as int;
        assert(rows[at] == row);
        assert(tags::segments(row.label)[0] == h);
        assert forall|i: int| 0 <= i < rows.len() implies (#[trigger] rows[i]).depth >= depth
            && opens(rows, i, state, force) && (rows[i].depth == depth ==> begins(
            ps,
            n,
            rows[i].label,
        )) by {
            if i < at {
                assert(rows[i] == less[i]);
                assert(opens(less, i, state, force));
                if i + 1 < at {
                    assert(rows[i + 1] == less[i + 1]);
                }
                if rows[i].depth == depth {
                    let x = choose|x: int|
                        0 <= x < k && #[trigger] tags::heads(ps)[x] == tags::segments(
                            rows[i].label,
                        )[0];
                    assert(0 <= x < n && tags::heads(ps)[x] == tags::segments(rows[i].label)[0]);
                }
            } else if i == at {
                assert(tags::heads(ps)[n - 1] == tags::segments(row.label)[0]);
                if row.expanded {
                    assert(rows[at + 1] == deep[0]);
                }
            } else {
                assert(rows[i] == deep[i - at - 1]);
                assert(opens(deep, i - at - 1, state, force));
                if i + 1 < rows.len() {
                    assert(rows[i + 1] == deep[i - at]);
                }
            }
        }
    }
}

/// The row is open as its state says, and a deeper one follows if and only if
/// it is.
spec fn opens(rows: Seq<RowView>, i: int, state: Map<Seq<char>, bool>, force: bool) -> bool {
    let r = rows[i];
    &&& r.expanded == (!r.leaf && (force || tags::open_at(state, r.path, r.depth)))
    &&& r.expanded <==> i + 1 < rows.len() && rows[i + 1].depth == r.depth + 1
}

/// The label starts with one of the first `n` heads.
spec fn begins(ps: Seq<Seq<Seq<char>>>, n: nat, label: Seq<char>) -> bool {
    &&& tags::segments(label).len() > 0
    &&& exists|x: int|
        0 <= x < n && #[trigger] tags::heads(ps)[x] == tags::segments(label)[0]
}

/// Rows that stand in one group come in the order of their first segments.
proof fn lemma_siblings(
    names: Seq<Seq<char>>,
    ps: Seq<Seq<Seq<char>>>,
    n: nat,
    depth: int,
    prefix: Seq<char>,
    state: Map<Seq<char>, bool>,
    force: bool,
    i: int,
    j: int,
)
    requires
        tags::all_proper(ps),
        n <= tags::heads(ps).len(),
        siblings(tags::rows_of(names, ps, n, depth, prefix, state, force), i, j),
    ensures
        ({
            let rows = tags::rows_of(names, ps, n, depth, prefix, state, force);
            let a = tags::segments(rows[i].label);
            let b = tags::segments(rows[j].label);
            a.len() > 0 && b.len() > 0 && text::text_lt(a[0], b[0])
        }),
    decreases tags::weight(ps), n,
{
    let rows = tags::rows_of(names, ps, n, depth, prefix, state, force);
    let k = (n - 1) as nat;
    let h = tags::heads(ps)[n - 1];
    let b = tags::below(ps, h);
    let rest = tags::folded(h, b).1;
    let row = tags::head_row(names, ps, h, depth, prefix, state, force);
    let less = tags::rows_of(names, ps, k, depth, prefix, state, force);
    let m = tags::heads(rest).len();
    let here = tags::route(ps, h, prefix);
    let deep = tags::rows_of(names, rest, m, depth + 1, here, state, force);
    tags::lemma_head_at(ps, n - 1);
    tags::lemma_head_proper(ps, n - 1);
    tags::lemma_folded(h, b);
    lemma_chain_proper(b);
    lemma_rows_open(names, ps, k, depth, prefix, state, force);
    lemma_rows_open(names, rest, m, depth + 1, here, state, force);
    let at = less.len() as int;
    assert(rows[at] == row);
    if j < at {
        assert forall|x: int| i < x < j implies (#[trigger] less[x]).depth >= less[i].depth by {
            assert(rows[x] == less[x]);
        }
        assert(siblings(less, i, j));
        lemma_siblings(names, ps, k, depth, prefix, state, force, i, j);
    } else if i > at {
        let p = i - at - 1;
        let q = j - at - 1;
        assert(rows[i] == deep[p] && rows[j] == deep[q]);
        assert forall|x: int| p < x < q implies (#[trigger] deep[x]).depth >= deep[p].depth by {
            assert(rows[x + at + 1] == deep[x]);
        }
        assert(siblings(deep, p, q));
        lemma_siblings(names, rest, m, depth + 1, here, state, force, p, q);
    } else if j == at {
        assert(rows[i] == less[i]);
        lemma_folded_chain(h, b);
        tags::lemma_segments_walked(h, chain(b));
        tags::lemma_one_segment(h);
        assert(tags::segments(row.label)[0] == h);
        assert(begins(ps, k, rows[i].label));
        let x = choose|x: int|
            0 <= x < k && #[trigger] tags::heads(ps)[x] == tags::segments(rows[i].label)[0];
        tags::lemma_heads(ps);
        assert(text::text_lt(tags::heads(ps)[x], tags::heads(ps)[n - 1]));
    } else {
        assert(rows[j] == deep[j - at - 1]);
        if i < at {
            assert(rows[i] == less[i]);
            assert(rows[at].depth >= rows[i].depth);
        }
    }
}

// ---------------------------------------------------------------------------
// Laws
// ---------------------------------------------------------------------------
/// Every row plots something, whether it is open or closed: some tag stands
/// at or under it, and the path of a leaf is a tag.
pub proof fn law_every_row_leads_to_a_tag(
    names: Seq<Seq<char>>,
    state: Map<Seq<char>, bool>,
    force: bool,
    r: RowView,
)
    requires
        tags::tag_rows(names, state, force).contains(r),
    ensures
        exists|i: int| 0 <= i < names.len() && tags::leads_to(r, #[trigger] names[i]),
        r.leaf ==> exists|i: int| 0 <= i < names.len() && r.path == #[trigger] names[i],
{
    let rows = tags::tag_rows(names, state, force);
    let x = choose|x: int| 0 <= x < rows.len() && rows[x] == r;
    let q = lemma_row_at(names, state, force, x);
    let i = lemma_row_path(names, tags::heads(tags::paths(names)).len(), r, q);
    assert(tags::leads_to(r, names[i]));
}

/// No two rows have one path.
pub proof fn law_row_paths_are_distinct(
    names: Seq<Seq<char>>,
    state: Map<Seq<char>, bool>,
    force: bool,
    i: int,
    j: int,
)
    requires
        0 <= i < j < tags::tag_rows(names, state, force).len(),
    ensures
        tags::tag_rows(names, state, force)[i].path != tags::tag_rows(names, state, force)[j].path,
{
    let ps = tags::paths(names);
    let n = tags::heads(ps).len();
    let rows = tags::tag_rows(names, state, force);
    let p = lemma_row_at(names, state, force, i);
    let q = lemma_row_at(names, state, force, j);
    let a = lemma_row_path(names, n, rows[i], p);
    let b = lemma_row_path(names, n, rows[j], q);
    lemma_paths(names);
    lemma_ways(names, ps, n, 0, seq![], state, force);
    assert(p != q);
}

/// The path of a row at the top is its label, and that of a deeper one the
/// path of the group it stands in, a slash and its label. Only a leaf can
/// differ, where no tag is spelled so: its path is the first tag with the same
/// segments.
pub proof fn law_paths_are_made_of_labels(
    names: Seq<Seq<char>>,
    state: Map<Seq<char>, bool>,
    force: bool,
    i: int,
) -> (j: int)
    requires
        0 <= i < tags::tag_rows(names, state, force).len(),
    ensures
        ({
            let rows = tags::tag_rows(names, state, force);
            let r = rows[i];
            let way = if r.depth == 0 {
                r.label
            } else {
                rows[j].path + "/"@ + r.label
            };
            &&& r.depth >= 0
            &&& r.depth > 0 ==> stands_in(rows, i, j)
            &&& !r.leaf || names.contains(way) ==> r.path == way
            &&& r.leaf && !names.contains(way) ==> tags::first_named(names, tags::segments(way))
                == Some(r.path)
        }),
{
    let ps = tags::paths(names);
    let n = tags::heads(ps).len();
    let rows = tags::tag_rows(names, state, force);
    let r = rows[i];
    lemma_paths_follow(names, ps, n, 0, seq![], state, force);
    assert(follows(names, rows, i, 0, seq![]));
    let j = choose|j: int| #[trigger] stands_in(rows, i, j) && r.path == tags::spelled(
        names,
        tags::step(rows[j].path, r.label),
        r.leaf,
    );
    let q = lemma_row_at(names, state, force, i);
    let y = lemma_row_path(names, n, r, q);
    if r.depth > 0 {
        let p = lemma_row_at(names, state, force, j);
        let z = lemma_row_path(names, n, rows[j], p);
        assert(rows[j].path.len() > 0);
    }
    j
}

/// Both rows stand in one group, or both at the top, the first one above the
/// other.
pub open spec fn siblings(rows: Seq<RowView>, i: int, j: int) -> bool {
    &&& 0 <= i < j < rows.len()
    &&& rows[i].depth == rows[j].depth
    &&& forall|k: int| i < k < j ==> (#[trigger] rows[k]).depth >= rows[i].depth
}

/// A row is open if and only if it is a group and all are forced open, or its
/// state says so, or it has none and stands at the top. A row one level deeper
/// follows if and only if it is open.
pub proof fn law_open_groups_show_their_rows(
    names: Seq<Seq<char>>,
    state: Map<Seq<char>, bool>,
    force: bool,
    i: int,
)
    requires
        0 <= i < tags::tag_rows(names, state, force).len(),
    ensures
        ({
            let rows = tags::tag_rows(names, state, force);
            let r = rows[i];
            &&& r.expanded == (!r.leaf && (force || tags::open_at(state, r.path, r.depth)))
            &&& r.expanded <==> i + 1 < rows.len() && rows[i + 1].depth == r.depth + 1
        }),
{
    let ps = tags::paths(names);
    lemma_paths(names);
    lemma_rows_open(names, ps, tags::heads(ps).len(), 0, seq![], state, force);
    assert(opens(tags::tag_rows(names, state, force), i, state, force));
}

/// Rows that stand in one group, and those at the top, come in ascending order
/// of their first segments, which all differ.
pub proof fn law_siblings_ascend(
    names: Seq<Seq<char>>,
    state: Map<Seq<char>, bool>,
    force: bool,
    i: int,
    j: int,
)
    requires
        siblings(tags::tag_rows(names, state, force), i, j),
    ensures
        ({
            let rows = tags::tag_rows(names, state, force);
            let a = tags::segments(rows[i].label);
            let b = tags::segments(rows[j].label);
            a.len() > 0 && b.len() > 0 && text::text_lt(a[0], b[0])
        }),
{
    let ps = tags::paths(names);
    lemma_paths(names);
    lemma_siblings(names, ps, tags::heads(ps).len(), 0, seq![], state, force, i, j);
}

/// Where everything is forced open, no tag is hidden: for each there is a row
/// with its segments. If the tag has single slashes its path is the tag, and
/// if not, and the row is a leaf, the path is a tag with the same segments: one
/// with single slashes, or else the first.
pub proof fn law_forced_open_hides_nothing(
    names: Seq<Seq<char>>,
    state: Map<Seq<char>, bool>,
    i: int,
) -> (j: int)
    requires
        0 <= i < names.len(),
        tags::segments(names[i]).len() > 0,
    ensures
        0 <= j < tags::tag_rows(names, state, true).len(),
        ({
            let r = tags::tag_rows(names, state, true)[j];
            &&& tags::segments(r.path) == tags::segments(names[i])
            &&& tags::plain(names[i]) ==> r.path == names[i]
            &&& r.leaf ==> tags::named(names, tags::joined(tags::segments(names[i]))) == Some(r.path)
        }),
{
    let ps = tags::paths(names);
    let n = tags::heads(ps).len();
    let p = tags::segments(names[i]);
    let rows = tags::tag_rows(names, state, true);
    let ways = ways_of(names, ps, n, 0, seq![], state, true);
    lemma_paths(names);
    assert(ps.contains(p));
    let k = choose|k: int| 0 <= k < ps.len() && ps[k] == p;
    let x = lemma_path_head(ps, k);
    assert(tags::heads(ps)[x] == p[0]);
    lemma_all_shown(names, ps, k, n, 0, seq![], state);
    assert(Seq::<Seq<char>>::empty() + p =~= p);
    let j = choose|j: int| 0 <= j < ways.len() && ways[j] == p;
    assert(tags::joined(seq![]) == Seq::<char>::empty());
    lemma_ways(names, ps, n, 0, seq![], state, true);
    let q = lemma_row_at(names, state, true, j);
    let y = lemma_row_path(names, n, rows[j], q);
    j
}

/// Where everything is forced open, each tag that has single slashes between
/// its segments and none around them is the path of exactly one row.
pub proof fn law_forced_open_shows_each_tag_once(
    names: Seq<Seq<char>>,
    state: Map<Seq<char>, bool>,
    i: int,
) -> (j: int)
    requires
        0 <= i < names.len(),
        plainly_spelled(names[i]),
    ensures
        0 <= j < tags::tag_rows(names, state, true).len(),
        tags::tag_rows(names, state, true)[j].path == names[i],
        forall|k: int|
            0 <= k < tags::tag_rows(names, state, true).len() && (#[trigger] tags::tag_rows(
                names,
                state,
                true,
            )[k]).path == names[i] ==> k == j,
{
    let rows = tags::tag_rows(names, state, true);
    let j = law_forced_open_hides_nothing(names, state, i);
    assert forall|k: int|
        0 <= k < rows.len() && (#[trigger] rows[k]).path == names[i] implies k == j by {
        if k < j {
            law_row_paths_are_distinct(names, state, true, k, j);
        } else if k > j {
            law_row_paths_are_distinct(names, state, true, j, k);
        }
    }
    j
}

proof fn lemma_state_ignored(
    names: Seq<Seq<char>>,
    ps: Seq<Seq<Seq<char>>>,
    n: nat,
    depth: int,
    prefix: Seq<char>,
    a: Map<Seq<char>, bool>,
    b: Map<Seq<char>, bool>,
)
    ensures
        tags::rows_of(names, ps, n, depth, prefix, a, true) == tags::rows_of(
            names,
            ps,
            n,
            depth,
            prefix,
            b,
            true,
        ),
    decreases tags::weight(ps), n,
{
    if 0 < n <= tags::heads(ps).len() {
        let h = tags::heads(ps)[n - 1];
        let rest = tags::folded(h, tags::below(ps, h)).1;
        tags::lemma_head_at(ps, n - 1);
        tags::lemma_folded(h, tags::below(ps, h));
        lemma_state_ignored(names, ps, (n - 1) as nat, depth, prefix, a, b);
        lemma_state_ignored(
            names,
            rest,
            tags::heads(rest).len(),
            depth + 1,
            tags::route(ps, h, prefix),
            a,
            b,
        );
    }
}

/// Where everything is forced open, it does not matter what was opened or
/// closed before.
pub proof fn law_forced_open_ignores_the_state(
    names: Seq<Seq<char>>,
    a: Map<Seq<char>, bool>,
    b: Map<Seq<char>, bool>,
)
    ensures
        tags::tag_rows(names, a, true) == tags::tag_rows(names, b, true),
{
    let ps = tags::paths(names);
    lemma_state_ignored(names, ps, tags::heads(ps).len(), 0, seq![], a, b);
}

/// A row counts the tags at or below it: those whose segments start with the
/// ones of its path.
pub proof fn law_rows_count_their_tags(
    names: Seq<Seq<char>>,
    state: Map<Seq<char>, bool>,
    force: bool,
    r: RowView,
)
    requires
        tags::tag_rows(names, state, force).contains(r),
    ensures
        r.leaves == starting_with(tags::paths(names), tags::segments(r.path)),
        r.leaves > 0,
{
    let rows = tags::tag_rows(names, state, force);
    let x = choose|x: int| 0 <= x < rows.len() && rows[x] == r;
    let q = lemma_row_at(names, state, force, x);
    let i = lemma_row_path(names, tags::heads(tags::paths(names)).len(), r, q);
    assert(q.skip(0) =~= q);
}

/// A row among those of the first `n` heads is among those of fewer, or the
/// last head's own, or stands below it.
proof fn lemma_row_is(
    names: Seq<Seq<char>>,
    ps: Seq<Seq<Seq<char>>>,
    n: nat,
    depth: int,
    prefix: Seq<char>,
    state: Map<Seq<char>, bool>,
    force: bool,
    r: RowView,
)
    requires
        tags::rows_of(names, ps, n, depth, prefix, state, force).contains(r),
    ensures
        0 < n <= tags::heads(ps).len(),
        ({
            let h = tags::heads(ps)[n - 1];
            let rest = tags::folded(h, tags::below(ps, h)).1;
            let row = tags::head_row(names, ps, h, depth, prefix, state, force);
            ||| tags::rows_of(names, ps, (n - 1) as nat, depth, prefix, state, force).contains(r)
            ||| r == row
            ||| row.expanded && tags::rows_of(
                names,
                rest,
                tags::heads(rest).len(),
                depth + 1,
                tags::route(ps, h, prefix),
                state,
                force,
            ).contains(r)
        }),
{
    let all = tags::rows_of(names, ps, n, depth, prefix, state, force);
    let at = choose|i: int| 0 <= i < all.len() && all[i] == r;
    let h = tags::heads(ps)[n - 1];
    let rest = tags::folded(h, tags::below(ps, h)).1;
    let row = tags::head_row(names, ps, h, depth, prefix, state, force);
    let less = tags::rows_of(names, ps, (n - 1) as nat, depth, prefix, state, force);
    if at < less.len() {
        assert(less[at] == r);
    } else if at > less.len() {
        let deeper = tags::rows_of(
            names,
            rest,
            tags::heads(rest).len(),
            depth + 1,
            tags::route(ps, h, prefix),
            state,
            force,
        );
        assert(deeper[at - less.len() - 1] == r);
    }
}

proof fn lemma_all_open(
    names: Seq<Seq<char>>,
    ps: Seq<Seq<Seq<char>>>,
    n: nat,
    depth: int,
    prefix: Seq<char>,
    state: Map<Seq<char>, bool>,
    r: RowView,
)
    requires
        tags::rows_of(names, ps, n, depth, prefix, state, true).contains(r),
    ensures
        r.expanded == !r.leaf,
    decreases tags::weight(ps), n,
{
    lemma_row_is(names, ps, n, depth, prefix, state, true, r);
    let h = tags::heads(ps)[n - 1];
    let rest = tags::folded(h, tags::below(ps, h)).1;
    let row = tags::head_row(names, ps, h, depth, prefix, state, true);
    tags::lemma_head_at(ps, n - 1);
    tags::lemma_folded(h, tags::below(ps, h));
    if tags::rows_of(names, ps, (n - 1) as nat, depth, prefix, state, true).contains(r) {
        lemma_all_open(names, ps, (n - 1) as nat, depth, prefix, state, r);
    } else if r != row {
        lemma_all_open(names, rest, tags::heads(rest).len(), depth + 1, tags::route(ps, h, prefix), state, r);
    }
}

/// Where everything is forced open, every group is.
pub proof fn law_forced_open_opens_groups(
    names: Seq<Seq<char>>,
    state: Map<Seq<char>, bool>,
    r: RowView,
)
    requires
        tags::tag_rows(names, state, true).contains(r),
    ensures
        r.expanded == !r.leaf,
{
    let ps = tags::paths(names);
    lemma_all_open(names, ps, tags::heads(ps).len(), 0, seq![], state, r);
}

proof fn lemma_top_open(
    names: Seq<Seq<char>>,
    ps: Seq<Seq<Seq<char>>>,
    n: nat,
    depth: int,
    prefix: Seq<char>,
    r: RowView,
)
    requires
        0 <= depth <= 1,
        tags::rows_of(names, ps, n, depth, prefix, Map::empty(), false).contains(r),
    ensures
        depth <= r.depth <= 1,
        r.expanded == (r.depth == 0 && !r.leaf),
    decreases 1 - depth, n,
{
    lemma_row_is(names, ps, n, depth, prefix, Map::empty(), false, r);
    let h = tags::heads(ps)[n - 1];
    let rest = tags::folded(h, tags::below(ps, h)).1;
    let row = tags::head_row(names, ps, h, depth, prefix, Map::empty(), false);
    if tags::rows_of(names, ps, (n - 1) as nat, depth, prefix, Map::empty(), false).contains(r) {
        lemma_top_open(names, ps, (n - 1) as nat, depth, prefix, r);
    } else if r != row {
        lemma_top_open(names, rest, tags::heads(rest).len(), depth + 1, tags::route(ps, h, prefix), r);
    }
}

/// Where nothing has been chosen, groups at the top are open and deeper ones
/// closed: no row stands deeper than the second level.
pub proof fn law_deeper_groups_start_closed(names: Seq<Seq<char>>, r: RowView)
    requires
        tags::tag_rows(names, Map::empty(), false).contains(r),
    ensures
        0 <= r.depth <= 1,
        r.expanded == (r.depth == 0 && !r.leaf),
{
    let ps = tags::paths(names);
    lemma_top_open(names, ps, tags::heads(ps).len(), 0, seq![], r);
}

/// A shortened label keeps both ends of the label and is no wider than asked.
pub proof fn law_elided_keeps_both_ends(label: Seq<char>, width: int)
    requires
        0 <= width,
    ensures
        tags::elided(label, width).len() <= width,
        1 < width < label.len() ==> {
            let e = tags::elided(label, width);
            let head = width / 2;
            let tail = width - 1 - head;
            &&& e.len() == width
            &&& e.take(head) == label.take(head)
            &&& e[head] == '…'
            &&& e.skip(width - tail) == label.skip(label.len() - tail)
        },
        label.len() <= width ==> tags::elided(label, width) == label,
{
    if 1 < width < label.len() {
        let e = tags::elided(label, width);
        let head = width / 2;
        let tail = width - 1 - head;
        assert(e.take(head) =~= label.take(head));
        assert(e.skip(width - tail) =~= label.skip(label.len() - tail));
    }
}

} // verus!
