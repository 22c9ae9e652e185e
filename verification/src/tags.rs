//! Tag names as a collapsible tree.
//!
//! Scalar tags are paths, and a real run has dozens of them that share long
//! prefixes. Split on `/`, a shared prefix becomes one row and each row
//! carries only its own segment.
//!
//! Two rules keep the tree shallow:
//!
//! * A chain of groups with one child each collapses into one row.
//! * Groups at the top start open and deeper ones closed.
//!
//! Tags that differ only in their slashes, such as `a/b` and `a//b`, share a
//! row. The path of a leaf is one of its tags: the one with single slashes, if
//! there is such a tag, else the first. The path of a group always has single
//! slashes.
use vstd::prelude::*;

use crate::names;
use crate::names::NameMap;
use crate::tag_laws;
use crate::text;

verus! {

// ---------------------------------------------------------------------------
// Paths
// ---------------------------------------------------------------------------
/// How many characters stand before the first slash.
pub open spec fn head_len(s: Seq<char>) -> nat
    decreases s.len(),
{
    if s.len() == 0 || s[0] == '/' {
        0
    } else {
        1 + head_len(s.drop_first())
    }
}

/// The segments of a tag: what stands between slashes, empty pieces left out.
pub open spec fn segments(s: Seq<char>) -> Seq<Seq<char>>
    decreases s.len(),
{
    if s.len() == 0 {
        seq![]
    } else if s[0] == '/' {
        segments(s.drop_first())
    } else {
        let n = head_len(s) as int;
        if 0 < n <= s.len() {
            seq![s.take(n)] + segments(s.skip(n))
        } else {
            seq![]
        }
    }
}

/// The paths of the tags that have any segment.
pub open spec fn paths(tags: Seq<Seq<char>>) -> Seq<Seq<Seq<char>>>
    decreases tags.len(),
{
    if tags.len() == 0 {
        seq![]
    } else {
        let rest = paths(tags.drop_last());
        let p = segments(tags.last());
        if p.len() == 0 {
            rest
        } else {
            rest.push(p)
        }
    }
}

/// No segment is empty or holds a slash.
pub open spec fn proper(q: Seq<Seq<char>>) -> bool {
    forall|i: int| 0 <= i < q.len() ==> is_segment(#[trigger] q[i])
}

/// A piece between slashes.
pub open spec fn is_segment(h: Seq<char>) -> bool {
    h.len() > 0 && !h.contains('/')
}

/// The paths are made of segments.
pub open spec fn all_proper(ps: Seq<Seq<Seq<char>>>) -> bool {
    forall|i: int| 0 <= i < ps.len() ==> proper(#[trigger] ps[i])
}

/// One segment further down.
pub open spec fn step(prefix: Seq<char>, segment: Seq<char>) -> Seq<char> {
    if prefix.len() == 0 {
        segment
    } else {
        prefix + "/"@ + segment
    }
}

/// The path that leads from `prefix` through the segments.
pub open spec fn walked(prefix: Seq<char>, p: Seq<Seq<char>>) -> Seq<char>
    decreases p.len(),
{
    if p.len() == 0 {
        prefix
    } else {
        walked(step(prefix, p[0]), p.drop_first())
    }
}

/// The segments with single slashes between them.
pub open spec fn joined(q: Seq<Seq<char>>) -> Seq<char> {
    walked(seq![], q)
}

/// The text has single slashes between its segments and none around them.
pub open spec fn plain(s: Seq<char>) -> bool {
    s == joined(segments(s))
}

/// The path starts with these segments.
pub open spec fn starts(p: Seq<Seq<char>>, q: Seq<Seq<char>>) -> bool {
    q.len() <= p.len() && p.take(q.len() as int) == q
}

/// The first of the tags with these segments.
pub open spec fn first_named(tags: Seq<Seq<char>>, q: Seq<Seq<char>>) -> Option<Seq<char>>
    decreases tags.len(),
{
    if tags.len() == 0 {
        None
    } else {
        match first_named(tags.drop_last(), q) {
            Some(earlier) => Some(earlier),
            None => if segments(tags.last()) == q {
                Some(tags.last())
            } else {
                None
            },
        }
    }
}

/// The tag at the end of a route: the one that is spelled like it, or else the
/// first that has the same segments.
pub open spec fn named(tags: Seq<Seq<char>>, route: Seq<char>) -> Option<Seq<char>> {
    if tags.contains(route) {
        Some(route)
    } else {
        first_named(tags, segments(route))
    }
}

/// The path of the row at the end of a route: the tag itself for a leaf, and
/// the route for a group.
pub open spec fn spelled(tags: Seq<Seq<char>>, route: Seq<char>, leaf: bool) -> Seq<char> {
    match named(tags, route) {
        Some(t) if leaf => t,
        _ => route,
    }
}

proof fn lemma_head_len(s: Seq<char>)
    ensures
        head_len(s) <= s.len(),
        forall|i: int| 0 <= i < head_len(s) ==> s[i] != '/',
        head_len(s) < s.len() ==> s[head_len(s) as int] == '/',
    decreases s.len(),
{
    if s.len() > 0 && s[0] != '/' {
        let t = s.drop_first();
        lemma_head_len(t);
        assert forall|i: int| 0 <= i < head_len(s) implies s[i] != '/' by {
            if i > 0 {
                assert(s[i] == t[i - 1]);
            }
        }
        if head_len(s) < s.len() {
            assert(s[head_len(s) as int] == t[head_len(t) as int]);
        }
    }
}

/// So many characters without a slash, then a slash or the end.
proof fn lemma_head_len_is(s: Seq<char>, n: nat)
    requires
        n <= s.len(),
        forall|i: int| 0 <= i < n ==> s[i] != '/',
        n < s.len() ==> s[n as int] == '/',
    ensures
        head_len(s) == n,
    decreases n,
{
    if n > 0 {
        let t = s.drop_first();
        assert forall|i: int| 0 <= i < n - 1 implies t[i] != '/' by {
            assert(t[i] == s[i + 1]);
        }
        lemma_head_len_is(t, (n - 1) as nat);
    }
}

/// The segments of a tag.
pub fn split_segments(tag: &str) -> (r: Vec<String>)
    ensures
        text::texts(r@) == segments(tag@),
{
    let chars: Vec<char> = text::chars_of(tag);
    let mut out: Vec<String> = Vec::new();
    let mut i: usize = 0;
    assert(tag@.skip(0) =~= tag@);
    assert(text::texts(out@) + segments(tag@) =~= segments(tag@));
    while i < chars.len()
        invariant
            chars@ == tag@,
            i <= chars@.len(),
            text::texts(out@) + segments(tag@.skip(i as int)) == segments(tag@),
        decreases chars.len() - i,
    {
        let ghost s = tag@.skip(i as int);
        if chars[i] == '/' {
            assert(s.drop_first() =~= tag@.skip(i + 1));
            i = i + 1;
        } else {
            let mut j: usize = i;
            while j < chars.len() && chars[j] != '/'
                invariant
                    chars@ == tag@,
                    i <= j <= chars@.len(),
                    forall|k: int| i <= k < j ==> tag@[k] != '/',
                decreases chars.len() - j,
            {
                j = j + 1;
            }
            let mut seg: String = String::new();
            text::push_chars(&mut seg, &chars, i, j);
            proof {
                let n = (j - i) as nat;
                assert forall|k: int| 0 <= k < n implies s[k] != '/' by {
                    assert(s[k] == tag@[i + k]);
                }
                assert(n < s.len() ==> s[n as int] == tag@[j as int]);
                lemma_head_len_is(s, n);
                assert(s[0] == chars@[i as int]);
                assert(n > 0) by {
                    if n == 0 {
                        lemma_head_len(s);
                    }
                }
                assert(seg@ =~= s.take(n as int));
                assert(s.skip(n as int) =~= tag@.skip(j as int));
            }
            let ghost before = out@;
            out.push(seg);
            proof {
                let rest = segments(tag@.skip(j as int));
                assert(text::texts(out@) =~= text::texts(before).push(seg@));
                assert(text::texts(before) + (seq![seg@] + rest) =~= text::texts(out@) + rest);
            }
            i = j;
        }
    }
    assert(text::texts(out@) + segments(tag@.skip(i as int)) =~= text::texts(out@));
    out
}

// ---------------------------------------------------------------------------
// Segments and slashes
// ---------------------------------------------------------------------------
/// The segments of a tag are segments.
pub proof fn lemma_segments_proper(s: Seq<char>)
    ensures
        proper(segments(s)),
    decreases s.len(),
{
    if s.len() > 0 {
        if s[0] == '/' {
            lemma_segments_proper(s.drop_first());
        } else {
            let n = head_len(s) as int;
            lemma_head_len(s);
            if 0 < n <= s.len() {
                lemma_segments_proper(s.skip(n));
                let h = s.take(n);
                let rest = segments(s.skip(n));
                assert(!h.contains('/')) by {
                    if h.contains('/') {
                        let i = choose|i: int| 0 <= i < h.len() && h[i] == '/';
                        assert(s[i] == '/');
                    }
                }
                let all = segments(s);
                assert forall|i: int| 0 <= i < all.len() implies is_segment(#[trigger] all[i]) by {
                    if i > 0 {
                        assert(all[i] == rest[i - 1]);
                    }
                }
            }
        }
    }
}

/// The segments of two texts with a slash between them.
proof fn lemma_segments_slash(a: Seq<char>, b: Seq<char>)
    ensures
        segments(a + "/"@ + b) == segments(a) + segments(b),
    decreases a.len(),
{
    reveal_strlit("/");
    let s = a + "/"@ + b;
    if a.len() == 0 {
        assert(s.drop_first() =~= b);
        assert(segments(a) + segments(b) =~= segments(b));
    } else if a[0] == '/' {
        lemma_segments_slash(a.drop_first(), b);
        assert(s.drop_first() =~= a.drop_first() + "/"@ + b);
    } else {
        let n = head_len(a);
        lemma_head_len(a);
        assert forall|i: int| 0 <= i < n implies s[i] != '/' by {
            assert(s[i] == a[i]);
        }
        assert(s[n as int] == '/');
        lemma_head_len_is(s, n);
        assert(n > 0);
        lemma_segments_slash(a.skip(n as int), b);
        assert(s.skip(n as int) =~= a.skip(n as int) + "/"@ + b);
        assert(s.take(n as int) =~= a.take(n as int));
        assert(seq![a.take(n as int)] + (segments(a.skip(n as int)) + segments(b)) =~= segments(a)
            + segments(b));
    }
}

/// A segment is its own only segment.
pub proof fn lemma_one_segment(h: Seq<char>)
    requires
        is_segment(h),
    ensures
        segments(h) == seq![h],
{
    assert forall|i: int| 0 <= i < h.len() implies h[i] != '/' by {
        assert(h.contains(h[i]));
    }
    lemma_head_len_is(h, h.len());
    assert(h.take(h.len() as int) =~= h);
    assert(h.skip(h.len() as int) =~= seq![]);
    assert(seq![h] + segments(seq![]) =~= seq![h]);
}

proof fn lemma_segments_step(a: Seq<char>, b: Seq<char>)
    ensures
        segments(step(a, b)) == segments(a) + segments(b),
{
    if a.len() == 0 {
        assert(segments(a) + segments(b) =~= segments(b));
    } else {
        lemma_segments_slash(a, b);
    }
}

/// A walk leads through the segments that it is made of.
pub proof fn lemma_segments_walked(a: Seq<char>, q: Seq<Seq<char>>)
    requires
        proper(q),
    ensures
        segments(walked(a, q)) == segments(a) + q,
    decreases q.len(),
{
    if q.len() == 0 {
        assert(segments(a) + q =~= segments(a));
    } else {
        let rest = q.drop_first();
        assert(proper(rest)) by {
            assert forall|i: int| 0 <= i < rest.len() implies is_segment(#[trigger] rest[i]) by {
                assert(rest[i] == q[i + 1]);
            }
        }
        lemma_segments_walked(step(a, q[0]), rest);
        lemma_segments_step(a, q[0]);
        lemma_one_segment(q[0]);
        assert(segments(a) + seq![q[0]] + rest =~= segments(a) + q);
    }
}

/// What segments were joined can be told from the text.
pub proof fn lemma_segments_joined(q: Seq<Seq<char>>)
    requires
        proper(q),
    ensures
        segments(joined(q)) == q,
        plain(joined(q)),
{
    lemma_segments_walked(seq![], q);
    assert(segments(seq![]) + q =~= q);
}

proof fn lemma_step_twice(prefix: Seq<char>, a: Seq<char>, b: Seq<char>)
    requires
        a.len() > 0,
    ensures
        step(prefix, step(a, b)) == step(step(prefix, a), b),
{
    reveal_strlit("/");
    assert(prefix + "/"@ + (a + "/"@ + b) =~= (prefix + "/"@ + a) + "/"@ + b);
}

pub proof fn lemma_walk_from(prefix: Seq<char>, label: Seq<char>, p: Seq<Seq<char>>)
    requires
        label.len() > 0,
    ensures
        step(prefix, walked(label, p)) == walked(step(prefix, label), p),
    decreases p.len(),
{
    reveal_strlit("/");
    if p.len() > 0 {
        lemma_step_twice(prefix, label, p[0]);
        lemma_walk_from(prefix, step(label, p[0]), p.drop_first());
    }
}

pub proof fn lemma_walk_on(prefix: Seq<char>, a: Seq<Seq<char>>, b: Seq<Seq<char>>)
    ensures
        walked(prefix, a + b) == walked(walked(prefix, a), b),
    decreases a.len(),
{
    if a.len() == 0 {
        assert(a + b =~= b);
    } else {
        assert((a + b).drop_first() =~= a.drop_first() + b);
        lemma_walk_on(step(prefix, a[0]), a.drop_first(), b);
    }
}

/// Plain texts one below the other are plain.
proof fn lemma_plain_step(a: Seq<char>, b: Seq<char>)
    requires
        plain(a),
        plain(b),
        b.len() > 0,
    ensures
        plain(step(a, b)),
        step(a, b).len() > 0,
{
    reveal_strlit("/");
    let p = segments(a);
    let q = segments(b);
    lemma_segments_step(a, b);
    lemma_segments_proper(b);
    lemma_walk_on(seq![], p, q);
    assert(q.len() > 0);
    assert(is_segment(q[0]));
    lemma_walk_from(a, q[0], q.drop_first());
}

/// A segment is plain.
proof fn lemma_segment_plain(h: Seq<char>)
    requires
        is_segment(h),
    ensures
        plain(h),
{
    lemma_one_segment(h);
    reveal_with_fuel(walked, 2);
    assert(seq![h].drop_first() =~= seq![]);
}

// ---------------------------------------------------------------------------
// Groups
// ---------------------------------------------------------------------------
/// Some path starts with this segment.
pub open spec fn is_head(ps: Seq<Seq<Seq<char>>>, h: Seq<char>) -> bool {
    exists|i: int| 0 <= i < ps.len() && (#[trigger] ps[i]).len() > 0 && ps[i][0] == h
}

/// Some path ends right here.
pub open spec fn ends_here(ps: Seq<Seq<Seq<char>>>) -> bool {
    exists|i: int| 0 <= i < ps.len() && (#[trigger] ps[i]).len() == 0
}

/// `k` lists the first segments of the paths, each once and in order.
pub open spec fn lists_heads(ps: Seq<Seq<Seq<char>>>, k: Seq<Seq<char>>) -> bool {
    text::ascending(k) && forall|h: Seq<char>| #[trigger] k.contains(h) <==> is_head(ps, h)
}

/// The first segments of the paths, each once and in order.
pub open spec fn heads(ps: Seq<Seq<Seq<char>>>) -> Seq<Seq<char>> {
    choose|k: Seq<Seq<char>>| lists_heads(ps, k)
}

/// What follows `h` in the paths that start with it.
pub open spec fn below(ps: Seq<Seq<Seq<char>>>, h: Seq<char>) -> Seq<Seq<Seq<char>>>
    decreases ps.len(),
{
    if ps.len() == 0 {
        seq![]
    } else {
        let rest = below(ps.drop_last(), h);
        if ps.last().len() > 0 && ps.last()[0] == h {
            rest.push(ps.last().drop_first())
        } else {
            rest
        }
    }
}

/// How many segments the paths have in all.
pub open spec fn weight(ps: Seq<Seq<Seq<char>>>) -> nat
    decreases ps.len(),
{
    if ps.len() == 0 {
        0
    } else {
        weight(ps.drop_last()) + ps.last().len()
    }
}

/// There is one list of heads.
proof fn lemma_heads_are(ps: Seq<Seq<Seq<char>>>, k: Seq<Seq<char>>)
    requires
        lists_heads(ps, k),
    ensures
        heads(ps) == k,
{
    let c = heads(ps);
    assert(lists_heads(ps, c));
    assert forall|h: Seq<char>| c.contains(h) <==> k.contains(h) by {
        assert(c.contains(h) <==> is_head(ps, h));
    }
    text::lemma_ascending_unique(c, k);
}

/// Where a name belongs among ascending names.
proof fn lemma_place(k: Seq<Seq<char>>, h: Seq<char>) -> (i: int)
    requires
        text::ascending(k),
        !k.contains(h),
    ensures
        0 <= i <= k.len(),
        forall|j: int| 0 <= j < i ==> #[trigger] text::text_lt(k[j], h),
        forall|j: int| i <= j < k.len() ==> #[trigger] text::text_lt(h, k[j]),
    decreases k.len(),
{
    if k.len() == 0 {
        0
    } else {
        let last = k.len() - 1;
        assert(k[last] != h);
        text::lemma_text_total(k[last], h);
        if text::text_lt(k[last], h) {
            assert forall|j: int| 0 <= j < k.len() implies #[trigger] text::text_lt(k[j], h) by {
                if j < last {
                    text::lemma_text_transitive(k[j], k[last], h);
                }
            }
            k.len() as int
        } else {
            let t = k.drop_last();
            assert(text::ascending(t)) by {
                assert forall|p: int, q: int| 0 <= p < q < t.len() implies #[trigger] text::text_lt(
                    t[p],
                    t[q],
                ) by {
                    assert(text::text_lt(k[p], k[q]));
                }
            }
            assert(!t.contains(h)) by {
                if t.contains(h) {
                    let j = choose|j: int| 0 <= j < t.len() && t[j] == h;
                    assert(k[j] == h);
                }
            }
            let i = lemma_place(t, h);
            assert forall|j: int| 0 <= j < i implies #[trigger] text::text_lt(k[j], h) by {
                assert(text::text_lt(t[j], h));
            }
            assert forall|j: int| i <= j < k.len() implies #[trigger] text::text_lt(h, k[j]) by {
                if j < last {
                    assert(text::text_lt(h, t[j]));
                }
            }
            i
        }
    }
}

/// The heads can be listed.
pub proof fn lemma_heads(ps: Seq<Seq<Seq<char>>>)
    ensures
        lists_heads(ps, heads(ps)),
    decreases ps.len(),
{
    if ps.len() == 0 {
        assert(lists_heads(ps, Seq::<Seq<char>>::empty()));
    } else {
        let qs = ps.drop_last();
        lemma_heads(qs);
        let k = heads(qs);
        let p = ps.last();
        assert(ps[ps.len() - 1] == p);
        assert forall|h: Seq<char>|
            is_head(ps, h) <==> is_head(qs, h) || (p.len() > 0 && p[0] == h) by {
            if is_head(qs, h) {
                let i = choose|i: int|
                    0 <= i < qs.len() && (#[trigger] qs[i]).len() > 0 && qs[i][0] == h;
                assert(ps[i] == qs[i]);
            }
            if is_head(ps, h) {
                let i = choose|i: int|
                    0 <= i < ps.len() && (#[trigger] ps[i]).len() > 0 && ps[i][0] == h;
                if i < qs.len() {
                    assert(qs[i] == ps[i]);
                }
            }
        }
        if p.len() == 0 || k.contains(p[0]) {
            assert(lists_heads(ps, k)) by {
                assert forall|h: Seq<char>| #[trigger] k.contains(h) <==> is_head(ps, h) by {}
            }
        } else {
            let i = lemma_place(k, p[0]);
            let m = k.insert(i, p[0]);
            names::lemma_insert_ascending(k, i, p[0]);
            assert forall|h: Seq<char>| #[trigger] m.contains(h) <==> is_head(ps, h) by {
                names::lemma_insert_contains(k, i, p[0], h);
                assert(k.contains(h) <==> is_head(qs, h));
            }
            assert(lists_heads(ps, m));
        }
    }
}

/// Every head is a head.
pub proof fn lemma_head_at(ps: Seq<Seq<Seq<char>>>, i: int)
    requires
        0 <= i < heads(ps).len(),
    ensures
        is_head(ps, heads(ps)[i]),
        below(ps, heads(ps)[i]).len() > 0,
        weight(below(ps, heads(ps)[i])) < weight(ps),
{
    lemma_heads(ps);
    assert(heads(ps).contains(heads(ps)[i]));
    lemma_below(ps, heads(ps)[i]);
}

/// What lies below a head is less than what lies above it.
proof fn lemma_below(ps: Seq<Seq<Seq<char>>>, h: Seq<char>)
    ensures
        weight(below(ps, h)) + below(ps, h).len() <= weight(ps),
        below(ps, h).len() <= ps.len(),
        is_head(ps, h) <==> below(ps, h).len() > 0,
    decreases ps.len(),
{
    if ps.len() > 0 {
        let qs = ps.drop_last();
        lemma_below(qs, h);
        assert(ps[ps.len() - 1] == ps.last());
        if is_head(qs, h) {
            let i = choose|i: int|
                0 <= i < qs.len() && (#[trigger] qs[i]).len() > 0 && qs[i][0] == h;
            assert(ps[i] == qs[i]);
        }
        if is_head(ps, h) {
            let i = choose|i: int|
                0 <= i < ps.len() && (#[trigger] ps[i]).len() > 0 && ps[i][0] == h;
            if i < qs.len() {
                assert(qs[i] == ps[i]);
            }
        }
        if ps.last().len() > 0 && ps.last()[0] == h {
            let rest = below(qs, h);
            let p = ps.last().drop_first();
            assert(rest.push(p).drop_last() =~= rest);
        }
    }
}

/// What lies below a head is made of segments.
proof fn lemma_below_proper(ps: Seq<Seq<Seq<char>>>, h: Seq<char>)
    requires
        all_proper(ps),
    ensures
        all_proper(below(ps, h)),
    decreases ps.len(),
{
    if ps.len() > 0 {
        let qs = ps.drop_last();
        assert forall|i: int| 0 <= i < qs.len() implies proper(#[trigger] qs[i]) by {
            assert(qs[i] == ps[i]);
        }
        lemma_below_proper(qs, h);
        let last = ps[ps.len() - 1];
        if last.len() > 0 && last[0] == h {
            let t = last.drop_first();
            assert(proper(last));
            assert forall|j: int| 0 <= j < t.len() implies is_segment(#[trigger] t[j]) by {
                assert(t[j] == last[j + 1]);
            }
        }
    }
}

/// A head is a segment, and what lies below it is made of segments.
pub proof fn lemma_head_proper(ps: Seq<Seq<Seq<char>>>, k: int)
    requires
        all_proper(ps),
        0 <= k < heads(ps).len(),
    ensures
        is_segment(heads(ps)[k]),
        all_proper(below(ps, heads(ps)[k])),
        below(ps, heads(ps)[k]).len() > 0,
{
    let h = heads(ps)[k];
    lemma_head_at(ps, k);
    let i = choose|i: int| 0 <= i < ps.len() && (#[trigger] ps[i]).len() > 0 && ps[i][0] == h;
    assert(proper(ps[i]));
    lemma_below_proper(ps, h);
}

// ---------------------------------------------------------------------------
// Rows
// ---------------------------------------------------------------------------
/// One line of the tag list: a group to open, or a tag to plot.
#[derive(Debug, PartialEq, Eq)]
pub struct Row {
    pub depth: usize,
    /// What this row shows: its own segment, or several joined by `/` where a
    /// chain of groups with one child each was folded.
    pub label: String,
    /// Full path from the root: the tag itself for a leaf, and the key under
    /// which the state of a group is kept.
    pub path: String,
    pub leaf: bool,
    /// Tags at or below this row.
    pub leaves: usize,
    pub expanded: bool,
}

impl Clone for Row {
    fn clone(&self) -> (r: Self)
        ensures
            r == *self,
    {
        Row {
            depth: self.depth,
            label: self.label.clone(),
            path: self.path.clone(),
            leaf: self.leaf,
            leaves: self.leaves,
            expanded: self.expanded,
        }
    }
}

pub struct RowView {
    pub depth: int,
    pub label: Seq<char>,
    pub path: Seq<char>,
    pub leaf: bool,
    pub leaves: int,
    pub expanded: bool,
}

impl View for Row {
    type V = RowView;

    open spec fn view(&self) -> RowView {
        RowView {
            depth: self.depth as int,
            label: self.label@,
            path: self.path@,
            leaf: self.leaf,
            leaves: self.leaves as int,
            expanded: self.expanded,
        }
    }
}

/// The rows as values.
pub open spec fn row_views(rows: Seq<Row>) -> Seq<RowView> {
    Seq::new(rows.len(), |i: int| rows[i]@)
}

/// This group folds into its only child: no tag ends at it, and its child is
/// not both a tag and a group, which has to keep a row of its own.
pub open spec fn folds(ps: Seq<Seq<Seq<char>>>) -> bool {
    &&& !ends_here(ps)
    &&& heads(ps).len() == 1
    &&& {
        let child = below(ps, heads(ps)[0]);
        !(ends_here(child) && heads(child).len() > 0)
    }
}

/// The label of a row and the paths below it, once chains are folded.
pub open spec fn folded(label: Seq<char>, ps: Seq<Seq<Seq<char>>>) -> (
    Seq<char>,
    Seq<Seq<Seq<char>>>,
)
    decreases weight(ps),
{
    if folds(ps) {
        proof {
            lemma_head_at(ps, 0);
        }
        folded(step(label, heads(ps)[0]), below(ps, heads(ps)[0]))
    } else {
        (label, ps)
    }
}

/// Folding leaves no more than there was.
pub proof fn lemma_folded(label: Seq<char>, ps: Seq<Seq<Seq<char>>>)
    ensures
        weight(folded(label, ps).1) <= weight(ps),
    decreases weight(ps),
{
    if folds(ps) {
        lemma_head_at(ps, 0);
        lemma_folded(step(label, heads(ps)[0]), below(ps, heads(ps)[0]));
    }
}

/// Whether a group is open: as it was chosen, else open at the top level and
/// closed below.
pub open spec fn open_at(state: Map<Seq<char>, bool>, path: Seq<char>, depth: int) -> bool {
    if state.contains_key(path) {
        state[path]
    } else {
        depth == 0
    }
}

/// The segments that lead to the row of a head, with slashes between them.
pub open spec fn route(ps: Seq<Seq<Seq<char>>>, h: Seq<char>, prefix: Seq<char>) -> Seq<char> {
    step(prefix, folded(h, below(ps, h)).0)
}

/// The row of a head.
pub open spec fn head_row(
    tags: Seq<Seq<char>>,
    ps: Seq<Seq<Seq<char>>>,
    h: Seq<char>,
    depth: int,
    prefix: Seq<char>,
    state: Map<Seq<char>, bool>,
    force: bool,
) -> RowView {
    let f = folded(h, below(ps, h));
    let leaf = heads(f.1).len() == 0;
    let path = spelled(tags, route(ps, h, prefix), leaf);
    RowView {
        depth,
        label: f.0,
        path,
        leaf,
        leaves: below(ps, h).len() as int,
        expanded: !leaf && (force || open_at(state, path, depth)),
    }
}

/// The rows of the first `n` heads: each is followed by the rows below it, if
/// it is open.
pub open spec fn rows_of(
    tags: Seq<Seq<char>>,
    ps: Seq<Seq<Seq<char>>>,
    n: nat,
    depth: int,
    prefix: Seq<char>,
    state: Map<Seq<char>, bool>,
    force: bool,
) -> Seq<RowView>
    decreases weight(ps), n,
{
    if n == 0 || n > heads(ps).len() {
        seq![]
    } else {
        let h = heads(ps)[n - 1];
        let rest = folded(h, below(ps, h)).1;
        let row = head_row(tags, ps, h, depth, prefix, state, force);
        let above = rows_of(tags, ps, (n - 1) as nat, depth, prefix, state, force).push(row);
        proof {
            lemma_head_at(ps, n - 1);
            lemma_folded(h, below(ps, h));
        }
        if row.expanded {
            above + rows_of(
                tags,
                rest,
                heads(rest).len(),
                depth + 1,
                route(ps, h, prefix),
                state,
                force,
            )
        } else {
            above
        }
    }
}

/// The rows of the tag list.
pub open spec fn tag_rows(
    tags: Seq<Seq<char>>,
    state: Map<Seq<char>, bool>,
    force: bool,
) -> Seq<RowView> {
    let ps = paths(tags);
    rows_of(tags, ps, heads(ps).len(), 0, seq![], state, force)
}

/// Folding leaves a plain label and paths made of segments.
proof fn lemma_folded_plain(label: Seq<char>, ps: Seq<Seq<Seq<char>>>)
    requires
        plain(label),
        label.len() > 0,
        all_proper(ps),
    ensures
        plain(folded(label, ps).0),
        folded(label, ps).0.len() > 0,
        all_proper(folded(label, ps).1),
    decreases weight(ps),
{
    if folds(ps) {
        let h = heads(ps)[0];
        lemma_head_at(ps, 0);
        lemma_head_proper(ps, 0);
        lemma_segment_plain(h);
        lemma_plain_step(label, h);
        lemma_folded_plain(step(label, h), below(ps, h));
    }
}

/// The route to a row is plain, and what lies below it is made of segments.
proof fn lemma_route_plain(ps: Seq<Seq<Seq<char>>>, k: int, prefix: Seq<char>)
    requires
        all_proper(ps),
        0 <= k < heads(ps).len(),
        plain(prefix),
    ensures
        plain(route(ps, heads(ps)[k], prefix)),
        route(ps, heads(ps)[k], prefix).len() > 0,
        all_proper(folded(heads(ps)[k], below(ps, heads(ps)[k])).1),
{
    let h = heads(ps)[k];
    lemma_head_proper(ps, k);
    lemma_segment_plain(h);
    lemma_folded_plain(h, below(ps, h));
    lemma_plain_step(prefix, folded(h, below(ps, h)).0);
}

/// Whether a group is open. `state` holds the explicit choices; anything not
/// in it is open at the top level and closed below.
pub fn is_expanded(state: &NameMap<bool>, path: &str, depth: usize) -> (r: bool)
    requires
        state.wf(),
    ensures
        r == open_at(state.map(), path@, depth as int),
{
    match state.get(path) {
        Some(open) => *open,
        None => depth == 0,
    }
}

// ---------------------------------------------------------------------------
// The tree
// ---------------------------------------------------------------------------
struct Node {
    /// The names of the children, in order.
    names: Vec<String>,
    children: Vec<Node>,
    /// Set where a tag ends.
    is_tag: bool,
    leaves: usize,
    /// The segments that this node stands for.
    label: String,
}

/// The node is the tree of these paths, chains not yet folded.
spec fn stands_for(node: Node, ps: Seq<Seq<Seq<char>>>) -> bool
    decreases node,
{
    &&& node.is_tag == ends_here(ps)
    &&& node.leaves == ps.len()
    &&& text::texts(node.names@) == heads(ps)
    &&& node.children@.len() == heads(ps).len()
    &&& forall|i: int|
        0 <= i < node.children@.len() ==> {
            &&& (#[trigger] node.children@[i]).label@ == heads(ps)[i]
            &&& stands_for(node.children@[i], below(ps, heads(ps)[i]))
        }
}

/// The node is the row of these paths, with its label, chains folded.
spec fn compressed(node: Node, label: Seq<char>, ps: Seq<Seq<Seq<char>>>) -> bool
    decreases node,
{
    let f = folded(label, ps);
    &&& node.label@ == f.0
    &&& node.is_tag == ends_here(f.1)
    &&& node.leaves == ps.len()
    &&& node.children@.len() == heads(f.1).len()
    &&& forall|i: int|
        0 <= i < node.children@.len() ==> compressed(
            #[trigger] node.children@[i],
            heads(f.1)[i],
            below(f.1, heads(f.1)[i]),
        )
}

/// These nodes are the trees below the heads of the paths.
spec fn children_stand_for(kids: Seq<Node>, ps: Seq<Seq<Seq<char>>>) -> bool {
    &&& kids.len() == heads(ps).len()
    &&& forall|i: int|
        0 <= i < kids.len() ==> {
            &&& (#[trigger] kids[i]).label@ == heads(ps)[i]
            &&& stands_for(kids[i], below(ps, heads(ps)[i]))
        }
}

/// These nodes are the rows of the heads of the paths.
spec fn children_compressed(kids: Seq<Node>, ps: Seq<Seq<Seq<char>>>) -> bool {
    &&& kids.len() == heads(ps).len()
    &&& forall|i: int|
        0 <= i < kids.len() ==> compressed(
            #[trigger] kids[i],
            heads(ps)[i],
            below(ps, heads(ps)[i]),
        )
}

/// What one more path does to the groups.
proof fn lemma_push_path(ps: Seq<Seq<Seq<char>>>, p: Seq<Seq<char>>)
    ensures
        ends_here(ps.push(p)) == (ends_here(ps) || p.len() == 0),
        forall|h: Seq<char>| #[trigger]
            is_head(ps.push(p), h) <==> is_head(ps, h) || (p.len() > 0 && p[0] == h),
        forall|h: Seq<char>| #[trigger]
            below(ps.push(p), h) == if p.len() > 0 && p[0] == h {
                below(ps, h).push(p.drop_first())
            } else {
                below(ps, h)
            },
{
    let qs = ps.push(p);
    assert(qs.drop_last() =~= ps);
    assert(qs[ps.len() as int] == p);
    if ends_here(ps) {
        let i = choose|i: int| 0 <= i < ps.len() && (#[trigger] ps[i]).len() == 0;
        assert(qs[i] == ps[i]);
    }
    if ends_here(qs) {
        let i = choose|i: int| 0 <= i < qs.len() && (#[trigger] qs[i]).len() == 0;
        if i < ps.len() {
            assert(ps[i] == qs[i]);
        }
    }
    assert forall|h: Seq<char>| #[trigger]
        is_head(qs, h) <==> is_head(ps, h) || (p.len() > 0 && p[0] == h) by {
        if is_head(ps, h) {
            let i = choose|i: int|
                0 <= i < ps.len() && (#[trigger] ps[i]).len() > 0 && ps[i][0] == h;
            assert(qs[i] == ps[i]);
        }
        if is_head(qs, h) {
            let i = choose|i: int|
                0 <= i < qs.len() && (#[trigger] qs[i]).len() > 0 && qs[i][0] == h;
            if i < ps.len() {
                assert(ps[i] == qs[i]);
            }
        }
    }
}

impl Node {
    /// A node that no path has reached.
    fn empty(label: &str) -> (r: Self)
        ensures
            stands_for(r, seq![]),
            r.label@ == label@,
    {
        let r: Node = Node {
            names: Vec::new(),
            children: Vec::new(),
            is_tag: false,
            leaves: 0,
            label: label.to_string(),
        };
        proof {
            let none: Seq<Seq<Seq<char>>> = seq![];
            assert(lists_heads(none, text::texts(r.names@)));
            lemma_heads_are(none, text::texts(r.names@));
        }
        r
    }

    /// Add the path that `segments` holds from `from` on.
    fn insert(&mut self, segments: &Vec<String>, from: usize, Ghost(ps): Ghost<Seq<Seq<Seq<char>>>>)
        requires
            stands_for(*old(self), ps),
            ps.len() < usize::MAX,
            from <= segments@.len(),
        ensures
            stands_for(*final(self), ps.push(text::texts(segments@).skip(from as int))),
            final(self).label == old(self).label,
        decreases segments@.len() - from,
    {
        let ghost p = text::texts(segments@).skip(from as int);
        let ghost qs = ps.push(p);
        let ghost keys = text::texts(self.names@);
        proof {
            lemma_push_path(ps, p);
            lemma_heads(ps);
        }
        self.leaves = self.leaves + 1;
        if from == segments.len() {
            self.is_tag = true;
            proof {
                assert(lists_heads(qs, keys)) by {
                    assert forall|h: Seq<char>| #[trigger] keys.contains(h) <==> is_head(
                        qs,
                        h,
                    ) by {}
                }
                lemma_heads_are(qs, keys);
                assert(children_stand_for(self.children@, qs));
            }
            return;
        }
        let head: &str = segments[from].as_str();
        assert(p[0] == head@);
        assert(p.drop_first() =~= text::texts(segments@).skip(from + 1));
        let ghost was = self.children@;
        let i: usize = match names::find_name(&self.names, head) {
            Ok(i) => {
                proof {
                    assert(keys.contains(head@));
                    assert(lists_heads(qs, keys)) by {
                        assert forall|h: Seq<char>| #[trigger] keys.contains(h) <==> is_head(
                            qs,
                            h,
                        ) by {}
                    }
                    lemma_heads_are(qs, keys);
                }
                i
            },
            Err(i) => {
                let fresh: Node = Node::empty(head);
                self.names.insert(i, head.to_string());
                self.children.insert(i, fresh);
                proof {
                    let after = keys.insert(i as int, head@);
                    assert(text::texts(self.names@) =~= after);
                    names::lemma_insert_ascending(keys, i as int, head@);
                    assert(lists_heads(qs, after)) by {
                        assert forall|h: Seq<char>| #[trigger] after.contains(h) <==> is_head(
                            qs,
                            h,
                        ) by {
                            names::lemma_insert_contains(keys, i as int, head@, h);
                            assert(keys.contains(h) <==> is_head(ps, h));
                        }
                    }
                    lemma_heads_are(qs, after);
                    assert(!is_head(ps, head@));
                    lemma_below(ps, head@);
                    assert(below(ps, head@) =~= seq![]);
                }
                i
            },
        };
        let ghost mid = self.children@;
        proof {
            lemma_below(ps, head@);
            let k = heads(qs);
            assert(k == text::texts(self.names@));
            names::lemma_ascending_distinct(k);
            assert forall|j: int| 0 <= j < mid.len() implies {
                &&& (#[trigger] mid[j]).label@ == k[j]
                &&& stands_for(mid[j], below(ps, k[j]))
            } by {
                if mid.len() == was.len() {
                    assert(mid[j] == was[j]);
                } else if j < i {
                    assert(mid[j] == was[j]);
                    assert(k[j] == keys[j]);
                } else if j > i {
                    assert(mid[j] == was[j - 1]);
                    assert(k[j] == keys[j - 1]);
                }
            }
        }
        let child: &mut Node = &mut self.children[i];
        child.insert(segments, from + 1, Ghost(below(ps, head@)));
        proof {
            let k = heads(qs);
            assert forall|j: int| 0 <= j < self.children@.len() implies {
                &&& (#[trigger] self.children@[j]).label@ == k[j]
                &&& stands_for(self.children@[j], below(qs, k[j]))
            } by {
                if j != i {
                    assert(self.children@[j] == mid[j]);
                    assert(k[j] != k[i as int]);
                }
            }
            assert(children_stand_for(self.children@, qs));
        }
    }

    /// Whether the node folds into its only child.
    fn folds_down(&self, Ghost(ps): Ghost<Seq<Seq<Seq<char>>>>) -> (r: bool)
        requires
            self.is_tag == ends_here(ps),
            children_stand_for(self.children@, ps),
        ensures
            r == folds(ps),
    {
        if self.is_tag || self.children.len() != 1 {
            return false;
        }
        let child: &Node = &self.children[0];
        assert(stands_for(self.children@[0], below(ps, heads(ps)[0])));
        !(child.is_tag && child.children.len() > 0)
    }

    /// Fold chains in which each step has nothing else in it, here and below.
    fn compress(&mut self, Ghost(ps): Ghost<Seq<Seq<Seq<char>>>>)
        requires
            stands_for(*old(self), ps),
        ensures
            compressed(*final(self), old(self).label@, ps),
        decreases weight(ps), 2nat,
    {
        let ghost label = self.label@;
        let ghost mut qs = ps;
        while self.folds_down(Ghost(qs))
            invariant
                label == old(self).label@,
                self.leaves == ps.len(),
                self.is_tag == ends_here(qs),
                text::texts(self.names@) == heads(qs),
                children_stand_for(self.children@, qs),
                folded(label, ps) == folded(self.label@, qs),
                weight(qs) <= weight(ps),
            ensures
                !folds(qs),
            decreases weight(qs),
        {
            proof {
                lemma_head_at(qs, 0);
                assert(text::texts(self.names@)[0] == self.names@[0]@);
                assert(stands_for(self.children@[0], below(qs, heads(qs)[0])));
            }
            let key: String = self.names.remove(0);
            let child: Node = self.children.remove(0);
            if text::char_count(self.label.as_str()) == 0 {
                self.label = key;
            } else {
                self.label.append("/");
                self.label.append(key.as_str());
            }
            self.names = child.names;
            self.children = child.children;
            self.is_tag = child.is_tag;
            proof {
                qs = below(qs, heads(qs)[0]);
            }
        }
        compress_children(&mut self.children, Ghost(qs));
    }
}

/// Fold the chains below a node.
fn compress_children(kids: &mut Vec<Node>, Ghost(ps): Ghost<Seq<Seq<Seq<char>>>>)
    requires
        children_stand_for(old(kids)@, ps),
    ensures
        children_compressed(final(kids)@, ps),
    decreases weight(ps), 1nat,
{
    let mut i: usize = 0;
    while i < kids.len()
        invariant
            i <= kids@.len(),
            kids@.len() == heads(ps).len(),
            forall|k: int|
                i <= k < kids@.len() ==> {
                    &&& (#[trigger] kids@[k]).label@ == heads(ps)[k]
                    &&& stands_for(kids@[k], below(ps, heads(ps)[k]))
                },
            forall|k: int|
                0 <= k < i ==> compressed(
                    #[trigger] kids@[k],
                    heads(ps)[k],
                    below(ps, heads(ps)[k]),
                ),
        decreases kids.len() - i,
    {
        proof {
            lemma_head_at(ps, i as int);
        }
        let child: &mut Node = &mut kids[i];
        child.compress(Ghost(below(ps, heads(ps)[i as int])));
        i = i + 1;
    }
}

/// The paths fit below this depth.
spec fn fits(ps: Seq<Seq<Seq<char>>>, depth: int) -> bool {
    forall|i: int| 0 <= i < ps.len() ==> depth + (#[trigger] ps[i]).len() <= usize::MAX
}

proof fn lemma_fits_below(ps: Seq<Seq<Seq<char>>>, h: Seq<char>, depth: int)
    requires
        fits(ps, depth),
    ensures
        fits(below(ps, h), depth + 1),
        fits(below(ps, h), depth),
    decreases ps.len(),
{
    if ps.len() > 0 {
        let qs = ps.drop_last();
        assert forall|i: int| 0 <= i < qs.len() implies depth + (#[trigger] qs[i]).len()
            <= usize::MAX by {
            assert(qs[i] == ps[i]);
        }
        lemma_fits_below(qs, h, depth);
        assert(ps.last() == ps[ps.len() - 1]);
    }
}

proof fn lemma_fits_folded(label: Seq<char>, ps: Seq<Seq<Seq<char>>>, depth: int)
    requires
        fits(ps, depth),
    ensures
        fits(folded(label, ps).1, depth),
    decreases weight(ps),
{
    if folds(ps) {
        lemma_head_at(ps, 0);
        lemma_fits_below(ps, heads(ps)[0], depth);
        lemma_fits_folded(step(label, heads(ps)[0]), below(ps, heads(ps)[0]), depth);
    }
}

// ---------------------------------------------------------------------------
// Spellings
// ---------------------------------------------------------------------------
/// The map holds the tag at the end of every route on which there is one.
spec fn noted(m: NameMap<String>, tags: Seq<Seq<char>>) -> bool {
    m.wf() && forall|q: Seq<Seq<char>>|
        proper(q) && q.len() > 0 ==> notes(m.map(), #[trigger] joined(q), named(tags, joined(q)))
}

/// The map holds the tag under that key, if there is one.
spec fn notes(m: Map<Seq<char>, String>, key: Seq<char>, tag: Option<Seq<char>>) -> bool {
    match tag {
        Some(t) => m.contains_key(key) && m[key]@ == t,
        None => !m.contains_key(key),
    }
}

/// Joined segments are the same text only where they are the same segments.
proof fn lemma_joined_apart(p: Seq<Seq<char>>, q: Seq<Seq<char>>)
    requires
        proper(p),
        proper(q),
    ensures
        joined(p) == joined(q) <==> p == q,
{
    lemma_segments_joined(p);
    lemma_segments_joined(q);
}

/// What one more tag names.
proof fn lemma_named_push(tags: Seq<Seq<char>>, t: Seq<char>, q: Seq<Seq<char>>)
    requires
        proper(q),
    ensures
        named(tags.push(t), joined(q)) == if t == joined(q) {
            Some(t)
        } else if named(tags, joined(q)) is None && segments(t) == q {
            Some(t)
        } else {
            named(tags, joined(q))
        },
{
    let more = tags.push(t);
    let x = joined(q);
    lemma_segments_joined(q);
    assert(more.drop_last() =~= tags);
    assert(more[tags.len() as int] == t);
    if tags.contains(x) {
        let i = choose|i: int| 0 <= i < tags.len() && tags[i] == x;
        assert(more[i] == x);
    }
    if more.contains(x) && t != x {
        let i = choose|i: int| 0 <= i < more.len() && more[i] == x;
        assert(tags[i] == x);
    }
}

/// The segments with single slashes between them.
fn join(segs: &Vec<String>) -> (r: String)
    requires
        proper(text::texts(segs@)),
    ensures
        r@ == joined(text::texts(segs@)),
{
    let ghost p = text::texts(segs@);
    let mut key: String = String::new();
    let mut k: usize = 0;
    assert(p.take(0) =~= seq![]);
    assert(key@ =~= seq![]);
    while k < segs.len()
        invariant
            p == text::texts(segs@),
            proper(p),
            k <= segs@.len(),
            key@ == joined(p.take(k as int)),
        decreases segs.len() - k,
    {
        proof {
            assert(p[k as int] == segs@[k as int]@);
            assert(p.take(k + 1) =~= p.take(k as int) + seq![p[k as int]]);
            lemma_walk_on(seq![], p.take(k as int), seq![p[k as int]]);
            reveal_with_fuel(walked, 2);
            assert(seq![p[k as int]].drop_first() =~= seq![]);
        }
        if text::char_count(key.as_str()) > 0 {
            key.append("/");
        }
        key.append(segs[k].as_str());
        k = k + 1;
        assert(key@ =~= joined(p.take(k as int)));
    }
    assert(p.take(k as int) =~= p);
    key
}

/// Note a tag at the end of its route, where there is none or it is spelled
/// like the route.
fn note_tag(
    tag: &str,
    segs: &Vec<String>,
    spellings: &mut NameMap<String>,
    Ghost(tags): Ghost<Seq<Seq<char>>>,
)
    requires
        text::texts(segs@) == segments(tag@),
        segs@.len() > 0,
        noted(*old(spellings), tags),
    ensures
        noted(*final(spellings), tags.push(tag@)),
{
    let ghost p = segments(tag@);
    proof {
        lemma_segments_proper(tag@);
    }
    let key: String = join(segs);
    if !spellings.contains(key.as_str()) || text::same(tag, key.as_str()) {
        spellings.put(key.as_str(), tag.to_string());
    }
    proof {
        assert forall|q: Seq<Seq<char>>| proper(q) && q.len() > 0 implies notes(
            spellings.map(),
            #[trigger] joined(q),
            named(tags.push(tag@), joined(q)),
        ) by {
            lemma_joined_apart(q, p);
            lemma_segments_joined(q);
            lemma_named_push(tags, tag@, q);
        }
    }
}

/// The path of the row at the end of a route.
fn spell(
    route: &str,
    leaf: bool,
    spellings: &NameMap<String>,
    Ghost(tags): Ghost<Seq<Seq<char>>>,
) -> (r: String)
    requires
        plain(route@),
        route@.len() > 0,
        noted(*spellings, tags),
    ensures
        r@ == spelled(tags, route@, leaf),
{
    if !leaf {
        return route.to_string();
    }
    proof {
        let q = segments(route@);
        lemma_segments_proper(route@);
        assert(q.len() > 0);
        assert(joined(q) == route@);
    }
    match spellings.get(route) {
        Some(tag) => tag.clone(),
        None => route.to_string(),
    }
}

/// Append the rows of the nodes, each followed by what it holds if it is open.
fn walk(
    kids: &Vec<Node>,
    depth: usize,
    prefix: &str,
    state: &NameMap<bool>,
    force_open: bool,
    spellings: &NameMap<String>,
    out: &mut Vec<Row>,
    Ghost(tags): Ghost<Seq<Seq<char>>>,
    Ghost(ps): Ghost<Seq<Seq<Seq<char>>>>,
)
    requires
        children_compressed(kids@, ps),
        state.wf(),
        fits(ps, depth as int),
        all_proper(ps),
        plain(prefix@),
        noted(*spellings, tags),
    ensures
        row_views(final(out)@) == row_views(old(out)@) + rows_of(
            tags,
            ps,
            heads(ps).len(),
            depth as int,
            prefix@,
            state.map(),
            force_open,
        ),
    decreases weight(ps),
{
    let mut i: usize = 0;
    let ghost start = row_views(out@);
    assert(start + Seq::<RowView>::empty() =~= start);
    while i < kids.len()
        invariant
            i <= kids@.len(),
            children_compressed(kids@, ps),
            state.wf(),
            fits(ps, depth as int),
            all_proper(ps),
            plain(prefix@),
            noted(*spellings, tags),
            start == row_views(old(out)@),
            row_views(out@) == start + rows_of(
                tags,
                ps,
                i as nat,
                depth as int,
                prefix@,
                state.map(),
                force_open,
            ),
        decreases kids.len() - i,
    {
        let child: &Node = &kids[i];
        let ghost h = heads(ps)[i as int];
        let ghost f = folded(h, below(ps, h));
        let ghost row_spec = head_row(tags, ps, h, depth as int, prefix@, state.map(), force_open);
        let ghost above = rows_of(tags, ps, i as nat, depth as int, prefix@, state.map(), force_open);
        proof {
            lemma_head_at(ps, i as int);
            lemma_folded(h, below(ps, h));
            lemma_fits_below(ps, h, depth as int);
            lemma_fits_folded(h, below(ps, h), depth + 1);
            assert(compressed(kids@[i as int], h, below(ps, h)));
            lemma_route_plain(ps, i as int, prefix@);
        }
        let way: String = if text::char_count(prefix) == 0 {
            child.label.clone()
        } else {
            let mut p: String = prefix.to_string();
            p.append("/");
            p.append(child.label.as_str());
            p
        };
        assert(way@ == route(ps, h, prefix@));
        let leaf: bool = child.children.len() == 0;
        let path: String = spell(way.as_str(), leaf, spellings, Ghost(tags));
        let expanded: bool = !leaf && (force_open || is_expanded(state, path.as_str(), depth));
        let row: Row = Row {
            depth,
            label: child.label.clone(),
            path,
            leaf,
            leaves: child.leaves,
            expanded,
        };
        assert(row@ == row_spec);
        let ghost before = out@;
        out.push(row);
        assert(row_views(out@) =~= row_views(before).push(row@));
        assert(row_views(out@) =~= start + above.push(row@));
        if expanded {
            proof {
                assert(!leaf);
                lemma_heads(f.1);
                lemma_deeper(f.1, depth as int);
                assert(children_compressed(child.children@, f.1));
            }
            walk(
                &child.children,
                depth + 1,
                way.as_str(),
                state,
                force_open,
                spellings,
                out,
                Ghost(tags),
                Ghost(f.1),
            );
            proof {
                let rest = rows_of(
                    tags,
                    f.1,
                    heads(f.1).len(),
                    depth + 1,
                    way@,
                    state.map(),
                    force_open,
                );
                assert((start + above.push(row@)) + rest =~= start + (above.push(row@) + rest));
            }
        }
        i = i + 1;
    }
}

/// A group that is not empty has something one level further down.
proof fn lemma_deeper(ps: Seq<Seq<Seq<char>>>, depth: int)
    requires
        fits(ps, depth + 1),
        heads(ps).len() > 0,
    ensures
        depth + 1 <= usize::MAX,
{
    lemma_head_at(ps, 0);
    let i = choose|i: int|
        0 <= i < ps.len() && (#[trigger] ps[i]).len() > 0 && ps[i][0] == heads(ps)[0];
    assert(depth + 1 + ps[i].len() <= usize::MAX);
}

/// A tag without segments is on no route.
proof fn lemma_nothing_named(tags: Seq<Seq<char>>, t: Seq<char>)
    requires
        segments(t).len() == 0,
    ensures
        forall|q: Seq<Seq<char>>|
            proper(q) && q.len() > 0 ==> named(tags.push(t), #[trigger] joined(q)) == named(
                tags,
                joined(q),
            ),
{
    assert forall|q: Seq<Seq<char>>| proper(q) && q.len() > 0 implies named(
        tags.push(t),
        #[trigger] joined(q),
    ) == named(tags, joined(q)) by {
        lemma_segments_joined(q);
        lemma_named_push(tags, t, q);
    }
}

/// Flatten tags into the rows that the sidebar draws.
///
/// `force_open` ignores what is open or closed: while a filter is active, a
/// match is never hidden inside a closed group.
pub fn rows(tags: &[String], state: &NameMap<bool>, force_open: bool) -> (r: Vec<Row>)
    requires
        state.wf(),
    ensures
        row_views(r@) == tag_rows(text::texts(tags@), state.map(), force_open),
        forall|i: int|
            0 <= i < r@.len() && (#[trigger] r@[i]).leaf ==> text::texts(tags@).contains(
                r@[i].path@,
            ),
{
    let mut root: Node = Node::empty("");
    let mut spellings: NameMap<String> = NameMap::new();
    let mut i: usize = 0;
    let ghost names = text::texts(tags@);
    assert(names.take(0) =~= seq![]);
    assert(all_proper(paths(names.take(0))));
    while i < tags.len()
        invariant
            i <= tags@.len(),
            names == text::texts(tags@),
            stands_for(root, paths(names.take(i as int))),
            paths(names.take(i as int)).len() <= i,
            fits(paths(names.take(i as int)), 0),
            all_proper(paths(names.take(i as int))),
            noted(spellings, names.take(i as int)),
        decreases tags.len() - i,
    {
        let ghost ps = paths(names.take(i as int));
        let segments: Vec<String> = split_segments(tags[i].as_str());
        proof {
            assert(names.take(i + 1).drop_last() =~= names.take(i as int));
            assert(names.take(i + 1).last() == tags@[i as int]@);
            assert(text::texts(segments@).skip(0) =~= text::texts(segments@));
            assert(text::texts(segments@).len() == segments.len());
            assert(names.take(i + 1) =~= names.take(i as int).push(tags@[i as int]@));
            lemma_segments_proper(tags@[i as int]@);
        }
        if segments.len() > 0 {
            root.insert(&segments, 0, Ghost(ps));
            note_tag(
                tags[i].as_str(),
                &segments,
                &mut spellings,
                Ghost(names.take(i as int)),
            );
        } else {
            proof {
                lemma_nothing_named(names.take(i as int), tags@[i as int]@);
            }
        }
        i = i + 1;
    }
    assert(names.take(i as int) =~= names);
    let ghost ps = paths(names);
    compress_children(&mut root.children, Ghost(ps));
    let mut out: Vec<Row> = Vec::new();
    proof {
        reveal_strlit("");
        assert(""@ =~= seq![]);
        assert(plain(""@));
    }
    walk(
        &root.children,
        0,
        "",
        state,
        force_open,
        &spellings,
        &mut out,
        Ghost(names),
        Ghost(ps),
    );
    assert(row_views(out@) =~= tag_rows(names, state.map(), force_open)) by {
        assert(""@ =~= seq![]);
    }
    proof {
        let all = row_views(out@);
        assert forall|i: int| 0 <= i < out@.len() && (#[trigger] out@[i]).leaf implies
            names.contains(out@[i].path@) by {
            assert(all[i] == out@[i]@);
            assert(all.contains(all[i]));
            tag_laws::law_every_row_leads_to_a_tag(names, state.map(), force_open, all[i]);
        }
    }
    out
}

// ---------------------------------------------------------------------------
// What a row plots, and how its label is cut
// ---------------------------------------------------------------------------
/// This tag stands at or under the path: its segments start with those of the
/// path.
pub open spec fn at_or_under(tag: Seq<char>, path: Seq<char>) -> bool {
    starts(segments(tag), segments(path))
}

/// The row leads to this tag: a leaf to its own, a group to those at or under
/// it.
pub open spec fn leads_to(row: RowView, tag: Seq<char>) -> bool {
    if row.leaf {
        tag == row.path
    } else {
        at_or_under(tag, row.path)
    }
}

/// `r` is the place of the first tag to which the row leads, if there is one.
pub open spec fn finds_first(tags: Seq<Seq<char>>, row: RowView, r: Option<usize>) -> bool {
    match r {
        Some(i) => {
            &&& i < tags.len()
            &&& leads_to(row, tags[i as int])
            &&& forall|j: int| 0 <= j < i ==> !leads_to(row, #[trigger] tags[j])
        },
        None => forall|j: int| 0 <= j < tags.len() ==> !leads_to(row, #[trigger] tags[j]),
    }
}

/// Whether the segments start with these.
fn starts_with(segs: &Vec<String>, first: &Vec<String>) -> (r: bool)
    ensures
        r == starts(text::texts(segs@), text::texts(first@)),
{
    let ghost p = text::texts(segs@);
    let ghost q = text::texts(first@);
    assert(p.len() == segs@.len() && q.len() == first@.len());
    if first.len() > segs.len() {
        return false;
    }
    let mut i: usize = 0;
    while i < first.len()
        invariant
            p == text::texts(segs@),
            q == text::texts(first@),
            i <= first@.len() <= segs@.len(),
            forall|k: int| 0 <= k < i ==> p[k] == q[k],
        decreases first.len() - i,
    {
        assert(p[i as int] == segs@[i as int]@ && q[i as int] == first@[i as int]@);
        if !text::same(segs[i].as_str(), first[i].as_str()) {
            assert(p.take(q.len() as int)[i as int] != q[i as int]);
            return false;
        }
        i = i + 1;
    }
    assert(p.take(q.len() as int) =~= q);
    true
}

/// Index of the first tag at or under the path of the row.
///
/// Group rows plot the first tag they contain, so moving over a closed group
/// still shows something.
pub fn first_leaf(tags: &[String], row: &Row) -> (r: Option<usize>)
    ensures
        finds_first(text::texts(tags@), row@, r),
{
    let path: Vec<String> = split_segments(row.path.as_str());
    let mut i: usize = 0;
    while i < tags.len()
        invariant
            i <= tags@.len(),
            text::texts(path@) == segments(row.path@),
            forall|j: int| 0 <= j < i ==> !leads_to(row@, #[trigger] text::texts(tags@)[j]),
        decreases tags.len() - i,
    {
        assert(text::texts(tags@)[i as int] == tags@[i as int]@);
        let tag: &str = tags[i].as_str();
        let leads: bool = if row.leaf {
            text::same(tag, row.path.as_str())
        } else {
            starts_with(&split_segments(tag), &path)
        };
        if leads {
            return Some(i);
        }
        i = i + 1;
    }
    None
}

/// A label cut to so many characters: the middle goes, and both ends stay.
pub open spec fn elided(label: Seq<char>, width: int) -> Seq<char> {
    if label.len() <= width {
        label
    } else if width <= 1 {
        text::repeated('…', width as nat)
    } else {
        let head = width / 2;
        let tail = width - 1 - head;
        label.take(head).push('…') + label.skip(label.len() - tail)
    }
}

/// Shorten a label to `width`, cutting the middle rather than the end: tag
/// names differ at the tail as often as at the head.
pub fn elide(label: &str, width: usize) -> (r: String)
    ensures
        r@ == elided(label@, width as int),
        r@.len() <= width,
{
    let chars: Vec<char> = text::chars_of(label);
    let n: usize = chars.len();
    if n <= width {
        return label.to_string();
    }
    let mut out: String = String::new();
    if width <= 1 {
        text::push_repeated(&mut out, '…', width);
        assert(out@ =~= elided(label@, width as int));
        return out;
    }
    let keep: usize = width - 1;
    let head: usize = keep / 2 + keep % 2;
    let tail: usize = keep - head;
    text::push_chars(&mut out, &chars, 0, head);
    text::push_char(&mut out, '…');
    text::push_chars(&mut out, &chars, n - tail, n);
    assert(out@ =~= elided(label@, width as int));
    out
}

} // verus!
