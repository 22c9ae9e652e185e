//! The points of one tag in one run, kept in the order of their steps, and
//! thinned out where there are too many of them.
use vstd::prelude::*;

use crate::tfevents::Scalar;

verus! {

/// One point of a series: its step, the bits of its wall time, its value.
pub struct Sample {
    pub step: i64,
    pub wall: u64,
    pub val: Scalar,
}

/// Points in columns.
pub struct Series {
    pub steps: Vec<i64>,
    /// The bits of the wall times.
    pub walls: Vec<u64>,
    pub vals: Vec<Scalar>,
    /// Set when an appended step went backwards, so that an empty series,
    /// which is trivially sorted, has it unset.
    pub unsorted: bool,
    /// One of so many appended points is kept.
    pub stride: u64,
    /// So many appended points are passed over before the next one is kept.
    pub skip: u64,
}

/// What a series holds, and which points it will keep.
pub struct Held {
    pub points: Seq<Sample>,
    pub stride: int,
    pub skip: int,
}

/// The steps never go backwards.
pub open spec fn in_step_order(s: Seq<Sample>) -> bool {
    forall|i: int, j: int| 0 <= i < j < s.len() ==> s[i].step <= s[j].step
}

/// The point at `a` is to come before the point at `b`: its step is smaller,
/// or the steps are equal and it was appended earlier.
pub open spec fn before(s: Seq<Sample>, a: int, b: int) -> bool {
    s[a].step < s[b].step || (s[a].step == s[b].step && a < b)
}

/// `order` lists positions of `s`, each before the ones behind it.
pub open spec fn listed(s: Seq<Sample>, order: Seq<int>) -> bool {
    &&& forall|i: int| 0 <= i < order.len() ==> 0 <= #[trigger] order[i] < s.len()
    &&& forall|i: int, j: int|
        0 <= i < j < order.len() ==> before(s, #[trigger] order[i], #[trigger] order[j])
}

/// `t` holds the points of `s` by step, points of equal step in the order in
/// which `s` holds them.
pub open spec fn sorted_by_step(s: Seq<Sample>, t: Seq<Sample>) -> bool {
    exists|order: Seq<int>| #[trigger] sorted_along(s, t, order)
}

/// `order` takes the points of `s` to those of `t`.
pub open spec fn sorted_along(s: Seq<Sample>, t: Seq<Sample>, order: Seq<int>) -> bool {
    &&& order.len() == s.len()
    &&& listed(s, order)
    &&& t == order.map_values(|k: int| s[k])
}

/// `b` is `a` with its points by step.
pub open spec fn put_in_order(a: Held, b: Held) -> bool {
    sorted_by_step(a.points, b.points) && b.stride == a.stride && b.skip == a.skip
}

/// A series without points. Every point will be kept.
pub open spec fn nothing() -> Held {
    Held { points: Seq::empty(), stride: 1, skip: 0 }
}

/// A series once a point has been appended, or passed over.
pub open spec fn pushed(h: Held, x: Sample) -> Held {
    if h.skip > 0 {
        Held { skip: h.skip - 1, ..h }
    } else {
        Held { points: h.points.push(x), skip: h.stride - 1, ..h }
    }
}

impl View for Series {
    type V = Seq<Sample>;

    open spec fn view(&self) -> Seq<Sample> {
        Seq::new(
            self.steps@.len(),
            |i: int| Sample { step: self.steps@[i], wall: self.walls@[i], val: self.vals@[i] },
        )
    }
}

impl Series {
    /// The columns are of one length, a series that is not marked is sorted,
    /// and the next point is kept before a whole stride has gone by.
    pub open spec fn wf(&self) -> bool {
        &&& self.walls@.len() == self.steps@.len()
        &&& self.vals@.len() == self.steps@.len()
        &&& !self.unsorted ==> in_step_order(self@)
        &&& self.skip < self.stride
    }

    /// What the series holds.
    pub open spec fn held(&self) -> Held {
        Held { points: self@, stride: self.stride as int, skip: self.skip as int }
    }

    pub fn len(&self) -> (r: usize)
        ensures
            r == self@.len(),
    {
        self.steps.len()
    }

    pub fn is_empty(&self) -> (r: bool)
        ensures
            r == (self@.len() == 0),
    {
        self.steps.len() == 0
    }

    /// Append a point, or pass over it where only some points are kept.
    pub fn push(&mut self, step: i64, wall: u64, val: Scalar)
        requires
            old(self).wf(),
        ensures
            final(self).wf(),
            final(self).held() == pushed(old(self).held(), Sample { step, wall, val }),
    {
        if self.skip > 0 {
            self.skip = self.skip - 1;
            return;
        }
        self.skip = self.stride - 1;
        let n: usize = self.steps.len();
        if n > 0 && step < self.steps[n - 1] {
            self.unsorted = true;
        }
        assert(!self.unsorted && n > 0 ==> old(self)@[n - 1].step <= step);
        self.steps.push(step);
        self.walls.push(wall);
        self.vals.push(val);
        assert(self@ =~= old(self)@.push(Sample { step, wall, val }));
    }

    /// Sort by step. Only a restarted or overlapping run needs it.
    pub fn ensure_sorted(&mut self)
        requires
            old(self).wf(),
        ensures
            final(self).wf(),
            !final(self).unsorted,
            put_in_order(old(self).held(), final(self).held()),
            !old(self).unsorted ==> *final(self) == *old(self),
    {
        if !self.unsorted {
            proof {
                lemma_sorted_stays(self@);
            }
            return;
        }
        let ghost s = self@;
        let n: usize = self.steps.len();
        let order: Vec<usize> = sort_range(self, 0, n);
        let mut steps: Vec<i64> = Vec::new();
        let mut walls: Vec<u64> = Vec::new();
        let mut vals: Vec<Scalar> = Vec::new();
        let mut i: usize = 0;
        while i < order.len()
            invariant
                s == self@,
                self.wf(),
                listed(s, positions(order@)),
                order@.len() == s.len(),
                i <= order@.len(),
                steps@.len() == i,
                walls@.len() == i,
                vals@.len() == i,
                forall|k: int|
                    0 <= k < i ==> s[order@[k] as int] == (Sample {
                        step: #[trigger] steps@[k],
                        wall: walls@[k],
                        val: vals@[k],
                    }),
            decreases order.len() - i,
        {
            let k: usize = order[i];
            assert(positions(order@)[i as int] == k);
            steps.push(self.steps[k]);
            walls.push(self.walls[k]);
            vals.push(self.vals[k]);
            i = i + 1;
        }
        self.steps = steps;
        self.walls = walls;
        self.vals = vals;
        self.unsorted = false;
        proof {
            let p = positions(order@);
            assert(self@ =~= p.map_values(|k: int| s[k]));
            assert(sorted_along(s, self@, p));
            lemma_sorted_order(s, self@);
        }
    }
}

impl Default for Series {
    /// An empty series.
    fn default() -> (r: Self)
        ensures
            r.wf(),
            r.held() == nothing(),
    {
        let r: Series = Series {
            steps: Vec::new(),
            walls: Vec::new(),
            vals: Vec::new(),
            unsorted: false,
            stride: 1,
            skip: 0,
        };
        assert(r@ =~= Seq::<Sample>::empty());
        r
    }
}

/// Positions as mathematical integers.
pub open spec fn positions(order: Seq<usize>) -> Seq<int> {
    Seq::new(order.len(), |i: int| order[i] as int)
}

/// A series in step order is its own sorted form.
proof fn lemma_sorted_stays(s: Seq<Sample>)
    requires
        in_step_order(s),
    ensures
        sorted_by_step(s, s),
{
    let order = Seq::new(s.len(), |i: int| i);
    assert(s =~= order.map_values(|k: int| s[k]));
    assert(sorted_along(s, s, order));
}

/// The sorted form is in step order.
proof fn lemma_sorted_order(s: Seq<Sample>, t: Seq<Sample>)
    requires
        sorted_by_step(s, t),
    ensures
        in_step_order(t),
        t.len() == s.len(),
{
    let order = choose|order: Seq<int>| #[trigger] sorted_along(s, t, order);
    assert forall|i: int, j: int| 0 <= i < j < t.len() implies t[i].step <= t[j].step by {
        assert(before(s, order[i], order[j]));
    }
}

/// The positions `lo..hi`, each before the ones behind it.
fn sort_range(s: &Series, lo: usize, hi: usize) -> (r: Vec<usize>)
    requires
        s.wf(),
        lo <= hi <= s@.len(),
    ensures
        r@.len() == hi - lo,
        listed(s@, positions(r@)),
        forall|i: int| 0 <= i < r@.len() ==> lo <= #[trigger] r@[i] < hi,
    decreases hi - lo,
{
    let mut out: Vec<usize> = Vec::new();
    if hi - lo == 0 {
        return out;
    }
    if hi - lo == 1 {
        out.push(lo);
        return out;
    }
    let mid: usize = lo + (hi - lo) / 2;
    let a: Vec<usize> = sort_range(s, lo, mid);
    let b: Vec<usize> = sort_range(s, mid, hi);
    merge(s, &a, &b, mid)
}

/// Merge two lists of positions, of which the first stays below `mid` and the
/// second does not.
fn merge(s: &Series, a: &Vec<usize>, b: &Vec<usize>, mid: usize) -> (r: Vec<usize>)
    requires
        s.wf(),
        listed(s@, positions(a@)),
        listed(s@, positions(b@)),
        forall|i: int| 0 <= i < a@.len() ==> #[trigger] a@[i] < mid,
        forall|i: int| 0 <= i < b@.len() ==> mid <= #[trigger] b@[i],
        a@.len() + b@.len() <= s@.len(),
    ensures
        r@.len() == a@.len() + b@.len(),
        listed(s@, positions(r@)),
        forall|i: int|
            0 <= i < r@.len() ==> a@.contains(#[trigger] r@[i]) || b@.contains(r@[i]),
{
    let mut out: Vec<usize> = Vec::new();
    let mut i: usize = 0;
    let mut j: usize = 0;
    while i < a.len() || j < b.len()
        invariant
            s.wf(),
            listed(s@, positions(a@)),
            listed(s@, positions(b@)),
            forall|k: int| 0 <= k < a@.len() ==> #[trigger] a@[k] < mid,
            forall|k: int| 0 <= k < b@.len() ==> mid <= #[trigger] b@[k],
            a@.len() + b@.len() <= s@.len(),
            i <= a@.len(),
            j <= b@.len(),
            out@.len() == i + j,
            listed(s@, positions(out@)),
            forall|k: int|
                0 <= k < out@.len() ==> a@.contains(#[trigger] out@[k]) || b@.contains(out@[k]),
            forall|k: int, q: int|
                0 <= k < out@.len() && i <= q < a@.len() ==> before(
                    s@,
                    #[trigger] out@[k] as int,
                    #[trigger] a@[q] as int,
                ),
            forall|k: int, q: int|
                0 <= k < out@.len() && j <= q < b@.len() ==> before(
                    s@,
                    #[trigger] out@[k] as int,
                    #[trigger] b@[q] as int,
                ),
        decreases a.len() + b.len() - i - j,
    {
        let ghost was = out@;
        assert(i < a@.len() ==> positions(a@)[i as int] == a@[i as int]);
        assert(j < b@.len() ==> positions(b@)[j as int] == b@[j as int]);
        let left: bool = j == b.len() || (i < a.len() && s.steps[a[i]] <= s.steps[b[j]]);
        let x: usize = if left {
            a[i]
        } else {
            b[j]
        };
        out.push(x);
        proof {
            lemma_merge_step(s@, a@, b@, i as int, j as int, left, mid as int);
            assert(a@.contains(x) || b@.contains(x));
            let p = positions(out@);
            assert forall|u: int, v: int| 0 <= u < v < p.len() implies before(
                s@,
                #[trigger] p[u],
                #[trigger] p[v],
            ) by {
                if v < was.len() {
                    assert(positions(was)[u] == p[u] && positions(was)[v] == p[v]);
                } else {
                    assert(before(s@, was[u] as int, x as int));
                }
            }
            assert forall|u: int| 0 <= u < p.len() implies 0 <= #[trigger] p[u] < s@.len() by {
                if u < was.len() {
                    assert(positions(was)[u] == p[u]);
                }
            }
        }
        if left {
            i = i + 1;
        } else {
            j = j + 1;
        }
    }
    out
}

/// The position that a merge takes next comes before all that are left.
proof fn lemma_merge_step(
    s: Seq<Sample>,
    a: Seq<usize>,
    b: Seq<usize>,
    i: int,
    j: int,
    left: bool,
    mid: int,
)
    requires
        listed(s, positions(a)),
        listed(s, positions(b)),
        forall|k: int| 0 <= k < a.len() ==> #[trigger] a[k] < mid,
        forall|k: int| 0 <= k < b.len() ==> mid <= #[trigger] b[k],
        0 <= i <= a.len(),
        0 <= j <= b.len(),
        i < a.len() || j < b.len(),
        left == (j == b.len() || (i < a.len() && s[a[i] as int].step <= s[b[j] as int].step)),
    ensures
        left ==> {
            &&& i < a.len()
            &&& forall|q: int| i < q < a.len() ==> before(s, a[i] as int, #[trigger] a[q] as int)
            &&& forall|q: int| j <= q < b.len() ==> before(s, a[i] as int, #[trigger] b[q] as int)
        },
        !left ==> {
            &&& j < b.len()
            &&& forall|q: int| i <= q < a.len() ==> before(s, b[j] as int, #[trigger] a[q] as int)
            &&& forall|q: int| j < q < b.len() ==> before(s, b[j] as int, #[trigger] b[q] as int)
        },
{
    let pa = positions(a);
    let pb = positions(b);
    assert forall|p: int, q: int| 0 <= p < q < a.len() implies before(
        s,
        #[trigger] a[p] as int,
        #[trigger] a[q] as int,
    ) by {
        assert(before(s, pa[p], pa[q]));
    }
    assert forall|p: int, q: int| 0 <= p < q < b.len() implies before(
        s,
        #[trigger] b[p] as int,
        #[trigger] b[q] as int,
    ) by {
        assert(before(s, pb[p], pb[q]));
    }
    if left {
        assert forall|q: int| j <= q < b.len() implies before(
            s,
            a[i] as int,
            #[trigger] b[q] as int,
        ) by {
            if q > j {
                assert(before(s, b[j] as int, b[q] as int));
            }
        }
    } else {
        assert forall|q: int| i <= q < a.len() implies before(
            s,
            b[j] as int,
            #[trigger] a[q] as int,
        ) by {
            if q > i {
                assert(before(s, a[i] as int, a[q] as int));
            }
        }
    }
}

// ---------------------------------------------------------------------------
// Laws
// ---------------------------------------------------------------------------
/// Sorting loses no point and doubles none: every point of the series stands
/// at exactly one place of the sorted form.
pub proof fn law_sort_keeps_every_point(s: Seq<Sample>, t: Seq<Sample>, order: Seq<int>)
    requires
        sorted_along(s, t, order),
    ensures
        t.len() == s.len(),
        order.no_duplicates(),
        forall|k: int| 0 <= k < s.len() ==> #[trigger] order.contains(k),
{
    let n = s.len() as int;
    assert forall|i: int, j: int|
        0 <= i < order.len() && 0 <= j < order.len() && i != j implies order[i] != order[j] by {
        if i < j {
            assert(before(s, order[i], order[j]));
        } else {
            assert(before(s, order[j], order[i]));
        }
    }
    order.unique_seq_to_set();
    let all = vstd::set_lib::set_int_range(0, n);
    vstd::set_lib::lemma_int_range(0, n);
    assert(order.to_set().subset_of(all)) by {
        assert forall|k: int| order.to_set().contains(k) implies all.contains(k) by {
            let i = choose|i: int| 0 <= i < order.len() && order[i] == k;
            assert(0 <= order[i] < s.len());
        }
    }
    vstd::set_lib::lemma_subset_equality(order.to_set(), all);
    assert forall|k: int| 0 <= k < s.len() implies #[trigger] order.contains(k) by {
        assert(all.contains(k));
        assert(order.to_set().contains(k));
    }
}

/// There is one sorted form of a series.
pub proof fn law_sort_is_unique(s: Seq<Sample>, t: Seq<Sample>, u: Seq<Sample>)
    requires
        sorted_by_step(s, t),
        sorted_by_step(s, u),
    ensures
        t == u,
{
    let a = choose|order: Seq<int>| #[trigger] sorted_along(s, t, order);
    let b = choose|order: Seq<int>| #[trigger] sorted_along(s, u, order);
    law_sort_keeps_every_point(s, t, a);
    law_sort_keeps_every_point(s, u, b);
    lemma_same_order(s, a, b, a.len() as int);
    assert(a =~= b);
}

proof fn lemma_same_order(s: Seq<Sample>, a: Seq<int>, b: Seq<int>, n: int)
    requires
        listed(s, a),
        listed(s, b),
        a.len() == s.len(),
        b.len() == s.len(),
        forall|k: int| 0 <= k < s.len() ==> #[trigger] a.contains(k),
        forall|k: int| 0 <= k < s.len() ==> #[trigger] b.contains(k),
        0 <= n <= a.len(),
    ensures
        forall|i: int| 0 <= i < n ==> a[i] == b[i],
    decreases n,
{
    if n > 0 {
        lemma_same_order(s, a, b, n - 1);
        let m = n - 1;
        assert(b.contains(a[m]));
        assert(a.contains(b[m]));
        let p = choose|p: int| 0 <= p < b.len() && b[p] == a[m];
        let q = choose|q: int| 0 <= q < a.len() && a[q] == b[m];
        if p < m {
            assert(a[p] == b[p]);
            assert(before(s, a[p], a[m]));
        }
        if q < m {
            assert(a[q] == b[q]);
            assert(before(s, b[q], b[m]));
        }
        if p > m && q > m {
            assert(before(s, b[m], b[p]));
            assert(before(s, a[m], a[q]));
        }
    }
}

/// A sorted series is in step order, and sorting it again changes nothing.
pub proof fn law_sorted_stays_sorted(s: Seq<Sample>, t: Seq<Sample>)
    requires
        sorted_by_step(s, t),
    ensures
        in_step_order(t),
        sorted_by_step(t, t),
{
    lemma_sorted_order(s, t);
    lemma_sorted_stays(t);
}

/// Following a run that appends: sorting, appending and sorting again gives
/// what sorting all of it gives.
pub proof fn law_sort_in_instalments(
    a: Seq<Sample>,
    sa: Seq<Sample>,
    b: Seq<Sample>,
    t: Seq<Sample>,
)
    requires
        sorted_by_step(a, sa),
        sorted_by_step(sa + b, t),
    ensures
        sorted_by_step(a + b, t),
{
    let p = choose|order: Seq<int>| #[trigger] sorted_along(a, sa, order);
    let q = choose|order: Seq<int>| #[trigger] sorted_along(sa + b, t, order);
    let n = a.len() as int;
    let from = |k: int|
        if k < n {
            p[k]
        } else {
            k
        };
    let order = q.map_values(from);
    let s = a + b;
    let m = sa + b;
    assert forall|k: int| 0 <= k < m.len() implies m[k] == s[#[trigger] from(k)] && 0 <= from(k)
        < s.len() by {
        if k < n {
            assert(0 <= p[k] < a.len());
        }
    }
    assert forall|i: int| 0 <= i < order.len() implies 0 <= #[trigger] order[i] < s.len() by {
        assert(order[i] == from(q[i]));
    }
    assert forall|i: int, j: int| 0 <= i < j < order.len() implies before(
        s,
        #[trigger] order[i],
        #[trigger] order[j],
    ) by {
        assert(order[i] == from(q[i]) && order[j] == from(q[j]));
        assert(before(m, q[i], q[j]));
        if q[i] < n && q[j] < n && q[i] < q[j] {
            assert(before(a, p[q[i]], p[q[j]]));
        }
    }
    assert(t =~= order.map_values(|k: int| s[k]));
    assert(sorted_along(s, t, order));
}

// ---------------------------------------------------------------------------
// Thinning
// ---------------------------------------------------------------------------
/// Every other point, the first one among them; as many more points are passed
/// over from now on.
pub open spec fn halved(h: Held) -> Held {
    let n = h.points.len() as int;
    Held {
        points: Seq::new(((n + 1) / 2) as nat, |i: int| h.points[2 * i]),
        stride: 2 * h.stride,
        skip: if n % 2 == 0 {
            h.skip
        } else {
            h.skip + h.stride
        },
    }
}

/// The series halved until it has no more than `cap` points. Where `cap` is 0,
/// every point is kept.
pub open spec fn thinned(h: Held, cap: int) -> Held
    decreases h.points.len(),
{
    if cap <= 0 || h.points.len() <= cap || 2 * h.stride > u64::MAX {
        h
    } else {
        thinned(halved(h), cap)
    }
}

/// The points of `h` are those of `all` at every `stride`-th place, and the
/// next one will be.
pub open spec fn evenly(h: Held, all: Seq<Sample>) -> bool {
    &&& 0 <= h.skip < h.stride
    &&& h.points.len() * h.stride == all.len() + h.skip
    &&& forall|i: int|
        0 <= i < h.points.len() ==> #[trigger] h.points[i] == all[i * h.stride]
}

impl Series {
    /// Keep every other point.
    fn halve(&mut self)
        requires
            old(self).wf(),
            2 * old(self).stride <= u64::MAX,
        ensures
            final(self).wf(),
            final(self).held() == halved(old(self).held()),
    {
        let n: usize = self.steps.len();
        let mut steps: Vec<i64> = Vec::new();
        let mut walls: Vec<u64> = Vec::new();
        let mut vals: Vec<Scalar> = Vec::new();
        let mut i: usize = 0;
        while i < n
            invariant
                self.wf(),
                n == self@.len(),
                2 * steps@.len() == i || (2 * steps@.len() == i + 1 && i == n),
                i <= n,
                walls@.len() == steps@.len(),
                vals@.len() == steps@.len(),
                forall|k: int|
                    0 <= k < steps@.len() ==> 2 * k < n && self@[2 * k] == (Sample {
                        step: #[trigger] steps@[k],
                        wall: walls@[k],
                        val: vals@[k],
                    }),
            decreases n - i,
        {
            steps.push(self.steps[i]);
            walls.push(self.walls[i]);
            vals.push(self.vals[i]);
            i = if n - i > 1 {
                i + 2
            } else {
                n
            };
        }
        self.steps = steps;
        self.walls = walls;
        self.vals = vals;
        if n % 2 == 1 {
            self.skip = self.skip + self.stride;
        }
        self.stride = 2 * self.stride;
        assert(self@ =~= halved(old(self).held()).points);
        assert(!self.unsorted ==> in_step_order(self@));
    }

    /// Thin out a series that has more than `cap` points.
    pub fn thin(&mut self, cap: usize)
        requires
            old(self).wf(),
        ensures
            final(self).wf(),
            final(self).held() == thinned(old(self).held(), cap as int),
    {
        while cap > 0 && self.steps.len() > cap && self.stride <= 0x7fff_ffff_ffff_ffff
            invariant
                self.wf(),
                thinned(self.held(), cap as int) == thinned(old(self).held(), cap as int),
            decreases self.steps.len(),
        {
            let ghost was = self.held();
            self.halve();
            assert(self.held().points.len() == (was.points.len() + 1) / 2);
        }
    }
}

/// A thinned series is an even subsample of all points that were appended to
/// it, whether it is thinned early or late: one more point, or thinning, keeps
/// it one.
pub proof fn law_subsample_is_even(h: Held, all: Seq<Sample>, x: Sample, cap: int)
    requires
        evenly(h, all),
    ensures
        evenly(nothing(), seq![]),
        evenly(pushed(h, x), all.push(x)),
        evenly(thinned(h, cap), all),
{
    let n = h.points.len() as int;
    let p = pushed(h, x);
    assert forall|i: int| 0 <= i < p.points.len() implies #[trigger] p.points[i] == all.push(
        x,
    )[i * p.stride] by {
        if i < n {
            assert(h.points[i] == all[i * h.stride]);
            assert(i * h.stride <= n * h.stride - h.stride) by (nonlinear_arith)
                requires
                    0 <= i < n,
                    h.stride > 0,
            ;
            assert(0 <= i * h.stride) by (nonlinear_arith)
                requires
                    0 <= i,
                    h.stride > 0,
            ;
        }
    }
    assert((n + 1) * h.stride == n * h.stride + h.stride) by (nonlinear_arith);
    lemma_thinned_even(h, all, cap);
}

proof fn lemma_thinned_even(h: Held, all: Seq<Sample>, cap: int)
    requires
        evenly(h, all),
    ensures
        evenly(thinned(h, cap), all),
    decreases h.points.len(),
{
    if cap > 0 && h.points.len() > cap && 2 * h.stride <= u64::MAX {
        let g = halved(h);
        let n = h.points.len() as int;
        assert forall|i: int| 0 <= i < g.points.len() implies #[trigger] g.points[i] == all[i
            * g.stride] by {
            assert(h.points[2 * i] == all[(2 * i) * h.stride]);
            assert((2 * i) * h.stride == i * (2 * h.stride)) by (nonlinear_arith);
        }
        let m = (n + 1) / 2;
        assert(m * (2 * h.stride) == (2 * m) * h.stride) by (nonlinear_arith);
        assert((n + 1) * h.stride == n * h.stride + h.stride) by (nonlinear_arith);
        lemma_thinned_even(g, all, cap);
    }
}

/// A thinned series has no more than `cap` points, and no fewer than half of
/// them if it had to be thinned. No series is so long that its stride cannot
/// be told.
pub proof fn law_thinned_fits(h: Held, cap: int)
    requires
        cap > 0,
        h.stride > 0,
        h.stride * (h.points.len() - 1) <= u64::MAX / 2,
    ensures
        thinned(h, cap).points.len() <= cap,
        h.points.len() > cap ==> 2 * thinned(h, cap).points.len() > cap,
    decreases h.points.len(),
{
    let n = h.points.len() as int;
    if n > cap {
        assert(h.stride <= h.stride * (n - 1)) by (nonlinear_arith)
            requires
                n >= 2,
                h.stride > 0,
        ;
        let g = halved(h);
        let m = g.points.len() as int;
        assert(2 * h.stride * (m - 1) <= h.stride * (n - 1)) by (nonlinear_arith)
            requires
                m == (n + 1) / 2,
                h.stride > 0,
        ;
        law_thinned_fits(g, cap);
    }
}

/// Without a cap every point is kept: a series that was never thinned holds
/// all points that were appended to it.
pub proof fn law_no_cap_keeps_every_point(h: Held, all: Seq<Sample>)
    requires
        evenly(h, all),
        h.stride == 1,
    ensures
        thinned(h, 0) == h,
        h.points == all,
{
    assert forall|i: int| 0 <= i < all.len() implies h.points[i] == all[i] by {
        assert(h.points[i] == all[i * h.stride]);
    }
    assert(h.points =~= all);
}

/// Thinning keeps the order of the steps.
pub proof fn law_thinned_in_step_order(h: Held, cap: int)
    requires
        in_step_order(h.points),
    ensures
        in_step_order(thinned(h, cap).points),
    decreases h.points.len(),
{
    if cap > 0 && h.points.len() > cap && 2 * h.stride <= u64::MAX {
        law_thinned_in_step_order(halved(h), cap);
    }
}

} // verus!
