//! Reducing a sorted series to one bucket of points for each column.
use vstd::prelude::*;

verus! {

/// `p` says what the predicate answers for the positions below `len`.
pub open spec fn answers<F: Fn(usize) -> bool>(pred: F, p: spec_fn(int) -> bool, len: int) -> bool {
    forall|i: usize, b: bool| i < len && call_ensures(pred, (i,), b) ==> b == p(i as int)
}

/// Once the predicate fails it keeps failing.
pub open spec fn falling(p: spec_fn(int) -> bool, len: int) -> bool {
    forall|i: int, j: int| 0 <= i <= j < len && #[trigger] p(j) ==> #[trigger] p(i)
}

/// How many of the first `len` positions satisfy a predicate that, once it
/// fails, keeps failing.
pub fn partition_point<F: Fn(usize) -> bool>(len: usize, pred: F) -> (r: usize)
    requires
        forall|i: usize| i < len ==> call_requires(pred, (i,)),
    ensures
        r <= len,
        r > 0 ==> call_ensures(pred, ((r - 1) as usize,), true),
        r < len ==> call_ensures(pred, (r,), false),
        forall|p: spec_fn(int) -> bool|
            #![trigger answers(pred, p, len as int)]
            answers(pred, p, len as int) && falling(p, len as int) ==> forall|i: int|
                0 <= i < len ==> (#[trigger] p(i) <==> i < r),
{
    let mut lo: usize = 0;
    let mut hi: usize = len;
    while lo < hi
        invariant
            lo <= hi <= len,
            forall|i: usize| i < len ==> call_requires(pred, (i,)),
            lo > 0 ==> call_ensures(pred, ((lo - 1) as usize,), true),
            hi < len ==> call_ensures(pred, (hi,), false),
        decreases hi - lo,
    {
        let mid: usize = lo + (hi - lo) / 2;
        if pred(mid) {
            lo = mid + 1;
        } else {
            hi = mid;
        }
    }
    proof {
        assert forall|p: spec_fn(int) -> bool|
            #![trigger answers(pred, p, len as int)]
            answers(pred, p, len as int) && falling(p, len as int) implies forall|i: int|
            0 <= i < len ==> (#[trigger] p(i) <==> i < lo) by {
            assert(lo > 0 ==> p(lo - 1));
            assert(lo < len ==> !p(lo as int));
        }
    }
    lo
}

/// The points of one column: positions from `start` up to `end`.
#[derive(Clone, Copy, PartialEq, Eq, Structural, Debug)]
pub struct Bucket {
    pub col: usize,
    pub start: usize,
    pub end: usize,
}

/// `p` says which positions below `hi` the predicate puts at or before the
/// right edge of which of the columns.
pub open spec fn sorts_out<F: Fn(usize, usize) -> bool>(
    within: F,
    p: spec_fn(int, int) -> bool,
    hi: int,
    ncols: int,
) -> bool {
    forall|i: usize, col: usize, b: bool|
        i < hi && col < ncols && call_ensures(within, (i, col), b) ==> b == p(i as int, col as int)
}

/// The first position from `at` on that is behind the column.
pub open spec fn column_end(p: spec_fn(int, int) -> bool, hi: int, at: int, col: int) -> int
    decreases hi - at,
{
    if at < hi && p(at, col) {
        column_end(p, hi, at + 1, col)
    } else {
        at
    }
}

/// The buckets of the columns from `col` on, which share the positions from
/// `at` on: each column takes what is left up to its right edge, and one that
/// would be empty has no bucket.
pub open spec fn buckets_from(
    p: spec_fn(int, int) -> bool,
    hi: int,
    at: int,
    col: int,
    ncols: int,
) -> Seq<Bucket>
    decreases ncols - col,
{
    if col >= ncols {
        seq![]
    } else {
        let end = column_end(p, hi, at, col);
        let rest = buckets_from(p, hi, end, col + 1, ncols);
        if end > at {
            seq![Bucket { col: col as usize, start: at as usize, end: end as usize }] + rest
        } else {
            rest
        }
    }
}

/// Share the positions from `lo` up to `hi` out among the columns.
/// `within(i, col)` says whether position `i` is at or before the right edge
/// of the column.
pub fn bucket_columns<F: Fn(usize, usize) -> bool>(
    lo: usize,
    hi: usize,
    ncols: usize,
    within: F,
) -> (r: Vec<Bucket>)
    requires
        lo <= hi,
        forall|i: usize, col: usize| i < hi && col < ncols ==> call_requires(within, (i, col)),
    ensures
        forall|p: spec_fn(int, int) -> bool| #[trigger]
            sorts_out(within, p, hi as int, ncols as int) ==> r@ == buckets_from(
                p,
                hi as int,
                lo as int,
                0,
                ncols as int,
            ),
{
    let mut out: Vec<Bucket> = Vec::new();
    let mut prev: usize = lo;
    let mut col: usize = 0;
    proof {
        assert forall|p: spec_fn(int, int) -> bool| #[trigger]
            sorts_out(within, p, hi as int, ncols as int) implies out@ + buckets_from(
            p,
            hi as int,
            lo as int,
            0,
            ncols as int,
        ) == buckets_from(p, hi as int, lo as int, 0, ncols as int) by {
            assert(out@ + buckets_from(p, hi as int, lo as int, 0, ncols as int) =~= buckets_from(
                p,
                hi as int,
                lo as int,
                0,
                ncols as int,
            ));
        }
    }
    while col < ncols
        invariant
            lo <= prev <= hi,
            col <= ncols,
            forall|i: usize, col: usize| i < hi && col < ncols ==> call_requires(within, (i, col)),
            forall|p: spec_fn(int, int) -> bool| #[trigger]
                sorts_out(within, p, hi as int, ncols as int) ==> out@ + buckets_from(
                    p,
                    hi as int,
                    prev as int,
                    col as int,
                    ncols as int,
                ) == buckets_from(p, hi as int, lo as int, 0, ncols as int),
        decreases ncols - col,
    {
        let mut nxt: usize = prev;
        let mut inside: bool = true;
        while inside && nxt < hi
            invariant
                lo <= prev <= nxt <= hi,
                col < ncols,
                forall|i: usize, col: usize|
                    i < hi && col < ncols ==> call_requires(within, (i, col)),
                forall|p: spec_fn(int, int) -> bool| #[trigger]
                    sorts_out(within, p, hi as int, ncols as int) ==> column_end(
                        p,
                        hi as int,
                        prev as int,
                        col as int,
                    ) == if inside {
                        column_end(p, hi as int, nxt as int, col as int)
                    } else {
                        nxt as int
                    },
            decreases hi - nxt, inside as int,
        {
            if within(nxt, col) {
                nxt = nxt + 1;
            } else {
                inside = false;
            }
        }
        let ghost before = out@;
        if nxt > prev {
            out.push(Bucket { col, start: prev, end: nxt });
        }
        proof {
            assert forall|p: spec_fn(int, int) -> bool| #[trigger]
                sorts_out(within, p, hi as int, ncols as int) implies out@ + buckets_from(
                p,
                hi as int,
                nxt as int,
                col + 1,
                ncols as int,
            ) == buckets_from(p, hi as int, lo as int, 0, ncols as int) by {
                let rest = buckets_from(p, hi as int, nxt as int, col + 1, ncols as int);
                assert(column_end(p, hi as int, prev as int, col as int) == nxt);
                if nxt > prev {
                    let b = Bucket { col, start: prev, end: nxt };
                    assert(before + (seq![b] + rest) =~= out@ + rest);
                }
            }
        }
        prev = nxt;
        col = col + 1;
    }
    proof {
        assert forall|p: spec_fn(int, int) -> bool| #[trigger]
            sorts_out(within, p, hi as int, ncols as int) implies out@ == buckets_from(
            p,
            hi as int,
            lo as int,
            0,
            ncols as int,
        ) by {
            assert(out@ + buckets_from(p, hi as int, prev as int, col as int, ncols as int)
                =~= out@);
        }
    }
    out
}

/// The buckets of a view: all points in one bucket in the middle where the
/// view has no width, else shared out among the columns.
pub open spec fn view_buckets(
    lo: int,
    hi: int,
    flat: bool,
    ncols: int,
    p: spec_fn(int, int) -> bool,
) -> Seq<Bucket> {
    if hi <= lo || ncols == 0 {
        seq![]
    } else if flat {
        seq![Bucket { col: (ncols / 2) as usize, start: lo as usize, end: hi as usize }]
    } else {
        buckets_from(p, hi, lo, 0, ncols)
    }
}

/// What is at or before the right edge of a column is so for the positions
/// before it and for the columns behind it.
pub open spec fn steady(p: spec_fn(int, int) -> bool, hi: int, ncols: int) -> bool {
    forall|i: int, j: int, c: int, d: int|
        0 <= i <= j < hi && 0 <= c <= d < ncols && #[trigger] p(j, c) ==> #[trigger] p(i, d)
}

/// The column is the first one at or before whose right edge the position is.
pub open spec fn belongs(col: int, i: int, ncols: int, p: spec_fn(int, int) -> bool) -> bool {
    &&& 0 <= col < ncols
    &&& p(i, col)
    &&& col > 0 ==> !p(i, col - 1)
}

/// The position is in one of the buckets.
pub open spec fn in_some(bs: Seq<Bucket>, i: int) -> bool {
    exists|k: int| 0 <= k < bs.len() && (#[trigger] bs[k]).start <= i < bs[k].end
}

/// Every position from `lo` up to `hi` that is at or before the last right edge
/// is in one bucket, and in no other: that of the first column at or before
/// whose right edge it is.
pub open spec fn each_in_its_column(
    bs: Seq<Bucket>,
    lo: int,
    hi: int,
    ncols: int,
    p: spec_fn(int, int) -> bool,
) -> bool {
    &&& forall|k: int, i: int|
        0 <= k < bs.len() && bs[k].start <= i < bs[k].end ==> #[trigger] belongs(
            bs[k].col as int,
            i,
            ncols,
            p,
        )
    &&& forall|i: int|
        lo <= i < hi && 0 < ncols && p(i, ncols - 1) ==> #[trigger] in_some(bs, i)
    &&& forall|k: int, m: int|
        0 <= k < m < bs.len() ==> (#[trigger] bs[k]).end <= (#[trigger] bs[m]).start && bs[k].col
            < bs[m].col
    &&& forall|k: int| 0 <= k < bs.len() ==> lo <= (#[trigger] bs[k]).start < bs[k].end <= hi
}

/// The buckets of a sorted series in a view. `left(i)` says whether point `i`
/// is left of the view, `seen(i)` whether it is in it or left of it, and
/// `within(i, col)` whether it is at or before the right edge of the column;
/// `flat` says that the view has no width.
pub fn bucketize<A: Fn(usize) -> bool, B: Fn(usize) -> bool, C: Fn(usize, usize) -> bool>(
    len: usize,
    ncols: usize,
    flat: bool,
    left: A,
    seen: B,
    within: C,
) -> (r: Vec<Bucket>)
    requires
        forall|i: usize| i < len ==> call_requires(left, (i,)),
        forall|i: usize| i < len ==> call_requires(seen, (i,)),
        forall|i: usize, col: usize| i < len && col < ncols ==> call_requires(within, (i, col)),
    ensures
        forall|
            lo: int,
            hi: int,
            a: spec_fn(int) -> bool,
            b: spec_fn(int) -> bool,
            c: spec_fn(int, int) -> bool,
        |
            #![trigger
                counts(left, a, len as int, lo),
                counts(seen, b, len as int, hi),
                sorts_out(within, c, len as int, ncols as int)]
            counts(left, a, len as int, lo) && counts(seen, b, len as int, hi) && sorts_out(
                within,
                c,
                len as int,
                ncols as int,
            ) ==> {
                &&& r@ == view_buckets(lo, hi, flat, ncols as int, c)
                &&& !flat && steady(c, hi, ncols as int) ==> each_in_its_column(
                    r@,
                    lo,
                    hi,
                    ncols as int,
                    c,
                )
                &&& flat && lo < hi && ncols > 0 ==> r@.len() == 1 && r@[0].start == lo && r@[0].end
                    == hi && 2 * r@[0].col <= ncols < 2 * r@[0].col + 2
            },
{
    if len == 0 || ncols == 0 {
        return Vec::new();
    }
    let lo: usize = partition_point(len, left);
    let hi: usize = partition_point(len, seen);
    proof {
        assert forall|a: spec_fn(int) -> bool, n: int| #[trigger]
            counts(left, a, len as int, n) implies n == lo by {
            lemma_count(a, len as int, lo as int, n);
        }
        assert forall|b: spec_fn(int) -> bool, n: int| #[trigger]
            counts(seen, b, len as int, n) implies n == hi by {
            lemma_count(b, len as int, hi as int, n);
        }
        assert forall|c: spec_fn(int, int) -> bool| #[trigger]
            sorts_out(within, c, len as int, ncols as int) implies sorts_out(
            within,
            c,
            hi as int,
            ncols as int,
        ) && (!flat && steady(c, hi as int, ncols as int) ==> each_in_its_column(
            view_buckets(lo as int, hi as int, flat, ncols as int, c),
            lo as int,
            hi as int,
            ncols as int,
            c,
        )) by {
            if !flat && steady(c, hi as int, ncols as int) {
                law_points_stand_in_their_columns(lo as int, hi as int, ncols as int, c);
            }
        }
    }
    if hi <= lo {
        return Vec::new();
    }
    let mut out: Vec<Bucket> = Vec::new();
    if flat {
        out.push(Bucket { col: ncols / 2, start: lo, end: hi });
        return out;
    }
    bucket_columns(lo, hi, ncols, within)
}

/// The predicate answers as `p` says, and holds of the first `n` positions.
pub open spec fn counts<F: Fn(usize) -> bool>(
    pred: F,
    p: spec_fn(int) -> bool,
    len: int,
    n: int,
) -> bool {
    &&& answers(pred, p, len)
    &&& 0 <= n <= len
    &&& forall|i: int| 0 <= i < len ==> (#[trigger] p(i) <==> i < n)
}

proof fn lemma_count(p: spec_fn(int) -> bool, len: int, m: int, n: int)
    requires
        0 <= m <= len,
        0 <= n <= len,
        forall|i: int| 0 <= i < len ==> (#[trigger] p(i) <==> i < n),
        falling(p, len) ==> forall|i: int| 0 <= i < len ==> (#[trigger] p(i) <==> i < m),
    ensures
        m == n,
{
    assert(falling(p, len));
    if m < n {
        assert(p(m));
    } else if n < m {
        assert(p(n));
    }
}

// ---------------------------------------------------------------------------
// Laws
// ---------------------------------------------------------------------------
proof fn lemma_column_end(p: spec_fn(int, int) -> bool, hi: int, at: int, col: int)
    requires
        at <= hi,
    ensures
        at <= column_end(p, hi, at, col) <= hi,
        forall|i: int| at <= i < column_end(p, hi, at, col) ==> #[trigger] p(i, col),
        column_end(p, hi, at, col) < hi ==> !p(column_end(p, hi, at, col), col),
    decreases hi - at,
{
    if at < hi && p(at, col) {
        lemma_column_end(p, hi, at + 1, col);
    }
}

/// There is at most one bucket for each column, none is empty, and they share
/// the positions out without gaps: the first starts where the view starts,
/// and each starts where the one before it ends.
pub proof fn law_buckets_are_consecutive(
    p: spec_fn(int, int) -> bool,
    hi: int,
    at: int,
    col: int,
    ncols: int,
)
    requires
        0 <= at <= hi <= usize::MAX,
        0 <= col,
        ncols <= usize::MAX,
    ensures
        ({
            let bs = buckets_from(p, hi, at, col, ncols);
            &&& bs.len() > 0 ==> bs[0].start == at
            &&& forall|i: int|
                0 <= i < bs.len() ==> col <= (#[trigger] bs[i]).col < ncols && at <= bs[i].start
                    < bs[i].end <= hi
            &&& forall|i: int, j: int|
                0 <= i && j == i + 1 && j < bs.len() ==> (#[trigger] bs[i]).col < (
                #[trigger] bs[j]).col && bs[i].end == bs[j].start
        }),
    decreases ncols - col,
{
    if col < ncols {
        let end = column_end(p, hi, at, col);
        lemma_column_end(p, hi, at, col);
        law_buckets_are_consecutive(p, hi, end, col + 1, ncols);
        let rest = buckets_from(p, hi, end, col + 1, ncols);
        let bs = buckets_from(p, hi, at, col, ncols);
        if end > at {
            assert forall|i: int| 0 <= i < bs.len() implies col <= (#[trigger] bs[i]).col < ncols
                && at <= bs[i].start < bs[i].end <= hi by {
                if i > 0 {
                    assert(bs[i] == rest[i - 1]);
                }
            }
            assert forall|i: int, j: int| 0 <= i && j == i + 1 && j < bs.len() implies (
            #[trigger] bs[i]).col < (#[trigger] bs[j]).col && bs[i].end == bs[j].start by {
                assert(bs[j] == rest[i]);
                if i > 0 {
                    assert(bs[i] == rest[i - 1]);
                } else {
                    assert(rest[0].col >= col + 1);
                }
            }
        }
    }
}

/// Every position is in some bucket, where the last column takes all that is
/// left.
pub proof fn law_buckets_cover_the_view(
    p: spec_fn(int, int) -> bool,
    hi: int,
    at: int,
    col: int,
    ncols: int,
)
    requires
        0 <= at < hi <= usize::MAX,
        0 <= col < ncols <= usize::MAX,
        forall|i: int| at <= i < hi ==> #[trigger] p(i, ncols - 1),
    ensures
        buckets_from(p, hi, at, col, ncols).len() > 0,
        buckets_from(p, hi, at, col, ncols).last().end == hi,
    decreases ncols - col,
{
    let end = column_end(p, hi, at, col);
    lemma_column_end(p, hi, at, col);
    let rest = buckets_from(p, hi, end, col + 1, ncols);
    let bs = buckets_from(p, hi, at, col, ncols);
    if col + 1 < ncols && end < hi {
        law_buckets_cover_the_view(p, hi, end, col + 1, ncols);
        assert(bs.last() == rest.last());
    } else {
        if end < hi {
            assert(p(end, ncols - 1));
        }
        lemma_no_buckets(p, hi, col + 1, ncols);
        assert(bs.last() == bs[0]);
    }
}

/// Where no position is left there are no more buckets.
proof fn lemma_no_buckets(p: spec_fn(int, int) -> bool, hi: int, col: int, ncols: int)
    ensures
        buckets_from(p, hi, hi, col, ncols).len() == 0,
    decreases ncols - col,
{
    if col < ncols {
        lemma_no_buckets(p, hi, col + 1, ncols);
    }
}


/// The buckets of the columns from `col` on, where the position at `at` is
/// behind the column before.
proof fn lemma_in_columns(p: spec_fn(int, int) -> bool, hi: int, at: int, col: int, ncols: int)
    requires
        0 <= at <= hi <= usize::MAX,
        0 <= col <= ncols <= usize::MAX,
        steady(p, hi, ncols),
        at < hi && col > 0 ==> !p(at, col - 1),
    ensures
        each_in_its_column(buckets_from(p, hi, at, col, ncols), at, hi, ncols, p),
        forall|k: int|
            0 <= k < buckets_from(p, hi, at, col, ncols).len() ==> (#[trigger] buckets_from(
                p,
                hi,
                at,
                col,
                ncols,
            )[k]).col >= col && buckets_from(p, hi, at, col, ncols)[k].start >= at,
    decreases ncols - col,
{
    let bs = buckets_from(p, hi, at, col, ncols);
    if col >= ncols {
        if at < hi && 0 < ncols {
            assert forall|i: int|
                at <= i < hi && p(i, ncols - 1) implies #[trigger] in_some(bs, i) by {
                assert(p(at, ncols - 1));
            }
        }
    } else {
        let end = column_end(p, hi, at, col);
        let rest = buckets_from(p, hi, end, col + 1, ncols);
        lemma_column_end(p, hi, at, col);
        lemma_in_columns(p, hi, end, col + 1, ncols);
        let d: int = if end > at {
            1
        } else {
            0
        };
        assert(bs.len() == rest.len() + d);
        assert forall|k: int| d <= k < bs.len() implies #[trigger] bs[k] == rest[k - d] by {}
        assert forall|k: int, i: int|
            0 <= k < bs.len() && bs[k].start <= i < bs[k].end implies #[trigger] belongs(
            bs[k].col as int,
            i,
            ncols,
            p,
        ) by {
            if k >= d {
                assert(bs[k] == rest[k - d]);
                assert(belongs(rest[k - d].col as int, i, ncols, p));
            } else {
                assert(p(i, col));
                if col > 0 && p(i, col - 1) {
                    assert(p(at, col - 1));
                }
            }
        }
        assert forall|i: int|
            at <= i < hi && 0 < ncols && p(i, ncols - 1) implies #[trigger] in_some(bs, i) by {
            if i < end {
                assert(bs[0].start <= i < bs[0].end);
            } else {
                assert(in_some(rest, i));
                let k = choose|k: int|
                    0 <= k < rest.len() && (#[trigger] rest[k]).start <= i < rest[k].end;
                assert(bs[k + d] == rest[k]);
            }
        }
        assert forall|k: int, m: int| 0 <= k < m < bs.len() implies (#[trigger] bs[k]).end <= (
        #[trigger] bs[m]).start && bs[k].col < bs[m].col by {
            assert(bs[m] == rest[m - d]);
            if k >= d {
                assert(bs[k] == rest[k - d]);
            } else {
                assert(rest[m - d].start >= end);
            }
        }
        assert forall|k: int| 0 <= k < bs.len() implies (#[trigger] bs[k]).col >= col
            && at <= bs[k].start < bs[k].end <= hi by {
            if k >= d {
                assert(bs[k] == rest[k - d]);
            }
        }
    }
}

/// Where the view has width, every visible point is in the bucket of its own
/// column: the first one at or before whose right edge it is.
pub proof fn law_points_stand_in_their_columns(
    lo: int,
    hi: int,
    ncols: int,
    p: spec_fn(int, int) -> bool,
)
    requires
        0 <= lo,
        hi <= usize::MAX,
        0 <= ncols <= usize::MAX,
        steady(p, hi, ncols),
    ensures
        each_in_its_column(view_buckets(lo, hi, false, ncols, p), lo, hi, ncols, p),
{
    if lo < hi && ncols > 0 {
        lemma_in_columns(p, hi, lo, 0, ncols);
    }
}

/// Where the view has no width, all visible points are in one bucket in the
/// middle.
pub proof fn law_flat_view_has_one_bucket(
    lo: int,
    hi: int,
    ncols: int,
    p: spec_fn(int, int) -> bool,
)
    requires
        0 <= lo < hi <= usize::MAX,
        0 < ncols <= usize::MAX,
    ensures
        ({
            let bs = view_buckets(lo, hi, true, ncols, p);
            &&& bs.len() == 1
            &&& bs[0].start == lo
            &&& bs[0].end == hi
            &&& 2 * bs[0].col <= ncols < 2 * bs[0].col + 2
        }),
{
}

} // verus!
