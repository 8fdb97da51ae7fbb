//! The interval stack: canonical change points of the overlap-multiplicity
//! function, together with its covered set and height statistics.
use vstd::prelude::*;

use crate::change_point::{
    height_of, is_canonical, is_strictly_sorted, lemma_height_at_index, lemma_height_cases,
    ChangePoint,
};
use crate::build_acc::{acc_height, acc_ok, covers, StackBuildAcc};
use crate::construction::copy_points;
use crate::covered::{covered_from_change_points, is_covered_set_of};
use crate::height_stats::{height_stats_from_points, max_height_of, stats_match, HeightStats};
use crate::interval::CoInterval;

verus! {

/// A positive-height segment is kept when its height lies in `[min, max]`.
pub open spec fn keeps_height(h: usize, min: int, max: int) -> bool {
    h != 0 && min <= h && h <= max
}

/// The segment between consecutive points `w` and `w + 1`, with the height after `w`.
pub open spec fn segment_at(ps: Seq<ChangePoint<i128>>, w: int) -> ((int, int), usize) {
    ((ps[w].at as int, ps[w + 1].at as int), ps[w].height_after)
}

/// The kept segments among those between consecutive points `0..n`, in order.
pub open spec fn segments_upto(ps: Seq<ChangePoint<i128>>, min: int, max: int, n: int) -> Seq<
    ((int, int), usize),
>
    decreases n,
{
    if n <= 0 {
        Seq::empty()
    } else {
        let rest = segments_upto(ps, min, max, n - 1);
        if keeps_height(ps[n - 1].height_after, min, max) {
            rest.push(segment_at(ps, n - 1))
        } else {
            rest
        }
    }
}

/// The segments of positive height in `[min, max]`, in coordinate order: each is
/// the stretch between two consecutive change points with the height in force
/// there.
pub open spec fn segments_between(ps: Seq<ChangePoint<i128>>, min: int, max: int) -> Seq<
    ((int, int), usize),
> {
    segments_upto(ps, min, max, ps.len() - 1)
}

/// Segments as pairs of mathematical integers.
pub open spec fn view_segments(s: Seq<(CoInterval, usize)>) -> Seq<((int, int), usize)> {
    s.map_values(|p: (CoInterval, usize)| (p.0.view(), p.1))
}

/// The number of intervals of `ivs` that contain `x`.
pub open spec fn count_containing(ivs: Seq<CoInterval>, x: int) -> int
    decreases ivs.len(),
{
    if ivs.len() == 0 {
        0
    } else {
        count_containing(ivs.drop_last(), x) + covers(ivs.last(), x)
    }
}

/// `Vec::len`. A vector of a type that is not zero-sized never occupies more than
/// `isize::MAX` bytes (the standard library documents that growing beyond that
/// panics), so its length is at most `isize::MAX`; that bound is what this
/// wrapper adds to the length.
#[verifier::external_body]
fn points_len(v: &Vec<ChangePoint<i128>>) -> (n: usize)
    ensures
        n == v@.len(),
        n <= isize::MAX,
{
    v.len()
}

/// The number of points at or before `x` (`before_or_at`) or strictly before `x`.
pub fn partition_point(ps: &[ChangePoint<i128>], x: i128, before_or_at: bool) -> (k: usize)
    requires
        is_strictly_sorted(ps@),
    ensures
        k <= ps.len(),
        forall|j: int|
            0 <= j < k ==> (if before_or_at {
                #[trigger] ps@[j].at <= x
            } else {
                ps@[j].at < x
            }),
        forall|j: int|
            k <= j < ps.len() ==> (if before_or_at {
                #[trigger] ps@[j].at > x
            } else {
                ps@[j].at >= x
            }),
{
    let mut lo: usize = 0;
    let mut hi: usize = ps.len();
    while lo < hi
        invariant
            0 <= lo <= hi <= ps.len(),
            is_strictly_sorted(ps@),
            forall|j: int|
                0 <= j < lo ==> (if before_or_at {
                    #[trigger] ps@[j].at <= x
                } else {
                    ps@[j].at < x
                }),
            forall|j: int|
                hi <= j < ps.len() ==> (if before_or_at {
                    #[trigger] ps@[j].at > x
                } else {
                    ps@[j].at >= x
                }),
        decreases hi - lo,
    {
        let mid = lo + (hi - lo) / 2;
        let at = ps[mid].at;
        let left = if before_or_at {
            at <= x
        } else {
            at < x
        };
        if left {
            proof {
                assert forall|j: int| 0 <= j <= mid implies (if before_or_at {
                    #[trigger] ps@[j].at <= x
                } else {
                    ps@[j].at < x
                }) by {
                    if j < mid {
                        assert(ps@[j].at < ps@[mid as int].at);
                    }
                }
            }
            lo = mid + 1;
        } else {
            proof {
                assert forall|j: int| mid <= j < ps.len() implies (if before_or_at {
                    #[trigger] ps@[j].at > x
                } else {
                    ps@[j].at >= x
                }) by {
                    if j > mid {
                        assert(ps@[mid as int].at < ps@[j].at);
                    }
                }
            }
            hi = mid;
        }
    }
    lo
}

/// Inside `[s, e)`, the height is either the one at `s` or that set by a point
/// scanned in `i0..i` (the points after `s` and before `e`).
proof fn lemma_scan_height(sp: Seq<ChangePoint<i128>>, s: int, e: int, i0: int, i: int, x: int)
    requires
        is_strictly_sorted(sp),
        0 <= i0 <= i <= sp.len(),
        forall|j: int| 0 <= j < i0 ==> #[trigger] sp[j].at <= s,
        forall|j: int| i0 <= j < sp.len() ==> #[trigger] sp[j].at > s,
        i < sp.len() ==> sp[i].at >= e,
        s <= x < e,
    ensures
        height_of(sp, x) == height_of(sp, s) || exists|j: int|
            i0 <= j < i && height_of(sp, x) == #[trigger] sp[j].height_after,
{
    lemma_height_at_index(sp, i0, s);
    lemma_height_cases(sp, x);
    if exists|j: int|
        0 <= j < sp.len() && #[trigger] sp[j].at <= x && (j + 1 < sp.len() ==> x < sp[j
            + 1].at) && height_of(sp, x) == sp[j].height_after {
        let j = choose|j: int|
            0 <= j < sp.len() && #[trigger] sp[j].at <= x && (j + 1 < sp.len() ==> x < sp[j
                + 1].at) && height_of(sp, x) == sp[j].height_after;
        if j < i0 {
            if j + 1 < i0 {
                assert(sp[j + 1].at <= s);
            }
            assert(j == i0 - 1);
        } else if j >= i {
            assert(sp[i].at <= sp[j].at);
        } else {
            assert(i0 <= j < i && height_of(sp, x) == sp[j].height_after);
        }
    } else {
        if i0 > 0 {
            assert(sp[0].at <= s);
        }
    }
}

/// A stack of closed-open intervals: for every coordinate, the number of input
/// intervals that contain it, stored as canonical change points.
#[derive(Debug, PartialEq, Eq)]
pub struct IntCOStack {
    change_points: Vec<ChangePoint<i128>>,
    covered: Vec<CoInterval>,
    height_stats: HeightStats,
}

impl IntCOStack {
    #[verifier::type_invariant]
    spec fn inv(self) -> bool {
        &&& is_canonical(self.change_points@)
        &&& self.change_points@.len() <= isize::MAX
        &&& stats_match(self.height_stats, self.change_points@)
        &&& is_covered_set_of(self.change_points@, self.covered@)
    }

    /// The canonical change points.
    pub closed spec fn spec_points(self) -> Seq<ChangePoint<i128>> {
        self.change_points@
    }

    /// The covered set.
    pub closed spec fn spec_covered(self) -> Seq<CoInterval> {
        self.covered@
    }

    /// The largest height.
    pub closed spec fn spec_max_height(self) -> nat {
        self.height_stats.max_height as nat
    }

    /// The stack height at `x`.
    pub open spec fn height(self, x: int) -> int {
        height_of(self.spec_points(), x)
    }

    /// The stack of canonical change points.
    pub fn from_change_points(points: Vec<ChangePoint<i128>>) -> (s: Self)
        requires
            is_canonical(points@),
        ensures
            s.spec_points() == points@,
    {
        // The length bound is part of the stack's invariant; windows rely on it.
        let _len = points_len(&points);
        let covered = covered_from_change_points(points.as_slice());
        let height_stats = height_stats_from_points(points.as_slice());
        IntCOStack { change_points: points, covered, height_stats }
    }

    /// The stack of the given intervals: the height at `x` is the number of them
    /// that contain `x`.
    pub fn from_intervals(intervals: &[CoInterval]) -> (s: Self)
        ensures
            is_canonical(s.spec_points()),
            forall|x: int| #[trigger] s.height(x) == count_containing(intervals@, x),
    {
        let mut acc = StackBuildAcc::new();
        let mut i: usize = 0;
        proof {
            assert(intervals@.take(0) =~= Seq::<CoInterval>::empty());
        }
        while i < intervals.len()
            invariant
                0 <= i <= intervals.len(),
                acc_ok(acc),
                forall|x: int| #[trigger] acc_height(acc, x) == count_containing(
                    intervals@.take(i as int),
                    x,
                ),
                forall|x: int| 0 <= #[trigger] count_containing(intervals@.take(i as int), x) <= i,
            decreases intervals.len() - i,
        {
            let iv = intervals[i];
            proof {
                let t = intervals@.take(i as int + 1);
                assert(t.drop_last() =~= intervals@.take(i as int));
                assert forall|x: int| #[trigger] acc_height(acc, x) + covers(iv, x) <= usize::MAX by {
                    assert(count_containing(intervals@.take(i as int), x) <= i);
                }
            }
            acc.push_interval(iv);
            proof {
                let t = intervals@.take(i as int + 1);
                assert forall|x: int| 0 <= #[trigger] count_containing(t, x) <= i + 1 by {
                    assert(count_containing(intervals@.take(i as int), x) <= i);
                    assert(count_containing(intervals@.take(i as int), x) >= 0);
                }
            }
            i += 1;
        }
        proof {
            assert(intervals@.take(intervals.len() as int) =~= intervals@);
        }
        let points = acc.finish();
        IntCOStack::from_change_points(points)
    }

    /// The canonical change points.
    pub fn change_points(&self) -> (ps: &[ChangePoint<i128>])
        ensures
            ps@ == self.spec_points(),
            is_canonical(ps@),
            ps@.len() <= isize::MAX,
    {
        proof {
            use_type_invariant(self);
        }
        self.change_points.as_slice()
    }

    /// The canonical interval set of all coordinates of positive height.
    pub fn covered(&self) -> (ivs: &[CoInterval])
        ensures
            ivs@ == self.spec_covered(),
            is_covered_set_of(self.spec_points(), ivs@),
    {
        proof {
            use_type_invariant(self);
        }
        self.covered.as_slice()
    }

    /// The height statistics.
    pub fn height_stats(&self) -> (stats: HeightStats)
        ensures
            stats_match(stats, self.spec_points()),
            stats.max_height == self.spec_max_height(),
    {
        proof {
            use_type_invariant(self);
        }
        self.height_stats
    }

    /// Whether no coordinate is covered.
    pub fn is_empty(&self) -> (r: bool)
        ensures
            r == (self.spec_points().len() == 0),
            r <==> forall|x: int| #[trigger] self.height(x) == 0,
    {
        proof {
            use_type_invariant(self);
            let ps = self.change_points@;
            if ps.len() > 0 {
                assert forall|j: int| 1 <= j < ps.len() implies ps[0].at < #[trigger] ps[j].at by {}
                lemma_height_at_index(ps, 1, ps[0].at as int);
                assert(ps[0].height_after != 0);
                assert(self.height(ps[0].at as int) != 0);
            }
        }
        self.change_points.len() == 0
    }

    /// Whether some input interval contains `x`.
    pub fn contains_point(&self, x: i128) -> (r: bool)
        ensures
            r == (self.height(x as int) != 0),
    {
        self.height_at(x) != 0
    }

    /// Whether some coordinate of `query` is covered.
    pub fn intersects_interval(&self, query: CoInterval) -> (r: bool)
        ensures
            r == exists|x: int| #[trigger] query.spec_contains(x) && self.height(x) != 0,
    {
        proof {
            use_type_invariant(self);
        }
        let s = query.start();
        let e = query.end_excl();
        if self.height_at(s) != 0 {
            assert(query.spec_contains(s as int));
            return true;
        }
        let ps = self.change_points.as_slice();
        let ghost sp = self.change_points@;
        let i0 = partition_point(ps, s, true);
        proof {
            lemma_height_at_index(sp, i0 as int, s as int);
        }
        let mut i = i0;
        while i < ps.len() && ps[i].at < e
            invariant
                i0 <= i <= ps@.len(),
                ps@ == sp,
                sp == self.spec_points(),
                is_strictly_sorted(sp),
                s == query.view().0,
                e == query.view().1,
                forall|j: int| i0 <= j < i ==> #[trigger] sp[j].height_after == 0,
                forall|j: int| 0 <= j < i0 ==> #[trigger] sp[j].at <= s,
                forall|j: int| i0 <= j < sp.len() ==> #[trigger] sp[j].at > s,
            decreases ps@.len() - i,
        {
            if ps[i].height_after != 0 {
                proof {
                    let a = sp[i as int].at as int;
                    assert forall|j: int| i + 1 <= j < sp.len() implies a < #[trigger] sp[j].at by {}
                    lemma_height_at_index(sp, i + 1, a);
                    assert(query.spec_contains(a));
                }
                return true;
            }
            i += 1;
        }
        proof {
            assert forall|x: int| #[trigger] query.spec_contains(x) implies self.height(x) == 0 by {
                lemma_scan_height(sp, s as int, e as int, i0 as int, i as int, x);
            }
        }
        false
    }

    /// Whether every coordinate of `query` is covered.
    pub fn contains_interval(&self, query: CoInterval) -> (r: bool)
        ensures
            r == forall|x: int| #[trigger] query.spec_contains(x) ==> self.height(x) != 0,
    {
        proof {
            use_type_invariant(self);
        }
        let s = query.start();
        let e = query.end_excl();
        if self.height_at(s) == 0 {
            assert(query.spec_contains(s as int));
            return false;
        }
        let ps = self.change_points.as_slice();
        let ghost sp = self.change_points@;
        let i0 = partition_point(ps, s, true);
        proof {
            lemma_height_at_index(sp, i0 as int, s as int);
        }
        let mut i = i0;
        while i < ps.len() && ps[i].at < e
            invariant
                i0 <= i <= ps@.len(),
                i0 > 0,
                ps@ == sp,
                sp == self.spec_points(),
                is_strictly_sorted(sp),
                s == query.view().0,
                e == query.view().1,
                sp[i0 - 1].height_after != 0,
                forall|j: int| i0 <= j < i ==> #[trigger] sp[j].height_after != 0,
                forall|j: int| 0 <= j < i0 ==> #[trigger] sp[j].at <= s,
                forall|j: int| i0 <= j < sp.len() ==> #[trigger] sp[j].at > s,
            decreases ps@.len() - i,
        {
            if ps[i].height_after == 0 {
                proof {
                    let a = sp[i as int].at as int;
                    assert forall|j: int| i + 1 <= j < sp.len() implies a < #[trigger] sp[j].at by {}
                    lemma_height_at_index(sp, i + 1, a);
                    assert(query.spec_contains(a));
                }
                return false;
            }
            i += 1;
        }
        proof {
            assert forall|x: int| #[trigger] query.spec_contains(x) implies self.height(x) != 0 by {
                lemma_scan_height(sp, s as int, e as int, i0 as int, i as int, x);
            }
        }
        true
    }

    /// The positive-height segments whose height lies in `[min, max]`.
    fn segments_in_range(&self, min: usize, max: usize) -> (r: Vec<(CoInterval, usize)>)
        ensures
            view_segments(r@) == segments_between(self.spec_points(), min as int, max as int),
    {
        proof {
            use_type_invariant(self);
        }
        let ps = self.change_points.as_slice();
        let ghost sp = self.change_points@;
        let mut out: Vec<(CoInterval, usize)> = Vec::new();
        let mut w: usize = 0;
        let n = ps.len();
        let last = if n == 0 {
            0
        } else {
            n - 1
        };
        while w < last
            invariant
                ps@ == sp,
                n == sp.len(),
                last == (if n == 0 { 0 } else { n - 1 }),
                sp == self.spec_points(),
                is_strictly_sorted(sp),
                0 <= w <= last,
                view_segments(out@) == segments_upto(sp, min as int, max as int, w as int),
            decreases ps@.len() - w,
        {
            let h = ps[w].height_after;
            assert(sp.len() - 1 == last);
            let ghost old_out = out@;
            if h != 0 && h >= min && h <= max {
                let iv = CoInterval::new(ps[w].at, ps[w + 1].at);
                out.push((iv, h));
                assert(view_segments(out@) =~= view_segments(old_out).push(
                    segment_at(sp, w as int),
                ));
            }
            w += 1;
        }
        proof {
            if sp.len() == 0 {
                assert(view_segments(out@) =~= Seq::<((int, int), usize)>::empty());
            }
        }
        out
    }

    /// The segments of positive height, in coordinate order.
    pub fn iter_intervals(&self) -> (r: Vec<(CoInterval, usize)>)
        ensures
            view_segments(r@) == segments_between(self.spec_points(), 0, usize::MAX as int),
    {
        self.segments_in_range(0, usize::MAX)
    }

    /// The segments of positive height at least `min_height`.
    pub fn iter_intervals_at_least(&self, min_height: usize) -> (r: Vec<(CoInterval, usize)>)
        ensures
            view_segments(r@) == segments_between(
                self.spec_points(),
                min_height as int,
                usize::MAX as int,
            ),
    {
        self.segments_in_range(min_height, usize::MAX)
    }

    /// The segments of positive height at most `max_height`.
    pub fn iter_intervals_at_most(&self, max_height: usize) -> (r: Vec<(CoInterval, usize)>)
        ensures
            view_segments(r@) == segments_between(self.spec_points(), 0, max_height as int),
    {
        self.segments_in_range(0, max_height)
    }

    /// The segments of positive height equal to `target_height`.
    pub fn iter_intervals_exactly(&self, target_height: usize) -> (r: Vec<(CoInterval, usize)>)
        ensures
            view_segments(r@) == segments_between(
                self.spec_points(),
                target_height as int,
                target_height as int,
            ),
    {
        self.segments_in_range(target_height, target_height)
    }

    /// The segments of positive height in `[min_height, max_height]`.
    pub fn iter_intervals_between(&self, min_height: usize, max_height: usize) -> (r: Vec<
        (CoInterval, usize),
    >)
        ensures
            view_segments(r@) == segments_between(
                self.spec_points(),
                min_height as int,
                max_height as int,
            ),
    {
        self.segments_in_range(min_height, max_height)
    }

    /// The segments whose height is the largest height of the stack.
    pub fn peak_intervals(&self) -> (r: Vec<(CoInterval, usize)>)
        ensures
            view_segments(r@) == segments_between(
                self.spec_points(),
                max_height_of(self.spec_points()) as int,
                max_height_of(self.spec_points()) as int,
            ),
    {
        let max_height = self.height_stats().max_height;
        self.segments_in_range(max_height, max_height)
    }

    /// The number of input intervals that contain `x`.
    pub fn height_at(&self, x: i128) -> (h: usize)
        ensures
            h == self.height(x as int),
    {
        proof {
            use_type_invariant(self);
        }
        let i = partition_point(self.change_points.as_slice(), x, true);
        proof {
            lemma_height_at_index(self.change_points@, i as int, x as int);
        }
        if i == 0 {
            0
        } else {
            self.change_points[i - 1].height_after
        }
    }
}

/// A copy of a slice of intervals.
fn copy_intervals(s: &[CoInterval]) -> (v: Vec<CoInterval>)
    ensures
        v@ == s@,
{
    let mut v: Vec<CoInterval> = Vec::new();
    let mut i: usize = 0;
    while i < s.len()
        invariant
            0 <= i <= s.len(),
            v@ == s@.take(i as int),
        decreases s.len() - i,
    {
        v.push(s[i]);
        assert(s@.take(i as int + 1) =~= s@.take(i as int).push(s@[i as int]));
        i += 1;
    }
    assert(s@.take(s.len() as int) =~= s@);
    v
}

impl Clone for IntCOStack {
    /// A stack with the same change points, covered set and statistics.
    fn clone(&self) -> (s: Self)
        ensures
            s.spec_points() == self.spec_points(),
            s.spec_covered() == self.spec_covered(),
            s.spec_max_height() == self.spec_max_height(),
    {
        proof {
            use_type_invariant(self);
        }
        IntCOStack {
            change_points: copy_points(self.change_points.as_slice()),
            covered: copy_intervals(self.covered.as_slice()),
            height_stats: self.height_stats,
        }
    }
}

} // verus!
