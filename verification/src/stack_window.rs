//! Fixed windows over a stack and their constant-height runs.
use vstd::prelude::*;

use crate::change_point::{height_of, is_strictly_sorted, lemma_height_at_index, ChangePoint};
use crate::height_run::HeightRun;
use crate::int_co_stack::{partition_point, IntCOStack};
use crate::interval::CoInterval;

verus! {

/// The change points strictly inside `(lo, hi)`.
pub open spec fn interior_points(ps: Seq<ChangePoint<i128>>, lo: int, hi: int) -> Seq<
    ChangePoint<i128>,
> {
    ps.filter(|p: ChangePoint<i128>| lo < p.at && p.at < hi)
}

/// Run `r` of the window `[lo, hi)`: the window is cut at every change point
/// strictly inside it; the result is `((start, end_excl), height)`.
pub open spec fn window_run(ps: Seq<ChangePoint<i128>>, lo: int, hi: int, r: int) -> (
    (int, int),
    int,
) {
    let inner = interior_points(ps, lo, hi);
    let start = if r == 0 {
        lo
    } else {
        inner[r - 1].at as int
    };
    let end = if r < inner.len() {
        inner[r].at as int
    } else {
        hi
    };
    let height = if r == 0 {
        height_of(ps, lo)
    } else {
        inner[r - 1].height_after as int
    };
    ((start, end), height)
}

/// The points strictly inside `(lo, hi)` are those with index in `a..b`.
pub proof fn lemma_interior_is_range(ps: Seq<ChangePoint<i128>>, lo: int, hi: int, a: int, b: int)
    requires
        is_strictly_sorted(ps),
        0 <= a <= b <= ps.len(),
        forall|j: int| 0 <= j < a ==> #[trigger] ps[j].at <= lo,
        forall|j: int| a <= j < ps.len() ==> #[trigger] ps[j].at > lo,
        forall|j: int| 0 <= j < b ==> #[trigger] ps[j].at < hi,
        forall|j: int| b <= j < ps.len() ==> #[trigger] ps[j].at >= hi,
    ensures
        interior_points(ps, lo, hi) == ps.subrange(a, b),
    decreases ps.len(),
{
    reveal(Seq::filter);
    let pred = |p: ChangePoint<i128>| lo < p.at && p.at < hi;
    if ps.len() == 0 {
        assert(ps.filter(pred) =~= ps.subrange(a, b));
    } else {
        let n = ps.len() as int;
        let d = ps.drop_last();
        let a2 = if a < n { a } else { n - 1 };
        let b2 = if b < n { b } else { n - 1 };
        lemma_interior_is_range(d, lo, hi, a2, b2);
        assert(ps.filter(pred) == if pred(ps.last()) {
            d.filter(pred).push(ps.last())
        } else {
            d.filter(pred)
        });
        if b == n && a < n {
            assert(ps.subrange(a, b) =~= d.subrange(a2, b2).push(ps.last()));
        } else {
            assert(ps.subrange(a, b) =~= d.subrange(a2, b2));
        }
    }
}

/// The runs of a window partition it into non-empty pieces, in order, and the
/// stack height is constant on each: it is the run's height everywhere in it.
pub proof fn lemma_window_runs(ps: Seq<ChangePoint<i128>>, lo: int, hi: int)
    requires
        is_strictly_sorted(ps),
        lo < hi,
    ensures
        ({
            let n = interior_points(ps, lo, hi).len() as int;
            &&& window_run(ps, lo, hi, 0).0.0 == lo
            &&& window_run(ps, lo, hi, n).0.1 == hi
            &&& forall|r: int|
                0 <= r <= n ==> #[trigger] window_run(ps, lo, hi, r).0.0 < window_run(
                    ps,
                    lo,
                    hi,
                    r,
                ).0.1
            &&& forall|r: int|
                0 <= r < n ==> #[trigger] window_run(ps, lo, hi, r).0.1 == window_run(
                    ps,
                    lo,
                    hi,
                    r + 1,
                ).0.0
            &&& forall|r: int, x: int|
                0 <= r <= n && window_run(ps, lo, hi, r).0.0 <= x < window_run(ps, lo, hi, r).0.1
                    ==> #[trigger] height_of(ps, x) == #[trigger] window_run(ps, lo, hi, r).1
        }),
{
    let a = choose_partition(ps, lo, true);
    let b = choose_partition(ps, hi, false);
    if a > b {
        assert(ps[b].at >= hi);
        assert(ps[b].at <= lo);
    }
    lemma_interior_is_range(ps, lo, hi, a, b);
    let inner = interior_points(ps, lo, hi);
    let n = inner.len() as int;
    assert(n == b - a);
    assert forall|r: int| 0 <= r <= n implies #[trigger] window_run(ps, lo, hi, r).0.0
        < window_run(ps, lo, hi, r).0.1 by {
        if r > 0 && r < n {
            assert(ps[a + r - 1].at < ps[a + r].at);
        }
    }
    assert forall|r: int, x: int|
        0 <= r <= n && window_run(ps, lo, hi, r).0.0 <= x < window_run(
            ps,
            lo,
            hi,
            r,
        ).0.1 implies #[trigger] height_of(ps, x) == #[trigger] window_run(ps, lo, hi, r).1 by {
        assert forall|j: int| a + r <= j < ps.len() implies x < #[trigger] ps[j].at by {
            if a + r < b {
                assert(ps[a + r].at <= ps[j].at);
            } else {
                assert(ps[j].at >= hi);
            }
        }
        lemma_height_at_index(ps, a + r, x);
        lemma_height_at_index(ps, a, lo);
    }
}

/// The partition index of `x` in a sorted sequence: the number of points at or
/// before `x` (`before_or_at`) or strictly before `x`.
proof fn choose_partition(ps: Seq<ChangePoint<i128>>, x: int, before_or_at: bool) -> (k: int)
    requires
        is_strictly_sorted(ps),
    ensures
        0 <= k <= ps.len(),
        forall|j: int|
            0 <= j < k ==> (if before_or_at {
                #[trigger] ps[j].at <= x
            } else {
                ps[j].at < x
            }),
        forall|j: int|
            k <= j < ps.len() ==> (if before_or_at {
                #[trigger] ps[j].at > x
            } else {
                ps[j].at >= x
            }),
    decreases ps.len(),
{
    if ps.len() == 0 {
        0
    } else {
        let n = ps.len() as int;
        let inside = if before_or_at {
            ps[n - 1].at <= x
        } else {
            ps[n - 1].at < x
        };
        if inside {
            n
        } else {
            let k = choose_partition(ps.drop_last(), x, before_or_at);
            assert forall|j: int| k <= j < n implies (if before_or_at {
                #[trigger] ps[j].at > x
            } else {
                ps[j].at >= x
            }) by {
                if j < n - 1 {
                    assert(ps.drop_last()[j] == ps[j]);
                }
            }
            assert forall|j: int| 0 <= j < k implies (if before_or_at {
                #[trigger] ps[j].at <= x
            } else {
                ps[j].at < x
            }) by {
                assert(ps.drop_last()[j] == ps[j]);
            }
            k
        }
    }
}

/// A window `[start, end_excl)` over a stack, with the range of change points
/// strictly inside it.
#[derive(Clone, Copy, Debug)]
pub struct StackWindow<'a> {
    stack: &'a IntCOStack,
    interval: CoInterval,
    /// First change point strictly after `interval.start()`.
    point_start: usize,
    /// First change point at or after `interval.end_excl()`.
    point_end: usize,
    /// Stack height at `interval.start()`.
    height_at_start: usize,
}

impl<'a> StackWindow<'a> {
    #[verifier::type_invariant]
    spec fn inv(self) -> bool {
        let ps = self.stack.spec_points();
        let lo = self.interval.view().0;
        let hi = self.interval.view().1;
        &&& is_strictly_sorted(ps)
        &&& ps.len() <= isize::MAX
        &&& lo < hi
        &&& self.point_start <= self.point_end <= ps.len()
        &&& forall|j: int| 0 <= j < self.point_start ==> #[trigger] ps[j].at <= lo
        &&& forall|j: int| self.point_start <= j < ps.len() ==> #[trigger] ps[j].at > lo
        &&& forall|j: int| 0 <= j < self.point_end ==> #[trigger] ps[j].at < hi
        &&& forall|j: int| self.point_end <= j < ps.len() ==> #[trigger] ps[j].at >= hi
        &&& self.height_at_start == height_of(ps, lo)
    }

    /// The stack the window looks at.
    pub closed spec fn spec_stack(self) -> IntCOStack {
        *self.stack
    }

    /// The window's interval.
    pub closed spec fn spec_interval(self) -> CoInterval {
        self.interval
    }

    /// The change points of the stack.
    pub open spec fn spec_points(self) -> Seq<ChangePoint<i128>> {
        self.spec_stack().spec_points()
    }

    /// The change points strictly inside the window.
    pub open spec fn spec_interior(self) -> Seq<ChangePoint<i128>> {
        interior_points(self.spec_points(), self.spec_interval().view().0, self.spec_interval().view().1)
    }

    /// Run `r` of the window as `((start, end_excl), height)`.
    pub open spec fn spec_run(self, r: int) -> ((int, int), int) {
        window_run(self.spec_points(), self.spec_interval().view().0, self.spec_interval().view().1, r)
    }

    /// The window `interval` over `stack`.
    pub fn new(stack: &'a IntCOStack, interval: CoInterval) -> (w: Self)
        ensures
            w.spec_stack() == *stack,
            w.spec_interval() == interval,
    {
        let points = stack.change_points();
        let window_start = interval.start();
        let window_end = interval.end_excl();
        let point_start = partition_point(points, window_start, true);
        let point_end = partition_point(points, window_end, false);
        proof {
            lemma_height_at_index(points@, point_start as int, window_start as int);
            if point_start > point_end {
                assert(points@[point_end as int].at >= window_end);
                assert(points@[point_end as int].at <= window_start);
            }
        }
        let height_at_start = if point_start == 0 {
            0
        } else {
            points[point_start - 1].height_after
        };
        StackWindow { stack, interval, point_start, point_end, height_at_start }
    }

    /// The stack the window looks at.
    pub fn stack(&self) -> (s: &'a IntCOStack)
        ensures
            *s == self.spec_stack(),
    {
        self.stack
    }

    /// The window's interval.
    pub fn interval(&self) -> (iv: &CoInterval)
        ensures
            *iv == self.spec_interval(),
    {
        &self.interval
    }

    /// The number of constant-height runs: the number of change points strictly
    /// inside the window, plus one.
    pub fn height_run_count(&self) -> (n: usize)
        ensures
            n == self.spec_interior().len() + 1,
    {
        proof {
            use_type_invariant(self);
            lemma_interior_is_range(
                self.spec_points(),
                self.interval.view().0,
                self.interval.view().1,
                self.point_start as int,
                self.point_end as int,
            );
        }
        self.point_end - self.point_start + 1
    }

    /// Run `run_index` of the window.
    pub fn height_run_at(&self, run_index: usize) -> (run: HeightRun<CoInterval>)
        requires
            run_index <= self.spec_interior().len(),
        ensures
            (run.interval.view(), run.height as int) == self.spec_run(run_index as int),
    {
        proof {
            use_type_invariant(self);
            lemma_interior_is_range(
                self.spec_points(),
                self.interval.view().0,
                self.interval.view().1,
                self.point_start as int,
                self.point_end as int,
            );
            lemma_window_runs(self.spec_points(), self.interval.view().0, self.interval.view().1);
        }
        let points = self.stack.change_points();
        let point_index = self.point_start + run_index;
        let start = if run_index == 0 {
            self.interval.start()
        } else {
            points[point_index - 1].at
        };
        let end_excl = if point_index < self.point_end {
            points[point_index].at
        } else {
            self.interval.end_excl()
        };
        let height = if run_index == 0 {
            self.height_at_start
        } else {
            points[point_index - 1].height_after
        };
        proof {
            assert(self.spec_run(run_index as int).0.0 < self.spec_run(run_index as int).0.1);
        }
        HeightRun { interval: CoInterval::new(start, end_excl), height }
    }

    /// The constant-height runs of the window, in order; zero-height runs are
    /// included.
    pub fn iter_height_runs(&self) -> (runs: Vec<HeightRun<CoInterval>>)
        ensures
            runs@.len() == self.spec_interior().len() + 1,
            forall|r: int|
                0 <= r < runs@.len() ==> (#[trigger] runs@[r].interval.view(), runs@[r].height as int)
                    == self.spec_run(r),
    {
        let count = self.height_run_count();
        let mut runs: Vec<HeightRun<CoInterval>> = Vec::new();
        let mut r: usize = 0;
        while r < count
            invariant
                count == self.spec_interior().len() + 1,
                0 <= r <= count,
                runs@.len() == r,
                forall|k: int|
                    0 <= k < r ==> (#[trigger] runs@[k].interval.view(), runs@[k].height as int)
                        == self.spec_run(k),
            decreases count - r,
        {
            let run = self.height_run_at(r);
            runs.push(run);
            r += 1;
        }
        runs
    }
}

/// The number of windows of length `len` that fit in `[from, to)`, if it is
/// positive and representable as `usize`.
pub fn window_count(from: i128, to: i128, len: u128) -> (r: Option<usize>)
    ensures
        r == (if len > 0 && from < to && len <= to - from && to - from - len + 1 <= usize::MAX {
            Some((to - from - len + 1) as usize)
        } else {
            None::<usize>
        }),
{
    if len == 0 {
        return None;
    }
    let domain = match CoInterval::try_new(from, to) {
        Some(d) => d,
        None => {
            return None;
        },
    };
    let domain_len = domain.len();
    if domain_len < len {
        return None;
    }
    let remaining = domain_len - len;
    if remaining == u128::MAX {
        return None;
    }
    let count = remaining + 1;
    if count > usize::MAX as u128 {
        return None;
    }
    Some(count as usize)
}

/// The start of window `index`: `from + index`, if representable.
pub fn start_at(from: i128, index: usize) -> (r: Option<i128>)
    ensures
        r == (if from + index <= i128::MAX {
            Some((from + index) as i128)
        } else {
            None::<i128>
        }),
{
    if index == 0 {
        return Some(from);
    }
    let offset = index as u128;
    match CoInterval::checked_from_start_len(from, offset) {
        Some(iv) => Some(iv.end_excl()),
        None => None,
    }
}

/// Window `index`: `[from + index, from + index + len)`, if representable.
pub fn window_at<'a>(stack: &'a IntCOStack, from: i128, len: u128, index: usize) -> (r: Option<
    StackWindow<'a>,
>)
    ensures
        r is Some <==> (len > 0 && from + index + len <= i128::MAX),
        r matches Some(w) ==> w.spec_stack() == *stack && w.spec_interval().view() == (
            from + index,
            from + index + len,
        ),
{
    let start = match start_at(from, index) {
        Some(s) => s,
        None => {
            return None;
        },
    };
    let interval = match CoInterval::checked_from_start_len(start, len) {
        Some(iv) => iv,
        None => {
            return None;
        },
    };
    Some(StackWindow::new(stack, interval))
}

impl IntCOStack {
    /// All windows of length `len` fully contained in `[from, to)`, their starts
    /// advancing by one; none when `from >= to`, `len == 0`, `len` exceeds the
    /// length of `[from, to)`, or the count is not representable as `usize`.
    pub fn iter_windows(&self, from: i128, to: i128, len: u128) -> (ws: Vec<StackWindow<'_>>)
        ensures
            ws@.len() == (if len > 0 && from < to && len <= to - from && to - from - len + 1
                <= usize::MAX {
                to - from - len + 1
            } else {
                0
            }),
            forall|i: int|
                0 <= i < ws@.len() ==> (#[trigger] ws@[i]).spec_stack() == *self
                    && ws@[i].spec_interval().view() == (from + i, from + i + len),
    {
        let count = match window_count(from, to, len) {
            Some(c) => c,
            None => 0,
        };
        let mut ws: Vec<StackWindow<'_>> = Vec::new();
        let mut index: usize = 0;
        while index < count
            invariant
                0 <= index <= count,
                count == (if len > 0 && from < to && len <= to - from && to - from - len + 1
                    <= usize::MAX {
                    to - from - len + 1
                } else {
                    0
                }),
                ws@.len() == index,
                forall|i: int|
                    0 <= i < index ==> (#[trigger] ws@[i]).spec_stack() == *self
                        && ws@[i].spec_interval().view() == (from + i, from + i + len),
            decreases count - index,
        {
            let w = match window_at(self, from, len, index) {
                Some(w) => w,
                None => {
                    proof {
                        assert(false);
                    }
                    return ws;
                },
            };
            ws.push(w);
            index += 1;
        }
        ws
    }
}

} // verus!
