//! Change points and the height function that a sequence of them describes.
use vstd::prelude::*;

verus! {

/// From `at` onward, until the next change point, the stack height is
/// `height_after`.
#[derive(Clone, Copy, Debug, PartialEq, Eq)]
pub struct ChangePoint<C> {
    pub at: C,
    pub height_after: usize,
}

/// The height that a sequence of change points gives to coordinate `x`: the
/// `height_after` of the last point at or before `x`, or zero when there is none.
pub open spec fn height_of(ps: Seq<ChangePoint<i128>>, x: int) -> int
    decreases ps.len(),
{
    if ps.len() == 0 {
        0
    } else if ps.last().at <= x {
        ps.last().height_after as int
    } else {
        height_of(ps.drop_last(), x)
    }
}

/// Coordinates are strictly increasing.
pub open spec fn is_strictly_sorted(ps: Seq<ChangePoint<i128>>) -> bool {
    forall|i: int, j: int| 0 <= i < j < ps.len() ==> #[trigger] ps[i].at < #[trigger] ps[j].at
}

/// The height in force just before point `i` (zero before the first point).
pub open spec fn height_before(ps: Seq<ChangePoint<i128>>, i: int) -> int {
    if i <= 0 {
        0
    } else {
        ps[i - 1].height_after as int
    }
}

/// Every point changes the height: no redundant boundaries.
pub open spec fn is_reduced(ps: Seq<ChangePoint<i128>>) -> bool {
    forall|i: int| 0 <= i < ps.len() ==> #[trigger] ps[i].height_after != height_before(ps, i)
}

/// Strictly sorted and reduced.
pub open spec fn is_normalized(ps: Seq<ChangePoint<i128>>) -> bool {
    is_strictly_sorted(ps) && is_reduced(ps)
}

/// The canonical form of a stack: normalized, and the height returns to zero
/// after the last point.
pub open spec fn is_canonical(ps: Seq<ChangePoint<i128>>) -> bool {
    &&& is_normalized(ps)
    &&& ps.len() > 0 ==> ps.last().height_after == 0
}

/// Beyond the last point the height is that of the last point.
pub proof fn lemma_height_after_last(ps: Seq<ChangePoint<i128>>, x: int)
    requires
        ps.len() > 0,
        ps.last().at <= x,
    ensures
        height_of(ps, x) == ps.last().height_after,
{
}

/// Points after `x` do not matter for the height at `x`.
pub proof fn lemma_height_of_prefix(ps: Seq<ChangePoint<i128>>, k: int, x: int)
    requires
        is_strictly_sorted(ps),
        0 <= k <= ps.len(),
        forall|j: int| k <= j < ps.len() ==> x < #[trigger] ps[j].at,
    ensures
        height_of(ps, x) == height_of(ps.take(k), x),
    decreases ps.len(),
{
    if ps.len() == k {
        assert(ps.take(k) =~= ps);
    } else {
        let d = ps.drop_last();
        assert(d.take(k) =~= ps.take(k));
        assert(x < ps[ps.len() - 1].at);
        lemma_height_of_prefix(d, k, x);
    }
}

/// The height at `x` is the height after the last point at or before `x`.
pub proof fn lemma_height_at_index(ps: Seq<ChangePoint<i128>>, k: int, x: int)
    requires
        is_strictly_sorted(ps),
        0 <= k <= ps.len(),
        k > 0 ==> ps[k - 1].at <= x,
        forall|j: int| k <= j < ps.len() ==> x < #[trigger] ps[j].at,
    ensures
        height_of(ps, x) == (if k == 0 { 0 } else { ps[k - 1].height_after as int }),
{
    lemma_height_of_prefix(ps, k, x);
    if k > 0 {
        assert(ps.take(k).last() == ps[k - 1]);
    }
}

/// The height at `x` is zero with every point after `x`, or it is set by a point
/// at or before `x` whose successor (if any) lies after `x`.
pub proof fn lemma_height_cases(ps: Seq<ChangePoint<i128>>, x: int)
    requires
        is_strictly_sorted(ps),
    ensures
        (height_of(ps, x) == 0 && forall|j: int| 0 <= j < ps.len() ==> x < #[trigger] ps[j].at)
            || exists|j: int|
            0 <= j < ps.len() && #[trigger] ps[j].at <= x && (j + 1 < ps.len() ==> x < ps[j
                + 1].at) && height_of(ps, x) == ps[j].height_after,
    decreases ps.len(),
{
    if ps.len() > 0 {
        let n = ps.len() as int;
        if ps[n - 1].at <= x {
            assert(ps[n - 1].at <= x);
        } else {
            let d = ps.drop_last();
            lemma_height_cases(d, x);
            if height_of(d, x) == 0 && forall|j: int| 0 <= j < d.len() ==> x < #[trigger] d[j].at {
                assert forall|j: int| 0 <= j < ps.len() implies x < #[trigger] ps[j].at by {
                    if j < n - 1 {
                        assert(d[j] == ps[j]);
                    }
                }
            } else {
                let j = choose|j: int|
                    0 <= j < d.len() && #[trigger] d[j].at <= x && (j + 1 < d.len() ==> x < d[j
                        + 1].at) && height_of(d, x) == d[j].height_after;
                assert(ps[j] == d[j]);
                assert(ps[j].at <= x);
            }
        }
    }
}

/// Just before the last point, the height is the one before it.
proof fn lemma_height_just_before_last(ps: Seq<ChangePoint<i128>>)
    requires
        is_strictly_sorted(ps),
        ps.len() > 0,
    ensures
        height_of(ps, ps.last().at - 1) == height_before(ps, ps.len() - 1),
        forall|x: int| x >= ps.last().at - 1 ==> #[trigger] height_of(ps.drop_last(), x)
            == height_before(ps, ps.len() - 1),
        forall|x: int| x < ps.last().at ==> #[trigger] height_of(ps, x) == height_of(
            ps.drop_last(),
            x,
        ),
{
    let n = ps.len() as int;
    let d = ps.drop_last();
    assert(height_of(ps, ps.last().at - 1) == height_of(d, ps.last().at - 1));
    if n > 1 {
        assert(ps[n - 2].at < ps[n - 1].at);
        assert(d.last() == ps[n - 2]);
        assert(height_of(d, ps.last().at - 1) == d.last().height_after);
    }
}

/// Appending a point at `c` with height `h` when `h` differs from the last
/// height (and leaving the sequence alone otherwise) keeps it normalized and
/// makes the height `h` from `c` on.
pub proof fn lemma_push_if_changed(old: Seq<ChangePoint<i128>>, new: Seq<ChangePoint<i128>>, c: int, h: int)
    requires
        is_normalized(old),
        old.len() > 0 ==> old.last().at < c,
        ({
            let prev = if old.len() == 0 { 0 } else { old.last().height_after as int };
            ||| h == prev && new == old
            ||| h != prev && new.len() == old.len() + 1 && new.drop_last() == old && new.last().at
                == c && new.last().height_after == h
        }),
    ensures
        is_normalized(new),
        forall|x: int| #[trigger] height_of(new, x) == (if c <= x { h } else { height_of(old, x) }),
        new.len() > 0 ==> new.last().at <= c,
        h == (if new.len() == 0 { 0 } else { new.last().height_after as int }),
{
    if new.len() > old.len() {
        assert forall|a: int, b: int| 0 <= a < b < new.len() implies #[trigger] new[a].at
            < #[trigger] new[b].at by {
            assert(new.drop_last()[a] == new[a]);
            if b < new.len() - 1 {
                assert(new.drop_last()[b] == new[b]);
                assert(old[a].at < old[b].at);
            } else if a < new.len() - 1 {
                assert(old[a].at <= old.last().at);
            }
        }
        assert forall|a: int| 0 <= a < new.len() implies #[trigger] new[a].height_after
            != height_before(new, a) by {
            if a < new.len() - 1 {
                assert(new.drop_last()[a] == new[a]);
                if a > 0 {
                    assert(new.drop_last()[a - 1] == new[a - 1]);
                }
                assert(old[a].height_after != height_before(old, a));
            } else if a > 0 {
                assert(new.drop_last()[a - 1] == new[a - 1]);
            }
        }
    } else {
        assert forall|x: int| c <= x implies #[trigger] height_of(new, x) == h by {
            if old.len() > 0 {
                lemma_height_after_last(old, x);
            }
        }
    }
}

/// Two normalized sequences that describe the same height function are equal.
pub proof fn lemma_normalized_unique(p: Seq<ChangePoint<i128>>, q: Seq<ChangePoint<i128>>)
    requires
        is_normalized(p),
        is_normalized(q),
        forall|x: int| #[trigger] height_of(p, x) == height_of(q, x),
    ensures
        p == q,
    decreases p.len() + q.len(),
{
    if p.len() == 0 && q.len() == 0 {
        assert(p =~= q);
        return;
    }
    if p.len() == 0 {
        let b = q.last();
        lemma_height_just_before_last(q);
        assert(q[q.len() - 1].height_after != height_before(q, q.len() - 1));
        assert(height_of(p, b.at as int) == height_of(q, b.at as int));
        assert(height_of(p, b.at - 1) == height_of(q, b.at - 1));
        assert(false);
    }
    if q.len() == 0 {
        let a = p.last();
        lemma_height_just_before_last(p);
        assert(p[p.len() - 1].height_after != height_before(p, p.len() - 1));
        assert(height_of(p, a.at as int) == height_of(q, a.at as int));
        assert(height_of(p, a.at - 1) == height_of(q, a.at - 1));
        assert(false);
    }
    let a = p.last();
    let b = q.last();
    lemma_height_just_before_last(p);
    lemma_height_just_before_last(q);
    assert(p[p.len() - 1].height_after != height_before(p, p.len() - 1));
    assert(q[q.len() - 1].height_after != height_before(q, q.len() - 1));
    if a.at < b.at {
        assert(height_of(p, b.at as int) == height_of(q, b.at as int));
        assert(height_of(p, b.at - 1) == height_of(q, b.at - 1));
        assert(false);
    }
    if b.at < a.at {
        assert(height_of(p, a.at as int) == height_of(q, a.at as int));
        assert(height_of(p, a.at - 1) == height_of(q, a.at - 1));
        assert(false);
    }
    assert(a.at == b.at);
    assert(height_of(p, a.at as int) == height_of(q, a.at as int));
    assert(a.height_after == b.height_after);
    let pd = p.drop_last();
    let qd = q.drop_last();
    assert(height_of(p, a.at - 1) == height_of(q, a.at - 1));
    assert forall|x: int| #[trigger] height_of(pd, x) == height_of(qd, x) by {
        if x < a.at {
            assert(height_of(p, x) == height_of(q, x));
        }
    }
    assert forall|i: int| 0 <= i < pd.len() implies #[trigger] pd[i].height_after
        != height_before(pd, i) by {
        assert(p[i].height_after != height_before(p, i));
    }
    assert forall|i: int| 0 <= i < qd.len() implies #[trigger] qd[i].height_after
        != height_before(qd, i) by {
        assert(q[i].height_after != height_before(q, i));
    }
    lemma_normalized_unique(pd, qd);
    assert(p =~= pd.push(a));
    assert(q =~= qd.push(b));
}

} // verus!
