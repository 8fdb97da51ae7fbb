//! Building canonical change points: from interval endpoints, and by merging
//! two stacks.
use vstd::prelude::*;

use crate::change_point::{
    height_of, is_canonical, is_normalized, is_strictly_sorted,
    lemma_height_at_index, lemma_push_if_changed, ChangePoint,
};
use crate::endpoint::{
    contribution, is_sorted_by_at, lemma_net_permutation, lemma_net_prefix, lemma_net_push,
    net_of, sort_endpoints, Endpoint, EndpointKind,
};
use crate::height_stats::{height_stats_from_points, stats_match, HeightStats};

verus! {

/// Change points together with the statistics of their heights.
#[derive(Debug, PartialEq, Eq)]
pub struct StackParts<C> {
    pub points: Vec<ChangePoint<C>>,
    pub height_stats: HeightStats,
}

/// What every `StackParts` built here satisfies.
pub open spec fn parts_ok(p: StackParts<i128>) -> bool {
    &&& is_normalized(p.points@)
    &&& stats_match(p.height_stats, p.points@)
}

/// Beyond all points of `s`, the height is that of the last point.
proof fn lemma_height_beyond(s: Seq<ChangePoint<i128>>, x: int)
    requires
        s.len() > 0 ==> s.last().at <= x,
    ensures
        height_of(s, x) == (if s.len() == 0 { 0 } else { s.last().height_after as int }),
{
}

/// Appending a point changes the height from its coordinate on.
proof fn lemma_height_push(s: Seq<ChangePoint<i128>>, p: ChangePoint<i128>, x: int)
    ensures
        height_of(s.push(p), x) == (if p.at <= x { p.height_after as int } else { height_of(s, x) }),
{
    assert(s.push(p).drop_last() =~= s);
}

/// Merges two stacks: the height of the result is the sum of their heights.
pub fn merge_parts(lhs: &StackParts<i128>, rhs: &StackParts<i128>) -> (out: StackParts<i128>)
    requires
        is_strictly_sorted(lhs.points@),
        is_strictly_sorted(rhs.points@),
        forall|x: int|
            #[trigger] height_of(lhs.points@, x) + height_of(rhs.points@, x) <= usize::MAX,
    ensures
        parts_ok(out),
        forall|x: int|
            #[trigger] height_of(out.points@, x) == height_of(lhs.points@, x) + height_of(
                rhs.points@,
                x,
            ),
        is_canonical(lhs.points@) && is_canonical(rhs.points@) ==> is_canonical(out.points@),
{
    let l = &lhs.points;
    let r = &rhs.points;
    let mut i: usize = 0;
    let mut j: usize = 0;
    let mut hl: usize = 0;
    let mut hr: usize = 0;
    let mut prev: usize = 0;
    let mut out: Vec<ChangePoint<i128>> = Vec::new();
    let mut stats = HeightStats::new();
    let ghost mut last_c: int = i128::MIN - 1;
    while i < l.len() || j < r.len()
        invariant
            0 <= i <= l.len(),
            0 <= j <= r.len(),
            is_strictly_sorted(l@),
            is_strictly_sorted(r@),
            forall|x: int| #[trigger] height_of(l@, x) + height_of(r@, x) <= usize::MAX,
            is_normalized(out@),
            stats_match(stats, out@),
            hl == (if i == 0 { 0 } else { l@[i - 1].height_after }),
            hr == (if j == 0 { 0 } else { r@[j - 1].height_after }),
            prev == hl + hr,
            prev == (if out@.len() == 0 { 0 } else { out@.last().height_after }),
            i > 0 ==> l@[i - 1].at <= last_c,
            j > 0 ==> r@[j - 1].at <= last_c,
            i < l.len() ==> l@[i as int].at > last_c,
            j < r.len() ==> r@[j as int].at > last_c,
            out@.len() > 0 ==> out@.last().at <= last_c,
            forall|x: int|
                #[trigger] height_of(out@, x) == height_of(l@.take(i as int), x) + height_of(
                    r@.take(j as int),
                    x,
                ),
        decreases l.len() - i + r.len() - j,
    {
        let ghost old_out = out@;
        let ghost li = l@.take(i as int);
        let ghost rj = r@.take(j as int);
        let take_l: bool;
        let take_r: bool;
        let c: i128;
        if i < l.len() && (j >= r.len() || l[i].at <= r[j].at) {
            c = l[i].at;
            take_l = true;
            take_r = j < r.len() && r[j].at == c;
        } else {
            c = r[j].at;
            take_l = false;
            take_r = true;
        }
        if take_l {
            hl = l[i].height_after;
            assert(l@.take(i as int + 1) =~= li.push(l@[i as int]));
            i += 1;
        }
        if take_r {
            hr = r[j].height_after;
            assert(r@.take(j as int + 1) =~= rj.push(r@[j as int]));
            j += 1;
        }
        proof {
            assert forall|k: int| i <= k < l.len() implies c < #[trigger] l@[k].at by {
                if i < l.len() {
                    assert(l@[i as int].at <= l@[k].at);
                }
            }
            assert forall|k: int| j <= k < r.len() implies c < #[trigger] r@[k].at by {
                if j < r.len() {
                    assert(r@[j as int].at <= r@[k].at);
                }
            }
            lemma_height_at_index(l@, i as int, c as int);
            lemma_height_at_index(r@, j as int, c as int);
            assert(height_of(l@, c as int) + height_of(r@, c as int) <= usize::MAX);
        }
        let sum = hl + hr;
        if sum != prev {
            let p = ChangePoint { at: c, height_after: sum };
            out.push(p);
            stats.observe(sum);
            proof {
                assert(out@.drop_last() =~= old_out);
            }
            prev = sum;
        }
        proof {
            lemma_push_if_changed(old_out, out@, c as int, sum as int);
            let li2 = l@.take(i as int);
            let rj2 = r@.take(j as int);
            assert forall|x: int| #[trigger] height_of(out@, x) == height_of(li2, x) + height_of(
                rj2,
                x,
            ) by {
                if take_l {
                    lemma_height_push(li, l@[i - 1], x);
                }
                if take_r {
                    lemma_height_push(rj, r@[j - 1], x);
                }
                if x < c {
                    assert(height_of(old_out, x) == height_of(li, x) + height_of(rj, x));
                } else {
                    lemma_height_beyond(li2, x);
                    lemma_height_beyond(rj2, x);
                }
            }
            last_c = c as int;
        }
    }
    proof {
        assert(l@.take(l.len() as int) =~= l@);
        assert(r@.take(r.len() as int) =~= r@);
    }
    StackParts { points: out, height_stats: stats }
}

/// After the group of endpoints at `c` has been taken in, the net height is
/// unchanged before `c` and is the old total plus the group's net from `c` on;
/// at `c` it is the net height of all endpoints.
proof fn lemma_sweep_group(
    s: Seq<Endpoint<i128>>,
    i0: int,
    i: int,
    c: int,
    delta: int,
    h: int,
    last_c: int,
)
    requires
        is_sorted_by_at(s),
        0 <= i0 < i <= s.len(),
        forall|k: int| i0 <= k < i ==> #[trigger] s[k].at == c,
        i < s.len() ==> s[i].at != c,
        last_c < c,
        forall|x: int|
            #[trigger] net_of(s.take(i), x) == net_of(s.take(i0), x) + (if x >= c {
                delta
            } else {
                0
            }),
        forall|x: int| x >= last_c ==> #[trigger] net_of(s.take(i0), x) == h,
    ensures
        net_of(s, c) == h + delta,
        forall|x: int| x >= c ==> #[trigger] net_of(s.take(i), x) == h + delta,
        forall|x: int| x < c ==> #[trigger] net_of(s.take(i), x) == net_of(s.take(i0), x),
{
    assert forall|k: int| i <= k < s.len() implies c < #[trigger] s[k].at by {
        assert(s[i - 1].at <= s[i].at);
        assert(s[i].at <= s[k].at);
    }
    lemma_net_prefix(s, i, c);
    assert(net_of(s.take(i0), c) == h);
    assert forall|x: int| x >= c implies #[trigger] net_of(s.take(i), x) == h + delta by {
        assert(net_of(s.take(i0), x) == h);
    }
}

/// Sweeps the endpoints in coordinate order and records every coordinate at
/// which the running height changes.
pub fn build_parts_from_endpoints(endpoints: Vec<Endpoint<i128>>) -> (parts: StackParts<i128>)
    requires
        forall|x: int| #[trigger] net_of(endpoints@, x) >= 0,
    ensures
        parts_ok(parts),
        forall|x: int| #[trigger] height_of(parts.points@, x) == net_of(endpoints@, x),
        net_of(endpoints@, i128::MAX as int) == 0 ==> is_canonical(parts.points@),
{
    let s = sort_endpoints(&endpoints);
    proof {
        assert forall|x: int| #[trigger] net_of(s@, x) == net_of(endpoints@, x) by {
            lemma_net_permutation(s@, endpoints@, x);
        }
    }
    let n = s.len();
    let mut i: usize = 0;
    let mut h: usize = 0;
    let mut out: Vec<ChangePoint<i128>> = Vec::new();
    let mut stats = HeightStats::new();
    let ghost mut last_c: int = i128::MIN - 1;
    while i < n
        invariant
            n == s.len(),
            0 <= i <= n,
            is_sorted_by_at(s@),
            forall|x: int| #[trigger] net_of(s@, x) == net_of(endpoints@, x),
            forall|x: int| #[trigger] net_of(endpoints@, x) >= 0,
            is_normalized(out@),
            stats_match(stats, out@),
            h <= i,
            h == (if out@.len() == 0 { 0 } else { out@.last().height_after }),
            i > 0 ==> s@[i - 1].at <= last_c,
            i < n ==> s@[i as int].at > last_c,
            out@.len() > 0 ==> out@.last().at <= last_c,
            last_c <= i128::MAX,
            forall|x: int| x >= last_c ==> #[trigger] net_of(s@.take(i as int), x) == h,
            forall|x: int| #[trigger] height_of(out@, x) == net_of(s@.take(i as int), x),
        decreases n - i,
    {
        let ghost i0 = i as int;
        let ghost old_out = out@;
        let c = s[i].at;
        let mut enters: usize = 0;
        let mut leaves: usize = 0;
        while i < n && s[i].at == c
            invariant
                n == s.len(),
                0 <= i0 <= i <= n,
                i0 < n,
                s@[i0].at == c,
                is_sorted_by_at(s@),
                enters + leaves == i - i0,
                i == i0 ==> (i < n && s@[i as int].at == c),
                forall|k: int| i0 <= k < i ==> #[trigger] s@[k].at == c,
                forall|x: int|
                    #[trigger] net_of(s@.take(i as int), x) == net_of(s@.take(i0), x) + (if x >= c {
                        enters - leaves
                    } else {
                        0
                    }),
            decreases n - i,
        {
            let e = s[i];
            proof {
                assert(s@.take(i as int + 1) =~= s@.take(i as int).push(e));
                assert forall|x: int| #[trigger] net_of(s@.take(i as int + 1), x) == net_of(
                    s@.take(i as int),
                    x,
                ) + contribution(e, x) by {
                    lemma_net_push(s@.take(i as int), e, x);
                }
            }
            match e.kind {
                EndpointKind::Enter => {
                    enters += 1;
                },
                EndpointKind::Leave => {
                    leaves += 1;
                },
            }
            i += 1;
        }
        proof {
            lemma_sweep_group(s@, i0, i as int, c as int, enters - leaves, h as int, last_c);
        }
        let new_h = h + enters - leaves;
        if new_h != h {
            let p = ChangePoint { at: c, height_after: new_h };
            out.push(p);
            stats.observe(new_h);
            proof {
                assert(out@.drop_last() =~= old_out);
            }
        }
        proof {
            lemma_push_if_changed(old_out, out@, c as int, new_h as int);
            assert forall|x: int| #[trigger] height_of(out@, x) == net_of(s@.take(i as int), x) by {
                if x < c {
                    assert(height_of(old_out, x) == net_of(s@.take(i0), x));
                }
            }
            last_c = c as int;
        }
        h = new_h;
    }
    proof {
        assert(s@.take(n as int) =~= s@);
        assert(net_of(s@, i128::MAX as int) == h);
    }
    StackParts { points: out, height_stats: stats }
}

/// The change points that a sweep over the endpoints produces.
pub fn build_points_from_endpoints(endpoints: Vec<Endpoint<i128>>) -> (points: Vec<
    ChangePoint<i128>,
>)
    requires
        forall|x: int| #[trigger] net_of(endpoints@, x) >= 0,
    ensures
        is_normalized(points@),
        forall|x: int| #[trigger] height_of(points@, x) == net_of(endpoints@, x),
        net_of(endpoints@, i128::MAX as int) == 0 ==> is_canonical(points@),
{
    build_parts_from_endpoints(endpoints).points
}

/// The change points that a sweep over the endpoints produces.
pub fn points_from_endpoints(endpoints: Vec<Endpoint<i128>>) -> (points: Vec<ChangePoint<i128>>)
    requires
        forall|x: int| #[trigger] net_of(endpoints@, x) >= 0,
    ensures
        is_normalized(points@),
        forall|x: int| #[trigger] height_of(points@, x) == net_of(endpoints@, x),
        net_of(endpoints@, i128::MAX as int) == 0 ==> is_canonical(points@),
{
    build_parts_from_endpoints(endpoints).points
}

/// Statistics attached to a sequence of change points.
pub fn parts(points: Vec<ChangePoint<i128>>) -> (p: StackParts<i128>)
    ensures
        p.points@ == points@,
        stats_match(p.height_stats, points@),
{
    let height_stats = height_stats_from_points(points.as_slice());
    StackParts { points, height_stats }
}

/// A copy of a slice of change points.
pub(crate) fn copy_points(s: &[ChangePoint<i128>]) -> (v: Vec<ChangePoint<i128>>)
    ensures
        v@ == s@,
{
    let mut v: Vec<ChangePoint<i128>> = Vec::new();
    let mut i: usize = 0;
    while i < s.len()
        invariant
            0 <= i <= s.len(),
            v@ == s@.take(i as int),
        decreases s.len() - i,
    {
        v.push(s[i]);
        assert(s@.take(i as int + 1) =~= s@.take(i as int).push(s@[i as int]));
        i += 1;
    }
    assert(s@.take(s.len() as int) =~= s@);
    v
}

/// Merges two stacks given by their change points: the height of the result is
/// the sum of their heights.
pub fn merge_points(lhs: &[ChangePoint<i128>], rhs: &[ChangePoint<i128>]) -> (out: Vec<
    ChangePoint<i128>,
>)
    requires
        is_strictly_sorted(lhs@),
        is_strictly_sorted(rhs@),
        forall|x: int| #[trigger] height_of(lhs@, x) + height_of(rhs@, x) <= usize::MAX,
    ensures
        is_normalized(out@),
        forall|x: int| #[trigger] height_of(out@, x) == height_of(lhs@, x) + height_of(rhs@, x),
        is_canonical(lhs@) && is_canonical(rhs@) ==> is_canonical(out@),
{
    let l = parts(copy_points(lhs));
    let r = parts(copy_points(rhs));
    merge_parts(&l, &r).points
}

} // verus!
