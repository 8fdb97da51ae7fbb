//! Properties of the library as a whole, stated over the spec functions that
//! the operations' contracts use.
use vstd::prelude::*;

use crate::change_point::{
    height_before, height_of, is_canonical, is_normalized, is_strictly_sorted, lemma_height_at_index,
    lemma_height_cases, lemma_normalized_unique, ChangePoint,
};
use crate::endpoint::{
    is_pair_at, lemma_net_permutation, lemma_net_push, net_of, Endpoint,
};
use crate::height_stats::{max_height_of, min_positive_height_of};
use crate::build_acc::covers;
use crate::int_co_stack::{
    count_containing, keeps_height, segment_at, segments_between, segments_upto,
};
use crate::interval::CoInterval;
use crate::oracle::{lemma_naive_bounded, naive_height};

verus! {

/// A stack is determined by its height function: two normalized sequences of
/// change points with the same height everywhere are the same sequence.
pub proof fn law_canonical_form_is_unique(p: Seq<ChangePoint<i128>>, q: Seq<ChangePoint<i128>>)
    requires
        is_normalized(p),
        is_normalized(q),
        forall|x: int| #[trigger] height_of(p, x) == height_of(q, x),
    ensures
        p == q,
{
    lemma_normalized_unique(p, q);
}

/// For valid half-open intervals (`start < end`), the net height of their
/// endpoints is the number of intervals that contain `x`.
pub proof fn law_endpoints_count_containing_intervals(
    ivs: Seq<(i128, i128)>,
    es: Seq<Endpoint<i128>>,
    x: int,
)
    requires
        es.len() == 2 * ivs.len(),
        forall|k: int| 0 <= k < ivs.len() ==> is_pair_at(es, k, #[trigger] ivs[k]),
        forall|k: int| 0 <= k < ivs.len() ==> #[trigger] ivs[k].0 < ivs[k].1,
    ensures
        net_of(es, x) == naive_height(ivs, x),
    decreases ivs.len(),
{
    if ivs.len() > 0 {
        let n = ivs.len() as int;
        let d = es.drop_last().drop_last();
        let iv = ivs.drop_last();
        assert forall|k: int| 0 <= k < iv.len() implies is_pair_at(d, k, #[trigger] iv[k]) by {
            assert(is_pair_at(es, k, ivs[k]));
            assert(iv[k] == ivs[k]);
        }
        assert forall|k: int| 0 <= k < iv.len() implies #[trigger] iv[k].0 < iv[k].1 by {
            assert(iv[k] == ivs[k]);
        }
        law_endpoints_count_containing_intervals(iv, d, x);
        assert(is_pair_at(es, n - 1, ivs[n - 1]));
        assert(es.drop_last() =~= d.push(es[2 * n - 2]));
        assert(es =~= es.drop_last().push(es[2 * n - 1]));
        lemma_net_push(d, es[2 * n - 2], x);
        lemma_net_push(es.drop_last(), es[2 * n - 1], x);
    }
}

/// Sweeping the endpoints of valid intervals gives the same change points as
/// counting, at every coordinate, the intervals that contain it.
pub proof fn law_build_matches_oracle(
    ivs: Seq<(i128, i128)>,
    es: Seq<Endpoint<i128>>,
    built: Seq<ChangePoint<i128>>,
    oracle: Seq<ChangePoint<i128>>,
)
    requires
        es.len() == 2 * ivs.len(),
        forall|k: int| 0 <= k < ivs.len() ==> is_pair_at(es, k, #[trigger] ivs[k]),
        forall|k: int| 0 <= k < ivs.len() ==> #[trigger] ivs[k].0 < ivs[k].1,
        is_normalized(built),
        forall|x: int| #[trigger] height_of(built, x) == net_of(es, x),
        is_canonical(oracle),
        forall|x: int| #[trigger] height_of(oracle, x) == naive_height(ivs, x),
    ensures
        built == oracle,
{
    assert forall|x: int| #[trigger] height_of(built, x) == height_of(oracle, x) by {
        law_endpoints_count_containing_intervals(ivs, es, x);
    }
    lemma_normalized_unique(built, oracle);
}

/// The order in which endpoints are given does not affect the change points
/// built from them.
pub proof fn law_endpoint_order_is_irrelevant(
    a: Seq<Endpoint<i128>>,
    b: Seq<Endpoint<i128>>,
    pa: Seq<ChangePoint<i128>>,
    pb: Seq<ChangePoint<i128>>,
)
    requires
        a.to_multiset() == b.to_multiset(),
        is_normalized(pa),
        is_normalized(pb),
        forall|x: int| #[trigger] height_of(pa, x) == net_of(a, x),
        forall|x: int| #[trigger] height_of(pb, x) == net_of(b, x),
    ensures
        pa == pb,
{
    assert forall|x: int| #[trigger] height_of(pa, x) == height_of(pb, x) by {
        lemma_net_permutation(a, b, x);
    }
    lemma_normalized_unique(pa, pb);
}

/// Merging is commutative.
pub proof fn law_merge_is_commutative(
    l: Seq<ChangePoint<i128>>,
    r: Seq<ChangePoint<i128>>,
    lr: Seq<ChangePoint<i128>>,
    rl: Seq<ChangePoint<i128>>,
)
    requires
        is_normalized(lr),
        is_normalized(rl),
        forall|x: int| #[trigger] height_of(lr, x) == height_of(l, x) + height_of(r, x),
        forall|x: int| #[trigger] height_of(rl, x) == height_of(r, x) + height_of(l, x),
    ensures
        lr == rl,
{
    assert forall|x: int| #[trigger] height_of(lr, x) == height_of(rl, x) by {
        assert(height_of(lr, x) == height_of(l, x) + height_of(r, x));
        assert(height_of(rl, x) == height_of(r, x) + height_of(l, x));
    }
    lemma_normalized_unique(lr, rl);
}

/// Merging is associative.
pub proof fn law_merge_is_associative(
    a: Seq<ChangePoint<i128>>,
    b: Seq<ChangePoint<i128>>,
    c: Seq<ChangePoint<i128>>,
    ab: Seq<ChangePoint<i128>>,
    bc: Seq<ChangePoint<i128>>,
    ab_c: Seq<ChangePoint<i128>>,
    a_bc: Seq<ChangePoint<i128>>,
)
    requires
        forall|x: int| #[trigger] height_of(ab, x) == height_of(a, x) + height_of(b, x),
        forall|x: int| #[trigger] height_of(bc, x) == height_of(b, x) + height_of(c, x),
        is_normalized(ab_c),
        is_normalized(a_bc),
        forall|x: int| #[trigger] height_of(ab_c, x) == height_of(ab, x) + height_of(c, x),
        forall|x: int| #[trigger] height_of(a_bc, x) == height_of(a, x) + height_of(bc, x),
    ensures
        ab_c == a_bc,
{
    assert forall|x: int| #[trigger] height_of(ab_c, x) == height_of(a_bc, x) by {
        assert(height_of(ab, x) == height_of(a, x) + height_of(b, x));
        assert(height_of(bc, x) == height_of(b, x) + height_of(c, x));
        assert(height_of(ab_c, x) == height_of(ab, x) + height_of(c, x));
        assert(height_of(a_bc, x) == height_of(a, x) + height_of(bc, x));
    }
    lemma_normalized_unique(ab_c, a_bc);
}

/// The change points of two lists of intervals, as the oracle counts them, can
/// be merged (no height overflows) when the two lists together hold at most
/// `usize::MAX` intervals, and merging them either way round gives the same
/// result.
pub proof fn law_oracle_merge_is_commutative(
    a: Seq<(i128, i128)>,
    b: Seq<(i128, i128)>,
    l: Seq<ChangePoint<i128>>,
    r: Seq<ChangePoint<i128>>,
    lr: Seq<ChangePoint<i128>>,
    rl: Seq<ChangePoint<i128>>,
)
    requires
        a.len() + b.len() <= usize::MAX,
        forall|x: int| #[trigger] height_of(l, x) == naive_height(a, x),
        forall|x: int| #[trigger] height_of(r, x) == naive_height(b, x),
        is_normalized(lr),
        is_normalized(rl),
        forall|x: int| #[trigger] height_of(lr, x) == height_of(l, x) + height_of(r, x),
        forall|x: int| #[trigger] height_of(rl, x) == height_of(r, x) + height_of(l, x),
    ensures
        forall|x: int| #[trigger] height_of(l, x) + height_of(r, x) <= usize::MAX,
        forall|x: int| #[trigger] height_of(r, x) + height_of(l, x) <= usize::MAX,
        lr == rl,
{
    assert forall|x: int| #[trigger] height_of(l, x) + height_of(r, x) <= usize::MAX by {
        lemma_naive_bounded(a, x);
        lemma_naive_bounded(b, x);
    }
    assert forall|x: int| #[trigger] height_of(r, x) + height_of(l, x) <= usize::MAX by {
        lemma_naive_bounded(a, x);
        lemma_naive_bounded(b, x);
    }
    law_merge_is_commutative(l, r, lr, rl);
}

/// The change points of three lists of intervals, as the oracle counts them,
/// can be merged in either grouping (no height overflows) when the lists
/// together hold at most `usize::MAX` intervals, and both groupings give the
/// same result.
pub proof fn law_oracle_merge_is_associative(
    a: Seq<(i128, i128)>,
    b: Seq<(i128, i128)>,
    c: Seq<(i128, i128)>,
    pa: Seq<ChangePoint<i128>>,
    pb: Seq<ChangePoint<i128>>,
    pc: Seq<ChangePoint<i128>>,
    ab: Seq<ChangePoint<i128>>,
    bc: Seq<ChangePoint<i128>>,
    ab_c: Seq<ChangePoint<i128>>,
    a_bc: Seq<ChangePoint<i128>>,
)
    requires
        a.len() + b.len() + c.len() <= usize::MAX,
        forall|x: int| #[trigger] height_of(pa, x) == naive_height(a, x),
        forall|x: int| #[trigger] height_of(pb, x) == naive_height(b, x),
        forall|x: int| #[trigger] height_of(pc, x) == naive_height(c, x),
        forall|x: int| #[trigger] height_of(ab, x) == height_of(pa, x) + height_of(pb, x),
        forall|x: int| #[trigger] height_of(bc, x) == height_of(pb, x) + height_of(pc, x),
        is_normalized(ab_c),
        is_normalized(a_bc),
        forall|x: int| #[trigger] height_of(ab_c, x) == height_of(ab, x) + height_of(pc, x),
        forall|x: int| #[trigger] height_of(a_bc, x) == height_of(pa, x) + height_of(bc, x),
    ensures
        forall|x: int| #[trigger] height_of(pa, x) + height_of(pb, x) <= usize::MAX,
        forall|x: int| #[trigger] height_of(pb, x) + height_of(pc, x) <= usize::MAX,
        forall|x: int| #[trigger] height_of(ab, x) + height_of(pc, x) <= usize::MAX,
        forall|x: int| #[trigger] height_of(pa, x) + height_of(bc, x) <= usize::MAX,
        ab_c == a_bc,
{
    assert forall|x: int| #[trigger] height_of(pa, x) + height_of(pb, x) <= usize::MAX by {
        lemma_naive_bounded(a, x);
        lemma_naive_bounded(b, x);
        lemma_naive_bounded(c, x);
    }
    assert forall|x: int| #[trigger] height_of(pb, x) + height_of(pc, x) <= usize::MAX by {
        lemma_naive_bounded(a, x);
        lemma_naive_bounded(b, x);
        lemma_naive_bounded(c, x);
    }
    assert forall|x: int| #[trigger] height_of(ab, x) + height_of(pc, x) <= usize::MAX by {
        lemma_naive_bounded(a, x);
        lemma_naive_bounded(b, x);
        lemma_naive_bounded(c, x);
    }
    assert forall|x: int| #[trigger] height_of(pa, x) + height_of(bc, x) <= usize::MAX by {
        lemma_naive_bounded(a, x);
        lemma_naive_bounded(b, x);
        lemma_naive_bounded(c, x);
    }
    law_merge_is_associative(pa, pb, pc, ab, bc, ab_c, a_bc);
}

/// Counting over two lists of pairs adds up.
pub proof fn lemma_naive_concat(a: Seq<(i128, i128)>, b: Seq<(i128, i128)>, x: int)
    ensures
        naive_height(a + b, x) == naive_height(a, x) + naive_height(b, x),
    decreases b.len(),
{
    if b.len() == 0 {
        assert(a + b =~= a);
    } else {
        assert((a + b).drop_last() =~= a + b.drop_last());
        lemma_naive_concat(a, b.drop_last(), x);
    }
}

/// Merging the change points of two lists of intervals gives the change points
/// of both lists together.
pub proof fn law_merge_matches_oracle(
    l: Seq<(i128, i128)>,
    r: Seq<(i128, i128)>,
    merged: Seq<ChangePoint<i128>>,
    oracle: Seq<ChangePoint<i128>>,
)
    requires
        is_normalized(merged),
        forall|x: int| #[trigger] height_of(merged, x) == naive_height(l, x) + naive_height(r, x),
        is_canonical(oracle),
        forall|x: int| #[trigger] height_of(oracle, x) == naive_height(l + r, x),
    ensures
        merged == oracle,
{
    assert forall|x: int| #[trigger] height_of(merged, x) == height_of(oracle, x) by {
        lemma_naive_concat(l, r, x);
    }
    lemma_normalized_unique(merged, oracle);
}

/// Filtering by a height range keeps exactly the positive segments whose height
/// lies in the range, in their order.
pub proof fn law_segments_filter(ps: Seq<ChangePoint<i128>>, min: int, max: int, n: int)
    ensures
        segments_upto(ps, min, max, n) == segments_upto(ps, 0, usize::MAX as int, n).filter(
            |s: ((int, int), usize)| min <= s.1 && s.1 <= max,
        ),
    decreases n,
{
    reveal(Seq::filter);
    let pred = |s: ((int, int), usize)| min <= s.1 && s.1 <= max;
    if n <= 0 {
        assert(Seq::<((int, int), usize)>::empty().filter(pred) =~= Seq::<
            ((int, int), usize),
        >::empty());
    } else {
        law_segments_filter(ps, min, max, n - 1);
        let all = segments_upto(ps, 0, usize::MAX as int, n - 1);
        if ps[n - 1].height_after != 0 {
            let seg = segment_at(ps, n - 1);
            assert(all.push(seg).drop_last() =~= all);
            assert(all.push(seg).last() == seg);
        }
    }
}

/// A height range that no positive height can meet (`max < min`, or `max` is
/// zero) selects no segment.
pub proof fn law_segments_empty_range(ps: Seq<ChangePoint<i128>>, min: int, max: int, n: int)
    requires
        max < min || max == 0,
    ensures
        segments_upto(ps, min, max, n) == Seq::<((int, int), usize)>::empty(),
    decreases n,
{
    if n > 0 {
        law_segments_empty_range(ps, min, max, n - 1);
    }
}

/// Every reported segment is a non-empty interval between two consecutive
/// change points, its height lies in the range, and the stack has that height
/// throughout it.
pub proof fn law_segments_have_constant_height(
    ps: Seq<ChangePoint<i128>>,
    min: int,
    max: int,
    n: int,
    k: int,
    x: int,
)
    requires
        is_strictly_sorted(ps),
        n <= ps.len() - 1,
        0 <= k < segments_upto(ps, min, max, n).len(),
    ensures
        ({
            let s = segments_upto(ps, min, max, n)[k];
            &&& s.0.0 < s.0.1
            &&& keeps_height(s.1, min, max)
            &&& s.0.0 <= x < s.0.1 ==> height_of(ps, x) == s.1
        }),
    decreases n,
{
    if n > 0 {
        let rest = segments_upto(ps, min, max, n - 1);
        if k < rest.len() {
            law_segments_have_constant_height(ps, min, max, n - 1, k, x);
            if keeps_height(ps[n - 1].height_after, min, max) {
                assert(segments_upto(ps, min, max, n)[k] == rest[k]);
            }
        } else {
            let w = n - 1;
            assert(ps[w].at < ps[w + 1].at);
            let s = segment_at(ps, w);
            if s.0.0 <= x < s.0.1 {
                assert forall|j: int| w + 1 <= j < ps.len() implies x < #[trigger] ps[j].at by {
                    if j > w + 1 {
                        assert(ps[w + 1].at < ps[j].at);
                    }
                }
                lemma_height_at_index(ps, w + 1, x);
            }
        }
    }
}

/// The index of the pair of consecutive points that segment `k` comes from.
spec fn segment_window(ps: Seq<ChangePoint<i128>>, min: int, max: int, n: int, k: int) -> int
    decreases n,
{
    if n <= 0 {
        0
    } else if k < segments_upto(ps, min, max, n - 1).len() {
        segment_window(ps, min, max, n - 1, k)
    } else {
        n - 1
    }
}

/// Segment `k` comes from a kept pair of consecutive points; the pairs come in
/// increasing order; and every kept pair gives a segment.
proof fn lemma_segment_windows(ps: Seq<ChangePoint<i128>>, min: int, max: int, n: int)
    ensures
        forall|k: int|
            0 <= k < segments_upto(ps, min, max, n).len() ==> {
                let w = #[trigger] segment_window(ps, min, max, n, k);
                &&& 0 <= w < n
                &&& segments_upto(ps, min, max, n)[k] == segment_at(ps, w)
                &&& keeps_height(ps[w].height_after, min, max)
            },
        forall|k1: int, k2: int|
            0 <= k1 < k2 < segments_upto(ps, min, max, n).len() ==> #[trigger] segment_window(
                ps,
                min,
                max,
                n,
                k1,
            ) < #[trigger] segment_window(ps, min, max, n, k2),
        forall|w: int|
            0 <= w < n && #[trigger] keeps_height(ps[w].height_after, min, max) ==> exists|k: int|
                0 <= k < segments_upto(ps, min, max, n).len() && #[trigger] segment_window(
                    ps,
                    min,
                    max,
                    n,
                    k,
                ) == w,
    decreases n,
{
    if n > 0 {
        lemma_segment_windows(ps, min, max, n - 1);
        let rest = segments_upto(ps, min, max, n - 1);
        let all = segments_upto(ps, min, max, n);
        assert forall|k: int| 0 <= k < all.len() implies {
            let w = #[trigger] segment_window(ps, min, max, n, k);
            &&& 0 <= w < n
            &&& all[k] == segment_at(ps, w)
            &&& keeps_height(ps[w].height_after, min, max)
        } by {
            if k < rest.len() {
                assert(segment_window(ps, min, max, n, k) == segment_window(ps, min, max, n - 1, k));
            }
        }
        assert forall|k1: int, k2: int| 0 <= k1 < k2 < all.len() implies #[trigger] segment_window(
            ps,
            min,
            max,
            n,
            k1,
        ) < #[trigger] segment_window(ps, min, max, n, k2) by {
            assert(segment_window(ps, min, max, n, k1) == segment_window(ps, min, max, n - 1, k1));
            if k2 < rest.len() {
                assert(segment_window(ps, min, max, n, k2) == segment_window(
                    ps,
                    min,
                    max,
                    n - 1,
                    k2,
                ));
            }
        }
        assert forall|w: int|
            0 <= w < n && #[trigger] keeps_height(ps[w].height_after, min, max) implies exists|k: int|
            0 <= k < all.len() && #[trigger] segment_window(ps, min, max, n, k) == w by {
            if w < n - 1 {
                let k = choose|k: int|
                    0 <= k < rest.len() && #[trigger] segment_window(ps, min, max, n - 1, k) == w;
                assert(segment_window(ps, min, max, n, k) == w);
            } else {
                assert(segment_window(ps, min, max, n, rest.len() as int) == w);
            }
        }
    }
}

/// The segments of positive height of a canonical stack are, in order,
/// non-empty, with a positive height that holds throughout each of them; each
/// ends at or before the next one starts, and where two touch their heights
/// differ; together they cover every coordinate of positive height.
pub proof fn law_positive_segments(ps: Seq<ChangePoint<i128>>)
    requires
        is_canonical(ps),
    ensures
        ({
            let segs = segments_between(ps, 0, usize::MAX as int);
            &&& forall|k: int| 0 <= k < segs.len() ==> (#[trigger] segs[k]).0.0 < segs[k].0.1 && segs[k].1 > 0
            &&& forall|k: int, x: int|
                0 <= k < segs.len() && segs[k].0.0 <= x < segs[k].0.1 ==> #[trigger] height_of(ps, x)
                    == (#[trigger] segs[k]).1
            &&& forall|k: int|
                0 <= k && k + 1 < segs.len() ==> {
                    &&& (#[trigger] segs[k]).0.1 <= segs[k + 1].0.0
                    &&& segs[k].0.1 == segs[k + 1].0.0 ==> segs[k].1 != segs[k + 1].1
                }
            &&& forall|x: int|
                #[trigger] height_of(ps, x) > 0 ==> exists|k: int|
                    0 <= k < segs.len() && (#[trigger] segs[k]).0.0 <= x < segs[k].0.1
        }),
{
    let n = ps.len() - 1;
    let max = usize::MAX as int;
    let segs = segments_between(ps, 0, max);
    lemma_segment_windows(ps, 0, max, n);
    assert forall|k: int| 0 <= k < segs.len() implies (#[trigger] segs[k]).0.0 < segs[k].0.1
        && segs[k].1 > 0 by {
        law_segments_have_constant_height(ps, 0, max, n, k, 0);
    }
    assert forall|k: int, x: int|
        0 <= k < segs.len() && segs[k].0.0 <= x < segs[k].0.1 implies #[trigger] height_of(ps, x)
        == (#[trigger] segs[k]).1 by {
        law_segments_have_constant_height(ps, 0, max, n, k, x);
    }
    assert forall|k: int| 0 <= k && k + 1 < segs.len() implies {
        &&& (#[trigger] segs[k]).0.1 <= segs[k + 1].0.0
        &&& segs[k].0.1 == segs[k + 1].0.0 ==> segs[k].1 != segs[k + 1].1
    } by {
        let w1 = segment_window(ps, 0, max, n, k);
        let w2 = segment_window(ps, 0, max, n, k + 1);
        assert(w1 < w2);
        if w1 + 1 < w2 {
            assert(ps[w1 + 1].at < ps[w2].at);
        }
        if segs[k].0.1 == segs[k + 1].0.0 {
            if w1 + 1 < w2 {
                assert(false);
            }
            assert(ps[w1 + 1].height_after != height_before(ps, w1 + 1));
        }
    }
    assert forall|x: int| #[trigger] height_of(ps, x) > 0 implies exists|k: int|
        0 <= k < segs.len() && (#[trigger] segs[k]).0.0 <= x < segs[k].0.1 by {
        lemma_height_cases(ps, x);
        let j = choose|j: int|
            0 <= j < ps.len() && #[trigger] ps[j].at <= x && (j + 1 < ps.len() ==> x < ps[j
                + 1].at) && height_of(ps, x) == ps[j].height_after;
        if j + 1 == ps.len() {
            assert(ps.last().height_after == 0);
            assert(false);
        }
        assert(keeps_height(ps[j].height_after, 0, max));
        let k = choose|k: int| 0 <= k < segs.len() && #[trigger] segment_window(ps, 0, max, n, k) == j;
        assert(segs[k] == segment_at(ps, j));
    }
}

/// Every point's height is at most the largest one, and the largest is reached
/// by some point (or is zero when there is none).
proof fn lemma_max_height_attained(ps: Seq<ChangePoint<i128>>)
    ensures
        forall|j: int| 0 <= j < ps.len() ==> #[trigger] ps[j].height_after <= max_height_of(ps),
        max_height_of(ps) == 0 || exists|j: int|
            0 <= j < ps.len() && #[trigger] ps[j].height_after == max_height_of(ps),
    decreases ps.len(),
{
    if ps.len() > 0 {
        let d = ps.drop_last();
        lemma_max_height_attained(d);
        assert forall|j: int| 0 <= j < ps.len() implies #[trigger] ps[j].height_after
            <= max_height_of(ps) by {
            if j < ps.len() - 1 {
                assert(d[j] == ps[j]);
            }
        }
        if max_height_of(ps) != 0 {
            if max_height_of(ps) == ps.last().height_after {
                assert(ps[ps.len() - 1].height_after == max_height_of(ps));
            } else {
                let j = choose|j: int| 0 <= j < d.len() && #[trigger] d[j].height_after == max_height_of(d);
                assert(ps[j] == d[j]);
            }
        }
    }
}

/// The maximum height of the statistics is the largest value that the height
/// function takes.
pub proof fn law_max_height_is_max_of_height(ps: Seq<ChangePoint<i128>>)
    requires
        is_strictly_sorted(ps),
    ensures
        forall|x: int| #[trigger] height_of(ps, x) <= max_height_of(ps),
        exists|x: int| #[trigger] height_of(ps, x) == max_height_of(ps),
{
    lemma_max_height_attained(ps);
    assert forall|x: int| #[trigger] height_of(ps, x) <= max_height_of(ps) by {
        lemma_height_cases(ps, x);
    }
    if max_height_of(ps) == 0 {
        if ps.len() == 0 {
            assert(height_of(ps, 0) == 0);
        } else {
            let a = ps[0].at as int;
            assert forall|j: int| 1 <= j < ps.len() implies a < #[trigger] ps[j].at by {}
            lemma_height_at_index(ps, 1, a);
            assert(height_of(ps, a) == ps[0].height_after);
            assert(ps[0].height_after <= max_height_of(ps));
        }
    } else {
        let j = choose|j: int| 0 <= j < ps.len() && #[trigger] ps[j].height_after == max_height_of(ps);
        let a = ps[j].at as int;
        assert forall|i: int| j + 1 <= i < ps.len() implies a < #[trigger] ps[i].at by {}
        lemma_height_at_index(ps, j + 1, a);
        assert(height_of(ps, a) == max_height_of(ps));
    }
}

/// Every positive point height is at least the smallest positive one, and the
/// smallest positive one is reached by some point (or is zero when no point
/// has a positive height).
proof fn lemma_min_positive_height_attained(ps: Seq<ChangePoint<i128>>)
    ensures
        forall|j: int|
            0 <= j < ps.len() && #[trigger] ps[j].height_after != 0 ==> min_positive_height_of(ps)
                != 0 && min_positive_height_of(ps) <= ps[j].height_after,
        min_positive_height_of(ps) == 0 || exists|j: int|
            0 <= j < ps.len() && #[trigger] ps[j].height_after == min_positive_height_of(ps),
    decreases ps.len(),
{
    if ps.len() > 0 {
        let d = ps.drop_last();
        lemma_min_positive_height_attained(d);
        assert forall|j: int|
            0 <= j < ps.len() && #[trigger] ps[j].height_after != 0 implies min_positive_height_of(ps)
            != 0 && min_positive_height_of(ps) <= ps[j].height_after by {
            if j < ps.len() - 1 {
                assert(d[j] == ps[j]);
            }
        }
        if min_positive_height_of(ps) != 0 {
            if min_positive_height_of(ps) == ps.last().height_after {
                assert(ps[ps.len() - 1].height_after == min_positive_height_of(ps));
            } else {
                let j = choose|j: int|
                    0 <= j < d.len() && #[trigger] d[j].height_after == min_positive_height_of(d);
                assert(ps[j] == d[j]);
            }
        }
    }
}

/// The smallest positive height of the statistics is the smallest positive
/// value that the height function takes, and zero exactly when no coordinate
/// has a positive height.
pub proof fn law_min_positive_height_is_min_of_positive_heights(ps: Seq<ChangePoint<i128>>)
    requires
        is_strictly_sorted(ps),
    ensures
        forall|x: int| #[trigger] height_of(ps, x) > 0 ==> min_positive_height_of(ps) != 0
            && min_positive_height_of(ps) <= height_of(ps, x),
        min_positive_height_of(ps) != 0 ==> exists|x: int| #[trigger] height_of(ps, x)
            == min_positive_height_of(ps),
        min_positive_height_of(ps) == 0 <==> forall|x: int| #[trigger] height_of(ps, x) == 0,
{
    lemma_min_positive_height_attained(ps);
    assert forall|x: int| #[trigger] height_of(ps, x) > 0 implies min_positive_height_of(ps) != 0
        && min_positive_height_of(ps) <= height_of(ps, x) by {
        lemma_height_cases(ps, x);
    }
    if min_positive_height_of(ps) != 0 {
        let j = choose|j: int|
            0 <= j < ps.len() && #[trigger] ps[j].height_after == min_positive_height_of(ps);
        let a = ps[j].at as int;
        assert forall|i: int| j + 1 <= i < ps.len() implies a < #[trigger] ps[i].at by {}
        lemma_height_at_index(ps, j + 1, a);
        assert(height_of(ps, a) == min_positive_height_of(ps));
    } else {
        assert forall|x: int| #[trigger] height_of(ps, x) == 0 by {
            lemma_height_cases(ps, x);
        }
    }
}

/// If every coordinate of a non-empty range is covered, some coordinate of it is.
pub proof fn law_contains_implies_intersects(ps: Seq<ChangePoint<i128>>, lo: int, hi: int)
    requires
        lo < hi,
        forall|x: int| lo <= x < hi ==> #[trigger] height_of(ps, x) != 0,
    ensures
        exists|x: int| lo <= x < hi && #[trigger] height_of(ps, x) != 0,
{
    assert(height_of(ps, lo) != 0);
}

/// Counting the intervals that contain `x` gives the same number whether the
/// intervals are the library's or plain `(start, end)` pairs with the same
/// bounds.
pub proof fn lemma_count_is_naive(ivs: Seq<CoInterval>, pairs: Seq<(i128, i128)>, x: int)
    requires
        ivs.len() == pairs.len(),
        forall|k: int|
            0 <= k < ivs.len() ==> #[trigger] ivs[k].view() == (pairs[k].0 as int, pairs[k].1 as int),
    ensures
        count_containing(ivs, x) == naive_height(pairs, x),
    decreases ivs.len(),
{
    if ivs.len() > 0 {
        let n = ivs.len() - 1;
        assert forall|k: int| 0 <= k < n implies #[trigger] ivs.drop_last()[k].view() == (
            pairs.drop_last()[k].0 as int,
            pairs.drop_last()[k].1 as int,
        ) by {
            assert(ivs[k].view() == (pairs[k].0 as int, pairs[k].1 as int));
        }
        lemma_count_is_naive(ivs.drop_last(), pairs.drop_last(), x);
        assert(ivs[n as int].view() == (pairs[n as int].0 as int, pairs[n as int].1 as int));
        assert(covers(ivs.last(), x) == if pairs.last().0 <= x && x < pairs.last().1 {
            1int
        } else {
            0
        });
    }
}

/// A stack built from intervals has the same change points as counting, at
/// every coordinate, the intervals that contain it.
pub proof fn law_stack_matches_oracle(
    ivs: Seq<CoInterval>,
    pairs: Seq<(i128, i128)>,
    points: Seq<ChangePoint<i128>>,
    oracle: Seq<ChangePoint<i128>>,
)
    requires
        ivs.len() == pairs.len(),
        forall|k: int|
            0 <= k < ivs.len() ==> #[trigger] ivs[k].view() == (pairs[k].0 as int, pairs[k].1 as int),
        is_normalized(points),
        forall|x: int| #[trigger] height_of(points, x) == count_containing(ivs, x),
        is_canonical(oracle),
        forall|x: int| #[trigger] height_of(oracle, x) == naive_height(pairs, x),
    ensures
        points == oracle,
{
    assert forall|x: int| #[trigger] height_of(points, x) == height_of(oracle, x) by {
        lemma_count_is_naive(ivs, pairs, x);
    }
    lemma_normalized_unique(points, oracle);
}

} // verus!
