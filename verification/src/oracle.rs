//! Change points computed directly from the definition of the height: for each
//! endpoint coordinate in order, count the intervals that contain it.
use vstd::prelude::*;

use crate::change_point::{
    height_of, is_canonical, is_normalized, lemma_push_if_changed, ChangePoint,
};
use crate::endpoint::{
    endpoints_from, ep_spec, is_pair_at, is_sorted_by_at, sort_endpoints, Endpoint, EndpointKind,
};

verus! {

broadcast use vstd::seq_lib::group_to_multiset_ensures;

/// Some endpoint of `es` lies at `v`.
pub open spec fn appears_in(es: Seq<Endpoint<i128>>, v: i128) -> bool {
    exists|m: int| 0 <= m < es.len() && #[trigger] es[m].at == v
}

/// Both coordinates of every pair of `ivs` appear among the endpoints `es`.
pub open spec fn all_appear(es: Seq<Endpoint<i128>>, ivs: Seq<(i128, i128)>) -> bool {
    forall|k: int| 0 <= k < ivs.len() ==> appears_in(es, #[trigger] ivs[k].0) && appears_in(es, ivs[k].1)
}

/// The number of pairs `(start, end)` of `ivs` with `start <= x < end`.
pub open spec fn naive_height(ivs: Seq<(i128, i128)>, x: int) -> int
    decreases ivs.len(),
{
    if ivs.len() == 0 {
        0
    } else {
        naive_height(ivs.drop_last(), x) + if ivs.last().0 <= x && x < ivs.last().1 {
            1int
        } else {
            0
        }
    }
}

/// Between coordinates where no pair starts or ends, the count is constant.
pub proof fn lemma_naive_const(ivs: Seq<(i128, i128)>, a: int, b: int)
    requires
        a <= b,
        forall|k: int|
            0 <= k < ivs.len() ==> !(a < #[trigger] ivs[k].0 <= b) && !(a < ivs[k].1 <= b),
    ensures
        naive_height(ivs, b) == naive_height(ivs, a),
    decreases ivs.len(),
{
    if ivs.len() > 0 {
        let d = ivs.drop_last();
        assert forall|k: int| 0 <= k < d.len() implies !(a < #[trigger] d[k].0 <= b) && !(a
            < d[k].1 <= b) by {
            assert(d[k] == ivs[k]);
        }
        assert(!(a < ivs[ivs.len() - 1].0 <= b));
        lemma_naive_const(d, a, b);
    }
}

/// The count lies between zero and the number of pairs.
pub proof fn lemma_naive_bounded(ivs: Seq<(i128, i128)>, x: int)
    ensures
        0 <= naive_height(ivs, x) <= ivs.len(),
    decreases ivs.len(),
{
    if ivs.len() > 0 {
        lemma_naive_bounded(ivs.drop_last(), x);
    }
}

/// Before every start, the count is zero.
pub proof fn lemma_naive_zero(ivs: Seq<(i128, i128)>, x: int)
    requires
        forall|k: int| 0 <= k < ivs.len() ==> x < #[trigger] ivs[k].0,
    ensures
        naive_height(ivs, x) == 0,
    decreases ivs.len(),
{
    if ivs.len() > 0 {
        let d = ivs.drop_last();
        assert forall|k: int| 0 <= k < d.len() implies x < #[trigger] d[k].0 by {
            assert(d[k] == ivs[k]);
        }
        assert(x < ivs[ivs.len() - 1].0);
        lemma_naive_zero(d, x);
    }
}

/// At or after every end, the count is zero.
pub proof fn lemma_naive_zero_after(ivs: Seq<(i128, i128)>, x: int)
    requires
        forall|k: int| 0 <= k < ivs.len() ==> #[trigger] ivs[k].1 <= x,
    ensures
        naive_height(ivs, x) == 0,
    decreases ivs.len(),
{
    if ivs.len() > 0 {
        let d = ivs.drop_last();
        assert forall|k: int| 0 <= k < d.len() implies #[trigger] d[k].1 <= x by {
            assert(d[k] == ivs[k]);
        }
        assert(ivs[ivs.len() - 1].1 <= x);
        lemma_naive_zero_after(d, x);
    }
}

/// Between the coordinate of a group of sorted endpoints and the next
/// coordinate, no pair starts or ends, so the count is constant.
proof fn lemma_oracle_flat(ivs: Seq<(i128, i128)>, es: Seq<Endpoint<i128>>, i: int, c: int, x: int)
    requires
        is_sorted_by_at(es),
        0 < i <= es.len(),
        es[i - 1].at == c,
        i < es.len() ==> x < es[i].at,
        c <= x,
        all_appear(es, ivs),
    ensures
        naive_height(ivs, x) == naive_height(ivs, c),
{
    assert forall|k: int| 0 <= k < ivs.len() implies !(c < #[trigger] ivs[k].0 <= x) && !(c
        < ivs[k].1 <= x) by {
        assert(appears_in(es, ivs[k].0));
        assert(appears_in(es, ivs[k].1));
        let m1 = choose|m: int| 0 <= m < es.len() && #[trigger] es[m].at == ivs[k].0;
        let m2 = choose|m: int| 0 <= m < es.len() && #[trigger] es[m].at == ivs[k].1;
        if m1 < i {
            assert(es[m1].at <= es[i - 1].at);
        } else {
            assert(es[i].at <= es[m1].at);
        }
        if m2 < i {
            assert(es[m2].at <= es[i - 1].at);
        } else {
            assert(es[i].at <= es[m2].at);
        }
    }
    lemma_naive_const(ivs, c, x);
}

/// The number of pairs `(start, end)` with `start <= x < end`.
pub fn naive_height_at(intervals: &[(i128, i128)], x: i128) -> (n: usize)
    ensures
        n == naive_height(intervals@, x as int),
{
    let mut n: usize = 0;
    let mut k: usize = 0;
    while k < intervals.len()
        invariant
            0 <= k <= intervals.len(),
            n <= k,
            n == naive_height(intervals@.take(k as int), x as int),
        decreases intervals.len() - k,
    {
        assert(intervals@.take(k as int + 1).drop_last() =~= intervals@.take(k as int));
        let (s, e) = intervals[k];
        if s <= x && x < e {
            n += 1;
        }
        k += 1;
    }
    assert(intervals@.take(intervals.len() as int) =~= intervals@);
    n
}

/// The canonical change points of the pairs `(start, end)`, computed by
/// counting, at every endpoint coordinate in increasing order, the pairs that
/// contain it.
pub fn oracle_points(intervals: &[(i128, i128)]) -> (points: Vec<ChangePoint<i128>>)
    ensures
        is_canonical(points@),
        forall|x: int| #[trigger] height_of(points@, x) == naive_height(intervals@, x),
{
    let ghost ivs = intervals@;
    let raw = endpoints_from(intervals);
    let es = sort_endpoints(&raw);
    let n = es.len();
    proof {
        assert forall|k: int| 0 <= k < ivs.len() implies appears_in(es@, #[trigger] ivs[k].0)
            && appears_in(es@, ivs[k].1) by {
            assert(is_pair_at(raw@, k, ivs[k]));
            assert(raw@[2 * k] == ep_spec(ivs[k].0, EndpointKind::Enter));
            assert(raw@.contains(raw@[2 * k]));
            assert(raw@.to_multiset().count(raw@[2 * k]) > 0);
            assert(es@.contains(raw@[2 * k]));
            assert(raw@.contains(raw@[2 * k + 1]));
            assert(raw@.to_multiset().count(raw@[2 * k + 1]) > 0);
            assert(es@.contains(raw@[2 * k + 1]));
            let m1 = choose|m: int| 0 <= m < es@.len() && es@[m] == raw@[2 * k];
            let m2 = choose|m: int| 0 <= m < es@.len() && es@[m] == raw@[2 * k + 1];
            assert(es@[m1].at == ivs[k].0);
            assert(es@[m2].at == ivs[k].1);
        }
    }
    let mut out: Vec<ChangePoint<i128>> = Vec::new();
    let mut prev: usize = 0;
    let mut i: usize = 0;
    let ghost mut last_c: int = i128::MIN - 1;
    proof {
        assert forall|x: int| (0 < n ==> x < es@[0].at) implies #[trigger] naive_height(ivs, x)
            == 0 by {
            assert forall|k: int| 0 <= k < ivs.len() implies x < #[trigger] ivs[k].0 by {
                assert(appears_in(es@, ivs[k].0));
                let m = choose|m: int| 0 <= m < es@.len() && #[trigger] es@[m].at == ivs[k].0;
                if m > 0 {
                    assert(es@[0].at <= es@[m].at);
                }
            }
            lemma_naive_zero(ivs, x);
        }
    }
    while i < n
        invariant
            n == es@.len(),
            0 <= i <= n,
            ivs == intervals@,
            is_sorted_by_at(es@),
            all_appear(es@, ivs),
            is_normalized(out@),
            prev == (if out@.len() == 0 { 0 } else { out@.last().height_after }),
            i > 0 ==> es@[i - 1].at == last_c,
            i < n ==> es@[i as int].at > last_c,
            i > 0 ==> prev == naive_height(ivs, last_c),
            out@.len() > 0 ==> out@.last().at <= last_c,
            out@.len() > 0 ==> i > 0,
            forall|x: int|
                (i < n ==> x < es@[i as int].at) ==> #[trigger] height_of(out@, x) == naive_height(
                    ivs,
                    x,
                ),
        decreases n - i,
    {
        let c = es[i].at;
        let ghost i0 = i as int;
        let ghost old_out = out@;
        while i < n && es[i].at == c
            invariant
                n == es@.len(),
                0 <= i0 <= i <= n,
                i0 < n,
                es@[i0].at == c,
                forall|k: int| i0 <= k < i ==> #[trigger] es@[k].at == c,
                ivs == intervals@,
                is_sorted_by_at(es@),
                all_appear(es@, ivs),
            decreases n - i,
        {
            i += 1;
        }
        let h = naive_height_at(intervals, c);
        if h != prev {
            out.push(ChangePoint { at: c, height_after: h });
            proof {
                assert(out@.drop_last() =~= old_out);
            }
            prev = h;
        }
        proof {
            lemma_push_if_changed(old_out, out@, c as int, h as int);
            assert(es@[i - 1].at == c);
            assert(h == naive_height(ivs, c as int));
            assert forall|x: int| (i < n ==> x < es@[i as int].at) implies #[trigger] height_of(
                out@,
                x,
            ) == naive_height(ivs, x) by {
                if x < c {
                    assert(x < es@[i0].at);
                } else {
                    lemma_oracle_flat(ivs, es@, i as int, c as int, x);
                }
            }
            last_c = c as int;
        }
    }
    proof {
        if out@.len() > 0 {
            assert forall|k: int| 0 <= k < ivs.len() implies #[trigger] ivs[k].1 <= last_c by {
                assert(appears_in(es@, ivs[k].1));
                let m = choose|m: int| 0 <= m < es@.len() && #[trigger] es@[m].at == ivs[k].1;
                if m < n - 1 {
                    assert(es@[m].at <= es@[n - 1].at);
                }
            }
            lemma_naive_zero_after(ivs, last_c);
            assert(n > 0);
            assert(prev == naive_height(ivs, last_c));
            assert(out@.last().height_after == 0);
        }
    }
    out
}

} // verus!
