//! Interval endpoints, the net height they describe, and sorting them.
use vstd::prelude::*;

verus! {

broadcast use vstd::seq_lib::group_to_multiset_ensures;

/// Whether an endpoint opens or closes an interval.
#[derive(Clone, Copy, Debug, PartialEq, Eq)]
pub enum EndpointKind {
    Enter,
    Leave,
}

/// One end of a half-open interval: an `Enter` at its start, a `Leave` at its
/// exclusive end.
#[derive(Clone, Copy, Debug, PartialEq, Eq)]
pub struct Endpoint<C> {
    pub at: C,
    pub kind: EndpointKind,
}

/// What one endpoint adds to the height at `x`.
pub open spec fn contribution(e: Endpoint<i128>, x: int) -> int {
    if e.at <= x {
        match e.kind {
            EndpointKind::Enter => 1int,
            EndpointKind::Leave => -1int,
        }
    } else {
        0
    }
}

/// The number of `Enter` endpoints at or before `x` minus the number of
/// `Leave` endpoints at or before `x`.
pub open spec fn net_of(es: Seq<Endpoint<i128>>, x: int) -> int
    decreases es.len(),
{
    if es.len() == 0 {
        0
    } else {
        net_of(es.drop_last(), x) + contribution(es.last(), x)
    }
}

/// Coordinates are in non-decreasing order.
pub open spec fn is_sorted_by_at(es: Seq<Endpoint<i128>>) -> bool {
    forall|i: int, j: int| 0 <= i < j < es.len() ==> #[trigger] es[i].at <= #[trigger] es[j].at
}

/// The net height of a concatenation is the sum of the net heights.
pub proof fn lemma_net_concat(s: Seq<Endpoint<i128>>, t: Seq<Endpoint<i128>>, x: int)
    ensures
        net_of(s + t, x) == net_of(s, x) + net_of(t, x),
    decreases t.len(),
{
    if t.len() == 0 {
        assert(s + t =~= s);
    } else {
        assert((s + t).drop_last() =~= s + t.drop_last());
        lemma_net_concat(s, t.drop_last(), x);
    }
}

/// Removing one endpoint removes its contribution.
proof fn lemma_net_remove(s: Seq<Endpoint<i128>>, k: int, x: int)
    requires
        0 <= k < s.len(),
    ensures
        net_of(s, x) == net_of(s.remove(k), x) + contribution(s[k], x),
{
    let a = s.subrange(0, k);
    let b = s.subrange(k + 1, s.len() as int);
    assert(s =~= a + seq![s[k]] + b);
    assert(s.remove(k) =~= a + b);
    lemma_net_concat(a + seq![s[k]], b, x);
    lemma_net_concat(a, seq![s[k]], x);
    lemma_net_concat(a, b, x);
    let one = seq![s[k]];
    assert(one.drop_last() =~= Seq::<Endpoint<i128>>::empty());
    assert(one.last() == s[k]);
    assert(net_of(one, x) == net_of(one.drop_last(), x) + contribution(s[k], x));
}

/// The net height does not depend on the order of the endpoints.
pub proof fn lemma_net_permutation(a: Seq<Endpoint<i128>>, b: Seq<Endpoint<i128>>, x: int)
    requires
        a.to_multiset() == b.to_multiset(),
    ensures
        net_of(a, x) == net_of(b, x),
    decreases a.len(),
{
    broadcast use vstd::multiset::group_multiset_axioms;

    if a.len() == 0 {
        assert(b.to_multiset().len() == 0);
        assert(b.len() == 0);
    } else {
        let e = a.last();
        let ad = a.drop_last();
        assert(a =~= ad.push(e));
        assert(a.to_multiset().count(e) > 0);
        assert(b.contains(e));
        let k = choose|k: int| 0 <= k < b.len() && b[k] == e;
        let bd = b.remove(k);
        assert(bd.to_multiset() =~= b.to_multiset().remove(e));
        assert(ad.to_multiset() =~= a.to_multiset().remove(e));
        lemma_net_permutation(ad, bd, x);
        lemma_net_remove(b, k, x);
    }
}

/// Endpoints after `x` do not matter for the net height at `x`.
pub proof fn lemma_net_prefix(s: Seq<Endpoint<i128>>, k: int, x: int)
    requires
        0 <= k <= s.len(),
        forall|j: int| k <= j < s.len() ==> x < #[trigger] s[j].at,
    ensures
        net_of(s, x) == net_of(s.take(k), x),
    decreases s.len(),
{
    if s.len() == k {
        assert(s.take(k) =~= s);
    } else {
        let d = s.drop_last();
        assert(d.take(k) =~= s.take(k));
        assert(x < s[s.len() - 1].at);
        lemma_net_prefix(d, k, x);
    }
}

/// Appending one endpoint adds its contribution.
pub proof fn lemma_net_push(s: Seq<Endpoint<i128>>, e: Endpoint<i128>, x: int)
    ensures
        net_of(s.push(e), x) == net_of(s, x) + contribution(e, x),
{
    assert(s.push(e).drop_last() =~= s);
}

/// An endpoint.
pub open spec fn ep_spec(at: i128, kind: EndpointKind) -> Endpoint<i128> {
    Endpoint { at, kind }
}

/// An endpoint.
pub fn ep(at: i128, kind: EndpointKind) -> (e: Endpoint<i128>)
    ensures
        e == ep_spec(at, kind),
{
    Endpoint { at, kind }
}

/// Positions `2k` and `2k + 1` of `es` hold the `Enter` and `Leave` endpoints of `iv`.
pub open spec fn is_pair_at(es: Seq<Endpoint<i128>>, k: int, iv: (i128, i128)) -> bool {
    &&& es[2 * k].at == iv.0
    &&& es[2 * k].kind == EndpointKind::Enter
    &&& es[2 * k + 1].at == iv.1
    &&& es[2 * k + 1].kind == EndpointKind::Leave
}

/// The `Enter` and `Leave` endpoints of each `(start, end)` pair, in order.
pub fn endpoints_from(intervals: &[(i128, i128)]) -> (es: Vec<Endpoint<i128>>)
    ensures
        es.len() == 2 * intervals.len(),
        forall|k: int| 0 <= k < intervals.len() ==> is_pair_at(es@, k, intervals[k]),
{
    let mut es: Vec<Endpoint<i128>> = Vec::new();
    let mut k: usize = 0;
    while k < intervals.len()
        invariant
            0 <= k <= intervals.len(),
            es.len() == 2 * k,
            forall|m: int| 0 <= m < k ==> is_pair_at(es@, m, intervals[m]),
        decreases intervals.len() - k,
    {
        let (start, end) = intervals[k];
        es.push(ep(start, EndpointKind::Enter));
        es.push(ep(end, EndpointKind::Leave));
        k += 1;
    }
    es
}

/// Merges two sorted sequences of endpoints.
fn merge_sorted(a: &Vec<Endpoint<i128>>, b: &Vec<Endpoint<i128>>) -> (out: Vec<Endpoint<i128>>)
    requires
        is_sorted_by_at(a@),
        is_sorted_by_at(b@),
    ensures
        is_sorted_by_at(out@),
        out@.to_multiset() == a@.to_multiset().add(b@.to_multiset()),
{
    broadcast use vstd::multiset::group_multiset_axioms;

    let mut out: Vec<Endpoint<i128>> = Vec::new();
    let mut i: usize = 0;
    let mut j: usize = 0;
    while i < a.len() || j < b.len()
        invariant
            0 <= i <= a.len(),
            0 <= j <= b.len(),
            is_sorted_by_at(a@),
            is_sorted_by_at(b@),
            is_sorted_by_at(out@),
            out@.to_multiset() == a@.take(i as int).to_multiset().add(
                b@.take(j as int).to_multiset(),
            ),
            out@.len() > 0 && i < a.len() ==> out@.last().at <= a@[i as int].at,
            out@.len() > 0 && j < b.len() ==> out@.last().at <= b@[j as int].at,
        decreases a.len() - i + b.len() - j,
    {
        let ghost old_out = out@;
        if i < a.len() && (j >= b.len() || a[i].at <= b[j].at) {
            let e = a[i];
            out.push(e);
            assert(a@.take(i as int + 1) =~= a@.take(i as int).push(e));
            i += 1;
        } else {
            let e = b[j];
            out.push(e);
            assert(b@.take(j as int + 1) =~= b@.take(j as int).push(e));
            j += 1;
        }
        proof {
            assert(out@.drop_last() =~= old_out);
            assert(out@.to_multiset() =~= a@.take(i as int).to_multiset().add(
                b@.take(j as int).to_multiset(),
            ));
            assert forall|p: int, q: int| 0 <= p < q < out@.len() implies #[trigger] out@[p].at
                <= #[trigger] out@[q].at by {
                if q < out@.len() - 1 {
                    assert(old_out[p].at <= old_out[q].at);
                } else if p < out@.len() - 1 {
                    assert(old_out[p].at <= old_out.last().at);
                }
            }
            if i < a.len() && out@.len() > 0 {
                if i > 0 {
                    assert(a@[i - 1].at <= a@[i as int].at);
                }
            }
            if j < b.len() && out@.len() > 0 {
                if j > 0 {
                    assert(b@[j - 1].at <= b@[j as int].at);
                }
            }
        }
    }
    assert(a@.take(a.len() as int) =~= a@);
    assert(b@.take(b.len() as int) =~= b@);
    out
}

/// Sorts `v[lo..hi]` by coordinate.
fn sort_range(v: &Vec<Endpoint<i128>>, lo: usize, hi: usize) -> (out: Vec<Endpoint<i128>>)
    requires
        lo <= hi <= v.len(),
    ensures
        is_sorted_by_at(out@),
        out@.to_multiset() == v@.subrange(lo as int, hi as int).to_multiset(),
    decreases hi - lo,
{
    broadcast use vstd::seq_lib::lemma_multiset_commutative;

    if hi - lo <= 1 {
        let mut out: Vec<Endpoint<i128>> = Vec::new();
        if hi - lo == 1 {
            out.push(v[lo]);
        }
        assert(out@ =~= v@.subrange(lo as int, hi as int));
        out
    } else {
        let mid = lo + (hi - lo) / 2;
        let left = sort_range(v, lo, mid);
        let right = sort_range(v, mid, hi);
        assert(v@.subrange(lo as int, hi as int) =~= v@.subrange(lo as int, mid as int)
            + v@.subrange(mid as int, hi as int));
        merge_sorted(&left, &right)
    }
}

/// Sorts endpoints by coordinate.
pub fn sort_endpoints(v: &Vec<Endpoint<i128>>) -> (out: Vec<Endpoint<i128>>)
    ensures
        is_sorted_by_at(out@),
        out@.to_multiset() == v@.to_multiset(),
{
    let out = sort_range(v, 0, v.len());
    assert(v@.subrange(0, v.len() as int) =~= v@);
    out
}

} // verus!
