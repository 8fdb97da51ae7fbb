//! The covered set: the coordinates of positive height as a canonical set of
//! intervals.
use vstd::prelude::*;

use crate::change_point::{height_of, is_canonical, lemma_height_at_index, ChangePoint};
use crate::interval::CoInterval;

verus! {

/// Some interval of `ivs` contains `x`.
pub open spec fn covered_by(ivs: Seq<CoInterval>, x: int) -> bool {
    exists|k: int| 0 <= k < ivs.len() && #[trigger] ivs[k].spec_contains(x)
}

/// Each interval ends strictly before the next one starts: the intervals are
/// sorted, disjoint and not adjacent.
pub open spec fn is_separated(ivs: Seq<CoInterval>) -> bool {
    forall|i: int, j: int|
        0 <= i < j < ivs.len() ==> #[trigger] ivs[i].view().1 < #[trigger] ivs[j].view().0
}

/// `ivs` is the canonical interval set of the coordinates of positive height.
pub open spec fn is_covered_set_of(ps: Seq<ChangePoint<i128>>, ivs: Seq<CoInterval>) -> bool {
    &&& forall|k: int| 0 <= k < ivs.len() ==> (#[trigger] ivs[k]).view().0 < ivs[k].view().1
    &&& is_separated(ivs)
    &&& forall|x: int| #[trigger] height_of(ps, x) > 0 <==> covered_by(ivs, x)
}

/// Below the frontier, the coordinates of positive height are those covered by
/// the finished intervals or by the open run.
spec fn covered_below(
    ps: Seq<ChangePoint<i128>>,
    i: int,
    out: Seq<CoInterval>,
    in_run: bool,
    run_start: int,
) -> bool {
    forall|x: int|
        (i < ps.len() ==> x < ps[i].at) ==> (#[trigger] height_of(ps, x) > 0 <==> (covered_by(
            out,
            x,
        ) || (in_run && run_start <= x)))
}

/// Processing point `i` extends the description up to the next point.
proof fn lemma_covered_step(
    ps: Seq<ChangePoint<i128>>,
    i: int,
    old_out: Seq<CoInterval>,
    old_in_run: bool,
    old_start: int,
    out: Seq<CoInterval>,
    in_run: bool,
    run_start: int,
)
    requires
        is_canonical(ps),
        0 <= i < ps.len(),
        covered_below(ps, i, old_out, old_in_run, old_start),
        old_in_run == (i > 0 && ps[i - 1].height_after > 0),
        old_in_run ==> old_start < ps[i].at,
        forall|k: int| 0 <= k < old_out.len() ==> #[trigger] old_out[k].view().1 <= ps[i].at,
        ps[i].height_after > 0 ==> out == old_out && in_run && run_start == (if old_in_run {
            old_start
        } else {
            ps[i].at as int
        }),
        ps[i].height_after == 0 ==> out.len() == old_out.len() + 1 && out.drop_last() == old_out
            && out.last().view() == (old_start, ps[i].at as int) && !in_run,
    ensures
        covered_below(ps, i + 1, out, in_run, run_start),
{
    let c = ps[i].at as int;
    assert(ps[i].height_after != (if i == 0 { 0 } else { ps[i - 1].height_after as int }));
    assert forall|x: int| (i + 1 < ps.len() ==> x < ps[i + 1].at) implies (#[trigger] height_of(
        ps,
        x,
    ) > 0 <==> (covered_by(out, x) || (in_run && run_start <= x))) by {
        if x < c {
            assert(height_of(ps, x) > 0 <==> (covered_by(old_out, x) || (old_in_run && old_start
                <= x)));
            if out.len() > old_out.len() {
                if covered_by(old_out, x) {
                    let k = choose|k: int|
                        0 <= k < old_out.len() && #[trigger] old_out[k].spec_contains(x);
                    assert(out.drop_last()[k] == out[k]);
                    assert(out[k].spec_contains(x));
                }
                if old_in_run && old_start <= x {
                    assert(out[out.len() - 1].spec_contains(x));
                }
                if covered_by(out, x) {
                    let k = choose|k: int| 0 <= k < out.len() && #[trigger] out[k].spec_contains(x);
                    if k < old_out.len() {
                        assert(out.drop_last()[k] == out[k]);
                        assert(old_out[k].spec_contains(x));
                    } else {
                        assert(old_in_run);
                    }
                }
            }
        } else {
            assert forall|j: int| i + 1 <= j < ps.len() implies x < #[trigger] ps[j].at by {
                assert(ps[i + 1].at <= ps[j].at);
            }
            lemma_height_at_index(ps, i + 1, x);
            if covered_by(out, x) {
                let k = choose|k: int| 0 <= k < out.len() && #[trigger] out[k].spec_contains(x);
                if k < old_out.len() {
                    if out.len() > old_out.len() {
                        assert(out.drop_last()[k] == out[k]);
                    }
                    assert(old_out[k].view().1 <= c);
                }
                assert(ps[i].height_after > 0);
            }
        }
    }
}

/// The maximal runs of positive height, as a canonical interval set.
pub fn covered_from_change_points(points: &[ChangePoint<i128>]) -> (ivs: Vec<CoInterval>)
    requires
        is_canonical(points@),
    ensures
        is_covered_set_of(points@, ivs@),
{
    let ghost ps = points@;
    let n = points.len();
    let mut out: Vec<CoInterval> = Vec::new();
    let mut in_run = false;
    let mut run_start: i128 = 0;
    let mut i: usize = 0;
    proof {
        assert forall|x: int| (0 < n ==> x < ps[0].at) implies #[trigger] height_of(ps, x) == 0 by {
            assert forall|j: int| 0 <= j < n implies x < #[trigger] ps[j].at by {
                if j > 0 {
                    assert(ps[0].at < ps[j].at);
                }
            }
            lemma_height_at_index(ps, 0, x);
        }
    }
    while i < n
        invariant
            n == ps.len(),
            ps == points@,
            0 <= i <= n,
            is_canonical(ps),
            in_run == (i > 0 && ps[i - 1].height_after > 0),
            in_run ==> run_start <= ps[i - 1].at,
            is_separated(out@),
            forall|k: int| 0 <= k < out@.len() ==> (#[trigger] out@[k]).view().0 < out@[k].view().1,
            forall|k: int| 0 <= k < out@.len() ==> #[trigger] out@[k].view().1 <= ps[i - 1].at,
            in_run ==> forall|k: int|
                0 <= k < out@.len() ==> #[trigger] out@[k].view().1 < run_start,
            out@.len() > 0 ==> i > 0,
            covered_below(ps, i as int, out@, in_run, run_start as int),
        decreases n - i,
    {
        let p = points[i];
        let ghost old_out = out@;
        let ghost old_in_run = in_run;
        let ghost old_start = run_start;
        proof {
            assert(p.height_after != (if i == 0 { 0 } else { ps[i - 1].height_after as int }));
            if i > 0 {
                assert(ps[i - 1].at < ps[i as int].at);
            }
        }
        if p.height_after > 0 {
            if !in_run {
                in_run = true;
                run_start = p.at;
            }
        } else {
            let iv = CoInterval::new(run_start, p.at);
            out.push(iv);
            in_run = false;
        }
        proof {
            assert forall|k: int| 0 <= k < old_out.len() implies #[trigger] old_out[k].view().1
                <= ps[i as int].at by {
                assert(old_out[k].view().1 <= ps[i - 1].at);
            }
            assert forall|k: int| 0 <= k < out@.len() implies #[trigger] out@[k].view().1
                <= ps[i as int].at by {
                if k < old_out.len() {
                    assert(old_out[k].view().1 <= ps[i - 1].at);
                }
            }
            if out@.len() > old_out.len() {
                assert(out@.drop_last() =~= old_out);
                assert forall|a: int, b: int| 0 <= a < b < out@.len() implies #[trigger] out@[a].view().1
                    < #[trigger] out@[b].view().0 by {
                    if b < old_out.len() {
                        assert(old_out[a].view().1 < old_out[b].view().0);
                    } else {
                        assert(old_out[a].view().1 < old_start);
                    }
                }
            }
            if old_in_run {
                assert(ps[i - 1].at < ps[i as int].at);
            }
            lemma_covered_step(
                ps,
                i as int,
                old_out,
                old_in_run,
                old_start as int,
                out@,
                in_run,
                run_start as int,
            );
        }
        i += 1;
    }
    proof {
        if n > 0 {
            assert(ps.last().height_after == 0);
        }
        assert forall|x: int| #[trigger] height_of(ps, x) > 0 <==> covered_by(out@, x) by {}
    }
    out
}

} // verus!
