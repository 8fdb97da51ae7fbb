//! Building a stack from many intervals in batches: each full batch of
//! endpoints is swept into change points, and the results are merged like the
//! digits of a binary counter.
use vstd::prelude::*;

use crate::change_point::{height_of, is_canonical, ChangePoint};
use crate::construction::{build_points_from_endpoints, merge_parts, merge_points, parts};
use crate::endpoint::{ep_spec, lemma_net_push, net_of, Endpoint, EndpointKind};
use crate::height_stats::stats_match;
use crate::interval::CoInterval;

verus! {

/// Number of intervals collected before their endpoints are swept into a level.
pub const BATCH_SIZE: usize = 1024;

/// Accumulates intervals in batches: each full batch of endpoints is swept into
/// change points, which are merged into `levels` like a binary counter (level
/// `k` holds the merge of `2^k` batches).
#[derive(Debug)]
pub struct StackBuildAcc<C> {
    pub endpoints: Vec<Endpoint<C>>,
    pub levels: Vec<Option<Vec<ChangePoint<C>>>>,
}

/// The height that the occupied levels add up to at `x`.
pub open spec fn levels_height(ls: Seq<Option<Vec<ChangePoint<i128>>>>, x: int) -> int
    decreases ls.len(),
{
    if ls.len() == 0 {
        0
    } else {
        levels_height(ls.drop_last(), x) + match ls.last() {
            Some(v) => height_of(v@, x),
            None => 0,
        }
    }
}

/// An unoccupied level, or one that holds a canonical stack.
pub open spec fn level_ok(l: Option<Vec<ChangePoint<i128>>>) -> bool {
    match l {
        Some(v) => is_canonical(v@),
        None => true,
    }
}

/// The height of everything an accumulator holds: pending endpoints and levels.
pub open spec fn acc_height(acc: StackBuildAcc<i128>, x: int) -> int {
    net_of(acc.endpoints@, x) + levels_height(acc.levels@, x)
}

/// The interval contributes one to the height at `x`.
pub open spec fn covers(iv: CoInterval, x: int) -> int {
    if iv.spec_contains(x) {
        1
    } else {
        0
    }
}

/// The state that every accumulator built by these functions is in.
pub open spec fn acc_ok(acc: StackBuildAcc<i128>) -> bool {
    &&& forall|j: int| 0 <= j < acc.levels@.len() ==> #[trigger] level_ok(acc.levels@[j])
    &&& forall|x: int| #[trigger] net_of(acc.endpoints@, x) >= 0
    &&& net_of(acc.endpoints@, i128::MAX as int) == 0
    &&& forall|x: int| #[trigger] acc_height(acc, x) <= usize::MAX
}

/// `new` results from pushing a stack of height `f` into `old` as into a binary
/// counter: the first unoccupied level `k` receives the merge of `f` with levels
/// `0..k`, which become unoccupied; the levels above `k` are unchanged.
pub open spec fn carried(
    old: Seq<Option<Vec<ChangePoint<i128>>>>,
    new: Seq<Option<Vec<ChangePoint<i128>>>>,
    f: spec_fn(int) -> int,
) -> bool {
    exists|k: int|
        #![trigger old.take(k)]
        {
            &&& 0 <= k <= old.len()
            &&& forall|j: int| 0 <= j < k ==> #[trigger] old[j] is Some
            &&& k < old.len() ==> old[k] is None
            &&& new.len() == (if k == old.len() { old.len() + 1 } else { old.len() })
            &&& forall|j: int| 0 <= j < k ==> #[trigger] new[j] is None
            &&& new[k] is Some
            &&& is_canonical(new[k]->0@)
            &&& forall|x: int|
                #[trigger] height_of(new[k]->0@, x) == f(x) + levels_height(old.take(k), x)
            &&& forall|j: int| k < j < old.len() ==> #[trigger] new[j] == old[j]
        }
}

proof fn lemma_levels_height_concat(
    a: Seq<Option<Vec<ChangePoint<i128>>>>,
    b: Seq<Option<Vec<ChangePoint<i128>>>>,
    x: int,
)
    ensures
        levels_height(a + b, x) == levels_height(a, x) + levels_height(b, x),
    decreases b.len(),
{
    if b.len() == 0 {
        assert(a + b =~= a);
    } else {
        assert((a + b).drop_last() =~= a + b.drop_last());
        lemma_levels_height_concat(a, b.drop_last(), x);
    }
}

proof fn lemma_levels_height_nonneg(a: Seq<Option<Vec<ChangePoint<i128>>>>, x: int)
    ensures
        levels_height(a, x) >= 0,
    decreases a.len(),
{
    if a.len() > 0 {
        lemma_levels_height_nonneg(a.drop_last(), x);
        match a.last() {
            Some(v) => {
                lemma_height_nonneg(v@, x);
            },
            None => {},
        }
    }
}

proof fn lemma_height_nonneg(s: Seq<ChangePoint<i128>>, x: int)
    ensures
        height_of(s, x) >= 0,
    decreases s.len(),
{
    if s.len() > 0 {
        lemma_height_nonneg(s.drop_last(), x);
    }
}

proof fn lemma_levels_height_none(a: Seq<Option<Vec<ChangePoint<i128>>>>, x: int)
    requires
        forall|j: int| 0 <= j < a.len() ==> #[trigger] a[j] is None,
    ensures
        levels_height(a, x) == 0,
    decreases a.len(),
{
    if a.len() > 0 {
        lemma_levels_height_none(a.drop_last(), x);
    }
}

proof fn lemma_levels_height_push(
    a: Seq<Option<Vec<ChangePoint<i128>>>>,
    l: Option<Vec<ChangePoint<i128>>>,
    x: int,
)
    ensures
        levels_height(a.push(l), x) == levels_height(a, x) + match l {
            Some(v) => height_of(v@, x),
            None => 0,
        },
{
    assert(a.push(l).drop_last() =~= a);
}

impl StackBuildAcc<i128> {
    /// An empty accumulator.
    pub fn new() -> (acc: Self)
        ensures
            acc.endpoints@.len() == 0,
            acc.levels@.len() == 0,
            acc_ok(acc),
    {
        StackBuildAcc { endpoints: Vec::new(), levels: Vec::new() }
    }

    /// Sweeps the pending endpoints into change points and pushes them into the
    /// levels; does nothing when no endpoint is pending.
    pub fn flush(&mut self)
        requires
            acc_ok(*old(self)),
        ensures
            acc_ok(*final(self)),
            final(self).endpoints@.len() == 0,
            forall|x: int| #[trigger] acc_height(*final(self), x) == acc_height(*old(self), x),
            old(self).endpoints@.len() == 0 ==> final(self).levels@ == old(self).levels@,
            old(self).endpoints@.len() > 0 ==> carried(
                old(self).levels@,
                final(self).levels@,
                |x: int| net_of(old(self).endpoints@, x),
            ),
    {
        if self.endpoints.len() == 0 {
            return;
        }
        let ghost old_eps = self.endpoints@;
        let mut eps: Vec<Endpoint<i128>> = Vec::new();
        std::mem::swap(&mut eps, &mut self.endpoints);
        let points = build_points_from_endpoints(eps);
        proof {
            assert forall|x: int| #[trigger] net_of(self.endpoints@, x) >= 0 by {}
            assert forall|x: int| #[trigger] acc_height(*self, x) <= usize::MAX by {
                assert(acc_height(*old(self), x) <= usize::MAX);
            }
            assert forall|x: int| #[trigger] acc_height(*self, x) + height_of(points@, x)
                <= usize::MAX by {
                assert(acc_height(*old(self), x) <= usize::MAX);
            }
        }
        self.push_points(points);
        proof {
            assert forall|x: int| #[trigger] acc_height(*self, x) == acc_height(*old(self), x) by {
                assert(height_of(points@, x) == net_of(old_eps, x));
            }
            let f1 = |x: int| height_of(points@, x);
            let f2 = |x: int| net_of(old_eps, x);
            assert(f1 =~= f2);
        }
    }

    /// Adds the endpoints of one interval; sweeps them into the levels once a
    /// batch is complete.
    pub fn push_interval(&mut self, interval: CoInterval)
        requires
            acc_ok(*old(self)),
            forall|x: int| #[trigger] acc_height(*old(self), x) + covers(interval, x) <= usize::MAX,
        ensures
            acc_ok(*final(self)),
            forall|x: int|
                #[trigger] acc_height(*final(self), x) == acc_height(*old(self), x) + covers(
                    interval,
                    x,
                ),
            old(self).endpoints@.len() + 2 < 2 * BATCH_SIZE ==> {
                &&& final(self).levels@ == old(self).levels@
                &&& final(self).endpoints@.len() == old(self).endpoints@.len() + 2
                &&& final(self).endpoints@.drop_last().drop_last() == old(self).endpoints@
                &&& final(self).endpoints@.last() == ep_spec(
                    interval.view().1 as i128,
                    EndpointKind::Leave,
                )
                &&& final(self).endpoints@[old(self).endpoints@.len() as int] == ep_spec(
                    interval.view().0 as i128,
                    EndpointKind::Enter,
                )
            },
            old(self).endpoints@.len() + 2 >= 2 * BATCH_SIZE ==> {
                &&& final(self).endpoints@.len() == 0
                &&& carried(
                    old(self).levels@,
                    final(self).levels@,
                    |x: int| net_of(old(self).endpoints@, x) + covers(interval, x),
                )
            },
    {
        let start = interval.start();
        let end_excl = interval.end_excl();
        let ghost e0 = self.endpoints@;
        let a = Endpoint { at: start, kind: EndpointKind::Enter };
        let b = Endpoint { at: end_excl, kind: EndpointKind::Leave };
        self.endpoints.push(a);
        self.endpoints.push(b);
        proof {
            assert(self.endpoints@ =~= e0.push(a).push(b));
            assert forall|x: int| #[trigger] net_of(self.endpoints@, x) == net_of(e0, x) + covers(
                interval,
                x,
            ) by {
                lemma_net_push(e0, a, x);
                lemma_net_push(e0.push(a), b, x);
            }
            assert(net_of(self.endpoints@, i128::MAX as int) == 0);
            assert forall|x: int| #[trigger] net_of(self.endpoints@, x) >= 0 by {
                assert(net_of(e0, x) >= 0);
            }
            assert forall|x: int| #[trigger] acc_height(*self, x) == acc_height(*old(self), x)
                + covers(interval, x) by {
                assert(net_of(self.endpoints@, x) == net_of(e0, x) + covers(interval, x));
            }
            assert(self.endpoints@.drop_last().drop_last() =~= e0);
        }
        if self.endpoints.len() >= BATCH_SIZE * 2 {
            let ghost mid = self.endpoints@;
            self.flush();
            proof {
                let f1 = |x: int| net_of(mid, x);
                let f2 = |x: int| net_of(e0, x) + covers(interval, x);
                assert(f1 =~= f2);
            }
        }
    }

    /// Sweeps what is pending and merges all levels into one canonical stack.
    pub fn finish(self) -> (points: Vec<ChangePoint<i128>>)
        requires
            acc_ok(self),
        ensures
            is_canonical(points@),
            forall|x: int| #[trigger] height_of(points@, x) == acc_height(self, x),
    {
        let mut acc = self;
        acc.flush();
        let mut result: Vec<ChangePoint<i128>> = Vec::new();
        let mut i: usize = 0;
        proof {
            assert(acc.levels@.take(0) =~= Seq::<Option<Vec<ChangePoint<i128>>>>::empty());
        }
        while i < acc.levels.len()
            invariant
                0 <= i <= acc.levels@.len(),
                acc_ok(acc),
                acc.endpoints@.len() == 0,
                is_canonical(result@),
                forall|x: int| #[trigger] height_of(result@, x) == levels_height(
                    acc.levels@.take(i as int),
                    x,
                ),
            decreases acc.levels@.len() - i,
        {
            let ghost li = acc.levels@.take(i as int);
            proof {
                assert(acc.levels@.take(i as int + 1) =~= li.push(acc.levels@[i as int]));
                assert(level_ok(acc.levels@[i as int]));
            }
            match &acc.levels[i] {
                Some(v) => {
                    proof {
                        assert forall|x: int| #[trigger] height_of(v@, x) + height_of(result@, x)
                            <= usize::MAX by {
                            let ls = acc.levels@;
                            lemma_levels_height_push(li, ls[i as int], x);
                            assert(ls =~= ls.take(i as int + 1) + ls.skip(i as int + 1));
                            lemma_levels_height_concat(
                                ls.take(i as int + 1),
                                ls.skip(i as int + 1),
                                x,
                            );
                            lemma_levels_height_nonneg(ls.skip(i as int + 1), x);
                            assert(acc_height(acc, x) <= usize::MAX);
                        }
                    }
                    result = merge_points(v.as_slice(), result.as_slice());
                },
                None => {},
            }
            proof {
                assert forall|x: int| #[trigger] height_of(result@, x) == levels_height(
                    acc.levels@.take(i as int + 1),
                    x,
                ) by {
                    lemma_levels_height_push(li, acc.levels@[i as int], x);
                }
            }
            i += 1;
        }
        proof {
            assert(acc.levels@.take(acc.levels@.len() as int) =~= acc.levels@);
            assert forall|x: int| #[trigger] height_of(result@, x) == acc_height(self, x) by {
                assert(acc.endpoints@ =~= Seq::<Endpoint<i128>>::empty());
                assert(net_of(acc.endpoints@, x) == 0);
                assert(acc_height(acc, x) == acc_height(self, x));
            }
        }
        result
    }

    /// Pushes a canonical stack into the levels, carrying like a binary counter.
    pub fn push_points(&mut self, points: Vec<ChangePoint<i128>>)
        requires
            acc_ok(*old(self)),
            is_canonical(points@),
            forall|x: int| #[trigger] acc_height(*old(self), x) + height_of(points@, x) <= usize::MAX,
        ensures
            acc_ok(*final(self)),
            final(self).endpoints@ == old(self).endpoints@,
            forall|x: int|
                #[trigger] acc_height(*final(self), x) == acc_height(*old(self), x) + height_of(
                    points@,
                    x,
                ),
            carried(old(self).levels@, final(self).levels@, |x: int| height_of(points@, x)),
    {
        let ghost old_levels = self.levels@;
        let ghost pts = points@;
        let mut carry = parts(points);
        let mut level: usize = 0;
        proof {
            assert(old_levels.take(0) =~= Seq::<Option<Vec<ChangePoint<i128>>>>::empty());
        }
        while level < self.levels.len() && self.levels[level].is_some()
            invariant
                0 <= level <= self.levels@.len(),
                self.levels@.len() == old_levels.len(),
                self.endpoints@ == old(self).endpoints@,
                old_levels == old(self).levels@,
                acc_ok(*old(self)),
                forall|x: int| #[trigger] acc_height(*old(self), x) + height_of(pts, x) <= usize::MAX,
                forall|j: int| 0 <= j < level ==> #[trigger] self.levels@[j] is None,
                forall|j: int| 0 <= j < level ==> #[trigger] old_levels[j] is Some,
                forall|j: int| level <= j < old_levels.len() ==> #[trigger] self.levels@[j]
                    == old_levels[j],
                is_canonical(carry.points@),
                stats_match(carry.height_stats, carry.points@),
                forall|x: int|
                    #[trigger] height_of(carry.points@, x) == height_of(pts, x) + levels_height(
                        old_levels.take(level as int),
                        x,
                    ),
            decreases old_levels.len() - level,
        {
            let mut taken: Option<Vec<ChangePoint<i128>>> = None;
            std::mem::swap(&mut taken, &mut self.levels[level]);
            let existing = match taken {
                Some(v) => v,
                None => Vec::new(),
            };
            proof {
                assert(existing@ == old_levels[level as int]->0@);
                assert(level_ok(old_levels[level as int]));
                assert(old_levels.take(level as int + 1) =~= old_levels.take(level as int).push(
                    old_levels[level as int],
                ));
                assert forall|x: int| #[trigger] height_of(existing@, x) + height_of(
                    carry.points@,
                    x,
                ) <= usize::MAX by {
                    lemma_levels_height_push(
                        old_levels.take(level as int),
                        old_levels[level as int],
                        x,
                    );
                    assert(old_levels =~= old_levels.take(level as int + 1) + old_levels.skip(
                        level as int + 1,
                    ));
                    lemma_levels_height_concat(
                        old_levels.take(level as int + 1),
                        old_levels.skip(level as int + 1),
                        x,
                    );
                    lemma_levels_height_nonneg(old_levels.skip(level as int + 1), x);
                    assert(acc_height(*old(self), x) + height_of(pts, x) <= usize::MAX);
                }
            }
            let existing_parts = parts(existing);
            carry = merge_parts(&existing_parts, &carry);
            proof {
                assert forall|x: int| #[trigger] height_of(carry.points@, x) == height_of(pts, x)
                    + levels_height(old_levels.take(level as int + 1), x) by {
                    lemma_levels_height_push(
                        old_levels.take(level as int),
                        old_levels[level as int],
                        x,
                    );
                }
            }
            level += 1;
        }
        let ghost k = level as int;
        let ghost mid = self.levels@;
        if level == self.levels.len() {
            self.levels.push(Some(carry.points));
        } else {
            self.levels.set(level, Some(carry.points));
        }
        proof {
            let new_levels = self.levels@;
            let c = new_levels[k]->0@;
            assert(carried(old_levels, new_levels, |x: int| height_of(pts, x))) by {
                assert(old_levels.take(k) == old_levels.take(k));
            }
            assert forall|x: int| #[trigger] acc_height(*self, x) == acc_height(*old(self), x)
                + height_of(pts, x) by {
                let nones = new_levels.take(k);
                assert forall|j: int| 0 <= j < nones.len() implies #[trigger] nones[j] is None by {
                    assert(new_levels[j] is None);
                }
                lemma_levels_height_none(nones, x);
                assert(old_levels =~= old_levels.take(k) + old_levels.skip(k));
                lemma_levels_height_concat(old_levels.take(k), old_levels.skip(k), x);
                if k == old_levels.len() {
                    assert(new_levels =~= nones.push(new_levels[k]));
                    lemma_levels_height_push(nones, new_levels[k], x);
                    assert(old_levels.skip(k) =~= Seq::<Option<Vec<ChangePoint<i128>>>>::empty());
                } else {
                    let rest = old_levels.skip(k + 1);
                    assert(new_levels =~= nones.push(new_levels[k]) + rest);
                    lemma_levels_height_concat(nones.push(new_levels[k]), rest, x);
                    lemma_levels_height_push(nones, new_levels[k], x);
                    assert(old_levels.skip(k) =~= seq![old_levels[k]] + rest);
                    lemma_levels_height_concat(seq![old_levels[k]], rest, x);
                    assert(seq![old_levels[k]] =~= Seq::<Option<Vec<ChangePoint<i128>>>>::empty().push(
                        old_levels[k],
                    ));
                    lemma_levels_height_push(
                        Seq::<Option<Vec<ChangePoint<i128>>>>::empty(),
                        old_levels[k],
                        x,
                    );
                }
            }
            assert forall|j: int| 0 <= j < new_levels.len() implies #[trigger] level_ok(
                new_levels[j],
            ) by {
                if j > k {
                    assert(level_ok(old_levels[j]));
                }
            }
        }
    }
}

/// The change points held at `level`, if that level is occupied.
pub fn level_points(acc: &StackBuildAcc<i128>, level: usize) -> (r: Option<&Vec<ChangePoint<i128>>>)
    ensures
        r is Some <==> (level < acc.levels@.len() && acc.levels@[level as int] is Some),
        r matches Some(v) ==> *v == acc.levels@[level as int]->0,
{
    if level < acc.levels.len() {
        match &acc.levels[level] {
            Some(v) => Some(v),
            None => None,
        }
    } else {
        None
    }
}


} // verus!
