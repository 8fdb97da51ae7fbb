//! Summary statistics of the heights that a stack reaches.
use vstd::prelude::*;

use crate::change_point::ChangePoint;

verus! {

/// The largest `height_after` among the points, zero for no points.
pub open spec fn max_height_of(ps: Seq<ChangePoint<i128>>) -> nat
    decreases ps.len(),
{
    if ps.len() == 0 {
        0
    } else {
        let rest = max_height_of(ps.drop_last());
        let h = ps.last().height_after as nat;
        if rest < h {
            h
        } else {
            rest
        }
    }
}

/// The smallest positive `height_after` among the points, zero when there is
/// none.
pub open spec fn min_positive_height_of(ps: Seq<ChangePoint<i128>>) -> nat
    decreases ps.len(),
{
    if ps.len() == 0 {
        0
    } else {
        let rest = min_positive_height_of(ps.drop_last());
        let h = ps.last().height_after as nat;
        if h != 0 && (rest == 0 || h < rest) {
            h
        } else {
            rest
        }
    }
}

/// `stats` are the statistics of the heights that `ps` set.
pub open spec fn stats_match(stats: HeightStats, ps: Seq<ChangePoint<i128>>) -> bool {
    &&& stats.max_height == max_height_of(ps)
    &&& stats.min_positive_height == min_positive_height_of(ps)
}

/// Height statistics of a stack.
#[derive(Clone, Copy, Debug, PartialEq, Eq)]
pub struct HeightStats {
    /// The largest stack height reached anywhere (zero for an empty stack).
    pub max_height: usize,
    /// The smallest positive stack height reached anywhere (zero when no
    /// coordinate is covered).
    pub min_positive_height: usize,
}

impl HeightStats {
    /// Statistics of an empty stack.
    pub fn new() -> (s: Self)
        ensures
            s.max_height == 0,
            s.min_positive_height == 0,
    {
        HeightStats { max_height: 0, min_positive_height: 0 }
    }

    /// Takes one more height into account.
    pub fn observe(&mut self, height: usize)
        ensures
            final(self).max_height == (if old(self).max_height < height {
                height
            } else {
                old(self).max_height
            }),
            final(self).min_positive_height == (if height != 0 && (old(
                self,
            ).min_positive_height == 0 || height < old(self).min_positive_height) {
                height
            } else {
                old(self).min_positive_height
            }),
    {
        if self.max_height < height {
            self.max_height = height;
        }
        if height != 0 && (self.min_positive_height == 0 || height < self.min_positive_height) {
            self.min_positive_height = height;
        }
    }

    /// The largest stack height reached anywhere.
    pub fn max_height(&self) -> (h: usize)
        ensures
            h == self.max_height,
    {
        self.max_height
    }

    /// The smallest positive stack height reached anywhere, or zero when no
    /// coordinate is covered.
    pub fn min_positive_height_or_zero(&self) -> (h: usize)
        ensures
            h == self.min_positive_height,
    {
        self.min_positive_height
    }
}

impl Default for HeightStats {
    fn default() -> (s: Self)
        ensures
            s.max_height == 0,
            s.min_positive_height == 0,
    {
        HeightStats::new()
    }
}

/// Statistics of the heights that `points` set.
pub fn height_stats_from_points(points: &[ChangePoint<i128>]) -> (stats: HeightStats)
    ensures
        stats_match(stats, points@),
{
    let mut stats = HeightStats::new();
    let mut i: usize = 0;
    while i < points.len()
        invariant
            0 <= i <= points.len(),
            stats_match(stats, points@.take(i as int)),
        decreases points.len() - i,
    {
        stats.observe(points[i].height_after);
        assert(points@.take(i as int + 1).drop_last() =~= points@.take(i as int));
        i += 1;
    }
    assert(points@.take(points.len() as int) =~= points@);
    stats
}

} // verus!
