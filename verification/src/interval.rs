//! Non-empty closed-open integer intervals `[start, end_excl)`.
use vstd::prelude::*;

verus! {

/// A non-empty closed-open interval `[start, end_excl)` of `i128` coordinates.
#[derive(Clone, Copy, Debug, PartialEq, Eq, Hash)]
pub struct CoInterval {
    start: i128,
    end_excl: i128,
}

impl CoInterval {
    #[verifier::type_invariant]
    spec fn valid(self) -> bool {
        self.start < self.end_excl
    }

    /// The interval as a pair `(start, end_excl)` of mathematical integers.
    pub closed spec fn view(self) -> (int, int) {
        (self.start as int, self.end_excl as int)
    }

    /// Whether `x` lies in the interval.
    pub open spec fn spec_contains(self, x: int) -> bool {
        self.view().0 <= x < self.view().1
    }

    /// The interval `[start, end_excl)`; requires it to be non-empty.
    pub fn new(start: i128, end_excl: i128) -> (iv: Self)
        requires
            start < end_excl,
        ensures
            iv.view() == (start as int, end_excl as int),
    {
        CoInterval { start, end_excl }
    }

    /// The interval `[start, end_excl)`, or `None` when it would be empty.
    pub fn try_new(start: i128, end_excl: i128) -> (r: Option<Self>)
        ensures
            r is Some <==> start < end_excl,
            r matches Some(iv) ==> iv.view() == (start as int, end_excl as int),
    {
        if start < end_excl {
            Some(CoInterval { start, end_excl })
        } else {
            None
        }
    }

    /// The inclusive start.
    pub fn start(&self) -> (s: i128)
        ensures
            s == self.view().0,
            self.view().0 < self.view().1,
    {
        proof {
            use_type_invariant(self);
        }
        self.start
    }

    /// The exclusive end.
    pub fn end_excl(&self) -> (e: i128)
        ensures
            e == self.view().1,
            self.view().0 < self.view().1,
    {
        proof {
            use_type_invariant(self);
        }
        self.end_excl
    }

    /// The number of coordinates in the interval.
    pub fn len(&self) -> (n: u128)
        ensures
            n == self.view().1 - self.view().0,
            n > 0,
    {
        proof {
            use_type_invariant(self);
        }
        if self.start >= 0 || self.end_excl < 0 {
            (self.end_excl - self.start) as u128
        } else {
            let below: u128 = (-(self.start + 1)) as u128;
            self.end_excl as u128 + below + 1
        }
    }

    /// The interval `[start, start + len)`, or `None` when `len` is zero or the
    /// end would not be representable.
    pub fn checked_from_start_len(start: i128, len: u128) -> (r: Option<Self>)
        ensures
            r is Some <==> (len > 0 && start + len <= i128::MAX),
            r matches Some(iv) ==> iv.view() == (start as int, start + len),
    {
        if len == 0 {
            return None;
        }
        if start >= 0 {
            let room: u128 = (i128::MAX - start) as u128;
            if len > room {
                return None;
            }
            Some(CoInterval { start, end_excl: start + len as i128 })
        } else {
            let below: u128 = (-(start + 1)) as u128;
            if len <= i128::MAX as u128 {
                Some(CoInterval { start, end_excl: start + len as i128 })
            } else {
                let end: u128 = len - below - 1;
                if end > i128::MAX as u128 {
                    return None;
                }
                Some(CoInterval { start, end_excl: end as i128 })
            }
        }
    }
}

} // verus!
