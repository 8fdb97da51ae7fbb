//! A constant-height run inside a window; the height may be zero.
use vstd::prelude::*;

verus! {

/// A closed-open interval inside a window on which the stack height is
/// constant; zero-height runs are included.
#[derive(Clone, Copy, Debug, PartialEq, Eq)]
pub struct HeightRun<I> {
    pub interval: I,
    pub height: usize,
}

} // verus!
