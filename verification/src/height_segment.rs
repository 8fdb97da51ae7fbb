//! A closed-open interval with a constant positive stack height.
use vstd::prelude::*;

verus! {

/// A closed-open interval on which the stack height is constant.
#[derive(Clone, Copy, Debug, PartialEq, Eq)]
pub struct HeightSegment<I> {
    /// Closed-open interval on which the stack height is constant.
    pub interval: I,
    /// Stack height throughout `interval`. Segments of positive height are what
    /// the stack reports; the type itself does not enforce positivity.
    pub height: usize,
}

} // verus!
