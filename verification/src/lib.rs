//! Canonical stack-height functions for integer half-open intervals.
//!
//! A collection of half-open intervals `[start, end)` is turned into the
//! piecewise-constant function that gives, for every coordinate, the number of
//! input intervals that contain it. The function is stored as canonical change
//! points: strictly increasing coordinates, every point changes the height, and
//! the height returns to zero after the last point.
use vstd::prelude::*;

pub mod change_point;
pub mod build_acc;
pub mod construction;
pub mod coord;
pub mod covered;
pub mod endpoint;
pub mod height_run;
pub mod height_segment;
pub mod height_stats;
pub mod int_co_stack;
pub mod interval;
pub mod laws;
pub mod oracle;
pub mod stack_window;

pub use change_point::ChangePoint;
pub use height_run::HeightRun;
pub use height_segment::HeightSegment;
pub use height_stats::HeightStats;
pub use int_co_stack::IntCOStack;
pub use interval::CoInterval;
pub use stack_window::StackWindow;

verus! {

} // verus!
