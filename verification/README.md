# int_interval_stack

Canonical stack-height functions for integer half-open intervals, verified
with Verus.

Given half-open intervals `[start, end)` over `i128` coordinates, the library
stores the function "number of intervals containing `x`" as canonical change
points (`ChangePoint { at, height_after }`): coordinates strictly increase,
every point changes the height, and the height is zero after the last point.

Layout:

- `src/change_point.rs` – change points, the height function they describe,
  and the uniqueness of the canonical form.
- `src/endpoint.rs` – interval endpoints, their net height, and sorting.
- `src/construction.rs` – the sweep from endpoints and merging two stacks.
- `src/build_acc.rs` – the batched accumulator used to build a stack from many
  intervals.
- `src/coord.rs` – keys for `u128` coordinates (moved by `2^127`, keeping order
  and distances), so stacks over every integer coordinate type fit in `i128`.
- `src/covered.rs` – the covered set (coordinates of positive height).
- `src/int_co_stack.rs` – the stack: queries, predicates and segment listings.
- `src/stack_window.rs` – fixed-length windows and their constant-height runs.
- `src/oracle.rs` – change points computed directly by counting.
- `src/laws.rs` – properties of the library as a whole.
- `app/lib.rs` – conversions to `int_interval` / `int_interval_set` types for
  every coordinate type, sequential and Rayon-based parallel construction, and
  parallel iteration.
