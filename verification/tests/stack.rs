use int_interval_stack::coord::{key_from_u128, u128_from_key};
use int_interval_stack::stack_window::{start_at, window_at, window_count};
use int_interval_stack::{ChangePoint, CoInterval, IntCOStack};

fn iv(start: i128, end_excl: i128) -> CoInterval {
    CoInterval::try_new(start, end_excl).unwrap()
}

fn cp(at: i128, height_after: usize) -> ChangePoint<i128> {
    ChangePoint { at, height_after }
}

fn stack_from_intervals(intervals: &[(i128, i128)]) -> IntCOStack {
    let ivs: Vec<CoInterval> = intervals.iter().map(|&(s, e)| iv(s, e)).collect();
    IntCOStack::from_intervals(&ivs)
}

fn collect_segments(segs: Vec<(CoInterval, usize)>) -> Vec<((i128, i128), usize)> {
    segs.into_iter()
        .map(|(iv, h)| ((iv.start(), iv.end_excl()), h))
        .collect()
}

fn naive_height_at(intervals: &[(i128, i128)], x: i128) -> usize {
    intervals.iter().filter(|&&(s, e)| s <= x && x < e).count()
}

fn intervals_from_seed(seed: u64, count: usize) -> Vec<(i128, i128)> {
    let mut state = seed.wrapping_mul(6364136223846793005).wrapping_add(1442695040888963407);
    let mut out = Vec::new();
    for _ in 0..count {
        state = state.wrapping_mul(6364136223846793005).wrapping_add(1442695040888963407);
        let start = ((state >> 33) % 49) as i128 - 24;
        state = state.wrapping_mul(6364136223846793005).wrapping_add(1442695040888963407);
        let len = ((state >> 33) % 24) as i128 + 1;
        out.push((start, start + len));
    }
    out
}

#[test]
fn zero_threshold_edges_behave_as_current_implementation() {
    let stack = stack_from_intervals(&[(0, 2), (1, 3)]);

    assert_eq!(
        collect_segments(stack.iter_intervals()),
        collect_segments(stack.iter_intervals_at_least(0)),
    );
    assert!(collect_segments(stack.iter_intervals_at_most(0)).is_empty());
    assert!(collect_segments(stack.iter_intervals_exactly(0)).is_empty());
    assert!(collect_segments(stack.iter_intervals_between(3, 2)).is_empty());
}

#[test]
fn peak_intervals_return_all_max_segments() {
    let stack = stack_from_intervals(&[(0, 2), (1, 3), (5, 7), (6, 8)]);
    assert_eq!(
        collect_segments(stack.peak_intervals()),
        vec![((1, 2), 2), ((6, 7), 2)],
    );
}

#[test]
fn intersects_can_succeed_even_if_query_start_is_uncovered() {
    let stack = stack_from_intervals(&[(5, 8)]);
    assert!(stack.intersects_interval(iv(3, 6)));
}

#[test]
fn contains_fails_if_query_crosses_an_internal_gap() {
    let stack = stack_from_intervals(&[(0, 2), (4, 6)]);
    assert!(!stack.contains_interval(iv(1, 5)));
}

#[test]
fn height_at_counts_containing_intervals() {
    let stack = stack_from_intervals(&[(0, 10), (3, 7), (5, 12)]);

    assert_eq!(stack.height_at(2), 1);
    assert_eq!(stack.height_at(4), 2);
    assert_eq!(stack.height_at(6), 3);
    assert_eq!(stack.height_at(11), 1);
    assert_eq!(stack.height_at(12), 0);
    assert_eq!(stack.height_at(-1), 0);
    assert_eq!(stack.height_stats().max_height(), 3);
    assert_eq!(stack.height_stats().min_positive_height_or_zero(), 1);
    let uniform = stack_from_intervals(&[(0, 4), (0, 4), (9, 12), (9, 12)]);
    assert_eq!(uniform.height_stats().min_positive_height_or_zero(), 2);
    assert_eq!(uniform.height_stats().max_height(), 2);
    assert_eq!(stack_from_intervals(&[]).height_stats().min_positive_height_or_zero(), 0);
}

#[test]
fn change_points_of_nested_intervals() {
    let stack = stack_from_intervals(&[(0, 10), (3, 7)]);
    assert_eq!(
        stack.change_points(),
        &[cp(0, 1), cp(3, 2), cp(7, 1), cp(10, 0)]
    );
}

#[test]
fn covered_projects_positive_heights() {
    let stack = stack_from_intervals(&[(0, 10), (3, 7), (20, 30)]);
    let covered: Vec<(i128, i128)> = stack
        .covered()
        .iter()
        .map(|iv| (iv.start(), iv.end_excl()))
        .collect();
    assert_eq!(covered, vec![(0, 10), (20, 30)]);

    let touching = stack_from_intervals(&[(0, 5), (5, 8), (9, 10)]);
    let covered: Vec<(i128, i128)> = touching
        .covered()
        .iter()
        .map(|iv| (iv.start(), iv.end_excl()))
        .collect();
    assert_eq!(covered, vec![(0, 8), (9, 10)]);
}

#[test]
fn segments_of_nested_intervals() {
    let stack = stack_from_intervals(&[(0, 10), (3, 7)]);
    assert_eq!(
        collect_segments(stack.iter_intervals()),
        vec![((0, 3), 1), ((3, 7), 2), ((7, 10), 1)]
    );
    let stack = stack_from_intervals(&[(0, 10), (3, 7), (5, 12)]);
    assert_eq!(collect_segments(stack.peak_intervals()), vec![((5, 7), 3)]);
    assert_eq!(
        collect_segments(stack.iter_intervals_between(2, 2)),
        vec![((3, 5), 2), ((7, 10), 2)]
    );
    assert_eq!(
        collect_segments(stack.iter_intervals_at_least(2)),
        vec![((3, 5), 2), ((5, 7), 3), ((7, 10), 2)]
    );
    assert_eq!(
        collect_segments(stack.iter_intervals_at_most(1)),
        vec![((0, 3), 1), ((10, 12), 1)]
    );
    assert_eq!(collect_segments(stack.iter_intervals_exactly(3)), vec![((5, 7), 3)]);
}

#[test]
fn predicates_on_covered_coordinates() {
    let stack = stack_from_intervals(&[(0, 10), (20, 30)]);

    assert!(stack.contains_point(5));
    assert!(!stack.contains_point(15));
    assert!(stack.intersects_interval(iv(8, 12)));
    assert!(!stack.intersects_interval(iv(12, 18)));
    assert!(stack.contains_interval(iv(2, 8)));
    assert!(!stack.contains_interval(iv(8, 22)));
    assert!(!stack.is_empty());
    assert!(stack_from_intervals(&[]).is_empty());
}

#[test]
fn stack_matches_naive_counts_on_generated_intervals() {
    for seed in 0..48 {
        let intervals = intervals_from_seed(seed, (seed as usize * 5) % 96);
        let stack = stack_from_intervals(&intervals);
        for x in -30..60 {
            assert_eq!(stack.height_at(x), naive_height_at(&intervals, x));
            assert_eq!(stack.contains_point(x), naive_height_at(&intervals, x) != 0);
        }
        for s in -26..50 {
            for len in 1..6 {
                let q = iv(s, s + len);
                let any = (s..s + len).any(|x| naive_height_at(&intervals, x) != 0);
                let all = (s..s + len).all(|x| naive_height_at(&intervals, x) != 0);
                assert_eq!(stack.intersects_interval(q), any);
                assert_eq!(stack.contains_interval(q), all);
                if all {
                    assert!(any);
                }
            }
        }
        let max = (-30..60).map(|x| naive_height_at(&intervals, x)).max().unwrap_or(0);
        assert_eq!(stack.height_stats().max_height(), max);
        let min_pos = (-30..60)
            .map(|x| naive_height_at(&intervals, x))
            .filter(|h| *h > 0)
            .min()
            .unwrap_or(0);
        assert_eq!(stack.height_stats().min_positive_height_or_zero(), min_pos);
        let segs = collect_segments(stack.iter_intervals());
        for pair in segs.windows(2) {
            assert!(pair[0].0 .1 <= pair[1].0 .0);
            if pair[0].0 .1 == pair[1].0 .0 {
                assert_ne!(pair[0].1, pair[1].1);
            }
        }
        for x in -30..60 {
            if naive_height_at(&intervals, x) > 0 {
                assert!(segs.iter().any(|((s, e), _)| *s <= x && x < *e));
            }
        }
        for (seg, h) in collect_segments(stack.peak_intervals()) {
            assert_eq!(h, max);
            for x in seg.0..seg.1 {
                assert_eq!(naive_height_at(&intervals, x), max);
            }
        }
        let all = collect_segments(stack.iter_intervals());
        let filtered: Vec<_> = all.iter().copied().filter(|(_, h)| *h >= 2 && *h <= 4).collect();
        assert_eq!(collect_segments(stack.iter_intervals_between(2, 4)), filtered);
    }
}

#[test]
fn windows_split_into_height_runs() {
    let stack = stack_from_intervals(&[(2, 5), (4, 8)]);
    let windows = stack.iter_windows(0, 10, 4);
    assert_eq!(windows.len(), 7);

    let bounds: Vec<(i128, i128)> = windows
        .iter()
        .map(|w| (w.interval().start(), w.interval().end_excl()))
        .collect();
    assert_eq!(bounds[0], (0, 4));
    assert_eq!(bounds[6], (6, 10));

    let runs: Vec<((i128, i128), usize)> = windows[0]
        .iter_height_runs()
        .iter()
        .map(|r| ((r.interval.start(), r.interval.end_excl()), r.height))
        .collect();
    assert_eq!(runs, vec![((0, 2), 0), ((2, 4), 1)]);
    assert_eq!(windows[0].height_run_count(), 2);

    let runs: Vec<((i128, i128), usize)> = windows[3]
        .iter_height_runs()
        .iter()
        .map(|r| ((r.interval.start(), r.interval.end_excl()), r.height))
        .collect();
    assert_eq!(runs, vec![((3, 4), 1), ((4, 5), 2), ((5, 7), 1)]);
    let run = windows[3].height_run_at(1);
    assert_eq!((run.interval.start(), run.interval.end_excl(), run.height), (4, 5, 2));
}

#[test]
fn window_without_interior_points_has_one_run() {
    let stack = stack_from_intervals(&[(0, 100)]);
    let windows = stack.iter_windows(10, 20, 10);
    assert_eq!(windows.len(), 1);
    let runs = windows[0].iter_height_runs();
    assert_eq!(runs.len(), 1);
    assert_eq!((runs[0].interval.start(), runs[0].interval.end_excl(), runs[0].height), (10, 20, 1));
}

#[test]
fn window_runs_match_heights_on_generated_intervals() {
    for seed in 0..16 {
        let intervals = intervals_from_seed(seed, 30);
        let stack = stack_from_intervals(&intervals);
        for w in stack.iter_windows(-30, 50, 7) {
            let runs = w.iter_height_runs();
            assert_eq!(runs.len(), w.height_run_count());
            assert_eq!(runs[0].interval.start(), w.interval().start());
            assert_eq!(runs[runs.len() - 1].interval.end_excl(), w.interval().end_excl());
            for pair in runs.windows(2) {
                assert_eq!(pair[0].interval.end_excl(), pair[1].interval.start());
            }
            for r in &runs {
                for x in r.interval.start()..r.interval.end_excl() {
                    assert_eq!(naive_height_at(&intervals, x), r.height);
                }
            }
        }
    }
}

#[test]
fn invalid_window_geometries_are_empty() {
    let stack = stack_from_intervals(&[(2, 5)]);
    assert!(stack.iter_windows(5, 5, 1).is_empty());
    assert!(stack.iter_windows(6, 5, 1).is_empty());
    assert!(stack.iter_windows(0, 10, 0).is_empty());
    assert!(stack.iter_windows(0, 10, 11).is_empty());
    assert_eq!(stack.iter_windows(0, 10, 10).len(), 1);
    assert_eq!(window_count(0, 10, 4), Some(7));
    assert_eq!(window_count(0, 10, 0), None);
    assert_eq!(window_count(i128::MIN, i128::MAX, 1), None);
    assert_eq!(window_count(0, 1 << 40, 1), Some(1usize << 40));
    assert_eq!(start_at(3, 0), Some(3));
    assert_eq!(start_at(3, 4), Some(7));
    assert_eq!(start_at(i128::MAX, 1), None);
    assert!(window_at(&stack, i128::MAX - 2, 3, 1).is_none());
    let w = window_at(&stack, 0, 3, 2).unwrap();
    assert_eq!((w.interval().start(), w.interval().end_excl()), (2, 5));
}

#[test]
fn intervals_reject_empty_ranges() {
    assert!(CoInterval::try_new(3, 3).is_none());
    assert!(CoInterval::try_new(4, 3).is_none());
    assert_eq!(iv(-2, 5).len(), 7);
    assert_eq!(iv(i128::MIN, i128::MAX).len(), u128::MAX);
    assert_eq!(iv(-5, 0).len(), 5);
    let y = CoInterval::checked_from_start_len(-10, u128::MAX / 2 + 5).unwrap();
    assert_eq!((y.start(), y.end_excl()), (-10, i128::MAX - 5));
    assert!(CoInterval::checked_from_start_len(-10, u128::MAX / 2 + 11).is_none());
    assert!(CoInterval::checked_from_start_len(0, 0).is_none());
    assert!(CoInterval::checked_from_start_len(i128::MAX, 1).is_none());
    let x = CoInterval::checked_from_start_len(i128::MAX - 1, 1).unwrap();
    assert_eq!((x.start(), x.end_excl()), (i128::MAX - 1, i128::MAX));
}

#[test]
fn cloned_stack_is_equal() {
    let stack = stack_from_intervals(&[(0, 10), (3, 7)]);
    let copy = stack.clone();
    assert_eq!(copy, stack);
    assert_eq!(copy.change_points(), stack.change_points());
    assert_ne!(stack_from_intervals(&[(0, 1)]), stack);
}

#[test]
fn from_change_points_keeps_points() {
    let stack = IntCOStack::from_change_points(vec![cp(1, 2), cp(4, 0)]);
    assert_eq!(stack.height_at(3), 2);
    assert_eq!(stack.change_points(), &[cp(1, 2), cp(4, 0)]);
    assert!(std::ptr::eq(stack.iter_windows(0, 5, 5)[0].stack(), &stack));
}

#[test]
fn u128_coordinates_become_order_preserving_keys() {
    assert_eq!(key_from_u128(0), i128::MIN);
    assert_eq!(key_from_u128(u128::MAX), i128::MAX);
    assert_eq!(key_from_u128(1u128 << 127), 0);
    for u in [0u128, 1, 5, (1u128 << 127) - 1, 1u128 << 127, u128::MAX - 3, u128::MAX] {
        assert_eq!(u128_from_key(key_from_u128(u)), u);
    }

    let high = u128::MAX - 10;
    let stack = stack_from_intervals(&[
        (key_from_u128(high), key_from_u128(high + 6)),
        (key_from_u128(high + 3), key_from_u128(u128::MAX)),
    ]);
    let segs: Vec<((u128, u128), usize)> = collect_segments(stack.iter_intervals())
        .into_iter()
        .map(|((s, e), h)| ((u128_from_key(s), u128_from_key(e)), h))
        .collect();
    assert_eq!(
        segs,
        vec![((high, high + 3), 1), ((high + 3, high + 6), 2), ((high + 6, u128::MAX), 1)]
    );
    assert_eq!(stack.height_at(key_from_u128(high + 4)), 2);
}
