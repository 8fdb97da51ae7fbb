use int_interval_stack::build_acc::{level_points, StackBuildAcc, BATCH_SIZE};
use int_interval_stack::construction::{
    build_points_from_endpoints, merge_points, parts, points_from_endpoints,
};
use int_interval_stack::endpoint::{endpoints_from, ep, sort_endpoints, Endpoint, EndpointKind};
use int_interval_stack::height_stats::height_stats_from_points;
use int_interval_stack::oracle::{naive_height_at, oracle_points};
use int_interval_stack::{ChangePoint, CoInterval};

fn iv(start: i128, end_excl: i128) -> CoInterval {
    CoInterval::try_new(start, end_excl).unwrap()
}

fn cp(at: i128, height_after: usize) -> ChangePoint<i128> {
    ChangePoint { at, height_after }
}

fn assert_canonical(points: &[ChangePoint<i128>]) {
    for w in points.windows(2) {
        assert!(w[0].at < w[1].at);
        assert_ne!(w[0].height_after, w[1].height_after);
    }
    if let Some(first) = points.first() {
        assert_ne!(first.height_after, 0);
    }
    if let Some(last) = points.last() {
        assert_eq!(last.height_after, 0);
    }
}

/// A small deterministic generator of valid intervals.
fn intervals_from_seed(seed: u64, count: usize) -> Vec<(i128, i128)> {
    let mut state = seed.wrapping_mul(6364136223846793005).wrapping_add(1442695040888963407);
    let mut out = Vec::new();
    for _ in 0..count {
        state = state.wrapping_mul(6364136223846793005).wrapping_add(1442695040888963407);
        let start = ((state >> 33) % 49) as i128 - 24;
        state = state.wrapping_mul(6364136223846793005).wrapping_add(1442695040888963407);
        let len = ((state >> 33) % 24) as i128 + 1;
        out.push((start, start + len));
    }
    out
}

#[test]
fn empty_endpoints_build_empty_points() {
    assert_eq!(build_points_from_endpoints(Vec::new()), []);
}

#[test]
fn single_interval_builds_enter_and_leave_points() {
    let points = build_points_from_endpoints(vec![
        ep(10, EndpointKind::Leave),
        ep(3, EndpointKind::Enter),
    ]);

    assert_eq!(points, vec![cp(3, 1), cp(10, 0)]);
}

#[test]
fn adjacent_intervals_do_not_emit_redundant_boundary() {
    let points = build_points_from_endpoints(endpoints_from(&[(0, 5), (5, 10)]));

    assert_eq!(points, vec![cp(0, 1), cp(10, 0)]);
}

#[test]
fn nested_intervals_emit_height_changes() {
    let points = build_points_from_endpoints(endpoints_from(&[(1, 5), (2, 4)]));

    assert_eq!(points, vec![cp(1, 1), cp(2, 2), cp(4, 1), cp(5, 0)]);
}

#[test]
fn identical_intervals_raise_height_by_multiplicity() {
    let points = build_points_from_endpoints(endpoints_from(&[(1, 4), (1, 4)]));

    assert_eq!(points, vec![cp(1, 2), cp(4, 0)]);
}

#[test]
fn equal_enter_and_leave_at_same_coordinate_cancel() {
    let points = build_points_from_endpoints(endpoints_from(&[(0, 10), (3, 5), (5, 7)]));

    assert_eq!(points, vec![cp(0, 1), cp(3, 2), cp(7, 1), cp(10, 0)]);
}

#[test]
fn build_points_matches_oracle_on_generated_intervals() {
    for seed in 0..64 {
        let intervals = intervals_from_seed(seed, (seed as usize * 7) % 96);
        let points = build_points_from_endpoints(endpoints_from(&intervals));
        assert_eq!(points, oracle_points(&intervals));
        assert_canonical(&points);
        assert_eq!(points_from_endpoints(endpoints_from(&intervals)), points);
    }
}

#[test]
fn endpoint_order_does_not_affect_result() {
    for seed in 0..32 {
        let intervals = intervals_from_seed(seed, 40);
        let endpoints = endpoints_from(&intervals);
        let mut reversed = endpoints.clone();
        reversed.reverse();
        assert_eq!(
            build_points_from_endpoints(endpoints),
            build_points_from_endpoints(reversed),
        );
    }
}

#[test]
fn unbalanced_endpoints_keep_the_open_height() {
    let points = build_points_from_endpoints(vec![ep(2, EndpointKind::Enter)]);
    assert_eq!(points, vec![cp(2, 1)]);
}

#[test]
fn endpoints_are_sorted_by_coordinate() {
    let es: Vec<Endpoint<i128>> = vec![
        ep(5, EndpointKind::Leave),
        ep(-3, EndpointKind::Enter),
        ep(5, EndpointKind::Enter),
        ep(0, EndpointKind::Leave),
    ];
    let sorted = sort_endpoints(&es);
    let ats: Vec<i128> = sorted.iter().map(|e| e.at).collect();
    assert_eq!(ats, vec![-3, 0, 5, 5]);
    assert_eq!(sorted.len(), es.len());
}

#[test]
fn endpoints_from_pairs_enter_and_leave() {
    let es = endpoints_from(&[(1, 4), (-2, 0)]);
    assert_eq!(
        es,
        vec![
            ep(1, EndpointKind::Enter),
            ep(4, EndpointKind::Leave),
            ep(-2, EndpointKind::Enter),
            ep(0, EndpointKind::Leave),
        ]
    );
}

#[test]
fn empty_inputs_merge_to_empty() {
    assert_eq!(merge_points(&[], &[]), Vec::<ChangePoint<i128>>::new());
}

#[test]
fn empty_and_non_empty_merge_to_other_side() {
    let rhs = vec![cp(0, 1), cp(3, 0)];
    assert_eq!(merge_points(&[], &rhs), rhs);
}

#[test]
fn boundaries_that_do_not_change_sum_are_omitted() {
    let lhs = vec![cp(0, 1), cp(5, 0)];
    let rhs = vec![cp(5, 1), cp(10, 0)];

    assert_eq!(merge_points(&lhs, &rhs), vec![cp(0, 1), cp(10, 0)]);
}

#[test]
fn merge_covers_lhs_rhs_equal_and_remainder_paths() {
    let lhs = vec![cp(0, 1), cp(3, 2), cp(8, 0)];
    let rhs = vec![cp(1, 1), cp(3, 0), cp(6, 1), cp(10, 0)];

    assert_eq!(
        merge_points(&lhs, &rhs),
        vec![cp(0, 1), cp(1, 2), cp(6, 3), cp(8, 1), cp(10, 0)]
    );
}

#[test]
fn merge_points_matches_oracle_and_laws() {
    for seed in 0..32 {
        let a = intervals_from_seed(seed, 20);
        let b = intervals_from_seed(seed + 100, 17);
        let c = intervals_from_seed(seed + 200, 11);
        let (ap, bp, cpts) = (oracle_points(&a), oracle_points(&b), oracle_points(&c));

        let mut both = a.clone();
        both.extend_from_slice(&b);
        let merged = merge_points(&ap, &bp);
        assert_eq!(merged, oracle_points(&both));
        assert_canonical(&merged);

        assert_eq!(merge_points(&ap, &bp), merge_points(&bp, &ap));
        assert_eq!(
            merge_points(&merge_points(&ap, &bp), &cpts),
            merge_points(&ap, &merge_points(&bp, &cpts)),
        );
    }
}

#[test]
fn parts_carry_the_largest_height() {
    let p = parts(vec![cp(0, 1), cp(2, 3), cp(4, 0)]);
    assert_eq!(p.height_stats.max_height(), 3);
    assert_eq!(p.height_stats.min_positive_height_or_zero(), 1);
    assert_eq!(p.points, vec![cp(0, 1), cp(2, 3), cp(4, 0)]);
    assert_eq!(height_stats_from_points(&[]).max_height, 0);
    assert_eq!(height_stats_from_points(&[]).min_positive_height_or_zero(), 0);
    let stats = height_stats_from_points(&[cp(0, 4), cp(2, 2), cp(5, 7), cp(9, 0)]);
    assert_eq!((stats.max_height(), stats.min_positive_height_or_zero()), (7, 2));
}

#[test]
fn flush_on_empty_is_noop() {
    let mut acc = StackBuildAcc::<i128>::new();
    acc.flush();
    assert!(acc.endpoints.is_empty());
    assert!(acc.levels.is_empty());
}

#[test]
fn push_interval_flushes_at_batch_boundary() {
    let mut acc = StackBuildAcc::<i128>::new();
    let mut intervals = Vec::new();

    for i in 0..(BATCH_SIZE - 1) as i128 {
        let iv_ = (i * 2, i * 2 + 1);
        intervals.push(iv_);
        acc.push_interval(iv(iv_.0, iv_.1));
    }

    assert_eq!(acc.endpoints.len(), (BATCH_SIZE - 1) * 2);
    assert!(acc.levels.is_empty());

    let last = (10_000, 10_001);
    intervals.push(last);
    acc.push_interval(iv(last.0, last.1));

    assert!(acc.endpoints.is_empty());
    assert_eq!(acc.levels.len(), 1);
    assert_eq!(acc.levels[0], Some(oracle_points(&intervals)));
}

#[test]
fn push_points_can_land_in_existing_none_level() {
    let mut acc = StackBuildAcc::<i128> {
        endpoints: Vec::new(),
        levels: vec![Some(vec![cp(0, 1), cp(3, 0)]), None],
    };

    acc.push_points(vec![cp(0, 1), cp(3, 0)]);

    assert_eq!(acc.levels[0], None);
    assert_eq!(acc.levels[1], Some(vec![cp(0, 2), cp(3, 0)]));
}

#[test]
fn push_points_carries_across_multiple_occupied_levels() {
    let mut acc = StackBuildAcc::<i128> {
        endpoints: Vec::new(),
        levels: vec![
            Some(vec![cp(0, 1), cp(2, 0)]),
            Some(vec![cp(1, 1), cp(3, 0)]),
        ],
    };

    acc.push_points(vec![cp(2, 1), cp(4, 0)]);

    assert_eq!(acc.levels[0], None);
    assert_eq!(acc.levels[1], None);
    assert_eq!(
        acc.levels[2],
        Some(oracle_points(&[(0, 2), (1, 3), (2, 4)]))
    );
}

#[test]
fn finish_merges_existing_levels_and_unflushed_tail() {
    let mut acc = StackBuildAcc::<i128>::new();
    acc.push_points(vec![cp(0, 1), cp(5, 0)]);
    acc.push_interval(iv(2, 4));

    assert_eq!(acc.finish(), oracle_points(&[(0, 5), (2, 4)]));
}

#[test]
fn stack_build_acc_finish_matches_oracle() {
    for seed in 0..4 {
        let intervals = intervals_from_seed(seed, BATCH_SIZE * 3 + 17);
        let mut acc = StackBuildAcc::<i128>::new();
        for &(s, e) in &intervals {
            acc.push_interval(iv(s, e));
        }
        let points = acc.finish();
        assert_eq!(points, oracle_points(&intervals));
        assert_canonical(&points);
    }
}

#[test]
fn level_points_reads_occupied_levels_only() {
    let acc = StackBuildAcc::<i128> {
        endpoints: Vec::new(),
        levels: vec![None, Some(vec![cp(0, 1), cp(3, 0)])],
    };
    assert_eq!(level_points(&acc, 0), None);
    assert_eq!(level_points(&acc, 1), Some(&vec![cp(0, 1), cp(3, 0)]));
    assert_eq!(level_points(&acc, 2), None);
}

#[test]
fn oracle_counts_containing_intervals() {
    let intervals = [(0, 10), (3, 7), (5, 12)];
    assert_eq!(naive_height_at(&intervals, 2), 1);
    assert_eq!(naive_height_at(&intervals, 6), 3);
    assert_eq!(naive_height_at(&intervals, 12), 0);
    assert_eq!(
        oracle_points(&intervals),
        vec![cp(0, 1), cp(3, 2), cp(5, 3), cp(7, 2), cp(10, 1), cp(12, 0)]
    );
    assert_eq!(oracle_points(&[(4, 4), (6, 2)]), vec![]);
}
