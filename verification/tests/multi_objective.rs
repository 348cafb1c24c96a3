use std::collections::HashSet;

use rustuna::float::Float;
use rustuna::multi_objective::hssp::{hypervolume_subset_selection, GreedySearch, HssCache, PlaneSearch, SubsetSelection, SubsetTask};
use rustuna::multi_objective::hypervolume::{compute_hypervolume_with, limited_rows, second_objective_order, HypervolumePlan};
use rustuna::multi_objective::nds::{fast_non_dominated_sort_partial, filter_pareto_front, lex_sort_indices, loss_values_have_nan};
use rustuna::multi_objective::split::{
    split_feasible_observation_indices, split_infeasible_observation_indices, split_observation_indices_for_multi_objective,
    split_trials_for_multi_objective, FeasibleSplit,
};
use rustuna::study::Direction;
use rustuna::trial::{PersistedTrial, TrialStateValues};

fn f(value: f64) -> Float {
    Float::from_bits(value.to_bits())
}

fn g(value: Float) -> f64 {
    f64::from_bits(value.to_bits())
}

fn row(values: &[f64]) -> Vec<Float> {
    values.iter().map(|v| f(*v)).collect()
}

fn rows(values: &[Vec<f64>]) -> Vec<Vec<Float>> {
    values.iter().map(|r| row(r)).collect()
}

fn numbers(values: &[Float]) -> Vec<f64> {
    values.iter().map(|v| g(*v)).collect()
}

// The arithmetic on volumes, which the plans of the library are carried out with.

fn side(reference: f64, value: f64) -> f64 {
    let diff = reference - value;
    let diff = if diff.is_nan() { 0.0 } else { diff };
    diff.max(0.0)
}

fn inclusive(point: &[f64], reference_point: &[f64]) -> f64 {
    let mut product = 1.0;
    for k in 0..reference_point.len() {
        product *= side(reference_point[k], point[k]);
    }
    product
}

fn shared(a: &[f64], b: &[f64], reference_point: &[f64]) -> f64 {
    let mut product = 1.0;
    for k in 0..reference_point.len() {
        product *= side(reference_point[k], a[k].max(b[k]));
    }
    product
}

fn sweep(points: &[Vec<f64>], y_order: &[usize], y_rank: &[usize], reference_point: &[f64]) -> f64 {
    let n = points.len();
    let mut dy: Vec<f64> = Vec::new();
    for k in 0..n - 1 {
        dy.push((points[y_order[k + 1]][1] - points[y_order[k]][1]).max(0.0));
    }
    dy.push((reference_point[1] - points[y_order[n - 1]][1]).max(0.0));
    let mut heights = vec![0.0_f64; n];
    let mut total = 0.0;
    for i in 0..n {
        let mut left = 0.0_f64;
        for j in 0..n {
            let own = if j == y_rank[i] { side(reference_point[2], points[i][2]) } else { 0.0 };
            left = heights[j].max(left).max(own);
            heights[j] = left;
        }
        let dx = if i + 1 < n {
            (points[i + 1][0] - points[i][0]).max(0.0)
        } else {
            (reference_point[0] - points[i][0]).max(0.0)
        };
        let mut sum = 0.0;
        for j in 0..n {
            sum += dy[j] * heights[j];
        }
        total += dx * sum;
    }
    total
}

fn volume(loss: &Vec<Vec<Float>>, reference_point: &[f64], assume_pareto: bool) -> f64 {
    let at = |i: usize| numbers(&loss[i]);
    match compute_hypervolume_with(loss, &row(reference_point), assume_pareto) {
        HypervolumePlan::Empty => 0.0,
        HypervolumePlan::Single(i) => inclusive(&at(i), reference_point),
        HypervolumePlan::Pair(i, j) => {
            inclusive(&at(i), reference_point) + inclusive(&at(j), reference_point) - shared(&at(i), &at(j), reference_point)
        }
        HypervolumePlan::Sweep(points) => {
            let (order, rank) = second_objective_order(loss, &points);
            let kept: Vec<Vec<f64>> = points.iter().map(|&i| at(i)).collect();
            sweep(&kept, &order, &rank, reference_point)
        }
        HypervolumePlan::Recursive(points) => {
            let mut total = 0.0;
            for k in 0..points.len() {
                let limited = limited_rows(loss, &points, k);
                total += inclusive(&at(points[k]), reference_point) - volume(&limited, reference_point, false);
            }
            total
        }
    }
}

fn compute_hypervolume(points: &[Vec<f64>], reference_point: &[f64]) -> f64 {
    volume(&rows(points), reference_point, false)
}

fn plane(task: SubsetTask) -> Vec<usize> {
    let mut search = PlaneSearch::new(task);
    while !search.is_done() {
        let mut areas: Vec<Float> = Vec::new();
        for j in 0..search.open_slots.len() {
            let width = (g(search.d0[j]) - g(search.f0[j])).max(0.0);
            let height = (g(search.d1[j]) - g(search.f1[j])).max(0.0);
            areas.push(f(width * height));
        }
        search.pick(&areas);
    }
    search.selection()
}

fn greedy(task: SubsetTask) -> Vec<usize> {
    let reference_point = numbers(&task.reference_point);
    let m = reference_point.len();
    let inclusives: Vec<Float> = task.rows.iter().map(|r| f(inclusive(&numbers(r), &reference_point))).collect();
    let mut search = GreedySearch::new(task, inclusives);
    let mut hv_selected = 0.0;
    loop {
        let before = search.contribs.clone();
        let open = search.remaining.clone();
        let chosen = search.pick();
        let slot = open.iter().position(|&p| p == chosen).unwrap();
        hv_selected += g(before[slot]);
        if search.is_done() {
            return search.selection();
        }
        if !hv_selected.is_finite() {
            search.saturate();
            continue;
        }
        let chosen_row = numbers(&search.rows[chosen]);
        let mut bounds: Vec<Float> = Vec::new();
        for &p in search.remaining.iter() {
            let candidate = numbers(&search.rows[p]);
            bounds.push(f(inclusive(&candidate, &reference_point) - shared(&candidate, &chosen_row, &reference_point)));
        }
        search.tighten(&bounds);
        while let Some(slot) = search.next_candidate() {
            let candidate = search.rows[search.remaining[slot]].clone();
            let exact = if m <= 3 {
                let mut all: Vec<Vec<Float>> = search.selected.iter().map(|&p| search.rows[p].clone()).collect();
                all.push(candidate);
                volume(&all, &reference_point, true) - hv_selected
            } else {
                let c = numbers(&candidate);
                let joint: Vec<Vec<f64>> = search
                    .selected
                    .iter()
                    .map(|&p| numbers(&search.rows[p]).iter().zip(c.iter()).map(|(a, b)| a.max(*b)).collect())
                    .collect();
                inclusive(&c, &reference_point) - compute_hypervolume(&joint, &reference_point)
            };
            search.record(slot, f(exact));
        }
    }
}

fn select(loss: &[Vec<f64>], indices: &Vec<usize>, reference_point: &[f64], subset_size: usize, cache: &mut HssCache) -> Vec<usize> {
    let task = match hypervolume_subset_selection(&rows(loss), indices, &row(reference_point), subset_size, cache) {
        SubsetSelection::Settled(selected) => return selected,
        SubsetSelection::Plane(task) => (task, true),
        SubsetSelection::Greedy(task) => (task, false),
    };
    let (task, in_plane) = task;
    let key = (task.rows.clone(), task.indices.clone(), task.reference_point.clone(), task.subset_size);
    let selected = if in_plane { plane(task) } else { greedy(task) };
    cache.store(&key.0, &key.1, &key.2, key.3, &selected);
    selected
}

fn reference_of(worst: &[Float]) -> Vec<f64> {
    worst
        .iter()
        .map(|w| {
            let r = (1.1 * g(*w)).max(0.9 * g(*w));
            if r == 0.0 {
                1e-12
            } else {
                r
            }
        })
        .collect()
}

fn selected_for(plan: &FeasibleSplit) -> Vec<usize> {
    if plan.take == 0 {
        return Vec::new();
    }
    let loss: Vec<Vec<f64>> = plan.candidate_losses.iter().map(|r| numbers(r)).collect();
    select(&loss, &plan.candidates, &reference_of(&plan.worst_point), plan.take, &mut HssCache::new())
}

fn split(values: &[Vec<f64>], observed: &[(bool, f64)], directions: &[Direction], gamma: usize) -> (Vec<usize>, Vec<usize>) {
    let observed: Vec<(bool, Float)> = observed.iter().map(|(b, v)| (*b, f(*v))).collect();
    let plan = split_observation_indices_for_multi_objective(&rows(values), &observed, &directions.to_vec(), gamma);
    let selected = selected_for(&plan.feasible);
    plan.complete(&selected)
}

#[test]
fn test_fast_non_dominated_sort_basic() {
    // simple 2D example
    let pts = rows(&[
        vec![0.0, 0.0], // 0 -> front 0
        vec![1.0, 0.0], // 1 dominated by 0 -> front 1
        vec![0.0, 1.0], // 2 dominated by 0 -> front 1
        vec![2.0, 2.0], // dominated by both -> front 2
        vec![0.5, 0.5], // non-dominated w.r.t 1 & 2 -> front 1
    ]);
    let ranks = fast_non_dominated_sort_partial(&pts, pts.len());
    assert_eq!(ranks[0], 0);
    assert!(ranks[1] > 0);
    assert!(ranks[2] > 0);
    assert!(ranks[3] > ranks[1] && ranks[3] > ranks[2]);
    assert_eq!(ranks, vec![0, 1, 1, 2, 1]);
}

#[test]
fn partial_sort_with_small_n_below_returns_sentinel_for_excess_points() {
    // 3D ranks for 6 points: pts 0, 1, 2 should land in earlier fronts; with
    // n_below = 2 we only need front 0, so the remaining points get a sentinel
    // rank strictly greater than every emitted rank.
    let pts = rows(&[
        vec![0.0, 0.0, 0.0], // front 0
        vec![1.0, 0.0, 0.0], // dominated by 0 → front 1
        vec![0.0, 1.0, 0.0], // dominated by 0 → front 1
        vec![1.0, 1.0, 0.0], // dominated by all earlier → front 2
        vec![2.0, 2.0, 2.0], // dominated by all → front 3
        vec![1.5, 1.5, 1.5], // dominated by all → front 3
    ]);
    let ranks = fast_non_dominated_sort_partial(&pts, 2);

    assert_eq!(ranks[0], 0, "front-0 point must be ranked precisely");
    let sentinel = ranks.iter().copied().max().unwrap();
    assert!(sentinel > 0, "sentinel must exceed every precise rank emitted");
    assert!(ranks.iter().all(|&r| r != usize::MAX));
    let precise_count = ranks.iter().filter(|&&r| r < sentinel).count();
    assert!(
        precise_count >= 2,
        "must rank at least n_below = 2 points precisely (got {precise_count})"
    );
}

#[test]
fn partial_sort_with_n_below_equal_to_n_assigns_every_rank_precisely() {
    let pts = rows(&[
        vec![0.0, 0.0, 0.0],
        vec![1.0, 0.0, 0.0],
        vec![0.0, 1.0, 0.0],
        vec![1.0, 1.0, 0.0],
    ]);
    let ranks_partial = fast_non_dominated_sort_partial(&pts, pts.len());
    assert!(ranks_partial.iter().all(|&r| r != usize::MAX));
    assert_eq!(ranks_partial[0], 0);
    assert!(ranks_partial[3] > ranks_partial[1] && ranks_partial[3] > ranks_partial[2]);
}

#[test]
fn duplicate_loss_vectors_share_rank_2d() {
    let pts = rows(&[vec![0.0, 0.0], vec![0.0, 0.0], vec![1.0, 1.0]]);
    let ranks = fast_non_dominated_sort_partial(&pts, pts.len());
    assert_eq!(ranks, vec![0, 0, 1]);
}

#[test]
fn duplicate_loss_vectors_share_rank_3d() {
    let pts = rows(&[vec![0.0, 0.0, 0.0], vec![0.0, 0.0, 0.0], vec![1.0, 1.0, 1.0]]);
    let ranks = fast_non_dominated_sort_partial(&pts, pts.len());
    assert_eq!(ranks, vec![0, 0, 1]);
}

#[test]
fn both_zeros_rank_alike() {
    let pts = rows(&[vec![-0.0, 1.0], vec![0.0, 0.0], vec![0.0, 1.0]]);
    let ranks = fast_non_dominated_sort_partial(&pts, pts.len());
    assert_eq!(ranks, vec![1, 0, 1]);
}

#[test]
fn one_objective_is_ranked_by_value() {
    let pts = rows(&[vec![3.0], vec![1.0], vec![2.0], vec![1.0]]);
    assert_eq!(fast_non_dominated_sort_partial(&pts, pts.len()), vec![2, 0, 1, 0]);
    let none: Vec<Vec<Float>> = Vec::new();
    assert!(fast_non_dominated_sort_partial(&none, 0).is_empty());
}

#[test]
fn nan_rows_get_sentinel_rank_worse_than_clean_rows() {
    // NaN policy: a NaN-containing trial must be ranked *worse* than any clean
    // trial. Rank 0 (Pareto-optimal) is reserved for clean rows.
    let pts = rows(&[
        vec![0.0, 0.0],
        vec![1.0, f64::NAN], // NaN → sentinel rank
        vec![0.5, 0.5],
        vec![1.0, 1.0],
    ]);
    assert!(loss_values_have_nan(&pts));
    let ranks = fast_non_dominated_sort_partial(&pts, pts.len());
    assert_eq!(ranks[0], 0, "clean dominator is rank 0");
    let clean_max = ranks[0].max(ranks[2]).max(ranks[3]);
    assert!(
        ranks[1] > clean_max,
        "NaN row {} must be strictly worse than any clean row (max clean = {})",
        ranks[1],
        clean_max
    );
}

#[test]
fn filter_pareto_front_drops_nan_rows() {
    // NaN policy: rows with NaN are never on the Pareto front; they're dropped.
    let pts = rows(&[
        vec![1.0, 2.0],
        vec![f64::NAN, 0.5], // dropped
        vec![0.5, 0.5],      // dominates the others
        vec![3.0, 3.0],      // dominated by index 2
    ]);
    let mut indices: Vec<usize> = (0..pts.len()).collect();
    filter_pareto_front(&pts, &mut indices);
    assert!(!indices.contains(&1), "NaN row must be dropped");
    assert!(indices.contains(&2), "Pareto-optimal row must be kept");
    assert!(!indices.contains(&3), "dominated row must be dropped");
}

#[test]
fn filter_pareto_front_keeps_only_non_dominated() {
    let pts = rows(&[
        vec![1.0, 2.0],
        vec![2.0, 1.0],
        vec![3.0, 3.0], // dominated by 0 and 1
        vec![0.5, 4.0], // non-dominated (smaller in f0 than 0)
        vec![1.0, 2.0], // duplicate of 0 → dropped by the dedup-aware sweep
    ]);
    let mut indices: Vec<usize> = (0..pts.len()).collect();
    filter_pareto_front(&pts, &mut indices);

    let kept: HashSet<usize> = indices.iter().copied().collect();
    assert_eq!(kept.len(), indices.len(), "filter_pareto_front must not produce duplicates");
    assert!(kept.contains(&1));
    assert!(kept.contains(&3));
    assert!(!kept.contains(&2), "dominated points must be removed");
    // Exactly one of the duplicates (0 or 4) survives.
    assert_eq!(usize::from(kept.contains(&0)) + usize::from(kept.contains(&4)), 1);
}

#[test]
fn lexicographic_order_breaks_ties_by_later_columns() {
    let pts = rows(&[vec![1.0, 2.0], vec![0.0, 9.0], vec![1.0, 1.0]]);
    let mut indices: Vec<usize> = vec![0, 1, 2];
    lex_sort_indices(&pts, &mut indices);
    assert_eq!(indices, vec![1, 2, 0]);
}

fn reference_greedy(points: &[Vec<f64>], reference_point: &[f64], subset_size: usize) -> f64 {
    let mut chosen: Vec<usize> = Vec::new();
    let mut avail: Vec<usize> = (0..points.len()).collect();
    for _ in 0..subset_size {
        let mut best = avail[0];
        let mut best_hv = f64::NEG_INFINITY;
        for &c in &avail {
            let mut s: Vec<Vec<f64>> = chosen.iter().map(|&i| points[i].clone()).collect();
            s.push(points[c].clone());
            let hv = compute_hypervolume(&s, reference_point);
            if hv > best_hv {
                best_hv = hv;
                best = c;
            }
        }
        chosen.push(best);
        avail.retain(|&x| x != best);
    }
    best_hv_of(points, &chosen, reference_point)
}

fn best_hv_of(points: &[Vec<f64>], sel: &[usize], reference_point: &[f64]) -> f64 {
    let s: Vec<Vec<f64>> = sel.iter().map(|&i| points[i].clone()).collect();
    compute_hypervolume(&s, reference_point)
}

fn solve_hssp_2d(points: &[Vec<f64>], indices: &[usize], reference_point: &[f64], subset_size: usize) -> Vec<usize> {
    plane(SubsetTask {
        rows: rows(points),
        indices: indices.to_vec(),
        reference_point: row(reference_point),
        subset_size,
    })
}

#[test]
fn solve_hssp_2d_matches_reference_greedy_hv() {
    // A spread of 2D points below the reference point, incl. a duplicate and same-f0 ties.
    let points: Vec<Vec<f64>> = vec![
        vec![0.1, 0.9],
        vec![0.2, 0.7],
        vec![0.2, 0.6],
        vec![0.35, 0.55],
        vec![0.5, 0.5],
        vec![0.55, 0.45],
        vec![0.7, 0.3],
        vec![0.75, 0.25],
        vec![0.9, 0.1],
        vec![0.9, 0.1],
    ];
    let reference_point = [1.0, 1.0];
    let indices: Vec<usize> = (0..points.len()).collect();
    for subset in 1..points.len() {
        let sel = solve_hssp_2d(&points, &indices, &reference_point, subset);
        assert_eq!(sel.len(), subset);
        let hv_fast = best_hv_of(&points, &sel, &reference_point);
        let hv_ref = reference_greedy(&points, &reference_point, subset);
        assert!(
            (hv_fast - hv_ref).abs() < 1e-9,
            "subset={subset}: solve_hssp_2d HV={hv_fast} != reference greedy HV={hv_ref}"
        );
    }
}

#[test]
fn solve_hssp_2d_ignores_points_outside_reference_box() {
    // A point outside the reference box must contribute zero, not a spurious positive
    // area from two negative rectangle widths.
    let points: Vec<Vec<f64>> = vec![vec![0.0, 1.0], vec![1.0, 0.0], vec![3.0, 3.0]];
    let reference_point = [2.0, 2.0];
    let indices: Vec<usize> = (0..points.len()).collect();
    for subset in 1..points.len() {
        let sel = solve_hssp_2d(&points, &indices, &reference_point, subset);
        assert!(!sel.contains(&2), "subset={subset}: selected out-of-box point [3,3]");
        let hv_fast = best_hv_of(&points, &sel, &reference_point);
        let hv_ref = reference_greedy(&points, &reference_point, subset);
        assert!(
            (hv_fast - hv_ref).abs() < 1e-9,
            "subset={subset}: solve_hssp_2d HV={hv_fast} != reference greedy HV={hv_ref}"
        );
    }
}

fn combinations_recursive(n: usize, k: usize, start: usize, current: &mut Vec<usize>, out: &mut Vec<Vec<usize>>) {
    if current.len() == k {
        out.push(current.clone());
        return;
    }
    for i in start..n {
        current.push(i);
        combinations_recursive(n, k, i + 1, current, out);
        current.pop();
    }
}

#[test]
fn greedy_hv_approx_minus_1_over_e_no_itertools() {
    // A simple problem instance
    let pts: Vec<Vec<f64>> = vec![
        vec![1.0, 4.0],
        vec![2.0, 3.0],
        vec![3.0, 2.0],
        vec![4.0, 1.0],
        vec![2.5, 2.5],
        vec![3.5, 3.5],
    ];
    let n = pts.len();
    let refp = vec![6.0, 6.0];
    let k = 2usize;

    // Exhaustive search
    let mut all_combs: Vec<Vec<usize>> = Vec::new();
    combinations_recursive(n, k, 0, &mut Vec::new(), &mut all_combs);

    let mut best_hv = 0.0;
    for comb in all_combs.iter() {
        let hv = best_hv_of(&pts, comb, &refp);
        if hv > best_hv {
            best_hv = hv;
        }
    }

    // Greedy selection
    let rank_i_indices: Vec<usize> = (0..n).collect();
    let greedy_sel = select(&pts, &rank_i_indices, &refp, k, &mut HssCache::new());
    let greedy_hv = best_hv_of(&pts, &greedy_sel, &refp);

    // Verify (1 - 1/e) approximation
    let bound = 1.0 - 1.0f64 / std::f64::consts::E;
    assert!(
        greedy_hv >= bound * best_hv,
        "greedy hv {} < (1-1/e)*opt {} (opt {})",
        greedy_hv,
        bound * best_hv,
        best_hv
    );
}

#[test]
fn cache_returns_identical_result_for_identical_inputs() {
    // Two calls with the same arguments should produce byte-equal results; the
    // second call goes through the cache, the first populates it.
    let pts: Vec<Vec<f64>> = vec![vec![1.0, 4.0], vec![2.0, 3.0], vec![3.0, 2.0], vec![4.0, 1.0]];
    let indices: Vec<usize> = (0..pts.len()).collect();
    let refp = vec![5.0, 5.0];
    let mut cache = HssCache::new();

    let a = select(&pts, &indices, &refp, 2, &mut cache);
    assert!(cache.probe(&rows(&pts), &indices, &row(&refp), 2).is_some());
    let b = select(&pts, &indices, &refp, 2, &mut cache);
    assert_eq!(a, b, "cache hit must return the same selection");
}

#[test]
fn cache_misses_when_subset_size_or_inputs_change() {
    let pts: Vec<Vec<f64>> = vec![vec![1.0, 4.0], vec![2.0, 3.0], vec![3.0, 2.0], vec![4.0, 1.0]];
    let indices: Vec<usize> = (0..pts.len()).collect();
    let refp = vec![5.0, 5.0];
    let mut cache = HssCache::new();

    let s2 = select(&pts, &indices, &refp, 2, &mut cache);
    assert!(cache.probe(&rows(&pts), &indices, &row(&refp), 3).is_none());
    let s3 = select(&pts, &indices, &refp, 3, &mut cache);
    assert_eq!(s2.len(), 2);
    assert_eq!(s3.len(), 3);
    // s2 must be a prefix-like subset (greedy adds one point at a time), so the
    // 2-element result is contained in the 3-element one.
    for idx in &s2 {
        assert!(s3.contains(idx), "greedy s3 must contain every member of s2");
    }
}

#[test]
fn subset_size_zero_returns_empty() {
    let pts = vec![vec![1.0, 2.0], vec![2.0, 1.0]];
    let indices = vec![10usize, 11];
    let out = select(&pts, &indices, &[5.0, 5.0], 0, &mut HssCache::new());
    assert!(out.is_empty());
}

#[test]
fn hv_overflow_does_not_poison_remaining_picks() {
    // When the inclusive volume overflows to +INF, picking goes on until the returned
    // subset has the requested size.
    let huge = 1e160;
    let pts = vec![
        vec![0.0, 0.0, 0.0, 0.0],
        vec![huge / 2.0, 0.0, 0.0, 0.0],
        vec![0.0, huge / 2.0, 0.0, 0.0],
        vec![0.0, 0.0, huge / 2.0, 0.0],
    ];
    let indices: Vec<usize> = (0..pts.len()).collect();
    let ref_point = vec![huge, huge, huge, huge];
    let out = select(&pts, &indices, &ref_point, 3, &mut HssCache::new());
    assert_eq!(out.len(), 3, "subset_size honoured even when HV overflows");
    // Selected indices must be unique and drawn from the input set.
    let seen: HashSet<usize> = out.iter().copied().collect();
    assert_eq!(seen.len(), out.len(), "no duplicate selections");
    assert!(out.iter().all(|i| indices.contains(i)));
}

#[test]
fn cache_rejects_mismatched_row_lengths() {
    // Differently shaped rows whose total happens to equal that of the stored rows must
    // not be answered from the cache.
    let pts_a: Vec<Vec<f64>> = vec![vec![1.0, 4.0], vec![2.0, 3.0]];
    let indices = vec![0usize, 1];
    let refp = vec![5.0, 5.0];
    let mut cache = HssCache::new();
    let first = select(&pts_a, &indices, &refp, 1, &mut cache);
    assert_eq!(first.len(), 1);

    let pts_b: Vec<Vec<f64>> = vec![vec![1.0, 4.0, 2.0], vec![3.0]];
    assert!(cache.probe(&rows(&pts_b), &indices, &row(&refp), 1).is_none());
    let again = select(&pts_a, &indices, &refp, 1, &mut cache);
    assert_eq!(again.len(), 1);
}

#[test]
fn hssp_prefers_clean_rows_then_pads_with_nan() {
    // NaN policy: greedy runs on the clean subset; if `subset_size` exceeds the
    // number of clean rows, the remainder is padded with NaN rows in input order.
    let pts = vec![
        vec![1.0, 2.0],      // clean
        vec![f64::NAN, 1.0], // NaN — only chosen as padding
        vec![0.5, 0.5],      // clean
    ];
    let indices = vec![10usize, 11, 12];
    let refp = vec![5.0, 5.0];

    // subset_size = 1: one of the clean rows wins, NaN is not selected.
    let one = select(&pts, &indices, &refp, 1, &mut HssCache::new());
    assert_eq!(one.len(), 1);
    assert!(one[0] == 10 || one[0] == 12, "must pick a clean row");

    // subset_size = 3 forces padding with the NaN row at the tail.
    let three = select(&pts, &indices, &refp, 3, &mut HssCache::new());
    assert_eq!(three.len(), 3);
    assert!(three.contains(&11), "NaN row appears as padding");
    // The two clean rows must both be present.
    assert!(three.contains(&10) && three.contains(&12));
}

#[test]
fn hssp_falls_back_to_input_order_on_nan_reference_point() {
    let pts = vec![vec![1.0, 2.0], vec![0.5, 0.5]];
    let indices = vec![10usize, 11];
    let refp = vec![5.0, f64::NAN];
    assert_eq!(select(&pts, &indices, &refp, 1, &mut HssCache::new()), vec![10]);
}

#[test]
fn subset_size_at_least_n_returns_all_indices() {
    let pts = vec![vec![1.0, 2.0], vec![2.0, 1.0]];
    let indices = vec![10usize, 11];
    let refp = vec![5.0, 5.0];
    let out = select(&pts, &indices, &refp, 2, &mut HssCache::new());
    assert_eq!(out, indices);
    // Even oversized requests fall through the same short-circuit.
    let out = select(&pts, &indices, &refp, 10, &mut HssCache::new());
    assert_eq!(out, indices);
}

#[test]
fn plane_search_picks_by_area() {
    let points = vec![vec![0.0, 3.0], vec![1.0, 1.0], vec![3.0, 0.0]];
    let picked = solve_hssp_2d(&points, &[5, 6, 7], &[4.0, 4.0], 2);
    // 4x1, 3x3 and 1x4 rectangles; then 1x1 left of the corner against 1x1 below it.
    assert_eq!(picked, vec![6, 5]);
}

#[test]
fn greedy_search_in_three_objectives_picks_the_largest_volumes() {
    let points = vec![vec![0.0, 0.0, 2.0], vec![2.0, 0.0, 0.0], vec![0.0, 2.0, 0.0], vec![1.0, 1.0, 1.0]];
    let indices: Vec<usize> = vec![20, 21, 22, 23];
    let picked = select(&points, &indices, &[3.0, 3.0, 3.0], 2, &mut HssCache::new());
    assert_eq!(picked, vec![20, 21]);
}

#[test]
fn test_compute_hypervolume_float_simple() {
    let hv = compute_hypervolume(&[vec![1.0, 1.0], vec![2.0, 0.5]], &[3.0, 3.0]);
    assert!(hv > 0.0);
}

#[test]
fn test_compute_hypervolume() {
    let hv = compute_hypervolume(&[vec![1.0, 2.0], vec![2.0, 1.5], vec![1.5, 1.0]], &[3.0, 3.0]);
    // Manually computed expected hypervolume
    let expected_hv = 3.5;
    assert!((hv - expected_hv).abs() < 1e-6, "hv: {hv}, expected: {expected_hv}");
}

#[test]
fn compute_hypervolume_3d_single_point() {
    // Closed form for a single point: ∏ (ref[k] − p[k]).
    let hv = compute_hypervolume(&[vec![1.0, 2.0, 0.5]], &[3.0, 3.0, 3.0]);
    let expected = (3.0 - 1.0) * (3.0 - 2.0) * (3.0 - 0.5);
    assert!((hv - expected).abs() < 1e-9, "hv {hv} vs expected {expected}");
}

#[test]
fn compute_hypervolume_3d_two_disjoint_boxes() {
    let hv = compute_hypervolume(&[vec![0.0, 2.0, 0.0], vec![2.0, 0.0, 0.0]], &[3.0, 3.0, 3.0]);
    let inc_a = (3.0 - 0.0) * (3.0 - 2.0) * (3.0 - 0.0);
    let inc_b = (3.0 - 2.0) * (3.0 - 0.0) * (3.0 - 0.0);
    let inter = (3.0 - 2.0) * (3.0 - 2.0) * (3.0 - 0.0);
    let expected = inc_a + inc_b - inter;
    assert!((hv - expected).abs() < 1e-9, "hv {hv} vs expected {expected}");
}

#[test]
fn compute_hypervolume_3d_matches_inclusion_exclusion_for_two_points() {
    let pts = vec![vec![0.5, 1.0, 1.5], vec![1.0, 0.5, 0.8]];
    let ref_point = vec![3.0, 3.0, 3.0];
    let hv = compute_hypervolume(&pts, &ref_point);

    let mut inc = 0.0;
    for p in pts.iter() {
        inc += (ref_point[0] - p[0]) * (ref_point[1] - p[1]) * (ref_point[2] - p[2]);
    }
    let max = [pts[0][0].max(pts[1][0]), pts[0][1].max(pts[1][1]), pts[0][2].max(pts[1][2])];
    let inter = (ref_point[0] - max[0]) * (ref_point[1] - max[1]) * (ref_point[2] - max[2]);
    let expected = inc - inter;
    assert!((hv - expected).abs() < 1e-9, "hv {hv} vs expected {expected}");
}

#[test]
fn compute_hypervolume_excludes_nan_rows_and_uses_the_clean_subset() {
    // NaN policy: NaN rows are dropped, HV is computed over the clean subset.
    let ref_point = vec![3.0, 3.0, 3.0];
    let hv_nan = compute_hypervolume(&[vec![1.0, f64::NAN, 0.5], vec![0.5, 1.0, 1.0]], &ref_point);

    // The clean subset is just `[[0.5, 1.0, 1.0]]`; its HV must match.
    let hv_clean = compute_hypervolume(&[vec![0.5, 1.0, 1.0]], &ref_point);

    assert!((hv_nan - hv_clean).abs() < 1e-9);
    assert!(hv_nan > 0.0, "clean subset is non-empty so HV must be > 0");
}

#[test]
fn compute_hypervolume_returns_zero_when_all_rows_have_nan() {
    let pts = [vec![1.0, f64::NAN, 0.5], vec![f64::NAN, 0.5, 0.5]];
    assert_eq!(compute_hypervolume(&pts, &[3.0, 3.0, 3.0]), 0.0);
}

#[test]
fn compute_hypervolume_3d_clamps_points_outside_reference() {
    // Points with coords >= reference are dropped. The result matches the closed form on
    // the in-reference subset.
    let pts = [vec![0.0, 0.0, 1.0], vec![0.0, 1.0, 0.0], vec![3.0, 0.0, 0.0]];
    let hv = compute_hypervolume(&pts, &[2.0, 2.0, 2.0]);
    // Inclusion-exclusion over the two within-reference points {[0,0,1], [0,1,0]}:
    let inc_a = (2.0 - 0.0) * (2.0 - 0.0) * (2.0 - 1.0); // [0,0,1]
    let inc_b = (2.0 - 0.0) * (2.0 - 1.0) * (2.0 - 0.0); // [0,1,0]
    let inter = (2.0 - 0.0) * (2.0 - 1.0) * (2.0 - 1.0); // max-corner [0,1,1]
    let expected = inc_a + inc_b - inter; // 4 + 4 - 2 = 6
    assert!((hv - expected).abs() < 1e-9, "hv {hv} vs expected {expected}");
}

#[test]
fn assume_pareto_matches_unfiltered_when_input_is_pareto() {
    let pts = rows(&[vec![0.0, 2.0], vec![1.0, 1.0], vec![2.0, 0.0]]);
    let ref_point = vec![3.0, 3.0];
    let hv_filtered = volume(&pts, &ref_point, false);
    let hv_assumed = volume(&pts, &ref_point, true);
    assert!(
        (hv_filtered - hv_assumed).abs() < 1e-9,
        "filtered {hv_filtered} vs assume_pareto {hv_assumed}"
    );
}

#[test]
fn sweep_and_recursion_agree() {
    let base = vec![vec![0.0, 1.0, 2.0], vec![1.0, 2.0, 0.0], vec![2.0, 0.0, 1.0], vec![0.5, 1.5, 1.5]];
    let flat = compute_hypervolume(&base, &[3.0, 3.0, 3.0]);
    let lifted: Vec<Vec<f64>> = base.iter().map(|p| vec![p[0], p[1], p[2], 0.0]).collect();
    let recursive = compute_hypervolume(&lifted, &[3.0, 3.0, 3.0, 1.0]);
    assert!((flat - recursive).abs() < 1e-9, "{flat} vs {recursive}");
}

#[test]
fn split_observation_indices_returns_original_positions() {
    let values = vec![vec![3.0], vec![1.0], vec![4.0], vec![2.0]];
    let (good, poor) = split(&values, &[(true, 0.0); 4], &[Direction::Minimize], 2);
    assert_eq!(good, vec![1, 3]);
    assert_eq!(poor, vec![0, 2]);
}

#[test]
fn split_observation_indices_pads_with_least_violating_infeasible() {
    let values = vec![vec![1.0], vec![2.0], vec![3.0], vec![4.0]];
    let feasibles_violations = vec![(false, 5.0), (true, 0.0), (false, 1.0), (false, 3.0)];
    let (good, poor) = split(&values, &feasibles_violations, &[Direction::Minimize], 2);
    // The single feasible observation is promising; the second slot is
    // filled by the infeasible observation with the smallest violation.
    assert_eq!(good, vec![1, 2]);
    assert_eq!(poor.len(), 2);
    assert!(poor.contains(&0) && poor.contains(&3));
}

#[test]
fn split_observation_indices_all_infeasible() {
    let values = vec![vec![1.0], vec![2.0], vec![3.0]];
    let feasibles_violations = vec![(false, 2.0), (false, 3.0), (false, 1.0)];
    let (good, poor) = split(&values, &feasibles_violations, &[Direction::Minimize], 1);
    assert_eq!(good, vec![2]);
    assert_eq!(poor.len(), 2);
    assert!(poor.contains(&0) && poor.contains(&1));
}

#[test]
fn split_observation_indices_gamma_equals_n() {
    let values = vec![vec![3.0], vec![1.0]];
    let feasibles_violations = vec![(true, 0.0), (false, 1.0)];
    let (good, poor) = split(&values, &feasibles_violations, &[Direction::Minimize], 2);
    assert_eq!(good, vec![0, 1]);
    assert!(poor.is_empty());
}

#[test]
fn split_observation_indices_empty_input() {
    let (good, poor) = split(&[], &[], &[Direction::Minimize], 0);
    assert!(good.is_empty());
    assert!(poor.is_empty());
}

fn complete_trial(number: u32, values: Vec<f64>, constraint: Option<f64>) -> PersistedTrial {
    let mut trial = PersistedTrial::new(number, 0, number);
    trial.state_values = TrialStateValues::Complete(row(&values));
    if let Some(c) = constraint {
        trial.constraints.insert("c0".to_string(), f(c));
    }
    trial
}

#[test]
fn split_trials_matches_index_based_split() {
    // The mutually non-dominated feasible trials 0, 4, 5, and 6 form a rank-0
    // front larger than gamma, so the promising set is completed by
    // hypervolume subset selection rather than by whole-rank inclusion.
    let cases: Vec<(Vec<f64>, Option<f64>)> = vec![
        (vec![1.0, 8.0], None),
        (vec![f64::INFINITY, 1.0], Some(-1.0)),
        (vec![2.0, 2.0], Some(0.5)),
        (vec![3.0, 3.0], Some(2.0)),
        (vec![4.0, 1.0], None),
        (vec![0.5, 9.0], Some(-0.5)),
        (vec![3.0, 2.0], None),
    ];
    let trials: Vec<PersistedTrial> = cases
        .iter()
        .enumerate()
        .map(|(i, (values, constraint))| complete_trial(i as u32, values.clone(), *constraint))
        .collect();
    let directions = vec![Direction::Minimize, Direction::Minimize];
    let gamma = 3;
    let violations: Vec<f64> = cases.iter().map(|(_, c)| c.filter(|x| *x > 0.0).unwrap_or(0.0)).collect();

    let plan = split_trials_for_multi_objective(&trials, &row(&violations), &directions, gamma).unwrap();
    let (good_trials, poor_trials) = plan.complete(&selected_for(&plan.feasible));

    let values: Vec<Vec<f64>> = cases.iter().map(|(v, _)| v.clone()).collect();
    let observed: Vec<(bool, f64)> = cases
        .iter()
        .zip(violations.iter())
        .map(|((_, c), v)| (c.map(|x| x <= 0.0).unwrap_or(true), *v))
        .collect();
    let (good_indices, poor_indices) = split(&values, &observed, &directions, gamma);

    let good_numbers: Vec<u32> = good_trials.iter().map(|&i| trials[i].number).collect();
    let poor_numbers: Vec<u32> = poor_trials.iter().map(|&i| trials[i].number).collect();
    let good_mapped: Vec<u32> = good_indices.iter().map(|&i| trials[i].number).collect();
    let poor_mapped: Vec<u32> = poor_indices.iter().map(|&i| trials[i].number).collect();
    assert_eq!(good_numbers, good_mapped);
    assert_eq!(poor_numbers, poor_mapped);
    assert_eq!(good_numbers.len(), gamma);
    assert!(split_trials_for_multi_objective(&trials, &row(&violations), &directions, trials.len()).is_none());
}

#[test]
fn a_split_is_a_partition() {
    let values = vec![vec![1.0, 4.0], vec![2.0, 2.0], vec![4.0, 1.0], vec![5.0, 5.0], vec![f64::NAN, 0.0]];
    for gamma in 0..=values.len() {
        let (good, poor) = split(&values, &[(true, 0.0); 5], &[Direction::Minimize, Direction::Minimize], gamma);
        assert_eq!(good.len(), gamma);
        let mut all: Vec<usize> = good.iter().chain(poor.iter()).copied().collect();
        all.sort();
        assert_eq!(all, vec![0, 1, 2, 3, 4]);
    }
}

#[test]
fn infinite_rows_of_the_boundary_front_come_first_and_last() {
    let inf = f64::INFINITY;
    let values = vec![vec![1.0, 1.0], vec![-inf, 2.0], vec![inf, 0.0], vec![0.5, 1.5]];
    let directions = [Direction::Minimize, Direction::Minimize];
    let (good, _) = split(&values, &[(true, 0.0); 4], &directions, 1);
    assert_eq!(good, vec![1]);
    let (good, poor) = split(&values, &[(true, 0.0); 4], &directions, 3);
    assert_eq!(good.len(), 3);
    assert_eq!(poor, vec![2]);
}

#[test]
fn maximized_objectives_are_split_by_their_losses() {
    let values = rows(&[vec![3.0], vec![1.0], vec![4.0], vec![2.0]]);
    let plan = split_feasible_observation_indices(&values, &vec![0, 1, 2, 3], &vec![Direction::Maximize], 2);
    let (good, poor) = plan.complete(&selected_for(&plan));
    assert_eq!(good, vec![2, 0]);
    assert_eq!(poor, vec![1, 3]);
}

#[test]
fn infeasible_observations_are_split_by_violation() {
    let violations = vec![(7, f(3.0)), (8, f(1.0)), (9, f(2.0))];
    let (good, poor) = split_infeasible_observation_indices(&violations, 2);
    let mut kept = good.clone();
    kept.sort();
    assert_eq!(kept, vec![8, 9]);
    assert_eq!(poor, vec![7]);
    let (good, poor) = split_infeasible_observation_indices(&violations, 0);
    assert!(good.is_empty());
    assert_eq!(poor, vec![7, 8, 9]);
    let (good, poor) = split_infeasible_observation_indices(&violations, 3);
    assert_eq!(good, vec![7, 8, 9]);
    assert!(poor.is_empty());
}

#[test]
fn a_shorter_search_selects_a_prefix() {
    let flat: Vec<Vec<f64>> = (0..12).map(|i| vec![i as f64, ((i * 7) % 12) as f64]).collect();
    let solid: Vec<Vec<f64>> = (0..12).map(|i| vec![i as f64, ((i * 7) % 12) as f64, ((i * 5) % 12) as f64]).collect();
    for (loss, reference) in [(&flat, vec![13.0; 2]), (&solid, vec![13.0; 3])] {
        let indices: Vec<usize> = (0..12).collect();
        let longest = select(loss, &indices, &reference, 11, &mut HssCache::new());
        for size in 1..11 {
            let selected = select(loss, &indices, &reference, size, &mut HssCache::new());
            assert_eq!(selected, longest[..size].to_vec());
        }
    }
}

#[test]
fn fewer_promising_observations_are_among_more() {
    let values: Vec<Vec<f64>> = (0..15)
        .map(|i| {
            let third = match i {
                3 => f64::NAN,
                5 => f64::INFINITY,
                9 => f64::NEG_INFINITY,
                _ => ((i * 11) % 15) as f64,
            };
            vec![((i * 4) % 15) as f64, ((i * 7) % 15) as f64, third]
        })
        .collect();
    let directions = vec![Direction::Minimize, Direction::Maximize, Direction::Minimize];
    let indices: Vec<usize> = (0..values.len()).collect();
    let mut fewer: Vec<usize> = Vec::new();
    for gamma in 0..=values.len() {
        let plan = split_feasible_observation_indices(&rows(&values), &indices, &directions, gamma);
        let (more, _) = plan.complete(&selected_for(&plan));
        assert_eq!(more.len(), gamma);
        assert!(fewer.iter().all(|i| more.contains(i)), "{fewer:?} {more:?}");
        fewer = more;
    }
}

#[test]
fn compute_hypervolume_returns_zero_for_a_nan_reference_point() {
    assert_eq!(compute_hypervolume(&[vec![1.0, 2.0]], &[5.0, f64::NAN]), 0.0);
    assert_eq!(compute_hypervolume(&[vec![1.0, 2.0]], &[5.0, 5.0]), 12.0);
    assert_eq!(compute_hypervolume(&[], &[]), 0.0);
}

#[test]
fn a_hypervolume_depends_on_the_best_rows_alone() {
    for m in [2, 3, 4] {
        let mut points: Vec<Vec<f64>> = Vec::new();
        for i in 0..7 {
            points.push((0..m).map(|k| ((i * (2 * k + 3) + k) % 11) as f64 * 0.1).collect());
        }
        let reference = vec![1.3; m];
        let expected = compute_hypervolume(&points, &reference);
        assert!(expected > 0.0);

        let mut reordered = points.clone();
        reordered.reverse();
        reordered.swap(1, 4);
        assert_eq!(compute_hypervolume(&reordered, &reference).to_bits(), expected.to_bits());

        let mut with_nan = points.clone();
        with_nan.insert(2, (0..m).map(|k| if k == 1 { f64::NAN } else { 0.0 }).collect());
        assert_eq!(compute_hypervolume(&with_nan, &reference).to_bits(), expected.to_bits());

        let mut with_dominated = points.clone();
        with_dominated.push(points[3].iter().map(|v| v + 0.05).collect());
        with_dominated.insert(0, points[5].clone());
        assert_eq!(compute_hypervolume(&with_dominated, &reference).to_bits(), expected.to_bits());
    }
}

#[test]
fn the_cache_is_never_observed() {
    let points: Vec<Vec<f64>> = vec![vec![1.0, 4.0], vec![2.0, 3.0], vec![3.0, 2.0], vec![4.0, 1.0], vec![f64::NAN, 0.0], vec![2.5, 2.5]];
    let indices: Vec<usize> = vec![10, 11, 12, 13, 14, 15];
    let reference = [5.0, 5.0];
    let mut cache = HssCache::new();
    let mut previous: Vec<usize> = Vec::new();
    for size in 0..=points.len() {
        let fresh = select(&points, &indices, &reference, size, &mut HssCache::new());
        assert_eq!(select(&points, &indices, &reference, size, &mut cache), fresh);
        assert_eq!(select(&points, &indices, &reference, size, &mut cache), fresh);
        assert!(previous.iter().all(|i| fresh.contains(i)));
        previous = fresh;
    }
}

#[test]
fn the_negative_zero_is_sorted_first() {
    let pts = rows(&[vec![0.0, 1.0], vec![-0.0, 2.0], vec![-1.0, 3.0]]);
    let mut indices: Vec<usize> = vec![0, 1, 2];
    lex_sort_indices(&pts, &mut indices);
    assert_eq!(indices, vec![2, 1, 0]);
    // As numbers both zeros are equal, so that the row behind them decides.
    let mut front: Vec<usize> = vec![0, 1, 2];
    filter_pareto_front(&pts, &mut front);
    assert_eq!(front, vec![2, 0]);
}

#[test]
fn a_shorter_search_in_three_objectives_selects_a_prefix() {
    let points: Vec<Vec<f64>> = (0..9).map(|i| vec![i as f64, ((i * 5) % 9) as f64, ((i * 7 + 3) % 9) as f64]).collect();
    let indices: Vec<usize> = (10..19).collect();
    let reference_point = [10.0, 10.0, 10.0];
    let mut shared_cache = HssCache::new();
    for size in 1..9 {
        let mut fresh = HssCache::new();
        let longer = select(&points, &indices, &reference_point, size, &mut fresh);
        assert_eq!(longer, select(&points, &indices, &reference_point, size, &mut shared_cache));
        assert_eq!(longer, select(&points, &indices, &reference_point, size, &mut shared_cache));
        let shorter = select(&points, &indices, &reference_point, size - 1, &mut fresh);
        assert_eq!(shorter[..], longer[..size - 1]);
    }
}
