use std::collections::{BTreeMap, BTreeSet};

use rand::rngs::StdRng;
use rand::{Rng, SeedableRng};

use rustuna::distribution::Distribution;
use rustuna::error::{ErrorKind, Result};
use rustuna::float::Float;
use rustuna::importance::{
    begin_evaluation, count_categorical_param_in_grid, count_numerical_param_in_grid, ensure_target_for_multi_objective, get_filtered_trials, get_top_quantile_trials,
    int_grid_steps, occupied_cells, partition_by_regime, regime_weighs, resolve_params, target_members, top_trials, EvaluationPlan,
    PedAnovaImportanceEvaluator, TopTrials,
};
use rustuna::key_map::Duplicate;
use rustuna::multi_objective::hssp::{hypervolume_subset_selection, HssCache, PlaneSearch, SubsetSelection};
use rustuna::multi_objective::split::FeasibleSplit;
use rustuna::study::Direction;
use rustuna::trial::{PersistedTrial, TrialStateValues};

fn f(value: f64) -> Float {
    Float::from_bits(value.to_bits())
}

fn g(value: Float) -> f64 {
    f64::from_bits(value.to_bits())
}

fn row(values: &[f64]) -> Vec<Float> {
    values.iter().map(|v| f(*v)).collect()
}

fn complete(number: u32, values: &[f64], params: &[(&str, f64, Distribution)]) -> PersistedTrial {
    let mut trial = PersistedTrial::new(number, 0, number);
    trial.state_values = TrialStateValues::Complete(row(values));
    for (name, value, distribution) in params {
        trial.internal_params.insert(name.to_string(), f(*value));
        trial.distributions.insert(name.to_string(), *distribution);
    }
    trial
}

fn float(low: f64, high: f64) -> Distribution {
    Distribution::Float { low: f(low), high: f(high), step: None, log: false }
}

/// Trials with two objectives that pull apart.
fn two_objectives(n: u32) -> Vec<PersistedTrial> {
    (0..n)
        .map(|i| {
            let x = (i as f64 * 0.37).sin();
            let y = (i as f64 * 0.73).cos();
            complete(i, &[x * x + y, y * y - x], &[("x", x, float(-1.0, 1.0)), ("y", y, float(-1.0, 1.0))])
        })
        .collect()
}

fn selected_for(plan: &FeasibleSplit) -> Vec<usize> {
    if plan.take == 0 {
        return Vec::new();
    }
    let reference: Vec<Float> = plan.worst_point.iter().map(|w| f((1.1 * g(*w)).max(0.9 * g(*w)))).collect();
    match hypervolume_subset_selection(&plan.candidate_losses, &plan.candidates, &reference, plan.take, &HssCache::new()) {
        SubsetSelection::Settled(selected) => selected,
        SubsetSelection::Plane(task) => {
            let mut search = PlaneSearch::new(task);
            while !search.is_done() {
                let areas: Vec<Float> = (0..search.open_slots.len())
                    .map(|j| f((g(search.d0[j]) - g(search.f0[j])).max(0.0) * (g(search.d1[j]) - g(search.f1[j])).max(0.0)))
                    .collect();
                search.pick(&areas);
            }
            search.selection()
        }
        SubsetSelection::Greedy(_) => panic!("two finite objectives are searched in the plane"),
    }
}

fn top(trials: &Vec<PersistedTrial>, directions: &Vec<Direction>, quantile: f64) -> Vec<usize> {
    let n_top = (trials.len() as f64 * quantile).ceil() as usize;
    match get_top_quantile_trials(trials, directions, None, f(quantile), n_top) {
        TopTrials::Places(places) => places,
        TopTrials::Split(plan) => plan.complete(&selected_for(&plan)).0,
    }
}

#[test]
fn test_error_multi_objective_wo_target() {
    let trials = two_objectives(5);
    let err = begin_evaluation(&trials, false, None).err().unwrap();
    assert!(matches!(err.kind, ErrorKind::ImportanceEvaluatorError));
}

#[test]
fn test_evaluator_error_multi_objective_wo_target() {
    let trials = two_objectives(5);
    let err = ensure_target_for_multi_objective(&trials, false).err().unwrap();
    assert!(matches!(err.kind, ErrorKind::ImportanceEvaluatorError));
    assert!(ensure_target_for_multi_objective(&trials, true).is_ok());
}

#[test]
fn test_get_param_importances_empty_study() {
    let none: Vec<PersistedTrial> = Vec::new();
    match begin_evaluation(&none, false, None).unwrap() {
        EvaluationPlan::Zeros(names) => assert!(names.is_empty(), "{names:?}"),
        EvaluationPlan::Compare(_) => panic!("there is nothing to compare"),
    }
}

#[test]
fn test_get_top_quantile_trials_multi_objective_without_target() {
    let trials = two_objectives(20);
    let directions = vec![Direction::Minimize, Direction::Minimize];
    let target = top(&trials, &directions, 0.1);
    let region = top(&trials, &directions, 0.5);
    assert_eq!(target.len(), 2);
    assert_eq!(region.len(), 10);
    assert!(target.iter().all(|i| region.contains(i)));
}

#[test]
fn the_best_trials_go_by_the_direction() {
    let trials: Vec<PersistedTrial> = [3.0, 1.0, 2.0, 1.0].iter().enumerate().map(|(i, v)| complete(i as u32, &[*v], &[])).collect();
    assert_eq!(top(&trials, &vec![Direction::Minimize], 0.25), vec![1, 3]);
    assert_eq!(top(&trials, &vec![Direction::Maximize], 0.25), vec![0]);
    assert_eq!(top(&trials, &vec![Direction::Maximize], 0.5), vec![0, 2]);
    assert_eq!(top(&trials, &vec![Direction::Minimize], 1.0), vec![0, 1, 2, 3]);
    let targets = row(&[0.0, 5.0, -1.0, 7.0]);
    match get_top_quantile_trials(&trials, &vec![Direction::Maximize], Some(&targets), f(0.5), 2) {
        TopTrials::Places(places) => assert_eq!(places, vec![0, 2]),
        TopTrials::Split(_) => panic!("a target is compared on its own"),
    }
}

#[test]
fn the_target_is_within_the_region() {
    let values = row(&[4.0, -1.0, 2.5, 0.0, 9.0, -0.0]);
    for region in 0..values.len() {
        let outer = top_trials(&values, region);
        for target in 0..=region {
            assert!(top_trials(&values, target).iter().all(|i| outer.contains(i)));
        }
    }
    assert_eq!(top_trials(&values, 1), vec![1, 3, 5]);
}

#[test]
fn only_finite_complete_trials_are_evaluated() {
    let mut failed = complete(3, &[0.0], &[]);
    failed.state_values = TrialStateValues::Fail;
    let trials = vec![
        Some(complete(0, &[1.0], &[])),
        Some(complete(1, &[f64::NAN], &[])),
        None,
        Some(failed),
        Some(complete(4, &[f64::NEG_INFINITY], &[])),
        Some(complete(5, &[-2.0], &[])),
    ];
    assert_eq!(get_filtered_trials(&trials, None), vec![0, 5]);
    let targets = row(&[f64::INFINITY, 1.0, 1.0, 1.0, 1.0, 1.0]);
    assert_eq!(get_filtered_trials(&trials, Some(&targets)), vec![1, 4, 5]);
}

#[test]
fn parameters_are_resolved() {
    let trials = vec![complete(0, &[1.0], &[("y", 0.5, float(0.0, 1.0))]), complete(1, &[1.0], &[("c", 0.5, float(0.0, 1.0))])];
    assert_eq!(resolve_params(&trials, None).unwrap(), vec!["c", "y"]);
    assert_eq!(resolve_params(&trials, Some(vec!["y".to_string()])).unwrap(), vec!["y"]);
    assert_eq!(resolve_params(&trials, Some(vec![])).unwrap().len(), 0);
    let missing = resolve_params(&trials, Some(vec!["c".to_string(), "d".to_string()]));
    assert_eq!(missing.err().map(|e| e.kind), Some(ErrorKind::ImportanceEvaluatorError));
    let several: Vec<String> = ["d", "c", "e"].iter().map(|p| p.to_string()).collect();
    let text = "Study must contain at least one completed trial for each specified parameter. Missing parameters: [\"d\", \"e\"].";
    assert_eq!(resolve_params(&trials, Some(several)).err().map(|e| e.reason).as_deref(), Some(text));
    assert!(matches!(begin_evaluation(&trials, false, None), Ok(EvaluationPlan::Compare(_))));
    let one = vec![trials[0].duplicate()];
    assert!(matches!(begin_evaluation(&one, false, None), Ok(EvaluationPlan::Zeros(_))));
}

#[test]
fn quantiles_are_ordered() {
    assert!(PedAnovaImportanceEvaluator::new(f(0.1), f(1.0), true).is_ok());
    for (target, region) in [(0.0, 1.0), (0.5, 0.5), (0.6, 0.5), (0.1, 1.1), (f64::NAN, 1.0), (0.1, f64::NAN)] {
        let refused = PedAnovaImportanceEvaluator::new(f(target), f(region), true);
        let refused = refused.err().unwrap();
        assert_eq!(refused.kind, ErrorKind::ImportanceEvaluatorError);
        assert_eq!(refused.reason, "condition 0.0 < `target_quantile` < `region_quantile` <= 1.0 must be satisfied");
    }
    let evaluator = PedAnovaImportanceEvaluator::new(f(0.2), f(0.5), false).unwrap();
    assert_eq!((evaluator.n_steps, evaluator.min_n_trials_in_regime, evaluator.evaluate_on_local), (50, 2, false));
}

#[test]
fn regimes_follow_the_distribution() {
    let (a, b) = (float(0.0, 1.0), float(0.0, 2.0));
    let trials = vec![
        complete(0, &[0.0], &[("x", 0.5, b)]),
        complete(1, &[0.0], &[]),
        complete(2, &[0.0], &[("x", 0.5, a)]),
        complete(3, &[0.0], &[("x", 0.5, b)]),
        complete(4, &[0.0], &[]),
    ];
    let regimes = partition_by_regime("x", &trials, 2);
    let members: Vec<Vec<usize>> = regimes.iter().map(|r| r.members.clone()).collect();
    assert_eq!(members, vec![vec![0, 3], vec![1, 4]]);
    assert!(regimes[0].distribution.is_some() && regimes[1].distribution.is_none());
    assert_eq!(partition_by_regime("x", &trials, 1).len(), 3);
    assert_eq!(target_members(&trials, &regimes[0].members, &vec![3, 4]), vec![1]);
    assert!(regime_weighs(&regimes[0].distribution, 1));
    assert!(!regime_weighs(&regimes[0].distribution, 0));
    assert!(!regime_weighs(&regimes[1].distribution, 1));
    assert!(!regime_weighs(&Some(float(1.0, 1.0)), 1));
}

#[test]
fn choices_and_steps_are_counted() {
    let counts = count_categorical_param_in_grid(&row(&[0.0, 2.0, 2.0, 2.9]), 4);
    assert_eq!(counts, vec![1, 0, 3, 0]);
    assert_eq!(occupied_cells(&counts), vec![0, 2]);
    let positions = row(&[-7.0, 0.0, 0.0, 1.0, 2.0, 9.0, f64::NAN, f64::INFINITY]);
    assert_eq!(count_numerical_param_in_grid(&positions, 3), vec![4, 1, 3]);
    assert_eq!(int_grid_steps(0, 10, 3, 50), 4);
    assert_eq!(int_grid_steps(0, 1000, 1, 50), 50);
}

// Importances, with densities of the drivers' own.

enum Kind {
    Single,
    Conditional,
}

/// Trials of a study whose objective has six parameters, or a choice between two.
fn get_study(seed: u64, n_trials: u32, kind: Kind) -> Vec<Option<PersistedTrial>> {
    let mut rng = StdRng::seed_from_u64(seed);
    (0..n_trials)
        .map(|i| {
            Some(match kind {
                Kind::Single => {
                    let (x1, x2): (f64, f64) = (rng.gen_range(0.1..3.0), rng.gen_range(0.1..0.3));
                    let (x3, x4) = (rng.gen_range(2_i64..=4) as f64, rng.gen_range(0_i64..=20) as f64);
                    let (x5, x6) = (rng.gen_range(0_usize..3) as f64, (rng.gen_range(0_i64..=10) as f64) * 0.1);
                    let log = Distribution::Float { low: f(0.1), high: f(0.3), step: None, log: true };
                    let stepped = Distribution::Float { low: f(0.0), high: f(1.0), step: Some(f(0.1)), log: false };
                    complete(
                        i,
                        &[x1.powi(2) + x2 * 10.0 - x3 + x4 / 7.0 + (x5 - 1.0) * 2.0 + x6],
                        &[
                            ("x1", x1, float(0.1, 3.0)),
                            ("x2", x2, log),
                            ("x3", x3, Distribution::new_int(2, 4, 1, true)),
                            ("x4", x4, Distribution::new_int(0, 20, 1, false)),
                            ("x5", x5, Distribution::new_categorical(3)),
                            ("x6", x6, stepped),
                        ],
                    )
                }
                Kind::Conditional => {
                    let c = rng.gen_range(0_usize..2) as f64;
                    let v: f64 = rng.gen_range(-5.0..5.0);
                    let name = if c == 0.0 { "x" } else { "y" };
                    let value = if c == 0.0 { v } else { v * v + 1.0 };
                    complete(i, &[value], &[("c", c, Distribution::new_categorical(2)), (name, v, float(-5.0, 5.0))])
                }
            })
        })
        .collect()
}

fn cdf(x: f64) -> f64 {
    let t = 1.0 / (1.0 + 0.3275911 * (x.abs() / 2.0_f64.sqrt()));
    let poly = t * (0.254829592 + t * (-0.284496736 + t * (1.421413741 + t * (-1.453152027 + t * 1.061405429))));
    let erf = 1.0 - poly * (-x * x / 2.0).exp();
    0.5 * (1.0 + if x < 0.0 { -erf } else { erf })
}

fn grid_counts(name: &str, distribution: &Distribution, trials: &[&PersistedTrial], n_steps: usize) -> Vec<u32> {
    let values: Vec<f64> = trials.iter().map(|t| g(*t.internal_params.get(&name.to_string()).unwrap())).collect();
    let (low, high, log, n_steps) = match *distribution {
        Distribution::Categorical { cardinality } => return count_categorical_param_in_grid(&row(&values), cardinality),
        Distribution::Int { low, high, step, log } => {
            let log_steps = ((high - low + 1) as f64).log2().ceil() as usize + 1;
            let steps = if log { n_steps.min(log_steps) } else { int_grid_steps(low, high, step, n_steps) };
            (low as f64, high as f64, log, steps)
        }
        Distribution::Float { low, high, step, log } => {
            let steps = step.map_or(n_steps, |s| ((g(high) - g(low)) / g(s)).round() as usize + 1);
            (g(low), g(high), log, n_steps.min(steps))
        }
    };
    let scale = |v: f64| if log { v.ln() } else { v };
    let step_size = (scale(high) - scale(low)) / (n_steps as f64 - 1.0);
    let positions: Vec<f64> = values.iter().map(|v| ((scale(*v) - scale(low)) / step_size - 0.5).ceil()).collect();
    count_numerical_param_in_grid(&row(&positions), n_steps)
}

fn densities(name: &str, distribution: &Distribution, trials: &[&PersistedTrial], n_steps: usize) -> Vec<f64> {
    let counts = grid_counts(name, distribution, trials, n_steps);
    let cells = occupied_cells(&counts);
    let n = counts.len();
    let total: f64 = 1.0 + cells.iter().map(|c| counts[*c] as f64).sum::<f64>();
    let kernel = |mu: f64, sigma: f64, i: usize| {
        let mass = cdf((n as f64 - 0.5 - mu) / sigma) - cdf((-0.5 - mu) / sigma);
        (cdf((i as f64 + 0.5 - mu) / sigma) - cdf((i as f64 - 0.5 - mu) / sigma)) / mass
    };
    let categorical = matches!(distribution, Distribution::Categorical { .. });
    (0..n)
        .map(|i| {
            let at = |c: usize| if categorical { f64::from(u8::from(c == i)) } else { kernel(c as f64, 1.0, i) };
            let prior = if categorical { 1.0 / n as f64 } else { kernel((n as f64 - 1.0) / 2.0, n as f64, i) };
            (prior + cells.iter().map(|&c| counts[c] as f64 * at(c)).sum::<f64>()) / total + 1e-12
        })
        .collect()
}

type Target<'a> = Option<&'a dyn Fn(&PersistedTrial) -> f64>;

fn evaluate(
    evaluator: &PedAnovaImportanceEvaluator,
    study: &Vec<Option<PersistedTrial>>,
    direction: Direction,
    target: Target<'_>,
    params: Option<Vec<String>>,
) -> Result<BTreeMap<String, f64>> {
    let targets: Option<Vec<Float>> = target.map(|t| study.iter().map(|s| f(s.as_ref().map_or(f64::NAN, t))).collect());
    let places = get_filtered_trials(study, targets.as_ref());
    let trials: Vec<PersistedTrial> = places.iter().map(|&i| study[i].as_ref().unwrap().duplicate()).collect();
    let targets: Option<Vec<Float>> = targets.map(|all| places.iter().map(|&i| all[i]).collect());
    let names = match begin_evaluation(&trials, target.is_some(), params)? {
        EvaluationPlan::Zeros(names) => return Ok(names.into_iter().map(|name| (name, 0.0)).collect()),
        EvaluationPlan::Compare(names) => names,
    };
    let directions = vec![direction];
    let best = |quantile: Float| {
        let n_top = (trials.len() as f64 * g(quantile)).ceil() as usize;
        match get_top_quantile_trials(&trials, &directions, targets.as_ref(), quantile, n_top) {
            TopTrials::Places(places) => places,
            TopTrials::Split(_) => panic!("there is one objective"),
        }
    };
    let (target, region) = (best(evaluator.target_quantile), best(evaluator.region_quantile));
    assert!(target.iter().all(|i| region.contains(i)));
    let ids: Vec<u32> = target.iter().map(|&i| trials[i].id).collect();
    let region: Vec<PersistedTrial> = region.iter().map(|&i| trials[i].duplicate()).collect();
    let quantile = ids.len() as f64 / region.len() as f64;
    let mut importances = BTreeMap::new();
    for name in names {
        let mut sum = 0.0;
        for regime in partition_by_regime(&name, &region, evaluator.min_n_trials_in_regime) {
            let members: Vec<&PersistedTrial> = regime.members.iter().map(|&i| &region[i]).collect();
            let within = target_members(&region, &regime.members, &ids);
            if !regime_weighs(&regime.distribution, within.len()) {
                continue;
            }
            let distribution = regime.distribution.unwrap();
            let tops: Vec<&PersistedTrial> = within.iter().map(|&k| members[k]).collect();
            let top = densities(&name, &distribution, &tops, evaluator.n_steps);
            let local = if evaluator.evaluate_on_local {
                densities(&name, &distribution, &members, evaluator.n_steps)
            } else {
                vec![1.0 / top.len() as f64; top.len()]
            };
            let divergence: f64 = top.iter().zip(&local).map(|(p, q)| q * (p / q - 1.0).powi(2)).sum();
            let alpha = within.len() as f64 / ids.len() as f64;
            let beta = members.len() as f64 / region.len() as f64;
            sum += alpha.powi(2) / beta * divergence;
        }
        importances.insert(name, quantile.powi(2) * sum);
    }
    Ok(importances)
}

fn standard() -> PedAnovaImportanceEvaluator {
    PedAnovaImportanceEvaluator::new(f(0.1), f(1.0), true).unwrap()
}

fn normalized(importances: &BTreeMap<String, f64>) -> Vec<f64> {
    let total: f64 = importances.values().sum();
    importances.values().map(|v| v / total).collect()
}

fn x1_and_x2(t: &PersistedTrial) -> f64 {
    ["x1", "x2"].iter().map(|n| g(*t.internal_params.get(&n.to_string()).unwrap())).sum()
}

#[test]
fn test_get_param_importances() -> Result<()> {
    let study = get_study(42, 20, Kind::Single);
    let importances = evaluate(&standard(), &study, Direction::Minimize, None, None)?;
    assert_eq!(importances.len(), 6, "{importances:?}");
    let normalized = normalized(&importances);
    assert!(normalized.iter().all(|v| (-1e-12..=1.0 + 1e-12).contains(v)), "{importances:?}");
    assert!((normalized.iter().sum::<f64>() - 1.0).abs() < 1e-12, "{importances:?}");
    Ok(())
}

#[test]
fn test_get_param_importances_with_target() -> Result<()> {
    let study = get_study(42, 20, Kind::Single);
    let importances = evaluate(&standard(), &study, Direction::Minimize, Some(&x1_and_x2), None)?;
    assert_eq!(importances.len(), 6, "{importances:?}");
    let normalized = normalized(&importances);
    assert!(normalized.iter().all(|v| (-1e-12..=1.0 + 1e-12).contains(v)), "{importances:?}");
    assert!((normalized.iter().sum::<f64>() - 1.0).abs() < 1e-12, "{importances:?}");
    let importances_wo_target = evaluate(&standard(), &study, Direction::Minimize, None, None)?;
    assert_ne!(importances, importances_wo_target, "{importances:?}, {importances_wo_target:?}");
    Ok(())
}

#[test]
fn test_evaluator_evaluate_with_target() -> Result<()> {
    let study = get_study(42, 20, Kind::Single);
    let importances = evaluate(&standard(), &study, Direction::Minimize, Some(&x1_and_x2), None)?;
    assert_eq!(importances.len(), 6, "{importances:?}");
    let importances_wo_target = evaluate(&standard(), &study, Direction::Minimize, None, None)?;
    assert_ne!(importances, importances_wo_target, "{importances:?}, {importances_wo_target:?}");
    Ok(())
}

#[test]
fn test_n_trials_less_than_three() -> Result<()> {
    for n_trials in 0..=2 {
        let study = get_study(42, n_trials, Kind::Single);
        let importances = evaluate(&standard(), &study, Direction::Minimize, None, None)?;
        assert!((n_trials == 2) ^ importances.values().all(|v| v.abs() <= 1e-12), "{importances:?}");
    }
    Ok(())
}

#[test]
fn test_direction() -> Result<()> {
    let study = get_study(42, 20, Kind::Single);
    let importances_minimize = evaluate(&standard(), &study, Direction::Minimize, None, None)?;
    let importances_maximize = evaluate(&standard(), &study, Direction::Maximize, None, None)?;
    assert_ne!(importances_minimize, importances_maximize);
    Ok(())
}

#[test]
fn test_target_quantile() -> Result<()> {
    let study = get_study(42, 20, Kind::Single);
    let evaluator = PedAnovaImportanceEvaluator::new(f(0.3), f(1.0), true)?;
    let importances_default = evaluate(&standard(), &study, Direction::Minimize, None, None)?;
    let importances = evaluate(&evaluator, &study, Direction::Minimize, None, None)?;
    assert_ne!(importances_default, importances);
    Ok(())
}

#[test]
fn test_region_quantile_less_than_one() -> Result<()> {
    let study = get_study(42, 20, Kind::Single);
    let evaluator = PedAnovaImportanceEvaluator::new(f(0.1), f(0.5), true)?;
    let importances_default = evaluate(&standard(), &study, Direction::Minimize, None, None)?;
    let importances = evaluate(&evaluator, &study, Direction::Minimize, None, None)?;
    assert_ne!(importances_default, importances);
    Ok(())
}

#[test]
fn test_evaluate_on_local() -> Result<()> {
    let study = get_study(42, 20, Kind::Single);
    let evaluator = PedAnovaImportanceEvaluator::new(f(0.1), f(1.0), false)?;
    let importances_default = evaluate(&standard(), &study, Direction::Minimize, None, None)?;
    let importances = evaluate(&evaluator, &study, Direction::Minimize, None, None)?;
    assert_ne!(importances_default, importances);
    Ok(())
}

#[test]
fn test_conditional() -> Result<()> {
    let study = get_study(42, 20, Kind::Conditional);
    let params_cases = [
        None,
        Some(vec![]),
        Some(vec!["c"]),
        Some(vec!["x"]),
        Some(vec!["c", "x"]),
        Some(vec!["x", "y"]),
        Some(vec!["c", "x", "y"]),
        Some(vec!["d"]),
        Some(vec!["c", "d"]),
    ];
    for params in params_cases {
        let names = params.as_ref().map(|params| params.iter().map(|p| p.to_string()).collect());
        let importances = evaluate(&standard(), &study, Direction::Minimize, None, names);
        if params.as_ref().is_some_and(|params| params.contains(&"d")) {
            assert!(matches!(importances.err().unwrap().kind, ErrorKind::ImportanceEvaluatorError), "{params:?}");
            continue;
        }
        let importances = importances?;
        if params.as_ref().is_some_and(Vec::is_empty) {
            assert!(importances.is_empty());
            continue;
        }
        let expected: BTreeSet<&str> = params.unwrap_or_else(|| vec!["c", "x", "y"]).into_iter().collect();
        assert_eq!(importances.keys().map(String::as_str).collect::<BTreeSet<_>>(), expected);
        assert!(!importances.values().all(|&v| v == 0.0), "{importances:?}");
    }
    Ok(())
}
