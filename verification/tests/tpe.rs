use rand::rngs::StdRng;
use rand::{Rng, SeedableRng};

use rustuna::attr::Decimals;
use rustuna::distribution::Distribution;
use rustuna::error::{ErrorKind, Result};
use rustuna::float::Float;
use rustuna::key_map::{Duplicate, KeyMap};
use rustuna::multi_objective::hssp::{hypervolume_subset_selection, HssCache, PlaneSearch, SubsetSelection};
use rustuna::storage::InMemoryStorage;
use rustuna::study::{create_study, get_best_trial, get_pareto_front, Direction, Study};
use rustuna::tpe::{
    count_usable_complete_trials, gamma_for_multi_objective, gamma_for_single_objective, is_feasible, parzen_input,
    snapshot_usable_complete_trials, sorted_names, split_rows_for_single_objective, violations, SplitCache, TpeConfig, TpeObservations,
    TpePlan, TpeSampler, TpeSplit, N_EI_CANDIDATES,
};
use rustuna::trial::{choice_index, PersistedTrial, Trial, TrialStateValues};
use rustuna::trial_queue::InMemoryTrialQueue;

fn f(value: f64) -> Float {
    Float::from_bits(value.to_bits())
}

fn g(value: Float) -> f64 {
    f64::from_bits(value.to_bits())
}

fn row(values: &[f64]) -> Vec<Float> {
    values.iter().map(|v| f(*v)).collect()
}

fn name(text: &str) -> String {
    text.to_string()
}

fn one_constraint(value: f64) -> KeyMap<String, Float> {
    let mut constraints: KeyMap<String, Float> = KeyMap::new();
    constraints.insert(name("c0"), f(value));
    constraints
}

/// A plain kernel density over the columns of one part of the observations.
struct Density {
    columns: Vec<Vec<f64>>,
}

impl Density {
    fn log_pdf(&self, point: &[f64], widths: &[f64]) -> f64 {
        let mut total = 0.0;
        for (d, column) in self.columns.iter().enumerate() {
            let mut density = 1e-3;
            for value in column {
                density += (-((point[d] - value) / widths[d]).powi(2)).exp();
            }
            total += (density / (column.len() as f64 + 1.0)).ln();
        }
        total
    }
}

struct Bench {
    storage: InMemoryStorage,
    queue: InMemoryTrialQueue,
    study: Study,
    sampler: TpeSampler,
}

impl Bench {
    fn new(sampler: TpeSampler, directions: Vec<Direction>) -> Bench {
        let mut storage = InMemoryStorage::new();
        let study = create_study("study", &mut storage, directions).unwrap();
        Bench { storage, queue: InMemoryTrialQueue::new(), study, sampler }
    }

    fn random(&mut self, distribution: &Distribution) -> f64 {
        match self.sampler.random_sampler.sample_independent(distribution) {
            Some(value) => g(value),
            None => match *distribution {
                Distribution::Float { low, high, .. } => self.sampler.random_sampler.rng.gen_range(g(low)..g(high)),
                _ => panic!("only float ranges are drawn outside"),
            },
        }
    }

    fn selected(&self, loss: &Vec<Vec<Float>>, indices: &Vec<usize>, worst: &Vec<Float>, take: usize) -> Vec<usize> {
        let reference: Vec<f64> = worst.iter().map(|w| (1.1 * g(*w)).max(0.9 * g(*w))).collect();
        let reference: Vec<f64> = reference.into_iter().map(|r| if r == 0.0 { 1e-12 } else { r }).collect();
        match hypervolume_subset_selection(loss, indices, &row(&reference), take, &HssCache::new()) {
            SubsetSelection::Settled(selected) => selected,
            SubsetSelection::Plane(task) => {
                let mut search = PlaneSearch::new(task);
                while !search.is_done() {
                    let areas: Vec<Float> = (0..search.open_slots.len())
                        .map(|j| {
                            let width = (g(search.d0[j]) - g(search.f0[j])).max(0.0);
                            let height = (g(search.d1[j]) - g(search.f1[j])).max(0.0);
                            f(width * height)
                        })
                        .collect();
                    search.pick(&areas);
                }
                search.selection()
            }
            SubsetSelection::Greedy(_) => panic!("two finite objectives are searched in the plane"),
        }
    }

    fn parts(&mut self, obs: &TpeObservations) -> (Vec<usize>, Vec<usize>) {
        let observed: Vec<(bool, Float)> = (0..obs.len())
            .map(|i| (obs.feasible[i], f(obs.violations[i].iter().map(|v| g(*v)).sum())))
            .collect();
        match self.sampler.plan_split(&self.study.directions, obs, &observed) {
            TpeSplit::Single { good, poor } | TpeSplit::Remembered { good, poor } => (good, poor),
            TpeSplit::Several(plan) => {
                let chosen = if plan.feasible.take == 0 {
                    Vec::new()
                } else {
                    let part = &plan.feasible;
                    self.selected(&part.candidate_losses, &part.candidates, &part.worst_point, part.take)
                };
                self.sampler.complete_split(&self.study.directions, obs, &observed, &plan, &chosen)
            }
        }
    }

    fn model(&mut self, obs: &TpeObservations, names: &[String], space: &KeyMap<String, Distribution>) -> Vec<f64> {
        let (good, poor) = self.parts(obs);
        let density = |rows: &Vec<usize>| {
            let input = parzen_input(obs, rows, names.len());
            Density { columns: input.columns.iter().map(|c| c.iter().map(|v| g(*v)).collect()).collect() }
        };
        let (l, r) = (density(&good), density(&poor));
        let mut widths: Vec<f64> = Vec::new();
        for name in names {
            widths.push(match *space.get(name).unwrap() {
                Distribution::Float { low, high, .. } => (g(high) - g(low)) / 5.0,
                Distribution::Int { low, high, .. } => (high - low) as f64 / 5.0,
                Distribution::Categorical { .. } => 0.5,
            });
        }
        let mut best: Option<(f64, Vec<f64>)> = None;
        for _ in 0..N_EI_CANDIDATES {
            let mut point: Vec<f64> = Vec::new();
            for name in names.iter() {
                let distribution = *space.get(name).unwrap();
                point.push(self.random(&distribution));
            }
            let score = l.log_pdf(&point, &widths) - r.log_pdf(&point, &widths);
            if best.as_ref().map(|(s, _)| score > *s).unwrap_or(true) {
                best = Some((score, point));
            }
        }
        best.unwrap().1
    }

    fn sample_joint(&mut self, space: &KeyMap<String, Distribution>) -> Result<KeyMap<String, Float>> {
        let mut out: KeyMap<String, Float> = KeyMap::new();
        let plan = self.sampler.plan_joint(self.storage.get_trials(self.study.id)?, space, self.study.directions.len())?;
        if let TpePlan::Model(obs) = plan {
            let names = sorted_names(space);
            for (name, value) in names.iter().zip(self.model(&obs, &names, space)) {
                out.insert(name.clone(), f(value));
            }
        }
        Ok(out)
    }

    fn ask(&mut self) -> Result<Trial> {
        let none: Decimals = KeyMap::new();
        let joint = self.sampler.support_joint_sampling();
        let begun = self.study.ask(&mut self.storage, &mut self.queue, name("now"), &none)?;
        let pending = self.study.infer_search_space(&mut self.storage, begun, joint, Ok(()))?;
        let mut space: KeyMap<String, Distribution> = KeyMap::new();
        if let Some(asked) = &pending.search_space {
            for i in 0..asked.len() {
                let (name, distribution) = asked.entry(i);
                space.insert(name.clone(), *distribution);
            }
        }
        let sampled = if pending.search_space.is_some() { self.sample_joint(&space)? } else { KeyMap::new() };
        Ok(pending.into_trial(&self.study, &sampled))
    }

    fn suggest(&mut self, trial: &mut Trial, name: &str, distribution: &Distribution) -> Result<f64> {
        let none: Decimals = KeyMap::new();
        if let Some(value) = trial.suggest(&mut self.storage, name, distribution, f(0.0), &none)? {
            return Ok(g(value));
        }
        let value = if distribution.is_single() {
            g(distribution.get_single_value()?)
        } else {
            let mut space: KeyMap<String, Distribution> = KeyMap::new();
            space.insert(name.to_string(), *distribution);
            let n = self.study.directions.len();
            let names = vec![name.to_string()];
            match self.sampler.plan_independent(self.storage.get_trials(self.study.id)?, name, n)? {
                TpePlan::Model(obs) => self.model(&obs, &names, &space)[0],
                _ => self.random(distribution),
            }
        };
        Ok(g(trial.suggest_sampled(&mut self.storage, name, distribution, f(0.0), f(value))?))
    }

    fn float(&mut self, trial: &mut Trial, name: &str, low: f64, high: f64) -> Result<f64> {
        self.suggest(trial, name, &Distribution::Float { low: f(low), high: f(high), step: None, log: false })
    }

    fn integer(&mut self, trial: &mut Trial, name: &str, low: i64, high: i64) -> Result<i64> {
        Ok(self.suggest(trial, name, &Distribution::new_int(low, high, 1, false))? as i64)
    }

    fn optimize(&mut self, objective: impl Fn(&mut Bench, &mut Trial) -> Result<Vec<f64>>, n_trials: usize) -> Result<()> {
        for _ in 0..n_trials {
            let mut trial = self.ask()?;
            let values = objective(self, &mut trial)?;
            let context = self.study.begin_tell(&self.storage, trial.number)?;
            let told = TrialStateValues::Complete(row(&values));
            self.study.finish_tell(&mut self.storage, &context, told, name("now"), Ok(()))?;
        }
        Ok(())
    }

    fn trials(&self) -> Vec<PersistedTrial> {
        self.study.get_trials(&self.storage).unwrap()
    }
}

fn one() -> Vec<Direction> {
    vec![Direction::Minimize]
}

fn two() -> Vec<Direction> {
    vec![Direction::Minimize, Direction::Minimize]
}

#[test]
fn sampler_test_optimize() {
    let mut bench = Bench::new(TpeSampler::new(), one());
    bench
        .optimize(
            |bench, t| {
                let x = bench.float(t, "x", 0.0, 10.0)?;
                let y = bench.integer(t, "y", 0, 10)?;
                let choices = [1, 2, 3, 4, 5];
                let index = bench.suggest(t, "z", &Distribution::new_categorical(choices.len()))?;
                let z: i64 = choices[choice_index(f(index), choices.len())?];
                Ok(vec![(x - 3.0).powi(2) + (y - 5).pow(2) as f64 + (z - 2).pow(2) as f64])
            },
            50,
        )
        .unwrap();
    assert!(get_best_trial(&bench.study, &bench.storage).is_ok());
}

#[test]
fn test_optimize_conditional() {
    let mut bench = Bench::new(TpeSampler::new(), one());
    bench
        .optimize(
            |bench, t| {
                let x = bench.float(t, "x", 0.0, 10.0)?;
                let y = bench.float(t, "y", 0.0, 10.0)?;
                let mut value = (x - 3.0).powi(2) + (y - 5.0).powi(2);
                if x >= 5.0 {
                    value += bench.float(t, "z", -5.0, 5.0)?;
                }
                Ok(vec![value])
            },
            50,
        )
        .unwrap();
    assert!(get_best_trial(&bench.study, &bench.storage).is_ok());
}

#[test]
fn test_dynamic_float_range_falls_back_to_independent_sampling() {
    let sampler = TpeSampler::from_config(TpeConfig { multivariate: None, n_startup_trials: 2, seed: Some(42) });
    let mut bench = Bench::new(sampler, one());
    bench
        .optimize(
            |bench, t| {
                let x = if t.number % 2 == 0 { bench.float(t, "x", 0.0, 1.0)? } else { bench.float(t, "x", 0.5, 1.0)? };
                assert!((0.0..=1.0).contains(&x));
                if t.number % 2 == 1 {
                    assert!(x >= 0.5);
                }
                Ok(vec![(x - 0.75).powi(2)])
            },
            6,
        )
        .unwrap();
}

#[test]
fn test_multi_objective() {
    let mut bench = Bench::new(TpeSampler::new(), two());
    bench
        .optimize(
            |bench, t| {
                let x = bench.float(t, "x", 0.0, 10.0)?;
                let y = bench.float(t, "y", 0.0, 10.0)?;
                Ok(vec![(x - 3.0).powi(2) + (y - 5.0).powi(2), (x - 7.0).powi(2) + (y - 2.0).powi(2)])
            },
            50,
        )
        .unwrap();
    assert!(get_pareto_front(&bench.study, &bench.storage).is_ok());
}

fn two_objectives_with(bench: &mut Bench, bad: impl Fn(u32) -> bool, value: f64) {
    bench
        .optimize(
            |bench, t| {
                let x = bench.float(t, "x", 0.0, 10.0)?;
                let y = bench.float(t, "y", 0.0, 10.0)?;
                let f0 = if bad(t.number) { value } else { (x - 3.0).powi(2) + (y - 5.0).powi(2) };
                let f1 = (x - 7.0).powi(2) + (y - 2.0).powi(2);
                Ok(vec![f0, f1])
            },
            80,
        )
        .unwrap();
}

#[test]
fn multi_objective_handles_plus_inf_objective_values() {
    let mut bench = Bench::new(TpeSampler::seed_from_u64(0), two());
    // Some trials report `+inf` to mimic an objective that occasionally fails.
    two_objectives_with(&mut bench, |number| number % 7 == 0, f64::INFINITY);
    assert!(!get_pareto_front(&bench.study, &bench.storage).unwrap().is_empty());
}

#[test]
fn multi_objective_handles_neg_inf_objective_values() {
    let mut bench = Bench::new(TpeSampler::seed_from_u64(0), two());
    // A handful of trials report `-inf` for the first objective.
    two_objectives_with(&mut bench, |number| number % 11 == 5, f64::NEG_INFINITY);
    assert!(!get_pareto_front(&bench.study, &bench.storage).unwrap().is_empty());
}

#[test]
fn all_nan_observations_fall_back_to_random_sampling() {
    let mut bench = Bench::new(TpeSampler::seed_from_u64(0), one());
    bench
        .optimize(
            |bench, t| {
                let _x = bench.float(t, "x", 0.0, 10.0)?;
                Ok(vec![f64::NAN])
            },
            40,
        )
        .unwrap();
    assert_eq!(count_usable_complete_trials(bench.storage.get_trials(bench.study.id).unwrap()), 0);
}

#[test]
fn all_nan_observations_multi_objective_falls_back_cleanly() {
    let mut bench = Bench::new(TpeSampler::seed_from_u64(0), two());
    bench
        .optimize(
            |bench, t| {
                let _x = bench.float(t, "x", 0.0, 10.0)?;
                Ok(vec![f64::NAN, f64::NAN])
            },
            40,
        )
        .unwrap();
}

#[test]
fn single_objective_nan_is_treated_as_worst() {
    let mut bench = Bench::new(TpeSampler::seed_from_u64(0), one());
    bench
        .optimize(
            |bench, t| {
                let x = bench.float(t, "x", 0.0, 10.0)?;
                // Some trials report NaN (failed evaluation).
                Ok(vec![if t.number % 5 == 3 { f64::NAN } else { (x - 4.0).powi(2) }])
            },
            60,
        )
        .unwrap();
    // The best trial must come from the finite half.
    let best_number = get_best_trial(&bench.study, &bench.storage).unwrap();
    let trials = bench.trials();
    let best = trials.iter().find(|t| t.number == best_number).unwrap();
    let v = match &best.state_values {
        TrialStateValues::Complete(vs) => g(vs[0]),
        _ => unreachable!("best trial must be complete"),
    };
    assert!(v.is_finite(), "best trial value should be finite, got {v}");
}

#[test]
fn multi_objective_all_non_finite_falls_back_cleanly() {
    let mut bench = Bench::new(TpeSampler::seed_from_u64(0), two());
    bench
        .optimize(
            |bench, t| {
                let _x = bench.float(t, "x", 0.0, 10.0)?;
                let _y = bench.float(t, "y", 0.0, 10.0)?;
                // No finite observations anywhere.
                let v = if t.number % 2 == 0 { f64::INFINITY } else { f64::NEG_INFINITY };
                Ok(vec![v, v])
            },
            40,
        )
        .unwrap();
}

#[test]
fn sampler_test_single_value_parameters() {
    let mut bench = Bench::new(TpeSampler::seed_from_u64(42), one());
    let result = bench.optimize(
        |bench, t| {
            // Normal parameter
            let x = bench.float(t, "x", -10.0, 10.0)?;
            // Single-value parameters (should be excluded from search space)
            let y = bench.float(t, "y", 5.0, 5.0)?; // single value: 5.0
            let z = bench.integer(t, "z", 3, 3)?; // single value: 3
            Ok(vec![(x - 2.0).powi(2) + y + z as f64])
        },
        30,
    );
    assert!(result.is_ok(), "Optimization should complete without panicking");

    // Verify single-value params were always constant
    for trial in bench.trials().iter() {
        if let Some(y_val) = trial.internal_params.get(&name("y")) {
            assert!((g(*y_val) - 5.0).abs() < 1e-10, "y should always be 5.0, got {}", g(*y_val));
        }
        if let Some(z_val) = trial.internal_params.get(&name("z")) {
            assert!((g(*z_val) - 3.0).abs() < 1e-10, "z should always be 3.0, got {}", g(*z_val));
        }
    }
}

#[test]
fn test_single_objective_constraint() {
    let mut bench = Bench::new(TpeSampler::seed_from_u64(0), one());
    let result = bench.optimize(
        |bench, t| {
            let x = bench.float(t, "x", -15.0, 15.0)?;
            t.set_constraints(&mut bench.storage, one_constraint(x.powi(2) - 8.0))?;
            Ok(vec![x.powi(2)])
        },
        100,
    );
    assert!(result.is_ok(), "Optimization should complete without panicking.");
}

#[test]
fn test_mixed_constrained_and_unconstrained_trials() {
    let mut bench = Bench::new(TpeSampler::seed_from_u64(0), one());
    let result = bench.optimize(
        |bench, t| {
            let x = bench.float(t, "x", -10.0, 10.0)?;
            if t.number % 2 == 0 {
                t.set_constraints(&mut bench.storage, one_constraint(x - 5.0))?;
            }
            Ok(vec![x.powi(2)])
        },
        60,
    );
    assert!(result.is_ok(), "Optimization should complete without panicking.");
}

#[test]
fn test_multi_objective_constraint_with_few_feasible_trials() {
    // Only a tiny slice of the search space is feasible, so the number of feasible
    // trials stays below gamma. The good half then has to be padded with the least
    // violating infeasible trials.
    let mut bench = Bench::new(TpeSampler::seed_from_u64(0), two());
    let result = bench.optimize(
        |bench, t| {
            let x = bench.float(t, "x", 0.0, 1.0)?;
            let y = bench.float(t, "y", 0.0, 1.0)?;
            let c0 = if x < 0.02 { -1.0 } else { 1.0 };
            t.set_constraints(&mut bench.storage, one_constraint(c0))?;
            Ok(vec![x, y])
        },
        200,
    );
    assert!(result.is_ok(), "Optimization should complete without panicking.");
}

fn complete(number: u32, values: &[f64], params: &[(&str, f64)]) -> Option<PersistedTrial> {
    let mut trial = PersistedTrial::new(number, 0, number);
    trial.state_values = TrialStateValues::Complete(row(values));
    for (key, value) in params {
        trial.internal_params.insert(name(key), f(*value));
    }
    Some(trial)
}

#[test]
fn a_tenth_of_the_trials_is_promising() {
    for (n, single, multi) in [(0, 0, 0), (1, 1, 1), (10, 1, 1), (11, 2, 2), (250, 25, 25), (251, 25, 26), (1000, 25, 100)] {
        assert_eq!(gamma_for_single_objective(n), single);
        assert_eq!(gamma_for_multi_objective(n), multi);
        assert_eq!(multi, (0.1 * n as f64).ceil() as usize);
    }
}

#[test]
fn nan_and_infeasible_rows_are_split_last() {
    let values = row(&[f64::NAN, 5.0, 1.0, 0.0, 3.0]);
    let observed = vec![(true, f(0.0)), (true, f(0.0)), (true, f(0.0)), (false, f(1.0)), (true, f(0.0))];
    let (good, poor) = split_rows_for_single_objective(&values, &observed, Direction::Minimize, 3);
    assert_eq!(good, vec![2, 4, 1]);
    assert_eq!(poor, vec![0, 3]);
    let (good, _) = split_rows_for_single_objective(&values, &observed, Direction::Maximize, 2);
    assert_eq!(good, vec![1, 4]);
    let (good, poor) = split_rows_for_single_objective(&values, &observed, Direction::Minimize, 5);
    assert_eq!((good, poor), (vec![0, 1, 2, 3, 4], vec![]));
}

#[test]
fn observations_keep_what_a_trial_lacks() {
    let trials = vec![complete(0, &[1.0], &[("x", 0.5)]), None, complete(2, &[f64::NAN], &[]), complete(3, &[2.0], &[("y", 7.0), ("x", 1.5)])];
    let names = vec![name("x"), name("y")];
    assert_eq!(count_usable_complete_trials(&trials), 2);
    let obs = snapshot_usable_complete_trials(&trials, &names, 1).unwrap();
    assert_eq!(obs.trial_numbers, vec![0, 3]);
    assert_eq!(obs.params, vec![vec![Some(f(0.5)), None], vec![Some(f(1.5)), Some(f(7.0))]]);
    let input = parzen_input(&obs, &vec![1, 0], 2);
    assert_eq!(input.order, vec![0, 1]);
    assert_eq!(input.columns, vec![row(&[0.5, 1.5]), row(&[7.0])]);
    assert_eq!(input.active, vec![1]);
    assert_eq!(snapshot_usable_complete_trials(&trials, &names, 2).err().map(|e| e.kind), Some(ErrorKind::Unexpected));
    let reason = snapshot_usable_complete_trials(&trials, &names, 2).err().map(|e| e.reason);
    assert_eq!(reason.as_deref(), Some("Trial 0 has 1 objective values but the study has 2 directions"));
}

#[test]
fn constraints_hold_up_to_zero() {
    assert!(is_feasible(&KeyMap::new()));
    assert!(is_feasible(&one_constraint(0.0)) && is_feasible(&one_constraint(-0.0)));
    assert!(!is_feasible(&one_constraint(1e-300)));
    assert!(!is_feasible(&one_constraint(f64::NAN)));
    assert_eq!(violations(&one_constraint(2.0)), row(&[2.0]));
    assert!(violations(&one_constraint(f64::NAN)).is_empty());
}

#[test]
fn names_are_sorted() {
    let mut space: KeyMap<String, Distribution> = KeyMap::new();
    for key in ["b", "ab", "B", "a", "aa"] {
        space.insert(name(key), Distribution::new_categorical(2));
    }
    let mut expected: Vec<String> = ["b", "ab", "B", "a", "aa"].iter().map(|k| name(k)).collect();
    expected.sort();
    assert_eq!(sorted_names(&space), expected);
}

#[test]
fn splits_go_by_the_number_of_objectives() {
    let mut sampler = TpeSampler::new();
    let names = vec![name("x")];
    let trials: Vec<Option<PersistedTrial>> = [4.0, 1.0, 3.0].iter().zip(0..).map(|(v, i)| complete(i + 7, &[*v], &[("x", *v)])).collect();
    let obs = snapshot_usable_complete_trials(&trials, &names, 1).unwrap();
    let observed = vec![(true, f(0.0)); 3];
    let split = sampler.plan_split(&vec![Direction::Minimize], &obs, &observed);
    assert!(split.by_age());
    assert!(matches!(split, TpeSplit::Single { good, poor } if good == vec![1] && poor == vec![2, 0]));
    let split = sampler.plan_split(&vec![Direction::Maximize], &obs, &observed);
    assert!(matches!(split, TpeSplit::Single { good, .. } if good == vec![0]));

    let directions = vec![Direction::Minimize, Direction::Maximize];
    let trials: Vec<Option<PersistedTrial>> =
        [[4.0, 1.0], [1.0, 0.0], [1.0, 5.0]].iter().zip(0..).map(|(v, i)| complete(i + 7, v, &[("x", v[0])])).collect();
    let obs = snapshot_usable_complete_trials(&trials, &names, 2).unwrap();
    let split = sampler.plan_split(&directions, &obs, &observed);
    assert!(!split.by_age());
    let TpeSplit::Several(plan) = split else {
        panic!("no split is remembered yet");
    };
    let selected: Vec<usize> = plan.feasible.candidates[..plan.feasible.take].to_vec();
    let (good, poor) = sampler.complete_split(&directions, &obs, &observed, &plan, &selected);
    assert_eq!((good, poor), (vec![2], vec![0, 1]));

    let split = sampler.plan_split(&directions, &obs, &observed);
    assert!(!split.by_age());
    assert!(matches!(split, TpeSplit::Remembered { good, poor } if good == vec![2] && poor == vec![0, 1]));
    let fewer = snapshot_usable_complete_trials(&trials[..2].iter().map(|t| t.as_ref().map(|t| t.duplicate())).collect(), &names, 2).unwrap();
    assert!(matches!(sampler.plan_split(&directions, &fewer, &observed[..2].to_vec()), TpeSplit::Several(_)));
}

#[test]
fn the_last_split_is_remembered() {
    let mut cache = SplitCache::new();
    assert!(cache.lookup(&vec![4, 5, 6], 1).is_none());
    cache.store(&vec![4, 5, 6], 1, &vec![2], &vec![1, 0]);
    assert_eq!(cache.lookup(&vec![4, 5, 6], 1), Some((vec![2], vec![0, 1])));
    assert!(cache.lookup(&vec![4, 5, 6], 2).is_none());
    assert!(cache.lookup(&vec![4, 5], 1).is_none());
}

#[test]
fn sampling_starts_at_random_and_jointly_for_one_objective() {
    let sampler = TpeSampler::from_config(TpeConfig { multivariate: None, n_startup_trials: 1, seed: None });
    let mut space: KeyMap<String, Distribution> = KeyMap::new();
    let none: Vec<Option<PersistedTrial>> = Vec::new();
    let some = vec![complete(0, &[1.0], &[("x", 1.0)])];
    assert!(matches!(sampler.plan_joint(&some, &space, 1), Ok(TpePlan::Independent)));
    space.insert(name("x"), Distribution::new_int(0, 3, 1, false));
    assert!(matches!(sampler.plan_joint(&none, &space, 1), Ok(TpePlan::Independent)));
    assert!(matches!(sampler.plan_joint(&some, &space, 1), Ok(TpePlan::Model(_))));
    assert!(matches!(sampler.plan_joint(&some, &space, 2), Ok(TpePlan::Independent)));
    assert!(sampler.wants_joint(&space, 1) && !sampler.wants_joint(&space, 2) && !sampler.wants_joint(&KeyMap::new(), 1));
    assert!(matches!(sampler.plan_independent(&none, "x", 1), Ok(TpePlan::Random)));
    assert!(matches!(sampler.plan_independent(&some, "x", 1), Ok(TpePlan::Model(_))));
    let off = TpeSampler::from_config(TpeConfig { multivariate: Some(false), n_startup_trials: 1, seed: None });
    assert!(sampler.support_joint_sampling() && !off.support_joint_sampling());
    let default = TpeConfig::default();
    assert_eq!((default.multivariate, default.n_startup_trials, default.seed), (None, 10, None));
}

#[test]
fn draws_are_reproducible_and_stay_in_range() {
    let mut a = TpeSampler::seed_from_u64(5);
    let mut b = TpeSampler::seed_from_u64(5);
    let mut c = TpeSampler::seed_from_u64(6);
    let d = Distribution::new_int(-4, 9, 3, false);
    let mut other = false;
    for _ in 0..40 {
        let x = g(a.random_sampler.sample_independent(&d).unwrap());
        assert_eq!(x, g(b.random_sampler.sample_independent(&d).unwrap()));
        other = other || x != g(c.random_sampler.sample_independent(&d).unwrap());
        assert!([-4.0, -1.0, 2.0, 5.0, 8.0].contains(&x));
        let k = g(a.random_sampler.sample_independent(&Distribution::new_categorical(3)).unwrap());
        assert_eq!(k, g(b.random_sampler.sample_independent(&Distribution::new_categorical(3)).unwrap()));
        c.random_sampler.sample_independent(&Distribution::new_categorical(3));
        assert!([0.0, 1.0, 2.0].contains(&k));
    }
    assert!(other);
    assert_eq!(a.random_sampler.rng.gen::<u64>(), b.random_sampler.rng.gen::<u64>());
    assert!(a.random_sampler.sample_independent(&Distribution::Float { low: f(0.0), high: f(1.0), step: None, log: false }).is_none());
}

#[test]
fn the_first_number_of_the_generator_seeds_the_fallback() {
    for seed in [0, 5, u64::MAX] {
        let sampler = TpeSampler::seed_from_u64(seed);
        let mut generator = StdRng::seed_from_u64(seed);
        let number = generator.gen::<u64>();
        assert!(sampler.rng.rng == generator);
        assert!(sampler.random_sampler.rng == StdRng::seed_from_u64(number));
    }
    let sampler = TpeSampler::from_config(TpeConfig { multivariate: None, n_startup_trials: 10, seed: None });
    let mut generator = StdRng::from_seed([0; 32]);
    let number = generator.gen::<u64>();
    assert!(sampler.rng.rng == generator);
    assert!(sampler.random_sampler.rng == StdRng::seed_from_u64(number));
}
