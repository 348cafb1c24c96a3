use rand::Rng;

use rustuna::attr::{AttrKey, Attrs, Decimals};
use rustuna::distribution::Distribution;
use rustuna::error::{ErrorKind, Result};
use rustuna::float::Float;
use rustuna::key_map::KeyMap;
use rustuna::nsgaii::{
    constrained_dominates, crossover, crowding_axis, crowding_distance_sort, fast_non_dominated_sort, generation_text, mutate,
    parent_params, population_members, select_whole_fronts, Generations, Member, ParentSearch,
};
use rustuna::sampler::RandomSampler;
use rustuna::storage::InMemoryStorage;
use rustuna::study::{create_study, Direction, Study};
use rustuna::tpe::violations;
use rustuna::trial::{PersistedTrial, Trial, TrialStateValues};
use rustuna::trial_queue::InMemoryTrialQueue;

fn f(value: f64) -> Float {
    Float::from_bits(value.to_bits())
}

fn g(value: Float) -> f64 {
    f64::from_bits(value.to_bits())
}

fn row(values: &[f64]) -> Vec<Float> {
    values.iter().map(|v| f(*v)).collect()
}

fn total(constraints: &KeyMap<String, Float>) -> Float {
    f(violations(constraints).into_iter().map(g).sum())
}

fn both() -> Vec<Direction> {
    vec![Direction::Minimize, Direction::Minimize]
}

/// Crowding distances of a front, by its values.
fn distances(values: &[Vec<f64>]) -> Vec<f64> {
    let mut out = vec![0.0; values.len()];
    for d in 0..values[0].len() {
        let column: Vec<Float> = values.iter().map(|v| f(v[d])).collect();
        let Some(axis) = crowding_axis(&column) else {
            continue;
        };
        let mut width = g(axis.highest) - g(axis.lowest);
        if width <= 0.0 {
            width = 1.0;
        }
        for j in 0..axis.order.len() {
            let (below, above) = (g(axis.below[j]), g(axis.above[j]));
            out[axis.order[j]] += if below == above { 0.0 } else { above - below } / width;
        }
    }
    out
}

struct Sampler {
    random: RandomSampler,
    population_size: usize,
    mutation_prob: Option<f64>,
    crossover_prob: f64,
    swapping_prob: f64,
    generations: Generations,
}

struct Bench {
    storage: InMemoryStorage,
    queue: InMemoryTrialQueue,
    study: Study,
    sampler: Sampler,
}

impl Bench {
    fn new(population_size: usize, mutation_prob: Option<f64>, crossover_prob: f64, swapping_prob: f64) -> Bench {
        let mut storage = InMemoryStorage::new();
        let study = create_study("study", &mut storage, both()).unwrap();
        let sampler = Sampler {
            random: RandomSampler::new(),
            population_size,
            mutation_prob,
            crossover_prob,
            swapping_prob,
            generations: Generations::new(),
        };
        Bench { storage, queue: InMemoryTrialQueue::new(), study, sampler }
    }

    fn elite(&self, population: &Vec<u32>) -> Result<Vec<u32>> {
        let trials = self.storage.get_trials(self.study.id)?;
        let sums: Vec<Float> =
            population.iter().map(|&n| trials[n as usize].as_ref().map(|t| total(t.constraints())).unwrap_or(f(0.0))).collect();
        let members = population_members(trials, population, &sums)?;
        let fronts = fast_non_dominated_sort(&members, &self.study.directions);
        let selection = select_whole_fronts(&fronts, self.sampler.population_size);
        let elite = if selection.boundary.is_empty() {
            selection.elite
        } else {
            let values: Vec<Vec<f64>> = selection
                .boundary
                .iter()
                .map(|&i| members[i].values.as_ref().unwrap().iter().map(|v| g(*v)).collect())
                .collect();
            selection.complete(&row(&distances(&values)))
        };
        Ok(elite.into_iter().map(|i| population[i]).collect())
    }

    fn sample_joint(&mut self, trial_id: u32, space: &KeyMap<String, Distribution>) -> Result<KeyMap<String, Float>> {
        let mut search = ParentSearch::new();
        while let Some(population) = search.next_population(&self.sampler.generations, self.sampler.population_size) {
            let elite = self.elite(&population)?;
            search.advance(elite);
        }
        let (has_parents, generation) = search.child_generation();
        let mut attrs: Attrs = KeyMap::new();
        attrs.insert(AttrKey::System("generation".to_string()), generation_text(generation));
        self.storage.set_trial_attrs(trial_id, &attrs, false)?;
        if !has_parents {
            return Ok(KeyMap::new());
        }
        let (a, b) = self.sampler.random.draw_two(search.parents.len());
        let trials = self.storage.get_trials(self.study.id)?;
        let parent0 = parent_params(trials, search.parents[a], space)?;
        let parent1 = parent_params(trials, search.parents[b], space)?;
        let rng = &mut self.sampler.random.rng;
        let child = if rng.gen_bool(self.sampler.crossover_prob) {
            let swapped: Vec<bool> = (0..space.len()).map(|_| rng.gen_bool(self.sampler.swapping_prob)).collect();
            crossover(&parent0, &parent1, space, &swapped)
        } else {
            parent0
        };
        let prob = self.sampler.mutation_prob.unwrap_or(1.0 / 1.0_f64.max(child.len() as f64));
        let mutated: Vec<bool> = (0..space.len()).map(|_| rng.gen_bool(prob)).collect();
        Ok(mutate(&child, space, &mutated))
    }

    fn ask(&mut self) -> Result<Trial> {
        let none: Decimals = KeyMap::new();
        let begun = self.study.ask(&mut self.storage, &mut self.queue, "now".to_string(), &none)?;
        let pending = self.study.infer_search_space(&mut self.storage, begun, true, Ok(()))?;
        let sampled = match &pending.search_space {
            Some(space) => {
                let mut copy: KeyMap<String, Distribution> = KeyMap::new();
                for i in 0..space.len() {
                    let (name, distribution) = space.entry(i);
                    copy.insert(name.clone(), *distribution);
                }
                self.sample_joint(pending.id, &copy)?
            }
            None => KeyMap::new(),
        };
        Ok(pending.into_trial(&self.study, &sampled))
    }

    fn tell(&mut self, trial: &Trial, state_values: TrialStateValues) -> Result<()> {
        let context = self.study.begin_tell(&self.storage, trial.number)?;
        if let TrialStateValues::Complete(_) = state_values {
            self.sampler.generations.note(self.storage.get_trial(context.trial_id)?);
        }
        self.study.finish_tell(&mut self.storage, &context, state_values, "now".to_string(), Ok(()))
    }

    fn suggest(&mut self, trial: &mut Trial, name: &str, distribution: &Distribution) -> Result<f64> {
        let none: Decimals = KeyMap::new();
        if let Some(value) = trial.suggest(&mut self.storage, name, distribution, f(0.0), &none)? {
            return Ok(g(value));
        }
        let value = match self.sampler.random.sample_independent(distribution) {
            Some(value) => value,
            None => match *distribution {
                Distribution::Float { low, high, .. } => f(self.sampler.random.rng.gen_range(g(low)..g(high))),
                _ => panic!("only float ranges are drawn outside"),
            },
        };
        Ok(g(trial.suggest_sampled(&mut self.storage, name, distribution, f(0.0), value)?))
    }

    fn float(&mut self, trial: &mut Trial, name: &str, low: f64, high: f64) -> Result<f64> {
        self.suggest(trial, name, &Distribution::Float { low: f(low), high: f(high), step: None, log: false })
    }

    fn integer(&mut self, trial: &mut Trial, name: &str, low: i64, high: i64) -> Result<i64> {
        Ok(self.suggest(trial, name, &Distribution::new_int(low, high, 1, false))? as i64)
    }

    fn optimize(&mut self, objective: impl Fn(&mut Bench, &mut Trial) -> Result<Vec<f64>>, n_trials: usize) -> Result<()> {
        for _ in 0..n_trials {
            let mut trial = self.ask()?;
            let values = objective(self, &mut trial)?;
            self.tell(&trial, TrialStateValues::Complete(row(&values)))?;
        }
        Ok(())
    }

    fn trials(&self) -> Vec<PersistedTrial> {
        self.study.get_trials(&self.storage).unwrap()
    }
}

#[test]
fn nsgaii_test_optimize() {
    let mut bench = Bench::new(2, None, 1.0, 1.0);
    let n_trials = 10;
    bench
        .optimize(
            |bench, t| {
                let x = bench.float(t, "x", 0.0, 10.0)?;
                let y = bench.float(t, "y", 0.0, 10.0)?;
                let value0 = (x - 3.0).powi(2) + (y - 5.0).powi(2);
                let value1 = (x - 5.0).powi(2) + (y - 3.0).powi(2);
                Ok(vec![value0, value1])
            },
            n_trials,
        )
        .unwrap();
    assert!(bench.trials().len() == n_trials);
}

#[test]
fn nsgaii_test_single_value_parameters() {
    let mut bench = Bench::new(3, None, 0.9, 0.5);
    let result = bench.optimize(
        |bench, t| {
            // Normal parameters
            let x = bench.float(t, "x", 0.0, 10.0)?;
            let y = bench.float(t, "y", 0.0, 10.0)?;

            // Single-value parameters (should be excluded from genetic algorithm)
            let z = bench.float(t, "z", 5.0, 5.0)?; // single value: 5.0
            let w = bench.integer(t, "w", 3, 3)?; // single value: 3

            let value0 = (x - 3.0).powi(2) + (y - 5.0).powi(2) + z + w as f64;
            let value1 = (x - 5.0).powi(2) + (y - 3.0).powi(2) + z - w as f64;
            Ok(vec![value0, value1])
        },
        30,
    );
    assert!(result.is_ok(), "Optimization should complete without panicking");

    // Verify single-value params were always constant
    for trial in bench.trials().iter() {
        if let Some(z_val) = trial.internal_params.get(&"z".to_string()) {
            assert!((g(*z_val) - 5.0).abs() < 1e-10, "z should always be 5.0, got {}", g(*z_val));
        }
        if let Some(w_val) = trial.internal_params.get(&"w".to_string()) {
            assert!((g(*w_val) - 3.0).abs() < 1e-10, "w should always be 3.0, got {}", g(*w_val));
        }
    }
}

#[test]
fn test_constraints() {
    let mut bench = Bench::new(2, None, 1.0, 1.0);
    let n_trials = 10;
    let result = bench.optimize(
        |bench, t| {
            let x = bench.float(t, "x", -15.0, 30.0)?;
            let y = bench.float(t, "y", -15.0, 30.0)?;
            let v0 = 4.0 * x.powi(2) + 4.0 * y.powi(2);
            let v1 = (x - 5.0).powi(2) + (y - 5.0).powi(2);
            let mut constraints: KeyMap<String, Float> = KeyMap::new();
            constraints.insert("c0".to_string(), f(1000.0 - v0));
            t.set_constraints(&mut bench.storage, constraints)?;
            Ok(vec![v0, v1])
        },
        n_trials,
    );
    assert!(result.is_ok(), "Optimization with constraints should complete without panicking");
}

#[test]
fn test_uncompleted_trial() -> Result<()> {
    let mut bench = Bench::new(2, None, 1.0, 1.0);
    let n_trials = 50;
    for _ in 0..n_trials {
        let mut trial = bench.ask()?;
        let x = bench.integer(&mut trial, "x", 1, 2)?;
        let y = bench.integer(&mut trial, "y", 1, 2)?;
        let v0 = (x as f64 - 1.5).powi(2);
        let v1 = (y as f64 - 1.5).powi(2);
        if x == 1 {
            bench.tell(&trial, TrialStateValues::Complete(row(&[v0, v1])))?;
        } else {
            bench.tell(&trial, TrialStateValues::Fail)?;
        }
    }
    assert!(bench.trials().len() == n_trials);
    Ok(())
}

fn member(values: Option<&[f64]>, feasible: bool, violation: f64) -> Member {
    Member { values: values.map(row), feasible, violation: f(violation) }
}

#[test]
fn feasibility_comes_before_dominance() {
    let good = member(Some(&[1.0, 1.0]), true, 0.0);
    let worse = member(Some(&[2.0, 2.0]), true, 0.0);
    let slight = member(Some(&[0.0, 0.0]), false, 0.5);
    let gross = member(Some(&[0.0, 0.0]), false, 2.0);
    let failed = member(None, true, 0.0);
    for (a, b) in [(&good, &worse), (&worse, &slight), (&slight, &gross), (&gross, &failed), (&good, &failed)] {
        assert!(constrained_dominates(a, b, &both()));
        assert!(!constrained_dominates(b, a, &both()));
    }
    assert!(!constrained_dominates(&good, &good, &both()));
}

#[test]
fn fronts_are_peeled_one_by_one() {
    let members: Vec<Member> =
        [[1.0, 4.0], [2.0, 2.0], [4.0, 1.0], [3.0, 3.0], [5.0, 5.0]].iter().map(|v| member(Some(v), true, 0.0)).collect();
    let fronts = fast_non_dominated_sort(&members, &both());
    let mut sorted = fronts.clone();
    for front in sorted.iter_mut() {
        front.sort();
    }
    assert_eq!(sorted, vec![vec![0, 1, 2], vec![3], vec![4]]);
    let all = select_whole_fronts(&fronts, 4);
    assert_eq!((all.elite.len(), all.boundary.len(), all.take), (4, 1, 0));
    let part = select_whole_fronts(&fronts, 2);
    assert_eq!((part.elite.len(), part.boundary.len(), part.take), (0, 3, 2));
}

#[test]
fn the_ends_of_a_front_are_least_crowded() {
    let values = vec![vec![1.0, 4.0], vec![2.0, 2.0], vec![2.1, 1.9], vec![4.0, 1.0]];
    let d = distances(&values);
    assert!(d[0].is_infinite() && d[3].is_infinite());
    assert!(d[1] > d[2] - 1.0 && d[1].is_finite());
    let order = crowding_distance_sort(&row(&d));
    assert_eq!(&order[..2], &[0, 3]);
    assert!(crowding_axis(&row(&[2.0, 2.0, 2.0])).is_none());
    assert!(crowding_axis(&row(&[f64::INFINITY, f64::INFINITY])).is_none());
    let axis = crowding_axis(&row(&[3.0, f64::INFINITY, 1.0])).unwrap();
    assert_eq!(axis.order, vec![2, 0, 1]);
    assert_eq!((g(axis.lowest), g(axis.highest)), (1.0, 3.0));
    assert_eq!(g(axis.above[0]), 3.0);
    assert_eq!(g(axis.below[0]), f64::NEG_INFINITY);
}

#[test]
fn generations_are_read_from_the_attributes() {
    let trial = |number: u32, generation: &str, complete: bool| {
        let mut trial = PersistedTrial::new(number, 0, number);
        trial.state_values = if complete { TrialStateValues::Complete(row(&[0.0, 0.0])) } else { TrialStateValues::Fail };
        trial.attrs.insert(AttrKey::System("generation".to_string()), generation.to_string());
        Some(trial)
    };
    let trials = vec![trial(0, "0", true), trial(1, "0", false), trial(2, "x", true), None, trial(4, "0", true), trial(5, "1", true)];
    let mut generations = Generations::new();
    generations.rebuild_generation_cache(&trials);
    assert_eq!(generations.population(0, 2, &vec![9]), Some(vec![0, 4, 9]));
    assert_eq!(generations.population(0, 3, &vec![]), None);
    assert_eq!(generations.population(2, 0, &vec![]), None);
    let mut search = ParentSearch::new();
    assert_eq!(search.child_generation(), (false, 0));
    assert_eq!(search.next_population(&generations, 1), Some(vec![0, 4]));
    search.advance(vec![4]);
    assert_eq!(search.next_population(&generations, 1), Some(vec![5, 4]));
    search.advance(vec![5]);
    assert_eq!(search.next_population(&generations, 1), None);
    assert_eq!(search.child_generation(), (true, 2));
}

#[test]
fn children_take_parameters_of_both_parents() {
    let mut space: KeyMap<String, Distribution> = KeyMap::new();
    let mut a: KeyMap<String, Float> = KeyMap::new();
    let mut b: KeyMap<String, Float> = KeyMap::new();
    for (i, name) in ["x", "y", "z"].iter().enumerate() {
        space.insert(name.to_string(), Distribution::new_int(0, 9, 1, false));
        a.insert(name.to_string(), f(i as f64));
        b.insert(name.to_string(), f(i as f64 + 5.0));
    }
    let child = crossover(&a, &b, &space, &vec![false, true, false]);
    let value = |m: &KeyMap<String, Float>, n: &str| m.get(&n.to_string()).map(|v| g(*v));
    assert_eq!((value(&child, "x"), value(&child, "y"), value(&child, "z")), (Some(0.0), Some(6.0), Some(2.0)));
    let kept = mutate(&child, &space, &vec![true, false, false]);
    assert_eq!((value(&kept, "x"), value(&kept, "y"), kept.len()), (None, Some(6.0), 2));
}

#[test]
fn discarded_trials_have_no_children() {
    let trials = vec![None, Some(PersistedTrial::new(1, 0, 1))];
    let space: KeyMap<String, Distribution> = KeyMap::new();
    assert_eq!(parent_params(&trials, 0, &space).err().map(|e| e.kind), Some(ErrorKind::TrialDiscarded));
    assert_eq!(parent_params(&trials, 2, &space).err().map(|e| e.kind), Some(ErrorKind::TrialDiscarded));
    assert!(parent_params(&trials, 1, &space).is_ok());
    assert_eq!(population_members(&trials, &vec![1, 0], &row(&[0.0, 0.0])).err().map(|e| e.kind), Some(ErrorKind::TrialDiscarded));
    let members = population_members(&trials, &vec![1], &row(&[0.25])).unwrap();
    assert!(members[0].values.is_none() && members[0].feasible && members[0].violation == f(0.25));
}

#[test]
fn two_different_parents_are_drawn() {
    let mut sampler = RandomSampler::seed_from_u64(3);
    for _ in 0..50 {
        let (a, b) = sampler.draw_two(3);
        assert!(a < 3 && b < 3 && a != b);
    }
}
