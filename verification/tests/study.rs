use rand::Rng;

use rustuna::attr::{AttrKey, Attrs, CategoryLabel, Decimals};
use rustuna::distribution::Distribution;
use rustuna::error::{Error, ErrorKind, Result};
use rustuna::float::Float;
use rustuna::key_map::{KeyMap, Same};
use rustuna::sampler::RandomSampler;
use rustuna::storage::InMemoryStorage;
use rustuna::study::{create_study, dominates, get_best_trial, get_pareto_front, validate_trials, Context, Direction, Study, Verdict};
use rustuna::trial::{choice_index, JointParam, PersistedTrial, Source, Trial, TrialStateValues};
use rustuna::trial_queue::InMemoryTrialQueue;

fn f(value: f64) -> Float {
    Float::from_bits(value.to_bits())
}

fn g(value: Float) -> f64 {
    f64::from_bits(value.to_bits())
}

fn row(values: &[f64]) -> Vec<Float> {
    values.iter().map(|v| f(*v)).collect()
}

fn float(low: f64, high: f64) -> Distribution {
    Distribution::Float { low: f(low), high: f(high), step: None, log: false }
}

fn stepped(low: f64, high: f64, step: f64) -> Distribution {
    Distribution::Float { low: f(low), high: f(high), step: Some(f(step)), log: false }
}

fn name(text: &str) -> String {
    text.to_string()
}

/// A study with its storage, queue and sampler.
struct Bench {
    storage: InMemoryStorage,
    queue: InMemoryTrialQueue,
    sampler: RandomSampler,
    study: Study,
    joint: Option<Vec<(String, f64)>>,
    clock: u32,
}

impl Bench {
    fn new(directions: Vec<Direction>) -> Bench {
        let mut storage = InMemoryStorage::new();
        let study = create_study("dummy", &mut storage, directions).unwrap();
        Bench { storage, queue: InMemoryTrialQueue::new(), sampler: RandomSampler::new(), study, joint: None, clock: 0 }
    }

    fn now(&mut self) -> String {
        self.clock += 1;
        format!("2026-04-02 03:04:{:02}.000", self.clock)
    }

    fn decimals(&self) -> Decimals {
        KeyMap::new()
    }

    fn ask(&mut self) -> Result<Trial> {
        let now = self.now();
        let decimals = self.decimals();
        let begun = self.study.ask(&mut self.storage, &mut self.queue, now, &decimals)?;
        let pending = self.study.infer_search_space(&mut self.storage, begun, self.joint.is_some(), Ok(()))?;
        let mut sampled: KeyMap<String, Float> = KeyMap::new();
        for (name, value) in self.joint.iter().flatten() {
            sampled.insert(name.clone(), f(*value));
        }
        Ok(pending.into_trial(&self.study, &sampled))
    }

    fn tell(&mut self, number: u32, state_values: TrialStateValues) -> Result<()> {
        self.tell_after(number, state_values, Ok(()))
    }

    fn tell_after(&mut self, number: u32, state_values: TrialStateValues, reply: Result<()>) -> Result<()> {
        let context = self.study.begin_tell(&self.storage, number)?;
        let now = self.now();
        self.study.finish_tell(&mut self.storage, &context, state_values, now, reply)
    }

    fn suggest(&mut self, trial: &mut Trial, name: &str, distribution: &Distribution) -> Result<f64> {
        self.suggest_to(trial, name, distribution, 0.0)
    }

    /// Suggests a value of a range whose upper bound is on a whole step at `high`.
    fn suggest_to(&mut self, trial: &mut Trial, name: &str, distribution: &Distribution, high: f64) -> Result<f64> {
        let decimals = self.decimals();
        if let Some(value) = trial.suggest(&mut self.storage, name, distribution, f(high), &decimals)? {
            return Ok(g(value));
        }
        let adjusted = distribution.adjusted_to(f(high));
        let value = if self.joint.is_some() {
            f(0.0)
        } else {
            match self.sampler.sample_independent(&adjusted) {
                Some(value) => value,
                None => match adjusted {
                    Distribution::Float { low, high, step: None, .. } => f(self.sampler.rng.gen_range(g(low)..g(high))),
                    Distribution::Float { low, high, step: Some(step), .. } => {
                        let max = ((g(high) - g(low)) / g(step)).floor() as i64;
                        f(g(low) + self.sampler.draw_index(max) as f64 * g(step))
                    }
                    _ => panic!("only float ranges are drawn outside"),
                },
            }
        };
        Ok(g(trial.suggest_sampled(&mut self.storage, name, distribution, f(high), value)?))
    }

    fn suggest_float(&mut self, trial: &mut Trial, name: &str, low: f64, high: f64) -> Result<f64> {
        self.suggest(trial, name, &float(low, high))
    }

    fn suggest_int(&mut self, trial: &mut Trial, name: &str, low: i64, high: i64) -> Result<i64> {
        Ok(self.suggest(trial, name, &Distribution::new_int(low, high, 1, false))? as i64)
    }

    fn suggest_categorical(&mut self, trial: &mut Trial, name: &str, choices: &[&str]) -> Result<String> {
        let labels: Vec<CategoryLabel> = choices.iter().map(|c| CategoryLabel::String(c.to_string())).collect();
        trial.announce_choices(&mut self.storage, name, &labels)?;
        let value = self.suggest(trial, name, &Distribution::new_categorical(choices.len()))?;
        let index = choice_index(f(value), choices.len())?;
        Ok(choices[index].to_string())
    }

    fn optimize(&mut self, objective: impl Fn(&mut Bench, &mut Trial) -> Result<Vec<f64>>, n_trials: usize) -> Result<()> {
        for _ in 0..n_trials {
            let mut trial = self.ask()?;
            let number = trial.number;
            let reply = objective(self, &mut trial).map(|values| row(&values));
            match self.study.judge(reply) {
                Verdict::Tell(state_values) => self.tell(number, state_values)?,
                Verdict::Fail(error) => {
                    self.tell(number, TrialStateValues::Fail)?;
                    return Err(error);
                }
                Verdict::Stop(error) => return Err(error),
            }
        }
        Ok(())
    }

    fn trials(&self) -> Vec<PersistedTrial> {
        self.study.get_trials(&self.storage).unwrap()
    }
}

fn minimize() -> Bench {
    Bench::new(vec![Direction::Minimize])
}

fn quadratic(bench: &mut Bench, t: &mut Trial) -> Result<Vec<f64>> {
    let x = bench.suggest_float(t, "x", 0.0, 10.0)?;
    let y = bench.suggest_float(t, "y", 0.0, 10.0)?;
    let z = bench.suggest_int(t, "z", 0, 10)?;
    Ok(vec![(x - 3.0).powi(2) + (y - 5.0).powi(2) + (z as f64)])
}

#[test]
fn study_test_optimize() -> Result<()> {
    let mut bench = minimize();
    bench.optimize(quadratic, 100)?;
    assert!(get_best_trial(&bench.study, &bench.storage).is_ok());
    Ok(())
}

#[test]
fn test_user_attr() -> Result<()> {
    let mut bench = minimize();
    let mut trial = bench.ask()?;
    trial.set_user_attr(&mut bench.storage, "key", name("bar"))?;
    let user_attr = trial.get_user_attr("key").ok_or_else(|| Error::new(ErrorKind::StorageError))?;
    assert_eq!(user_attr, "bar");
    Ok(())
}

#[test]
fn test_get_best_trial() -> Result<()> {
    let mut bench = minimize();
    bench.optimize(quadratic, 100)?;

    let best_trial_number = get_best_trial(&bench.study, &bench.storage)?;
    assert!(best_trial_number < 100);
    let values: Vec<f64> = bench.trials().iter().map(value_of).collect();
    assert!(values.iter().all(|v| values[best_trial_number as usize] <= *v));
    Ok(())
}

fn value_of(trial: &PersistedTrial) -> f64 {
    match &trial.state_values {
        TrialStateValues::Complete(values) => g(values[0]),
        _ => f64::NAN,
    }
}

#[test]
fn the_best_trial_goes_by_the_direction() -> Result<()> {
    for (direction, best) in [(Direction::Minimize, 1), (Direction::Maximize, 2)] {
        let mut bench = Bench::new(vec![direction]);
        for value in [2.0, 1.0, 3.0] {
            let number = bench.ask()?.number;
            bench.tell(number, TrialStateValues::Complete(row(&[value])))?;
        }
        assert_eq!(get_best_trial(&bench.study, &bench.storage)?, best);
    }
    assert!(get_best_trial(&minimize().study, &InMemoryStorage::new()).is_err());
    Ok(())
}

#[test]
fn test_get_pareto_front_trials() -> Result<()> {
    let mut bench = Bench::new(vec![Direction::Minimize, Direction::Maximize]);
    bench.optimize(
        |bench, t| {
            let x = bench.suggest_float(t, "x", 0.0, 10.0)?;
            let y = bench.suggest_float(t, "y", 0.0, 10.0)?;
            let z = bench.suggest_int(t, "z", 0, 10)?;

            let value0 = (x - 3.0).powi(2) + (y - 5.0).powi(2) + (z as f64);
            let value1 = (x - 3.0).powi(2) + (y - 5.0).powi(2) + (z as f64) * 2.0;
            Ok(vec![value0, value1])
        },
        100,
    )?;

    let pareto_front_numbers = get_pareto_front(&bench.study, &bench.storage)?;
    assert!(!pareto_front_numbers.is_empty());
    assert!(pareto_front_numbers.len() <= 100);
    Ok(())
}

#[test]
fn the_pareto_front_leaves_dominated_trials_out() -> Result<()> {
    let mut bench = Bench::new(vec![Direction::Minimize, Direction::Maximize]);
    for values in [[1.0, 1.0], [2.0, 2.0], [2.0, 1.0], [1.0, 1.0]] {
        let number = bench.ask()?.number;
        bench.tell(number, TrialStateValues::Complete(row(&values)))?;
    }
    bench.ask()?;
    assert_eq!(get_pareto_front(&bench.study, &bench.storage)?, vec![0, 1, 3]);
    Ok(())
}

#[test]
fn test_dominates() {
    let directions = vec![Direction::Minimize, Direction::Maximize];
    assert!(dominates(&row(&[1.0, 2.0]), &row(&[2.0, 1.0]), &directions));
    assert!(!dominates(&row(&[2.0, 1.0]), &row(&[1.0, 2.0]), &directions));
    assert!(!dominates(&row(&[1.0, 2.0]), &row(&[1.0, 2.0]), &directions));
    assert!(!dominates(&row(&[2.0, 1.0]), &row(&[2.0, 1.0]), &directions));
}

#[test]
fn test_dynamic_search_space() -> Result<()> {
    let mut bench = minimize();
    bench.optimize(
        |bench, t| {
            bench.suggest_float(t, "x", 0.0, 10.0)?;
            Ok(vec![0.0])
        },
        5,
    )?;
    bench.optimize(
        |bench, t| {
            bench.suggest_float(t, "x", 1.0, 10.0)?;
            Ok(vec![0.0])
        },
        5,
    )?;
    Ok(())
}

#[test]
fn test_optimize_adjusts_discrete_distribution_high() -> Result<()> {
    let mut bench = minimize();
    bench.sampler = RandomSampler::seed_from_u64(42);
    bench.optimize(
        |bench, trial| {
            // Bypass the constructors to verify that `Trial::suggest` adjusts distributions.
            bench.suggest_to(trial, "float", &stepped(-5.0, 10.0, 2.0), 9.0)?;
            bench.suggest(trial, "int", &Distribution::Int { low: -5, high: 10, step: 2, log: false })?;
            Ok(vec![0.0])
        },
        1,
    )?;

    let trials = bench.trials();
    assert!(trials[0].distributions.get(&name("float")).unwrap().same(&stepped(-5.0, 9.0, 2.0)));
    assert!(trials[0].distributions.get(&name("int")).unwrap().same(&Distribution::new_int(-5, 9, 2, false)));
    Ok(())
}

#[test]
fn test_invalid_dynamic_search_space() -> Result<()> {
    let mut bench = minimize();
    bench.optimize(
        |bench, t| {
            bench.suggest_float(t, "x", 0.0, 10.0)?;
            Ok(vec![0.0])
        },
        5,
    )?;
    let error = bench
        .optimize(
            |bench, t| {
                bench.suggest_int(t, "x", 0, 10)?;
                Ok(vec![0.0])
            },
            5,
        )
        .unwrap_err();
    assert!(matches!(error.kind, ErrorKind::IncompatibleDistribution));
    Ok(())
}

#[test]
fn test_add_trial_preserves_template_fields() -> Result<()> {
    let mut bench = minimize();
    let mut trial = PersistedTrial::new(999, 888, 777);
    trial.state_values = TrialStateValues::Complete(row(&[1.23]));
    trial.datetime_start = Some(name("2026-04-02 03:04:05.678"));
    trial.datetime_complete = Some(name("2026-04-02 03:14:15.678"));
    trial.internal_params.insert(name("x"), f(0.5));
    trial.distributions.insert(name("x"), float(0.0, 1.0));
    trial.attrs.insert(AttrKey::User(name("memo")), name("\"imported\""));

    bench.study.add_trial(&mut bench.storage, &trial, &KeyMap::new())?;
    let trials = bench.trials();
    assert_eq!(trials.len(), 1);
    assert_eq!(trials[0].number, 0);
    assert_eq!(trials[0].study_id, bench.study.id);
    assert_eq!(trials[0].datetime_start.as_deref(), Some("2026-04-02 03:04:05.678"));
    assert_eq!(trials[0].datetime_complete.as_deref(), Some("2026-04-02 03:14:15.678"));
    assert_eq!(trials[0].internal_params.get(&name("x")), Some(&f(0.5)));
    assert_eq!(trials[0].attrs.get(&AttrKey::User(name("memo"))), Some(&name("\"imported\"")));
    Ok(())
}

#[test]
fn test_add_trial_adjusts_distribution_high() -> Result<()> {
    let mut bench = minimize();
    let mut trial = PersistedTrial::new(999, 888, 777);
    trial.state_values = TrialStateValues::Complete(row(&[1.0]));
    trial.internal_params.insert(name("x"), f(9.0));
    // Bypass the constructor to verify that `Study::add_trial` adjusts distributions.
    trial.distributions.insert(name("x"), stepped(-5.0, 10.0, 2.0));
    trial.internal_params.insert(name("n"), f(9.0));
    trial.distributions.insert(name("n"), Distribution::Int { low: -5, high: 10, step: 2, log: false });
    let mut float_highs: KeyMap<String, Float> = KeyMap::new();
    float_highs.insert(name("x"), f(9.0));

    bench.study.add_trial(&mut bench.storage, &trial, &float_highs)?;

    let trials = bench.trials();
    assert!(trials[0].distributions.get(&name("x")).unwrap().same(&stepped(-5.0, 9.0, 2.0)));
    assert!(trials[0].distributions.get(&name("n")).unwrap().same(&Distribution::new_int(-5, 9, 2, false)));
    Ok(())
}

#[test]
fn parameters_above_the_moved_bound_are_not_taken() -> Result<()> {
    let mut bench = minimize();
    let range = stepped(-5.0, 10.0, 2.0);

    // A fixed value fits the moved range, or is left to the sampler.
    for (fixed, expected) in [(9.0, Some(f(9.0))), (10.0, None)] {
        let mut trial = bench.ask()?;
        trial.fixed_params.insert(name("x"), CategoryLabel::Float(f(fixed)));
        assert_eq!(trial.suggest(&mut bench.storage, "x", &range, f(9.0), &KeyMap::new())?, expected);
    }

    // A joint value counts where it was sampled for the moved range.
    for (sampled_for, expected) in [(9.0, Some(f(1.0))), (10.0, None)] {
        let mut trial = bench.ask()?;
        trial.joint_params.insert(name("x"), JointParam { distribution: stepped(-5.0, sampled_for, 2.0), value: f(1.0) });
        assert_eq!(trial.suggest(&mut bench.storage, "x", &range, f(9.0), &KeyMap::new())?, expected);
    }

    // An added trial is checked against the moved range.
    let mut trial = PersistedTrial::new(0, 0, 0);
    trial.state_values = TrialStateValues::Complete(row(&[1.0]));
    trial.internal_params.insert(name("x"), f(10.0));
    trial.distributions.insert(name("x"), range);
    let mut float_highs: KeyMap<String, Float> = KeyMap::new();
    float_highs.insert(name("x"), f(9.0));
    let error = bench.study.add_trial(&mut bench.storage, &trial, &float_highs).unwrap_err();
    assert_eq!(error.kind, ErrorKind::StorageError);

    // A range of less than one step has a single value once its bound is moved.
    let narrow = stepped(0.0, 1.5, 2.0);
    assert!(!narrow.is_single());
    assert!(narrow.adjusted_to(f(0.0)).is_single());
    Ok(())
}

#[test]
fn trials_that_do_not_fit_are_not_added() {
    let mut bench = minimize();
    let mut trial = PersistedTrial::new(0, 0, 0);
    trial.state_values = TrialStateValues::Complete(row(&[1.0, 2.0]));
    let add = |bench: &mut Bench, trial: &PersistedTrial| bench.study.add_trial(&mut bench.storage, trial, &KeyMap::new()).err().map(|e| e.kind);
    assert_eq!(add(&mut bench, &trial), Some(ErrorKind::InvalidObjectiveValues));
    trial.state_values = TrialStateValues::Complete(row(&[f64::NAN]));
    assert_eq!(add(&mut bench, &trial), Some(ErrorKind::StorageError));
    trial.state_values = TrialStateValues::Complete(row(&[1.0]));
    trial.internal_params.insert(name("x"), f(2.0));
    assert_eq!(add(&mut bench, &trial), Some(ErrorKind::StorageError));
    trial.distributions.insert(name("x"), float(0.0, 1.0));
    assert_eq!(add(&mut bench, &trial), Some(ErrorKind::StorageError));
    trial.distributions.insert(name("x"), float(0.0, 2.0));
    assert_eq!(add(&mut bench, &trial), None);
}

#[test]
fn test_tell_calls_after_trial_before_storage_update() -> Result<()> {
    let mut bench = minimize();
    let trial = bench.ask()?;

    // What the sampler is told of, while the storage still holds the running trial.
    let context: Context = bench.study.begin_tell(&bench.storage, trial.number)?;
    assert!(matches!(bench.storage.get_trial(context.trial_id)?.state_values, TrialStateValues::Running));
    assert_eq!(context.study_id, bench.study.id);
    assert_eq!(context.trial_id, trial.id);
    assert_eq!(context.trial_number, trial.number);
    assert_eq!(context.directions, vec![Direction::Minimize]);
    let now = bench.now();
    bench.study.finish_tell(&mut bench.storage, &context, TrialStateValues::Complete(row(&[1.5])), now, Ok(()))?;

    let persisted_trial = bench.storage.get_trial(trial.id)?;
    assert!(persisted_trial.state_values.equals(&TrialStateValues::Complete(row(&[1.5]))));
    Ok(())
}

#[test]
fn test_tell_persists_trial_even_if_after_trial_fails() -> Result<()> {
    let mut bench = minimize();
    let trial = bench.ask()?;
    let err = bench
        .tell_after(trial.number, TrialStateValues::Complete(row(&[2.5])), Err(Error::new(ErrorKind::SamplerError)))
        .expect_err("tell must propagate after_trial error");
    assert!(matches!(err.kind, ErrorKind::SamplerError));

    let persisted_trial = bench.storage.get_trial(trial.id)?;
    assert!(persisted_trial.state_values.equals(&TrialStateValues::Complete(row(&[2.5]))));
    Ok(())
}

fn enqueue(bench: &mut Bench, params: &[(&str, CategoryLabel)]) -> Result<()> {
    let mut fixed: KeyMap<String, CategoryLabel> = KeyMap::new();
    for (key, label) in params {
        let copy = match label {
            CategoryLabel::Float(v) => CategoryLabel::Float(*v),
            CategoryLabel::Int(v) => CategoryLabel::Int(*v),
            CategoryLabel::String(v) => CategoryLabel::String(v.clone()),
            CategoryLabel::Bool(v) => CategoryLabel::Bool(*v),
            CategoryLabel::Null => CategoryLabel::Null,
        };
        fixed.insert(name(key), copy);
    }
    let attrs: Attrs = KeyMap::new();
    bench.study.enqueue_trial(&mut bench.storage, &mut bench.queue, &fixed, &attrs)
}

#[test]
fn test_enqueue_and_suggest_float() -> Result<()> {
    let mut bench = minimize();
    enqueue(&mut bench, &[("x", CategoryLabel::Float(f(5.0)))])?;

    let mut trial = bench.ask()?;
    let value = bench.suggest_float(&mut trial, "x", 0.0, 10.0)?;
    assert_eq!(value, 5.0);
    Ok(())
}

#[test]
fn test_enqueue_and_suggest_int() -> Result<()> {
    let mut bench = minimize();
    enqueue(&mut bench, &[("x", CategoryLabel::Int(7))])?;

    let mut trial = bench.ask()?;
    let value = bench.suggest_int(&mut trial, "x", 0, 10)?;
    assert_eq!(value, 7);
    Ok(())
}

#[test]
fn test_enqueue_fallback_on_out_of_range() -> Result<()> {
    let mut bench = minimize();
    enqueue(&mut bench, &[("x", CategoryLabel::Float(f(100.0)))])?;

    let mut trial = bench.ask()?;
    let value = bench.suggest_float(&mut trial, "x", 0.0, 10.0)?;
    assert!((0.0..=10.0).contains(&value));
    Ok(())
}

#[test]
fn test_enqueue_mixed_with_normal_ask() -> Result<()> {
    let mut bench = minimize();
    enqueue(&mut bench, &[("x", CategoryLabel::Float(f(5.0)))])?;

    // First ask should use enqueued trial
    let mut trial1 = bench.ask()?;
    assert_eq!(bench.suggest_float(&mut trial1, "x", 0.0, 10.0)?, 5.0);

    // Second ask should create a new trial (sampled)
    let mut trial2 = bench.ask()?;
    let value = bench.suggest_float(&mut trial2, "x", 0.0, 10.0)?;
    assert!((0.0..=10.0).contains(&value));
    Ok(())
}

#[test]
fn test_enqueue_unspecified_param_sampled() -> Result<()> {
    let mut bench = minimize();
    enqueue(&mut bench, &[("x", CategoryLabel::Float(f(5.0)))])?;

    let mut trial = bench.ask()?;
    assert_eq!(bench.suggest_float(&mut trial, "x", 0.0, 10.0)?, 5.0);
    // "y" is not in fixed_params, so it should be sampled
    let y = bench.suggest_float(&mut trial, "y", 0.0, 10.0)?;
    assert!((0.0..=10.0).contains(&y));
    Ok(())
}

#[test]
fn enqueued_labels_are_found_among_the_choices() -> Result<()> {
    let mut bench = minimize();
    enqueue(&mut bench, &[("c", CategoryLabel::String(name("bar"))), ("n", CategoryLabel::Float(f(3.9)))])?;
    enqueue(&mut bench, &[("c", CategoryLabel::String(name("other")))])?;
    let mut trial = bench.ask()?;
    assert_eq!(bench.suggest_categorical(&mut trial, "c", &["foo", "bar"])?, "bar");
    assert_eq!(bench.suggest_int(&mut trial, "n", 0, 10)?, 3);
    let mut trial = bench.ask()?;
    let choice = bench.suggest_categorical(&mut trial, "c", &["foo", "bar"])?;
    assert!(choice == "foo" || choice == "bar");
    assert!(choice_index(f(2.0), 2).is_err());
    Ok(())
}

#[test]
fn queued_trials_come_in_order() -> Result<()> {
    let mut bench = minimize();
    enqueue(&mut bench, &[("x", CategoryLabel::Int(1))])?;
    enqueue(&mut bench, &[("x", CategoryLabel::Int(2))])?;
    assert!(matches!(bench.storage.get_trial(0)?.state_values, TrialStateValues::Waiting));
    for expected in [1, 2] {
        let mut trial = bench.ask()?;
        assert!(matches!(bench.storage.get_trial(trial.id)?.state_values, TrialStateValues::Running));
        assert_eq!(bench.suggest_int(&mut trial, "x", 0, 10)?, expected);
    }
    assert_eq!(bench.ask()?.number, 2);
    Ok(())
}

#[test]
fn a_queued_trial_that_cannot_begin_goes_back() -> Result<()> {
    let mut bench = minimize();
    let id = bench.ask()?.id;
    bench.tell(0, TrialStateValues::Pruned)?;
    bench.queue.enqueue(id);
    assert_eq!(bench.ask().err().map(|e| e.kind), Some(ErrorKind::TrialAlreadyFinished));
    assert_eq!(bench.queue.dequeue()?, id);
    assert_eq!(bench.queue.dequeue().err().map(|e| e.kind), Some(ErrorKind::TrialQueueEmpty));
    Ok(())
}

#[test]
fn test_trial_user_attr() -> Result<()> {
    let mut bench = minimize();

    // Set user attributes
    let mut trial = bench.ask()?;
    trial.set_user_attr(&mut bench.storage, "key", name("user"))?;

    // Set system attributes
    let mut attrs: Attrs = KeyMap::new();
    attrs.insert(AttrKey::System(name("key")), name("system"));
    bench.storage.set_trial_attrs(trial.id, &attrs, false)?;

    // Check the attributes
    let user_attrs = trial.get_user_attrs();
    assert_eq!(user_attrs.len(), 1);
    assert_eq!(user_attrs.get(&name("key")), Some(&name("user")));
    let trial = bench.storage.get_trial(trial.id)?;
    assert_eq!(trial.attrs.get(&AttrKey::User(name("key"))), Some(&name("user")));
    assert_eq!(trial.attrs.get(&AttrKey::System(name("key"))), Some(&name("system")));
    Ok(())
}

#[test]
fn test_set_constraints() -> Result<()> {
    let mut bench = minimize();
    let mut trial = bench.ask()?;
    let _ = bench.suggest_float(&mut trial, "x", -10.0, 10.0)?;
    let mut constraints: KeyMap<String, Float> = KeyMap::new();
    constraints.insert(name("c0"), f(10.0));
    trial.set_constraints(&mut bench.storage, constraints)?;

    let _ = bench.tell(trial.number, TrialStateValues::Complete(row(&[0.0])));
    let trials = bench.trials();

    assert_eq!(trials[0].constraints().len(), 1);
    assert_eq!(trials[0].constraints().get(&name("c0")), Some(&f(10.0)));
    for i in 0..trials[0].attrs.len() {
        if let AttrKey::System(key) = trials[0].attrs.entry(i).0 {
            assert!(!key.starts_with("constraints"));
        }
    }
    Ok(())
}

fn joint_objective(bench: &mut Bench, t: &mut Trial) -> Result<Vec<f64>> {
    let x = bench.suggest_float(t, "x", -10.0, 10.0)?;
    let y = bench.suggest_float(t, "y", -10.0, 10.0)?;
    Ok(vec![x * x + y * y])
}

#[test]
fn test_joint_sampling_empty() -> Result<()> {
    let mut bench = minimize();
    bench.joint = Some(Vec::new());
    bench.optimize(joint_objective, 2)?;
    Ok(())
}

#[test]
fn test_joint_sampling_partially() -> Result<()> {
    let mut bench = minimize();
    bench.joint = Some(vec![(name("x"), 0.5)]);
    bench.optimize(joint_objective, 2)?;

    let trials = bench.trials();
    assert_eq!(trials.len(), 2);
    assert_eq!(trials[1].internal_params.get(&name("x")), Some(&f(0.5)));
    assert!(trials[1].internal_params.contains_key(&name("y")));
    Ok(())
}

#[test]
fn test_joint_sampling_all() -> Result<()> {
    let mut bench = minimize();
    bench.joint = Some(vec![(name("x"), 1.0), (name("y"), 1.0)]);
    bench.optimize(joint_objective, 2)?;

    let trials = bench.trials();
    assert_eq!(trials.len(), 2);
    assert_eq!(trials[1].internal_params.get(&name("x")), Some(&f(1.0)));
    assert_eq!(trials[1].internal_params.get(&name("y")), Some(&f(1.0)));
    Ok(())
}

#[test]
fn joint_values_are_used_for_the_same_distribution_only() -> Result<()> {
    let mut bench = minimize();
    bench.joint = Some(vec![(name("x"), 0.5)]);
    bench.optimize(joint_objective, 1)?;
    let trial = bench.ask()?;
    let decimals = bench.decimals();
    let same = trial.decide(&bench.storage, "x", &float(-10.0, 10.0), &decimals)?;
    assert!(matches!(same, Source::Joint(v) if v == f(0.5)));
    let other = trial.decide(&bench.storage, "x", &float(-10.0, 9.0), &decimals)?;
    assert!(matches!(other, Source::Sampler));
    Ok(())
}

#[test]
fn replies_are_judged_by_their_number() -> Result<()> {
    let bench = minimize();
    assert!(matches!(bench.study.judge(Ok(row(&[1.0]))), Verdict::Tell(TrialStateValues::Complete(_))));
    assert!(matches!(bench.study.judge(Ok(row(&[1.0, 2.0]))), Verdict::Stop(e) if e.kind == ErrorKind::InvalidObjectiveValues));
    let error = Error::new(ErrorKind::SamplerError);
    assert!(matches!(bench.study.judge(Err(error.clone())), Verdict::Fail(e) if e == error));
    Ok(())
}

#[test]
fn studies_are_loaded_by_id_and_by_name() -> Result<()> {
    let mut bench = Bench::new(vec![Direction::Maximize]);
    let other = Study::from_id(bench.study.id, &bench.storage)?;
    assert_eq!(other.name, "dummy");
    assert_eq!(Study::from_name(name("dummy"), &bench.storage)?.directions, vec![Direction::Maximize]);
    assert_eq!(Study::from_name(name("none"), &bench.storage).err().map(|e| e.kind), Some(ErrorKind::StudyNotFound));
    assert_eq!(Study::from_id(7, &bench.storage).err().map(|e| e.kind), Some(ErrorKind::StudyNotFound));
    let mut attrs: KeyMap<String, String> = KeyMap::new();
    attrs.insert(name("k"), name("v"));
    bench.study.set_user_attr(&mut bench.storage, &attrs)?;
    assert_eq!(bench.study.get_user_attr(&bench.storage, name("k"))?, Some(name("v")));
    assert_eq!(bench.study.get_user_attr(&bench.storage, name("l"))?, None);
    assert_eq!(bench.tell(5, TrialStateValues::Fail).err().map(|e| e.kind), Some(ErrorKind::TrialNotFound));
    Ok(())
}

#[test]
fn objective_values_must_be_comparable() {
    let one = |values: &[f64]| {
        let mut trial = PersistedTrial::new(0, 0, 0);
        trial.state_values = TrialStateValues::Complete(row(values));
        vec![Some(trial)]
    };
    let directions = vec![Direction::Minimize];
    assert!(validate_trials(&one(&[1.0]), &directions).is_ok());
    assert_eq!(validate_trials(&one(&[1.0, 2.0]), &directions).err().map(|e| e.kind), Some(ErrorKind::InvalidObjectiveValues));
}

#[test]
fn the_sampler_is_told_of_a_trial_before_its_space_is_inferred() -> Result<()> {
    let mut bench = minimize();
    bench.joint = Some(vec![]);
    bench.optimize(joint_objective, 1)?;
    let now = bench.now();
    let decimals = bench.decimals();
    let begun = bench.study.ask(&mut bench.storage, &mut bench.queue, now, &decimals)?;
    let context = begun.context(&bench.study);
    assert_eq!((context.study_id, context.trial_id, context.trial_number), (bench.study.id, begun.id, 1));
    assert_eq!(context.directions, vec![Direction::Minimize]);
    assert!(matches!(bench.storage.get_trial(begun.id)?.state_values, TrialStateValues::Running));
    let id = begun.id;
    let pending = bench.study.infer_search_space(&mut bench.storage, begun, true, Ok(()))?;
    assert_eq!((pending.id, pending.number), (id, 1));
    assert!(pending.search_space.is_some_and(|space| space.contains_key(&name("x"))));

    let now = bench.now();
    let begun = bench.study.ask(&mut bench.storage, &mut bench.queue, now, &decimals)?;
    let id = begun.id;
    let reply = Err(Error::with_reason(ErrorKind::SamplerError, name("not now")));
    let error = bench.study.infer_search_space(&mut bench.storage, begun, true, reply).err();
    assert_eq!(error, Some(Error::with_reason(ErrorKind::SamplerError, name("not now"))));
    assert!(matches!(bench.storage.get_trial(id)?.state_values, TrialStateValues::Running));
    Ok(())
}

#[test]
fn refused_trials_come_with_a_reason() {
    let mut bench = minimize();
    let reason = |bench: &mut Bench, trial: &PersistedTrial| bench.study.add_trial(&mut bench.storage, trial, &KeyMap::new()).err().map(|e| e.reason);
    let mut trial = PersistedTrial::new(0, 0, 0);
    trial.state_values = TrialStateValues::Complete(row(&[1.0, 2.0]));
    let text = "The added trial has 2 values, which is different from the number of objectives 1 in the study.";
    assert_eq!(reason(&mut bench, &trial), Some(name(text)));
    trial.state_values = TrialStateValues::Complete(row(&[f64::NAN]));
    assert_eq!(reason(&mut bench, &trial), Some(name("values should not contain NaN.")));
    trial.state_values = TrialStateValues::Complete(row(&[1.0]));
    trial.internal_params.insert(name("x"), f(5.0));
    assert_eq!(reason(&mut bench, &trial), Some(name("The number of parameters 1 and distributions 0 don't match.")));
    trial.distributions.insert(name("y"), float(0.0, 1.0));
    assert_eq!(reason(&mut bench, &trial), Some(name("Parameter 'x' is not found in distributions.")));
    let mut trial = PersistedTrial::new(0, 0, 0);
    trial.internal_params.insert(name("x"), f(5.0));
    trial.distributions.insert(name("x"), float(0.0, 1.0));
    assert_eq!(reason(&mut bench, &trial), Some(name("The value of parameter 'x' isn't contained in the distribution.")));
    assert_eq!(Study::from_id(7, &bench.storage).err().map(|e| e.reason), Some(name("")));
}
