use rustuna::distribution::Distribution;
use rustuna::float::Float;
use rustuna::key_map::KeyMap;
use rustuna::study_cache::StudyCache;
use rustuna::trial::{PersistedTrial, TrialStateValues};

fn f(value: f64) -> Float {
    Float::from_bits(value.to_bits())
}

fn float(low: f64, high: f64) -> Distribution {
    Distribution::Float { low: f(low), high: f(high), step: None, log: false }
}

fn trial(number: u32, state_values: TrialStateValues, params: &[(&str, f64, Distribution)]) -> Option<PersistedTrial> {
    let mut trial = PersistedTrial::new(number, 0, number);
    trial.state_values = state_values;
    for (name, value, distribution) in params {
        trial.internal_params.insert(name.to_string(), f(*value));
        trial.distributions.insert(name.to_string(), *distribution);
    }
    Some(trial)
}

#[test]
fn test_get_joint_search_space_empty() {
    let cache = StudyCache::new();
    let search_space = cache.get_joint_search_space();
    assert!(search_space.len() == 0);
}

#[test]
fn test_get_joint_search_space() {
    let mut cache = StudyCache::new();
    let trials = vec![
        trial(
            0,
            TrialStateValues::Complete(vec![f(0.0)]),
            &[("x", 0.0, float(0.0, 1.0)), ("y", 1.0, float(1.0, 2.0))],
        ),
        trial(1, TrialStateValues::Fail, &[]),
        trial(2, TrialStateValues::Running, &[]),
        trial(
            3,
            TrialStateValues::Complete(vec![f(0.0)]),
            &[("x", 0.5, float(0.0, 1.0)), ("y", 10.0, float(1.0, 10.0))],
        ),
    ];

    cache.update(&trials);
    let search_space = cache.get_joint_search_space();
    assert!(search_space.len() == 1); // Only "x" is common ("y" is dynamic).
    assert!(search_space.contains_key(&"x".to_string()));
}

#[test]
fn test_trial_number_cursor() {
    let mut cache = StudyCache::new();
    let trials = vec![
        trial(0, TrialStateValues::Complete(vec![f(0.0)]), &[]),
        trial(1, TrialStateValues::Pruned, &[]),
        trial(2, TrialStateValues::Fail, &[]),
        trial(3, TrialStateValues::Running, &[]),
        trial(4, TrialStateValues::Complete(vec![f(0.0)]), &[]),
    ];

    assert!(cache.trial_number_cursor == 0);
    cache.update(&trials);
    println!("{:?}", cache.trial_number_cursor);
    assert!(cache.trial_number_cursor == 3);
    cache.update(&trials);
    assert!(cache.trial_number_cursor == 3);
}

#[test]
fn joint_space_is_shared_by_all_complete_trials() {
    let mut cache = StudyCache::new();
    let mut trials = vec![trial(
        0,
        TrialStateValues::Complete(vec![f(0.0)]),
        &[("x", 0.0, float(0.0, 1.0)), ("y", 1.0, float(1.0, 2.0))],
    )];
    cache.update(&trials);
    assert_eq!(cache.get_joint_search_space().len(), 2);
    trials.push(trial(1, TrialStateValues::Pruned, &[]));
    trials.push(None);
    cache.update(&trials);
    assert_eq!(cache.get_joint_search_space().len(), 2);
    trials.push(trial(3, TrialStateValues::Complete(vec![f(1.0)]), &[("y", 1.5, float(1.0, 2.0))]));
    cache.update(&trials);
    let space: KeyMap<String, Distribution> = cache.get_joint_search_space();
    assert_eq!(space.len(), 1);
    assert!(space.contains_key(&"y".to_string()));
    assert!(!space.contains_key(&"x".to_string()));
}

#[test]
fn many_updates_add_up_to_one() {
    let xy: [(&str, f64, Distribution); 2] = [("x", 0.0, float(0.0, 1.0)), ("y", 1.0, float(1.0, 2.0))];
    let x: [(&str, f64, Distribution); 1] = [("x", 0.5, float(0.0, 1.0))];
    let done = || TrialStateValues::Complete(vec![f(0.0)]);
    let states = vec![
        vec![trial(0, TrialStateValues::Running, &xy)],
        vec![trial(0, TrialStateValues::Running, &xy), trial(1, done(), &xy)],
        vec![trial(0, done(), &x), trial(1, done(), &xy), trial(2, TrialStateValues::Running, &[])],
        vec![trial(0, done(), &x), trial(1, done(), &xy), trial(2, TrialStateValues::Fail, &[])],
    ];
    let mut cache = StudyCache::new();
    for (i, state) in states.iter().enumerate() {
        cache.update(state);
        let mut once = StudyCache::new();
        once.update(state);
        assert_eq!(cache.get_joint_search_space().len(), once.get_joint_search_space().len());
        assert_eq!(cache.get_joint_search_space().len(), [0, 2, 1, 1][i]);
    }
}
