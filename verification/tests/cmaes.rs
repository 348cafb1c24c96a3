use rustuna::cmaes::{without_categorical, CmaEsPlan, CmaEsSamplerState};
use rustuna::distribution::Distribution;
use rustuna::error::ErrorKind;
use rustuna::float::Float;
use rustuna::key_map::{Duplicate, KeyMap};
use rustuna::storage::InMemoryStorage;
use rustuna::study::Direction;
use rustuna::trial::TrialStateValues;

fn f(value: f64) -> Float {
    Float::from_bits(value.to_bits())
}

fn space(names: &[&str]) -> KeyMap<String, Distribution> {
    let mut space: KeyMap<String, Distribution> = KeyMap::new();
    for name in names {
        space.insert(name.to_string(), Distribution::Float { low: f(0.0), high: f(1.0), step: None, log: false });
    }
    space
}

fn with_category(mut space: KeyMap<String, Distribution>) -> KeyMap<String, Distribution> {
    space.insert("c".to_string(), Distribution::new_categorical(3));
    space
}

#[test]
fn categorical_parameters_are_left_out() {
    let numerical = without_categorical(&with_category(space(&["x", "y"])));
    assert_eq!(numerical.len(), 2);
    assert!(!numerical.contains_key(&"c".to_string()));
    let state = CmaEsSamplerState::new();
    assert!(matches!(state.plan(&with_category(space(&[])), 1), Ok(CmaEsPlan::Independent)));
    assert!(matches!(state.plan(&with_category(space(&[])), 2), Ok(CmaEsPlan::Independent)));
}

#[test]
fn one_search_space_and_one_objective_are_supported() {
    let mut state = CmaEsSamplerState::new();
    assert_eq!(state.plan(&space(&["x"]), 2).err().map(|e| e.kind), Some(ErrorKind::UnsupportedMultiObjective));
    match state.plan(&with_category(space(&["x"])), 1).unwrap() {
        CmaEsPlan::Initialize(numerical) => state.initialized(numerical, 2).unwrap(),
        _ => panic!("there is no optimizer yet"),
    }
    assert!(matches!(state.plan(&space(&["x"]), 1), Ok(CmaEsPlan::Ask)));
    assert!(matches!(state.plan(&space(&["x", "y"]), 1), Ok(CmaEsPlan::Independent)));
    let refused = state.initialized(KeyMap::new(), 2);
    assert_eq!(refused.err().map(|e| e.kind), Some(ErrorKind::UnsupportedSearchSpace));
    assert!(matches!(state.plan(&space(&["x"]), 1), Ok(CmaEsPlan::Ask)));
}

#[test]
fn solutions_of_complete_trials_are_collected() {
    let mut storage = InMemoryStorage::new();
    let study_id = storage.create_new_study("s", vec![Direction::Maximize]).unwrap().id;
    let mut state = CmaEsSamplerState::new();
    let refused = state.collect_solutions(&storage, Direction::Maximize);
    assert_eq!(refused.err().map(|e| e.kind), Some(ErrorKind::Unexpected));
    let wanted = space(&["y", "x"]);
    state.initialized(wanted.duplicate(), 2).unwrap();
    for n in 0..5 {
        let id = storage.create_new_trial(study_id, "now".to_string()).unwrap().id;
        let d = Distribution::Float { low: f(0.0), high: f(1.0), step: None, log: false };
        storage.set_trial_param(id, "x", &d, f(0.1 * n as f64)).unwrap();
        if n != 1 {
            storage.set_trial_param(id, "y", &d, f(0.5)).unwrap();
        }
        if n != 0 {
            storage.set_trial_state_values(id, TrialStateValues::Complete(vec![f(n as f64)]), "now".to_string()).unwrap();
        }
        state.asked(id);
    }
    // The first trial still runs, the second lacks a parameter, the last is one too many.
    let solutions = state.collect_solutions(&storage, Direction::Maximize).unwrap();
    assert_eq!(solutions.len(), 2);
    assert_eq!(solutions[0].vector, vec![f(0.2), f(0.5)]);
    assert_eq!(solutions[0].loss, f(-2.0));
    assert_eq!(solutions[1].loss, f(-3.0));
    assert_eq!(state.collect_solutions(&storage, Direction::Minimize).unwrap()[0].loss, f(2.0));
    state.told();
    assert!(state.collect_solutions(&storage, Direction::Minimize).unwrap().is_empty());
    state.asked(77);
    assert_eq!(state.collect_solutions(&storage, Direction::Minimize).err().map(|e| e.kind), Some(ErrorKind::TrialNotFound));
}
