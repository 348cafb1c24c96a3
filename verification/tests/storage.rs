use rustuna::attr::{AttrKey, Attrs, CategoryLabel, Decimals};
use rustuna::distribution::Distribution;
use rustuna::error::{ErrorKind, Result};
use rustuna::float::Float;
use rustuna::id_map::TrialIdNumberHashMap;
use rustuna::key_map::{Duplicate, KeyMap};
use rustuna::storage::{check_trial_is_updatable, discarded_if_none, InMemoryStorage, InMemoryStorageOptions};
use rustuna::study::Direction;
use rustuna::trial::{PersistedTrial, TrialState, TrialStateValues};

fn f(value: f64) -> Float {
    Float::from_bits(value.to_bits())
}

fn float(low: f64, high: f64) -> Distribution {
    Distribution::Float { low: f(low), high: f(high), step: None, log: false }
}

fn now() -> String {
    "2026-04-02 03:04:05.678".to_string()
}

fn minimize() -> Vec<Direction> {
    vec![Direction::Minimize]
}

fn complete(value: f64) -> TrialStateValues {
    TrialStateValues::Complete(vec![f(value)])
}

fn kind<T>(r: Result<T>) -> Option<ErrorKind> {
    r.err().map(|e| e.kind)
}

#[test]
fn test_create_study_does_not_reuse_study_id() -> Result<()> {
    let mut storage = InMemoryStorage::new();

    let study1_id = storage.create_new_study("study1", minimize())?.id;
    storage.create_new_study("study2", minimize())?;
    storage.delete_study(study1_id)?;

    assert!(matches!(kind(storage.get_study(study1_id)), Some(ErrorKind::StudyNotFound)));

    let study3 = storage.create_new_study("study3", minimize())?;
    assert_eq!(study3.id, 2);
    assert_ne!(study3.id, study1_id);

    assert_eq!(storage.get_studies().len(), 2);
    Ok(())
}

#[test]
fn set_trial_param_rejects_incompatible_distribution_across_trials() -> Result<()> {
    let mut storage = InMemoryStorage::new();
    let study_id = storage.create_new_study("study", minimize())?.id;

    let float_dist = float(0.0, 1.0);
    let int_dist = Distribution::new_int(0, 5, 1, false);

    let trial0_id = storage.create_new_trial(study_id, now())?.id;
    storage.set_trial_param(trial0_id, "x", &float_dist, f(0.5))?;

    let trial1_id = storage.create_new_trial(study_id, now())?.id;
    let err = kind(storage.set_trial_param(trial1_id, "x", &int_dist, f(1.0)));
    assert!(matches!(err, Some(ErrorKind::IncompatibleDistribution)));
    Ok(())
}

#[test]
fn insert_trial_with_id_updates_next_trial_id() -> Result<()> {
    let mut storage = InMemoryStorage::new();
    let study_id = storage.create_new_study("study", minimize())?.id;

    let trial = storage.insert_trial_with_id(study_id, 10, 0)?;
    assert_eq!(trial.id, 10);
    assert_eq!(storage.get_trial_id_from_study_id_trial_number(study_id, 0)?, 10);
    let trial = storage.create_new_trial(study_id, now())?;
    assert_eq!(trial.id, 11);
    Ok(())
}

#[test]
fn get_trial_id_from_study_id_trial_number_uses_both_keys() -> Result<()> {
    let mut storage = InMemoryStorage::new();
    let study0_id = storage.create_new_study("study0", minimize())?.id;
    let study1_id = storage.create_new_study("study1", minimize())?.id;
    let study0_trial0_id = storage.create_new_trial(study0_id, now())?.id;
    let study0_trial1_id = storage.create_new_trial(study0_id, now())?.id;
    let study1_trial0_id = storage.create_new_trial(study1_id, now())?.id;

    assert_eq!(storage.get_trial_id_from_study_id_trial_number(study0_id, 0)?, study0_trial0_id);
    assert_eq!(storage.get_trial_id_from_study_id_trial_number(study0_id, 1)?, study0_trial1_id);
    assert_eq!(storage.get_trial_id_from_study_id_trial_number(study1_id, 0)?, study1_trial0_id);

    storage.delete_study(study0_id)?;
    let error = kind(storage.get_trial_id_from_study_id_trial_number(study0_id, 0));
    assert!(matches!(error, Some(ErrorKind::TrialNotFound)));
    assert_eq!(storage.get_trial_id_from_study_id_trial_number(study1_id, 0)?, study1_trial0_id);
    Ok(())
}

#[test]
fn delete_study_removes_discarded_trial_mappings() -> Result<()> {
    let mut storage = InMemoryStorage::new_with_option(InMemoryStorageOptions { apply_discard: true });
    let study_id = storage.create_new_study("study", minimize())?.id;
    let trial_id = storage.create_new_trial(study_id, now())?.id;
    storage.discard_trials(&[trial_id])?;

    storage.delete_study(study_id)?;

    let error = kind(storage.get_trial_id_from_study_id_trial_number(study_id, 0));
    assert!(matches!(error, Some(ErrorKind::TrialNotFound)));
    assert!(matches!(kind(storage.get_trial(trial_id)), Some(ErrorKind::TrialNotFound)));
    Ok(())
}

#[test]
fn trials_are_stamped_with_naive_utc_datetimes() -> Result<()> {
    let before = "2026-04-02 03:04:05.678".to_string();
    let mut storage = InMemoryStorage::new();
    let study_id = storage.create_new_study("s", minimize())?.id;
    let trial_id = storage.create_new_trial(study_id, "2026-04-02 03:04:05.679".to_string())?.id;

    let trial = storage.get_trial(trial_id)?;
    let started = trial.datetime_start.clone().expect("a new trial records when it started");
    assert!(trial.datetime_complete.is_none());

    storage.set_trial_state_values(trial_id, complete(1.0), "2026-04-02 03:04:06.001".to_string())?;
    let trial = storage.get_trial(trial_id)?;
    let completed = trial.datetime_complete.clone().expect("a finished trial records when it finished");
    assert_eq!(trial.datetime_start.as_deref(), Some(started.as_str()));

    // Naive UTC of a fixed width is lexicographically ordered, so the strings can be bracketed
    // by readings taken around the calls without any date arithmetic.
    let after = "2026-04-02 03:04:06.002".to_string();
    assert_eq!(started.len(), after.len());
    assert!(
        before <= started && started <= completed && completed <= after,
        "expected {before} <= {started} <= {completed} <= {after}"
    );
    Ok(())
}

#[test]
fn create_new_trial_from_template_preserves_datetime() -> Result<()> {
    let mut storage = InMemoryStorage::new();
    let study_id = storage.create_new_study("study", minimize())?.id;
    let mut template = PersistedTrial::new(100, 200, 300);
    template.datetime_start = Some("2026-04-02 03:04:05.678".to_string());
    template.datetime_complete = Some("2026-04-02 03:14:15.678".to_string());
    template.state_values = complete(1.0);

    let trial = storage.create_new_trial_from_template(study_id, &template)?;
    assert_eq!(trial.id, 0);
    assert_eq!(trial.study_id, study_id);
    assert_eq!(trial.number, 0);
    assert_eq!(trial.datetime_start, template.datetime_start);
    assert_eq!(trial.datetime_complete, template.datetime_complete);
    assert!(trial.state_values.equals(&template.state_values));
    Ok(())
}

#[test]
fn get_study_attr_returns_stored_value() -> Result<()> {
    let mut storage = InMemoryStorage::new();
    let study_id = storage.create_new_study("study", minimize())?.id;
    let mut attrs: Attrs = KeyMap::new();
    attrs.insert(AttrKey::User("owner".to_string()), "alice".to_string());
    storage.set_study_attrs(study_id, &attrs, false)?;

    let value = storage.get_study_attr(study_id, &AttrKey::User("owner".to_string()))?;
    assert_eq!(value, "alice");
    Ok(())
}

#[test]
fn get_study_attr_returns_error_for_missing_key() -> Result<()> {
    let mut storage = InMemoryStorage::new();
    let study_id = storage.create_new_study("study", minimize())?.id;

    let err = kind(storage.get_study_attr(study_id, &AttrKey::User("missing".to_string())));
    assert!(matches!(err, Some(ErrorKind::AttrNotFound)));
    Ok(())
}

#[test]
fn discard_trials_omits_trials() -> Result<()> {
    let mut storage = InMemoryStorage::new_with_option(InMemoryStorageOptions { apply_discard: true });
    let study_id = storage.create_new_study("study", minimize())?.id;
    let trial0_id = storage.create_new_trial(study_id, now())?.id;
    let trial1_id = storage.create_new_trial(study_id, now())?.id;

    storage.discard_trials(&[trial0_id])?;
    storage.discard_trials(&[trial0_id])?;

    let trials = storage.get_trials(study_id)?;
    assert!(trials[0].is_none());
    assert_eq!(trials[1].as_ref().unwrap().id, trial1_id);
    assert!(storage.may_omit_trials());
    assert!(matches!(kind(storage.get_trial(trial0_id)), Some(ErrorKind::TrialDiscarded)));
    Ok(())
}

#[test]
fn get_n_trials_counts_states() -> Result<()> {
    let mut storage = InMemoryStorage::new_with_option(InMemoryStorageOptions { apply_discard: true });
    let study_id = storage.create_new_study("study", minimize())?.id;
    let running_trial_id = storage.create_new_trial(study_id, now())?.id;
    let complete_trial_id = storage.create_new_trial(study_id, now())?.id;
    storage.set_trial_state_values(complete_trial_id, complete(1.0), now())?;
    let template = storage.get_trial(complete_trial_id)?.duplicate();
    storage.create_new_trial_from_template(study_id, &template)?;

    assert_eq!(storage.get_n_trials(study_id, None)?, 3);
    assert_eq!(storage.get_n_trials(study_id, Some(&[TrialState::Running]))?, 1);
    assert_eq!(storage.get_n_trials(study_id, Some(&[TrialState::Complete]))?, 2);
    assert_eq!(storage.get_n_trials(study_id, Some(&[TrialState::Complete, TrialState::Complete]))?, 2);
    assert_eq!(storage.get_n_trials(study_id, Some(&[]))?, 0);

    storage.discard_trials(&[complete_trial_id])?;
    assert_eq!(storage.get_n_trials(study_id, None)?, 3);
    assert_eq!(storage.get_n_trials(study_id, Some(&[TrialState::Complete]))?, 2);
    assert!(storage.get_trial(running_trial_id).is_ok());
    Ok(())
}

#[test]
fn names_are_taken_once() -> Result<()> {
    let mut storage = InMemoryStorage::new();
    storage.create_new_study("a", minimize())?;
    assert_eq!(kind(storage.create_new_study("a", minimize())), Some(ErrorKind::DuplicatedStudy));
    assert_eq!(kind(storage.insert_study_with_id(9, "a", minimize())), Some(ErrorKind::DuplicatedStudy));
    assert_eq!(storage.insert_study_with_id(9, "b", minimize())?.id, 9);
    assert_eq!(storage.find_study("b"), Some(9));
    assert_eq!(storage.find_study("c"), None);
    assert_eq!(storage.create_new_study("c", minimize())?.id, 10);
    Ok(())
}

#[test]
fn requests_for_unknown_studies_fail() {
    let mut storage = InMemoryStorage::new_with_option(InMemoryStorageOptions { apply_discard: true });
    let attrs: Attrs = KeyMap::new();
    let none: Decimals = KeyMap::new();
    assert_eq!(kind(storage.create_new_trial(3, now())), Some(ErrorKind::StudyNotFound));
    assert_eq!(kind(storage.delete_study(3)), Some(ErrorKind::StudyNotFound));
    assert_eq!(kind(storage.get_trials(3)), Some(ErrorKind::StudyNotFound));
    assert_eq!(kind(storage.set_study_attrs(3, &attrs, false)), Some(ErrorKind::StudyNotFound));
    assert_eq!(kind(storage.get_n_trials(3, None)), Some(ErrorKind::StudyNotFound));
    assert_eq!(kind(storage.get_joint_search_space(3)), Some(ErrorKind::StudyNotFound));
    assert_eq!(kind(storage.get_category_labels(3, "x", 1, &none)), Some(ErrorKind::StudyNotFound));
    assert_eq!(kind(storage.get_trial(3)), Some(ErrorKind::TrialNotFound));
    assert_eq!(kind(storage.get_trial_number_from_id(3)), Some(ErrorKind::TrialNotFound));
    assert_eq!(kind(storage.discard_trials(&[3])), Some(ErrorKind::TrialNotFound));
}

#[test]
fn finished_trials_are_not_changed() -> Result<()> {
    let mut storage = InMemoryStorage::new();
    let study_id = storage.create_new_study("s", minimize())?.id;
    let id = storage.create_new_trial(study_id, now())?.id;
    assert!(check_trial_is_updatable(storage.get_trial(id)?).is_ok());
    storage.set_trial_state_values(id, TrialStateValues::Pruned, now())?;
    assert!(check_trial_is_updatable(storage.get_trial(id)?).is_err());
    let finished = Some(ErrorKind::TrialAlreadyFinished);
    let attrs: Attrs = KeyMap::new();
    let steps: KeyMap<u32, Float> = KeyMap::new();
    assert_eq!(kind(storage.set_trial_param(id, "x", &float(0.0, 1.0), f(0.5))), finished);
    assert_eq!(kind(storage.set_trial_state_values(id, complete(1.0), now())), finished);
    assert_eq!(kind(storage.set_trial_intermediate_values(id, &steps)), finished);
    assert_eq!(kind(storage.set_trial_attrs(id, &attrs, false)), finished);
    assert!(matches!(storage.get_trial(id)?.state_values, TrialStateValues::Pruned));
    Ok(())
}

#[test]
fn parameters_and_values_are_recorded() -> Result<()> {
    let mut storage = InMemoryStorage::new();
    let study_id = storage.create_new_study("s", minimize())?.id;
    let id = storage.create_new_trial(study_id, now())?.id;
    let other = storage.create_new_trial(study_id, now())?.id;
    storage.set_trial_param(id, "x", &float(0.0, 1.0), f(0.5))?;
    let mut steps: KeyMap<u32, Float> = KeyMap::new();
    steps.insert(3, f(0.25));
    storage.set_trial_intermediate_values(id, &steps)?;
    let mut constraints: KeyMap<String, Float> = KeyMap::new();
    constraints.insert("c".to_string(), f(-1.0));
    storage.set_trial_constraints(id, constraints)?;
    let mut attrs: Attrs = KeyMap::new();
    attrs.insert(AttrKey::User("k".to_string()), "v".to_string());
    storage.set_trial_attrs(id, &attrs, true)?;
    assert_eq!(kind(storage.set_trial_attrs(id, &attrs, true)), Some(ErrorKind::AttrOverwriteNotAllowed));
    storage.set_trial_datetimes(id, Some("a".to_string()), Some("b".to_string()))?;
    let trial = storage.get_trial(id)?;
    assert_eq!(trial.internal_params.get(&"x".to_string()), Some(&f(0.5)));
    assert_eq!(trial.intermediate_values.get(&3), Some(&f(0.25)));
    assert_eq!(trial.constraints().get(&"c".to_string()), Some(&f(-1.0)));
    assert_eq!(trial.attrs.len(), 1);
    assert_eq!(trial.datetime_complete.as_deref(), Some("b"));
    let untouched = storage.get_trial(other)?;
    assert_eq!(untouched.internal_params.len() + untouched.attrs.len(), 0);
    Ok(())
}

#[test]
fn the_joint_space_is_what_complete_trials_share() -> Result<()> {
    let mut storage = InMemoryStorage::new();
    let study_id = storage.create_new_study("s", minimize())?.id;
    assert_eq!(storage.get_joint_search_space(study_id)?.len(), 0);
    for (n, names) in [vec!["x", "y"], vec!["y", "x"], vec!["y"]].iter().enumerate() {
        let id = storage.create_new_trial(study_id, now())?.id;
        for name in names {
            storage.set_trial_param(id, name, &float(0.0, 1.0), f(0.5))?;
        }
        storage.set_trial_state_values(id, complete(n as f64), now())?;
    }
    let space = storage.get_joint_search_space(study_id)?;
    assert_eq!(space.len(), 1);
    assert!(space.contains_key(&"y".to_string()));
    Ok(())
}

#[test]
fn category_labels_are_stored_once() -> Result<()> {
    let mut storage = InMemoryStorage::new();
    let study_id = storage.create_new_study("s", minimize())?.id;
    let none: Decimals = KeyMap::new();
    let labels = vec![CategoryLabel::Int(1), CategoryLabel::Bool(false)];
    assert!(storage.get_category_labels(study_id, "x", 2, &none)?.is_none());
    storage.set_category_labels(study_id, "x", &labels)?;
    let back = storage.get_category_labels(study_id, "x", 2, &none)?.unwrap();
    assert!(back[0].equals(&labels[0]) && back[1].equals(&labels[1]));
    let again = vec![CategoryLabel::Int(2)];
    assert_eq!(kind(storage.set_category_labels(study_id, "x", &again)), Some(ErrorKind::AttrOverwriteNotAllowed));
    Ok(())
}

#[test]
fn without_the_option_discarding_does_nothing() -> Result<()> {
    let mut storage = InMemoryStorage::new();
    let study_id = storage.create_new_study("s", minimize())?.id;
    let id = storage.create_new_trial(study_id, now())?.id;
    storage.discard_trials(&[id])?;
    assert!(storage.get_trial(id).is_ok());
    assert!(!storage.may_omit_trials());
    assert_eq!(kind(discarded_if_none::<u32>(None)), Some(ErrorKind::TrialDiscarded));
    assert_eq!(discarded_if_none(Some(4u32))?, 4);
    Ok(())
}

#[test]
fn ids_and_numbers_are_found_both_ways() {
    let mut map = TrialIdNumberHashMap::new();
    map.insert(1, 7, 0);
    map.insert(1, 8, 1);
    map.insert(2, 9, 0);
    assert_eq!(map.get_study_id_trial_number(8), Some((1, 1)));
    assert_eq!(map.get_trial_id(2, 0), Some(9));
    map.remove_study(1);
    assert_eq!(map.get_study_id_trial_number(8), None);
    assert_eq!(map.get_trial_id(1, 0), None);
    assert!(map.contains_trial_id(9));
}
