use rustuna::attr::{category_labels_to_attrs, AttrKey, Attrs, CategoryLabel, Decimals};
use rustuna::distribution::Distribution;
use rustuna::error::ErrorKind;
use rustuna::float::Float;
use rustuna::key_map::{Duplicate, KeyMap};
use rustuna::mirror::{
    copies_all_trials, is_in_diff, retries_after_sync, sync_labelled_trial, sync_trial, sync_trials, trials_by_number, Mirror, Scope,
};
use rustuna::storage::InMemoryStorage;
use rustuna::study::{Direction, PersistedStudy};
use rustuna::trial::{PersistedTrial, TrialStateValues};

fn f(value: f64) -> Float {
    Float::from_bits(value.to_bits())
}

fn name(text: &str) -> String {
    text.to_string()
}

const ALL: Scope = Scope { constraints: true, intermediate_values: true };

fn source(id: u32, number: u32) -> PersistedTrial {
    let mut trial = PersistedTrial::new(id, 0, number);
    trial.internal_params.insert(name("x"), f(0.5));
    trial.distributions.insert(name("x"), Distribution::Float { low: f(0.0), high: f(1.0), step: None, log: false });
    trial.attrs.insert(AttrKey::User(name("k")), name("v"));
    trial.constraints.insert(name("c"), f(1.0));
    trial.intermediate_values.insert(3, f(0.25));
    trial.state_values = TrialStateValues::Complete(vec![f(2.0)]);
    trial
}

fn storage() -> (InMemoryStorage, u32) {
    let mut storage = InMemoryStorage::new();
    let id = storage.create_new_study("s", vec![Direction::Minimize]).unwrap().id;
    (storage, id)
}

#[test]
fn a_copied_trial_mirrors_its_source() {
    let (mut storage, study_id) = storage();
    let trial = source(0, 0);
    sync_trial(&mut storage, study_id, &trial, 0, ALL, name("now")).unwrap();
    let copy = storage.get_trial(0).unwrap();
    assert_eq!(copy.internal_params.get(&name("x")), Some(&f(0.5)));
    assert_eq!(copy.attrs.get(&AttrKey::User(name("k"))), Some(&name("v")));
    assert_eq!(copy.constraints.get(&name("c")), Some(&f(1.0)));
    assert_eq!(copy.intermediate_values.get(&3), Some(&f(0.25)));
    assert!(copy.state_values.equals(&trial.state_values));
}

#[test]
fn what_is_out_of_scope_is_not_copied() {
    let (mut storage, study_id) = storage();
    let scope = Scope { constraints: false, intermediate_values: false };
    sync_trial(&mut storage, study_id, &source(0, 0), 0, scope, name("now")).unwrap();
    let copy = storage.get_trial(0).unwrap();
    assert_eq!(copy.constraints.len() + copy.intermediate_values.len(), 0);
    assert_eq!(copy.internal_params.len(), 1);
}

#[test]
fn trials_are_copied_by_number() {
    let (mut storage, study_id) = storage();
    let sources = vec![source(8, 1), source(5, 0)];
    assert_eq!(trials_by_number(&sources), vec![1, 0]);
    sync_trials(&mut storage, study_id, &sources, ALL, name("now")).unwrap();
    assert_eq!(storage.get_trial_id_from_study_id_trial_number(study_id, 0).unwrap(), 5);
    assert_eq!(storage.get_trial_id_from_study_id_trial_number(study_id, 1).unwrap(), 8);
    // Once more, nothing changes.
    sync_trials(&mut storage, study_id, &sources, ALL, name("later")).unwrap();
    assert_eq!(storage.get_n_trials(study_id, None).unwrap(), 2);
    assert_eq!(sync_trials(&mut storage, 9, &sources, ALL, name("now")).err().map(|e| e.kind), Some(ErrorKind::StudyNotFound));
}

#[test]
fn labels_come_with_a_trial() {
    let (mut storage, study_id) = storage();
    let labels = vec![CategoryLabel::Int(4), CategoryLabel::Null];
    let attrs: Attrs = category_labels_to_attrs("c", &labels);
    sync_labelled_trial(&mut storage, study_id, &source(0, 0), &attrs, 0, ALL, name("now")).unwrap();
    let none: Decimals = KeyMap::new();
    let back = storage.get_category_labels(study_id, "c", 2, &none).unwrap().unwrap();
    assert!(back[0].equals(&labels[0]) && back[1].equals(&labels[1]));
}

fn study(id: u32, text: &str) -> PersistedStudy {
    let mut attrs: Attrs = KeyMap::new();
    attrs.insert(AttrKey::User(name("k")), name(text));
    PersistedStudy::new_with_attrs(id, name(text), vec![Direction::Minimize], attrs)
}

#[test]
fn studies_are_copied_under_their_own_ids_or_new_ones() {
    for (keep_ids, first) in [(true, 7), (false, 0)] {
        let mut mirror = Mirror::new(keep_ids);
        mirror.sync_studies(&vec![study(7, "a"), study(9, "b")], true).unwrap();
        assert_eq!(mirror.cache.find_study("a"), Some(first));
        assert_eq!(mirror.source_of(first).unwrap(), 7);
        assert_eq!(mirror.cache.get_study_attr(first, &AttrKey::User(name("k"))).unwrap(), "a");
        // A study is copied once.
        mirror.register_src_study_to_cache(&study(7, "a"), false).unwrap();
        assert_eq!(mirror.cache.get_studies().len(), 2);
        mirror.delete_study(first).unwrap();
        assert_eq!(mirror.source_of(first).err().map(|e| e.kind), Some(ErrorKind::StudyNotFound));
        assert_eq!(mirror.cache.get_studies().len(), 1);
        let clash = mirror.register_src_study_to_cache(&study(11, "b"), false);
        assert_eq!(clash.err().map(|e| e.kind), Some(ErrorKind::DuplicatedStudy));
    }
}

#[test]
fn requests_are_repeated_where_something_was_not_found() {
    assert!(retries_after_sync(ErrorKind::StudyNotFound) && retries_after_sync(ErrorKind::TrialNotFound));
    assert!(!retries_after_sync(ErrorKind::StorageError));
    assert!(copies_all_trials(true, 3, 3) && copies_all_trials(false, 4, 3) && !copies_all_trials(false, 3, 3));
    assert!(is_in_diff(3, &[3, 5], 10) && is_in_diff(11, &[], 10) && !is_in_diff(10, &[], 10) && is_in_diff(0, &[], -1));
}

#[test]
fn duplicates_are_independent() {
    let trial = source(1, 1);
    let mut copy = trial.duplicate();
    copy.internal_params.insert(name("x"), f(0.75));
    assert_eq!(trial.internal_params.get(&name("x")), Some(&f(0.5)));
    assert_eq!(PersistedStudy::new(1, name("a"), vec![Direction::Maximize]).attrs.len(), 0);
}

#[test]
fn constraints_that_are_the_same_numbers_are_kept() {
    let (mut storage, study_id) = storage();
    let mut trial = source(0, 0);
    trial.state_values = TrialStateValues::Running;
    trial.constraints.insert(name("c"), f(0.0));
    sync_trial(&mut storage, study_id, &trial, 0, ALL, name("now")).unwrap();
    trial.constraints.insert(name("c"), f(-0.0));
    sync_trial(&mut storage, study_id, &trial, 1, ALL, name("now")).unwrap();
    assert_eq!(storage.get_trial(0).unwrap().constraints.get(&name("c")), Some(&f(0.0)));
    trial.constraints.insert(name("c"), f(-1.0));
    sync_trial(&mut storage, study_id, &trial, 1, ALL, name("now")).unwrap();
    assert_eq!(storage.get_trial(0).unwrap().constraints.get(&name("c")), Some(&f(-1.0)));
}
