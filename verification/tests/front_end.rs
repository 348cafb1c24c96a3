use rustuna::attr::{AttrKey, Attrs, CategoryLabel, Decimals};
use rustuna::distribution::Distribution;
use rustuna::error::{Error, ErrorKind};
use rustuna::float::Float;
use rustuna::front_end::{
    build_trial_attrs, categorical_param, conclude, convert_direction, convert_directions, create_or_load_study, creation_times,
    ensure_category_labels, err_to_exceptions, exception_message, kind_of_backend_exception, kind_of_storage_exception, read_study, resolve_tell,
    select_trials, state_values_from_py, system_attrs_of, values_infeasible_reason, write_study, DirectionInput, Exception, Infeasible,
    ObjectiveReply, Refusal,
};
use rustuna::key_map::KeyMap;
use rustuna::storage::{InMemoryStorage, InMemoryStorageOptions};
use rustuna::study::Direction;
use rustuna::trial::{user_attrs_of, PersistedTrial, TrialState, TrialStateValues};

fn f(value: f64) -> Float {
    Float::from_bits(value.to_bits())
}

fn row(values: &[f64]) -> Vec<Float> {
    values.iter().map(|v| f(*v)).collect()
}

fn name(text: &str) -> String {
    text.to_string()
}

#[test]
fn errors_are_raised_as_exceptions() {
    for (kind, class) in [
        (ErrorKind::TrialNotFound, Exception::KeyError),
        (ErrorKind::StudyNotFound, Exception::KeyError),
        (ErrorKind::AttrNotFound, Exception::KeyError),
        (ErrorKind::TrialDiscarded, Exception::TrialDiscarded),
        (ErrorKind::TrialAlreadyFinished, Exception::UpdateFinishedTrialError),
        (ErrorKind::StorageError, Exception::StorageInternalError),
        (ErrorKind::DuplicatedStudy, Exception::DuplicatedStudyError),
        (ErrorKind::IncompatibleDistribution, Exception::ValueError),
        (ErrorKind::ImportanceEvaluatorError, Exception::ValueError),
        (ErrorKind::InvalidObjectiveValues, Exception::ValueError),
        (ErrorKind::MissingDependency, Exception::ImportError),
        (ErrorKind::UnsupportedMultiObjective, Exception::RuntimeError),
        (ErrorKind::Unexpected, Exception::RuntimeError),
    ] {
        assert_eq!(err_to_exceptions(kind), class);
    }
}

#[test]
fn exceptions_are_read_back_as_errors() {
    for (class, kind) in [
        ("DuplicatedStudyError", ErrorKind::DuplicatedStudy),
        ("StudyNotFoundError", ErrorKind::StudyNotFound),
        ("TrialNotFoundError", ErrorKind::TrialNotFound),
        ("UpdateFinishedTrialError", ErrorKind::TrialAlreadyFinished),
        ("KeyError", ErrorKind::AttrNotFound),
        ("ValueError", ErrorKind::StorageError),
    ] {
        assert_eq!(kind_of_backend_exception(class), kind);
        let expected = if class == "DuplicatedStudyError" { kind } else { ErrorKind::StorageError };
        assert_eq!(kind_of_storage_exception(class), expected);
    }
}

#[test]
fn states_have_names_and_numbers() {
    let states = [TrialState::Running, TrialState::Complete, TrialState::Pruned, TrialState::Waiting, TrialState::Fail];
    let codes: Vec<isize> = states.iter().map(|s| s.code()).collect();
    assert_eq!(codes, vec![0, 1, 2, 3, 4]);
    let names: Vec<String> = states.iter().map(|s| s.name()).collect();
    assert_eq!(names, vec!["RUNNING", "COMPLETE", "PRUNED", "WAITING", "FAIL"]);
    let finished: Vec<bool> = states.iter().map(|s| s.is_finished()).collect();
    assert_eq!(finished, vec![false, true, true, false, true]);
}

#[test]
fn infeasible_values_are_explained() {
    let reason = |values: &[f64], n: usize| values_infeasible_reason(&row(values), n).map(|r| r.message());
    assert_eq!(reason(&[1.0, f64::INFINITY], 2), None);
    assert_eq!(reason(&[f64::NAN], 1).unwrap(), "The value NaN is not acceptable");
    assert_eq!(reason(&[f64::NAN, 1.0, f64::NAN], 1).unwrap(), "The value NaN is not acceptable; The value NaN is not acceptable");
    assert_eq!(
        reason(&[1.0], 12).unwrap(),
        "The number of the values 1 did not match the number of the objectives 12"
    );
}

#[test]
fn a_state_or_values_are_told() {
    let tell = |state: Option<TrialState>, values: Option<&[f64]>| resolve_tell(state, values.map(row), 1);
    assert_eq!(tell(None, None).err(), Some(Refusal::NothingTold));
    assert_eq!(tell(Some(TrialState::Running), Some(&[1.0])).err(), Some(Refusal::TellRunning));
    assert_eq!(tell(Some(TrialState::Waiting), None).err(), Some(Refusal::TellWaiting));
    assert_eq!(tell(Some(TrialState::Complete), None).err(), Some(Refusal::MissingValues));
    let wrong = Infeasible::WrongCount { values: 2, objectives: 1 };
    assert_eq!(tell(Some(TrialState::Complete), Some(&[1.0, 2.0])).err(), Some(Refusal::Infeasible(wrong)));
    assert!(matches!(tell(Some(TrialState::Fail), Some(&[1.0])).ok().unwrap().state_values, TrialStateValues::Fail));
    assert!(matches!(tell(Some(TrialState::Pruned), None).ok().unwrap().state_values, TrialStateValues::Pruned));
    let told = tell(Some(TrialState::Complete), Some(&[1.0])).ok().unwrap();
    assert!(told.state_values.equals(&TrialStateValues::Complete(row(&[1.0]))) && told.warning.is_none());
    let told = tell(None, Some(&[f64::NAN])).ok().unwrap();
    assert!(matches!(told.state_values, TrialStateValues::Fail));
    assert_eq!(told.warning, Some(Infeasible::NotANumber { count: 1 }));
    assert!(matches!(tell(None, Some(&[3.0])).ok().unwrap().state_values, TrialStateValues::Complete(_)));
}

#[test]
fn replies_of_an_objective_are_concluded() {
    let (told, raised) = conclude(ObjectiveReply::Values(row(&[1.0])), 1);
    assert!(matches!(told.state_values, TrialStateValues::Complete(_)) && told.warning.is_none() && !raised);
    let (told, raised) = conclude(ObjectiveReply::Values(row(&[1.0, 2.0])), 1);
    assert!(matches!(told.state_values, TrialStateValues::Fail) && told.warning.is_some() && !raised);
    let (told, raised) = conclude(ObjectiveReply::Pruned, 1);
    assert!(matches!(told.state_values, TrialStateValues::Pruned) && !raised);
    let (told, raised) = conclude(ObjectiveReply::Raised { caught: true }, 1);
    assert!(matches!(told.state_values, TrialStateValues::Fail) && !raised);
    assert!(conclude(ObjectiveReply::Raised { caught: false }, 1).1);
}

#[test]
fn a_value_or_values_make_a_state() {
    let both = state_values_from_py(TrialState::Fail, Some(f(1.0)), Some(row(&[1.0])));
    assert_eq!(both.err(), Some(Refusal::ValueAndValues));
    assert_eq!(state_values_from_py(TrialState::Complete, None, None).err(), Some(Refusal::MissingValues));
    let one = state_values_from_py(TrialState::Complete, Some(f(2.0)), None).unwrap();
    assert!(one.equals(&TrialStateValues::Complete(row(&[2.0]))));
    let two = state_values_from_py(TrialState::Complete, None, Some(row(&[2.0, 3.0]))).unwrap();
    assert!(two.equals(&TrialStateValues::Complete(row(&[2.0, 3.0]))));
    assert!(matches!(state_values_from_py(TrialState::Waiting, None, None), Ok(TrialStateValues::Waiting)));
    assert!(matches!(state_values_from_py(TrialState::Running, None, Some(row(&[1.0]))), Ok(TrialStateValues::Running)));
}

#[test]
fn created_trials_are_stamped() {
    let now = || Some(name("now"));
    assert_eq!(creation_times(TrialState::Waiting, name("now")), (None, None));
    assert_eq!(creation_times(TrialState::Running, name("now")), (now(), None));
    for state in [TrialState::Complete, TrialState::Pruned, TrialState::Fail] {
        assert_eq!(creation_times(state, name("now")), (now(), now()));
    }
}

#[test]
fn choices_are_kept_by_position() {
    let choices = vec![CategoryLabel::Int(1), CategoryLabel::String(name("a")), CategoryLabel::Int(1)];
    assert_eq!(categorical_param(&CategoryLabel::String(name("a")), Some(&choices)), Ok(f(1.0)));
    assert_eq!(categorical_param(&CategoryLabel::Int(1), Some(&choices)), Ok(f(0.0)));
    assert_eq!(categorical_param(&CategoryLabel::Null, Some(&choices)), Err(Refusal::UnknownChoice));
    assert_eq!(categorical_param(&CategoryLabel::Null, None), Err(Refusal::MissingChoices));
}

#[test]
fn directions_are_read() {
    let text = |t: &str| DirectionInput::Text(name(t));
    assert_eq!(convert_direction(&text("minimize")), Ok(Direction::Minimize));
    assert_eq!(convert_direction(&text("maximize")), Ok(Direction::Maximize));
    assert_eq!(convert_direction(&text("Maximize")), Err(Refusal::InvalidDirection));
    assert_eq!(convert_direction(&DirectionInput::Other), Err(Refusal::InvalidDirection));
    assert_eq!(convert_directions(None, None), Ok(vec![Direction::Minimize]));
    assert_eq!(convert_directions(Some(DirectionInput::Known(Direction::Maximize)), None), Ok(vec![Direction::Maximize]));
    let two = vec![text("maximize"), text("minimize")];
    assert_eq!(convert_directions(None, Some(two)), Ok(vec![Direction::Maximize, Direction::Minimize]));
    assert_eq!(convert_directions(None, Some(vec![text("minimize"), text("up")])), Err(Refusal::InvalidDirection));
    assert_eq!(convert_directions(Some(text("up")), Some(vec![])), Err(Refusal::DirectionAndDirections));
}

#[test]
fn trials_are_selected_by_state() {
    let in_state = |number: u32, state_values: TrialStateValues| {
        let mut trial = PersistedTrial::new(number, 0, number);
        trial.state_values = state_values;
        Some(trial)
    };
    let trials =
        vec![in_state(0, TrialStateValues::Fail), None, in_state(2, TrialStateValues::Running), in_state(3, TrialStateValues::Fail)];
    assert_eq!(select_trials(&trials, None), vec![0, 2, 3]);
    assert_eq!(select_trials(&trials, Some(&vec![TrialState::Fail])), vec![0, 3]);
    assert_eq!(select_trials(&trials, Some(&vec![])), Vec::<usize>::new());
}

#[test]
fn attributes_part_again() {
    let mut user: KeyMap<String, String> = KeyMap::new();
    user.insert(name("k"), name("u"));
    let mut system: KeyMap<String, String> = KeyMap::new();
    system.insert(name("k"), name("s"));
    system.insert(name("l"), name("t"));
    let attrs = build_trial_attrs(&user, &system);
    assert_eq!(attrs.len(), 3);
    assert_eq!(user_attrs_of(&attrs).get(&name("k")), Some(&name("u")));
    let back = system_attrs_of(&attrs);
    assert_eq!((back.len(), back.get(&name("k"))), (2, Some(&name("s"))));
}

#[test]
fn studies_are_created_or_loaded() {
    let mut storage = InMemoryStorage::new();
    let first = create_or_load_study(None, &mut storage, vec![Direction::Maximize], false).ok().unwrap();
    assert_eq!((first.id, first.name.as_str()), (0, "default"));
    let again = create_or_load_study(None, &mut storage, vec![Direction::Minimize], false);
    assert_eq!(again.err().map(|e| e.kind), Some(ErrorKind::DuplicatedStudy));
    let loaded = create_or_load_study(Some(name("default")), &mut storage, vec![Direction::Minimize], true).ok().unwrap();
    assert_eq!((loaded.id, loaded.directions), (0, vec![Direction::Maximize]));
    assert_eq!(create_or_load_study(Some(name("b")), &mut storage, vec![Direction::Minimize], true).ok().unwrap().id, 1);
}

#[test]
fn studies_are_copied_with_their_live_trials() {
    let mut from = InMemoryStorage::new_with_option(InMemoryStorageOptions { apply_discard: true });
    let study_id = from.create_new_study("a", vec![Direction::Maximize]).unwrap().id;
    let mut attrs: Attrs = KeyMap::new();
    attrs.insert(AttrKey::User(name("k")), name("v"));
    from.set_study_attrs(study_id, &attrs, false).unwrap();
    for i in 0..3 {
        let id = from.create_new_trial(study_id, name("now")).unwrap().id;
        from.set_trial_param(id, "x", &Distribution::new_int(0, 9, 1, false), f(i as f64)).unwrap();
    }
    from.discard_trials(&[1]).unwrap();
    assert_eq!(read_study(&from, "none").err().map(|e| e.kind), Some(ErrorKind::StudyNotFound));
    let copy = read_study(&from, "a").ok().unwrap();
    let mut to = InMemoryStorage::new();
    to.create_new_study("other", vec![Direction::Minimize]).unwrap();
    write_study(&mut to, "b", &copy).unwrap();
    let id = to.find_study("b").unwrap();
    assert_eq!(to.get_study(id).unwrap().directions, vec![Direction::Maximize]);
    assert_eq!(to.get_study_attr(id, &AttrKey::User(name("k"))).unwrap(), "v");
    let trials = to.get_trials(id).unwrap();
    assert_eq!(trials.len(), 2);
    for (number, value) in [(0, 0.0), (1, 2.0)] {
        let trial = trials[number].as_ref().unwrap();
        assert_eq!((trial.number as usize, trial.study_id), (number, id));
        assert_eq!(trial.internal_params.get(&name("x")), Some(&f(value)));
    }
    assert_eq!(write_study(&mut to, "b", &copy).err().map(|e| e.kind), Some(ErrorKind::DuplicatedStudy));
}

#[test]
fn labels_are_stored_or_found() {
    let mut storage = InMemoryStorage::new();
    let study_id = storage.create_new_study("a", vec![Direction::Minimize]).unwrap().id;
    let none: Decimals = KeyMap::new();
    let labels = vec![CategoryLabel::Int(1), CategoryLabel::Bool(true)];
    let mut ensure = |labels: &Vec<CategoryLabel>, id: u32| ensure_category_labels(&mut storage, id, "x", labels, &none).err().map(|e| e.kind);
    assert_eq!(ensure(&labels, study_id), None);
    assert_eq!(ensure(&labels, study_id), None);
    let other = vec![CategoryLabel::Int(2), CategoryLabel::Bool(true)];
    assert_eq!(ensure(&other, study_id), Some(ErrorKind::AttrOverwriteNotAllowed));
    assert_eq!(ensure(&labels, 9), Some(ErrorKind::StudyNotFound));
}

#[test]
fn exceptions_show_the_reason() {
    let shown = |kind: ErrorKind, reason: &str| exception_message(&Error::with_reason(kind, name(reason)));
    assert_eq!(shown(ErrorKind::StudyNotFound, "r"), Some(name("Study not found")));
    assert_eq!(shown(ErrorKind::StorageError, "r"), Some(name("storage internal error: r")));
    assert_eq!(exception_message(&Error::new(ErrorKind::StorageError)), Some(name("storage internal error")));
    assert_eq!(shown(ErrorKind::InvalidObjectiveValues, "r"), Some(name("r")));
    assert_eq!(shown(ErrorKind::ImportanceEvaluatorError, "r"), Some(name("r")));
    assert_eq!(shown(ErrorKind::MissingDependency, "r"), Some(name("r")));
    assert_eq!(shown(ErrorKind::Unexpected, "r"), None);
}
