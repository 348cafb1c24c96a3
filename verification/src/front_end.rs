//! What the scripting front end decides before and after it calls the library.

use vstd::prelude::*;

use crate::attr::{label_attrs, label_views, AttrKey, AttrName, Attrs, CategoryLabel, Decimals, Label};
use crate::convert::of_nat;
use crate::error::{fails, Error, ErrorKind, Result};
use crate::float::Float;
use crate::key_map::{Duplicate, KeyMap};
use crate::multi_objective::split::{ints, picks};
use crate::storage::{asked_for, InMemoryStorage, StorageRecord};
use crate::study::{copy_directions, create_study, live_records, Direction, Study};
use crate::study_cache::{slot_view, trial_records};
use crate::text::{decimal, decimal_text, joined, texts_equal};
use crate::trial::{as_user_attrs, label_position, position_of_label, user_attrs_to_attrs, Outcome, PersistedTrial, TrialRecord, TrialState, TrialStateValues};

verus! {

/// The exception classes that errors are raised as.
#[derive(Clone, Copy, Debug, PartialEq, Eq, Structural)]
pub enum Exception {
    KeyError,
    ValueError,
    RuntimeError,
    ImportError,
    TrialDiscarded,
    UpdateFinishedTrialError,
    StorageInternalError,
    DuplicatedStudyError,
}

pub open spec fn raised(kind: ErrorKind) -> Exception {
    match kind {
        ErrorKind::TrialNotFound => Exception::KeyError,
        ErrorKind::StudyNotFound => Exception::KeyError,
        ErrorKind::AttrNotFound => Exception::KeyError,
        ErrorKind::TrialDiscarded => Exception::TrialDiscarded,
        ErrorKind::TrialAlreadyFinished => Exception::UpdateFinishedTrialError,
        ErrorKind::StorageError => Exception::StorageInternalError,
        ErrorKind::DuplicatedStudy => Exception::DuplicatedStudyError,
        ErrorKind::IncompatibleDistribution => Exception::ValueError,
        ErrorKind::ImportanceEvaluatorError => Exception::ValueError,
        ErrorKind::MissingDependency => Exception::ImportError,
        ErrorKind::InvalidObjectiveValues => Exception::ValueError,
        _ => Exception::RuntimeError,
    }
}

/// The exception class that an error is raised as.
pub fn err_to_exceptions(kind: ErrorKind) -> (r: Exception)
    ensures
        r == raised(kind),
{
    match kind {
        ErrorKind::TrialNotFound => Exception::KeyError,
        ErrorKind::StudyNotFound => Exception::KeyError,
        ErrorKind::AttrNotFound => Exception::KeyError,
        ErrorKind::TrialDiscarded => Exception::TrialDiscarded,
        ErrorKind::TrialAlreadyFinished => Exception::UpdateFinishedTrialError,
        ErrorKind::StorageError => Exception::StorageInternalError,
        ErrorKind::DuplicatedStudy => Exception::DuplicatedStudyError,
        ErrorKind::IncompatibleDistribution => Exception::ValueError,
        ErrorKind::ImportanceEvaluatorError => Exception::ValueError,
        ErrorKind::MissingDependency => Exception::ImportError,
        ErrorKind::InvalidObjectiveValues => Exception::ValueError,
        _ => Exception::RuntimeError,
    }
}

/// The message of the exception for an error. `None` stands for the error as it is shown to
/// programmers.
pub open spec fn message(error: Error) -> Option<Seq<char>> {
    match error.kind {
        ErrorKind::TrialNotFound => Some("Trial not found"@),
        ErrorKind::StudyNotFound => Some("Study not found"@),
        ErrorKind::AttrNotFound => Some("Attribute not found"@),
        ErrorKind::TrialDiscarded => Some("Trial discarded"@),
        ErrorKind::TrialAlreadyFinished => Some("Trial already finished"@),
        ErrorKind::DuplicatedStudy => Some("Duplicate study name"@),
        ErrorKind::IncompatibleDistribution => Some("Incompatible distribution for the parameter"@),
        ErrorKind::UnsupportedMultiObjective => Some("Multi-objective study is not supported"@),
        ErrorKind::StorageError => if error.reason@.len() == 0 {
            Some("storage internal error"@)
        } else {
            Some("storage internal error: "@ + error.reason@)
        },
        ErrorKind::ImportanceEvaluatorError => Some(error.reason@),
        ErrorKind::MissingDependency => Some(error.reason@),
        ErrorKind::InvalidObjectiveValues => Some(error.reason@),
        _ => None,
    }
}

/// The message of the exception for an error.
pub fn exception_message(error: &Error) -> (r: Option<String>)
    ensures
        r is Some == message(*error) is Some,
        r is Some ==> r->Some_0@ == message(*error)->Some_0,
{
    match error.kind {
        ErrorKind::TrialNotFound => Some("Trial not found".to_owned()),
        ErrorKind::StudyNotFound => Some("Study not found".to_owned()),
        ErrorKind::AttrNotFound => Some("Attribute not found".to_owned()),
        ErrorKind::TrialDiscarded => Some("Trial discarded".to_owned()),
        ErrorKind::TrialAlreadyFinished => Some("Trial already finished".to_owned()),
        ErrorKind::DuplicatedStudy => Some("Duplicate study name".to_owned()),
        ErrorKind::IncompatibleDistribution => Some("Incompatible distribution for the parameter".to_owned()),
        ErrorKind::UnsupportedMultiObjective => Some("Multi-objective study is not supported".to_owned()),
        ErrorKind::StorageError => if error.reason.as_str().unicode_len() == 0 {
            Some("storage internal error".to_owned())
        } else {
            Some(joined("storage internal error: ", error.reason.as_str()))
        },
        ErrorKind::ImportanceEvaluatorError => Some(error.reason.clone()),
        ErrorKind::MissingDependency => Some(error.reason.clone()),
        ErrorKind::InvalidObjectiveValues => Some(error.reason.clone()),
        _ => None,
    }
}

/// The error that an exception of a cached backend stands for, by its class name.
pub fn kind_of_backend_exception(class_name: &str) -> (r: ErrorKind)
    ensures
        r == if class_name@ == "DuplicatedStudyError"@ {
            ErrorKind::DuplicatedStudy
        } else if class_name@ == "StudyNotFoundError"@ {
            ErrorKind::StudyNotFound
        } else if class_name@ == "TrialNotFoundError"@ {
            ErrorKind::TrialNotFound
        } else if class_name@ == "UpdateFinishedTrialError"@ {
            ErrorKind::TrialAlreadyFinished
        } else if class_name@ == "KeyError"@ {
            ErrorKind::AttrNotFound
        } else {
            ErrorKind::StorageError
        },
{
    if texts_equal(class_name, "DuplicatedStudyError") {
        ErrorKind::DuplicatedStudy
    } else if texts_equal(class_name, "StudyNotFoundError") {
        ErrorKind::StudyNotFound
    } else if texts_equal(class_name, "TrialNotFoundError") {
        ErrorKind::TrialNotFound
    } else if texts_equal(class_name, "UpdateFinishedTrialError") {
        ErrorKind::TrialAlreadyFinished
    } else if texts_equal(class_name, "KeyError") {
        ErrorKind::AttrNotFound
    } else {
        ErrorKind::StorageError
    }
}

/// The error that an exception of a mirrored storage stands for, by its class name.
pub fn kind_of_storage_exception(class_name: &str) -> (r: ErrorKind)
    ensures
        r == if class_name@ == "DuplicatedStudyError"@ {
            ErrorKind::DuplicatedStudy
        } else {
            ErrorKind::StorageError
        },
{
    if texts_equal(class_name, "DuplicatedStudyError") {
        ErrorKind::DuplicatedStudy
    } else {
        ErrorKind::StorageError
    }
}

impl TrialState {
    pub open spec fn number(self) -> int {
        match self {
            TrialState::Running => 0,
            TrialState::Complete => 1,
            TrialState::Pruned => 2,
            TrialState::Waiting => 3,
            TrialState::Fail => 4,
        }
    }

    pub open spec fn title(self) -> Seq<char> {
        match self {
            TrialState::Running => "RUNNING"@,
            TrialState::Complete => "COMPLETE"@,
            TrialState::Pruned => "PRUNED"@,
            TrialState::Waiting => "WAITING"@,
            TrialState::Fail => "FAIL"@,
        }
    }

    pub open spec fn ended(self) -> bool {
        self == TrialState::Complete || self == TrialState::Pruned || self == TrialState::Fail
    }

    /// The number of the state, which is also its hash.
    pub fn code(self) -> (r: isize)
        ensures
            r == self.number(),
    {
        match self {
            TrialState::Running => 0,
            TrialState::Complete => 1,
            TrialState::Pruned => 2,
            TrialState::Waiting => 3,
            TrialState::Fail => 4,
        }
    }

    pub fn name(self) -> (r: String)
        ensures
            r@ == self.title(),
    {
        match self {
            TrialState::Running => "RUNNING".to_owned(),
            TrialState::Complete => "COMPLETE".to_owned(),
            TrialState::Pruned => "PRUNED".to_owned(),
            TrialState::Waiting => "WAITING".to_owned(),
            TrialState::Fail => "FAIL".to_owned(),
        }
    }

    pub fn is_finished(self) -> (r: bool)
        ensures
            r == self.ended(),
    {
        match self {
            TrialState::Complete => true,
            TrialState::Pruned => true,
            TrialState::Fail => true,
            TrialState::Running => false,
            TrialState::Waiting => false,
        }
    }
}

/// Why values are no objective values of a study.
#[derive(Clone, Copy, Debug, PartialEq, Eq, Structural)]
pub enum Infeasible {
    /// So many of them are NaN.
    NotANumber { count: usize },
    WrongCount { values: usize, objectives: usize },
}

pub open spec fn nan_on(values: Seq<Float>) -> spec_fn(int) -> bool {
    |i: int| values[i].nan()
}

pub open spec fn infeasible(values: Seq<Float>, n_objectives: usize) -> Option<Infeasible> {
    let nans = picks(values.len(), nan_on(values)).len();
    if nans > 0 {
        Some(Infeasible::NotANumber { count: nans as usize })
    } else if values.len() != n_objectives {
        Some(Infeasible::WrongCount { values: values.len() as usize, objectives: n_objectives })
    } else {
        None
    }
}

/// Tells why values are no objective values: any NaN first, then their number.
pub fn values_infeasible_reason(values: &Vec<Float>, n_objectives: usize) -> (r: Option<Infeasible>)
    ensures
        r == infeasible(values@, n_objectives),
{
    let n: usize = values.len();
    let ghost f = nan_on(values@);
    let mut count: usize = 0;
    let mut i: usize = 0;
    while i < n
        invariant
            i <= n,
            n == values@.len(),
            f == nan_on(values@),
            count == picks(i as nat, f).len(),
            count <= i,
        decreases n - i,
    {
        if values[i].is_nan() {
            count = count + 1;
        }
        i = i + 1;
    }
    if count > 0 {
        Some(Infeasible::NotANumber { count })
    } else if n != n_objectives {
        Some(Infeasible::WrongCount { values: n, objectives: n_objectives })
    } else {
        None
    }
}

/// A text `n` times, parted by semicolons.
pub open spec fn repeated(text: Seq<char>, n: nat) -> Seq<char>
    decreases n,
{
    if n == 0 {
        Seq::empty()
    } else if n == 1 {
        text
    } else {
        repeated(text, (n - 1) as nat) + "; "@ + text
    }
}

impl Infeasible {
    pub open spec fn told(self) -> Seq<char> {
        match self {
            Infeasible::NotANumber { count } => repeated("The value NaN is not acceptable"@, count as nat),
            Infeasible::WrongCount { values, objectives } => "The number of the values "@ + decimal(values as nat)
                + " did not match the number of the objectives "@ + decimal(objectives as nat),
        }
    }

    /// The reason in words.
    pub fn message(self) -> (r: String)
        ensures
            r@ == self.told(),
    {
        match self {
            Infeasible::NotANumber { count } => repeat_text("The value NaN is not acceptable", count),
            Infeasible::WrongCount { values, objectives } => {
                let mut r = joined("The number of the values ", decimal_text(values as u64).as_str());
                r.append(" did not match the number of the objectives ");
                r.append(decimal_text(objectives as u64).as_str());
                r
            }
        }
    }
}

fn repeat_text(text: &str, n: usize) -> (r: String)
    ensures
        r@ == repeated(text@, n as nat),
{
    if n == 0 {
        let r = String::new();
        return r;
    }
    let mut r = text.to_owned();
    let mut i: usize = 1;
    while i < n
        invariant
            1 <= i <= n,
            r@ == repeated(text@, i as nat),
        decreases n - i,
    {
        r.append("; ");
        r.append(text);
        i = i + 1;
    }
    r
}

/// Why a request is refused.
#[derive(Clone, Copy, Debug, PartialEq, Eq, Structural)]
pub enum Refusal {
    /// Neither a state nor values.
    NothingTold,
    TellRunning,
    TellWaiting,
    /// A complete trial without values.
    MissingValues,
    ValueAndValues,
    DirectionAndDirections,
    InvalidDirection,
    MissingChoices,
    UnknownChoice,
    Infeasible(Infeasible),
}

/// What a trial is told.
pub struct Told {
    pub state_values: TrialStateValues,
    /// What the user is warned of.
    pub warning: Option<Infeasible>,
}

/// What values without a state stand for: a trial with infeasible values has failed.
pub open spec fn judged(values: Seq<Float>, n_objectives: usize) -> Outcome {
    if infeasible(values, n_objectives) is Some {
        Outcome::Fail
    } else {
        Outcome::Complete(values)
    }
}

fn judge_values(values: Vec<Float>, n_objectives: usize) -> (r: Told)
    ensures
        r.state_values@ == judged(values@, n_objectives),
        r.warning == infeasible(values@, n_objectives),
{
    match values_infeasible_reason(&values, n_objectives) {
        Some(reason) => Told { state_values: TrialStateValues::Fail, warning: Some(reason) },
        None => Told { state_values: TrialStateValues::Complete(values), warning: None },
    }
}

/// Decides what a trial is told from a state, values or both.
///
/// Infeasible values are refused with the state `Complete`; without a state they make the
/// trial fail, with a warning.
pub fn resolve_tell(state: Option<TrialState>, values: Option<Vec<Float>>, n_objectives: usize) -> (r: core::result::Result<Told, Refusal>)
    ensures
        match state {
            None => match values {
                None => r is Err && r->Err_0 == Refusal::NothingTold,
                Some(v) => r is Ok && r->Ok_0.state_values@ == judged(v@, n_objectives) && r->Ok_0.warning == infeasible(v@, n_objectives),
            },
            Some(s) => match s {
                TrialState::Running => r is Err && r->Err_0 == Refusal::TellRunning,
                TrialState::Waiting => r is Err && r->Err_0 == Refusal::TellWaiting,
                TrialState::Fail => r is Ok && r->Ok_0.state_values@ == Outcome::Fail && r->Ok_0.warning is None,
                TrialState::Pruned => r is Ok && r->Ok_0.state_values@ == Outcome::Pruned && r->Ok_0.warning is None,
                TrialState::Complete => match values {
                    None => r is Err && r->Err_0 == Refusal::MissingValues,
                    Some(v) => match infeasible(v@, n_objectives) {
                        Some(reason) => r is Err && r->Err_0 == Refusal::Infeasible(reason),
                        None => r is Ok && r->Ok_0.state_values@ == Outcome::Complete(v@) && r->Ok_0.warning is None,
                    },
                },
            },
        },
{
    match state {
        None => match values {
            None => Err(Refusal::NothingTold),
            Some(v) => Ok(judge_values(v, n_objectives)),
        },
        Some(TrialState::Running) => Err(Refusal::TellRunning),
        Some(TrialState::Waiting) => Err(Refusal::TellWaiting),
        Some(TrialState::Fail) => Ok(Told { state_values: TrialStateValues::Fail, warning: None }),
        Some(TrialState::Pruned) => Ok(Told { state_values: TrialStateValues::Pruned, warning: None }),
        Some(TrialState::Complete) => match values {
            None => Err(Refusal::MissingValues),
            Some(v) => match values_infeasible_reason(&v, n_objectives) {
                Some(reason) => Err(Refusal::Infeasible(reason)),
                None => Ok(Told { state_values: TrialStateValues::Complete(v), warning: None }),
            },
        },
    }
}

/// What became of a call of the objective.
pub enum ObjectiveReply {
    Values(Vec<Float>),
    /// The trial asked to be pruned.
    Pruned,
    /// Another exception was raised, one to be caught or not.
    Raised { caught: bool },
}

/// What a trial is told after its objective was called, and whether the exception goes on.
pub fn conclude(reply: ObjectiveReply, n_objectives: usize) -> (r: (Told, bool))
    ensures
        match reply {
            ObjectiveReply::Values(v) => r.0.state_values@ == judged(v@, n_objectives) && r.0.warning == infeasible(v@, n_objectives) && !r.1,
            ObjectiveReply::Pruned => r.0.state_values@ == Outcome::Pruned && r.0.warning is None && !r.1,
            ObjectiveReply::Raised { caught } => r.0.state_values@ == Outcome::Fail && r.0.warning is None && r.1 == !caught,
        },
{
    match reply {
        ObjectiveReply::Values(v) => (judge_values(v, n_objectives), false),
        ObjectiveReply::Pruned => (Told { state_values: TrialStateValues::Pruned, warning: None }, false),
        ObjectiveReply::Raised { caught } => (Told { state_values: TrialStateValues::Fail, warning: None }, !caught),
    }
}

/// The values of a trial given as one value, as several or not at all.
pub open spec fn given_values(value: Option<Float>, values: Option<Vec<Float>>) -> Option<Seq<Float>> {
    match value {
        Some(v) => Some(seq![v]),
        None => match values {
            Some(v) => Some(v@),
            None => None,
        },
    }
}

/// The state of a trial with its values, which only a complete trial has.
pub fn state_values_from_py(state: TrialState, value: Option<Float>, values: Option<Vec<Float>>) -> (r: core::result::Result<TrialStateValues, Refusal>)
    ensures
        if value is Some && values is Some {
            r is Err && r->Err_0 == Refusal::ValueAndValues
        } else if state == TrialState::Complete && given_values(value, values) is None {
            r is Err && r->Err_0 == Refusal::MissingValues
        } else {
            &&& r is Ok
            &&& r->Ok_0@ == match state {
                TrialState::Running => Outcome::Running,
                TrialState::Complete => Outcome::Complete(given_values(value, values)->Some_0),
                TrialState::Pruned => Outcome::Pruned,
                TrialState::Fail => Outcome::Fail,
                TrialState::Waiting => Outcome::Waiting,
            }
        },
{
    if value.is_some() && values.is_some() {
        return Err(Refusal::ValueAndValues);
    }
    match state {
        TrialState::Running => Ok(TrialStateValues::Running),
        TrialState::Pruned => Ok(TrialStateValues::Pruned),
        TrialState::Fail => Ok(TrialStateValues::Fail),
        TrialState::Waiting => Ok(TrialStateValues::Waiting),
        TrialState::Complete => match value {
            Some(v) => {
                let one: Vec<Float> = vec![v];
                assert(one@ =~= seq![v]);
                Ok(TrialStateValues::Complete(one))
            }
            None => match values {
                Some(v) => Ok(TrialStateValues::Complete(v)),
                None => Err(Refusal::MissingValues),
            },
        },
    }
}

/// When a trial created now has started and ended.
pub fn creation_times(state: TrialState, now: String) -> (r: (Option<String>, Option<String>))
    ensures
        state == TrialState::Waiting ==> r.0 is None && r.1 is None,
        state != TrialState::Waiting ==> r.0 is Some && r.0->Some_0@ == now@,
        state == TrialState::Running ==> r.1 is None,
        state.ended() ==> r.1 is Some && r.1->Some_0@ == now@,
{
    match state {
        TrialState::Waiting => (None, None),
        TrialState::Running => (Some(now), None),
        _ => {
            let end = now.duplicate();
            (Some(now), Some(end))
        }
    }
}

/// The number that a choice of a categorical parameter is kept as: its position.
pub fn categorical_param(label: &CategoryLabel, choices: Option<&Vec<CategoryLabel>>) -> (r: core::result::Result<Float, Refusal>)
    ensures
        match choices {
            None => r is Err && r->Err_0 == Refusal::MissingChoices,
            Some(c) => match label_position(label_views(c@), label@) {
                Some(i) => r is Ok && r->Ok_0 == of_nat(i as nat),
                None => r is Err && r->Err_0 == Refusal::UnknownChoice,
            },
        },
{
    match choices {
        None => Err(Refusal::MissingChoices),
        Some(c) => match position_of_label(c, label) {
            Some(i) => Ok(Float::from_u64(i as u64)),
            None => Err(Refusal::UnknownChoice),
        },
    }
}

/// A direction as it was given.
pub enum DirectionInput {
    Known(Direction),
    Text(String),
    Other,
}

impl DirectionInput {
    pub open spec fn meant(self) -> Option<Direction> {
        match self {
            DirectionInput::Known(d) => Some(d),
            DirectionInput::Text(t) => if t@ == "minimize"@ {
                Some(Direction::Minimize)
            } else if t@ == "maximize"@ {
                Some(Direction::Maximize)
            } else {
                None
            },
            DirectionInput::Other => None,
        }
    }
}

pub fn convert_direction(direction: &DirectionInput) -> (r: core::result::Result<Direction, Refusal>)
    ensures
        match direction.meant() {
            Some(d) => r is Ok && r->Ok_0 == d,
            None => r is Err && r->Err_0 == Refusal::InvalidDirection,
        },
{
    match direction {
        DirectionInput::Known(d) => Ok(*d),
        DirectionInput::Text(t) => {
            if texts_equal(t.as_str(), "minimize") {
                Ok(Direction::Minimize)
            } else if texts_equal(t.as_str(), "maximize") {
                Ok(Direction::Maximize)
            } else {
                Err(Refusal::InvalidDirection)
            }
        }
        DirectionInput::Other => Err(Refusal::InvalidDirection),
    }
}

pub open spec fn all_meant(directions: Seq<DirectionInput>) -> bool {
    forall|i: int| 0 <= i < directions.len() ==> (#[trigger] directions[i]).meant() is Some
}

fn convert_all(directions: &Vec<DirectionInput>) -> (r: core::result::Result<Vec<Direction>, Refusal>)
    ensures
        if all_meant(directions@) {
            r is Ok && r->Ok_0@ == Seq::new(directions@.len(), |i: int| directions@[i].meant()->Some_0)
        } else {
            r is Err && r->Err_0 == Refusal::InvalidDirection
        },
{
    let mut out: Vec<Direction> = Vec::new();
    let mut i: usize = 0;
    while i < directions.len()
        invariant
            i <= directions@.len(),
            out@.len() == i,
            forall|j: int| 0 <= j < i ==> (#[trigger] directions@[j]).meant() == Some(out@[j]),
        decreases directions@.len() - i,
    {
        match convert_direction(&directions[i]) {
            Ok(d) => {
                out.push(d);
            }
            Err(e) => {
                assert(directions@[i as int].meant() is None);
                return Err(e);
            }
        }
        i = i + 1;
    }
    assert(out@ =~= Seq::new(directions@.len(), |i: int| directions@[i].meant()->Some_0));
    Ok(out)
}

/// The directions of a study given as one direction, as several or, to minimize one
/// objective, not at all.
pub fn convert_directions(direction: Option<DirectionInput>, directions: Option<Vec<DirectionInput>>) -> (r: core::result::Result<Vec<Direction>, Refusal>)
    ensures
        direction is Some && directions is Some ==> r is Err && r->Err_0 == Refusal::DirectionAndDirections,
        direction is Some && directions is None ==> match direction->Some_0.meant() {
            Some(d) => r is Ok && r->Ok_0@ == seq![d],
            None => r is Err && r->Err_0 == Refusal::InvalidDirection,
        },
        direction is None && directions is Some ==> if all_meant(directions->Some_0@) {
            r is Ok && r->Ok_0@ == Seq::new(directions->Some_0@.len(), |i: int| directions->Some_0@[i].meant()->Some_0)
        } else {
            r is Err && r->Err_0 == Refusal::InvalidDirection
        },
        direction is None && directions is None ==> r is Ok && r->Ok_0@ == seq![Direction::Minimize],
{
    match (direction, directions) {
        (Some(_), Some(_)) => Err(Refusal::DirectionAndDirections),
        (Some(d), None) => match convert_direction(&d) {
            Ok(d) => {
                let one: Vec<Direction> = vec![d];
                assert(one@ =~= seq![d]);
                Ok(one)
            }
            Err(e) => Err(e),
        },
        (None, Some(ds)) => convert_all(&ds),
        (None, None) => {
            let one: Vec<Direction> = vec![Direction::Minimize];
            assert(one@ =~= seq![Direction::Minimize]);
            Ok(one)
        }
    }
}

pub open spec fn chosen_on(trials: Seq<Option<TrialRecord>>, states: Option<Seq<TrialState>>) -> spec_fn(int) -> bool {
    |i: int| trials[i] is Some && asked_for(states, trials[i]->Some_0.outcome.state())
}

pub open spec fn states_asked(states: Option<&Vec<TrialState>>) -> Option<Seq<TrialState>> {
    match states {
        Some(s) => Some(s@),
        None => None,
    }
}

/// The numbers of the trials, discarded ones left out, that are in one of the states.
pub fn select_trials(trials: &Vec<Option<PersistedTrial>>, states: Option<&Vec<TrialState>>) -> (r: Vec<usize>)
    ensures
        ints(r@) == picks(trials@.len(), chosen_on(trial_records(trials@), states_asked(states))),
{
    let ghost records = trial_records(trials@);
    let ghost f = chosen_on(records, states_asked(states));
    let mut r: Vec<usize> = Vec::new();
    let mut i: usize = 0;
    while i < trials.len()
        invariant
            i <= trials@.len(),
            records == trial_records(trials@),
            f == chosen_on(records, states_asked(states)),
            ints(r@) == picks(i as nat, f),
        decreases trials@.len() - i,
    {
        assert(records[i as int] == slot_view(trials@[i as int]));
        let ghost before = r@;
        let keep = match &trials[i] {
            None => false,
            Some(trial) => match states {
                None => true,
                Some(s) => holds_state(s, trial.state_values.state()),
            },
        };
        if keep {
            r.push(i);
            assert(ints(r@) =~= ints(before).push(i as int));
        }
        i = i + 1;
    }
    r
}

fn holds_state(states: &Vec<TrialState>, state: TrialState) -> (r: bool)
    ensures
        r == states@.contains(state),
{
    let mut i: usize = 0;
    while i < states.len()
        invariant
            i <= states@.len(),
            forall|j: int| 0 <= j < i ==> #[trigger] states@[j] != state,
        decreases states@.len() - i,
    {
        if states[i] == state {
            assert(states@[i as int] == state);
            return true;
        }
        i = i + 1;
    }
    false
}

/// Texts by name as system attributes.
pub open spec fn as_system_attrs(texts: Map<Seq<char>, Seq<char>>) -> Map<AttrName, Seq<char>> {
    Map::new(
        |key: AttrName| key is System && texts.contains_key(key->System_0),
        |key: AttrName| texts[key->System_0],
    )
}

/// The system attributes among all attributes.
pub open spec fn system_part(attrs: Map<AttrName, Seq<char>>) -> Map<Seq<char>, Seq<char>> {
    Map::new(|name: Seq<char>| attrs.contains_key(AttrName::System(name)), |name: Seq<char>| attrs[AttrName::System(name)])
}

/// The attributes of a trial, from those of the user and of the system.
pub fn build_trial_attrs(user_attrs: &KeyMap<String, String>, system_attrs: &KeyMap<String, String>) -> (attrs: Attrs)
    ensures
        attrs@ == as_user_attrs(user_attrs@).union_prefer_right(as_system_attrs(system_attrs@)),
{
    let mut attrs = user_attrs_to_attrs(user_attrs);
    let ghost users = as_user_attrs(user_attrs@);
    let n: usize = system_attrs.len();
    let ghost keys = system_attrs.keys();
    let mut i: usize = 0;
    while i < n
        invariant
            i <= n,
            keys == system_attrs.keys(),
            n == keys.len(),
            keys.to_set() == system_attrs@.dom(),
            users == as_user_attrs(user_attrs@),
            forall|key: AttrName| #[trigger] attrs@.contains_key(key) ==> if key is System {
                system_attrs@.contains_key(key->System_0) && attrs@[key] == system_attrs@[key->System_0]
            } else {
                users.contains_key(key) && attrs@[key] == users[key]
            },
            forall|key: AttrName| #[trigger] users.contains_key(key) ==> attrs@.contains_key(key),
            forall|j: int| 0 <= j < i ==> attrs@.contains_key(AttrName::System(#[trigger] keys[j])),
        decreases n - i,
    {
        let e = system_attrs.entry(i);
        attrs.insert(AttrKey::System(e.0.duplicate()), e.1.duplicate());
        i = i + 1;
    }
    proof {
        let goal = users.union_prefer_right(as_system_attrs(system_attrs@));
        assert forall|key: AttrName| goal.contains_key(key) implies attrs@.contains_key(key) by {
            if key is System {
                assert(keys.to_set().contains(key->System_0));
                let j = choose|j: int| 0 <= j < keys.len() && keys[j] == key->System_0;
                assert(attrs@.contains_key(AttrName::System(keys[j])));
            } else {
                assert(users.contains_key(key));
            }
        }
        assert(attrs@ =~= goal);
    }
    attrs
}

/// The system attributes among all attributes, by name.
pub fn system_attrs_of(attrs: &Attrs) -> (texts: KeyMap<String, String>)
    ensures
        texts@ == system_part(attrs@),
{
    let n: usize = attrs.len();
    let ghost keys = attrs.keys();
    let mut texts: KeyMap<String, String> = KeyMap::new();
    let mut i: usize = 0;
    while i < n
        invariant
            i <= n,
            keys == attrs.keys(),
            n == keys.len(),
            keys.to_set() == attrs@.dom(),
            forall|name: Seq<char>| #[trigger] texts@.contains_key(name) ==> attrs@.contains_key(AttrName::System(name))
                && texts@[name] == attrs@[AttrName::System(name)],
            forall|j: int| 0 <= j < i && #[trigger] keys[j] is System ==> texts@.contains_key(keys[j]->System_0),
        decreases n - i,
    {
        let e = attrs.entry(i);
        match e.0 {
            AttrKey::System(name) => {
                texts.insert(name.duplicate(), e.1.duplicate());
            }
            AttrKey::User(_) => {}
        }
        i = i + 1;
    }
    proof {
        let goal = system_part(attrs@);
        assert forall|name: Seq<char>| goal.contains_key(name) implies texts@.contains_key(name) by {
            assert(keys.to_set().contains(AttrName::System(name)));
            let j = choose|j: int| 0 <= j < keys.len() && keys[j] == AttrName::System(name);
            assert(keys[j] is System);
        }
        assert(texts@ =~= goal);
    }
    texts
}

/// Attributes that are built from user and system texts part into the same texts again.
pub proof fn law_attrs_part_again(user: Map<Seq<char>, Seq<char>>, system: Map<Seq<char>, Seq<char>>)
    ensures
        crate::trial::user_part(as_user_attrs(user).union_prefer_right(as_system_attrs(system))) == user,
        system_part(as_user_attrs(user).union_prefer_right(as_system_attrs(system))) == system,
{
    let attrs = as_user_attrs(user).union_prefer_right(as_system_attrs(system));
    assert(crate::trial::user_part(attrs) =~= user);
    assert(system_part(attrs) =~= system);
}

/// Creates a study, named `default` unless told otherwise; with `load_if_exists` one of
/// that name is loaded instead.
pub fn create_or_load_study(
    study_name: Option<String>,
    storage: &mut InMemoryStorage,
    directions: Vec<Direction>,
    load_if_exists: bool,
) -> (r: Result<Study>)
    requires
        old(storage).wf(),
        old(storage)@.next_study_id < u32::MAX,
    ensures
        final(storage).wf(),
        ({
            let name = match study_name {
                Some(n) => n@,
                None => "default"@,
            };
            let before = old(storage)@;
            if !before.has_name(name) {
                &&& r is Ok
                &&& r->Ok_0.id == before.next_study_id
                &&& r->Ok_0.name@ == name
                &&& r->Ok_0.directions@ == directions@
                &&& final(storage)@ == before.with_new_study(before.next_study_id, name, directions@)
            } else if !load_if_exists {
                fails(r, ErrorKind::DuplicatedStudy) && final(storage)@ == before
            } else {
                &&& r is Ok
                &&& before.has_study(r->Ok_0.id)
                &&& before.study(r->Ok_0.id).name == name
                &&& r->Ok_0.name@ == name
                &&& r->Ok_0.directions@ == before.study(r->Ok_0.id).directions
                &&& final(storage)@ == before
            }
        }),
{
    let name = match study_name {
        Some(n) => n,
        None => "default".to_owned(),
    };
    match create_study(name.as_str(), storage, directions) {
        Ok(study) => Ok(study),
        Err(e) => {
            if load_if_exists {
                Study::from_name(name, storage)
            } else {
                Err(e)
            }
        }
    }
}

/// A study that is to be copied.
pub struct StudyCopy {
    pub directions: Vec<Direction>,
    pub attrs: Attrs,
    /// The trials by number; discarded ones are absent.
    pub trials: Vec<Option<PersistedTrial>>,
}

/// Reads a study that is to be copied.
pub fn read_study(storage: &InMemoryStorage, study_name: &str) -> (r: Result<StudyCopy>)
    requires
        storage.wf(),
    ensures
        !storage@.has_name(study_name@) ==> fails(r, ErrorKind::StudyNotFound),
        storage@.has_name(study_name@) ==> r is Ok && exists|id: u32| {
            &&& #[trigger] storage@.has_study(id)
            &&& storage@.study(id).name == study_name@
            &&& r->Ok_0.directions@ == storage@.study(id).directions
            &&& r->Ok_0.attrs@ == storage@.study(id).attrs
            &&& trial_records(r->Ok_0.trials@) == storage@.trials[id]
        },
{
    let id: u32 = match storage.find_study(study_name) {
        None => {
            return Err(Error::new(ErrorKind::StudyNotFound));
        }
        Some(id) => id,
    };
    let study = match storage.get_study(id) {
        Err(e) => {
            return Err(e);
        }
        Ok(study) => study,
    };
    let trials = match storage.get_trials(id) {
        Err(e) => {
            return Err(e);
        }
        Ok(trials) => trials,
    };
    let mut copies: Vec<Option<PersistedTrial>> = Vec::new();
    let mut i: usize = 0;
    while i < trials.len()
        invariant
            i <= trials@.len(),
            copies@.len() == i,
            forall|j: int| 0 <= j < i ==> slot_view(#[trigger] copies@[j]) == slot_view(trials@[j]),
        decreases trials@.len() - i,
    {
        copies.push(
            match &trials[i] {
                Some(t) => Some(t.duplicate()),
                None => None,
            },
        );
        i = i + 1;
    }
    assert(trial_records(copies@) =~= trial_records(trials@));
    assert(storage@.has_study(id));
    Ok(StudyCopy { directions: copy_directions(&study.directions), attrs: study.attrs.duplicate(), trials: copies })
}

/// The storage after the first `n` trials were copied into a study.
pub open spec fn copied_trials(rec: StorageRecord, study_id: u32, trials: Seq<Option<TrialRecord>>, n: nat) -> StorageRecord
    decreases n,
{
    if n == 0 {
        rec
    } else {
        let before = copied_trials(rec, study_id, trials, (n - 1) as nat);
        match trials[n - 1] {
            None => before,
            Some(t) => before.with_new_trial(
                TrialRecord { id: before.next_trial_id, study_id, number: before.trials[study_id].len() as u32, ..t },
            ),
        }
    }
}

/// Writes a copied study under a name that is not taken.
pub fn write_study(storage: &mut InMemoryStorage, study_name: &str, copy: &StudyCopy) -> (r: Result<()>)
    requires
        old(storage).wf(),
        old(storage)@.next_study_id < u32::MAX,
        old(storage)@.next_trial_id + copy.trials@.len() <= u32::MAX,
    ensures
        final(storage).wf(),
        ({
            let before = old(storage)@;
            let id = before.next_study_id;
            if before.has_name(study_name@) {
                fails(r, ErrorKind::DuplicatedStudy) && final(storage)@ == before
            } else {
                &&& r is Ok
                &&& final(storage)@ == copied_trials(
                    before.with_new_study(id, study_name@, copy.directions@).with_study_attrs(id, copy.attrs@),
                    id,
                    trial_records(copy.trials@),
                    copy.trials@.len(),
                )
            }
        }),
{
    let ghost before = storage@;
    proof {
        storage.lemma_wf();
    }
    let study_id: u32 = match storage.create_new_study(study_name, copy_directions(&copy.directions)) {
        Err(e) => {
            return Err(e);
        }
        Ok(study) => study.id,
    };
    let ghost made = before.with_new_study(study_id, study_name@, copy.directions@);
    let ghost start = made.with_study_attrs(study_id, copy.attrs@);
    proof {
        lemma_new_study(before, study_name@, copy.directions@);
    }
    if copy.attrs.len() > 0 {
        match storage.set_study_attrs(study_id, &copy.attrs, false) {
            Err(e) => {
                return Err(e);
            }
            Ok(_) => {}
        }
        assert(Map::<AttrName, Seq<char>>::empty().union_prefer_right(copy.attrs@) =~= copy.attrs@);
        assert(storage@ == start);
    } else {
        proof {
            assert(copy.attrs@ =~= Map::<AttrName, Seq<char>>::empty());
            assert(start.studies =~= made.studies);
            assert(storage@ == start);
        }
    }
    proof {
        lemma_study_stays(made, study_id, copy.attrs@);
    }
    let ghost records = trial_records(copy.trials@);
    let mut i: usize = 0;
    while i < copy.trials.len()
        invariant
            i <= copy.trials@.len(),
            records == trial_records(copy.trials@),
            storage.wf(),
            storage@ == copied_trials(start, study_id, records, i as nat),
            storage@.has_study(study_id),
            storage@.next_trial_id <= before.next_trial_id + i,
            before.next_trial_id + copy.trials@.len() <= u32::MAX,
        decreases copy.trials@.len() - i,
    {
        assert(records[i as int] == slot_view(copy.trials@[i as int]));
        let ghost here = storage@;
        match &copy.trials[i] {
            None => {}
            Some(trial) => match storage.create_new_trial_from_template(study_id, trial) {
                Err(e) => {
                    return Err(e);
                }
                Ok(_) => {}
            },
        }
        assert(storage@.studies == here.studies);
        assert(storage@.has_study(study_id)) by {
            crate::storage::lemma_same_studies(here, storage@, study_id);
        }
        i = i + 1;
    }
    Ok(())
}

proof fn lemma_new_study(rec: StorageRecord, name: Seq<char>, directions: Seq<Direction>)
    requires
        rec.wf(),
    ensures
        ({
            let made = rec.with_new_study(rec.next_study_id, name, directions);
            made.has_study(rec.next_study_id) && made.study(rec.next_study_id).attrs == Map::<AttrName, Seq<char>>::empty()
        }),
{
    let made = rec.with_new_study(rec.next_study_id, name, directions);
    let last = made.studies.len() - 1;
    assert(made.studies[last].id == rec.next_study_id);
    let i = made.study_index(rec.next_study_id);
    assert(made.studies[i].id == rec.next_study_id);
    if i < last {
        assert(rec.studies[i].id == rec.next_study_id);
        assert(rec.has_study(rec.next_study_id));
    }
}

/// A copied study holds the live trials of its source, in order and with nothing changed
/// but their ids and numbers.
pub proof fn law_copy_keeps_trials(rec: StorageRecord, study_id: u32, trials: Seq<Option<TrialRecord>>, n: nat, k: int)
    requires
        rec.trials.contains_key(study_id),
        rec.next_trial_id + n <= u32::MAX,
        n <= trials.len(),
        0 <= k < live_records(trials, n).len(),
    ensures
        ({
            let base = rec.trials[study_id].len();
            let copied = copied_trials(rec, study_id, trials, n).trials[study_id];
            &&& copied.len() == base + live_records(trials, n).len()
            &&& copied[base + k] == Some(
                TrialRecord { id: (rec.next_trial_id + k) as u32, study_id, number: (base + k) as u32, ..live_records(trials, n)[k] },
            )
        }),
{
    lemma_copied(rec, study_id, trials, n);
}

proof fn lemma_copied(rec: StorageRecord, study_id: u32, trials: Seq<Option<TrialRecord>>, n: nat)
    requires
        rec.trials.contains_key(study_id),
        rec.next_trial_id + n <= u32::MAX,
        n <= trials.len(),
    ensures
        ({
            let base = rec.trials[study_id].len();
            let live = live_records(trials, n);
            let after = copied_trials(rec, study_id, trials, n);
            &&& after.trials.contains_key(study_id)
            &&& live.len() <= n
            &&& after.next_trial_id == rec.next_trial_id + live.len()
            &&& after.trials[study_id].len() == base + live.len()
            &&& forall|k: int| 0 <= k < live.len() ==> after.trials[study_id][base + k] == Some(
                TrialRecord { id: (rec.next_trial_id + k) as u32, study_id, number: (base + k) as u32, ..#[trigger] live[k] },
            )
        }),
    decreases n,
{
    if n > 0 {
        lemma_copied(rec, study_id, trials, (n - 1) as nat);
        let base = rec.trials[study_id].len();
        let live = live_records(trials, n);
        let head = live_records(trials, (n - 1) as nat);
        let after = copied_trials(rec, study_id, trials, n);
        assert forall|k: int| 0 <= k < live.len() implies after.trials[study_id][base + k] == Some(
            TrialRecord { id: (rec.next_trial_id + k) as u32, study_id, number: (base + k) as u32, ..#[trigger] live[k] },
        ) by {
            if k < head.len() {
                assert(head[k] == live[k]);
            }
        }
    }
}

/// Stores the labels of a categorical parameter, or finds the same ones stored already.
/// Other labels are never overwritten.
pub fn ensure_category_labels(
    storage: &mut InMemoryStorage,
    study_id: u32,
    param_name: &str,
    labels: &Vec<CategoryLabel>,
    decimals: &Decimals,
) -> (r: Result<()>)
    requires
        old(storage).wf(),
    ensures
        final(storage).wf(),
        !old(storage)@.has_study(study_id) ==> fails(r, ErrorKind::StudyNotFound) && final(storage)@ == old(storage)@,
        old(storage)@.has_study(study_id) ==> exists|attrs: Attrs, merged: Map<AttrName, Seq<char>>, first: Result<()>| {
            &&& attrs@ == label_attrs(param_name@, labels@, labels@.len())
            &&& #[trigger] crate::storage::attrs_set(old(storage)@.study(study_id).attrs, attrs, true, first, merged)
            &&& final(storage)@ == old(storage)@.with_study_attrs(study_id, merged)
            &&& if first is Ok || same_labels(merged, param_name@, label_views(labels@), decimals@) {
                r is Ok
            } else {
                fails(r, ErrorKind::AttrOverwriteNotAllowed)
            }
        },
{
    let ghost before = storage@;
    proof {
        storage.lemma_wf();
    }
    match storage.set_category_labels(study_id, param_name, labels) {
        Ok(_) => Ok(()),
        Err(e) => {
            if e.kind != ErrorKind::AttrOverwriteNotAllowed {
                return Err(e);
            }
            let ghost after = storage@;
            proof {
                assert(before.has_study(study_id));
                let first: Result<()> = Err(e);
                let (attrs, merged) = choose|attrs: Attrs, merged: Map<AttrName, Seq<char>>|
                    attrs@ == label_attrs(param_name@, labels@, labels@.len())
                    && #[trigger] crate::storage::attrs_set(before.study(study_id).attrs, attrs, true, first, merged)
                    && after == before.with_study_attrs(study_id, merged);
                lemma_study_stays(before, study_id, merged);
                crate::storage::lemma_with_study_attrs(before, study_id, merged);
                assert(crate::storage::attrs_set(before.study(study_id).attrs, attrs, true, first, merged));
            }
            match storage.get_category_labels(study_id, param_name, labels.len(), decimals) {
                Err(e) => Err(e),
                Ok(Some(existing)) => if labels_equal(&existing, labels) {
                    Ok(())
                } else {
                    Err(e)
                },
                Ok(None) => Err(e),
            }
        }
    }
}

pub open spec fn same_labels(attrs: Map<AttrName, Seq<char>>, param_name: Seq<char>, labels: Seq<Label>, decimals: Map<Seq<char>, Float>) -> bool {
    match crate::attr::stored_labels(attrs, param_name, labels.len(), decimals) {
        Some(stored) => stored.len() == labels.len() && forall|i: int| 0 <= i < stored.len() ==> (#[trigger] stored[i]).equals(labels[i]),
        None => false,
    }
}

proof fn lemma_study_stays(rec: StorageRecord, study_id: u32, merged: Map<AttrName, Seq<char>>)
    requires
        rec.has_study(study_id),
    ensures
        rec.with_study_attrs(study_id, merged).has_study(study_id),
{
    let i = rec.study_index(study_id);
    assert(rec.with_study_attrs(study_id, merged).studies[i].id == study_id);
}

fn labels_equal(a: &Vec<CategoryLabel>, b: &Vec<CategoryLabel>) -> (r: bool)
    ensures
        r == (a@.len() == b@.len() && forall|i: int| 0 <= i < a@.len() ==> (#[trigger] label_views(a@)[i]).equals(label_views(b@)[i])),
{
    if a.len() != b.len() {
        return false;
    }
    let ghost x = label_views(a@);
    let ghost y = label_views(b@);
    let mut i: usize = 0;
    while i < a.len()
        invariant
            i <= a@.len(),
            a@.len() == b@.len(),
            x == label_views(a@),
            y == label_views(b@),
            forall|j: int| 0 <= j < i ==> (#[trigger] x[j]).equals(y[j]),
        decreases a@.len() - i,
    {
        assert(x[i as int] == a@[i as int]@ && y[i as int] == b@[i as int]@);
        if !a[i].equals(&b[i]) {
            assert(!label_views(a@)[i as int].equals(label_views(b@)[i as int]));
            return false;
        }
        i = i + 1;
    }
    true
}

/// What is missing is raised as a key error, what does not fit as a value error, and each of the
/// others that has a class of its own as that; everything else is a runtime error.
pub proof fn law_errors_are_raised_by_class(kind: ErrorKind)
    ensures
        raised(kind) is KeyError <==> kind is TrialNotFound || kind is StudyNotFound || kind is AttrNotFound,
        raised(kind) is ValueError <==> kind is IncompatibleDistribution || kind is ImportanceEvaluatorError || kind is InvalidObjectiveValues,
        raised(kind) is TrialDiscarded <==> kind is TrialDiscarded,
        raised(kind) is UpdateFinishedTrialError <==> kind is TrialAlreadyFinished,
        raised(kind) is StorageInternalError <==> kind is StorageError,
        raised(kind) is DuplicatedStudyError <==> kind is DuplicatedStudy,
        raised(kind) is ImportError <==> kind is MissingDependency,
{
}

/// The states are numbered from 0 in the order running, complete, pruned, waiting, failed; the
/// trial has ended in three of them.
pub proof fn law_states_are_numbered(state: TrialState)
    ensures
        0 <= state.number() < 5,
        state.number() == 0 <==> state is Running,
        state.number() == 1 <==> state is Complete,
        state.number() == 2 <==> state is Pruned,
        state.number() == 3 <==> state is Waiting,
        state.number() == 4 <==> state is Fail,
        state.ended() <==> !(state is Running || state is Waiting),
{
}

/// Values are feasible where there is one for each objective and none is NaN. A trial is judged
/// complete with feasible values, and failed with any others.
pub proof fn law_feasible_values_complete_a_trial(values: Seq<Float>, n_objectives: usize)
    requires
        values.len() <= usize::MAX,
    ensures
        infeasible(values, n_objectives) is None <==> values.len() == n_objectives && forall|i: int| 0 <= i < values.len() ==> !(#[trigger] values[i]).nan(),
        infeasible(values, n_objectives) is None ==> judged(values, n_objectives) == Outcome::Complete(values),
        infeasible(values, n_objectives) is Some ==> judged(values, n_objectives) is Fail,
        (exists|i: int| 0 <= i < values.len() && (#[trigger] values[i]).nan()) <==> infeasible(values, n_objectives) is Some && infeasible(
            values,
            n_objectives,
        )->Some_0 is NotANumber,
        infeasible(values, n_objectives) matches Some(Infeasible::WrongCount { values: a, objectives: b }) ==> a == values.len() && b == n_objectives,
{
    let nans = picks(values.len(), nan_on(values));
    crate::multi_objective::split::lemma_picks(values.len(), nan_on(values));
    if nans.len() > 0 {
        let i = nans[0];
        assert(nan_on(values)(i));
        assert(values[i].nan());
    }
    if exists|i: int| 0 <= i < values.len() && (#[trigger] values[i]).nan() {
        let i = choose|i: int| 0 <= i < values.len() && (#[trigger] values[i]).nan();
        assert(nan_on(values)(i));
        assert(nans.contains(i));
    }
}

/// A single value goes before a list of values.
pub proof fn law_single_value_goes_first(value: Float, values: Option<Vec<Float>>)
    ensures
        given_values(Some(value), values) == Some(seq![value]),
        given_values(None, values) is Some <==> values is Some,
        values is Some ==> given_values(None, values) == Some(values->Some_0@),
{
}

/// Trials are selected that were not discarded and are in one of the states, or in any state
/// where none is named.
pub proof fn law_trials_are_selected_by_state(trials: Seq<Option<TrialRecord>>, states: Seq<TrialState>, i: int)
    ensures
        chosen_on(trials, Some(states))(i) <==> trials[i] is Some && states.contains(trials[i]->Some_0.outcome.state()),
        chosen_on(trials, None)(i) <==> trials[i] is Some,
{
}

/// A direction is meant by itself or by its name in small letters, and by no other text.
pub proof fn law_directions_are_meant_by_name(input: DirectionInput, direction: Direction)
    ensures
        input.meant() == Some(direction) <==> input == DirectionInput::Known(direction) || (input is Text && input->Text_0@ == match direction {
            Direction::Minimize => seq!['m', 'i', 'n', 'i', 'm', 'i', 'z', 'e'],
            Direction::Maximize => seq!['m', 'a', 'x', 'i', 'm', 'i', 'z', 'e'],
        }),
{
    reveal_strlit("minimize");
    reveal_strlit("maximize");
    assert("minimize"@ =~= seq!['m', 'i', 'n', 'i', 'm', 'i', 'z', 'e']);
    assert("maximize"@ =~= seq!['m', 'a', 'x', 'i', 'm', 'i', 'z', 'e']);
    assert("minimize"@[1] != "maximize"@[1]);
}

/// The states are titled in capital letters.
pub proof fn law_states_are_titled(state: TrialState)
    ensures
        state is Running <==> state.title() == seq!['R', 'U', 'N', 'N', 'I', 'N', 'G'],
        state is Complete <==> state.title() == seq!['C', 'O', 'M', 'P', 'L', 'E', 'T', 'E'],
        state is Pruned <==> state.title() == seq!['P', 'R', 'U', 'N', 'E', 'D'],
        state is Waiting <==> state.title() == seq!['W', 'A', 'I', 'T', 'I', 'N', 'G'],
        state is Fail <==> state.title() == seq!['F', 'A', 'I', 'L'],
{
    reveal_strlit("RUNNING");
    reveal_strlit("COMPLETE");
    reveal_strlit("PRUNED");
    reveal_strlit("WAITING");
    reveal_strlit("FAIL");
    assert("RUNNING"@ =~= seq!['R', 'U', 'N', 'N', 'I', 'N', 'G']);
    assert("COMPLETE"@ =~= seq!['C', 'O', 'M', 'P', 'L', 'E', 'T', 'E']);
    assert("PRUNED"@ =~= seq!['P', 'R', 'U', 'N', 'E', 'D']);
    assert("WAITING"@ =~= seq!['W', 'A', 'I', 'T', 'I', 'N', 'G']);
    assert("FAIL"@ =~= seq!['F', 'A', 'I', 'L']);
    assert("RUNNING"@[0] != "WAITING"@[0]);
}

/// A text that is repeated stands as often as asked for, with a semicolon and a space between.
pub proof fn law_repetitions_are_parted(text: Seq<char>, n: nat)
    ensures
        repeated(text, 0).len() == 0,
        repeated(text, 1) == text,
        n > 0 ==> repeated(text, n).len() == n * text.len() + (n - 1) * 2,
        n > 0 ==> repeated(text, n + 1) == repeated(text, n) + seq![';', ' '] + text,
    decreases n,
{
    reveal_strlit("; ");
    assert("; "@ =~= seq![';', ' ']);
    if n > 1 {
        law_repetitions_are_parted(text, (n - 1) as nat);
        let m = n - 1;
        let l = text.len() as int;
        assert(m * l + l == n * l) by (nonlinear_arith)
            requires
                m == n - 1,
        ;
    } else {
        assert(1 * text.len() == text.len());
    }
}

/// Of the errors with a reason, those about values, importance and dependencies are told by the
/// reason alone, and a storage error by what it is and the reason.
pub proof fn law_reasons_are_told(error: Error)
    ensures
        error.kind is ImportanceEvaluatorError || error.kind is MissingDependency || error.kind is InvalidObjectiveValues ==> message(error)
            == Some(error.reason@),
        error.kind is StorageError ==> {
            let text = message(error)->Some_0;
            &&& message(error) is Some
            &&& text.len() == 22 + if error.reason@.len() == 0 {
                0
            } else {
                2 + error.reason@.len()
            }
            &&& text.take(22) == "storage internal error"@
            &&& error.reason@.len() > 0 ==> text.skip(24) == error.reason@
        },
        message(error) is None <==> error.kind is AttrOverwriteNotAllowed || error.kind is TrialQueueEmpty || error.kind is NoCompletedTrial
            || error.kind is SamplerError || error.kind is UnsupportedSearchSpace || error.kind is Unexpected,
{
    reveal_strlit("storage internal error");
    reveal_strlit("storage internal error: ");
    if error.kind is StorageError {
        let text = message(error)->Some_0;
        assert(text.take(22) =~= "storage internal error"@);
        if error.reason@.len() > 0 {
            assert(text.skip(24) =~= error.reason@);
        }
    }
}

} // verus!
