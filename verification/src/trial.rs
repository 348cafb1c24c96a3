//! Trials.

use vstd::prelude::*;

use crate::attr::{category_labels_to_attrs, label_attrs, stored_labels, AttrKey, AttrName, Attrs, CategoryLabel, Decimals, Label};
use crate::convert::{full, law_conversion_keeps_the_order, of_int};
use crate::distribution::{Distribution, Space};
use crate::error::{fails, fails_because, Error, ErrorKind, Result};
use crate::float::Float;
use crate::key_map::{Duplicate, KeyMap, Same};
use crate::multi_objective::nds::{clean, row_has_nan};
use crate::multi_objective::split::copy_row;
use crate::storage::{refused, InMemoryStorage, StorageRecord};
use crate::study::Direction;
use crate::study_cache::CacheRecord;
use crate::text::{decimal, decimal_text, joined};

verus! {

/// Trial state together with objective values when available.
#[derive(Debug)]
pub enum TrialStateValues {
    /// Trial is running.
    Running,
    /// Trial was pruned.
    Pruned,
    /// Trial finished successfully with one or more objective values.
    Complete(Vec<Float>),
    /// Trial failed with an error.
    Fail,
    /// Trial is waiting in a queue.
    Waiting,
}

/// State of a trial without its objective values.
#[derive(Clone, Copy, Debug, PartialEq, Eq, Hash, Structural)]
pub enum TrialState {
    /// Trial is running.
    Running,
    /// Trial finished successfully.
    Complete,
    /// Trial was pruned.
    Pruned,
    /// Trial is waiting in a queue.
    Waiting,
    /// Trial failed.
    Fail,
}

/// A trial state by its contents.
pub enum Outcome {
    Running,
    Pruned,
    Complete(Seq<Float>),
    Fail,
    Waiting,
}

impl View for TrialStateValues {
    type V = Outcome;

    open spec fn view(&self) -> Outcome {
        match self {
            TrialStateValues::Running => Outcome::Running,
            TrialStateValues::Pruned => Outcome::Pruned,
            TrialStateValues::Complete(v) => Outcome::Complete(v@),
            TrialStateValues::Fail => Outcome::Fail,
            TrialStateValues::Waiting => Outcome::Waiting,
        }
    }
}

impl Outcome {
    /// The state without objective values.
    pub open spec fn state(self) -> TrialState {
        match self {
            Outcome::Running => TrialState::Running,
            Outcome::Pruned => TrialState::Pruned,
            Outcome::Complete(_) => TrialState::Complete,
            Outcome::Fail => TrialState::Fail,
            Outcome::Waiting => TrialState::Waiting,
        }
    }

    pub open spec fn finished(self) -> bool {
        self is Complete || self is Pruned || self is Fail
    }

    /// Whether two outcomes are equal; values compare as numbers.
    pub open spec fn equals(self, other: Outcome) -> bool {
        match (self, other) {
            (Outcome::Complete(a), Outcome::Complete(b)) => a.len() == b.len() && forall|k: int|
                0 <= k < a.len() ==> (#[trigger] a[k]).same(b[k]),
            (Outcome::Complete(_), _) => false,
            (_, Outcome::Complete(_)) => false,
            _ => self == other,
        }
    }
}

impl Duplicate for TrialStateValues {
    fn duplicate(&self) -> (r: TrialStateValues) {
        match self {
            TrialStateValues::Running => TrialStateValues::Running,
            TrialStateValues::Pruned => TrialStateValues::Pruned,
            TrialStateValues::Complete(v) => TrialStateValues::Complete(copy_row(v)),
            TrialStateValues::Fail => TrialStateValues::Fail,
            TrialStateValues::Waiting => TrialStateValues::Waiting,
        }
    }
}

fn same_numbers(a: &Vec<Float>, b: &Vec<Float>) -> (r: bool)
    ensures
        r == (a@.len() == b@.len() && forall|k: int| 0 <= k < a@.len() ==> (#[trigger] a@[k]).same(b@[k])),
{
    if a.len() != b.len() {
        return false;
    }
    let mut k: usize = 0;
    while k < a.len()
        invariant
            k <= a@.len(),
            a@.len() == b@.len(),
            forall|q: int| 0 <= q < k ==> (#[trigger] a@[q]).same(b@[q]),
        decreases a@.len() - k,
    {
        if !a[k].num_eq(b[k]) {
            assert(!a@[k as int].same(b@[k as int]));
            return false;
        }
        k = k + 1;
    }
    true
}

impl TrialStateValues {
    /// Returns the state without objective values.
    pub fn state(&self) -> (r: TrialState)
        ensures
            r == self@.state(),
    {
        match self {
            TrialStateValues::Running => TrialState::Running,
            TrialStateValues::Complete(_) => TrialState::Complete,
            TrialStateValues::Pruned => TrialState::Pruned,
            TrialStateValues::Waiting => TrialState::Waiting,
            TrialStateValues::Fail => TrialState::Fail,
        }
    }

    /// Whether the state is final.
    pub fn is_finished(&self) -> (r: bool)
        ensures
            r == self@.finished(),
    {
        matches!(self, TrialStateValues::Complete(_) | TrialStateValues::Pruned | TrialStateValues::Fail)
    }

    /// Whether two states are equal; values compare as numbers.
    pub fn equals(&self, other: &TrialStateValues) -> (r: bool)
        ensures
            r == self@.equals(other@),
    {
        match (self, other) {
            (TrialStateValues::Complete(a), TrialStateValues::Complete(b)) => same_numbers(a, b),
            (TrialStateValues::Running, TrialStateValues::Running) => true,
            (TrialStateValues::Pruned, TrialStateValues::Pruned) => true,
            (TrialStateValues::Fail, TrialStateValues::Fail) => true,
            (TrialStateValues::Waiting, TrialStateValues::Waiting) => true,
            _ => false,
        }
    }
}

/// Storage-side representation of a trial.
pub struct PersistedTrial {
    pub id: u32,
    pub study_id: u32,
    pub number: u32,
    pub state_values: TrialStateValues,
    pub internal_params: KeyMap<String, Float>,
    pub distributions: KeyMap<String, Distribution>,
    /// Intermediate values by step.
    pub intermediate_values: KeyMap<u32, Float>,
    /// Named constraint values used by constrained samplers.
    pub constraints: KeyMap<String, Float>,
    pub attrs: Attrs,
    /// When the trial started, as timezone-naive UTC.
    pub datetime_start: Option<String>,
    /// When the trial finished, in the same representation.
    pub datetime_complete: Option<String>,
}

/// A trial by its contents.
pub struct TrialRecord {
    pub id: u32,
    pub study_id: u32,
    pub number: u32,
    pub outcome: Outcome,
    pub params: Map<Seq<char>, Float>,
    pub distributions: Map<Seq<char>, Space>,
    pub intermediate_values: Map<u32, Float>,
    pub constraints: Map<Seq<char>, Float>,
    pub attrs: Map<AttrName, Seq<char>>,
    pub datetime_start: Option<Seq<char>>,
    pub datetime_complete: Option<Seq<char>>,
}

pub open spec fn text_view(text: Option<String>) -> Option<Seq<char>> {
    match text {
        Some(s) => Some(s@),
        None => None,
    }
}

impl View for PersistedTrial {
    type V = TrialRecord;

    open spec fn view(&self) -> TrialRecord {
        TrialRecord {
            id: self.id,
            study_id: self.study_id,
            number: self.number,
            outcome: self.state_values@,
            params: self.internal_params@,
            distributions: self.distributions@,
            intermediate_values: self.intermediate_values@,
            constraints: self.constraints@,
            attrs: self.attrs@,
            datetime_start: text_view(self.datetime_start),
            datetime_complete: text_view(self.datetime_complete),
        }
    }
}

impl TrialRecord {
    /// A new running trial with no parameters or attributes.
    pub open spec fn fresh(id: u32, study_id: u32, number: u32) -> TrialRecord {
        TrialRecord {
            id,
            study_id,
            number,
            outcome: Outcome::Running,
            params: Map::empty(),
            distributions: Map::empty(),
            intermediate_values: Map::empty(),
            constraints: Map::empty(),
            attrs: Map::empty(),
            datetime_start: None,
            datetime_complete: None,
        }
    }

    /// The trial in another state, finished now where the state is final.
    pub open spec fn in_state(self, outcome: Outcome, now: Seq<char>) -> TrialRecord {
        TrialRecord {
            outcome,
            datetime_complete: if outcome.finished() {
                Some(now)
            } else {
                None
            },
            ..self
        }
    }

    /// The trial with the upper bounds of its ranges on whole steps; for float ranges with a
    /// step, `float_highs` says where that is.
    pub open spec fn adjusted_to(self, float_highs: Map<Seq<char>, Float>) -> TrialRecord {
        TrialRecord { distributions: adjusted_spaces(self.distributions, float_highs), ..self }
    }

    /// No objective value is NaN, and the parameters and distributions go together: as
    /// many of the one as of the other, and every parameter in its distribution.
    pub open spec fn valid(self) -> bool {
        &&& self.outcome is Complete ==> clean(self.outcome->Complete_0)
        &&& self.params.dom().len() == self.distributions.dom().len()
        &&& forall|name: Seq<char>| #[trigger] self.params.contains_key(name) ==> self.distributions.contains_key(name)
            && self.distributions[name].holds(self.params[name])
    }
}

/// The result says why a trial is not valid. Of several parameters that are wrong, one is
/// named.
pub open spec fn refused_as<T>(r: Result<T>, trial: TrialRecord) -> bool {
    if trial.outcome is Complete && !clean(trial.outcome->Complete_0) {
        fails_because(r, ErrorKind::StorageError, "values should not contain NaN."@)
    } else if trial.params.dom().len() != trial.distributions.dom().len() {
        fails_because(
            r,
            ErrorKind::StorageError,
            "The number of parameters "@ + decimal(trial.params.dom().len()) + " and distributions "@ + decimal(
                trial.distributions.dom().len(),
            ) + " don't match."@,
        )
    } else {
        exists|name: Seq<char>| #[trigger] trial.params.contains_key(name) && if trial.distributions.contains_key(name) {
            &&& !trial.distributions[name].holds(trial.params[name])
            &&& fails_because(r, ErrorKind::StorageError, "The value of parameter '"@ + name + "' isn't contained in the distribution."@)
        } else {
            fails_because(r, ErrorKind::StorageError, "Parameter '"@ + name + "' is not found in distributions."@)
        }
    }
}

/// The distributions with their upper bounds on whole steps.
pub open spec fn adjusted_spaces(spaces: Map<Seq<char>, Space>, float_highs: Map<Seq<char>, Float>) -> Map<Seq<char>, Space> {
    Map::new(
        |name: Seq<char>| spaces.contains_key(name),
        |name: Seq<char>| spaces[name].adjusted_to(float_highs[name].rank()),
    )
}

/// Every distribution can be adjusted: integer ranges are well-formed, and every float range
/// with a step has its upper bound among `float_highs`.
pub open spec fn adjustable(spaces: Map<Seq<char>, Space>, float_highs: Map<Seq<char>, Float>) -> bool {
    forall|name: Seq<char>| #[trigger] spaces.contains_key(name) ==> spaces[name].wf()
        && (spaces[name].stepped() ==> float_highs.contains_key(name))
}

fn adjust_all(distributions: &KeyMap<String, Distribution>, float_highs: &KeyMap<String, Float>) -> (r: KeyMap<String, Distribution>)
    requires
        adjustable(distributions@, float_highs@),
    ensures
        r@ == adjusted_spaces(distributions@, float_highs@),
{
    let n: usize = distributions.len();
    let ghost keys = distributions.keys();
    let mut r: KeyMap<String, Distribution> = KeyMap::new();
    let mut i: usize = 0;
    while i < n
        invariant
            i <= n,
            keys == distributions.keys(),
            n == keys.len(),
            keys.to_set() == distributions@.dom(),
            adjustable(distributions@, float_highs@),
            forall|name: Seq<char>| #[trigger] r@.contains_key(name) ==> distributions@.contains_key(name)
                && r@[name] == distributions@[name].adjusted_to(float_highs@[name].rank()),
            forall|j: int| 0 <= j < i ==> r@.contains_key(#[trigger] keys[j]),
        decreases n - i,
    {
        let e = distributions.entry(i);
        assert(distributions@.contains_key(keys[i as int]));
        let high: Float = match float_highs.get(e.0) {
            Some(high) => *high,
            None => Float { bits: 0 },
        };
        r.insert(e.0.duplicate(), e.1.adjusted_to(high));
        i = i + 1;
    }
    proof {
        let goal = adjusted_spaces(distributions@, float_highs@);
        assert forall|name: Seq<char>| goal.contains_key(name) implies r@.contains_key(name) by {
            assert(keys.to_set().contains(name));
            let j = choose|j: int| 0 <= j < keys.len() && keys[j] == name;
            assert(r@.contains_key(keys[j]));
        }
        assert(r@ =~= goal);
    }
    r
}

pub fn copy_text(text: &Option<String>) -> (r: Option<String>)
    ensures
        text_view(r) == text_view(*text),
{
    match text {
        Some(s) => Some(s.clone()),
        None => None,
    }
}

impl Duplicate for PersistedTrial {
    fn duplicate(&self) -> (r: PersistedTrial) {
        PersistedTrial {
            id: self.id,
            study_id: self.study_id,
            number: self.number,
            state_values: self.state_values.duplicate(),
            internal_params: self.internal_params.duplicate(),
            distributions: self.distributions.duplicate(),
            intermediate_values: self.intermediate_values.duplicate(),
            constraints: self.constraints.duplicate(),
            attrs: self.attrs.duplicate(),
            datetime_start: copy_text(&self.datetime_start),
            datetime_complete: copy_text(&self.datetime_complete),
        }
    }
}

impl PersistedTrial {
    /// Creates a new running trial with no parameters or attributes.
    pub fn new(id: u32, study_id: u32, number: u32) -> (r: PersistedTrial)
        ensures
            r@ == TrialRecord::fresh(id, study_id, number),
    {
        PersistedTrial {
            id,
            study_id,
            number,
            state_values: TrialStateValues::Running,
            internal_params: KeyMap::new(),
            distributions: KeyMap::new(),
            intermediate_values: KeyMap::new(),
            constraints: KeyMap::new(),
            attrs: KeyMap::new(),
            datetime_start: None,
            datetime_complete: None,
        }
    }

    /// Returns whether the trial is already in a finished state.
    pub fn is_finished(&self) -> (r: bool)
        ensures
            r == self@.outcome.finished(),
    {
        self.state_values.is_finished()
    }

    /// The trial with the upper bounds of its ranges on whole steps. For each float range with
    /// a step, `float_highs` says where that is.
    pub fn adjusted_to(&self, float_highs: &KeyMap<String, Float>) -> (r: PersistedTrial)
        requires
            adjustable(self@.distributions, float_highs@),
        ensures
            r@ == self@.adjusted_to(float_highs@),
    {
        let mut r = self.duplicate();
        r.distributions = adjust_all(&self.distributions, float_highs);
        r
    }

    /// Validates the internal consistency of the persisted trial.
    pub fn validate(&self) -> (r: Result<()>)
        ensures
            r is Ok == self@.valid(),
            r is Err ==> refused_as(r, self@),
    {
        match &self.state_values {
            TrialStateValues::Complete(values) => {
                if row_has_nan(values) {
                    return Err(Error::with_reason(ErrorKind::StorageError, "values should not contain NaN.".to_owned()));
                }
            }
            _ => {}
        }
        let n: usize = self.internal_params.len();
        if n != self.distributions.len() {
            let given = joined("The number of parameters ", decimal_text(n as u64).as_str());
            let and = joined(given.as_str(), " and distributions ");
            let both = joined(and.as_str(), decimal_text(self.distributions.len() as u64).as_str());
            return Err(Error::with_reason(ErrorKind::StorageError, joined(both.as_str(), " don't match.")));
        }
        let ghost keys = self.internal_params.keys();
        let mut i: usize = 0;
        while i < n
            invariant
                i <= n,
                !(self@.outcome is Complete) || clean(self@.outcome->Complete_0),
                self@.params.dom().len() == self@.distributions.dom().len(),
                keys == self.internal_params.keys(),
                n == keys.len(),
                keys.to_set() == self.internal_params@.dom(),
                forall|j: int| 0 <= j < i ==> self.distributions@.contains_key(#[trigger] keys[j])
                    && self.distributions@[keys[j]].holds(self.internal_params@[keys[j]]),
            decreases n - i,
        {
            let e = self.internal_params.entry(i);
            assert(self.internal_params@.contains_key(keys[i as int]));
            match self.distributions.get(e.0) {
                None => {
                    assert(!self@.valid());
                    assert(self@.params.contains_key(e.0@) && !self@.distributions.contains_key(e.0@));
                    let named = joined("Parameter '", e.0.as_str());
                    return Err(Error::with_reason(ErrorKind::StorageError, joined(named.as_str(), "' is not found in distributions.")));
                }
                Some(distribution) => {
                    if !distribution.contains(*e.1) {
                        assert(!self@.valid());
                        assert(self@.params.contains_key(e.0@) && self@.distributions.contains_key(e.0@));
                        let named = joined("The value of parameter '", e.0.as_str());
                        return Err(Error::with_reason(ErrorKind::StorageError, joined(named.as_str(), "' isn't contained in the distribution.")));
                    }
                }
            }
            i = i + 1;
        }
        assert forall|name: Seq<char>| #[trigger] self@.params.contains_key(name) implies self@.distributions.contains_key(name)
            && self@.distributions[name].holds(self@.params[name]) by {
            assert(keys.to_set().contains(name));
            let j = choose|j: int| 0 <= j < keys.len() && keys[j] == name;
            assert(self.distributions@.contains_key(keys[j]));
        }
        Ok(())
    }

    /// Gets constraints on the trial.
    pub fn constraints(&self) -> (r: &KeyMap<String, Float>)
        ensures
            r@ == self@.constraints,
    {
        &self.constraints
    }
}

/// A value that a joint sampler gave for a distribution.
#[derive(Clone, Copy, Debug)]
pub struct JointParam {
    pub distribution: Distribution,
    pub value: Float,
}

impl View for JointParam {
    type V = (Space, Float);

    open spec fn view(&self) -> (Space, Float) {
        (self.distribution@, self.value)
    }
}

/// A trial object used while evaluating an objective function.
pub struct Trial {
    pub id: u32,
    pub study_id: u32,
    pub number: u32,
    pub datetime_start: Option<String>,
    pub datetime_complete: Option<String>,
    pub directions: Vec<Direction>,
    pub joint_params: KeyMap<String, JointParam>,
    pub fixed_params: KeyMap<String, CategoryLabel>,
    pub cached_trial: PersistedTrial,
}

/// Where a suggested value comes from.
#[derive(Clone, Copy, Debug)]
pub enum Source {
    /// The value was fixed when the trial was queued.
    Fixed(Float),
    /// The value was sampled jointly with others.
    Joint(Float),
    /// The value is to be sampled on its own.
    Sampler,
}

/// The position of the first label that equals the given one.
pub open spec fn label_position(labels: Seq<Label>, label: Label) -> Option<int> {
    if exists|i: int| 0 <= i < labels.len() && (#[trigger] labels[i]).equals(label) {
        Some(first_equal(labels, label, 0))
    } else {
        None
    }
}

pub open spec fn first_equal(labels: Seq<Label>, label: Label, from: int) -> int
    decreases labels.len() - from,
{
    if from >= labels.len() || labels[from].equals(label) {
        from
    } else {
        first_equal(labels, label, from + 1)
    }
}

/// What a fixed label is as a number of a numerical distribution.
pub open spec fn fixed_number(label: Label, space: Space) -> Option<Float> {
    match (label, space) {
        (Label::Float(f), Space::Float { .. }) => Some(f),
        (Label::Int(i), Space::Float { .. }) => Some(of_int(i as int)),
        (Label::Int(i), Space::Int { .. }) => Some(of_int(i as int)),
        (Label::Float(f), Space::Int { .. }) => Some(of_int(whole(f))),
        _ => None,
    }
}

/// The integer part within the bounds of `i64`; 0 for NaN.
pub open spec fn whole(f: Float) -> int {
    if f.nan() {
        0
    } else if f.truncated() < i64::MIN {
        i64::MIN as int
    } else if f.truncated() > i64::MAX {
        i64::MAX as int
    } else {
        f.truncated()
    }
}

/// The value that a fixed label stands for, if it is one of the distribution.
pub open spec fn fixed_value(label: Label, space: Space, labels: Option<Seq<Label>>) -> Option<Float> {
    match space {
        Space::Categorical { .. } => match labels {
            Some(l) => match label_position(l, label) {
                Some(i) => Some(of_int(i)),
                None => None,
            },
            None => None,
        },
        _ => match fixed_number(label, space) {
            Some(v) => if space.holds(v) {
                Some(v)
            } else {
                None
            },
            None => None,
        },
    }
}

pub fn position_of_label(labels: &Vec<CategoryLabel>, label: &CategoryLabel) -> (r: Option<usize>)
    ensures
        match r {
            Some(i) => label_position(crate::attr::label_views(labels@), label@) == Some(i as int),
            None => label_position(crate::attr::label_views(labels@), label@) is None,
        },
{
    let ghost views = crate::attr::label_views(labels@);
    let mut i: usize = 0;
    while i < labels.len()
        invariant
            i <= labels@.len(),
            views == crate::attr::label_views(labels@),
            forall|j: int| 0 <= j < i ==> !(#[trigger] views[j]).equals(label@),
            first_equal(views, label@, 0) == first_equal(views, label@, i as int),
        decreases labels@.len() - i,
    {
        assert(views[i as int] == labels@[i as int]@);
        if labels[i].equals(label) {
            return Some(i);
        }
        i = i + 1;
    }
    None
}

/// What a trial that records a parameter leaves in the storage.
pub open spec fn param_recorded(before: StorageRecord, trial_id: u32, name: Seq<char>, space: Space, value: Float) -> StorageRecord {
    let s = before.ids[trial_id].0;
    let trial = before.slot(trial_id)->Some_0;
    StorageRecord {
        caches: before.caches.insert(
            s,
            CacheRecord { param_distribution: before.cache(s).param_distribution.insert(name, space), ..before.cache(s) },
        ),
        ..before.with_slot(
            trial_id,
            Some(
                TrialRecord {
                    distributions: trial.distributions.insert(name, space),
                    params: trial.params.insert(name, value),
                    ..trial
                },
            ),
        )
    }
}

/// Why a parameter cannot be recorded, if it cannot.
pub open spec fn param_refused(before: StorageRecord, trial_id: u32, name: Seq<char>, space: Space) -> Option<ErrorKind> {
    let known = before.cache(before.ids[trial_id].0).param_distribution;
    if before.unchangeable(trial_id) is Some {
        before.unchangeable(trial_id)
    } else if known.contains_key(name) && !known[name].compatible(space) {
        Some(ErrorKind::IncompatibleDistribution)
    } else {
        None
    }
}

impl Trial {
    /// Constructs a trial from storage and sampler state.
    pub fn new(
        trial_id: u32,
        study_id: u32,
        number: u32,
        datetime_start: Option<String>,
        datetime_complete: Option<String>,
        directions: Vec<Direction>,
        joint_params: KeyMap<String, JointParam>,
        fixed_params: KeyMap<String, CategoryLabel>,
    ) -> (r: Trial)
        ensures
            r.id == trial_id,
            r.study_id == study_id,
            r.number == number,
            r.datetime_start == datetime_start,
            r.datetime_complete == datetime_complete,
            r.directions@ == directions@,
            r.joint_params@ == joint_params@,
            r.fixed_params@ == fixed_params@,
            r.cached_trial@ == (TrialRecord {
                datetime_start: text_view(datetime_start),
                datetime_complete: text_view(datetime_complete),
                ..TrialRecord::fresh(trial_id, study_id, number)
            }),
    {
        let mut cached_trial = PersistedTrial::new(trial_id, study_id, number);
        cached_trial.datetime_start = copy_text(&datetime_start);
        cached_trial.datetime_complete = copy_text(&datetime_complete);
        Trial {
            id: trial_id,
            study_id,
            number,
            datetime_start,
            datetime_complete,
            directions,
            joint_params,
            fixed_params,
            cached_trial,
        }
    }

    /// The labels that a categorical parameter is known by.
    pub open spec fn labels(self, before: StorageRecord, name: Seq<char>, space: Space, decimals: Map<Seq<char>, Float>) -> Option<Seq<Label>> {
        match space {
            Space::Categorical { cardinality } => stored_labels(before.study(self.study_id).attrs, name, cardinality, decimals),
            _ => None,
        }
    }

    /// Where the value of a parameter comes from: from the queue where a fixed value fits
    /// the distribution, else from the joint sample where that was made for the same
    /// distribution, else from the sampler.
    pub open spec fn source(self, before: StorageRecord, name: Seq<char>, space: Space, decimals: Map<Seq<char>, Float>) -> Source {
        let fixed = if self.fixed_params@.contains_key(name) {
            fixed_value(self.fixed_params@[name], space, self.labels(before, name, space, decimals))
        } else {
            None
        };
        match fixed {
            Some(v) => Source::Fixed(v),
            None => if self.joint_params@.contains_key(name) && self.joint_params@[name].0 == space {
                Source::Joint(self.joint_params@[name].1)
            } else {
                Source::Sampler
            },
        }
    }

    /// The trial's study has to be there for the labels of a fixed categorical value.
    pub open spec fn labels_missing(self, before: StorageRecord, name: Seq<char>, space: Space) -> bool {
        self.fixed_params@.contains_key(name) && space is Categorical && !before.has_study(self.study_id)
    }

    /// Everything but the cached parameters stays.
    pub open spec fn same_but_params(self, other: Trial) -> bool {
        &&& self.id == other.id
        &&& self.study_id == other.study_id
        &&& self.number == other.number
        &&& self.datetime_start == other.datetime_start
        &&& self.datetime_complete == other.datetime_complete
        &&& self.directions == other.directions
        &&& self.joint_params == other.joint_params
        &&& self.fixed_params == other.fixed_params
    }

    /// Decides where the value of a parameter comes from.
    pub fn decide(&self, storage: &InMemoryStorage, name: &str, distribution: &Distribution, decimals: &Decimals) -> (r: Result<Source>)
        requires
            storage.wf(),
        ensures
            self.labels_missing(storage@, name@, distribution@) ==> fails(r, ErrorKind::StudyNotFound),
            !self.labels_missing(storage@, name@, distribution@) ==> r is Ok && r->Ok_0 == self.source(
                storage@,
                name@,
                distribution@,
                decimals@,
            ),
    {
        let key = name.to_owned();
        match self.fixed_params.get(&key) {
            Some(fixed) => {
                let value = match *distribution {
                    Distribution::Categorical { cardinality } => {
                        match storage.get_category_labels(self.study_id, name, cardinality, decimals) {
                            Err(e) => {
                                return Err(e);
                            }
                            Ok(None) => None,
                            Ok(Some(labels)) => match position_of_label(&labels, fixed) {
                                Some(i) => {
                                    proof {
                                        assert(crate::attr::label_views(labels@).len() == labels@.len());
                                    }
                                    Some(Float::from_u64(i as u64))
                                }
                                None => None,
                            },
                        }
                    }
                    _ => {
                        let number = match (fixed, *distribution) {
                            (CategoryLabel::Float(f), Distribution::Float { .. }) => Some(*f),
                            (CategoryLabel::Int(i), Distribution::Float { .. }) => Some(Float::from_i64(*i)),
                            (CategoryLabel::Int(i), Distribution::Int { .. }) => Some(Float::from_i64(*i)),
                            (CategoryLabel::Float(f), Distribution::Int { .. }) => Some(Float::from_i64(f.to_i64())),
                            _ => None,
                        };
                        match number {
                            Some(v) => if distribution.contains(v) {
                                Some(v)
                            } else {
                                None
                            },
                            None => None,
                        }
                    }
                };
                match value {
                    Some(v) => {
                        return Ok(Source::Fixed(v));
                    }
                    None => {}
                }
            }
            None => {}
        }
        match self.joint_params.get(&key) {
            Some(joint) => {
                if joint.distribution.same(distribution) {
                    return Ok(Source::Joint(joint.value));
                }
            }
            None => {}
        }
        Ok(Source::Sampler)
    }

    /// Suggests a parameter value that needs no sampling of its own, and records it. The
    /// upper bound of a range is moved to a whole step first: that of a float range with a
    /// step to `float_high`, which is computed outside.
    ///
    /// Returns `None`, with nothing recorded, where the value is to be sampled and then
    /// handed to [`Trial::suggest_sampled`].
    pub fn suggest(
        &mut self,
        storage: &mut InMemoryStorage,
        name: &str,
        distribution: &Distribution,
        float_high: Float,
        decimals: &Decimals,
    ) -> (r: Result<Option<Float>>)
        requires
            old(storage).wf(),
            distribution@.wf(),
        ensures
            final(storage).wf(),
            final(self).same_but_params(*old(self)),
            ({
                let before = old(storage)@;
                let space = distribution@.adjusted_to(float_high.rank());
                let trial = *old(self);
                let why = param_refused(before, trial.id, name@, space);
                if trial.labels_missing(before, name@, space) {
                    fails(r, ErrorKind::StudyNotFound) && final(storage)@ == before && *final(self) == trial
                } else {
                    match trial.source(before, name@, space, decimals@) {
                        Source::Sampler => r == Ok::<Option<Float>, Error>(None) && final(storage)@ == before && *final(self) == trial,
                        Source::Fixed(v) => if why is Some {
                            refused(r, why) && final(storage)@ == before && *final(self) == trial
                        } else {
                            &&& r == Ok::<Option<Float>, Error>(Some(v))
                            &&& final(storage)@ == param_recorded(before, trial.id, name@, space, v)
                            &&& final(self).cached_trial@ == trial.cached_trial@.with_param(name@, space, v)
                        },
                        Source::Joint(v) => if why is Some {
                            refused(r, why) && final(storage)@ == before && *final(self) == trial
                        } else {
                            &&& r == Ok::<Option<Float>, Error>(Some(v))
                            &&& final(storage)@ == param_recorded(before, trial.id, name@, space, v)
                            &&& *final(self) == trial
                        },
                    }
                }
            }),
    {
        let adjusted = distribution.adjusted_to(float_high);
        match self.decide(storage, name, &adjusted, decimals) {
            Err(e) => Err(e),
            Ok(Source::Sampler) => Ok(None),
            Ok(Source::Joint(v)) => match storage.set_trial_param(self.id, name, &adjusted, v) {
                Err(e) => Err(e),
                Ok(_) => Ok(Some(v)),
            },
            Ok(Source::Fixed(v)) => match storage.set_trial_param(self.id, name, &adjusted, v) {
                Err(e) => Err(e),
                Ok(_) => {
                    self.cached_trial.internal_params.insert(name.to_owned(), v);
                    self.cached_trial.distributions.insert(name.to_owned(), adjusted);
                    Ok(Some(v))
                }
            },
        }
    }

    /// Records a value that was sampled on its own. The upper bound of the range is moved to a
    /// whole step as in [`Trial::suggest`].
    pub fn suggest_sampled(
        &mut self,
        storage: &mut InMemoryStorage,
        name: &str,
        distribution: &Distribution,
        float_high: Float,
        value: Float,
    ) -> (r: Result<Float>)
        requires
            old(storage).wf(),
            distribution@.wf(),
        ensures
            final(storage).wf(),
            final(self).same_but_params(*old(self)),
            ({
                let before = old(storage)@;
                let space = distribution@.adjusted_to(float_high.rank());
                let why = param_refused(before, old(self).id, name@, space);
                if why is Some {
                    refused(r, why) && final(storage)@ == before && *final(self) == *old(self)
                } else {
                    &&& r == Ok::<Float, Error>(value)
                    &&& final(storage)@ == param_recorded(before, old(self).id, name@, space, value)
                    &&& final(self).cached_trial@ == old(self).cached_trial@.with_param(name@, space, value)
                }
            }),
    {
        let adjusted = distribution.adjusted_to(float_high);
        match storage.set_trial_param(self.id, name, &adjusted, value) {
            Err(e) => Err(e),
            Ok(_) => {
                self.cached_trial.internal_params.insert(name.to_owned(), value);
                self.cached_trial.distributions.insert(name.to_owned(), adjusted);
                Ok(value)
            }
        }
    }

    /// Makes the labels of a categorical parameter known to the study, so that a fixed
    /// label can be found among them.
    pub fn announce_choices(&self, storage: &mut InMemoryStorage, name: &str, choices: &Vec<CategoryLabel>) -> (r: Result<()>)
        requires
            old(storage).wf(),
        ensures
            final(storage).wf(),
            old(storage)@.has_study(self.study_id) ==> r is Ok && final(storage)@ == old(storage)@.with_study_attrs(
                self.study_id,
                old(storage)@.study(self.study_id).attrs.union_prefer_right(label_attrs(name@, choices@, choices@.len())),
            ),
            !old(storage)@.has_study(self.study_id) ==> fails(r, ErrorKind::StudyNotFound) && final(storage)@ == old(storage)@,
    {
        let attrs = category_labels_to_attrs(name, choices);
        storage.set_study_attrs(self.study_id, &attrs, false)
    }

    /// Returns a user attribute stored on the trial.
    pub fn get_user_attr(&self, key: &str) -> (r: Option<&String>)
        ensures
            r is Some == self.cached_trial@.attrs.contains_key(AttrName::User(key@)),
            r is Some ==> r->Some_0@ == self.cached_trial@.attrs[AttrName::User(key@)],
    {
        self.cached_trial.attrs.get(&AttrKey::User(key.to_owned()))
    }

    /// Sets a single user attribute on the trial.
    pub fn set_user_attr(&mut self, storage: &mut InMemoryStorage, key: &str, value: String) -> (r: Result<()>)
        requires
            old(storage).wf(),
        ensures
            final(storage).wf(),
            final(self).same_but_params(*old(self)),
            refused(r, old(storage)@.unchangeable(old(self).id)),
            r is Err ==> final(storage)@ == old(storage)@ && *final(self) == *old(self),
            r is Ok ==> {
                let trial = old(storage)@.slot(old(self).id)->Some_0;
                &&& final(storage)@ == old(storage)@.with_slot(
                    old(self).id,
                    Some(TrialRecord { attrs: trial.attrs.insert(AttrName::User(key@), value@), ..trial }),
                )
                &&& final(self).cached_trial@ == (TrialRecord {
                    attrs: old(self).cached_trial@.attrs.insert(AttrName::User(key@), value@),
                    ..old(self).cached_trial@
                })
            },
    {
        let mut attrs: Attrs = KeyMap::new();
        attrs.insert(AttrKey::User(key.to_owned()), value.clone());
        let ghost added = attrs@;
        match storage.set_trial_attrs(self.id, &attrs, false) {
            Err(e) => Err(e),
            Ok(_) => {
                proof {
                    let base = old(storage)@.slot(self.id)->Some_0.attrs;
                    assert(base.union_prefer_right(added) =~= base.insert(AttrName::User(key@), value@));
                }
                self.cached_trial.attrs.insert(AttrKey::User(key.to_owned()), value);
                Ok(())
            }
        }
    }

    /// Sets multiple user attributes on the trial.
    pub fn set_user_attrs(&mut self, storage: &mut InMemoryStorage, user_attrs: &KeyMap<String, String>) -> (r: Result<()>)
        requires
            old(storage).wf(),
        ensures
            final(storage).wf(),
            final(self).same_but_params(*old(self)),
            refused(r, old(storage)@.unchangeable(old(self).id)),
            r is Err ==> final(storage)@ == old(storage)@ && *final(self) == *old(self),
            r is Ok ==> {
                let trial = old(storage)@.slot(old(self).id)->Some_0;
                &&& final(storage)@ == old(storage)@.with_slot(
                    old(self).id,
                    Some(TrialRecord { attrs: trial.attrs.union_prefer_right(as_user_attrs(user_attrs@)), ..trial }),
                )
                &&& final(self).cached_trial@ == (TrialRecord {
                    attrs: old(self).cached_trial@.attrs.union_prefer_right(as_user_attrs(user_attrs@)),
                    ..old(self).cached_trial@
                })
            },
    {
        let attrs = user_attrs_to_attrs(user_attrs);
        match storage.set_trial_attrs(self.id, &attrs, false) {
            Err(e) => Err(e),
            Ok(_) => {
                self.cached_trial.attrs.extend(&attrs);
                Ok(())
            }
        }
    }

    /// Returns the user attributes stored on the trial.
    pub fn get_user_attrs(&self) -> (r: KeyMap<String, String>)
        ensures
            r@ == user_part(self.cached_trial@.attrs),
    {
        user_attrs_of(&self.cached_trial.attrs)
    }

    /// Sets multiple constraints on the trial.
    pub fn set_constraints(&mut self, storage: &mut InMemoryStorage, constraints: KeyMap<String, Float>) -> (r: Result<()>)
        requires
            old(storage).wf(),
        ensures
            final(storage).wf(),
            final(self).same_but_params(*old(self)),
            refused(r, old(storage)@.unchangeable(old(self).id)),
            r is Err ==> final(storage)@ == old(storage)@ && *final(self) == *old(self),
            r is Ok ==> {
                let trial = old(storage)@.slot(old(self).id)->Some_0;
                &&& final(storage)@ == old(storage)@.with_slot(old(self).id, Some(TrialRecord { constraints: constraints@, ..trial }))
                &&& final(self).cached_trial@ == (TrialRecord { constraints: constraints@, ..old(self).cached_trial@ })
            },
    {
        match storage.set_trial_constraints(self.id, constraints.duplicate()) {
            Err(e) => Err(e),
            Ok(_) => {
                self.cached_trial.constraints = constraints;
                Ok(())
            }
        }
    }
}

impl TrialRecord {
    /// The trial with one parameter set.
    pub open spec fn with_param(self, name: Seq<char>, space: Space, value: Float) -> TrialRecord {
        TrialRecord {
            params: self.params.insert(name, value),
            distributions: self.distributions.insert(name, space),
            ..self
        }
    }
}

/// Texts by name as user attributes.
pub open spec fn as_user_attrs(texts: Map<Seq<char>, Seq<char>>) -> Map<AttrName, Seq<char>> {
    Map::new(
        |key: AttrName| key is User && texts.contains_key(key->User_0),
        |key: AttrName| texts[key->User_0],
    )
}

/// The user attributes among all attributes.
pub open spec fn user_part(attrs: Map<AttrName, Seq<char>>) -> Map<Seq<char>, Seq<char>> {
    Map::new(|name: Seq<char>| attrs.contains_key(AttrName::User(name)), |name: Seq<char>| attrs[AttrName::User(name)])
}

pub fn user_attrs_to_attrs(texts: &KeyMap<String, String>) -> (attrs: Attrs)
    ensures
        attrs@ == as_user_attrs(texts@),
{
    let n: usize = texts.len();
    let ghost keys = texts.keys();
    let mut attrs: Attrs = KeyMap::new();
    let mut i: usize = 0;
    while i < n
        invariant
            i <= n,
            keys == texts.keys(),
            n == keys.len(),
            keys.to_set() == texts@.dom(),
            forall|key: AttrName| #[trigger] attrs@.contains_key(key) ==> key is User && texts@.contains_key(key->User_0)
                && attrs@[key] == texts@[key->User_0],
            forall|j: int| 0 <= j < i ==> attrs@.contains_key(AttrName::User(#[trigger] keys[j])),
        decreases n - i,
    {
        let e = texts.entry(i);
        attrs.insert(AttrKey::User(e.0.duplicate()), e.1.duplicate());
        i = i + 1;
    }
    proof {
        let goal = as_user_attrs(texts@);
        assert forall|key: AttrName| goal.contains_key(key) implies attrs@.contains_key(key) by {
            assert(keys.to_set().contains(key->User_0));
            let j = choose|j: int| 0 <= j < keys.len() && keys[j] == key->User_0;
            assert(attrs@.contains_key(AttrName::User(keys[j])));
        }
        assert(attrs@ =~= goal);
    }
    attrs
}

pub fn user_attrs_of(attrs: &Attrs) -> (texts: KeyMap<String, String>)
    ensures
        texts@ == user_part(attrs@),
{
    let n: usize = attrs.len();
    let ghost keys = attrs.keys();
    let mut texts: KeyMap<String, String> = KeyMap::new();
    let mut i: usize = 0;
    while i < n
        invariant
            i <= n,
            keys == attrs.keys(),
            n == keys.len(),
            keys.to_set() == attrs@.dom(),
            forall|name: Seq<char>| #[trigger] texts@.contains_key(name) ==> attrs@.contains_key(AttrName::User(name))
                && texts@[name] == attrs@[AttrName::User(name)],
            forall|j: int| 0 <= j < i && #[trigger] keys[j] is User ==> texts@.contains_key(keys[j]->User_0),
        decreases n - i,
    {
        let e = attrs.entry(i);
        match e.0 {
            AttrKey::User(name) => {
                texts.insert(name.duplicate(), e.1.duplicate());
            }
            AttrKey::System(_) => {}
        }
        i = i + 1;
    }
    proof {
        let goal = user_part(attrs@);
        assert forall|name: Seq<char>| goal.contains_key(name) implies texts@.contains_key(name) by {
            assert(keys.to_set().contains(AttrName::User(name)));
            let j = choose|j: int| 0 <= j < keys.len() && keys[j] == AttrName::User(name);
            assert(keys[j] is User);
        }
        assert(texts@ =~= goal);
    }
    texts
}

/// The choice that a categorical value stands for.
pub fn choice_index(value: Float, n_choices: usize) -> (r: Result<usize>)
    requires
        n_choices <= i64::MAX,
    ensures
        ({
            let i = if whole(value) < 0 {
                0
            } else {
                whole(value)
            };
            if i < n_choices {
                r is Ok && r->Ok_0 == i
            } else {
                fails(r, ErrorKind::Unexpected)
            }
        }),
{
    let t: i64 = value.to_i64();
    let i: u64 = if t < 0 {
        0
    } else {
        t as u64
    };
    if i < n_choices as u64 {
        Ok(i as usize)
    } else {
        Err(Error::new(ErrorKind::Unexpected))
    }
}

/// A value that was recorded is read from the stored trial, under its distribution; the
/// trial's other parameters stay.
pub proof fn law_recorded_param_reads_back(before: StorageRecord, trial_id: u32, name: Seq<char>, space: Space, value: Float, other: Seq<char>)
    requires
        before.wf(),
        param_refused(before, trial_id, name, space) is None,
        other != name,
    ensures
        ({
            let was = before.slot(trial_id)->Some_0;
            let after = param_recorded(before, trial_id, name, space, value);
            let trial = after.slot(trial_id)->Some_0;
            &&& after.unreadable(trial_id) is None
            &&& trial.params.contains_key(name) && trial.params[name] == value
            &&& trial.distributions.contains_key(name) && trial.distributions[name] == space
            &&& trial.params.contains_key(other) == was.params.contains_key(other)
            &&& was.params.contains_key(other) ==> trial.params[other] == was.params[other]
            &&& after.cache(before.ids[trial_id].0).param_distribution[name] == space
        }),
{
    crate::storage::law_trial_reads_back(before, trial_id, before.slot(trial_id)->Some_0.with_param(name, space, value));
}

/// A value that was fixed when the trial was queued, and that fits the distribution, goes
/// before any sampled one.
pub proof fn law_fixed_value_comes_first(
    trial: Trial,
    before: StorageRecord,
    name: Seq<char>,
    space: Space,
    decimals: Map<Seq<char>, Float>,
    value: Float,
)
    requires
        trial.fixed_params@.contains_key(name),
        fixed_value(trial.fixed_params@[name], space, trial.labels(before, name, space, decimals)) == Some(value),
    ensures
        trial.source(before, name, space, decimals) == Source::Fixed(value),
{
}

/// A whole number that was fixed for a numerical parameter, float or int, and that lies between
/// the bounds of the distribution, is the value that is suggested.
pub proof fn law_fixed_integer_is_suggested(
    trial: Trial,
    before: StorageRecord,
    name: Seq<char>,
    space: Space,
    decimals: Map<Seq<char>, Float>,
    i: i64,
)
    requires
        trial.fixed_params@.contains_key(name),
        trial.fixed_params@[name] == Label::Int(i),
        match space {
            Space::Float { low, high, .. } => low <= of_int(i as int).rank() <= high,
            Space::Int { low, high, .. } => i64::MIN <= low <= i <= high <= i64::MAX,
            Space::Categorical { .. } => false,
        },
    ensures
        trial.source(before, name, space, decimals) == Source::Fixed(of_int(i as int)),
{
    law_conversion_keeps_the_order(i as int, i as int);
    match space {
        Space::Int { low, high, .. } => {
            law_conversion_keeps_the_order(low, i as int);
            law_conversion_keeps_the_order(i as int, high);
        }
        _ => {}
    }
}

/// A number that was fixed for a float parameter, and that lies between the bounds, is the value
/// that is suggested; for an integer parameter its integer part is.
pub proof fn law_fixed_number_is_suggested(
    trial: Trial,
    before: StorageRecord,
    name: Seq<char>,
    space: Space,
    decimals: Map<Seq<char>, Float>,
    f: Float,
)
    requires
        trial.fixed_params@.contains_key(name),
        trial.fixed_params@[name] == Label::Float(f),
        !f.nan(),
    ensures
        space is Float && space->Float_low <= f.rank() <= space->Float_high ==> trial.source(before, name, space, decimals) == Source::Fixed(f),
        space is Int && i64::MIN <= space->Int_low <= f.truncated() <= space->Int_high <= i64::MAX ==> trial.source(before, name, space, decimals)
            == Source::Fixed(of_int(f.truncated())),
{
    if space is Int && i64::MIN <= space->Int_low <= f.truncated() <= space->Int_high <= i64::MAX {
        law_conversion_keeps_the_order(space->Int_low, f.truncated());
        law_conversion_keeps_the_order(f.truncated(), space->Int_high);
    }
}

/// A label that was fixed for a categorical parameter is suggested as the position of the first
/// choice that equals it, and passed over where no choice does.
pub proof fn law_fixed_label_is_suggested(
    trial: Trial,
    before: StorageRecord,
    name: Seq<char>,
    space: Space,
    decimals: Map<Seq<char>, Float>,
    p: int,
)
    requires
        trial.fixed_params@.contains_key(name),
        space is Categorical,
        trial.labels(before, name, space, decimals) is Some,
    ensures
        ({
            let labels = trial.labels(before, name, space, decimals)->Some_0;
            let label = trial.fixed_params@[name];
            &&& 0 <= p < labels.len() && labels[p].equals(label) && (forall|q: int| 0 <= q < p ==> !(#[trigger] labels[q]).equals(label))
                ==> trial.source(before, name, space, decimals) == Source::Fixed(of_int(p))
            &&& (forall|q: int| 0 <= q < labels.len() ==> !(#[trigger] labels[q]).equals(label)) ==> !(trial.source(
                before,
                name,
                space,
                decimals,
            ) is Fixed)
        }),
{
    let labels = trial.labels(before, name, space, decimals)->Some_0;
    let label = trial.fixed_params@[name];
    if 0 <= p < labels.len() && labels[p].equals(label) && forall|q: int| 0 <= q < p ==> !(#[trigger] labels[q]).equals(label) {
        lemma_first_equal(labels, label, 0, p);
    }
}

proof fn lemma_first_equal(labels: Seq<Label>, label: Label, from: int, p: int)
    requires
        0 <= from <= p < labels.len(),
        labels[p].equals(label),
        forall|q: int| from <= q < p ==> !(#[trigger] labels[q]).equals(label),
    ensures
        first_equal(labels, label, from) == p,
    decreases p - from,
{
    if from < p {
        assert(!labels[from].equals(label));
        lemma_first_equal(labels, label, from + 1, p);
    }
}

/// A text, a truth value or nothing stands for no number, and a number outside of the bounds is
/// not suggested. Without a fixed value that fits, the joint sample decides where it was made
/// for the same distribution, and else the sampler.
pub proof fn law_unfit_values_are_not_suggested(
    trial: Trial,
    before: StorageRecord,
    name: Seq<char>,
    space: Space,
    decimals: Map<Seq<char>, Float>,
)
    requires
        !(space is Categorical),
        trial.fixed_params@.contains_key(name) ==> {
            let label = trial.fixed_params@[name];
            ||| label is String
            ||| label is Bool
            ||| label is Null
            ||| label is Float && label->Float_0.nan() && space is Float
            ||| label is Float && space is Float && !(space->Float_low <= label->Float_0.rank() <= space->Float_high)
            ||| label is Int && space is Float && !(space->Float_low <= of_int(label->Int_0 as int).rank() <= space->Float_high)
        },
    ensures
        trial.source(before, name, space, decimals) == if trial.joint_params@.contains_key(name) && trial.joint_params@[name].0 == space {
            Source::Joint(trial.joint_params@[name].1)
        } else {
            Source::Sampler
        },
{
}

/// A whole number that was fixed for an integer parameter and that lies outside of the bounds is
/// not suggested, as far as integers are converted without loss.
pub proof fn law_fixed_integer_outside_is_not_suggested(
    trial: Trial,
    before: StorageRecord,
    name: Seq<char>,
    low: i64,
    high: i64,
    step: int,
    log: bool,
    decimals: Map<Seq<char>, Float>,
    i: i64,
)
    requires
        trial.fixed_params@.contains_key(name),
        trial.fixed_params@[name] == Label::Int(i),
        i < low || i > high,
        -full() < i < full(),
        -full() < low < full(),
        -full() < high < full(),
    ensures
        !(trial.source(before, name, Space::Int { low: low as int, high: high as int, step, log }, decimals) is Fixed),
{
    crate::distribution::law_integer_ranges_hold_what_is_between(low, high, step, log, i);
}

/// Setting a state changes the state alone, but for the time of completion: it is now where the
/// trial ends (complete, pruned or failed), and unset where it runs or waits.
pub proof fn law_only_ending_sets_the_time(trial: TrialRecord, outcome: Outcome, now: Seq<char>)
    ensures
        ({
            let after = trial.in_state(outcome, now);
            &&& after.outcome == outcome
            &&& outcome is Complete || outcome is Pruned || outcome is Fail ==> after.datetime_complete == Some(now)
            &&& outcome is Running || outcome is Waiting ==> after.datetime_complete is None
            &&& after.id == trial.id && after.study_id == trial.study_id && after.number == trial.number
            &&& after.params == trial.params && after.distributions == trial.distributions && after.constraints == trial.constraints
            &&& after.attrs == trial.attrs && after.intermediate_values == trial.intermediate_values
            &&& after.datetime_start == trial.datetime_start
        }),
        outcome is Complete == (outcome.state() == TrialState::Complete),
        outcome is Pruned == (outcome.state() == TrialState::Pruned),
        outcome is Fail == (outcome.state() == TrialState::Fail),
        outcome is Running == (outcome.state() == TrialState::Running),
{
}

/// Outcomes are equal where the states are, and the values of complete ones are the same numbers.
pub proof fn law_equal_outcomes_hold_equal_numbers(a: Outcome, b: Outcome)
    ensures
        a.equals(b) ==> a.state() == b.state(),
        a.state() == b.state() && !(a is Complete) ==> a.equals(b),
        a is Complete && b is Complete ==> (a.equals(b) <==> a->Complete_0.len() == b->Complete_0.len() && forall|k: int|
            0 <= k < a->Complete_0.len() ==> !(#[trigger] a->Complete_0[k]).nan() && !b->Complete_0[k].nan() && !a->Complete_0[k].below(
                b->Complete_0[k],
            ) && !b->Complete_0[k].below(a->Complete_0[k])),
{
    if a is Complete && b is Complete {
        if a.equals(b) {
            assert forall|k: int| 0 <= k < a->Complete_0.len() implies !(#[trigger] a->Complete_0[k]).nan() && !b->Complete_0[k].nan()
                && !a->Complete_0[k].below(b->Complete_0[k]) && !b->Complete_0[k].below(a->Complete_0[k]) by {
                assert(a->Complete_0[k].same(b->Complete_0[k]));
            }
        }
    }
}

/// A trial that ended refuses parameters. One that runs or waits refuses a parameter exactly where
/// the study knows it with another kind of distribution, another scale or another number of
/// choices.
pub proof fn law_parameters_are_refused_by_kind(before: StorageRecord, trial_id: u32, name: Seq<char>, space: Space)
    requires
        before.unreadable(trial_id) is None,
    ensures
        ({
            let outcome = before.slot(trial_id)->Some_0.outcome;
            let known = before.cache(before.ids[trial_id].0).param_distribution;
            &&& outcome is Complete || outcome is Pruned || outcome is Fail ==> param_refused(before, trial_id, name, space) == Some(
                ErrorKind::TrialAlreadyFinished,
            )
            &&& (outcome is Running || outcome is Waiting) && !known.contains_key(name) ==> param_refused(before, trial_id, name, space) is None
            &&& (outcome is Running || outcome is Waiting) && known.contains_key(name) ==> param_refused(before, trial_id, name, space) == match (
                known[name],
                space,
            ) {
                (Space::Float { log: a, .. }, Space::Float { log: b, .. }) if a == b => None,
                (Space::Int { log: a, .. }, Space::Int { log: b, .. }) if a == b => None,
                (Space::Categorical { cardinality: a }, Space::Categorical { cardinality: b }) if a == b => None,
                _ => Some(ErrorKind::IncompatibleDistribution),
            }
        }),
{
}

/// The whole number of a float is its integer part, as far as 64 bits hold it: beyond them it is
/// the nearest 64-bit integer, and 0 for a NaN.
pub proof fn law_whole_numbers_saturate(f: Float)
    ensures
        f.nan() ==> whole(f) == 0,
        !f.nan() && i64::MIN <= f.truncated() <= i64::MAX ==> whole(f) == f.truncated(),
        !f.nan() && f.truncated() > i64::MAX ==> whole(f) == i64::MAX,
        !f.nan() && f.truncated() < i64::MIN ==> whole(f) == i64::MIN,
{
}

/// A valid trial has no NaN among its values and a distribution that holds it for every parameter.
pub proof fn law_valid_trials_fit_their_distributions(trial: TrialRecord, name: Seq<char>, k: int)
    requires
        trial.valid(),
    ensures
        trial.outcome is Complete && 0 <= k < trial.outcome->Complete_0.len() ==> !trial.outcome->Complete_0[k].nan(),
        trial.params.contains_key(name) ==> trial.distributions.contains_key(name) && trial.distributions[name].holds(trial.params[name]),
        trial.params.dom().len() == trial.distributions.dom().len(),
{
}

/// User attributes are kept apart from system attributes: texts become user attributes of the same
/// names, and are read back from among all attributes.
pub proof fn law_user_attrs_read_back(texts: Map<Seq<char>, Seq<char>>, attrs: Map<AttrName, Seq<char>>, name: Seq<char>)
    ensures
        as_user_attrs(texts).contains_key(AttrName::User(name)) == texts.contains_key(name),
        texts.contains_key(name) ==> as_user_attrs(texts)[AttrName::User(name)] == texts[name],
        !as_user_attrs(texts).contains_key(AttrName::System(name)),
        user_part(attrs).contains_key(name) == attrs.contains_key(AttrName::User(name)),
        attrs.contains_key(AttrName::User(name)) ==> user_part(attrs)[name] == attrs[AttrName::User(name)],
{
}

/// Adjusting a trial moves the upper bound of every integer range to its last whole step, sets
/// that of every float range with a step, and leaves everything else.
pub proof fn law_adjusting_moves_every_range(trial: TrialRecord, float_highs: Map<Seq<char>, Float>, name: Seq<char>)
    requires
        trial.distributions.contains_key(name),
        trial.distributions[name].wf(),
    ensures
        ({
            let before = trial.distributions[name];
            let after = trial.adjusted_to(float_highs).distributions[name];
            &&& trial.adjusted_to(float_highs).distributions.contains_key(name)
            &&& before is Int ==> after is Int && after->Int_low == before->Int_low && after->Int_step == before->Int_step && after->Int_high
                <= before->Int_high < after->Int_high + before->Int_step && (after->Int_high - before->Int_low) % before->Int_step == 0
            &&& before is Float && before->Float_step is Some ==> after is Float && after->Float_low == before->Float_low && after->Float_high
                == float_highs[name].rank()
            &&& before is Float && before->Float_step is None ==> after == before
            &&& before is Categorical ==> after == before
            &&& trial.adjusted_to(float_highs).params == trial.params
            &&& trial.adjusted_to(float_highs).outcome == trial.outcome
        }),
{
    match trial.distributions[name] {
        Space::Int { low, high, step, log } => {
            crate::distribution::law_adjusted_bound_is_the_last_step(low, high, step, log, float_highs[name].rank());
        }
        _ => {}
    }
}

} // verus!
