//! Studies.

use vstd::prelude::*;

use crate::attr::{extract_fixed_params, extracted, fixed_attrs, fixed_params_to_attrs, AttrKey, AttrName, Attrs, CategoryLabel, Decimals, Label};
use crate::distribution::{Distribution, Space};
use crate::error::{fails, fails_because, Error, ErrorKind, Result};
use crate::float::Float;
use crate::id_map::occupied;
use crate::key_map::{Duplicate, KeyMap};
use crate::multi_objective::nds::{self, clean, lemma_dominates_transitive, row_has_nan};
use crate::multi_objective::split::{law_dominance_of_losses, law_losses_go_by_direction, loss_of, loss_row, picks};
use crate::storage::{refused, InMemoryStorage, StorageRecord};
use crate::study_cache::{completed, slot_view, trial_records};
use crate::text::{decimal, decimal_text, joined};
use crate::trial::{
    adjustable, as_user_attrs, copy_text, refused_as, text_view, user_attrs_to_attrs, JointParam, Outcome, PersistedTrial, Trial, TrialRecord,
    TrialStateValues,
};
use crate::trial_queue::InMemoryTrialQueue;

verus! {

/// Which end of an objective is the better one.
#[derive(Clone, Copy, Debug, PartialEq, Eq, Structural)]
pub enum Direction {
    Minimize,
    Maximize,
}

/// Storage-side representation of a study.
pub struct PersistedStudy {
    pub id: u32,
    pub name: String,
    pub directions: Vec<Direction>,
    pub attrs: Attrs,
}

/// A study by its contents.
pub struct StudyRecord {
    pub id: u32,
    pub name: Seq<char>,
    pub directions: Seq<Direction>,
    pub attrs: Map<AttrName, Seq<char>>,
}

impl View for PersistedStudy {
    type V = StudyRecord;

    open spec fn view(&self) -> StudyRecord {
        StudyRecord { id: self.id, name: self.name@, directions: self.directions@, attrs: self.attrs@ }
    }
}

impl PersistedStudy {
    /// Creates a persisted study with empty attributes.
    pub fn new(id: u32, study_name: String, directions: Vec<Direction>) -> (r: PersistedStudy)
        ensures
            r@ == (StudyRecord { id, name: study_name@, directions: directions@, attrs: Map::empty() }),
    {
        PersistedStudy { id, name: study_name, directions, attrs: KeyMap::new() }
    }

    /// Creates a persisted study with pre-populated attributes.
    pub fn new_with_attrs(id: u32, study_name: String, directions: Vec<Direction>, attrs: Attrs) -> (r: PersistedStudy)
        ensures
            r@ == (StudyRecord { id, name: study_name@, directions: directions@, attrs: attrs@ }),
    {
        PersistedStudy { id, name: study_name, directions, attrs }
    }
}

pub fn copy_directions(directions: &Vec<Direction>) -> (r: Vec<Direction>)
    ensures
        r@ == directions@,
{
    let mut r: Vec<Direction> = Vec::new();
    let mut k: usize = 0;
    while k < directions.len()
        invariant
            k <= directions@.len(),
            r@ == directions@.take(k as int),
        decreases directions@.len() - k,
    {
        r.push(directions[k]);
        assert(directions@.take(k + 1) =~= directions@.take(k as int).push(directions@[k as int]));
        k = k + 1;
    }
    assert(directions@.take(directions@.len() as int) =~= directions@);
    r
}

impl Duplicate for PersistedStudy {
    fn duplicate(&self) -> (r: PersistedStudy) {
        PersistedStudy {
            id: self.id,
            name: self.name.clone(),
            directions: copy_directions(&self.directions),
            attrs: self.attrs.duplicate(),
        }
    }
}

/// A study corresponds to an optimization task, that is, a set of trials.
pub struct Study {
    pub id: u32,
    pub name: String,
    pub directions: Vec<Direction>,
}

/// A trial that has begun and of which the sampler is to be told before its search space
/// is inferred.
pub struct BegunTrial {
    pub id: u32,
    pub number: u32,
    pub datetime_start: Option<String>,
    pub datetime_complete: Option<String>,
    pub fixed_params: KeyMap<String, CategoryLabel>,
}

/// A trial that the sampler has been told of and that awaits the values of a joint
/// sampler, where it asks for them.
pub struct PendingTrial {
    pub id: u32,
    pub number: u32,
    pub datetime_start: Option<String>,
    pub datetime_complete: Option<String>,
    pub fixed_params: KeyMap<String, CategoryLabel>,
    /// What the joint sampler is asked for.
    pub search_space: Option<KeyMap<String, Distribution>>,
}

/// What a sampler is told of the trial it samples for.
pub struct Context {
    pub study_id: u32,
    pub trial_number: u32,
    pub trial_id: u32,
    pub directions: Vec<Direction>,
}

/// What follows from an objective function's reply.
pub enum Verdict {
    /// The trial is told to be in this state, and the loop goes on.
    Tell(TrialStateValues),
    /// The trial is told to have failed, and the loop ends with the error.
    Fail(Error),
    /// The loop ends with the error, and the trial stays as it is.
    Stop(Error),
}

/// Creates a study.
pub fn create_study(study_name: &str, storage: &mut InMemoryStorage, directions: Vec<Direction>) -> (r: Result<Study>)
    requires
        old(storage).wf(),
        old(storage)@.next_study_id < u32::MAX,
    ensures
        final(storage).wf(),
        old(storage)@.has_name(study_name@) ==> fails(r, ErrorKind::DuplicatedStudy) && final(storage)@ == old(storage)@,
        !old(storage)@.has_name(study_name@) ==> {
            &&& r is Ok
            &&& r->Ok_0.id == old(storage)@.next_study_id
            &&& r->Ok_0.name@ == study_name@
            &&& r->Ok_0.directions@ == directions@
            &&& final(storage)@ == old(storage)@.with_new_study(old(storage)@.next_study_id, study_name@, directions@)
        },
{
    let copy = copy_directions(&directions);
    match storage.create_new_study(study_name, directions) {
        Err(e) => Err(e),
        Ok(study) => Ok(Study { id: study.id, name: study_name.to_owned(), directions: copy }),
    }
}

/// The parameters of a joint sample that were asked for, with their distributions.
pub open spec fn joint_params(space: Map<Seq<char>, Space>, sampled: Map<Seq<char>, Float>) -> Map<Seq<char>, (Space, Float)> {
    Map::new(
        |name: Seq<char>| space.contains_key(name) && sampled.contains_key(name),
        |name: Seq<char>| (space[name], sampled[name]),
    )
}

fn pair_joint_params(space: &KeyMap<String, Distribution>, sampled: &KeyMap<String, Float>) -> (r: KeyMap<String, JointParam>)
    ensures
        r@ == joint_params(space@, sampled@),
{
    let n: usize = sampled.len();
    let ghost keys = sampled.keys();
    let mut r: KeyMap<String, JointParam> = KeyMap::new();
    let mut i: usize = 0;
    while i < n
        invariant
            i <= n,
            keys == sampled.keys(),
            n == keys.len(),
            keys.to_set() == sampled@.dom(),
            forall|name: Seq<char>| #[trigger] r@.contains_key(name) ==> joint_params(space@, sampled@).contains_key(name)
                && r@[name] == (space@[name], sampled@[name]),
            forall|j: int| 0 <= j < i && space@.contains_key(#[trigger] keys[j]) ==> r@.contains_key(keys[j]),
        decreases n - i,
    {
        let e = sampled.entry(i);
        match space.get(e.0) {
            Some(distribution) => {
                r.insert(e.0.duplicate(), JointParam { distribution: *distribution, value: *e.1 });
            }
            None => {}
        }
        i = i + 1;
    }
    proof {
        let goal = joint_params(space@, sampled@);
        assert forall|name: Seq<char>| goal.contains_key(name) implies r@.contains_key(name) by {
            assert(keys.to_set().contains(name));
            let j = choose|j: int| 0 <= j < keys.len() && keys[j] == name;
            assert(space@.contains_key(keys[j]));
        }
        assert(r@ =~= goal);
    }
    r
}

impl BegunTrial {
    /// What the sampler is told of the trial.
    pub fn context(&self, study: &Study) -> (r: Context)
        ensures
            r.study_id == study.id,
            r.trial_id == self.id,
            r.trial_number == self.number,
            r.directions@ == study.directions@,
    {
        Context { study_id: study.id, trial_number: self.number, trial_id: self.id, directions: copy_directions(&study.directions) }
    }
}

impl PendingTrial {
    /// The trial, with the values of the joint sampler for the parameters that were asked
    /// for. A trial that asks for none takes none.
    pub fn into_trial(self, study: &Study, sampled: &KeyMap<String, Float>) -> (r: Trial)
        ensures
            r.id == self.id,
            r.study_id == study.id,
            r.number == self.number,
            r.directions@ == study.directions@,
            r.fixed_params@ == self.fixed_params@,
            r.datetime_start == self.datetime_start,
            r.datetime_complete == self.datetime_complete,
            r.joint_params@ == match self.search_space {
                Some(space) => joint_params(space@, sampled@),
                None => Map::empty(),
            },
            r.cached_trial@ == (TrialRecord {
                datetime_start: text_view(self.datetime_start),
                datetime_complete: text_view(self.datetime_complete),
                ..TrialRecord::fresh(self.id, study.id, self.number)
            }),
    {
        let joint = match &self.search_space {
            Some(space) => pair_joint_params(space, sampled),
            None => KeyMap::new(),
        };
        Trial::new(
            self.id,
            study.id,
            self.number,
            self.datetime_start,
            self.datetime_complete,
            copy_directions(&study.directions),
            joint,
            self.fixed_params,
        )
    }
}

/// The storage once a trial has begun: the queued one is running again, or there is a
/// new one.
pub open spec fn begun(before: StorageRecord, queue: Seq<u32>, study_id: u32, now: Seq<char>) -> StorageRecord {
    if queue.len() > 0 {
        before.with_slot(queue[0], Some(before.slot(queue[0])->Some_0.in_state(Outcome::Running, now)))
    } else {
        before.with_new_trial(
            TrialRecord {
                datetime_start: Some(now),
                ..TrialRecord::fresh(before.next_trial_id, study_id, before.trials[study_id].len() as u32)
            },
        )
    }
}

/// Why no trial can begin, if none can.
pub open spec fn cannot_begin(before: StorageRecord, queue: Seq<u32>, study_id: u32) -> Option<ErrorKind> {
    if queue.len() > 0 {
        before.unchangeable(queue[0])
    } else if before.has_study(study_id) {
        None
    } else {
        Some(ErrorKind::StudyNotFound)
    }
}

/// The trial that begins, as it stood before.
pub open spec fn beginning(before: StorageRecord, queue: Seq<u32>, study_id: u32, now: Seq<char>) -> TrialRecord {
    if queue.len() > 0 {
        before.slot(queue[0])->Some_0
    } else {
        TrialRecord {
            datetime_start: Some(now),
            ..TrialRecord::fresh(before.next_trial_id, study_id, before.trials[study_id].len() as u32)
        }
    }
}

impl Study {
    /// Loads a study by ID from storage.
    pub fn from_id(id: u32, storage: &InMemoryStorage) -> (r: Result<Study>)
        requires
            storage.wf(),
        ensures
            storage@.has_study(id) ==> r is Ok && r->Ok_0.id == id && r->Ok_0.name@ == storage@.study(id).name
                && r->Ok_0.directions@ == storage@.study(id).directions,
            !storage@.has_study(id) ==> fails(r, ErrorKind::StudyNotFound),
    {
        match storage.get_study(id) {
            Err(e) => Err(e),
            Ok(study) => Ok(Study { id, name: study.name.clone(), directions: copy_directions(&study.directions) }),
        }
    }

    /// Loads a study by name from storage.
    pub fn from_name(name: String, storage: &InMemoryStorage) -> (r: Result<Study>)
        requires
            storage.wf(),
        ensures
            storage@.has_name(name@) ==> r is Ok && storage@.has_study(r->Ok_0.id) && storage@.study(r->Ok_0.id).name == name@
                && r->Ok_0.name@ == name@ && r->Ok_0.directions@ == storage@.study(r->Ok_0.id).directions,
            !storage@.has_name(name@) ==> fails(r, ErrorKind::StudyNotFound),
    {
        match storage.find_study(name.as_str()) {
            None => Err(Error::new(ErrorKind::StudyNotFound)),
            Some(id) => Study::from_id(id, storage),
        }
    }

    /// Dequeues or creates the next trial, and sets it running.
    ///
    /// A queued trial that cannot be set running goes back to the end of the queue. The
    /// sampler is to be told of the trial next, and [`Study::infer_search_space`] goes on
    /// from its reply.
    pub fn ask(&self, storage: &mut InMemoryStorage, queue: &mut InMemoryTrialQueue, now: String, decimals: &Decimals) -> (r: Result<BegunTrial>)
        requires
            old(storage).wf(),
            old(storage)@.next_trial_id < u32::MAX,
        ensures
            final(storage).wf(),
            ({
                let before = old(storage)@;
                let waiting = old(queue)@;
                let why = cannot_begin(before, waiting, self.id);
                let trial = beginning(before, waiting, self.id, now@);
                let running = begun(before, waiting, self.id, now@);
                if why is Some {
                    &&& refused(r, why)
                    &&& final(storage)@ == before
                    &&& final(queue)@ == if waiting.len() > 0 {
                        waiting.skip(1).push(waiting[0])
                    } else {
                        waiting
                    }
                } else {
                    &&& final(queue)@ == if waiting.len() > 0 {
                        waiting.skip(1)
                    } else {
                        waiting
                    }
                    &&& final(storage)@ == running
                    &&& running.slot(trial.id) is Some
                    &&& r is Ok
                    &&& r->Ok_0.id == trial.id
                    &&& r->Ok_0.number == trial.number
                    &&& text_view(r->Ok_0.datetime_start) == trial.datetime_start
                    &&& text_view(r->Ok_0.datetime_complete) == trial.datetime_complete
                    &&& r->Ok_0.fixed_params@ == if waiting.len() > 0 {
                        extracted(trial.attrs, decimals@)
                    } else {
                        Map::<Seq<char>, Label>::empty()
                    }
                }
            }),
    {
        let ghost before = storage@;
        let ghost at = now@;
        match queue.dequeue() {
            Ok(trial_id) => {
                let read = match storage.get_trial(trial_id) {
                    Err(e) => Err(e),
                    Ok(trial) => Ok(BegunTrial {
                        id: trial_id,
                        number: trial.number,
                        datetime_start: copy_text(&trial.datetime_start),
                        datetime_complete: copy_text(&trial.datetime_complete),
                        fixed_params: extract_fixed_params(&trial.attrs, decimals),
                    }),
                };
                let started = match read {
                    Err(e) => Err(e),
                    Ok(begun) => match storage.set_trial_state_values(trial_id, TrialStateValues::Running, now) {
                        Err(e) => Err(e),
                        Ok(_) => Ok(begun),
                    },
                };
                proof {
                    old(storage).lemma_wf();
                    if before.unchangeable(trial_id) is None {
                        before.lemma_with_slot(trial_id, before.slot(trial_id)->Some_0.in_state(Outcome::Running, at));
                    }
                }
                match started {
                    Err(e) => {
                        queue.enqueue(trial_id);
                        Err(e)
                    }
                    Ok(begun) => Ok(begun),
                }
            }
            Err(_) => {
                let created = match storage.create_new_trial(self.id, now) {
                    Err(e) => Err(e),
                    Ok(trial) => Ok(BegunTrial {
                        id: trial.id,
                        number: trial.number,
                        datetime_start: copy_text(&trial.datetime_start),
                        datetime_complete: copy_text(&trial.datetime_complete),
                        fixed_params: KeyMap::new(),
                    }),
                };
                proof {
                    old(storage).lemma_wf();
                    if before.has_study(self.id) {
                        assert(before.trials.contains_key(self.id));
                        before.lemma_trials_fit(self.id);
                        assert(storage@.slot(before.next_trial_id) is Some);
                    }
                }
                created
            }
        }
    }

    /// Infers the search space of a trial that has begun, once the sampler has been told of
    /// it. An error of the sampler is handed on, and nothing is inferred. With `joint`, the
    /// trial asks for joint values of the study's joint search space.
    pub fn infer_search_space(&self, storage: &mut InMemoryStorage, begun: BegunTrial, joint: bool, sampler_reply: Result<()>) -> (r: Result<PendingTrial>)
        requires
            old(storage).wf(),
        ensures
            final(storage).wf(),
            ({
                let before = old(storage)@;
                let cache = before.cache(self.id).updated(before.trials[self.id]);
                if sampler_reply is Err {
                    r is Err && r->Err_0 == sampler_reply->Err_0 && final(storage)@ == before
                } else if joint && !before.has_study(self.id) {
                    fails(r, ErrorKind::StudyNotFound) && final(storage)@ == before
                } else {
                    &&& final(storage)@ == if joint {
                        StorageRecord { caches: before.caches.insert(self.id, cache), ..before }
                    } else {
                        before
                    }
                    &&& r is Ok
                    &&& r->Ok_0.id == begun.id
                    &&& r->Ok_0.number == begun.number
                    &&& r->Ok_0.datetime_start == begun.datetime_start
                    &&& r->Ok_0.datetime_complete == begun.datetime_complete
                    &&& r->Ok_0.fixed_params@ == begun.fixed_params@
                    &&& joint ==> r->Ok_0.search_space is Some && r->Ok_0.search_space->Some_0@ == cache.search_space()
                    &&& !joint ==> r->Ok_0.search_space is None
                }
            }),
    {
        match sampler_reply {
            Err(e) => {
                return Err(e);
            }
            Ok(_) => {}
        }
        let search_space = if joint {
            match storage.get_joint_search_space(self.id) {
                Err(e) => {
                    return Err(e);
                }
                Ok(space) => Some(space),
            }
        } else {
            None
        };
        Ok(PendingTrial {
            id: begun.id,
            number: begun.number,
            datetime_start: begun.datetime_start,
            datetime_complete: begun.datetime_complete,
            fixed_params: begun.fixed_params,
            search_space,
        })
    }

    /// Finds the trial that is to be told, for the sampler to be told first.
    pub fn begin_tell(&self, storage: &InMemoryStorage, trial_number: u32) -> (r: Result<Context>)
        requires
            storage.wf(),
        ensures
            occupied(storage@.ids, (self.id, trial_number)) ==> {
                &&& r is Ok
                &&& storage@.ids.contains_key(r->Ok_0.trial_id)
                &&& storage@.ids[r->Ok_0.trial_id] == (self.id, trial_number)
                &&& r->Ok_0.study_id == self.id
                &&& r->Ok_0.trial_number == trial_number
                &&& r->Ok_0.directions@ == self.directions@
            },
            !occupied(storage@.ids, (self.id, trial_number)) ==> fails(r, ErrorKind::TrialNotFound),
    {
        match storage.get_trial_id_from_study_id_trial_number(self.id, trial_number) {
            Err(e) => Err(e),
            Ok(trial_id) => Ok(Context { study_id: self.id, trial_number, trial_id, directions: copy_directions(&self.directions) }),
        }
    }

    /// Finalizes a trial with the given state and objective values, whatever the sampler
    /// replied; an error of the sampler is handed on afterwards.
    pub fn finish_tell(
        &self,
        storage: &mut InMemoryStorage,
        context: &Context,
        state_values: TrialStateValues,
        now: String,
        sampler_reply: Result<()>,
    ) -> (r: Result<()>)
        requires
            old(storage).wf(),
        ensures
            final(storage).wf(),
            ({
                let before = old(storage)@;
                let why = before.unchangeable(context.trial_id);
                if why is Some {
                    refused(r, why) && final(storage)@ == before
                } else {
                    &&& r == sampler_reply
                    &&& final(storage)@ == before.with_slot(
                        context.trial_id,
                        Some(before.slot(context.trial_id)->Some_0.in_state(state_values@, now@)),
                    )
                }
            }),
    {
        match storage.set_trial_state_values(context.trial_id, state_values, now) {
            Err(e) => Err(e),
            Ok(_) => sampler_reply,
        }
    }

    /// What follows from an objective function's reply. One value per direction completes
    /// the trial, another number of values stops the loop, and an error fails the trial
    /// and stops the loop.
    pub fn judge(&self, reply: Result<Vec<Float>>) -> (r: Verdict)
        ensures
            match reply {
                Ok(values) => if values@.len() == self.directions@.len() {
                    r is Tell && r->Tell_0@ == Outcome::Complete(values@)
                } else {
                    r is Stop && fails(Err::<(), Error>(r->Stop_0), ErrorKind::InvalidObjectiveValues)
                },
                Err(e) => r == Verdict::Fail(e),
            },
    {
        match reply {
            Ok(values) => if values.len() == self.directions.len() {
                Verdict::Tell(TrialStateValues::Complete(values))
            } else {
                Verdict::Stop(Error::new(ErrorKind::InvalidObjectiveValues))
            },
            Err(e) => Verdict::Fail(e),
        }
    }

    /// Returns all trials that belong to this study and were not discarded.
    pub fn get_trials(&self, storage: &InMemoryStorage) -> (r: Result<Vec<PersistedTrial>>)
        requires
            storage.wf(),
        ensures
            storage@.has_study(self.id) ==> r is Ok && records_of(r->Ok_0@) == live_records(
                storage@.trials[self.id],
                storage@.trials[self.id].len(),
            ),
            !storage@.has_study(self.id) ==> fails(r, ErrorKind::StudyNotFound),
    {
        match storage.get_trials(self.id) {
            Err(e) => Err(e),
            Ok(trials) => {
                let ghost records = trial_records(trials@);
                let mut out: Vec<PersistedTrial> = Vec::new();
                let mut i: usize = 0;
                assert(records_of(out@) =~= Seq::empty());
                while i < trials.len()
                    invariant
                        i <= trials@.len(),
                        records == trial_records(trials@),
                        records_of(out@) == live_records(records, i as nat),
                    decreases trials@.len() - i,
                {
                    assert(records[i as int] == slot_view(trials@[i as int]));
                    match &trials[i] {
                        Some(trial) => {
                            let ghost before = out@;
                            out.push(trial.duplicate());
                            assert(records_of(out@) =~= records_of(before).push(trial@));
                        }
                        None => {}
                    }
                    i = i + 1;
                }
                Ok(out)
            }
        }
    }

    /// Returns a user attribute stored on the study.
    pub fn get_user_attr(&self, storage: &InMemoryStorage, key: String) -> (r: Result<Option<String>>)
        requires
            storage.wf(),
        ensures
            !storage@.has_study(self.id) ==> fails(r, ErrorKind::StudyNotFound),
            storage@.has_study(self.id) ==> {
                let attrs = storage@.study(self.id).attrs;
                &&& r is Ok
                &&& r->Ok_0 is Some == attrs.contains_key(AttrName::User(key@))
                &&& r->Ok_0 is Some ==> r->Ok_0->Some_0@ == attrs[AttrName::User(key@)]
            },
    {
        match storage.get_study(self.id) {
            Err(e) => Err(e),
            Ok(study) => match study.attrs.get(&AttrKey::User(key)) {
                Some(value) => Ok(Some(value.clone())),
                None => Ok(None),
            },
        }
    }

    /// Sets one or more user attributes on the study.
    pub fn set_user_attr(&self, storage: &mut InMemoryStorage, attrs: &KeyMap<String, String>) -> (r: Result<()>)
        requires
            old(storage).wf(),
        ensures
            final(storage).wf(),
            old(storage)@.has_study(self.id) ==> r is Ok && final(storage)@ == old(storage)@.with_study_attrs(
                self.id,
                old(storage)@.study(self.id).attrs.union_prefer_right(as_user_attrs(attrs@)),
            ),
            !old(storage)@.has_study(self.id) ==> fails(r, ErrorKind::StudyNotFound) && final(storage)@ == old(storage)@,
    {
        let user_attrs = user_attrs_to_attrs(attrs);
        storage.set_study_attrs(self.id, &user_attrs, false)
    }

    /// Inserts an existing persisted trial into the study, with the upper bounds of its
    /// ranges moved to whole steps. Where those of the float ranges with a step move, is
    /// computed outside and handed in as `float_highs`.
    pub fn add_trial(&self, storage: &mut InMemoryStorage, trial: &PersistedTrial, float_highs: &KeyMap<String, Float>) -> (r: Result<()>)
        requires
            old(storage).wf(),
            old(storage)@.next_trial_id < u32::MAX,
            adjustable(trial@.distributions, float_highs@),
        ensures
            final(storage).wf(),
            ({
                let before = old(storage)@;
                let adjusted = trial@.adjusted_to(float_highs@);
                let added = TrialRecord {
                    id: before.next_trial_id,
                    study_id: self.id,
                    number: before.trials[self.id].len() as u32,
                    ..adjusted
                };
                if !adjusted.valid() {
                    refused_as(r, adjusted) && final(storage)@ == before
                } else if adjusted.outcome is Complete && adjusted.outcome->Complete_0.len() != self.directions@.len() {
                    &&& fails_because(
                        r,
                        ErrorKind::InvalidObjectiveValues,
                        "The added trial has "@ + decimal(adjusted.outcome->Complete_0.len())
                            + " values, which is different from the number of objectives "@ + decimal(self.directions@.len())
                            + " in the study."@,
                    )
                    &&& final(storage)@ == before
                } else if !before.has_study(self.id) {
                    fails(r, ErrorKind::StudyNotFound) && final(storage)@ == before
                } else {
                    r is Ok && final(storage)@ == before.with_new_trial(added)
                }
            }),
    {
        let adjusted = trial.adjusted_to(float_highs);
        match adjusted.validate() {
            Err(e) => {
                return Err(e);
            }
            Ok(_) => {}
        }
        match &adjusted.state_values {
            TrialStateValues::Complete(values) => {
                if values.len() != self.directions.len() {
                    let given = joined("The added trial has ", decimal_text(values.len() as u64).as_str());
                    let but = joined(given.as_str(), " values, which is different from the number of objectives ");
                    let wanted = joined(but.as_str(), decimal_text(self.directions.len() as u64).as_str());
                    return Err(Error::with_reason(ErrorKind::InvalidObjectiveValues, joined(wanted.as_str(), " in the study.")));
                }
            }
            _ => {}
        }
        match storage.create_new_trial_from_template(self.id, &adjusted) {
            Err(e) => Err(e),
            Ok(_) => Ok(()),
        }
    }

    /// Enqueues a trial with fixed parameters to be evaluated later.
    pub fn enqueue_trial(
        &self,
        storage: &mut InMemoryStorage,
        queue: &mut InMemoryTrialQueue,
        params: &KeyMap<String, CategoryLabel>,
        user_attrs: &Attrs,
    ) -> (r: Result<()>)
        requires
            old(storage).wf(),
            old(storage)@.next_trial_id < u32::MAX,
        ensures
            final(storage).wf(),
            ({
                let before = old(storage)@;
                let queued = TrialRecord {
                    outcome: Outcome::Waiting,
                    attrs: fixed_attrs(params@).union_prefer_right(user_attrs@),
                    ..TrialRecord::fresh(before.next_trial_id, self.id, before.trials[self.id].len() as u32)
                };
                if before.has_study(self.id) {
                    &&& r is Ok
                    &&& final(storage)@ == before.with_new_trial(queued)
                    &&& final(queue)@ == old(queue)@.push(before.next_trial_id)
                } else {
                    fails(r, ErrorKind::StudyNotFound) && final(storage)@ == before && final(queue)@ == old(queue)@
                }
            }),
    {
        let mut template = PersistedTrial::new(0, self.id, 0);
        template.state_values = TrialStateValues::Waiting;
        template.attrs = fixed_params_to_attrs(params);
        template.attrs.extend(user_attrs);
        match storage.create_new_trial_from_template(self.id, &template) {
            Err(e) => Err(e),
            Ok(trial) => {
                let trial_id: u32 = trial.id;
                queue.enqueue(trial_id);
                Ok(())
            }
        }
    }
}

pub open spec fn records_of(trials: Seq<PersistedTrial>) -> Seq<TrialRecord> {
    Seq::new(trials.len(), |i: int| trials[i]@)
}

/// The trials among the first `n` that are there, in order.
pub open spec fn live_records(trials: Seq<Option<TrialRecord>>, n: nat) -> Seq<TrialRecord>
    decreases n,
{
    if n == 0 {
        Seq::empty()
    } else if trials[n - 1] is Some {
        live_records(trials, (n - 1) as nat).push(trials[n - 1]->Some_0)
    } else {
        live_records(trials, (n - 1) as nat)
    }
}

/// A queued trial is the next one to be asked for, with the parameters it was queued
/// with, where the queue was empty before.
pub proof fn law_enqueued_trial_is_asked_next(
    before: StorageRecord,
    study_id: u32,
    params: Map<Seq<char>, Label>,
    decimals: Map<Seq<char>, Float>,
    now: Seq<char>,
)
    requires
        before.wf(),
        before.has_study(study_id),
        before.next_trial_id < u32::MAX,
    ensures
        ({
            let queued = TrialRecord {
                outcome: Outcome::Waiting,
                attrs: fixed_attrs(params),
                ..TrialRecord::fresh(before.next_trial_id, study_id, before.trials[study_id].len() as u32)
            };
            let after = before.with_new_trial(queued);
            let queue = seq![before.next_trial_id];
            &&& cannot_begin(after, queue, study_id) is None
            &&& beginning(after, queue, study_id, now) == queued
            &&& extracted(beginning(after, queue, study_id, now).attrs, decimals) == params
            &&& begun(after, queue, study_id, now).slot(before.next_trial_id)->Some_0.outcome is Running
        }),
{
    assert(before.trials.contains_key(study_id));
    before.lemma_trials_fit(study_id);
    crate::attr::law_fixed_params_read_back(params, decimals);
}

/// The objective value of a complete trial as a loss.
pub open spec fn first_loss(slot: Option<TrialRecord>, direction: Direction) -> Float {
    loss_of(slot->Some_0.outcome->Complete_0[0], direction)
}

/// The best of the first `n` trials: the first complete one, unless a later one is
/// strictly better than the best before it.
pub open spec fn best_among(trials: Seq<Option<TrialRecord>>, direction: Direction, n: nat) -> Option<int>
    decreases n,
{
    if n == 0 {
        None
    } else {
        let best = best_among(trials, direction, (n - 1) as nat);
        if !completed(trials[n - 1]) {
            best
        } else {
            match best {
                None => Some(n - 1),
                Some(k) => if first_loss(trials[n - 1], direction).below(first_loss(trials[k], direction)) {
                    Some(n - 1)
                } else {
                    Some(k)
                },
            }
        }
    }
}

proof fn lemma_best_among(trials: Seq<Option<TrialRecord>>, direction: Direction, n: nat)
    requires
        n <= trials.len(),
    ensures
        best_among(trials, direction, n) is Some ==> 0 <= best_among(trials, direction, n)->Some_0 < n
            && completed(trials[best_among(trials, direction, n)->Some_0]),
        best_among(trials, direction, n) is None ==> forall|i: int| 0 <= i < n ==> !completed(#[trigger] trials[i]),
    decreases n,
{
    if n > 0 {
        lemma_best_among(trials, direction, (n - 1) as nat);
    }
}

/// Where no objective value is NaN, no complete trial is better than the best one, and
/// none before it is as good.
pub proof fn law_best_trial_is_best(trials: Seq<Option<TrialRecord>>, direction: Direction, n: nat, i: int)
    requires
        n <= trials.len(),
        forall|j: int| 0 <= j < n && completed(#[trigger] trials[j]) ==> !first_loss(trials[j], direction).nan(),
        0 <= i < n,
        completed(trials[i]),
    ensures
        best_among(trials, direction, n) is Some,
        first_loss(trials[best_among(trials, direction, n)->Some_0], direction).rank() <= first_loss(trials[i], direction).rank(),
        i < best_among(trials, direction, n)->Some_0 ==> first_loss(
            trials[best_among(trials, direction, n)->Some_0],
            direction,
        ).rank() < first_loss(trials[i], direction).rank(),
    decreases n,
{
    lemma_best_among(trials, direction, n);
    if i < n - 1 {
        law_best_trial_is_best(trials, direction, (n - 1) as nat, i);
        lemma_best_among(trials, direction, (n - 1) as nat);
    } else {
        lemma_best_among(trials, direction, (n - 1) as nat);
        if best_among(trials, direction, (n - 1) as nat) is Some {
            let k = best_among(trials, direction, (n - 1) as nat)->Some_0;
            assert(completed(trials[k]));
        }
    }
}

/// At most one trial is complete, or every complete trial has exactly one value.
pub open spec fn single_valued(trials: Seq<Option<TrialRecord>>) -> bool {
    forall|i: int, j: int| 0 <= i < trials.len() && 0 <= j < trials.len() && i != j && completed(#[trigger] trials[i]) && completed(
        #[trigger] trials[j],
    ) ==> trials[i]->Some_0.outcome->Complete_0.len() == 1
}

impl Study {
    /// The direction of the only objective.
    pub open spec fn direction(self) -> Direction {
        if self.directions@.len() > 0 {
            self.directions@[0]
        } else {
            Direction::Minimize
        }
    }
}

/// Returns the best completed trial number for a single-objective study.
pub fn get_best_trial(study: &Study, storage: &InMemoryStorage) -> (r: Result<u32>)
    requires
        storage.wf(),
        storage@.has_study(study.id) ==> single_valued(storage@.trials[study.id]),
    ensures
        !storage@.has_study(study.id) ==> fails(r, ErrorKind::StudyNotFound),
        storage@.has_study(study.id) ==> {
            let trials = storage@.trials[study.id];
            match best_among(trials, study.direction(), trials.len()) {
                Some(k) => r is Ok && r->Ok_0 == trials[k]->Some_0.number,
                None => fails(r, ErrorKind::NoCompletedTrial),
            }
        },
{
    let direction = if study.directions.len() > 0 {
        study.directions[0]
    } else {
        Direction::Minimize
    };
    let trials = match storage.get_trials(study.id) {
        Err(e) => {
            return Err(e);
        }
        Ok(trials) => trials,
    };
    let ghost records = trial_records(trials@);
    let mut best: Option<usize> = None;
    let mut i: usize = 0;
    while i < trials.len()
        invariant
            i <= trials@.len(),
            records == trial_records(trials@),
            single_valued(records),
            direction == study.direction(),
            match best {
                Some(k) => k < i && completed(records[k as int]) && best_among(records, direction, i as nat) == Some(k as int),
                None => best_among(records, direction, i as nat) is None,
            },
        decreases trials@.len() - i,
    {
        assert(records[i as int] == slot_view(trials@[i as int]));
        match &trials[i] {
            Some(trial) => match &trial.state_values {
                TrialStateValues::Complete(values) => {
                    assert(completed(records[i as int]));
                    match best {
                        None => {
                            best = Some(i);
                        }
                        Some(k) => {
                            assert(records[k as int] == slot_view(trials@[k as int]));
                            match &trials[k] {
                                Some(other) => match &other.state_values {
                                    TrialStateValues::Complete(other_values) => {
                                        if better(values[0], other_values[0], direction) {
                                            best = Some(i);
                                        }
                                    }
                                    _ => {}
                                },
                                None => {}
                            }
                        }
                    }
                }
                _ => {}
            },
            None => {}
        }
        i = i + 1;
    }
    match best {
        None => Err(Error::new(ErrorKind::NoCompletedTrial)),
        Some(k) => {
            assert(records[k as int] == slot_view(trials@[k as int]));
            match &trials[k] {
                Some(trial) => Ok(trial.number),
                None => Err(Error::new(ErrorKind::NoCompletedTrial)),
            }
        }
    }
}

proof fn lemma_negated(v: Float)
    ensures
        v.negated().rank() == -v.rank(),
        v.negated().nan() == v.nan(),
{
}

fn better(a: Float, b: Float, direction: Direction) -> (r: bool)
    ensures
        r == loss_of(a, direction).below(loss_of(b, direction)),
{
    proof {
        lemma_negated(a);
        lemma_negated(b);
    }
    match direction {
        Direction::Minimize => a.lt(b),
        Direction::Maximize => b.lt(a),
    }
}

/// Every complete trial has one value per direction, and none of them is NaN.
pub open spec fn comparable(trials: Seq<Option<TrialRecord>>, n_directions: nat) -> bool {
    forall|i: int| 0 <= i < trials.len() && completed(#[trigger] trials[i]) ==> {
        let values = trials[i]->Some_0.outcome->Complete_0;
        values.len() == n_directions && clean(values)
    }
}

/// Checks that the complete trials can be compared.
pub fn validate_trials(trials: &Vec<Option<PersistedTrial>>, directions: &Vec<Direction>) -> (r: Result<()>)
    ensures
        r is Ok == comparable(trial_records(trials@), directions@.len()),
        r is Err ==> fails(r, ErrorKind::InvalidObjectiveValues),
{
    let ghost records = trial_records(trials@);
    let mut i: usize = 0;
    while i < trials.len()
        invariant
            i <= trials@.len(),
            records == trial_records(trials@),
            forall|j: int| 0 <= j < i && completed(#[trigger] records[j]) ==> {
                let values = records[j]->Some_0.outcome->Complete_0;
                values.len() == directions@.len() && clean(values)
            },
        decreases trials@.len() - i,
    {
        assert(records[i as int] == slot_view(trials@[i as int]));
        match &trials[i] {
            Some(trial) => match &trial.state_values {
                TrialStateValues::Complete(values) => {
                    if values.len() != directions.len() || row_has_nan(values) {
                        assert(completed(records[i as int]));
                        return Err(Error::new(ErrorKind::InvalidObjectiveValues));
                    }
                }
                _ => {}
            },
            None => {}
        }
        i = i + 1;
    }
    Ok(())
}

/// Returns whether `values0` dominates `values1` under the given directions.
pub fn dominates(values0: &Vec<Float>, values1: &Vec<Float>, directions: &Vec<Direction>) -> (r: bool)
    requires
        values0@.len() == directions@.len(),
        values1@.len() == directions@.len(),
        clean(values0@),
        clean(values1@),
    ensures
        r == nds::dominates(loss_row(values0@, directions@), loss_row(values1@, directions@)),
{
    let ghost a = loss_row(values0@, directions@);
    let ghost b = loss_row(values1@, directions@);
    let mut equal = true;
    let mut k: usize = 0;
    while k < directions.len()
        invariant
            k <= directions@.len(),
            values0@.len() == directions@.len(),
            values1@.len() == directions@.len(),
            clean(values0@),
            clean(values1@),
            a == loss_row(values0@, directions@),
            b == loss_row(values1@, directions@),
            forall|q: int| 0 <= q < k ==> (#[trigger] a[q]).rank() <= b[q].rank(),
            equal == forall|q: int| 0 <= q < k ==> (#[trigger] b[q]).rank() <= a[q].rank(),
        decreases directions@.len() - k,
    {
        proof {
            assert(!values0@[k as int].nan() && !values1@[k as int].nan());
            lemma_negated(values0@[k as int]);
            lemma_negated(values1@[k as int]);
            assert(a[k as int] == loss_of(values0@[k as int], directions@[k as int]));
            assert(b[k as int] == loss_of(values1@[k as int], directions@[k as int]));
        }
        if better(values1[k], values0[k], directions[k]) {
            assert(!(a[k as int].rank() <= b[k as int].rank()));
            return false;
        }
        if !values0[k].num_eq(values1[k]) {
            assert(!(b[k as int].rank() <= a[k as int].rank()));
            equal = false;
        }
        k = k + 1;
    }
    !equal
}

/// No complete trial dominates the trial.
pub open spec fn undominated(trials: Seq<Option<TrialRecord>>, directions: Seq<Direction>, i: int) -> bool {
    forall|j: int| 0 <= j < trials.len() && completed(#[trigger] trials[j]) ==> !beats(trials, directions, j, i)
}

/// Trial `j` dominates trial `i`.
pub open spec fn beats(trials: Seq<Option<TrialRecord>>, directions: Seq<Direction>, j: int, i: int) -> bool {
    nds::dominates(
        loss_row(trials[j]->Some_0.outcome->Complete_0, directions),
        loss_row(trials[i]->Some_0.outcome->Complete_0, directions),
    )
}

/// The numbers of the complete trials among the first `n` that no complete trial
/// dominates.
pub open spec fn pareto_numbers(trials: Seq<Option<TrialRecord>>, directions: Seq<Direction>, n: nat) -> Seq<u32>
    decreases n,
{
    if n == 0 {
        Seq::empty()
    } else {
        let head = pareto_numbers(trials, directions, (n - 1) as nat);
        if completed(trials[n - 1]) && undominated(trials, directions, n - 1) {
            head.push(trials[n - 1]->Some_0.number)
        } else {
            head
        }
    }
}

fn is_dominated(trials: &Vec<Option<PersistedTrial>>, directions: &Vec<Direction>, at: usize) -> (r: bool)
    requires
        comparable(trial_records(trials@), directions@.len()),
        at < trials@.len(),
        completed(trial_records(trials@)[at as int]),
    ensures
        r == !undominated(trial_records(trials@), directions@, at as int),
{
    let ghost records = trial_records(trials@);
    assert(records[at as int] == slot_view(trials@[at as int]));
    let empty: Vec<Float> = Vec::new();
    let values: &Vec<Float> = match &trials[at] {
        Some(trial) => match &trial.state_values {
            TrialStateValues::Complete(values) => values,
            _ => &empty,
        },
        None => &empty,
    };
    let mut j: usize = 0;
    while j < trials.len()
        invariant
            j <= trials@.len(),
            records == trial_records(trials@),
            comparable(records, directions@.len()),
            at < trials@.len(),
            completed(records[at as int]),
            values@ == records[at as int]->Some_0.outcome->Complete_0,
            forall|q: int| 0 <= q < j && completed(#[trigger] records[q]) ==> !beats(records, directions@, q, at as int),
        decreases trials@.len() - j,
    {
        assert(records[j as int] == slot_view(trials@[j as int]));
        match &trials[j] {
            Some(other) => match &other.state_values {
                TrialStateValues::Complete(other_values) => {
                    assert(completed(records[j as int]));
                    if dominates(other_values, values, directions) {
                        assert(beats(records, directions@, j as int, at as int));
                        return true;
                    }
                }
                _ => {}
            },
            None => {}
        }
        j = j + 1;
    }
    false
}

/// Returns the trial numbers on the Pareto front of a multi-objective study.
pub fn get_pareto_front(study: &Study, storage: &InMemoryStorage) -> (r: Result<Vec<u32>>)
    requires
        storage.wf(),
    ensures
        ({
            let trials = storage@.trials[study.id];
            if !storage@.has_study(study.id) {
                fails(r, ErrorKind::StudyNotFound)
            } else if !comparable(trials, study.directions@.len()) {
                fails(r, ErrorKind::InvalidObjectiveValues)
            } else {
                r is Ok && r->Ok_0@ == pareto_numbers(trials, study.directions@, trials.len())
            }
        }),
{
    let trials = match storage.get_trials(study.id) {
        Err(e) => {
            return Err(e);
        }
        Ok(trials) => trials,
    };
    match validate_trials(trials, &study.directions) {
        Err(e) => {
            return Err(e);
        }
        Ok(_) => {}
    }
    let ghost records = trial_records(trials@);
    let mut numbers: Vec<u32> = Vec::new();
    let mut i: usize = 0;
    while i < trials.len()
        invariant
            i <= trials@.len(),
            records == trial_records(trials@),
            comparable(records, study.directions@.len()),
            numbers@ == pareto_numbers(records, study.directions@, i as nat),
        decreases trials@.len() - i,
    {
        assert(records[i as int] == slot_view(trials@[i as int]));
        match &trials[i] {
            Some(trial) => {
                if matches!(trial.state_values, TrialStateValues::Complete(_)) {
                    if !is_dominated(trials, &study.directions, i) {
                        numbers.push(trial.number);
                    }
                }
            }
            None => {}
        }
        i = i + 1;
    }
    Ok(numbers)
}

proof fn lemma_some_undominated(trials: Seq<Option<TrialRecord>>, directions: Seq<Direction>, n: nat) -> (i: int)
    requires
        n <= trials.len(),
        exists|j: int| 0 <= j < n && completed(#[trigger] trials[j]),
    ensures
        0 <= i < n,
        completed(trials[i]),
        forall|j: int| 0 <= j < n && completed(#[trigger] trials[j]) ==> !beats(trials, directions, j, i),
    decreases n,
{
    let last = n - 1;
    if !completed(trials[last]) {
        lemma_some_undominated(trials, directions, last as nat)
    } else if !(exists|j: int| 0 <= j < last && completed(#[trigger] trials[j])) {
        last
    } else {
        let i = lemma_some_undominated(trials, directions, last as nat);
        if beats(trials, directions, last, i) {
            assert forall|j: int| 0 <= j < n && completed(#[trigger] trials[j]) implies !beats(trials, directions, j, last) by {
                if j < last && beats(trials, directions, j, last) {
                    lemma_dominates_transitive(
                        loss_row(trials[j]->Some_0.outcome->Complete_0, directions),
                        loss_row(trials[last]->Some_0.outcome->Complete_0, directions),
                        loss_row(trials[i]->Some_0.outcome->Complete_0, directions),
                    );
                }
            }
            last
        } else {
            i
        }
    }
}

proof fn lemma_pareto_numbers_hold(trials: Seq<Option<TrialRecord>>, directions: Seq<Direction>, n: nat, i: int)
    requires
        0 <= i < n <= trials.len(),
        completed(trials[i]),
        undominated(trials, directions, i),
    ensures
        pareto_numbers(trials, directions, n).contains(trials[i]->Some_0.number),
    decreases n,
{
    let all = pareto_numbers(trials, directions, n);
    let head = pareto_numbers(trials, directions, (n - 1) as nat);
    if i < n - 1 {
        lemma_pareto_numbers_hold(trials, directions, (n - 1) as nat, i);
        let k = choose|k: int| 0 <= k < head.len() && head[k] == trials[i]->Some_0.number;
        assert(all[k] == head[k]);
    } else {
        assert(all[head.len() as int] == trials[i]->Some_0.number);
    }
}

/// Where there is a complete trial, the Pareto front is not empty.
pub proof fn law_pareto_front_is_not_empty(trials: Seq<Option<TrialRecord>>, directions: Seq<Direction>)
    requires
        exists|j: int| 0 <= j < trials.len() && completed(#[trigger] trials[j]),
    ensures
        pareto_numbers(trials, directions, trials.len()).len() > 0,
{
    let i = lemma_some_undominated(trials, directions, trials.len());
    assert(undominated(trials, directions, i));
    lemma_pareto_numbers_hold(trials, directions, trials.len(), i);
}

/// Where no value is NaN, the best trial has the smallest value of all complete trials under
/// `Minimize` and the largest under `Maximize`, and is the first of those that have it.
pub proof fn law_best_value_goes_by_direction(trials: Seq<Option<TrialRecord>>, direction: Direction, n: nat, i: int)
    requires
        n <= trials.len(),
        forall|j: int|
            0 <= j < n && (#[trigger] trials[j]) is Some && trials[j]->Some_0.outcome is Complete ==> !trials[j]->Some_0.outcome->Complete_0[0].nan(),
        0 <= i < n,
        trials[i] is Some,
        trials[i]->Some_0.outcome is Complete,
    ensures
        best_among(trials, direction, n) is Some,
        ({
            let k = best_among(trials, direction, n)->Some_0;
            let best = trials[k]->Some_0.outcome->Complete_0[0];
            let value = trials[i]->Some_0.outcome->Complete_0[0];
            &&& 0 <= k < n && trials[k] is Some && trials[k]->Some_0.outcome is Complete
            &&& direction is Minimize ==> !value.below(best) && (i < k ==> best.below(value))
            &&& direction is Maximize ==> !best.below(value) && (i < k ==> value.below(best))
        }),
{
    assert forall|j: int| 0 <= j < n && completed(#[trigger] trials[j]) implies !first_loss(trials[j], direction).nan() by {
        let v = trials[j]->Some_0.outcome->Complete_0[0];
        law_losses_go_by_direction(v, v, direction);
    }
    law_best_trial_is_best(trials, direction, n, i);
    lemma_best_among(trials, direction, n);
    let k = best_among(trials, direction, n)->Some_0;
    assert(completed(trials[k]));
    let best = trials[k]->Some_0.outcome->Complete_0[0];
    let value = trials[i]->Some_0.outcome->Complete_0[0];
    law_losses_go_by_direction(value, best, direction);
    law_losses_go_by_direction(best, value, direction);
}

/// Without a complete trial there is no best one.
pub proof fn law_nothing_complete_has_no_best(trials: Seq<Option<TrialRecord>>, direction: Direction, n: nat)
    requires
        n <= trials.len(),
        forall|j: int| 0 <= j < n && (#[trigger] trials[j]) is Some ==> !(trials[j]->Some_0.outcome is Complete),
    ensures
        best_among(trials, direction, n) is None,
{
    lemma_best_among(trials, direction, n);
}

/// A complete trial dominates another one where it is at least as good in every objective, as
/// the objective's direction counts, and better in one.
pub proof fn law_trials_dominate_by_their_objectives(trials: Seq<Option<TrialRecord>>, directions: Seq<Direction>, j: int, i: int)
    requires
        trials[i]->Some_0.outcome->Complete_0.len() == directions.len(),
        trials[j]->Some_0.outcome->Complete_0.len() == directions.len(),
        clean(trials[i]->Some_0.outcome->Complete_0),
        clean(trials[j]->Some_0.outcome->Complete_0),
    ensures
        beats(trials, directions, j, i) <==> {
            let u = trials[j]->Some_0.outcome->Complete_0;
            let v = trials[i]->Some_0.outcome->Complete_0;
            &&& forall|k: int|
                0 <= k < directions.len() ==> match #[trigger] directions[k] {
                    Direction::Minimize => !v[k].below(u[k]),
                    Direction::Maximize => !u[k].below(v[k]),
                }
            &&& exists|k: int|
                0 <= k < directions.len() && match #[trigger] directions[k] {
                    Direction::Minimize => u[k].below(v[k]),
                    Direction::Maximize => v[k].below(u[k]),
                }
        },
{
    let u = trials[j]->Some_0.outcome->Complete_0;
    let v = trials[i]->Some_0.outcome->Complete_0;
    law_dominance_of_losses(u, v, directions);
}

/// The Pareto front lists the numbers of the complete trials that no complete trial dominates,
/// in order.
pub proof fn law_pareto_front_is_not_dominated(
    trials: Seq<Option<TrialRecord>>,
    directions: Seq<Direction>,
    n: nat,
    front: spec_fn(int) -> bool,
)
    requires
        n <= trials.len(),
        forall|i: int| 0 <= i < n ==> #[trigger] front(i) == {
            &&& trials[i] is Some
            &&& trials[i]->Some_0.outcome is Complete
            &&& forall|j: int|
                0 <= j < trials.len() && (#[trigger] trials[j]) is Some && trials[j]->Some_0.outcome is Complete ==> !beats(trials, directions, j, i)
        },
    ensures
        pareto_numbers(trials, directions, n) == Seq::new(picks(n, front).len(), |k: int| trials[picks(n, front)[k]]->Some_0.number),
    decreases n,
{
    let all = Seq::new(picks(n, front).len(), |k: int| trials[picks(n, front)[k]]->Some_0.number);
    if n > 0 {
        law_pareto_front_is_not_dominated(trials, directions, (n - 1) as nat, front);
        assert(front(n - 1) == (completed(trials[n - 1]) && undominated(trials, directions, n - 1)));
        if front(n - 1) {
            assert(picks(n, front) == picks((n - 1) as nat, front).push(n - 1));
        }
        assert(pareto_numbers(trials, directions, n) =~= all);
    } else {
        assert(pareto_numbers(trials, directions, n) =~= all);
    }
}

/// Without a queued trial, a new one begins: running from now on, with the next id and number
/// and nothing set.
pub proof fn law_new_trial_begins_empty(before: StorageRecord, study_id: u32, now: Seq<char>)
    ensures
        ({
            let trial = beginning(before, Seq::empty(), study_id, now);
            &&& trial.outcome is Running
            &&& trial.id == before.next_trial_id
            &&& trial.study_id == study_id
            &&& trial.number == before.trials[study_id].len() as u32
            &&& trial.datetime_start == Some(now) && trial.datetime_complete is None
            &&& trial.params == Map::<Seq<char>, Float>::empty() && trial.distributions == Map::<Seq<char>, Space>::empty()
            &&& trial.attrs == Map::<AttrName, Seq<char>>::empty() && trial.constraints == Map::<Seq<char>, Float>::empty()
            &&& trial.intermediate_values.dom() == Set::<u32>::empty()
            &&& begun(before, Seq::empty(), study_id, now) == before.with_new_trial(trial)
        }),
        cannot_begin(before, Seq::empty(), study_id) is None <==> before.has_study(study_id),
{
}

/// The live trials are those that were not discarded, in order.
pub proof fn law_live_trials_are_those_left(trials: Seq<Option<TrialRecord>>, n: nat, there: spec_fn(int) -> bool)
    requires
        n <= trials.len(),
        forall|i: int| 0 <= i < n ==> #[trigger] there(i) == (trials[i] is Some),
    ensures
        live_records(trials, n) == Seq::new(picks(n, there).len(), |k: int| trials[picks(n, there)[k]]->Some_0),
    decreases n,
{
    let all = Seq::new(picks(n, there).len(), |k: int| trials[picks(n, there)[k]]->Some_0);
    if n > 0 {
        law_live_trials_are_those_left(trials, (n - 1) as nat, there);
        assert(there(n - 1) == (trials[n - 1] is Some));
        if there(n - 1) {
            assert(picks(n, there) == picks((n - 1) as nat, there).push(n - 1));
        }
        assert(live_records(trials, n) =~= all);
    } else {
        assert(live_records(trials, n) =~= all);
    }
}

/// A joint sample is kept for the parameters that were asked for and sampled, each with the
/// distribution it was sampled for.
pub proof fn law_joint_sample_keeps_its_distributions(space: Map<Seq<char>, Space>, sampled: Map<Seq<char>, Float>, name: Seq<char>)
    ensures
        joint_params(space, sampled).contains_key(name) == (space.contains_key(name) && sampled.contains_key(name)),
        joint_params(space, sampled).contains_key(name) ==> joint_params(space, sampled)[name].0 == space[name] && joint_params(space, sampled)[name].1
            == sampled[name],
{
}

/// Trials can be compared where every complete one has as many values as there are objectives,
/// and no value is NaN.
pub proof fn law_comparable_trials_have_all_values(trials: Seq<Option<TrialRecord>>, n_directions: nat)
    ensures
        comparable(trials, n_directions) <==> forall|i: int|
            0 <= i < trials.len() && (#[trigger] trials[i]) is Some && trials[i]->Some_0.outcome is Complete ==> {
                let values = trials[i]->Some_0.outcome->Complete_0;
                values.len() == n_directions && forall|k: int| 0 <= k < values.len() ==> !(#[trigger] values[k]).nan()
            },
{
    if forall|i: int|
        0 <= i < trials.len() && (#[trigger] trials[i]) is Some && trials[i]->Some_0.outcome is Complete ==> {
            let values = trials[i]->Some_0.outcome->Complete_0;
            values.len() == n_directions && forall|k: int| 0 <= k < values.len() ==> !(#[trigger] values[k]).nan()
        } {
        assert forall|i: int| 0 <= i < trials.len() && completed(#[trigger] trials[i]) implies trials[i]->Some_0.outcome->Complete_0.len() == n_directions
            && clean(trials[i]->Some_0.outcome->Complete_0) by {}
    }
}

/// A study with one objective goes by that objective's direction; without any, it minimizes.
pub proof fn law_study_goes_by_its_first_direction(study: Study)
    ensures
        study.directions@.len() == 0 ==> study.direction() is Minimize,
        study.directions@.len() > 0 ==> study.direction() == study.directions@[0],
{
}

} // verus!
