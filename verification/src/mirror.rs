//! A storage kept in step with another one.
//!
//! Studies and trials that live elsewhere are copied into an in-memory storage. What is
//! there elsewhere is fetched outside and handed in.

use std::collections::HashMap;

use vstd::prelude::*;

use crate::attr::{AttrName, Attrs};
use crate::distribution::Space;
use crate::error::{fails, Error, ErrorKind, Result};
use crate::float::Float;
use crate::id_map::occupied;
use crate::key_map::{Duplicate, KeyMap, Same};
use crate::order::{covers, positions_by_key};
use crate::storage::{refused, InMemoryStorage, StorageRecord};
use crate::study::{copy_directions, PersistedStudy, StudyRecord};
use crate::trial::{param_recorded, param_refused, Outcome, PersistedTrial, TrialRecord};

verus! {

broadcast use vstd::std_specs::hash::group_hash_axioms;

/// What of a trial is kept in step besides its attributes, parameters and state.
#[derive(Clone, Copy, Debug)]
pub struct Scope {
    pub constraints: bool,
    pub intermediate_values: bool,
}

/// A storage after a step, and why the step failed, if it did.
pub struct Step {
    pub rec: StorageRecord,
    pub why: Option<ErrorKind>,
}

/// The step comes to an end here.
pub open spec fn halted(rec: StorageRecord, why: ErrorKind) -> Step {
    Step { rec, why: Some(why) }
}

/// Finding or making room for a trial of the given id and number, where the study is
/// believed to hold `n` trials.
pub open spec fn aligned(rec: StorageRecord, study_id: u32, trial_id: u32, number: u32, n: u32) -> Step {
    let len = rec.trials[study_id].len();
    let place = (study_id, number);
    if number > n {
        halted(rec, ErrorKind::StorageError)
    } else if number < n {
        if !occupied(rec.ids, place) {
            halted(rec, ErrorKind::TrialNotFound)
        } else if rec.ids.contains_key(trial_id) && rec.ids[trial_id] == place {
            Step { rec, why: None }
        } else {
            halted(rec, ErrorKind::StorageError)
        }
    } else if !rec.has_study(study_id) {
        halted(rec, ErrorKind::StudyNotFound)
    } else if number > len {
        halted(rec, ErrorKind::StorageError)
    } else if number < len {
        match rec.trials[study_id][number as int] {
            None => halted(rec, ErrorKind::TrialDiscarded),
            Some(t) => if t.id != trial_id {
                halted(rec, ErrorKind::StorageError)
            } else {
                Step { rec, why: None }
            },
        }
    } else if rec.ids.contains_key(trial_id) {
        halted(rec, ErrorKind::StorageError)
    } else {
        Step { rec: rec.with_new_trial(TrialRecord::fresh(trial_id, study_id, number)), why: None }
    }
}

/// The source's parameters from position `i` on recorded, without those that the copy had
/// before.
pub open spec fn params_copied(rec: StorageRecord, source: TrialRecord, names: Seq<Seq<char>>, had: Map<Seq<char>, Space>, i: int) -> Step
    decreases names.len() - i,
{
    if i >= names.len() {
        Step { rec, why: None }
    } else {
        let name = names[i];
        let space = source.distributions[name];
        if !source.params.contains_key(name) {
            halted(rec, ErrorKind::StorageError)
        } else if had.contains_key(name) {
            params_copied(rec, source, names, had, i + 1)
        } else {
            match param_refused(rec, source.id, name, space) {
                Some(kind) => halted(rec, kind),
                None => params_copied(
                    param_recorded(rec, source.id, name, space, source.params[name]),
                    source,
                    names,
                    had,
                    i + 1,
                ),
            }
        }
    }
}

/// The same names with the same numbers. Both zeros are one number, and a NaN is none.
pub open spec fn same_values(a: Map<Seq<char>, Float>, b: Map<Seq<char>, Float>) -> bool {
    &&& a.dom() == b.dom()
    &&& forall|name: Seq<char>| #[trigger] a.contains_key(name) ==> a[name].same(b[name])
}

fn equal_values(a: &KeyMap<String, Float>, b: &KeyMap<String, Float>) -> (r: bool)
    ensures
        r == same_values(a@, b@),
{
    let n: usize = a.len();
    if b.len() != n {
        return false;
    }
    let ghost keys = a.keys();
    let mut i: usize = 0;
    while i < n
        invariant
            i <= n,
            keys == a.keys(),
            n == keys.len(),
            forall|k: int| 0 <= k < i ==> b@.contains_key(#[trigger] keys[k]) && a@[keys[k]].same(b@[keys[k]]),
        decreases n - i,
    {
        let e = a.entry(i);
        let equal = match b.get(e.0) {
            Some(value) => !e.1.is_nan() && !value.is_nan() && e.1.key() == value.key(),
            None => false,
        };
        if !equal {
            assert(a@.contains_key(keys[i as int]));
            return false;
        }
        i = i + 1;
    }
    proof {
        assert forall|name: Seq<char>| #[trigger] a@.contains_key(name) implies b@.contains_key(name) && a@[name].same(b@[name]) by {
            assert(keys.to_set().contains(name));
            let k = choose|k: int| 0 <= k < keys.len() && keys[k] == name;
            assert(b@.contains_key(keys[k]));
        }
        vstd::set_lib::lemma_subset_equality(a@.dom(), b@.dom());
    }
    true
}

/// The source's attributes set on the copy, and its constraints where they are in scope and
/// differ.
pub open spec fn attrs_copied(rec: StorageRecord, source: TrialRecord, scope: Scope) -> StorageRecord {
    let t = rec.slot(source.id)->Some_0;
    rec.with_slot(
        source.id,
        Some(
            TrialRecord {
                attrs: t.attrs.union_prefer_right(source.attrs),
                constraints: if scope.constraints && !same_values(t.constraints, source.constraints) {
                    source.constraints
                } else {
                    t.constraints
                },
                ..t
            },
        ),
    )
}

/// The source's intermediate values set on the copy, where they are in scope.
pub open spec fn steps_copied(rec: StorageRecord, source: TrialRecord, scope: Scope) -> StorageRecord {
    let t = rec.slot(source.id)->Some_0;
    if scope.intermediate_values {
        rec.with_slot(
            source.id,
            Some(
                TrialRecord {
                    intermediate_values: t.intermediate_values.union_prefer_right(source.intermediate_values),
                    ..t
                },
            ),
        )
    } else {
        rec
    }
}

/// The source's state set on the copy, where it differs from the one the copy had.
pub open spec fn state_copied(rec: StorageRecord, source: TrialRecord, had: Outcome, now: Seq<char>) -> StorageRecord {
    if had.equals(source.outcome) {
        rec
    } else {
        rec.with_slot(source.id, Some(rec.slot(source.id)->Some_0.in_state(source.outcome, now)))
    }
}

/// A source trial copied: it finds its place, a finished copy stays as it is, and an
/// unfinished one takes over what the source has.
pub open spec fn trial_copied(
    before: StorageRecord,
    study_id: u32,
    source: TrialRecord,
    names: Seq<Seq<char>>,
    n: u32,
    scope: Scope,
    now: Seq<char>,
) -> Step {
    let placed = aligned(before, study_id, source.id, source.number, n);
    let rec = placed.rec;
    if placed.why is Some {
        placed
    } else if rec.unreadable(source.id) is Some {
        Step { rec, why: rec.unreadable(source.id) }
    } else {
        let copy = rec.slot(source.id)->Some_0;
        if copy.outcome.finished() {
            Step { rec, why: None }
        } else {
            let filled = params_copied(attrs_copied(rec, source, scope), source, names, copy.distributions, 0);
            if filled.why is Some {
                filled
            } else {
                Step { rec: state_copied(steps_copied(filled.rec, source, scope), source, copy.outcome, now), why: None }
            }
        }
    }
}

pub open spec fn step_result(r: Result<()>, step: Step) -> bool {
    refused(r, step.why)
}

fn align(storage: &mut InMemoryStorage, study_id: u32, source: &PersistedTrial, n: u32) -> (r: Result<()>)
    requires
        old(storage).wf(),
        source.id < u32::MAX,
    ensures
        final(storage).wf(),
        final(storage)@ == aligned(old(storage)@, study_id, source.id, source.number, n).rec,
        step_result(r, aligned(old(storage)@, study_id, source.id, source.number, n)),
{
    if source.number > n {
        return Err(Error::new(ErrorKind::StorageError));
    }
    if source.number < n {
        proof {
            storage.lemma_wf();
        }
        return match storage.get_trial_id_from_study_id_trial_number(study_id, source.number) {
            Err(e) => Err(e),
            Ok(trial_id) => if trial_id != source.id {
                Err(Error::new(ErrorKind::StorageError))
            } else {
                Ok(())
            },
        };
    }
    match storage.insert_trial_with_id(study_id, source.id, source.number) {
        Err(e) => Err(e),
        Ok(_) => Ok(()),
    }
}

/// A trial that can be changed, and stays so while parameters are recorded.
proof fn lemma_param_keeps(rec: StorageRecord, trial_id: u32, name: Seq<char>, space: Space, value: Float)
    requires
        rec.wf(),
        rec.unchangeable(trial_id) is None,
    ensures
        ({
            let after = param_recorded(rec, trial_id, name, space, value);
            &&& after.unchangeable(trial_id) is None
            &&& after.ids == rec.ids
            &&& after.slot(trial_id)->Some_0.outcome == rec.slot(trial_id)->Some_0.outcome
        }),
{
    assert(rec.ids.contains_key(trial_id));
}

fn copy_params(storage: &mut InMemoryStorage, source: &PersistedTrial, had: &KeyMap<String, crate::distribution::Distribution>) -> (r: Result<()>)
    requires
        old(storage).wf(),
        old(storage)@.unchangeable(source.id) is None,
    ensures
        final(storage).wf(),
        ({
            let step = params_copied(old(storage)@, source@, source.distributions.keys(), had@, 0);
            &&& final(storage)@ == step.rec
            &&& step_result(r, step)
            &&& final(storage)@.unchangeable(source.id) is None
        }),
{
    let n: usize = source.distributions.len();
    let ghost names = source.distributions.keys();
    let ghost goal = params_copied(old(storage)@, source@, names, had@, 0);
    let mut i: usize = 0;
    while i < n
        invariant
            i <= n,
            names == source.distributions.keys(),
            n == names.len(),
            storage.wf(),
            storage@.unchangeable(source.id) is None,
            goal == params_copied(old(storage)@, source@, names, had@, 0),
            goal == params_copied(storage@, source@, names, had@, i as int),
        decreases n - i,
    {
        let e = source.distributions.entry(i);
        match source.internal_params.get(e.0) {
            None => {
                return Err(Error::new(ErrorKind::StorageError));
            }
            Some(value) => {
                if !had.contains_key(e.0) {
                    proof {
                        storage.lemma_wf();
                        lemma_param_keeps(storage@, source.id, names[i as int], e.1@, *value);
                    }
                    match storage.set_trial_param(source.id, e.0.as_str(), e.1, *value) {
                        Err(e) => {
                            return Err(e);
                        }
                        Ok(_) => {}
                    }
                }
            }
        }
        i = i + 1;
    }
    Ok(())
}

proof fn lemma_with_slot_changeable(rec: StorageRecord, trial_id: u32, trial: TrialRecord)
    requires
        rec.wf(),
        rec.unchangeable(trial_id) is None,
        trial.outcome == rec.slot(trial_id)->Some_0.outcome,
    ensures
        rec.with_slot(trial_id, Some(trial)).unchangeable(trial_id) is None,
        rec.with_slot(trial_id, Some(trial)).slot(trial_id) == Some(trial),
{
    assert(rec.ids.contains_key(trial_id));
}

/// Copies a source trial into a study that is believed to hold `cache_n_trials` trials.
pub fn sync_trial(storage: &mut InMemoryStorage, cache_study_id: u32, source: &PersistedTrial, cache_n_trials: u32, scope: Scope, now: String) -> (r: Result<()>)
    requires
        old(storage).wf(),
        source.id < u32::MAX,
    ensures
        final(storage).wf(),
        ({
            let step = trial_copied(old(storage)@, cache_study_id, source@, source.distributions.keys(), cache_n_trials, scope, now@);
            final(storage)@ == step.rec && step_result(r, step)
        }),
{
    match align(storage, cache_study_id, source, cache_n_trials) {
        Err(e) => {
            return Err(e);
        }
        Ok(_) => {}
    }
    let ghost placed = storage@;
    let copy = match storage.get_trial(source.id) {
        Err(e) => {
            return Err(e);
        }
        Ok(trial) => trial.duplicate(),
    };
    if copy.is_finished() {
        return Ok(());
    }
    proof {
        storage.lemma_wf();
        assert(placed.unchangeable(source.id) is None);
        let t = placed.slot(source.id)->Some_0;
        lemma_with_slot_changeable(
            placed,
            source.id,
            TrialRecord { attrs: t.attrs.union_prefer_right(source@.attrs), ..t },
        );
    }
    match storage.set_trial_attrs(source.id, &source.attrs, false) {
        Err(e) => {
            return Err(e);
        }
        Ok(_) => {}
    }
    let ghost with_attrs = storage@;
    if scope.constraints && !equal_values(&copy.constraints, &source.constraints) {
        match storage.set_trial_constraints(source.id, source.constraints.duplicate()) {
            Err(e) => {
                return Err(e);
            }
            Ok(_) => {}
        }
    }
    proof {
        let t = placed.slot(source.id)->Some_0;
        let u = TrialRecord { attrs: t.attrs.union_prefer_right(source@.attrs), ..t };
        let v = TrialRecord {
            attrs: t.attrs.union_prefer_right(source@.attrs),
            constraints: if scope.constraints && !same_values(t.constraints, source@.constraints) {
                source@.constraints
            } else {
                t.constraints
            },
            ..t
        };
        assert(with_attrs == placed.with_slot(source.id, Some(u)));
        lemma_slot_over(placed, source.id, Some(u), Some(v));
        assert(storage@ == attrs_copied(placed, source@, scope));
        lemma_with_slot_changeable(placed, source.id, v);
    }
    match copy_params(storage, source, &copy.distributions) {
        Err(e) => {
            return Err(e);
        }
        Ok(_) => {}
    }
    let ghost filled = storage@;
    proof {
        storage.lemma_wf();
        let t = filled.slot(source.id)->Some_0;
        let u = TrialRecord {
            intermediate_values: t.intermediate_values.union_prefer_right(source@.intermediate_values),
            ..t
        };
        lemma_with_slot_changeable(filled, source.id, u);
    }
    if scope.intermediate_values {
        match storage.set_trial_intermediate_values(source.id, &source.intermediate_values) {
            Err(e) => {
                return Err(e);
            }
            Ok(_) => {}
        }
    }
    if !copy.state_values.equals(&source.state_values) {
        match storage.set_trial_state_values(source.id, source.state_values.duplicate(), now) {
            Err(e) => {
                return Err(e);
            }
            Ok(_) => {}
        }
    }
    Ok(())
}

proof fn lemma_slot_over(rec: StorageRecord, trial_id: u32, a: Option<TrialRecord>, b: Option<TrialRecord>)
    requires
        rec.wf(),
        rec.ids.contains_key(trial_id),
    ensures
        rec.with_slot(trial_id, a).with_slot(trial_id, b) == rec.with_slot(trial_id, b),
{
    let place = rec.ids[trial_id];
    let trials = rec.trials[place.0];
    assert(trials.update(place.1 as int, a).update(place.1 as int, b) =~= trials.update(place.1 as int, b));
    assert(rec.with_slot(trial_id, a).with_slot(trial_id, b).trials =~= rec.with_slot(trial_id, b).trials);
}

proof fn lemma_aligned(rec: StorageRecord, study_id: u32, trial_id: u32, number: u32, n: u32)
    requires
        rec.wf(),
        trial_id < u32::MAX,
    ensures
        aligned(rec, study_id, trial_id, number, n).rec.wf(),
{
    if number == n && rec.has_study(study_id) && number == rec.trials[study_id].len() && !rec.ids.contains_key(trial_id) {
        crate::storage::lemma_with_new_trial(rec, TrialRecord::fresh(trial_id, study_id, number));
    }
}

/// Where a source trial was copied without failure, its copy was finished before, or it
/// has the source's attributes, the source's parameters besides those it had, and the
/// source's state; constraints and intermediate values too, where they are in scope.
pub proof fn law_copied_trial_mirrors_source(
    before: StorageRecord,
    study_id: u32,
    source: TrialRecord,
    names: Seq<Seq<char>>,
    n: u32,
    scope: Scope,
    now: Seq<char>,
)
    requires
        before.wf(),
        source.id < u32::MAX,
        trial_copied(before, study_id, source, names, n, scope, now).why is None,
    ensures
        ({
            let after = trial_copied(before, study_id, source, names, n, scope, now).rec;
            let had = aligned(before, study_id, source.id, source.number, n).rec.slot(source.id)->Some_0;
            let copy = after.slot(source.id)->Some_0;
            &&& after.ids.contains_key(source.id)
            &&& had.outcome.finished() ==> copy == had
            &&& !had.outcome.finished() ==> {
                &&& source.attrs.submap_of(copy.attrs)
                &&& scope.constraints ==> copy.constraints == source.constraints || same_values(copy.constraints, source.constraints)
                &&& scope.intermediate_values ==> source.intermediate_values.submap_of(copy.intermediate_values)
                &&& had.outcome.equals(source.outcome) || copy.outcome == source.outcome
                &&& forall|k: int| 0 <= k < names.len() && !had.distributions.contains_key(#[trigger] names[k]) ==> takes_over(
                    copy,
                    source,
                    names[k],
                )
                &&& forall|name: Seq<char>| #[trigger] had.distributions.contains_key(name) ==> takes_over(copy, had, name)
            }
        }),
{
    lemma_aligned(before, study_id, source.id, source.number, n);
    let rec = aligned(before, study_id, source.id, source.number, n).rec;
    let had = rec.slot(source.id)->Some_0;
    assert(rec.ids.contains_key(source.id));
    if !had.outcome.finished() {
        let mid = attrs_copied(rec, source, scope);
        rec.lemma_with_slot(source.id, mid.slot(source.id)->Some_0);
        let filled = params_copied(mid, source, names, had.distributions, 0).rec;
        let copy = state_copied(steps_copied(filled, source, scope), source, had.outcome, now).slot(source.id)->Some_0;
        lemma_params_copied(mid, source, names, had.distributions, 0, Seq::empty());
        assert forall|k: int| 0 <= k < names.len() && !had.distributions.contains_key(#[trigger] names[k]) implies takes_over(
            copy,
            source,
            names[k],
        ) by {
            lemma_params_copied(mid, source, names, had.distributions, 0, names[k]);
        }
        assert forall|name: Seq<char>| #[trigger] had.distributions.contains_key(name) implies takes_over(copy, had, name) by {
            lemma_params_copied(mid, source, names, had.distributions, 0, name);
        }
    }
}

/// The copy has the parameter with the other trial's distribution and value.
pub open spec fn takes_over(copy: TrialRecord, other: TrialRecord, name: Seq<char>) -> bool {
    &&& copy.distributions.contains_key(name) && copy.distributions[name] == other.distributions[name]
    &&& other.params.contains_key(name) ==> copy.params.contains_key(name) && copy.params[name] == other.params[name]
}

/// Copying parameters keeps attributes, constraints and state, and records every named
/// parameter that the copy did not have.
proof fn lemma_params_copied(rec: StorageRecord, source: TrialRecord, names: Seq<Seq<char>>, had: Map<Seq<char>, Space>, i: int, name: Seq<char>)
    requires
        rec.wf(),
        rec.unchangeable(source.id) is None,
        params_copied(rec, source, names, had, i).why is None,
        0 <= i <= names.len(),
    ensures
        ({
            let after = params_copied(rec, source, names, had, i).rec;
            let copy = after.slot(source.id)->Some_0;
            let old_copy = rec.slot(source.id)->Some_0;
            &&& after.wf()
            &&& after.ids == rec.ids
            &&& after.slot(source.id) is Some
            &&& copy.attrs == old_copy.attrs
            &&& copy.constraints == old_copy.constraints
            &&& copy.intermediate_values == old_copy.intermediate_values
            &&& copy.outcome == old_copy.outcome
            &&& had.contains_key(name) && old_copy.distributions.contains_key(name) ==> takes_over(copy, old_copy, name)
            &&& !had.contains_key(name) && takes_over(old_copy, source, name) ==> takes_over(copy, source, name)
            &&& !had.contains_key(name) && (exists|k: int| i <= k < names.len() && #[trigger] names[k] == name) ==> takes_over(
                copy,
                source,
                name,
            )
        }),
    decreases names.len() - i,
{
    assert(rec.ids.contains_key(source.id));
    if i < names.len() {
        let here = names[i];
        if had.contains_key(here) {
            lemma_params_copied(rec, source, names, had, i + 1, name);
        } else {
            let space = source.distributions[here];
            let next = param_recorded(rec, source.id, here, space, source.params[here]);
            let t = rec.slot(source.id)->Some_0;
            let u = TrialRecord {
                distributions: t.distributions.insert(here, space),
                params: t.params.insert(here, source.params[here]),
                ..t
            };
            rec.lemma_with_slot(source.id, u);
            crate::storage::lemma_other_caches(rec.with_slot(source.id, Some(u)), next);
            lemma_param_keeps(rec, source.id, here, space, source.params[here]);
            assert(next.slot(source.id) == Some(u));
            assert(takes_over(u, source, here));
            lemma_params_copied(next, source, names, had, i + 1, name);
            if had.contains_key(name) && t.distributions.contains_key(name) {
                assert(takes_over(u, t, name));
            }
            if takes_over(t, source, name) {
                assert(takes_over(u, source, name));
            }
        }
    }
}

/// Copies a source trial together with the labels of its categorical parameters, which
/// become attributes of the study.
pub fn sync_labelled_trial(
    storage: &mut InMemoryStorage,
    cache_study_id: u32,
    source: &PersistedTrial,
    category_attrs: &Attrs,
    cache_n_trials: u32,
    scope: Scope,
    now: String,
) -> (r: Result<()>)
    requires
        old(storage).wf(),
        source.id < u32::MAX,
    ensures
        final(storage).wf(),
        ({
            let before = old(storage)@;
            let labelled = before.with_study_attrs(
                cache_study_id,
                before.study(cache_study_id).attrs.union_prefer_right(category_attrs@),
            );
            let start = if category_attrs@.dom().len() == 0 {
                before
            } else {
                labelled
            };
            let step = trial_copied(start, cache_study_id, source@, source.distributions.keys(), cache_n_trials, scope, now@);
            if category_attrs@.dom().len() > 0 && !before.has_study(cache_study_id) {
                fails(r, ErrorKind::StudyNotFound) && final(storage)@ == before
            } else {
                final(storage)@ == step.rec && step_result(r, step)
            }
        }),
{
    if category_attrs.len() > 0 {
        match storage.set_study_attrs(cache_study_id, category_attrs, false) {
            Err(e) => {
                return Err(e);
            }
            Ok(_) => {}
        }
    }
    sync_trial(storage, cache_study_id, source, cache_n_trials, scope, now)
}

/// The order in which source trials are copied: by number, equal numbers in input order.
pub fn trials_by_number(sources: &Vec<PersistedTrial>) -> (order: Vec<usize>)
    ensures
        covers(order@, 0, sources@.len() as int),
        forall|a: int, b: int| 0 <= a < b < order@.len() ==> {
            let u = sources@[#[trigger] order@[a] as int].number;
            let v = sources@[#[trigger] order@[b] as int].number;
            u < v || (u == v && order@[a] < order@[b])
        },
{
    let n: usize = sources.len();
    let mut keys: Vec<i64> = Vec::new();
    let mut i: usize = 0;
    while i < n
        invariant
            i <= n,
            n == sources@.len(),
            keys@.len() == i,
            forall|q: int| 0 <= q < i ==> #[trigger] keys@[q] == sources@[q].number as int,
        decreases n - i,
    {
        keys.push(sources[i].number as i64);
        i = i + 1;
    }
    let order = positions_by_key(&keys);
    assert forall|a: int, b: int| 0 <= a < b < order@.len() implies {
        let u = sources@[#[trigger] order@[a] as int].number;
        let v = sources@[#[trigger] order@[b] as int].number;
        u < v || (u == v && order@[a] < order@[b])
    } by {}
    order
}

/// The source trials from position `i` of the order on copied, each into a study that
/// holds what the ones before it left there.
pub open spec fn trials_copied(
    rec: StorageRecord,
    study_id: u32,
    sources: Seq<PersistedTrial>,
    order: Seq<usize>,
    scope: Scope,
    now: Seq<char>,
    i: int,
) -> Step
    decreases order.len() - i,
{
    if i >= order.len() {
        Step { rec, why: None }
    } else {
        let source = sources[order[i] as int];
        let step = trial_copied(rec, study_id, source@, source.distributions.keys(), rec.trials[study_id].len() as u32, scope, now);
        if step.why is Some {
            step
        } else if !step.rec.has_study(study_id) {
            halted(step.rec, ErrorKind::StudyNotFound)
        } else {
            trials_copied(step.rec, study_id, sources, order, scope, now, i + 1)
        }
    }
}

/// Copies all trials of a source study, in order of their numbers.
pub fn sync_trials(storage: &mut InMemoryStorage, cache_study_id: u32, sources: &Vec<PersistedTrial>, scope: Scope, now: String) -> (r: Result<()>)
    requires
        old(storage).wf(),
        forall|i: int| 0 <= i < sources@.len() ==> (#[trigger] sources@[i]).id < u32::MAX,
    ensures
        final(storage).wf(),
        !old(storage)@.has_study(cache_study_id) ==> fails(r, ErrorKind::StudyNotFound) && final(storage)@ == old(storage)@,
        old(storage)@.has_study(cache_study_id) ==> exists|order: Seq<usize>| {
            let step = trials_copied(old(storage)@, cache_study_id, sources@, order, scope, now@, 0);
            &&& #[trigger] by_number(sources@, order)
            &&& final(storage)@ == step.rec
            &&& step_result(r, step)
        },
{
    let order = trials_by_number(sources);
    assert(by_number(sources@, order@));
    let mut n: u32 = match storage.get_trials(cache_study_id) {
        Err(e) => {
            return Err(e);
        }
        Ok(trials) => {
            proof {
                storage.lemma_wf();
                assert(storage@.trials.contains_key(cache_study_id));
                storage@.lemma_trials_fit(cache_study_id);
                assert(crate::study_cache::trial_records(trials@).len() == trials@.len());
            }
            trials.len() as u32
        }
    };
    let ghost goal = trials_copied(old(storage)@, cache_study_id, sources@, order@, scope, now@, 0);
    let mut i: usize = 0;
    while i < order.len()
        invariant
            i <= order@.len(),
            covers(order@, 0, sources@.len() as int),
            forall|i: int| 0 <= i < sources@.len() ==> (#[trigger] sources@[i]).id < u32::MAX,
            by_number(sources@, order@),
            storage.wf(),
            storage@.has_study(cache_study_id),
            old(storage)@.has_study(cache_study_id),
            n == storage@.trials[cache_study_id].len(),
            goal == trials_copied(old(storage)@, cache_study_id, sources@, order@, scope, now@, 0),
            goal == trials_copied(storage@, cache_study_id, sources@, order@, scope, now@, i as int),
        decreases order@.len() - i,
    {
        let source = &sources[order[i]];
        match sync_trial(storage, cache_study_id, source, n, scope, now.clone()) {
            Err(e) => {
                return Err(e);
            }
            Ok(_) => {}
        }
        n = match storage.get_trials(cache_study_id) {
            Err(e) => {
                return Err(e);
            }
            Ok(trials) => {
                proof {
                    storage.lemma_wf();
                    assert(storage@.trials.contains_key(cache_study_id));
                    storage@.lemma_trials_fit(cache_study_id);
                    assert(crate::study_cache::trial_records(trials@).len() == trials@.len());
                }
                trials.len() as u32
            }
        };
        i = i + 1;
    }
    Ok(())
}

pub open spec fn by_number(sources: Seq<PersistedTrial>, order: Seq<usize>) -> bool {
    &&& covers(order, 0, sources.len() as int)
    &&& forall|a: int, b: int| 0 <= a < b < order.len() ==> {
        let u = sources[#[trigger] order[a] as int].number;
        let v = sources[#[trigger] order[b] as int].number;
        u < v || (u == v && order[a] < order[b])
    }
}

/// Studies that live elsewhere, copied into a cache.
pub struct Mirror {
    pub cache: InMemoryStorage,
    cache_study_to_src_study: HashMap<u32, u32>,
    src_study_to_cache_study: HashMap<u32, u32>,
    /// Whether copies keep the ids of their sources.
    pub keep_ids: bool,
}

/// A mirror by its contents.
pub struct MirrorRecord {
    pub cache: StorageRecord,
    /// The source of each copy.
    pub to_source: Map<u32, u32>,
    /// The copy of each source.
    pub to_copy: Map<u32, u32>,
    pub keep_ids: bool,
}

impl View for Mirror {
    type V = MirrorRecord;

    closed spec fn view(&self) -> MirrorRecord {
        MirrorRecord {
            cache: self.cache@,
            to_source: self.cache_study_to_src_study@,
            to_copy: self.src_study_to_cache_study@,
            keep_ids: self.keep_ids,
        }
    }
}

impl MirrorRecord {
    /// Copies and sources correspond one to one, and every copy is in the cache.
    pub open spec fn wf(self) -> bool {
        &&& self.cache.wf()
        &&& forall|c: u32| #[trigger] self.to_source.contains_key(c) ==> self.cache.has_study(c) && self.to_copy.contains_key(
            self.to_source[c],
        ) && self.to_copy[self.to_source[c]] == c
        &&& forall|s: u32| #[trigger] self.to_copy.contains_key(s) ==> self.to_source.contains_key(self.to_copy[s])
            && self.to_source[self.to_copy[s]] == s
        &&& self.keep_ids ==> forall|c: u32| #[trigger] self.to_source.contains_key(c) ==> self.to_source[c] == c
    }

    /// Why a source study cannot be copied, if it cannot.
    pub open spec fn refuses(self, source: StudyRecord) -> Option<ErrorKind> {
        if self.to_copy.contains_key(source.id) {
            None
        } else if self.keep_ids && self.cache.has_study(source.id) {
            if self.cache.study(source.id).name != source.name {
                Some(ErrorKind::StorageError)
            } else {
                None
            }
        } else if self.cache.has_name(source.name) {
            Some(ErrorKind::DuplicatedStudy)
        } else {
            None
        }
    }

    /// The id of the copy of a source study.
    pub open spec fn copy_id(self, source_id: u32) -> u32 {
        if self.to_copy.contains_key(source_id) {
            self.to_copy[source_id]
        } else if self.keep_ids {
            source_id
        } else {
            self.cache.next_study_id
        }
    }

    /// The mirror with a copy of the study.
    pub open spec fn with_study(self, source: StudyRecord, sync_attrs: bool) -> MirrorRecord {
        let c = self.copy_id(source.id);
        let cache = if self.cache.has_study(c) {
            self.cache
        } else {
            self.cache.with_new_study(c, source.name, source.directions)
        };
        MirrorRecord {
            cache: if sync_attrs {
                cache.with_study_attrs(c, cache.study(c).attrs.union_prefer_right(source.attrs))
            } else {
                cache
            },
            to_source: self.to_source.insert(c, source.id),
            to_copy: self.to_copy.insert(source.id, c),
            ..self
        }
    }
}

impl Mirror {
    pub closed spec fn wf(&self) -> bool {
        self@.wf() && self.cache.wf()
    }

    pub fn new(keep_ids: bool) -> (r: Mirror)
        ensures
            r.wf(),
            r@ == (MirrorRecord { cache: StorageRecord::empty(false), to_source: Map::empty(), to_copy: Map::empty(), keep_ids }),
    {
        let r = Mirror {
            cache: InMemoryStorage::new(),
            cache_study_to_src_study: HashMap::new(),
            src_study_to_cache_study: HashMap::new(),
            keep_ids,
        };
        proof {
            r.cache.lemma_wf();
        }
        r
    }

    /// The source of a copy.
    pub fn source_of(&self, cache_study_id: u32) -> (r: Result<u32>)
        ensures
            self@.to_source.contains_key(cache_study_id) ==> r is Ok && r->Ok_0 == self@.to_source[cache_study_id],
            !self@.to_source.contains_key(cache_study_id) ==> fails(r, ErrorKind::StudyNotFound),
    {
        match self.cache_study_to_src_study.get(&cache_study_id) {
            Some(source) => Ok(*source),
            None => Err(Error::new(ErrorKind::StudyNotFound)),
        }
    }

    /// Copies a source study, where it is not copied yet, and its attributes, where asked
    /// to.
    pub fn register_src_study_to_cache(&mut self, source: &PersistedStudy, sync_attrs: bool) -> (r: Result<()>)
        requires
            old(self).wf(),
            old(self)@.cache.next_study_id < u32::MAX,
            source.id < u32::MAX,
        ensures
            final(self).wf(),
            refused(r, old(self)@.refuses(source@)),
            r is Err ==> final(self)@ == old(self)@,
            r is Ok ==> final(self)@ == old(self)@.with_study(source@, sync_attrs),
    {
        let ghost before = self@;
        proof {
            self.cache.lemma_wf();
        }
        let c: u32 = match self.src_study_to_cache_study.get(&source.id) {
            Some(c) => *c,
            None => {
                let copied = if self.keep_ids {
                    match self.cache.insert_study_with_id(source.id, source.name.as_str(), copy_directions(&source.directions)) {
                        Err(e) => Err(e),
                        Ok(study) => Ok(study.id),
                    }
                } else {
                    match self.cache.create_new_study(source.name.as_str(), copy_directions(&source.directions)) {
                        Err(e) => Err(e),
                        Ok(study) => Ok(study.id),
                    }
                };
                match copied {
                    Err(e) => {
                        return Err(e);
                    }
                    Ok(c) => {
                        self.cache_study_to_src_study.insert(c, source.id);
                        self.src_study_to_cache_study.insert(source.id, c);
                        c
                    }
                }
            }
        };
        let ghost cache1 = self.cache@;
        proof {
            self.cache.lemma_wf();
            let id = before.copy_id(source.id);
            if before.to_copy.contains_key(source.id) {
                assert(before.cache.has_study(id));
                assert(before.to_source.insert(id, source.id) =~= before.to_source);
                assert(before.to_copy.insert(source.id, id) =~= before.to_copy);
            } else if !before.keep_ids {
                assert(!before.cache.has_study(id));
                lemma_new_study_is_there(before.cache, id, source@.name, source@.directions);
            } else if !before.cache.has_study(id) {
                lemma_new_study_is_there(before.cache, id, source@.name, source@.directions);
            }
            assert(c == id);
            assert(cache1 == if before.cache.has_study(id) {
                before.cache
            } else {
                before.cache.with_new_study(id, source@.name, source@.directions)
            });
            assert(cache1.has_study(c));
            lemma_maps(before, source.id, cache1, c);
        }
        if sync_attrs {
            match self.cache.set_study_attrs(c, &source.attrs, false) {
                Err(e) => {
                    return Err(e);
                }
                Ok(_) => {}
            }
            proof {
                self.cache.lemma_wf();
                assert forall|s: u32| before.cache.has_study(s) implies #[trigger] self.cache@.trials.contains_key(s) by {
                    assert(before.cache.trials.contains_key(s) == before.cache.has_study(s));
                    assert(cache1.trials.contains_key(s));
                }
                assert(self.cache@.trials.contains_key(c) == self.cache@.has_study(c));
                assert(cache1.trials.contains_key(c) == cache1.has_study(c));
                lemma_maps(before, source.id, self.cache@, c);
            }
        }
        Ok(())
    }

    /// Copies source studies one after the other, up to the first that is refused.
    pub fn sync_studies(&mut self, sources: &Vec<PersistedStudy>, sync_attrs: bool) -> (r: Result<()>)
        requires
            old(self).wf(),
            old(self)@.cache.next_study_id + sources@.len() < u32::MAX,
            forall|i: int| 0 <= i < sources@.len() ==> (#[trigger] sources@[i]).id < u32::MAX && sources@[i].id + sources@.len()
                < u32::MAX,
        ensures
            final(self).wf(),
            ({
                let step = studies_copied(old(self)@, sources@, sync_attrs, 0);
                final(self)@ == step.0 && refused(r, step.1)
            }),
    {
        let ghost goal = studies_copied(self@, sources@, sync_attrs, 0);
        let mut i: usize = 0;
        while i < sources.len()
            invariant
                i <= sources@.len(),
                self.wf(),
                forall|i: int| 0 <= i < sources@.len() ==> (#[trigger] sources@[i]).id < u32::MAX && sources@[i].id + sources@.len()
                    < u32::MAX,
                self@.cache.next_study_id + (sources@.len() - i) < u32::MAX,
                goal == studies_copied(old(self)@, sources@, sync_attrs, 0),
                goal == studies_copied(self@, sources@, sync_attrs, i as int),
            decreases sources@.len() - i,
        {
            let ghost mid = self@;
            assert(sources@[i as int].id + sources@.len() < u32::MAX);
            match self.register_src_study_to_cache(&sources[i], sync_attrs) {
                Err(e) => {
                    return Err(e);
                }
                Ok(_) => {}
            }
            i = i + 1;
        }
        Ok(())
    }

    /// Removes a copy.
    pub fn delete_study(&mut self, cache_study_id: u32) -> (r: Result<()>)
        requires
            old(self).wf(),
        ensures
            final(self).wf(),
            ({
                let before = old(self)@;
                if !before.to_source.contains_key(cache_study_id) {
                    fails(r, ErrorKind::StudyNotFound) && final(self)@ == before
                } else {
                    r is Ok && final(self)@ == (MirrorRecord {
                        cache: before.cache.without_study(cache_study_id),
                        to_source: before.to_source.remove(cache_study_id),
                        to_copy: before.to_copy.remove(before.to_source[cache_study_id]),
                        ..before
                    })
                }
            }),
    {
        let ghost before = self@;
        let source: u32 = match self.source_of(cache_study_id) {
            Err(e) => {
                return Err(e);
            }
            Ok(source) => source,
        };
        proof {
            self.cache.lemma_wf();
        }
        match self.cache.delete_study(cache_study_id) {
            Err(e) => {
                return Err(e);
            }
            Ok(_) => {}
        }
        let _a = self.cache_study_to_src_study.remove(&cache_study_id);
        let _b = self.src_study_to_cache_study.remove(&source);
        proof {
            self.cache.lemma_wf();
            let after = self@;
            assert forall|c: u32| #[trigger] after.to_source.contains_key(c) implies after.cache.has_study(c) && after.to_copy.contains_key(
                after.to_source[c],
            ) && after.to_copy[after.to_source[c]] == c by {
                assert(before.to_source.contains_key(c));
                assert(before.cache.trials.contains_key(c) == before.cache.has_study(c));
                assert(after.cache.trials.contains_key(c) == after.cache.has_study(c));
            }
            assert forall|s: u32| #[trigger] after.to_copy.contains_key(s) implies after.to_source.contains_key(after.to_copy[s])
                && after.to_source[after.to_copy[s]] == s by {
                assert(before.to_copy.contains_key(s));
            }
            assert forall|c: u32| after.keep_ids && #[trigger] after.to_source.contains_key(c) implies after.to_source[c] == c by {
                assert(before.to_source.contains_key(c));
            }
        }
        Ok(())
    }
}

/// The source studies from position `i` on copied, and why that ended early, if it did.
pub open spec fn studies_copied(rec: MirrorRecord, sources: Seq<PersistedStudy>, sync_attrs: bool, i: int) -> (MirrorRecord, Option<ErrorKind>)
    decreases sources.len() - i,
{
    if i >= sources.len() {
        (rec, None)
    } else if rec.refuses(sources[i]@) is Some {
        (rec, rec.refuses(sources[i]@))
    } else {
        studies_copied(rec.with_study(sources[i]@, sync_attrs), sources, sync_attrs, i + 1)
    }
}

proof fn lemma_new_study_is_there(rec: StorageRecord, study_id: u32, name: Seq<char>, directions: Seq<crate::study::Direction>)
    ensures
        rec.with_new_study(study_id, name, directions).has_study(study_id),
{
    let after = rec.with_new_study(study_id, name, directions);
    assert(after.studies[rec.studies.len() as int].id == study_id);
}

proof fn lemma_maps(before: MirrorRecord, source_id: u32, cache: StorageRecord, c: u32)
    requires
        before.wf(),
        cache.wf(),
        c == before.copy_id(source_id),
        cache.has_study(c),
        forall|s: u32| before.cache.has_study(s) ==> #[trigger] cache.trials.contains_key(s),
        !before.to_copy.contains_key(source_id) ==> !before.keep_ids ==> !before.cache.has_study(c),
    ensures
        ({
            let after = MirrorRecord {
                cache,
                to_source: before.to_source.insert(c, source_id),
                to_copy: before.to_copy.insert(source_id, c),
                ..before
            };
            after.wf()
        }),
{
    let after = MirrorRecord {
        cache,
        to_source: before.to_source.insert(c, source_id),
        to_copy: before.to_copy.insert(source_id, c),
        ..before
    };
    if !before.to_copy.contains_key(source_id) && before.to_source.contains_key(c) {
        assert(before.cache.has_study(c));
        assert(before.keep_ids);
        assert(before.to_source[c] == c);
    }
    assert forall|d: u32| #[trigger] after.to_source.contains_key(d) implies after.cache.has_study(d) && after.to_copy.contains_key(
        after.to_source[d],
    ) && after.to_copy[after.to_source[d]] == d by {
        if d != c {
            assert(before.to_source.contains_key(d));
            assert(cache.trials.contains_key(d) == cache.has_study(d));
        }
    }
    assert forall|s: u32| #[trigger] after.to_copy.contains_key(s) implies after.to_source.contains_key(after.to_copy[s])
        && after.to_source[after.to_copy[s]] == s by {
        if s != source_id {
            assert(before.to_copy.contains_key(s));
        }
    }
    assert forall|d: u32| after.keep_ids && #[trigger] after.to_source.contains_key(d) implies after.to_source[d] == d by {
        if d != c {
            assert(before.to_source.contains_key(d));
        } else if before.to_copy.contains_key(source_id) {
            assert(before.to_source.contains_key(before.to_copy[source_id]));
        }
    }
}

/// Whether a refused change is tried once more after everything was copied again: where
/// the study or the trial was not found.
pub fn retries_after_sync(kind: ErrorKind) -> (r: bool)
    ensures
        r == (kind == ErrorKind::StudyNotFound || kind == ErrorKind::TrialNotFound),
{
    kind == ErrorKind::StudyNotFound || kind == ErrorKind::TrialNotFound
}

/// Whether all trials are copied after a new one was created elsewhere: where others may
/// create trials too, or some are missing here.
pub fn copies_all_trials(is_distributed: bool, source_number: u32, cached_n_trials: u32) -> (r: bool)
    ensures
        r == (is_distributed || source_number != cached_n_trials),
{
    is_distributed || source_number != cached_n_trials
}

/// The numbers of the trials that are asked for: those listed, and those above a bound.
pub open spec fn in_diff(number: u32, included: Seq<u32>, greater_than: i32) -> bool {
    included.contains(number) || (if number < 0x8000_0000 {
        number as int
    } else {
        number - 0x1_0000_0000
    }) > greater_than
}

/// Whether a trial is among those asked for.
pub fn is_in_diff(number: u32, included: &[u32], greater_than: i32) -> (r: bool)
    ensures
        r == in_diff(number, included@, greater_than),
{
    let mut i: usize = 0;
    while i < included.len()
        invariant
            i <= included@.len(),
            forall|j: int| 0 <= j < i ==> #[trigger] included@[j] != number,
        decreases included@.len() - i,
    {
        if included[i] == number {
            assert(included@[i as int] == number);
            return true;
        }
        i = i + 1;
    }
    let signed: i64 = if number < 0x8000_0000 {
        number as i64
    } else {
        number as i64 - 0x1_0000_0000
    };
    signed > greater_than as i64
}

/// Sources are copied by ascending number.
pub proof fn law_sources_are_copied_by_number(sources: Seq<PersistedTrial>, order: Seq<usize>, a: int, b: int)
    requires
        by_number(sources, order),
        0 <= a < b < order.len(),
    ensures
        order.len() == sources.len(),
        order[a] != order[b],
        sources[order[a] as int].number <= sources[order[b] as int].number,
{
}

/// A trial that found its place has the source's number there, with the source's id.
pub proof fn law_copies_keep_their_place(rec: StorageRecord, study_id: u32, trial_id: u32, number: u32)
    requires
        rec.wf(),
        rec.has_study(study_id),
        rec.trials[study_id].len() <= u32::MAX,
        aligned(rec, study_id, trial_id, number, rec.trials[study_id].len() as u32).why is None,
    ensures
        ({
            let after = aligned(rec, study_id, trial_id, number, rec.trials[study_id].len() as u32).rec;
            &&& after.ids.contains_key(trial_id)
            &&& after.ids[trial_id] == (study_id, number)
            &&& number <= rec.trials[study_id].len()
            &&& number < rec.trials[study_id].len() ==> after == rec
        }),
{
}

/// A trial is asked for where its number is listed or, read as a signed number, above the bound.
pub proof fn law_asked_numbers_are_listed_or_above(number: u32, included: Seq<u32>, greater_than: i32)
    ensures
        number < 0x8000_0000 ==> in_diff(number, included, greater_than) == (included.contains(number) || number > greater_than),
        number >= 0x8000_0000 ==> in_diff(number, included, greater_than) == (included.contains(number) || number - 0x1_0000_0000 > greater_than),
{
}

/// A study that was copied before is not refused. With ids kept, one that meets another study
/// under its id is refused unless the names agree. Any other one is refused where its name is
/// taken.
pub proof fn law_studies_are_refused_by_name(rec: MirrorRecord, source: StudyRecord)
    ensures
        rec.to_copy.contains_key(source.id) ==> rec.refuses(source) is None,
        !rec.to_copy.contains_key(source.id) && rec.keep_ids && rec.cache.has_study(source.id) ==> (rec.refuses(source) is None <==> rec.cache.study(
            source.id,
        ).name == source.name),
        !rec.to_copy.contains_key(source.id) && !(rec.keep_ids && rec.cache.has_study(source.id)) ==> (rec.refuses(source) is None
            <==> !rec.cache.has_name(source.name)),
        !rec.to_copy.contains_key(source.id) && !(rec.keep_ids && rec.cache.has_study(source.id)) && rec.cache.has_name(source.name)
            ==> rec.refuses(source) == Some(ErrorKind::DuplicatedStudy),
{
}

/// A copied study is found from its source and the source from it. A new copy has the source's
/// name and directions, and the source's id where ids are kept.
pub proof fn law_copied_studies_correspond(rec: MirrorRecord, source: StudyRecord, sync_attrs: bool)
    requires
        rec.wf(),
        rec.refuses(source) is None,
        rec.cache.next_study_id < u32::MAX,
        source.id < u32::MAX,
    ensures
        ({
            let after = rec.with_study(source, sync_attrs);
            let c = rec.copy_id(source.id);
            &&& after.to_copy.contains_key(source.id) && after.to_copy[source.id] == c
            &&& after.to_source.contains_key(c) && after.to_source[c] == source.id
            &&& rec.to_copy.contains_key(source.id) ==> c == rec.to_copy[source.id]
            &&& !rec.to_copy.contains_key(source.id) && rec.keep_ids ==> c == source.id
            &&& !rec.to_copy.contains_key(source.id) && !rec.keep_ids ==> c == rec.cache.next_study_id
            &&& !rec.cache.has_study(c) && !sync_attrs ==> after.cache == rec.cache.with_new_study(c, source.name, source.directions)
            &&& rec.cache.has_study(c) && !sync_attrs ==> after.cache == rec.cache
        }),
{
}

/// Where the number of a study's trials is known, a trial finds its place in two cases: it stands
/// there already under its id, or the place is the next one and its id is not in use. In every
/// other case the storage is at fault.
pub proof fn law_misplaced_trials_are_refused(rec: StorageRecord, study_id: u32, trial_id: u32, number: u32)
    requires
        rec.wf(),
        rec.has_study(study_id),
        rec.trials[study_id].len() <= u32::MAX,
    ensures
        ({
            let len = rec.trials[study_id].len();
            let why = aligned(rec, study_id, trial_id, number, len as u32).why;
            &&& why is None <==> (number < len && rec.ids.contains_key(trial_id) && rec.ids[trial_id] == (study_id, number)) || (number == len
                && !rec.ids.contains_key(trial_id))
            &&& why is Some ==> why == Some(ErrorKind::StorageError)
        }),
{
    crate::storage::law_numbers_have_no_gaps(rec, study_id, number);
}

/// Copying attributes keeps those that the source lacks, and constraints and intermediate values
/// that are not in scope stay as they were.
pub proof fn law_copying_takes_nothing_away(rec: StorageRecord, source: TrialRecord, scope: Scope, key: AttrName, step: u32)
    requires
        rec.wf(),
        rec.unreadable(source.id) is None,
    ensures
        ({
            let had = rec.slot(source.id)->Some_0;
            let with_attrs = attrs_copied(rec, source, scope).slot(source.id)->Some_0;
            let with_steps = steps_copied(rec, source, scope).slot(source.id)->Some_0;
            &&& had.attrs.contains_key(key) ==> with_attrs.attrs.contains_key(key)
            &&& had.attrs.contains_key(key) && !source.attrs.contains_key(key) ==> with_attrs.attrs[key] == had.attrs[key]
            &&& source.attrs.contains_key(key) ==> with_attrs.attrs.contains_key(key) && with_attrs.attrs[key] == source.attrs[key]
            &&& !scope.constraints ==> with_attrs.constraints == had.constraints
            &&& !scope.intermediate_values ==> with_steps == had
            &&& scope.intermediate_values && source.intermediate_values.contains_key(step) ==> with_steps.intermediate_values.contains_key(step)
                && with_steps.intermediate_values[step] == source.intermediate_values[step]
            &&& had.intermediate_values.contains_key(step) && !source.intermediate_values.contains_key(step) ==> with_steps.intermediate_values.contains_key(
                step,
            ) && with_steps.intermediate_values[step] == had.intermediate_values[step]
            &&& with_attrs.params == had.params && with_attrs.outcome == had.outcome
            &&& with_steps.params == had.params && with_steps.outcome == had.outcome && with_steps.attrs == had.attrs
        }),
{
    let place = rec.ids[source.id];
    assert(rec.ids.contains_key(source.id));
    assert(rec.trials.contains_key(place.0));
}

/// Values are the same where the names are and each number is neither below nor above the other.
pub proof fn law_same_values_hold_equal_numbers(a: Map<Seq<char>, Float>, b: Map<Seq<char>, Float>, name: Seq<char>)
    requires
        same_values(a, b),
    ensures
        a.contains_key(name) == b.contains_key(name),
        a.contains_key(name) ==> !a[name].nan() && !b[name].nan() && !a[name].below(b[name]) && !b[name].below(a[name]),
{
    assert(a.dom().contains(name) == b.dom().contains(name));
}

/// Where a study holds more trials than was believed, the trial at the next place has to be there
/// and to have the id.
pub proof fn law_known_places_are_compared(rec: StorageRecord, study_id: u32, trial_id: u32, number: u32)
    requires
        rec.has_study(study_id),
        number < rec.trials[study_id].len(),
    ensures
        ({
            let step = aligned(rec, study_id, trial_id, number, number);
            let slot = rec.trials[study_id][number as int];
            &&& step.rec == rec
            &&& slot is None ==> step.why == Some(ErrorKind::TrialDiscarded)
            &&& slot is Some && slot->Some_0.id != trial_id ==> step.why == Some(ErrorKind::StorageError)
            &&& slot is Some && slot->Some_0.id == trial_id ==> step.why is None
        }),
{
}

/// Where attributes are synchronised, the copy of a study has the source's attributes and keeps
/// its own others.
pub proof fn law_synchronised_attrs_are_the_sources(rec: MirrorRecord, source: StudyRecord, key: AttrName)
    requires
        rec.wf(),
        rec.cache.has_study(rec.copy_id(source.id)),
    ensures
        ({
            let c = rec.copy_id(source.id);
            let had = rec.cache.study(c).attrs;
            let after = rec.with_study(source, true).cache.study(c).attrs;
            &&& source.attrs.contains_key(key) ==> after.contains_key(key) && after[key] == source.attrs[key]
            &&& !source.attrs.contains_key(key) ==> after.contains_key(key) == had.contains_key(key)
            &&& !source.attrs.contains_key(key) && had.contains_key(key) ==> after[key] == had[key]
        }),
{
    let c = rec.copy_id(source.id);
    crate::storage::lemma_with_study_attrs(rec.cache, c, rec.cache.study(c).attrs.union_prefer_right(source.attrs));
}

} // verus!
