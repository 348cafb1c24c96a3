//! Studies and trials kept in memory.

use std::collections::HashMap;

use vstd::prelude::*;

use crate::attr::{
    category_labels_to_attrs, get_category_labels, label_attrs, label_views, law_category_labels_read_back, stored_labels, AttrKey, AttrName,
    Attrs, CategoryLabel, Decimals,
};
use crate::distribution::Distribution;
use crate::error::{fails, Error, ErrorKind, Result};
use crate::float::Float;
use crate::id_map::{occupied, places_differ, without_study, Place, TrialIdNumberHashMap};
use crate::key_map::{first_clash, Duplicate, KeyMap};
use crate::study::{Direction, PersistedStudy, StudyRecord};
use crate::study_cache::{slot_view, trial_records, CacheRecord, StudyCache};
use crate::text::texts_equal;
use crate::trial::{text_view, Outcome, PersistedTrial, TrialRecord, TrialState, TrialStateValues};

verus! {

broadcast use vstd::std_specs::hash::group_hash_axioms;

/// Options for [`InMemoryStorage`].
#[derive(Clone, Copy, Debug, PartialEq, Eq, Structural)]
pub struct InMemoryStorageOptions {
    pub apply_discard: bool,
}

impl Default for InMemoryStorageOptions {
    fn default() -> (r: InMemoryStorageOptions)
        ensures
            !r.apply_discard,
    {
        InMemoryStorageOptions { apply_discard: false }
    }
}

/// How many discarded trials were in each state.
#[derive(Clone, Copy, Debug, PartialEq, Eq, Structural)]
pub struct Tally {
    pub running: u32,
    pub complete: u32,
    pub pruned: u32,
    pub waiting: u32,
    pub fail: u32,
}

impl Tally {
    pub open spec fn none() -> Tally {
        Tally { running: 0, complete: 0, pruned: 0, waiting: 0, fail: 0 }
    }

    pub open spec fn count(self, state: TrialState) -> nat {
        match state {
            TrialState::Running => self.running as nat,
            TrialState::Complete => self.complete as nat,
            TrialState::Pruned => self.pruned as nat,
            TrialState::Waiting => self.waiting as nat,
            TrialState::Fail => self.fail as nat,
        }
    }

    pub open spec fn total(self) -> nat {
        self.running as nat + self.complete as nat + self.pruned as nat + self.waiting as nat + self.fail as nat
    }

    /// The discarded trials in one of the states.
    pub open spec fn among(self, states: Option<Seq<TrialState>>) -> nat {
        self.counted(states, TrialState::Running) + self.counted(states, TrialState::Complete) + self.counted(
            states,
            TrialState::Pruned,
        ) + self.counted(states, TrialState::Waiting) + self.counted(states, TrialState::Fail)
    }

    pub open spec fn counted(self, states: Option<Seq<TrialState>>, state: TrialState) -> nat {
        if asked_for(states, state) {
            self.count(state)
        } else {
            0
        }
    }

    /// One more discarded trial in the state.
    pub open spec fn plus(self, state: TrialState) -> Tally {
        match state {
            TrialState::Running => Tally { running: (self.running + 1) as u32, ..self },
            TrialState::Complete => Tally { complete: (self.complete + 1) as u32, ..self },
            TrialState::Pruned => Tally { pruned: (self.pruned + 1) as u32, ..self },
            TrialState::Waiting => Tally { waiting: (self.waiting + 1) as u32, ..self },
            TrialState::Fail => Tally { fail: (self.fail + 1) as u32, ..self },
        }
    }
}

/// The state is one of those asked for; every state is where none is named.
pub open spec fn asked_for(states: Option<Seq<TrialState>>, state: TrialState) -> bool {
    match states {
        Some(s) => s.contains(state),
        None => true,
    }
}

pub open spec fn states_view(states: Option<&[TrialState]>) -> Option<Seq<TrialState>> {
    match states {
        Some(s) => Some(s@),
        None => None,
    }
}

/// The trials among the first `n` that are there and in one of the states.
pub open spec fn live_among(trials: Seq<Option<TrialRecord>>, states: Option<Seq<TrialState>>, n: nat) -> nat
    decreases n,
{
    if n == 0 {
        0
    } else {
        live_among(trials, states, (n - 1) as nat) + if trials[n - 1] is Some && asked_for(
            states,
            trials[n - 1]->Some_0.outcome.state(),
        ) {
            1nat
        } else {
            0
        }
    }
}

/// The absent ones among the first `n` trials.
pub open spec fn absent(trials: Seq<Option<TrialRecord>>, n: nat) -> nat
    decreases n,
{
    if n == 0 {
        0
    } else {
        absent(trials, (n - 1) as nat) + if trials[n - 1] is None {
            1nat
        } else {
            0
        }
    }
}

/// A storage by its contents.
pub struct StorageRecord {
    pub studies: Seq<StudyRecord>,
    /// The trials of each study, by number.
    pub trials: Map<u32, Seq<Option<TrialRecord>>>,
    /// Where each trial stands.
    pub ids: Map<u32, Place>,
    pub caches: Map<u32, CacheRecord>,
    pub discarded: Map<u32, Tally>,
    pub next_study_id: u32,
    pub next_trial_id: u32,
    pub apply_discard: bool,
}

impl StorageRecord {
    pub open spec fn empty(apply_discard: bool) -> StorageRecord {
        StorageRecord {
            studies: Seq::empty(),
            trials: Map::empty(),
            ids: Map::empty(),
            caches: Map::empty(),
            discarded: Map::empty(),
            next_study_id: 0,
            next_trial_id: 0,
            apply_discard,
        }
    }

    pub open spec fn has_study(self, study_id: u32) -> bool {
        exists|i: int| 0 <= i < self.studies.len() && (#[trigger] self.studies[i]).id == study_id
    }

    pub open spec fn has_name(self, name: Seq<char>) -> bool {
        exists|i: int| 0 <= i < self.studies.len() && (#[trigger] self.studies[i]).name == name
    }

    /// The place of a study among the studies.
    pub open spec fn study_index(self, study_id: u32) -> int {
        choose|i: int| 0 <= i < self.studies.len() && (#[trigger] self.studies[i]).id == study_id
    }

    pub open spec fn study(self, study_id: u32) -> StudyRecord {
        self.studies[self.study_index(study_id)]
    }

    /// What stands under a known trial id; nothing where the trial was discarded.
    pub open spec fn slot(self, trial_id: u32) -> Option<TrialRecord> {
        self.trials[self.ids[trial_id].0][self.ids[trial_id].1 as int]
    }

    pub open spec fn cache(self, study_id: u32) -> CacheRecord {
        if self.caches.contains_key(study_id) {
            self.caches[study_id]
        } else {
            CacheRecord::fresh()
        }
    }

    pub open spec fn tally(self, study_id: u32) -> Tally {
        if self.discarded.contains_key(study_id) {
            self.discarded[study_id]
        } else {
            Tally::none()
        }
    }

    /// The trial's record replaced.
    pub open spec fn with_slot(self, trial_id: u32, slot: Option<TrialRecord>) -> StorageRecord {
        let place = self.ids[trial_id];
        StorageRecord {
            trials: self.trials.insert(place.0, self.trials[place.0].update(place.1 as int, slot)),
            ..self
        }
    }

    /// A new trial at the end of a study.
    pub open spec fn with_new_trial(self, trial: TrialRecord) -> StorageRecord {
        StorageRecord {
            trials: self.trials.insert(trial.study_id, self.trials[trial.study_id].push(Some(trial))),
            ids: self.ids.insert(trial.id, (trial.study_id, trial.number)),
            next_trial_id: if trial.id >= self.next_trial_id {
                (trial.id + 1) as u32
            } else {
                self.next_trial_id
            },
            ..self
        }
    }

    /// A new study.
    pub open spec fn with_new_study(self, study_id: u32, name: Seq<char>, directions: Seq<Direction>) -> StorageRecord {
        StorageRecord {
            studies: self.studies.push(StudyRecord { id: study_id, name, directions, attrs: Map::empty() }),
            trials: self.trials.insert(study_id, Seq::empty()),
            next_study_id: if study_id >= self.next_study_id {
                (study_id + 1) as u32
            } else {
                self.next_study_id
            },
            ..self
        }
    }

    /// Everything of a study removed.
    pub open spec fn without_study(self, study_id: u32) -> StorageRecord {
        StorageRecord {
            studies: self.studies.remove(self.study_index(study_id)),
            trials: self.trials.remove(study_id),
            ids: without_study(self.ids, study_id),
            caches: self.caches.remove(study_id),
            discarded: self.discarded.remove(study_id),
            ..self
        }
    }

    /// The attributes of a study replaced.
    pub open spec fn with_study_attrs(self, study_id: u32, attrs: Map<AttrName, Seq<char>>) -> StorageRecord {
        let i = self.study_index(study_id);
        StorageRecord { studies: self.studies.update(i, StudyRecord { attrs, ..self.studies[i] }), ..self }
    }

    pub open spec fn studies_wf(self) -> bool {
        &&& forall|i: int, j: int| 0 <= i < j < self.studies.len() ==> (#[trigger] self.studies[i]).id != (#[trigger] self.studies[j]).id
            && self.studies[i].name != self.studies[j].name
        &&& forall|i: int| 0 <= i < self.studies.len() ==> (#[trigger] self.studies[i]).id < self.next_study_id
        &&& forall|s: u32| #[trigger] self.trials.contains_key(s) == self.has_study(s)
        &&& forall|s: u32| #[trigger] self.caches.contains_key(s) ==> self.trials.contains_key(s)
        &&& forall|s: u32| #[trigger] self.discarded.contains_key(s) ==> self.trials.contains_key(s)
    }

    /// Every known trial stands at its place.
    pub open spec fn places_wf(self) -> bool {
        &&& places_differ(self.ids)
        &&& forall|t: u32| #[trigger] self.ids.contains_key(t) ==> {
            let place = self.ids[t];
            &&& t < self.next_trial_id
            &&& self.trials.contains_key(place.0)
            &&& place.1 < self.trials[place.0].len()
            &&& self.slot(t) is Some ==> self.slot(t)->Some_0.id == t && self.slot(t)->Some_0.study_id == place.0
                && self.slot(t)->Some_0.number == place.1
        }
        &&& forall|s: u32, n: int| self.trials.contains_key(s) && 0 <= n < self.trials[s].len() ==> #[trigger] self.trial_at(s, n)
    }

    /// A trial is known to stand at the place.
    pub open spec fn trial_at(self, s: u32, n: int) -> bool {
        n <= u32::MAX && occupied(self.ids, (s, n as u32))
    }

    /// Discarded trials are tallied.
    pub open spec fn tallies_wf(self) -> bool {
        forall|s: u32| #[trigger] self.trials.contains_key(s) ==> self.tally(s).total() == absent(self.trials[s], self.trials[s].len())
    }

    pub open spec fn wf(self) -> bool {
        self.studies_wf() && self.places_wf() && self.tallies_wf()
    }

    /// Ids are only ever given out upwards.
    pub open spec fn no_later_than(self, other: StorageRecord) -> bool {
        self.next_study_id <= other.next_study_id && self.next_trial_id <= other.next_trial_id
    }

    /// Why a trial cannot be read, if it cannot.
    pub open spec fn unreadable(self, trial_id: u32) -> Option<ErrorKind> {
        if !self.ids.contains_key(trial_id) {
            Some(ErrorKind::TrialNotFound)
        } else if self.slot(trial_id) is None {
            Some(ErrorKind::TrialDiscarded)
        } else {
            None
        }
    }

    /// Why a trial cannot be changed, if it cannot.
    pub open spec fn unchangeable(self, trial_id: u32) -> Option<ErrorKind> {
        if self.unreadable(trial_id) is Some {
            self.unreadable(trial_id)
        } else if self.slot(trial_id)->Some_0.outcome.finished() {
            Some(ErrorKind::TrialAlreadyFinished)
        } else {
            None
        }
    }

    /// The place of a study is the one where its id is found.
    pub proof fn lemma_study_index(self, i: int)
        requires
            self.studies_wf(),
            0 <= i < self.studies.len(),
        ensures
            self.study_index(self.studies[i].id) == i,
            self.has_study(self.studies[i].id),
    {
        let j = self.study_index(self.studies[i].id);
        assert(0 <= j < self.studies.len() && self.studies[j].id == self.studies[i].id);
        if i < j {
            assert(self.studies[i].id != self.studies[j].id);
        } else if j < i {
            assert(self.studies[j].id != self.studies[i].id);
        }
    }

    /// A study has no more trials than ids were given out.
    pub proof fn lemma_trials_fit(self, s: u32)
        requires
            self.places_wf(),
            self.trials.contains_key(s),
        ensures
            self.trials[s].len() <= self.next_trial_id,
    {
        let n = self.trials[s].len();
        let id_at = |k: int| choose|t: u32| #[trigger] self.ids.contains_key(t) && self.ids[t] == (s, k as u32);
        let ids = Seq::new(n, |k: int| id_at(k) as int);
        assert forall|k: int| 0 <= k < n implies self.ids.contains_key(#[trigger] id_at(k)) && self.ids[id_at(k)] == (s, k as u32)
            && k <= u32::MAX by {
            assert(self.trial_at(s, k));
        }
        assert forall|a: int, b: int| 0 <= a < b < n implies ids[a] != ids[b] by {
            assert(self.ids.contains_key(id_at(a)) && self.ids.contains_key(id_at(b)));
            assert(self.ids[id_at(a)] == (s, a as u32) && self.ids[id_at(b)] == (s, b as u32));
        }
        ids.unique_seq_to_set();
        let range = vstd::set_lib::set_int_range(0, self.next_trial_id as int);
        vstd::set_lib::lemma_int_range(0, self.next_trial_id as int);
        assert forall|x: int| ids.to_set().contains(x) implies range.contains(x) by {
            let k = choose|k: int| 0 <= k < ids.len() && ids[k] == x;
            assert(self.ids.contains_key(id_at(k)));
        }
        vstd::set_lib::lemma_len_subset(ids.to_set(), range);
    }

    /// Replacing a trial by one that is there as well keeps the storage in order.
    pub proof fn lemma_with_slot(self, trial_id: u32, trial: TrialRecord)
        requires
            self.wf(),
            self.ids.contains_key(trial_id),
            self.slot(trial_id) is Some,
            trial.id == trial_id,
            trial.study_id == self.ids[trial_id].0,
            trial.number == self.ids[trial_id].1,
        ensures
            self.with_slot(trial_id, Some(trial)).wf(),
            self.with_slot(trial_id, Some(trial)).slot(trial_id) == Some(trial),
    {
        let after = self.with_slot(trial_id, Some(trial));
        let place = self.ids[trial_id];
        assert(self.trials.contains_key(place.0));
        assert forall|s: u32| #[trigger] after.trials.contains_key(s) == after.has_study(s) by {
            assert(self.trials.contains_key(s) == self.has_study(s));
            lemma_same_studies(self, after, s);
        }
        assert forall|s: u32| #[trigger] after.caches.contains_key(s) implies after.trials.contains_key(s) by {
            assert(self.caches.contains_key(s));
        }
        assert forall|s: u32| #[trigger] after.discarded.contains_key(s) implies after.trials.contains_key(s) by {
            assert(self.discarded.contains_key(s));
        }
        assert forall|t: u32| #[trigger] after.ids.contains_key(t) implies {
            let p = after.ids[t];
            &&& t < after.next_trial_id
            &&& after.trials.contains_key(p.0)
            &&& p.1 < after.trials[p.0].len()
            &&& after.slot(t) is Some ==> after.slot(t)->Some_0.id == t && after.slot(t)->Some_0.study_id == p.0
                && after.slot(t)->Some_0.number == p.1
        } by {
            assert(self.ids.contains_key(t));
            if self.ids[t] == place {
                assert(t == trial_id);
            }
        }
        assert forall|s: u32, n: int| after.trials.contains_key(s) && 0 <= n < after.trials[s].len() implies #[trigger] after.trial_at(s, n) by {
            assert(self.trial_at(s, n));
        }
        assert forall|s: u32| #[trigger] after.trials.contains_key(s) implies
            after.tally(s).total() == absent(after.trials[s], after.trials[s].len()) by {
            assert(self.trials.contains_key(s));
            if s == place.0 {
                lemma_absent_update(self.trials[s], place.1 as int, Some(trial), self.trials[s].len());
            }
        }
    }
}

pub(crate) proof fn lemma_same_studies(a: StorageRecord, b: StorageRecord, study_id: u32)
    requires
        a.studies == b.studies,
    ensures
        a.has_study(study_id) == b.has_study(study_id),
{
    if a.has_study(study_id) {
        let i = a.study_index(study_id);
        assert(b.studies[i].id == study_id);
    }
    if b.has_study(study_id) {
        let i = b.study_index(study_id);
        assert(a.studies[i].id == study_id);
    }
}

proof fn lemma_absent_update(trials: Seq<Option<TrialRecord>>, at: int, slot: Option<TrialRecord>, n: nat)
    requires
        0 <= at < trials.len(),
        n <= trials.len(),
        trials[at] is Some,
    ensures
        absent(trials.update(at, slot), n) == absent(trials, n) + if at < n && slot is None {
            1int
        } else {
            0
        },
    decreases n,
{
    if n > 0 {
        lemma_absent_update(trials, at, slot, (n - 1) as nat);
    }
}

proof fn lemma_absent_prefix(trials: Seq<Option<TrialRecord>>, other: Seq<Option<TrialRecord>>, n: nat)
    requires
        n <= trials.len(),
        n <= other.len(),
        forall|i: int| 0 <= i < n ==> trials[i] == other[i],
    ensures
        absent(trials, n) == absent(other, n),
    decreases n,
{
    if n > 0 {
        lemma_absent_prefix(trials, other, (n - 1) as nat);
    }
}

/// Those that are there in one of the states, and those that are not there, are no more
/// than there are trials.
proof fn lemma_counts(trials: Seq<Option<TrialRecord>>, states: Option<Seq<TrialState>>, n: nat)
    requires
        n <= trials.len(),
    ensures
        live_among(trials, states, n) + absent(trials, n) <= n,
        states is None ==> live_among(trials, states, n) + absent(trials, n) == n,
    decreases n,
{
    if n > 0 {
        lemma_counts(trials, states, (n - 1) as nat);
    }
}

/// In-memory storage.
pub struct InMemoryStorage {
    studies: Vec<PersistedStudy>,
    trials: HashMap<u32, Vec<Option<PersistedTrial>>>,
    trial_id_number_map: TrialIdNumberHashMap,
    study_caches: HashMap<u32, StudyCache>,
    next_study_id: u32,
    next_trial_id: u32,
    discarded_state_counts: HashMap<u32, Tally>,
    option: InMemoryStorageOptions,
}

pub open spec fn study_records(studies: Seq<PersistedStudy>) -> Seq<StudyRecord> {
    Seq::new(studies.len(), |i: int| studies[i]@)
}

pub open spec fn trials_view(trials: Map<u32, Vec<Option<PersistedTrial>>>) -> Map<u32, Seq<Option<TrialRecord>>> {
    Map::new(|s: u32| trials.contains_key(s), |s: u32| trial_records(trials[s]@))
}

pub open spec fn caches_view(caches: Map<u32, StudyCache>) -> Map<u32, CacheRecord> {
    Map::new(|s: u32| caches.contains_key(s), |s: u32| caches[s]@)
}

impl View for InMemoryStorage {
    type V = StorageRecord;

    closed spec fn view(&self) -> StorageRecord {
        StorageRecord {
            studies: study_records(self.studies@),
            trials: trials_view(self.trials@),
            ids: self.trial_id_number_map@,
            caches: caches_view(self.study_caches@),
            discarded: self.discarded_state_counts@,
            next_study_id: self.next_study_id,
            next_trial_id: self.next_trial_id,
            apply_discard: self.option.apply_discard,
        }
    }
}

/// A result without a value, by why it failed.
pub open spec fn refused<T>(r: Result<T>, why: Option<ErrorKind>) -> bool {
    match why {
        Some(kind) => fails(r, kind),
        None => r is Ok,
    }
}

impl InMemoryStorage {
    pub closed spec fn wf(&self) -> bool {
        self@.wf() && self.trial_id_number_map.wf()
    }

    /// Creates an empty in-memory storage.
    pub fn new() -> (r: InMemoryStorage)
        ensures
            r.wf(),
            r@ == StorageRecord::empty(false),
    {
        InMemoryStorage::new_with_option(InMemoryStorageOptions { apply_discard: false })
    }

    /// Creates an empty in-memory storage.
    pub fn new_with_option(option: InMemoryStorageOptions) -> (r: InMemoryStorage)
        ensures
            r.wf(),
            r@ == StorageRecord::empty(option.apply_discard),
    {
        let r = InMemoryStorage {
            studies: Vec::new(),
            trials: HashMap::new(),
            trial_id_number_map: TrialIdNumberHashMap::new(),
            study_caches: HashMap::new(),
            next_study_id: 0,
            next_trial_id: 0,
            discarded_state_counts: HashMap::new(),
            option,
        };
        proof {
            let empty = StorageRecord::empty(option.apply_discard);
            assert(r@.studies =~= empty.studies);
            assert(r@.trials =~= empty.trials);
            assert(r@.caches =~= empty.caches);
            assert(r@ == empty);
        }
        r
    }

    /// What every well-formed storage keeps.
    pub proof fn lemma_wf(&self)
        requires
            self.wf(),
        ensures
            self@.wf(),
    {
    }

    fn position_of(&self, study_id: u32) -> (r: Option<usize>)
        ensures
            r is Some == self@.has_study(study_id),
            r is Some ==> r->Some_0 < self.studies@.len() && self.studies@[r->Some_0 as int].id == study_id,
            r is Some && self@.studies_wf() ==> r->Some_0 == self@.study_index(study_id),
    {
        let mut i: usize = 0;
        while i < self.studies.len()
            invariant
                i <= self.studies@.len(),
                forall|j: int| 0 <= j < i ==> (#[trigger] self.studies@[j]).id != study_id,
            decreases self.studies@.len() - i,
        {
            if self.studies[i].id == study_id {
                proof {
                    assert(self@.studies[i as int].id == study_id);
                    if self@.studies_wf() {
                        self@.lemma_study_index(i as int);
                    }
                }
                return Some(i);
            }
            i = i + 1;
        }
        assert forall|j: int| 0 <= j < self@.studies.len() implies (#[trigger] self@.studies[j]).id != study_id by {
            assert(self.studies@[j].id != study_id);
        }
        None
    }

    fn name_taken(&self, name: &str) -> (r: bool)
        ensures
            r == self@.has_name(name@),
    {
        let mut i: usize = 0;
        while i < self.studies.len()
            invariant
                i <= self.studies@.len(),
                forall|j: int| 0 <= j < i ==> (#[trigger] self.studies@[j]).name@ != name@,
            decreases self.studies@.len() - i,
        {
            if texts_equal(self.studies[i].name.as_str(), name) {
                assert(self@.studies[i as int].name == name@);
                return true;
            }
            i = i + 1;
        }
        assert forall|j: int| 0 <= j < self@.studies.len() implies (#[trigger] self@.studies[j]).name != name@ by {
            assert(self.studies@[j].name@ != name@);
        }
        false
    }

    fn push_study(&mut self, study_id: u32, study_name: &str, directions: Vec<Direction>)
        requires
            old(self).wf(),
            study_id < u32::MAX,
            !old(self)@.has_study(study_id),
            !old(self)@.has_name(study_name@),
        ensures
            final(self).wf(),
            final(self)@ == old(self)@.with_new_study(study_id, study_name@, directions@),
            final(self).studies@.len() > 0,
    {
        let ghost before = self@;
        let ghost studies0 = self.studies@;
        let ghost trials0 = self.trials@;
        self.studies.push(PersistedStudy::new(study_id, study_name.to_owned(), directions));
        self.trials.insert(study_id, Vec::new());
        if study_id >= self.next_study_id {
            self.next_study_id = study_id + 1;
        }
        proof {
            let after = before.with_new_study(study_id, study_name@, directions@);
            assert(self@.studies =~= after.studies);
            assert(trial_records(self.trials@[study_id]@) =~= Seq::<Option<TrialRecord>>::empty());
            assert(self@.trials =~= after.trials);
            assert(self@ == after);
            lemma_with_new_study(before, study_id, study_name@, directions@);
        }
    }

    /// The id that the next new study gets.
    pub fn next_study_id(&self) -> (r: u32)
        ensures
            r == self@.next_study_id,
    {
        self.next_study_id
    }

    /// The id that the next new trial gets.
    pub fn next_trial_id(&self) -> (r: u32)
        ensures
            r == self@.next_trial_id,
    {
        self.next_trial_id
    }

    /// Adds a study under a given id. A study that is there under that id and name is
    /// left as it is.
    pub fn insert_study_with_id(&mut self, study_id: u32, study_name: &str, directions: Vec<Direction>) -> (r: Result<&PersistedStudy>)
        requires
            old(self).wf(),
            study_id < u32::MAX,
        ensures
            final(self).wf(),
            ({
                let known = old(self)@.has_study(study_id);
                let renamed = known && old(self)@.study(study_id).name != study_name@;
                let clash = !known && old(self)@.has_name(study_name@);
                &&& renamed ==> fails(r, ErrorKind::StorageError)
                &&& clash ==> fails(r, ErrorKind::DuplicatedStudy)
                &&& !renamed && !clash ==> r is Ok && r->Ok_0@ == final(self)@.study(study_id)
                &&& final(self)@ == if known || clash {
                    old(self)@
                } else {
                    old(self)@.with_new_study(study_id, study_name@, directions@)
                }
            }),
    {
        match self.position_of(study_id) {
            Some(i) => {
                if !texts_equal(self.studies[i].name.as_str(), study_name) {
                    assert(self@.studies[i as int].name != study_name@);
                    return Err(Error::new(ErrorKind::StorageError));
                }
                assert(self@.studies[i as int] == self.studies@[i as int]@);
                Ok(&self.studies[i])
            }
            None => {
                if self.name_taken(study_name) {
                    return Err(Error::new(ErrorKind::DuplicatedStudy));
                }
                self.push_study(study_id, study_name, directions);
                let last: usize = self.studies.len() - 1;
                proof {
                    assert(self@.studies[last as int].id == study_id);
                    self@.lemma_study_index(last as int);
                    assert(self@.studies[last as int] == self.studies@[last as int]@);
                }
                Ok(&self.studies[last])
            }
        }
    }

    /// Creates a new study. Its id is never one that a deleted study had.
    pub fn create_new_study(&mut self, study_name: &str, directions: Vec<Direction>) -> (r: Result<&PersistedStudy>)
        requires
            old(self).wf(),
            old(self)@.next_study_id < u32::MAX,
        ensures
            final(self).wf(),
            old(self)@.has_name(study_name@) ==> fails(r, ErrorKind::DuplicatedStudy) && final(self)@ == old(self)@,
            !old(self)@.has_name(study_name@) ==> {
                &&& r is Ok
                &&& r->Ok_0@ == (StudyRecord {
                    id: old(self)@.next_study_id,
                    name: study_name@,
                    directions: directions@,
                    attrs: Map::empty(),
                })
                &&& final(self)@ == old(self)@.with_new_study(old(self)@.next_study_id, study_name@, directions@)
            },
    {
        if self.name_taken(study_name) {
            return Err(Error::new(ErrorKind::DuplicatedStudy));
        }
        let study_id: u32 = self.next_study_id;
        assert(!self@.has_study(study_id));
        self.push_study(study_id, study_name, directions);
        let last: usize = self.studies.len() - 1;
        proof {
            let after = old(self)@.with_new_study(study_id, study_name@, directions@);
            assert(self@.studies.len() == self.studies@.len());
            assert(after.studies[last as int] == after.studies.last());
            assert(self@.studies[last as int] == self.studies@[last as int]@);
        }
        Ok(&self.studies[last])
    }

    /// Deletes an existing study and its trials.
    pub fn delete_study(&mut self, study_id: u32) -> (r: Result<()>)
        requires
            old(self).wf(),
        ensures
            final(self).wf(),
            !old(self)@.has_study(study_id) ==> fails(r, ErrorKind::StudyNotFound) && final(self)@ == old(self)@,
            old(self)@.has_study(study_id) ==> r is Ok && final(self)@ == old(self)@.without_study(study_id),
    {
        match self.position_of(study_id) {
            None => Err(Error::new(ErrorKind::StudyNotFound)),
            Some(i) => {
                let ghost before = self@;
                let ghost studies0 = self.studies@;
                let _study = self.studies.remove(i);
                let _trials = self.trials.remove(&study_id);
                self.trial_id_number_map.remove_study(study_id);
                let _tally = self.discarded_state_counts.remove(&study_id);
                let _cache = self.study_caches.remove(&study_id);
                proof {
                    let after = before.without_study(study_id);
                    assert(self@.studies =~= after.studies);
                    assert(self@.trials =~= after.trials);
                    assert(self@.caches =~= after.caches);
                    assert(self@.discarded =~= after.discarded);
                    assert(self@ == after);
                    lemma_without_study(before, study_id);
                }
                Ok(())
            }
        }
    }

    /// Adds a trial at the end of a study.
    fn push_trial(&mut self, trial: PersistedTrial)
        requires
            old(self).wf(),
            old(self)@.has_study(trial.study_id),
            trial.id < u32::MAX,
            !old(self)@.ids.contains_key(trial.id),
            trial.number == old(self)@.trials[trial.study_id].len(),
        ensures
            final(self).wf(),
            final(self)@ == old(self)@.with_new_trial(trial@),
    {
        let ghost before = self@;
        let ghost trials0 = self.trials@;
        let ghost rec = trial@;
        let study_id: u32 = trial.study_id;
        let trial_id: u32 = trial.id;
        let number: u32 = trial.number;
        proof {
            assert(before.trials.contains_key(study_id));
            assert(!occupied(before.ids, (study_id, number))) by {
                if occupied(before.ids, (study_id, number)) {
                    let t = choose|t: u32| #[trigger] before.ids.contains_key(t) && before.ids[t] == (study_id, number);
                }
            }
        }
        match self.trials.remove(&study_id) {
            Some(mut trials) => {
                let ghost old_trials = trials@;
                trials.push(Some(trial));
                self.trials.insert(study_id, trials);
                proof {
                    assert(trials0.contains_key(study_id));
                    assert(trial_records(self.trials@[study_id]@) =~= trial_records(old_trials).push(Some(rec)));
                }
            }
            None => {}
        }
        self.trial_id_number_map.insert(study_id, trial_id, number);
        if trial_id >= self.next_trial_id {
            self.next_trial_id = trial_id + 1;
        }
        proof {
            let after = before.with_new_trial(rec);
            assert(self@.trials =~= after.trials);
            assert(self@.studies =~= after.studies);
            assert(self@ == after);
            lemma_with_new_trial(before, rec);
        }
    }

    /// The trials of a study, by number; discarded ones are absent.
    pub fn get_trials(&self, study_id: u32) -> (r: Result<&Vec<Option<PersistedTrial>>>)
        requires
            self.wf(),
        ensures
            !self@.has_study(study_id) ==> fails(r, ErrorKind::StudyNotFound),
            self@.has_study(study_id) ==> r is Ok && trial_records(r->Ok_0@) == self@.trials[study_id],
    {
        proof {
            assert(self@.trials.contains_key(study_id) == self@.has_study(study_id));
        }
        match self.trials.get(&study_id) {
            Some(trials) => Ok(trials),
            None => Err(Error::new(ErrorKind::StudyNotFound)),
        }
    }

    fn trial_at(&self, study_id: u32, number: u32) -> (r: Option<&PersistedTrial>)
        requires
            self.wf(),
            self@.has_study(study_id),
            number < self@.trials[study_id].len(),
        ensures
            slot_of(r) == self@.trials[study_id][number as int],
    {
        proof {
            assert(self@.trials.contains_key(study_id) == self@.has_study(study_id));
        }
        match self.trials.get(&study_id) {
            Some(trials) => {
                assert(trial_records(trials@)[number as int] == slot_view(trials@[number as int]));
                match &trials[number as usize] {
                    Some(trial) => Some(trial),
                    None => None,
                }
            }
            None => None,
        }
    }

    /// Adds a running trial under a given id at the end of a study. A trial that is there
    /// under that id and number is left as it is.
    pub fn insert_trial_with_id(&mut self, study_id: u32, trial_id: u32, number: u32) -> (r: Result<&PersistedTrial>)
        requires
            old(self).wf(),
            trial_id < u32::MAX,
        ensures
            final(self).wf(),
            ({
                let before = old(self)@;
                let n = before.trials[study_id].len();
                let slot = before.trials[study_id][number as int];
                let fresh = TrialRecord::fresh(trial_id, study_id, number);
                if !before.has_study(study_id) {
                    fails(r, ErrorKind::StudyNotFound) && final(self)@ == before
                } else if number > n {
                    fails(r, ErrorKind::StorageError) && final(self)@ == before
                } else if number < n {
                    &&& final(self)@ == before
                    &&& slot is None ==> fails(r, ErrorKind::TrialDiscarded)
                    &&& slot is Some && slot->Some_0.id != trial_id ==> fails(r, ErrorKind::StorageError)
                    &&& slot is Some && slot->Some_0.id == trial_id ==> r is Ok && Some(r->Ok_0@) == slot
                } else if before.ids.contains_key(trial_id) {
                    fails(r, ErrorKind::StorageError) && final(self)@ == before
                } else {
                    r is Ok && r->Ok_0@ == fresh && final(self)@ == before.with_new_trial(fresh)
                }
            }),
    {
        let ghost before = self@;
        proof {
            assert(self@.trials.contains_key(study_id) == self@.has_study(study_id));
            if self@.has_study(study_id) {
                self@.lemma_trials_fit(study_id);
            }
        }
        let n: u32 = match self.trials.get(&study_id) {
            Some(trials) => {
                assert(trial_records(trials@).len() == trials@.len());
                trials.len() as u32
            }
            None => {
                return Err(Error::new(ErrorKind::StudyNotFound));
            }
        };
        if number > n {
            return Err(Error::new(ErrorKind::StorageError));
        }
        if number < n {
            return match self.trial_at(study_id, number) {
                None => Err(Error::new(ErrorKind::TrialDiscarded)),
                Some(trial) => if trial.id != trial_id {
                    Err(Error::new(ErrorKind::StorageError))
                } else {
                    Ok(trial)
                },
            };
        }
        if self.trial_id_number_map.contains_trial_id(trial_id) {
            return Err(Error::new(ErrorKind::StorageError));
        }
        self.push_trial(PersistedTrial::new(trial_id, study_id, number));
        assert(self@.has_study(study_id)) by {
            assert(self@.trials.contains_key(study_id));
        }
        match self.trial_at(study_id, number) {
            Some(trial) => Ok(trial),
            None => Err(Error::new(ErrorKind::TrialDiscarded)),
        }
    }

    /// Creates a new running trial that starts now.
    pub fn create_new_trial(&mut self, study_id: u32, now: String) -> (r: Result<&PersistedTrial>)
        requires
            old(self).wf(),
            old(self)@.next_trial_id < u32::MAX,
        ensures
            final(self).wf(),
            ({
                let before = old(self)@;
                let trial = TrialRecord {
                    datetime_start: Some(now@),
                    ..TrialRecord::fresh(before.next_trial_id, study_id, before.trials[study_id].len() as u32)
                };
                if before.has_study(study_id) {
                    r is Ok && r->Ok_0@ == trial && final(self)@ == before.with_new_trial(trial)
                } else {
                    fails(r, ErrorKind::StudyNotFound) && final(self)@ == before
                }
            }),
    {
        let mut trial = PersistedTrial::new(0, 0, 0);
        trial.datetime_start = Some(now);
        self.add_trial(study_id, trial)
    }

    /// Creates a new trial by copying a template.
    pub fn create_new_trial_from_template(&mut self, study_id: u32, template: &PersistedTrial) -> (r: Result<&PersistedTrial>)
        requires
            old(self).wf(),
            old(self)@.next_trial_id < u32::MAX,
        ensures
            final(self).wf(),
            ({
                let before = old(self)@;
                let trial = TrialRecord {
                    id: before.next_trial_id,
                    study_id,
                    number: before.trials[study_id].len() as u32,
                    ..template@
                };
                if before.has_study(study_id) {
                    r is Ok && r->Ok_0@ == trial && final(self)@ == before.with_new_trial(trial)
                } else {
                    fails(r, ErrorKind::StudyNotFound) && final(self)@ == before
                }
            }),
    {
        self.add_trial(study_id, template.duplicate())
    }

    /// Adds a trial under the next id and number.
    fn add_trial(&mut self, study_id: u32, template: PersistedTrial) -> (r: Result<&PersistedTrial>)
        requires
            old(self).wf(),
            old(self)@.next_trial_id < u32::MAX,
        ensures
            final(self).wf(),
            ({
                let before = old(self)@;
                let trial = TrialRecord {
                    id: before.next_trial_id,
                    study_id,
                    number: before.trials[study_id].len() as u32,
                    ..template@
                };
                if before.has_study(study_id) {
                    r is Ok && r->Ok_0@ == trial && final(self)@ == before.with_new_trial(trial)
                } else {
                    fails(r, ErrorKind::StudyNotFound) && final(self)@ == before
                }
            }),
    {
        proof {
            assert(self@.trials.contains_key(study_id) == self@.has_study(study_id));
            if self@.has_study(study_id) {
                self@.lemma_trials_fit(study_id);
            }
        }
        let number: u32 = match self.trials.get(&study_id) {
            Some(trials) => {
                assert(trial_records(trials@).len() == trials@.len());
                trials.len() as u32
            }
            None => {
                return Err(Error::new(ErrorKind::StudyNotFound));
            }
        };
        let mut trial = template;
        trial.id = self.next_trial_id;
        trial.study_id = study_id;
        trial.number = number;
        self.push_trial(trial);
        assert(self@.has_study(study_id)) by {
            assert(self@.trials.contains_key(study_id));
        }
        match self.trial_at(study_id, number) {
            Some(trial) => Ok(trial),
            None => Err(Error::new(ErrorKind::TrialDiscarded)),
        }
    }
}

/// Fails where a trial is not known.
pub fn get_study_id_trial_number_by_trial_id(map: &TrialIdNumberHashMap, trial_id: u32) -> (r: Result<(u32, u32)>)
    ensures
        map@.contains_key(trial_id) ==> r is Ok && r->Ok_0 == map@[trial_id],
        !map@.contains_key(trial_id) ==> fails(r, ErrorKind::TrialNotFound),
{
    match map.get_study_id_trial_number(trial_id) {
        Some(place) => Ok(place),
        None => Err(Error::new(ErrorKind::TrialNotFound)),
    }
}

/// Fails where a trial was discarded.
pub fn discarded_if_none<T>(value: Option<T>) -> (r: Result<T>)
    ensures
        value is Some ==> r is Ok && r->Ok_0 == value->Some_0,
        value is None ==> fails(r, ErrorKind::TrialDiscarded),
{
    match value {
        Some(v) => Ok(v),
        None => Err(Error::new(ErrorKind::TrialDiscarded)),
    }
}

/// Fails where a trial is finished.
pub fn check_trial_is_updatable(trial: &PersistedTrial) -> (r: Result<()>)
    ensures
        trial@.outcome.finished() ==> fails(r, ErrorKind::TrialAlreadyFinished),
        !trial@.outcome.finished() ==> r is Ok,
{
    if trial.is_finished() {
        Err(Error::new(ErrorKind::TrialAlreadyFinished))
    } else {
        Ok(())
    }
}

proof fn lemma_slot_twice(before: StorageRecord, trial_id: u32, a: Option<TrialRecord>, b: Option<TrialRecord>)
    requires
        before.trials.contains_key(before.ids[trial_id].0),
        before.ids[trial_id].1 < before.trials[before.ids[trial_id].0].len(),
    ensures
        before.with_slot(trial_id, a).with_slot(trial_id, b) == before.with_slot(trial_id, b),
        before.with_slot(trial_id, before.slot(trial_id)) == before,
{
    let place = before.ids[trial_id];
    let trials = before.trials[place.0];
    assert(trials.update(place.1 as int, a).update(place.1 as int, b) =~= trials.update(place.1 as int, b));
    assert(before.with_slot(trial_id, a).with_slot(trial_id, b).trials =~= before.with_slot(trial_id, b).trials);
    assert(trials.update(place.1 as int, trials[place.1 as int]) =~= trials);
    assert(before.with_slot(trial_id, before.slot(trial_id)).trials =~= before.trials);
}

impl InMemoryStorage {
    /// Returns a trial by ID.
    pub fn get_cached_trial(&self, trial_id: u32) -> (r: Result<&PersistedTrial>)
        requires
            self.wf(),
        ensures
            refused(r, self@.unreadable(trial_id)),
            r is Ok ==> Some(r->Ok_0@) == self@.slot(trial_id),
    {
        match get_study_id_trial_number_by_trial_id(&self.trial_id_number_map, trial_id) {
            Err(e) => Err(e),
            Ok(place) => {
                proof {
                    assert(self@.ids.contains_key(trial_id));
                    assert(self@.trials.contains_key(place.0) == self@.has_study(place.0));
                }
                discarded_if_none(self.trial_at(place.0, place.1))
            }
        }
    }

    /// Returns a trial by ID.
    pub fn get_trial(&self, trial_id: u32) -> (r: Result<&PersistedTrial>)
        requires
            self.wf(),
        ensures
            refused(r, self@.unreadable(trial_id)),
            r is Ok ==> Some(r->Ok_0@) == self@.slot(trial_id),
    {
        self.get_cached_trial(trial_id)
    }

    /// Returns the trial number for a trial ID.
    pub fn get_trial_number_from_id(&self, trial_id: u32) -> (r: Result<u32>)
        ensures
            self@.ids.contains_key(trial_id) ==> r is Ok && r->Ok_0 == self@.ids[trial_id].1,
            !self@.ids.contains_key(trial_id) ==> fails(r, ErrorKind::TrialNotFound),
    {
        match get_study_id_trial_number_by_trial_id(&self.trial_id_number_map, trial_id) {
            Err(e) => Err(e),
            Ok(place) => Ok(place.1),
        }
    }

    /// Resolves a trial ID from a study ID and trial number.
    pub fn get_trial_id_from_study_id_trial_number(&self, study_id: u32, trial_number: u32) -> (r: Result<u32>)
        requires
            self.wf(),
        ensures
            occupied(self@.ids, (study_id, trial_number)) ==> r is Ok && self@.ids.contains_key(r->Ok_0)
                && self@.ids[r->Ok_0] == (study_id, trial_number),
            !occupied(self@.ids, (study_id, trial_number)) ==> fails(r, ErrorKind::TrialNotFound),
    {
        match self.trial_id_number_map.get_trial_id(study_id, trial_number) {
            Some(t) => Ok(t),
            None => Err(Error::new(ErrorKind::TrialNotFound)),
        }
    }

    fn updatable(&self, trial_id: u32) -> (r: Result<()>)
        requires
            self.wf(),
        ensures
            refused(r, self@.unchangeable(trial_id)),
    {
        match self.get_cached_trial(trial_id) {
            Err(e) => Err(e),
            Ok(trial) => check_trial_is_updatable(trial),
        }
    }

    /// Takes a trial out of its place.
    fn take_trial(&mut self, trial_id: u32) -> (r: PersistedTrial)
        requires
            old(self).wf(),
            old(self)@.ids.contains_key(trial_id),
            old(self)@.slot(trial_id) is Some,
        ensures
            Some(r@) == old(self)@.slot(trial_id),
            final(self)@ == old(self)@.with_slot(trial_id, None),
            final(self).trial_id_number_map.wf(),
    {
        let ghost before = self@;
        let ghost trials0 = self.trials@;
        let place: (u32, u32) = match self.trial_id_number_map.get_study_id_trial_number(trial_id) {
            Some(place) => place,
            None => (0, 0),
        };
        assert(before.trials.contains_key(place.0));
        let mut taken = PersistedTrial::new(0, 0, 0);
        match self.trials.remove(&place.0) {
            Some(mut trials) => {
                let ghost old_trials = trials@;
                let at: usize = place.1 as usize;
                assert(trial_records(old_trials)[at as int] == slot_view(old_trials[at as int]));
                let slot = &mut trials[at];
                match slot.take() {
                    Some(trial) => {
                        taken = trial;
                    }
                    None => {}
                }
                self.trials.insert(place.0, trials);
                assert(trial_records(self.trials@[place.0]@) =~= trial_records(old_trials).update(at as int, None));
            }
            None => {}
        }
        proof {
            let after = before.with_slot(trial_id, None);
            assert(self@.trials =~= after.trials);
            assert(self@ == after);
        }
        taken
    }

    /// Puts a trial at its place.
    fn put_trial(&mut self, trial_id: u32, trial: PersistedTrial)
        requires
            old(self).trial_id_number_map.wf(),
            old(self)@.ids.contains_key(trial_id),
            old(self)@.trials.contains_key(old(self)@.ids[trial_id].0),
            old(self)@.ids[trial_id].1 < old(self)@.trials[old(self)@.ids[trial_id].0].len(),
        ensures
            final(self)@ == old(self)@.with_slot(trial_id, Some(trial@)),
            final(self).trial_id_number_map.wf(),
    {
        let ghost before = self@;
        let ghost rec = trial@;
        let place: (u32, u32) = match self.trial_id_number_map.get_study_id_trial_number(trial_id) {
            Some(place) => place,
            None => (0, 0),
        };
        match self.trials.remove(&place.0) {
            Some(mut trials) => {
                let ghost old_trials = trials@;
                let at: usize = place.1 as usize;
                assert(trial_records(old_trials).len() == old_trials.len());
                trials.set(at, Some(trial));
                self.trials.insert(place.0, trials);
                assert(trial_records(self.trials@[place.0]@) =~= trial_records(old_trials).update(at as int, Some(rec)));
            }
            None => {}
        }
        proof {
            let after = before.with_slot(trial_id, Some(rec));
            assert(self@.trials =~= after.trials);
            assert(self@ == after);
        }
    }

    /// Puts back a trial that was taken out of its place and changed.
    fn return_trial(&mut self, trial_id: u32, trial: PersistedTrial, Ghost(before): Ghost<StorageRecord>)
        requires
            before.wf(),
            before.ids.contains_key(trial_id),
            before.slot(trial_id) is Some,
            old(self)@ == before.with_slot(trial_id, None),
            old(self).trial_id_number_map.wf(),
            trial.id == before.slot(trial_id)->Some_0.id,
            trial.study_id == before.slot(trial_id)->Some_0.study_id,
            trial.number == before.slot(trial_id)->Some_0.number,
        ensures
            final(self).wf(),
            final(self)@ == before.with_slot(trial_id, Some(trial@)),
    {
        let ghost rec = trial@;
        self.put_trial(trial_id, trial);
        proof {
            lemma_slot_twice(before, trial_id, None, Some(rec));
            before.lemma_with_slot(trial_id, rec);
        }
    }

    /// Records a suggested parameter. A distribution that cannot be used under the name is
    /// refused.
    pub fn set_trial_param(&mut self, trial_id: u32, name: &str, distribution: &Distribution, value: Float) -> (r: Result<()>)
        requires
            old(self).wf(),
        ensures
            final(self).wf(),
            ({
                let before = old(self)@;
                let s = before.ids[trial_id].0;
                let known = before.cache(s).param_distribution;
                let clash = known.contains_key(name@) && !known[name@].compatible(distribution@);
                if before.unchangeable(trial_id) is Some {
                    refused(r, before.unchangeable(trial_id)) && final(self)@ == before
                } else if clash {
                    fails(r, ErrorKind::IncompatibleDistribution) && final(self)@ == before
                } else {
                    let trial = before.slot(trial_id)->Some_0;
                    &&& r is Ok
                    &&& final(self)@ == (StorageRecord {
                        caches: before.caches.insert(
                            s,
                            CacheRecord { param_distribution: known.insert(name@, distribution@), ..before.cache(s) },
                        ),
                        ..before.with_slot(
                            trial_id,
                            Some(
                                TrialRecord {
                                    distributions: trial.distributions.insert(name@, distribution@),
                                    params: trial.params.insert(name@, value),
                                    ..trial
                                },
                            ),
                        )
                    })
                }
            }),
    {
        match self.updatable(trial_id) {
            Err(e) => {
                return Err(e);
            }
            Ok(_) => {}
        }
        let ghost before = self@;
        let study_id: u32 = match self.trial_id_number_map.get_study_id_trial_number(trial_id) {
            Some(place) => place.0,
            None => 0,
        };
        let key = name.to_owned();
        match self.study_caches.get(&study_id) {
            Some(cache) => {
                match cache.param_distribution.get(&key) {
                    Some(known) => match known.check_compatibility(distribution) {
                        Err(e) => {
                            return Err(e);
                        }
                        Ok(_) => {}
                    },
                    None => {}
                }
            }
            None => {}
        }
        let mut cache = match self.study_caches.remove(&study_id) {
            Some(cache) => cache,
            None => StudyCache::new(),
        };
        cache.param_distribution.insert(key, *distribution);
        self.study_caches.insert(study_id, cache);
        let ghost mid = self@;
        proof {
            let rec = CacheRecord {
                param_distribution: before.cache(study_id).param_distribution.insert(name@, distribution@),
                ..before.cache(study_id)
            };
            assert(mid.caches =~= before.caches.insert(study_id, rec));
            assert(mid == StorageRecord { caches: before.caches.insert(study_id, rec), ..before });
            assert(before.trials.contains_key(study_id));
            lemma_other_caches(before, mid);
        }
        let mut trial = self.take_trial(trial_id);
        trial.distributions.insert(name.to_owned(), *distribution);
        trial.internal_params.insert(name.to_owned(), value);
        self.return_trial(trial_id, trial, Ghost(mid));
        Ok(())
    }

    /// Updates the state and objective values of a trial. A finished trial completes now.
    pub fn set_trial_state_values(&mut self, trial_id: u32, state_values: TrialStateValues, now: String) -> (r: Result<()>)
        requires
            old(self).wf(),
        ensures
            final(self).wf(),
            refused(r, old(self)@.unchangeable(trial_id)),
            r is Err ==> final(self)@ == old(self)@,
            r is Ok ==> final(self)@ == old(self)@.with_slot(
                trial_id,
                Some(old(self)@.slot(trial_id)->Some_0.in_state(state_values@, now@)),
            ),
    {
        match self.updatable(trial_id) {
            Err(e) => {
                return Err(e);
            }
            Ok(_) => {}
        }
        let ghost before = self@;
        let mut trial = self.take_trial(trial_id);
        trial.datetime_complete = if state_values.is_finished() {
            Some(now)
        } else {
            None
        };
        trial.state_values = state_values;
        self.return_trial(trial_id, trial, Ghost(before));
        Ok(())
    }

    /// Stores intermediate values of a trial; values at the same steps are overwritten.
    pub fn set_trial_intermediate_values(&mut self, trial_id: u32, intermediate_values: &KeyMap<u32, Float>) -> (r: Result<()>)
        requires
            old(self).wf(),
        ensures
            final(self).wf(),
            refused(r, old(self)@.unchangeable(trial_id)),
            r is Err ==> final(self)@ == old(self)@,
            r is Ok ==> final(self)@ == old(self)@.with_slot(
                trial_id,
                Some(
                    TrialRecord {
                        intermediate_values: old(self)@.slot(trial_id)->Some_0.intermediate_values.union_prefer_right(
                            intermediate_values@,
                        ),
                        ..old(self)@.slot(trial_id)->Some_0
                    },
                ),
            ),
    {
        match self.updatable(trial_id) {
            Err(e) => {
                return Err(e);
            }
            Ok(_) => {}
        }
        let ghost before = self@;
        let mut trial = self.take_trial(trial_id);
        trial.intermediate_values.extend(intermediate_values);
        self.return_trial(trial_id, trial, Ghost(before));
        Ok(())
    }

    /// Replaces the constraint values of a trial.
    pub fn set_trial_constraints(&mut self, trial_id: u32, constraints: KeyMap<String, Float>) -> (r: Result<()>)
        requires
            old(self).wf(),
        ensures
            final(self).wf(),
            refused(r, old(self)@.unchangeable(trial_id)),
            r is Err ==> final(self)@ == old(self)@,
            r is Ok ==> final(self)@ == old(self)@.with_slot(
                trial_id,
                Some(TrialRecord { constraints: constraints@, ..old(self)@.slot(trial_id)->Some_0 }),
            ),
    {
        match self.updatable(trial_id) {
            Err(e) => {
                return Err(e);
            }
            Ok(_) => {}
        }
        let ghost before = self@;
        let mut trial = self.take_trial(trial_id);
        trial.constraints = constraints;
        self.return_trial(trial_id, trial, Ghost(before));
        Ok(())
    }

    /// Updates trial timestamps, also of a finished trial.
    pub fn set_trial_datetimes(&mut self, trial_id: u32, datetime_start: Option<String>, datetime_complete: Option<String>) -> (r: Result<()>)
        requires
            old(self).wf(),
        ensures
            final(self).wf(),
            refused(r, old(self)@.unreadable(trial_id)),
            r is Err ==> final(self)@ == old(self)@,
            r is Ok ==> final(self)@ == old(self)@.with_slot(
                trial_id,
                Some(
                    TrialRecord {
                        datetime_start: text_view(datetime_start),
                        datetime_complete: text_view(datetime_complete),
                        ..old(self)@.slot(trial_id)->Some_0
                    },
                ),
            ),
    {
        match self.get_cached_trial(trial_id) {
            Err(e) => {
                return Err(e);
            }
            Ok(_) => {}
        }
        let ghost before = self@;
        let mut trial = self.take_trial(trial_id);
        trial.datetime_start = datetime_start;
        trial.datetime_complete = datetime_complete;
        self.return_trial(trial_id, trial, Ghost(before));
        Ok(())
    }

    /// Sets trial attributes. With `error_on_overwrite` they are set in order up to the
    /// first key that exists already, which is refused.
    pub fn set_trial_attrs(&mut self, trial_id: u32, attrs: &Attrs, error_on_overwrite: bool) -> (r: Result<()>)
        requires
            old(self).wf(),
        ensures
            final(self).wf(),
            ({
                let before = old(self)@;
                let trial = before.slot(trial_id)->Some_0;
                if before.unchangeable(trial_id) is Some {
                    refused(r, before.unchangeable(trial_id)) && final(self)@ == before
                } else {
                    exists|merged: Map<AttrName, Seq<char>>| #[trigger] attrs_set(trial.attrs, *attrs, error_on_overwrite, r, merged)
                        && final(self)@ == before.with_slot(trial_id, Some(TrialRecord { attrs: merged, ..trial }))
                }
            }),
    {
        match self.updatable(trial_id) {
            Err(e) => {
                return Err(e);
            }
            Ok(_) => {}
        }
        let ghost before = self@;
        let mut trial = self.take_trial(trial_id);
        let ghost base = trial@;
        let r = set_attrs(&mut trial.attrs, attrs, error_on_overwrite);
        let ghost merged = trial.attrs@;
        assert(attrs_set(base.attrs, *attrs, error_on_overwrite, r, merged));
        assert(trial@ == TrialRecord { attrs: merged, ..base });
        self.return_trial(trial_id, trial, Ghost(before));
        assert(self@ == before.with_slot(trial_id, Some(TrialRecord { attrs: merged, ..base })));
        r
    }

    /// Returns all studies.
    pub fn get_studies(&self) -> (r: &Vec<PersistedStudy>)
        ensures
            study_records(r@) == self@.studies,
    {
        &self.studies
    }

    /// Returns a study by ID.
    pub fn get_study(&self, study_id: u32) -> (r: Result<&PersistedStudy>)
        requires
            self.wf(),
        ensures
            self@.has_study(study_id) ==> r is Ok && r->Ok_0@ == self@.study(study_id),
            !self@.has_study(study_id) ==> fails(r, ErrorKind::StudyNotFound),
    {
        match self.position_of(study_id) {
            Some(i) => {
                assert(self@.studies[i as int] == self.studies@[i as int]@);
                Ok(&self.studies[i])
            }
            None => Err(Error::new(ErrorKind::StudyNotFound)),
        }
    }

    /// The id of the study of that name.
    pub fn find_study(&self, name: &str) -> (r: Option<u32>)
        requires
            self.wf(),
        ensures
            r is Some == self@.has_name(name@),
            r is Some ==> self@.has_study(r->Some_0) && self@.study(r->Some_0).name == name@,
    {
        let mut i: usize = 0;
        while i < self.studies.len()
            invariant
                self.wf(),
                i <= self.studies@.len(),
                forall|j: int| 0 <= j < i ==> (#[trigger] self.studies@[j]).name@ != name@,
            decreases self.studies@.len() - i,
        {
            if texts_equal(self.studies[i].name.as_str(), name) {
                proof {
                    assert(self@.studies[i as int] == self.studies@[i as int]@);
                    self@.lemma_study_index(i as int);
                }
                return Some(self.studies[i].id);
            }
            i = i + 1;
        }
        assert forall|j: int| 0 <= j < self@.studies.len() implies (#[trigger] self@.studies[j]).name != name@ by {
            assert(self.studies@[j].name@ != name@);
        }
        None
    }

    /// Returns a study attribute by key.
    pub fn get_study_attr(&self, study_id: u32, key: &AttrKey) -> (r: Result<String>)
        requires
            self.wf(),
        ensures
            ({
                let attrs = self@.study(study_id).attrs;
                if !self@.has_study(study_id) {
                    fails(r, ErrorKind::StudyNotFound)
                } else if !attrs.contains_key(key@) {
                    fails(r, ErrorKind::AttrNotFound)
                } else {
                    r is Ok && r->Ok_0@ == attrs[key@]
                }
            }),
    {
        match self.get_study(study_id) {
            Err(e) => Err(e),
            Ok(study) => match study.attrs.get(key) {
                Some(value) => Ok(value.clone()),
                None => Err(Error::new(ErrorKind::AttrNotFound)),
            },
        }
    }

    /// Sets study attributes. With `error_on_overwrite` they are set in order up to the
    /// first key that exists already, which is refused.
    pub fn set_study_attrs(&mut self, study_id: u32, attrs: &Attrs, error_on_overwrite: bool) -> (r: Result<()>)
        requires
            old(self).wf(),
        ensures
            final(self).wf(),
            !old(self)@.has_study(study_id) ==> fails(r, ErrorKind::StudyNotFound) && final(self)@ == old(self)@,
            old(self)@.has_study(study_id) ==> exists|merged: Map<AttrName, Seq<char>>|
                #[trigger] attrs_set(old(self)@.study(study_id).attrs, *attrs, error_on_overwrite, r, merged)
                && final(self)@ == old(self)@.with_study_attrs(study_id, merged),
    {
        let ghost before = self@;
        match self.position_of(study_id) {
            None => Err(Error::new(ErrorKind::StudyNotFound)),
            Some(i) => {
                let ghost studies0 = self.studies@;
                assert(before.studies[i as int] == studies0[i as int]@);
                let study = &mut self.studies[i];
                let r = set_attrs(&mut study.attrs, attrs, error_on_overwrite);
                proof {
                    let merged = self.studies@[i as int].attrs@;
                    assert(attrs_set(before.study(study_id).attrs, *attrs, error_on_overwrite, r, merged));
                    let after = before.with_study_attrs(study_id, merged);
                    assert(self@.studies =~= after.studies);
                    assert(self@ == after);
                    lemma_with_study_attrs(before, study_id, merged);
                }
                r
            }
        }
    }

    /// Stores categorical labels for a study parameter; labels that are there already are
    /// not overwritten.
    pub fn set_category_labels(&mut self, study_id: u32, param_name: &str, labels: &Vec<CategoryLabel>) -> (r: Result<()>)
        requires
            old(self).wf(),
        ensures
            final(self).wf(),
            !old(self)@.has_study(study_id) ==> fails(r, ErrorKind::StudyNotFound) && final(self)@ == old(self)@,
            old(self)@.has_study(study_id) ==> exists|attrs: Attrs, merged: Map<AttrName, Seq<char>>|
                attrs@ == label_attrs(param_name@, labels@, labels@.len())
                && #[trigger] attrs_set(old(self)@.study(study_id).attrs, attrs, true, r, merged)
                && final(self)@ == old(self)@.with_study_attrs(study_id, merged),
    {
        let attrs = category_labels_to_attrs(param_name, labels);
        self.set_study_attrs(study_id, &attrs, true)
    }

    /// Returns categorical labels for a study parameter if present.
    pub fn get_category_labels(&self, study_id: u32, param_name: &str, cardinality: usize, decimals: &Decimals) -> (r: Result<Option<Vec<CategoryLabel>>>)
        requires
            self.wf(),
        ensures
            !self@.has_study(study_id) ==> fails(r, ErrorKind::StudyNotFound),
            self@.has_study(study_id) ==> r is Ok && match r->Ok_0 {
                Some(labels) => Some(label_views(labels@)),
                None => None,
            } == stored_labels(self@.study(study_id).attrs, param_name@, cardinality as nat, decimals@),
    {
        match self.get_study(study_id) {
            Err(e) => Err(e),
            Ok(study) => Ok(get_category_labels(&study.attrs, param_name, cardinality, decimals)),
        }
    }

    /// Returns the joint search space inferred from stored trials.
    pub fn get_joint_search_space(&mut self, study_id: u32) -> (r: Result<KeyMap<String, Distribution>>)
        requires
            old(self).wf(),
        ensures
            final(self).wf(),
            !old(self)@.has_study(study_id) ==> fails(r, ErrorKind::StudyNotFound) && final(self)@ == old(self)@,
            old(self)@.has_study(study_id) ==> {
                let cache = old(self)@.cache(study_id).updated(old(self)@.trials[study_id]);
                &&& r is Ok
                &&& r->Ok_0@ == cache.search_space()
                &&& final(self)@ == (StorageRecord { caches: old(self)@.caches.insert(study_id, cache), ..old(self)@ })
            },
    {
        let ghost before = self@;
        assert(before.trials.contains_key(study_id) == before.has_study(study_id));
        if !self.trials.contains_key(&study_id) {
            return Err(Error::new(ErrorKind::StudyNotFound));
        }
        let mut cache = match self.study_caches.remove(&study_id) {
            Some(cache) => cache,
            None => StudyCache::new(),
        };
        match self.trials.get(&study_id) {
            Some(trials) => {
                cache.update(trials);
            }
            None => {}
        }
        let space = cache.get_joint_search_space();
        let ghost rec = cache@;
        self.study_caches.insert(study_id, cache);
        proof {
            assert(self@.caches =~= before.caches.insert(study_id, rec));
            assert(self@ == StorageRecord { caches: before.caches.insert(study_id, rec), ..before });
            lemma_other_caches(before, self@);
        }
        Ok(space)
    }

    /// Returns the number of trials in a study, optionally filtered by state. Discarded
    /// trials are counted in the state they had.
    pub fn get_n_trials(&self, study_id: u32, states: Option<&[TrialState]>) -> (r: Result<u32>)
        requires
            self.wf(),
        ensures
            !self@.has_study(study_id) ==> fails(r, ErrorKind::StudyNotFound),
            self@.has_study(study_id) ==> r is Ok && r->Ok_0 == n_trials(self@, study_id, states_view(states)),
    {
        let ghost rec = self@;
        let ghost sv = states_view(states);
        assert(rec.trials.contains_key(study_id) == rec.has_study(study_id));
        match self.trials.get(&study_id) {
            None => Err(Error::new(ErrorKind::StudyNotFound)),
            Some(trials) => {
                let ghost records = rec.trials[study_id];
                proof {
                    rec.lemma_trials_fit(study_id);
                    lemma_counts(records, sv, records.len());
                    assert(records == trial_records(trials@));
                }
                let mut live: u32 = 0;
                let mut i: usize = 0;
                while i < trials.len()
                    invariant
                        i <= trials@.len(),
                        records == trial_records(trials@),
                        records.len() <= u32::MAX,
                        sv == states_view(states),
                        live == live_among(records, sv, i as nat),
                        live <= i,
                    decreases trials@.len() - i,
                {
                    assert(records[i as int] == slot_view(trials@[i as int]));
                    match &trials[i] {
                        Some(trial) => {
                            if is_asked_for(states, trial.state_values.state()) {
                                live = live + 1;
                            }
                        }
                        None => {}
                    }
                    i = i + 1;
                }
                let tally = match self.discarded_state_counts.get(&study_id) {
                    Some(tally) => *tally,
                    None => Tally { running: 0, complete: 0, pruned: 0, waiting: 0, fail: 0 },
                };
                assert(tally == rec.tally(study_id));
                assert(tally.total() == absent(records, records.len()));
                let mut count: u32 = live;
                if is_asked_for(states, TrialState::Running) {
                    count = count + tally.running;
                }
                if is_asked_for(states, TrialState::Complete) {
                    count = count + tally.complete;
                }
                if is_asked_for(states, TrialState::Pruned) {
                    count = count + tally.pruned;
                }
                if is_asked_for(states, TrialState::Waiting) {
                    count = count + tally.waiting;
                }
                if is_asked_for(states, TrialState::Fail) {
                    count = count + tally.fail;
                }
                Ok(count)
            }
        }
    }

    /// Discards one trial: it is gone, but still counted in its state.
    fn discard_trial(&mut self, trial_id: u32) -> (r: Result<()>)
        requires
            old(self).wf(),
        ensures
            final(self).wf(),
            old(self)@.ids.contains_key(trial_id) ==> r is Ok && final(self)@ == old(self)@.with_discarded(trial_id),
            !old(self)@.ids.contains_key(trial_id) ==> fails(r, ErrorKind::TrialNotFound) && final(self)@ == old(self)@,
    {
        let ghost before = self@;
        let place: (u32, u32) = match get_study_id_trial_number_by_trial_id(&self.trial_id_number_map, trial_id) {
            Err(e) => {
                return Err(e);
            }
            Ok(place) => place,
        };
        match self.get_cached_trial(trial_id) {
            Err(_) => {
                return Ok(());
            }
            Ok(_) => {}
        }
        assert(before.trials.contains_key(place.0));
        let trial = self.take_trial(trial_id);
        let state = trial.state_values.state();
        let mut tally = match self.discarded_state_counts.get(&place.0) {
            Some(tally) => *tally,
            None => Tally { running: 0, complete: 0, pruned: 0, waiting: 0, fail: 0 },
        };
        proof {
            assert(tally == before.tally(place.0));
            before.lemma_trials_fit(place.0);
            let records = before.trials[place.0];
            lemma_counts(records, None, records.len());
            lemma_absent_update(records, place.1 as int, None, records.len());
            lemma_counts(records.update(place.1 as int, None), None, records.len());
        }
        match state {
            TrialState::Running => {
                tally.running = tally.running + 1;
            }
            TrialState::Complete => {
                tally.complete = tally.complete + 1;
            }
            TrialState::Pruned => {
                tally.pruned = tally.pruned + 1;
            }
            TrialState::Waiting => {
                tally.waiting = tally.waiting + 1;
            }
            TrialState::Fail => {
                tally.fail = tally.fail + 1;
            }
        }
        self.discarded_state_counts.insert(place.0, tally);
        proof {
            assert(self@ == before.with_discarded(trial_id));
            lemma_with_discarded(before, trial_id);
        }
        Ok(())
    }

    /// Discards trials, in order, up to the first that is not known. Does nothing where
    /// discarding is off.
    pub fn discard_trials(&mut self, trial_ids: &[u32]) -> (r: Result<()>)
        requires
            old(self).wf(),
        ensures
            final(self).wf(),
            !old(self)@.apply_discard ==> r is Ok && final(self)@ == old(self)@,
            old(self)@.apply_discard ==> {
                &&& (r is Ok) == known_prefix(old(self)@.ids, trial_ids@, trial_ids@.len())
                &&& r is Err ==> fails(r, ErrorKind::TrialNotFound)
                &&& final(self)@ == old(self)@.with_all_discarded(trial_ids@, trial_ids@.len())
            },
            forall|study_id: u32, states: Option<Seq<TrialState>>| old(self)@.has_study(study_id) ==> #[trigger] n_trials(
                final(self)@,
                study_id,
                states,
            ) == n_trials(old(self)@, study_id, states),
    {
        if !self.option.apply_discard {
            return Ok(());
        }
        let ghost before = self@;
        let mut i: usize = 0;
        while i < trial_ids.len()
            invariant
                i <= trial_ids@.len(),
                before == old(self)@,
                before.apply_discard,
                before.wf(),
                self.wf(),
                self@.ids == before.ids,
                self@ == before.with_all_discarded(trial_ids@, i as nat),
                known_prefix(before.ids, trial_ids@, i as nat),
            decreases trial_ids@.len() - i,
        {
            match self.discard_trial(trial_ids[i]) {
                Ok(_) => {}
                Err(e) => {
                    proof {
                        lemma_stops_at(before, trial_ids@, i as nat, trial_ids@.len());
                        lemma_counts_stay(before, trial_ids@);
                    }
                    return Err(e);
                }
            }
            i = i + 1;
        }
        proof {
            lemma_counts_stay(before, trial_ids@);
        }
        Ok(())
    }

    /// Whether trials may be absent.
    pub fn may_omit_trials(&self) -> (r: bool)
        ensures
            r == self@.apply_discard,
    {
        self.option.apply_discard
    }
}

fn lists_state(list: &[TrialState], state: TrialState) -> (r: bool)
    ensures
        r == list@.contains(state),
{
    let mut i: usize = 0;
    while i < list.len()
        invariant
            i <= list@.len(),
            forall|j: int| 0 <= j < i ==> #[trigger] list@[j] != state,
        decreases list@.len() - i,
    {
        if list[i] == state {
            assert(list@[i as int] == state);
            return true;
        }
        i = i + 1;
    }
    false
}

fn is_asked_for(states: Option<&[TrialState]>, state: TrialState) -> (r: bool)
    ensures
        r == asked_for(states_view(states), state),
{
    match states {
        None => true,
        Some(list) => lists_state(list, state),
    }
}

/// The first `n` trials are all known.
pub open spec fn known_prefix(ids: Map<u32, Place>, trial_ids: Seq<u32>, n: nat) -> bool {
    forall|i: int| 0 <= i < n ==> ids.contains_key(#[trigger] trial_ids[i])
}

impl StorageRecord {
    /// A known trial discarded; nothing changes where it was before.
    pub open spec fn with_discarded(self, trial_id: u32) -> StorageRecord {
        match self.slot(trial_id) {
            Some(trial) => StorageRecord {
                discarded: self.discarded.insert(
                    self.ids[trial_id].0,
                    self.tally(self.ids[trial_id].0).plus(trial.outcome.state()),
                ),
                ..self.with_slot(trial_id, None)
            },
            None => self,
        }
    }

    /// The first `n` trials discarded, up to the first that is not known.
    pub open spec fn with_all_discarded(self, trial_ids: Seq<u32>, n: nat) -> StorageRecord
        decreases n,
    {
        if n == 0 {
            self
        } else if known_prefix(self.ids, trial_ids, n) {
            self.with_all_discarded(trial_ids, (n - 1) as nat).with_discarded(trial_ids[n - 1])
        } else {
            self.with_all_discarded(trial_ids, (n - 1) as nat)
        }
    }
}

proof fn lemma_stops_at(before: StorageRecord, trial_ids: Seq<u32>, i: nat, n: nat)
    requires
        i < n <= trial_ids.len(),
        !before.ids.contains_key(trial_ids[i as int]),
    ensures
        before.with_all_discarded(trial_ids, n) == before.with_all_discarded(trial_ids, i),
        !known_prefix(before.ids, trial_ids, n),
    decreases n,
{
    assert(!before.ids.contains_key(trial_ids[i as int]));
    if i + 1 < n {
        lemma_stops_at(before, trial_ids, i, (n - 1) as nat);
    }
}

proof fn lemma_with_discarded(before: StorageRecord, trial_id: u32)
    requires
        before.wf(),
        before.ids.contains_key(trial_id),
        before.slot(trial_id) is Some,
        before.tally(before.ids[trial_id].0).total() < u32::MAX,
    ensures
        before.with_discarded(trial_id).wf(),
{
    let after = before.with_discarded(trial_id);
    let place = before.ids[trial_id];
    assert(before.trials.contains_key(place.0));
    assert forall|s: u32| #[trigger] after.trials.contains_key(s) == after.has_study(s) by {
        assert(before.trials.contains_key(s) == before.has_study(s));
        lemma_same_studies(before, after, s);
    }
    assert forall|s: u32| #[trigger] after.caches.contains_key(s) implies after.trials.contains_key(s) by {
        assert(before.caches.contains_key(s));
    }
    assert forall|s: u32| #[trigger] after.discarded.contains_key(s) implies after.trials.contains_key(s) by {
        if s != place.0 {
            assert(before.discarded.contains_key(s));
        }
    }
    assert forall|t: u32| #[trigger] after.ids.contains_key(t) implies {
        let p = after.ids[t];
        &&& t < after.next_trial_id
        &&& after.trials.contains_key(p.0)
        &&& p.1 < after.trials[p.0].len()
        &&& after.slot(t) is Some ==> after.slot(t)->Some_0.id == t && after.slot(t)->Some_0.study_id == p.0
            && after.slot(t)->Some_0.number == p.1
    } by {
        assert(before.ids.contains_key(t));
        if before.ids[t] == place {
            assert(t == trial_id);
        }
    }
    assert forall|s: u32, n: int| after.trials.contains_key(s) && 0 <= n < after.trials[s].len() implies #[trigger] after.trial_at(s, n) by {
        assert(before.trial_at(s, n));
    }
    assert forall|s: u32| #[trigger] after.trials.contains_key(s) implies
        after.tally(s).total() == absent(after.trials[s], after.trials[s].len()) by {
        assert(before.trials.contains_key(s));
        if s == place.0 {
            lemma_absent_update(before.trials[s], place.1 as int, None, before.trials[s].len());
        }
    }
}

pub(crate) proof fn lemma_with_study_attrs(before: StorageRecord, study_id: u32, attrs: Map<AttrName, Seq<char>>)
    requires
        before.wf(),
        before.has_study(study_id),
    ensures
        before.with_study_attrs(study_id, attrs).wf(),
        before.with_study_attrs(study_id, attrs).study(study_id).attrs == attrs,
{
    let after = before.with_study_attrs(study_id, attrs);
    let at = before.study_index(study_id);
    assert forall|i: int| 0 <= i < before.studies.len() implies (#[trigger] after.studies[i]).id == before.studies[i].id
        && after.studies[i].name == before.studies[i].name by {}
    assert forall|i: int, j: int| 0 <= i < j < after.studies.len() implies (#[trigger] after.studies[i]).id != (#[trigger] after.studies[j]).id
        && after.studies[i].name != after.studies[j].name by {
        assert(before.studies[i].id != before.studies[j].id);
    }
    assert forall|i: int| 0 <= i < after.studies.len() implies (#[trigger] after.studies[i]).id < after.next_study_id by {
        assert(before.studies[i].id < before.next_study_id);
    }
    assert forall|s: u32| #[trigger] after.trials.contains_key(s) == after.has_study(s) by {
        assert(before.trials.contains_key(s) == before.has_study(s));
        if before.has_study(s) {
            let i = before.study_index(s);
            assert(after.studies[i].id == s);
        }
        if after.has_study(s) {
            let i = after.study_index(s);
            assert(before.studies[i].id == s);
        }
    }
    assert forall|s: u32| #[trigger] after.caches.contains_key(s) implies after.trials.contains_key(s) by {
        assert(before.caches.contains_key(s));
    }
    assert forall|s: u32| #[trigger] after.discarded.contains_key(s) implies after.trials.contains_key(s) by {
        assert(before.discarded.contains_key(s));
    }
    assert forall|t: u32| #[trigger] after.ids.contains_key(t) implies {
        let p = after.ids[t];
        &&& t < after.next_trial_id
        &&& after.trials.contains_key(p.0)
        &&& p.1 < after.trials[p.0].len()
        &&& after.slot(t) is Some ==> after.slot(t)->Some_0.id == t && after.slot(t)->Some_0.study_id == p.0
            && after.slot(t)->Some_0.number == p.1
    } by {
        assert(before.ids.contains_key(t));
    }
    assert forall|s: u32, n: int| after.trials.contains_key(s) && 0 <= n < after.trials[s].len() implies #[trigger] after.trial_at(s, n) by {
        assert(before.trial_at(s, n));
    }
    assert forall|s: u32| #[trigger] after.trials.contains_key(s) implies
        after.tally(s).total() == absent(after.trials[s], after.trials[s].len()) by {
        assert(before.trials.contains_key(s));
    }
    after.lemma_study_index(at);
}

/// What setting attributes leaves behind, and how it ends.
pub open spec fn attrs_set(base: Map<AttrName, Seq<char>>, attrs: Attrs, error_on_overwrite: bool, r: Result<()>, merged: Map<AttrName, Seq<char>>) -> bool {
    let clash = error_on_overwrite && exists|k: AttrName| #[trigger] attrs@.contains_key(k) && base.contains_key(k);
    if clash {
        &&& fails(r, ErrorKind::AttrOverwriteNotAllowed)
        &&& exists|k: int| #[trigger] first_clash(base, attrs.keys(), k)
            && merged == base.union_prefer_right(attrs@.restrict(attrs.keys().take(k).to_set()))
    } else {
        r is Ok && merged == base.union_prefer_right(attrs@)
    }
}

fn set_attrs(base: &mut Attrs, attrs: &Attrs, error_on_overwrite: bool) -> (r: Result<()>)
    ensures
        attrs_set(old(base)@, *attrs, error_on_overwrite, r, final(base)@),
{
    if error_on_overwrite {
        if base.extend_new(attrs) {
            Ok(())
        } else {
            Err(Error::new(ErrorKind::AttrOverwriteNotAllowed))
        }
    } else {
        base.extend(attrs);
        Ok(())
    }
}

pub(crate) proof fn lemma_other_caches(a: StorageRecord, b: StorageRecord)
    requires
        a.wf(),
        b == (StorageRecord { caches: b.caches, ..a }),
        forall|s: u32| #[trigger] b.caches.contains_key(s) ==> a.trials.contains_key(s),
    ensures
        b.wf(),
{
    assert forall|s: u32| #[trigger] b.trials.contains_key(s) == b.has_study(s) by {
        assert(a.trials.contains_key(s) == a.has_study(s));
        lemma_same_studies(a, b, s);
    }
    assert forall|s: u32| #[trigger] b.discarded.contains_key(s) implies b.trials.contains_key(s) by {
        assert(a.discarded.contains_key(s));
    }
    assert forall|t: u32| #[trigger] b.ids.contains_key(t) implies {
        let p = b.ids[t];
        &&& t < b.next_trial_id
        &&& b.trials.contains_key(p.0)
        &&& p.1 < b.trials[p.0].len()
        &&& b.slot(t) is Some ==> b.slot(t)->Some_0.id == t && b.slot(t)->Some_0.study_id == p.0 && b.slot(t)->Some_0.number == p.1
    } by {
        assert(a.ids.contains_key(t));
    }
    assert forall|s: u32, n: int| b.trials.contains_key(s) && 0 <= n < b.trials[s].len() implies #[trigger] b.trial_at(s, n) by {
        assert(a.trial_at(s, n));
    }
    assert forall|s: u32| #[trigger] b.trials.contains_key(s) implies b.tally(s).total() == absent(b.trials[s], b.trials[s].len()) by {
        assert(a.trials.contains_key(s));
    }
}

pub open spec fn slot_of(r: Option<&PersistedTrial>) -> Option<TrialRecord> {
    match r {
        Some(t) => Some(t@),
        None => None,
    }
}

pub(crate) proof fn lemma_with_new_study(before: StorageRecord, study_id: u32, name: Seq<char>, directions: Seq<Direction>)
    requires
        before.wf(),
        study_id < u32::MAX,
        !before.has_study(study_id),
        !before.has_name(name),
    ensures
        before.with_new_study(study_id, name, directions).wf(),
{
    let after = before.with_new_study(study_id, name, directions);
    let n = before.studies.len() as int;
    assert forall|i: int| 0 <= i < n implies after.studies[i] == #[trigger] before.studies[i] by {}
    assert forall|i: int, j: int| 0 <= i < j < after.studies.len() implies (#[trigger] after.studies[i]).id != (#[trigger] after.studies[j]).id
        && after.studies[i].name != after.studies[j].name by {
        assert(before.studies[i] == after.studies[i]);
        if j < n {
            assert(before.studies[j] == after.studies[j]);
        }
    }
    assert forall|s: u32| #[trigger] after.trials.contains_key(s) == after.has_study(s) by {
        assert(before.trials.contains_key(s) == before.has_study(s));
        if before.has_study(s) {
            let i = before.study_index(s);
            assert(after.studies[i].id == s);
        }
        if after.has_study(s) {
            let i = after.study_index(s);
            if i < n {
                assert(before.studies[i].id == s);
            }
        }
        assert(after.studies[n].id == study_id);
    }
    assert forall|i: int| 0 <= i < after.studies.len() implies (#[trigger] after.studies[i]).id < after.next_study_id by {
        if i < n {
            assert(before.studies[i].id < before.next_study_id);
        }
    }
    assert(!before.trials.contains_key(study_id));
    assert forall|s: u32| #[trigger] after.caches.contains_key(s) implies after.trials.contains_key(s) by {
        assert(before.caches.contains_key(s));
    }
    assert forall|s: u32| #[trigger] after.discarded.contains_key(s) implies after.trials.contains_key(s) by {
        assert(before.discarded.contains_key(s));
    }
    assert forall|t: u32| #[trigger] after.ids.contains_key(t) implies {
        let p = after.ids[t];
        &&& t < after.next_trial_id
        &&& after.trials.contains_key(p.0)
        &&& p.1 < after.trials[p.0].len()
        &&& after.slot(t) is Some ==> after.slot(t)->Some_0.id == t && after.slot(t)->Some_0.study_id == p.0
            && after.slot(t)->Some_0.number == p.1
    } by {
        assert(before.ids.contains_key(t));
    }
    assert forall|s: u32, k: int| after.trials.contains_key(s) && 0 <= k < after.trials[s].len() implies #[trigger] after.trial_at(s, k) by {
        assert(before.trials.contains_key(s));
        assert(before.trial_at(s, k));
    }
    assert forall|s: u32| #[trigger] after.trials.contains_key(s) implies
        after.tally(s).total() == absent(after.trials[s], after.trials[s].len()) by {
        if s == study_id {
            assert(!before.discarded.contains_key(s));
        } else {
            assert(before.trials.contains_key(s));
        }
    }
}

pub(crate) proof fn lemma_without_study(before: StorageRecord, study_id: u32)
    requires
        before.wf(),
        before.has_study(study_id),
    ensures
        before.without_study(study_id).wf(),
        !before.without_study(study_id).has_study(study_id),
{
    let after = before.without_study(study_id);
    let at = before.study_index(study_id);
    let src = |i: int| if i < at { i } else { i + 1 };
    assert forall|i: int| 0 <= i < after.studies.len() implies after.studies[i] == before.studies[#[trigger] src(i)] by {}
    assert forall|i: int, j: int| 0 <= i < j < after.studies.len() implies (#[trigger] after.studies[i]).id != (#[trigger] after.studies[j]).id
        && after.studies[i].name != after.studies[j].name by {
        assert(before.studies[src(i)].id != before.studies[src(j)].id);
    }
    assert forall|i: int| 0 <= i < after.studies.len() implies (#[trigger] after.studies[i]).id < after.next_study_id by {
        assert(before.studies[src(i)].id < before.next_study_id);
    }
    assert forall|s: u32| #[trigger] after.trials.contains_key(s) == after.has_study(s) by {
        assert(before.trials.contains_key(s) == before.has_study(s));
        if s != study_id && before.has_study(s) {
            let i = before.study_index(s);
            let j = if i < at { i } else { i - 1 };
            assert(src(j) == i);
            assert(after.studies[j].id == s);
        }
        if after.has_study(s) {
            let j = after.study_index(s);
            assert(before.studies[src(j)].id == s);
            before.lemma_study_index(src(j));
            before.lemma_study_index(at);
        }
    }
    assert(!after.has_study(study_id)) by {
        assert(after.trials.contains_key(study_id) == after.has_study(study_id));
    }
    assert forall|s: u32| #[trigger] after.caches.contains_key(s) implies after.trials.contains_key(s) by {
        assert(before.caches.contains_key(s));
    }
    assert forall|s: u32| #[trigger] after.discarded.contains_key(s) implies after.trials.contains_key(s) by {
        assert(before.discarded.contains_key(s));
    }
    assert forall|t: u32| #[trigger] after.ids.contains_key(t) implies {
        let p = after.ids[t];
        &&& t < after.next_trial_id
        &&& after.trials.contains_key(p.0)
        &&& p.1 < after.trials[p.0].len()
        &&& after.slot(t) is Some ==> after.slot(t)->Some_0.id == t && after.slot(t)->Some_0.study_id == p.0
            && after.slot(t)->Some_0.number == p.1
    } by {
        assert(before.ids.contains_key(t));
    }
    assert forall|t: u32, u: u32| #[trigger] after.ids.contains_key(t) && #[trigger] after.ids.contains_key(u) && after.ids[t] == after.ids[u]
        implies t == u by {
        assert(before.ids.contains_key(t) && before.ids.contains_key(u));
    }
    assert forall|s: u32, k: int| after.trials.contains_key(s) && 0 <= k < after.trials[s].len() implies #[trigger] after.trial_at(s, k) by {
        assert(before.trial_at(s, k));
        let t = choose|t: u32| #[trigger] before.ids.contains_key(t) && before.ids[t] == (s, k as u32);
        assert(after.ids.contains_key(t));
    }
    assert forall|s: u32| #[trigger] after.trials.contains_key(s) implies
        after.tally(s).total() == absent(after.trials[s], after.trials[s].len()) by {
        assert(before.trials.contains_key(s));
    }
}

pub(crate) proof fn lemma_with_new_trial(before: StorageRecord, trial: TrialRecord)
    requires
        before.wf(),
        before.has_study(trial.study_id),
        trial.id < u32::MAX,
        !before.ids.contains_key(trial.id),
        trial.number == before.trials[trial.study_id].len(),
    ensures
        before.with_new_trial(trial).wf(),
{
    let after = before.with_new_trial(trial);
    let s0 = trial.study_id;
    let n0 = before.trials[s0].len() as int;
    assert(before.trials.contains_key(s0));
    assert forall|s: u32| #[trigger] after.trials.contains_key(s) == after.has_study(s) by {
        assert(before.trials.contains_key(s) == before.has_study(s));
        lemma_same_studies(before, after, s);
    }
    assert forall|s: u32| #[trigger] after.caches.contains_key(s) implies after.trials.contains_key(s) by {
        assert(before.caches.contains_key(s));
    }
    assert forall|s: u32| #[trigger] after.discarded.contains_key(s) implies after.trials.contains_key(s) by {
        assert(before.discarded.contains_key(s));
    }
    assert forall|t: u32| #[trigger] after.ids.contains_key(t) implies {
        let p = after.ids[t];
        &&& t < after.next_trial_id
        &&& after.trials.contains_key(p.0)
        &&& p.1 < after.trials[p.0].len()
        &&& after.slot(t) is Some ==> after.slot(t)->Some_0.id == t && after.slot(t)->Some_0.study_id == p.0
            && after.slot(t)->Some_0.number == p.1
    } by {
        if t != trial.id {
            assert(before.ids.contains_key(t));
        }
    }
    assert forall|t: u32, u: u32| #[trigger] after.ids.contains_key(t) && #[trigger] after.ids.contains_key(u) && after.ids[t] == after.ids[u]
        implies t == u by {
        if t != trial.id {
            assert(before.ids.contains_key(t));
        }
        if u != trial.id {
            assert(before.ids.contains_key(u));
        }
    }
    assert forall|s: u32, k: int| after.trials.contains_key(s) && 0 <= k < after.trials[s].len() implies #[trigger] after.trial_at(s, k) by {
        if s == s0 && k == n0 {
            assert(after.ids.contains_key(trial.id) && after.ids[trial.id] == (s, k as u32));
        } else {
            assert(before.trial_at(s, k));
            let t = choose|t: u32| #[trigger] before.ids.contains_key(t) && before.ids[t] == (s, k as u32);
            assert(after.ids.contains_key(t) && after.ids[t] == (s, k as u32));
        }
    }
    assert forall|s: u32| #[trigger] after.trials.contains_key(s) implies
        after.tally(s).total() == absent(after.trials[s], after.trials[s].len()) by {
        assert(before.trials.contains_key(s));
        if s == s0 {
            lemma_absent_prefix(before.trials[s], after.trials[s], n0 as nat);
        }
    }
}

/// The number of trials of a study in one of the states, discarded ones with them.
pub open spec fn n_trials(rec: StorageRecord, study_id: u32, states: Option<Seq<TrialState>>) -> nat {
    live_among(rec.trials[study_id], states, rec.trials[study_id].len()) + rec.tally(study_id).among(states)
}

/// Counted over all states, every trial that a study ever had counts.
pub proof fn law_every_trial_counts(rec: StorageRecord, study_id: u32)
    requires
        rec.wf(),
        rec.has_study(study_id),
    ensures
        n_trials(rec, study_id, None) == rec.trials[study_id].len(),
{
    assert(rec.trials.contains_key(study_id));
    lemma_counts(rec.trials[study_id], None, rec.trials[study_id].len());
}

proof fn lemma_live_update(trials: Seq<Option<TrialRecord>>, at: int, states: Option<Seq<TrialState>>, n: nat)
    requires
        0 <= at < trials.len(),
        n <= trials.len(),
        trials[at] is Some,
    ensures
        live_among(trials, states, n) == live_among(trials.update(at, None), states, n) + if at < n && asked_for(
            states,
            trials[at]->Some_0.outcome.state(),
        ) {
            1int
        } else {
            0
        },
    decreases n,
{
    if n > 0 {
        lemma_live_update(trials, at, states, (n - 1) as nat);
    }
}

/// Discarding a trial changes no count.
pub proof fn law_discarding_keeps_counts(rec: StorageRecord, trial_id: u32, states: Option<Seq<TrialState>>)
    requires
        rec.wf(),
        rec.ids.contains_key(trial_id),
    ensures
        n_trials(rec.with_discarded(trial_id), rec.ids[trial_id].0, states) == n_trials(rec, rec.ids[trial_id].0, states),
        rec.with_discarded(trial_id).unreadable(trial_id) == Some(ErrorKind::TrialDiscarded),
{
    let s = rec.ids[trial_id].0;
    let at = rec.ids[trial_id].1 as int;
    let trials = rec.trials[s];
    if rec.slot(trial_id) is Some {
        let state = rec.slot(trial_id)->Some_0.outcome.state();
        lemma_live_update(trials, at, states, trials.len());
        rec.lemma_trials_fit(s);
        assert(rec.trials.contains_key(s));
        lemma_counts(trials, None, trials.len());
        lemma_absent_update(trials, at, None, trials.len());
        lemma_counts(trials.update(at, None), None, trials.len());
        assert(rec.tally(s).total() < u32::MAX);
        let after = rec.with_discarded(trial_id);
        assert(after.trials[s] == trials.update(at, None));
        assert(after.tally(s) == rec.tally(s).plus(state));
    }
}

/// Discarding any number of trials, in order up to the first that is not known, changes no
/// count of any study.
pub proof fn law_discarding_many_keeps_counts(
    rec: StorageRecord,
    trial_ids: Seq<u32>,
    n: nat,
    study_id: u32,
    states: Option<Seq<TrialState>>,
)
    requires
        rec.wf(),
        rec.has_study(study_id),
        n <= trial_ids.len(),
    ensures
        n_trials(rec.with_all_discarded(trial_ids, n), study_id, states) == n_trials(rec, study_id, states),
        rec.with_all_discarded(trial_ids, n).wf(),
        rec.with_all_discarded(trial_ids, n).ids == rec.ids,
        rec.with_all_discarded(trial_ids, n).has_study(study_id),
    decreases n,
{
    if n > 0 {
        law_discarding_many_keeps_counts(rec, trial_ids, (n - 1) as nat, study_id, states);
        if known_prefix(rec.ids, trial_ids, n) {
            let before = rec.with_all_discarded(trial_ids, (n - 1) as nat);
            let id = trial_ids[n - 1];
            assert(rec.ids.contains_key(trial_ids[n - 1]));
            law_discarding_keeps_counts(before, id, states);
            if before.slot(id) is Some {
                let place = before.ids[id];
                let trials = before.trials[place.0];
                before.lemma_trials_fit(place.0);
                assert(before.trials.contains_key(place.0));
                lemma_counts(trials, None, trials.len());
                lemma_absent_update(trials, place.1 as int, None, trials.len());
                lemma_counts(trials.update(place.1 as int, None), None, trials.len());
                lemma_with_discarded(before, id);
            }
        }
    }
}

proof fn lemma_counts_stay(rec: StorageRecord, trial_ids: Seq<u32>)
    requires
        rec.wf(),
    ensures
        forall|study_id: u32, states: Option<Seq<TrialState>>| rec.has_study(study_id) ==> #[trigger] n_trials(
            rec.with_all_discarded(trial_ids, trial_ids.len()),
            study_id,
            states,
        ) == n_trials(rec, study_id, states),
{
    assert forall|study_id: u32, states: Option<Seq<TrialState>>| rec.has_study(study_id) implies #[trigger] n_trials(
        rec.with_all_discarded(trial_ids, trial_ids.len()),
        study_id,
        states,
    ) == n_trials(rec, study_id, states) by {
        law_discarding_many_keeps_counts(rec, trial_ids, trial_ids.len(), study_id, states);
    }
}

/// Changing one trial leaves the others as they are.
pub proof fn law_other_trials_stay(rec: StorageRecord, trial_id: u32, slot: Option<TrialRecord>, other: u32)
    requires
        rec.wf(),
        rec.ids.contains_key(trial_id),
        rec.ids.contains_key(other),
        other != trial_id,
    ensures
        rec.with_slot(trial_id, slot).slot(other) == rec.slot(other),
        rec.with_slot(trial_id, slot).slot(trial_id) == slot,
{
    assert(rec.ids[trial_id] != rec.ids[other]);
}

/// A deleted study is gone with its trials, and no other trial is touched.
pub proof fn law_deleted_study_is_gone(rec: StorageRecord, study_id: u32, trial_id: u32)
    requires
        rec.wf(),
        rec.has_study(study_id),
    ensures
        !rec.without_study(study_id).has_study(study_id),
        !occupied(rec.without_study(study_id).ids, (study_id, trial_id)),
        rec.ids.contains_key(trial_id) && rec.ids[trial_id].0 == study_id ==>
            rec.without_study(study_id).unreadable(trial_id) == Some(ErrorKind::TrialNotFound),
        rec.ids.contains_key(trial_id) && rec.ids[trial_id].0 != study_id ==> {
            &&& rec.without_study(study_id).ids.contains_key(trial_id)
            &&& rec.without_study(study_id).slot(trial_id) == rec.slot(trial_id)
        },
{
    lemma_without_study(rec, study_id);
}

/// No operation gives an id back.
pub proof fn law_ids_only_grow(rec: StorageRecord, study_id: u32, trial_id: u32, slot: Option<TrialRecord>, trial: TrialRecord, name: Seq<char>, directions: Seq<Direction>)
    requires
        study_id < u32::MAX,
        trial.id < u32::MAX,
    ensures
        rec.no_later_than(rec.with_new_study(study_id, name, directions)),
        rec.no_later_than(rec.without_study(study_id)),
        rec.no_later_than(rec.with_new_trial(trial)),
        rec.no_later_than(rec.with_slot(trial_id, slot)),
        rec.no_later_than(rec.with_discarded(trial_id)),
{
}

/// The id of a new study differs from those of all studies that there ever were.
pub proof fn law_study_ids_are_not_reused(earlier: StorageRecord, now: StorageRecord, study_id: u32)
    requires
        earlier.wf(),
        earlier.has_study(study_id),
        earlier.no_later_than(now),
    ensures
        now.next_study_id != study_id,
{
    let i = earlier.study_index(study_id);
    assert(earlier.studies[i].id < earlier.next_study_id);
}

/// What is written to a trial is read from it.
pub proof fn law_trial_reads_back(rec: StorageRecord, trial_id: u32, trial: TrialRecord)
    requires
        rec.wf(),
        rec.unreadable(trial_id) is None,
    ensures
        rec.with_slot(trial_id, Some(trial)).unreadable(trial_id) is None,
        rec.with_slot(trial_id, Some(trial)).slot(trial_id) == Some(trial),
        rec.with_slot(trial_id, Some(trial)).trials[rec.ids[trial_id].0][rec.ids[trial_id].1 as int] == Some(trial),
{
    let place = rec.ids[trial_id];
    assert(rec.trials.contains_key(place.0));
}

/// A finished trial is never changed again.
pub proof fn law_finished_trials_stay(rec: StorageRecord, trial_id: u32, outcome: Outcome, now: Seq<char>)
    requires
        rec.wf(),
        rec.unchangeable(trial_id) is None,
        outcome.finished(),
    ensures
        rec.with_slot(trial_id, Some(rec.slot(trial_id)->Some_0.in_state(outcome, now))).unchangeable(trial_id) == Some(
            ErrorKind::TrialAlreadyFinished,
        ),
{
    law_trial_reads_back(rec, trial_id, rec.slot(trial_id)->Some_0.in_state(outcome, now));
}

/// Attributes that are set on a study are read from it; its other attributes, and the other
/// studies, stay.
pub proof fn law_study_attrs_read_back(rec: StorageRecord, study_id: u32, attrs: Attrs, merged: Map<AttrName, Seq<char>>, r: Result<()>)
    requires
        rec.wf(),
        rec.has_study(study_id),
        attrs_set(rec.study(study_id).attrs, attrs, false, r, merged),
    ensures
        r is Ok,
        ({
            let after = rec.with_study_attrs(study_id, merged);
            &&& after.wf()
            &&& forall|key: AttrName| #[trigger] attrs@.contains_key(key) ==> after.study(study_id).attrs.contains_key(key)
                && after.study(study_id).attrs[key] == attrs@[key]
            &&& forall|key: AttrName| !#[trigger] attrs@.contains_key(key) ==> after.study(study_id).attrs.contains_key(key)
                == rec.study(study_id).attrs.contains_key(key)
                && (rec.study(study_id).attrs.contains_key(key) ==> after.study(study_id).attrs[key] == rec.study(study_id).attrs[key])
            &&& forall|s: u32| #[trigger] rec.has_study(s) && s != study_id ==> after.study(s) == rec.study(s)
        }),
{
    let after = rec.with_study_attrs(study_id, merged);
    lemma_with_study_attrs(rec, study_id, merged);
    assert forall|s: u32| #[trigger] rec.has_study(s) && s != study_id implies after.study(s) == rec.study(s) by {
        let i = rec.study_index(s);
        assert(after.studies[i] == rec.studies[i]);
        after.lemma_study_index(i);
    }
}

/// Labels that are set on a study are read from it.
pub proof fn law_set_labels_read_back(
    rec: StorageRecord,
    study_id: u32,
    param_name: Seq<char>,
    labels: Seq<CategoryLabel>,
    attrs: Attrs,
    merged: Map<AttrName, Seq<char>>,
    decimals: Map<Seq<char>, Float>,
)
    requires
        rec.wf(),
        rec.has_study(study_id),
        attrs@ == label_attrs(param_name, labels, labels.len()),
        attrs_set(rec.study(study_id).attrs, attrs, true, Ok(()), merged),
    ensures
        stored_labels(rec.with_study_attrs(study_id, merged).study(study_id).attrs, param_name, labels.len(), decimals) == Some(
            label_views(labels),
        ),
{
    lemma_with_study_attrs(rec, study_id, merged);
    law_category_labels_read_back(rec.study(study_id).attrs, param_name, labels, labels.len(), decimals);
    assert(label_views(labels).take(labels.len() as int) =~= label_views(labels));
}

/// The id of a trial and its number within its study name the same trial.
pub proof fn law_number_and_id_agree(rec: StorageRecord, trial_id: u32, other: u32)
    requires
        rec.wf(),
        rec.ids.contains_key(trial_id),
    ensures
        occupied(rec.ids, rec.ids[trial_id]),
        rec.ids.contains_key(other) && rec.ids[other] == rec.ids[trial_id] ==> other == trial_id,
        rec.slot(trial_id) is Some ==> rec.slot(trial_id)->Some_0.number == rec.ids[trial_id].1
            && rec.slot(trial_id)->Some_0.study_id == rec.ids[trial_id].0,
{
}

/// Every number below the number of a study's trials is that of a trial.
pub proof fn law_numbers_have_no_gaps(rec: StorageRecord, study_id: u32, number: u32)
    requires
        rec.wf(),
        rec.has_study(study_id),
    ensures
        occupied(rec.ids, (study_id, number)) == (number < rec.trials[study_id].len()),
{
    assert(rec.trials.contains_key(study_id));
    if number < rec.trials[study_id].len() {
        assert(rec.trial_at(study_id, number as int));
    }
}

/// An unknown trial is not found and a discarded one is discarded, to readers and to writers. A
/// trial that ended can be read but not changed; one that runs or waits can be changed.
pub proof fn law_ended_trials_are_only_read(rec: StorageRecord, trial_id: u32)
    ensures
        !rec.ids.contains_key(trial_id) ==> rec.unreadable(trial_id) == Some(ErrorKind::TrialNotFound) && rec.unchangeable(trial_id) == Some(
            ErrorKind::TrialNotFound,
        ),
        rec.ids.contains_key(trial_id) && rec.slot(trial_id) is None ==> rec.unreadable(trial_id) == Some(ErrorKind::TrialDiscarded)
            && rec.unchangeable(trial_id) == Some(ErrorKind::TrialDiscarded),
        rec.ids.contains_key(trial_id) && rec.slot(trial_id) is Some ==> {
            let outcome = rec.slot(trial_id)->Some_0.outcome;
            &&& rec.unreadable(trial_id) is None
            &&& outcome is Complete || outcome is Pruned || outcome is Fail ==> rec.unchangeable(trial_id) == Some(ErrorKind::TrialAlreadyFinished)
            &&& outcome is Running || outcome is Waiting ==> rec.unchangeable(trial_id) is None
        },
{
}

/// A new trial stands behind those that its study had, under its id, and no other trial changes.
pub proof fn law_new_trial_stands_at_the_end(rec: StorageRecord, trial: TrialRecord, other: u32)
    requires
        rec.wf(),
        rec.has_study(trial.study_id),
        !rec.ids.contains_key(trial.id),
        trial.number == rec.trials[trial.study_id].len(),
        trial.id < u32::MAX,
    ensures
        ({
            let after = rec.with_new_trial(trial);
            &&& after.unreadable(trial.id) is None
            &&& after.slot(trial.id) == Some(trial)
            &&& after.trials[trial.study_id].len() == rec.trials[trial.study_id].len() + 1
            &&& after.next_trial_id > trial.id
            &&& rec.ids.contains_key(other) ==> after.ids.contains_key(other) && after.slot(other) == rec.slot(other)
            &&& after.studies == rec.studies
        }),
{
    if rec.ids.contains_key(other) {
        assert(rec.trials.contains_key(rec.ids[other].0));
    }
}

/// A new study has the name and the directions that it was made with, and no attributes and no
/// trials; no other study changes.
pub proof fn law_new_study_is_empty(rec: StorageRecord, study_id: u32, name: Seq<char>, directions: Seq<Direction>, other: u32)
    requires
        rec.wf(),
        !rec.has_study(study_id),
        study_id < u32::MAX,
    ensures
        ({
            let after = rec.with_new_study(study_id, name, directions);
            &&& after.has_study(study_id)
            &&& after.has_name(name)
            &&& after.study(study_id).name == name
            &&& after.study(study_id).directions == directions
            &&& after.study(study_id).attrs == Map::<AttrName, Seq<char>>::empty()
            &&& after.trials[study_id].len() == 0
            &&& after.next_study_id > study_id
            &&& rec.has_study(other) ==> after.has_study(other) && after.study(other) == rec.study(other) && after.trials[other] == rec.trials[other]
        }),
{
    let after = rec.with_new_study(study_id, name, directions);
    let last = rec.studies.len() as int;
    assert(after.studies[last].id == study_id);
    assert(after.studies[last].name == name);
    let i = after.study_index(study_id);
    assert(i == last) by {
        if i < last {
            assert(rec.studies[i].id == study_id);
        }
    }
    if rec.has_study(other) {
        let j = rec.study_index(other);
        assert(after.studies[j].id == other);
        let k = after.study_index(other);
        assert(k < last) by {
            if k == last {
                assert(rec.has_study(study_id));
            }
        }
        assert(rec.studies[k].id == other);
        assert(j == k) by {
            if j < k {
                assert(rec.studies[j].id != rec.studies[k].id);
            } else if k < j {
                assert(rec.studies[k].id != rec.studies[j].id);
            }
        }
    }
}

/// Where overwriting is an error, no attribute that was there changes, and setting one of them
/// fails.
pub proof fn law_guarded_attrs_stay(base: Map<AttrName, Seq<char>>, attrs: Attrs, r: Result<()>, merged: Map<AttrName, Seq<char>>, key: AttrName)
    requires
        attrs_set(base, attrs, true, r, merged),
        base.contains_key(key),
        attrs.keys().no_duplicates(),
        attrs.keys().to_set() == attrs@.dom(),
    ensures
        merged.contains_key(key),
        merged[key] == base[key],
        attrs@.contains_key(key) ==> r is Err && r->Err_0.kind == ErrorKind::AttrOverwriteNotAllowed,
{
    if exists|k: AttrName| #[trigger] attrs@.contains_key(k) && base.contains_key(k) {
        let k = choose|k: int| #[trigger] first_clash(base, attrs.keys(), k)
            && merged == base.union_prefer_right(attrs@.restrict(attrs.keys().take(k).to_set()));
        let before = attrs.keys().take(k);
        if before.to_set().contains(key) {
            let j = choose|j: int| 0 <= j < before.len() && before[j] == key;
            assert(!base.contains_key(attrs.keys()[j]));
        }
    }
}

/// The live trials in some states are those of them that were not discarded.
pub proof fn law_live_trials_are_counted_by_state(
    trials: Seq<Option<TrialRecord>>,
    states: Seq<TrialState>,
    n: nat,
    asked: spec_fn(int) -> bool,
    there: spec_fn(int) -> bool,
)
    requires
        n <= trials.len(),
        forall|i: int| 0 <= i < n ==> #[trigger] asked(i) == (trials[i] is Some && states.contains(trials[i]->Some_0.outcome.state())),
        forall|i: int| 0 <= i < n ==> #[trigger] there(i) == (trials[i] is Some),
    ensures
        live_among(trials, Some(states), n) == crate::multi_objective::split::picks(n, asked).len(),
        live_among(trials, None, n) == crate::multi_objective::split::picks(n, there).len(),
    decreases n,
{
    if n > 0 {
        law_live_trials_are_counted_by_state(trials, states, (n - 1) as nat, asked, there);
        assert(asked(n - 1) == (trials[n - 1] is Some && states.contains(trials[n - 1]->Some_0.outcome.state())));
        assert(there(n - 1) == (trials[n - 1] is Some));
    }
}

/// A discarded trial counts in its state and in no other.
pub proof fn law_tally_counts_one_state(tally: Tally, state: TrialState, other: TrialState)
    requires
        tally.total() < u32::MAX,
    ensures
        tally.plus(state).count(state) == tally.count(state) + 1,
        other != state ==> tally.plus(state).count(other) == tally.count(other),
        tally.plus(state).total() == tally.total() + 1,
        tally.among(None) == tally.total(),
        tally.among(Some(seq![state])) == tally.count(state),
        tally.among(Some(Seq::empty())) == 0,
        Tally::none().total() == 0,
{
    let one = seq![state];
    assert(one.contains(state)) by {
        assert(one[0] == state);
    }
    assert forall|s: TrialState| s != state implies !one.contains(s) by {}
    let five = (TrialState::Running, TrialState::Complete, TrialState::Pruned, TrialState::Waiting, TrialState::Fail);
    assert(one.contains(five.0) == (five.0 == state));
    assert(one.contains(five.1) == (five.1 == state));
    assert(one.contains(five.2) == (five.2 == state));
    assert(one.contains(five.3) == (five.3 == state));
    assert(one.contains(five.4) == (five.4 == state));
}

/// Where all of the listed trials are known, all of them are discarded.
pub proof fn law_listed_trials_are_discarded(rec: StorageRecord, trial_ids: Seq<u32>, n: nat, i: int)
    requires
        rec.wf(),
        n <= trial_ids.len(),
        forall|k: int| 0 <= k < n ==> rec.ids.contains_key(#[trigger] trial_ids[k]),
        0 <= i < n,
    ensures
        rec.with_all_discarded(trial_ids, n).unreadable(trial_ids[i]) == Some(ErrorKind::TrialDiscarded),
    decreases n,
{
    let s = rec.ids[trial_ids[i]].0;
    assert(rec.ids.contains_key(trial_ids[i]));
    assert(rec.trials.contains_key(s));
    assert(rec.has_study(s));
    law_discarding_many_keeps_counts(rec, trial_ids, (n - 1) as nat, s, None);
    let before = rec.with_all_discarded(trial_ids, (n - 1) as nat);
    let last = trial_ids[n - 1];
    assert(rec.ids.contains_key(last));
    assert(known_prefix(rec.ids, trial_ids, n));
    assert(rec.with_all_discarded(trial_ids, n) == before.with_discarded(last));
    law_discarding_keeps_counts(before, last, None);
    if trial_ids[i] != last {
        law_listed_trials_are_discarded(rec, trial_ids, (n - 1) as nat, i);
        law_other_trials_stay(before, last, None, trial_ids[i]);
    }
}

} // verus!
