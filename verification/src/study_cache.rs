//! What is remembered of a study between requests.

use vstd::prelude::*;

use crate::distribution::{Distribution, Space};
use crate::key_map::{Duplicate, KeyMap, Same};
use crate::trial::{PersistedTrial, TrialRecord, TrialStateValues};

verus! {

/// The trials of a study by number; discarded ones are absent.
pub open spec fn trial_records(trials: Seq<Option<PersistedTrial>>) -> Seq<Option<TrialRecord>> {
    Seq::new(trials.len(), |i: int| slot_view(trials[i]))
}

pub open spec fn slot_view(slot: Option<PersistedTrial>) -> Option<TrialRecord> {
    match slot {
        Some(t) => Some(t@),
        None => None,
    }
}

/// The entries on which both maps agree.
pub open spec fn agreed(a: Map<Seq<char>, Space>, b: Map<Seq<char>, Space>) -> Map<Seq<char>, Space> {
    Map::new(|name: Seq<char>| a.contains_key(name) && b.contains_key(name) && a[name] == b[name], |name: Seq<char>| a[name])
}

/// A trial that takes part in the joint search space.
pub open spec fn completed(slot: Option<TrialRecord>) -> bool {
    slot is Some && slot->Some_0.outcome is Complete
}

pub open spec fn unfinished(slot: Option<TrialRecord>) -> bool {
    slot is Some && !slot->Some_0.outcome.finished()
}

/// The search space after one more trial.
pub open spec fn narrowed(space: Option<Map<Seq<char>, Space>>, slot: Option<TrialRecord>) -> Option<Map<Seq<char>, Space>> {
    if completed(slot) {
        match space {
            Some(m) => Some(agreed(m, slot->Some_0.distributions)),
            None => Some(slot->Some_0.distributions),
        }
    } else {
        space
    }
}

/// The search space after the trials numbered `lo..hi`, the latest first.
pub open spec fn narrowed_by(
    space: Option<Map<Seq<char>, Space>>,
    trials: Seq<Option<TrialRecord>>,
    lo: int,
    hi: int,
) -> Option<Map<Seq<char>, Space>>
    decreases hi - lo,
{
    if hi <= lo {
        space
    } else {
        narrowed_by(narrowed(space, trials[hi - 1]), trials, lo, hi - 1)
    }
}

/// The oldest unfinished trial numbered `lo` or higher, or `otherwise`.
pub open spec fn oldest_unfinished(trials: Seq<Option<TrialRecord>>, lo: int, otherwise: int) -> int
    decreases trials.len() - lo,
{
    if lo >= trials.len() {
        otherwise
    } else if unfinished(trials[lo]) {
        lo
    } else {
        oldest_unfinished(trials, lo + 1, otherwise)
    }
}

pub struct StudyCache {
    pub trial_number_cursor: usize,
    pub joint_search_space: Option<KeyMap<String, Distribution>>,
    /// The distribution last used under each name.
    pub param_distribution: KeyMap<String, Distribution>,
}

/// A cache by its contents.
pub struct CacheRecord {
    pub cursor: nat,
    pub joint: Option<Map<Seq<char>, Space>>,
    pub param_distribution: Map<Seq<char>, Space>,
}

impl View for StudyCache {
    type V = CacheRecord;

    open spec fn view(&self) -> CacheRecord {
        CacheRecord {
            cursor: self.trial_number_cursor as nat,
            joint: match self.joint_search_space {
                Some(m) => Some(m@),
                None => None,
            },
            param_distribution: self.param_distribution@,
        }
    }
}

impl CacheRecord {
    pub open spec fn fresh() -> CacheRecord {
        CacheRecord { cursor: 0, joint: None, param_distribution: Map::empty() }
    }

    /// The cache once it has seen the trials.
    pub open spec fn updated(self, trials: Seq<Option<TrialRecord>>) -> CacheRecord {
        CacheRecord {
            cursor: oldest_unfinished(trials, self.cursor as int, self.cursor as int) as nat,
            joint: narrowed_by(self.joint, trials, self.cursor as int, trials.len() as int),
            param_distribution: self.param_distribution,
        }
    }

    pub open spec fn search_space(self) -> Map<Seq<char>, Space> {
        match self.joint {
            Some(m) => m,
            None => Map::empty(),
        }
    }
}

impl StudyCache {
    pub fn new() -> (r: StudyCache)
        ensures
            r@ == CacheRecord::fresh(),
    {
        StudyCache { trial_number_cursor: 0, joint_search_space: None, param_distribution: KeyMap::new() }
    }

    /// The parameters that every complete trial seen so far has, with one distribution.
    pub fn get_joint_search_space(&self) -> (r: KeyMap<String, Distribution>)
        ensures
            r@ == self@.search_space(),
    {
        match &self.joint_search_space {
            Some(search_space) => search_space.duplicate(),
            None => KeyMap::new(),
        }
    }

    /// Takes in the trials from the cursor on, and moves the cursor to the oldest
    /// unfinished one.
    pub fn update(&mut self, trials: &Vec<Option<PersistedTrial>>)
        ensures
            final(self)@ == old(self)@.updated(trial_records(trials@)),
    {
        let ghost records = trial_records(trials@);
        let ghost start = self@;
        let cursor: usize = self.trial_number_cursor;
        let mut i: usize = trials.len();
        if i < cursor {
            assert(self@ == start.updated(records)) by {
                assert(narrowed_by(start.joint, records, start.cursor as int, records.len() as int) == start.joint);
            }
            return;
        }
        while i > cursor
            invariant
                cursor <= i <= trials@.len(),
                records == trial_records(trials@),
                cursor == start.cursor,
                self@.param_distribution == start.param_distribution,
                narrowed_by(start.joint, records, start.cursor as int, records.len() as int)
                    == narrowed_by(self@.joint, records, start.cursor as int, i as int),
                self@.cursor == oldest_unfinished(records, i as int, start.cursor as int),
            decreases i,
        {
            i = i - 1;
            let ghost before = self@;
            match &trials[i] {
                None => {
                    assert(records[i as int] is None);
                }
                Some(trial) => {
                    assert(records[i as int] == Some(trial@));
                    if !trial.is_finished() {
                        self.trial_number_cursor = i;
                    } else if matches!(trial.state_values, TrialStateValues::Complete(_)) {
                        let narrowed_space = match &self.joint_search_space {
                            Some(search_space) => agreement(search_space, &trial.distributions),
                            None => trial.distributions.duplicate(),
                        };
                        self.joint_search_space = Some(narrowed_space);
                    }
                }
            }
        }
    }
}

/// The entries on which both maps agree.
fn agreement(a: &KeyMap<String, Distribution>, b: &KeyMap<String, Distribution>) -> (r: KeyMap<String, Distribution>)
    ensures
        r@ == agreed(a@, b@),
{
    let n: usize = a.len();
    let mut r: KeyMap<String, Distribution> = KeyMap::new();
    let ghost keys = a.keys();
    let mut i: usize = 0;
    while i < n
        invariant
            i <= n,
            keys == a.keys(),
            n == keys.len(),
            keys.no_duplicates(),
            forall|name: Seq<char>| #[trigger] r@.contains_key(name) ==> agreed(a@, b@).contains_key(name) && r@[name] == a@[name],
            forall|j: int| 0 <= j < i && agreed(a@, b@).contains_key(#[trigger] keys[j]) ==> r@.contains_key(keys[j]),
        decreases n - i,
    {
        let e = a.entry(i);
        let keep = match b.get(e.0) {
            Some(d) => d.same(e.1),
            None => false,
        };
        if keep {
            r.insert(e.0.duplicate(), e.1.duplicate());
        }
        i = i + 1;
    }
    proof {
        assert forall|name: Seq<char>| agreed(a@, b@).contains_key(name) implies r@.contains_key(name) by {
            assert(keys.to_set().contains(name));
            let j = choose|j: int| 0 <= j < keys.len() && keys[j] == name;
            assert(agreed(a@, b@).contains_key(keys[j]));
        }
        assert(r@ =~= agreed(a@, b@));
    }
    r
}

/// The space maps the name to the distribution.
pub open spec fn has_pair(space: Map<Seq<char>, Space>, name: Seq<char>, d: Space) -> bool {
    space.contains_key(name) && space[name] == d
}

/// Every complete trial numbered `lo..hi` has the parameter with the distribution.
pub open spec fn shared_by_all(trials: Seq<Option<TrialRecord>>, lo: int, hi: int, name: Seq<char>, d: Space) -> bool {
    forall|i: int| lo <= i < hi && completed(#[trigger] trials[i]) ==> has_pair(trials[i]->Some_0.distributions, name, d)
}

pub open spec fn some_completed(trials: Seq<Option<TrialRecord>>, lo: int, hi: int) -> bool {
    exists|i: int| lo <= i < hi && completed(#[trigger] trials[i])
}

/// Taking in trials narrows the space to what they share as well.
pub proof fn lemma_narrowed_by(space: Option<Map<Seq<char>, Space>>, trials: Seq<Option<TrialRecord>>, lo: int, hi: int, name: Seq<char>, d: Space)
    requires
        0 <= lo,
        hi <= trials.len(),
    ensures
        narrowed_by(space, trials, lo, hi) is Some == (space is Some || some_completed(trials, lo, hi)),
        narrowed_by(space, trials, lo, hi) is Some ==> (has_pair(narrowed_by(space, trials, lo, hi)->Some_0, name, d)
            == ((space is Some ==> has_pair(space->Some_0, name, d)) && shared_by_all(trials, lo, hi, name, d))),
    decreases hi - lo,
{
    if hi > lo {
        let next = narrowed(space, trials[hi - 1]);
        lemma_narrowed_by(next, trials, lo, hi - 1, name, d);
        if completed(trials[hi - 1]) {
            assert(some_completed(trials, lo, hi));
        }
        assert(some_completed(trials, lo, hi) == (some_completed(trials, lo, hi - 1) || completed(trials[hi - 1])));
        assert(shared_by_all(trials, lo, hi, name, d) == (shared_by_all(trials, lo, hi - 1, name, d) && (completed(trials[hi - 1])
            ==> has_pair(trials[hi - 1]->Some_0.distributions, name, d))));
    }
}

/// A cache that has seen all trials of a study offers exactly the parameters that every
/// complete trial has with one and the same distribution.
pub proof fn law_joint_space_is_shared_by_all(trials: Seq<Option<TrialRecord>>, name: Seq<char>, d: Space)
    ensures
        has_pair(CacheRecord::fresh().updated(trials).search_space(), name, d) == (some_completed(trials, 0, trials.len() as int)
            && shared_by_all(trials, 0, trials.len() as int, name, d)),
{
    lemma_narrowed_by(None, trials, 0, trials.len() as int, name, d);
}

proof fn lemma_cursor(trials: Seq<Option<TrialRecord>>, lo: int, otherwise: int)
    requires
        0 <= lo,
        otherwise <= lo,
    ensures
        otherwise == oldest_unfinished(trials, lo, otherwise) || lo <= oldest_unfinished(trials, lo, otherwise) < trials.len(),
        forall|i: int| lo <= i < oldest_unfinished(trials, lo, otherwise) && i < trials.len() ==> !unfinished(#[trigger] trials[i]),
    decreases trials.len() - lo,
{
    if lo < trials.len() && !unfinished(trials[lo]) {
        lemma_cursor(trials, lo + 1, otherwise);
    }
}

/// The trials of a study later on: there may be more, and finished and discarded ones are
/// as they were.
pub open spec fn grown(earlier: Seq<Option<TrialRecord>>, later: Seq<Option<TrialRecord>>) -> bool {
    &&& earlier.len() <= later.len()
    &&& forall|i: int| 0 <= i < earlier.len() && !unfinished(#[trigger] earlier[i]) ==> later[i] == earlier[i]
}

/// A cache after seeing one state of a study after the other.
pub open spec fn updated_by_all(cache: CacheRecord, states: Seq<Seq<Option<TrialRecord>>>) -> CacheRecord
    decreases states.len(),
{
    if states.len() == 0 {
        cache
    } else {
        updated_by_all(cache, states.drop_last()).updated(states.last())
    }
}

/// The cache has taken in the trials: those before its cursor are done with, and its space
/// is what the complete ones share.
pub open spec fn has_seen(cache: CacheRecord, trials: Seq<Option<TrialRecord>>) -> bool {
    &&& cache.cursor <= trials.len()
    &&& forall|i: int| 0 <= i < cache.cursor ==> !unfinished(#[trigger] trials[i])
    &&& cache.joint is Some == some_completed(trials, 0, trials.len() as int)
    &&& forall|name: Seq<char>, d: Space| cache.joint is Some ==> #[trigger] has_pair(cache.joint->Some_0, name, d) == shared_by_all(
        trials,
        0,
        trials.len() as int,
        name,
        d,
    )
}

proof fn lemma_update_sees(cache: CacheRecord, earlier: Seq<Option<TrialRecord>>, later: Seq<Option<TrialRecord>>)
    requires
        has_seen(cache, earlier),
        grown(earlier, later),
    ensures
        has_seen(cache.updated(later), later),
{
    let next = cache.updated(later);
    let n = earlier.len() as int;
    let m = later.len() as int;
    let c = cache.cursor as int;
    lemma_cursor(later, c, c);
    assert forall|i: int| 0 <= i < next.cursor implies !unfinished(#[trigger] later[i]) by {
        if i < c {
            assert(!unfinished(earlier[i]));
        }
    }
    lemma_narrowed_by(cache.joint, later, c, m, Seq::empty(), arbitrary());
    if some_completed(earlier, 0, n) {
        let i = choose|i: int| 0 <= i < n && completed(#[trigger] earlier[i]);
        assert(completed(later[i]));
    }
    if some_completed(later, 0, m) {
        let i = choose|i: int| 0 <= i < m && completed(#[trigger] later[i]);
        if i < c {
            assert(!unfinished(earlier[i]));
            assert(completed(earlier[i]));
        } else {
            assert(some_completed(later, c, m));
        }
    }
    assert forall|name: Seq<char>, d: Space| next.joint is Some implies #[trigger] has_pair(next.joint->Some_0, name, d) == shared_by_all(
        later,
        0,
        m,
        name,
        d,
    ) by {
        lemma_narrowed_by(cache.joint, later, c, m, name, d);
        if shared_by_all(later, c, m, name, d) && (cache.joint is Some ==> has_pair(cache.joint->Some_0, name, d)) {
            assert forall|i: int| 0 <= i < m && completed(#[trigger] later[i]) implies has_pair(later[i]->Some_0.distributions, name, d) by {
                if i < c {
                    assert(!unfinished(earlier[i]));
                    assert(completed(earlier[i]));
                    assert(some_completed(earlier, 0, n));
                }
            }
        }
        if shared_by_all(later, 0, m, name, d) && cache.joint is Some {
            assert forall|i: int| 0 <= i < n && completed(#[trigger] earlier[i]) implies has_pair(earlier[i]->Some_0.distributions, name, d) by {
                assert(completed(later[i]));
            }
        }
    }
}

proof fn lemma_all_seen(states: Seq<Seq<Option<TrialRecord>>>)
    requires
        states.len() > 0,
        forall|k: int| 0 < k < states.len() ==> grown(states[k - 1], #[trigger] states[k]),
    ensures
        has_seen(updated_by_all(CacheRecord::fresh(), states), states.last()),
    decreases states.len(),
{
    let rest = states.drop_last();
    if rest.len() == 0 {
        assert(updated_by_all(CacheRecord::fresh(), rest) == CacheRecord::fresh());
        assert(has_seen(CacheRecord::fresh(), Seq::empty()));
        lemma_update_sees(CacheRecord::fresh(), Seq::empty(), states.last());
    } else {
        assert forall|k: int| 0 < k < rest.len() implies grown(rest[k - 1], #[trigger] rest[k]) by {
            assert(grown(states[k - 1], states[k]));
        }
        lemma_all_seen(rest);
        assert(grown(states[states.len() - 2], states[states.len() - 1]));
        lemma_update_sees(updated_by_all(CacheRecord::fresh(), rest), rest.last(), states.last());
    }
}

/// Updating step by step, however often, gives the same space as seeing everything at
/// once, as long as finished trials stay as they were.
pub proof fn law_updates_add_up(states: Seq<Seq<Option<TrialRecord>>>, name: Seq<char>, d: Space)
    requires
        states.len() > 0,
        forall|k: int| 0 < k < states.len() ==> grown(states[k - 1], #[trigger] states[k]),
    ensures
        has_pair(updated_by_all(CacheRecord::fresh(), states).search_space(), name, d)
            == has_pair(CacheRecord::fresh().updated(states.last()).search_space(), name, d),
{
    lemma_all_seen(states);
    law_joint_space_is_shared_by_all(states.last(), name, d);
    let cache = updated_by_all(CacheRecord::fresh(), states);
    if cache.joint is Some {
        assert(has_pair(cache.joint->Some_0, name, d) == shared_by_all(states.last(), 0, states.last().len() as int, name, d));
    }
}

/// The joint search space holds a parameter with a distribution exactly where some trial is
/// complete and every complete trial has the parameter with that distribution; running, waiting,
/// pruned, failed and discarded trials do not count.
pub proof fn law_joint_space_goes_by_complete_trials(trials: Seq<Option<TrialRecord>>, name: Seq<char>, d: Space)
    ensures
        ({
            let space = CacheRecord::fresh().updated(trials).search_space();
            space.contains_key(name) && space[name] == d
        }) <==> {
            &&& exists|i: int| 0 <= i < trials.len() && (#[trigger] trials[i]) is Some && trials[i]->Some_0.outcome is Complete
            &&& forall|i: int|
                0 <= i < trials.len() && (#[trigger] trials[i]) is Some && trials[i]->Some_0.outcome is Complete
                    ==> trials[i]->Some_0.distributions.contains_key(name) && trials[i]->Some_0.distributions[name] == d
        },
{
    law_joint_space_is_shared_by_all(trials, name, d);
    if exists|i: int| 0 <= i < trials.len() && (#[trigger] trials[i]) is Some && trials[i]->Some_0.outcome is Complete {
        let i = choose|i: int| 0 <= i < trials.len() && (#[trigger] trials[i]) is Some && trials[i]->Some_0.outcome is Complete;
        assert(completed(trials[i]));
    }
}

/// The cursor moves on to the oldest trial that is still running or waiting, and stays where
/// there is none.
pub proof fn law_cursor_is_the_oldest_unfinished(cache: CacheRecord, trials: Seq<Option<TrialRecord>>, i: int)
    requires
        cache.cursor <= trials.len(),
    ensures
        ({
            let c = cache.updated(trials).cursor as int;
            &&& cache.cursor <= c
            &&& cache.cursor <= i < c && i < trials.len() ==> !(trials[i] is Some && (trials[i]->Some_0.outcome is Running
                || trials[i]->Some_0.outcome is Waiting))
            &&& cache.cursor <= i < trials.len() && trials[i] is Some && (trials[i]->Some_0.outcome is Running
                || trials[i]->Some_0.outcome is Waiting) ==> c <= i && trials[c] is Some && (trials[c]->Some_0.outcome is Running
                || trials[c]->Some_0.outcome is Waiting)
        }),
{
    lemma_cursor(trials, cache.cursor as int, cache.cursor as int);
    lemma_cursor_found(trials, cache.cursor as int, cache.cursor as int, i);
}

proof fn lemma_cursor_found(trials: Seq<Option<TrialRecord>>, lo: int, otherwise: int, i: int)
    requires
        0 <= lo,
    ensures
        lo <= i < trials.len() && unfinished(trials[i]) ==> lo <= oldest_unfinished(trials, lo, otherwise) <= i && unfinished(
            trials[oldest_unfinished(trials, lo, otherwise)],
        ),
    decreases trials.len() - lo,
{
    if lo < trials.len() && !unfinished(trials[lo]) {
        lemma_cursor_found(trials, lo + 1, otherwise, i);
    }
}

} // verus!
