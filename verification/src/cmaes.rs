//! CMA-ES sampling: the decisions around an optimizer that lives elsewhere.

use vstd::prelude::*;

use crate::distribution::{Distribution, Space};
use crate::error::{fails, Error, ErrorKind, Result};
use crate::float::Float;
use crate::key_map::{Duplicate, KeyMap, Same};
use crate::multi_objective::split::{law_losses_go_by_direction, loss_of, picks};
use crate::storage::{InMemoryStorage, StorageRecord};
use crate::study::Direction;
use crate::transform::{numerical, refuses_space, SearchSpaceTransform};
use crate::trial::{TrialRecord, TrialStateValues};

verus! {

/// What is known of the optimizer.
pub struct CmaEsSamplerState {
    pub population_size: Option<usize>,
    pub search_space: Option<KeyMap<String, Distribution>>,
    pub transform: Option<SearchSpaceTransform>,
    /// The trials whose parameters the optimizer gave since it was last told.
    pub solution_trial_ids: Vec<u32>,
}

/// What a request for parameters leads to.
pub enum CmaEsPlan {
    /// Nothing is suggested: every parameter is sampled on its own.
    Independent,
    /// An optimizer is to be set up for this search space.
    Initialize(KeyMap<String, Distribution>),
    /// The optimizer is asked.
    Ask,
}

/// The numerical part of a search space.
pub open spec fn numerical_part(space: Map<Seq<char>, Space>) -> Map<Seq<char>, Space> {
    Map::new(|name: Seq<char>| space.contains_key(name) && !(space[name] is Categorical), |name: Seq<char>| space[name])
}

/// Leaves categorical parameters out.
pub fn without_categorical(space: &KeyMap<String, Distribution>) -> (r: KeyMap<String, Distribution>)
    ensures
        r@ == numerical_part(space@),
{
    let n: usize = space.len();
    let ghost keys = space.keys();
    let mut r: KeyMap<String, Distribution> = KeyMap::new();
    let mut i: usize = 0;
    while i < n
        invariant
            i <= n,
            keys == space.keys(),
            n == keys.len(),
            keys.to_set() == space@.dom(),
            forall|name: Seq<char>| #[trigger] r@.contains_key(name) ==> numerical_part(space@).contains_key(name)
                && r@[name] == space@[name],
            forall|j: int| 0 <= j < i && !(space@[#[trigger] keys[j]] is Categorical) ==> r@.contains_key(keys[j]),
        decreases n - i,
    {
        let e = space.entry(i);
        if !matches!(*e.1, Distribution::Categorical { .. }) {
            r.insert(e.0.duplicate(), e.1.duplicate());
        }
        i = i + 1;
    }
    proof {
        let goal = numerical_part(space@);
        assert forall|name: Seq<char>| goal.contains_key(name) implies r@.contains_key(name) by {
            assert(keys.to_set().contains(name));
            let j = choose|j: int| 0 <= j < keys.len() && keys[j] == name;
            assert(!(space@[keys[j]] is Categorical));
        }
        assert(r@ =~= goal);
    }
    r
}

/// A trial that the optimizer can be told of: complete, with one value and every
/// parameter.
pub open spec fn tellable(trial: TrialRecord, transform: SearchSpaceTransform) -> bool {
    &&& trial.outcome is Complete
    &&& trial.outcome->Complete_0.len() == 1
    &&& forall|i: int| 0 <= i < transform.order().len() ==> trial.params.contains_key((#[trigger] transform.order()[i])@)
}

/// One solution: the parameters as a vector, before scaling, and the loss.
pub struct Solution {
    pub vector: Vec<Float>,
    pub loss: Float,
}

pub open spec fn is_solution(s: Solution, trial: TrialRecord, transform: SearchSpaceTransform, direction: Direction) -> bool {
    &&& s.vector@ == Seq::new(transform.order().len(), |i: int| trial.params[transform.order()[i]@])
    &&& s.loss == loss_of(trial.outcome->Complete_0[0], direction)
}

/// The tellable ones among the first `n` trials, at most `limit` of them.
pub open spec fn tellable_ids(rec: StorageRecord, ids: Seq<u32>, transform: SearchSpaceTransform, limit: nat, n: nat) -> Seq<u32>
    decreases n,
{
    if n == 0 {
        Seq::empty()
    } else {
        let head = tellable_ids(rec, ids, transform, limit, (n - 1) as nat);
        if head.len() < limit && tellable(rec.slot(ids[n - 1])->Some_0, transform) {
            head.push(ids[n - 1])
        } else {
            head
        }
    }
}

impl CmaEsSamplerState {
    pub fn new() -> (r: CmaEsSamplerState)
        ensures
            r.population_size is None,
            r.search_space is None,
            r.transform is None,
            r.solution_trial_ids@.len() == 0,
    {
        CmaEsSamplerState { population_size: None, search_space: None, transform: None, solution_trial_ids: Vec::new() }
    }

    /// Decides what a request for parameters leads to. Categorical parameters are left
    /// out; without any others nothing is suggested. Only single-objective studies are
    /// supported, and only the search space that the optimizer was set up for.
    pub fn plan(&self, search_space: &KeyMap<String, Distribution>, n_directions: usize) -> (r: Result<CmaEsPlan>)
        ensures
            ({
                let space = numerical_part(search_space@);
                if space.dom().len() == 0 {
                    r is Ok && r->Ok_0 is Independent
                } else if n_directions != 1 {
                    fails(r, ErrorKind::UnsupportedMultiObjective)
                } else {
                    match self.search_space {
                        None => r is Ok && r->Ok_0 is Initialize && r->Ok_0->Initialize_0@ == space,
                        Some(known) => if known@ == space {
                            r is Ok && r->Ok_0 is Ask
                        } else {
                            r is Ok && r->Ok_0 is Independent
                        },
                    }
                }
            }),
    {
        let space = without_categorical(search_space);
        if space.len() == 0 {
            return Ok(CmaEsPlan::Independent);
        }
        if n_directions != 1 {
            return Err(Error::new(ErrorKind::UnsupportedMultiObjective));
        }
        match &self.search_space {
            None => Ok(CmaEsPlan::Initialize(space)),
            Some(known) => if known.same(&space) {
                Ok(CmaEsPlan::Ask)
            } else {
                Ok(CmaEsPlan::Independent)
            },
        }
    }

    /// Takes note of an optimizer that was set up for a search space.
    pub fn initialized(&mut self, search_space: KeyMap<String, Distribution>, population_size: usize) -> (r: Result<()>)
        ensures
            final(self).solution_trial_ids@ == old(self).solution_trial_ids@,
            if search_space@.dom().len() > 0 && numerical(search_space@) {
                &&& r is Ok
                &&& final(self).population_size == Some(population_size)
                &&& final(self).search_space is Some && final(self).search_space->Some_0@ == search_space@
                &&& final(self).transform is Some && final(self).transform->Some_0.wf()
                &&& final(self).transform->Some_0.covers_space(search_space@)
            } else {
                refuses_space(r, search_space@) && *final(self) == *old(self)
            },
    {
        match SearchSpaceTransform::new(&search_space) {
            Err(e) => Err(e),
            Ok(transform) => {
                self.population_size = Some(population_size);
                self.search_space = Some(search_space);
                self.transform = Some(transform);
                Ok(())
            }
        }
    }

    /// Collects the solutions of the trials that the optimizer gave parameters for, at most
    /// as many as its population. Fails at the first trial that cannot be read before
    /// there are that many.
    pub fn collect_solutions(&self, storage: &InMemoryStorage, direction: Direction) -> (r: Result<Vec<Solution>>)
        requires
            storage.wf(),
        ensures
            self.population_size is None || self.transform is None ==> fails(r, ErrorKind::Unexpected),
            self.population_size is Some && self.transform is Some ==> {
                let t = self.transform->Some_0;
                let size = self.population_size->Some_0;
                let ids = self.solution_trial_ids@;
                match r {
                    Ok(solutions) => exists|n: nat| {
                        &&& n <= ids.len()
                        &&& #[trigger] all_readable(storage@, ids, n)
                        &&& n == ids.len() || solutions@.len() == size
                        &&& solutions@.len() == tellable_ids(storage@, ids, t, size as nat, n).len()
                        &&& forall|k: int| 0 <= k < solutions@.len() ==> is_solution(
                            #[trigger] solutions@[k],
                            storage@.slot(tellable_ids(storage@, ids, t, size as nat, n)[k])->Some_0,
                            t,
                            direction,
                        )
                    },
                    Err(e) => exists|n: nat| {
                        &&& n < ids.len()
                        &&& #[trigger] all_readable(storage@, ids, n)
                        &&& storage@.unreadable(ids[n as int]) == Some(e.kind)
                        &&& tellable_ids(storage@, ids, t, size as nat, n).len() < size
                    },
                }
            },
    {
        let population_size: usize = match self.population_size {
            None => {
                return Err(Error::new(ErrorKind::Unexpected));
            }
            Some(n) => n,
        };
        let transform = match &self.transform {
            None => {
                return Err(Error::new(ErrorKind::Unexpected));
            }
            Some(t) => t,
        };
        let ghost ids = self.solution_trial_ids@;
        let ghost rec = storage@;
        let ghost limit = population_size as nat;
        let mut solutions: Vec<Solution> = Vec::new();
        let mut i: usize = 0;
        while i < self.solution_trial_ids.len() && solutions.len() < population_size
            invariant
                i <= ids.len(),
                ids == self.solution_trial_ids@,
                rec == storage@,
                storage.wf(),
                limit == population_size,
                self.population_size == Some(population_size),
                self.transform == Some(*transform),
                solutions@.len() <= limit,
                all_readable(rec, ids, i as nat),
                solutions@.len() == tellable_ids(rec, ids, *transform, limit, i as nat).len(),
                forall|k: int| 0 <= k < solutions@.len() ==> is_solution(
                    #[trigger] solutions@[k],
                    rec.slot(tellable_ids(rec, ids, *transform, limit, i as nat)[k])->Some_0,
                    *transform,
                    direction,
                ),
            decreases ids.len() - i,
        {
            let ghost head = tellable_ids(rec, ids, *transform, limit, i as nat);
            let trial = match storage.get_cached_trial(self.solution_trial_ids[i]) {
                Err(e) => {
                    assert(all_readable(rec, ids, i as nat));
                    return Err(e);
                }
                Ok(trial) => trial,
            };
            assert(rec.slot(ids[i as int]) == Some(trial@));
            match &trial.state_values {
                TrialStateValues::Complete(values) => {
                    if values.len() == 1 {
                        match transform.to_vector(&trial.internal_params) {
                            Ok(vector) => {
                                let loss = match direction {
                                    Direction::Minimize => values[0],
                                    Direction::Maximize => values[0].neg(),
                                };
                                let ghost before = solutions@;
                                solutions.push(Solution { vector, loss });
                                proof {
                                    let all = tellable_ids(rec, ids, *transform, limit, (i + 1) as nat);
                                    assert(tellable(trial@, *transform));
                                    assert(all == head.push(ids[i as int]));
                                    assert forall|k: int| 0 <= k < solutions@.len() implies is_solution(
                                        #[trigger] solutions@[k],
                                        rec.slot(all[k])->Some_0,
                                        *transform,
                                        direction,
                                    ) by {
                                        if k < before.len() {
                                            assert(solutions@[k] == before[k]);
                                            assert(all[k] == head[k]);
                                        }
                                    }
                                }
                            }
                            Err(_) => {
                                assert(!tellable(trial@, *transform));
                            }
                        }
                    }
                }
                _ => {}
            }
            i = i + 1;
        }
        Ok(solutions)
    }

    /// Takes note that the optimizer was told of a whole population.
    pub fn told(&mut self)
        ensures
            final(self).solution_trial_ids@.len() == 0,
            final(self).population_size == old(self).population_size,
            final(self).search_space == old(self).search_space,
            final(self).transform == old(self).transform,
    {
        self.solution_trial_ids = Vec::new();
    }

    /// Takes note that the optimizer gave parameters for a trial.
    pub fn asked(&mut self, trial_id: u32)
        ensures
            final(self).solution_trial_ids@ == old(self).solution_trial_ids@.push(trial_id),
            final(self).population_size == old(self).population_size,
            final(self).search_space == old(self).search_space,
            final(self).transform == old(self).transform,
    {
        self.solution_trial_ids.push(trial_id);
    }
}

/// The first `n` trials can be read.
pub open spec fn all_readable(rec: StorageRecord, ids: Seq<u32>, n: nat) -> bool {
    forall|i: int| 0 <= i < n ==> rec.unreadable(#[trigger] ids[i]) is None
}

/// The optimizer is never told of more solutions than its population.
pub proof fn law_solutions_fit_the_population(rec: StorageRecord, ids: Seq<u32>, transform: SearchSpaceTransform, limit: nat, n: nat)
    ensures
        tellable_ids(rec, ids, transform, limit, n).len() <= limit,
    decreases n,
{
    if n > 0 {
        law_solutions_fit_the_population(rec, ids, transform, limit, (n - 1) as nat);
    }
}

/// The optimizer is set up for every float and every integer parameter of the search space, with
/// its distribution, and for no categorical one. It is set up for nothing only where all
/// parameters are categorical.
pub proof fn law_optimizer_takes_all_numerical_parameters(space: Map<Seq<char>, Space>, name: Seq<char>)
    requires
        space.dom().finite(),
    ensures
        numerical_part(space).contains_key(name) <==> space.contains_key(name) && (space[name] is Float || space[name] is Int),
        numerical_part(space).contains_key(name) ==> numerical_part(space)[name] == space[name],
        numerical_part(space).dom().len() == 0 <==> forall|other: Seq<char>| #[trigger] space.contains_key(other) ==> space[other] is Categorical,
{
    let part = numerical_part(space);
    assert(part.dom().subset_of(space.dom()));
    vstd::set_lib::lemma_len_subset(part.dom(), space.dom());
    if part.dom().len() == 0 {
        assert forall|other: Seq<char>| #[trigger] space.contains_key(other) implies space[other] is Categorical by {
            if !(space[other] is Categorical) {
                assert(part.dom().contains(other));
            }
        }
    }
    if forall|other: Seq<char>| #[trigger] space.contains_key(other) ==> space[other] is Categorical {
        assert(part.dom() =~= Set::empty());
    }
}

/// The optimizer is told of the first trials that are complete with one value and have every
/// parameter, as many as it takes, in order.
pub proof fn law_first_tellable_trials_are_told(
    rec: StorageRecord,
    ids: Seq<u32>,
    transform: SearchSpaceTransform,
    limit: nat,
    n: nat,
    told: spec_fn(int) -> bool,
)
    requires
        n <= ids.len(),
        forall|i: int| 0 <= i < n ==> #[trigger] told(i) == {
            let trial = rec.slot(ids[i])->Some_0;
            &&& trial.outcome is Complete
            &&& trial.outcome->Complete_0.len() == 1
            &&& forall|k: int| 0 <= k < transform.order().len() ==> trial.params.contains_key((#[trigger] transform.order()[k])@)
        },
    ensures
        tellable_ids(rec, ids, transform, limit, n) == Seq::new(
            if picks(n, told).len() < limit {
                picks(n, told).len()
            } else {
                limit
            },
            |k: int| ids[picks(n, told)[k]],
        ),
    decreases n,
{
    let list = tellable_ids(rec, ids, transform, limit, n);
    let at = picks(n, told);
    let all = Seq::new(
        if at.len() < limit {
            at.len()
        } else {
            limit
        },
        |k: int| ids[at[k]],
    );
    if n > 0 {
        law_first_tellable_trials_are_told(rec, ids, transform, limit, (n - 1) as nat, told);
        assert(told(n - 1) == tellable(rec.slot(ids[n - 1])->Some_0, transform));
        assert(list =~= all);
    } else {
        assert(list =~= all);
    }
}

/// Of two solutions the one with the smaller loss has the better value, as the direction counts.
pub proof fn law_solutions_compare_by_direction(
    s: Solution,
    t: Solution,
    a: TrialRecord,
    b: TrialRecord,
    transform: SearchSpaceTransform,
    direction: Direction,
)
    requires
        is_solution(s, a, transform, direction),
        is_solution(t, b, transform, direction),
    ensures
        s.loss.below(t.loss) == match direction {
            Direction::Minimize => a.outcome->Complete_0[0].below(b.outcome->Complete_0[0]),
            Direction::Maximize => b.outcome->Complete_0[0].below(a.outcome->Complete_0[0]),
        },
        s.vector@.len() == transform.order().len(),
        forall|i: int| 0 <= i < s.vector@.len() ==> #[trigger] s.vector@[i] == a.params[transform.order()[i]@],
{
    law_losses_go_by_direction(a.outcome->Complete_0[0], b.outcome->Complete_0[0], direction);
}

} // verus!
