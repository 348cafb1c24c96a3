//! Tree-structured Parzen Estimator sampler.
//!
//! The estimators themselves are computed outside. Here stands which trials they are
//! built from, how those are split, and when they are used at all.

use vstd::prelude::*;

use crate::distribution::Distribution;
use crate::error::{fails_because, Error, ErrorKind, Result};
use crate::float::Float;
use crate::key_map::{Duplicate, KeyMap};
use crate::mixture::above_nothing;
use crate::multi_objective::nds::{clean, row_has_nan};
use crate::multi_objective::split::{
    copy_row, gathered, ints, is_selection, left_out, lemma_ints, lemma_picks, lemma_picks_ascend, lemma_split_rows, loss_of, picks,
    split_observation_indices_for_multi_objective, ObservationSplit,
};
use crate::order::{covers, key_at, lemma_lex_of_three, lex_lt, positions_by_key, precedes, sorted_positions};
use crate::sampler::{generator_of_number, number_drawn, seeded, RandomSampler};
use crate::study::Direction;
use crate::study_cache::{completed, slot_view, trial_records};
use crate::text::{char_codes, decimal, decimal_text, joined};
use crate::trial::{PersistedTrial, TrialRecord, TrialStateValues};

verus! {

/// Configuration of the sampler.
#[derive(Clone, Copy, Debug)]
pub struct TpeConfig {
    /// Whether to suggest jointly over the inferred search space. `None` selects
    /// automatically: jointly for single-objective studies, independently for
    /// multi-objective ones.
    pub multivariate: Option<bool>,
    /// Number of completed trials to collect before switching from random sampling.
    pub n_startup_trials: usize,
    /// Optional seed.
    pub seed: Option<u64>,
}

impl Default for TpeConfig {
    fn default() -> (r: TpeConfig)
        ensures
            r.multivariate is None,
            r.n_startup_trials == 10,
            r.seed is None,
    {
        TpeConfig { multivariate: None, n_startup_trials: 10, seed: None }
    }
}

/// The number of candidates that are drawn from the promising estimator.
pub const N_EI_CANDIDATES: usize = 24;

/// A complete trial without NaN among its values.
pub open spec fn usable(slot: Option<TrialRecord>) -> bool {
    completed(slot) && clean(slot->Some_0.outcome->Complete_0)
}

pub open spec fn usable_on(trials: Seq<Option<TrialRecord>>) -> spec_fn(int) -> bool {
    |i: int| usable(trials[i])
}

/// Places of the usable trials, in order.
pub open spec fn usable_places(trials: Seq<Option<TrialRecord>>) -> Seq<int> {
    picks(trials.len(), usable_on(trials))
}

/// Every constraint holds: none is positive or NaN.
pub open spec fn feasible(constraints: Map<Seq<char>, Float>) -> bool {
    forall|name: Seq<char>| #[trigger] constraints.contains_key(name) ==> !constraints[name].nan() && constraints[name].rank() <= 0
}

/// Whether every constraint holds.
pub fn is_feasible(constraints: &KeyMap<String, Float>) -> (r: bool)
    ensures
        r == feasible(constraints@),
{
    let n: usize = constraints.len();
    let ghost keys = constraints.keys();
    let mut i: usize = 0;
    while i < n
        invariant
            i <= n,
            keys == constraints.keys(),
            n == keys.len(),
            keys.to_set() == constraints@.dom(),
            forall|j: int| 0 <= j < i ==> !constraints@[#[trigger] keys[j]].nan() && constraints@[keys[j]].rank() <= 0,
        decreases n - i,
    {
        let e = constraints.entry(i);
        if e.1.is_nan() || e.1.key() > 0 {
            return false;
        }
        i = i + 1;
    }
    assert forall|name: Seq<char>| #[trigger] constraints@.contains_key(name) implies !constraints@[name].nan()
        && constraints@[name].rank() <= 0 by {
        assert(keys.to_set().contains(name));
        let j = choose|j: int| 0 <= j < keys.len() && keys[j] == name;
        assert(!constraints@[keys[j]].nan());
    }
    true
}

/// The values that a constraint violation is summed from, in the order of the constraints.
pub fn violations(constraints: &KeyMap<String, Float>) -> (r: Vec<Float>)
    ensures
        r@ == positive_values(constraints@, constraints.keys(), constraints.keys().len()),
{
    let n: usize = constraints.len();
    let ghost keys = constraints.keys();
    let mut r: Vec<Float> = Vec::new();
    let mut i: usize = 0;
    while i < n
        invariant
            i <= n,
            keys == constraints.keys(),
            n == keys.len(),
            r@ == positive_values(constraints@, keys, i as nat),
        decreases n - i,
    {
        let e = constraints.entry(i);
        if !e.1.is_nan() && e.1.key() > 0 {
            r.push(*e.1);
        }
        i = i + 1;
    }
    r
}

/// The positive ones among the first `n` constraint values.
pub open spec fn positive_values(constraints: Map<Seq<char>, Float>, keys: Seq<Seq<char>>, n: nat) -> Seq<Float>
    decreases n,
{
    if n == 0 {
        Seq::empty()
    } else {
        let v = constraints[keys[n - 1]];
        let head = positive_values(constraints, keys, (n - 1) as nat);
        if !v.nan() && v.rank() > 0 {
            head.push(v)
        } else {
            head
        }
    }
}

/// Copies of the usable complete trials.
pub struct TpeObservations {
    pub trial_numbers: Vec<u32>,
    /// Objective values of each trial.
    pub values: Vec<Vec<Float>>,
    /// Parameter values of each trial, by parameter; absent where the trial has none.
    pub params: Vec<Vec<Option<Float>>>,
    /// Whether each trial is feasible.
    pub feasible: Vec<bool>,
    /// The positive constraint values of each trial.
    pub violations: Vec<Vec<Float>>,
}

/// The value of a parameter, if the trial has it.
pub open spec fn param_of(trial: TrialRecord, name: Seq<char>) -> Option<Float> {
    if trial.params.contains_key(name) {
        Some(trial.params[name])
    } else {
        None
    }
}

/// Row `k` describes the trial.
pub open spec fn observed(obs: TpeObservations, k: int, trial: PersistedTrial, names: Seq<String>) -> bool {
    &&& obs.trial_numbers@[k] == trial.number
    &&& trial@.outcome is Complete
    &&& obs.values@[k]@ == trial@.outcome->Complete_0
    &&& obs.params@[k]@.len() == names.len()
    &&& forall|p: int| 0 <= p < names.len() ==> #[trigger] obs.params@[k]@[p] == param_of(trial@, names[p]@)
    &&& obs.feasible@[k] == feasible(trial@.constraints)
    &&& obs.violations@[k]@ == positive_values(trial@.constraints, trial.constraints.keys(), trial.constraints.keys().len())
}

impl TpeObservations {
    pub open spec fn wf(self) -> bool {
        &&& self.values@.len() == self.trial_numbers@.len()
        &&& self.params@.len() == self.trial_numbers@.len()
        &&& self.feasible@.len() == self.trial_numbers@.len()
        &&& self.violations@.len() == self.trial_numbers@.len()
    }

    pub fn len(&self) -> (n: usize)
        ensures
            n == self.trial_numbers@.len(),
    {
        self.trial_numbers.len()
    }
}

/// Counts the usable complete trials. Trials with a NaN count for nothing.
pub fn count_usable_complete_trials(trials: &Vec<Option<PersistedTrial>>) -> (n: usize)
    ensures
        n == usable_places(trial_records(trials@)).len(),
{
    let ghost records = trial_records(trials@);
    let ghost f = usable_on(records);
    let mut n: usize = 0;
    let mut i: usize = 0;
    while i < trials.len()
        invariant
            i <= trials@.len(),
            records == trial_records(trials@),
            f == usable_on(records),
            n == picks(i as nat, f).len(),
            n <= i,
        decreases trials@.len() - i,
    {
        assert(records[i as int] == slot_view(trials@[i as int]));
        if slot_is_usable(&trials[i]) {
            n = n + 1;
        }
        i = i + 1;
    }
    n
}

fn slot_is_usable(slot: &Option<PersistedTrial>) -> (r: bool)
    ensures
        r == usable(slot_view(*slot)),
{
    match slot {
        Some(trial) => match &trial.state_values {
            TrialStateValues::Complete(values) => !row_has_nan(values),
            _ => false,
        },
        None => false,
    }
}

/// The usable trial at place `k` is the first that has another number of objective values.
pub open spec fn first_misfit(records: Seq<Option<TrialRecord>>, n_objectives: usize, k: int) -> bool {
    let places = usable_places(records);
    &&& 0 <= k < places.len()
    &&& records[places[k]]->Some_0.outcome->Complete_0.len() != n_objectives
    &&& forall|j: int| 0 <= j < k ==> records[#[trigger] places[j]]->Some_0.outcome->Complete_0.len() == n_objectives
}

/// The result says which usable trial has another number of objective values than the study
/// has directions.
pub open spec fn misfit<T>(r: Result<T>, records: Seq<Option<TrialRecord>>, n_objectives: usize) -> bool {
    exists|k: int| #[trigger] first_misfit(records, n_objectives, k) && {
        let trial = records[usable_places(records)[k]]->Some_0;
        fails_because(
            r,
            ErrorKind::Unexpected,
            "Trial "@ + decimal(trial.number as nat) + " has "@ + decimal(trial.outcome->Complete_0.len())
                + " objective values but the study has "@ + decimal(n_objectives as nat) + " directions"@,
        )
    }
}

/// Copies the usable complete trials, in order. Fails where one of them has another number
/// of objective values than the study has directions.
pub fn snapshot_usable_complete_trials(trials: &Vec<Option<PersistedTrial>>, names: &Vec<String>, n_objectives: usize) -> (r: Result<TpeObservations>)
    ensures
        ({
            let records = trial_records(trials@);
            let places = usable_places(records);
            let fitting = forall|k: int| 0 <= k < places.len() ==> records[#[trigger] places[k]]->Some_0.outcome->Complete_0.len() == n_objectives;
            if fitting {
                &&& r is Ok
                &&& r->Ok_0.wf()
                &&& r->Ok_0.trial_numbers@.len() == places.len()
                &&& forall|k: int| 0 <= k < places.len() ==> trials@[#[trigger] places[k]] is Some && observed(
                    r->Ok_0,
                    k,
                    trials@[places[k]]->Some_0,
                    names@,
                )
            } else {
                misfit(r, records, n_objectives)
            }
        }),
{
    let ghost records = trial_records(trials@);
    let ghost f = usable_on(records);
    let ghost places = usable_places(records);
    let mut obs = TpeObservations {
        trial_numbers: Vec::new(),
        values: Vec::new(),
        params: Vec::new(),
        feasible: Vec::new(),
        violations: Vec::new(),
    };
    let mut i: usize = 0;
    while i < trials.len()
        invariant
            i <= trials@.len(),
            records == trial_records(trials@),
            f == usable_on(records),
            places == usable_places(records),
            obs.wf(),
            obs.trial_numbers@.len() == picks(i as nat, f).len(),
            forall|k: int| 0 <= k < picks(i as nat, f).len() ==> {
                let at = #[trigger] picks(i as nat, f)[k];
                &&& records[at]->Some_0.outcome->Complete_0.len() == n_objectives
                &&& trials@[at] is Some
                &&& observed(obs, k, trials@[at]->Some_0, names@)
            },
        decreases trials@.len() - i,
    {
        let ghost before = obs;
        let ghost head = picks(i as nat, f);
        assert(records[i as int] == slot_view(trials@[i as int]));
        match &trials[i] {
            Some(trial) => match &trial.state_values {
                TrialStateValues::Complete(values) => {
                    if !row_has_nan(values) {
                        assert(picks((i + 1) as nat, f) == head.push(i as int));
                        if values.len() != n_objectives {
                            proof {
                                lemma_picks_extend(f, (i + 1) as nat, records.len());
                                let k = head.len() as int;
                                assert(picks((i + 1) as nat, f)[k] == i);
                                assert(places[k] == i);
                                assert forall|j: int| 0 <= j < k implies records[#[trigger] places[j]]->Some_0.outcome->Complete_0.len()
                                    == n_objectives by {
                                    assert(picks((i + 1) as nat, f)[j] == head[j]);
                                    assert(places[j] == head[j]);
                                }
                                assert(first_misfit(records, n_objectives, k));
                            }
                            let trial_text = joined("Trial ", decimal_text(trial.number as u64).as_str());
                            let has = joined(trial_text.as_str(), " has ");
                            let given = joined(has.as_str(), decimal_text(values.len() as u64).as_str());
                            let but = joined(given.as_str(), " objective values but the study has ");
                            let wanted = joined(but.as_str(), decimal_text(n_objectives as u64).as_str());
                            return Err(Error::with_reason(ErrorKind::Unexpected, joined(wanted.as_str(), " directions")));
                        }
                        obs.trial_numbers.push(trial.number);
                        obs.values.push(copy_row(values));
                        let row = params_row(trial, names);
                        obs.params.push(row);
                        obs.feasible.push(is_feasible(&trial.constraints));
                        obs.violations.push(violations(&trial.constraints));
                        assert forall|k: int| 0 <= k < picks((i + 1) as nat, f).len() implies {
                            let at = #[trigger] picks((i + 1) as nat, f)[k];
                            &&& records[at]->Some_0.outcome->Complete_0.len() == n_objectives
                            &&& trials@[at] is Some
                            &&& observed(obs, k, trials@[at]->Some_0, names@)
                        } by {
                            if k < head.len() {
                                assert(head[k] == picks((i + 1) as nat, f)[k]);
                                assert(observed(before, k, trials@[head[k]]->Some_0, names@));
                                assert(obs.params@[k] == before.params@[k]);
                                assert(obs.values@[k] == before.values@[k]);
                            }
                        }
                    } else {
                        assert(picks((i + 1) as nat, f) == head);
                    }
                }
                _ => {
                    assert(picks((i + 1) as nat, f) == head);
                }
            },
            None => {
                assert(picks((i + 1) as nat, f) == head);
            }
        }
        i = i + 1;
    }
    Ok(obs)
}

proof fn lemma_picks_extend(f: spec_fn(int) -> bool, n: nat, m: nat)
    requires
        n <= m,
    ensures
        picks(n, f).len() <= picks(m, f).len(),
        forall|k: int| 0 <= k < picks(n, f).len() ==> picks(m, f)[k] == #[trigger] picks(n, f)[k],
    decreases m - n,
{
    if n < m {
        lemma_picks_extend(f, n, (m - 1) as nat);
    }
}

fn params_row(trial: &PersistedTrial, names: &Vec<String>) -> (row: Vec<Option<Float>>)
    ensures
        row@.len() == names@.len(),
        forall|p: int| 0 <= p < names@.len() ==> #[trigger] row@[p] == param_of(trial@, names@[p]@),
{
    let mut row: Vec<Option<Float>> = Vec::new();
    let mut p: usize = 0;
    while p < names.len()
        invariant
            p <= names@.len(),
            row@.len() == p,
            forall|q: int| 0 <= q < p ==> #[trigger] row@[q] == param_of(trial@, names@[q]@),
        decreases names@.len() - p,
    {
        let value = match trial.internal_params.get(&names[p]) {
            Some(v) => Some(*v),
            None => None,
        };
        row.push(value);
        p = p + 1;
    }
    row
}

/// The names of a search space, or of what else goes by name, in ascending order.
pub fn sorted_names<V: View>(space: &KeyMap<String, V>) -> (r: Vec<String>)
    ensures
        r@.len() == space.keys().len(),
        forall|i: int| 0 <= i < r@.len() ==> space@.contains_key((#[trigger] r@[i])@),
        forall|name: Seq<char>| #[trigger] space@.contains_key(name) ==> exists|i: int| 0 <= i < r@.len() && (#[trigger] r@[i])@ == name,
        forall|a: int, b: int| 0 <= a < b < r@.len() ==> lex_lt(codes((#[trigger] r@[a])@), codes((#[trigger] r@[b])@)),
{
    let n: usize = space.len();
    let ghost keys = space.keys();
    let mut codes_of: Vec<Vec<i64>> = Vec::new();
    let mut i: usize = 0;
    while i < n
        invariant
            i <= n,
            keys == space.keys(),
            n == keys.len(),
            codes_of@.len() == i,
            forall|q: int| 0 <= q < i ==> #[trigger] key_at(codes_of@, q) == codes(keys[q]),
        decreases n - i,
    {
        let ghost before = codes_of@;
        let e = space.entry(i);
        codes_of.push(char_codes(e.0.as_str()));
        assert forall|q: int| 0 <= q < i + 1 implies #[trigger] key_at(codes_of@, q) == codes(keys[q]) by {
            if q < i {
                assert(key_at(before, q) == key_at(codes_of@, q));
            }
        }
        i = i + 1;
    }
    let order = sorted_positions(&codes_of);
    let mut r: Vec<String> = Vec::new();
    let mut k: usize = 0;
    while k < n
        invariant
            k <= n,
            keys == space.keys(),
            n == keys.len(),
            covers(order@, 0, n as int),
            r@.len() == k,
            forall|q: int| 0 <= q < k ==> (#[trigger] r@[q])@ == keys[order@[q] as int] && space@.contains_key(r@[q]@),
        decreases n - k,
    {
        let e = space.entry(order[k]);
        r.push(e.0.duplicate());
        k = k + 1;
    }
    proof {
        assert forall|name: Seq<char>| #[trigger] space@.contains_key(name) implies exists|i: int| 0 <= i < r@.len() && (#[trigger] r@[i])@ == name by {
            assert(keys.to_set().contains(name));
            let j = choose|j: int| 0 <= j < keys.len() && keys[j] == name;
            assert(order@.contains(j as usize));
            let i = choose|i: int| 0 <= i < order@.len() && order@[i] == j as usize;
            assert(r@[i]@ == name);
        }
        assert forall|a: int, b: int| 0 <= a < b < r@.len() implies lex_lt(codes((#[trigger] r@[a])@), codes((#[trigger] r@[b])@)) by {
            assert(precedes(codes_of@, order@[a] as int, order@[b] as int));
            let x = order@[a] as int;
            let y = order@[b] as int;
            assert(key_at(codes_of@, x) == codes(keys[x]));
            assert(key_at(codes_of@, y) == codes(keys[y]));
            if codes(keys[x]) == codes(keys[y]) {
                crate::text::lemma_codes_differ(keys[x], keys[y]);
                assert(keys[x] == keys[y]);
                assert(x == y);
            }
        }
    }
    r
}

/// A text as the numbers of its characters.
pub open spec fn codes(s: Seq<char>) -> Seq<int> {
    crate::text::codes_of(s)
}

/// The candidate with the largest acquisition value, the first one of equals. Values that
/// are no numbers are passed over; the first candidate is taken where nothing is above
/// negative infinity.
pub fn best_candidate(acquisitions: &Vec<Float>) -> (r: usize)
    requires
        acquisitions@.len() > 0,
    ensures
        r < acquisitions@.len(),
        (forall|k: int| 0 <= k < acquisitions@.len() ==> !above_nothing(#[trigger] acquisitions@[k])) ==> r == 0,
        (exists|k: int| 0 <= k < acquisitions@.len() && above_nothing(#[trigger] acquisitions@[k])) ==> {
            &&& above_nothing(acquisitions@[r as int])
            &&& forall|k: int| 0 <= k < acquisitions@.len() ==> !acquisitions@[r as int].below(#[trigger] acquisitions@[k])
            &&& forall|k: int| 0 <= k < r ==> (#[trigger] acquisitions@[k]).nan() || acquisitions@[k].below(acquisitions@[r as int])
        },
{
    let mut best: usize = 0;
    let mut best_value: Float = Float { bits: 0xfff0_0000_0000_0000 };
    let mut i: usize = 0;
    while i < acquisitions.len()
        invariant
            i <= acquisitions@.len(),
            best < acquisitions@.len(),
            (forall|k: int| 0 <= k < i ==> !above_nothing(#[trigger] acquisitions@[k])) ==> best == 0 && best_value.bits
                == 0xfff0_0000_0000_0000,
            (exists|k: int| 0 <= k < i && above_nothing(#[trigger] acquisitions@[k])) ==> {
                &&& best < i
                &&& best_value == acquisitions@[best as int]
                &&& above_nothing(best_value)
                &&& forall|k: int| 0 <= k < i ==> !best_value.below(#[trigger] acquisitions@[k])
                &&& forall|k: int| 0 <= k < best ==> (#[trigger] acquisitions@[k]).nan() || acquisitions@[k].below(best_value)
            },
        decreases acquisitions@.len() - i,
    {
        let ghost seen = exists|k: int| 0 <= k < i && above_nothing(#[trigger] acquisitions@[k]);
        if best_value.lt(acquisitions[i]) {
            assert(above_nothing(acquisitions@[i as int]));
            assert forall|k: int| 0 <= k < i implies (#[trigger] acquisitions@[k]).nan() || acquisitions@[k].below(acquisitions@[i as int]) by {
                if seen {
                    assert(!best_value.below(acquisitions@[k]));
                } else {
                    assert(!above_nothing(acquisitions@[k]));
                }
            }
            best = i;
            best_value = acquisitions[i];
        } else {
            assert(above_nothing(acquisitions@[i as int]) ==> seen);
        }
        i = i + 1;
    }
    best
}

/// How many of `n` trials are promising in a single-objective study.
pub open spec fn single_gamma(n: int) -> int {
    if (n + 9) / 10 < 25 {
        (n + 9) / 10
    } else {
        25
    }
}

/// How many of `n` trials are promising in a single-objective study: a tenth of them,
/// rounded up, and at most 25.
pub fn gamma_for_single_objective(n: usize) -> (r: usize)
    requires
        n <= 0xffff_ffff,
    ensures
        r == single_gamma(n as int),
        r <= n,
{
    let tenth: usize = gamma_for_multi_objective(n);
    if tenth < 25 {
        tenth
    } else {
        25
    }
}

/// How many of `n` trials are promising in a multi-objective study: a tenth of them,
/// rounded up.
pub fn gamma_for_multi_objective(n: usize) -> (r: usize)
    requires
        n <= 0xffff_ffff,
    ensures
        r == (n + 9) / 10,
        r <= n,
{
    let whole: usize = n / 10;
    if n % 10 > 0 {
        whole + 1
    } else {
        whole
    }
}

/// How a row compares in a single-objective split: feasible rows by their loss, NaN last,
/// then infeasible rows by their violation.
pub open spec fn split_key(value: Float, observed: (bool, Float), direction: Direction) -> Seq<int> {
    if !observed.0 {
        seq![1, 0, observed.1.rank()]
    } else if value.nan() {
        seq![0, 1, 0]
    } else {
        seq![0, 0, loss_of(value, direction).rank()]
    }
}

/// Rows in the order of a single-objective split, equal ones in input order.
pub open spec fn split_order(values: Seq<Float>, observed: Seq<(bool, Float)>, direction: Direction, order: Seq<usize>) -> bool {
    &&& covers(order, 0, values.len() as int)
    &&& forall|a: int, b: int| 0 <= a < b < order.len() ==> {
        let x = split_key(values[#[trigger] order[a] as int], observed[order[a] as int], direction);
        let y = split_key(values[#[trigger] order[b] as int], observed[order[b] as int], direction);
        lex_lt(x, y) || (x == y && order[a] < order[b])
    }
}

/// The `gamma` best rows of a single-objective split, and the others.
pub open spec fn is_single_split(
    values: Seq<Float>,
    observed: Seq<(bool, Float)>,
    direction: Direction,
    gamma: nat,
    good: Seq<usize>,
    poor: Seq<usize>,
) -> bool {
    if gamma == values.len() {
        good == Seq::new(gamma, |i: int| i as usize) && poor.len() == 0
    } else {
        exists|order: Seq<usize>| #[trigger] split_order(values, observed, direction, order) && good == order.take(gamma as int)
            && poor == order.skip(gamma as int)
    }
}

/// Splits rows by their first objective value, feasibility and violation into the `gamma`
/// best and the rest.
pub fn split_rows_for_single_objective(values: &Vec<Float>, feasibles_violations: &Vec<(bool, Float)>, direction: Direction, gamma: usize) -> (r: (Vec<usize>, Vec<usize>))
    requires
        gamma <= values@.len(),
        feasibles_violations@.len() == values@.len(),
        gamma < values@.len() ==> forall|i: int| 0 <= i < values@.len() && !(#[trigger] feasibles_violations@[i]).0 ==>
            !feasibles_violations@[i].1.nan(),
    ensures
        is_single_split(values@, feasibles_violations@, direction, gamma as nat, r.0@, r.1@),
{
    let n: usize = values.len();
    let mut good: Vec<usize> = Vec::new();
    let mut poor: Vec<usize> = Vec::new();
    if gamma == n {
        let mut i: usize = 0;
        while i < n
            invariant
                i <= n,
                good@.len() == i,
                forall|k: int| 0 <= k < i ==> #[trigger] good@[k] == k,
            decreases n - i,
        {
            good.push(i);
            i = i + 1;
        }
        assert(good@ =~= Seq::new(gamma as nat, |i: int| i as usize));
        return (good, poor);
    }
    let ghost fv = feasibles_violations@;
    let mut keys: Vec<Vec<i64>> = Vec::new();
    let mut i: usize = 0;
    while i < n
        invariant
            i <= n,
            n == values@.len(),
            fv == feasibles_violations@,
            fv.len() == n,
            keys@.len() == i,
            forall|q: int| 0 <= q < i ==> #[trigger] key_at(keys@, q) == split_key(values@[q], fv[q], direction),
        decreases n - i,
    {
        let ghost before = keys@;
        let mut key: Vec<i64> = Vec::new();
        let pair = feasibles_violations[i];
        if !pair.0 {
            key.push(1);
            key.push(0);
            key.push(pair.1.key());
        } else if values[i].is_nan() {
            key.push(0);
            key.push(1);
            key.push(0);
        } else {
            let loss = match direction {
                Direction::Minimize => values[i],
                Direction::Maximize => values[i].neg(),
            };
            key.push(0);
            key.push(0);
            key.push(loss.key());
        }
        keys.push(key);
        assert forall|q: int| 0 <= q < i + 1 implies #[trigger] key_at(keys@, q) == split_key(values@[q], fv[q], direction) by {
            if q < i {
                assert(key_at(before, q) == key_at(keys@, q));
            } else {
                assert(key_at(keys@, q) =~= split_key(values@[q], fv[q], direction));
            }
        }
        i = i + 1;
    }
    let order = sorted_positions(&keys);
    let mut k: usize = 0;
    while k < n
        invariant
            k <= n,
            gamma <= n,
            covers(order@, 0, n as int),
            good@ == order@.take(if k <= gamma { k as int } else { gamma as int }),
            poor@ == order@.subrange(gamma as int, if k <= gamma { gamma as int } else { k as int }),
        decreases n - k,
    {
        if k < gamma {
            good.push(order[k]);
            assert(good@ =~= order@.take(k + 1));
            assert(poor@ =~= order@.subrange(gamma as int, gamma as int));
        } else {
            poor.push(order[k]);
            assert(poor@ =~= order@.subrange(gamma as int, k + 1));
        }
        k = k + 1;
    }
    proof {
        assert(poor@ =~= order@.skip(gamma as int));
        assert forall|a: int, b: int| 0 <= a < b < order@.len() implies {
            let x = split_key(values@[#[trigger] order@[a] as int], fv[order@[a] as int], direction);
            let y = split_key(values@[#[trigger] order@[b] as int], fv[order@[b] as int], direction);
            lex_lt(x, y) || (x == y && order@[a] < order@[b])
        } by {
            assert(precedes(keys@, order@[a] as int, order@[b] as int));
            assert(key_at(keys@, order@[a] as int) == split_key(values@[order@[a] as int], fv[order@[a] as int], direction));
            assert(key_at(keys@, order@[b] as int) == split_key(values@[order@[b] as int], fv[order@[b] as int], direction));
        }
        assert(split_order(values@, fv, direction, order@));
    }
    (good, poor)
}

/// A feasible NaN row is promising only where every feasible row without NaN is.
pub proof fn law_nan_rows_are_split_last(values: Seq<Float>, observed: Seq<(bool, Float)>, direction: Direction, order: Seq<usize>, gamma: int, a: int, b: int)
    requires
        split_order(values, observed, direction, order),
        0 <= gamma <= order.len(),
        0 <= a < order.len(),
        0 <= b < order.len(),
        observed[order[a] as int].0,
        observed[order[b] as int].0,
        values[order[a] as int].nan(),
        !values[order[b] as int].nan(),
        a < gamma,
    ensures
        b < gamma,
{
    if gamma <= b {
        let x = split_key(values[order[a] as int], observed[order[a] as int], direction);
        let y = split_key(values[order[b] as int], observed[order[b] as int], direction);
        assert(lex_lt(x, y) || (x == y && order[a] < order[b]));
        assert(x[0] == y[0] && x[1] == 1 && y[1] == 0);
        if lex_lt(x, y) {
            let k = choose|k: int| #[trigger] crate::order::differs_first_at(x, y, k) && k < y.len() && (k == x.len() || x[k] < y[k]);
            assert(k == 0 || k == 1 || k == 2);
        }
    }
}

/// A split that was made before.
pub struct SplitCacheEntry {
    pub trial_numbers: Vec<u32>,
    pub gamma: usize,
    pub good: Vec<u32>,
    pub poor: Vec<u32>,
}

/// Remembers the last split.
pub struct SplitCache {
    pub entry: Option<SplitCacheEntry>,
}

fn lists_number(list: &Vec<u32>, x: u32) -> (r: bool)
    ensures
        r == list@.contains(x),
{
    let mut i: usize = 0;
    while i < list.len()
        invariant
            i <= list@.len(),
            forall|j: int| 0 <= j < i ==> #[trigger] list@[j] != x,
        decreases list@.len() - i,
    {
        if list[i] == x {
            assert(list@[i as int] == x);
            return true;
        }
        i = i + 1;
    }
    false
}

pub open spec fn numbered_in(numbers: Seq<u32>, list: Seq<u32>) -> spec_fn(int) -> bool {
    |i: int| list.contains(numbers[i])
}

fn rows_numbered(numbers: &Vec<u32>, list: &Vec<u32>) -> (r: Vec<usize>)
    ensures
        ints(r@) == picks(numbers@.len(), numbered_in(numbers@, list@)),
{
    let ghost f = numbered_in(numbers@, list@);
    let mut r: Vec<usize> = Vec::new();
    let mut i: usize = 0;
    while i < numbers.len()
        invariant
            i <= numbers@.len(),
            f == numbered_in(numbers@, list@),
            ints(r@) == picks(i as nat, f),
        decreases numbers@.len() - i,
    {
        let ghost before = r@;
        if lists_number(list, numbers[i]) {
            r.push(i);
            assert(ints(r@) =~= ints(before).push(i as int));
        }
        i = i + 1;
    }
    r
}

fn same_numbers(a: &Vec<u32>, b: &Vec<u32>) -> (r: bool)
    ensures
        r == (a@ == b@),
{
    if a.len() != b.len() {
        return false;
    }
    let mut k: usize = 0;
    while k < a.len()
        invariant
            k <= a@.len(),
            a@.len() == b@.len(),
            forall|q: int| 0 <= q < k ==> #[trigger] a@[q] == b@[q],
        decreases a@.len() - k,
    {
        if a[k] != b[k] {
            return false;
        }
        k = k + 1;
    }
    assert(a@ =~= b@);
    true
}

impl SplitCache {
    /// A split of these trials with this size is remembered.
    pub open spec fn remembers(self, trial_numbers: Seq<u32>, gamma: nat) -> bool {
        self.entry is Some && self.entry->Some_0.trial_numbers@ == trial_numbers && self.entry->Some_0.gamma == gamma
    }

    /// The rows of the remembered split, each part in row order.
    pub open spec fn recalls(self, trial_numbers: Seq<u32>, good: Seq<usize>, poor: Seq<usize>) -> bool {
        &&& ints(good) == picks(trial_numbers.len(), numbered_in(trial_numbers, self.entry->Some_0.good@))
        &&& ints(poor) == picks(trial_numbers.len(), numbered_in(trial_numbers, self.entry->Some_0.poor@))
    }

    /// The split that is remembered once it is stored.
    pub open spec fn holds(self, trial_numbers: Seq<u32>, gamma: nat, good_rows: Seq<usize>, poor_rows: Seq<usize>) -> bool {
        &&& self.remembers(trial_numbers, gamma)
        &&& self.entry->Some_0.good@ == Seq::new(good_rows.len(), |k: int| trial_numbers[good_rows[k] as int])
        &&& self.entry->Some_0.poor@ == Seq::new(poor_rows.len(), |k: int| trial_numbers[poor_rows[k] as int])
    }

    pub fn new() -> (r: SplitCache)
        ensures
            r.entry is None,
    {
        SplitCache { entry: None }
    }

    /// The rows of the remembered split, each part in row order, if it was made for these
    /// trials and this size.
    pub fn lookup(&self, trial_numbers: &Vec<u32>, gamma: usize) -> (r: Option<(Vec<usize>, Vec<usize>)>)
        ensures
            r is Some == self.remembers(trial_numbers@, gamma as nat),
            r is Some ==> self.recalls(trial_numbers@, r->Some_0.0@, r->Some_0.1@),
    {
        match &self.entry {
            None => None,
            Some(e) => if e.gamma == gamma && same_numbers(&e.trial_numbers, trial_numbers) {
                Some((rows_numbered(trial_numbers, &e.good), rows_numbered(trial_numbers, &e.poor)))
            } else {
                None
            },
        }
    }

    /// Remembers a split in place of the one before.
    pub fn store(&mut self, trial_numbers: &Vec<u32>, gamma: usize, good_rows: &Vec<usize>, poor_rows: &Vec<usize>)
        requires
            forall|k: int| 0 <= k < good_rows@.len() ==> #[trigger] good_rows@[k] < trial_numbers@.len(),
            forall|k: int| 0 <= k < poor_rows@.len() ==> #[trigger] poor_rows@[k] < trial_numbers@.len(),
        ensures
            final(self).holds(trial_numbers@, gamma as nat, good_rows@, poor_rows@),
    {
        let all = counting(trial_numbers.len());
        let copy = numbers_at(trial_numbers, &all);
        assert(copy@ =~= trial_numbers@);
        self.entry = Some(SplitCacheEntry {
            trial_numbers: copy,
            gamma,
            good: numbers_at(trial_numbers, good_rows),
            poor: numbers_at(trial_numbers, poor_rows),
        });
    }
}

/// A remembered split has the rows of the split that was stored.
pub proof fn law_split_is_recalled(
    cache: SplitCache,
    trial_numbers: Seq<u32>,
    gamma: nat,
    good: Seq<usize>,
    poor: Seq<usize>,
    recalled_good: Seq<usize>,
    recalled_poor: Seq<usize>,
    row: usize,
)
    requires
        trial_numbers.no_duplicates(),
        forall|k: int| 0 <= k < good.len() ==> #[trigger] good[k] < trial_numbers.len(),
        forall|k: int| 0 <= k < poor.len() ==> #[trigger] poor[k] < trial_numbers.len(),
        cache.holds(trial_numbers, gamma, good, poor),
        cache.recalls(trial_numbers, recalled_good, recalled_poor),
    ensures
        cache.remembers(trial_numbers, gamma),
        recalled_good.contains(row) == good.contains(row),
        recalled_poor.contains(row) == poor.contains(row),
{
    lemma_recalled(trial_numbers, good, cache.entry->Some_0.good@, recalled_good, row);
    lemma_recalled(trial_numbers, poor, cache.entry->Some_0.poor@, recalled_poor, row);
}

proof fn lemma_recalled(trial_numbers: Seq<u32>, rows: Seq<usize>, list: Seq<u32>, recalled: Seq<usize>, row: usize)
    requires
        trial_numbers.no_duplicates(),
        forall|k: int| 0 <= k < rows.len() ==> #[trigger] rows[k] < trial_numbers.len(),
        list == Seq::new(rows.len(), |k: int| trial_numbers[rows[k] as int]),
        ints(recalled) == picks(trial_numbers.len(), numbered_in(trial_numbers, list)),
    ensures
        recalled.contains(row) == rows.contains(row),
{
    let f = numbered_in(trial_numbers, list);
    let at = picks(trial_numbers.len(), f);
    lemma_picks(trial_numbers.len(), f);
    lemma_ints(recalled);
    assert(recalled.contains(row) == at.contains(row as int));
    if rows.contains(row) {
        let k = choose|k: int| 0 <= k < rows.len() && rows[k] == row;
        assert(list[k] == trial_numbers[row as int]);
        assert(f(row as int));
    }
    if at.contains(row as int) {
        let k = choose|k: int| 0 <= k < at.len() && at[k] == row as int;
        assert(f(at[k]));
        let j = choose|j: int| 0 <= j < list.len() && list[j] == trial_numbers[row as int];
        assert(trial_numbers[rows[j] as int] == trial_numbers[row as int]);
        assert(rows[j] == row);
    }
}

fn counting(n: usize) -> (r: Vec<usize>)
    ensures
        r@.len() == n,
        forall|k: int| 0 <= k < n ==> #[trigger] r@[k] == k,
{
    let mut r: Vec<usize> = Vec::new();
    let mut i: usize = 0;
    while i < n
        invariant
            i <= n,
            r@.len() == i,
            forall|k: int| 0 <= k < i ==> #[trigger] r@[k] == k,
        decreases n - i,
    {
        r.push(i);
        i = i + 1;
    }
    r
}

fn numbers_at(numbers: &Vec<u32>, rows: &Vec<usize>) -> (r: Vec<u32>)
    requires
        forall|k: int| 0 <= k < rows@.len() ==> #[trigger] rows@[k] < numbers@.len(),
    ensures
        r@ == Seq::new(rows@.len(), |k: int| numbers@[rows@[k] as int]),
{
    let mut r: Vec<u32> = Vec::new();
    let mut k: usize = 0;
    while k < rows.len()
        invariant
            k <= rows@.len(),
            forall|k: int| 0 <= k < rows@.len() ==> #[trigger] rows@[k] < numbers@.len(),
            r@.len() == k,
            forall|q: int| 0 <= q < k ==> #[trigger] r@[q] == numbers@[rows@[q] as int],
        decreases rows@.len() - k,
    {
        r.push(numbers[rows[k]]);
        k = k + 1;
    }
    assert(r@ =~= Seq::new(rows@.len(), |k: int| numbers@[rows@[k] as int]));
    r
}

/// What the estimator of one part of a split is built from.
pub struct ParzenInput {
    /// The rows of the part by trial number.
    pub order: Vec<usize>,
    /// The observed values of each parameter, in that order.
    pub columns: Vec<Vec<Float>>,
    /// Places in the order of the trials that have every parameter.
    pub active: Vec<usize>,
}

/// The values of parameter `p` in the first `n` rows of the order.
pub open spec fn column(params: Seq<Vec<Option<Float>>>, order: Seq<usize>, p: int, n: nat) -> Seq<Float>
    decreases n,
{
    if n == 0 {
        Seq::empty()
    } else {
        let head = column(params, order, p, (n - 1) as nat);
        match params[order[n - 1] as int]@[p] {
            Some(v) => head.push(v),
            None => head,
        }
    }
}

pub open spec fn has_all(row: Seq<Option<Float>>) -> bool {
    forall|p: int| 0 <= p < row.len() ==> #[trigger] row[p] is Some
}

pub open spec fn has_all_on(params: Seq<Vec<Option<Float>>>, order: Seq<usize>) -> spec_fn(int) -> bool {
    |i: int| has_all(params[order[i] as int]@)
}

/// The rows in ascending order of their trial numbers, equal ones in input order.
pub open spec fn chronological(numbers: Seq<u32>, rows: Seq<usize>, order: Seq<usize>) -> bool {
    exists|p: Seq<usize>| #[trigger] covers(p, 0, rows.len() as int) && order == Seq::new(rows.len(), |k: int| rows[p[k] as int])
        && forall|a: int, b: int| 0 <= a < b < p.len() ==> {
            let x = numbers[rows[#[trigger] p[a] as int] as int];
            let y = numbers[rows[#[trigger] p[b] as int] as int];
            x < y || (x == y && p[a] < p[b])
        }
}

/// Collects what the estimator of the given rows is built from.
pub fn parzen_input(obs: &TpeObservations, rows: &Vec<usize>, n_params: usize) -> (r: ParzenInput)
    requires
        obs.wf(),
        forall|k: int| 0 <= k < rows@.len() ==> #[trigger] rows@[k] < obs.trial_numbers@.len(),
        forall|k: int| 0 <= k < obs.params@.len() ==> (#[trigger] obs.params@[k])@.len() == n_params,
    ensures
        chronological(obs.trial_numbers@, rows@, r.order@),
        r.columns@.len() == n_params,
        forall|p: int| 0 <= p < n_params ==> (#[trigger] r.columns@[p])@ == column(obs.params@, r.order@, p, r.order@.len()),
        ints(r.active@) == picks(r.order@.len(), has_all_on(obs.params@, r.order@)),
{
    let order = by_trial_number(&obs.trial_numbers, rows);
    proof {
        let p = choose|p: Seq<usize>| #[trigger] covers(p, 0, rows@.len() as int) && order@ == Seq::new(rows@.len(), |k: int| rows@[p[k] as int])
            && forall|a: int, b: int| 0 <= a < b < p.len() ==> {
                let x = obs.trial_numbers@[rows@[#[trigger] p[a] as int] as int];
                let y = obs.trial_numbers@[rows@[#[trigger] p[b] as int] as int];
                x < y || (x == y && p[a] < p[b])
            };
        assert forall|k: int| 0 <= k < order@.len() implies #[trigger] order@[k] < obs.trial_numbers@.len() by {
            assert(p[k] < rows@.len());
            assert(rows@[p[k] as int] < obs.trial_numbers@.len());
        }
    }
    let mut columns: Vec<Vec<Float>> = Vec::new();
    let mut p: usize = 0;
    while p < n_params
        invariant
            p <= n_params,
            obs.wf(),
            forall|k: int| 0 <= k < order@.len() ==> #[trigger] order@[k] < obs.trial_numbers@.len(),
            forall|k: int| 0 <= k < obs.params@.len() ==> (#[trigger] obs.params@[k])@.len() == n_params,
            columns@.len() == p,
            forall|q: int| 0 <= q < p ==> (#[trigger] columns@[q])@ == column(obs.params@, order@, q, order@.len()),
        decreases n_params - p,
    {
        let mut col: Vec<Float> = Vec::new();
        let mut i: usize = 0;
        while i < order.len()
            invariant
                i <= order@.len(),
                p < n_params,
                obs.wf(),
                forall|k: int| 0 <= k < order@.len() ==> #[trigger] order@[k] < obs.trial_numbers@.len(),
                forall|k: int| 0 <= k < obs.params@.len() ==> (#[trigger] obs.params@[k])@.len() == n_params,
                col@ == column(obs.params@, order@, p as int, i as nat),
            decreases order@.len() - i,
        {
            match obs.params[order[i]][p] {
                Some(v) => {
                    col.push(v);
                }
                None => {}
            }
            i = i + 1;
        }
        columns.push(col);
        p = p + 1;
    }
    let ghost f = has_all_on(obs.params@, order@);
    let mut active: Vec<usize> = Vec::new();
    let mut i: usize = 0;
    while i < order.len()
        invariant
            i <= order@.len(),
            obs.wf(),
            f == has_all_on(obs.params@, order@),
            forall|k: int| 0 <= k < order@.len() ==> #[trigger] order@[k] < obs.trial_numbers@.len(),
            ints(active@) == picks(i as nat, f),
        decreases order@.len() - i,
    {
        let ghost before = active@;
        if row_has_all(&obs.params[order[i]]) {
            active.push(i);
            assert(ints(active@) =~= ints(before).push(i as int));
        }
        i = i + 1;
    }
    ParzenInput { order, columns, active }
}

fn row_has_all(row: &Vec<Option<Float>>) -> (r: bool)
    ensures
        r == has_all(row@),
{
    let mut p: usize = 0;
    while p < row.len()
        invariant
            p <= row@.len(),
            forall|q: int| 0 <= q < p ==> #[trigger] row@[q] is Some,
        decreases row@.len() - p,
    {
        if row[p].is_none() {
            assert(!(row@[p as int] is Some));
            return false;
        }
        p = p + 1;
    }
    true
}

fn by_trial_number(numbers: &Vec<u32>, rows: &Vec<usize>) -> (order: Vec<usize>)
    requires
        forall|k: int| 0 <= k < rows@.len() ==> #[trigger] rows@[k] < numbers@.len(),
    ensures
        chronological(numbers@, rows@, order@),
{
    let n: usize = rows.len();
    let mut keys: Vec<i64> = Vec::new();
    let mut i: usize = 0;
    while i < n
        invariant
            i <= n,
            n == rows@.len(),
            forall|k: int| 0 <= k < rows@.len() ==> #[trigger] rows@[k] < numbers@.len(),
            keys@.len() == i,
            forall|q: int| 0 <= q < i ==> #[trigger] keys@[q] == numbers@[rows@[q] as int] as int,
        decreases n - i,
    {
        keys.push(numbers[rows[i]] as i64);
        i = i + 1;
    }
    let p = positions_by_key(&keys);
    let mut order: Vec<usize> = Vec::new();
    let mut k: usize = 0;
    while k < n
        invariant
            k <= n,
            n == rows@.len(),
            covers(p@, 0, n as int),
            order@.len() == k,
            forall|q: int| 0 <= q < k ==> #[trigger] order@[q] == rows@[p@[q] as int],
        decreases n - k,
    {
        order.push(rows[p[k]]);
        k = k + 1;
    }
    proof {
        assert(order@ =~= Seq::new(rows@.len(), |k: int| rows@[p@[k] as int]));
        assert forall|a: int, b: int| 0 <= a < b < p@.len() implies {
            let x = numbers@[rows@[#[trigger] p@[a] as int] as int];
            let y = numbers@[rows@[#[trigger] p@[b] as int] as int];
            x < y || (x == y && p@[a] < p@[b])
        } by {}
    }
    order
}

/// How a request for parameters is answered.
pub enum TpePlan {
    /// Nothing is suggested here: every parameter is sampled on its own.
    Independent,
    /// Too few trials are usable: the value is drawn at random.
    Random,
    /// The estimators are built from these observations.
    Model(TpeObservations),
}

/// How observations are split into promising ones and the others.
pub enum TpeSplit {
    /// By the only objective. The promising rows count by age.
    Single { good: Vec<usize>, poor: Vec<usize> },
    /// By several objectives, as before for the same trials. The promising rows all count
    /// the same.
    Remembered { good: Vec<usize>, poor: Vec<usize> },
    /// By several objectives, once a selection is made. The promising rows all count the
    /// same.
    Several(ObservationSplit),
}

impl TpeSplit {
    /// Whether the promising rows count by age. The others always do.
    pub fn by_age(&self) -> (r: bool)
        ensures
            r == (self is Single),
    {
        match self {
            TpeSplit::Single { .. } => true,
            _ => false,
        }
    }
}

/// The first objective value of each observation.
pub open spec fn first_values(obs: TpeObservations) -> Seq<Float> {
    Seq::new(obs.values@.len(), |k: int| obs.values@[k]@[0])
}

/// Observations, with feasibility and total violation, that can be split by the directions.
pub open spec fn splittable(obs: TpeObservations, observed: Seq<(bool, Float)>, directions: Seq<Direction>) -> bool {
    &&& obs.wf()
    &&& obs.trial_numbers@.len() <= 0xffff_ffff
    &&& observed.len() == obs.trial_numbers@.len()
    &&& directions.len() > 0
    &&& forall|k: int| 0 <= k < obs.values@.len() ==> (#[trigger] obs.values@[k])@.len() >= directions.len()
    &&& forall|k: int| 0 <= k < observed.len() && !(#[trigger] observed[k]).0 ==> !observed[k].1.nan()
}

/// The sampler's state.
pub struct TpeSampler {
    pub multivariate: Option<bool>,
    pub n_startup_trials: usize,
    pub rng: RandomSampler,
    pub random_sampler: RandomSampler,
    pub split_cache: SplitCache,
}

impl TpeSampler {
    /// The first number of the generator that `seed` stands for has been drawn, and seeds
    /// the fallback sampler.
    pub open spec fn seeded_by(self, seed: Option<u64>) -> bool {
        &&& self.rng.rng == number_drawn(seeded(seed)).1
        &&& self.random_sampler.rng == generator_of_number(number_drawn(seeded(seed)).0)
    }

    /// Creates a sampler from an explicit configuration.
    pub fn from_config(cfg: TpeConfig) -> (r: TpeSampler)
        ensures
            r.multivariate == cfg.multivariate,
            r.n_startup_trials == cfg.n_startup_trials,
            r.split_cache.entry is None,
            r.seeded_by(cfg.seed),
    {
        let mut rng = match cfg.seed {
            Some(seed) => RandomSampler::seed_from_u64(seed),
            None => RandomSampler::new(),
        };
        let seed_for_random_sampler: u64 = rng.draw_seed();
        TpeSampler {
            multivariate: cfg.multivariate,
            n_startup_trials: cfg.n_startup_trials,
            rng,
            random_sampler: RandomSampler::seed_from_u64(seed_for_random_sampler),
            split_cache: SplitCache::new(),
        }
    }

    /// Creates a sampler with the default configuration.
    pub fn new() -> (r: TpeSampler)
        ensures
            r.multivariate is None,
            r.n_startup_trials == 10,
            r.split_cache.entry is None,
            r.seeded_by(None),
    {
        TpeSampler::from_config(TpeConfig { multivariate: None, n_startup_trials: 10, seed: None })
    }

    /// Creates a reproducibly seeded sampler.
    pub fn seed_from_u64(seed: u64) -> (r: TpeSampler)
        ensures
            r.multivariate is None,
            r.n_startup_trials == 10,
            r.split_cache.entry is None,
            r.seeded_by(Some(seed)),
    {
        TpeSampler::from_config(TpeConfig { multivariate: None, n_startup_trials: 10, seed: Some(seed) })
    }

    /// Whether joint sampling is supported: unless it is switched off.
    pub fn support_joint_sampling(&self) -> (r: bool)
        ensures
            r == (self.multivariate != Some(false)),
    {
        match self.multivariate {
            Some(multivariate) => multivariate,
            None => true,
        }
    }

    /// Enough usable trials are there to use the estimators.
    pub open spec fn started(self, trials: Seq<Option<TrialRecord>>) -> bool {
        usable_places(trials).len() >= self.n_startup_trials
    }

    /// Joint sampling is wanted: the study is single-objective, unless it is forced, and
    /// there is some parameter to sample.
    pub open spec fn samples_jointly(self, n_params: nat, n_objectives: nat) -> bool {
        let multivariate = match self.multivariate {
            Some(m) => m,
            None => n_objectives == 1,
        };
        multivariate && n_params > 0
    }

    /// Whether joint sampling is wanted. Where it is not, the trials need not be read.
    pub fn wants_joint(&self, search_space: &KeyMap<String, Distribution>, n_objectives: usize) -> (r: bool)
        ensures
            r == self.samples_jointly(search_space@.dom().len(), n_objectives as nat),
    {
        let multivariate = match self.multivariate {
            Some(m) => m,
            None => n_objectives == 1,
        };
        multivariate && search_space.len() > 0
    }

    /// Plans how observations are split. One direction asks for a split by that objective;
    /// several ask for the remembered split, if there is one of these trials and this size,
    /// and else for a split by non-domination and hypervolume.
    pub fn plan_split(&self, directions: &Vec<Direction>, obs: &TpeObservations, observed: &Vec<(bool, Float)>) -> (r: TpeSplit)
        requires
            splittable(*obs, observed@, directions@),
        ensures
            ({
                let n = obs.trial_numbers@.len();
                let gamma = ((n + 9) / 10) as nat;
                if directions@.len() == 1 {
                    &&& r matches TpeSplit::Single { good, poor }
                    &&& is_single_split(first_values(*obs), observed@, directions@[0], single_gamma(n as int) as nat, good@, poor@)
                } else if self.split_cache.remembers(obs.trial_numbers@, gamma) {
                    &&& r matches TpeSplit::Remembered { good, poor }
                    &&& self.split_cache.recalls(obs.trial_numbers@, good@, poor@)
                } else {
                    &&& r matches TpeSplit::Several(plan)
                    &&& plan.planned(obs.values@, observed@, directions@, gamma)
                }
            }),
    {
        let n: usize = obs.len();
        if directions.len() == 1 {
            let mut values: Vec<Float> = Vec::new();
            let mut k: usize = 0;
            while k < n
                invariant
                    k <= n,
                    n == obs.values@.len(),
                    forall|k: int| 0 <= k < obs.values@.len() ==> (#[trigger] obs.values@[k])@.len() >= 1,
                    values@.len() == k,
                    forall|q: int| 0 <= q < k ==> #[trigger] values@[q] == obs.values@[q]@[0],
                decreases n - k,
            {
                values.push(obs.values[k][0]);
                k = k + 1;
            }
            assert(values@ =~= first_values(*obs));
            let (good, poor) = split_rows_for_single_objective(&values, observed, directions[0], gamma_for_single_objective(n));
            return TpeSplit::Single { good, poor };
        }
        let gamma: usize = gamma_for_multi_objective(n);
        match self.split_cache.lookup(&obs.trial_numbers, gamma) {
            Some((good, poor)) => TpeSplit::Remembered { good, poor },
            None => TpeSplit::Several(split_observation_indices_for_multi_objective(&obs.values, observed, directions, gamma)),
        }
    }

    /// Completes a split by several objectives with the selection that it awaits, and
    /// remembers it in place of the one before.
    pub fn complete_split(
        &mut self,
        directions: &Vec<Direction>,
        obs: &TpeObservations,
        observed: &Vec<(bool, Float)>,
        plan: &ObservationSplit,
        selected: &Vec<usize>,
    ) -> (r: (Vec<usize>, Vec<usize>))
        requires
            splittable(*obs, observed@, directions@),
            plan.planned(obs.values@, observed@, directions@, ((obs.trial_numbers@.len() + 9) / 10) as nat),
            is_selection(plan.feasible.candidates@, plan.feasible.take as nat, selected@),
        ensures
            r.0@ == gathered(plan.feasible.feasible_indices@, plan.feasible.promising(selected@)) + plan.infeasible_good@,
            r.1@ == left_out(plan.feasible.feasible_indices@, plan.feasible.promising(selected@)) + plan.infeasible_poor@,
            *final(self) == (TpeSampler { split_cache: final(self).split_cache, ..*old(self) }),
            final(self).split_cache.holds(obs.trial_numbers@, ((obs.trial_numbers@.len() + 9) / 10) as nat, r.0@, r.1@),
    {
        let gamma: usize = gamma_for_multi_objective(obs.len());
        proof {
            lemma_split_rows(*plan, obs.values@, observed@, directions@, gamma as nat, selected@);
        }
        let (good, poor) = plan.complete(selected);
        self.split_cache.store(&obs.trial_numbers, gamma, &good, &poor);
        (good, poor)
    }

    /// Plans joint sampling. It needs the study to be single-objective, unless it is
    /// forced, some parameter to sample, and enough usable trials.
    pub fn plan_joint(&self, trials: &Vec<Option<PersistedTrial>>, search_space: &KeyMap<String, Distribution>, n_objectives: usize) -> (r: Result<TpePlan>)
        ensures
            ({
                let joint = self.samples_jointly(search_space@.dom().len(), n_objectives as nat) && self.started(trial_records(trials@));
                &&& !joint ==> r is Ok && r->Ok_0 is Independent
                &&& joint ==> planned_model(r, trials@, *search_space, n_objectives)
            }),
    {
        if !self.wants_joint(search_space, n_objectives) {
            return Ok(TpePlan::Independent);
        }
        if count_usable_complete_trials(trials) < self.n_startup_trials {
            return Ok(TpePlan::Independent);
        }
        let names = sorted_names(search_space);
        assert(ascending(names@));
        match snapshot_usable_complete_trials(trials, &names, n_objectives) {
            Err(e) => Err(e),
            Ok(obs) => Ok(TpePlan::Model(obs)),
        }
    }

    /// Plans the sampling of one parameter that has more than one possible value.
    pub fn plan_independent(&self, trials: &Vec<Option<PersistedTrial>>, name: &str, n_objectives: usize) -> (r: Result<TpePlan>)
        ensures
            !self.started(trial_records(trials@)) ==> r is Ok && r->Ok_0 is Random,
            self.started(trial_records(trials@)) ==> {
                let records = trial_records(trials@);
                let places = usable_places(records);
                if forall|k: int| 0 <= k < places.len() ==> records[#[trigger] places[k]]->Some_0.outcome->Complete_0.len() == n_objectives {
                    &&& r is Ok && r->Ok_0 is Model
                    &&& r->Ok_0->Model_0.wf()
                    &&& r->Ok_0->Model_0.trial_numbers@.len() == places.len()
                    &&& forall|k: int| 0 <= k < places.len() ==> trials@[#[trigger] places[k]] is Some
                        && r->Ok_0->Model_0.params@[k]@ == seq![param_of(trials@[places[k]]->Some_0@, name@)]
                    &&& exists|names: Seq<String>| #[trigger] names.len() == 1 && names[0]@ == name@
                        && forall|k: int| 0 <= k < places.len() ==> observed(
                        r->Ok_0->Model_0,
                        k,
                        trials@[#[trigger] places[k]]->Some_0,
                        names,
                    )
                } else {
                    misfit(r, records, n_objectives)
                }
            },
    {
        if count_usable_complete_trials(trials) < self.n_startup_trials {
            return Ok(TpePlan::Random);
        }
        let mut names: Vec<String> = Vec::new();
        names.push(name.to_owned());
        match snapshot_usable_complete_trials(trials, &names, n_objectives) {
            Err(e) => Err(e),
            Ok(obs) => {
                proof {
                    let places = usable_places(trial_records(trials@));
                    assert forall|k: int| 0 <= k < places.len() implies trials@[#[trigger] places[k]] is Some
                        && obs.trial_numbers@[k] == trials@[places[k]]->Some_0.number
                        && obs.params@[k]@ == seq![param_of(trials@[places[k]]->Some_0@, name@)] by {
                        let t = trials@[places[k]]->Some_0;
                        assert(observed(obs, k, t, names@));
                        assert(obs.params@[k]@[0] == param_of(t@, names@[0]@));
                        assert(obs.params@[k]@ =~= seq![param_of(t@, name@)]);
                    }
                }
                Ok(TpePlan::Model(obs))
            }
        }
    }
}

/// The plan for a joint model: all usable trials observed, with the parameters of the
/// search space in ascending order of their names.
pub open spec fn planned_model(r: Result<TpePlan>, trials: Seq<Option<PersistedTrial>>, search_space: KeyMap<String, Distribution>, n_objectives: usize) -> bool {
    let records = trial_records(trials);
    let places = usable_places(records);
    if forall|k: int| 0 <= k < places.len() ==> records[#[trigger] places[k]]->Some_0.outcome->Complete_0.len() == n_objectives {
        &&& r is Ok && r->Ok_0 is Model
        &&& r->Ok_0->Model_0.wf()
        &&& r->Ok_0->Model_0.trial_numbers@.len() == places.len()
        &&& exists|names: Seq<String>| {
            &&& #[trigger] ascending(names)
            &&& names.len() == search_space.keys().len()
            &&& forall|i: int| 0 <= i < names.len() ==> search_space@.contains_key((#[trigger] names[i])@)
            &&& forall|k: int| 0 <= k < places.len() ==> trials[#[trigger] places[k]] is Some && observed(
                r->Ok_0->Model_0,
                k,
                trials[places[k]]->Some_0,
                names,
            )
        }
    } else {
        misfit(r, records, n_objectives)
    }
}

pub open spec fn ascending(names: Seq<String>) -> bool {
    forall|a: int, b: int| 0 <= a < b < names.len() ==> lex_lt(codes((#[trigger] names[a])@), codes((#[trigger] names[b])@))
}

/// Every row is promising or poor and not both, and exactly `gamma` are promising.
pub proof fn law_single_split_is_a_partition(
    values: Seq<Float>,
    observed: Seq<(bool, Float)>,
    direction: Direction,
    gamma: nat,
    good: Seq<usize>,
    poor: Seq<usize>,
    x: usize,
)
    requires
        is_single_split(values, observed, direction, gamma, good, poor),
        gamma <= values.len() <= usize::MAX,
    ensures
        good.len() == gamma,
        poor.len() == values.len() - gamma,
        good.no_duplicates(),
        poor.no_duplicates(),
        good.contains(x) || poor.contains(x) <==> x < values.len(),
        !(good.contains(x) && poor.contains(x)),
{
    let n = values.len() as int;
    if gamma == n {
        if x < n {
            assert(good[x as int] == x);
        }
        assert forall|k: int| 0 <= k < good.len() implies #[trigger] good[k] == k by {}
    } else {
        let order = choose|order: Seq<usize>| #[trigger]
            split_order(values, observed, direction, order) && good == order.take(gamma as int) && poor == order.skip(gamma as int);
        if x < n {
            assert(order.contains(x));
            let k = choose|k: int| 0 <= k < order.len() && order[k] == x;
            if k < gamma {
                assert(good[k] == x);
            } else {
                assert(poor[k - gamma] == x);
            }
        }
        if good.contains(x) {
            let k = choose|k: int| 0 <= k < good.len() && good[k] == x;
            assert(order[k] == x);
        }
        if poor.contains(x) {
            let k = choose|k: int| 0 <= k < poor.len() && poor[k] == x;
            assert(order[k + gamma] == x);
        }
        assert forall|a: int, b: int| 0 <= a < b < good.len() implies good[a] != good[b] by {
            assert(order[a] != order[b]);
        }
        assert forall|a: int, b: int| 0 <= a < b < poor.len() implies poor[a] != poor[b] by {
            assert(order[a + gamma] != order[b + gamma]);
        }
    }
}

/// A row is promising only where every better row is: a feasible row is better than an
/// infeasible one; of two infeasible rows, the one with the smaller violation is better; of two
/// feasible rows, one with a value is better than one with a NaN, and of two values the one
/// that the direction asks for.
pub proof fn law_single_split_prefers_better_rows(
    values: Seq<Float>,
    observed: Seq<(bool, Float)>,
    direction: Direction,
    gamma: nat,
    good: Seq<usize>,
    poor: Seq<usize>,
    x: usize,
    y: usize,
)
    requires
        is_single_split(values, observed, direction, gamma, good, poor),
        observed.len() == values.len(),
        gamma <= values.len() <= usize::MAX,
        good.contains(x),
        y < values.len(),
    ensures
        !observed[x as int].0 && observed[y as int].0 ==> good.contains(y),
        !observed[x as int].0 && !observed[y as int].0 && observed[y as int].1.below(observed[x as int].1) ==> good.contains(y),
        observed[x as int].0 && observed[y as int].0 && values[x as int].nan() && !values[y as int].nan() ==> good.contains(y),
        observed[x as int].0 && observed[y as int].0 && direction is Minimize && values[y as int].below(values[x as int]) ==> good.contains(y),
        observed[x as int].0 && observed[y as int].0 && direction is Maximize && values[x as int].below(values[y as int]) ==> good.contains(y),
{
    law_single_split_is_a_partition(values, observed, direction, gamma, good, poor, x);
    law_single_split_is_a_partition(values, observed, direction, gamma, good, poor, y);
    if !good.contains(y) {
        let order = choose|order: Seq<usize>| #[trigger]
            split_order(values, observed, direction, order) && good == order.take(gamma as int) && poor == order.skip(gamma as int);
        let i = choose|i: int| 0 <= i < good.len() && good[i] == x;
        let j = choose|j: int| 0 <= j < poor.len() && poor[j] == y;
        assert(order[i] == x && order[j + gamma] == y);
        let a = split_key(values[x as int], observed[x as int], direction);
        let b = split_key(values[y as int], observed[y as int], direction);
        assert(lex_lt(a, b) || a == b);
        if lex_lt(a, b) {
            lemma_lex_of_three(a, b);
        } else {
            assert(a[0] == b[0] && a[1] == b[1] && a[2] == b[2]);
        }
    }
}

/// The promising trials of a single-objective study are the least number that is a tenth of all
/// or more, but never more than 25.
pub proof fn law_tenth_is_promising(n: int, fewer: int)
    requires
        0 <= n,
        0 <= fewer < single_gamma(n),
    ensures
        single_gamma(n) <= 25,
        single_gamma(n) <= n,
        10 * single_gamma(n) >= n || single_gamma(n) == 25,
        10 * fewer < n,
{
}

/// The usable places are those of the complete trials without a NaN, each once and in order.
pub proof fn law_usable_places_hold_the_usable_trials(trials: Seq<Option<TrialRecord>>, i: int, a: int, b: int)
    requires
        0 <= i < trials.len(),
        0 <= a < b < usable_places(trials).len(),
    ensures
        usable_places(trials).contains(i) <==> trials[i] is Some && trials[i]->Some_0.outcome is Complete && forall|k: int|
            0 <= k < trials[i]->Some_0.outcome->Complete_0.len() ==> !(#[trigger] trials[i]->Some_0.outcome->Complete_0[k]).nan(),
        0 <= usable_places(trials)[a] < usable_places(trials)[b] < trials.len(),
{
    lemma_picks(trials.len(), usable_on(trials));
    lemma_picks_ascend(trials.len(), usable_on(trials));
    if usable_places(trials).contains(i) {
        let k = choose|k: int| 0 <= k < usable_places(trials).len() && usable_places(trials)[k] == i;
        assert(usable_on(trials)(usable_places(trials)[k]));
    }
    if usable(trials[i]) {
        assert(usable_on(trials)(i));
    }
}

/// A trial is feasible where no constraint value is above zero or NaN.
pub proof fn law_feasible_means_no_violation(constraints: Map<Seq<char>, Float>)
    ensures
        feasible(constraints) <==> forall|name: Seq<char>| #[trigger] constraints.contains_key(name) ==> !constraints[name].nan()
            && !(Float { bits: 0 }).below(constraints[name]),
{
    if forall|name: Seq<char>| #[trigger] constraints.contains_key(name) ==> !constraints[name].nan() && !(Float { bits: 0 }).below(
        constraints[name],
    ) {
        assert(feasible(constraints));
    }
}

/// The violations of a trial are its constraint values above zero, one for each, in order.
pub proof fn law_violations_are_the_positive_values(constraints: Map<Seq<char>, Float>, keys: Seq<Seq<char>>, n: nat, above: spec_fn(int) -> bool)
    requires
        n <= keys.len(),
        forall|j: int| 0 <= j < n ==> #[trigger] above(j) == (Float { bits: 0 }).below(constraints[keys[j]]),
    ensures
        positive_values(constraints, keys, n) == Seq::new(picks(n, above).len(), |k: int| constraints[keys[picks(n, above)[k]]]),
    decreases n,
{
    let all = Seq::new(picks(n, above).len(), |k: int| constraints[keys[picks(n, above)[k]]]);
    if n > 0 {
        law_violations_are_the_positive_values(constraints, keys, (n - 1) as nat, above);
        let rest = picks((n - 1) as nat, above);
        assert(above(n - 1) == (Float { bits: 0 }).below(constraints[keys[n - 1]]));
        if above(n - 1) {
            assert(picks(n, above) == rest.push(n - 1));
        }
        assert(positive_values(constraints, keys, n) =~= all);
    } else {
        assert(positive_values(constraints, keys, n) =~= all);
    }
}

/// A column of the estimator's input holds the values of the trials that have the parameter, in
/// order.
pub proof fn law_column_holds_the_known_values(params: Seq<Vec<Option<Float>>>, order: Seq<usize>, p: int, n: nat, known: spec_fn(int) -> bool)
    requires
        n <= order.len(),
        forall|i: int| 0 <= i < n ==> #[trigger] known(i) == (params[order[i] as int]@[p] is Some),
    ensures
        column(params, order, p, n) == Seq::new(picks(n, known).len(), |k: int| params[order[picks(n, known)[k]] as int]@[p]->Some_0),
    decreases n,
{
    let all = Seq::new(picks(n, known).len(), |k: int| params[order[picks(n, known)[k]] as int]@[p]->Some_0);
    if n > 0 {
        law_column_holds_the_known_values(params, order, p, (n - 1) as nat, known);
        let rest = picks((n - 1) as nat, known);
        assert(known(n - 1) == (params[order[n - 1] as int]@[p] is Some));
        if known(n - 1) {
            assert(picks(n, known) == rest.push(n - 1));
        }
        assert(column(params, order, p, n) =~= all);
    } else {
        assert(column(params, order, p, n) =~= all);
    }
}

/// Rows in chronological order are the same rows, by ascending trial number.
pub proof fn law_chronological_rows_ascend(numbers: Seq<u32>, rows: Seq<usize>, order: Seq<usize>, a: int, b: int, x: usize)
    requires
        chronological(numbers, rows, order),
        rows.len() <= usize::MAX,
        0 <= a < b < order.len(),
    ensures
        order.len() == rows.len(),
        order.contains(x) == rows.contains(x),
        numbers[order[a] as int] <= numbers[order[b] as int],
{
    let p = choose|p: Seq<usize>| #[trigger] covers(p, 0, rows.len() as int) && order == Seq::new(rows.len(), |k: int| rows[p[k] as int])
        && forall|a: int, b: int| 0 <= a < b < p.len() ==> {
            let x = numbers[rows[#[trigger] p[a] as int] as int];
            let y = numbers[rows[#[trigger] p[b] as int] as int];
            x < y || (x == y && p[a] < p[b])
        };
    assert(numbers[rows[p[a] as int] as int] <= numbers[rows[p[b] as int] as int]);
    if order.contains(x) {
        let k = choose|k: int| 0 <= k < order.len() && order[k] == x;
        assert(rows[p[k] as int] == x);
    }
    if rows.contains(x) {
        let i = choose|i: int| 0 <= i < rows.len() && rows[i] == x;
        assert(p.contains(i as usize));
        let k = choose|k: int| 0 <= k < p.len() && p[k] == i as usize;
        assert(order[k] == x);
    }
}

/// Names ascend character by character: at the first difference the earlier name has the
/// smaller character, or ends.
pub proof fn law_names_ascend_by_characters(names: Seq<String>, a: int, b: int) -> (k: int)
    requires
        ascending(names),
        0 <= a < b < names.len(),
    ensures
        0 <= k <= names[a]@.len(),
        k < names[b]@.len(),
        forall|j: int| 0 <= j < k ==> names[a]@[j] == names[b]@[j],
        k == names[a]@.len() || (names[a]@[k] as int) < (names[b]@[k] as int),
{
    let u = codes(names[a]@);
    let v = codes(names[b]@);
    assert(lex_lt(u, v));
    let k = choose|k: int| #[trigger] crate::order::differs_first_at(u, v, k) && k < v.len() && (k == u.len() || u[k] < v[k]);
    assert(u.len() == names[a]@.len() && v.len() == names[b]@.len());
    assert forall|j: int| 0 <= j < k implies names[a]@[j] == names[b]@[j] by {
        assert(u[j] == v[j]);
        assert(u[j] == names[a]@[j] as int && v[j] == names[b]@[j] as int);
    }
    k
}

/// Where joint sampling is switched on or off, the number of objectives does not matter; where
/// it is left open, one objective is sampled jointly and several are not. Nothing is sampled
/// jointly without a parameter.
pub proof fn law_joint_sampling_goes_by_the_setting(on: TpeSampler, off: TpeSampler, open: TpeSampler, n_params: nat, n: nat)
    requires
        on.multivariate == Some(true),
        off.multivariate == Some(false),
        open.multivariate is None,
        n_params > 0,
        n > 1,
    ensures
        on.samples_jointly(n_params, n) && on.samples_jointly(n_params, 1),
        !off.samples_jointly(n_params, n) && !off.samples_jointly(n_params, 1),
        open.samples_jointly(n_params, 1) && !open.samples_jointly(n_params, n),
        !on.samples_jointly(0, n) && !on.samples_jointly(0, 1) && !open.samples_jointly(0, 1),
{
}

/// The estimators are used from the number of usable trials on that the sampler was given.
pub proof fn law_estimators_wait_for_enough_trials(sampler: TpeSampler, trials: Seq<Option<TrialRecord>>, counts: spec_fn(int) -> bool)
    requires
        forall|i: int|
            0 <= i < trials.len() ==> #[trigger] counts(i) == (trials[i] is Some && trials[i]->Some_0.outcome is Complete && forall|k: int|
                0 <= k < trials[i]->Some_0.outcome->Complete_0.len() ==> !(#[trigger] trials[i]->Some_0.outcome->Complete_0[k]).nan()),
    ensures
        sampler.started(trials) <==> picks(trials.len(), counts).len() >= sampler.n_startup_trials,
{
    lemma_usable_counts(trials, trials.len(), counts);
}

proof fn lemma_usable_counts(trials: Seq<Option<TrialRecord>>, n: nat, counts: spec_fn(int) -> bool)
    requires
        n <= trials.len(),
        forall|i: int|
            0 <= i < trials.len() ==> #[trigger] counts(i) == (trials[i] is Some && trials[i]->Some_0.outcome is Complete && forall|k: int|
                0 <= k < trials[i]->Some_0.outcome->Complete_0.len() ==> !(#[trigger] trials[i]->Some_0.outcome->Complete_0[k]).nan()),
    ensures
        picks(n, usable_on(trials)) == picks(n, counts),
    decreases n,
{
    if n > 0 {
        lemma_usable_counts(trials, (n - 1) as nat, counts);
        assert(counts(n - 1) == usable_on(trials)(n - 1));
    }
}

/// A row has all parameters where none is missing.
pub proof fn law_complete_rows_miss_nothing(row: Seq<Option<Float>>, p: int)
    requires
        0 <= p < row.len(),
    ensures
        row[p] is None ==> !has_all(row),
        (forall|q: int| 0 <= q < row.len() ==> #[trigger] row[q] is Some) ==> has_all(row),
{
}

/// An observation holds the number, the values and the parameters of its trial, whether it is
/// feasible, and the violations among its constraint values.
pub proof fn law_observations_describe_their_trials(obs: TpeObservations, k: int, trial: PersistedTrial, names: Seq<String>, p: int, v: Float)
    requires
        observed(obs, k, trial, names),
        0 <= p < names.len(),
    ensures
        obs.trial_numbers@[k] == trial.number,
        obs.values@[k]@ == trial@.outcome->Complete_0,
        trial@.params.contains_key(names[p]@) ==> obs.params@[k]@[p] == Some(trial@.params[names[p]@]),
        !trial@.params.contains_key(names[p]@) ==> obs.params@[k]@[p] is None,
        obs.feasible@[k] ==> forall|name: Seq<char>| #[trigger] trial@.constraints.contains_key(name) ==> !(Float { bits: 0 }).below(
            trial@.constraints[name],
        ),
        obs.violations@[k]@.contains(v) ==> (Float { bits: 0 }).below(v),
{
    lemma_positive_values(trial@.constraints, trial.constraints.keys(), trial.constraints.keys().len(), v);
    assert(obs.params@[k]@[p] == param_of(trial@, names[p]@));
}

proof fn lemma_positive_values(constraints: Map<Seq<char>, Float>, keys: Seq<Seq<char>>, n: nat, v: Float)
    ensures
        positive_values(constraints, keys, n).contains(v) ==> (Float { bits: 0 }).below(v),
    decreases n,
{
    let all = positive_values(constraints, keys, n);
    if n > 0 && all.contains(v) {
        let head = positive_values(constraints, keys, (n - 1) as nat);
        lemma_positive_values(constraints, keys, (n - 1) as nat, v);
        let k = choose|k: int| 0 <= k < all.len() && all[k] == v;
        if k < head.len() {
            assert(head[k] == v);
        }
    }
}

/// A split that is stored is remembered for its trials and its size, and for no other trials or
/// sizes.
pub proof fn law_splits_are_remembered_for_their_size(
    cache: SplitCache,
    trial_numbers: Seq<u32>,
    gamma: nat,
    good_rows: Seq<usize>,
    poor_rows: Seq<usize>,
    others: Seq<u32>,
    other: nat,
)
    requires
        cache.holds(trial_numbers, gamma, good_rows, poor_rows),
    ensures
        cache.remembers(trial_numbers, gamma),
        other != gamma ==> !cache.remembers(trial_numbers, other),
        others != trial_numbers ==> !cache.remembers(others, gamma),
{
}

} // verus!
