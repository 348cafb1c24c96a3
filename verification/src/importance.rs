//! Parameter importances: what the densities are computed from.

use vstd::prelude::*;

use crate::distribution::{Distribution, Space};
use crate::error::{fails, fails_because, Error, ErrorKind, Result};
use crate::float::Float;
use crate::key_map::{KeyMap, Same};
use crate::multi_objective::split::{copy_row, ints, law_losses_go_by_direction, lemma_picks, loss_of, picks, split_feasible_observation_indices, values_of, FeasibleSplit};
use crate::order::{covers, positions_by_key};
use crate::study::Direction;
use crate::study_cache::{completed, slot_view, trial_records};
use crate::text::joined;
use crate::tpe::sorted_names;
use crate::trial::{whole, PersistedTrial, TrialRecord, TrialStateValues};

verus! {

/// The quantiles that a PED-ANOVA evaluation compares.
#[derive(Clone, Copy, Debug)]
pub struct PedAnovaImportanceEvaluator {
    pub target_quantile: Float,
    pub region_quantile: Float,
    pub evaluate_on_local: bool,
    pub n_steps: usize,
    pub min_n_trials_in_regime: usize,
}

pub open spec fn one() -> Float {
    Float { bits: 0x3ff0_0000_0000_0000 }
}

impl PedAnovaImportanceEvaluator {
    /// Creates an evaluator. The target quantile lies above 0 and below the region quantile,
    /// which is at most 1.
    pub fn new(target_quantile: Float, region_quantile: Float, evaluate_on_local: bool) -> (r: Result<Self>)
        ensures
            if (Float { bits: 0 }).below(target_quantile) && target_quantile.below(region_quantile) && region_quantile.rank()
                <= one().rank() {
                r == Ok::<Self, Error>(
                    PedAnovaImportanceEvaluator {
                        target_quantile,
                        region_quantile,
                        evaluate_on_local,
                        n_steps: 50,
                        min_n_trials_in_regime: 2,
                    },
                )
            } else {
                fails_because(
                    r,
                    ErrorKind::ImportanceEvaluatorError,
                    "condition 0.0 < `target_quantile` < `region_quantile` <= 1.0 must be satisfied"@,
                )
            },
    {
        let zero = Float { bits: 0 };
        let top = Float { bits: 0x3ff0_0000_0000_0000 };
        if zero.lt(target_quantile) && target_quantile.lt(region_quantile) && region_quantile.key() <= top.key() {
            Ok(PedAnovaImportanceEvaluator {
                target_quantile,
                region_quantile,
                evaluate_on_local,
                n_steps: 50,
                min_n_trials_in_regime: 2,
            })
        } else {
            let reason = "condition 0.0 < `target_quantile` < `region_quantile` <= 1.0 must be satisfied".to_owned();
            Err(Error::with_reason(ErrorKind::ImportanceEvaluatorError, reason))
        }
    }
}

/// A complete trial whose target value is finite. The target is the first objective value,
/// unless others are given.
pub open spec fn evaluated(trials: Seq<Option<TrialRecord>>, targets: Option<Seq<Float>>, i: int) -> bool {
    completed(trials[i]) && (match targets {
        Some(t) => t[i],
        None => trials[i]->Some_0.outcome->Complete_0[0],
    }).magnitude() < 0x7ff0_0000_0000_0000
}

pub open spec fn evaluated_on(trials: Seq<Option<TrialRecord>>, targets: Option<Seq<Float>>) -> spec_fn(int) -> bool {
    |i: int| evaluated(trials, targets, i)
}

pub open spec fn targets_view(targets: Option<&Vec<Float>>) -> Option<Seq<Float>> {
    match targets {
        Some(t) => Some(t@),
        None => None,
    }
}

/// The numbers of the trials that are evaluated, in order. A target value is given for
/// every trial, or none is.
pub fn get_filtered_trials(trials: &Vec<Option<PersistedTrial>>, targets: Option<&Vec<Float>>) -> (r: Vec<usize>)
    requires
        targets is Some ==> targets->Some_0@.len() == trials@.len(),
        targets is None ==> forall|i: int| 0 <= i < trials@.len() && completed(#[trigger] trial_records(trials@)[i]) ==> trial_records(
            trials@,
        )[i]->Some_0.outcome->Complete_0.len() > 0,
    ensures
        ints(r@) == picks(trials@.len(), evaluated_on(trial_records(trials@), targets_view(targets))),
{
    let ghost records = trial_records(trials@);
    let ghost f = evaluated_on(records, targets_view(targets));
    let mut r: Vec<usize> = Vec::new();
    let mut i: usize = 0;
    while i < trials.len()
        invariant
            i <= trials@.len(),
            records == trial_records(trials@),
            f == evaluated_on(records, targets_view(targets)),
            targets is Some ==> targets->Some_0@.len() == trials@.len(),
            targets is None ==> forall|i: int| 0 <= i < trials@.len() && completed(#[trigger] records[i]) ==>
                records[i]->Some_0.outcome->Complete_0.len() > 0,
            ints(r@) == picks(i as nat, f),
        decreases trials@.len() - i,
    {
        assert(records[i as int] == slot_view(trials@[i as int]));
        let ghost before = r@;
        let keep = match &trials[i] {
            Some(trial) => match &trial.state_values {
                TrialStateValues::Complete(values) => {
                    assert(completed(records[i as int]));
                    match targets {
                        Some(t) => t[i].is_finite(),
                        None => values[0].is_finite(),
                    }
                }
                _ => false,
            },
            None => false,
        };
        if keep {
            r.push(i);
            assert(ints(r@) =~= ints(before).push(i as int));
        }
        i = i + 1;
    }
    r
}

/// Some trial has a distribution under the name.
pub open spec fn known_param(trials: Seq<PersistedTrial>, name: Seq<char>) -> bool {
    exists|i: int| 0 <= i < trials.len() && (#[trigger] trials[i])@.distributions.contains_key(name)
}

pub open spec fn all_known(trials: Seq<PersistedTrial>, names: Seq<String>) -> bool {
    forall|i: int| 0 <= i < names.len() ==> known_param(trials, (#[trigger] names[i])@)
}

/// All parameters of the trials, by name.
fn all_params(trials: &Vec<PersistedTrial>) -> (r: KeyMap<String, Distribution>)
    ensures
        forall|name: Seq<char>| #[trigger] r@.contains_key(name) == known_param(trials@, name),
{
    let mut r: KeyMap<String, Distribution> = KeyMap::new();
    let mut i: usize = 0;
    while i < trials.len()
        invariant
            i <= trials@.len(),
            forall|name: Seq<char>| #[trigger] r@.contains_key(name) == exists|j: int| 0 <= j < i
                && (#[trigger] trials@[j])@.distributions.contains_key(name),
        decreases trials@.len() - i,
    {
        let ghost before = r@;
        r.extend(&trials[i].distributions);
        assert forall|name: Seq<char>| #[trigger] r@.contains_key(name) == exists|j: int| 0 <= j < i + 1
            && (#[trigger] trials@[j])@.distributions.contains_key(name) by {
            if before.contains_key(name) {
                let j = choose|j: int| 0 <= j < i && (#[trigger] trials@[j])@.distributions.contains_key(name);
                assert(trials@[j]@.distributions.contains_key(name));
            }
            if trials@[i as int].distributions@.contains_key(name) {
                assert(trials@[i as int]@.distributions.contains_key(name));
            }
        }
        i = i + 1;
    }
    r
}

/// All parameters of the trials, in ascending order.
pub open spec fn lists_params(trials: Seq<PersistedTrial>, names: Seq<String>) -> bool {
    &&& crate::tpe::ascending(names)
    &&& all_known(trials, names)
    &&& forall|name: Seq<char>| #[trigger] known_param(trials, name) ==> exists|i: int| 0 <= i < names.len() && (#[trigger] names[i])@ == name
}

fn contains_all(known: &KeyMap<String, Distribution>, names: &Vec<String>) -> (r: bool)
    ensures
        r == forall|i: int| 0 <= i < names@.len() ==> known@.contains_key((#[trigger] names@[i])@),
{
    let mut i: usize = 0;
    while i < names.len()
        invariant
            i <= names@.len(),
            forall|j: int| 0 <= j < i ==> known@.contains_key((#[trigger] names@[j])@),
        decreases names@.len() - i,
    {
        if !known.contains_key(&names[i]) {
            assert(!known@.contains_key(names@[i as int]@));
            return false;
        }
        i = i + 1;
    }
    true
}

/// The names that no trial has a parameter of.
pub open spec fn unknown(trials: Seq<PersistedTrial>) -> spec_fn(Seq<char>) -> bool {
    |name: Seq<char>| !known_param(trials, name)
}

spec fn unknown_in(known: Map<Seq<char>, Space>) -> spec_fn(Seq<char>) -> bool {
    |name: Seq<char>| !known.contains_key(name)
}

/// The names among the first `n` that `left_out` holds of, each in quotes, with commas
/// between them.
pub open spec fn quoted_list(names: Seq<String>, n: nat, left_out: spec_fn(Seq<char>) -> bool) -> Seq<char>
    decreases n,
{
    if n == 0 {
        Seq::empty()
    } else {
        let rest = quoted_list(names, (n - 1) as nat, left_out);
        let name = names[n - 1]@;
        if !left_out(name) {
            rest
        } else if rest.len() == 0 {
            "\""@ + name + "\""@
        } else {
            rest + ", \""@ + name + "\""@
        }
    }
}

/// Why parameters that were asked for cannot be evaluated.
pub open spec fn missing_reason(trials: Seq<PersistedTrial>, names: Seq<String>) -> Seq<char> {
    "Study must contain at least one completed trial for each specified parameter. Missing parameters: ["@ + quoted_list(
        names,
        names.len(),
        unknown(trials),
    ) + "]."@
}

fn missing_list(known: &KeyMap<String, Distribution>, names: &Vec<String>) -> (r: String)
    ensures
        r@ == quoted_list(names@, names@.len(), unknown_in(known@)),
{
    let mut r = String::new();
    let mut i: usize = 0;
    assert(r@ =~= Seq::empty());
    while i < names.len()
        invariant
            i <= names@.len(),
            r@ == quoted_list(names@, i as nat, unknown_in(known@)),
        decreases names@.len() - i,
    {
        if !known.contains_key(&names[i]) {
            let head = if r.as_str().unicode_len() == 0 {
                "\"".to_owned()
            } else {
                joined(r.as_str(), ", \"")
            };
            let named = joined(head.as_str(), names[i].as_str());
            r = joined(named.as_str(), "\"");
        }
        i = i + 1;
    }
    r
}

/// The parameters to evaluate: those asked for, which must all be known, or else all of
/// them in ascending order.
pub fn resolve_params(trials: &Vec<PersistedTrial>, params: Option<Vec<String>>) -> (r: Result<Vec<String>>)
    ensures
        params is Some ==> if all_known(trials@, params->Some_0@) {
            r is Ok && r->Ok_0@ == params->Some_0@
        } else {
            fails_because(r, ErrorKind::ImportanceEvaluatorError, missing_reason(trials@, params->Some_0@))
        },
        params is None ==> r is Ok && lists_params(trials@, r->Ok_0@),
{
    let known = all_params(trials);
    match params {
        Some(p) => {
            if contains_all(&known, &p) {
                assert forall|i: int| 0 <= i < p@.len() implies known_param(trials@, (#[trigger] p@[i])@) by {
                    assert(known@.contains_key(p@[i]@));
                }
                assert(all_known(trials@, p@));
                Ok(p)
            } else {
                let ghost i = choose|i: int| 0 <= i < p@.len() && !known@.contains_key((#[trigger] p@[i])@);
                assert(!known@.contains_key(p@[i]@));
                assert(!known_param(trials@, p@[i]@));
                assert(!all_known(trials@, p@));
                let list = missing_list(&known, &p);
                proof {
                    assert(unknown_in(known@) == unknown(trials@)) by {
                        assert forall|name: Seq<char>| unknown_in(known@)(name) == #[trigger] unknown(trials@)(name) by {}
                        assert(unknown_in(known@) =~= unknown(trials@));
                    }
                }
                let opened = joined(
                    "Study must contain at least one completed trial for each specified parameter. Missing parameters: [",
                    list.as_str(),
                );
                Err(Error::with_reason(ErrorKind::ImportanceEvaluatorError, joined(opened.as_str(), "].")))
            }
        }
        None => {
            let r = sorted_names(&known);
            assert forall|name: Seq<char>| #[trigger] known_param(trials@, name) implies exists|i: int| 0 <= i < r@.len()
                && (#[trigger] r@[i])@ == name by {
                assert(known@.contains_key(name));
            }
            Ok(r)
        }
    }
}

/// The value at a place in ascending total order.
pub open spec fn is_threshold(values: Seq<Float>, index: int, threshold: Float) -> bool {
    exists|order: Seq<usize>| #[trigger] by_value(values, order) && threshold == values[order[index] as int]
}

/// Places in ascending total order of the values, equal ones in input order.
pub open spec fn by_value(values: Seq<Float>, order: Seq<usize>) -> bool {
    &&& covers(order, 0, values.len() as int)
    &&& forall|a: int, b: int| 0 <= a < b < order.len() ==> {
        let u = values[#[trigger] order[a] as int].total_rank();
        let v = values[#[trigger] order[b] as int].total_rank();
        u < v || (u == v && order[a] < order[b])
    }
}

pub open spec fn at_most(values: Seq<Float>, threshold: Float) -> spec_fn(int) -> bool {
    |i: int| !values[i].nan() && !threshold.nan() && values[i].rank() <= threshold.rank()
}

/// The places of the values up to the one at place `index` in ascending order.
pub fn top_trials(values: &Vec<Float>, index: usize) -> (r: Vec<usize>)
    requires
        index < values@.len(),
    ensures
        exists|threshold: Float| #[trigger] is_threshold(values@, index as int, threshold)
            && ints(r@) == picks(values@.len(), at_most(values@, threshold)),
{
    let n: usize = values.len();
    let mut keys: Vec<i64> = Vec::new();
    let mut i: usize = 0;
    while i < n
        invariant
            i <= n,
            n == values@.len(),
            keys@.len() == i,
            forall|q: int| 0 <= q < i ==> #[trigger] keys@[q] == values@[q].total_rank(),
        decreases n - i,
    {
        keys.push(values[i].total_key());
        i = i + 1;
    }
    let order = positions_by_key(&keys);
    assert forall|a: int, b: int| 0 <= a < b < order@.len() implies {
        let u = values@[#[trigger] order@[a] as int].total_rank();
        let v = values@[#[trigger] order@[b] as int].total_rank();
        u < v || (u == v && order@[a] < order@[b])
    } by {}
    assert(by_value(values@, order@));
    let threshold = values[order[index]];
    assert(is_threshold(values@, index as int, threshold));
    let ghost f = at_most(values@, threshold);
    let mut r: Vec<usize> = Vec::new();
    let mut i: usize = 0;
    while i < n
        invariant
            i <= n,
            n == values@.len(),
            f == at_most(values@, threshold),
            ints(r@) == picks(i as nat, f),
        decreases n - i,
    {
        let ghost before = r@;
        let v = values[i];
        if !v.is_nan() && !threshold.is_nan() && v.key() <= threshold.key() {
            r.push(i);
            assert(ints(r@) =~= ints(before).push(i as int));
        }
        i = i + 1;
    }
    r
}

/// Finite values up to an earlier place are among those up to a later place: the target
/// trials are among the region trials.
pub proof fn law_target_is_within_region(values: Seq<Float>, order: Seq<usize>, target: int, region: int, i: int)
    requires
        by_value(values, order),
        0 <= target <= region < order.len(),
        forall|k: int| 0 <= k < values.len() ==> !(#[trigger] values[k]).nan(),
        0 <= i < values.len(),
        at_most(values, values[order[target] as int])(i),
    ensures
        at_most(values, values[order[region] as int])(i),
{
    let a = values[order[target] as int];
    let b = values[order[region] as int];
    assert(order[target] < values.len() && order[region] < values.len());
    assert(!a.nan() && !b.nan());
    if target < region {
        assert(a.total_rank() <= b.total_rank());
        assert(a.rank() <= b.rank());
    }
}

/// The distribution of a parameter in a trial.
pub open spec fn regime_of(trial: TrialRecord, name: Seq<char>) -> Option<Space> {
    if trial.distributions.contains_key(name) {
        Some(trial.distributions[name])
    } else {
        None
    }
}

pub open spec fn in_regime(trials: Seq<PersistedTrial>, name: Seq<char>, regime: Option<Space>) -> spec_fn(int) -> bool {
    |i: int| regime_of(trials[i]@, name) == regime
}

/// Trials with one distribution of a parameter.
pub struct Regime {
    pub distribution: Option<Distribution>,
    /// The places of the trials, in order.
    pub members: Vec<usize>,
}

impl Regime {
    pub open spec fn key(self) -> Option<Space> {
        match self.distribution {
            Some(d) => Some(d@),
            None => None,
        }
    }
}

fn distribution_of(trial: &PersistedTrial, name: &String) -> (r: Option<Distribution>)
    ensures
        match r {
            Some(d) => Some(d@),
            None => None,
        } == regime_of(trial@, name@),
{
    match trial.distributions.get(name) {
        Some(d) => Some(*d),
        None => None,
    }
}

fn same_regime(a: &Option<Distribution>, b: &Option<Distribution>) -> (r: bool)
    ensures
        r == (match *a {
            Some(d) => Some(d@),
            None => None,
        } == match *b {
            Some(d) => Some(d@),
            None => None,
        }),
{
    match (a, b) {
        (None, None) => true,
        (Some(x), Some(y)) => x.same(y),
        _ => false,
    }
}

/// Parts the trials by their distribution of a parameter, in the order in which the
/// distributions first appear. Parts with fewer than `min_n_trials_in_regime` trials are
/// left out.
pub fn partition_by_regime(param_name: &str, trials: &Vec<PersistedTrial>, min_n_trials_in_regime: usize) -> (r: Vec<Regime>)
    ensures
        forall|g: int| 0 <= g < r@.len() ==> {
            &&& ints((#[trigger] r@[g]).members@) == picks(trials@.len(), in_regime(trials@, param_name@, r@[g].key()))
            &&& r@[g].members@.len() >= min_n_trials_in_regime
            &&& r@[g].members@.len() > 0
        },
        forall|g: int, h: int| 0 <= g < h < r@.len() ==> (#[trigger] r@[g]).members@[0] < (#[trigger] r@[h]).members@[0],
        forall|i: int| 0 <= i < trials@.len() && picks(
            trials@.len(),
            in_regime(trials@, param_name@, regime_of((#[trigger] trials@[i])@, param_name@)),
        ).len() >= min_n_trials_in_regime ==> exists|g: int| 0 <= g < r@.len() && (#[trigger] r@[g]).key() == regime_of(
            trials@[i]@,
            param_name@,
        ),
{
    let name = param_name.to_owned();
    let n: usize = trials.len();
    let mut r: Vec<Regime> = Vec::new();
    let mut i: usize = 0;
    while i < n
        invariant
            i <= n,
            n == trials@.len(),
            name@ == param_name@,
            forall|g: int| 0 <= g < r@.len() ==> {
                &&& ints((#[trigger] r@[g]).members@) == picks(n as nat, in_regime(trials@, name@, r@[g].key()))
                &&& r@[g].members@.len() >= min_n_trials_in_regime
                &&& r@[g].members@.len() > 0
                &&& r@[g].members@[0] < i
            },
            forall|g: int, h: int| 0 <= g < h < r@.len() ==> (#[trigger] r@[g]).members@[0] < (#[trigger] r@[h]).members@[0],
            forall|j: int| 0 <= j < i && picks(n as nat, in_regime(trials@, name@, regime_of((#[trigger] trials@[j])@, name@))).len()
                >= min_n_trials_in_regime ==> exists|g: int| 0 <= g < r@.len() && (#[trigger] r@[g]).key() == regime_of(
                trials@[j]@,
                name@,
            ),
        decreases n - i,
    {
        let regime = distribution_of(&trials[i], &name);
        let ghost key = regime_of(trials@[i as int]@, name@);
        let ghost f = in_regime(trials@, name@, key);
        let mut seen = false;
        let mut members: Vec<usize> = Vec::new();
        let mut j: usize = 0;
        while j < n
            invariant
                j <= n,
                i < n,
                n == trials@.len(),
                name@ == param_name@,
                match regime {
                    Some(d) => Some(d@),
                    None => None,
                } == key,
                f == in_regime(trials@, name@, key),
                ints(members@) == picks(j as nat, f),
                seen == exists|q: int| 0 <= q < j && q < i && regime_of((#[trigger] trials@[q])@, name@) == key,
            decreases n - j,
        {
            let ghost before = members@;
            let other = distribution_of(&trials[j], &name);
            if same_regime(&regime, &other) {
                members.push(j);
                assert(ints(members@) =~= ints(before).push(j as int));
                if j < i {
                    assert(regime_of(trials@[j as int]@, name@) == key);
                    seen = true;
                }
            }
            j = j + 1;
        }
        proof {
            lemma_picks(n as nat, f);
            assert(f(i as int));
            assert(picks(n as nat, f).contains(i as int));
            assert(ints(members@).len() == members@.len());
        }
        let ghost r0 = r@;
        if !seen && members.len() >= min_n_trials_in_regime {
            proof {
                assert(members@[0] == i) by {
                    let k = choose|k: int| 0 <= k < picks(n as nat, f).len() && picks(n as nat, f)[k] == i;
                    assert(ints(members@)[0] == members@[0] as int);
                    assert(f(picks(n as nat, f)[0]));
                    assert(regime_of(trials@[members@[0] as int]@, name@) == key);
                    lemma_picks_ascend(n as nat, f, 0, k);
                    if members@[0] < i {
                        assert(false);
                    }
                }
            }
            r.push(Regime { distribution: regime, members });
            assert(r@[r0.len() as int].key() == key);
        }
        proof {
            assert forall|q: int| 0 <= q < i + 1 && picks(n as nat, in_regime(trials@, name@, regime_of((#[trigger] trials@[q])@, name@))).len()
                >= min_n_trials_in_regime implies exists|g: int| 0 <= g < r@.len() && (#[trigger] r@[g]).key() == regime_of(trials@[q]@, name@) by {
                let k = regime_of(trials@[q]@, name@);
                if q < i {
                    let g = choose|g: int| 0 <= g < r0.len() && (#[trigger] r0[g]).key() == k;
                    assert(r@[g].key() == k);
                } else if seen {
                    let p = choose|p: int| 0 <= p < i && regime_of((#[trigger] trials@[p])@, name@) == key;
                    assert(regime_of(trials@[p]@, name@) == k);
                    let g = choose|g: int| 0 <= g < r0.len() && (#[trigger] r0[g]).key() == regime_of(trials@[p]@, name@);
                    assert(r@[g].key() == k);
                } else {
                    assert(r@[r0.len() as int].key() == k);
                }
            }
        }
        i = i + 1;
    }
    r
}

proof fn lemma_picks_ascend(n: nat, f: spec_fn(int) -> bool, a: int, b: int)
    requires
        0 <= a <= b < picks(n, f).len(),
    ensures
        picks(n, f)[a] <= picks(n, f)[b],
    decreases n,
{
    if n > 0 {
        let head = picks((n - 1) as nat, f);
        lemma_picks((n - 1) as nat, f);
        if b < head.len() {
            lemma_picks_ascend((n - 1) as nat, f, a, b);
        } else if a < head.len() {
            assert(picks(n, f)[a] == head[a]);
        }
    }
}

/// A trial has more than one objective value.
pub open spec fn several_objectives(trials: Seq<PersistedTrial>) -> bool {
    exists|i: int| 0 <= i < trials.len() && (#[trigger] trials[i])@.outcome is Complete && trials[i]@.outcome->Complete_0.len() > 1
}

/// Trials with several objective values can only be evaluated on a target.
pub fn ensure_target_for_multi_objective(trials: &Vec<PersistedTrial>, has_target: bool) -> (r: Result<()>)
    ensures
        if !has_target && several_objectives(trials@) {
            fails(r, ErrorKind::ImportanceEvaluatorError)
        } else {
            r is Ok
        },
{
    if has_target {
        return Ok(());
    }
    let mut i: usize = 0;
    while i < trials.len()
        invariant
            i <= trials@.len(),
            !has_target,
            forall|j: int| 0 <= j < i ==> !((#[trigger] trials@[j])@.outcome is Complete && trials@[j]@.outcome->Complete_0.len() > 1),
        decreases trials@.len() - i,
    {
        match &trials[i].state_values {
            TrialStateValues::Complete(values) => {
                if values.len() > 1 {
                    assert(trials@[i as int]@.outcome is Complete);
                    assert(several_objectives(trials@));
                    return Err(Error::new(ErrorKind::ImportanceEvaluatorError));
                }
            }
            _ => {}
        }
        i = i + 1;
    }
    Ok(())
}

/// How an evaluation goes on.
pub enum EvaluationPlan {
    /// There is nothing to compare: every parameter has importance 0.
    Zeros(Vec<String>),
    /// The best trials are compared with the others, for each of the parameters.
    Compare(Vec<String>),
}

impl EvaluationPlan {
    pub open spec fn names(self) -> Seq<String> {
        match self {
            EvaluationPlan::Zeros(names) => names@,
            EvaluationPlan::Compare(names) => names@,
        }
    }
}

/// Decides how an evaluation of trials goes on.
pub fn begin_evaluation(trials: &Vec<PersistedTrial>, has_target: bool, params: Option<Vec<String>>) -> (r: Result<EvaluationPlan>)
    ensures
        if !has_target && several_objectives(trials@) {
            fails(r, ErrorKind::ImportanceEvaluatorError)
        } else if params is Some && !all_known(trials@, params->Some_0@) {
            fails_because(r, ErrorKind::ImportanceEvaluatorError, missing_reason(trials@, params->Some_0@))
        } else {
            &&& r is Ok
            &&& r->Ok_0 is Zeros == (trials@.len() <= 1)
            &&& params is Some ==> r->Ok_0.names() == params->Some_0@
            &&& params is None ==> lists_params(trials@, r->Ok_0.names())
        },
{
    match ensure_target_for_multi_objective(trials, has_target) {
        Err(e) => {
            return Err(e);
        }
        Ok(_) => {}
    }
    match resolve_params(trials, params) {
        Err(e) => Err(e),
        Ok(names) => if trials.len() <= 1 {
            Ok(EvaluationPlan::Zeros(names))
        } else {
            Ok(EvaluationPlan::Compare(names))
        },
    }
}

/// What complete trials are compared by, lower first: their targets, or else the first
/// objective values as losses.
pub open spec fn comparison_values(trials: Seq<PersistedTrial>, direction: Direction, targets: Option<Seq<Float>>) -> Seq<Float> {
    match targets {
        Some(t) => t,
        None => Seq::new(trials.len(), |i: int| loss_of(trials[i]@.outcome->Complete_0[0], direction)),
    }
}

/// The place of the last of `n_top` values, or of the first one.
pub open spec fn last_place(n_top: usize) -> int {
    if n_top == 0 {
        0
    } else {
        n_top - 1
    }
}

/// The best trials of a study.
pub enum TopTrials {
    /// Their places, in order.
    Places(Vec<usize>),
    /// The split of all trials by non-domination and hypervolume.
    Split(FeasibleSplit),
}

/// The best complete trials: all of them for the quantile 1. Otherwise `n_top` is the
/// quantile of their number, rounded up. Several objectives without a target go by
/// non-domination; else the trials up to the one at place `n_top` are taken.
pub fn get_top_quantile_trials(
    trials: &Vec<PersistedTrial>,
    directions: &Vec<Direction>,
    targets: Option<&Vec<Float>>,
    quantile: Float,
    n_top: usize,
) -> (r: TopTrials)
    requires
        n_top <= trials@.len(),
        trials@.len() > 0,
        directions@.len() > 0,
        targets is Some ==> targets->Some_0@.len() == trials@.len(),
        forall|i: int| 0 <= i < trials@.len() ==> (#[trigger] trials@[i])@.outcome is Complete
            && trials@[i]@.outcome->Complete_0.len() >= directions@.len(),
    ensures
        if quantile.same(one()) {
            r is Places && ints(r->Places_0@) == Seq::new(trials@.len(), |i: int| i)
        } else if directions@.len() > 1 && targets is None {
            &&& r is Split
            &&& ints(r->Split_0.feasible_indices@) == Seq::new(trials@.len(), |i: int| i)
            &&& exists|values: Seq<Vec<Float>>| #[trigger] values_of(trials@, values)
                && r->Split_0.planned(values, r->Split_0.feasible_indices@, directions@, n_top as nat)
        } else {
            let values = comparison_values(trials@, directions@[0], targets_view(targets));
            &&& r is Places
            &&& exists|threshold: Float| #[trigger] is_threshold(values, last_place(n_top), threshold) && ints(r->Places_0@) == picks(
                trials@.len(),
                at_most(values, threshold),
            )
        },
{
    let n: usize = trials.len();
    let mut all: Vec<usize> = Vec::new();
    let mut rows: Vec<Vec<Float>> = Vec::new();
    let mut losses: Vec<Float> = Vec::new();
    let direction = directions[0];
    let mut i: usize = 0;
    while i < n
        invariant
            i <= n,
            n == trials@.len(),
            directions@.len() > 0,
            direction == directions@[0],
            forall|i: int| 0 <= i < trials@.len() ==> (#[trigger] trials@[i])@.outcome is Complete
                && trials@[i]@.outcome->Complete_0.len() >= directions@.len(),
            all@.len() == i,
            rows@.len() == i,
            losses@.len() == i,
            forall|k: int| 0 <= k < i ==> #[trigger] all@[k] == k,
            forall|k: int| 0 <= k < i ==> (#[trigger] rows@[k])@ == trials@[k]@.outcome->Complete_0,
            forall|k: int| 0 <= k < i ==> #[trigger] losses@[k] == loss_of(trials@[k]@.outcome->Complete_0[0], direction),
        decreases n - i,
    {
        assert(trials@[i as int]@.outcome is Complete);
        all.push(i);
        match &trials[i].state_values {
            TrialStateValues::Complete(values) => {
                rows.push(copy_row(values));
                losses.push(
                    match direction {
                        Direction::Minimize => values[0],
                        Direction::Maximize => values[0].neg(),
                    },
                );
            }
            _ => {
                rows.push(Vec::new());
                losses.push(Float { bits: 0 });
            }
        }
        i = i + 1;
    }
    assert(ints(all@) =~= Seq::new(n as nat, |i: int| i));
    assert(values_of(trials@, rows@));
    if quantile.num_eq(Float { bits: 0x3ff0_0000_0000_0000 }) {
        return TopTrials::Places(all);
    }
    if directions.len() > 1 && targets.is_none() {
        assert forall|k: int| 0 <= k < all@.len() implies #[trigger] all@[k] < rows@.len() && rows@[all@[k] as int]@.len()
            >= directions@.len() by {
            assert(trials@[k]@.outcome is Complete);
        }
        return TopTrials::Split(split_feasible_observation_indices(&rows, &all, directions, n_top));
    }
    let index: usize = if n_top == 0 {
        0
    } else {
        n_top - 1
    };
    let ghost values = comparison_values(trials@, directions@[0], targets_view(targets));
    let places = match targets {
        Some(t) => {
            assert(t@ == values);
            top_trials(t, index)
        }
        None => {
            assert(losses@ =~= values);
            top_trials(&losses, index)
        }
    };
    proof {
        assert(last_place(n_top) == index as int);
        assert(values.len() == trials@.len());
        let threshold = choose|threshold: Float| #[trigger] is_threshold(values, index as int, threshold) && ints(places@) == picks(
            values.len(),
            at_most(values, threshold),
        );
        assert(is_threshold(values, last_place(n_top), threshold));
    }
    TopTrials::Places(places)
}

pub open spec fn target_on(trials: Seq<PersistedTrial>, members: Seq<usize>, target_ids: Seq<u32>) -> spec_fn(int) -> bool {
    |k: int| target_ids.contains(trials[members[k] as int].id)
}

/// The places, among the members of a regime, of the target trials.
pub fn target_members(trials: &Vec<PersistedTrial>, members: &Vec<usize>, target_ids: &Vec<u32>) -> (r: Vec<usize>)
    requires
        forall|k: int| 0 <= k < members@.len() ==> #[trigger] members@[k] < trials@.len(),
    ensures
        ints(r@) == picks(members@.len(), target_on(trials@, members@, target_ids@)),
{
    let ghost f = target_on(trials@, members@, target_ids@);
    let mut r: Vec<usize> = Vec::new();
    let mut k: usize = 0;
    while k < members.len()
        invariant
            k <= members@.len(),
            forall|k: int| 0 <= k < members@.len() ==> #[trigger] members@[k] < trials@.len(),
            f == target_on(trials@, members@, target_ids@),
            ints(r@) == picks(k as nat, f),
        decreases members@.len() - k,
    {
        let ghost before = r@;
        if holds_id(target_ids, trials[members[k]].id) {
            r.push(k);
            assert(ints(r@) =~= ints(before).push(k as int));
        }
        k = k + 1;
    }
    r
}

fn holds_id(ids: &Vec<u32>, id: u32) -> (r: bool)
    ensures
        r == ids@.contains(id),
{
    let mut i: usize = 0;
    while i < ids.len()
        invariant
            i <= ids@.len(),
            forall|j: int| 0 <= j < i ==> #[trigger] ids@[j] != id,
        decreases ids@.len() - i,
    {
        if ids[i] == id {
            assert(ids@[i as int] == id);
            return true;
        }
        i = i + 1;
    }
    false
}

/// Whether a regime adds to the importance of its parameter: the parameter is there, can
/// vary, and some target trial is in the regime.
pub fn regime_weighs(distribution: &Option<Distribution>, n_target: usize) -> (r: bool)
    ensures
        r == (distribution is Some && !distribution->Some_0@.single() && n_target > 0),
{
    match distribution {
        Some(d) => !d.is_single() && n_target > 0,
        None => false,
    }
}

/// How many of the first `n` values stand for choice `c`.
pub open spec fn choice_count(values: Seq<Float>, c: int, n: nat) -> nat
    decreases n,
{
    if n == 0 {
        0
    } else {
        choice_count(values, c, (n - 1) as nat) + if chosen(values[n - 1]) == c {
            1nat
        } else {
            0
        }
    }
}

/// The choice that a categorical value stands for.
pub open spec fn chosen(value: Float) -> int {
    if whole(value) < 0 {
        0
    } else {
        whole(value)
    }
}

/// Counts how often each choice of a categorical parameter was taken.
pub fn count_categorical_param_in_grid(values: &Vec<Float>, cardinality: usize) -> (counts: Vec<u32>)
    requires
        values@.len() <= u32::MAX,
        forall|i: int| 0 <= i < values@.len() ==> chosen(#[trigger] values@[i]) < cardinality,
    ensures
        counts@.len() == cardinality,
        forall|c: int| 0 <= c < cardinality ==> #[trigger] counts@[c] == choice_count(values@, c, values@.len()),
{
    let mut counts: Vec<u32> = vec![0; cardinality];
    let mut i: usize = 0;
    while i < values.len()
        invariant
            i <= values@.len() <= u32::MAX,
            forall|i: int| 0 <= i < values@.len() ==> chosen(#[trigger] values@[i]) < cardinality,
            counts@.len() == cardinality,
            forall|c: int| 0 <= c < cardinality ==> #[trigger] counts@[c] == choice_count(values@, c, i as nat) && counts@[c] <= i,
        decreases values@.len() - i,
    {
        let ghost before = counts@;
        assert(chosen(values@[i as int]) < cardinality);
        let t: i64 = values[i].to_i64();
        let c: usize = if t < 0 {
            0
        } else {
            t as usize
        };
        assert(counts@[c as int] <= i);
        let count: u32 = counts[c];
        counts.set(c, count + 1);
        assert forall|d: int| 0 <= d < cardinality implies #[trigger] counts@[d] == choice_count(values@, d, (i + 1) as nat)
            && counts@[d] <= i + 1 by {
            assert(before[d] == choice_count(values@, d, i as nat));
        }
        i = i + 1;
    }
    counts
}

/// The cell of a grid that a position falls into: positions before the first cell fall
/// into the first, positions behind the last into the last.
pub open spec fn grid_cell(position: Float, n_steps: usize) -> int {
    if chosen(position) < n_steps {
        chosen(position)
    } else {
        n_steps - 1
    }
}

/// How many of the first `n` positions fall into a cell.
pub open spec fn cell_count(positions: Seq<Float>, n_steps: usize, cell: int, n: nat) -> nat
    decreases n,
{
    if n == 0 {
        0
    } else {
        let rest = cell_count(positions, n_steps, cell, (n - 1) as nat);
        if grid_cell(positions[n - 1], n_steps) == cell {
            rest + 1
        } else {
            rest
        }
    }
}

/// Counts how many values of a numerical parameter fall into each cell of a grid, from
/// their positions on it, in cells and rounded up.
pub fn count_numerical_param_in_grid(positions: &Vec<Float>, n_steps: usize) -> (counts: Vec<u32>)
    requires
        positions@.len() <= u32::MAX,
        n_steps > 0,
    ensures
        counts@.len() == n_steps,
        forall|c: int| 0 <= c < n_steps ==> #[trigger] counts@[c] == cell_count(positions@, n_steps, c, positions@.len()),
{
    let mut counts: Vec<u32> = vec![0; n_steps];
    let mut i: usize = 0;
    while i < positions.len()
        invariant
            i <= positions@.len() <= u32::MAX,
            n_steps > 0,
            counts@.len() == n_steps,
            forall|c: int| 0 <= c < n_steps ==> #[trigger] counts@[c] == cell_count(positions@, n_steps, c, i as nat) && counts@[c] <= i,
        decreases positions@.len() - i,
    {
        let ghost before = counts@;
        let t: i64 = positions[i].to_i64();
        let c: usize = if t < 0 {
            0
        } else if (t as u64) < n_steps as u64 {
            t as usize
        } else {
            n_steps - 1
        };
        assert(c == grid_cell(positions@[i as int], n_steps));
        assert(counts@[c as int] <= i);
        let count: u32 = counts[c];
        counts.set(c, count + 1);
        assert forall|d: int| 0 <= d < n_steps implies #[trigger] counts@[d] == cell_count(positions@, n_steps, d, (i + 1) as nat)
            && counts@[d] <= i + 1 by {
            assert(before[d] == cell_count(positions@, n_steps, d, i as nat));
        }
        i = i + 1;
    }
    counts
}

/// The number of grid steps of a linear integer range: at most `n_steps`, and no more than
/// there are values.
pub fn int_grid_steps(low: i64, high: i64, step: i64, n_steps: usize) -> (r: usize)
    requires
        low <= high,
        step > 0,
        high - low < i64::MAX,
    ensures
        r == if (high - low) / (step as int) + 1 < n_steps {
            (high - low) / (step as int) + 1
        } else {
            n_steps as int
        },
{
    let width: i64 = high - low;
    let steps: i64 = width / step;
    proof {
        assert(0 <= steps <= width) by (nonlinear_arith)
            requires steps as int == width as int / step as int, width >= 0, step > 0;
    }
    let count: u64 = steps as u64 + 1;
    if count < n_steps as u64 {
        count as usize
    } else {
        n_steps
    }
}

pub open spec fn positive_on(counts: Seq<u32>) -> spec_fn(int) -> bool {
    |i: int| counts[i] > 0
}

/// The places of the grid that were hit.
pub fn occupied_cells(counts: &Vec<u32>) -> (r: Vec<usize>)
    ensures
        ints(r@) == picks(counts@.len(), positive_on(counts@)),
{
    let ghost f = positive_on(counts@);
    let mut r: Vec<usize> = Vec::new();
    let mut i: usize = 0;
    while i < counts.len()
        invariant
            i <= counts@.len(),
            f == positive_on(counts@),
            ints(r@) == picks(i as nat, f),
        decreases counts@.len() - i,
    {
        let ghost before = r@;
        if counts[i] > 0 {
            r.push(i);
            assert(ints(r@) =~= ints(before).push(i as int));
        }
        i = i + 1;
    }
    r
}

/// Trials are evaluated that are complete and whose target is neither NaN nor infinite.
pub proof fn law_evaluated_trials_have_a_finite_target(trials: Seq<Option<TrialRecord>>, targets: Option<Seq<Float>>, i: int)
    ensures
        evaluated(trials, targets, i) <==> {
            let target = match targets {
                Some(t) => t[i],
                None => trials[i]->Some_0.outcome->Complete_0[0],
            };
            &&& trials[i] is Some
            &&& trials[i]->Some_0.outcome is Complete
            &&& (Float { bits: 0xfff0_0000_0000_0000 }).below(target)
            &&& target.below(Float { bits: 0x7ff0_0000_0000_0000 })
        },
{
}

/// The values before the threshold's place are not above it, and those behind are not below it.
pub proof fn law_threshold_parts_the_values(values: Seq<Float>, index: int, threshold: Float) -> (order: Seq<usize>)
    requires
        is_threshold(values, index, threshold),
        0 <= index < values.len() <= usize::MAX,
    ensures
        order.len() == values.len(),
        order.no_duplicates(),
        forall|a: int| 0 <= a < order.len() ==> #[trigger] order[a] < values.len(),
        threshold == values[order[index] as int],
        forall|a: int| 0 <= a <= index ==> !threshold.below(values[#[trigger] order[a] as int]),
        forall|b: int| index <= b < order.len() ==> !values[#[trigger] order[b] as int].below(threshold),
{
    let order = choose|order: Seq<usize>| #[trigger] by_value(values, order) && threshold == values[order[index] as int];
    assert forall|a: int| 0 <= a <= index implies !threshold.below(values[#[trigger] order[a] as int]) by {
        if a < index {
            assert(values[order[a] as int].total_rank() <= values[order[index] as int].total_rank());
        }
        crate::float::law_total_order_refines_the_numeric_one(threshold, values[order[a] as int]);
    }
    assert forall|b: int| index <= b < order.len() implies !values[#[trigger] order[b] as int].below(threshold) by {
        if b > index {
            assert(values[order[index] as int].total_rank() <= values[order[b] as int].total_rank());
        }
        crate::float::law_total_order_refines_the_numeric_one(values[order[b] as int], threshold);
    }
    order
}

/// A value is at most the threshold where both are numbers and it is not above.
pub proof fn law_values_up_to_the_threshold(values: Seq<Float>, threshold: Float, i: int)
    ensures
        at_most(values, threshold)(i) <==> !values[i].nan() && !threshold.nan() && !threshold.below(values[i]),
{
}

/// Complete trials are compared by their targets where targets are given; else the trial with the
/// better value, as the direction counts, has the smaller one.
pub proof fn law_better_trials_compare_lower(trials: Seq<PersistedTrial>, direction: Direction, targets: Seq<Float>, i: int, j: int)
    requires
        0 <= i < trials.len(),
        0 <= j < trials.len(),
    ensures
        comparison_values(trials, direction, Some(targets)) == targets,
        comparison_values(trials, direction, None)[i].below(comparison_values(trials, direction, None)[j]) == match direction {
            Direction::Minimize => trials[i]@.outcome->Complete_0[0].below(trials[j]@.outcome->Complete_0[0]),
            Direction::Maximize => trials[j]@.outcome->Complete_0[0].below(trials[i]@.outcome->Complete_0[0]),
        },
{
    law_losses_go_by_direction(trials[i]@.outcome->Complete_0[0], trials[j]@.outcome->Complete_0[0], direction);
}

/// The position of a choice stands for that choice.
pub proof fn law_positions_stand_for_choices(c: int)
    requires
        0 <= c < crate::convert::full(),
    ensures
        chosen(crate::convert::of_int(c)) == c,
{
    crate::convert::law_small_integer_reads_back(c);
    crate::convert::law_conversion_keeps_the_order(c, c);
}

/// A whole position falls into the cell of that number, or into the last one where there are
/// fewer cells.
pub proof fn law_positions_fall_into_cells(p: int, n_steps: usize)
    requires
        0 <= p < crate::convert::full(),
        n_steps > 0,
    ensures
        p < n_steps ==> grid_cell(crate::convert::of_int(p), n_steps) == p,
        p >= n_steps ==> grid_cell(crate::convert::of_int(p), n_steps) == n_steps - 1,
{
    law_positions_stand_for_choices(p);
}

/// The counts of choices count the values that stand for each.
pub proof fn law_choices_are_counted(values: Seq<Float>, c: int, n: nat, hits: spec_fn(int) -> bool)
    requires
        n <= values.len(),
        forall|i: int| 0 <= i < n ==> #[trigger] hits(i) == (chosen(values[i]) == c),
    ensures
        choice_count(values, c, n) == picks(n, hits).len(),
    decreases n,
{
    if n > 0 {
        law_choices_are_counted(values, c, (n - 1) as nat, hits);
        assert(hits(n - 1) == (chosen(values[n - 1]) == c));
    }
}

/// The counts of cells count the positions that fall into each.
pub proof fn law_cells_are_counted(positions: Seq<Float>, n_steps: usize, cell: int, n: nat, hits: spec_fn(int) -> bool)
    requires
        n <= positions.len(),
        forall|i: int| 0 <= i < n ==> #[trigger] hits(i) == (grid_cell(positions[i], n_steps) == cell),
    ensures
        cell_count(positions, n_steps, cell, n) == picks(n, hits).len(),
    decreases n,
{
    if n > 0 {
        law_cells_are_counted(positions, n_steps, cell, (n - 1) as nat, hits);
        assert(hits(n - 1) == (grid_cell(positions[n - 1], n_steps) == cell));
    }
}

/// Trials are of one regime where all of them have the parameter with one distribution, or none
/// has it.
pub proof fn law_regimes_share_a_distribution(trials: Seq<PersistedTrial>, name: Seq<char>, regime: Option<Space>, i: int)
    ensures
        regime is None ==> in_regime(trials, name, regime)(i) == !trials[i]@.distributions.contains_key(name),
        regime is Some ==> in_regime(trials, name, regime)(i) == (trials[i]@.distributions.contains_key(name) && trials[i]@.distributions[name]
            == regime->Some_0),
{
}

/// Several objectives are at work where some complete trial has two values or more.
pub proof fn law_several_objectives_show_in_the_values(trials: Seq<PersistedTrial>, i: int)
    requires
        0 <= i < trials.len(),
    ensures
        trials[i]@.outcome is Complete && trials[i]@.outcome->Complete_0.len() >= 2 ==> several_objectives(trials),
        (forall|j: int| 0 <= j < trials.len() && (#[trigger] trials[j])@.outcome is Complete ==> trials[j]@.outcome->Complete_0.len() <= 1)
            ==> !several_objectives(trials),
{
}

/// Without names, exactly the parameters that some trial has are listed, each once.
pub proof fn law_every_parameter_is_listed(trials: Seq<PersistedTrial>, names: Seq<String>, i: int, name: Seq<char>)
    requires
        lists_params(trials, names),
        0 <= i < trials.len(),
    ensures
        trials[i]@.distributions.contains_key(name) ==> exists|k: int| 0 <= k < names.len() && (#[trigger] names[k])@ == name,
        forall|k: int| 0 <= k < names.len() ==> exists|j: int| 0 <= j < trials.len() && (#[trigger] trials[j])@.distributions.contains_key(
            (#[trigger] names[k])@,
        ),
        forall|a: int, b: int| 0 <= a < b < names.len() ==> (#[trigger] names[a])@ != (#[trigger] names[b])@,
{
    if trials[i]@.distributions.contains_key(name) {
        assert(known_param(trials, name));
    }
    assert forall|k: int| 0 <= k < names.len() implies exists|j: int| 0 <= j < trials.len() && (#[trigger] trials[j])@.distributions.contains_key(
        (#[trigger] names[k])@,
    ) by {
        assert(known_param(trials, names[k]@));
    }
    assert forall|a: int, b: int| 0 <= a < b < names.len() implies (#[trigger] names[a])@ != (#[trigger] names[b])@ by {
        let u = crate::tpe::codes(names[a]@);
        let v = crate::tpe::codes(names[b]@);
        assert(crate::order::lex_lt(u, v));
        if u == v {
            let k = choose|k: int| #[trigger] crate::order::differs_first_at(u, v, k) && k < v.len() && (k == u.len() || u[k] < v[k]);
            assert(k < u.len());
        }
    }
}

/// The last of the top values stands one before their number, and the first where there is none.
pub proof fn law_last_of_the_top(n_top: usize)
    ensures
        n_top > 0 ==> last_place(n_top) + 1 == n_top,
        last_place(0) == 0,
{
}

/// The target members of a regime are those of its trials that are among the targets.
pub proof fn law_target_members_are_targets(trials: Seq<PersistedTrial>, members: Seq<usize>, target_ids: Seq<u32>, k: int)
    ensures
        target_on(trials, members, target_ids)(k) <==> target_ids.contains(trials[members[k] as int].id),
{
}

/// The occupied cells are those that something was counted in.
pub proof fn law_occupied_cells_are_counted_in(counts: Seq<u32>, i: int)
    ensures
        positive_on(counts)(i) <==> counts[i] != 0,
{
}

} // verus!
