//! NSGA-II sampler for multi-objective optimization.
//!
//! Crowding distances and the toss of a coin are computed outside; what is decided on
//! them stands here.

use std::collections::HashMap;

use vstd::prelude::*;

use crate::attr::{AttrKey, AttrName};
use crate::distribution::{Distribution, Space};
use crate::error::{fails, Error, ErrorKind, Result};
use crate::float::{finite, Float};
use crate::key_map::{Duplicate, KeyMap};
use crate::multi_objective::nds::{self, clean, lemma_dominates_transitive};
use crate::multi_objective::split::{copy_row, law_dominance_of_losses, loss_row, picks};
use crate::order::{covers, positions_by_key};
use crate::study::{dominates, Direction};
use crate::study_cache::{completed, slot_view, trial_records};
use crate::text::{decimal, decimal_text, parse_u32, parsed_unsigned};
use crate::tpe::{feasible, is_feasible};
use crate::trial::{PersistedTrial, TrialRecord, TrialStateValues};

verus! {

broadcast use vstd::std_specs::hash::group_hash_axioms;

/// What a trial is compared by.
pub struct Member {
    /// The objective values of a complete trial.
    pub values: Option<Vec<Float>>,
    /// Whether every constraint holds.
    pub feasible: bool,
    /// The sum of the positive constraint values.
    pub violation: Float,
}

impl Member {
    /// The member for a trial, given its total violation.
    pub fn of_trial(trial: &PersistedTrial, violation: Float) -> (r: Member)
        ensures
            r.values is Some == trial@.outcome is Complete,
            r.values is Some ==> r.values->Some_0@ == trial@.outcome->Complete_0,
            r.feasible == feasible(trial@.constraints),
            r.violation == violation,
    {
        let values = match &trial.state_values {
            TrialStateValues::Complete(values) => Some(copy_row(values)),
            _ => None,
        };
        Member { values, feasible: is_feasible(&trial.constraints), violation }
    }

    /// The values of a complete trial can be compared.
    pub open spec fn wf(self, directions: Seq<Direction>) -> bool {
        self.values is Some ==> self.values->Some_0@.len() == directions.len() && clean(self.values->Some_0@)
    }
}

/// Every number is that of a trial that is there.
pub open spec fn all_there(trials: Seq<Option<PersistedTrial>>, numbers: Seq<u32>) -> bool {
    forall|k: int| 0 <= k < numbers.len() ==> #[trigger] numbers[k] < trials.len() && trials[numbers[k] as int] is Some
}

/// The members of a population, given the total violation of each. Fails where one of them
/// was discarded.
pub fn population_members(trials: &Vec<Option<PersistedTrial>>, numbers: &Vec<u32>, violations: &Vec<Float>) -> (r: Result<Vec<Member>>)
    requires
        violations@.len() == numbers@.len(),
    ensures
        if all_there(trials@, numbers@) {
            &&& r is Ok
            &&& r->Ok_0@.len() == numbers@.len()
            &&& forall|k: int| 0 <= k < numbers@.len() ==> {
                let member = #[trigger] r->Ok_0@[k];
                let trial = trials@[numbers@[k] as int]->Some_0@;
                &&& member.values is Some == trial.outcome is Complete
                &&& member.values is Some ==> member.values->Some_0@ == trial.outcome->Complete_0
                &&& member.feasible == feasible(trial.constraints)
                &&& member.violation == violations@[k]
            }
        } else {
            fails(r, ErrorKind::TrialDiscarded)
        },
{
    let mut members: Vec<Member> = Vec::new();
    let mut k: usize = 0;
    while k < numbers.len()
        invariant
            k <= numbers@.len(),
            violations@.len() == numbers@.len(),
            members@.len() == k,
            forall|q: int| 0 <= q < k ==> #[trigger] numbers@[q] < trials@.len() && trials@[numbers@[q] as int] is Some,
            forall|q: int| 0 <= q < k ==> {
                let member = #[trigger] members@[q];
                let trial = trials@[numbers@[q] as int]->Some_0@;
                &&& member.values is Some == trial.outcome is Complete
                &&& member.values is Some ==> member.values->Some_0@ == trial.outcome->Complete_0
                &&& member.feasible == feasible(trial.constraints)
                &&& member.violation == violations@[q]
            },
        decreases numbers@.len() - k,
    {
        let number: usize = numbers[k] as usize;
        if number >= trials.len() {
            assert(numbers@[k as int] >= trials@.len());
            return Err(Error::new(ErrorKind::TrialDiscarded));
        }
        match &trials[number] {
            None => {
                assert(trials@[numbers@[k as int] as int] is None);
                return Err(Error::new(ErrorKind::TrialDiscarded));
            }
            Some(trial) => {
                members.push(Member::of_trial(trial, violations[k]));
            }
        }
        k = k + 1;
    }
    Ok(members)
}

/// Constrained dominance. A complete trial comes before an incomplete one; of two complete
/// ones, a feasible one before an infeasible one, two feasible ones go by dominance, and
/// two infeasible ones by their violation.
pub open spec fn beats(a: Member, b: Member, directions: Seq<Direction>) -> bool {
    if a.values is None {
        false
    } else if b.values is None {
        true
    } else if a.feasible && b.feasible {
        nds::dominates(loss_row(a.values->Some_0@, directions), loss_row(b.values->Some_0@, directions))
    } else if a.feasible != b.feasible {
        a.feasible
    } else {
        a.violation.below(b.violation)
    }
}

/// Constrained dominance is a strict partial order.
pub proof fn law_constrained_dominance_is_an_order(a: Member, b: Member, c: Member, directions: Seq<Direction>)
    ensures
        !beats(a, a, directions),
        beats(a, b, directions) ==> !beats(b, a, directions),
        beats(a, b, directions) && beats(b, c, directions) ==> beats(a, c, directions),
{
    if beats(a, b, directions) && beats(b, c, directions) && c.values is Some && a.feasible && b.feasible && c.feasible {
        lemma_dominates_transitive(
            loss_row(a.values->Some_0@, directions),
            loss_row(b.values->Some_0@, directions),
            loss_row(c.values->Some_0@, directions),
        );
    }
}

/// Return whether the first member constrained-dominates the second.
pub fn constrained_dominates(a: &Member, b: &Member, directions: &Vec<Direction>) -> (r: bool)
    requires
        a.wf(directions@),
        b.wf(directions@),
    ensures
        r == beats(*a, *b, directions@),
{
    match (&a.values, &b.values) {
        (None, _) => false,
        (Some(_), None) => true,
        (Some(values0), Some(values1)) => {
            if a.feasible && b.feasible {
                return dominates(values0, values1, directions);
            }
            if a.feasible {
                return true;
            }
            if b.feasible {
                return false;
            }
            a.violation.lt(b.violation)
        }
    }
}

/// No member in `rest` beats member `x`.
pub open spec fn is_free(members: Seq<Member>, directions: Seq<Direction>, rest: Seq<usize>, x: int) -> bool {
    forall|j: int| 0 <= j < rest.len() ==> !beats(members[#[trigger] rest[j] as int], members[x], directions)
}

/// Which members are free.
pub open spec fn free_flags(members: Seq<Member>, directions: Seq<Direction>, rest: Seq<usize>) -> Seq<bool> {
    Seq::new(members.len(), |x: int| is_free(members, directions, rest, x))
}

/// Going through `rest` from place `i` on and taking out the flagged entries, each of which
/// makes room for the last one: what is taken, and what is left.
pub open spec fn swept(rest: Seq<usize>, i: int, flags: Seq<bool>) -> (Seq<usize>, Seq<usize>)
    decreases rest.len() - i,
{
    if i < 0 || i >= rest.len() {
        (Seq::empty(), rest)
    } else if flags[rest[i] as int] {
        let after = swept(rest.update(i, rest.last()).drop_last(), i, flags);
        (seq![rest[i]] + after.0, after.1)
    } else {
        swept(rest, i + 1, flags)
    }
}

/// The fronts of what is in `rest`: the free members, then the free ones among the others,
/// and so on.
pub open spec fn fronts(members: Seq<Member>, directions: Seq<Direction>, rest: Seq<usize>) -> Seq<Seq<usize>>
    decreases rest.len(),
{
    let after = swept(rest, 0, free_flags(members, directions, rest));
    if after.0.len() == 0 || after.1.len() >= rest.len() {
        Seq::empty()
    } else {
        seq![after.0] + fronts(members, directions, after.1)
    }
}

proof fn lemma_swept(rest: Seq<usize>, i: int, flags: Seq<bool>)
    requires
        0 <= i,
    ensures
        swept(rest, i, flags).0.len() + swept(rest, i, flags).1.len() == rest.len(),
        forall|k: int| 0 <= k < swept(rest, i, flags).0.len() ==> rest.contains(#[trigger] swept(rest, i, flags).0[k])
            && flags[swept(rest, i, flags).0[k] as int],
        forall|k: int| 0 <= k < swept(rest, i, flags).1.len() ==> rest.contains(#[trigger] swept(rest, i, flags).1[k]),
        forall|k: int| i <= k < rest.len() && flags[#[trigger] rest[k] as int] ==> swept(rest, i, flags).0.len() > 0,
    decreases rest.len() - i,
{
    let all = swept(rest, i, flags);
    if i < rest.len() {
        if flags[rest[i] as int] {
            let next = rest.update(i, rest.last()).drop_last();
            let after = swept(next, i, flags);
            lemma_swept(next, i, flags);
            assert forall|x: usize| next.contains(x) implies rest.contains(x) by {
                let k = choose|k: int| 0 <= k < next.len() && next[k] == x;
                if k == i {
                    assert(rest[rest.len() - 1] == x);
                } else {
                    assert(rest[k] == x);
                }
            }
            assert forall|k: int| 0 <= k < all.0.len() implies rest.contains(#[trigger] all.0[k]) && flags[all.0[k] as int] by {
                if k > 0 {
                    assert(all.0[k] == after.0[k - 1]);
                }
            }
        } else {
            lemma_swept(rest, i + 1, flags);
        }
    }
}

proof fn lemma_some_free(members: Seq<Member>, directions: Seq<Direction>, rest: Seq<usize>, n: nat) -> (k: int)
    requires
        0 < n <= rest.len(),
    ensures
        0 <= k < n,
        forall|j: int| 0 <= j < n ==> !beats(members[#[trigger] rest[j] as int], members[rest[k] as int], directions),
    decreases n,
{
    let last = members[rest[n - 1] as int];
    law_constrained_dominance_is_an_order(last, last, last, directions);
    if n == 1 {
        0
    } else {
        let k = lemma_some_free(members, directions, rest, (n - 1) as nat);
        let m = members[rest[k] as int];
        if beats(last, m, directions) {
            assert forall|j: int| 0 <= j < n implies !beats(members[#[trigger] rest[j] as int], members[rest[n - 1] as int], directions) by {
                law_constrained_dominance_is_an_order(members[rest[j] as int], last, m, directions);
            }
            n - 1
        } else {
            k
        }
    }
}

/// Views of a list of lists.
pub open spec fn lists(v: Seq<Vec<usize>>) -> Seq<Seq<usize>> {
    Seq::new(v.len(), |i: int| v[i]@)
}

/// Sorts members into fronts by constrained dominance.
pub fn fast_non_dominated_sort(members: &Vec<Member>, directions: &Vec<Direction>) -> (r: Vec<Vec<usize>>)
    requires
        forall|i: int| 0 <= i < members@.len() ==> (#[trigger] members@[i]).wf(directions@),
    ensures
        lists(r@) == fronts(members@, directions@, Seq::new(members@.len(), |i: int| i as usize)),
{
    let n: usize = members.len();
    let mut rest: Vec<usize> = Vec::new();
    let mut i: usize = 0;
    while i < n
        invariant
            i <= n,
            rest@.len() == i,
            forall|k: int| 0 <= k < i ==> #[trigger] rest@[k] == k,
        decreases n - i,
    {
        rest.push(i);
        i = i + 1;
    }
    assert(rest@ =~= Seq::new(members@.len(), |i: int| i as usize));
    let ghost all = rest@;
    let mut r: Vec<Vec<usize>> = Vec::new();
    assert(lists(r@) + fronts(members@, directions@, rest@) =~= fronts(members@, directions@, all));
    while rest.len() > 0
        invariant
            n == members@.len(),
            forall|i: int| 0 <= i < members@.len() ==> (#[trigger] members@[i]).wf(directions@),
            forall|k: int| 0 <= k < rest@.len() ==> #[trigger] rest@[k] < n,
            lists(r@) + fronts(members@, directions@, rest@) == fronts(members@, directions@, all),
        decreases rest@.len(),
    {
        let ghost start = rest@;
        let flags = find_free(members, directions, &rest);
        let ghost goal = swept(start, 0, flags@);
        proof {
            assert(flags@ =~= free_flags(members@, directions@, start));
            lemma_swept(start, 0, flags@);
            let k = lemma_some_free(members@, directions@, start, start.len());
            assert(is_free(members@, directions@, start, start[k] as int));
            assert(flags@[start[k] as int]);
        }
        let mut taken: Vec<usize> = Vec::new();
        let mut i: usize = 0;
        assert(taken@ + swept(rest@, 0, flags@).0 =~= goal.0);
        while i < rest.len()
            invariant
                i <= rest@.len(),
                flags@.len() == n,
                forall|k: int| 0 <= k < rest@.len() ==> #[trigger] rest@[k] < n,
                taken@ + swept(rest@, i as int, flags@).0 == goal.0,
                swept(rest@, i as int, flags@).1 == goal.1,
            decreases rest@.len() - i,
        {
            let x: usize = rest[i];
            let ghost before = rest@;
            let ghost head = taken@;
            if flags[x] {
                let _moved: usize = rest.swap_remove(i);
                taken.push(x);
                proof {
                    let next = before.update(i as int, before.last()).drop_last();
                    assert(rest@ =~= next);
                    assert(swept(before, i as int, flags@).0 == seq![x] + swept(next, i as int, flags@).0);
                    assert(taken@ + swept(next, i as int, flags@).0 =~= head + (seq![x] + swept(next, i as int, flags@).0));
                }
            } else {
                i = i + 1;
            }
        }
        proof {
            assert(taken@ =~= goal.0);
            assert(rest@ == goal.1);
        }
        let ghost r0 = r@;
        r.push(taken);
        proof {
            assert(lists(r@) =~= lists(r0).push(goal.0));
            assert(fronts(members@, directions@, start) == seq![goal.0] + fronts(members@, directions@, goal.1));
            assert(lists(r@) + fronts(members@, directions@, rest@) =~= lists(r0) + fronts(members@, directions@, start));
        }
    }
    proof {
        assert(fronts(members@, directions@, rest@) =~= Seq::<Seq<usize>>::empty());
        assert(lists(r@) + fronts(members@, directions@, rest@) =~= lists(r@));
    }
    r
}

fn find_free(members: &Vec<Member>, directions: &Vec<Direction>, rest: &Vec<usize>) -> (flags: Vec<bool>)
    requires
        forall|i: int| 0 <= i < members@.len() ==> (#[trigger] members@[i]).wf(directions@),
        forall|k: int| 0 <= k < rest@.len() ==> #[trigger] rest@[k] < members@.len(),
    ensures
        flags@.len() == members@.len(),
        forall|x: int| 0 <= x < members@.len() ==> #[trigger] flags@[x] == is_free(members@, directions@, rest@, x),
{
    let mut flags: Vec<bool> = Vec::new();
    let mut x: usize = 0;
    while x < members.len()
        invariant
            x <= members@.len(),
            forall|i: int| 0 <= i < members@.len() ==> (#[trigger] members@[i]).wf(directions@),
            forall|k: int| 0 <= k < rest@.len() ==> #[trigger] rest@[k] < members@.len(),
            flags@.len() == x,
            forall|q: int| 0 <= q < x ==> #[trigger] flags@[q] == is_free(members@, directions@, rest@, q),
        decreases members@.len() - x,
    {
        let mut free = true;
        let mut j: usize = 0;
        while j < rest.len()
            invariant
                j <= rest@.len(),
                x < members@.len(),
                forall|i: int| 0 <= i < members@.len() ==> (#[trigger] members@[i]).wf(directions@),
                forall|k: int| 0 <= k < rest@.len() ==> #[trigger] rest@[k] < members@.len(),
                free == forall|q: int| 0 <= q < j ==> !beats(members@[#[trigger] rest@[q] as int], members@[x as int], directions@),
            decreases rest@.len() - j,
        {
            if constrained_dominates(&members[rest[j]], &members[x], directions) {
                assert(beats(members@[rest@[j as int] as int], members@[x as int], directions@));
                free = false;
            }
            j = j + 1;
        }
        flags.push(free);
        x = x + 1;
    }
    flags
}

/// Members of a front are beaten by no member of the same front or of a later one.
pub proof fn law_fronts_respect_dominance(members: Seq<Member>, directions: Seq<Direction>, rest: Seq<usize>, a: int, b: int, p: int, q: int)
    requires
        forall|k: int| 0 <= k < rest.len() ==> #[trigger] rest[k] < members.len(),
        0 <= a <= b < fronts(members, directions, rest).len(),
        0 <= p < fronts(members, directions, rest)[a].len(),
        0 <= q < fronts(members, directions, rest)[b].len(),
    ensures
        !beats(
            members[fronts(members, directions, rest)[b][q] as int],
            members[fronts(members, directions, rest)[a][p] as int],
            directions,
        ),
    decreases rest.len(),
{
    let flags = free_flags(members, directions, rest);
    let after = swept(rest, 0, flags);
    lemma_swept(rest, 0, flags);
    let all = fronts(members, directions, rest);
    let tail = fronts(members, directions, after.1);
    assert(all == seq![after.0] + tail);
    if a > 0 {
        assert forall|k: int| 0 <= k < after.1.len() implies #[trigger] after.1[k] < members.len() by {
            let j = choose|j: int| 0 <= j < rest.len() && rest[j] == after.1[k];
            assert(rest[j] < members.len());
        }
        law_fronts_respect_dominance(members, directions, after.1, a - 1, b - 1, p, q);
    } else {
        let x = all[0][p];
        let y = all[b][q];
        lemma_front_members(members, directions, rest, b, q);
        assert(rest.contains(y));
        let j = choose|j: int| 0 <= j < rest.len() && rest[j] == y;
        assert(after.0[p] == x);
        let i = choose|i: int| 0 <= i < rest.len() && rest[i] == x;
        assert(rest[i] < members.len());
        assert(flags[x as int]);
        assert(is_free(members, directions, rest, x as int));
        assert(!beats(members[rest[j] as int], members[x as int], directions));
    }
}

proof fn lemma_front_members(members: Seq<Member>, directions: Seq<Direction>, rest: Seq<usize>, b: int, q: int)
    requires
        0 <= b < fronts(members, directions, rest).len(),
        0 <= q < fronts(members, directions, rest)[b].len(),
    ensures
        rest.contains(fronts(members, directions, rest)[b][q]),
    decreases rest.len(),
{
    let flags = free_flags(members, directions, rest);
    let after = swept(rest, 0, flags);
    lemma_swept(rest, 0, flags);
    let all = fronts(members, directions, rest);
    if b > 0 {
        lemma_front_members(members, directions, after.1, b - 1, q);
        let y = all[b][q];
        let k = choose|k: int| 0 <= k < after.1.len() && after.1[k] == y;
        assert(rest.contains(after.1[k]));
    } else {
        assert(rest.contains(after.0[q]));
    }
}

/// A selection of the elite that may await crowding distances.
pub struct EliteSelection {
    /// What is selected whatever the distances are.
    pub elite: Vec<usize>,
    /// The front that is selected in part.
    pub boundary: Vec<usize>,
    /// How many of it are selected.
    pub take: usize,
}

/// The fronts before `k`, one after the other.
pub open spec fn joined_fronts(ranks: Seq<Vec<usize>>, k: nat) -> Seq<usize>
    decreases k,
{
    if k == 0 {
        Seq::empty()
    } else {
        joined_fronts(ranks, (k - 1) as nat) + ranks[k - 1]@
    }
}

/// The first `k` fronts fit into the population.
pub open spec fn fronts_fit(ranks: Seq<Vec<usize>>, k: nat, population_size: nat) -> bool {
    forall|i: nat| i <= k ==> (#[trigger] joined_fronts(ranks, i)).len() <= population_size
}

/// Selects whole fronts as long as they fit, and leaves the rest to a part of the next.
pub fn select_whole_fronts(ranks: &Vec<Vec<usize>>, population_size: usize) -> (r: EliteSelection)
    ensures
        exists|k: nat| {
            &&& k <= ranks@.len()
            &&& #[trigger] fronts_fit(ranks@, k, population_size as nat)
            &&& r.elite@ == joined_fronts(ranks@, k)
            &&& if k == ranks@.len() {
                r.take == 0 && r.boundary@.len() == 0
            } else {
                &&& joined_fronts(ranks@, k + 1).len() > population_size
                &&& r.boundary@ == ranks@[k as int]@
                &&& r.take == population_size - r.elite@.len()
            }
        },
        r.take <= r.boundary@.len(),
{
    let mut elite: Vec<usize> = Vec::new();
    let mut k: usize = 0;
    assert(elite@ =~= joined_fronts(ranks@, 0));
    while k < ranks.len()
        invariant
            k <= ranks@.len(),
            elite@ == joined_fronts(ranks@, k as nat),
            fronts_fit(ranks@, k as nat, population_size as nat),
            elite@.len() <= population_size,
        decreases ranks@.len() - k,
    {
        assert(joined_fronts(ranks@, (k + 1) as nat) == elite@ + ranks@[k as int]@);
        if ranks[k].len() > population_size - elite.len() {
            let take: usize = population_size - elite.len();
            return EliteSelection { elite, boundary: copy_positions(&ranks[k]), take };
        }
        let ghost before = elite@;
        let front = &ranks[k];
        let mut j: usize = 0;
        while j < front.len()
            invariant
                j <= front@.len(),
                elite@ == before + front@.take(j as int),
            decreases front@.len() - j,
        {
            elite.push(front[j]);
            assert(front@.take(j + 1) =~= front@.take(j as int).push(front@[j as int]));
            assert(elite@ =~= before + front@.take(j + 1));
            j = j + 1;
        }
        assert(front@.take(front@.len() as int) =~= front@);
        k = k + 1;
    }
    EliteSelection { elite, boundary: Vec::new(), take: 0 }
}

fn copy_positions(v: &Vec<usize>) -> (r: Vec<usize>)
    ensures
        r@ == v@,
{
    let mut r: Vec<usize> = Vec::new();
    let mut i: usize = 0;
    while i < v.len()
        invariant
            i <= v@.len(),
            r@ == v@.take(i as int),
        decreases v@.len() - i,
    {
        r.push(v[i]);
        assert(v@.take(i + 1) =~= v@.take(i as int).push(v@[i as int]));
        i = i + 1;
    }
    assert(v@.take(v@.len() as int) =~= v@);
    r
}

/// Places in descending order of distance, equal distances in input order.
pub open spec fn by_distance(distances: Seq<Float>, order: Seq<usize>) -> bool {
    &&& covers(order, 0, distances.len() as int)
    &&& forall|a: int, b: int| 0 <= a < b < order.len() ==> {
        let u = distances[#[trigger] order[a] as int].rank();
        let v = distances[#[trigger] order[b] as int].rank();
        u > v || (u == v && order[a] < order[b])
    }
}

/// The places in descending order of crowding distance.
pub fn crowding_distance_sort(distances: &Vec<Float>) -> (order: Vec<usize>)
    requires
        clean(distances@),
    ensures
        by_distance(distances@, order@),
{
    let n: usize = distances.len();
    let mut keys: Vec<i64> = Vec::new();
    let mut i: usize = 0;
    while i < n
        invariant
            i <= n,
            n == distances@.len(),
            keys@.len() == i,
            forall|q: int| 0 <= q < i ==> #[trigger] keys@[q] == -distances@[q].rank(),
        decreases n - i,
    {
        keys.push(distances[i].neg().key());
        i = i + 1;
    }
    let order = positions_by_key(&keys);
    assert forall|a: int, b: int| 0 <= a < b < order@.len() implies {
        let u = distances@[#[trigger] order@[a] as int].rank();
        let v = distances@[#[trigger] order@[b] as int].rank();
        u > v || (u == v && order@[a] < order@[b])
    } by {}
    order
}

impl EliteSelection {
    /// Completes the selection with the crowding distances of the boundary front: the most
    /// distant members are taken.
    pub fn complete(&self, distances: &Vec<Float>) -> (r: Vec<usize>)
        requires
            self.take <= self.boundary@.len(),
            distances@.len() == self.boundary@.len(),
            clean(distances@),
        ensures
            exists|order: Seq<usize>| #[trigger] by_distance(distances@, order) && r@ == self.elite@ + Seq::new(
                self.take as nat,
                |k: int| self.boundary@[order[k] as int],
            ),
    {
        let order = crowding_distance_sort(distances);
        let mut r = copy_positions(&self.elite);
        let ghost start = r@;
        let mut k: usize = 0;
        while k < self.take
            invariant
                k <= self.take <= self.boundary@.len(),
                covers(order@, 0, self.boundary@.len() as int),
                r@ == start + Seq::new(k as nat, |j: int| self.boundary@[order@[j] as int]),
            decreases self.take - k,
        {
            r.push(self.boundary[order[k]]);
            assert(r@ =~= start + Seq::new((k + 1) as nat, |j: int| self.boundary@[order@[j] as int]));
            k = k + 1;
        }
        r
    }
}

/// The system attribute that holds a trial's generation.
pub open spec fn generation_key() -> AttrName {
    AttrName::System("generation"@)
}

/// The generation of a trial, if its attributes hold a readable one.
pub open spec fn generation_of(trial: TrialRecord) -> Option<u32> {
    if trial.attrs.contains_key(generation_key()) {
        match parsed_unsigned(trial.attrs[generation_key()], 10, u32::MAX as nat) {
            Some(g) => Some(g as u32),
            None => None,
        }
    } else {
        None
    }
}

/// The text that a generation is stored as.
pub fn generation_text(generation: u32) -> (r: String)
    ensures
        r@ == decimal(generation as nat),
        parsed_unsigned(r@, 10, u32::MAX as nat) == Some(generation as nat),
{
    proof {
        crate::text::lemma_decimal(generation as nat);
        assert(decimal(generation as nat)[0] != '+');
    }
    decimal_text(generation as u64)
}

fn read_generation(trial: &PersistedTrial) -> (r: Option<u32>)
    ensures
        r == generation_of(trial@),
{
    let key = AttrKey::System("generation".to_owned());
    match trial.attrs.get(&key) {
        Some(text) => parse_u32(text.as_str()),
        None => None,
    }
}

/// The complete trials of each generation, by number.
pub struct Generations {
    generation_to_numbers: HashMap<u32, Vec<u32>>,
}

impl View for Generations {
    type V = Map<u32, Seq<u32>>;

    closed spec fn view(&self) -> Map<u32, Seq<u32>> {
        Map::new(|g: u32| self.generation_to_numbers@.contains_key(g), |g: u32| self.generation_to_numbers@[g]@)
    }
}

/// One more trial in a generation.
pub open spec fn with_member(generations: Map<u32, Seq<u32>>, generation: u32, number: u32) -> Map<u32, Seq<u32>> {
    let before = if generations.contains_key(generation) {
        generations[generation]
    } else {
        Seq::empty()
    };
    generations.insert(generation, before.push(number))
}

/// The generations of the first `n` trials.
pub open spec fn generations_of(trials: Seq<Option<TrialRecord>>, n: nat) -> Map<u32, Seq<u32>>
    decreases n,
{
    if n == 0 {
        Map::empty()
    } else {
        let before = generations_of(trials, (n - 1) as nat);
        if completed(trials[n - 1]) && generation_of(trials[n - 1]->Some_0) is Some {
            with_member(before, generation_of(trials[n - 1]->Some_0)->Some_0, trials[n - 1]->Some_0.number)
        } else {
            before
        }
    }
}

impl Generations {
    pub fn new() -> (r: Generations)
        ensures
            r@ == Map::<u32, Seq<u32>>::empty(),
    {
        let r = Generations { generation_to_numbers: HashMap::new() };
        assert(r@ =~= Map::<u32, Seq<u32>>::empty());
        r
    }

    fn push(&mut self, generation: u32, number: u32)
        ensures
            final(self)@ == with_member(old(self)@, generation, number),
    {
        let ghost before = self@;
        let mut numbers = match self.generation_to_numbers.remove(&generation) {
            Some(numbers) => numbers,
            None => Vec::new(),
        };
        numbers.push(number);
        self.generation_to_numbers.insert(generation, numbers);
        assert(self@ =~= with_member(before, generation, number));
    }

    /// Takes note of a trial that has completed.
    pub fn note(&mut self, trial: &PersistedTrial)
        ensures
            final(self)@ == match generation_of(trial@) {
                Some(g) => with_member(old(self)@, g, trial.number),
                None => old(self)@,
            },
    {
        match read_generation(trial) {
            Some(g) => {
                self.push(g, trial.number);
            }
            None => {}
        }
    }

    /// Builds the generations from all trials where none is noted yet.
    pub fn fill(&mut self, trials: &Vec<Option<PersistedTrial>>)
        ensures
            final(self)@ == if old(self)@.dom() == Set::<u32>::empty() {
                generations_of(trial_records(trials@), trials@.len())
            } else {
                old(self)@
            },
    {
        let nothing = self.generation_to_numbers.is_empty();
        assert(nothing == (self@.dom() =~= Set::<u32>::empty())) by {
            assert(self@.dom() =~= self.generation_to_numbers@.dom());
        }
        if nothing {
            self.rebuild_generation_cache(trials);
        }
    }

    /// Builds the generations anew from all trials.
    pub fn rebuild_generation_cache(&mut self, trials: &Vec<Option<PersistedTrial>>)
        ensures
            final(self)@ == generations_of(trial_records(trials@), trials@.len()),
    {
        let ghost records = trial_records(trials@);
        *self = Generations::new();
        let mut i: usize = 0;
        while i < trials.len()
            invariant
                i <= trials@.len(),
                records == trial_records(trials@),
                self@ == generations_of(records, i as nat),
            decreases trials@.len() - i,
        {
            assert(records[i as int] == slot_view(trials@[i as int]));
            match &trials[i] {
                Some(trial) => {
                    if matches!(trial.state_values, TrialStateValues::Complete(_)) {
                        self.note(trial);
                    }
                }
                None => {}
            }
            i = i + 1;
        }
    }

    /// The population that a generation's elite is selected from: its trials, if there are
    /// enough of them, and the elite of the generation before.
    pub fn population(&self, generation: u32, population_size: usize, parents: &Vec<u32>) -> (r: Option<Vec<u32>>)
        ensures
            r is Some == (self@.contains_key(generation) && self@[generation].len() >= population_size),
            r is Some ==> r->Some_0@ == self@[generation] + parents@,
    {
        match self.generation_to_numbers.get(&generation) {
            None => None,
            Some(numbers) => {
                assert(self@[generation] == numbers@);
                if numbers.len() < population_size {
                    return None;
                }
                let mut r: Vec<u32> = Vec::new();
                let mut i: usize = 0;
                while i < numbers.len()
                    invariant
                        i <= numbers@.len(),
                        r@ == numbers@.take(i as int),
                    decreases numbers@.len() - i,
                {
                    r.push(numbers[i]);
                    assert(numbers@.take(i + 1) =~= numbers@.take(i as int).push(numbers@[i as int]));
                    i = i + 1;
                }
                let ghost head = r@;
                let mut j: usize = 0;
                while j < parents.len()
                    invariant
                        j <= parents@.len(),
                        r@ == head + parents@.take(j as int),
                    decreases parents@.len() - j,
                {
                    r.push(parents[j]);
                    assert(parents@.take(j + 1) =~= parents@.take(j as int).push(parents@[j as int]));
                    assert(r@ =~= head + parents@.take(j + 1));
                    j = j + 1;
                }
                proof {
                    assert(numbers@.take(numbers@.len() as int) =~= numbers@);
                    assert(parents@.take(parents@.len() as int) =~= parents@);
                }
                Some(r)
            }
        }
    }
}

/// Places in ascending order of the values, equal ones in input order.
pub open spec fn ascending_places(values: Seq<Float>, order: Seq<usize>) -> bool {
    &&& covers(order, 0, values.len() as int)
    &&& forall|a: int, b: int| 0 <= a < b < order.len() ==> {
        let u = values[#[trigger] order[a] as int].rank();
        let v = values[#[trigger] order[b] as int].rank();
        u < v || (u == v && order[a] < order[b])
    }
}

/// What a front looks like along one objective.
pub struct CrowdingAxis {
    /// The places of the front by ascending value.
    pub order: Vec<usize>,
    /// The value before each one in that order; negative infinity before the first.
    pub below: Vec<Float>,
    /// The value after each one in that order; infinity after the last.
    pub above: Vec<Float>,
    /// The lowest finite value.
    pub lowest: Float,
    /// The highest finite value.
    pub highest: Float,
}

impl CrowdingAxis {
    pub open spec fn of(self, values: Seq<Float>) -> bool {
        let n = values.len();
        let order = self.order@;
        &&& ascending_places(values, order)
        &&& self.below@.len() == n
        &&& self.above@.len() == n
        &&& forall|j: int| 0 <= j < n ==> #[trigger] self.below@[j] == if j == 0 {
            Float { bits: 0xfff0_0000_0000_0000 }
        } else {
            values[order[j - 1] as int]
        }
        &&& forall|j: int| 0 <= j < n ==> #[trigger] self.above@[j] == if j == n - 1 {
            Float { bits: 0x7ff0_0000_0000_0000 }
        } else {
            values[order[j + 1] as int]
        }
        &&& exists|a: int| 0 <= a < n && #[trigger] infinite_within(values, order, 0, a) && self.lowest == values[order[a] as int]
            && finite(self.lowest)
        &&& exists|a: int| 0 < a <= n && #[trigger] infinite_within(values, order, a, n as int) && self.highest == values[order[a - 1] as int]
            && finite(self.highest)
    }
}

/// The values at the places `lo..hi` of the order are not finite.
pub open spec fn infinite_within(values: Seq<Float>, order: Seq<usize>, lo: int, hi: int) -> bool {
    forall|b: int| lo <= b < hi ==> !finite(values[#[trigger] order[b] as int])
}

/// All values are the same number.
pub open spec fn all_equal(values: Seq<Float>) -> bool {
    forall|i: int, j: int| 0 <= i < values.len() && 0 <= j < values.len() ==> (#[trigger] values[i]).rank() == (#[trigger] values[j]).rank()
}

/// The front along one objective; nothing where all values are equal.
pub fn crowding_axis(values: &Vec<Float>) -> (r: Option<CrowdingAxis>)
    requires
        values@.len() > 0,
        clean(values@),
        all_equal(values@) || exists|i: int| 0 <= i < values@.len() && finite(#[trigger] values@[i]),
    ensures
        r is None == all_equal(values@),
        r is Some ==> r->Some_0.of(values@),
{
    let n: usize = values.len();
    let mut keys: Vec<i64> = Vec::new();
    let mut i: usize = 0;
    while i < n
        invariant
            i <= n,
            n == values@.len(),
            keys@.len() == i,
            forall|q: int| 0 <= q < i ==> #[trigger] keys@[q] == values@[q].rank(),
        decreases n - i,
    {
        keys.push(values[i].key());
        i = i + 1;
    }
    let order = positions_by_key(&keys);
    assert forall|a: int, b: int| 0 <= a < b < order@.len() implies {
        let u = values@[#[trigger] order@[a] as int].rank();
        let v = values@[#[trigger] order@[b] as int].rank();
        u < v || (u == v && order@[a] < order@[b])
    } by {}
    assert(ascending_places(values@, order@));
    if values[order[0]].key() == values[order[n - 1]].key() {
        assert forall|i: int, j: int| 0 <= i < values@.len() && 0 <= j < values@.len() implies (#[trigger] values@[i]).rank() == (
        #[trigger] values@[j]).rank() by {
            lemma_between_ends(values@, order@, i);
            lemma_between_ends(values@, order@, j);
        }
        return None;
    }
    let mut below: Vec<Float> = Vec::new();
    let mut above: Vec<Float> = Vec::new();
    let mut j: usize = 0;
    while j < n
        invariant
            j <= n,
            n == values@.len(),
            covers(order@, 0, n as int),
            below@.len() == j,
            above@.len() == j,
            forall|q: int| 0 <= q < j ==> #[trigger] below@[q] == if q == 0 {
                Float { bits: 0xfff0_0000_0000_0000 }
            } else {
                values@[order@[q - 1] as int]
            },
            forall|q: int| 0 <= q < j ==> #[trigger] above@[q] == if q == n - 1 {
                Float { bits: 0x7ff0_0000_0000_0000 }
            } else {
                values@[order@[q + 1] as int]
            },
        decreases n - j,
    {
        below.push(
            if j == 0 {
                Float { bits: 0xfff0_0000_0000_0000 }
            } else {
                values[order[j - 1]]
            },
        );
        above.push(
            if j == n - 1 {
                Float { bits: 0x7ff0_0000_0000_0000 }
            } else {
                values[order[j + 1]]
            },
        );
        j = j + 1;
    }
    assert(values@[order@[0] as int].rank() != values@[order@[n - 1] as int].rank());
    assert(!all_equal(values@));
    let ghost some = choose|i: int| 0 <= i < values@.len() && finite(#[trigger] values@[i]);
    assert(order@.contains(some as usize));
    let ghost place = choose|p: int| 0 <= p < order@.len() && order@[p] == some as usize;
    assert(finite(values@[order@[place] as int]));
    let mut a: usize = 0;
    while !values[order[a]].is_finite()
        invariant
            a <= place < n,
            n == values@.len(),
            covers(order@, 0, n as int),
            finite(values@[order@[place] as int]),
            infinite_within(values@, order@, 0, a as int),
        decreases n - a,
    {
        a = a + 1;
    }
    let mut z: usize = n - 1;
    while !values[order[z]].is_finite()
        invariant
            0 <= place <= z < n,
            n == values@.len(),
            covers(order@, 0, n as int),
            finite(values@[order@[place] as int]),
            infinite_within(values@, order@, z + 1, n as int),
        decreases z,
    {
        z = z - 1;
    }
    let lowest = values[order[a]];
    let highest = values[order[z]];
    proof {
        assert(values@[order@[0] as int].rank() != values@[order@[n - 1] as int].rank());
        let first = order@[0] as int;
        let last = order@[n - 1] as int;
        assert(values@[first].rank() != values@[last].rank());
    }
    let axis = CrowdingAxis { order, below, above, lowest, highest };
    proof {
        assert(ascending_places(values@, axis.order@));
        assert forall|q: int| 0 <= q < n implies #[trigger] axis.below@[q] == if q == 0 {
            Float { bits: 0xfff0_0000_0000_0000 }
        } else {
            values@[axis.order@[q - 1] as int]
        } by {}
        assert forall|q: int| 0 <= q < n implies #[trigger] axis.above@[q] == if q == n - 1 {
            Float { bits: 0x7ff0_0000_0000_0000 }
        } else {
            values@[axis.order@[q + 1] as int]
        } by {}
        assert(infinite_within(values@, axis.order@, 0, a as int));
        assert(infinite_within(values@, axis.order@, z + 1, n as int));
        assert(axis.highest == values@[axis.order@[z + 1 - 1] as int]);
        assert(axis.of(values@));
    }
    Some(axis)
}

proof fn lemma_between_ends(values: Seq<Float>, order: Seq<usize>, i: int)
    requires
        ascending_places(values, order),
        values.len() <= usize::MAX,
        0 <= i < values.len(),
    ensures
        values[order[0] as int].rank() <= values[i].rank() <= values[order[order.len() - 1] as int].rank(),
{
    assert(order.contains(i as usize));
    let p = choose|p: int| 0 <= p < order.len() && order[p] == i as usize;
    assert(order[0] < values.len() && order[order.len() - 1] < values.len() && order[p] < values.len());
}

/// The number of generations that parents are looked for in.
pub const MAX_GENERATIONS: u32 = 10;

/// The search for the parents of the next trial, generation by generation.
pub struct ParentSearch {
    /// The generation that is looked at next.
    pub next_generation: u32,
    /// The elite of the generation before it.
    pub parents: Vec<u32>,
}

impl ParentSearch {
    pub fn new() -> (r: ParentSearch)
        ensures
            r.next_generation == 0,
            r.parents@.len() == 0,
    {
        ParentSearch { next_generation: 0, parents: Vec::new() }
    }

    /// The population that the next elite is selected from; nothing where the search is
    /// over.
    pub fn next_population(&self, generations: &Generations, population_size: usize) -> (r: Option<Vec<u32>>)
        ensures
            r is Some == (self.next_generation < MAX_GENERATIONS && generations@.contains_key(self.next_generation)
                && generations@[self.next_generation].len() >= population_size),
            r is Some ==> r->Some_0@ == generations@[self.next_generation] + self.parents@,
    {
        if self.next_generation < MAX_GENERATIONS {
            generations.population(self.next_generation, population_size, &self.parents)
        } else {
            None
        }
    }

    /// Goes on with the selected elite.
    pub fn advance(&mut self, elite: Vec<u32>)
        requires
            old(self).next_generation < MAX_GENERATIONS,
        ensures
            final(self).next_generation == old(self).next_generation + 1,
            final(self).parents@ == elite@,
    {
        self.next_generation = self.next_generation + 1;
        self.parents = elite;
    }

    /// Whether there are parents, and the generation of the trial: the one after theirs.
    pub fn child_generation(&self) -> (r: (bool, u32))
        ensures
            r.0 == (self.next_generation > 0),
            r.1 == self.next_generation,
    {
        (self.next_generation > 0, self.next_generation)
    }
}

/// The values of the named parameters.
pub open spec fn restricted(params: Map<Seq<char>, Float>, space: Map<Seq<char>, Space>) -> Map<Seq<char>, Float> {
    Map::new(|name: Seq<char>| space.contains_key(name), |name: Seq<char>| params[name])
}

/// The parameters of a parent trial.
pub fn parent_params(trials: &Vec<Option<PersistedTrial>>, number: u32, space: &KeyMap<String, Distribution>) -> (r: Result<KeyMap<String, Float>>)
    requires
        number < trials@.len() && trials@[number as int] is Some ==> forall|name: Seq<char>|
            space@.contains_key(name) ==> #[trigger] trials@[number as int]->Some_0@.params.contains_key(name),
    ensures
        if number < trials@.len() && trials@[number as int] is Some {
            r is Ok && r->Ok_0@ == restricted(trials@[number as int]->Some_0@.params, space@)
        } else {
            fails(r, ErrorKind::TrialDiscarded)
        },
{
    if number as usize >= trials.len() {
        return Err(Error::new(ErrorKind::TrialDiscarded));
    }
    match &trials[number as usize] {
        None => Err(Error::new(ErrorKind::TrialDiscarded)),
        Some(trial) => {
            let n: usize = space.len();
            let ghost keys = space.keys();
            let mut params: KeyMap<String, Float> = KeyMap::new();
            let mut i: usize = 0;
            while i < n
                invariant
                    i <= n,
                    keys == space.keys(),
                    n == keys.len(),
                    keys.to_set() == space@.dom(),
                    forall|name: Seq<char>| space@.contains_key(name) ==> #[trigger] trial@.params.contains_key(name),
                    forall|name: Seq<char>| #[trigger] params@.contains_key(name) ==> space@.contains_key(name)
                        && params@[name] == trial@.params[name],
                    forall|j: int| 0 <= j < i ==> params@.contains_key(#[trigger] keys[j]),
                decreases n - i,
            {
                let e = space.entry(i);
                match trial.internal_params.get(e.0) {
                    Some(v) => {
                        params.insert(e.0.duplicate(), *v);
                    }
                    None => {
                        assert(trial@.params.contains_key(keys[i as int]));
                    }
                }
                i = i + 1;
            }
            proof {
                let goal = restricted(trial@.params, space@);
                assert forall|name: Seq<char>| goal.contains_key(name) implies params@.contains_key(name) by {
                    assert(keys.to_set().contains(name));
                    let j = choose|j: int| 0 <= j < keys.len() && keys[j] == name;
                    assert(params@.contains_key(keys[j]));
                }
                assert(params@ =~= goal);
            }
            Ok(params)
        }
    }
}

/// The child of two parents: each parameter of the search space comes from the second
/// parent where it is swapped, else from the first.
pub open spec fn child_of(
    first: Map<Seq<char>, Float>,
    second: Map<Seq<char>, Float>,
    names: Seq<Seq<char>>,
    swapped: Seq<bool>,
    n: nat,
) -> Map<Seq<char>, Float>
    decreases n,
{
    if n == 0 {
        Map::empty()
    } else {
        let name = names[n - 1];
        child_of(first, second, names, swapped, (n - 1) as nat).insert(
            name,
            if swapped[n - 1] {
                second[name]
            } else {
                first[name]
            },
        )
    }
}

/// Crosses two parents over, with one toss for each parameter in the order of the search
/// space.
pub fn crossover(parent0: &KeyMap<String, Float>, parent1: &KeyMap<String, Float>, space: &KeyMap<String, Distribution>, swapped: &Vec<bool>) -> (r: KeyMap<String, Float>)
    requires
        swapped@.len() == space.keys().len(),
        forall|name: Seq<char>| space@.contains_key(name) ==> #[trigger] parent0@.contains_key(name),
        forall|name: Seq<char>| space@.contains_key(name) ==> #[trigger] parent1@.contains_key(name),
    ensures
        r@ == child_of(parent0@, parent1@, space.keys(), swapped@, space.keys().len()),
{
    let n: usize = space.len();
    let ghost keys = space.keys();
    let mut child: KeyMap<String, Float> = KeyMap::new();
    let mut i: usize = 0;
    while i < n
        invariant
            i <= n,
            keys == space.keys(),
            n == keys.len(),
            keys.to_set() == space@.dom(),
            swapped@.len() == n,
            forall|name: Seq<char>| space@.contains_key(name) ==> #[trigger] parent0@.contains_key(name),
            forall|name: Seq<char>| space@.contains_key(name) ==> #[trigger] parent1@.contains_key(name),
            child@ == child_of(parent0@, parent1@, keys, swapped@, i as nat),
        decreases n - i,
    {
        let e = space.entry(i);
        assert(parent0@.contains_key(keys[i as int]) && parent1@.contains_key(keys[i as int]));
        let value = if swapped[i] {
            parent1.get(e.0)
        } else {
            parent0.get(e.0)
        };
        match value {
            Some(v) => {
                child.insert(e.0.duplicate(), *v);
            }
            None => {}
        }
        i = i + 1;
    }
    child
}

/// What is left of a child without the parameters that mutate.
pub open spec fn kept_params(child: Map<Seq<char>, Float>, names: Seq<Seq<char>>, mutated: Seq<bool>, n: nat) -> Map<Seq<char>, Float>
    decreases n,
{
    if n == 0 {
        Map::empty()
    } else {
        let head = kept_params(child, names, mutated, (n - 1) as nat);
        if mutated[n - 1] {
            head
        } else {
            head.insert(names[n - 1], child[names[n - 1]])
        }
    }
}

/// Drops the parameters that mutate, with one toss for each parameter in the order of the
/// search space; they are sampled anew.
pub fn mutate(child: &KeyMap<String, Float>, space: &KeyMap<String, Distribution>, mutated: &Vec<bool>) -> (r: KeyMap<String, Float>)
    requires
        mutated@.len() == space.keys().len(),
        forall|name: Seq<char>| space@.contains_key(name) ==> #[trigger] child@.contains_key(name),
    ensures
        r@ == kept_params(child@, space.keys(), mutated@, space.keys().len()),
{
    let n: usize = space.len();
    let ghost keys = space.keys();
    let mut r: KeyMap<String, Float> = KeyMap::new();
    let mut i: usize = 0;
    while i < n
        invariant
            i <= n,
            keys == space.keys(),
            n == keys.len(),
            keys.to_set() == space@.dom(),
            mutated@.len() == n,
            forall|name: Seq<char>| space@.contains_key(name) ==> #[trigger] child@.contains_key(name),
            r@ == kept_params(child@, keys, mutated@, i as nat),
        decreases n - i,
    {
        let e = space.entry(i);
        assert(child@.contains_key(keys[i as int]));
        if !mutated[i] {
            match child.get(e.0) {
                Some(v) => {
                    r.insert(e.0.duplicate(), *v);
                }
                None => {}
            }
        }
        i = i + 1;
    }
    r
}

/// Of two feasible complete members one beats the other exactly where it is at least as good in
/// every objective, as the objective's direction counts, and better in one: larger values are
/// better under `Maximize`, smaller ones under `Minimize`.
pub proof fn law_feasible_members_go_by_their_objectives(a: Member, b: Member, directions: Seq<Direction>)
    requires
        a.values is Some,
        b.values is Some,
        a.feasible,
        b.feasible,
        a.wf(directions),
        b.wf(directions),
    ensures
        beats(a, b, directions) <==> {
            let u = a.values->Some_0@;
            let v = b.values->Some_0@;
            &&& forall|k: int|
                0 <= k < directions.len() ==> match #[trigger] directions[k] {
                    Direction::Minimize => !v[k].below(u[k]),
                    Direction::Maximize => !u[k].below(v[k]),
                }
            &&& exists|k: int|
                0 <= k < directions.len() && match #[trigger] directions[k] {
                    Direction::Minimize => u[k].below(v[k]),
                    Direction::Maximize => v[k].below(u[k]),
                }
        },
{
    let u = a.values->Some_0@;
    let v = b.values->Some_0@;
    law_dominance_of_losses(u, v, directions);
}

/// A complete member beats an incomplete one; of two complete ones, a feasible one beats an
/// infeasible one, and of two infeasible ones the one with the smaller violation wins. Nothing
/// else beats a member that is not feasible.
pub proof fn law_other_members_go_by_violation(a: Member, b: Member, directions: Seq<Direction>)
    ensures
        a.values is None ==> !beats(a, b, directions),
        a.values is Some && b.values is None ==> beats(a, b, directions),
        a.values is Some && b.values is Some && a.feasible && !b.feasible ==> beats(a, b, directions) && !beats(b, a, directions),
        a.values is Some && b.values is Some && !a.feasible && !b.feasible ==> beats(a, b, directions) == a.violation.below(b.violation),
{
}

proof fn lemma_swept_all(rest: Seq<usize>, i: int, flags: Seq<bool>, x: usize)
    requires
        0 <= i,
        rest.contains(x),
    ensures
        swept(rest, i, flags).0.contains(x) || swept(rest, i, flags).1.contains(x),
    decreases rest.len() - i,
{
    let all = swept(rest, i, flags);
    if i < rest.len() {
        if flags[rest[i] as int] {
            let k = choose|k: int| 0 <= k < rest.len() && rest[k] == x;
            let next = rest.update(i, rest.last()).drop_last();
            let after = swept(next, i, flags);
            if k == i {
                assert(all.0[0] == x);
            } else {
                if k == rest.len() - 1 {
                    assert(next[i] == x);
                } else {
                    assert(next[k] == x);
                }
                lemma_swept_all(next, i, flags, x);
                if after.0.contains(x) {
                    let m = choose|m: int| 0 <= m < after.0.len() && after.0[m] == x;
                    assert(all.0[m + 1] == x);
                }
            }
        } else {
            lemma_swept_all(rest, i + 1, flags, x);
        }
    }
}

/// Every member is in one of the fronts.
pub proof fn law_fronts_hold_every_member(members: Seq<Member>, directions: Seq<Direction>, rest: Seq<usize>, x: usize) -> (at: (int, int))
    requires
        forall|k: int| 0 <= k < rest.len() ==> #[trigger] rest[k] < members.len(),
        rest.contains(x),
    ensures
        0 <= at.0 < fronts(members, directions, rest).len(),
        0 <= at.1 < fronts(members, directions, rest)[at.0].len(),
        fronts(members, directions, rest)[at.0][at.1] == x,
    decreases rest.len(),
{
    let flags = free_flags(members, directions, rest);
    let after = swept(rest, 0, flags);
    lemma_swept(rest, 0, flags);
    lemma_swept_all(rest, 0, flags, x);
    let k = lemma_some_free(members, directions, rest, rest.len());
    assert(rest[k] < members.len());
    assert(is_free(members, directions, rest, rest[k] as int));
    assert(flags[rest[k] as int]);
    let all = fronts(members, directions, rest);
    let tail = fronts(members, directions, after.1);
    assert(all == seq![after.0] + tail);
    if after.0.contains(x) {
        let p = choose|p: int| 0 <= p < after.0.len() && after.0[p] == x;
        assert(all[0][p] == x);
        (0, p)
    } else {
        assert forall|k: int| 0 <= k < after.1.len() implies #[trigger] after.1[k] < members.len() by {
            let j = choose|j: int| 0 <= j < rest.len() && rest[j] == after.1[k];
            assert(rest[j] < members.len());
        }
        let at = law_fronts_hold_every_member(members, directions, after.1, x);
        assert(all[at.0 + 1] == tail[at.0]);
        (at.0 + 1, at.1)
    }
}

proof fn lemma_swept_leaves_unflagged(rest: Seq<usize>, i: int, flags: Seq<bool>, k: int)
    requires
        0 <= i,
        forall|j: int| 0 <= j < i && j < rest.len() ==> !flags[#[trigger] rest[j] as int],
        0 <= k < swept(rest, i, flags).1.len(),
    ensures
        !flags[swept(rest, i, flags).1[k] as int],
    decreases rest.len() - i,
{
    if i < rest.len() {
        if flags[rest[i] as int] {
            lemma_swept_leaves_unflagged(rest.update(i, rest.last()).drop_last(), i, flags, k);
        } else {
            lemma_swept_leaves_unflagged(rest, i + 1, flags, k);
        }
    }
}

/// A member of a later front is beaten by a member of the front before.
pub proof fn law_later_fronts_are_beaten(members: Seq<Member>, directions: Seq<Direction>, rest: Seq<usize>, b: int, q: int) -> (p: int)
    requires
        forall|k: int| 0 <= k < rest.len() ==> #[trigger] rest[k] < members.len(),
        0 < b < fronts(members, directions, rest).len(),
        0 <= q < fronts(members, directions, rest)[b].len(),
    ensures
        0 <= p < fronts(members, directions, rest)[b - 1].len(),
        beats(
            members[fronts(members, directions, rest)[b - 1][p] as int],
            members[fronts(members, directions, rest)[b][q] as int],
            directions,
        ),
    decreases rest.len(),
{
    let flags = free_flags(members, directions, rest);
    let after = swept(rest, 0, flags);
    lemma_swept(rest, 0, flags);
    let all = fronts(members, directions, rest);
    let tail = fronts(members, directions, after.1);
    assert(all == seq![after.0] + tail);
    assert forall|k: int| 0 <= k < after.1.len() implies #[trigger] after.1[k] < members.len() by {
        let j = choose|j: int| 0 <= j < rest.len() && rest[j] == after.1[k];
        assert(rest[j] < members.len());
    }
    if b > 1 {
        law_later_fronts_are_beaten(members, directions, after.1, b - 1, q)
    } else {
        let y = all[1][q];
        assert(tail[0][q] == y);
        lemma_front_members(members, directions, after.1, 0, q);
        let k = choose|k: int| 0 <= k < after.1.len() && after.1[k] == y;
        lemma_swept_leaves_unflagged(rest, 0, flags, k);
        assert(y < members.len());
        assert(!is_free(members, directions, rest, y as int));
        let j = choose|j: int| 0 <= j < rest.len() && beats(members[#[trigger] rest[j] as int], members[y as int], directions);
        let at = law_fronts_hold_every_member(members, directions, rest, rest[j]);
        if at.0 > 0 {
            law_fronts_respect_dominance(members, directions, rest, 1, at.0, q, at.1);
        }
        at.1
    }
}

/// The fronts are joined in order: each one follows those before it.
pub proof fn law_fronts_are_joined_in_order(ranks: Seq<Vec<usize>>, i: nat, k: nat)
    requires
        i < k <= ranks.len(),
    ensures
        joined_fronts(ranks, 0).len() == 0,
        joined_fronts(ranks, i + 1).len() == joined_fronts(ranks, i).len() + ranks[i as int]@.len(),
        joined_fronts(ranks, i + 1).len() <= joined_fronts(ranks, k).len(),
        joined_fronts(ranks, k).subrange(joined_fronts(ranks, i).len() as int, joined_fronts(ranks, i + 1).len() as int) == ranks[i as int]@,
    decreases k,
{
    let all = joined_fronts(ranks, k);
    let lo = joined_fronts(ranks, i).len() as int;
    let hi = joined_fronts(ranks, i + 1).len() as int;
    if k > i + 1 {
        law_fronts_are_joined_in_order(ranks, i, (k - 1) as nat);
        assert(all.subrange(lo, hi) =~= joined_fronts(ranks, (k - 1) as nat).subrange(lo, hi));
    } else {
        assert(all.subrange(lo, hi) =~= ranks[i as int]@);
    }
}

/// By distance, a place comes before every less distant one.
pub proof fn law_distant_places_come_first(distances: Seq<Float>, order: Seq<usize>, a: int, b: int)
    requires
        by_distance(distances, order),
        clean(distances),
        0 <= a < b < order.len(),
    ensures
        order.len() == distances.len(),
        !distances[order[a] as int].below(distances[order[b] as int]),
        !distances[order[b] as int].below(distances[order[a] as int]) ==> order[a] < order[b],
{
    assert(order[a] < distances.len() && order[b] < distances.len());
    assert(!distances[order[a] as int].nan() && !distances[order[b] as int].nan());
}

/// Ascending places go from the smallest value to the largest.
pub proof fn law_ascending_places_ascend(values: Seq<Float>, order: Seq<usize>, a: int, b: int)
    requires
        ascending_places(values, order),
        0 <= a < b < order.len(),
    ensures
        order.len() == values.len(),
        !values[order[b] as int].below(values[order[a] as int]),
{
}

/// A generation holds the numbers of the complete trials that are marked with it, in order.
pub proof fn law_generations_hold_their_trials(trials: Seq<Option<TrialRecord>>, n: nat, g: u32, in_g: spec_fn(int) -> bool)
    requires
        n <= trials.len(),
        forall|i: int|
            0 <= i < n ==> #[trigger] in_g(i) == (trials[i] is Some && trials[i]->Some_0.outcome is Complete && generation_of(trials[i]->Some_0)
                == Some(g)),
    ensures
        generations_of(trials, n).contains_key(g) <==> picks(n, in_g).len() > 0,
        generations_of(trials, n).contains_key(g) ==> generations_of(trials, n)[g] == Seq::new(
            picks(n, in_g).len(),
            |k: int| trials[picks(n, in_g)[k]]->Some_0.number,
        ),
    decreases n,
{
    if n > 0 {
        law_generations_hold_their_trials(trials, (n - 1) as nat, g, in_g);
        let before = generations_of(trials, (n - 1) as nat);
        let after = generations_of(trials, n);
        let at = picks(n, in_g);
        let was = picks((n - 1) as nat, in_g);
        assert(in_g(n - 1) == (trials[n - 1] is Some && trials[n - 1]->Some_0.outcome is Complete && generation_of(trials[n - 1]->Some_0)
            == Some(g)));
        if in_g(n - 1) {
            assert(at == was.push(n - 1));
            assert(after[g] =~= Seq::new(at.len(), |k: int| trials[at[k]]->Some_0.number));
        }
    }
}

/// A trial whose system attribute `generation` holds the digits of a number is of that
/// generation; without the attribute it is of none.
pub proof fn law_generation_is_read_from_the_attribute(trial: TrialRecord, g: u32)
    ensures
        !trial.attrs.contains_key(AttrName::System("generation"@)) ==> generation_of(trial) is None,
        trial.attrs.contains_key(AttrName::System("generation"@)) && trial.attrs[AttrName::System("generation"@)] == decimal(g as nat)
            ==> generation_of(trial) == Some(g),
{
    crate::text::lemma_decimal(g as nat);
    assert(decimal(g as nat)[0] != '+');
}

/// A child has exactly the parameters of the search space, each from the second parent where it
/// is swapped and from the first where it is not.
pub proof fn law_children_inherit_every_parameter(
    first: Map<Seq<char>, Float>,
    second: Map<Seq<char>, Float>,
    names: Seq<Seq<char>>,
    swapped: Seq<bool>,
    n: nat,
    i: int,
    name: Seq<char>,
)
    requires
        n <= names.len(),
        names.no_duplicates(),
        0 <= i < n,
    ensures
        child_of(first, second, names, swapped, n).contains_key(names[i]),
        swapped[i] ==> child_of(first, second, names, swapped, n)[names[i]] == second[names[i]],
        !swapped[i] ==> child_of(first, second, names, swapped, n)[names[i]] == first[names[i]],
        child_of(first, second, names, swapped, n).contains_key(name) ==> names.contains(name),
    decreases n,
{
    if i < n - 1 {
        law_children_inherit_every_parameter(first, second, names, swapped, (n - 1) as nat, i, name);
        assert(names[i] != names[n - 1]);
    } else if n > 1 {
        law_children_inherit_every_parameter(first, second, names, swapped, (n - 1) as nat, 0, name);
    }
    assert(names.contains(names[n - 1]));
    if n == 1 {
        assert(child_of(first, second, names, swapped, 0) =~= Map::empty());
    }
}

/// What is left of a child are its parameters that do not mutate, with their values.
pub proof fn law_mutation_drops_parameters(
    child: Map<Seq<char>, Float>,
    names: Seq<Seq<char>>,
    mutated: Seq<bool>,
    n: nat,
    i: int,
    name: Seq<char>,
)
    requires
        n <= names.len(),
        names.no_duplicates(),
        0 <= i < n,
    ensures
        kept_params(child, names, mutated, n).contains_key(names[i]) == !mutated[i],
        !mutated[i] ==> kept_params(child, names, mutated, n)[names[i]] == child[names[i]],
        kept_params(child, names, mutated, n).contains_key(name) ==> names.take(n as int).contains(name),
    decreases n,
{
    let head = kept_params(child, names, mutated, (n - 1) as nat);
    let last = names[n - 1];
    assert(names.take(n as int)[n - 1] == last);
    if n > 1 {
        let j = if i < n - 1 {
            i
        } else {
            0
        };
        law_mutation_drops_parameters(child, names, mutated, (n - 1) as nat, j, name);
        law_mutation_drops_parameters(child, names, mutated, (n - 1) as nat, j, last);
        let before = names.take(n - 1);
        if head.contains_key(last) {
            let k = choose|k: int| 0 <= k < before.len() && before[k] == last;
            assert(names[k] == names[n - 1]);
        }
        if before.contains(name) {
            let k = choose|k: int| 0 <= k < before.len() && before[k] == name;
            assert(names.take(n as int)[k] == name);
        }
        if i < n - 1 {
            assert(names[i] != last);
        }
    }
}

/// The parameters of a parent are those of the search space, with the parent's values.
pub proof fn law_parents_keep_their_values(params: Map<Seq<char>, Float>, space: Map<Seq<char>, Space>, name: Seq<char>)
    ensures
        restricted(params, space).contains_key(name) == space.contains_key(name),
        space.contains_key(name) ==> restricted(params, space)[name] == params[name],
{
}

/// Along an objective, every value stands between its neighbours; the first has negative infinity
/// below it and the last positive infinity above it. The lowest and the highest are the smallest
/// and the largest of the finite values.
pub proof fn law_neighbours_enclose_their_value(axis: CrowdingAxis, values: Seq<Float>, j: int, i: int)
    requires
        axis.of(values),
        clean(values),
        0 <= j < values.len(),
        0 <= i < values.len() <= usize::MAX,
    ensures
        !values[axis.order@[j] as int].below(axis.below@[j]),
        !axis.above@[j].below(values[axis.order@[j] as int]),
        axis.below@[0].bits == 0xfff0_0000_0000_0000,
        axis.above@[values.len() - 1].bits == 0x7ff0_0000_0000_0000,
        j > 0 ==> axis.below@[j] == values[axis.order@[j - 1] as int],
        j < values.len() - 1 ==> axis.above@[j] == values[axis.order@[j + 1] as int],
        finite(values[i]) ==> !values[i].below(axis.lowest) && !axis.highest.below(values[i]),
        values.contains(axis.lowest),
        values.contains(axis.highest),
{
    let order = axis.order@;
    let n = values.len() as int;
    assert(order[j] < n);
    assert(!values[order[j] as int].nan());
    if j > 0 {
        law_ascending_places_ascend(values, order, j - 1, j);
    }
    if j < n - 1 {
        law_ascending_places_ascend(values, order, j, j + 1);
    }
    let a = choose|a: int| 0 <= a < n && #[trigger] infinite_within(values, order, 0, a) && axis.lowest == values[order[a] as int] && finite(axis.lowest);
    let b = choose|b: int| 0 < b <= n && #[trigger] infinite_within(values, order, b, n) && axis.highest == values[order[b - 1] as int] && finite(
        axis.highest,
    );
    assert(order[a] < n && order[b - 1] < n);
    assert(values[order[a] as int] == axis.lowest);
    assert(values[order[b - 1] as int] == axis.highest);
    assert(order.contains(i as usize));
    let p = choose|p: int| 0 <= p < order.len() && order[p] == i as usize;
    if finite(values[i]) {
        assert(values[order[p] as int] == values[i]);
        assert(!(0 <= p < a)) by {
            if 0 <= p < a {
                assert(!finite(values[order[p] as int]));
            }
        }
        assert(!(b <= p < n)) by {
            if b <= p < n {
                assert(!finite(values[order[p] as int]));
            }
        }
        if a < p {
            law_ascending_places_ascend(values, order, a, p);
        }
        if p < b - 1 {
            law_ascending_places_ascend(values, order, p, b - 1);
        }
    }
}

/// All values are equal where none is below another.
pub proof fn law_equal_values_are_not_below_each_other(values: Seq<Float>)
    requires
        clean(values),
    ensures
        all_equal(values) <==> forall|i: int, j: int|
            0 <= i < values.len() && 0 <= j < values.len() ==> !(#[trigger] values[i]).below(#[trigger] values[j]),
{
    if forall|i: int, j: int| 0 <= i < values.len() && 0 <= j < values.len() ==> !(#[trigger] values[i]).below(#[trigger] values[j]) {
        assert forall|i: int, j: int| 0 <= i < values.len() && 0 <= j < values.len() implies (#[trigger] values[i]).rank() == (#[trigger]
        values[j]).rank() by {
            assert(!values[i].below(values[j]));
            assert(!values[j].below(values[i]));
            assert(!values[i].nan() && !values[j].nan());
        }
    }
}

} // verus!
