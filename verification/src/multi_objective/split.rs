//! Splitting observations into a promising and a non-promising part.
//!
//! Which of the finite rows of the boundary front join the promising part is a
//! hypervolume question. A split is therefore made in two steps: a plan that names the
//! candidates and how many of them to select, and its completion with the selection.

use vstd::prelude::*;

use crate::float::Float;
use crate::multi_objective::nds::{
    agree_below, clean, dominates, fast_non_dominated_sort_partial, is_cutoff, law_dominance_compares_every_objective,
    law_dominated_rows_rank_later, law_ranks_respect_dominance, law_ranks_stay_below_the_cutoff, left_over, lemma_left_over_finite, nan_rows_last, non_domination_ranks, ranked_up_to, reaches,
};
use crate::order::{covers, positions_by_key};
use crate::study::Direction;
use crate::tpe::{feasible, is_feasible};
use crate::trial::{PersistedTrial, TrialStateValues};

verus! {

/// The numbers below `n` that `keep` holds of, in ascending order.
pub open spec fn picks(n: nat, keep: spec_fn(int) -> bool) -> Seq<int>
    decreases n,
{
    if n == 0 {
        Seq::empty()
    } else if keep(n - 1) {
        picks((n - 1) as nat, keep).push(n - 1)
    } else {
        picks((n - 1) as nat, keep)
    }
}

pub open spec fn ints(s: Seq<usize>) -> Seq<int> {
    s.map_values(|x: usize| x as int)
}

pub(crate) proof fn lemma_ints(s: Seq<usize>)
    ensures
        ints(s).len() == s.len(),
        s.no_duplicates() == ints(s).no_duplicates(),
        forall|x: usize| s.contains(x) == #[trigger] ints(s).contains(x as int),
        forall|k: int| 0 <= k <= s.len() ==> ints(#[trigger] s.take(k)) == ints(s).take(k),
{
    assert forall|x: usize| s.contains(x) == #[trigger] ints(s).contains(x as int) by {
        if s.contains(x) {
            let k = choose|k: int| 0 <= k < s.len() && s[k] == x;
            assert(ints(s)[k] == x as int);
        }
        if ints(s).contains(x as int) {
            let k = choose|k: int| 0 <= k < s.len() && ints(s)[k] == x as int;
            assert(s[k] == x);
        }
    }
    if ints(s).no_duplicates() {
        assert forall|a: int, b: int| 0 <= a < s.len() && 0 <= b < s.len() && a != b implies s[a] != s[b] by {
            assert(ints(s)[a] != ints(s)[b]);
        }
    }
    assert forall|k: int| 0 <= k <= s.len() implies ints(#[trigger] s.take(k)) == ints(s).take(k) by {
        assert(ints(s.take(k)) =~= ints(s).take(k));
    }
}

/// The entries of `table` at the given positions.
pub open spec fn gathered(table: Seq<usize>, at: Seq<usize>) -> Seq<usize> {
    Seq::new(at.len(), |k: int| table[at[k] as int])
}

pub proof fn lemma_picks(n: nat, keep: spec_fn(int) -> bool)
    ensures
        picks(n, keep).len() <= n,
        picks(n, keep).no_duplicates(),
        forall|k: int| 0 <= k < picks(n, keep).len() ==> 0 <= #[trigger] picks(n, keep)[k] < n && keep(picks(n, keep)[k]),
        forall|i: int| 0 <= i < n && keep(i) ==> #[trigger] picks(n, keep).contains(i),
    decreases n,
{
    if n > 0 {
        let rest = picks((n - 1) as nat, keep);
        lemma_picks((n - 1) as nat, keep);
        let all = picks(n, keep);
        assert forall|i: int| 0 <= i < n && keep(i) implies #[trigger] all.contains(i) by {
            if i < n - 1 {
                assert(rest.contains(i));
                let k = choose|k: int| 0 <= k < rest.len() && rest[k] == i;
                assert(all[k] == i);
            } else {
                assert(all[rest.len() as int] == i);
            }
        }
    }
}

/// Picks come in ascending order.
pub(crate) proof fn lemma_picks_ascend(n: nat, keep: spec_fn(int) -> bool)
    ensures
        forall|a: int, b: int| 0 <= a < b < picks(n, keep).len() ==> #[trigger] picks(n, keep)[a] < #[trigger] picks(n, keep)[b],
    decreases n,
{
    if n > 0 {
        lemma_picks_ascend((n - 1) as nat, keep);
        lemma_picks((n - 1) as nat, keep);
    }
}

pub(crate) proof fn lemma_picks_part(n: nat, f: spec_fn(int) -> bool, g: spec_fn(int) -> bool, h: spec_fn(int) -> bool)
    requires
        forall|i: int| 0 <= i < n ==> #[trigger] f(i) == (g(i) || h(i)),
        forall|i: int| 0 <= i < n ==> !(#[trigger] g(i) && h(i)),
    ensures
        picks(n, f).len() == picks(n, g).len() + picks(n, h).len(),
    decreases n,
{
    if n > 0 {
        lemma_picks_part((n - 1) as nat, f, g, h);
        assert(f(n - 1) == (g(n - 1) || h(n - 1)));
        assert(!(g(n - 1) && h(n - 1)));
    }
}

pub open spec fn of_rank(ranks: Seq<usize>, r: int) -> spec_fn(int) -> bool {
    |i: int| ranks[i] == r
}

/// The positions of rank below `b`: front by front, each front in ascending order.
pub open spec fn whole_fronts(ranks: Seq<usize>, b: nat) -> Seq<int>
    decreases b,
{
    if b == 0 {
        Seq::empty()
    } else {
        whole_fronts(ranks, (b - 1) as nat) + picks(ranks.len(), of_rank(ranks, b - 1))
    }
}

proof fn lemma_whole_fronts(ranks: Seq<usize>, b: nat)
    ensures
        whole_fronts(ranks, b).no_duplicates(),
        forall|k: int| 0 <= k < whole_fronts(ranks, b).len() ==> 0 <= #[trigger] whole_fronts(ranks, b)[k] < ranks.len()
            && ranks[whole_fronts(ranks, b)[k]] < b,
        forall|i: int| 0 <= i < ranks.len() && ranks[i] < b ==> #[trigger] whole_fronts(ranks, b).contains(i),
    decreases b,
{
    if b > 0 {
        let f = of_rank(ranks, b - 1);
        let head = whole_fronts(ranks, (b - 1) as nat);
        let tail = picks(ranks.len(), f);
        let all = whole_fronts(ranks, b);
        lemma_whole_fronts(ranks, (b - 1) as nat);
        lemma_picks(ranks.len(), f);
        assert(all == head + tail);
        assert forall|k: int| 0 <= k < all.len() implies 0 <= #[trigger] all[k] < ranks.len() && ranks[all[k]] < b by {
            if k < head.len() {
                assert(all[k] == head[k]);
            } else {
                assert(all[k] == tail[k - head.len()]);
                assert(f(tail[k - head.len()]));
            }
        }
        assert forall|k: int, l: int| 0 <= k < l < all.len() implies all[k] != all[l] by {
            if l < head.len() {
            } else if k >= head.len() {
                assert(tail[k - head.len()] != tail[l - head.len()]);
            } else {
                assert(ranks[head[k]] < b - 1);
                assert(f(tail[l - head.len()]));
            }
        }
        assert forall|i: int| 0 <= i < ranks.len() && ranks[i] < b implies #[trigger] all.contains(i) by {
            if ranks[i] < b - 1 {
                assert(head.contains(i));
                let k = choose|k: int| 0 <= k < head.len() && head[k] == i;
                assert(all[k] == i);
            } else {
                assert(f(i));
                assert(tail.contains(i));
                let k = choose|k: int| 0 <= k < tail.len() && tail[k] == i;
                assert(all[head.len() + k] == i);
            }
        }
    }
}

/// Fronts that hold every position hold as many positions as there are.
proof fn lemma_whole_fronts_full(ranks: Seq<usize>, b: nat)
    requires
        forall|i: int| 0 <= i < ranks.len() ==> #[trigger] ranks[i] < b,
    ensures
        whole_fronts(ranks, b).len() >= ranks.len(),
{
    let all = whole_fronts(ranks, b);
    lemma_whole_fronts(ranks, b);
    all.unique_seq_to_set();
    let range = vstd::set_lib::set_int_range(0, ranks.len() as int);
    vstd::set_lib::lemma_int_range(0, ranks.len() as int);
    assert forall|i: int| range.contains(i) implies all.to_set().contains(i) by {
        assert(ranks[i] < b);
        assert(all.contains(i));
    }
    vstd::set_lib::lemma_len_subset(range, all.to_set());
}

pub open spec fn pos_inf(v: Float) -> bool {
    v.rank() == 0x7ff0_0000_0000_0000
}

pub open spec fn neg_inf(v: Float) -> bool {
    v.rank() == -0x7ff0_0000_0000_0000
}

pub open spec fn has_neg_inf(row: Seq<Float>) -> bool {
    exists|k: int| 0 <= k < row.len() && neg_inf(#[trigger] row[k])
}

pub open spec fn has_pos_inf(row: Seq<Float>) -> bool {
    exists|k: int| 0 <= k < row.len() && pos_inf(#[trigger] row[k])
}

/// The value as a loss: negated where larger is better.
pub open spec fn loss_of(value: Float, direction: Direction) -> Float {
    match direction {
        Direction::Minimize => value,
        Direction::Maximize => value.negated(),
    }
}

/// The observed values as losses, one for each direction.
pub open spec fn loss_row(values: Seq<Float>, directions: Seq<Direction>) -> Seq<Float> {
    Seq::new(directions.len(), |k: int| loss_of(values[k], directions[k]))
}

/// The worst number that the rows hold at position `d`; NaN does not count.
pub open spec fn is_worst(rows: Seq<Vec<Float>>, d: int, w: Float) -> bool {
    &&& exists|j: int| 0 <= j < rows.len() && (#[trigger] rows[j])@[d] == w
    &&& !w.nan()
    &&& forall|j: int| 0 <= j < rows.len() ==> (#[trigger] rows[j])@[d].nan() || rows[j]@[d].rank() <= w.rank()
}

pub open spec fn neg_on(losses: Seq<Vec<Float>>, ranks: Seq<usize>, boundary: usize) -> spec_fn(int) -> bool {
    |i: int| ranks[i] == boundary && has_neg_inf(losses[i]@)
}

pub open spec fn finite_on(losses: Seq<Vec<Float>>, ranks: Seq<usize>, boundary: usize) -> spec_fn(int) -> bool {
    |i: int| ranks[i] == boundary && !has_neg_inf(losses[i]@) && !has_pos_inf(losses[i]@)
}

pub open spec fn pos_on(losses: Seq<Vec<Float>>, ranks: Seq<usize>, boundary: usize) -> spec_fn(int) -> bool {
    |i: int| ranks[i] == boundary && !has_neg_inf(losses[i]@) && has_pos_inf(losses[i]@)
}

/// Positions on the boundary front whose row holds a negative infinity.
pub open spec fn front_neg(losses: Seq<Vec<Float>>, ranks: Seq<usize>, boundary: usize) -> Seq<int> {
    picks(ranks.len(), neg_on(losses, ranks, boundary))
}

/// Positions on the boundary front whose row holds no infinity.
pub open spec fn front_finite(losses: Seq<Vec<Float>>, ranks: Seq<usize>, boundary: usize) -> Seq<int> {
    picks(ranks.len(), finite_on(losses, ranks, boundary))
}

/// Positions on the boundary front whose row holds a positive infinity only.
pub open spec fn front_pos(losses: Seq<Vec<Float>>, ranks: Seq<usize>, boundary: usize) -> Seq<int> {
    picks(ranks.len(), pos_on(losses, ranks, boundary))
}

pub open spec fn least(a: int, b: int) -> int {
    if a <= b {
        a
    } else {
        b
    }
}

/// A split of feasible observations that awaits a selection among its candidates. All
/// positions are positions in `feasible_indices`.
pub struct FeasibleSplit {
    pub feasible_indices: Vec<usize>,
    /// The observations as losses.
    pub losses: Vec<Vec<Float>>,
    /// The non-domination ranks of the losses.
    pub ranks: Vec<usize>,
    /// The front that is taken in part.
    pub boundary: usize,
    /// What is promising whatever is selected.
    pub settled: Vec<usize>,
    /// What the selection chooses from.
    pub candidates: Vec<usize>,
    /// The losses of the candidates.
    pub candidate_losses: Vec<Vec<Float>>,
    /// The worst loss of the candidates in each objective.
    pub worst_point: Vec<Float>,
    /// How many of the candidates are to be selected.
    pub take: usize,
    /// What is promising after the selection.
    pub padding: Vec<usize>,
}

/// `selected` is a selection that the split can be completed with.
pub open spec fn is_selection(candidates: Seq<usize>, take: nat, selected: Seq<usize>) -> bool {
    &&& selected.len() == take
    &&& selected.no_duplicates()
    &&& forall|k: int| 0 <= k < selected.len() ==> candidates.contains(#[trigger] selected[k])
}

impl FeasibleSplit {
    /// The parts are disjoint and add up to `gamma` once the selection is made.
    pub open spec fn wf(self, gamma: nat) -> bool {
        let n = self.feasible_indices@.len();
        &&& self.settled@.no_duplicates()
        &&& self.candidates@.no_duplicates()
        &&& self.padding@.no_duplicates()
        &&& forall|k: int| 0 <= k < self.settled@.len() ==> #[trigger] self.settled@[k] < n
            && !self.candidates@.contains(self.settled@[k]) && !self.padding@.contains(self.settled@[k])
        &&& forall|k: int| 0 <= k < self.candidates@.len() ==> #[trigger] self.candidates@[k] < n
            && !self.padding@.contains(self.candidates@[k])
        &&& forall|k: int| 0 <= k < self.padding@.len() ==> #[trigger] self.padding@[k] < n
        &&& self.take <= self.candidates@.len()
        &&& self.settled@.len() + self.take + self.padding@.len() == gamma
    }

    /// The plan for `gamma` promising observations out of `values`.
    ///
    /// Whole fronts come first, as many as fit. Of the boundary front, rows with a
    /// negative infinity come next, then a selection among the finite rows, then rows
    /// with a positive infinity.
    pub open spec fn planned(self, values: Seq<Vec<Float>>, feasible: Seq<usize>, directions: Seq<Direction>, gamma: nat) -> bool {
        &&& self.feasible_indices@ == feasible
        &&& self.wf(gamma)
        &&& gamma == feasible.len() ==> {
            &&& ints(self.settled@) == Seq::new(gamma, |i: int| i)
            &&& self.take == 0
        }
        &&& gamma < feasible.len() ==> {
            let neg = front_neg(self.losses@, self.ranks@, self.boundary);
            let fin = front_finite(self.losses@, self.ranks@, self.boundary);
            let pos = front_pos(self.losses@, self.ranks@, self.boundary);
            let whole = whole_fronts(self.ranks@, self.boundary as nat);
            let n_neg = least(gamma - whole.len(), neg.len() as int);
            let n_fin = least(gamma - whole.len() - n_neg, fin.len() as int);
            let n_pos = gamma - whole.len() - n_neg - n_fin;
            &&& self.losses@.len() == feasible.len()
            &&& forall|i: int| 0 <= i < feasible.len() ==>
                (#[trigger] self.losses@[i])@ == loss_row(values[feasible[i] as int]@, directions)
            &&& non_domination_ranks(self.losses@, gamma, self.ranks@)
            &&& whole.len() <= gamma < whole.len() + neg.len() + fin.len() + pos.len()
            &&& ints(self.padding@) == pos.take(n_pos)
            &&& if n_fin == 0 {
                self.take == 0 && ints(self.settled@) == whole + neg.take(n_neg)
            } else {
                ||| {
                    &&& self.take == n_fin
                    &&& ints(self.settled@) == whole + neg.take(n_neg)
                    &&& ints(self.candidates@) == fin
                    &&& self.candidate_losses@.len() == fin.len()
                    &&& forall|k: int| 0 <= k < fin.len() ==> (#[trigger] self.candidate_losses@[k])@ == self.losses@[fin[k]]@
                    &&& self.worst_point@.len() == directions.len()
                    &&& forall|d: int| 0 <= d < directions.len() ==> is_worst(self.candidate_losses@, d, #[trigger] self.worst_point@[d])
                }
                ||| {
                    &&& self.take == 0
                    &&& ints(self.settled@) == whole + neg.take(n_neg) + fin.take(n_fin)
                    &&& exists|d: int| 0 <= d < directions.len() && #[trigger] no_number_at(self.losses@, fin, d)
                }
            }
        }
    }
}

/// None of the rows at `positions` holds a number in objective `d`.
pub open spec fn no_number_at(losses: Seq<Vec<Float>>, positions: Seq<int>, d: int) -> bool {
    forall|k: int| 0 <= k < positions.len() ==> losses[#[trigger] positions[k]]@[d].nan()
}

fn positions_of_rank(ranks: &Vec<usize>, r: usize) -> (out: Vec<usize>)
    ensures
        ints(out@) == picks(ranks@.len(), of_rank(ranks@, r as int)),
{
    let ghost f = of_rank(ranks@, r as int);
    let mut out: Vec<usize> = Vec::new();
    let mut i: usize = 0;
    while i < ranks.len()
        invariant
            i <= ranks@.len(),
            ints(out@) == picks(i as nat, f),
            f == of_rank(ranks@, r as int),
        decreases ranks@.len() - i,
    {
        let ghost before = out@;
        if ranks[i] == r {
            out.push(i);
            assert(ints(out@) =~= ints(before).push(i as int));
        }
        i = i + 1;
    }
    out
}

fn is_neg_inf(v: Float) -> (r: bool)
    ensures
        r == neg_inf(v),
{
    v.key() == -0x7ff0_0000_0000_0000
}

fn is_pos_inf(v: Float) -> (r: bool)
    ensures
        r == pos_inf(v),
{
    v.key() == 0x7ff0_0000_0000_0000
}

/// Whether the row holds a negative, and a positive, infinity.
fn infinities(row: &Vec<Float>) -> (r: (bool, bool))
    ensures
        r.0 == has_neg_inf(row@),
        r.1 == has_pos_inf(row@),
{
    let mut neg = false;
    let mut pos = false;
    let mut k: usize = 0;
    while k < row.len()
        invariant
            k <= row@.len(),
            neg == exists|q: int| 0 <= q < k && neg_inf(#[trigger] row@[q]),
            pos == exists|q: int| 0 <= q < k && pos_inf(#[trigger] row@[q]),
        decreases row@.len() - k,
    {
        if is_neg_inf(row[k]) {
            neg = true;
        }
        if is_pos_inf(row[k]) {
            pos = true;
        }
        k = k + 1;
    }
    (neg, pos)
}

/// The observed values as losses: negated where larger is better.
pub fn to_losses(values: &Vec<Float>, directions: &Vec<Direction>) -> (row: Vec<Float>)
    requires
        values@.len() >= directions@.len(),
    ensures
        row@ == loss_row(values@, directions@),
{
    let mut row: Vec<Float> = Vec::new();
    let mut k: usize = 0;
    while k < directions.len()
        invariant
            k <= directions@.len(),
            values@.len() >= directions@.len(),
            row@.len() == k,
            forall|q: int| 0 <= q < k ==> #[trigger] row@[q] == loss_of(values@[q], directions@[q]),
        decreases directions@.len() - k,
    {
        row.push(match directions[k] {
            Direction::Minimize => values[k],
            Direction::Maximize => values[k].neg(),
        });
        k = k + 1;
    }
    assert(row@ =~= loss_row(values@, directions@));
    row
}

pub(crate) fn copy_row(row: &Vec<Float>) -> (r: Vec<Float>)
    ensures
        r@ == row@,
{
    let mut r: Vec<Float> = Vec::new();
    let mut k: usize = 0;
    while k < row.len()
        invariant
            k <= row@.len(),
            r@ == row@.take(k as int),
        decreases row@.len() - k,
    {
        r.push(row[k]);
        assert(row@.take(k + 1) =~= row@.take(k as int).push(row@[k as int]));
        k = k + 1;
    }
    assert(row@.take(row@.len() as int) =~= row@);
    r
}

/// The worst number of the rows at position `d`, if any of them is a number there.
fn worst_at(rows: &Vec<Vec<Float>>, d: usize) -> (w: Option<Float>)
    requires
        forall|j: int| 0 <= j < rows@.len() ==> d < (#[trigger] rows@[j])@.len(),
    ensures
        w is Some ==> is_worst(rows@, d as int, w->Some_0),
        w is None ==> forall|j: int| 0 <= j < rows@.len() ==> (#[trigger] rows@[j])@[d as int].nan(),
{
    let mut w: Option<Float> = None;
    let mut j: usize = 0;
    while j < rows.len()
        invariant
            j <= rows@.len(),
            forall|j: int| 0 <= j < rows@.len() ==> d < (#[trigger] rows@[j])@.len(),
            w is Some ==> {
                &&& exists|q: int| 0 <= q < j && (#[trigger] rows@[q])@[d as int] == w->Some_0
                &&& !w->Some_0.nan()
                &&& forall|q: int| 0 <= q < j ==> (#[trigger] rows@[q])@[d as int].nan() || rows@[q]@[d as int].rank() <= w->Some_0.rank()
            },
            w is None ==> forall|q: int| 0 <= q < j ==> (#[trigger] rows@[q])@[d as int].nan(),
        decreases rows@.len() - j,
    {
        let v = rows[j][d];
        assert(rows@[j as int]@[d as int] == v);
        if !v.is_nan() {
            match w {
                None => {
                    w = Some(v);
                }
                Some(u) => {
                    if u.lt(v) {
                        w = Some(v);
                    }
                }
            }
        }
        j = j + 1;
    }
    w
}

/// The worst number in each of `n_dims` objectives, if there is one in each.
fn worst_of(rows: &Vec<Vec<Float>>, n_dims: usize) -> (w: Option<Vec<Float>>)
    requires
        forall|j: int| 0 <= j < rows@.len() ==> (#[trigger] rows@[j])@.len() == n_dims,
    ensures
        w is Some ==> w->Some_0@.len() == n_dims && forall|d: int| 0 <= d < n_dims ==> is_worst(rows@, d, #[trigger] w->Some_0@[d]),
        w is None ==> exists|d: int| 0 <= d < n_dims && #[trigger] all_nan_at(rows@, d),
{
    let mut out: Vec<Float> = Vec::new();
    let mut d: usize = 0;
    while d < n_dims
        invariant
            d <= n_dims,
            forall|j: int| 0 <= j < rows@.len() ==> (#[trigger] rows@[j])@.len() == n_dims,
            out@.len() == d,
            forall|e: int| 0 <= e < d ==> is_worst(rows@, e, #[trigger] out@[e]),
        decreases n_dims - d,
    {
        match worst_at(rows, d) {
            Some(v) => {
                out.push(v);
            }
            None => {
                assert(all_nan_at(rows@, d as int));
                return None;
            }
        }
        d = d + 1;
    }
    Some(out)
}

/// No row holds a number at position `d`.
pub open spec fn all_nan_at(rows: Seq<Vec<Float>>, d: int) -> bool {
    forall|j: int| 0 <= j < rows.len() ==> (#[trigger] rows[j])@[d].nan()
}

/// The boundary front by its infinities: rows with a negative one, rows without any,
/// and rows with a positive one only.
fn part_front(losses: &Vec<Vec<Float>>, ranks: &Vec<usize>, boundary: usize) -> (r: (Vec<usize>, Vec<usize>, Vec<usize>))
    requires
        losses@.len() == ranks@.len(),
    ensures
        ints(r.0@) == front_neg(losses@, ranks@, boundary),
        ints(r.1@) == front_finite(losses@, ranks@, boundary),
        ints(r.2@) == front_pos(losses@, ranks@, boundary),
{
    let ghost f = neg_on(losses@, ranks@, boundary);
    let ghost g = finite_on(losses@, ranks@, boundary);
    let ghost h = pos_on(losses@, ranks@, boundary);
    let mut neg: Vec<usize> = Vec::new();
    let mut fin: Vec<usize> = Vec::new();
    let mut pos: Vec<usize> = Vec::new();
    let mut i: usize = 0;
    while i < ranks.len()
        invariant
            i <= ranks@.len(),
            losses@.len() == ranks@.len(),
            ints(neg@) == picks(i as nat, f),
            ints(fin@) == picks(i as nat, g),
            ints(pos@) == picks(i as nat, h),
            f == neg_on(losses@, ranks@, boundary),
            g == finite_on(losses@, ranks@, boundary),
            h == pos_on(losses@, ranks@, boundary),
        decreases ranks@.len() - i,
    {
        let ghost neg0 = neg@;
        let ghost fin0 = fin@;
        let ghost pos0 = pos@;
        if ranks[i] == boundary {
            let inf = infinities(&losses[i]);
            if inf.0 {
                neg.push(i);
                assert(ints(neg@) =~= ints(neg0).push(i as int));
            } else if inf.1 {
                pos.push(i);
                assert(ints(pos@) =~= ints(pos0).push(i as int));
            } else {
                fin.push(i);
                assert(ints(fin@) =~= ints(fin0).push(i as int));
            }
        }
        i = i + 1;
    }
    (neg, fin, pos)
}

/// Appends the first `count` entries of `from`.
pub(crate) fn append_first(into: &mut Vec<usize>, from: &Vec<usize>, count: usize)
    requires
        count <= from@.len(),
    ensures
        final(into)@ == old(into)@ + from@.take(count as int),
{
    let ghost start = into@;
    let mut k: usize = 0;
    while k < count
        invariant
            k <= count <= from@.len(),
            into@ == start + from@.take(k as int),
        decreases count - k,
    {
        into.push(from[k]);
        assert(from@.take(k + 1) =~= from@.take(k as int).push(from@[k as int]));
        assert(into@ =~= start + from@.take(k + 1));
        k = k + 1;
    }
    assert(into@ =~= start + from@.take(count as int));
}

/// The fronts that fit into `gamma` whole, and the front after them.
fn take_whole_fronts(ranks: &Vec<usize>, gamma: usize) -> (r: (Vec<usize>, usize))
    requires
        gamma < ranks@.len(),
    ensures
        ints(r.0@) == whole_fronts(ranks@, r.1 as nat),
        r.0@.len() <= gamma < r.0@.len() + picks(ranks@.len(), of_rank(ranks@, r.1 as int)).len(),
{
    let mut good: Vec<usize> = Vec::new();
    let mut current_rank: usize = 0;
    assert(ints(good@) =~= whole_fronts(ranks@, 0));
    loop
        invariant
            gamma < ranks@.len(),
            ints(good@) == whole_fronts(ranks@, current_rank as nat),
            good@.len() <= gamma,
        decreases usize::MAX - current_rank,
    {
        let members = positions_of_rank(ranks, current_rank);
        assert(ints(members@).len() == members@.len());
        if members.len() > gamma - good.len() {
            return (good, current_rank);
        }
        let ghost before = good@;
        let count: usize = members.len();
        append_first(&mut good, &members, count);
        proof {
            assert(members@.take(count as int) =~= members@);
            assert(ints(good@) =~= ints(before) + ints(members@));
            let b = (current_rank + 1) as nat;
            assert(whole_fronts(ranks@, b) == whole_fronts(ranks@, current_rank as nat)
                + picks(ranks@.len(), of_rank(ranks@, b - 1)));
            assert(ints(good@).len() == good@.len());
            if current_rank == usize::MAX {
                assert forall|i: int| 0 <= i < ranks@.len() implies #[trigger] ranks@[i] < b by {}
                lemma_whole_fronts_full(ranks@, b);
            }
        }
        current_rank = current_rank + 1;
    }
}

proof fn lemma_front_parts(losses: Seq<Vec<Float>>, ranks: Seq<usize>, boundary: usize)
    ensures
        picks(ranks.len(), of_rank(ranks, boundary as int)).len() == front_neg(losses, ranks, boundary).len()
            + front_finite(losses, ranks, boundary).len() + front_pos(losses, ranks, boundary).len(),
        forall|k: int| 0 <= k < front_finite(losses, ranks, boundary).len() ==>
            0 <= #[trigger] front_finite(losses, ranks, boundary)[k] < ranks.len(),
{
    let all = of_rank(ranks, boundary as int);
    let f = neg_on(losses, ranks, boundary);
    let rest = |i: int| ranks[i] == boundary && !has_neg_inf(losses[i]@);
    let g = finite_on(losses, ranks, boundary);
    let h = pos_on(losses, ranks, boundary);
    lemma_picks_part(ranks.len(), all, f, rest);
    lemma_picks_part(ranks.len(), rest, g, h);
    lemma_picks(ranks.len(), g);
}

/// Whole fronts, and disjoint parts of the boundary front, share no position.
#[verifier::spinoff_prover]
proof fn lemma_plan_wf(plan: FeasibleSplit, gamma: nat, n_neg: int, n_fin: int, n_pos: int)
    requires
        plan.ranks@.len() == plan.feasible_indices@.len(),
        0 <= n_neg <= front_neg(plan.losses@, plan.ranks@, plan.boundary).len(),
        0 <= n_fin <= front_finite(plan.losses@, plan.ranks@, plan.boundary).len(),
        0 <= n_pos <= front_pos(plan.losses@, plan.ranks@, plan.boundary).len(),
        whole_fronts(plan.ranks@, plan.boundary as nat).len() + n_neg + n_fin + n_pos == gamma,
        ints(plan.padding@) == front_pos(plan.losses@, plan.ranks@, plan.boundary).take(n_pos),
        ({
            &&& plan.take == n_fin
            &&& ints(plan.settled@) == whole_fronts(plan.ranks@, plan.boundary as nat)
                + front_neg(plan.losses@, plan.ranks@, plan.boundary).take(n_neg)
            &&& ints(plan.candidates@) == front_finite(plan.losses@, plan.ranks@, plan.boundary) || (n_fin == 0 && plan.candidates@.len() == 0)
        }) || ({
            &&& plan.take == 0
            &&& plan.candidates@.len() == 0
            &&& ints(plan.settled@) == whole_fronts(plan.ranks@, plan.boundary as nat)
                + front_neg(plan.losses@, plan.ranks@, plan.boundary).take(n_neg)
                + front_finite(plan.losses@, plan.ranks@, plan.boundary).take(n_fin)
        }),
    ensures
        plan.wf(gamma),
{
    let ranks = plan.ranks@;
    let losses = plan.losses@;
    let b = plan.boundary;
    let f = neg_on(losses, ranks, b);
    let g = finite_on(losses, ranks, b);
    let h = pos_on(losses, ranks, b);
    let w = whole_fronts(ranks, b as nat);
    let gneg = front_neg(losses, ranks, b);
    let gfin = front_finite(losses, ranks, b);
    let gpos = front_pos(losses, ranks, b);
    lemma_picks(ranks.len(), f);
    lemma_picks(ranks.len(), g);
    lemma_picks(ranks.len(), h);
    lemma_whole_fronts(ranks, b as nat);
    lemma_ints(plan.settled@);
    lemma_ints(plan.candidates@);
    lemma_ints(plan.padding@);
    let set = ints(plan.settled@);
    let cand = ints(plan.candidates@);
    let pad = ints(plan.padding@);
    let t = if set.len() == w.len() + n_neg { 0 } else { n_fin };
    assert(set =~= w + gneg.take(n_neg) + gfin.take(t));
    assert(t > 0 ==> cand.len() == 0);
    let kind = |x: int| if ranks[x] < b { 0int } else if f(x) { 1int } else if g(x) { 2int } else if h(x) { 3int } else { 4int };
    assert forall|k: int| 0 <= k < w.len() implies 0 <= #[trigger] w[k] < ranks.len() && kind(w[k]) == 0 by {}
    assert forall|k: int| 0 <= k < gneg.len() implies 0 <= #[trigger] gneg[k] < ranks.len() && kind(gneg[k]) == 1 by {
        assert(f(gneg[k]));
    }
    assert forall|k: int| 0 <= k < gfin.len() implies 0 <= #[trigger] gfin[k] < ranks.len() && kind(gfin[k]) == 2 by {
        assert(g(gfin[k]));
    }
    assert forall|k: int| 0 <= k < gpos.len() implies 0 <= #[trigger] gpos[k] < ranks.len() && kind(gpos[k]) == 3 by {
        assert(h(gpos[k]));
    }
    assert forall|k: int| 0 <= k < set.len() implies 0 <= #[trigger] set[k] < ranks.len() && {
        ||| k < w.len() && set[k] == w[k] && kind(set[k]) == 0
        ||| w.len() <= k < w.len() + n_neg && set[k] == gneg[k - w.len()] && kind(set[k]) == 1
        ||| w.len() + n_neg <= k && t > 0 && set[k] == gfin[k - w.len() - n_neg] && kind(set[k]) == 2
    } by {
        if k < w.len() {
            assert(set[k] == w[k]);
        } else if k < w.len() + n_neg {
            assert(set[k] == gneg[k - w.len()]);
        } else {
            assert(set[k] == gfin[k - w.len() - n_neg]);
        }
    }
    assert forall|k: int, l: int| 0 <= k < set.len() && 0 <= l < set.len() && k != l implies set[k] != set[l] by {}
    assert(set.no_duplicates());
    assert forall|k: int| 0 <= k < plan.settled@.len() implies #[trigger] plan.settled@[k] < ranks.len()
        && !plan.candidates@.contains(plan.settled@[k]) && !plan.padding@.contains(plan.settled@[k]) by {
        assert(set[k] == plan.settled@[k]);
        if cand.contains(set[k]) {
            let q = choose|q: int| 0 <= q < cand.len() && cand[q] == set[k];
            assert(gfin[q] == set[k]);
        }
        if pad.contains(set[k]) {
            let q = choose|q: int| 0 <= q < pad.len() && pad[q] == set[k];
            assert(gpos[q] == set[k]);
        }
    }
    assert forall|k: int| 0 <= k < plan.candidates@.len() implies #[trigger] plan.candidates@[k] < ranks.len()
        && !plan.padding@.contains(plan.candidates@[k]) by {
        assert(cand[k] == plan.candidates@[k]);
        assert(gfin[k] == cand[k]);
        if pad.contains(cand[k]) {
            let q = choose|q: int| 0 <= q < pad.len() && pad[q] == cand[k];
            assert(gpos[q] == cand[k]);
        }
    }
    assert forall|k: int| 0 <= k < plan.padding@.len() implies #[trigger] plan.padding@[k] < ranks.len() by {
        assert(pad[k] == plan.padding@[k]);
        assert(gpos[k] == pad[k]);
    }
    assert(pad.no_duplicates());
}

/// Plans the split of the feasible observations at `feasible_indices` into `gamma`
/// promising ones and the rest.
pub fn split_feasible_observation_indices(
    values: &Vec<Vec<Float>>,
    feasible_indices: &Vec<usize>,
    directions: &Vec<Direction>,
    gamma: usize,
) -> (plan: FeasibleSplit)
    requires
        gamma <= feasible_indices@.len(),
        forall|k: int| 0 <= k < feasible_indices@.len() ==> #[trigger] feasible_indices@[k] < values@.len()
            && values@[feasible_indices@[k] as int]@.len() >= directions@.len(),
    ensures
        plan.planned(values@, feasible_indices@, directions@, gamma as nat),
{
    let n: usize = feasible_indices.len();
    let mut feasible: Vec<usize> = Vec::new();
    append_first(&mut feasible, feasible_indices, n);
    assert(feasible_indices@.take(n as int) =~= feasible_indices@);
    assert(feasible@ =~= feasible_indices@);
    if gamma == n {
        let mut settled: Vec<usize> = Vec::new();
        let mut i: usize = 0;
        while i < n
            invariant
                i <= n,
                settled@.len() == i,
                forall|k: int| 0 <= k < i ==> #[trigger] settled@[k] == k,
            decreases n - i,
        {
            settled.push(i);
            i = i + 1;
        }
        assert(ints(settled@) =~= Seq::new(gamma as nat, |i: int| i));
        return FeasibleSplit {
            feasible_indices: feasible,
            losses: Vec::new(),
            ranks: Vec::new(),
            boundary: 0,
            settled,
            candidates: Vec::new(),
            candidate_losses: Vec::new(),
            worst_point: Vec::new(),
            take: 0,
            padding: Vec::new(),
        };
    }
    let mut losses: Vec<Vec<Float>> = Vec::new();
    let mut i: usize = 0;
    while i < n
        invariant
            i <= n,
            n == feasible_indices@.len(),
            forall|k: int| 0 <= k < feasible_indices@.len() ==> #[trigger] feasible_indices@[k] < values@.len()
                && values@[feasible_indices@[k] as int]@.len() >= directions@.len(),
            losses@.len() == i,
            forall|k: int| 0 <= k < i ==> (#[trigger] losses@[k])@ == loss_row(values@[feasible_indices@[k] as int]@, directions@),
        decreases n - i,
    {
        losses.push(to_losses(&values[feasible_indices[i]], directions));
        i = i + 1;
    }
    let ranks = fast_non_dominated_sort_partial(losses.as_slice(), gamma);
    let whole = take_whole_fronts(&ranks, gamma);
    let mut settled = whole.0;
    let boundary: usize = whole.1;
    let parts = part_front(&losses, &ranks, boundary);
    let neg = parts.0;
    let fin = parts.1;
    let pos = parts.2;
    let ghost w = whole_fronts(ranks@, boundary as nat);
    let ghost gneg = front_neg(losses@, ranks@, boundary);
    let ghost gfin = front_finite(losses@, ranks@, boundary);
    let ghost gpos = front_pos(losses@, ranks@, boundary);
    let ghost settled0 = settled@;
    proof {
        lemma_front_parts(losses@, ranks@, boundary);
        lemma_ints(settled@);
        lemma_ints(neg@);
        lemma_ints(fin@);
        lemma_ints(pos@);
    }
    let mut remaining: usize = gamma - settled.len();
    let n_neg: usize = if remaining <= neg.len() { remaining } else { neg.len() };
    append_first(&mut settled, &neg, n_neg);
    remaining = remaining - n_neg;
    let ghost settled1 = settled@;
    assert(ints(settled1) =~= w + gneg.take(n_neg as int));
    let n_fin: usize = if remaining <= fin.len() { remaining } else { fin.len() };
    let n_pos: usize = remaining - n_fin;
    let mut padding: Vec<usize> = Vec::new();
    append_first(&mut padding, &pos, n_pos);
    assert(padding@ =~= pos@.take(n_pos as int));
    let mut candidates: Vec<usize> = Vec::new();
    let mut candidate_losses: Vec<Vec<Float>> = Vec::new();
    let mut worst_point: Vec<Float> = Vec::new();
    let mut take: usize = 0;
    if n_fin > 0 {
        let mut rows: Vec<Vec<Float>> = Vec::new();
        let mut k: usize = 0;
        assert forall|k: int| 0 <= k < fin@.len() implies #[trigger] fin@[k] < losses@.len() by {
            assert(ints(fin@)[k] == fin@[k]);
        }
        while k < fin.len()
            invariant
                k <= fin@.len(),
                ints(fin@) == gfin,
                forall|k: int| 0 <= k < fin@.len() ==> #[trigger] fin@[k] < losses@.len(),
                rows@.len() == k,
                forall|q: int| 0 <= q < k ==> (#[trigger] rows@[q])@ == losses@[gfin[q]]@,
            decreases fin@.len() - k,
        {
            rows.push(copy_row(&losses[fin[k]]));
            assert(ints(fin@)[k as int] == fin@[k as int]);
            k = k + 1;
        }
        assert forall|j: int| 0 <= j < rows@.len() implies (#[trigger] rows@[j])@.len() == directions@.len() by {
            assert(losses@[gfin[j]]@ == loss_row(values@[feasible_indices@[gfin[j]] as int]@, directions@));
        }
        match worst_of(&rows, directions.len()) {
            Some(w) => {
                worst_point = w;
                candidate_losses = rows;
                candidates = fin;
                take = n_fin;
            }
            None => {
                append_first(&mut settled, &fin, n_fin);
                proof {
                    let d = choose|d: int| 0 <= d < directions@.len() && #[trigger] all_nan_at(rows@, d);
                    assert forall|k: int| 0 <= k < gfin.len() implies losses@[#[trigger] gfin[k]]@[d].nan() by {
                        assert(rows@[k]@ == losses@[gfin[k]]@);
                    }
                    assert(no_number_at(losses@, gfin, d));
                    assert(ints(settled@) =~= w + gneg.take(n_neg as int) + gfin.take(n_fin as int));
                }
            }
        }
    }
    let plan = FeasibleSplit {
        feasible_indices: feasible,
        losses,
        ranks,
        boundary,
        settled,
        candidates,
        candidate_losses,
        worst_point,
        take,
        padding,
    };
    proof {
        lemma_plan_wf(plan, gamma as nat, n_neg as int, n_fin as int, n_pos as int);
    }
    plan
}

/// Positions that `taken` does not hold.
pub open spec fn outside(taken: Seq<usize>) -> spec_fn(int) -> bool {
    |i: int| !taken.contains(i as usize)
}

/// The entries of `table` at positions that `taken` does not hold, in order.
pub open spec fn left_out(table: Seq<usize>, taken: Seq<usize>) -> Seq<usize> {
    let at = picks(table.len(), outside(taken));
    Seq::new(at.len(), |k: int| table[at[k]])
}

impl FeasibleSplit {
    /// The number of promising observations.
    pub open spec fn gamma(self) -> nat {
        self.settled@.len() + self.take as nat + self.padding@.len()
    }

    /// The promising positions, once `selected` is made.
    pub open spec fn promising(self, selected: Seq<usize>) -> Seq<usize> {
        self.settled@ + selected + self.padding@
    }

    /// Completes the split with a selection among the candidates: the promising
    /// observations, and the others in input order.
    pub fn complete(&self, selected: &Vec<usize>) -> (r: (Vec<usize>, Vec<usize>))
        requires
            self.wf(self.gamma()),
            is_selection(self.candidates@, self.take as nat, selected@),
        ensures
            r.0@ == gathered(self.feasible_indices@, self.promising(selected@)),
            r.1@ == left_out(self.feasible_indices@, self.promising(selected@)),
    {
        let n: usize = self.feasible_indices.len();
        let mut locals: Vec<usize> = Vec::new();
        append_first(&mut locals, &self.settled, self.settled.len());
        append_first(&mut locals, selected, selected.len());
        append_first(&mut locals, &self.padding, self.padding.len());
        assert(locals@ =~= self.promising(selected@));
        assert forall|k: int| 0 <= k < locals@.len() implies #[trigger] locals@[k] < n by {
            if k < self.settled@.len() {
                assert(locals@[k] == self.settled@[k]);
            } else if k < self.settled@.len() + selected@.len() {
                let x = selected@[k - self.settled@.len()];
                assert(self.candidates@.contains(x));
                let q = choose|q: int| 0 <= q < self.candidates@.len() && self.candidates@[q] == x;
                assert(self.candidates@[q] < n);
            } else {
                assert(locals@[k] == self.padding@[k - self.settled@.len() - selected@.len()]);
            }
        }
        let mut taken: Vec<bool> = vec![false; n];
        let mut good: Vec<usize> = Vec::new();
        let mut k: usize = 0;
        while k < locals.len()
            invariant
                k <= locals@.len(),
                n == self.feasible_indices@.len(),
                forall|k: int| 0 <= k < locals@.len() ==> #[trigger] locals@[k] < n,
                taken@.len() == n,
                forall|i: int| 0 <= i < n ==> #[trigger] taken@[i] == locals@.take(k as int).contains(i as usize),
                good@.len() == k,
                forall|q: int| 0 <= q < k ==> #[trigger] good@[q] == self.feasible_indices@[locals@[q] as int],
            decreases locals@.len() - k,
        {
            let ghost taken0 = taken@;
            let x: usize = locals[k];
            taken.set(x, true);
            good.push(self.feasible_indices[x]);
            proof {
                let s0 = locals@.take(k as int);
                let s1 = locals@.take(k + 1);
                assert(s1 =~= s0.push(x));
                assert forall|i: int| 0 <= i < n implies #[trigger] taken@[i] == s1.contains(i as usize) by {
                    assert(s1[k as int] == x);
                    if s0.contains(i as usize) {
                        let q = choose|q: int| 0 <= q < s0.len() && s0[q] == i as usize;
                        assert(s1[q] == i as usize);
                    }
                    if s1.contains(i as usize) && i != x {
                        let q = choose|q: int| 0 <= q < s1.len() && s1[q] == i as usize;
                        assert(s0[q] == i as usize);
                    }
                    assert(taken0[i] == s0.contains(i as usize));
                }
            }
            k = k + 1;
        }
        assert(locals@.take(locals@.len() as int) =~= locals@);
        assert(good@ =~= gathered(self.feasible_indices@, locals@));
        let ghost f = outside(locals@);
        let mut poor: Vec<usize> = Vec::new();
        let mut i: usize = 0;
        while i < n
            invariant
                i <= n,
                n == self.feasible_indices@.len(),
                taken@.len() == n,
                forall|i: int| 0 <= i < n ==> #[trigger] taken@[i] == locals@.contains(i as usize),
                f == outside(locals@),
                poor@.len() == picks(i as nat, f).len(),
                forall|q: int| 0 <= q < poor@.len() ==> #[trigger] poor@[q] == self.feasible_indices@[picks(i as nat, f)[q]],
            decreases n - i,
        {
            let ghost at = picks(i as nat, f);
            if !taken[i] {
                poor.push(self.feasible_indices[i]);
                assert(picks((i + 1) as nat, f) == at.push(i as int));
            } else {
                assert(picks((i + 1) as nat, f) == at);
            }
            i = i + 1;
        }
        assert(poor@ =~= left_out(self.feasible_indices@, locals@));
        (good, poor)
    }
}

/// Positions in order of violation, equal violations in input order.
pub open spec fn by_violation(violations: Seq<(usize, Float)>, order: Seq<usize>) -> bool {
    &&& covers(order, 0, violations.len() as int)
    &&& forall|a: int, b: int| 0 <= a < b < order.len() ==> {
        let u = violations[#[trigger] order[a] as int].1.rank();
        let v = violations[#[trigger] order[b] as int].1.rank();
        u < v || (u == v && order[a] < order[b])
    }
}

/// The observation indices at the given positions.
pub open spec fn indices_at(violations: Seq<(usize, Float)>, order: Seq<usize>) -> Seq<usize> {
    Seq::new(order.len(), |k: int| violations[order[k] as int].0)
}

/// How infeasible observations are parted: the least violating `gamma` first.
pub open spec fn infeasible_parted(violations: Seq<(usize, Float)>, gamma: nat, good: Seq<usize>, poor: Seq<usize>) -> bool {
    if 0 < gamma < violations.len() {
        exists|order: Seq<usize>| #[trigger] by_violation(violations, order)
            && good == indices_at(violations, order.take(gamma as int))
            && poor == indices_at(violations, order.skip(gamma as int))
    } else {
        let all = Seq::new(violations.len(), |k: int| violations[k].0);
        good == all.take(gamma as int) && poor == all.skip(gamma as int)
    }
}

/// Parts infeasible observations, given with their total violations, into the `gamma`
/// least violating ones and the rest.
pub fn split_infeasible_observation_indices(index_violations: &Vec<(usize, Float)>, gamma: usize) -> (r: (Vec<usize>, Vec<usize>))
    requires
        gamma <= index_violations@.len(),
        0 < gamma < index_violations@.len() ==> forall|k: int| 0 <= k < index_violations@.len() ==> !(#[trigger] index_violations@[k]).1.nan(),
    ensures
        infeasible_parted(index_violations@, gamma as nat, r.0@, r.1@),
{
    let n: usize = index_violations.len();
    let ghost iv = index_violations@;
    let mut good: Vec<usize> = Vec::new();
    let mut poor: Vec<usize> = Vec::new();
    if gamma == 0 || gamma == n {
        let mut k: usize = 0;
        while k < n
            invariant
                k <= n,
                gamma == 0 || gamma == n,
                iv == index_violations@,
                n == iv.len(),
                good@.len() == (if gamma == 0 { 0 } else { k as int }),
                poor@.len() == (if gamma == 0 { k as int } else { 0 }),
                forall|q: int| 0 <= q < good@.len() ==> #[trigger] good@[q] == iv[q].0,
                forall|q: int| 0 <= q < poor@.len() ==> #[trigger] poor@[q] == iv[q].0,
            decreases n - k,
        {
            if gamma == 0 {
                poor.push(index_violations[k].0);
            } else {
                good.push(index_violations[k].0);
            }
            k = k + 1;
        }
        proof {
            let all = Seq::new(iv.len(), |k: int| iv[k].0);
            assert(good@ =~= all.take(gamma as int));
            assert(poor@ =~= all.skip(gamma as int));
        }
        return (good, poor);
    }
    let mut keys: Vec<i64> = Vec::new();
    let mut k: usize = 0;
    while k < n
        invariant
            k <= n,
            iv == index_violations@,
            n == iv.len(),
            keys@.len() == k,
            forall|q: int| 0 <= q < k ==> #[trigger] keys@[q] == iv[q].1.rank(),
        decreases n - k,
    {
        keys.push(index_violations[k].1.key());
        k = k + 1;
    }
    let order = positions_by_key(&keys);
    let mut k: usize = 0;
    while k < n
        invariant
            k <= n,
            gamma <= n,
            iv == index_violations@,
            n == iv.len(),
            covers(order@, 0, n as int),
            good@.len() == (if k <= gamma { k } else { gamma }),
            poor@.len() == (if k <= gamma { 0 } else { k - gamma }),
            forall|q: int| 0 <= q < good@.len() ==> #[trigger] good@[q] == iv[order@[q] as int].0,
            forall|q: int| 0 <= q < poor@.len() ==> #[trigger] poor@[q] == iv[order@[gamma + q] as int].0,
        decreases n - k,
    {
        let i: usize = order[k];
        if k < gamma {
            good.push(index_violations[i].0);
        } else {
            poor.push(index_violations[i].0);
        }
        k = k + 1;
    }
    proof {
        assert forall|a: int, b: int| 0 <= a < b < order@.len() implies {
            let u = iv[#[trigger] order@[a] as int].1.rank();
            let v = iv[#[trigger] order@[b] as int].1.rank();
            u < v || (u == v && order@[a] < order@[b])
        } by {}
        assert(by_violation(iv, order@));
        assert(good@ =~= indices_at(iv, order@.take(gamma as int)));
        assert(poor@ =~= indices_at(iv, order@.skip(gamma as int)));
    }
    (good, poor)
}

pub open spec fn feasible_on(observed: Seq<(bool, Float)>) -> spec_fn(int) -> bool {
    |i: int| observed[i].0
}

pub open spec fn infeasible_on(observed: Seq<(bool, Float)>) -> spec_fn(int) -> bool {
    |i: int| !observed[i].0
}

pub open spec fn int_pairs(pairs: Seq<(usize, Float)>) -> Seq<(int, Float)> {
    Seq::new(pairs.len(), |k: int| (pairs[k].0 as int, pairs[k].1))
}

/// The infeasible observations with their violations, in input order.
pub open spec fn infeasible_violations(observed: Seq<(bool, Float)>) -> Seq<(int, Float)> {
    let at = picks(observed.len(), infeasible_on(observed));
    Seq::new(at.len(), |k: int| (at[k], observed[at[k]].1))
}

/// A split of all observations that awaits a selection among feasible candidates.
pub struct ObservationSplit {
    pub feasible: FeasibleSplit,
    pub infeasible_good: Vec<usize>,
    pub infeasible_poor: Vec<usize>,
}

impl ObservationSplit {
    /// The plan for `gamma` promising ones out of the observations with the given values,
    /// feasibility and violations.
    pub open spec fn planned(
        self,
        values: Seq<Vec<Float>>,
        observed: Seq<(bool, Float)>,
        directions: Seq<Direction>,
        gamma: nat,
    ) -> bool {
        let feasible = self.feasible.feasible_indices@;
        if gamma == values.len() {
            &&& ints(feasible) == Seq::new(gamma, |i: int| i)
            &&& self.feasible.planned(values, feasible, directions, gamma)
            &&& self.infeasible_good@.len() == 0
            &&& self.infeasible_poor@.len() == 0
        } else {
            let n_feasible = least(gamma as int, feasible.len() as int);
            &&& ints(feasible) == picks(values.len(), feasible_on(observed))
            &&& self.feasible.planned(values, feasible, directions, n_feasible as nat)
            &&& exists|violations: Seq<(usize, Float)>| {
                &&& #[trigger] int_pairs(violations) == infeasible_violations(observed)
                &&& infeasible_parted(violations, (gamma - n_feasible) as nat, self.infeasible_good@, self.infeasible_poor@)
            }
        }
    }

    /// Completes the split: promising observations, feasible ones first, and the others.
    pub fn complete(&self, selected: &Vec<usize>) -> (r: (Vec<usize>, Vec<usize>))
        requires
            self.feasible.wf(self.feasible.gamma()),
            is_selection(self.feasible.candidates@, self.feasible.take as nat, selected@),
        ensures
            r.0@ == gathered(self.feasible.feasible_indices@, self.feasible.promising(selected@)) + self.infeasible_good@,
            r.1@ == left_out(self.feasible.feasible_indices@, self.feasible.promising(selected@)) + self.infeasible_poor@,
    {
        let (mut good, mut poor) = self.feasible.complete(selected);
        append_first(&mut good, &self.infeasible_good, self.infeasible_good.len());
        append_first(&mut poor, &self.infeasible_poor, self.infeasible_poor.len());
        assert(self.infeasible_good@.take(self.infeasible_good@.len() as int) =~= self.infeasible_good@);
        assert(self.infeasible_poor@.take(self.infeasible_poor@.len() as int) =~= self.infeasible_poor@);
        (good, poor)
    }
}

/// Plans the split of observations into `gamma` promising ones and the rest. Feasible
/// observations go by non-domination and hypervolume; where fewer than `gamma` are
/// feasible, the least violating infeasible ones fill up.
pub fn split_observation_indices_for_multi_objective(
    values: &Vec<Vec<Float>>,
    feasibles_violations: &Vec<(bool, Float)>,
    directions: &Vec<Direction>,
    gamma: usize,
) -> (plan: ObservationSplit)
    requires
        feasibles_violations@.len() == values@.len(),
        gamma <= values@.len(),
        forall|i: int| 0 <= i < values@.len() ==> (#[trigger] values@[i])@.len() >= directions@.len(),
        gamma < values@.len() && picks(values@.len(), feasible_on(feasibles_violations@)).len() < gamma ==> forall|i: int|
            0 <= i < values@.len() && !(#[trigger] feasibles_violations@[i]).0 ==> !feasibles_violations@[i].1.nan(),
    ensures
        plan.planned(values@, feasibles_violations@, directions@, gamma as nat),
{
    let n: usize = values.len();
    let ghost observed = feasibles_violations@;
    if gamma == n {
        let mut all: Vec<usize> = Vec::new();
        let mut i: usize = 0;
        while i < n
            invariant
                i <= n,
                all@.len() == i,
                forall|k: int| 0 <= k < i ==> #[trigger] all@[k] == k,
            decreases n - i,
        {
            all.push(i);
            i = i + 1;
        }
        assert(ints(all@) =~= Seq::new(gamma as nat, |i: int| i));
        let feasible = split_feasible_observation_indices(values, &all, directions, gamma);
        return ObservationSplit { feasible, infeasible_good: Vec::new(), infeasible_poor: Vec::new() };
    }
    let ghost f = feasible_on(observed);
    let ghost g = infeasible_on(observed);
    let mut feasible_indices: Vec<usize> = Vec::new();
    let mut violations: Vec<(usize, Float)> = Vec::new();
    let mut i: usize = 0;
    while i < n
        invariant
            i <= n,
            observed == feasibles_violations@,
            n == observed.len(),
            f == feasible_on(observed),
            g == infeasible_on(observed),
            ints(feasible_indices@) == picks(i as nat, f),
            violations@.len() == picks(i as nat, g).len(),
            forall|k: int| 0 <= k < violations@.len() ==> (#[trigger] violations@[k]).0 == picks(i as nat, g)[k]
                && violations@[k].0 < i && !observed[violations@[k].0 as int].0
                && violations@[k].1 == observed[violations@[k].0 as int].1,
            feasible_indices@.len() + violations@.len() == i,
        decreases n - i,
    {
        let ghost before = feasible_indices@;
        let ghost at = picks(i as nat, g);
        if feasibles_violations[i].0 {
            feasible_indices.push(i);
            assert(ints(feasible_indices@) =~= ints(before).push(i as int));
            assert(picks((i + 1) as nat, g) == at);
        } else {
            violations.push((i, feasibles_violations[i].1));
            assert(picks((i + 1) as nat, g) == at.push(i as int));
        }
        i = i + 1;
    }
    let n_feasible: usize = if gamma <= feasible_indices.len() { gamma } else { feasible_indices.len() };
    proof {
        lemma_picks(n as nat, f);
        lemma_ints(feasible_indices@);
        assert forall|k: int| 0 <= k < feasible_indices@.len() implies #[trigger] feasible_indices@[k] < values@.len()
            && values@[feasible_indices@[k] as int]@.len() >= directions@.len() by {
            assert(ints(feasible_indices@)[k] == feasible_indices@[k]);
        }
        assert(int_pairs(violations@) =~= infeasible_violations(observed));
    }
    let feasible = split_feasible_observation_indices(values, &feasible_indices, directions, n_feasible);
    let parted = split_infeasible_observation_indices(&violations, gamma - n_feasible);
    assert(infeasible_parted(violations@, (gamma - n_feasible) as nat, parted.0@, parted.1@));
    ObservationSplit { feasible, infeasible_good: parted.0, infeasible_poor: parted.1 }
}

proof fn lemma_parted_rows(violations: Seq<(usize, Float)>, gamma: nat, good: Seq<usize>, poor: Seq<usize>, n: nat)
    requires
        infeasible_parted(violations, gamma, good, poor),
        gamma <= violations.len(),
        forall|k: int| 0 <= k < violations.len() ==> (#[trigger] violations[k]).0 < n,
    ensures
        forall|k: int| 0 <= k < good.len() ==> #[trigger] good[k] < n,
        forall|k: int| 0 <= k < poor.len() ==> #[trigger] poor[k] < n,
{
    if 0 < gamma < violations.len() {
        let order = choose|order: Seq<usize>| #[trigger] by_violation(violations, order)
            && good == indices_at(violations, order.take(gamma as int))
            && poor == indices_at(violations, order.skip(gamma as int));
        assert forall|k: int| 0 <= k < good.len() implies #[trigger] good[k] < n by {
            assert(order.take(gamma as int)[k] == order[k]);
            assert(violations[order[k] as int].0 < n);
        }
        assert forall|k: int| 0 <= k < poor.len() implies #[trigger] poor[k] < n by {
            assert(order.skip(gamma as int)[k] == order[k + gamma]);
            assert(violations[order[k + gamma] as int].0 < n);
        }
    }
}

/// Both parts of a completed split are observations.
pub(crate) proof fn lemma_split_rows(
    plan: ObservationSplit,
    values: Seq<Vec<Float>>,
    observed: Seq<(bool, Float)>,
    directions: Seq<Direction>,
    gamma: nat,
    selected: Seq<usize>,
)
    requires
        observed.len() == values.len(),
        gamma <= values.len(),
        plan.planned(values, observed, directions, gamma),
        is_selection(plan.feasible.candidates@, plan.feasible.take as nat, selected),
    ensures
        plan.feasible.wf(plan.feasible.gamma()),
        ({
            let good = gathered(plan.feasible.feasible_indices@, plan.feasible.promising(selected)) + plan.infeasible_good@;
            let poor = left_out(plan.feasible.feasible_indices@, plan.feasible.promising(selected)) + plan.infeasible_poor@;
            &&& forall|k: int| 0 <= k < good.len() ==> #[trigger] good[k] < values.len()
            &&& forall|k: int| 0 <= k < poor.len() ==> #[trigger] poor[k] < values.len()
        }),
{
    let n = values.len();
    let table = plan.feasible.feasible_indices@;
    let taken = plan.feasible.promising(selected);
    lemma_picks(n, feasible_on(observed));
    lemma_picks(n, infeasible_on(observed));
    lemma_ints(table);
    assert forall|k: int| 0 <= k < table.len() implies #[trigger] table[k] < n by {
        assert(ints(table)[k] == table[k]);
        if gamma < n {
            assert(picks(n, feasible_on(observed))[k] < n);
        }
    }
    let front = gathered(table, taken);
    assert forall|k: int| 0 <= k < front.len() implies #[trigger] front[k] < n by {
        let a = plan.feasible.settled@.len() as int;
        let b = a + selected.len();
        if k < a {
            assert(taken[k] == plan.feasible.settled@[k]);
        } else if k < b {
            assert(taken[k] == selected[k - a]);
            assert(plan.feasible.candidates@.contains(selected[k - a]));
            let q = choose|q: int| 0 <= q < plan.feasible.candidates@.len() && plan.feasible.candidates@[q] == selected[k - a];
            assert(plan.feasible.candidates@[q] < table.len());
        } else {
            assert(taken[k] == plan.feasible.padding@[k - b]);
        }
        assert(table[taken[k] as int] < n);
    }
    let rest = left_out(table, taken);
    lemma_picks(table.len(), outside(taken));
    assert forall|k: int| 0 <= k < rest.len() implies #[trigger] rest[k] < n by {
        assert(table[picks(table.len(), outside(taken))[k]] < n);
    }
    if gamma < n {
        let n_feasible = least(gamma as int, table.len() as int);
        let violations = choose|violations: Seq<(usize, Float)>| {
            &&& #[trigger] int_pairs(violations) == infeasible_violations(observed)
            &&& infeasible_parted(violations, (gamma - n_feasible) as nat, plan.infeasible_good@, plan.infeasible_poor@)
        };
        assert(int_pairs(violations).len() == violations.len());
        assert forall|k: int| 0 <= k < violations.len() implies (#[trigger] violations[k]).0 < n by {
            assert(int_pairs(violations)[k].0 == violations[k].0);
            assert(infeasible_violations(observed)[k].0 == picks(n, infeasible_on(observed))[k]);
        }
        let all = |i: int| true;
        lemma_picks_part(n, all, feasible_on(observed), infeasible_on(observed));
        lemma_picks_all(n, all);
        lemma_parted_rows(violations, (gamma - n_feasible) as nat, plan.infeasible_good@, plan.infeasible_poor@, n);
    }
    let good = front + plan.infeasible_good@;
    let poor = rest + plan.infeasible_poor@;
    assert forall|k: int| 0 <= k < good.len() implies #[trigger] good[k] < n by {
        if k < front.len() {
            assert(good[k] == front[k]);
        } else {
            assert(good[k] == plan.infeasible_good@[k - front.len()]);
        }
    }
    assert forall|k: int| 0 <= k < poor.len() implies #[trigger] poor[k] < n by {
        if k < rest.len() {
            assert(poor[k] == rest[k]);
        } else {
            assert(poor[k] == plan.infeasible_poor@[k - rest.len()]);
        }
    }
}

/// A completed split has exactly as many promising observations as planned, all
/// different, and leaves out exactly the others.
pub proof fn law_split_is_a_partition(plan: FeasibleSplit, selected: Seq<usize>)
    requires
        plan.wf(plan.gamma()),
        is_selection(plan.candidates@, plan.take as nat, selected),
        plan.feasible_indices@.len() <= usize::MAX,
    ensures
        plan.promising(selected).len() == plan.gamma(),
        plan.promising(selected).no_duplicates(),
        left_out(plan.feasible_indices@, plan.promising(selected)).len() == plan.feasible_indices@.len() - plan.gamma(),
{
    let p = plan.promising(selected);
    let n = plan.feasible_indices@.len();
    let s = plan.settled@;
    let d = plan.padding@;
    assert forall|k: int| 0 <= k < selected.len() implies #[trigger] selected[k] < n
        && !s.contains(selected[k]) && !d.contains(selected[k]) by {
        assert(plan.candidates@.contains(selected[k]));
        let q = choose|q: int| 0 <= q < plan.candidates@.len() && plan.candidates@[q] == selected[k];
        assert(plan.candidates@[q] < n);
        if s.contains(selected[k]) {
            let t = choose|t: int| 0 <= t < s.len() && s[t] == selected[k];
            assert(!plan.candidates@.contains(s[t]));
        }
    }
    assert forall|k: int, l: int| 0 <= k < l < p.len() implies p[k] != p[l] by {
        let a = s.len() as int;
        let b = a + selected.len();
        if k < a {
            assert(p[k] == s[k]);
            if l < a {
            } else if l < b {
                assert(p[l] == selected[l - a]);
                assert(!s.contains(selected[l - a]));
            } else {
                assert(p[l] == d[l - b]);
                assert(!d.contains(s[k]));
            }
        } else if k < b {
            assert(p[k] == selected[k - a]);
            if l < b {
                assert(p[l] == selected[l - a]);
            } else {
                assert(p[l] == d[l - b]);
                assert(!d.contains(selected[k - a]));
            }
        } else {
            assert(p[k] == d[k - b] && p[l] == d[l - b]);
        }
    }
    assert forall|k: int| 0 <= k < p.len() implies #[trigger] p[k] < n by {
        let a = s.len() as int;
        let b = a + selected.len();
        if k < a {
            assert(p[k] == s[k]);
        } else if k < b {
            assert(p[k] == selected[k - a]);
        } else {
            assert(p[k] == d[k - b]);
        }
    }
    let inside = |i: int| p.contains(i as usize);
    let all = |i: int| true;
    lemma_picks_part(n, all, inside, outside(p));
    lemma_picks_all(n, all);
    lemma_picks(n, inside);
    let at = picks(n, inside);
    at.unique_seq_to_set();
    lemma_ints(p);
    ints(p).unique_seq_to_set();
    assert(at.to_set() =~= ints(p).to_set()) by {
        assert forall|x: int| at.to_set().contains(x) == ints(p).to_set().contains(x) by {
            if at.contains(x) {
                let k = choose|k: int| 0 <= k < at.len() && at[k] == x;
                assert(inside(at[k]));
                assert(p.contains(x as usize));
            }
            if ints(p).contains(x) {
                let k = choose|k: int| 0 <= k < p.len() && ints(p)[k] == x;
                assert(p[k] == x as usize);
                assert(inside(x));
                assert(at.contains(x));
            }
        }
    }
}

/// The objective values of complete trials.
pub open spec fn values_of(trials: Seq<PersistedTrial>, values: Seq<Vec<Float>>) -> bool {
    &&& values.len() == trials.len()
    &&& forall|i: int| 0 <= i < trials.len() ==> (#[trigger] values[i])@ == trials[i]@.outcome->Complete_0
}

/// Whether each trial is feasible, and its total violation.
pub open spec fn observed_of(trials: Seq<PersistedTrial>, violations: Seq<Float>) -> Seq<(bool, Float)> {
    Seq::new(trials.len(), |i: int| (feasible(trials[i]@.constraints), violations[i]))
}

/// Plans the split of complete trials, with their total constraint violations, into
/// `gamma` promising ones and the rest. There is nothing to plan where all are promising.
pub fn split_trials_for_multi_objective(
    trials: &Vec<PersistedTrial>,
    violations: &Vec<Float>,
    directions: &Vec<Direction>,
    gamma: usize,
) -> (plan: Option<ObservationSplit>)
    requires
        gamma <= trials@.len(),
        violations@.len() == trials@.len(),
        gamma < trials@.len() ==> forall|i: int| 0 <= i < trials@.len() ==> (#[trigger] trials@[i])@.outcome is Complete
            && trials@[i]@.outcome->Complete_0.len() >= directions@.len() && !violations@[i].nan(),
    ensures
        plan is None == (gamma == trials@.len()),
        plan is Some ==> exists|values: Seq<Vec<Float>>| #[trigger] values_of(trials@, values) && plan->Some_0.planned(
            values,
            observed_of(trials@, violations@),
            directions@,
            gamma as nat,
        ),
{
    let n: usize = trials.len();
    if gamma == n {
        return None;
    }
    let mut values: Vec<Vec<Float>> = Vec::new();
    let mut observed: Vec<(bool, Float)> = Vec::new();
    let mut i: usize = 0;
    while i < n
        invariant
            i <= n,
            n == trials@.len(),
            violations@.len() == n,
            forall|i: int| 0 <= i < trials@.len() ==> (#[trigger] trials@[i])@.outcome is Complete
                && trials@[i]@.outcome->Complete_0.len() >= directions@.len() && !violations@[i].nan(),
            values@.len() == i,
            observed@.len() == i,
            forall|k: int| 0 <= k < i ==> (#[trigger] values@[k])@ == trials@[k]@.outcome->Complete_0,
            forall|k: int| 0 <= k < i ==> #[trigger] observed@[k] == (feasible(trials@[k]@.constraints), violations@[k]),
        decreases n - i,
    {
        assert(trials@[i as int]@.outcome is Complete);
        match &trials[i].state_values {
            TrialStateValues::Complete(v) => {
                let mut row: Vec<Float> = Vec::new();
                let mut d: usize = 0;
                while d < v.len()
                    invariant
                        d <= v@.len(),
                        row@ == v@.take(d as int),
                    decreases v@.len() - d,
                {
                    row.push(v[d]);
                    assert(row@ =~= v@.take(d + 1));
                    d = d + 1;
                }
                assert(v@.take(v@.len() as int) =~= v@);
                values.push(row);
            }
            _ => {
                values.push(Vec::new());
            }
        }
        observed.push((is_feasible(&trials[i].constraints), violations[i]));
        i = i + 1;
    }
    proof {
        assert(values_of(trials@, values@));
        assert(observed@ =~= observed_of(trials@, violations@));
        assert forall|k: int| 0 <= k < values@.len() implies (#[trigger] values@[k])@.len() >= directions@.len() by {
            assert(trials@[k]@.outcome is Complete);
        }
        assert forall|k: int| 0 <= k < values@.len() && !(#[trigger] observed@[k]).0 implies !observed@[k].1.nan() by {
            assert(trials@[k]@.outcome is Complete);
        }
    }
    Some(split_observation_indices_for_multi_objective(&values, &observed, directions, gamma))
}

pub(crate) proof fn lemma_picks_all(n: nat, all: spec_fn(int) -> bool)
    requires
        forall|i: int| 0 <= i < n ==> #[trigger] all(i),
    ensures
        picks(n, all).len() == n,
    decreases n,
{
    if n > 0 {
        lemma_picks_all((n - 1) as nat, all);
        assert(all(n - 1));
    }
}

/// Position `x` is taken in the first `n` of `s`, which is within the first `m` where `m`
/// is larger.
proof fn lemma_take_within(s: Seq<int>, n: int, m: int, x: int)
    requires
        0 <= n <= m <= s.len(),
        s.take(n).contains(x),
    ensures
        s.take(m).contains(x),
{
    let k = choose|k: int| 0 <= k < n && s.take(n)[k] == x;
    assert(s.take(m)[k] == x);
}

proof fn lemma_in_sum(a: Seq<int>, b: Seq<int>, x: int)
    ensures
        (a + b).contains(x) == (a.contains(x) || b.contains(x)),
{
    if a.contains(x) {
        let k = choose|k: int| 0 <= k < a.len() && a[k] == x;
        assert((a + b)[k] == x);
    }
    if b.contains(x) {
        let k = choose|k: int| 0 <= k < b.len() && b[k] == x;
        assert((a + b)[a.len() + k] == x);
    }
    if (a + b).contains(x) {
        let k = choose|k: int| 0 <= k < (a + b).len() && (a + b)[k] == x;
        if k < a.len() {
            assert(a[k] == x);
        } else {
            assert(b[k - a.len()] == x);
        }
    }
}

/// Whole fronts that hold no more positions.
proof fn lemma_fewer_fronts(a: Seq<usize>, c: nat, b: Seq<usize>, d: nat)
    requires
        forall|i: int| 0 <= i < a.len() && #[trigger] a[i] < c ==> i < b.len() && b[i] < d,
    ensures
        whole_fronts(a, c).len() <= whole_fronts(b, d).len(),
{
    let x = whole_fronts(a, c);
    let y = whole_fronts(b, d);
    lemma_whole_fronts(a, c);
    lemma_whole_fronts(b, d);
    x.unique_seq_to_set();
    y.unique_seq_to_set();
    assert forall|i: int| x.to_set().contains(i) implies y.to_set().contains(i) by {
        let k = choose|k: int| 0 <= k < x.len() && x[k] == i;
        assert(a[x[k]] < c);
        assert(y.contains(i));
    }
    vstd::set_lib::lemma_len_subset(x.to_set(), y.to_set());
}

/// The fronts below a cutoff hold as many rows as it was made for.
proof fn lemma_cutoff_fronts(rows: Seq<Vec<Float>>, ranks: Seq<usize>, n_below: nat, c: nat)
    requires
        ranks.len() == rows.len(),
        is_cutoff(rows, n_below, c),
        ranked_up_to(rows, ranks, c),
        nan_rows_last(rows, ranks),
        left_over(rows, c).len() > 0,
        left_over(rows, 0).finite(),
        left_over(rows, c).finite(),
        left_over(rows, c).subset_of(left_over(rows, 0)),
    ensures
        whole_fronts(ranks, c).len() >= n_below,
        exists|x: int| 0 <= x < ranks.len() && #[trigger] ranks[x] == c,
{
    let whole = whole_fronts(ranks, c);
    let all = left_over(rows, 0);
    let rest = left_over(rows, c);
    lemma_whole_fronts(ranks, c);
    whole.unique_seq_to_set();
    let x = rest.choose();
    assert(rest.contains(x));
    assert(all.contains(x));
    assert(ranks[x] == c);
    assert forall|i: int| all.contains(i) == (rest.contains(i) || whole.to_set().contains(i)) by {
        if all.contains(i) && !rest.contains(i) {
            assert(ranks[i] < c);
            assert(whole.contains(i));
        }
        if whole.contains(i) {
            let k = choose|k: int| 0 <= k < whole.len() && whole[k] == i;
            assert(ranks[whole[k]] < c);
            if !clean(rows[i]@) {
                assert(ranks[x] < ranks[i]);
            }
        }
    }
    assert(rest.disjoint(whole.to_set())) by {
        assert forall|i: int| rest.contains(i) implies !whole.to_set().contains(i) by {
            if whole.contains(i) {
                let k = choose|k: int| 0 <= k < whole.len() && whole[k] == i;
                assert(ranks[whole[k]] < c);
                assert(all.contains(i));
                assert(ranks[i] == c);
            }
        }
    }
    vstd::set_lib::lemma_set_disjoint_lens(rest, whole.to_set());
    assert(all =~= rest + whole.to_set());
}

/// What is promising among `fewer` is promising among `more`, provided that a selection
/// of fewer out of the same candidates is within a selection of more of them.
pub proof fn law_fewer_promising_are_among_more(
    p: FeasibleSplit,
    q: FeasibleSplit,
    values: Seq<Vec<Float>>,
    feasible: Seq<usize>,
    directions: Seq<Direction>,
    fewer: nat,
    more: nat,
    s: Seq<usize>,
    t: Seq<usize>,
)
    requires
        fewer <= more <= feasible.len(),
        p.planned(values, feasible, directions, fewer),
        q.planned(values, feasible, directions, more),
        is_selection(p.candidates@, p.take as nat, s),
        is_selection(q.candidates@, q.take as nat, t),
        p.candidates@ == q.candidates@ ==> forall|x: usize| s.contains(x) ==> #[trigger] t.contains(x),
    ensures
        forall|x: usize| p.promising(s).contains(x) ==> #[trigger] q.promising(t).contains(x),
{
    let n = feasible.len();
    assert forall|x: usize| p.promising(s).contains(x) implies #[trigger] q.promising(t).contains(x) by {
        assert(x < n) by {
            let all = p.promising(s);
            let k = choose|k: int| 0 <= k < all.len() && all[k] == x;
            if k < p.settled@.len() {
                assert(p.settled@[k] == x);
            } else if k < p.settled@.len() + s.len() {
                assert(s[k - p.settled@.len()] == x);
                assert(p.candidates@.contains(x));
                let j = choose|j: int| 0 <= j < p.candidates@.len() && p.candidates@[j] == x;
                assert(p.candidates@[j] < n);
            } else {
                assert(p.padding@[k - p.settled@.len() - s.len()] == x);
            }
        }
        if more == n {
            assert(q.settled@.len() == ints(q.settled@).len());
            assert(ints(q.settled@)[x as int] == q.settled@[x as int] as int);
            assert(ints(q.settled@)[x as int] == x as int);
            assert(q.promising(t)[x as int] == x);
        } else {
            lemma_promising_grows(p, q, values, feasible, directions, fewer, more, s, t, x);
        }
    }
}

/// A front that is not empty adds to those before it.
proof fn lemma_strictly_more(ranks: Seq<usize>, c: nat, b: nat, y: int)
    requires
        c < b,
        0 <= y < ranks.len(),
        ranks[y] == c,
    ensures
        whole_fronts(ranks, c).len() < whole_fronts(ranks, b).len(),
{
    let front = picks(ranks.len(), of_rank(ranks, c as int));
    lemma_picks(ranks.len(), of_rank(ranks, c as int));
    assert(of_rank(ranks, c as int)(y));
    assert(front.contains(y));
    assert(whole_fronts(ranks, c + 1) == whole_fronts(ranks, c) + front);
    lemma_fewer_fronts(ranks, c + 1, ranks, b);
}

proof fn lemma_picks_same(n: nat, f: spec_fn(int) -> bool, g: spec_fn(int) -> bool)
    requires
        forall|i: int| 0 <= i < n ==> #[trigger] f(i) == g(i),
    ensures
        picks(n, f) == picks(n, g),
    decreases n,
{
    if n > 0 {
        lemma_picks_same((n - 1) as nat, f, g);
        assert(f(n - 1) == g(n - 1));
    }
}

impl FeasibleSplit {
    /// How many of the boundary front are taken.
    spec fn rest(self, gamma: nat) -> int {
        gamma - whole_fronts(self.ranks@, self.boundary as nat).len()
    }

    spec fn n_neg(self, gamma: nat) -> int {
        least(self.rest(gamma), front_neg(self.losses@, self.ranks@, self.boundary).len() as int)
    }

    spec fn n_fin(self, gamma: nat) -> int {
        least(self.rest(gamma) - self.n_neg(gamma), front_finite(self.losses@, self.ranks@, self.boundary).len() as int)
    }

    spec fn n_pos(self, gamma: nat) -> int {
        self.rest(gamma) - self.n_neg(gamma) - self.n_fin(gamma)
    }

    /// Position `x` on the boundary front is taken.
    spec fn takes(self, gamma: nat, selected: Seq<usize>, x: usize) -> bool {
        ||| front_neg(self.losses@, self.ranks@, self.boundary).take(self.n_neg(gamma)).contains(x as int)
        ||| front_pos(self.losses@, self.ranks@, self.boundary).take(self.n_pos(gamma)).contains(x as int)
        ||| if self.take == self.n_fin(gamma) {
            selected.contains(x)
        } else {
            front_finite(self.losses@, self.ranks@, self.boundary).take(self.n_fin(gamma)).contains(x as int)
        }
    }
}

/// What is promising is of the whole fronts or taken of the boundary front.
proof fn lemma_promising_parts(
    plan: FeasibleSplit,
    values: Seq<Vec<Float>>,
    feasible: Seq<usize>,
    directions: Seq<Direction>,
    gamma: nat,
    selected: Seq<usize>,
    x: usize,
)
    requires
        gamma < feasible.len(),
        plan.planned(values, feasible, directions, gamma),
        is_selection(plan.candidates@, plan.take as nat, selected),
        x < feasible.len(),
    ensures
        plan.promising(selected).contains(x) == (plan.ranks@[x as int] < plan.boundary || plan.takes(gamma, selected, x)),
        plan.takes(gamma, selected, x) ==> plan.ranks@[x as int] == plan.boundary,
{
    let rows = plan.losses@;
    let ranks = plan.ranks@;
    let neg = front_neg(rows, ranks, plan.boundary);
    let fin = front_finite(rows, ranks, plan.boundary);
    let pos = front_pos(rows, ranks, plan.boundary);
    let whole = whole_fronts(ranks, plan.boundary as nat);
    let y = x as int;
    let (n_neg, n_fin, n_pos) = (plan.n_neg(gamma), plan.n_fin(gamma), plan.n_pos(gamma));
    lemma_whole_fronts(ranks, plan.boundary as nat);
    lemma_picks(ranks.len(), neg_on(rows, ranks, plan.boundary));
    lemma_picks(ranks.len(), finite_on(rows, ranks, plan.boundary));
    lemma_picks(ranks.len(), pos_on(rows, ranks, plan.boundary));
    assert(whole.contains(y) == (ranks[y] < plan.boundary)) by {
        if whole.contains(y) {
            let k = choose|k: int| 0 <= k < whole.len() && whole[k] == y;
            assert(ranks[whole[k]] < plan.boundary);
        }
    }
    lemma_ints(plan.settled@);
    lemma_ints(plan.candidates@);
    lemma_ints(plan.padding@);
    lemma_ints(selected);
    let all = plan.promising(selected);
    lemma_ints(all);
    assert(ints(all) =~= ints(plan.settled@) + ints(selected) + ints(plan.padding@));
    lemma_in_sum(ints(plan.settled@) + ints(selected), ints(plan.padding@), y);
    lemma_in_sum(ints(plan.settled@), ints(selected), y);
    lemma_in_sum(whole, neg.take(n_neg), y);
    lemma_in_sum(whole + neg.take(n_neg), fin.take(n_fin), y);
    assert(all.contains(x) == ints(all).contains(x as int));
    assert(selected.contains(x) == ints(selected).contains(x as int));
    assert(selected.len() == plan.take);
    if plan.takes(gamma, selected, x) {
        if neg.take(n_neg).contains(y) {
            let k = choose|k: int| 0 <= k < n_neg && neg.take(n_neg)[k] == y;
            assert(neg[k] == y);
        } else if pos.take(n_pos).contains(y) {
            let k = choose|k: int| 0 <= k < n_pos && pos.take(n_pos)[k] == y;
            assert(pos[k] == y);
        } else if plan.take == n_fin {
            let k = choose|k: int| 0 <= k < selected.len() && selected[k] == x;
            assert(plan.candidates@.contains(x));
            assert(ints(plan.candidates@).contains(y));
            let j = choose|j: int| 0 <= j < fin.len() && fin[j] == y;
            assert(fin[j] == y);
        } else {
            let k = choose|k: int| 0 <= k < n_fin && fin.take(n_fin)[k] == y;
            assert(fin[k] == y);
        }
    }
}

/// Some candidate has a number in every objective.
proof fn lemma_some_number(plan: FeasibleSplit, other: Seq<Vec<Float>>, fin: Seq<int>, directions: Seq<Direction>)
    requires
        plan.candidate_losses@.len() == fin.len(),
        forall|k: int| 0 <= k < fin.len() ==> (#[trigger] plan.candidate_losses@[k])@ == other[fin[k]]@,
        plan.worst_point@.len() == directions.len(),
        forall|d: int| 0 <= d < directions.len() ==> is_worst(plan.candidate_losses@, d, #[trigger] plan.worst_point@[d]),
    ensures
        forall|d: int| 0 <= d < directions.len() ==> !#[trigger] no_number_at(other, fin, d),
{
    assert forall|d: int| 0 <= d < directions.len() implies !#[trigger] no_number_at(other, fin, d) by {
        let w = plan.worst_point@[d];
        assert(is_worst(plan.candidate_losses@, d, w));
        let j = choose|j: int| 0 <= j < plan.candidate_losses@.len() && (#[trigger] plan.candidate_losses@[j])@[d] == w;
        assert(other[fin[j]]@[d] == w);
    }
}

/// Where both plans stop at the same front, what the one takes of it the other takes too.
proof fn lemma_same_front(
    p: FeasibleSplit,
    q: FeasibleSplit,
    values: Seq<Vec<Float>>,
    feasible: Seq<usize>,
    directions: Seq<Direction>,
    fewer: nat,
    more: nat,
    s: Seq<usize>,
    t: Seq<usize>,
    x: usize,
)
    requires
        fewer <= more < feasible.len(),
        p.planned(values, feasible, directions, fewer),
        q.planned(values, feasible, directions, more),
        is_selection(p.candidates@, p.take as nat, s),
        is_selection(q.candidates@, q.take as nat, t),
        p.candidates@ == q.candidates@ ==> forall|x: usize| s.contains(x) ==> #[trigger] t.contains(x),
        p.boundary == q.boundary,
        agree_below(p.ranks@, q.ranks@, (p.boundary + 1) as nat),
        forall|k: int| 0 <= k < p.losses@.len() ==> (#[trigger] p.losses@[k])@ == q.losses@[k]@,
        p.takes(fewer, s, x),
    ensures
        q.takes(more, t, x),
{
    let n = feasible.len();
    let a = p.ranks@;
    let b = q.ranks@;
    let at = p.boundary;
    assert forall|i: int| 0 <= i < n implies #[trigger] neg_on(p.losses@, a, at)(i) == neg_on(q.losses@, b, at)(i) by {
        assert(p.losses@[i]@ == q.losses@[i]@ && (a[i] == at) == (b[i] == at));
    }
    assert forall|i: int| 0 <= i < n implies #[trigger] finite_on(p.losses@, a, at)(i) == finite_on(q.losses@, b, at)(i) by {
        assert(p.losses@[i]@ == q.losses@[i]@ && (a[i] == at) == (b[i] == at));
    }
    assert forall|i: int| 0 <= i < n implies #[trigger] pos_on(p.losses@, a, at)(i) == pos_on(q.losses@, b, at)(i) by {
        assert(p.losses@[i]@ == q.losses@[i]@ && (a[i] == at) == (b[i] == at));
    }
    lemma_picks_same(n, neg_on(p.losses@, a, at), neg_on(q.losses@, b, at));
    lemma_picks_same(n, finite_on(p.losses@, a, at), finite_on(q.losses@, b, at));
    lemma_picks_same(n, pos_on(p.losses@, a, at), pos_on(q.losses@, b, at));
    lemma_fewer_fronts(a, at as nat, b, at as nat);
    lemma_fewer_fronts(b, at as nat, a, at as nat);
    let neg = front_neg(p.losses@, a, at);
    let fin = front_finite(p.losses@, a, at);
    let pos = front_pos(p.losses@, a, at);
    let y = x as int;
    if neg.take(p.n_neg(fewer)).contains(y) {
        lemma_take_within(neg, p.n_neg(fewer), q.n_neg(more), y);
    } else if pos.take(p.n_pos(fewer)).contains(y) {
        lemma_take_within(pos, p.n_pos(fewer), q.n_pos(more), y);
    } else {
        let m = p.n_fin(fewer);
        let k = q.n_fin(more);
        assert(m <= k);
        assert(m > 0) by {
            if m == 0 {
                assert(s.len() == 0);
            }
        }
        lemma_picks(n, finite_on(p.losses@, a, at));
        assert forall|j: int| 0 <= j < fin.len() implies p.losses@[#[trigger] fin[j]]@ == q.losses@[fin[j]]@ by {}
        if p.take == m {
            lemma_some_number(p, p.losses@, fin, directions);
            lemma_some_number(p, q.losses@, fin, directions);
            assert(q.take == k);
            assert(ints(p.candidates@) == ints(q.candidates@));
            assert(p.candidates@ =~= q.candidates@) by {
                assert(p.candidates@.len() == ints(p.candidates@).len());
                assert(q.candidates@.len() == ints(q.candidates@).len());
                assert forall|j: int| 0 <= j < p.candidates@.len() implies p.candidates@[j] == q.candidates@[j] by {
                    assert(ints(p.candidates@)[j] == p.candidates@[j] as int);
                    assert(ints(q.candidates@)[j] == q.candidates@[j] as int);
                }
            }
            assert(t.contains(x));
        } else {
            if q.take == k {
                lemma_some_number(q, p.losses@, fin, directions);
            }
            assert(q.take != k);
            lemma_take_within(fin, m, k, y);
        }
    }
}

proof fn lemma_promising_grows(
    p: FeasibleSplit,
    q: FeasibleSplit,
    values: Seq<Vec<Float>>,
    feasible: Seq<usize>,
    directions: Seq<Direction>,
    fewer: nat,
    more: nat,
    s: Seq<usize>,
    t: Seq<usize>,
    x: usize,
)
    requires
        fewer <= more < feasible.len(),
        p.planned(values, feasible, directions, fewer),
        q.planned(values, feasible, directions, more),
        is_selection(p.candidates@, p.take as nat, s),
        is_selection(q.candidates@, q.take as nat, t),
        p.candidates@ == q.candidates@ ==> forall|x: usize| s.contains(x) ==> #[trigger] t.contains(x),
        p.promising(s).contains(x),
        x < feasible.len(),
    ensures
        q.promising(t).contains(x),
{
    let rows = p.losses@;
    let others = q.losses@;
    let a = p.ranks@;
    let b = q.ranks@;
    assert forall|k: int| 0 <= k < rows.len() implies (#[trigger] rows[k])@ == others[k]@ by {
        assert(rows[k]@ == loss_row(values[feasible[k] as int]@, directions));
        assert(others[k]@ == loss_row(values[feasible[k] as int]@, directions));
    }
    law_ranks_stay_below_the_cutoff(rows, others, fewer, more, a, b);
    let whole = whole_fronts(a, p.boundary as nat);
    lemma_front_parts(rows, a, p.boundary);
    lemma_front_parts(others, b, q.boundary);
    lemma_whole_fronts(a, p.boundary as nat);
    lemma_whole_fronts(b, q.boundary as nat);
    // The ranks agree below some front that is not before the boundary.
    let c: nat = if a == b {
        (p.boundary + 1) as nat
    } else {
        choose|c: nat| {
            &&& #[trigger] is_cutoff(rows, fewer, c)
            &&& agree_below(a, b, c)
            &&& ranked_up_to(rows, a, c)
            &&& left_over(rows, c).len() > 0
        }
    };
    assert(agree_below(a, b, c));
    if a != b {
        lemma_left_over_finite(rows, c);
        lemma_left_over_finite(rows, 0);
        lemma_cutoff_fronts(rows, a, fewer, c);
        if p.boundary > c {
            let y = choose|y: int| 0 <= y < a.len() && #[trigger] a[y] == c;
            lemma_fewer_fronts(a, c, a, p.boundary as nat);
            lemma_strictly_more(a, c, p.boundary as nat, y);
        }
    }
    assert(p.boundary <= c);
    if q.boundary < p.boundary {
        lemma_fewer_fronts(b, (q.boundary + 1) as nat, a, p.boundary as nat);
        assert(whole_fronts(b, (q.boundary + 1) as nat) == whole_fronts(b, q.boundary as nat) + picks(b.len(), of_rank(b, q.boundary as int)));
    }
    assert(p.boundary <= q.boundary);
    lemma_promising_parts(p, values, feasible, directions, fewer, s, x);
    lemma_promising_parts(q, values, feasible, directions, more, t, x);
    if a[x as int] < p.boundary {
        assert(b[x as int] < q.boundary);
    } else if p.boundary == c {
        // Nothing of the boundary front is taken.
        if a != b {
            assert(whole.len() == fewer);
        }
    } else {
        if a[x as int] == p.boundary {
            assert(b[x as int] == p.boundary);
        }
        if q.boundary == p.boundary && p.takes(fewer, s, x) {
            lemma_same_front(p, q, values, feasible, directions, fewer, more, s, t, x);
        }
    }
}

/// Losses compare as the direction asks for: the smaller value is the smaller loss under
/// `Minimize`, the larger value under `Maximize`. A NaN stays a NaN.
pub proof fn law_losses_go_by_direction(x: Float, y: Float, direction: Direction)
    ensures
        loss_of(x, direction).nan() == x.nan(),
        direction is Minimize ==> loss_of(x, direction).below(loss_of(y, direction)) == x.below(y),
        direction is Maximize ==> loss_of(x, direction).below(loss_of(y, direction)) == y.below(x),
{
    crate::float::law_negation_turns_the_order_around(x, y);
}

/// The picks are the numbers below the bound that are kept, each once and in ascending order.
pub proof fn law_picks_are_the_kept_numbers(n: nat, keep: spec_fn(int) -> bool, i: int, a: int, b: int)
    ensures
        picks(n, keep).contains(i) <==> 0 <= i < n && keep(i),
        0 <= a < b < picks(n, keep).len() ==> picks(n, keep)[a] < picks(n, keep)[b],
{
    lemma_picks(n, keep);
    lemma_picks_ascend(n, keep);
}

/// Infeasible observations are parted by their violation: exactly `gamma` are promising, and
/// one is promising only where every less violating one is.
pub proof fn law_infeasible_are_parted_by_violation(
    violations: Seq<(usize, Float)>,
    gamma: nat,
    good: Seq<usize>,
    poor: Seq<usize>,
    i: int,
    j: int,
)
    requires
        infeasible_parted(violations, gamma, good, poor),
        gamma <= violations.len() <= usize::MAX,
        forall|a: int, b: int| 0 <= a < b < violations.len() ==> (#[trigger] violations[a]).0 != (#[trigger] violations[b]).0,
        0 <= i < violations.len(),
        0 <= j < violations.len(),
    ensures
        good.len() == gamma,
        poor.len() == violations.len() - gamma,
        good.contains(violations[i].0) != poor.contains(violations[i].0),
        good.contains(violations[i].0) && violations[j].1.below(violations[i].1) ==> good.contains(violations[j].0),
{
    if 0 < gamma < violations.len() {
        let order = choose|order: Seq<usize>| #[trigger] by_violation(violations, order)
            && good == indices_at(violations, order.take(gamma as int))
            && poor == indices_at(violations, order.skip(gamma as int));
        assert(order.contains(i as usize) && order.contains(j as usize));
        let p = choose|p: int| 0 <= p < order.len() && order[p] == i as usize;
        let q = choose|q: int| 0 <= q < order.len() && order[q] == j as usize;
        lemma_indices_at(violations, order, gamma, good, poor, p);
        lemma_indices_at(violations, order, gamma, good, poor, q);
    } else {
        let all = Seq::new(violations.len(), |k: int| violations[k].0);
        if gamma == 0 {
            assert(poor[i] == violations[i].0);
        } else {
            assert(good[i] == violations[i].0);
            assert(good[j] == violations[j].0);
        }
    }
}

proof fn lemma_indices_at(violations: Seq<(usize, Float)>, order: Seq<usize>, gamma: nat, good: Seq<usize>, poor: Seq<usize>, p: int)
    requires
        by_violation(violations, order),
        good == indices_at(violations, order.take(gamma as int)),
        poor == indices_at(violations, order.skip(gamma as int)),
        gamma <= violations.len(),
        forall|a: int, b: int| 0 <= a < b < violations.len() ==> (#[trigger] violations[a]).0 != (#[trigger] violations[b]).0,
        0 <= p < order.len(),
    ensures
        good.contains(violations[order[p] as int].0) == (p < gamma),
        poor.contains(violations[order[p] as int].0) == (p >= gamma),
{
    let x = violations[order[p] as int].0;
    if p < gamma {
        assert(good[p] == x);
    } else {
        assert(poor[p - gamma] == x);
    }
    if good.contains(x) {
        let k = choose|k: int| 0 <= k < good.len() && good[k] == x;
        assert(violations[order[k] as int].0 == x);
        assert(order[k] == order[p]);
    }
    if poor.contains(x) {
        let k = choose|k: int| 0 <= k < poor.len() && poor[k] == x;
        assert(violations[order[k + gamma] as int].0 == x);
        assert(order[k + gamma] == order[p]);
    }
}

/// An infeasible observation is promising only where every feasible one is.
pub proof fn law_feasible_observations_come_first(
    plan: ObservationSplit,
    values: Seq<Vec<Float>>,
    observed: Seq<(bool, Float)>,
    directions: Seq<Direction>,
    gamma: nat,
    selected: Seq<usize>,
    i: usize,
)
    requires
        plan.planned(values, observed, directions, gamma),
        observed.len() == values.len(),
        gamma < values.len() <= usize::MAX,
        is_selection(plan.feasible.candidates@, plan.feasible.take as nat, selected),
        plan.infeasible_good@.len() > 0,
        i < values.len(),
        observed[i as int].0,
    ensures
        gathered(plan.feasible.feasible_indices@, plan.feasible.promising(selected)).contains(i),
{
    let table = plan.feasible.feasible_indices@;
    let n_feasible = least(gamma as int, table.len() as int);
    let violations = choose|violations: Seq<(usize, Float)>| {
        &&& #[trigger] int_pairs(violations) == infeasible_violations(observed)
        &&& infeasible_parted(violations, (gamma - n_feasible) as nat, plan.infeasible_good@, plan.infeasible_poor@)
    };
    lemma_picks(values.len(), feasible_on(observed));
    lemma_ints(table);
    assert(feasible_on(observed)(i as int));
    assert(picks(values.len(), feasible_on(observed)).contains(i as int));
    let k = choose|k: int| 0 <= k < table.len() && ints(table)[k] == i as int;
    assert(table[k] == i);
    if n_feasible == gamma {
        assert(plan.infeasible_good@.len() == 0);
    }
    let promising = plan.feasible.promising(selected);
    assert(n_feasible == table.len());
    assert(plan.feasible.planned(values, table, directions, table.len()));
    let settled = plan.feasible.settled@;
    lemma_ints(settled);
    assert(ints(settled) == Seq::new(table.len(), |i: int| i));
    assert(ints(settled).len() == settled.len());
    assert(ints(settled)[k] == settled[k] as int);
    assert(promising[k] == k);
    assert(gathered(table, promising)[k] == i);
}

/// A feasible observation is promising only where every feasible observation that dominates it
/// is: one that is at least as good in every objective as its direction counts, and better in
/// one.
pub proof fn law_promising_observations_bring_their_betters(
    plan: FeasibleSplit,
    values: Seq<Vec<Float>>,
    feasible: Seq<usize>,
    directions: Seq<Direction>,
    gamma: nat,
    selected: Seq<usize>,
    x: usize,
    y: usize,
    better: int,
)
    requires
        gamma < feasible.len(),
        plan.planned(values, feasible, directions, gamma),
        is_selection(plan.candidates@, plan.take as nat, selected),
        x < feasible.len(),
        y < feasible.len(),
        plan.promising(selected).contains(x),
        forall|d: int|
            0 <= d < directions.len() ==> !(#[trigger] values[feasible[x as int] as int]@[d]).nan() && !values[feasible[y as int] as int]@[d].nan(),
        forall|d: int|
            0 <= d < directions.len() ==> match #[trigger] directions[d] {
                Direction::Minimize => !values[feasible[x as int] as int]@[d].below(values[feasible[y as int] as int]@[d]),
                Direction::Maximize => !values[feasible[y as int] as int]@[d].below(values[feasible[x as int] as int]@[d]),
            },
        0 <= better < directions.len(),
        match directions[better] {
            Direction::Minimize => values[feasible[y as int] as int]@[better].below(values[feasible[x as int] as int]@[better]),
            Direction::Maximize => values[feasible[x as int] as int]@[better].below(values[feasible[y as int] as int]@[better]),
        },
    ensures
        plan.promising(selected).contains(y),
{
    let rows = plan.losses@;
    let ranks = plan.ranks@;
    let u = values[feasible[x as int] as int]@;
    let v = values[feasible[y as int] as int]@;
    let a = rows[x as int]@;
    let b = rows[y as int]@;
    assert(a == loss_row(u, directions));
    assert(b == loss_row(v, directions));
    assert forall|d: int| 0 <= d < directions.len() implies !(#[trigger] a[d]).nan() && !b[d].nan() && b[d].rank() <= a[d].rank() by {
        assert(!u[d].nan());
        assert(directions[d] == directions[d]);
        law_losses_go_by_direction(u[d], v[d], directions[d]);
        law_losses_go_by_direction(v[d], u[d], directions[d]);
    }
    assert(clean(a) && clean(b));
    law_losses_go_by_direction(v[better], u[better], directions[better]);
    assert(!a[better].nan());
    assert(b[better].rank() < a[better].rank());
    assert(dominates(b, a));
    lemma_promising_parts(plan, values, feasible, directions, gamma, selected, x);
    lemma_promising_parts(plan, values, feasible, directions, gamma, selected, y);
    law_ranks_respect_dominance(rows, gamma, ranks, y as int, x as int);
    if ranks[x as int] == plan.boundary && ranks[y as int] == plan.boundary {
        assert(ranks[x as int] == ranks[x as int] && ranks[y as int] == ranks[y as int]);
        if rows[0]@.len() == 2 {
            law_dominated_rows_rank_later(rows, y as int, x as int, ranks[y as int] as nat, ranks[x as int] as nat);
        } else {
            let c = choose|c: nat| #[trigger] is_cutoff(rows, gamma, c) && ranked_up_to(rows, ranks, c);
            lemma_left_over_finite(rows, 0);
            lemma_left_over_finite(rows, c);
            if !reaches(rows, x as int, c) && !reaches(rows, y as int, c) {
                law_dominated_rows_rank_later(rows, y as int, x as int, ranks[y as int] as nat, ranks[x as int] as nat);
            } else {
                let z = if reaches(rows, x as int, c) {
                    x as int
                } else {
                    y as int
                };
                assert(left_over(rows, c).contains(z));
                assert(left_over(rows, c).len() > 0) by {
                    vstd::set_lib::lemma_set_empty_equivalency_len(left_over(rows, c));
                }
                lemma_cutoff_fronts(rows, ranks, gamma, c);
                assert(plan.boundary == c);
            }
        }
    }
}

/// Of two rows of values the losses of the first dominate those of the second exactly where the
/// first is at least as good in every objective, as the objective's direction counts, and better
/// in one.
pub proof fn law_dominance_of_losses(u: Seq<Float>, v: Seq<Float>, directions: Seq<Direction>)
    requires
        u.len() == directions.len(),
        v.len() == directions.len(),
        clean(u),
        clean(v),
    ensures
        dominates(loss_row(u, directions), loss_row(v, directions)) <==> {
            &&& forall|k: int|
                0 <= k < directions.len() ==> match #[trigger] directions[k] {
                    Direction::Minimize => !v[k].below(u[k]),
                    Direction::Maximize => !u[k].below(v[k]),
                }
            &&& exists|k: int|
                0 <= k < directions.len() && match #[trigger] directions[k] {
                    Direction::Minimize => u[k].below(v[k]),
                    Direction::Maximize => v[k].below(u[k]),
                }
        },
{
    let x = loss_row(u, directions);
    let y = loss_row(v, directions);
    assert forall|k: int| 0 <= k < directions.len() implies !(#[trigger] x[k]).nan() && !y[k].nan() && (x[k].below(y[k]) == match directions[k] {
        Direction::Minimize => u[k].below(v[k]),
        Direction::Maximize => v[k].below(u[k]),
    }) && (y[k].below(x[k]) == match directions[k] {
        Direction::Minimize => v[k].below(u[k]),
        Direction::Maximize => u[k].below(v[k]),
    }) by {
        assert(!u[k].nan() && !v[k].nan());
        law_losses_go_by_direction(u[k], v[k], directions[k]);
        law_losses_go_by_direction(v[k], u[k], directions[k]);
    }
    assert forall|k: int| 0 <= k < y.len() implies !(#[trigger] y[k]).nan() by {
        assert(!x[k].nan());
    }
    assert(clean(x) && clean(y));
    law_dominance_compares_every_objective(x, y);
    if dominates(x, y) {
        assert forall|k: int| 0 <= k < directions.len() implies match #[trigger] directions[k] {
            Direction::Minimize => !v[k].below(u[k]),
            Direction::Maximize => !u[k].below(v[k]),
        } by {
            assert(!x[k].nan() && !y[k].below(x[k]));
        }
        let k = choose|k: int| 0 <= k < x.len() && (#[trigger] x[k]).below(y[k]);
        assert(match directions[k] {
            Direction::Minimize => u[k].below(v[k]),
            Direction::Maximize => v[k].below(u[k]),
        });
    }
    if (forall|k: int|
        0 <= k < directions.len() ==> match #[trigger] directions[k] {
            Direction::Minimize => !v[k].below(u[k]),
            Direction::Maximize => !u[k].below(v[k]),
        }) && (exists|k: int|
        0 <= k < directions.len() && match #[trigger] directions[k] {
            Direction::Minimize => u[k].below(v[k]),
            Direction::Maximize => v[k].below(u[k]),
        }) {
        assert forall|k: int| 0 <= k < x.len() implies !(#[trigger] y[k]).below(x[k]) by {
            assert(directions[k] == directions[k]);
            assert(!x[k].nan());
        }
        let k = choose|k: int|
            0 <= k < directions.len() && match #[trigger] directions[k] {
                Direction::Minimize => u[k].below(v[k]),
                Direction::Maximize => v[k].below(u[k]),
            };
        assert(x[k].below(y[k]));
    }
}

/// The worst number of an objective is one of the rows' numbers, and no number is above it.
pub proof fn law_worst_number_is_the_largest(rows: Seq<Vec<Float>>, d: int, w: Float, j: int)
    requires
        is_worst(rows, d, w),
        0 <= j < rows.len(),
    ensures
        !w.nan(),
        !w.below(rows[j]@[d]),
        exists|k: int| 0 <= k < rows.len() && (#[trigger] rows[k])@[d] == w,
{
    assert(rows[j]@[d].nan() || rows[j]@[d].rank() <= w.rank());
}

/// Of the front that is promising in part, a row with a negative infinity goes before every other
/// one, and a row with a positive infinity behind every other one.
pub proof fn law_infinite_losses_decide_on_the_boundary(
    plan: FeasibleSplit,
    values: Seq<Vec<Float>>,
    feasible: Seq<usize>,
    directions: Seq<Direction>,
    gamma: nat,
    selected: Seq<usize>,
    x: usize,
    y: usize,
)
    requires
        gamma < feasible.len(),
        plan.planned(values, feasible, directions, gamma),
        is_selection(plan.candidates@, plan.take as nat, selected),
        x < feasible.len(),
        y < feasible.len(),
        plan.ranks@[x as int] == plan.boundary,
        plan.ranks@[y as int] == plan.boundary,
        plan.promising(selected).contains(x),
    ensures
        has_neg_inf(plan.losses@[y as int]@) && !has_neg_inf(plan.losses@[x as int]@) ==> plan.promising(selected).contains(y),
        has_pos_inf(plan.losses@[x as int]@) && !has_neg_inf(plan.losses@[x as int]@) && !has_pos_inf(plan.losses@[y as int]@) ==> plan.promising(
            selected,
        ).contains(y),
{
    let rows = plan.losses@;
    let ranks = plan.ranks@;
    let neg = front_neg(rows, ranks, plan.boundary);
    let fin = front_finite(rows, ranks, plan.boundary);
    let pos = front_pos(rows, ranks, plan.boundary);
    lemma_promising_parts(plan, values, feasible, directions, gamma, selected, x);
    lemma_promising_parts(plan, values, feasible, directions, gamma, selected, y);
    assert(plan.takes(gamma, selected, x));
    lemma_picks(ranks.len(), neg_on(rows, ranks, plan.boundary));
    lemma_picks(ranks.len(), finite_on(rows, ranks, plan.boundary));
    lemma_picks(ranks.len(), pos_on(rows, ranks, plan.boundary));
    lemma_taken_kind(plan, values, feasible, directions, gamma, selected, x);
    if has_neg_inf(rows[y as int]@) && !has_neg_inf(rows[x as int]@) {
        assert(neg_on(rows, ranks, plan.boundary)(y as int));
        assert(neg.contains(y as int));
        assert(plan.n_neg(gamma) == neg.len());
        assert(neg.take(neg.len() as int) =~= neg);
    }
    if has_pos_inf(rows[x as int]@) && !has_neg_inf(rows[x as int]@) && !has_pos_inf(rows[y as int]@) {
        assert(plan.n_fin(gamma) == fin.len() && plan.n_neg(gamma) == neg.len());
        if has_neg_inf(rows[y as int]@) {
            assert(neg_on(rows, ranks, plan.boundary)(y as int));
            assert(neg.contains(y as int));
            assert(neg.take(neg.len() as int) =~= neg);
        } else {
            assert(finite_on(rows, ranks, plan.boundary)(y as int));
            assert(fin.contains(y as int));
            assert(fin.take(fin.len() as int) =~= fin);
            lemma_all_candidates(plan, values, feasible, directions, gamma, selected, y);
        }
    }
}

/// What is taken of the boundary front says how far the kinds before it are taken.
proof fn lemma_taken_kind(
    plan: FeasibleSplit,
    values: Seq<Vec<Float>>,
    feasible: Seq<usize>,
    directions: Seq<Direction>,
    gamma: nat,
    selected: Seq<usize>,
    x: usize,
)
    requires
        gamma < feasible.len(),
        plan.planned(values, feasible, directions, gamma),
        is_selection(plan.candidates@, plan.take as nat, selected),
        x < feasible.len(),
        plan.takes(gamma, selected, x),
    ensures
        !has_neg_inf(plan.losses@[x as int]@) ==> plan.n_neg(gamma) == front_neg(plan.losses@, plan.ranks@, plan.boundary).len(),
        !has_neg_inf(plan.losses@[x as int]@) && has_pos_inf(plan.losses@[x as int]@) ==> plan.n_fin(gamma) == front_finite(
            plan.losses@,
            plan.ranks@,
            plan.boundary,
        ).len(),
{
    let rows = plan.losses@;
    let ranks = plan.ranks@;
    let neg = front_neg(rows, ranks, plan.boundary);
    let fin = front_finite(rows, ranks, plan.boundary);
    let pos = front_pos(rows, ranks, plan.boundary);
    lemma_picks(ranks.len(), neg_on(rows, ranks, plan.boundary));
    lemma_picks(ranks.len(), finite_on(rows, ranks, plan.boundary));
    lemma_picks(ranks.len(), pos_on(rows, ranks, plan.boundary));
    let n_neg = plan.n_neg(gamma);
    let n_fin = plan.n_fin(gamma);
    let n_pos = plan.n_pos(gamma);
    assert(0 <= n_neg <= neg.len() && 0 <= n_fin <= fin.len() && 0 <= n_pos <= pos.len());
    if neg.take(n_neg).contains(x as int) {
        let firsts = neg.take(n_neg);
        let k = choose|k: int| 0 <= k < firsts.len() && firsts[k] == x as int;
        assert(neg[k] == x as int);
        assert(neg_on(rows, ranks, plan.boundary)(neg[k]));
    } else if pos.take(n_pos).contains(x as int) {
        assert(n_pos > 0);
    } else {
        assert(n_fin > 0) by {
            if plan.take == n_fin {
                assert(selected.contains(x));
            } else {
                assert(fin.take(n_fin).contains(x as int));
            }
        }
        lemma_finite_taken(plan, values, feasible, directions, gamma, selected, x);
    }
}

/// What is taken neither for a negative nor for a positive infinity holds no infinity.
proof fn lemma_finite_taken(
    plan: FeasibleSplit,
    values: Seq<Vec<Float>>,
    feasible: Seq<usize>,
    directions: Seq<Direction>,
    gamma: nat,
    selected: Seq<usize>,
    x: usize,
)
    requires
        gamma < feasible.len(),
        plan.planned(values, feasible, directions, gamma),
        is_selection(plan.candidates@, plan.take as nat, selected),
        plan.n_fin(gamma) > 0,
        if plan.take == plan.n_fin(gamma) {
            selected.contains(x)
        } else {
            front_finite(plan.losses@, plan.ranks@, plan.boundary).take(plan.n_fin(gamma)).contains(x as int)
        },
    ensures
        !has_neg_inf(plan.losses@[x as int]@),
        !has_pos_inf(plan.losses@[x as int]@),
{
    let rows = plan.losses@;
    let ranks = plan.ranks@;
    let fin = front_finite(rows, ranks, plan.boundary);
    lemma_picks(ranks.len(), finite_on(rows, ranks, plan.boundary));
    lemma_ints(plan.candidates@);
    if plan.take == plan.n_fin(gamma) {
        let k = choose|k: int| 0 <= k < selected.len() && selected[k] == x;
        assert(plan.candidates@.contains(selected[k]));
        let q = choose|q: int| 0 <= q < plan.candidates@.len() && plan.candidates@[q] == x;
        assert(ints(plan.candidates@).len() == plan.candidates@.len());
        assert(ints(plan.candidates@)[q] == x as int);
        assert(ints(plan.candidates@) == fin);
        assert(finite_on(rows, ranks, plan.boundary)(fin[q]));
    } else {
        let firsts = fin.take(plan.n_fin(gamma));
        let k = choose|k: int| 0 <= k < firsts.len() && firsts[k] == x as int;
        assert(fin[k] == x as int);
        assert(finite_on(rows, ranks, plan.boundary)(fin[k]));
    }
}

/// Where all candidates are taken, each of them is.
proof fn lemma_all_candidates(
    plan: FeasibleSplit,
    values: Seq<Vec<Float>>,
    feasible: Seq<usize>,
    directions: Seq<Direction>,
    gamma: nat,
    selected: Seq<usize>,
    y: usize,
)
    requires
        gamma < feasible.len(),
        plan.planned(values, feasible, directions, gamma),
        is_selection(plan.candidates@, plan.take as nat, selected),
        plan.n_fin(gamma) == front_finite(plan.losses@, plan.ranks@, plan.boundary).len(),
        front_finite(plan.losses@, plan.ranks@, plan.boundary).contains(y as int),
    ensures
        plan.takes(gamma, selected, y),
{
    let fin = front_finite(plan.losses@, plan.ranks@, plan.boundary);
    assert(fin.take(fin.len() as int) =~= fin);
    if plan.take == plan.n_fin(gamma) {
        lemma_ints(plan.candidates@);
        assert(ints(plan.candidates@) == fin);
        assert(ints(plan.candidates@).len() == plan.candidates@.len());
        assert(selected.len() == plan.candidates@.len());
        selected.unique_seq_to_set();
        plan.candidates@.unique_seq_to_set();
        assert(selected.to_set().subset_of(plan.candidates@.to_set())) by {
            assert forall|z: usize| selected.to_set().contains(z) implies plan.candidates@.to_set().contains(z) by {
                let k = choose|k: int| 0 <= k < selected.len() && selected[k] == z;
                assert(plan.candidates@.contains(selected[k]));
            }
        }
        vstd::set_lib::lemma_subset_equality(selected.to_set(), plan.candidates@.to_set());
        let q = choose|q: int| 0 <= q < fin.len() && fin[q] == y as int;
        assert(ints(plan.candidates@)[q] == plan.candidates@[q] as int);
        assert(plan.candidates@.contains(y));
        assert(plan.candidates@.to_set().contains(y));
        assert(selected.to_set().contains(y));
    }
}

} // verus!
