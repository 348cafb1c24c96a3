//! How good a greedy selection is.
//!
//! The hypervolume of some rows is the volume of all that they dominate up to the reference
//! point. Measured exactly, it is a number of cells of a grid that is fine enough for every
//! row: here a row stands for the set of cells that it dominates, and the volume of a selection
//! is the number of cells that some row of it dominates.

use vstd::arithmetic::power::{lemma_pow_positive, pow};
use vstd::prelude::*;

use crate::float::{finite, Float};
use crate::multi_objective::hssp::{is_argmax, law_lazy_pick_is_greedy, GreedySearch, GreedyStep, PlaneSearch, SubsetTask};
use crate::multi_objective::selection::{greedy_course, plane_course, searches, searches_plane, Arithmetic};

verus! {

/// The cells that each row dominates, by the position of the row.
pub type Cells = spec_fn(usize) -> Set<Seq<int>>;

/// Every one of the first `n` rows dominates finitely many cells.
pub open spec fn bounded(cells: Cells, n: nat) -> bool {
    forall|x: usize| x < n ==> (#[trigger] cells(x)).finite()
}

/// The cells that some of the rows dominate.
pub open spec fn covered(cells: Cells, rows: Seq<usize>) -> Set<Seq<int>>
    decreases rows.len(),
{
    if rows.len() == 0 {
        Set::empty()
    } else {
        covered(cells, rows.drop_last()).union(cells(rows.last()))
    }
}

/// The volume of the rows, in cells.
pub open spec fn volume(cells: Cells, rows: Seq<usize>) -> int {
    covered(cells, rows).len() as int
}

/// Row `x` adds the most to the selected rows, of the first `n`.
pub open spec fn adds_most(cells: Cells, n: nat, selected: Seq<usize>, x: usize) -> bool {
    forall|y: usize| y < n && !selected.contains(y) ==> #[trigger] volume(cells, selected.push(y)) <= volume(cells, selected.push(x))
}

/// Each of the rows, when it was selected, added the most.
pub open spec fn picked_greedily(cells: Cells, n: nat, selected: Seq<usize>) -> bool {
    forall|k: int| 0 <= k < selected.len() ==> adds_most(cells, n, #[trigger] selected.take(k), selected[k])
}

proof fn lemma_covered(cells: Cells, n: nat, rows: Seq<usize>)
    requires
        bounded(cells, n),
        forall|k: int| 0 <= k < rows.len() ==> #[trigger] rows[k] < n,
    ensures
        covered(cells, rows).finite(),
        forall|k: int| 0 <= k < rows.len() ==> cells(#[trigger] rows[k]).subset_of(covered(cells, rows)),
    decreases rows.len(),
{
    if rows.len() > 0 {
        let rest = rows.drop_last();
        assert forall|k: int| 0 <= k < rest.len() implies #[trigger] rest[k] < n by {
            assert(rows[k] < n);
        }
        lemma_covered(cells, n, rest);
        assert(rows[rows.len() - 1] < n);
        assert(cells(rows.last()).finite());
        assert forall|k: int| 0 <= k < rows.len() implies cells(#[trigger] rows[k]).subset_of(covered(cells, rows)) by {
            if k < rest.len() {
                assert(rest[k] == rows[k]);
                assert(cells(rest[k]).subset_of(covered(cells, rest)));
            }
        }
    }
}

proof fn lemma_union_len(a: Set<Seq<int>>, c: Set<Seq<int>>)
    requires
        a.finite(),
        c.finite(),
    ensures
        a.union(c).finite(),
        a.union(c).len() == a.len() + c.difference(a).len(),
{
    let d = c.difference(a);
    assert(a.union(c) =~= a.union(d));
    vstd::set_lib::lemma_set_disjoint_lens(a, d);
}

/// What a set adds is no more to a larger set than to a smaller one.
proof fn lemma_adds_less(a: Set<Seq<int>>, b: Set<Seq<int>>, c: Set<Seq<int>>)
    requires
        a.finite(),
        b.finite(),
        c.finite(),
        a.subset_of(b),
    ensures
        b.union(c).len() - b.len() <= a.union(c).len() - a.len(),
{
    lemma_union_len(a, c);
    lemma_union_len(b, c);
    vstd::set_lib::lemma_len_subset(c.difference(b), c.difference(a));
}

/// The cells of the selected rows and of the first `m` others.
spec fn joint(cells: Cells, selected: Seq<usize>, others: Seq<usize>, m: int) -> Set<Seq<int>> {
    covered(cells, selected).union(covered(cells, others.take(m)))
}

/// Together, `m` other rows add at most `m` times what the best row adds.
proof fn lemma_others_add(cells: Cells, n: nat, selected: Seq<usize>, x: usize, others: Seq<usize>, m: int)
    requires
        bounded(cells, n),
        forall|k: int| 0 <= k < selected.len() ==> #[trigger] selected[k] < n,
        forall|k: int| 0 <= k < others.len() ==> #[trigger] others[k] < n,
        x < n,
        adds_most(cells, n, selected, x),
        0 <= m <= others.len(),
    ensures
        joint(cells, selected, others, m).finite(),
        joint(cells, selected, others, m).len() <= volume(cells, selected) + m * (volume(cells, selected.push(x)) - volume(
            cells,
            selected,
        )),
    decreases m,
{
    let a = covered(cells, selected);
    let gain = volume(cells, selected.push(x)) - volume(cells, selected);
    lemma_covered(cells, n, selected);
    assert(selected.push(x).drop_last() =~= selected);
    if m == 0 {
        assert(others.take(0) =~= Seq::<usize>::empty());
        assert(joint(cells, selected, others, 0) =~= a);
        assert(0 * gain == 0);
    } else {
        lemma_others_add(cells, n, selected, x, others, m - 1);
        let y = others[m - 1];
        let before = joint(cells, selected, others, m - 1);
        let c = cells(y);
        assert(others.take(m).drop_last() =~= others.take(m - 1));
        assert(joint(cells, selected, others, m) =~= before.union(c));
        assert(a.subset_of(before));
        lemma_union_len(before, c);
        lemma_adds_less(a, before, c);
        assert(a.union(c).len() - a.len() <= gain) by {
            if selected.contains(y) {
                let k = choose|k: int| 0 <= k < selected.len() && selected[k] == y;
                assert(cells(selected[k]).subset_of(a));
                assert(a.union(c) =~= a);
                lemma_union_len(a, cells(x));
            } else {
                assert(selected.push(y).drop_last() =~= selected);
                assert(volume(cells, selected.push(y)) == a.union(c).len());
            }
        }
        assert(m * gain == (m - 1) * gain + gain) by (nonlinear_arith);
    }
}

/// After `i` picks, at most the `i`-th power of `1 - 1/k` of the volume of `k` other rows is
/// missing.
proof fn lemma_missing(cells: Cells, n: nat, selected: Seq<usize>, others: Seq<usize>, i: int)
    requires
        bounded(cells, n),
        forall|k: int| 0 <= k < selected.len() ==> #[trigger] selected[k] < n,
        forall|k: int| 0 <= k < others.len() ==> #[trigger] others[k] < n,
        picked_greedily(cells, n, selected),
        others.len() == selected.len(),
        0 <= i <= selected.len(),
        selected.len() > 0,
    ensures
        pow(selected.len() as int, i as nat) * (volume(cells, others) - volume(cells, selected.take(i))) <= pow(
            selected.len() - 1,
            i as nat,
        ) * volume(cells, others),
    decreases i,
{
    let k = selected.len() as int;
    let best = volume(cells, others);
    reveal(pow);
    if i == 0 {
        assert(selected.take(0) =~= Seq::<usize>::empty());
        assert(covered(cells, selected.take(0)) =~= Set::<Seq<int>>::empty());
        assert(pow(k, 0) == 1 && pow(k - 1, 0) == 1);
    } else {
        lemma_missing(cells, n, selected, others, i - 1);
        let had = selected.take(i - 1);
        let x = selected[i - 1];
        assert(selected.take(i) =~= had.push(x));
        assert(adds_most(cells, n, had, x));
        assert forall|j: int| 0 <= j < had.len() implies #[trigger] had[j] < n by {
            assert(selected[j] < n);
        }
        lemma_others_add(cells, n, had, x, others, k);
        lemma_covered(cells, n, others);
        assert(others.take(k) =~= others);
        let whole = joint(cells, had, others, k);
        assert(covered(cells, others).subset_of(whole));
        vstd::set_lib::lemma_len_subset(covered(cells, others), whole);
        let was = best - volume(cells, had);
        let is = best - volume(cells, selected.take(i));
        assert(best <= volume(cells, had) + k * (was - is));
        assert(k * is <= (k - 1) * was) by (nonlinear_arith)
            requires was <= k * (was - is);
        let p = pow(k, (i - 1) as nat);
        let q = pow(k - 1, (i - 1) as nat);
        lemma_pow_positive(k, (i - 1) as nat);
        assert(pow(k, i as nat) == k * p);
        assert(pow(k - 1, i as nat) == (k - 1) * q);
        assert((k * p) * is <= ((k - 1) * q) * best) by (nonlinear_arith)
            requires k * is <= (k - 1) * was, p * was <= q * best, p > 0, k >= 1;
    }
}

/// Greedy picks are nearly the best ones: `k` of them have at least `1 - (1 - 1/k)^k` of the
/// volume of any `k` rows, which is more than `1 - 1/e` of it.
pub proof fn law_greedy_picks_are_nearly_best(cells: Cells, n: nat, selected: Seq<usize>, others: Seq<usize>)
    requires
        bounded(cells, n),
        forall|k: int| 0 <= k < selected.len() ==> #[trigger] selected[k] < n,
        forall|k: int| 0 <= k < others.len() ==> #[trigger] others[k] < n,
        picked_greedily(cells, n, selected),
        others.len() == selected.len(),
        selected.len() > 0,
    ensures
        ({
            let k = selected.len() as int;
            pow(k, k as nat) * (volume(cells, others) - volume(cells, selected)) <= pow(k - 1, k as nat) * volume(cells, others)
        }),
{
    let k = selected.len() as int;
    lemma_missing(cells, n, selected, others, k);
    assert(selected.take(k) =~= selected);
}

/// The numbers order the rows at the given slots as what they add does.
pub open spec fn orders(numbers: Seq<Float>, cells: Cells, slots: Seq<usize>, selected: Seq<usize>) -> bool {
    &&& numbers.len() == slots.len()
    &&& forall|i: int| 0 <= i < numbers.len() ==> finite(#[trigger] numbers[i])
    &&& forall|i: int, j: int| 0 <= i < numbers.len() && 0 <= j < numbers.len() && (#[trigger] numbers[i]).rank() <= (#[trigger]
        numbers[j]).rank() ==> volume(cells, selected.push(slots[i])) <= volume(cells, selected.push(slots[j]))
}

/// Every row that is not selected has a slot.
spec fn slotted(n: nat, slots: Seq<usize>, selected: Seq<usize>) -> bool {
    forall|y: usize| y < n && !selected.contains(y) ==> #[trigger] slots.contains(y)
}

proof fn lemma_all_slotted(n: nat, slots: Seq<usize>, selected: Seq<usize>)
    requires
        crate::multi_objective::hssp::parted(n, slots, selected),
        n <= usize::MAX,
    ensures
        slotted(n, slots, selected),
{
    let both = slots + selected;
    let inside = crate::multi_objective::split::ints(both);
    crate::multi_objective::split::lemma_ints(both);
    inside.unique_seq_to_set();
    let all = vstd::set_lib::set_int_range(0, n as int);
    vstd::set_lib::lemma_int_range(0, n as int);
    assert forall|x: int| inside.to_set().contains(x) implies all.contains(x) by {
        let k = choose|k: int| 0 <= k < inside.len() && inside[k] == x;
        assert(inside[k] == both[k]);
        if k < slots.len() {
            assert(both[k] == slots[k]);
        } else {
            assert(both[k] == selected[k - slots.len()]);
        }
    }
    vstd::set_lib::lemma_subset_equality(inside.to_set(), all);
    assert forall|y: usize| y < n && !selected.contains(y) implies #[trigger] slots.contains(y) by {
        assert(all.contains(y as int));
        assert(both.contains(y));
        let k = choose|k: int| 0 <= k < both.len() && both[k] == y;
        if k < slots.len() {
            assert(slots[k] == y);
        } else {
            assert(selected[k - slots.len()] == y);
        }
    }
}

/// The row at the largest number adds the most.
proof fn lemma_largest_adds_most(numbers: Seq<Float>, cells: Cells, n: nat, slots: Seq<usize>, selected: Seq<usize>, a: int)
    requires
        orders(numbers, cells, slots, selected),
        slotted(n, slots, selected),
        0 <= a < numbers.len(),
        forall|j: int| 0 <= j < numbers.len() ==> (#[trigger] numbers[j]).rank() <= numbers[a].rank(),
    ensures
        adds_most(cells, n, selected, slots[a]),
{
    assert forall|y: usize| y < n && !selected.contains(y) implies #[trigger] volume(cells, selected.push(y)) <= volume(
        cells,
        selected.push(slots[a]),
    ) by {
        assert(slots.contains(y));
        let j = choose|j: int| 0 <= j < slots.len() && slots[j] == y;
        assert(numbers[j].rank() <= numbers[a].rank());
    }
}

proof fn lemma_argmax_is_largest(numbers: Seq<Float>, a: int)
    requires
        is_argmax(numbers, a),
        forall|i: int| 0 <= i < numbers.len() ==> finite(#[trigger] numbers[i]),
    ensures
        forall|j: int| 0 <= j < numbers.len() ==> (#[trigger] numbers[j]).rank() <= numbers[a].rank(),
{
    let counts = |i: int| !numbers[i].nan() && numbers[i].rank() > -0x7ff0_0000_0000_0000;
    assert(counts(a));
    assert forall|j: int| 0 <= j < numbers.len() implies (#[trigger] numbers[j]).rank() <= numbers[a].rank() by {
        assert(counts(j));
    }
}

/// The search knows what each row adds: either every contribution is exact, or a walk has gone
/// so far that no row ahead can add the most.
pub open spec fn knows(search: GreedySearch, exact: Seq<Float>) -> bool {
    ||| search.contribs@ == exact
    ||| {
        &&& search.walking()
        &&& search.bounds_hold(exact)
        &&& forall|k: int| search.visited <= k < search.order@.len() ==> search.contribs@[#[trigger] search.order@[k] as int].below(
            search.max_seen,
        )
    }
}

/// Contributions by which the search picks, and which order the rows as what they add does.
pub open spec fn informed(search: GreedySearch, cells: Cells) -> bool {
    exists|exact: Seq<Float>| #[trigger] knows(search, exact) && orders(exact, cells, search.remaining@, search.selected@)
}

/// The greedy picks of a prefix stay greedy.
proof fn lemma_one_more_pick(cells: Cells, n: nat, selected: Seq<usize>, x: usize)
    requires
        picked_greedily(cells, n, selected),
        adds_most(cells, n, selected, x),
    ensures
        picked_greedily(cells, n, selected.push(x)),
{
    let more = selected.push(x);
    assert forall|k: int| 0 <= k < more.len() implies adds_most(cells, n, #[trigger] more.take(k), more[k]) by {
        if k < selected.len() {
            assert(more.take(k) =~= selected.take(k));
            assert(adds_most(cells, n, selected.take(k), selected[k]));
        } else {
            assert(more.take(k) =~= selected);
        }
    }
}

proof fn lemma_plane_picks(task: SubsetTask, arithmetic: Arithmetic, states: Seq<PlaneSearch>, areas: Seq<Seq<Float>>, cells: Cells, i: int)
    requires
        plane_course(task, arithmetic, states, areas),
        forall|i: int| 0 <= i < areas.len() ==> orders(areas[i], cells, (#[trigger] states[i]).open_slots@, states[i].selected@),
        0 <= i < states.len(),
    ensures
        picked_greedily(cells, task.rows@.len(), states[i].selected@),
    decreases i,
{
    let n = task.rows@.len();
    if i > 0 {
        lemma_plane_picks(task, arithmetic, states, areas, cells, i - 1);
        let search = states[i - 1];
        assert(searches_plane(search, task));
        assert(search.steps_to(areas[i - 1], states[i]));
        assert(task.rows.len() == n);
        let a = choose|a: int| #[trigger] is_argmax(areas[i - 1], a) && states[i].selected@ == search.selected@.push(search.open_slots@[a]);
        lemma_argmax_is_largest(areas[i - 1], a);
        lemma_all_slotted(n, search.open_slots@, search.selected@);
        lemma_largest_adds_most(areas[i - 1], cells, n, search.open_slots@, search.selected@, a);
        lemma_one_more_pick(cells, n, search.selected@, search.open_slots@[a]);
    }
}

/// A finished search in two objectives has nearly the best volume, where the areas that it was
/// told order the rows as what they add does.
pub proof fn law_plane_selection_is_nearly_best(
    task: SubsetTask,
    arithmetic: Arithmetic,
    states: Seq<PlaneSearch>,
    areas: Seq<Seq<Float>>,
    cells: Cells,
    others: Seq<usize>,
)
    requires
        task.wf(),
        plane_course(task, arithmetic, states, areas),
        bounded(cells, task.rows@.len()),
        forall|i: int| 0 <= i < areas.len() ==> orders(areas[i], cells, (#[trigger] states[i]).open_slots@, states[i].selected@),
        others.len() == task.subset_size,
        forall|k: int| 0 <= k < others.len() ==> #[trigger] others[k] < task.rows@.len(),
    ensures
        ({
            let k = task.subset_size as int;
            pow(k, k as nat) * (volume(cells, others) - volume(cells, states.last().selected@)) <= pow(k - 1, k as nat) * volume(
                cells,
                others,
            )
        }),
{
    let last = states.len() - 1;
    lemma_plane_picks(task, arithmetic, states, areas, cells, last);
    assert(searches_plane(states[last], task));
    law_greedy_picks_are_nearly_best(cells, task.rows@.len(), states.last().selected@, others);
}

proof fn lemma_greedy_picks(task: SubsetTask, arithmetic: Arithmetic, states: Seq<GreedySearch>, steps: Seq<GreedyStep>, cells: Cells, i: int)
    requires
        greedy_course(task, arithmetic, states, steps),
        forall|i: int| 0 <= i < steps.len() && steps[i] is Pick ==> informed(#[trigger] states[i], cells),
        0 <= i < states.len(),
    ensures
        picked_greedily(cells, task.rows@.len(), states[i].selected@),
    decreases i,
{
    let n = task.rows@.len();
    if i > 0 {
        lemma_greedy_picks(task, arithmetic, states, steps, cells, i - 1);
        let search = states[i - 1];
        assert(searches(search, task));
        assert(search.steps_to(steps[i - 1], states[i]));
        if steps[i - 1] is Pick {
            assert(task.rows.len() == n);
            let exact = choose|exact: Seq<Float>| #[trigger] knows(search, exact) && orders(exact, cells, search.remaining@, search.selected@);
            let a = choose|a: int| #[trigger] is_argmax(search.contribs@, a)
                && states[i].selected@ == search.selected@.push(search.remaining@[a]);
            if search.contribs@ == exact {
                lemma_argmax_is_largest(exact, a);
            } else {
                law_lazy_pick_is_greedy(search, exact, a);
            }
            lemma_all_slotted(n, search.remaining@, search.selected@);
            lemma_largest_adds_most(exact, cells, n, search.remaining@, search.selected@, a);
            lemma_one_more_pick(cells, n, search.selected@, search.remaining@[a]);
        }
    }
}

/// A finished greedy search has nearly the best volume, where at each pick the contributions
/// order the rows as what they add does.
pub proof fn law_greedy_selection_is_nearly_best(
    task: SubsetTask,
    arithmetic: Arithmetic,
    states: Seq<GreedySearch>,
    steps: Seq<GreedyStep>,
    cells: Cells,
    others: Seq<usize>,
)
    requires
        task.wf(),
        greedy_course(task, arithmetic, states, steps),
        bounded(cells, task.rows@.len()),
        forall|i: int| 0 <= i < steps.len() && steps[i] is Pick ==> informed(#[trigger] states[i], cells),
        others.len() == task.subset_size,
        forall|k: int| 0 <= k < others.len() ==> #[trigger] others[k] < task.rows@.len(),
    ensures
        ({
            let k = task.subset_size as int;
            pow(k, k as nat) * (volume(cells, others) - volume(cells, states.last().selected@)) <= pow(k - 1, k as nat) * volume(
                cells,
                others,
            )
        }),
{
    let last = states.len() - 1;
    lemma_greedy_picks(task, arithmetic, states, steps, cells, last);
    assert(searches(states[last], task));
    law_greedy_picks_are_nearly_best(cells, task.rows@.len(), states.last().selected@, others);
}

} // verus!
