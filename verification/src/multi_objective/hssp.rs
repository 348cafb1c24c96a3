//! Greedy hypervolume subset selection.
//!
//! The greedy search repeatedly takes the candidate with the largest hypervolume
//! contribution. Contributions are computed outside; the searches here decide what to
//! evaluate next and what to take.

use vstd::prelude::*;

use crate::float::{finite, Float};
use crate::multi_objective::nds::{clean, row_has_nan};
use crate::multi_objective::split::{append_first, copy_row, gathered, ints, is_selection, picks};
use crate::order::{covers, differs_first_at, key_at, lex_lt, positions_by_key, precedes, sorted_positions};

verus! {

pub open spec fn infinite() -> Float {
    Float { bits: 0x7ff0_0000_0000_0000 }
}

/// The rows laid out one after the other.
pub open spec fn flat(rows: Seq<Vec<Float>>) -> Seq<Float>
    decreases rows.len(),
{
    if rows.len() == 0 {
        Seq::empty()
    } else {
        flat(rows.drop_last()) + rows.last()@
    }
}

/// One remembered selection and the inputs it was made for.
pub struct HssCacheEntry {
    /// The loss rows, laid out one after the other.
    pub loss_vals_flat: Vec<Float>,
    pub indices: Vec<usize>,
    pub subset_size: usize,
    pub ref_point: Vec<Float>,
    pub result: Vec<usize>,
}

impl HssCacheEntry {
    /// The entry was made for these inputs, compared bit by bit.
    pub open spec fn answers(self, rows: Seq<Vec<Float>>, indices: Seq<usize>, reference_point: Seq<Float>, subset_size: usize) -> bool {
        &&& self.subset_size == subset_size
        &&& self.indices@ == indices
        &&& self.ref_point@ == reference_point
        &&& forall|i: int| 0 <= i < rows.len() ==> (#[trigger] rows[i])@.len() == reference_point.len()
        &&& self.loss_vals_flat@ == flat(rows)
    }
}

/// Remembers the last selection.
pub struct HssCache {
    pub entry: Option<HssCacheEntry>,
}

fn same_floats(a: &Vec<Float>, b: &Vec<Float>) -> (r: bool)
    ensures
        r == (a@ == b@),
{
    if a.len() != b.len() {
        return false;
    }
    let mut k: usize = 0;
    while k < a.len()
        invariant
            k <= a@.len(),
            a@.len() == b@.len(),
            forall|q: int| 0 <= q < k ==> #[trigger] a@[q] == b@[q],
        decreases a@.len() - k,
    {
        if a[k].bits != b[k].bits {
            assert(a@[k as int] != b@[k as int]);
            return false;
        }
        k = k + 1;
    }
    assert(a@ =~= b@);
    true
}

fn same_indices(a: &Vec<usize>, b: &Vec<usize>) -> (r: bool)
    ensures
        r == (a@ == b@),
{
    if a.len() != b.len() {
        return false;
    }
    let mut k: usize = 0;
    while k < a.len()
        invariant
            k <= a@.len(),
            a@.len() == b@.len(),
            forall|q: int| 0 <= q < k ==> #[trigger] a@[q] == b@[q],
        decreases a@.len() - k,
    {
        if a[k] != b[k] {
            return false;
        }
        k = k + 1;
    }
    assert(a@ =~= b@);
    true
}

fn copy_indices(a: &Vec<usize>) -> (r: Vec<usize>)
    ensures
        r@ == a@,
{
    let mut r: Vec<usize> = Vec::new();
    append_first(&mut r, a, a.len());
    assert(a@.take(a@.len() as int) =~= a@);
    assert(r@ =~= a@);
    r
}

proof fn lemma_flat_step(rows: Seq<Vec<Float>>, i: int)
    requires
        0 <= i < rows.len(),
    ensures
        flat(rows.take(i + 1)) == flat(rows.take(i)) + rows[i]@,
{
    let next = rows.take(i + 1);
    assert(next.drop_last() =~= rows.take(i));
    assert(next.last() == rows[i]);
}

proof fn lemma_flat_len(rows: Seq<Vec<Float>>, i: int)
    requires
        0 <= i <= rows.len(),
    ensures
        flat(rows.take(i)).len() <= flat(rows).len(),
        flat(rows).take(flat(rows.take(i)).len() as int) == flat(rows.take(i)),
    decreases rows.len() - i,
{
    if i < rows.len() {
        lemma_flat_len(rows, i + 1);
        lemma_flat_step(rows, i);
        let all = flat(rows);
        let a = flat(rows.take(i));
        let b = flat(rows.take(i + 1));
        assert(all.take(b.len() as int) == b);
        assert(all.take(a.len() as int) =~= b.take(a.len() as int));
        assert(b.take(a.len() as int) =~= a);
    } else {
        assert(rows.take(i) =~= rows);
        assert(flat(rows).take(flat(rows).len() as int) =~= flat(rows));
    }
}

/// Whether `values` is the rows laid out one after the other, each of width `m`.
fn is_flat(values: &Vec<Float>, rows: &Vec<Vec<Float>>, m: usize) -> (r: bool)
    ensures
        r == ((forall|i: int| 0 <= i < rows@.len() ==> (#[trigger] rows@[i])@.len() == m) && values@ == flat(rows@)),
{
    let ghost all = flat(rows@);
    let len: usize = values.len();
    let mut at: usize = 0;
    let mut i: usize = 0;
    assert(rows@.take(0) =~= Seq::empty());
    assert(values@.take(0) =~= flat(rows@.take(0)));
    while i < rows.len()
        invariant
            i <= rows@.len(),
            len == values@.len(),
            at <= len,
            forall|q: int| 0 <= q < i ==> (#[trigger] rows@[q])@.len() == m,
            values@.take(at as int) == flat(rows@.take(i as int)),
        decreases rows@.len() - i,
    {
        let row = &rows[i];
        proof {
            lemma_flat_step(rows@, i as int);
            lemma_flat_len(rows@, i + 1);
            assert(values@.take(at as int).len() == at);
        }
        if row.len() != m {
            return false;
        }
        if row.len() > len - at {
            assert(values@ != flat(rows@));
            return false;
        }
        let mut k: usize = 0;
        while k < row.len()
            invariant
                k <= row@.len(),
                len == values@.len(),
                row@.len() + at <= len,
                forall|q: int| 0 <= q < k ==> #[trigger] values@[at + q] == row@[q],
                i < rows@.len(),
                row@ == rows@[i as int]@,
                at == flat(rows@.take(i as int)).len(),
                flat(rows@.take(i + 1)) == flat(rows@.take(i as int)) + row@,
                flat(rows@).take(flat(rows@.take(i + 1)).len() as int) == flat(rows@.take(i + 1)),
                flat(rows@.take(i + 1)).len() <= flat(rows@).len(),
            decreases row@.len() - k,
        {
            if values[at + k].bits != row[k].bits {
                proof {
                    let next = flat(rows@.take(i + 1));
                    assert(next[at + k] == row@[k as int]);
                    assert(flat(rows@).take(next.len() as int)[at + k] == flat(rows@)[at + k]);
                }
                return false;
            }
            k = k + 1;
        }
        proof {
            assert forall|p: int| at <= p < at + row@.len() implies values@[p] == row@[p - at] by {
                assert(values@[at + (p - at)] == row@[p - at]);
            }
            assert(values@.take(at + row@.len()) =~= values@.take(at as int) + row@);
        }
        at = at + row.len();
        i = i + 1;
    }
    assert(rows@.take(rows@.len() as int) =~= rows@);
    assert(values@.take(at as int).len() == at);
    if at == values.len() {
        assert(values@.take(at as int) =~= values@);
        true
    } else {
        false
    }
}

impl HssCache {
    pub fn new() -> (r: HssCache)
        ensures
            r.entry is None,
    {
        HssCache { entry: None }
    }

    /// The remembered selection, if it was made for these inputs.
    pub fn probe(&self, rows: &Vec<Vec<Float>>, indices: &Vec<usize>, reference_point: &Vec<Float>, subset_size: usize) -> (r: Option<Vec<usize>>)
        ensures
            r is Some == (self.entry is Some && self.entry->Some_0.answers(rows@, indices@, reference_point@, subset_size)),
            r is Some ==> r->Some_0@ == self.entry->Some_0.result@,
    {
        match &self.entry {
            None => None,
            Some(entry) => {
                if entry.subset_size == subset_size && same_indices(&entry.indices, indices)
                    && same_floats(&entry.ref_point, reference_point)
                    && is_flat(&entry.loss_vals_flat, rows, reference_point.len()) {
                    Some(copy_indices(&entry.result))
                } else {
                    None
                }
            }
        }
    }

    /// Remembers a selection in place of the one before.
    pub fn store(
        &mut self,
        rows: &Vec<Vec<Float>>,
        indices: &Vec<usize>,
        reference_point: &Vec<Float>,
        subset_size: usize,
        result: &Vec<usize>,
    )
        ensures
            final(self).entry is Some,
            final(self).entry->Some_0.loss_vals_flat@ == flat(rows@),
            final(self).entry->Some_0.indices@ == indices@,
            final(self).entry->Some_0.subset_size == subset_size,
            final(self).entry->Some_0.ref_point@ == reference_point@,
            final(self).entry->Some_0.result@ == result@,
    {
        let mut loss_vals_flat: Vec<Float> = Vec::new();
        let mut i: usize = 0;
        assert(rows@.take(0) =~= Seq::empty());
        while i < rows.len()
            invariant
                i <= rows@.len(),
                loss_vals_flat@ == flat(rows@.take(i as int)),
            decreases rows@.len() - i,
        {
            let ghost start = loss_vals_flat@;
            let row = &rows[i];
            let mut k: usize = 0;
            while k < row.len()
                invariant
                    k <= row@.len(),
                    loss_vals_flat@ == start + row@.take(k as int),
                decreases row@.len() - k,
            {
                loss_vals_flat.push(row[k]);
                assert(row@.take(k + 1) =~= row@.take(k as int).push(row@[k as int]));
                assert(loss_vals_flat@ =~= start + row@.take(k + 1));
                k = k + 1;
            }
            proof {
                assert(row@.take(row@.len() as int) =~= row@);
                lemma_flat_step(rows@, i as int);
            }
            i = i + 1;
        }
        assert(rows@.take(rows@.len() as int) =~= rows@);
        self.entry = Some(HssCacheEntry {
            loss_vals_flat,
            indices: copy_indices(indices),
            subset_size,
            ref_point: copy_row(reference_point),
            result: copy_indices(result),
        });
    }
}

/// What was stored answers the same inputs, and only inputs with the same indices, size
/// and reference point.
pub proof fn law_cache_answers_what_it_stored(
    entry: HssCacheEntry,
    rows: Seq<Vec<Float>>,
    indices: Seq<usize>,
    reference_point: Seq<Float>,
    subset_size: usize,
    other_size: usize,
)
    requires
        entry.loss_vals_flat@ == flat(rows),
        entry.indices@ == indices,
        entry.subset_size == subset_size,
        entry.ref_point@ == reference_point,
        forall|i: int| 0 <= i < rows.len() ==> (#[trigger] rows[i])@.len() == reference_point.len(),
    ensures
        entry.answers(rows, indices, reference_point, subset_size),
        other_size != subset_size ==> !entry.answers(rows, indices, reference_point, other_size),
{
}

/// Where a greedy step goes: the first of the largest numbers, or the first entry where
/// none exceeds negative infinity. NaN does not count.
pub open spec fn is_argmax(contribs: Seq<Float>, a: int) -> bool {
    let counts = |i: int| !contribs[i].nan() && contribs[i].rank() > -0x7ff0_0000_0000_0000;
    &&& 0 <= a < contribs.len()
    &&& if exists|i: int| 0 <= i < contribs.len() && #[trigger] counts(i) {
        &&& counts(a)
        &&& forall|i: int| 0 <= i < contribs.len() && #[trigger] counts(i) ==> contribs[i].rank() <= contribs[a].rank()
            && (i < a ==> contribs[i].rank() < contribs[a].rank())
    } else {
        a == 0
    }
}

/// The position of the first of the largest numbers.
pub fn argmax(contribs: &Vec<Float>) -> (a: usize)
    requires
        contribs@.len() > 0,
    ensures
        is_argmax(contribs@, a as int),
{
    let ghost counts = |i: int| !contribs@[i].nan() && contribs@[i].rank() > -0x7ff0_0000_0000_0000;
    let mut a: usize = 0;
    let mut best = Float { bits: 0xfff0_0000_0000_0000 };
    let mut i: usize = 0;
    while i < contribs.len()
        invariant
            i <= contribs@.len(),
            counts == (|i: int| !contribs@[i].nan() && contribs@[i].rank() > -0x7ff0_0000_0000_0000),
            !best.nan(),
            if best.rank() == -0x7ff0_0000_0000_0000 {
                a == 0 && forall|q: int| 0 <= q < i ==> !#[trigger] counts(q)
            } else {
                &&& 0 <= a < i
                &&& best == contribs@[a as int]
                &&& counts(a as int)
                &&& forall|q: int| 0 <= q < i && #[trigger] counts(q) ==> contribs@[q].rank() <= best.rank()
                    && (q < a ==> contribs@[q].rank() < best.rank())
            },
            best.rank() >= -0x7ff0_0000_0000_0000,
        decreases contribs@.len() - i,
    {
        let c = contribs[i];
        assert(counts(i as int) == (!c.nan() && c.rank() > -0x7ff0_0000_0000_0000));
        if best.lt(c) {
            best = c;
            a = i;
        }
        i = i + 1;
    }
    a
}

/// The positions `0..n` are parted into those still open and those taken.
pub open spec fn parted(n: nat, open_slots: Seq<usize>, taken: Seq<usize>) -> bool {
    &&& open_slots.len() + taken.len() == n
    &&& (open_slots + taken).no_duplicates()
    &&& forall|k: int| 0 <= k < open_slots.len() ==> #[trigger] open_slots[k] < n
    &&& forall|k: int| 0 <= k < taken.len() ==> #[trigger] taken[k] < n
}

proof fn lemma_parted_move(n: nat, open_slots: Seq<usize>, taken: Seq<usize>, a: int, rest: Seq<usize>)
    requires
        parted(n, open_slots, taken),
        0 <= a < open_slots.len(),
        rest.len() == open_slots.len() - 1,
        rest == open_slots.remove(a) || rest == open_slots.update(a, open_slots.last()).drop_last(),
    ensures
        parted(n, rest, taken.push(open_slots[a])),
{
    let both = open_slots + taken;
    let after = rest + taken.push(open_slots[a]);
    let m = open_slots.len() as int;
    let src = |k: int| -> int {
        if k < rest.len() {
            if rest == open_slots.remove(a) {
                if k < a { k } else { k + 1 }
            } else {
                if k == a { m - 1 } else { k }
            }
        } else if k < rest.len() + taken.len() {
            k + 1
        } else {
            a
        }
    };
    assert forall|k: int| 0 <= k < after.len() implies 0 <= #[trigger] src(k) < both.len() && after[k] == both[src(k)] by {}
    assert forall|k: int, l: int| 0 <= k < l < after.len() implies after[k] != after[l] by {
        assert(src(k) != src(l));
        assert(after[k] == both[src(k)] && after[l] == both[src(l)]);
    }
    assert forall|k: int| 0 <= k < rest.len() implies #[trigger] rest[k] < n by {
        assert(after[k] == both[src(k)]);
        assert(both[src(k)] == open_slots[src(k)]);
    }
}

/// One step of a greedy search, with what it is told from outside.
pub enum GreedyStep {
    /// The row with the largest contribution is taken.
    Pick,
    /// Every contribution is set to infinity.
    Saturate,
    /// The contributions are lowered to bounds, and a walk begins.
    Tighten(Seq<Float>),
    /// The walk goes on to the next slot.
    Next,
    /// A contribution is recorded for the slot that the walk is at.
    Record(Float),
}

/// The contributions lowered to the bounds, where those are lower.
pub open spec fn lowered(contribs: Seq<Float>, bounds: Seq<Float>) -> Seq<Float> {
    Seq::new(bounds.len(), |j: int| if bounds[j].below(contribs[j]) { bounds[j] } else { contribs[j] })
}

/// The slots by descending contribution, equal ones in slot order.
pub open spec fn by_bound(contribs: Seq<Float>, order: Seq<usize>) -> bool {
    &&& covers(order, 0, contribs.len() as int)
    &&& forall|a: int, b: int| 0 <= a < b < order.len() ==> comes_first(contribs, #[trigger] order[a], #[trigger] order[b])
}

pub open spec fn comes_first(contribs: Seq<Float>, i: usize, j: usize) -> bool {
    let u = contribs[i as int].total_rank();
    let v = contribs[j as int].total_rank();
    u > v || (u == v && i < j)
}

/// A greedy search by contributions that are bounded first and computed on demand.
///
/// Slots are positions in `remaining` and `contribs`; `remaining` and `selected` hold
/// positions in `rows`.
pub struct GreedySearch {
    pub rows: Vec<Vec<Float>>,
    pub indices: Vec<usize>,
    pub reference_point: Vec<Float>,
    pub subset_size: usize,
    pub remaining: Vec<usize>,
    /// An upper bound of each contribution, or the contribution itself.
    pub contribs: Vec<Float>,
    pub selected: Vec<usize>,
    /// The slots in the order in which the current walk visits them.
    pub order: Vec<usize>,
    /// How many slots of `order` the walk has visited.
    pub visited: usize,
    /// The largest contribution that the walk has come across.
    pub max_seen: Float,
}

impl GreedySearch {
    pub open spec fn wf(self) -> bool {
        &&& self.indices@.len() == self.rows@.len()
        &&& parted(self.rows@.len(), self.remaining@, self.selected@)
        &&& self.contribs@.len() == self.remaining@.len()
        &&& self.selected@.len() <= self.subset_size < self.rows@.len()
    }

    /// A walk is under way: it visits every slot once, by descending bound, and has not
    /// changed the bounds that lie ahead.
    pub open spec fn walking(self) -> bool {
        &&& self.wf()
        &&& covers(self.order@, 0, self.contribs@.len() as int)
        &&& self.visited <= self.order@.len()
        &&& !self.max_seen.nan()
        &&& forall|a: int, b: int| self.visited <= a < b < self.order@.len() ==>
            self.contribs@[#[trigger] self.order@[a] as int].total_rank() >= self.contribs@[#[trigger] self.order@[b] as int].total_rank()
    }

    /// The same rows are selected and remain, with the same contributions, and the walk over
    /// them is at the same place.
    pub open spec fn stands_like(self, other: GreedySearch) -> bool {
        &&& self.remaining@ == other.remaining@
        &&& self.contribs@ == other.contribs@
        &&& self.selected@ == other.selected@
        &&& self.order@ == other.order@
        &&& self.visited == other.visited
        &&& self.max_seen == other.max_seen
    }

    /// The walk comes to place `v` of the order: every slot on the way has a bound that is
    /// not finite, and the slot there has a finite one, or there is none.
    pub open spec fn comes_to(self, v: int) -> bool {
        &&& self.visited <= v <= self.order@.len()
        &&& forall|k: int| self.visited <= k < v ==> !finite(self.contribs@[#[trigger] self.order@[k] as int])
        &&& v < self.order@.len() ==> finite(self.contribs@[self.order@[v] as int])
    }

    /// What a step makes of the search.
    pub open spec fn steps_to(self, step: GreedyStep, next: GreedySearch) -> bool {
        match step {
            GreedyStep::Pick => {
                &&& exists|a: int| #[trigger] is_argmax(self.contribs@, a)
                    && next.selected@ == self.selected@.push(self.remaining@[a])
                    && next.remaining@ == self.remaining@.update(a, self.remaining@.last()).drop_last()
                    && next.contribs@ == self.contribs@.update(a, self.contribs@.last()).drop_last()
                &&& next.order@ == self.order@
                &&& next.visited == self.visited
                &&& next.max_seen == self.max_seen
            },
            GreedyStep::Saturate => {
                &&& next.selected@ == self.selected@
                &&& next.remaining@ == self.remaining@
                &&& next.contribs@ == Seq::new(self.contribs@.len(), |j: int| infinite())
                &&& next.order@ == self.order@
                &&& next.visited == self.visited
                &&& next.max_seen == self.max_seen
            },
            GreedyStep::Tighten(bounds) => {
                &&& next.selected@ == self.selected@
                &&& next.remaining@ == self.remaining@
                &&& next.contribs@ == lowered(self.contribs@, bounds)
                &&& by_bound(next.contribs@, next.order@)
                &&& next.visited == 0
                &&& next.max_seen == (Float { bits: 0 })
            },
            GreedyStep::Next => {
                &&& next.selected@ == self.selected@
                &&& next.remaining@ == self.remaining@
                &&& next.order@ == self.order@
                &&& exists|v: int| #[trigger] self.comes_to(v) && skipped(self, next, v)
                    && next.visited == if v < self.order@.len() && !self.contribs@[self.order@[v] as int].below(next.max_seen) {
                        v + 1
                    } else {
                        v
                    }
            },
            GreedyStep::Record(exact) => {
                &&& next.selected@ == self.selected@
                &&& next.remaining@ == self.remaining@
                &&& next.contribs@ == self.contribs@.update(self.order@[self.visited - 1] as int, exact)
                &&& next.order@ == self.order@
                &&& next.visited == self.visited
                &&& next.max_seen == if self.max_seen.below(exact) { exact } else { self.max_seen }
            },
        }
    }

    /// The parts of the search that a step on the contributions leaves alone.
    pub open spec fn same_search(self, other: GreedySearch) -> bool {
        &&& self.rows@ == other.rows@
        &&& self.indices@ == other.indices@
        &&& self.reference_point@ == other.reference_point@
        &&& self.subset_size == other.subset_size
        &&& self.remaining@ == other.remaining@
        &&& self.selected@ == other.selected@
    }

    /// Whether enough rows are selected.
    pub fn is_done(&self) -> (r: bool)
        ensures
            r == (self.selected@.len() == self.subset_size),
    {
        self.selected.len() == self.subset_size
    }

    /// Takes the row with the largest contribution.
    pub fn pick(&mut self) -> (position: usize)
        requires
            old(self).wf(),
            old(self).selected@.len() < old(self).subset_size,
        ensures
            final(self).wf(),
            final(self).rows@ == old(self).rows@,
            final(self).indices@ == old(self).indices@,
            final(self).reference_point@ == old(self).reference_point@,
            final(self).subset_size == old(self).subset_size,
            old(self).steps_to(GreedyStep::Pick, *final(self)),
            final(self).selected@ == old(self).selected@.push(position),
    {
        let a: usize = argmax(&self.contribs);
        let ghost remaining0 = self.remaining@;
        let ghost selected0 = self.selected@;
        let position: usize = self.remaining.swap_remove(a);
        let _taken = self.contribs.swap_remove(a);
        self.selected.push(position);
        proof {
            let rest = remaining0.update(a as int, remaining0.last()).drop_last();
            assert(self.remaining@ =~= rest);
            lemma_parted_move(self.rows@.len(), remaining0, selected0, a as int, rest);
            assert(self.contribs@ =~= old(self).contribs@.update(a as int, old(self).contribs@.last()).drop_last());
            assert(is_argmax(old(self).contribs@, a as int));
        }
        position
    }

    /// Sets every contribution to infinity: once the selected hypervolume has
    /// overflowed, candidates are taken in slot order.
    pub fn saturate(&mut self)
        requires
            old(self).wf(),
        ensures
            final(self).wf(),
            final(self).same_search(*old(self)),
            old(self).steps_to(GreedyStep::Saturate, *final(self)),
    {
        let n: usize = self.contribs.len();
        self.contribs = vec![Float { bits: 0x7ff0_0000_0000_0000 }; n];
        assert(self.contribs@ =~= Seq::new(n as nat, |j: int| infinite()));
    }

    /// Lowers the contributions to the given bounds, where those are lower, and begins a
    /// walk over the slots by descending bound.
    pub fn tighten(&mut self, bounds: &Vec<Float>)
        requires
            old(self).wf(),
            bounds@.len() == old(self).contribs@.len(),
        ensures
            final(self).walking(),
            final(self).same_search(*old(self)),
            old(self).steps_to(GreedyStep::Tighten(bounds@), *final(self)),
    {
        let n: usize = self.contribs.len();
        let ghost before = self.contribs@;
        let mut lower: Vec<Float> = Vec::new();
        let mut keys: Vec<i64> = Vec::new();
        let mut j: usize = 0;
        while j < n
            invariant
                j <= n,
                self.contribs@ == before,
                n == before.len(),
                bounds@.len() == n,
                lower@.len() == j,
                keys@.len() == j,
                forall|q: int| 0 <= q < j ==> #[trigger] lower@[q] == (if bounds@[q].below(before[q]) { bounds@[q] } else { before[q] }),
                forall|q: int| 0 <= q < j ==> #[trigger] keys@[q] == -1 - lower@[q].total_rank(),
            decreases n - j,
        {
            let c = if bounds[j].lt(self.contribs[j]) {
                bounds[j]
            } else {
                self.contribs[j]
            };
            lower.push(c);
            keys.push(-1 - c.total_key());
            j = j + 1;
        }
        let order = positions_by_key(&keys);
        proof {
            assert forall|a: int, b: int| 0 <= a < b < order@.len() implies comes_first(
                lower@,
                #[trigger] order@[a],
                #[trigger] order@[b],
            ) by {}
            assert(by_bound(lower@, order@));
        }
        self.contribs = lower;
        self.order = order;
        self.visited = 0;
        self.max_seen = Float { bits: 0 };
        assert(self.contribs@ =~= lowered(before, bounds@));
    }

    /// The next slot whose contribution is to be computed, or `None` where the walk is
    /// over: every slot is visited, or no bound that lies ahead can reach the largest
    /// contribution seen. Slots whose bound is not finite are set to infinity on the way.
    pub fn next_candidate(&mut self) -> (slot: Option<usize>)
        requires
            old(self).walking(),
        ensures
            final(self).walking(),
            final(self).same_search(*old(self)),
            final(self).order@ == old(self).order@,
            old(self).visited <= final(self).visited,
            old(self).steps_to(GreedyStep::Next, *final(self)),
            slot is Some ==> {
                let v = final(self).visited - 1;
                &&& old(self).visited <= v
                &&& slot->Some_0 == old(self).order@[v]
                &&& skipped(*old(self), *final(self), v)
                &&& finite(old(self).contribs@[slot->Some_0 as int])
                &&& !old(self).contribs@[slot->Some_0 as int].below(final(self).max_seen)
            },
            slot is None ==> {
                let v = final(self).visited as int;
                &&& skipped(*old(self), *final(self), v)
                &&& forall|k: int| v <= k < final(self).order@.len() ==> {
                    let c = final(self).contribs@[#[trigger] final(self).order@[k] as int];
                    c.nan() || c.below(final(self).max_seen)
                }
            },
    {
        let ghost start = *self;
        while self.visited < self.order.len()
            invariant
                start == *old(self),
                start.walking(),
                self.walking(),
                self.same_search(start),
                self.order@ == start.order@,
                start.visited <= self.visited,
                skipped(start, *self, self.visited as int),
            decreases self.order@.len() - self.visited,
        {
            let ghost before = *self;
            let j: usize = self.order[self.visited];
            let ghost v = self.visited as int;
            assert(0 <= j < self.contribs@.len());
            assert(self.contribs@[j as int] == start.contribs@[j as int]) by {
                assert(start.order@[v] == j);
                assert forall|q: int| 0 <= q < v implies start.order@[q] != j by {}
            }
            if !self.contribs[j].is_finite() {
                self.contribs.set(j, Float { bits: 0x7ff0_0000_0000_0000 });
                self.max_seen = Float { bits: 0x7ff0_0000_0000_0000 };
                self.visited = self.visited + 1;
                proof {
                    assert forall|a: int, b: int| self.visited <= a < b < self.order@.len() implies
                        self.contribs@[#[trigger] self.order@[a] as int].total_rank() >= self.contribs@[#[trigger] self.order@[b] as int].total_rank() by {
                        assert(self.order@[a] != j && self.order@[b] != j);
                    }
                    assert forall|k: int| start.visited <= k < v + 1 implies !finite(start.contribs@[#[trigger] start.order@[k] as int])
                        && self.contribs@[start.order@[k] as int] == infinite() by {
                        if k < v {
                            assert(start.order@[k] != j);
                        }
                    }
                }
            } else {
                let c = self.contribs[j];
                if c.lt(self.max_seen) {
                    assert forall|k: int| v <= k < self.order@.len() implies {
                        let d = self.contribs@[#[trigger] self.order@[k] as int];
                        d.nan() || d.below(self.max_seen)
                    } by {
                        if k > v {
                            let d = self.contribs@[self.order@[k] as int];
                            assert(self.contribs@[self.order@[v] as int].total_rank() >= d.total_rank());
                        }
                    }
                    assert(start.comes_to(v));
                    return None;
                }
                self.visited = self.visited + 1;
                assert(start.comes_to(v));
                return Some(j);
            }
        }
        assert(start.comes_to(self.visited as int));
        None
    }

    /// Records the contribution that was computed for a slot.
    pub fn record(&mut self, slot: usize, exact: Float)
        requires
            old(self).walking(),
            0 < old(self).visited,
            slot == old(self).order@[old(self).visited - 1],
        ensures
            final(self).walking(),
            final(self).same_search(*old(self)),
            final(self).order@ == old(self).order@,
            final(self).visited == old(self).visited,
            old(self).steps_to(GreedyStep::Record(exact), *final(self)),
    {
        let ghost before = *self;
        self.contribs.set(slot, exact);
        if self.max_seen.lt(exact) {
            self.max_seen = exact;
        }
        assert forall|a: int, b: int| self.visited <= a < b < self.order@.len() implies
            self.contribs@[#[trigger] self.order@[a] as int].total_rank() >= self.contribs@[#[trigger] self.order@[b] as int].total_rank() by {
            assert(before.order@[a] != before.order@[before.visited - 1]);
            assert(before.order@[b] != before.order@[before.visited - 1]);
        }
    }

    /// The indices of the selected rows, in selection order.
    pub fn selection(&self) -> (r: Vec<usize>)
        requires
            self.wf(),
        ensures
            r@ == gathered(self.indices@, self.selected@),
    {
        gather(&self.indices, &self.selected)
    }
}

/// The walk has gone on to slot number `v`, past slots whose bound was not finite: those
/// are infinite now, and the rest is as before.
pub open spec fn skipped(before: GreedySearch, after: GreedySearch, v: int) -> bool {
    &&& before.visited <= v <= before.order@.len()
    &&& after.contribs@.len() == before.contribs@.len()
    &&& forall|k: int| before.visited <= k < v ==> !finite(before.contribs@[#[trigger] before.order@[k] as int])
        && after.contribs@[before.order@[k] as int] == infinite()
    &&& forall|k: int| 0 <= k < before.order@.len() && !(before.visited <= k < v) ==>
        after.contribs@[#[trigger] before.order@[k] as int] == before.contribs@[before.order@[k] as int]
    &&& after.max_seen == if before.visited < v { infinite() } else { before.max_seen }
}

fn gather(table: &Vec<usize>, at: &Vec<usize>) -> (r: Vec<usize>)
    requires
        forall|k: int| 0 <= k < at@.len() ==> #[trigger] at@[k] < table@.len(),
    ensures
        r@ == gathered(table@, at@),
{
    let mut r: Vec<usize> = Vec::new();
    let mut k: usize = 0;
    while k < at.len()
        invariant
            k <= at@.len(),
            forall|k: int| 0 <= k < at@.len() ==> #[trigger] at@[k] < table@.len(),
            r@.len() == k,
            forall|q: int| 0 <= q < k ==> #[trigger] r@[q] == table@[at@[q] as int],
        decreases at@.len() - k,
    {
        r.push(table[at[k]]);
        k = k + 1;
    }
    assert(r@ =~= gathered(table@, at@));
    r
}

/// A subset selection that needs contributions: rows without NaN, more of them than
/// are to be selected.
pub struct SubsetTask {
    pub rows: Vec<Vec<Float>>,
    pub indices: Vec<usize>,
    pub reference_point: Vec<Float>,
    pub subset_size: usize,
}

impl SubsetTask {
    pub open spec fn wf(self) -> bool {
        &&& self.indices@.len() == self.rows@.len()
        &&& 0 < self.subset_size < self.rows@.len()
        &&& clean(self.reference_point@)
        &&& forall|i: int| 0 <= i < self.rows@.len() ==> clean((#[trigger] self.rows@[i])@)
            && self.rows@[i]@.len() >= self.reference_point@.len()
    }
}

/// How a subset selection goes on.
pub enum SubsetSelection {
    /// The selected indices.
    Settled(Vec<usize>),
    /// A search in two objectives over finite rows.
    Plane(SubsetTask),
    /// A search by lazily computed contributions.
    Greedy(SubsetTask),
}

pub open spec fn clean_on(rows: Seq<Vec<Float>>) -> spec_fn(int) -> bool {
    |i: int| clean(rows[i]@)
}

pub open spec fn nan_on(rows: Seq<Vec<Float>>) -> spec_fn(int) -> bool {
    |i: int| !clean(rows[i]@)
}

/// The entries of `table` at integer positions.
pub open spec fn entries(table: Seq<usize>, at: Seq<int>) -> Seq<usize> {
    Seq::new(at.len(), |k: int| table[at[k]])
}

pub open spec fn finite_row(row: Seq<Float>) -> bool {
    forall|k: int| 0 <= k < row.len() ==> finite(#[trigger] row[k])
}

/// The task over the clean rows.
pub open spec fn is_task(task: SubsetTask, rows: Seq<Vec<Float>>, indices: Seq<usize>, reference_point: Seq<Float>, subset_size: usize) -> bool {
    let at = picks(rows.len(), clean_on(rows));
    &&& task.wf()
    &&& task.rows@.len() == at.len()
    &&& forall|k: int| 0 <= k < at.len() ==> (#[trigger] task.rows@[k])@ == rows[at[k]]@
    &&& task.indices@ == entries(indices, at)
    &&& task.reference_point@ == reference_point
    &&& task.subset_size == subset_size
}

/// What the cache remembers for the clean rows.
pub open spec fn cached(cache: HssCache, task: SubsetTask) -> bool {
    cache.entry is Some && cache.entry->Some_0.answers(task.rows@, task.indices@, task.reference_point@, task.subset_size)
}

fn row_is_finite(row: &Vec<Float>) -> (r: bool)
    ensures
        r == finite_row(row@),
{
    let mut k: usize = 0;
    while k < row.len()
        invariant
            k <= row@.len(),
            forall|q: int| 0 <= q < k ==> finite(#[trigger] row@[q]),
        decreases row@.len() - k,
    {
        if !row[k].is_finite() {
            assert(!finite(row@[k as int]));
            return false;
        }
        k = k + 1;
    }
    true
}

fn all_finite(rows: &Vec<Vec<Float>>) -> (r: bool)
    ensures
        r == forall|i: int| 0 <= i < rows@.len() ==> finite_row((#[trigger] rows@[i])@),
{
    let mut i: usize = 0;
    while i < rows.len()
        invariant
            i <= rows@.len(),
            forall|q: int| 0 <= q < i ==> finite_row((#[trigger] rows@[q])@),
        decreases rows@.len() - i,
    {
        if !row_is_finite(&rows[i]) {
            assert(!finite_row(rows@[i as int]@));
            return false;
        }
        i = i + 1;
    }
    true
}

/// How a selection begins.
pub open spec fn begins(
    r: SubsetSelection,
    rows: Seq<Vec<Float>>,
    indices: Seq<usize>,
    reference_point: Seq<Float>,
    subset_size: usize,
    cache: HssCache,
) -> bool {
    let n = rows.len();
    let good = picks(n, clean_on(rows));
    let bad = picks(n, nan_on(rows));
    if subset_size >= n {
        r is Settled && r->Settled_0@ == indices
    } else if subset_size == 0 || !clean(reference_point) {
        r is Settled && r->Settled_0@ == indices.take(subset_size as int)
    } else if good.len() <= subset_size {
        r is Settled && r->Settled_0@ == entries(indices, good) + entries(indices, bad.take(subset_size - good.len()))
    } else {
        match r {
            SubsetSelection::Settled(result) => exists|task: SubsetTask|
                #[trigger] is_task(task, rows, indices, reference_point, subset_size) && cached(cache, task)
                && result@ == cache.entry->Some_0.result@,
            SubsetSelection::Plane(task) => {
                &&& is_task(task, rows, indices, reference_point, subset_size)
                &&& !cached(cache, task)
                &&& reference_point.len() == 2
                &&& forall|i: int| 0 <= i < task.rows@.len() ==> finite_row((#[trigger] task.rows@[i])@)
            },
            SubsetSelection::Greedy(task) => {
                &&& is_task(task, rows, indices, reference_point, subset_size)
                &&& !cached(cache, task)
                &&& !(reference_point.len() == 2 && forall|i: int| 0 <= i < task.rows@.len() ==> finite_row((#[trigger] task.rows@[i])@))
            },
        }
    }
}

/// Begins the selection of `subset_size` of the given indices by hypervolume against
/// `reference_point`.
///
/// Rows with a NaN are worse than all others: they are taken, in input order, only
/// where the others do not suffice. With a NaN in the reference point the first indices
/// are taken. A selection that the cache remembers is taken as it is.
pub fn hypervolume_subset_selection(
    rank_i_loss_vals: &Vec<Vec<Float>>,
    rank_i_indices: &Vec<usize>,
    reference_point: &Vec<Float>,
    subset_size: usize,
    cache: &HssCache,
) -> (r: SubsetSelection)
    requires
        rank_i_loss_vals@.len() == rank_i_indices@.len(),
        forall|i: int| 0 <= i < rank_i_loss_vals@.len() ==> (#[trigger] rank_i_loss_vals@[i])@.len() >= reference_point@.len(),
    ensures
        begins(r, rank_i_loss_vals@, rank_i_indices@, reference_point@, subset_size, *cache),
{
    let n: usize = rank_i_loss_vals.len();
    if subset_size >= n {
        return SubsetSelection::Settled(copy_indices(rank_i_indices));
    }
    if subset_size == 0 || row_has_nan(reference_point) {
        let mut first: Vec<usize> = Vec::new();
        append_first(&mut first, rank_i_indices, subset_size);
        assert(first@ =~= rank_i_indices@.take(subset_size as int));
        return SubsetSelection::Settled(first);
    }
    let ghost f = clean_on(rank_i_loss_vals@);
    let ghost g = nan_on(rank_i_loss_vals@);
    let mut rows: Vec<Vec<Float>> = Vec::new();
    let mut indices: Vec<usize> = Vec::new();
    let mut nan_indices: Vec<usize> = Vec::new();
    let mut i: usize = 0;
    while i < n
        invariant
            i <= n,
            n == rank_i_loss_vals@.len(),
            rank_i_indices@.len() == n,
            f == clean_on(rank_i_loss_vals@),
            g == nan_on(rank_i_loss_vals@),
            rows@.len() == picks(i as nat, f).len(),
            indices@.len() == rows@.len(),
            nan_indices@.len() == picks(i as nat, g).len(),
            rows@.len() + nan_indices@.len() == i,
            forall|i: int| 0 <= i < rank_i_loss_vals@.len() ==> (#[trigger] rank_i_loss_vals@[i])@.len() >= reference_point@.len(),
            forall|k: int| 0 <= k < rows@.len() ==> (#[trigger] rows@[k])@ == rank_i_loss_vals@[picks(i as nat, f)[k]]@
                && clean(rows@[k]@) && rows@[k]@.len() >= reference_point@.len(),
            forall|k: int| 0 <= k < rows@.len() ==> #[trigger] indices@[k] == rank_i_indices@[picks(i as nat, f)[k]],
            forall|k: int| 0 <= k < nan_indices@.len() ==> #[trigger] nan_indices@[k] == rank_i_indices@[picks(i as nat, g)[k]],
        decreases n - i,
    {
        let ghost a = picks(i as nat, f);
        let ghost b = picks(i as nat, g);
        if row_has_nan(&rank_i_loss_vals[i]) {
            nan_indices.push(rank_i_indices[i]);
            assert(picks((i + 1) as nat, f) == a);
            assert(picks((i + 1) as nat, g) == b.push(i as int));
        } else {
            rows.push(copy_row(&rank_i_loss_vals[i]));
            indices.push(rank_i_indices[i]);
            assert(picks((i + 1) as nat, f) == a.push(i as int));
            assert(picks((i + 1) as nat, g) == b);
        }
        i = i + 1;
    }
    if rows.len() <= subset_size {
        let pad: usize = subset_size - rows.len();
        append_first(&mut indices, &nan_indices, pad);
        proof {
            let good = picks(n as nat, f);
            let bad = picks(n as nat, g);
            assert(indices@ =~= entries(rank_i_indices@, good) + entries(rank_i_indices@, bad.take(pad as int)));
        }
        return SubsetSelection::Settled(indices);
    }
    let task = SubsetTask { rows, indices, reference_point: copy_row(reference_point), subset_size };
    proof {
        assert(task.indices@ =~= entries(rank_i_indices@, picks(n as nat, f)));
        assert(is_task(task, rank_i_loss_vals@, rank_i_indices@, reference_point@, subset_size));
    }
    match cache.probe(&task.rows, &task.indices, &task.reference_point, subset_size) {
        Some(result) => {
            assert(is_task(task, rank_i_loss_vals@, rank_i_indices@, reference_point@, subset_size) && cached(*cache, task));
            let r = SubsetSelection::Settled(result);
            assert(begins(r, rank_i_loss_vals@, rank_i_indices@, reference_point@, subset_size, *cache));
            r
        }
        None => {
            let plane = task.reference_point.len() == 2 && all_finite(&task.rows);
            assert(!cached(*cache, task));
            if plane {
                let r = SubsetSelection::Plane(task);
                assert(begins(r, rank_i_loss_vals@, rank_i_indices@, reference_point@, subset_size, *cache));
                r
            } else {
                let r = SubsetSelection::Greedy(task);
                assert(begins(r, rank_i_loss_vals@, rank_i_indices@, reference_point@, subset_size, *cache));
                r
            }
        }
    }
}

impl GreedySearch {
    /// A search with nothing selected, from the hypervolume of each row on its own.
    pub fn new(task: SubsetTask, inclusive: Vec<Float>) -> (r: GreedySearch)
        requires
            task.wf(),
            inclusive@.len() == task.rows@.len(),
        ensures
            r.wf(),
            r.rows@ == task.rows@,
            r.indices@ == task.indices@,
            r.reference_point@ == task.reference_point@,
            r.subset_size == task.subset_size,
            ints(r.remaining@) == Seq::new(task.rows@.len(), |i: int| i),
            r.contribs@ == inclusive@,
            r.selected@.len() == 0,
            r.order@.len() == 0,
            r.visited == 0,
            r.max_seen.bits == 0,
    {
        let remaining = counting(task.rows.len());
        assert(ints(remaining@) =~= Seq::new(task.rows@.len(), |i: int| i));
        assert((remaining@ + Seq::<usize>::empty()) =~= remaining@);
        GreedySearch {
            rows: task.rows,
            indices: task.indices,
            reference_point: task.reference_point,
            subset_size: task.subset_size,
            remaining,
            contribs: inclusive,
            selected: Vec::new(),
            order: Vec::new(),
            visited: 0,
            max_seen: Float { bits: 0 },
        }
    }
}

/// `0, 1, .., n - 1`.
fn counting(n: usize) -> (r: Vec<usize>)
    ensures
        r@.len() == n,
        forall|k: int| 0 <= k < n ==> #[trigger] r@[k] == k,
        r@.no_duplicates(),
{
    let mut r: Vec<usize> = Vec::new();
    let mut i: usize = 0;
    while i < n
        invariant
            i <= n,
            r@.len() == i,
            forall|k: int| 0 <= k < i ==> #[trigger] r@[k] == k,
        decreases n - i,
    {
        r.push(i);
        i = i + 1;
    }
    r
}

/// Row `p` lies left of row `q`: by the first objective, then the second, then the
/// position.
pub open spec fn left_of(rows: Seq<Vec<Float>>, p: int, q: int) -> bool {
    let a = rows[p]@;
    let b = rows[q]@;
    ||| a[0].total_rank() < b[0].total_rank()
    ||| a[0].total_rank() == b[0].total_rank() && a[1].total_rank() < b[1].total_rank()
    ||| a[0].total_rank() == b[0].total_rank() && a[1].total_rank() == b[1].total_rank() && p < q
}

/// A search in two objectives. Each open row owns the rectangle between itself and its
/// corner; slots are positions in `open_slots` and the four lists beside it.
pub struct PlaneSearch {
    pub rows: Vec<Vec<Float>>,
    pub indices: Vec<usize>,
    pub subset_size: usize,
    /// Positions of the open rows, from left to right.
    pub open_slots: Vec<usize>,
    pub f0: Vec<Float>,
    pub f1: Vec<Float>,
    /// The corner's first coordinate.
    pub d0: Vec<Float>,
    /// The corner's second coordinate.
    pub d1: Vec<Float>,
    pub selected: Vec<usize>,
}

impl PlaneSearch {
    /// Every corner is held back by each selected row: in the first objective by rows
    /// on the right, in the second by rows on the left.
    pub open spec fn corners_held(self) -> bool {
        forall|j: int, k: int| #![trigger self.open_slots@[j], self.selected@[k]]
            0 <= j < self.open_slots@.len() && 0 <= k < self.selected@.len() ==> {
            let p = self.open_slots@[j] as int;
            let q = self.selected@[k] as int;
            if left_of(self.rows@, p, q) {
                self.d0@[j].rank() <= self.rows@[q]@[0].rank()
            } else {
                self.d1@[j].rank() <= self.rows@[q]@[1].rank()
            }
        }
    }

    pub open spec fn wf(self) -> bool {
        let n = self.open_slots@.len();
        &&& self.indices@.len() == self.rows@.len()
        &&& parted(self.rows@.len(), self.open_slots@, self.selected@)
        &&& self.selected@.len() <= self.subset_size < self.rows@.len()
        &&& self.f0@.len() == n
        &&& self.f1@.len() == n
        &&& self.d0@.len() == n
        &&& self.d1@.len() == n
        &&& forall|i: int| 0 <= i < self.rows@.len() ==> clean((#[trigger] self.rows@[i])@) && self.rows@[i]@.len() >= 2
        &&& forall|j: int| 0 <= j < n ==> {
            &&& #[trigger] self.f0@[j] == self.rows@[self.open_slots@[j] as int]@[0]
            &&& self.f1@[j] == self.rows@[self.open_slots@[j] as int]@[1]
            &&& !self.d0@[j].nan()
            &&& !self.d1@[j].nan()
        }
        &&& forall|a: int, b: int| 0 <= a < b < n ==>
            left_of(self.rows@, #[trigger] self.open_slots@[a] as int, #[trigger] self.open_slots@[b] as int)
        &&& self.corners_held()
    }

    /// `next` has the row with the largest of the given areas, too, and the corners of the
    /// others are drawn in.
    pub open spec fn steps_to(self, areas: Seq<Float>, next: PlaneSearch) -> bool {
        exists|a: int| #[trigger] is_argmax(areas, a) && {
            let s0 = self.f0@[a];
            let s1 = self.f1@[a];
            &&& next.selected@ == self.selected@.push(self.open_slots@[a])
            &&& next.open_slots@ == self.open_slots@.remove(a)
            &&& next.f0@ == self.f0@.remove(a)
            &&& next.f1@ == self.f1@.remove(a)
            &&& next.d0@ == capped(self.d0@.remove(a), 0, a, s0)
            &&& next.d1@ == capped(self.d1@.remove(a), a, self.d1@.len() - 1, s1)
        }
    }

    /// The same rows are selected, and the same are open with the same corners.
    pub open spec fn stands_like(self, other: PlaneSearch) -> bool {
        &&& self.selected@ == other.selected@
        &&& self.open_slots@ == other.open_slots@
        &&& self.f0@ == other.f0@
        &&& self.f1@ == other.f1@
        &&& self.d0@ == other.d0@
        &&& self.d1@ == other.d1@
    }

    /// A search with nothing selected: every corner is the reference point.
    pub fn new(task: SubsetTask) -> (r: PlaneSearch)
        requires
            task.wf(),
            task.reference_point@.len() == 2,
        ensures
            r.wf(),
            r.rows@ == task.rows@,
            r.indices@ == task.indices@,
            r.subset_size == task.subset_size,
            r.selected@.len() == 0,
            forall|j: int| 0 <= j < r.d0@.len() ==> #[trigger] r.d0@[j] == task.reference_point@[0],
            forall|j: int| 0 <= j < r.d1@.len() ==> #[trigger] r.d1@[j] == task.reference_point@[1],
    {
        let n: usize = task.rows.len();
        let ghost rows = task.rows@;
        let r0 = task.reference_point[0];
        let r1 = task.reference_point[1];
        assert(!task.reference_point@[0].nan() && !task.reference_point@[1].nan());
        let mut keys: Vec<Vec<i64>> = Vec::new();
        let mut i: usize = 0;
        while i < n
            invariant
                i <= n,
                rows == task.rows@,
                n == rows.len(),
                forall|q: int| 0 <= q < n ==> (#[trigger] rows[q])@.len() >= 2,
                keys@.len() == i,
                forall|q: int| 0 <= q < i ==> #[trigger] key_at(keys@, q) == seq![rows[q]@[0].total_rank(), rows[q]@[1].total_rank()],
            decreases n - i,
        {
            let ghost keys0 = keys@;
            let mut key: Vec<i64> = Vec::new();
            key.push(task.rows[i][0].total_key());
            key.push(task.rows[i][1].total_key());
            keys.push(key);
            assert forall|q: int| 0 <= q < i + 1 implies
                #[trigger] key_at(keys@, q) == seq![rows[q]@[0].total_rank(), rows[q]@[1].total_rank()] by {
                if q < i {
                    assert(key_at(keys0, q) == key_at(keys@, q));
                } else {
                    assert(key_at(keys@, q) =~= seq![rows[q]@[0].total_rank(), rows[q]@[1].total_rank()]);
                }
            }
            i = i + 1;
        }
        let open_slots = sorted_positions(&keys);
        let mut f0: Vec<Float> = Vec::new();
        let mut f1: Vec<Float> = Vec::new();
        let mut i: usize = 0;
        while i < n
            invariant
                i <= n,
                rows == task.rows@,
                n == rows.len(),
                covers(open_slots@, 0, n as int),
                forall|q: int| 0 <= q < n ==> (#[trigger] rows[q])@.len() >= 2,
                f0@.len() == i,
                f1@.len() == i,
                forall|q: int| 0 <= q < i ==> #[trigger] f0@[q] == rows[open_slots@[q] as int]@[0] && f1@[q] == rows[open_slots@[q] as int]@[1],
            decreases n - i,
        {
            let row = &task.rows[open_slots[i]];
            f0.push(row[0]);
            f1.push(row[1]);
            assert(f0@[i as int] == rows[open_slots@[i as int] as int]@[0]);
            i = i + 1;
        }
        proof {
            assert forall|a: int, b: int| 0 <= a < b < n implies
                left_of(rows, #[trigger] open_slots@[a] as int, #[trigger] open_slots@[b] as int) by {
                assert(precedes(keys@, open_slots@[a] as int, open_slots@[b] as int));
                let ka = key_at(keys@, open_slots@[a] as int);
                let kb = key_at(keys@, open_slots@[b] as int);
                assert(ka.len() == 2 && kb.len() == 2);
                if lex_lt(ka, kb) {
                    let q = choose|q: int| #[trigger] differs_first_at(ka, kb, q) && q < kb.len() && (q == ka.len() || ka[q] < kb[q]);
                    assert(q == 0 || q == 1);
                } else {
                    assert(ka[0] == kb[0] && ka[1] == kb[1]);
                }
            }
            assert((open_slots@ + Seq::<usize>::empty()) =~= open_slots@);
        }
        let r = PlaneSearch {
            rows: task.rows,
            indices: task.indices,
            subset_size: task.subset_size,
            open_slots,
            f0,
            f1,
            d0: vec![r0; n],
            d1: vec![r1; n],
            selected: Vec::new(),
        };
        assert(parted(r.rows@.len(), r.open_slots@, r.selected@)) by {
            assert(r.selected@ =~= Seq::<usize>::empty());
        }
        assert(r.corners_held());
        assert forall|i: int| 0 <= i < r.rows@.len() implies clean((#[trigger] r.rows@[i])@) && r.rows@[i]@.len() >= 2 by {
            assert(clean(task.rows@[i]@));
        }
        assert forall|j: int| 0 <= j < n implies !(#[trigger] r.d0@[j]).nan() && !r.d1@[j].nan() by {
            assert(r.d0@[j] == r0 && r.d1@[j] == r1);
        }
        assert forall|j: int| 0 <= j < n implies {
            &&& #[trigger] r.f0@[j] == r.rows@[r.open_slots@[j] as int]@[0]
            &&& r.f1@[j] == r.rows@[r.open_slots@[j] as int]@[1]
            &&& !r.d0@[j].nan()
            &&& !r.d1@[j].nan()
        } by {
            assert(!r.d0@[j].nan() && !r.d1@[j].nan());
        }
        r
    }

    /// Whether enough rows are selected.
    pub fn is_done(&self) -> (r: bool)
        ensures
            r == (self.selected@.len() == self.subset_size),
    {
        self.selected.len() == self.subset_size
    }

    /// Takes the row whose rectangle, of the given areas, is largest, and draws in the
    /// corners of the others.
    pub fn pick(&mut self, areas: &Vec<Float>)
        requires
            old(self).wf(),
            old(self).selected@.len() < old(self).subset_size,
            areas@.len() == old(self).open_slots@.len(),
        ensures
            final(self).wf(),
            final(self).rows@ == old(self).rows@,
            final(self).indices@ == old(self).indices@,
            final(self).subset_size == old(self).subset_size,
            old(self).steps_to(areas@, *final(self)),
    {
        let best: usize = argmax(areas);
        let ghost start = *self;
        let ghost a = best as int;
        let slot: usize = self.open_slots.remove(best);
        let s0 = self.f0.remove(best);
        let s1 = self.f1.remove(best);
        let _c0 = self.d0.remove(best);
        let _c1 = self.d1.remove(best);
        self.selected.push(slot);
        let m: usize = self.open_slots.len();
        cap(&mut self.d0, 0, best, s0);
        cap(&mut self.d1, best, m, s1);
        proof {
            lemma_parted_move(start.rows@.len(), start.open_slots@, start.selected@, a, self.open_slots@);
            let src = |j: int| if j < a { j } else { j + 1 };
            assert forall|j: int| 0 <= j < m implies self.open_slots@[j] == start.open_slots@[#[trigger] src(j)]
                && self.f0@[j] == start.f0@[src(j)] && self.f1@[j] == start.f1@[src(j)] by {}
            assert(!s0.nan() && !s1.nan()) by {
                assert(start.f0@[a] == start.rows@[slot as int]@[0]);
                assert(clean(start.rows@[slot as int]@));
            }
            assert forall|j: int| 0 <= j < m implies {
                &&& #[trigger] self.f0@[j] == self.rows@[self.open_slots@[j] as int]@[0]
                &&& self.f1@[j] == self.rows@[self.open_slots@[j] as int]@[1]
                &&& !self.d0@[j].nan()
                &&& !self.d1@[j].nan()
            } by {
                assert(start.f0@[src(j)] == start.rows@[start.open_slots@[src(j)] as int]@[0]);
            }
            assert forall|x: int, y: int| 0 <= x < y < m implies
                left_of(self.rows@, #[trigger] self.open_slots@[x] as int, #[trigger] self.open_slots@[y] as int) by {
                assert(src(x) < src(y));
                assert(left_of(start.rows@, start.open_slots@[src(x)] as int, start.open_slots@[src(y)] as int));
            }
            assert forall|j: int, k: int| #![trigger self.open_slots@[j], self.selected@[k]]
                0 <= j < m && 0 <= k < self.selected@.len() implies {
                let p = self.open_slots@[j] as int;
                let q = self.selected@[k] as int;
                if left_of(self.rows@, p, q) {
                    self.d0@[j].rank() <= self.rows@[q]@[0].rank()
                } else {
                    self.d1@[j].rank() <= self.rows@[q]@[1].rank()
                }
            } by {
                let p = self.open_slots@[j] as int;
                let q = self.selected@[k] as int;
                assert(self.open_slots@[j] == start.open_slots@[src(j)]);
                assert(start.f0@[src(j)] == start.rows@[start.open_slots@[src(j)] as int]@[0]);
                if k < start.selected@.len() {
                    assert(start.selected@[k] == q);
                } else {
                    assert(q == slot);
                    assert(start.f0@[a] == start.rows@[slot as int]@[0]);
                    if j < a {
                        assert(left_of(start.rows@, start.open_slots@[j] as int, start.open_slots@[a] as int));
                    } else {
                        assert(left_of(start.rows@, start.open_slots@[a] as int, start.open_slots@[j + 1] as int));
                    }
                }
            }
            assert(is_argmax(areas@, a));
        }
    }

    /// The indices of the selected rows, in selection order.
    pub fn selection(&self) -> (r: Vec<usize>)
        requires
            self.wf(),
        ensures
            r@ == gathered(self.indices@, self.selected@),
    {
        gather(&self.indices, &self.selected)
    }
}

/// The numbers at positions `lo..hi` lowered to `bound`, where that is lower.
pub open spec fn capped(v: Seq<Float>, lo: int, hi: int, bound: Float) -> Seq<Float> {
    Seq::new(v.len(), |j: int| if lo <= j < hi && bound.below(v[j]) { bound } else { v[j] })
}

fn cap(v: &mut Vec<Float>, lo: usize, hi: usize, bound: Float)
    requires
        lo <= hi <= old(v)@.len(),
    ensures
        final(v)@ == capped(old(v)@, lo as int, hi as int, bound),
{
    let ghost start = v@;
    let mut j: usize = lo;
    while j < hi
        invariant
            lo <= j <= hi <= start.len(),
            v@.len() == start.len(),
            forall|q: int| 0 <= q < start.len() ==> #[trigger] v@[q]
                == (if lo <= q < j && bound.below(start[q]) { bound } else { start[q] }),
        decreases hi - j,
    {
        let c = v[j];
        if bound.lt(c) {
            v.set(j, bound);
        }
        j = j + 1;
    }
    assert(v@ =~= capped(start, lo as int, hi as int, bound));
}

/// Whatever contributions were computed, a finished search has selected as many
/// different indices as were asked for.
pub proof fn law_finished_search_is_a_selection(n: nat, indices: Seq<usize>, open_slots: Seq<usize>, selected: Seq<usize>, subset_size: nat)
    requires
        parted(n, open_slots, selected),
        indices.len() == n,
        indices.no_duplicates(),
        selected.len() == subset_size,
    ensures
        is_selection(indices, subset_size, gathered(indices, selected)),
{
    let out = gathered(indices, selected);
    let both = open_slots + selected;
    assert forall|k: int, l: int| 0 <= k < l < out.len() implies out[k] != out[l] by {
        assert(both[open_slots.len() + k] == selected[k]);
        assert(both[open_slots.len() + l] == selected[l]);
        assert(selected[k] < n && selected[l] < n);
    }
    assert forall|k: int| 0 <= k < out.len() implies indices.contains(#[trigger] out[k]) by {
        assert(selected[k] < n);
        assert(indices[selected[k] as int] == out[k]);
    }
}

proof fn lemma_argmax_is_one(contribs: Seq<Float>, a: int, b: int)
    requires
        is_argmax(contribs, a),
        is_argmax(contribs, b),
    ensures
        a == b,
{
    let counts = |i: int| !contribs[i].nan() && contribs[i].rank() > -0x7ff0_0000_0000_0000;
    if exists|i: int| 0 <= i < contribs.len() && #[trigger] counts(i) {
        assert(counts(a) && counts(b));
    }
}

/// Each state of `states` follows from the one before it by the areas at its place.
pub open spec fn is_run(states: Seq<PlaneSearch>, areas: Seq<Seq<Float>>) -> bool {
    &&& states.len() == areas.len() + 1
    &&& forall|i: int| 0 <= i < areas.len() ==> (#[trigger] states[i]).steps_to(areas[i], states[i + 1])
}

proof fn lemma_all_open(n: nat, open_slots: Seq<usize>, x: usize)
    requires
        open_slots.len() == n,
        open_slots.no_duplicates(),
        forall|k: int| 0 <= k < open_slots.len() ==> #[trigger] open_slots[k] < n,
        x < n,
    ensures
        open_slots.contains(x),
{
    let all = vstd::set_lib::set_int_range(0, n as int);
    let slots = ints(open_slots);
    vstd::set_lib::lemma_int_range(0, n as int);
    assert(slots.no_duplicates());
    slots.unique_seq_to_set();
    assert forall|y: int| slots.to_set().contains(y) implies all.contains(y) by {
        let k = choose|k: int| 0 <= k < slots.len() && slots[k] == y;
        assert(slots[k] == open_slots[k]);
    }
    vstd::set_lib::lemma_subset_equality(slots.to_set(), all);
    assert(all.contains(x as int));
    let k = choose|k: int| 0 <= k < slots.len() && slots[k] == x;
    assert(open_slots[k] == x);
}

proof fn lemma_left_to_right_is_one(rows: Seq<Vec<Float>>, p: Seq<usize>, q: Seq<usize>, k: int)
    requires
        p.len() == rows.len(),
        q.len() == rows.len(),
        p.no_duplicates(),
        q.no_duplicates(),
        forall|i: int| 0 <= i < p.len() ==> #[trigger] p[i] < rows.len(),
        forall|i: int| 0 <= i < q.len() ==> #[trigger] q[i] < rows.len(),
        forall|a: int, b: int| 0 <= a < b < p.len() ==> left_of(rows, #[trigger] p[a] as int, #[trigger] p[b] as int),
        forall|a: int, b: int| 0 <= a < b < q.len() ==> left_of(rows, #[trigger] q[a] as int, #[trigger] q[b] as int),
        0 <= k <= rows.len(),
    ensures
        p.take(k) == q.take(k),
    decreases k,
{
    if k > 0 {
        lemma_left_to_right_is_one(rows, p, q, k - 1);
        let x = p[k - 1];
        let y = q[k - 1];
        assert forall|i: int| 0 <= i < k - 1 implies p[i] == q[i] by {
            assert(p.take(k - 1)[i] == q.take(k - 1)[i]);
        }
        if x != y {
            lemma_all_open(rows.len(), q, x);
            lemma_all_open(rows.len(), p, y);
            let j = choose|j: int| 0 <= j < q.len() && q[j] == x;
            let i = choose|i: int| 0 <= i < p.len() && p[i] == y;
            if j < k - 1 {
                assert(p[j] == x);
            }
            if i < k - 1 {
                assert(q[i] == y);
            }
            assert(left_of(rows, q[k - 1] as int, q[j] as int));
            assert(left_of(rows, p[k - 1] as int, p[i] as int));
        }
        assert(p.take(k) =~= p.take(k - 1).push(x));
        assert(q.take(k) =~= q.take(k - 1).push(y));
    }
}

/// Searches in two objectives over the same rows begin alike, however many rows are asked
/// for.
pub proof fn law_plane_searches_begin_alike(a: PlaneSearch, b: PlaneSearch, r0: Float, r1: Float)
    requires
        a.wf(),
        b.wf(),
        a.rows@.len() == b.rows@.len(),
        forall|i: int| 0 <= i < a.rows@.len() ==> (#[trigger] a.rows@[i])@ == b.rows@[i]@,
        a.selected@.len() == 0,
        b.selected@.len() == 0,
        forall|j: int| 0 <= j < a.d0@.len() ==> #[trigger] a.d0@[j] == r0,
        forall|j: int| 0 <= j < a.d1@.len() ==> #[trigger] a.d1@[j] == r1,
        forall|j: int| 0 <= j < b.d0@.len() ==> #[trigger] b.d0@[j] == r0,
        forall|j: int| 0 <= j < b.d1@.len() ==> #[trigger] b.d1@[j] == r1,
    ensures
        a.stands_like(b),
{
    let n = a.rows@.len() as int;
    assert((a.open_slots@ + a.selected@) =~= a.open_slots@);
    assert((b.open_slots@ + b.selected@) =~= b.open_slots@);
    assert forall|x: int, y: int| 0 <= x < y < n implies left_of(
        a.rows@,
        #[trigger] b.open_slots@[x] as int,
        #[trigger] b.open_slots@[y] as int,
    ) by {
        assert(left_of(b.rows@, b.open_slots@[x] as int, b.open_slots@[y] as int));
        assert(a.rows@[b.open_slots@[x] as int]@ == b.rows@[b.open_slots@[x] as int]@);
        assert(a.rows@[b.open_slots@[y] as int]@ == b.rows@[b.open_slots@[y] as int]@);
    }
    lemma_left_to_right_is_one(a.rows@, a.open_slots@, b.open_slots@, n);
    assert(a.open_slots@.take(n) =~= a.open_slots@);
    assert(b.open_slots@.take(n) =~= b.open_slots@);
    assert(a.selected@ =~= b.selected@);
    assert forall|j: int| 0 <= j < n implies a.f0@[j] == b.f0@[j] && a.f1@[j] == b.f1@[j] by {
        assert(a.f0@[j] == a.rows@[a.open_slots@[j] as int]@[0] && b.f0@[j] == b.rows@[b.open_slots@[j] as int]@[0]);
        assert(a.rows@[a.open_slots@[j] as int]@ == b.rows@[a.open_slots@[j] as int]@);
    }
    assert(a.f0@ =~= b.f0@);
    assert(a.f1@ =~= b.f1@);
    assert(a.d0@ =~= b.d0@);
    assert(a.d1@ =~= b.d1@);
}

/// How many rows are asked for does not change which come first: where equal corners have
/// equal areas, a search that begins like another one and ends earlier selects what that
/// one selects first, and one that takes as many steps selects the same.
pub proof fn law_shorter_search_selects_a_prefix(
    fewer: Seq<PlaneSearch>,
    fewer_areas: Seq<Seq<Float>>,
    more: Seq<PlaneSearch>,
    more_areas: Seq<Seq<Float>>,
)
    requires
        is_run(fewer, fewer_areas),
        is_run(more, more_areas),
        fewer.len() <= more.len(),
        fewer[0].stands_like(more[0]),
        forall|i: int| 0 <= i < fewer_areas.len() && (#[trigger] fewer[i]).stands_like(more[i]) ==> fewer_areas[i] == more_areas[i],
    ensures
        fewer.last().selected@.is_prefix_of(more.last().selected@),
        fewer.len() == more.len() ==> fewer.last().selected@ == more.last().selected@,
{
    let m = fewer_areas.len() as int;
    lemma_runs_agree(fewer, fewer_areas, more, more_areas, m);
    lemma_run_grows(more, more_areas, m, more_areas.len() as int);
}

pub(crate) proof fn lemma_runs_agree(
    fewer: Seq<PlaneSearch>,
    fewer_areas: Seq<Seq<Float>>,
    more: Seq<PlaneSearch>,
    more_areas: Seq<Seq<Float>>,
    k: int,
)
    requires
        is_run(fewer, fewer_areas),
        is_run(more, more_areas),
        fewer.len() <= more.len(),
        fewer[0].stands_like(more[0]),
        forall|i: int| 0 <= i < fewer_areas.len() && (#[trigger] fewer[i]).stands_like(more[i]) ==> fewer_areas[i] == more_areas[i],
        0 <= k <= fewer_areas.len(),
    ensures
        fewer[k].stands_like(more[k]),
    decreases k,
{
    if k > 0 {
        lemma_runs_agree(fewer, fewer_areas, more, more_areas, k - 1);
        let areas = fewer_areas[k - 1];
        assert(fewer[k - 1].steps_to(areas, fewer[k]));
        assert(more[k - 1].steps_to(areas, more[k])) by {
            assert(more[k - 1].steps_to(more_areas[k - 1], more[k]));
        }
        assert forall|a: int, b: int| #[trigger] is_argmax(areas, a) && #[trigger] is_argmax(areas, b) implies a == b by {
            lemma_argmax_is_one(areas, a, b);
        }
    }
}

proof fn lemma_run_grows(states: Seq<PlaneSearch>, areas: Seq<Seq<Float>>, i: int, j: int)
    requires
        is_run(states, areas),
        0 <= i <= j <= areas.len(),
    ensures
        states[i].selected@.is_prefix_of(states[j].selected@),
    decreases j - i,
{
    if i < j {
        lemma_run_grows(states, areas, i, j - 1);
        assert(states[j - 1].steps_to(areas[j - 1], states[j]));
    }
}

/// Each state of `states` follows from the one before it by the step at its place.
pub open spec fn is_greedy_run(states: Seq<GreedySearch>, steps: Seq<GreedyStep>) -> bool {
    &&& states.len() == steps.len() + 1
    &&& forall|i: int| 0 <= i < steps.len() ==> (#[trigger] states[i]).steps_to(steps[i], states[i + 1])
        && (steps[i] is Next ==> states[i].walking())
}

/// The first `k + 1` states of two runs are pairwise alike.
pub open spec fn alike_up_to(a: Seq<GreedySearch>, b: Seq<GreedySearch>, k: int) -> bool {
    forall|i: int| 0 <= i <= k ==> (#[trigger] a[i]).stands_like(b[i])
}

proof fn lemma_order_is_one(contribs: Seq<Float>, p: Seq<usize>, q: Seq<usize>, k: int)
    requires
        by_bound(contribs, p),
        by_bound(contribs, q),
        0 <= k <= contribs.len(),
    ensures
        p.take(k) == q.take(k),
    decreases k,
{
    if k > 0 {
        lemma_order_is_one(contribs, p, q, k - 1);
        let x = p[k - 1];
        let y = q[k - 1];
        assert forall|i: int| 0 <= i < k - 1 implies p[i] == q[i] by {
            assert(p.take(k - 1)[i] == q.take(k - 1)[i]);
        }
        if x != y {
            assert(q.contains(x) && p.contains(y));
            let j = choose|j: int| 0 <= j < q.len() && q[j] == x;
            let i = choose|i: int| 0 <= i < p.len() && p[i] == y;
            if j < k - 1 {
                assert(p[j] == x);
            }
            if i < k - 1 {
                assert(q[i] == y);
            }
            assert(comes_first(contribs, q[k - 1], q[j]));
            assert(comes_first(contribs, p[k - 1], p[i]));
        }
        assert(p.take(k) =~= p.take(k - 1).push(x));
        assert(q.take(k) =~= q.take(k - 1).push(y));
    }
}

/// Searches that stand alike stand alike after the same step.
proof fn lemma_step_is_one(a: GreedySearch, b: GreedySearch, step: GreedyStep, c: GreedySearch, d: GreedySearch)
    requires
        a.stands_like(b),
        a.steps_to(step, c),
        b.steps_to(step, d),
        step is Next ==> a.walking(),
    ensures
        c.stands_like(d),
{
    match step {
        GreedyStep::Pick => {
            let i = choose|i: int| #[trigger] is_argmax(a.contribs@, i)
                && c.selected@ == a.selected@.push(a.remaining@[i])
                && c.remaining@ == a.remaining@.update(i, a.remaining@.last()).drop_last()
                && c.contribs@ == a.contribs@.update(i, a.contribs@.last()).drop_last();
            let j = choose|j: int| #[trigger] is_argmax(b.contribs@, j)
                && d.selected@ == b.selected@.push(b.remaining@[j])
                && d.remaining@ == b.remaining@.update(j, b.remaining@.last()).drop_last()
                && d.contribs@ == b.contribs@.update(j, b.contribs@.last()).drop_last();
            lemma_argmax_is_one(a.contribs@, i, j);
        },
        GreedyStep::Tighten(bounds) => {
            let n = c.contribs@.len() as int;
            lemma_order_is_one(c.contribs@, c.order@, d.order@, n);
            assert(c.order@.take(n) =~= c.order@);
            assert(d.order@.take(n) =~= d.order@);
        },
        GreedyStep::Next => {
            let order = a.order@;
            let v = choose|v: int| #[trigger] a.comes_to(v) && skipped(a, c, v)
                && c.visited == if v < a.order@.len() && !a.contribs@[a.order@[v] as int].below(c.max_seen) { v + 1 } else { v };
            let w = choose|w: int| #[trigger] b.comes_to(w) && skipped(b, d, w)
                && d.visited == if w < b.order@.len() && !b.contribs@[b.order@[w] as int].below(d.max_seen) { w + 1 } else { w };
            if v < w {
                assert(!finite(b.contribs@[b.order@[v] as int]));
            }
            if w < v {
                assert(!finite(a.contribs@[a.order@[w] as int]));
            }
            assert(v == w);
            assert forall|j: int| 0 <= j < a.contribs@.len() implies #[trigger] c.contribs@[j] == d.contribs@[j] by {
                assert(a.contribs.len() == a.contribs@.len());
                assert(order.contains(j as usize));
                let k = choose|k: int| 0 <= k < order.len() && order[k] == j as usize;
                assert(c.contribs@[a.order@[k] as int] == d.contribs@[b.order@[k] as int]);
            }
            assert(c.contribs@ =~= d.contribs@);
        },
        _ => {},
    }
}

pub(crate) proof fn lemma_greedy_runs_agree(fewer: Seq<GreedySearch>, fewer_steps: Seq<GreedyStep>, more: Seq<GreedySearch>, more_steps: Seq<GreedyStep>, k: int)
    requires
        is_greedy_run(fewer, fewer_steps),
        is_greedy_run(more, more_steps),
        fewer.len() <= more.len(),
        fewer[0].stands_like(more[0]),
        forall|i: int| 0 <= i < fewer_steps.len() && #[trigger] alike_up_to(fewer, more, i) ==> fewer_steps[i] == more_steps[i],
        0 <= k <= fewer_steps.len(),
    ensures
        alike_up_to(fewer, more, k),
    decreases k,
{
    if k > 0 {
        lemma_greedy_runs_agree(fewer, fewer_steps, more, more_steps, k - 1);
        assert(fewer[k - 1].stands_like(more[k - 1]));
        assert(fewer[k - 1].steps_to(fewer_steps[k - 1], fewer[k]));
        assert(more[k - 1].steps_to(more_steps[k - 1], more[k]));
        lemma_step_is_one(fewer[k - 1], more[k - 1], fewer_steps[k - 1], fewer[k], more[k]);
    }
}

proof fn lemma_greedy_run_grows(states: Seq<GreedySearch>, steps: Seq<GreedyStep>, i: int, j: int)
    requires
        is_greedy_run(states, steps),
        0 <= i <= j <= steps.len(),
    ensures
        states[i].selected@.is_prefix_of(states[j].selected@),
    decreases j - i,
{
    if i < j {
        lemma_greedy_run_grows(states, steps, i, j - 1);
        assert(states[j - 1].steps_to(steps[j - 1], states[j]));
    }
}

/// How many rows are asked for does not change which come first: where the search by
/// contributions is told the same after the same course, one that begins like another one
/// and ends earlier selects what that one selects first, and one that takes as many steps
/// selects the same.
pub proof fn law_shorter_greedy_search_selects_a_prefix(
    fewer: Seq<GreedySearch>,
    fewer_steps: Seq<GreedyStep>,
    more: Seq<GreedySearch>,
    more_steps: Seq<GreedyStep>,
)
    requires
        is_greedy_run(fewer, fewer_steps),
        is_greedy_run(more, more_steps),
        fewer.len() <= more.len(),
        fewer[0].stands_like(more[0]),
        forall|i: int| 0 <= i < fewer_steps.len() && #[trigger] alike_up_to(fewer, more, i) ==> fewer_steps[i] == more_steps[i],
    ensures
        fewer.last().selected@.is_prefix_of(more.last().selected@),
        fewer.len() == more.len() ==> fewer.last().selected@ == more.last().selected@,
{
    let m = fewer_steps.len() as int;
    lemma_greedy_runs_agree(fewer, fewer_steps, more, more_steps, m);
    assert(fewer[m].stands_like(more[m]));
    lemma_greedy_run_grows(more, more_steps, m, more_steps.len() as int);
}

impl GreedySearch {
    /// A walk in terms of the contributions that it computes on demand: what it has visited
    /// is computed, what lies ahead is bounded from above, and the largest contribution seen
    /// is one of those, or zero.
    pub open spec fn bounds_hold(self, exact: Seq<Float>) -> bool {
        &&& exact.len() == self.contribs@.len()
        &&& forall|j: int| 0 <= j < exact.len() ==> finite(#[trigger] exact[j]) && exact[j].rank() >= 0
        &&& forall|j: int| 0 <= j < exact.len() ==> finite(#[trigger] self.contribs@[j]) && exact[j].rank() <= self.contribs@[j].rank()
        &&& forall|k: int| 0 <= k < self.visited ==> {
            let j = #[trigger] self.order@[k] as int;
            self.contribs@[j] == exact[j] && exact[j].rank() <= self.max_seen.rank()
        }
        &&& self.max_seen.rank() == 0 || exists|k: int| 0 <= k < self.visited
            && self.contribs@[#[trigger] self.order@[k] as int].rank() == self.max_seen.rank()
    }
}

/// Computing the contribution of the slot that a walk comes to leaves bounds that hold.
pub proof fn law_walk_keeps_the_bounds(before: GreedySearch, there: GreedySearch, after: GreedySearch, exact: Seq<Float>, slot: usize)
    requires
        before.walking(),
        before.bounds_hold(exact),
        there.order@ == before.order@,
        there.visited > before.visited,
        skipped(before, there, there.visited - 1),
        slot == before.order@[there.visited - 1],
        there.visited <= before.order@.len(),
        after.order@ == there.order@,
        after.visited == there.visited,
        after.contribs@ == there.contribs@.update(slot as int, exact[slot as int]),
        after.max_seen == if there.max_seen.below(exact[slot as int]) { exact[slot as int] } else { there.max_seen },
    ensures
        after.bounds_hold(exact),
{
    let v = there.visited - 1;
    let order = before.order@;
    if before.visited < v {
        assert(!finite(before.contribs@[order[before.visited as int] as int]));
    }
    assert(v == before.visited);
    assert(before.contribs.len() == exact.len());
    assert forall|j: int| 0 <= j < exact.len() implies #[trigger] there.contribs@[j] == before.contribs@[j] by {
        assert(order.contains(j as usize));
        let k = choose|k: int| 0 <= k < order.len() && order[k] == j as usize;
        assert(there.contribs@[order[k] as int] == before.contribs@[order[k] as int]);
    }
    assert forall|k: int| 0 <= k < after.visited implies {
        let j = #[trigger] after.order@[k] as int;
        after.contribs@[j] == exact[j] && exact[j].rank() <= after.max_seen.rank()
    } by {
        if k < v {
            assert(before.order@[k] != before.order@[v]);
        }
    }
    if after.max_seen.rank() != 0 {
        if there.max_seen.below(exact[slot as int]) {
            assert(after.contribs@[after.order@[v] as int].rank() == after.max_seen.rank());
        } else {
            let k = choose|k: int| 0 <= k < before.visited && before.contribs@[#[trigger] before.order@[k] as int].rank() == before.max_seen.rank();
            assert(before.order@[k] != before.order@[v]);
            assert(after.contribs@[after.order@[k] as int].rank() == after.max_seen.rank());
        }
    }
}

/// A row picked after a walk has the largest contribution of all, though not every
/// contribution was computed.
pub proof fn law_lazy_pick_is_greedy(search: GreedySearch, exact: Seq<Float>, a: int)
    requires
        search.walking(),
        search.bounds_hold(exact),
        forall|k: int| search.visited <= k < search.order@.len() ==> search.contribs@[#[trigger] search.order@[k] as int].below(
            search.max_seen,
        ),
        is_argmax(search.contribs@, a),
    ensures
        forall|j: int| 0 <= j < exact.len() ==> (#[trigger] exact[j]).rank() <= exact[a].rank(),
{
    let order = search.order@;
    let contribs = search.contribs@;
    let counts = |i: int| !contribs[i].nan() && contribs[i].rank() > -0x7ff0_0000_0000_0000;
    assert(counts(a));
    assert(search.contribs.len() == exact.len());
    assert(order.contains(a as usize));
    let k = choose|k: int| 0 <= k < order.len() && order[k] == a as usize;
    if k >= search.visited {
        assert(contribs[order[k] as int].below(search.max_seen));
        assert(contribs[a].rank() >= exact[a].rank());
        let l = choose|l: int| 0 <= l < search.visited && contribs[#[trigger] order[l] as int].rank() == search.max_seen.rank();
        assert(counts(order[l] as int));
    }
    assert(contribs[a] == exact[a]);
    assert forall|j: int| 0 <= j < exact.len() implies (#[trigger] exact[j]).rank() <= exact[a].rank() by {
        assert(finite(contribs[j]));
        assert(counts(j));
    }
}

/// A greedy step goes to a number that no other one is above, and to the first of equals. A NaN
/// or negative infinity is taken only where there is nothing else, and then it is the first entry.
pub proof fn law_greedy_steps_go_to_the_largest(contribs: Seq<Float>, a: int, i: int)
    requires
        is_argmax(contribs, a),
        0 <= i < contribs.len(),
    ensures
        0 <= a < contribs.len(),
        !contribs[a].below(contribs[i]) || contribs[a].nan(),
        (Float { bits: 0xfff0_0000_0000_0000 }).below(contribs[i]) ==> !contribs[a].nan() && !contribs[a].below(contribs[i]),
        i < a ==> contribs[i].nan() || contribs[i].below(contribs[a]),
{
    let counts = |i: int| !contribs[i].nan() && contribs[i].rank() > -0x7ff0_0000_0000_0000;
    assert(counts(i) == (!contribs[i].nan() && contribs[i].rank() > -0x7ff0_0000_0000_0000));
    if exists|i: int| 0 <= i < contribs.len() && #[trigger] counts(i) {
        assert(counts(a));
    }
}

/// Contributions are lowered to their bounds: none stays above its bound, none rises, and each is
/// its bound or what it was.
pub proof fn law_lowered_contributions_respect_bounds(contribs: Seq<Float>, bounds: Seq<Float>, j: int)
    requires
        0 <= j < bounds.len(),
    ensures
        lowered(contribs, bounds).len() == bounds.len(),
        !bounds[j].below(lowered(contribs, bounds)[j]),
        !contribs[j].below(lowered(contribs, bounds)[j]),
        lowered(contribs, bounds)[j] == bounds[j] || lowered(contribs, bounds)[j] == contribs[j],
        !bounds[j].below(contribs[j]) ==> lowered(contribs, bounds)[j] == contribs[j],
{
}

/// Corners are drawn in within the given places: none of them stays above the bound, none moves
/// out, and those elsewhere stay.
pub proof fn law_capped_numbers_respect_the_bound(v: Seq<Float>, lo: int, hi: int, bound: Float, j: int)
    requires
        0 <= j < v.len(),
    ensures
        capped(v, lo, hi, bound).len() == v.len(),
        lo <= j < hi ==> !bound.below(capped(v, lo, hi, bound)[j]),
        !v[j].below(capped(v, lo, hi, bound)[j]),
        !(lo <= j < hi) || !bound.below(v[j]) ==> capped(v, lo, hi, bound)[j] == v[j],
{
}

/// By bound, the slots come from the largest contribution to the smallest.
pub proof fn law_bounds_descend(contribs: Seq<Float>, order: Seq<usize>, a: int, b: int)
    requires
        by_bound(contribs, order),
        0 <= a < b < order.len(),
    ensures
        order.len() == contribs.len(),
        !contribs[order[a] as int].below(contribs[order[b] as int]),
{
    assert(comes_first(contribs, order[a], order[b]));
    crate::float::law_total_order_refines_the_numeric_one(contribs[order[a] as int], contribs[order[b] as int]);
}

/// A row with the smaller first objective lies to the left; of equal ones, the one with the
/// smaller second objective does. Of two rows exactly one lies left of the other.
pub proof fn law_rows_lie_left_by_the_first_objective(rows: Seq<Vec<Float>>, p: int, q: int)
    ensures
        rows[p]@[0].below(rows[q]@[0]) ==> left_of(rows, p, q),
        rows[p]@[0].bits == rows[q]@[0].bits && rows[p]@[1].below(rows[q]@[1]) ==> left_of(rows, p, q),
        p != q ==> left_of(rows, p, q) != left_of(rows, q, p),
{
    crate::float::law_total_order_refines_the_numeric_one(rows[p]@[0], rows[q]@[0]);
    crate::float::law_total_order_refines_the_numeric_one(rows[p]@[1], rows[q]@[1]);
}

/// Where there are no more clean rows than asked for, all of them are selected, and rows with a
/// NaN only to fill up.
pub proof fn law_clean_rows_are_selected_first(
    r: SubsetSelection,
    rows: Seq<Vec<Float>>,
    indices: Seq<usize>,
    reference_point: Seq<Float>,
    subset_size: usize,
    cache: HssCache,
    i: int,
)
    requires
        begins(r, rows, indices, reference_point, subset_size, cache),
        indices.len() == rows.len(),
        0 < subset_size < rows.len(),
        clean(reference_point),
        picks(rows.len(), clean_on(rows)).len() <= subset_size,
        0 <= i < rows.len(),
        clean(rows[i]@),
    ensures
        r is Settled,
        r->Settled_0@.contains(indices[i]),
{
    let good = picks(rows.len(), clean_on(rows));
    crate::multi_objective::split::lemma_picks(rows.len(), clean_on(rows));
    assert(clean_on(rows)(i));
    assert(good.contains(i));
    let k = choose|k: int| 0 <= k < good.len() && good[k] == i;
    let result = r->Settled_0@;
    assert(entries(indices, good)[k] == indices[i]);
    assert(result[k] == indices[i]);
}

/// Where as many rows as there are are asked for, all are selected; where none is asked for, none
/// is.
pub proof fn law_all_or_nothing_is_selected_at_once(
    r: SubsetSelection,
    rows: Seq<Vec<Float>>,
    indices: Seq<usize>,
    reference_point: Seq<Float>,
    subset_size: usize,
    cache: HssCache,
)
    requires
        begins(r, rows, indices, reference_point, subset_size, cache),
        indices.len() == rows.len(),
    ensures
        subset_size >= rows.len() ==> r is Settled && r->Settled_0@ == indices,
        subset_size == 0 ==> r is Settled && r->Settled_0@.len() == 0,
{
}

/// Rows of one length are laid out one after the other: the number in column `k` of row `i` is
/// at place `i` times the length, plus `k`.
pub proof fn law_rows_are_laid_out_in_order(rows: Seq<Vec<Float>>, width: nat, i: int, k: int)
    requires
        forall|j: int| 0 <= j < rows.len() ==> (#[trigger] rows[j])@.len() == width,
        0 <= i < rows.len(),
        0 <= k < width,
    ensures
        flat(rows).len() == rows.len() * width,
        0 <= i * width + k < flat(rows).len(),
        flat(rows)[i * width + k] == rows[i]@[k],
    decreases rows.len(),
{
    let n = rows.len() as int;
    let rest = rows.drop_last();
    assert forall|j: int| 0 <= j < rest.len() implies (#[trigger] rest[j])@.len() == width by {
        assert(rest[j] == rows[j]);
    }
    assert(rows[n - 1]@.len() == width);
    assert((n - 1) * width + width == n * width) by (nonlinear_arith);
    if n > 1 {
        law_rows_are_laid_out_in_order(rest, width, if i < n - 1 { i } else { 0 }, k);
    } else {
        assert(flat(rest) =~= Seq::empty());
        assert(0 * width == 0);
    }
    assert(flat(rest).len() == (n - 1) * width);
    assert(0 <= i * width && i * width + width <= n * width) by (nonlinear_arith)
        requires
            0 <= i < n,
            width >= 0,
    ;
    if i < n - 1 {
        assert(rest[i] == rows[i]);
    }
}

/// A contribution that was computed replaces the bound of the slot that the walk is at, and the
/// largest contribution seen is the larger of the one before and this one.
pub proof fn law_recorded_contributions_raise_the_maximum(search: GreedySearch, exact: Float, next: GreedySearch, j: int)
    requires
        search.steps_to(GreedyStep::Record(exact), next),
        search.visited > 0,
        0 <= j < search.contribs@.len(),
        search.order@[search.visited - 1] < search.contribs@.len(),
    ensures
        next.contribs@[search.order@[search.visited - 1] as int] == exact,
        j != search.order@[search.visited - 1] ==> next.contribs@[j] == search.contribs@[j],
        !next.max_seen.below(search.max_seen),
        !next.max_seen.below(exact),
        next.max_seen == exact || next.max_seen == search.max_seen,
        next.selected@ == search.selected@,
        next.visited == search.visited,
{
}

/// Tightened bounds start a walk from the largest one down, with nothing seen yet.
pub proof fn law_tightening_starts_a_walk(search: GreedySearch, bounds: Seq<Float>, next: GreedySearch, a: int, b: int)
    requires
        search.steps_to(GreedyStep::Tighten(bounds), next),
        0 <= a < b < next.order@.len(),
    ensures
        next.visited == 0,
        next.max_seen.rank() == 0,
        next.selected@ == search.selected@,
        !next.contribs@[next.order@[a] as int].below(next.contribs@[next.order@[b] as int]),
{
    law_bounds_descend(next.contribs@, next.order@, a, b);
}

/// A walk goes on to the next slot where its finite bound is not below what was seen, and stays
/// where it is below.
pub proof fn law_walk_stops_below_the_maximum(search: GreedySearch, next: GreedySearch)
    requires
        search.steps_to(GreedyStep::Next, next),
        search.visited < search.order@.len(),
        finite(search.contribs@[search.order@[search.visited as int] as int]),
    ensures
        next.visited == search.visited <==> search.contribs@[search.order@[search.visited as int] as int].below(search.max_seen),
        next.visited == search.visited || next.visited == search.visited + 1,
        next.max_seen == search.max_seen,
{
    let v = choose|v: int| #[trigger] search.comes_to(v) && skipped(search, next, v)
        && next.visited == if v < search.order@.len() && !search.contribs@[search.order@[v] as int].below(next.max_seen) {
            v + 1
        } else {
            v
        };
    if v > search.visited {
        assert(!finite(search.contribs@[search.order@[search.visited as int] as int]));
    }
}

/// A pick selects a row whose contribution no other one is above, and takes it out of those that
/// remain.
pub proof fn law_picks_select_the_largest(search: GreedySearch, next: GreedySearch) -> (a: int)
    requires
        search.steps_to(GreedyStep::Pick, next),
        search.remaining@.len() == search.contribs@.len(),
    ensures
        0 <= a < search.contribs@.len(),
        next.selected@ == search.selected@.push(search.remaining@[a]),
        next.remaining@.len() == search.remaining@.len() - 1,
        forall|i: int|
            0 <= i < search.contribs@.len() && (Float { bits: 0xfff0_0000_0000_0000 }).below(#[trigger] search.contribs@[i])
                ==> !search.contribs@[a].below(search.contribs@[i]) && !search.contribs@[a].nan(),
{
    let a = choose|a: int| #[trigger] is_argmax(search.contribs@, a)
        && next.selected@ == search.selected@.push(search.remaining@[a])
        && next.remaining@ == search.remaining@.update(a, search.remaining@.last()).drop_last()
        && next.contribs@ == search.contribs@.update(a, search.contribs@.last()).drop_last();
    assert forall|i: int|
        0 <= i < search.contribs@.len() && (Float { bits: 0xfff0_0000_0000_0000 }).below(#[trigger] search.contribs@[i])
            implies !search.contribs@[a].below(search.contribs@[i]) && !search.contribs@[a].nan() by {
        law_greedy_steps_go_to_the_largest(search.contribs@, a, i);
    }
    a
}

/// A step in the plane selects the row with the largest area and draws the corners of the others
/// in: of those on its left to its first objective, of those on its right to its second one. The
/// other coordinate of a corner stays.
pub proof fn law_plane_steps_draw_the_corners_in(search: PlaneSearch, areas: Seq<Float>, next: PlaneSearch, j: int) -> (a: int)
    requires
        search.wf(),
        search.steps_to(areas, next),
        areas.len() == search.open_slots@.len(),
        0 <= j < next.open_slots@.len(),
    ensures
        is_argmax(areas, a),
        next.selected@ == search.selected@.push(search.open_slots@[a]),
        ({
            let picked = search.open_slots@[a] as int;
            let open = next.open_slots@[j] as int;
            let at = if j < a {
                j
            } else {
                j + 1
            };
            &&& open == search.open_slots@[at]
            &&& left_of(search.rows@, open, picked) ==> !search.rows@[picked]@[0].below(next.d0@[j]) && next.d1@[j] == search.d1@[at]
            &&& left_of(search.rows@, picked, open) ==> !search.rows@[picked]@[1].below(next.d1@[j]) && next.d0@[j] == search.d0@[at]
            &&& !search.d0@[at].below(next.d0@[j]) && !search.d1@[at].below(next.d1@[j])
        }),
{
    let a = choose|a: int| #[trigger] is_argmax(areas, a) && {
        let s0 = search.f0@[a];
        let s1 = search.f1@[a];
        &&& next.selected@ == search.selected@.push(search.open_slots@[a])
        &&& next.open_slots@ == search.open_slots@.remove(a)
        &&& next.f0@ == search.f0@.remove(a)
        &&& next.f1@ == search.f1@.remove(a)
        &&& next.d0@ == capped(search.d0@.remove(a), 0, a, s0)
        &&& next.d1@ == capped(search.d1@.remove(a), a, search.d1@.len() - 1, s1)
    };
    let picked = search.open_slots@[a] as int;
    assert(search.f0@[a] == search.rows@[picked]@[0]);
    assert(search.f1@[a] == search.rows@[picked]@[1]);
    let at = if j < a {
        j
    } else {
        j + 1
    };
    let open = search.open_slots@[at] as int;
    assert(next.open_slots@[j] == search.open_slots@[at]);
    if j < a {
        assert(left_of(search.rows@, search.open_slots@[j] as int, search.open_slots@[a] as int));
    } else {
        assert(left_of(search.rows@, search.open_slots@[a] as int, search.open_slots@[j + 1] as int));
    }
    law_rows_lie_left_by_the_first_objective(search.rows@, open, picked);
    assert(search.d0@.remove(a)[j] == search.d0@[at]);
    assert(search.d1@.remove(a)[j] == search.d1@[at]);
    a
}

/// A search that is called for is one in the plane exactly where there are two objectives and the
/// rows are finite.
pub proof fn law_two_finite_objectives_are_searched_in_the_plane(
    r: SubsetSelection,
    rows: Seq<Vec<Float>>,
    indices: Seq<usize>,
    reference_point: Seq<Float>,
    subset_size: usize,
    cache: HssCache,
)
    requires
        begins(r, rows, indices, reference_point, subset_size, cache),
    ensures
        r is Plane ==> reference_point.len() == 2 && forall|i: int| 0 <= i < r->Plane_0.rows@.len() ==> finite_row((#[trigger] r->Plane_0.rows@[i])@),
        r is Greedy && reference_point.len() == 2 ==> exists|i: int| 0 <= i < r->Greedy_0.rows@.len() && !finite_row((#[trigger] r->Greedy_0.rows@[i])@),
        r is Plane || r is Greedy ==> 0 < subset_size < picks(rows.len(), clean_on(rows)).len(),
{
}

} // verus!
