//! Subset selections as a whole: what a search ends with, what is remembered of it, and how
//! selections of different sizes go together.
//!
//! A search is told contributions and areas that are computed outside. Here they are functions
//! of what they are computed from; nothing else is said of them.

use vstd::prelude::*;

use crate::float::Float;
use crate::multi_objective::hssp::{
    alike_up_to, begins, cached, clean_on, entries, finite_row, flat, is_greedy_run, is_run, is_task, law_plane_searches_begin_alike,
    law_shorter_greedy_search_selects_a_prefix, law_shorter_search_selects_a_prefix, lemma_greedy_runs_agree, lemma_runs_agree, nan_on,
    GreedySearch, GreedyStep, HssCache, HssCacheEntry, PlaneSearch, SubsetSelection, SubsetTask,
};
use crate::multi_objective::nds::clean;
use crate::multi_objective::split::{gathered, ints, lemma_picks, lemma_picks_all, lemma_picks_part, picks};

verus! {

/// Where a greedy search stands.
pub struct Standing {
    pub remaining: Seq<usize>,
    pub contribs: Seq<Float>,
    pub selected: Seq<usize>,
    pub order: Seq<usize>,
    pub visited: usize,
    pub max_seen: Float,
}

/// Where a search in two objectives stands.
pub struct PlaneStanding {
    pub open_slots: Seq<usize>,
    pub f0: Seq<Float>,
    pub f1: Seq<Float>,
    pub d0: Seq<Float>,
    pub d1: Seq<Float>,
    pub selected: Seq<usize>,
}

/// What is computed outside.
pub struct Arithmetic {
    /// The hypervolume of each row on its own, from the rows and the reference point.
    pub inclusive: spec_fn(Seq<Seq<Float>>, Seq<Float>) -> Seq<Float>,
    /// The next step of a greedy search, from the rows, the reference point and the course of
    /// the search.
    pub step: spec_fn(Seq<Seq<Float>>, Seq<Float>, Seq<Standing>) -> GreedyStep,
    /// The area of each open rectangle in two objectives.
    pub areas: spec_fn(PlaneStanding) -> Seq<Float>,
}

pub open spec fn row_views(rows: Seq<Vec<Float>>) -> Seq<Seq<Float>> {
    rows.map_values(|row: Vec<Float>| row@)
}

pub open spec fn standing(search: GreedySearch) -> Standing {
    Standing {
        remaining: search.remaining@,
        contribs: search.contribs@,
        selected: search.selected@,
        order: search.order@,
        visited: search.visited,
        max_seen: search.max_seen,
    }
}

pub open spec fn plane_standing(search: PlaneSearch) -> PlaneStanding {
    PlaneStanding {
        open_slots: search.open_slots@,
        f0: search.f0@,
        f1: search.f1@,
        d0: search.d0@,
        d1: search.d1@,
        selected: search.selected@,
    }
}

/// Where the search stood up to state `i`.
pub open spec fn course(states: Seq<GreedySearch>, i: int) -> Seq<Standing> {
    Seq::new((i + 1) as nat, |k: int| standing(states[k]))
}

/// The search is one for the task.
pub open spec fn searches(search: GreedySearch, task: SubsetTask) -> bool {
    &&& search.wf()
    &&& search.rows@ == task.rows@
    &&& search.indices@ == task.indices@
    &&& search.reference_point@ == task.reference_point@
    &&& search.subset_size == task.subset_size
}

/// A greedy search with nothing selected yet.
pub open spec fn begun(search: GreedySearch, task: SubsetTask, inclusive: Seq<Float>) -> bool {
    &&& ints(search.remaining@) == Seq::new(task.rows@.len(), |i: int| i)
    &&& search.contribs@ == inclusive
    &&& search.selected@.len() == 0
    &&& search.order@.len() == 0
    &&& search.visited == 0
    &&& search.max_seen.bits == 0
}

/// The states and steps of a greedy search for the task, from its beginning to its end.
pub open spec fn greedy_course(task: SubsetTask, arithmetic: Arithmetic, states: Seq<GreedySearch>, steps: Seq<GreedyStep>) -> bool {
    let rows = row_views(task.rows@);
    let reference_point = task.reference_point@;
    &&& is_greedy_run(states, steps)
    &&& begun(states[0], task, (arithmetic.inclusive)(rows, reference_point))
    &&& forall|i: int| 0 <= i < states.len() ==> searches(#[trigger] states[i], task)
    &&& forall|i: int| 0 <= i < steps.len() ==> (#[trigger] states[i]).selected@.len() < task.subset_size && steps[i] == (arithmetic.step)(
        rows,
        reference_point,
        course(states, i),
    )
    &&& states.last().selected@.len() == task.subset_size
}

/// The search is one in two objectives for the task.
pub open spec fn searches_plane(search: PlaneSearch, task: SubsetTask) -> bool {
    &&& search.wf()
    &&& search.rows@ == task.rows@
    &&& search.indices@ == task.indices@
    &&& search.subset_size == task.subset_size
}

/// A search in two objectives with nothing selected yet.
pub open spec fn begun_plane(search: PlaneSearch, task: SubsetTask) -> bool {
    &&& search.selected@.len() == 0
    &&& forall|j: int| 0 <= j < search.d0@.len() ==> #[trigger] search.d0@[j] == task.reference_point@[0]
    &&& forall|j: int| 0 <= j < search.d1@.len() ==> #[trigger] search.d1@[j] == task.reference_point@[1]
}

/// The states and areas of a search in two objectives for the task, from its beginning to its
/// end.
pub open spec fn plane_course(task: SubsetTask, arithmetic: Arithmetic, states: Seq<PlaneSearch>, areas: Seq<Seq<Float>>) -> bool {
    &&& is_run(states, areas)
    &&& begun_plane(states[0], task)
    &&& forall|i: int| 0 <= i < states.len() ==> searches_plane(#[trigger] states[i], task)
    &&& forall|i: int| 0 <= i < areas.len() ==> (#[trigger] states[i]).selected@.len() < task.subset_size && areas[i] == (arithmetic.areas)(
        plane_standing(states[i]),
    )
    &&& states.last().selected@.len() == task.subset_size
}

/// Two finite objectives are searched in the plane.
pub open spec fn in_plane(task: SubsetTask) -> bool {
    task.reference_point@.len() == 2 && forall|i: int| 0 <= i < task.rows@.len() ==> finite_row((#[trigger] task.rows@[i])@)
}

/// A search for the task ends with this selection.
pub open spec fn selects(task: SubsetTask, arithmetic: Arithmetic, result: Seq<usize>) -> bool {
    if in_plane(task) {
        exists|states: Seq<PlaneSearch>, areas: Seq<Seq<Float>>| #[trigger]
            plane_course(task, arithmetic, states, areas) && result == gathered(task.indices@, states.last().selected@)
    } else {
        exists|states: Seq<GreedySearch>, steps: Seq<GreedyStep>| #[trigger]
            greedy_course(task, arithmetic, states, steps) && result == gathered(task.indices@, states.last().selected@)
    }
}

/// A selection that has begun ends with this one.
pub open spec fn ends(r: SubsetSelection, arithmetic: Arithmetic, result: Seq<usize>) -> bool {
    match r {
        SubsetSelection::Settled(settled) => result == settled@,
        SubsetSelection::Plane(task) => selects(task, arithmetic, result),
        SubsetSelection::Greedy(task) => selects(task, arithmetic, result),
    }
}

/// The entry was made for the task.
pub open spec fn kept(entry: HssCacheEntry, task: SubsetTask) -> bool {
    &&& task.wf()
    &&& entry.loss_vals_flat@ == flat(task.rows@)
    &&& entry.indices@ == task.indices@
    &&& entry.ref_point@ == task.reference_point@
    &&& entry.subset_size == task.subset_size
}

/// What is remembered is what a search ended with.
pub open spec fn remembers(cache: HssCache, arithmetic: Arithmetic) -> bool {
    cache.entry is Some ==> exists|task: SubsetTask| #[trigger]
        kept(cache.entry->Some_0, task) && selects(task, arithmetic, cache.entry->Some_0.result@)
}

/// A cache remembers what a search ended with: in the beginning, and whenever that was
/// stored.
pub proof fn law_cache_remembers_searches(cache: HssCache, task: SubsetTask, arithmetic: Arithmetic)
    requires
        cache.entry is Some ==> kept(cache.entry->Some_0, task) && selects(task, arithmetic, cache.entry->Some_0.result@),
    ensures
        remembers(cache, arithmetic),
{
}

/// The tasks differ in their size alone.
spec fn like(a: SubsetTask, b: SubsetTask) -> bool {
    &&& row_views(a.rows@) == row_views(b.rows@)
    &&& a.indices@ == b.indices@
    &&& a.reference_point@ == b.reference_point@
}

proof fn lemma_like_rows(a: SubsetTask, b: SubsetTask)
    requires
        like(a, b),
    ensures
        a.rows@.len() == b.rows@.len(),
        forall|i: int| 0 <= i < a.rows@.len() ==> (#[trigger] a.rows@[i])@ == b.rows@[i]@,
        in_plane(a) == in_plane(b),
{
    assert(row_views(a.rows@).len() == a.rows@.len());
    assert forall|i: int| 0 <= i < a.rows@.len() implies (#[trigger] a.rows@[i])@ == b.rows@[i]@ by {
        assert(row_views(a.rows@)[i] == row_views(b.rows@)[i]);
    }
    if in_plane(a) {
        assert forall|i: int| 0 <= i < b.rows@.len() implies finite_row((#[trigger] b.rows@[i])@) by {
            assert(finite_row(a.rows@[i]@));
        }
    }
    if in_plane(b) {
        assert forall|i: int| 0 <= i < a.rows@.len() implies finite_row((#[trigger] a.rows@[i])@) by {
            assert(finite_row(b.rows@[i]@));
        }
    }
}

/// Greedy searches for like tasks begin alike and are told alike.
proof fn lemma_greedy_told_alike(
    a: SubsetTask,
    b: SubsetTask,
    arithmetic: Arithmetic,
    u: Seq<GreedySearch>,
    s: Seq<GreedyStep>,
    v: Seq<GreedySearch>,
    t: Seq<GreedyStep>,
)
    requires
        like(a, b),
        greedy_course(a, arithmetic, u, s),
        greedy_course(b, arithmetic, v, t),
    ensures
        u[0].stands_like(v[0]),
        forall|i: int| 0 <= i < s.len() && i < t.len() && #[trigger] alike_up_to(u, v, i) ==> s[i] == t[i],
{
    lemma_like_rows(a, b);
    let p = u[0].remaining@;
    let q = v[0].remaining@;
    assert(ints(p).len() == p.len() && ints(q).len() == q.len());
    assert forall|k: int| 0 <= k < p.len() implies p[k] == q[k] by {
        assert(ints(p)[k] == ints(q)[k]);
    }
    assert(p =~= q);
    assert(u[0].selected@ =~= v[0].selected@);
    assert(u[0].order@ =~= v[0].order@);
    assert forall|i: int| 0 <= i < s.len() && i < t.len() && #[trigger] alike_up_to(u, v, i) implies s[i] == t[i] by {
        assert forall|k: int| 0 <= k <= i implies standing(u[k]) == standing(v[k]) by {
            assert(u[k].stands_like(v[k]));
        }
        assert(course(u, i) =~= course(v, i));
        assert(u[i].selected@.len() < a.subset_size);
        assert(v[i].selected@.len() < b.subset_size);
    }
}

/// A greedy search for fewer rows takes no more steps than one for more.
proof fn lemma_greedy_ends_first(
    a: SubsetTask,
    b: SubsetTask,
    arithmetic: Arithmetic,
    u: Seq<GreedySearch>,
    s: Seq<GreedyStep>,
    v: Seq<GreedySearch>,
    t: Seq<GreedyStep>,
)
    requires
        like(a, b),
        a.subset_size <= b.subset_size,
        greedy_course(a, arithmetic, u, s),
        greedy_course(b, arithmetic, v, t),
    ensures
        u.len() <= v.len(),
{
    if v.len() < u.len() {
        lemma_greedy_told_alike(b, a, arithmetic, v, t, u, s);
        let m = t.len() as int;
        lemma_greedy_runs_agree(v, t, u, s, m);
        assert(v[m].stands_like(u[m]));
        assert(u[m].selected@.len() < a.subset_size);
    }
}

proof fn lemma_greedy_prefix(
    a: SubsetTask,
    b: SubsetTask,
    arithmetic: Arithmetic,
    u: Seq<GreedySearch>,
    s: Seq<GreedyStep>,
    v: Seq<GreedySearch>,
    t: Seq<GreedyStep>,
)
    requires
        like(a, b),
        a.subset_size <= b.subset_size,
        greedy_course(a, arithmetic, u, s),
        greedy_course(b, arithmetic, v, t),
    ensures
        u.last().selected@.is_prefix_of(v.last().selected@),
{
    lemma_greedy_ends_first(a, b, arithmetic, u, s, v, t);
    lemma_greedy_told_alike(a, b, arithmetic, u, s, v, t);
    law_shorter_greedy_search_selects_a_prefix(u, s, v, t);
}

/// Searches in two objectives for like tasks begin alike and are told alike.
proof fn lemma_plane_told_alike(
    a: SubsetTask,
    b: SubsetTask,
    arithmetic: Arithmetic,
    u: Seq<PlaneSearch>,
    s: Seq<Seq<Float>>,
    v: Seq<PlaneSearch>,
    t: Seq<Seq<Float>>,
)
    requires
        like(a, b),
        plane_course(a, arithmetic, u, s),
        plane_course(b, arithmetic, v, t),
    ensures
        u[0].stands_like(v[0]),
        forall|i: int| 0 <= i < s.len() && i < t.len() && (#[trigger] u[i]).stands_like(v[i]) ==> s[i] == t[i],
{
    lemma_like_rows(a, b);
    assert(searches_plane(u[0], a));
    assert(searches_plane(v[0], b));
    law_plane_searches_begin_alike(u[0], v[0], a.reference_point@[0], a.reference_point@[1]);
    assert forall|i: int| 0 <= i < s.len() && i < t.len() && (#[trigger] u[i]).stands_like(v[i]) implies s[i] == t[i] by {
        assert(v[i].selected@.len() < b.subset_size);
        assert(plane_standing(u[i]) == plane_standing(v[i]));
    }
}

proof fn lemma_plane_prefix(
    a: SubsetTask,
    b: SubsetTask,
    arithmetic: Arithmetic,
    u: Seq<PlaneSearch>,
    s: Seq<Seq<Float>>,
    v: Seq<PlaneSearch>,
    t: Seq<Seq<Float>>,
)
    requires
        like(a, b),
        a.subset_size <= b.subset_size,
        plane_course(a, arithmetic, u, s),
        plane_course(b, arithmetic, v, t),
    ensures
        u.last().selected@.is_prefix_of(v.last().selected@),
{
    if v.len() < u.len() {
        lemma_plane_told_alike(b, a, arithmetic, v, t, u, s);
        let m = t.len() as int;
        lemma_runs_agree(v, t, u, s, m);
        assert(v[m].stands_like(u[m]));
        assert(u[m].selected@.len() < a.subset_size);
    }
    lemma_plane_told_alike(a, b, arithmetic, u, s, v, t);
    law_shorter_search_selects_a_prefix(u, s, v, t);
}

/// What is gathered by a prefix is a prefix of what is gathered.
proof fn lemma_gathered_prefix(table: Seq<usize>, p: Seq<usize>, q: Seq<usize>)
    requires
        p.is_prefix_of(q),
    ensures
        gathered(table, p).is_prefix_of(gathered(table, q)),
{
    assert forall|k: int| 0 <= k < p.len() implies p[k] == q[k] by {
        assert(q.subrange(0, p.len() as int)[k] == q[k]);
    }
    assert(gathered(table, p) =~= gathered(table, q).subrange(0, p.len() as int));
}

/// Of two searches for like tasks, the one for fewer rows selects first what the other one
/// selects first; both select among the indices.
proof fn lemma_selects_prefix(a: SubsetTask, b: SubsetTask, arithmetic: Arithmetic, first: Seq<usize>, second: Seq<usize>)
    requires
        like(a, b),
        a.subset_size <= b.subset_size,
        selects(a, arithmetic, first),
        selects(b, arithmetic, second),
    ensures
        first.is_prefix_of(second),
        first.len() == a.subset_size,
        second.len() == b.subset_size,
        forall|k: int| 0 <= k < first.len() ==> a.indices@.contains(#[trigger] first[k]),
{
    lemma_like_rows(a, b);
    if in_plane(a) {
        let (u, s) = choose|states: Seq<PlaneSearch>, areas: Seq<Seq<Float>>| #[trigger]
            plane_course(a, arithmetic, states, areas) && first == gathered(a.indices@, states.last().selected@);
        let (v, t) = choose|states: Seq<PlaneSearch>, areas: Seq<Seq<Float>>| #[trigger]
            plane_course(b, arithmetic, states, areas) && second == gathered(b.indices@, states.last().selected@);
        lemma_plane_prefix(a, b, arithmetic, u, s, v, t);
        lemma_gathered_prefix(a.indices@, u.last().selected@, v.last().selected@);
        assert(searches_plane(u[u.len() - 1], a));
        assert forall|k: int| 0 <= k < first.len() implies a.indices@.contains(#[trigger] first[k]) by {
            assert(u.last().selected@[k] < a.rows@.len());
        }
    } else {
        let (u, s) = choose|states: Seq<GreedySearch>, steps: Seq<GreedyStep>| #[trigger]
            greedy_course(a, arithmetic, states, steps) && first == gathered(a.indices@, states.last().selected@);
        let (v, t) = choose|states: Seq<GreedySearch>, steps: Seq<GreedyStep>| #[trigger]
            greedy_course(b, arithmetic, states, steps) && second == gathered(b.indices@, states.last().selected@);
        lemma_greedy_prefix(a, b, arithmetic, u, s, v, t);
        lemma_gathered_prefix(a.indices@, u.last().selected@, v.last().selected@);
        assert(searches(u[u.len() - 1], a));
        assert forall|k: int| 0 <= k < first.len() implies a.indices@.contains(#[trigger] first[k]) by {
            assert(u.last().selected@[k] < a.rows@.len());
        }
    }
}

proof fn lemma_flat_width(rows: Seq<Vec<Float>>, m: nat)
    requires
        forall|i: int| 0 <= i < rows.len() ==> (#[trigger] rows[i])@.len() >= m,
    ensures
        flat(rows).len() >= rows.len() * m,
    decreases rows.len(),
{
    if rows.len() > 0 {
        lemma_flat_width(rows.drop_last(), m);
        assert(rows.len() * m == (rows.len() - 1) * m + m) by (nonlinear_arith)
            requires rows.len() > 0;
        assert(rows.last()@.len() >= m);
    }
}

/// Rows that are no shorter than `m` and laid out like as many rows of that length are those
/// rows.
proof fn lemma_flat_is_one(a: Seq<Vec<Float>>, b: Seq<Vec<Float>>, m: nat)
    requires
        a.len() == b.len(),
        forall|i: int| 0 <= i < a.len() ==> (#[trigger] a[i])@.len() >= m,
        forall|i: int| 0 <= i < b.len() ==> (#[trigger] b[i])@.len() == m,
        flat(a) == flat(b),
    ensures
        row_views(a) == row_views(b),
    decreases a.len(),
{
    if a.len() > 0 {
        let x = a.drop_last();
        let y = b.drop_last();
        lemma_flat_width(x, m);
        lemma_flat_exact(y, m);
        assert(a.last()@.len() >= m && b.last()@.len() == m);
        assert(flat(a).len() == flat(x).len() + a.last()@.len());
        assert(flat(b).len() == flat(y).len() + b.last()@.len());
        assert(flat(x).len() == flat(y).len());
        assert(flat(x) =~= flat(a).take(flat(x).len() as int));
        assert(flat(y) =~= flat(b).take(flat(y).len() as int));
        assert(a.last()@ =~= flat(a).skip(flat(x).len() as int));
        assert(b.last()@ =~= flat(b).skip(flat(y).len() as int));
        lemma_flat_is_one(x, y, m);
        assert(row_views(a) =~= row_views(x).push(a.last()@));
        assert(row_views(b) =~= row_views(y).push(b.last()@));
    } else {
        assert(row_views(a) =~= row_views(b));
    }
}

proof fn lemma_flat_exact(rows: Seq<Vec<Float>>, m: nat)
    requires
        forall|i: int| 0 <= i < rows.len() ==> (#[trigger] rows[i])@.len() == m,
    ensures
        flat(rows).len() == rows.len() * m,
    decreases rows.len(),
{
    if rows.len() > 0 {
        lemma_flat_exact(rows.drop_last(), m);
        assert(rows.len() * m == (rows.len() - 1) * m + m) by (nonlinear_arith)
            requires rows.len() > 0;
        assert(rows.last()@.len() == m);
    }
}

/// The task over the clean rows, whichever vectors hold them.
spec fn fits(task: SubsetTask, rows: Seq<Vec<Float>>, indices: Seq<usize>, reference_point: Seq<Float>, subset_size: usize) -> bool {
    let at = picks(rows.len(), clean_on(rows));
    &&& row_views(task.rows@) == Seq::new(at.len(), |k: int| rows[at[k]]@)
    &&& task.indices@ == entries(indices, at)
    &&& task.reference_point@ == reference_point
    &&& task.subset_size == subset_size
}

proof fn lemma_task_fits(task: SubsetTask, rows: Seq<Vec<Float>>, indices: Seq<usize>, reference_point: Seq<Float>, subset_size: usize)
    requires
        is_task(task, rows, indices, reference_point, subset_size),
    ensures
        fits(task, rows, indices, reference_point, subset_size),
{
    let at = picks(rows.len(), clean_on(rows));
    assert(row_views(task.rows@) =~= Seq::new(at.len(), |k: int| rows[at[k]]@));
}

/// A search is called for.
spec fn needs_search(rows: Seq<Vec<Float>>, reference_point: Seq<Float>, subset_size: usize) -> bool {
    &&& 0 < subset_size < picks(rows.len(), clean_on(rows)).len()
    &&& subset_size < rows.len()
    &&& clean(reference_point)
}

/// A selection that needs a search ends as one, whether it is remembered or not.
proof fn lemma_ends_with_a_search(
    r: SubsetSelection,
    rows: Seq<Vec<Float>>,
    indices: Seq<usize>,
    reference_point: Seq<Float>,
    subset_size: usize,
    cache: HssCache,
    arithmetic: Arithmetic,
    result: Seq<usize>,
) -> (task: SubsetTask)
    requires
        begins(r, rows, indices, reference_point, subset_size, cache),
        remembers(cache, arithmetic),
        ends(r, arithmetic, result),
        needs_search(rows, reference_point, subset_size),
    ensures
        fits(task, rows, indices, reference_point, subset_size),
        selects(task, arithmetic, result),
{
    match r {
        SubsetSelection::Settled(_) => {
            let asked = choose|task: SubsetTask| #[trigger]
                is_task(task, rows, indices, reference_point, subset_size) && cached(cache, task) && result == cache.entry->Some_0.result@;
            lemma_task_fits(asked, rows, indices, reference_point, subset_size);
            let entry = cache.entry->Some_0;
            let task = choose|task: SubsetTask| #[trigger] kept(entry, task) && selects(task, arithmetic, entry.result@);
            assert(entry.answers(asked.rows@, asked.indices@, asked.reference_point@, asked.subset_size));
            lemma_flat_is_one(task.rows@, asked.rows@, reference_point.len());
            task
        },
        SubsetSelection::Plane(task) => {
            lemma_task_fits(task, rows, indices, reference_point, subset_size);
            task
        },
        SubsetSelection::Greedy(task) => {
            lemma_task_fits(task, rows, indices, reference_point, subset_size);
            task
        },
    }
}

/// What the cache remembers is never observed: two selections of as many rows for the same
/// inputs end the same, whatever was remembered when they began.
pub proof fn law_cache_is_never_observed(
    rows: Seq<Vec<Float>>,
    indices: Seq<usize>,
    reference_point: Seq<Float>,
    subset_size: usize,
    a: HssCache,
    b: HssCache,
    r: SubsetSelection,
    q: SubsetSelection,
    arithmetic: Arithmetic,
    first: Seq<usize>,
    second: Seq<usize>,
)
    requires
        begins(r, rows, indices, reference_point, subset_size, a),
        begins(q, rows, indices, reference_point, subset_size, b),
        remembers(a, arithmetic),
        remembers(b, arithmetic),
        ends(r, arithmetic, first),
        ends(q, arithmetic, second),
    ensures
        first == second,
{
    lemma_picks(rows.len(), clean_on(rows));
    if needs_search(rows, reference_point, subset_size) {
        let s = lemma_ends_with_a_search(r, rows, indices, reference_point, subset_size, a, arithmetic, first);
        let t = lemma_ends_with_a_search(q, rows, indices, reference_point, subset_size, b, arithmetic, second);
        lemma_selects_prefix(s, t, arithmetic, first, second);
        assert(second.subrange(0, second.len() as int) =~= second);
    }
}

/// Picks are added one at a time: every index that is selected with fewer picks is selected
/// with more, whatever is remembered in between.
pub proof fn law_fewer_picks_are_among_more(
    rows: Seq<Vec<Float>>,
    indices: Seq<usize>,
    reference_point: Seq<Float>,
    k: usize,
    l: usize,
    a: HssCache,
    b: HssCache,
    r: SubsetSelection,
    q: SubsetSelection,
    arithmetic: Arithmetic,
    first: Seq<usize>,
    second: Seq<usize>,
    x: usize,
)
    requires
        rows.len() == indices.len(),
        k <= l,
        begins(r, rows, indices, reference_point, k, a),
        begins(q, rows, indices, reference_point, l, b),
        remembers(a, arithmetic),
        remembers(b, arithmetic),
        ends(r, arithmetic, first),
        ends(q, arithmetic, second),
        first.contains(x),
    ensures
        second.contains(x),
{
    let n = rows.len();
    let good = picks(n, clean_on(rows));
    let bad = picks(n, nan_on(rows));
    lemma_picks(n, clean_on(rows));
    lemma_picks(n, nan_on(rows));
    lemma_picks_part(n, |i: int| true, clean_on(rows), nan_on(rows));
    lemma_picks_all(n, |i: int| true);
    let p = choose|p: int| 0 <= p < first.len() && first[p] == x;
    let among = entries(indices, good);
    if needs_search(rows, reference_point, k) {
        let s = lemma_ends_with_a_search(r, rows, indices, reference_point, k, a, arithmetic, first);
        lemma_selects_prefix(s, s, arithmetic, first, first);
        assert(among.contains(first[p]));
        let j = choose|j: int| 0 <= j < among.len() && among[j] == x;
        if needs_search(rows, reference_point, l) {
            let t = lemma_ends_with_a_search(q, rows, indices, reference_point, l, b, arithmetic, second);
            lemma_selects_prefix(s, t, arithmetic, first, second);
            assert(second.subrange(0, first.len() as int)[p] == second[p]);
        } else if l >= n {
            assert(indices[good[j]] == x);
        } else {
            assert(second[j] == x);
        }
    } else if k >= n {
    } else if l >= n {
        if k == 0 || !clean(reference_point) {
            assert(indices[p] == x);
        } else if p < good.len() {
            assert(indices[good[p]] == x);
        } else {
            assert(indices[bad[p - good.len()]] == x);
        }
    } else if k > 0 {
        assert(second[p] == x);
    }
}

} // verus!
