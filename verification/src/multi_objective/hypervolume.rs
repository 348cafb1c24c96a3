//! Which points a hypervolume is made of.
//!
//! The volume itself is a sum of products and is computed outside. Here stands what
//! comes before the arithmetic: the points that count, their order, and the way in which
//! their volumes are put together.

use vstd::prelude::*;

use crate::float::Float;
use crate::multi_objective::nds::{
    clean, dominates, filter_pareto_front, lemma_rearranged, lex_sort_indices, lex_sorted, no_worse, row_has_nan, same_width,
    total_row_key,
};
use crate::order::{covers, lemma_lex_total, lex_lt, positions_by_key};

verus! {

/// The clean rows that count: all of them, or one of each on the Pareto front.
pub open spec fn counted(rows: Seq<Vec<Float>>, assume_pareto: bool, points: Seq<usize>) -> bool {
    &&& lex_sorted(rows, points)
    &&& forall|x: usize| #[trigger] points.contains(x) ==> x < rows.len() && clean(rows[x as int]@)
    &&& if assume_pareto {
        points.no_duplicates() && forall|x: usize| x < rows.len() && clean(rows[x as int]@) ==> #[trigger] points.contains(x)
    } else {
        &&& forall|x: usize, y: usize| points.contains(x) && y < rows.len() && clean(rows[y as int]@) ==>
            !#[trigger] dominates(rows[y as int]@, rows[x as int]@)
        &&& forall|y: usize| y < rows.len() && clean(rows[y as int]@) ==> #[trigger] matched(rows, points, y)
        &&& forall|a: int, b: int| 0 <= a < points.len() && 0 <= b < points.len() && a != b ==>
            !#[trigger] no_worse(rows[points[a] as int]@, rows[points[b] as int]@)
    }
}

/// Some point is at least as good as row `y`.
pub open spec fn matched(rows: Seq<Vec<Float>>, points: Seq<usize>, y: usize) -> bool {
    exists|x: usize| points.contains(x) && #[trigger] no_worse(rows[x as int]@, rows[y as int]@)
}

/// The row lies strictly inside the box that the reference point spans.
pub open spec fn inside(row: Seq<Float>, reference_point: Seq<Float>) -> bool {
    forall|k: int| 0 <= k < reference_point.len() ==> (#[trigger] row[k]).below(reference_point[k])
}

/// `kept` is what is left of `points` without those outside the reference box.
pub open spec fn inside_points(rows: Seq<Vec<Float>>, reference_point: Seq<Float>, points: Seq<usize>) -> Seq<usize> {
    points.filter(|x: usize| inside(rows[x as int]@, reference_point))
}

/// How the volumes of the points add up.
pub enum HypervolumePlan {
    /// No point, no volume.
    Empty,
    /// The volume of one point.
    Single(usize),
    /// The volumes of two points without what they share.
    Pair(usize, usize),
    /// A sweep over at least three points in three objectives, in ascending order of the
    /// first.
    Sweep(Vec<usize>),
    /// Each point's volume without what the points behind it share.
    Recursive(Vec<usize>),
}

pub open spec fn small_plan(plan: HypervolumePlan, points: Seq<usize>) -> bool {
    if points.len() == 0 {
        plan is Empty
    } else if points.len() == 1 {
        plan == HypervolumePlan::Single(points[0])
    } else {
        points.len() == 2 && plan == HypervolumePlan::Pair(points[0], points[1])
    }
}

/// The plan for the given points.
pub open spec fn is_plan(plan: HypervolumePlan, rows: Seq<Vec<Float>>, reference_point: Seq<Float>, points: Seq<usize>) -> bool {
    if points.len() <= 2 {
        small_plan(plan, points)
    } else if reference_point.len() == 3 {
        let kept = inside_points(rows, reference_point, points);
        if kept.len() <= 2 {
            small_plan(plan, kept)
        } else {
            plan is Sweep && plan->Sweep_0@ == kept
        }
    } else {
        plan is Recursive && plan->Recursive_0@ == points
    }
}

/// The plan for the hypervolume of the rows.
pub open spec fn planned(plan: HypervolumePlan, rows: Seq<Vec<Float>>, reference_point: Seq<Float>, assume_pareto: bool) -> bool {
    if rows.len() == 0 || !clean(reference_point) {
        plan is Empty
    } else {
        exists|points: Seq<usize>| #[trigger] counted(rows, assume_pareto, points) && is_plan(plan, rows, reference_point, points)
    }
}

fn lies_inside(row: &Vec<Float>, reference_point: &Vec<Float>) -> (r: bool)
    requires
        row@.len() == reference_point@.len(),
    ensures
        r == inside(row@, reference_point@),
{
    let mut k: usize = 0;
    while k < row.len()
        invariant
            k <= row@.len(),
            row@.len() == reference_point@.len(),
            forall|q: int| 0 <= q < k ==> (#[trigger] row@[q]).below(reference_point@[q]),
        decreases row@.len() - k,
    {
        if !row[k].lt(reference_point[k]) {
            assert(!row@[k as int].below(reference_point@[k as int]));
            return false;
        }
        k = k + 1;
    }
    true
}

fn plan_small(points: &Vec<usize>) -> (plan: HypervolumePlan)
    requires
        points@.len() <= 2,
    ensures
        small_plan(plan, points@),
{
    if points.len() == 0 {
        HypervolumePlan::Empty
    } else if points.len() == 1 {
        HypervolumePlan::Single(points[0])
    } else {
        HypervolumePlan::Pair(points[0], points[1])
    }
}

/// Plans the hypervolume of the rows against a reference point. Rows with a NaN do not
/// count; nor do dominated rows and repetitions, which `assume_pareto` says there are
/// none of. Without rows, or with a NaN in the reference point, there is no volume.
pub fn compute_hypervolume_with(loss_vals: &Vec<Vec<Float>>, reference_point: &Vec<Float>, assume_pareto: bool) -> (plan: HypervolumePlan)
    requires
        loss_vals@.len() > 0 && clean(reference_point@) ==> reference_point@.len() > 0 && forall|i: int|
            0 <= i < loss_vals@.len() ==> (#[trigger] loss_vals@[i])@.len() == reference_point@.len(),
    ensures
        planned(plan, loss_vals@, reference_point@, assume_pareto),
{
    if loss_vals.len() == 0 || row_has_nan(reference_point) {
        return HypervolumePlan::Empty;
    }
    let ghost rows = loss_vals@;
    let n: usize = loss_vals.len();
    let mut points: Vec<usize> = Vec::new();
    let mut i: usize = 0;
    while i < n
        invariant
            i <= n,
            rows == loss_vals@,
            n == rows.len(),
            points@.no_duplicates(),
            forall|p: int| 0 <= p < points@.len() ==> #[trigger] points@[p] < i && clean(rows[points@[p] as int]@),
            forall|x: usize| x < i && clean(rows[x as int]@) ==> #[trigger] points@.contains(x),
        decreases n - i,
    {
        let ghost before = points@;
        if !row_has_nan(&loss_vals[i]) {
            points.push(i);
            assert(points@[before.len() as int] == i);
            assert(points@.contains(i));
        }
        assert forall|x: usize| before.contains(x) implies #[trigger] points@.contains(x) by {
            let k = choose|k: int| 0 <= k < before.len() && before[k] == x;
            assert(points@[k] == x);
        }
        i = i + 1;
    }
    let ghost all = points@;
    assert forall|x: usize| #[trigger] all.contains(x) implies x < n && clean(rows[x as int]@) by {
        let k = choose|k: int| 0 <= k < all.len() && all[k] == x;
        assert(all[k] < n);
    }
    if assume_pareto {
        lex_sort_indices(loss_vals.as_slice(), &mut points);
        proof {
            lemma_rearranged(all, points@);
        }
    } else {
        filter_pareto_front(loss_vals.as_slice(), &mut points);
        assert forall|y: usize| y < rows.len() && clean(rows[y as int]@) implies #[trigger] matched(rows, points@, y) by {
            assert(all.contains(y));
        }
    }
    assert(counted(rows, assume_pareto, points@));
    if points.len() <= 2 {
        return plan_small(&points);
    }
    if reference_point.len() == 3 {
        let ghost keep = |x: usize| inside(rows[x as int]@, reference_point@);
        let mut kept: Vec<usize> = Vec::new();
        let mut k: usize = 0;
        assert(points@.take(0) =~= Seq::empty());
        reveal(Seq::filter);
        while k < points.len()
            invariant
                k <= points@.len(),
                rows == loss_vals@,
                keep == (|x: usize| inside(rows[x as int]@, reference_point@)),
                forall|x: usize| #[trigger] points@.contains(x) ==> x < rows.len(),
                forall|i: int| 0 <= i < rows.len() ==> (#[trigger] rows[i])@.len() == reference_point@.len(),
                kept@ == points@.take(k as int).filter(keep),
            decreases points@.len() - k,
        {
            let x: usize = points[k];
            assert(points@.contains(x));
            proof {
                reveal(Seq::filter);
                let next = points@.take(k + 1);
                assert(next.drop_last() =~= points@.take(k as int));
                assert(next.last() == x);
            }
            if lies_inside(&loss_vals[x], reference_point) {
                kept.push(x);
            }
            k = k + 1;
        }
        assert(points@.take(points@.len() as int) =~= points@);
        assert(kept@ == inside_points(rows, reference_point@, points@));
        if kept.len() <= 2 {
            return plan_small(&kept);
        }
        return HypervolumePlan::Sweep(kept);
    }
    HypervolumePlan::Recursive(points)
}

/// The larger of two numbers in each objective.
pub open spec fn joined(a: Seq<Float>, b: Seq<Float>) -> Seq<Float> {
    Seq::new(a.len(), |k: int| if a[k].nan() || a[k].below(b[k]) { b[k] } else { a[k] })
}

/// What each point behind position `at` shares with the point there: its row, joined
/// with the row of that point.
pub fn limited_rows(loss_vals: &Vec<Vec<Float>>, points: &Vec<usize>, at: usize) -> (out: Vec<Vec<Float>>)
    requires
        same_width(loss_vals@),
        at < points@.len(),
        forall|k: int| 0 <= k < points@.len() ==> #[trigger] points@[k] < loss_vals@.len(),
    ensures
        out@.len() == points@.len() - at - 1,
        forall|j: int| 0 <= j < out@.len() ==> (#[trigger] out@[j])@
            == joined(loss_vals@[points@[at as int] as int]@, loss_vals@[points@[at + 1 + j] as int]@),
{
    let n: usize = points.len();
    let row = &loss_vals[points[at]];
    let mut out: Vec<Vec<Float>> = Vec::new();
    let mut j: usize = at + 1;
    while j < n
        invariant
            at < j <= n,
            n == points@.len(),
            same_width(loss_vals@),
            forall|k: int| 0 <= k < points@.len() ==> #[trigger] points@[k] < loss_vals@.len(),
            row@ == loss_vals@[points@[at as int] as int]@,
            out@.len() == j - at - 1,
            forall|q: int| 0 <= q < out@.len() ==> (#[trigger] out@[q])@ == joined(row@, loss_vals@[points@[at + 1 + q] as int]@),
        decreases points@.len() - j,
    {
        let other = &loss_vals[points[j]];
        assert(loss_vals@[points@[at as int] as int]@.len() == loss_vals@[0]@.len());
        assert(loss_vals@[points@[j as int] as int]@.len() == loss_vals@[0]@.len());
        let mut lim: Vec<Float> = Vec::new();
        let mut k: usize = 0;
        while k < row.len()
            invariant
                k <= row@.len(),
                row@.len() == other@.len(),
                lim@.len() == k,
                forall|q: int| 0 <= q < k ==> #[trigger] lim@[q] == joined(row@, other@)[q],
            decreases row@.len() - k,
        {
            lim.push(row[k].max(other[k]));
            k = k + 1;
        }
        assert(lim@ =~= joined(row@, other@));
        out.push(lim);
        j = j + 1;
    }
    out
}

/// The positions of the points in ascending order of the second objective, equal ones in
/// input order, and the place of each position in that order.
pub fn second_objective_order(loss_vals: &Vec<Vec<Float>>, points: &Vec<usize>) -> (r: (Vec<usize>, Vec<usize>))
    requires
        forall|k: int| 0 <= k < points@.len() ==> #[trigger] points@[k] < loss_vals@.len() && loss_vals@[points@[k] as int]@.len() >= 2,
    ensures
        covers(r.0@, 0, points@.len() as int),
        forall|a: int, b: int| 0 <= a < b < r.0@.len() ==> {
            let u = loss_vals@[points@[#[trigger] r.0@[a] as int] as int]@[1].total_rank();
            let v = loss_vals@[points@[#[trigger] r.0@[b] as int] as int]@[1].total_rank();
            u < v || (u == v && r.0@[a] < r.0@[b])
        },
        r.1@.len() == points@.len(),
        forall|k: int| 0 <= k < points@.len() ==> r.1@[#[trigger] r.0@[k] as int] == k,
{
    let n: usize = points.len();
    let ghost second = |k: int| loss_vals@[points@[k] as int]@[1].total_rank();
    let mut keys: Vec<i64> = Vec::new();
    let mut i: usize = 0;
    while i < n
        invariant
            i <= n,
            n == points@.len(),
            second == (|k: int| loss_vals@[points@[k] as int]@[1].total_rank()),
            forall|k: int| 0 <= k < points@.len() ==> #[trigger] points@[k] < loss_vals@.len() && loss_vals@[points@[k] as int]@.len() >= 2,
            keys@.len() == i,
            forall|q: int| 0 <= q < i ==> #[trigger] keys@[q] == second(q),
        decreases n - i,
    {
        keys.push(loss_vals[points[i]][1].total_key());
        i = i + 1;
    }
    let order = positions_by_key(&keys);
    let mut place: Vec<usize> = vec![0; n];
    let mut k: usize = 0;
    while k < n
        invariant
            k <= n,
            n == points@.len(),
            covers(order@, 0, n as int),
            place@.len() == n,
            forall|q: int| 0 <= q < k ==> place@[#[trigger] order@[q] as int] == q,
        decreases n - k,
    {
        place.set(order[k], k);
        k = k + 1;
    }
    proof {
        assert forall|a: int, b: int| 0 <= a < b < order@.len() implies {
            let u = loss_vals@[points@[#[trigger] order@[a] as int] as int]@[1].total_rank();
            let v = loss_vals@[points@[#[trigger] order@[b] as int] as int]@[1].total_rank();
            u < v || (u == v && order@[a] < order@[b])
        } by {}
    }
    (order, place)
}

/// A plan with the rows themselves in place of their positions.
pub enum PlannedRows {
    Empty,
    Single(Seq<Float>),
    Pair(Seq<Float>, Seq<Float>),
    Sweep(Seq<Seq<Float>>),
    Recursive(Seq<Seq<Float>>),
}

/// The rows at the given points.
pub open spec fn rows_at(rows: Seq<Vec<Float>>, points: Seq<usize>) -> Seq<Seq<Float>> {
    points.map_values(|x: usize| rows[x as int]@)
}

/// The rows that a plan names.
pub open spec fn named(plan: HypervolumePlan, rows: Seq<Vec<Float>>) -> PlannedRows {
    match plan {
        HypervolumePlan::Empty => PlannedRows::Empty,
        HypervolumePlan::Single(x) => PlannedRows::Single(rows[x as int]@),
        HypervolumePlan::Pair(x, y) => PlannedRows::Pair(rows[x as int]@, rows[y as int]@),
        HypervolumePlan::Sweep(points) => PlannedRows::Sweep(rows_at(rows, points@)),
        HypervolumePlan::Recursive(points) => PlannedRows::Recursive(rows_at(rows, points@)),
    }
}

/// No number is a negative zero.
pub open spec fn one_zero(rows: Seq<Vec<Float>>) -> bool {
    forall|i: int, k: int| 0 <= i < rows.len() && 0 <= k < rows[i]@.len() ==> (#[trigger] rows[i]@[k]).bits != 0x8000_0000_0000_0000
}

/// Some clean row of `rows` is at least as good as the row.
pub open spec fn bettered(rows: Seq<Vec<Float>>, row: Seq<Float>) -> bool {
    exists|j: int| 0 <= j < rows.len() && clean(rows[j]@) && #[trigger] no_worse(rows[j]@, row)
}

/// Every clean row of `others` is matched or bettered by a clean row of `rows`.
pub open spec fn as_good(rows: Seq<Vec<Float>>, others: Seq<Vec<Float>>) -> bool {
    forall|i: int| 0 <= i < others.len() && clean((#[trigger] others[i])@) ==> bettered(rows, others[i]@)
}

/// Each row comes strictly before every later one.
spec fn ascends(rows: Seq<Seq<Float>>) -> bool {
    forall|a: int, b: int| 0 <= a < b < rows.len() ==> lex_lt(total_row_key(#[trigger] rows[a]), total_row_key(#[trigger] rows[b]))
}

proof fn lemma_ascending_rows_agree(u: Seq<Seq<Float>>, v: Seq<Seq<Float>>)
    requires
        ascends(u),
        ascends(v),
        forall|a: int| 0 <= a < u.len() ==> v.contains(#[trigger] u[a]),
        forall|b: int| 0 <= b < v.len() ==> u.contains(#[trigger] v[b]),
    ensures
        u == v,
    decreases u.len(),
{
    if u.len() == 0 {
        if v.len() > 0 {
            assert(u.contains(v[0]));
        }
        assert(u =~= v);
    } else {
        assert(v.contains(u[0]));
        let j = choose|j: int| 0 <= j < v.len() && v[j] == u[0];
        assert(u.contains(v[0]));
        let i = choose|i: int| 0 <= i < u.len() && u[i] == v[0];
        lemma_lex_total(total_row_key(u[0]), total_row_key(v[0]));
        assert(u[0] == v[0]) by {
            if j > 0 && i > 0 {
                assert(lex_lt(total_row_key(v[0]), total_row_key(v[j])));
                assert(lex_lt(total_row_key(u[0]), total_row_key(u[i])));
            }
        }
        let x = u.drop_first();
        let y = v.drop_first();
        assert forall|a: int| 0 <= a < x.len() implies y.contains(#[trigger] x[a]) by {
            assert(x[a] == u[a + 1]);
            assert(v.contains(u[a + 1]));
            let b = choose|b: int| 0 <= b < v.len() && v[b] == u[a + 1];
            assert(lex_lt(total_row_key(u[0]), total_row_key(u[a + 1])));
            assert(y[b - 1] == v[b]);
        }
        assert forall|b: int| 0 <= b < y.len() implies x.contains(#[trigger] y[b]) by {
            assert(y[b] == v[b + 1]);
            assert(u.contains(v[b + 1]));
            let a = choose|a: int| 0 <= a < u.len() && u[a] == v[b + 1];
            assert(lex_lt(total_row_key(v[0]), total_row_key(v[b + 1])));
            assert(x[a - 1] == u[a]);
        }
        assert(ascends(x)) by {
            assert forall|a: int, b: int| 0 <= a < b < x.len() implies lex_lt(
                total_row_key(#[trigger] x[a]),
                total_row_key(#[trigger] x[b]),
            ) by {
                assert(x[a] == u[a + 1] && x[b] == u[b + 1]);
            }
        }
        assert(ascends(y)) by {
            assert forall|a: int, b: int| 0 <= a < b < y.len() implies lex_lt(
                total_row_key(#[trigger] y[a]),
                total_row_key(#[trigger] y[b]),
            ) by {
                assert(y[a] == v[a + 1] && y[b] == v[b + 1]);
            }
        }
        lemma_ascending_rows_agree(x, y);
        assert(u =~= seq![u[0]] + x);
        assert(v =~= seq![v[0]] + y);
    }
}

proof fn lemma_front_ascends(rows: Seq<Vec<Float>>, points: Seq<usize>)
    requires
        counted(rows, false, points),
    ensures
        ascends(rows_at(rows, points)),
{
    let u = rows_at(rows, points);
    assert forall|a: int, b: int| 0 <= a < b < u.len() implies lex_lt(total_row_key(#[trigger] u[a]), total_row_key(#[trigger] u[b])) by {
        let x = rows[points[a] as int]@;
        let y = rows[points[b] as int]@;
        lemma_lex_total(total_row_key(x), total_row_key(y));
        assert(!lex_lt(total_row_key(y), total_row_key(x)));
        if total_row_key(x) == total_row_key(y) {
            assert(total_row_key(x).len() == x.len() && total_row_key(y).len() == y.len());
            assert forall|k: int| 0 <= k < x.len() implies (#[trigger] x[k]).rank() <= y[k].rank() by {
                assert(total_row_key(x)[k] == total_row_key(y)[k]);
            }
            assert(no_worse(x, y));
        }
    }
}

/// Each point on the front of `rows` is a point on the front of `others`.
proof fn lemma_front_within(rows: Seq<Vec<Float>>, points: Seq<usize>, others: Seq<Vec<Float>>, other_points: Seq<usize>, a: int)
    requires
        counted(rows, false, points),
        counted(others, false, other_points),
        others.len() <= usize::MAX,
        rows.len() <= usize::MAX,
        one_zero(rows),
        one_zero(others),
        as_good(rows, others),
        as_good(others, rows),
        0 <= a < points.len(),
    ensures
        rows_at(others, other_points).contains(rows_at(rows, points)[a]),
{
    assert(points.contains(points[a]));
    let p = rows[points[a] as int]@;
    assert(bettered(others, p));
    let j = choose|j: int| 0 <= j < others.len() && clean(others[j]@) && #[trigger] no_worse(others[j]@, p);
    assert(matched(others, other_points, j as usize));
    let y = choose|y: usize| other_points.contains(y) && #[trigger] no_worse(others[y as int]@, others[j]@);
    let q = others[y as int]@;
    assert(no_worse(q, p)) by {
        assert forall|k: int| 0 <= k < q.len() implies (#[trigger] q[k]).rank() <= p[k].rank() by {
            assert(others[j]@[k].rank() <= p[k].rank());
        }
    }
    assert(bettered(rows, q));
    let i = choose|i: int| 0 <= i < rows.len() && clean(rows[i]@) && #[trigger] no_worse(rows[i]@, q);
    assert(matched(rows, points, i as usize));
    let x = choose|x: usize| points.contains(x) && #[trigger] no_worse(rows[x as int]@, rows[i]@);
    let b = choose|b: int| 0 <= b < points.len() && points[b] == x;
    let r = rows[x as int]@;
    assert(no_worse(r, q)) by {
        assert forall|k: int| 0 <= k < r.len() implies (#[trigger] r[k]).rank() <= q[k].rank() by {
            assert(rows[i]@[k].rank() <= q[k].rank());
        }
    }
    assert(no_worse(r, p)) by {
        assert forall|k: int| 0 <= k < r.len() implies (#[trigger] r[k]).rank() <= p[k].rank() by {
            assert(q[k].rank() <= p[k].rank());
        }
    }
    assert(a == b) by {
        if a != b {
            assert(!no_worse(rows[points[b] as int]@, rows[points[a] as int]@));
        }
    }
    assert(q =~= p) by {
        assert forall|k: int| 0 <= k < p.len() implies q[k] == #[trigger] p[k] by {
            assert(r[k].rank() <= q[k].rank());
            assert(q[k].rank() <= p[k].rank());
            assert(others[y as int]@[k].bits != 0x8000_0000_0000_0000);
            assert(rows[points[a] as int]@[k].bits != 0x8000_0000_0000_0000);
        }
    }
    let c = choose|c: int| 0 <= c < other_points.len() && other_points[c] == y;
    assert(rows_at(others, other_points)[c] == q);
}

proof fn lemma_inside_rows(rows: Seq<Vec<Float>>, reference_point: Seq<Float>, points: Seq<usize>)
    ensures
        rows_at(rows, inside_points(rows, reference_point, points)) == rows_at(rows, points).filter(
            |row: Seq<Float>| inside(row, reference_point),
        ),
    decreases points.len(),
{
    reveal(Seq::filter);
    let keep = |x: usize| inside(rows[x as int]@, reference_point);
    let keeps = |row: Seq<Float>| inside(row, reference_point);
    let u = rows_at(rows, points);
    if points.len() > 0 {
        let rest = points.drop_last();
        lemma_inside_rows(rows, reference_point, rest);
        assert(u.drop_last() =~= rows_at(rows, rest));
        assert(u.last() == rows[points.last() as int]@);
        let kept = rest.filter(keep);
        if keep(points.last()) {
            assert(points.filter(keep) == kept.push(points.last()));
            assert(rows_at(rows, kept.push(points.last())) =~= rows_at(rows, kept).push(u.last()));
        }
        assert(rows_at(rows, points.filter(keep)) =~= u.filter(keeps));
    } else {
        assert(rows_at(rows, points.filter(keep)) =~= u.filter(keeps));
    }
}

proof fn lemma_same_rows_same_plan(
    plan: HypervolumePlan,
    rows: Seq<Vec<Float>>,
    points: Seq<usize>,
    other_plan: HypervolumePlan,
    others: Seq<Vec<Float>>,
    other_points: Seq<usize>,
    reference_point: Seq<Float>,
)
    requires
        is_plan(plan, rows, reference_point, points),
        is_plan(other_plan, others, reference_point, other_points),
        rows_at(rows, points) == rows_at(others, other_points),
    ensures
        named(plan, rows) == named(other_plan, others),
{
    let u = rows_at(rows, points);
    assert(u.len() == points.len() && u.len() == other_points.len());
    lemma_inside_rows(rows, reference_point, points);
    lemma_inside_rows(others, reference_point, other_points);
    let kept = inside_points(rows, reference_point, points);
    let other_kept = inside_points(others, reference_point, other_points);
    assert(rows_at(rows, kept) == rows_at(others, other_kept));
    assert(kept.len() == rows_at(rows, kept).len());
    assert(other_kept.len() == rows_at(rows, kept).len());
    assert forall|k: int| 0 <= k < points.len() implies #[trigger] rows[points[k] as int]@ == others[other_points[k] as int]@ by {
        assert(u[k] == rows_at(others, other_points)[k]);
    }
    assert forall|k: int| 0 <= k < kept.len() implies #[trigger] rows[kept[k] as int]@ == others[other_kept[k] as int]@ by {
        assert(rows_at(rows, kept)[k] == rows_at(others, other_kept)[k]);
    }
}

/// A hypervolume depends on the best rows alone: where each of two lists matches or betters
/// every row of the other, both plans name the same rows in the same order. Rows with a NaN
/// are of no account.
pub proof fn law_plan_depends_on_the_best_rows(
    plan: HypervolumePlan,
    rows: Seq<Vec<Float>>,
    other_plan: HypervolumePlan,
    others: Seq<Vec<Float>>,
    reference_point: Seq<Float>,
)
    requires
        planned(plan, rows, reference_point, false),
        planned(other_plan, others, reference_point, false),
        rows.len() <= usize::MAX,
        others.len() <= usize::MAX,
        one_zero(rows),
        one_zero(others),
        as_good(rows, others),
        as_good(others, rows),
    ensures
        named(plan, rows) == named(other_plan, others),
{
    if clean(reference_point) {
        if rows.len() == 0 {
            law_nothing_clean_has_no_volume(other_plan, others, reference_point, false);
        } else if others.len() == 0 {
            law_nothing_clean_has_no_volume(plan, rows, reference_point, false);
        } else {
            let points = choose|points: Seq<usize>| #[trigger] counted(rows, false, points) && is_plan(plan, rows, reference_point, points);
            let other_points = choose|points: Seq<usize>| #[trigger]
                counted(others, false, points) && is_plan(other_plan, others, reference_point, points);
            let u = rows_at(rows, points);
            let v = rows_at(others, other_points);
            lemma_front_ascends(rows, points);
            lemma_front_ascends(others, other_points);
            assert forall|a: int| 0 <= a < u.len() implies v.contains(#[trigger] u[a]) by {
                lemma_front_within(rows, points, others, other_points, a);
            }
            assert forall|b: int| 0 <= b < v.len() implies u.contains(#[trigger] v[b]) by {
                lemma_front_within(others, other_points, rows, points, b);
            }
            lemma_ascending_rows_agree(u, v);
            lemma_same_rows_same_plan(plan, rows, points, other_plan, others, other_points, reference_point);
        }
    }
}

/// Where every row has a NaN, or there is none, there is no volume.
pub proof fn law_nothing_clean_has_no_volume(plan: HypervolumePlan, rows: Seq<Vec<Float>>, reference_point: Seq<Float>, assume_pareto: bool)
    requires
        planned(plan, rows, reference_point, assume_pareto),
        forall|i: int| 0 <= i < rows.len() ==> !clean((#[trigger] rows[i])@),
    ensures
        plan is Empty,
{
    if rows.len() > 0 && clean(reference_point) {
        let points = choose|points: Seq<usize>| #[trigger]
            counted(rows, assume_pareto, points) && is_plan(plan, rows, reference_point, points);
        if points.len() > 0 {
            assert(points.contains(points[0]));
        }
    }
}

/// The order in which rows are given does not matter.
pub proof fn law_row_order_does_not_matter(
    plan: HypervolumePlan,
    rows: Seq<Vec<Float>>,
    other_plan: HypervolumePlan,
    others: Seq<Vec<Float>>,
    order: Seq<usize>,
    reference_point: Seq<Float>,
)
    requires
        planned(plan, rows, reference_point, false),
        planned(other_plan, others, reference_point, false),
        rows.len() <= usize::MAX,
        one_zero(rows),
        covers(order, 0, rows.len() as int),
        others.len() == rows.len(),
        forall|k: int| 0 <= k < others.len() ==> (#[trigger] others[k])@ == rows[order[k] as int]@,
    ensures
        named(plan, rows) == named(other_plan, others),
{
    assert forall|i: int| 0 <= i < others.len() && clean((#[trigger] others[i])@) implies bettered(rows, others[i]@) by {
        assert(no_worse(rows[order[i] as int]@, others[i]@));
    }
    assert forall|i: int| 0 <= i < rows.len() && clean((#[trigger] rows[i])@) implies bettered(others, rows[i]@) by {
        assert(order.contains(i as usize));
        let k = choose|k: int| 0 <= k < order.len() && order[k] == i as usize;
        assert(others[k]@ == rows[i]@);
        assert(no_worse(others[k]@, rows[i]@));
    }
    assert forall|i: int, k: int| 0 <= i < others.len() && 0 <= k < others[i]@.len() implies (#[trigger] others[i]@[k]).bits
        != 0x8000_0000_0000_0000 by {
        assert(rows[order[i] as int]@[k].bits != 0x8000_0000_0000_0000);
    }
    law_plan_depends_on_the_best_rows(plan, rows, other_plan, others, reference_point);
}

/// A row with a NaN changes nothing, nor does a row that another one matches or betters.
pub proof fn law_needless_rows_change_nothing(
    plan: HypervolumePlan,
    rows: Seq<Vec<Float>>,
    other_plan: HypervolumePlan,
    row: Vec<Float>,
    reference_point: Seq<Float>,
)
    requires
        planned(plan, rows, reference_point, false),
        planned(other_plan, rows.push(row), reference_point, false),
        rows.len() < usize::MAX,
        one_zero(rows.push(row)),
        !clean(row@) || bettered(rows, row@),
    ensures
        named(plan, rows) == named(other_plan, rows.push(row)),
{
    let others = rows.push(row);
    assert forall|i: int| 0 <= i < others.len() && clean((#[trigger] others[i])@) implies bettered(rows, others[i]@) by {
        if i < rows.len() {
            assert(no_worse(rows[i]@, others[i]@));
        }
    }
    assert forall|i: int| 0 <= i < rows.len() && clean((#[trigger] rows[i])@) implies bettered(others, rows[i]@) by {
        assert(no_worse(others[i]@, rows[i]@));
    }
    assert forall|i: int, k: int| 0 <= i < rows.len() && 0 <= k < rows[i]@.len() implies (#[trigger] rows[i]@[k]).bits
        != 0x8000_0000_0000_0000 by {
        assert(others[i]@[k].bits != 0x8000_0000_0000_0000);
    }
    law_plan_depends_on_the_best_rows(plan, rows, other_plan, others, reference_point);
}

/// In each objective the larger of two numbers is taken, and a number before a NaN.
pub proof fn law_joined_rows_are_not_smaller(a: Seq<Float>, b: Seq<Float>, k: int)
    requires
        0 <= k < a.len(),
        a.len() == b.len(),
    ensures
        joined(a, b).len() == a.len(),
        !joined(a, b)[k].below(a[k]),
        !joined(a, b)[k].below(b[k]),
        joined(a, b)[k] == a[k] || joined(a, b)[k] == b[k],
        a[k].nan() ==> joined(a, b)[k] == b[k],
        b[k].nan() && !a[k].nan() ==> joined(a, b)[k] == a[k],
{
}

/// The points that are kept are those of which every number is below that of the reference point.
pub proof fn law_kept_points_lie_in_the_box(rows: Seq<Vec<Float>>, reference_point: Seq<Float>, points: Seq<usize>, x: usize)
    ensures
        inside_points(rows, reference_point, points).contains(x) <==> points.contains(x) && forall|k: int|
            0 <= k < reference_point.len() ==> (#[trigger] rows[x as int]@[k]).below(reference_point[k]),
        inside_points(rows, reference_point, points).len() <= points.len(),
{
    let keep = |x: usize| inside(rows[x as int]@, reference_point);
    points.filter_lemma(keep);
    let kept = inside_points(rows, reference_point, points);
    if kept.contains(x) {
        let i = choose|i: int| 0 <= i < kept.len() && kept[i] == x;
        assert(keep(kept[i]));
        points.lemma_filter_contains_rev(keep, x);
    }
    if points.contains(x) && keep(x) {
        let i = choose|i: int| 0 <= i < points.len() && points[i] == x;
        assert(kept.contains(points[i]));
    }
}

/// Up to two points are planned as they are; three objectives are swept over the points in the
/// box, and other numbers of objectives go by recursion over all points.
pub proof fn law_plans_go_by_size(plan: HypervolumePlan, rows: Seq<Vec<Float>>, reference_point: Seq<Float>, points: Seq<usize>)
    requires
        is_plan(plan, rows, reference_point, points),
    ensures
        points.len() == 0 ==> plan is Empty,
        points.len() == 1 ==> plan == HypervolumePlan::Single(points[0]),
        points.len() == 2 ==> plan == HypervolumePlan::Pair(points[0], points[1]),
        points.len() > 2 && reference_point.len() != 3 ==> plan is Recursive && plan->Recursive_0@ == points,
        plan is Sweep ==> reference_point.len() == 3 && points.len() > 2 && plan->Sweep_0@.len() > 2,
{
}

} // verus!
