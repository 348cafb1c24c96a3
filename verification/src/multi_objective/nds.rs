//! Non-dominated sorting and Pareto-front filtering.

use vstd::prelude::*;

use crate::float::Float;
use crate::order::{covers, differs_first_at, key_at, lemma_lex_total, lex_lt, precedes, sorted_positions};

verus! {

/// A row without a NaN.
pub open spec fn clean(row: Seq<Float>) -> bool {
    forall|k: int| 0 <= k < row.len() ==> !(#[trigger] row[k]).nan()
}

/// `a` is at least as good as `b` in every objective.
pub open spec fn no_worse(a: Seq<Float>, b: Seq<Float>) -> bool {
    a.len() == b.len() && forall|k: int| 0 <= k < a.len() ==> (#[trigger] a[k]).rank() <= b[k].rank()
}

/// `a` is at least as good as `b` everywhere, and better somewhere.
pub open spec fn dominates(a: Seq<Float>, b: Seq<Float>) -> bool {
    no_worse(a, b) && !no_worse(b, a)
}

/// Row `i` is clean and survives the removal of `r` fronts: its non-domination rank is
/// at least `r`.
pub open spec fn reaches(rows: Seq<Vec<Float>>, i: int, r: nat) -> bool
    decreases r,
{
    if r == 0 {
        0 <= i < rows.len() && clean(rows[i]@)
    } else {
        &&& reaches(rows, i, (r - 1) as nat)
        &&& exists|j: int| reaches(rows, j, (r - 1) as nat) && #[trigger] dominates(rows[j]@, rows[i]@)
    }
}

/// The non-domination rank of clean row `i` is `r`: 0 on the Pareto front, 1 on the
/// front of what is left without it, and so on.
pub open spec fn has_rank(rows: Seq<Vec<Float>>, i: int, r: nat) -> bool {
    reaches(rows, i, r) && !reaches(rows, i, r + 1)
}

/// The clean rows whose rank is at least `r`.
pub open spec fn left_over(rows: Seq<Vec<Float>>, r: nat) -> Set<int> {
    Set::new(|i: int| reaches(rows, i, r))
}

/// Removing `c` fronts leaves no clean row, or takes out at least `n_below` of them.
pub open spec fn settles(rows: Seq<Vec<Float>>, n_below: nat, c: nat) -> bool {
    left_over(rows, c).len() == 0 || left_over(rows, 0).len() - left_over(rows, c).len() >= n_below
}

/// The least number of fronts that settles `n_below` rows.
pub open spec fn is_cutoff(rows: Seq<Vec<Float>>, n_below: nat, c: nat) -> bool {
    settles(rows, n_below, c) && forall|d: nat| d < c ==> !#[trigger] settles(rows, n_below, d)
}

/// Clean rows of rank below `c` carry their rank, the other clean rows carry `c`.
pub open spec fn ranked_up_to(rows: Seq<Vec<Float>>, ranks: Seq<usize>, c: nat) -> bool {
    forall|i: int| #![trigger ranks[i]] 0 <= i < rows.len() && clean(rows[i]@) ==>
        if reaches(rows, i, c) {
            ranks[i] == c
        } else {
            ranks[i] < c && has_rank(rows, i, ranks[i] as nat)
        }
}

/// Rows with a NaN carry one more than the largest rank of a clean row, or 0 where
/// there is none.
pub open spec fn nan_rows_last(rows: Seq<Vec<Float>>, ranks: Seq<usize>) -> bool {
    forall|i: int| #![trigger ranks[i]] 0 <= i < rows.len() && !clean(rows[i]@) ==> {
        &&& forall|j: int| 0 <= j < rows.len() && clean(rows[j]@) ==> #[trigger] ranks[j] < ranks[i]
        &&& ranks[i] == 0 || exists|j: int| 0 <= j < rows.len() && clean(rows[j]@) && ranks[i] == #[trigger] ranks[j] + 1
    }
}

/// The ranks that [`fast_non_dominated_sort_partial`] gives to `rows`.
pub open spec fn non_domination_ranks(rows: Seq<Vec<Float>>, n_below: nat, ranks: Seq<usize>) -> bool {
    &&& ranks.len() == rows.len()
    &&& rows.len() > 0 && rows[0]@.len() == 2 ==> forall|i: int|
        0 <= i < rows.len() && clean(rows[i]@) ==> has_rank(rows, i, #[trigger] ranks[i] as nat)
    &&& rows.len() > 0 && rows[0]@.len() != 2 ==> exists|c: nat|
        #[trigger] is_cutoff(rows, n_below, c) && ranked_up_to(rows, ranks, c)
    &&& nan_rows_last(rows, ranks)
}

/// The row as the integers its numbers are compared by.
pub open spec fn row_key(row: Seq<Float>) -> Seq<int> {
    row.map_values(|v: Float| v.rank())
}

/// `new` holds the entries of `old` in another order.
pub open spec fn rearranged(old_order: Seq<usize>, new_order: Seq<usize>) -> bool {
    &&& new_order.len() == old_order.len()
    &&& exists|p: Seq<usize>| #[trigger] covers(p, 0, old_order.len() as int)
        && forall|k: int| 0 <= k < new_order.len() ==> #[trigger] new_order[k] == old_order[p[k] as int]
}

/// The row as the integers that the total order of its numbers goes by.
pub open spec fn total_row_key(row: Seq<Float>) -> Seq<int> {
    row.map_values(|v: Float| v.total_rank())
}

/// The rows at `indices` never decrease lexicographically in the total order of numbers,
/// which puts the negative zero first.
pub open spec fn lex_sorted(rows: Seq<Vec<Float>>, indices: Seq<usize>) -> bool {
    forall|a: int, b: int| 0 <= a < b < indices.len() ==>
        !lex_lt(total_row_key(rows[#[trigger] indices[b] as int]@), total_row_key(rows[#[trigger] indices[a] as int]@))
}

/// The rows at `indices` never decrease lexicographically as their numbers compare.
pub open spec fn rank_sorted(rows: Seq<Vec<Float>>, indices: Seq<usize>) -> bool {
    forall|a: int, b: int| 0 <= a < b < indices.len() ==>
        !lex_lt(row_key(rows[#[trigger] indices[b] as int]@), row_key(rows[#[trigger] indices[a] as int]@))
}

pub open spec fn same_width(rows: Seq<Vec<Float>>) -> bool {
    forall|i: int| 0 <= i < rows.len() ==> (#[trigger] rows[i])@.len() == rows[0]@.len()
}

proof fn lemma_dominates_lex(a: Seq<Float>, b: Seq<Float>)
    requires
        dominates(a, b),
    ensures
        lex_lt(row_key(a), row_key(b)),
{
    let ka = row_key(a);
    let kb = row_key(b);
    lemma_lex_total(ka, kb);
    if ka == kb {
        assert forall|k: int| 0 <= k < b.len() implies (#[trigger] b[k]).rank() <= a[k].rank() by {
            assert(ka[k] == kb[k]);
        }
    }
    if lex_lt(kb, ka) {
        let k = choose|k: int| #[trigger] differs_first_at(kb, ka, k) && k < ka.len() && (k == kb.len() || kb[k] < ka[k]);
        assert(a[k].rank() <= b[k].rank());
    }
}

/// Dominance is transitive, also through a step between equal rows.
pub proof fn lemma_dominates_transitive(a: Seq<Float>, b: Seq<Float>, c: Seq<Float>)
    requires
        no_worse(a, b),
        no_worse(b, c),
    ensures
        no_worse(a, c),
        dominates(a, b) || dominates(b, c) ==> dominates(a, c),
{
    assert forall|k: int| 0 <= k < a.len() implies (#[trigger] a[k]).rank() <= c[k].rank() by {
        assert(b[k].rank() <= c[k].rank());
    }
    if no_worse(c, a) {
        assert forall|k: int| 0 <= k < b.len() implies (#[trigger] b[k]).rank() <= a[k].rank() by {
            assert(b[k].rank() <= c[k].rank());
            assert(c[k].rank() <= a[k].rank());
        }
        assert forall|k: int| 0 <= k < c.len() implies (#[trigger] c[k]).rank() <= b[k].rank() by {
            assert(a[k].rank() <= b[k].rank());
            assert(c[k].rank() <= a[k].rank());
        }
    }
}

/// No row is ranked at a level that the one below it has not reached.
pub proof fn lemma_reaches_down(rows: Seq<Vec<Float>>, i: int, r: nat, s: nat)
    requires
        reaches(rows, i, r),
        s <= r,
    ensures
        reaches(rows, i, s),
        0 <= i < rows.len(),
        clean(rows[i]@),
    decreases r,
{
    if s < r {
        lemma_reaches_down(rows, i, (r - 1) as nat, s);
    } else if r > 0 {
        lemma_reaches_down(rows, i, (r - 1) as nat, 0);
    }
}

/// A numbering that grows along dominance, and that steps down by one to some
/// dominating row, is the non-domination rank.
proof fn lemma_rank_by_steps(rows: Seq<Vec<Float>>, f: spec_fn(int) -> int, i: int, r: nat)
    requires
        forall|j: int| 0 <= j < rows.len() && clean(rows[j]@) ==> #[trigger] f(j) >= 0,
        forall|a: int, b: int| 0 <= a < rows.len() && 0 <= b < rows.len() && clean(rows[a]@) && clean(rows[b]@)
            && dominates(rows[a]@, rows[b]@) ==> #[trigger] f(a) < #[trigger] f(b),
        forall|b: int| 0 <= b < rows.len() && clean(rows[b]@) && #[trigger] f(b) > 0 ==>
            exists|a: int| 0 <= a < rows.len() && clean(rows[a]@) && dominates(rows[a]@, rows[b]@) && #[trigger] f(a) == f(b) - 1,
        0 <= i < rows.len(),
        clean(rows[i]@),
    ensures
        reaches(rows, i, r) == (f(i) >= r),
    decreases r,
{
    if r > 0 {
        lemma_rank_by_steps(rows, f, i, (r - 1) as nat);
        if reaches(rows, i, r) {
            let j = choose|j: int| reaches(rows, j, (r - 1) as nat) && #[trigger] dominates(rows[j]@, rows[i]@);
            lemma_reaches_down(rows, j, (r - 1) as nat, 0);
            lemma_rank_by_steps(rows, f, j, (r - 1) as nat);
            assert(f(j) < f(i));
        }
        if f(i) >= r {
            let a = choose|a: int| 0 <= a < rows.len() && clean(rows[a]@) && dominates(rows[a]@, rows[i]@) && #[trigger] f(a) == f(i) - 1;
            lemma_rank_by_steps(rows, f, a, (r - 1) as nat);
            assert(reaches(rows, a, (r - 1) as nat));
        }
    }
}

/// `remaining` lists the rows of rank at least `r`, each once.
spec fn lists_left_over(rows: Seq<Vec<Float>>, remaining: Seq<usize>, r: nat) -> bool {
    &&& rows.len() <= usize::MAX
    &&& remaining.no_duplicates()
    &&& forall|p: int| 0 <= p < remaining.len() ==> reaches(rows, #[trigger] remaining[p] as int, r)
    &&& forall|i: int| #[trigger] reaches(rows, i, r) ==> remaining.contains(i as usize)
}

proof fn lemma_left_over_count(rows: Seq<Vec<Float>>, remaining: Seq<usize>, r: nat)
    requires
        lists_left_over(rows, remaining, r),
    ensures
        left_over(rows, r).len() == remaining.len(),
{
    let ints = remaining.map_values(|x: usize| x as int);
    assert(ints.no_duplicates());
    ints.unique_seq_to_set();
    assert forall|i: int| left_over(rows, r).contains(i) == ints.to_set().contains(i) by {
        if reaches(rows, i, r) {
            lemma_reaches_down(rows, i, r, 0);
            let p = choose|p: int| 0 <= p < remaining.len() && remaining[p] == i as usize;
            assert(ints[p] == i);
        }
        if ints.contains(i) {
            let p = choose|p: int| 0 <= p < ints.len() && ints[p] == i;
            assert(reaches(rows, remaining[p] as int, r));
        }
    }
    assert(left_over(rows, r) =~= ints.to_set());
}

pub(crate) fn row_has_nan(row: &Vec<Float>) -> (r: bool)
    ensures
        r == !clean(row@),
{
    let mut k: usize = 0;
    while k < row.len()
        invariant
            k <= row@.len(),
            forall|q: int| 0 <= q < k ==> !(#[trigger] row@[q]).nan(),
        decreases row@.len() - k,
    {
        if row[k].is_nan() {
            assert(row@[k as int].nan());
            return true;
        }
        k = k + 1;
    }
    false
}

/// Whether any row holds a NaN.
pub fn loss_values_have_nan(loss_values: &[Vec<Float>]) -> (r: bool)
    ensures
        r == exists|i: int| 0 <= i < loss_values@.len() && !clean((#[trigger] loss_values@[i])@),
{
    let mut i: usize = 0;
    while i < loss_values.len()
        invariant
            i <= loss_values@.len(),
            forall|q: int| 0 <= q < i ==> clean((#[trigger] loss_values@[q])@),
        decreases loss_values@.len() - i,
    {
        if row_has_nan(&loss_values[i]) {
            return true;
        }
        i = i + 1;
    }
    false
}

fn row_keys(row: &Vec<Float>) -> (keys: Vec<i64>)
    ensures
        keys@.map_values(|x: i64| x as int) == row_key(row@),
{
    let mut keys: Vec<i64> = Vec::new();
    let mut k: usize = 0;
    while k < row.len()
        invariant
            k <= row@.len(),
            keys@.len() == k,
            forall|q: int| 0 <= q < k ==> #[trigger] keys@[q] == row@[q].rank(),
        decreases row@.len() - k,
    {
        keys.push(row[k].key());
        k = k + 1;
    }
    assert(keys@.map_values(|x: i64| x as int) =~= row_key(row@));
    keys
}

fn total_row_keys(row: &Vec<Float>) -> (keys: Vec<i64>)
    ensures
        keys@.map_values(|x: i64| x as int) == total_row_key(row@),
{
    let mut keys: Vec<i64> = Vec::new();
    let mut k: usize = 0;
    while k < row.len()
        invariant
            k <= row@.len(),
            keys@.len() == k,
            forall|q: int| 0 <= q < k ==> #[trigger] keys@[q] == row@[q].total_rank(),
        decreases row@.len() - k,
    {
        keys.push(row[k].total_key());
        k = k + 1;
    }
    assert(keys@.map_values(|x: i64| x as int) =~= total_row_key(row@));
    keys
}

/// `after` is `before` rearranged by `p`.
spec fn taken_by(before: Seq<usize>, p: Seq<usize>, after: Seq<usize>) -> bool {
    &&& after.len() == before.len()
    &&& covers(p, 0, before.len() as int)
    &&& forall|k: int| 0 <= k < after.len() ==> #[trigger] after[k] == before[p[k] as int]
}

/// The entries of `indices` in ascending order of their keys.
fn arranged(indices: &Vec<usize>, keys: &Vec<Vec<i64>>) -> (sorted: Vec<usize>)
    requires
        keys@.len() == indices@.len(),
    ensures
        rearranged(indices@, sorted@),
        exists|p: Seq<usize>| #[trigger] taken_by(indices@, p, sorted@) && forall|a: int, b: int|
            0 <= a < b < p.len() ==> !lex_lt(key_at(keys@, #[trigger] p[b] as int), key_at(keys@, #[trigger] p[a] as int)),
{
    let p = sorted_positions(keys);
    let mut sorted: Vec<usize> = Vec::new();
    let mut k: usize = 0;
    while k < p.len()
        invariant
            k <= p@.len(),
            covers(p@, 0, indices@.len() as int),
            sorted@.len() == k,
            forall|q: int| 0 <= q < k ==> #[trigger] sorted@[q] == indices@[p@[q] as int],
        decreases p@.len() - k,
    {
        sorted.push(indices[p[k]]);
        k = k + 1;
    }
    assert forall|a: int, b: int| 0 <= a < b < p@.len() implies
        !lex_lt(key_at(keys@, #[trigger] p@[b] as int), key_at(keys@, #[trigger] p@[a] as int)) by {
        assert(precedes(keys@, p@[a] as int, p@[b] as int));
        lemma_lex_total(key_at(keys@, p@[a] as int), key_at(keys@, p@[b] as int));
    }
    assert(taken_by(indices@, p@, sorted@));
    sorted
}

/// Rearranges `indices` so that the rows they point at never decrease
/// lexicographically. Numbers go by their total order, so that the negative zero comes
/// before the positive one.
pub fn lex_sort_indices(loss_values: &[Vec<Float>], indices: &mut Vec<usize>)
    requires
        forall|k: int| 0 <= k < old(indices)@.len() ==> #[trigger] old(indices)@[k] < loss_values@.len(),
    ensures
        rearranged(old(indices)@, final(indices)@),
        lex_sorted(loss_values@, final(indices)@),
{
    let ghost start = indices@;
    let mut keys: Vec<Vec<i64>> = Vec::new();
    let mut i: usize = 0;
    while i < indices.len()
        invariant
            i <= indices@.len(),
            indices@ == start,
            forall|k: int| 0 <= k < start.len() ==> #[trigger] start[k] < loss_values@.len(),
            keys@.len() == i,
            forall|q: int| 0 <= q < i ==> #[trigger] key_at(keys@, q) == total_row_key(loss_values@[start[q] as int]@),
        decreases start.len() - i,
    {
        let ghost before = keys@;
        keys.push(total_row_keys(&loss_values[indices[i]]));
        assert forall|q: int| 0 <= q < i + 1 implies #[trigger] key_at(keys@, q) == total_row_key(loss_values@[start[q] as int]@) by {
            if q < i {
                assert(key_at(before, q) == key_at(keys@, q));
            }
        }
        i = i + 1;
    }
    let sorted = arranged(indices, &keys);
    proof {
        let p = choose|p: Seq<usize>| #[trigger] taken_by(indices@, p, sorted@) && forall|a: int, b: int|
            0 <= a < b < p.len() ==> !lex_lt(key_at(keys@, #[trigger] p[b] as int), key_at(keys@, #[trigger] p[a] as int));
        assert forall|a: int, b: int| 0 <= a < b < sorted@.len() implies
            !lex_lt(total_row_key(loss_values@[#[trigger] sorted@[b] as int]@), total_row_key(loss_values@[#[trigger] sorted@[a] as int]@)) by {
            assert(!lex_lt(key_at(keys@, p[b] as int), key_at(keys@, p[a] as int)));
        }
    }
    *indices = sorted;
}

/// Rearranges `indices` so that the rows they point at never decrease lexicographically
/// as their numbers compare. A row comes before every row that it dominates.
fn sort_for_dominance(loss_values: &[Vec<Float>], indices: &mut Vec<usize>)
    requires
        forall|k: int| 0 <= k < old(indices)@.len() ==> #[trigger] old(indices)@[k] < loss_values@.len(),
    ensures
        rearranged(old(indices)@, final(indices)@),
        rank_sorted(loss_values@, final(indices)@),
{
    let ghost start = indices@;
    let mut keys: Vec<Vec<i64>> = Vec::new();
    let mut i: usize = 0;
    while i < indices.len()
        invariant
            i <= indices@.len(),
            indices@ == start,
            forall|k: int| 0 <= k < start.len() ==> #[trigger] start[k] < loss_values@.len(),
            keys@.len() == i,
            forall|q: int| 0 <= q < i ==> #[trigger] key_at(keys@, q) == row_key(loss_values@[start[q] as int]@),
        decreases start.len() - i,
    {
        let ghost before = keys@;
        keys.push(row_keys(&loss_values[indices[i]]));
        assert forall|q: int| 0 <= q < i + 1 implies #[trigger] key_at(keys@, q) == row_key(loss_values@[start[q] as int]@) by {
            if q < i {
                assert(key_at(before, q) == key_at(keys@, q));
            }
        }
        i = i + 1;
    }
    let sorted = arranged(indices, &keys);
    proof {
        let p = choose|p: Seq<usize>| #[trigger] taken_by(indices@, p, sorted@) && forall|a: int, b: int|
            0 <= a < b < p.len() ==> !lex_lt(key_at(keys@, #[trigger] p[b] as int), key_at(keys@, #[trigger] p[a] as int));
        assert forall|a: int, b: int| 0 <= a < b < sorted@.len() implies
            !lex_lt(row_key(loss_values@[#[trigger] sorted@[b] as int]@), row_key(loss_values@[#[trigger] sorted@[a] as int]@)) by {
            assert(!lex_lt(key_at(keys@, p[b] as int), key_at(keys@, p[a] as int)));
        }
    }
    *indices = sorted;
}

pub(crate) proof fn lemma_rearranged(before: Seq<usize>, after: Seq<usize>)
    requires
        rearranged(before, after),
    ensures
        before.no_duplicates() ==> after.no_duplicates(),
        forall|x: usize| before.contains(x) == #[trigger] after.contains(x),
{
    let p = choose|p: Seq<usize>| #[trigger] covers(p, 0, before.len() as int)
        && forall|k: int| 0 <= k < after.len() ==> #[trigger] after[k] == before[p[k] as int];
    if before.no_duplicates() {
        assert forall|a: int, b: int| 0 <= a < b < after.len() implies after[a] != after[b] by {
            assert(p[a] != p[b]);
            assert(after[a] == before[p[a] as int]);
            assert(after[b] == before[p[b] as int]);
        }
    }
    assert forall|x: usize| before.contains(x) == #[trigger] after.contains(x) by {
        if before.contains(x) {
            let k = choose|k: int| 0 <= k < before.len() && before[k] == x;
            lemma_covers_fits(p, before.len() as int);
            assert(p.contains(k as usize));
            let q = choose|q: int| 0 <= q < p.len() && p[q] == k as usize;
            assert(after[q] == x);
        }
        if after.contains(x) {
            let k = choose|k: int| 0 <= k < after.len() && after[k] == x;
            assert(before[p[k] as int] == x);
        }
    }
}

/// A cover of `0..n` by machine integers has an `n` that they can count.
proof fn lemma_covers_fits(p: Seq<usize>, n: int)
    requires
        covers(p, 0, n),
    ensures
        n <= usize::MAX + 1,
{
    if n > usize::MAX + 1 {
        let ints = p.map_values(|x: usize| x as int);
        assert(ints.no_duplicates());
        ints.unique_seq_to_set();
        let all = vstd::set_lib::set_int_range(0, usize::MAX + 1);
        vstd::set_lib::lemma_int_range(0, usize::MAX + 1);
        assert(ints.to_set().subset_of(all)) by {
            assert forall|x: int| ints.to_set().contains(x) implies all.contains(x) by {
                let k = choose|k: int| 0 <= k < ints.len() && ints[k] == x;
                assert(ints[k] == p[k] as int);
            }
        }
        vstd::set_lib::lemma_len_subset(ints.to_set(), all);
    }
}

/// How two rows of one width compare: whether `top` is no worse than `pt`, and whether
/// it is better somewhere as well.
fn compare_rows(top: &Vec<Float>, pt: &Vec<Float>) -> (r: (bool, bool))
    requires
        clean(top@),
        clean(pt@),
        top@.len() == pt@.len(),
    ensures
        r.0 == no_worse(top@, pt@),
        r.0 ==> r.1 == dominates(top@, pt@),
{
    let mut top_strict = false;
    let mut k: usize = 0;
    while k < top.len()
        invariant
            k <= top@.len(),
            clean(top@),
            clean(pt@),
            top@.len() == pt@.len(),
            forall|q: int| 0 <= q < k ==> (#[trigger] top@[q]).rank() <= pt@[q].rank(),
            top_strict == exists|q: int| 0 <= q < k && (#[trigger] pt@[q]).rank() > top@[q].rank(),
        decreases top@.len() - k,
    {
        assert(!top@[k as int].nan() && !pt@[k as int].nan());
        if pt[k].lt(top[k]) {
            assert(!(top@[k as int].rank() <= pt@[k as int].rank()));
            return (false, top_strict);
        }
        if top[k].lt(pt[k]) {
            top_strict = true;
        }
        k = k + 1;
    }
    (true, top_strict)
}

/// Row `a` takes row `b` off the front: by dominance, or already by being no worse.
spec fn drops(a: Seq<Float>, b: Seq<Float>, drop_duplicates: bool) -> bool {
    if drop_duplicates {
        no_worse(a, b)
    } else {
        dominates(a, b)
    }
}

proof fn lemma_drops_transitive(a: Seq<Float>, b: Seq<Float>, c: Seq<Float>, dup: bool)
    requires
        drops(a, b, dup),
        drops(b, c, dup),
    ensures
        drops(a, c, dup),
{
    lemma_dominates_transitive(a, b, c);
}

/// What a front member drops, a first front member drops as well.
proof fn lemma_front_drops(rows: Seq<Vec<Float>>, indices: Seq<usize>, front: Seq<bool>, dup: bool, j: int, i: int)
    requires
        front.len() == indices.len(),
        forall|p: int| 0 <= p < indices.len() ==> #[trigger] front[p] == !(exists|q: int|
            0 <= q < p && #[trigger] front[q] && drops(rows[indices[q] as int]@, rows[indices[p] as int]@, dup)),
        0 <= j < i < indices.len(),
        drops(rows[indices[j] as int]@, rows[indices[i] as int]@, dup),
    ensures
        !front[i],
    decreases j,
{
    if !front[j] {
        let q = choose|q: int| 0 <= q < j && #[trigger] front[q] && drops(rows[indices[q] as int]@, rows[indices[j] as int]@, dup);
        lemma_drops_transitive(rows[indices[q] as int]@, rows[indices[j] as int]@, rows[indices[i] as int]@, dup);
        lemma_front_drops(rows, indices, front, dup, q, i);
    } else {
        assert(front[j]);
        assert(front[i] == !(exists|q: int|
            0 <= q < i && #[trigger] front[q] && drops(rows[indices[q] as int]@, rows[indices[i] as int]@, dup)));
    }
}

/// Marks front membership over indices in lexicographic order of their rows. Exact
/// duplicates all stay on the front, or only the first of them where
/// `drop_duplicates` is set.
pub fn lex_pareto_mark(loss_values: &[Vec<Float>], indices: &Vec<usize>, drop_duplicates: bool) -> (on_front: Vec<bool>)
    requires
        same_width(loss_values@),
        forall|k: int| 0 <= k < indices@.len() ==> #[trigger] indices@[k] < loss_values@.len()
            && clean(loss_values@[indices@[k] as int]@),
        rank_sorted(loss_values@, indices@),
    ensures
        on_front@.len() == indices@.len(),
        forall|i: int| 0 <= i < indices@.len() ==> #[trigger] on_front@[i] == !(exists|j: int|
            0 <= j < indices@.len() && {
                ||| dominates(loss_values@[(#[trigger] indices@[j]) as int]@, loss_values@[indices@[i] as int]@)
                ||| drop_duplicates && j < i && no_worse(loss_values@[indices@[j] as int]@, loss_values@[indices@[i] as int]@)
            }),
{
    let n: usize = indices.len();
    let mut on_front: Vec<bool> = vec![false; n];
    let mut status: Vec<bool> = vec![true; n];
    let mut top_pos: usize = 0;
    let ghost rows = loss_values@;
    let ghost ix = indices@;
    while top_pos < n
        invariant
            n == indices@.len(),
            rows == loss_values@,
            ix == indices@,
            top_pos <= n,
            same_width(rows),
            forall|k: int| 0 <= k < n ==> #[trigger] ix[k] < rows.len() && clean(rows[ix[k] as int]@),
            on_front@.len() == n,
            status@.len() == n,
            forall|p: int| 0 <= p < n ==> #[trigger] status@[p] == !(exists|q: int|
                0 <= q < p && q < top_pos && #[trigger] on_front@[q] && drops(rows[ix[q] as int]@, rows[ix[p] as int]@, drop_duplicates)),
            forall|p: int| 0 <= p < top_pos ==> #[trigger] on_front@[p] == status@[p],
            forall|p: int| top_pos <= p < n ==> !#[trigger] on_front@[p],
        decreases n - top_pos,
    {
        if status[top_pos] {
            let ghost front0 = on_front@;
            on_front.set(top_pos, true);
            let top = &loss_values[indices[top_pos]];
            let ghost status0 = status@;
            let mut i: usize = top_pos + 1;
            while i < n
                invariant
                    n == indices@.len(),
                    rows == loss_values@,
                    ix == indices@,
                    top_pos < i <= n,
                    same_width(rows),
                    forall|k: int| 0 <= k < n ==> #[trigger] ix[k] < rows.len() && clean(rows[ix[k] as int]@),
                    *top == rows[ix[top_pos as int] as int],
                    status@.len() == n,
                    status0.len() == n,
                    forall|p: int| 0 <= p < n ==> #[trigger] status@[p] == (status0[p] && !(top_pos < p < i
                        && drops(rows[ix[top_pos as int] as int]@, rows[ix[p] as int]@, drop_duplicates))),
                decreases n - i,
            {
                if status[i] {
                    let pt = &loss_values[indices[i]];
                    assert(rows[ix[i as int] as int]@.len() == rows[0]@.len());
                    assert(rows[ix[top_pos as int] as int]@.len() == rows[0]@.len());
                    let c = compare_rows(top, pt);
                    let dropped = if drop_duplicates {
                        c.0
                    } else {
                        c.0 && c.1
                    };
                    if dropped {
                        status.set(i, false);
                    }
                }
                i = i + 1;
            }
            proof {
                let t = top_pos as int;
                assert forall|p: int| 0 <= p < n implies #[trigger] status@[p] == !(exists|q: int|
                    0 <= q < p && q < top_pos + 1 && #[trigger] on_front@[q] && drops(rows[ix[q] as int]@, rows[ix[p] as int]@, drop_duplicates)) by {
                    if status0[p] {
                        assert forall|q: int| 0 <= q < p && q < t && #[trigger] on_front@[q] implies
                            !drops(rows[ix[q] as int]@, rows[ix[p] as int]@, drop_duplicates) by {
                            assert(front0[q]);
                        }
                        if !status@[p] {
                            assert(on_front@[t]);
                        }
                    } else {
                        let q = choose|q: int| 0 <= q < p && q < t && #[trigger] front0[q] && drops(rows[ix[q] as int]@, rows[ix[p] as int]@, drop_duplicates);
                        assert(on_front@[q]);
                    }
                }
                assert forall|p: int| 0 <= p < top_pos + 1 implies #[trigger] on_front@[p] == status@[p] by {
                    if p < t {
                        assert(front0[p] == status0[p]);
                        assert(status@[p] == status0[p]);
                    }
                }
            }
        }
        top_pos = top_pos + 1;
    }
    proof {
        let front = on_front@;
        assert forall|p: int| 0 <= p < n implies #[trigger] front[p] == !(exists|q: int|
            0 <= q < p && #[trigger] front[q] && drops(rows[ix[q] as int]@, rows[ix[p] as int]@, drop_duplicates)) by {
            assert(front[p] == status@[p]);
        }
        assert forall|i: int| 0 <= i < n implies #[trigger] on_front@[i] == !(exists|j: int|
            0 <= j < n && {
                ||| dominates(rows[(#[trigger] ix[j]) as int]@, rows[ix[i] as int]@)
                ||| drop_duplicates && j < i && no_worse(rows[ix[j] as int]@, rows[ix[i] as int]@)
            }) by {
            let row_i = rows[ix[i] as int]@;
            if exists|j: int| 0 <= j < n && {
                ||| dominates(rows[(#[trigger] ix[j]) as int]@, row_i)
                ||| drop_duplicates && j < i && no_worse(rows[ix[j] as int]@, row_i)
            } {
                let j = choose|j: int| 0 <= j < n && {
                    ||| dominates(rows[(#[trigger] ix[j]) as int]@, row_i)
                    ||| drop_duplicates && j < i && no_worse(rows[ix[j] as int]@, row_i)
                };
                if dominates(rows[ix[j] as int]@, row_i) {
                    lemma_dominates_lex(rows[ix[j] as int]@, row_i);
                    lemma_lex_total(row_key(rows[ix[j] as int]@), row_key(row_i));
                    assert(j < i);
                }
                lemma_front_drops(rows, ix, front, drop_duplicates, j, i);
            } else if !front[i] {
                let q = choose|q: int| 0 <= q < i && #[trigger] front[q] && drops(rows[ix[q] as int]@, rows[ix[i] as int]@, drop_duplicates);
                assert(0 <= ix[q]);
            }
        }
    }
    on_front
}

/// Every row is matched or beaten by a front row at or before it.
proof fn lemma_front_covers(rows: Seq<Vec<Float>>, indices: Seq<usize>, front: Seq<bool>, i: int) -> (q: int)
    requires
        front.len() == indices.len(),
        rank_sorted(rows, indices),
        forall|i: int| 0 <= i < indices.len() ==> #[trigger] front[i] == !(exists|j: int|
            0 <= j < indices.len() && {
                ||| dominates(rows[(#[trigger] indices[j]) as int]@, rows[indices[i] as int]@)
                ||| j < i && no_worse(rows[indices[j] as int]@, rows[indices[i] as int]@)
            }),
        0 <= i < indices.len(),
    ensures
        0 <= q <= i,
        front[q],
        no_worse(rows[indices[q] as int]@, rows[indices[i] as int]@),
    decreases i,
{
    let row_i = rows[indices[i] as int]@;
    if front[i] {
        i
    } else {
        let j = choose|j: int| 0 <= j < indices.len() && {
            ||| dominates(rows[(#[trigger] indices[j]) as int]@, row_i)
            ||| j < i && no_worse(rows[indices[j] as int]@, row_i)
        };
        let row_j = rows[indices[j] as int]@;
        if dominates(row_j, row_i) {
            lemma_dominates_lex(row_j, row_i);
            lemma_lex_total(row_key(row_j), row_key(row_i));
        }
        assert(j < i);
        let q = lemma_front_covers(rows, indices, front, j);
        lemma_dominates_transitive(rows[indices[q] as int]@, row_j, row_i);
        q
    }
}

/// Reduces `indices` to a Pareto front with one index for each distinct front row, in
/// lexicographic order of the rows. Rows with a NaN are never on the front.
pub fn filter_pareto_front(loss_values: &[Vec<Float>], indices: &mut Vec<usize>)
    requires
        same_width(loss_values@),
        forall|k: int| 0 <= k < old(indices)@.len() ==> #[trigger] old(indices)@[k] < loss_values@.len(),
    ensures
        lex_sorted(loss_values@, final(indices)@),
        forall|x: usize| #[trigger] final(indices)@.contains(x) ==> old(indices)@.contains(x) && clean(loss_values@[x as int]@),
        forall|x: usize, y: usize| final(indices)@.contains(x) && old(indices)@.contains(y) && clean(loss_values@[y as int]@)
            ==> !#[trigger] dominates(loss_values@[y as int]@, loss_values@[x as int]@),
        forall|y: usize| #[trigger] old(indices)@.contains(y) && clean(loss_values@[y as int]@) ==> exists|x: usize|
            final(indices)@.contains(x) && #[trigger] no_worse(loss_values@[x as int]@, loss_values@[y as int]@),
        forall|a: int, b: int| 0 <= a < final(indices)@.len() && 0 <= b < final(indices)@.len() && a != b ==>
            !#[trigger] no_worse(loss_values@[final(indices)@[a] as int]@, loss_values@[final(indices)@[b] as int]@),
{
    let ghost rows = loss_values@;
    let ghost start = indices@;
    let mut kept: Vec<usize> = Vec::new();
    let mut i: usize = 0;
    while i < indices.len()
        invariant
            i <= indices@.len(),
            indices@ == start,
            rows == loss_values@,
            forall|k: int| 0 <= k < start.len() ==> #[trigger] start[k] < rows.len(),
            forall|k: int| 0 <= k < kept@.len() ==> start.contains(#[trigger] kept@[k]) && kept@[k] < rows.len() && clean(rows[kept@[k] as int]@),
            forall|k: int| 0 <= k < i && clean(rows[(#[trigger] start[k]) as int]@) ==> kept@.contains(start[k]),
        decreases indices@.len() - i,
    {
        let ghost before = kept@;
        if !row_has_nan(&loss_values[indices[i]]) {
            kept.push(indices[i]);
            assert(kept@[before.len() as int] == start[i as int]);
            assert forall|x: usize| #[trigger] before.contains(x) implies kept@.contains(x) by {
                let k = choose|k: int| 0 <= k < before.len() && before[k] == x;
                assert(kept@[k] == x);
            }
        }
        i = i + 1;
    }
    let ghost unsorted = kept@;
    sort_for_dominance(loss_values, &mut kept);
    proof {
        lemma_rearranged(unsorted, kept@);
        assert forall|k: int| 0 <= k < kept@.len() implies #[trigger] kept@[k] < rows.len() && clean(rows[kept@[k] as int]@)
            && start.contains(kept@[k]) by {
            assert(kept@.contains(kept@[k]));
            let q = choose|q: int| 0 <= q < unsorted.len() && unsorted[q] == kept@[k];
            assert(start.contains(unsorted[q]));
        }
    }
    let on_front = lex_pareto_mark(loss_values, &kept, true);
    let ghost front = on_front@;
    let mut out: Vec<usize> = Vec::new();
    let ghost mut from: Seq<int> = Seq::empty();
    let mut i: usize = 0;
    while i < kept.len()
        invariant
            i <= kept@.len(),
            front == on_front@,
            front.len() == kept@.len(),
            out@.len() == from.len(),
            forall|k: int| 0 <= k < from.len() ==> 0 <= #[trigger] from[k] < i && front[from[k]] && out@[k] == kept@[from[k]],
            forall|a: int, b: int| 0 <= a < b < from.len() ==> #[trigger] from[a] < #[trigger] from[b],
            forall|q: int| 0 <= q < i && #[trigger] front[q] ==> out@.contains(kept@[q]),
        decreases kept@.len() - i,
    {
        let ghost before = out@;
        if on_front[i] {
            out.push(kept[i]);
            proof {
                from = from.push(i as int);
                assert(out@[before.len() as int] == kept@[i as int]);
                assert forall|x: usize| #[trigger] before.contains(x) implies out@.contains(x) by {
                    let k = choose|k: int| 0 <= k < before.len() && before[k] == x;
                    assert(out@[k] == x);
                }
            }
        }
        i = i + 1;
    }
    proof {
        assert forall|x: usize| #[trigger] out@.contains(x) implies start.contains(x) && clean(rows[x as int]@) by {
            let k = choose|k: int| 0 <= k < out@.len() && out@[k] == x;
            assert(kept@[from[k]] == x);
        }
        assert forall|x: usize, y: usize| out@.contains(x) && start.contains(y) && clean(rows[y as int]@)
            implies !#[trigger] dominates(rows[y as int]@, rows[x as int]@) by {
            let k = choose|k: int| 0 <= k < out@.len() && out@[k] == x;
            let s = choose|s: int| 0 <= s < start.len() && start[s] == y;
            assert(unsorted.contains(start[s]));
            assert(kept@.contains(y));
            let j = choose|j: int| 0 <= j < kept@.len() && kept@[j] == y;
            assert(front[from[k]]);
        }
        assert forall|y: usize| #[trigger] start.contains(y) && clean(rows[y as int]@) implies exists|x: usize|
            out@.contains(x) && #[trigger] no_worse(rows[x as int]@, rows[y as int]@) by {
            let s = choose|s: int| 0 <= s < start.len() && start[s] == y;
            assert(unsorted.contains(start[s]));
            assert(kept@.contains(y));
            let j = choose|j: int| 0 <= j < kept@.len() && kept@[j] == y;
            let q = lemma_front_covers(rows, kept@, front, j);
            assert(out@.contains(kept@[q]));
        }
        assert forall|a: int, b: int| 0 <= a < b < out@.len() implies
            !#[trigger] no_worse(rows[out@[a] as int]@, rows[out@[b] as int]@) by {
            assert(from[a] < from[b]);
            assert(front[from[b]]);
            assert(0 <= kept@[from[a]]);
        }
        assert forall|a: int, b: int| 0 <= a < out@.len() && 0 <= b < out@.len() && a != b implies
            !#[trigger] no_worse(rows[out@[a] as int]@, rows[out@[b] as int]@) by {
            assert(out@.contains(out@[a]) && out@.contains(out@[b]));
            if a > b {
                assert(!no_worse(rows[out@[b] as int]@, rows[out@[a] as int]@));
                assert(!dominates(rows[out@[a] as int]@, rows[out@[b] as int]@));
            }
        }
        assert forall|k: int| 0 <= k < out@.len() implies #[trigger] out@[k] < rows.len() by {
            assert(out@.contains(out@[k]));
        }
    }
    let ghost found = out@;
    lex_sort_indices(loss_values, &mut out);
    proof {
        lemma_rearranged(found, out@);
        let p = choose|p: Seq<usize>| #[trigger] covers(p, 0, found.len() as int)
            && forall|k: int| 0 <= k < out@.len() ==> #[trigger] out@[k] == found[p[k] as int];
        assert forall|a: int, b: int| 0 <= a < out@.len() && 0 <= b < out@.len() && a != b implies
            !#[trigger] no_worse(rows[out@[a] as int]@, rows[out@[b] as int]@) by {
            assert(p[a] != p[b]);
            assert(out@[a] == found[p[a] as int] && out@[b] == found[p[b] as int]);
        }
    }
    *indices = out;
}

proof fn lemma_two_objectives(a: Seq<Float>, b: Seq<Float>)
    requires
        a.len() == 2,
        b.len() == 2,
    ensures
        no_worse(a, b) == (a[0].rank() <= b[0].rank() && a[1].rank() <= b[1].rank()),
        lex_lt(row_key(a), row_key(b)) == (a[0].rank() < b[0].rank() || (a[0].rank() == b[0].rank() && a[1].rank() < b[1].rank())),
{
    let ka = row_key(a);
    let kb = row_key(b);
    assert(ka[0] == a[0].rank() && ka[1] == a[1].rank() && kb[0] == b[0].rank() && kb[1] == b[1].rank());
    if a[0].rank() < b[0].rank() {
        assert(differs_first_at(ka, kb, 0));
    } else if a[0].rank() == b[0].rank() && a[1].rank() < b[1].rank() {
        assert(differs_first_at(ka, kb, 1));
    } else if lex_lt(ka, kb) {
        let k = choose|k: int| #[trigger] differs_first_at(ka, kb, k) && k < kb.len() && (k == ka.len() || ka[k] < kb[k]);
        assert(k == 0 || k == 1);
    }
}

/// The rows of rank at least `r`, each once, in lexicographic order.
spec fn sorted_clean_at(rows: Seq<Vec<Float>>, order: Seq<usize>, r: nat) -> bool {
    &&& lists_left_over(rows, order, r)
    &&& rank_sorted(rows, order)
}

/// The clean rows, each once, in lexicographic order.
spec fn sorted_clean(rows: Seq<Vec<Float>>, order: Seq<usize>) -> bool {
    sorted_clean_at(rows, order, 0)
}

/// `a` comes before `b` in the sweep's sense of dominance.
spec fn beats(xs: Seq<int>, ys: Seq<int>, a: int, b: int) -> bool {
    xs[a] <= xs[b] && ys[a] <= ys[b] && !(xs[a] == xs[b] && ys[a] == ys[b])
}

/// What the bi-objective sweep keeps: points `(xs[p], ys[p])` in lexicographic order,
/// the ranks `rs` of the first of them, and the least `y` of each rank.
spec fn sweep(xs: Seq<int>, ys: Seq<int>, rs: Seq<int>, mins: Seq<int>) -> bool {
    &&& xs.len() == ys.len()
    &&& rs.len() <= xs.len()
    &&& mins.len() <= rs.len()
    &&& forall|p: int, q: int| 0 <= p < q < xs.len() ==>
        #[trigger] xs[p] <= #[trigger] xs[q] && (xs[p] == xs[q] ==> ys[p] <= ys[q])
    &&& forall|r: int, s: int| 0 <= r < s < mins.len() ==> #[trigger] mins[r] <= #[trigger] mins[s]
    &&& forall|p: int| 0 <= p < rs.len() ==> 0 <= #[trigger] rs[p] < mins.len() && mins[rs[p]] <= ys[p]
    &&& forall|r: int| 0 <= r < mins.len() ==> #[trigger] attained(ys, rs, r, mins[r])
    &&& forall|p: int, q: int| 0 <= p < rs.len() && 0 <= q < rs.len() && #[trigger] beats(xs, ys, p, q) ==> rs[p] < rs[q]
    &&& forall|q: int| 0 <= q < rs.len() && rs[q] > 0 ==> #[trigger] steps_down(xs, ys, rs, q)
}

/// Some point of rank `r` has `y` as its second coordinate.
spec fn attained(ys: Seq<int>, rs: Seq<int>, r: int, y: int) -> bool {
    exists|p: int| 0 <= p < rs.len() && #[trigger] rs[p] == r && ys[p] == y
}

/// Some point one rank below point `q` beats it.
spec fn steps_down(xs: Seq<int>, ys: Seq<int>, rs: Seq<int>, q: int) -> bool {
    exists|p: int| 0 <= p < rs.len() && beats(xs, ys, p, q) && #[trigger] rs[p] == rs[q] - 1
}

proof fn lemma_sweep_repeat(xs: Seq<int>, ys: Seq<int>, rs: Seq<int>, mins: Seq<int>)
    requires
        sweep(xs, ys, rs, mins),
        0 < rs.len() < xs.len(),
        xs[rs.len() as int] == xs[rs.len() - 1],
        ys[rs.len() as int] == ys[rs.len() - 1],
    ensures
        sweep(xs, ys, rs.push(rs[rs.len() - 1]), mins),
{
    let t = rs.len() as int;
    let next = rs.push(rs[t - 1]);
    assert forall|r: int| 0 <= r < mins.len() implies #[trigger] attained(ys, next, r, mins[r]) by {
        assert(attained(ys, rs, r, mins[r]));
        let p = choose|p: int| 0 <= p < rs.len() && #[trigger] rs[p] == r && ys[p] == mins[r];
        assert(next[p] == r);
    }
    assert forall|p: int, q: int| 0 <= p < next.len() && 0 <= q < next.len() && #[trigger] beats(xs, ys, p, q) implies next[p] < next[q] by {
        let p0 = if p == t { t - 1 } else { p };
        let q0 = if q == t { t - 1 } else { q };
        assert(beats(xs, ys, p0, q0));
        assert(rs[p0] < rs[q0]);
    }
    assert forall|q: int| 0 <= q < next.len() && next[q] > 0 implies #[trigger] steps_down(xs, ys, next, q) by {
        let q0 = if q == t { t - 1 } else { q };
        assert(steps_down(xs, ys, rs, q0));
        let p = choose|p: int| 0 <= p < rs.len() && beats(xs, ys, p, q0) && #[trigger] rs[p] == rs[q0] - 1;
        assert(next[p] == rs[p]);
    }
}

proof fn lemma_sweep_new(xs: Seq<int>, ys: Seq<int>, rs: Seq<int>, mins: Seq<int>, lo: int, mins1: Seq<int>)
    requires
        sweep(xs, ys, rs, mins),
        rs.len() < xs.len(),
        rs.len() > 0 ==> !(xs[rs.len() as int] == xs[rs.len() - 1] && ys[rs.len() as int] == ys[rs.len() - 1]),
        0 <= lo <= mins.len(),
        forall|r: int| 0 <= r < lo ==> #[trigger] mins[r] <= ys[rs.len() as int],
        forall|r: int| lo <= r < mins.len() ==> #[trigger] mins[r] > ys[rs.len() as int],
        mins1 == if lo == mins.len() { mins.push(ys[rs.len() as int]) } else { mins.update(lo, ys[rs.len() as int]) },
    ensures
        sweep(xs, ys, rs.push(lo), mins1),
{
    let t = rs.len() as int;
    let next = rs.push(lo);
    assert(mins1[lo] == ys[t]);
    assert forall|r: int| 0 <= r < mins.len() && r != lo implies #[trigger] mins1[r] == mins[r] by {}
    assert forall|p: int| 0 <= p < next.len() implies 0 <= #[trigger] next[p] < mins1.len() && mins1[next[p]] <= ys[p] by {
        if p < t {
            assert(mins[rs[p]] <= ys[p]);
        }
    }
    assert forall|r: int| 0 <= r < mins1.len() implies #[trigger] attained(ys, next, r, mins1[r]) by {
        if r == lo {
            assert(next[t] == r);
        } else {
            assert(mins1[r] == mins[r]);
            assert(attained(ys, rs, r, mins[r]));
            let p = choose|p: int| 0 <= p < rs.len() && #[trigger] rs[p] == r && ys[p] == mins[r];
            assert(next[p] == r);
        }
    }
    assert forall|p: int, q: int| 0 <= p < next.len() && 0 <= q < next.len() && #[trigger] beats(xs, ys, p, q) implies next[p] < next[q] by {
        if p == t && q < t {
            assert(xs[q] <= xs[p]);
        } else if q == t && p < t {
            assert(mins[rs[p]] <= ys[p]);
        } else if p < t && q < t {
            assert(rs[p] < rs[q]);
        }
    }
    assert forall|q: int| 0 <= q < next.len() && next[q] > 0 implies #[trigger] steps_down(xs, ys, next, q) by {
        if q == t {
            assert(attained(ys, rs, lo - 1, mins[lo - 1]));
            let p = choose|p: int| 0 <= p < rs.len() && #[trigger] rs[p] == lo - 1 && ys[p] == mins[lo - 1];
            assert(xs[p] <= xs[t]);
            if xs[p] == xs[t] && ys[p] == ys[t] {
                if p < t - 1 {
                    assert(xs[p] <= xs[t - 1]);
                }
                assert(xs[t - 1] <= xs[t]);
            }
            assert(next[p] == lo - 1);
        } else {
            assert(steps_down(xs, ys, rs, q));
            let p = choose|p: int| 0 <= p < rs.len() && beats(xs, ys, p, q) && #[trigger] rs[p] == rs[q] - 1;
            assert(next[p] == rs[p]);
        }
    }
}

/// Ranks bi-objective rows in one sweep: the rank of a row is the first whose least
/// second objective so far exceeds the row's.
fn rank_two_objectives(loss_values: &[Vec<Float>], order: &Vec<usize>, ranks: &mut Vec<usize>)
    requires
        same_width(loss_values@),
        loss_values@.len() > 0,
        loss_values@[0]@.len() == 2,
        sorted_clean(loss_values@, order@),
        old(ranks)@.len() == loss_values@.len(),
    ensures
        final(ranks)@.len() == loss_values@.len(),
        forall|i: int| 0 <= i < loss_values@.len() && clean(loss_values@[i]@) ==>
            has_rank(loss_values@, i, #[trigger] final(ranks)@[i] as nat) && final(ranks)@[i] < order@.len(),
{
    let ghost rows = loss_values@;
    let ghost ord = order@;
    let ghost xs = Seq::new(ord.len(), |p: int| rows[ord[p] as int]@[0].rank());
    let ghost ys = Seq::new(ord.len(), |p: int| rows[ord[p] as int]@[1].rank());
    let ghost mut rs: Seq<int> = Seq::empty();
    let ghost mut mins: Seq<int> = Seq::empty();
    proof {
        assert forall|p: int| 0 <= p < ord.len() implies #[trigger] ord[p] < rows.len() && clean(rows[ord[p] as int]@)
            && rows[ord[p] as int]@.len() == 2 by {
            assert(reaches(rows, ord[p] as int, 0));
            assert(rows[ord[p] as int]@.len() == rows[0]@.len());
        }
        assert forall|p: int, q: int| 0 <= p < q < ord.len() implies
            #[trigger] xs[p] <= #[trigger] xs[q] && (xs[p] == xs[q] ==> ys[p] <= ys[q]) by {
            lemma_two_objectives(rows[ord[q] as int]@, rows[ord[p] as int]@);
            assert(!lex_lt(row_key(rows[ord[q] as int]@), row_key(rows[ord[p] as int]@)));
        }
    }
    let mut min_per_rank: Vec<Float> = Vec::new();
    let mut t: usize = 0;
    while t < order.len()
        invariant
            rows == loss_values@,
            ord == order@,
            ord.no_duplicates(),
            xs == Seq::new(ord.len(), |p: int| rows[ord[p] as int]@[0].rank()),
            ys == Seq::new(ord.len(), |p: int| rows[ord[p] as int]@[1].rank()),
            forall|p: int| 0 <= p < ord.len() ==> #[trigger] ord[p] < rows.len() && clean(rows[ord[p] as int]@)
                && rows[ord[p] as int]@.len() == 2,
            t <= ord.len(),
            rs.len() == t,
            ranks@.len() == rows.len(),
            sweep(xs, ys, rs, mins),
            min_per_rank@.len() == mins.len(),
            forall|r: int| 0 <= r < mins.len() ==> !(#[trigger] min_per_rank@[r]).nan() && min_per_rank@[r].rank() == mins[r],
            forall|p: int| 0 <= p < t ==> ranks@[#[trigger] ord[p] as int] == rs[p],
        decreases ord.len() - t,
    {
        let i: usize = order[t];
        let ghost ti = t as int;
        let v0 = loss_values[i][0];
        let v1 = loss_values[i][1];
        assert(!rows[i as int]@[0].nan() && !rows[i as int]@[1].nan());
        let repeats = if t > 0 {
            let prev = &loss_values[order[t - 1]];
            assert(!prev@[0].nan() && !prev@[1].nan());
            assert(prev@[0].rank() == xs[ti - 1] && prev@[1].rank() == ys[ti - 1]);
            prev[0].num_eq(v0) && prev[1].num_eq(v1)
        } else {
            false
        };
        if repeats {
            let r: usize = ranks[order[t - 1]];
            ranks.set(i, r);
            proof {
                lemma_sweep_repeat(xs, ys, rs, mins);
                rs = rs.push(rs[ti - 1]);
            }
        } else {
            let mut lo: usize = 0;
            let mut hi: usize = min_per_rank.len();
            while lo < hi
                invariant
                    lo <= hi <= min_per_rank@.len(),
                    !v1.nan(),
                    min_per_rank@.len() == mins.len(),
                    forall|r: int| 0 <= r < mins.len() ==> !(#[trigger] min_per_rank@[r]).nan() && min_per_rank@[r].rank() == mins[r],
                    forall|r: int, s: int| 0 <= r < s < mins.len() ==> #[trigger] mins[r] <= #[trigger] mins[s],
                    forall|r: int| 0 <= r < lo ==> #[trigger] mins[r] <= v1.rank(),
                    forall|r: int| hi <= r < mins.len() ==> #[trigger] mins[r] > v1.rank(),
                decreases hi - lo,
            {
                let mid: usize = lo + (hi - lo) / 2;
                assert(!min_per_rank@[mid as int].nan() && min_per_rank@[mid as int].rank() == mins[mid as int]);
                if v1.lt(min_per_rank[mid]) {
                    hi = mid;
                } else {
                    lo = mid + 1;
                }
            }
            let ghost mins1 = if lo == mins.len() { mins.push(ys[ti]) } else { mins.update(lo as int, ys[ti]) };
            proof {
                lemma_sweep_new(xs, ys, rs, mins, lo as int, mins1);
                rs = rs.push(lo as int);
                mins = mins1;
            }
            if lo == min_per_rank.len() {
                min_per_rank.push(v1);
            } else {
                min_per_rank.set(lo, v1);
            }
            ranks.set(i, lo);
        }
        t = t + 1;
    }
    proof {
        let rk = ranks@;
        let f = |i: int| rk[i] as int;
        assert forall|a: int| 0 <= a < rows.len() && clean(rows[a]@) implies exists|p: int| 0 <= p < ord.len() && #[trigger] ord[p] == a by {
            assert(reaches(rows, a, 0));
            assert(ord.contains(a as usize));
        }
        assert forall|p: int, q: int| 0 <= p < ord.len() && 0 <= q < ord.len() implies
            #[trigger] dominates(rows[ord[p] as int]@, rows[ord[q] as int]@) == beats(xs, ys, p, q) by {
            lemma_two_objectives(rows[ord[p] as int]@, rows[ord[q] as int]@);
            lemma_two_objectives(rows[ord[q] as int]@, rows[ord[p] as int]@);
        }
        assert forall|a: int, b: int| 0 <= a < rows.len() && 0 <= b < rows.len() && clean(rows[a]@) && clean(rows[b]@)
            && dominates(rows[a]@, rows[b]@) implies #[trigger] f(a) < #[trigger] f(b) by {
            let p = choose|p: int| 0 <= p < ord.len() && #[trigger] ord[p] == a;
            let q = choose|q: int| 0 <= q < ord.len() && #[trigger] ord[q] == b;
            assert(dominates(rows[ord[p] as int]@, rows[ord[q] as int]@));
            assert(beats(xs, ys, p, q));
            assert(rs[p] < rs[q]);
        }
        assert forall|b: int| 0 <= b < rows.len() && clean(rows[b]@) && #[trigger] f(b) > 0 implies
            exists|a: int| 0 <= a < rows.len() && clean(rows[a]@) && dominates(rows[a]@, rows[b]@) && #[trigger] f(a) == f(b) - 1 by {
            let q = choose|q: int| 0 <= q < ord.len() && #[trigger] ord[q] == b;
            assert(steps_down(xs, ys, rs, q));
            let p = choose|p: int| 0 <= p < rs.len() && beats(xs, ys, p, q) && #[trigger] rs[p] == rs[q] - 1;
            assert(dominates(rows[ord[p] as int]@, rows[ord[q] as int]@));
            assert(f(ord[p] as int) == f(b) - 1);
        }
        assert forall|i: int| 0 <= i < rows.len() && clean(rows[i]@) implies
            has_rank(rows, i, #[trigger] rk[i] as nat) && rk[i] < ord.len() by {
            let q = choose|q: int| 0 <= q < ord.len() && #[trigger] ord[q] == i;
            assert(rs[q] < mins.len());
            lemma_rank_by_steps(rows, f, i, rk[i] as nat);
            lemma_rank_by_steps(rows, f, i, (rk[i] + 1) as nat);
        }
    }
}

/// Peels fronts off the rows in `order` until `n_below` of them are ranked or none is
/// left; what is left over carries the number of fronts peeled.
fn peel_fronts(loss_values: &[Vec<Float>], order: Vec<usize>, n_below: usize, ranks: &mut Vec<usize>)
    requires
        same_width(loss_values@),
        sorted_clean(loss_values@, order@),
        old(ranks)@.len() == loss_values@.len(),
    ensures
        final(ranks)@.len() == loss_values@.len(),
        exists|c: nat| #[trigger] is_cutoff(loss_values@, n_below as nat, c) && c <= order@.len()
            && ranked_up_to(loss_values@, final(ranks)@, c),
{
    let ghost rows = loss_values@;
    let n: usize = order.len();
    let mut remaining: Vec<usize> = order;
    let mut current_rank: usize = 0;
    let mut n_ranked: usize = 0;
    proof {
        lemma_left_over_count(rows, remaining@, 0);
    }
    while remaining.len() > 0 && n_ranked < n_below
        invariant
            rows == loss_values@,
            same_width(rows),
            sorted_clean_at(rows, remaining@, current_rank as nat),
            ranks@.len() == rows.len(),
            n_ranked + remaining@.len() == n,
            current_rank <= n_ranked,
            left_over(rows, 0).len() == n,
            left_over(rows, current_rank as nat).len() == remaining@.len(),
            forall|d: nat| d < current_rank ==> !#[trigger] settles(rows, n_below as nat, d),
            forall|i: int| #![trigger ranks@[i]] reaches(rows, i, 0) && !reaches(rows, i, current_rank as nat) ==>
                ranks@[i] < current_rank && has_rank(rows, i, ranks@[i] as nat),
        decreases remaining@.len(),
    {
        proof {
            assert(!settles(rows, n_below as nat, current_rank as nat));
            assert forall|p: int| 0 <= p < remaining@.len() implies #[trigger] remaining@[p] < rows.len() && clean(rows[remaining@[p] as int]@) by {
                assert(reaches(rows, remaining@[p] as int, current_rank as nat));
                lemma_reaches_down(rows, remaining@[p] as int, current_rank as nat, 0);
            }
        }
        let on_front = lex_pareto_mark(loss_values, &remaining, false);
        let ghost rem = remaining@;
        let ghost cr = current_rank as nat;
        proof {
            assert forall|p: int| 0 <= p < rem.len() implies #[trigger] on_front@[p] == !reaches(rows, rem[p] as int, cr + 1) by {
                assert(reaches(rows, rem[p] as int, cr));
                if !on_front@[p] {
                    let j = choose|j: int| 0 <= j < rem.len() && dominates(rows[(#[trigger] rem[j]) as int]@, rows[rem[p] as int]@);
                    assert(reaches(rows, rem[j] as int, cr));
                } else if reaches(rows, rem[p] as int, cr + 1) {
                    let j = choose|j: int| reaches(rows, j, cr) && #[trigger] dominates(rows[j]@, rows[rem[p] as int]@);
                    lemma_reaches_down(rows, j, cr, 0);
                    assert(rem.contains(j as usize));
                    let q = choose|q: int| 0 <= q < rem.len() && rem[q] == j as usize;
                    assert(dominates(rows[rem[q] as int]@, rows[rem[p] as int]@));
                }
            }
            assert(on_front@[0]) by {
                assert forall|j: int| 0 <= j < rem.len() implies !dominates(rows[(#[trigger] rem[j]) as int]@, rows[rem[0] as int]@) by {
                    if dominates(rows[rem[j] as int]@, rows[rem[0] as int]@) {
                        lemma_dominates_lex(rows[rem[j] as int]@, rows[rem[0] as int]@);
                        lemma_lex_total(row_key(rows[rem[j] as int]@), row_key(rows[rem[0] as int]@));
                        assert(!(0 < j));
                        assert(j == 0);
                    }
                }
            }
        }
        let mut next: Vec<usize> = Vec::new();
        let ghost mut from: Seq<int> = Seq::empty();
        let ghost ranks0 = ranks@;
        let mut i: usize = 0;
        while i < remaining.len()
            invariant
                i <= remaining@.len(),
                rem == remaining@,
                rem.no_duplicates(),
                on_front@.len() == rem.len(),
                rem.len() > 0,
                on_front@[0],
                forall|p: int| 0 <= p < rem.len() ==> #[trigger] rem[p] < rows.len(),
                ranks@.len() == rows.len(),
                ranks0.len() == rows.len(),
                next@.len() == from.len(),
                n_ranked + (remaining@.len() - i) + next@.len() == n,
                i > 0 ==> next@.len() < i,
                next@.len() <= i,
                current_rank <= n_ranked - (if i > 0 { 1int } else { 0int }),
                forall|k: int| 0 <= k < from.len() ==> 0 <= #[trigger] from[k] < i && !on_front@[from[k]] && next@[k] == rem[from[k]],
                forall|a: int, b: int| 0 <= a < b < from.len() ==> #[trigger] from[a] < #[trigger] from[b],
                forall|p: int| 0 <= p < i && !#[trigger] on_front@[p] ==> next@.contains(rem[p]),
                forall|p: int| 0 <= p < i && #[trigger] on_front@[p] ==> ranks@[rem[p] as int] == current_rank,
                forall|x: int| #![trigger ranks@[x]] 0 <= x < rows.len() && !rem.contains(x as usize) ==> ranks@[x] == ranks0[x],
            decreases rem.len() - i,
        {
            let ghost before = next@;
            let orig_idx: usize = remaining[i];
            if on_front[i] {
                ranks.set(orig_idx, current_rank);
                n_ranked = n_ranked + 1;
                assert(rem.contains(orig_idx));
            } else {
                next.push(orig_idx);
                proof {
                    from = from.push(i as int);
                    assert(next@[before.len() as int] == rem[i as int]);
                    assert forall|x: usize| #[trigger] before.contains(x) implies next@.contains(x) by {
                        let k = choose|k: int| 0 <= k < before.len() && before[k] == x;
                        assert(next@[k] == x);
                    }
                }
            }
            i = i + 1;
        }
        proof {
            assert forall|a: int, b: int| 0 <= a < b < next@.len() implies next@[a] != next@[b] by {
                assert(from[a] < from[b]);
            }
            assert forall|p: int| 0 <= p < next@.len() implies reaches(rows, #[trigger] next@[p] as int, cr + 1) by {
                assert(!on_front@[from[p]]);
            }
            assert forall|x: int| #[trigger] reaches(rows, x, cr + 1) implies next@.contains(x as usize) by {
                lemma_reaches_down(rows, x, cr + 1, cr);
                assert(rem.contains(x as usize));
                let p = choose|p: int| 0 <= p < rem.len() && rem[p] == x as usize;
                assert(!on_front@[p]);
            }
            assert forall|a: int, b: int| 0 <= a < b < next@.len() implies
                !lex_lt(row_key(rows[#[trigger] next@[b] as int]@), row_key(rows[#[trigger] next@[a] as int]@)) by {
                assert(from[a] < from[b]);
                assert(rem[from[a]] == next@[a] && rem[from[b]] == next@[b]);
            }
            assert forall|x: int| #![trigger ranks@[x]] reaches(rows, x, 0) && !reaches(rows, x, cr + 1) implies
                ranks@[x] < cr + 1 && has_rank(rows, x, ranks@[x] as nat) by {
                if reaches(rows, x, cr) {
                    assert(rem.contains(x as usize));
                    let p = choose|p: int| 0 <= p < rem.len() && rem[p] == x as usize;
                    assert(on_front@[p]);
                } else {
                    if rem.contains(x as usize) {
                        let p = choose|p: int| 0 <= p < rem.len() && rem[p] == x as usize;
                        assert(reaches(rows, rem[p] as int, cr));
                    }
                    assert(ranks@[x] == ranks0[x]);
                }
            }
            lemma_left_over_count(rows, next@, cr + 1);
        }
        remaining = next;
        current_rank = current_rank + 1;
    }
    let ghost c = current_rank as nat;
    let ghost ranks0 = ranks@;
    assert forall|p: int| 0 <= p < remaining@.len() implies #[trigger] remaining@[p] < rows.len() by {
        assert(reaches(rows, remaining@[p] as int, c));
        lemma_reaches_down(rows, remaining@[p] as int, c, 0);
    }
    let mut i: usize = 0;
    while i < remaining.len()
        invariant
            i <= remaining@.len(),
            lists_left_over(rows, remaining@, c),
            forall|p: int| 0 <= p < remaining@.len() ==> #[trigger] remaining@[p] < rows.len(),
            c == current_rank,
            ranks@.len() == rows.len(),
            ranks0.len() == rows.len(),
            forall|p: int| 0 <= p < i ==> ranks@[#[trigger] remaining@[p] as int] == c,
            forall|x: int| #![trigger ranks@[x]] 0 <= x < rows.len() && !remaining@.contains(x as usize) ==> ranks@[x] == ranks0[x],
        decreases remaining@.len() - i,
    {
        assert(remaining@.contains(remaining@[i as int]));
        ranks.set(remaining[i], current_rank);
        i = i + 1;
    }
    proof {
        assert(settles(rows, n_below as nat, c));
        assert forall|x: int| #![trigger ranks@[x]] 0 <= x < rows.len() && clean(rows[x]@) implies
            if reaches(rows, x, c) { ranks@[x] == c } else { ranks@[x] < c && has_rank(rows, x, ranks@[x] as nat) } by {
            assert(reaches(rows, x, 0));
            if reaches(rows, x, c) {
                let p = choose|p: int| 0 <= p < remaining@.len() && remaining@[p] == x as usize;
            } else {
                if remaining@.contains(x as usize) {
                    let p = choose|p: int| 0 <= p < remaining@.len() && remaining@[p] == x as usize;
                    assert(reaches(rows, remaining@[p] as int, c));
                }
                assert(ranks@[x] == ranks0[x]);
            }
        }
        assert(is_cutoff(rows, n_below as nat, c));
    }
}

/// Non-domination ranks, 0 for Pareto-optimal rows, 1 for the next front, and so on.
///
/// Stops once at least `n_below` rows are ranked: the clean rows left by then carry the
/// number of fronts ranked, which exceeds every rank given out. Bi-objective rows are
/// always ranked in full. Rows with a NaN come last.
pub fn fast_non_dominated_sort_partial(loss_values: &[Vec<Float>], n_below: usize) -> (ranks: Vec<usize>)
    requires
        same_width(loss_values@),
    ensures
        non_domination_ranks(loss_values@, n_below as nat, ranks@),
{
    let ghost rows = loss_values@;
    let n: usize = loss_values.len();
    let mut ranks: Vec<usize> = vec![usize::MAX; n];
    if n == 0 {
        return ranks;
    }
    let mut order: Vec<usize> = Vec::new();
    let mut nan_rows: Vec<usize> = Vec::new();
    let mut i: usize = 0;
    while i < n
        invariant
            rows == loss_values@,
            n == rows.len(),
            i <= n,
            order@.len() + nan_rows@.len() == i,
            order@.no_duplicates(),
            forall|p: int| 0 <= p < order@.len() ==> #[trigger] order@[p] < i && clean(rows[order@[p] as int]@),
            forall|x: usize| x < i && clean(rows[x as int]@) ==> #[trigger] order@.contains(x),
            forall|p: int| 0 <= p < nan_rows@.len() ==> #[trigger] nan_rows@[p] < i && !clean(rows[nan_rows@[p] as int]@),
            forall|x: usize| x < i && !clean(rows[x as int]@) ==> #[trigger] nan_rows@.contains(x),
        decreases n - i,
    {
        let ghost order0 = order@;
        let ghost nan0 = nan_rows@;
        if row_has_nan(&loss_values[i]) {
            nan_rows.push(i);
            assert(nan_rows@[nan0.len() as int] == i);
            assert(nan_rows@.contains(i));
        } else {
            order.push(i);
            assert(order@[order0.len() as int] == i);
            assert(order@.contains(i));
        }
        assert forall|x: usize| order0.contains(x) implies #[trigger] order@.contains(x) by {
            let k = choose|k: int| 0 <= k < order0.len() && order0[k] == x;
            assert(order@[k] == x);
        }
        assert forall|x: usize| nan0.contains(x) implies #[trigger] nan_rows@.contains(x) by {
            let k = choose|k: int| 0 <= k < nan0.len() && nan0[k] == x;
            assert(nan_rows@[k] == x);
        }
        i = i + 1;
    }
    let ghost unsorted = order@;
    sort_for_dominance(loss_values, &mut order);
    proof {
        lemma_rearranged(unsorted, order@);
        assert forall|p: int| 0 <= p < order@.len() implies reaches(rows, #[trigger] order@[p] as int, 0) by {
            assert(order@.contains(order@[p]));
            let q = choose|q: int| 0 <= q < unsorted.len() && unsorted[q] == order@[p];
            assert(unsorted[q] < n);
        }
        assert forall|x: int| #[trigger] reaches(rows, x, 0) implies order@.contains(x as usize) by {
            assert(unsorted.contains(x as usize));
        }
        assert(sorted_clean(rows, order@));
    }
    let n_clean: usize = order.len();
    if loss_values[0].len() == 2 {
        rank_two_objectives(loss_values, &order, &mut ranks);
    } else {
        peel_fronts(loss_values, order, n_below, &mut ranks);
    }
    let ghost ranks0 = ranks@;
    assert forall|x: int| 0 <= x < n && clean(rows[x]@) implies #[trigger] ranks0[x] <= n_clean by {}
    let mut sentinel: usize = 0;
    let mut i: usize = 0;
    while i < n
        invariant
            rows == loss_values@,
            n == rows.len(),
            i <= n,
            n_clean + nan_rows@.len() == n,
            ranks@ == ranks0,
            ranks0.len() == n,
            nan_rows@.len() > 0 || sentinel == 0,
            forall|x: int| 0 <= x < n && clean(rows[x]@) ==> #[trigger] ranks0[x] <= n_clean,
            nan_rows@.len() > 0 ==> forall|x: int| 0 <= x < i && clean(rows[x]@) ==> #[trigger] ranks0[x] < sentinel,
            sentinel == 0 || exists|x: int| 0 <= x < i && clean(rows[x]@) && sentinel == #[trigger] ranks0[x] + 1,
        decreases n - i,
    {
        if nan_rows.len() > 0 && !row_has_nan(&loss_values[i]) {
            let r: usize = ranks[i];
            assert(r == ranks0[i as int]);
            if r >= sentinel {
                sentinel = r + 1;
            }
        }
        i = i + 1;
    }
    let mut k: usize = 0;
    while k < nan_rows.len()
        invariant
            rows == loss_values@,
            n == rows.len(),
            k <= nan_rows@.len(),
            ranks@.len() == n,
            ranks0.len() == n,
            forall|p: int| 0 <= p < nan_rows@.len() ==> #[trigger] nan_rows@[p] < n && !clean(rows[nan_rows@[p] as int]@),
            forall|p: int| 0 <= p < k ==> ranks@[#[trigger] nan_rows@[p] as int] == sentinel,
            forall|x: int| #![trigger ranks@[x]] 0 <= x < n && clean(rows[x]@) ==> ranks@[x] == ranks0[x],
        decreases nan_rows@.len() - k,
    {
        ranks.set(nan_rows[k], sentinel);
        k = k + 1;
    }
    proof {
        assert forall|x: int| #![trigger ranks@[x]] 0 <= x < rows.len() && !clean(rows[x]@) implies {
            &&& forall|j: int| 0 <= j < rows.len() && clean(rows[j]@) ==> #[trigger] ranks@[j] < ranks@[x]
            &&& ranks@[x] == 0 || exists|j: int| 0 <= j < rows.len() && clean(rows[j]@) && ranks@[x] == #[trigger] ranks@[j] + 1
        } by {
            assert(nan_rows@.contains(x as usize));
            let p = choose|p: int| 0 <= p < nan_rows@.len() && nan_rows@[p] == x as usize;
            assert(ranks@[x] == sentinel);
            if sentinel > 0 {
                let j = choose|j: int| 0 <= j < n && clean(rows[j]@) && sentinel == #[trigger] ranks0[j] + 1;
                assert(ranks@[j] == ranks0[j]);
            }
        }
        if rows[0]@.len() == 2 {
            assert forall|x: int| 0 <= x < rows.len() && clean(rows[x]@) implies has_rank(rows, x, #[trigger] ranks@[x] as nat) by {
                assert(ranks@[x] == ranks0[x]);
            }
        } else {
            let c = choose|c: nat| #[trigger] is_cutoff(rows, n_below as nat, c) && c <= n_clean && ranked_up_to(rows, ranks0, c);
            assert(ranked_up_to(rows, ranks@, c)) by {
                assert forall|x: int| #![trigger ranks@[x]] 0 <= x < rows.len() && clean(rows[x]@) implies
                    if reaches(rows, x, c) { ranks@[x] == c } else { ranks@[x] < c && has_rank(rows, x, ranks@[x] as nat) } by {
                    assert(ranks@[x] == ranks0[x]);
                }
            }
        }
    }
    ranks
}

/// Equal clean rows are on the same front.
pub proof fn law_duplicates_share_a_rank(rows: Seq<Vec<Float>>, i: int, j: int, r: nat)
    requires
        0 <= i < rows.len(),
        0 <= j < rows.len(),
        clean(rows[i]@),
        clean(rows[j]@),
        no_worse(rows[i]@, rows[j]@),
        no_worse(rows[j]@, rows[i]@),
    ensures
        has_rank(rows, i, r) == has_rank(rows, j, r),
{
    lemma_duplicates_reach(rows, i, j, r);
    lemma_duplicates_reach(rows, j, i, r);
    lemma_duplicates_reach(rows, i, j, r + 1);
    lemma_duplicates_reach(rows, j, i, r + 1);
}

proof fn lemma_duplicates_reach(rows: Seq<Vec<Float>>, i: int, j: int, r: nat)
    requires
        0 <= j < rows.len(),
        clean(rows[j]@),
        no_worse(rows[i]@, rows[j]@),
    ensures
        reaches(rows, i, r) ==> reaches(rows, j, r),
    decreases r,
{
    if r > 0 && reaches(rows, i, r) {
        lemma_duplicates_reach(rows, i, j, (r - 1) as nat);
        let k = choose|k: int| reaches(rows, k, (r - 1) as nat) && #[trigger] dominates(rows[k]@, rows[i]@);
        lemma_dominates_transitive(rows[k]@, rows[i]@, rows[j]@);
        assert(dominates(rows[k]@, rows[j]@));
    }
}

/// A clean row is on a later front than every row that dominates it.
pub proof fn law_dominated_rows_rank_later(rows: Seq<Vec<Float>>, i: int, j: int, r: nat, s: nat)
    requires
        has_rank(rows, i, r),
        has_rank(rows, j, s),
        dominates(rows[i]@, rows[j]@),
    ensures
        r < s,
{
    if s <= r {
        lemma_reaches_down(rows, i, r, s);
        lemma_reaches_down(rows, j, s, s);
        assert(reaches(rows, j, s + 1));
    }
}

/// A row has at most one rank.
pub proof fn law_rank_is_unique(rows: Seq<Vec<Float>>, i: int, r: nat, s: nat)
    requires
        has_rank(rows, i, r),
        has_rank(rows, i, s),
    ensures
        r == s,
{
    if r < s {
        lemma_reaches_down(rows, i, s, r + 1);
    } else if s < r {
        lemma_reaches_down(rows, i, r, s + 1);
    }
}

/// Rows with a NaN rank behind every clean row.
pub proof fn law_nan_rows_are_worst(rows: Seq<Vec<Float>>, n_below: nat, ranks: Seq<usize>, i: int, j: int)
    requires
        non_domination_ranks(rows, n_below, ranks),
        0 <= i < rows.len(),
        0 <= j < rows.len(),
        clean(rows[i]@),
        !clean(rows[j]@),
    ensures
        ranks[i] < ranks[j],
{
    assert(ranks[j] == ranks[j]);
    assert(ranks[i] < ranks[j]);
}

/// Under every ranking, a dominated clean row is never ranked before the row that
/// dominates it.
pub proof fn law_ranks_respect_dominance(rows: Seq<Vec<Float>>, n_below: nat, ranks: Seq<usize>, i: int, j: int)
    requires
        non_domination_ranks(rows, n_below, ranks),
        0 <= i < rows.len(),
        0 <= j < rows.len(),
        clean(rows[i]@),
        clean(rows[j]@),
        dominates(rows[i]@, rows[j]@),
    ensures
        ranks[i] <= ranks[j],
{
    assert(ranks[i] == ranks[i] && ranks[j] == ranks[j]);
    if rows[0]@.len() == 2 {
        law_dominated_rows_rank_later(rows, i, j, ranks[i] as nat, ranks[j] as nat);
    } else {
        let c = choose|c: nat| #[trigger] is_cutoff(rows, n_below, c) && ranked_up_to(rows, ranks, c);
        if !reaches(rows, i, c) && !reaches(rows, j, c) {
            law_dominated_rows_rank_later(rows, i, j, ranks[i] as nat, ranks[j] as nat);
        } else if reaches(rows, i, c) {
            assert(reaches(rows, j, c)) by {
                lemma_duplicates_reach(rows, i, j, c);
            }
        }
    }
}

/// Ranks below `c` are the same in both.
pub open spec fn agree_below(a: Seq<usize>, b: Seq<usize>, c: nat) -> bool {
    &&& a.len() == b.len()
    &&& forall|i: int| #![trigger a[i]] #![trigger b[i]] 0 <= i < a.len() && (a[i] < c || b[i] < c) ==> a[i] == b[i]
}

proof fn lemma_reaches_by_value(rows: Seq<Vec<Float>>, others: Seq<Vec<Float>>, i: int, r: nat)
    requires
        rows.len() == others.len(),
        forall|k: int| 0 <= k < rows.len() ==> (#[trigger] rows[k])@ == others[k]@,
    ensures
        reaches(rows, i, r) == reaches(others, i, r),
    decreases r,
{
    if r > 0 {
        let s = (r - 1) as nat;
        lemma_reaches_by_value(rows, others, i, s);
        if reaches(rows, i, s) {
            lemma_reaches_down(rows, i, s, 0);
            lemma_reaches_down(others, i, s, 0);
            assert(rows[i]@ == others[i]@);
            if exists|j: int| reaches(rows, j, s) && #[trigger] dominates(rows[j]@, rows[i]@) {
                let j = choose|j: int| reaches(rows, j, s) && #[trigger] dominates(rows[j]@, rows[i]@);
                lemma_reaches_by_value(rows, others, j, s);
                lemma_reaches_down(rows, j, s, 0);
                assert(rows[j]@ == others[j]@);
                assert(dominates(others[j]@, others[i]@));
            }
            if exists|j: int| reaches(others, j, s) && #[trigger] dominates(others[j]@, others[i]@) {
                let j = choose|j: int| reaches(others, j, s) && #[trigger] dominates(others[j]@, others[i]@);
                lemma_reaches_by_value(rows, others, j, s);
                lemma_reaches_down(others, j, s, 0);
                assert(rows[j]@ == others[j]@);
                assert(dominates(rows[j]@, rows[i]@));
            }
        }
    }
}

pub(crate) proof fn lemma_left_over_finite(rows: Seq<Vec<Float>>, r: nat)
    ensures
        left_over(rows, r).finite(),
        left_over(rows, r).subset_of(left_over(rows, 0)),
{
    let range = vstd::set_lib::set_int_range(0, rows.len() as int);
    vstd::set_lib::lemma_int_range(0, rows.len() as int);
    assert forall|i: int| left_over(rows, r).contains(i) implies range.contains(i) && left_over(rows, 0).contains(i) by {
        lemma_reaches_down(rows, i, r, 0);
    }
    vstd::set_lib::lemma_len_subset(left_over(rows, r), range);
}

/// Rows with a NaN have the same rank where the clean rows have.
proof fn lemma_nan_ranks_agree(rows: Seq<Vec<Float>>, others: Seq<Vec<Float>>, a: Seq<usize>, b: Seq<usize>)
    requires
        rows.len() == others.len() == a.len() == b.len(),
        forall|k: int| 0 <= k < rows.len() ==> (#[trigger] rows[k])@ == others[k]@,
        nan_rows_last(rows, a),
        nan_rows_last(others, b),
        forall|i: int| 0 <= i < rows.len() && clean(rows[i]@) ==> #[trigger] a[i] == b[i],
    ensures
        a == b,
{
    assert forall|i: int| 0 <= i < a.len() implies a[i] == b[i] by {
        assert(rows[i]@ == others[i]@);
        if !clean(rows[i]@) {
            if a[i] > 0 {
                let j = choose|j: int| 0 <= j < rows.len() && clean(rows[j]@) && a[i] == #[trigger] a[j] + 1;
                assert(rows[j]@ == others[j]@);
                assert(b[j] < b[i]);
            }
            if b[i] > 0 {
                let j = choose|j: int| 0 <= j < others.len() && clean(others[j]@) && b[i] == #[trigger] b[j] + 1;
                assert(rows[j]@ == others[j]@);
                assert(a[j] < a[i]);
            }
        }
    }
    assert(a =~= b);
}

/// Ranking more rows changes no rank below the front at which ranking fewer rows stops.
pub proof fn law_ranks_stay_below_the_cutoff(
    rows: Seq<Vec<Float>>,
    others: Seq<Vec<Float>>,
    fewer: nat,
    more: nat,
    a: Seq<usize>,
    b: Seq<usize>,
)
    requires
        fewer <= more,
        rows.len() == others.len(),
        rows.len() > 0,
        forall|k: int| 0 <= k < rows.len() ==> (#[trigger] rows[k])@ == others[k]@,
        non_domination_ranks(rows, fewer, a),
        non_domination_ranks(others, more, b),
    ensures
        a == b || exists|c: nat| {
            &&& #[trigger] is_cutoff(rows, fewer, c)
            &&& agree_below(a, b, c)
            &&& ranked_up_to(rows, a, c)
            &&& left_over(rows, c).len() > 0
        },
{
    assert(rows[0]@ == others[0]@);
    if rows[0]@.len() == 2 {
        assert forall|i: int| 0 <= i < rows.len() && clean(rows[i]@) implies #[trigger] a[i] == b[i] by {
            assert(rows[i]@ == others[i]@);
            assert(has_rank(others, i, b[i] as nat));
            lemma_reaches_by_value(rows, others, i, b[i] as nat);
            lemma_reaches_by_value(rows, others, i, (b[i] + 1) as nat);
            law_rank_is_unique(rows, i, a[i] as nat, b[i] as nat);
        }
        lemma_nan_ranks_agree(rows, others, a, b);
    } else {
        let c = choose|c: nat| #[trigger] is_cutoff(rows, fewer, c) && ranked_up_to(rows, a, c);
        let d = choose|d: nat| #[trigger] is_cutoff(others, more, d) && ranked_up_to(others, b, d);
        assert forall|r: nat| #[trigger] left_over(others, r) == left_over(rows, r) by {
            assert forall|i: int| left_over(others, r).contains(i) == left_over(rows, r).contains(i) by {
                lemma_reaches_by_value(rows, others, i, r);
            }
            assert(left_over(others, r) =~= left_over(rows, r));
        }
        assert(settles(rows, more, d)) by {
            assert(settles(others, more, d));
            assert(left_over(others, d) == left_over(rows, d) && left_over(others, 0) == left_over(rows, 0));
        }
        assert(settles(rows, fewer, d));
        assert(c <= d);
        assert forall|i: int| 0 <= i < rows.len() && clean(rows[i]@) implies #[trigger] a[i] == b[i] || (a[i] >= c && b[i] >= c) by {
            assert(rows[i]@ == others[i]@);
            lemma_reaches_by_value(rows, others, i, d);
            lemma_reaches_by_value(rows, others, i, b[i] as nat);
            lemma_reaches_by_value(rows, others, i, (b[i] + 1) as nat);
            if reaches(rows, i, c) {
                if !reaches(rows, i, d) && b[i] < c {
                    lemma_reaches_down(rows, i, c, (b[i] + 1) as nat);
                }
            } else {
                if reaches(rows, i, d) {
                    lemma_reaches_down(rows, i, d, c);
                }
                law_rank_is_unique(rows, i, a[i] as nat, b[i] as nat);
            }
        }
        lemma_left_over_finite(rows, c);
        if left_over(rows, c).len() == 0 {
            assert(settles(others, more, c)) by {
                assert(left_over(others, c) == left_over(rows, c));
            }
            assert(c == d);
            assert forall|i: int| 0 <= i < rows.len() && clean(rows[i]@) implies #[trigger] a[i] == b[i] by {
                if reaches(rows, i, c) {
                    assert(left_over(rows, c).contains(i));
                    assert(left_over(rows, c) =~= Set::empty());
                }
                assert(rows[i]@ == others[i]@);
                lemma_reaches_by_value(rows, others, i, d);
            }
            lemma_nan_ranks_agree(rows, others, a, b);
        } else {
            let x = left_over(rows, c).choose();
            assert(left_over(rows, c).contains(x));
            lemma_reaches_down(rows, x, c, 0);
            assert(a[x] == c);
            assert forall|i: int| #![trigger a[i]] #![trigger b[i]] 0 <= i < a.len() && (a[i] < c || b[i] < c) implies a[i] == b[i] by {
                assert(rows[i]@ == others[i]@ && rows[x]@ == others[x]@);
                if !clean(rows[i]@) {
                    assert(a[x] < a[i]);
                    assert(b[x] < b[i]);
                    assert(a[x] == b[x] || b[x] >= c);
                }
            }
        }
    }
}

/// Of two rows without a NaN the first dominates where it is larger nowhere and smaller
/// somewhere.
pub proof fn law_dominance_compares_every_objective(a: Seq<Float>, b: Seq<Float>)
    requires
        a.len() == b.len(),
        clean(a),
        clean(b),
    ensures
        dominates(a, b) <==> (forall|k: int| 0 <= k < a.len() ==> !(#[trigger] b[k]).below(a[k])) && (exists|k: int|
            0 <= k < a.len() && (#[trigger] a[k]).below(b[k])),
{
    if dominates(a, b) {
        let k = choose|k: int| 0 <= k < b.len() && (#[trigger] b[k]).rank() > a[k].rank();
        assert(a[k].below(b[k]));
    }
    if (forall|k: int| 0 <= k < a.len() ==> !(#[trigger] b[k]).below(a[k])) && (exists|k: int| 0 <= k < a.len() && (#[trigger] a[k]).below(b[k])) {
        assert forall|k: int| 0 <= k < a.len() implies (#[trigger] a[k]).rank() <= b[k].rank() by {
            assert(!b[k].below(a[k]));
        }
        let k = choose|k: int| 0 <= k < a.len() && (#[trigger] a[k]).below(b[k]);
        assert(b[k].rank() > a[k].rank());
    }
}

/// A clean row has rank 0 where no clean row dominates it.
pub proof fn law_first_front_is_not_dominated(rows: Seq<Vec<Float>>, i: int)
    requires
        0 <= i < rows.len(),
        clean(rows[i]@),
    ensures
        has_rank(rows, i, 0) <==> forall|j: int| 0 <= j < rows.len() && clean(rows[j]@) ==> !#[trigger] dominates(rows[j]@, rows[i]@),
{
    reveal_with_fuel(reaches, 2);
    if has_rank(rows, i, 0) {
        assert forall|j: int| 0 <= j < rows.len() && clean(rows[j]@) implies !#[trigger] dominates(rows[j]@, rows[i]@) by {
            assert(reaches(rows, j, 0));
        }
    }
}

/// A row of a later front is dominated by a row of the front before.
pub proof fn law_later_rows_are_dominated(rows: Seq<Vec<Float>>, i: int, r: nat) -> (j: int)
    requires
        has_rank(rows, i, r + 1),
    ensures
        has_rank(rows, j, r),
        0 <= j < rows.len(),
        clean(rows[j]@),
        dominates(rows[j]@, rows[i]@),
{
    let j = choose|j: int| reaches(rows, j, r) && #[trigger] dominates(rows[j]@, rows[i]@);
    assert(reaches(rows, i, r + 1));
    if reaches(rows, j, r + 1) {
        assert(reaches(rows, i, r + 2));
    }
    lemma_reaches_down(rows, j, r, 0);
    j
}

/// A rank is exact, or at least as many clean rows as asked for are ranked before it.
pub proof fn law_enough_ranks_are_exact(rows: Seq<Vec<Float>>, n_below: nat, ranks: Seq<usize>, i: int)
    requires
        non_domination_ranks(rows, n_below, ranks),
        0 <= i < rows.len(),
        clean(rows[i]@),
    ensures
        has_rank(rows, i, ranks[i] as nat) || Set::new(|j: int| 0 <= j < rows.len() && clean(rows[j]@) && ranks[j] < ranks[i]).len()
            >= n_below,
{
    if !has_rank(rows, i, ranks[i] as nat) {
        let c = choose|c: nat| #[trigger] is_cutoff(rows, n_below, c) && ranked_up_to(rows, ranks, c);
        let before = Set::new(|j: int| 0 <= j < rows.len() && clean(rows[j]@) && ranks[j] < ranks[i]);
        let all = left_over(rows, 0);
        let rest = left_over(rows, c);
        assert(ranks[i] == ranks[i]);
        assert(reaches(rows, i, c) && ranks[i] == c);
        lemma_left_over_finite(rows, 0);
        lemma_left_over_finite(rows, c);
        assert(rest.contains(i));
        assert forall|j: int| before.contains(j) == (all.contains(j) && !rest.contains(j)) by {
            if 0 <= j < rows.len() && clean(rows[j]@) {
                assert(ranks[j] == ranks[j]);
            }
            if rest.contains(j) {
                lemma_reaches_down(rows, j, c, 0);
            }
        }
        assert(before =~= all.difference(rest));
        assert forall|j: int| rest.contains(j) implies all.contains(j) by {
            lemma_reaches_down(rows, j, c, 0);
        }
        assert(all =~= before + rest);
        assert(before.disjoint(rest));
        vstd::set_lib::lemma_set_disjoint_lens(before, rest);
    }
}

/// No more fronts are told apart than are needed: the fronts but one before a rank hold fewer rows
/// than asked for.
pub proof fn law_no_more_fronts_than_needed(rows: Seq<Vec<Float>>, n_below: nat, ranks: Seq<usize>, i: int)
    requires
        non_domination_ranks(rows, n_below, ranks),
        0 <= i < rows.len(),
        clean(rows[i]@),
        rows[0]@.len() != 2,
        ranks[i] > 0,
    ensures
        Set::new(|j: int| 0 <= j < rows.len() && clean(rows[j]@) && ranks[j] + 1 < ranks[i]).len() < n_below,
{
    let c = choose|c: nat| #[trigger] is_cutoff(rows, n_below, c) && ranked_up_to(rows, ranks, c);
    let before = Set::new(|j: int| 0 <= j < rows.len() && clean(rows[j]@) && ranks[j] + 1 < ranks[i]);
    assert(ranks[i] == ranks[i]);
    assert(ranks[i] <= c);
    let d = (c - 1) as nat;
    assert(!settles(rows, n_below, d));
    let all = left_over(rows, 0);
    let rest = left_over(rows, d);
    lemma_left_over_finite(rows, 0);
    lemma_left_over_finite(rows, d);
    assert forall|j: int| rest.contains(j) implies all.contains(j) by {
        lemma_reaches_down(rows, j, d, 0);
    }
    let settled = all.difference(rest);
    assert forall|j: int| before.contains(j) implies settled.contains(j) by {
        assert(ranks[j] == ranks[j]);
        if reaches(rows, j, d) {
            assert(ranks[j] < c && has_rank(rows, j, ranks[j] as nat)) by {
                if reaches(rows, j, c) {
                    assert(ranks[j] == c);
                }
            }
            lemma_reaches_down(rows, j, d, (ranks[j] + 1) as nat);
        }
    }
    assert(all =~= settled + rest);
    assert(settled.disjoint(rest));
    vstd::set_lib::lemma_set_disjoint_lens(settled, rest);
    vstd::set_lib::lemma_len_subset(before, settled);
}

} // verus!
