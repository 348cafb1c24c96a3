//! Ordering positions by integer keys.

use vstd::prelude::*;

verus! {

/// Lexicographic `<` on integer sequences; a proper prefix comes first.
pub open spec fn lex_lt(a: Seq<int>, b: Seq<int>) -> bool {
    exists|k: int| #[trigger] differs_first_at(a, b, k) && k < b.len() && (k == a.len() || a[k] < b[k])
}

/// The sequences agree before `k`, and `k` is a position of both or the end of one.
pub open spec fn differs_first_at(a: Seq<int>, b: Seq<int>, k: int) -> bool {
    &&& 0 <= k <= a.len()
    &&& k <= b.len()
    &&& forall|j: int| 0 <= j < k ==> a[j] == b[j]
}

/// The key of position `i`, as mathematical integers.
pub open spec fn key_at(keys: Seq<Vec<i64>>, i: int) -> Seq<int> {
    keys[i]@.map_values(|x: i64| x as int)
}

/// Position `i` comes before position `j`: by key, and by position where the keys agree.
pub open spec fn precedes(keys: Seq<Vec<i64>>, i: int, j: int) -> bool {
    lex_lt(key_at(keys, i), key_at(keys, j)) || (key_at(keys, i) == key_at(keys, j) && i < j)
}

/// Each entry precedes every later entry.
pub open spec fn in_order(keys: Seq<Vec<i64>>, order: Seq<usize>) -> bool {
    forall|a: int, b: int|
        0 <= a < b < order.len() ==> #[trigger] precedes(keys, order[a] as int, order[b] as int)
}

/// `order` holds each of `lo..hi` exactly once.
pub open spec fn covers(order: Seq<usize>, lo: int, hi: int) -> bool {
    &&& order.len() == hi - lo
    &&& order.no_duplicates()
    &&& forall|p: int| 0 <= p < order.len() ==> lo <= #[trigger] order[p] < hi
    &&& forall|x: usize| lo <= x < hi ==> #[trigger] order.contains(x)
}

/// Two sequences are in lexicographic order, in reverse order, or equal.
pub proof fn lemma_lex_total(a: Seq<int>, b: Seq<int>)
    ensures
        lex_lt(a, b) || lex_lt(b, a) || a == b,
        !(lex_lt(a, b) && lex_lt(b, a)),
        !lex_lt(a, a),
{
    lemma_first_difference(a, b, 0);
    if lex_lt(a, b) && lex_lt(b, a) {
        let k = choose|k: int| #[trigger] differs_first_at(a, b, k) && k < b.len() && (k == a.len() || a[k] < b[k]);
        let l = choose|l: int| #[trigger] differs_first_at(b, a, l) && l < a.len() && (l == b.len() || b[l] < a[l]);
        if k < l {
            assert(b[k] == a[k]);
        } else if l < k {
            assert(a[l] == b[l]);
        }
    }
    if lex_lt(a, a) {
        let k = choose|k: int| #[trigger] differs_first_at(a, a, k) && k < a.len() && (k == a.len() || a[k] < a[k]);
        assert(false);
    }
}

proof fn lemma_first_difference(a: Seq<int>, b: Seq<int>, k: int)
    requires
        differs_first_at(a, b, k),
    ensures
        lex_lt(a, b) || lex_lt(b, a) || a == b,
    decreases a.len() - k,
{
    if k == a.len() || k == b.len() {
        if k == a.len() && k == b.len() {
            assert(a =~= b);
        } else if k == a.len() {
            assert(differs_first_at(a, b, k));
        } else {
            assert(differs_first_at(b, a, k));
        }
    } else if a[k] == b[k] {
        lemma_first_difference(a, b, k + 1);
    } else if a[k] < b[k] {
        assert(differs_first_at(a, b, k));
    } else {
        assert(differs_first_at(b, a, k));
    }
}

pub proof fn lemma_lex_transitive(a: Seq<int>, b: Seq<int>, c: Seq<int>)
    requires
        lex_lt(a, b),
        lex_lt(b, c),
    ensures
        lex_lt(a, c),
{
    let k = choose|k: int| #[trigger] differs_first_at(a, b, k) && k < b.len() && (k == a.len() || a[k] < b[k]);
    let l = choose|l: int| #[trigger] differs_first_at(b, c, l) && l < c.len() && (l == b.len() || b[l] < c[l]);
    let m = if k < l { k } else { l };
    assert(differs_first_at(a, c, m)) by {
        assert forall|j: int| 0 <= j < m implies a[j] == c[j] by {
            assert(a[j] == b[j]);
            assert(b[j] == c[j]);
        }
    }
    if k < l {
        assert(b[k] == c[k]);
    } else if l < k {
        assert(a[l] == b[l]);
    }
}

pub proof fn lemma_precedes_transitive(keys: Seq<Vec<i64>>, i: int, j: int, k: int)
    requires
        precedes(keys, i, j),
        precedes(keys, j, k),
    ensures
        precedes(keys, i, k),
{
    if lex_lt(key_at(keys, i), key_at(keys, j)) && lex_lt(key_at(keys, j), key_at(keys, k)) {
        lemma_lex_transitive(key_at(keys, i), key_at(keys, j), key_at(keys, k));
    }
}

/// Whether position `i` precedes position `j`.
fn comes_before(keys: &Vec<Vec<i64>>, i: usize, j: usize) -> (r: bool)
    requires
        i < keys@.len(),
        j < keys@.len(),
    ensures
        r == precedes(keys@, i as int, j as int),
{
    let ghost a = key_at(keys@, i as int);
    let ghost b = key_at(keys@, j as int);
    let n: usize = keys[i].len();
    let m: usize = keys[j].len();
    let mut k: usize = 0;
    while k < n && k < m && keys[i][k] == keys[j][k]
        invariant
            i < keys@.len(),
            j < keys@.len(),
            n == keys@[i as int]@.len(),
            m == keys@[j as int]@.len(),
            k <= n,
            k <= m,
            a == key_at(keys@, i as int),
            b == key_at(keys@, j as int),
            differs_first_at(a, b, k as int),
        decreases n - k,
    {
        k = k + 1;
    }
    proof {
        lemma_lex_total(a, b);
        assert(differs_first_at(b, a, k as int));
    }
    if k == n && k == m {
        assert(a =~= b);
        i < j
    } else if k == n {
        assert(lex_lt(a, b));
        true
    } else if k == m {
        assert(lex_lt(b, a));
        false
    } else {
        assert(a[k as int] == keys@[i as int]@[k as int]);
        assert(b[k as int] == keys@[j as int]@[k as int]);
        let r = keys[i][k] < keys[j][k];
        assert(if r { lex_lt(a, b) } else { lex_lt(b, a) });
        r
    }
}

/// Merges two ordered runs over `lo..mid` and `mid..hi`.
fn merge(keys: &Vec<Vec<i64>>, left: Vec<usize>, right: Vec<usize>, lo: usize, mid: usize, hi: usize) -> (out: Vec<usize>)
    requires
        lo <= mid <= hi <= keys@.len(),
        covers(left@, lo as int, mid as int),
        covers(right@, mid as int, hi as int),
        in_order(keys@, left@),
        in_order(keys@, right@),
    ensures
        covers(out@, lo as int, hi as int),
        in_order(keys@, out@),
{
    let mut out: Vec<usize> = Vec::new();
    let mut i: usize = 0;
    let mut j: usize = 0;
    while i < left.len() || j < right.len()
        invariant
            lo <= mid <= hi <= keys@.len(),
            covers(left@, lo as int, mid as int),
            covers(right@, mid as int, hi as int),
            in_order(keys@, left@),
            in_order(keys@, right@),
            i <= left@.len(),
            j <= right@.len(),
            out@.len() == i + j,
            in_order(keys@, out@),
            forall|p: int, q: int| 0 <= p < out@.len() && i <= q < left@.len() ==>
                #[trigger] precedes(keys@, out@[p] as int, left@[q] as int),
            forall|p: int, q: int| 0 <= p < out@.len() && j <= q < right@.len() ==>
                #[trigger] precedes(keys@, out@[p] as int, right@[q] as int),
            forall|p: int| 0 <= p < out@.len() ==> lo <= #[trigger] out@[p] < hi,
            forall|q: int| 0 <= q < i ==> out@.contains(#[trigger] left@[q]),
            forall|q: int| 0 <= q < j ==> out@.contains(#[trigger] right@[q]),
        decreases left@.len() - i + right@.len() - j,
    {
        let ghost before = out@;
        let take_left = if i < left.len() && j < right.len() {
            comes_before(keys, left[i], right[j])
        } else {
            i < left.len()
        };
        if take_left {
            let x: usize = left[i];
            assert forall|q: int| j <= q < right@.len() implies #[trigger] precedes(keys@, x as int, right@[q] as int) by {
                if q > j {
                    lemma_precedes_transitive(keys@, x as int, right@[j as int] as int, right@[q] as int);
                }
            }
            out.push(x);
            i = i + 1;
        } else {
            let x: usize = right[j];
            assert forall|q: int| i <= q < left@.len() implies #[trigger] precedes(keys@, x as int, left@[q] as int) by {
                lemma_lex_total(key_at(keys@, left@[i as int] as int), key_at(keys@, x as int));
                assert(precedes(keys@, x as int, left@[i as int] as int));
                if q > i {
                    lemma_precedes_transitive(keys@, x as int, left@[i as int] as int, left@[q] as int);
                }
            }
            out.push(x);
            j = j + 1;
        }
        assert forall|v: usize| #[trigger] before.contains(v) implies out@.contains(v) by {
            let p = choose|p: int| 0 <= p < before.len() && before[p] == v;
            assert(out@[p] == v);
        }
        assert(out@[before.len() as int] == out@.last());
        assert(out@.contains(out@.last()));
    }
    proof {
        assert forall|p: int, q: int| 0 <= p < q < out@.len() implies out@[p] != out@[q] by {
            assert(precedes(keys@, out@[p] as int, out@[q] as int));
            lemma_lex_total(key_at(keys@, out@[p] as int), key_at(keys@, out@[q] as int));
        }
        assert forall|x: usize| lo <= x < hi implies #[trigger] out@.contains(x) by {
            if x < mid {
                assert(left@.contains(x));
            } else {
                assert(right@.contains(x));
            }
        }
    }
    out
}

fn sort_range(keys: &Vec<Vec<i64>>, lo: usize, hi: usize) -> (out: Vec<usize>)
    requires
        lo <= hi <= keys@.len(),
    ensures
        covers(out@, lo as int, hi as int),
        in_order(keys@, out@),
    decreases hi - lo,
{
    if hi - lo <= 1 {
        let mut out: Vec<usize> = Vec::new();
        if lo < hi {
            out.push(lo);
            assert(out@[0] == lo);
        }
        return out;
    }
    let mid: usize = lo + (hi - lo) / 2;
    let left = sort_range(keys, lo, mid);
    let right = sort_range(keys, mid, hi);
    merge(keys, left, right, lo, mid, hi)
}

/// The positions `0..keys.len()` in lexicographic order of their keys; positions with
/// equal keys stay in input order.
pub fn sorted_positions(keys: &Vec<Vec<i64>>) -> (order: Vec<usize>)
    ensures
        covers(order@, 0, keys@.len() as int),
        in_order(keys@, order@),
{
    sort_range(keys, 0, keys.len())
}

/// Each entry has a smaller key than every later entry, or the same key and a smaller
/// position.
pub open spec fn ascending_by(keys: Seq<i64>, order: Seq<usize>) -> bool {
    forall|a: int, b: int| 0 <= a < b < order.len() ==> {
        let i = #[trigger] order[a];
        let j = #[trigger] order[b];
        keys[i as int] < keys[j as int] || (keys[i as int] == keys[j as int] && i < j)
    }
}

/// The positions `0..keys.len()` in ascending order of their keys; positions with equal
/// keys stay in input order.
pub fn positions_by_key(keys: &Vec<i64>) -> (order: Vec<usize>)
    ensures
        covers(order@, 0, keys@.len() as int),
        ascending_by(keys@, order@),
{
    let mut rows: Vec<Vec<i64>> = Vec::new();
    let mut i: usize = 0;
    while i < keys.len()
        invariant
            i <= keys@.len(),
            rows@.len() == i,
            forall|q: int| 0 <= q < i ==> (#[trigger] rows@[q])@ == seq![keys@[q]],
        decreases keys@.len() - i,
    {
        let mut row: Vec<i64> = Vec::new();
        row.push(keys[i]);
        assert(row@ =~= seq![keys@[i as int]]);
        rows.push(row);
        i = i + 1;
    }
    let order = sorted_positions(&rows);
    assert forall|a: int, b: int| 0 <= a < b < order@.len() implies {
        let i = #[trigger] order@[a];
        let j = #[trigger] order@[b];
        keys@[i as int] < keys@[j as int] || (keys@[i as int] == keys@[j as int] && i < j)
    } by {
        assert(precedes(rows@, order@[a] as int, order@[b] as int));
        let ka = key_at(rows@, order@[a] as int);
        let kb = key_at(rows@, order@[b] as int);
        assert(ka.len() == 1 && ka[0] == keys@[order@[a] as int]);
        assert(kb.len() == 1 && kb[0] == keys@[order@[b] as int]);
        if lex_lt(ka, kb) {
            let q = choose|q: int| #[trigger] differs_first_at(ka, kb, q) && q < kb.len() && (q == ka.len() || ka[q] < kb[q]);
            assert(q == 0);
        }
    }
    order
}

/// Of two sequences of three numbers the first comes before the second where the first
/// difference is to its favour.
pub(crate) proof fn lemma_lex_of_three(a: Seq<int>, b: Seq<int>)
    requires
        a.len() == 3,
        b.len() == 3,
        lex_lt(a, b),
    ensures
        a[0] < b[0] || (a[0] == b[0] && (a[1] < b[1] || (a[1] == b[1] && a[2] < b[2]))),
{
    let k = choose|k: int| #[trigger] differs_first_at(a, b, k) && k < b.len() && (k == a.len() || a[k] < b[k]);
    assert(k == 0 || k == 1 || k == 2);
}

/// A sequence comes before another one where it has the smaller entry at the first difference,
/// or ends there.
pub proof fn law_lexicographic_order(a: Seq<int>, b: Seq<int>, k: int)
    requires
        0 <= k <= a.len(),
        k < b.len(),
        forall|j: int| 0 <= j < k ==> a[j] == b[j],
        k == a.len() || a[k] < b[k],
    ensures
        lex_lt(a, b),
        !lex_lt(b, a),
        !lex_lt(a, a),
{
    assert(differs_first_at(a, b, k));
    lemma_lex_total(a, b);
}

/// What covers a range holds every number of it exactly once, and nothing else.
pub proof fn law_cover_is_a_permutation(order: Seq<usize>, n: int, x: usize)
    requires
        covers(order, 0, n),
    ensures
        order.contains(x) == (x < n),
        order.len() == n,
        order.no_duplicates(),
{
}

} // verus!
