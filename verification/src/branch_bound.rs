//! Branch-and-bound solver: elements are visited in descending order of
//! absolute value through an include/exclude decision tree. Every node tests
//! the running sum against the match window first, then prunes branches whose
//! remaining elements cannot bring the sum back into the window. The top
//! decision levels are pre-split into independent tasks, each searched by the
//! serial procedure from that depth onward.

use vstd::prelude::*;

use crate::model::{abs1, abs_total, dv_of, in_window, same_index_set, seq_sum, valid_solution};
use crate::model::{cnt_below, lemma_split_increasing};
use crate::model::{
    clone_indices, lemma_abs_upto_mono, lemma_dv_contains_grow, lemma_seq_sum_bound_distinct,
    lemma_seq_sum_concat,
};

verus! {

/// `values` and `index_map` describe a permutation of the input: position
/// `k` of `values` holds the element at original index `index_map[k]`, each
/// original index appearing at most once.
pub open spec fn permuted_view(
    numbers: Seq<i64>,
    values: Seq<i64>,
    index_map: Seq<usize>,
) -> bool {
    &&& values.len() == numbers.len()
    &&& index_map.len() == numbers.len()
    &&& forall|k: int| 0 <= k < index_map.len() ==> index_map[k] < numbers.len()
    &&& forall|k: int|
        0 <= k < values.len() ==> values[k] == numbers[index_map[k] as int]
    &&& forall|k1: int, k2: int|
        0 <= k1 < k2 < index_map.len() ==> index_map[k1] != index_map[k2]
}

/// A partial search path: distinct in-range original indices, disjoint from
/// the original indices of the still-undecided sorted positions `[depth, n)`.
pub open spec fn path_ok(
    numbers: Seq<i64>,
    index_map: Seq<usize>,
    depth: int,
    path: Seq<usize>,
) -> bool {
    &&& forall|k: int| 0 <= k < path.len() ==> path[k] < numbers.len()
    &&& forall|k1: int, k2: int| 0 <= k1 < k2 < path.len() ==> path[k1] != path[k2]
    &&& forall|d: int| depth <= d < index_map.len() ==> !path.contains(index_map[d])
}

/// The original indices of a sequence of sorted positions.
pub open spec fn map_positions(index_map: Seq<usize>, d: Seq<usize>) -> Seq<usize> {
    d.map_values(|k: usize| index_map[k as int])
}

/// A choice among the undecided sorted positions: strictly increasing
/// positions drawn from `[depth, n)`.
pub open spec fn is_tail_choice(values: Seq<i64>, depth: int, d: Seq<usize>) -> bool {
    &&& forall|k: int| 0 <= k < d.len() ==> depth <= d[k] && d[k] < values.len()
    &&& forall|k1: int, k2: int| 0 <= k1 < k2 < d.len() ==> d[k1] < d[k2]
}

/// Some choice of the undecided positions completes the running sum into the
/// match window.
pub open spec fn completion_exists(
    values: Seq<i64>,
    target: i64,
    tolerance: i64,
    current_sum: int,
    depth: int,
) -> bool {
    exists|d: Seq<usize>|
        #[trigger] is_tail_choice(values, depth, d) && in_window(
            current_sum + seq_sum(values, d),
            target,
            tolerance,
        )
}

/// Sum of the positive elements at positions `[lo, hi)`.
pub open spec fn pos_range(values: Seq<i64>, lo: int, hi: int) -> int
    decreases hi - lo,
{
    if hi <= lo {
        0
    } else {
        pos_range(values, lo, hi - 1) + if values[hi - 1] > 0 {
            values[hi - 1] as int
        } else {
            0
        }
    }
}

/// Sum of the negative elements at positions `[lo, hi)`.
pub open spec fn neg_range(values: Seq<i64>, lo: int, hi: int) -> int
    decreases hi - lo,
{
    if hi <= lo {
        0
    } else {
        neg_range(values, lo, hi - 1) + if values[hi - 1] < 0 {
            values[hi - 1] as int
        } else {
            0
        }
    }
}

/// The positive range sum is non-negative, the negative one non-positive.
proof fn lemma_range_sign(values: Seq<i64>, lo: int, hi: int)
    ensures
        pos_range(values, lo, hi) >= 0,
        neg_range(values, lo, hi) <= 0,
    decreases hi - lo,
{
    if hi > lo {
        lemma_range_sign(values, lo, hi - 1);
    }
}

/// Range sums grow outward with the upper end.
proof fn lemma_range_mono(values: Seq<i64>, lo: int, h1: int, h2: int)
    requires
        h1 <= h2,
    ensures
        pos_range(values, lo, h1) <= pos_range(values, lo, h2),
        neg_range(values, lo, h2) <= neg_range(values, lo, h1),
    decreases h2 - h1,
{
    if h1 < h2 {
        lemma_range_mono(values, lo, h1, h2 - 1);
    }
}

/// The sum of any tail choice inside `[lo, hi)` lies between the negative
/// and positive range sums: the pruning bounds are correct.
proof fn lemma_tail_sum_in_range(values: Seq<i64>, d: Seq<usize>, lo: int, hi: int)
    requires
        0 <= lo <= hi <= values.len(),
        forall|k: int| 0 <= k < d.len() ==> lo <= d[k] && d[k] < hi,
        forall|k1: int, k2: int| 0 <= k1 < k2 < d.len() ==> d[k1] < d[k2],
    ensures
        neg_range(values, lo, hi) <= seq_sum(values, d) <= pos_range(values, lo, hi),
    decreases d.len(),
{
    lemma_range_sign(values, lo, hi);
    if d.len() > 0 {
        let last = d.last() as int;
        let front = d.drop_last();
        assert(forall|k: int| 0 <= k < front.len() ==> lo <= front[k] && front[k] < last);
        lemma_tail_sum_in_range(values, front, lo, last);
        lemma_range_mono(values, lo, last + 1, hi);
        lemma_range_sign(values, lo, last);
    }
}

/// The values at distinct positions sum to the original elements at their
/// mapped indices.
proof fn lemma_mapped_sum(
    numbers: Seq<i64>,
    values: Seq<i64>,
    index_map: Seq<usize>,
    d: Seq<usize>,
)
    requires
        permuted_view(numbers, values, index_map),
        forall|k: int| 0 <= k < d.len() ==> d[k] < values.len(),
    ensures
        seq_sum(values, d) == seq_sum(numbers, map_positions(index_map, d)),
        map_positions(index_map, d).len() == d.len(),
    decreases d.len(),
{
    if d.len() > 0 {
        let front = d.drop_last();
        lemma_mapped_sum(numbers, values, index_map, front);
        assert(map_positions(index_map, d).drop_last() =~= map_positions(index_map, front));
        assert(map_positions(index_map, d).last() == index_map[d.last() as int]);
    }
}

/// The permutation reaches the index: some sorted position maps to it.
pub open spec fn index_covered(index_map: Seq<usize>, idx: int) -> bool {
    exists|k: int| 0 <= k < index_map.len() && (#[trigger] index_map[k]) == idx
}

/// The sorted positions whose mapped original index occurs in `q`, ascending,
/// among the first `k` positions.
pub open spec fn positions_of(index_map: Seq<usize>, q: Seq<usize>, k: int) -> Seq<usize>
    decreases k,
{
    if k <= 0 {
        Seq::empty()
    } else if q.contains(index_map[k - 1]) {
        positions_of(index_map, q, k - 1).push((k - 1) as usize)
    } else {
        positions_of(index_map, q, k - 1)
    }
}

/// The selected positions are ascending, in range, and carry exactly the
/// mapped indices occurring in `q`.
proof fn lemma_positions_of_props(index_map: Seq<usize>, q: Seq<usize>, k: int)
    requires
        0 <= k <= index_map.len(),
        index_map.len() <= usize::MAX,
    ensures
        forall|j: int|
            #![trigger positions_of(index_map, q, k)[j]]
            0 <= j < positions_of(index_map, q, k).len() ==> positions_of(index_map, q, k)[j] < k,
        forall|j1: int, j2: int|
            0 <= j1 < j2 < positions_of(index_map, q, k).len() ==> positions_of(
                index_map,
                q,
                k,
            )[j1] < positions_of(index_map, q, k)[j2],
        forall|j: int|
            #![trigger positions_of(index_map, q, k)[j]]
            0 <= j < positions_of(index_map, q, k).len() ==> q.contains(
                index_map[positions_of(index_map, q, k)[j] as int],
            ),
        forall|kk: int|
            0 <= kk < k && q.contains(#[trigger] index_map[kk]) ==> positions_of(
                index_map,
                q,
                k,
            ).contains(kk as usize),
    decreases k,
{
    if k > 0 {
        lemma_positions_of_props(index_map, q, k - 1);
        let prev = positions_of(index_map, q, k - 1);
        let cur = positions_of(index_map, q, k);
        if q.contains(index_map[k - 1]) {
            assert(cur == prev.push((k - 1) as usize));
            assert forall|kk: int|
                0 <= kk < k && q.contains(#[trigger] index_map[kk]) implies cur.contains(
                kk as usize,
            ) by {
                if kk < k - 1 {
                    assert(prev.contains(kk as usize));
                    let w = choose|w: int| 0 <= w < prev.len() && prev[w] == kk as usize;
                    assert(cur[w] == kk as usize);
                } else {
                    assert(cur[cur.len() - 1] == (k - 1) as usize);
                }
            }
        } else {
            assert forall|kk: int|
                0 <= kk < k && q.contains(#[trigger] index_map[kk]) implies cur.contains(
                kk as usize,
            ) by {
                assert(kk != k - 1);
                assert(prev.contains(kk as usize));
            }
        }
    }
}

/// No position maps into `q`, so none is selected.
proof fn lemma_positions_of_none(index_map: Seq<usize>, q: Seq<usize>, k: int)
    requires
        forall|kk: int| 0 <= kk < k ==> !q.contains(#[trigger] index_map[kk]),
    ensures
        positions_of(index_map, q, k) == Seq::<usize>::empty(),
    decreases k,
{
    if k > 0 {
        lemma_positions_of_none(index_map, q, k - 1);
        assert(positions_of(index_map, q, k) =~= Seq::<usize>::empty());
    }
}

/// Adding one more index to `q` adds exactly its position's value to the
/// selected positions' sum.
proof fn lemma_positions_insert(
    values: Seq<i64>,
    index_map: Seq<usize>,
    q: Seq<usize>,
    q0: Seq<usize>,
    x: usize,
    kstar: int,
    k: int,
)
    requires
        q == q0.push(x),
        !q0.contains(x),
        0 <= kstar < index_map.len(),
        kstar < values.len(),
        index_map[kstar] == x,
        forall|k1: int, k2: int|
            0 <= k1 < k2 < index_map.len() ==> index_map[k1] != index_map[k2],
        0 <= k <= index_map.len(),
        index_map.len() <= usize::MAX,
    ensures
        k <= kstar ==> positions_of(index_map, q, k) == positions_of(index_map, q0, k),
        k > kstar ==> seq_sum(values, positions_of(index_map, q, k)) == seq_sum(
            values,
            positions_of(index_map, q0, k),
        ) + values[kstar],
    decreases k,
{
    if k > 0 {
        lemma_positions_insert(values, index_map, q, q0, x, kstar, k - 1);
        assert forall|y: usize| #[trigger] q.contains(y) == (q0.contains(y) || y == x) by {
            if q.contains(y) {
                let w = choose|w: int| 0 <= w < q.len() && q[w] == y;
                if w < q0.len() {
                    assert(q0[w] == y);
                    assert(q0.contains(y));
                }
            }
            if q0.contains(y) {
                let w = choose|w: int| 0 <= w < q0.len() && q0[w] == y;
                assert(q[w] == y);
                assert(q.contains(y));
            }
            if y == x {
                assert(q[q.len() - 1] == x);
                assert(q.contains(y));
            }
        }
        let j = k - 1;
        if j == kstar {
            assert(q.contains(index_map[j]));
            assert(!q0.contains(index_map[j]));
            assert(positions_of(index_map, q, j) == positions_of(index_map, q0, j));
            let pq = positions_of(index_map, q, k);
            assert(pq == positions_of(index_map, q, j).push(j as usize));
            assert(pq.drop_last() =~= positions_of(index_map, q, j));
            assert(pq.last() == j as usize);
            assert(seq_sum(values, pq) == seq_sum(values, positions_of(index_map, q, j)) + values[
                j
            ]);
            assert(positions_of(index_map, q0, k) == positions_of(index_map, q0, j));
        } else {
            assert(index_map[j] != x) by {
                if index_map[j] == x {
                    assert(index_map[j] == index_map[kstar]);
                }
            }
            assert(q.contains(index_map[j]) == q0.contains(index_map[j]));
            if q.contains(index_map[j]) {
                let pq = positions_of(index_map, q, k);
                let pq0 = positions_of(index_map, q0, k);
                assert(pq == positions_of(index_map, q, j).push(j as usize));
                assert(pq0 == positions_of(index_map, q0, j).push(j as usize));
                assert(pq.drop_last() =~= positions_of(index_map, q, j));
                assert(pq0.drop_last() =~= positions_of(index_map, q0, j));
                assert(seq_sum(values, pq) == seq_sum(values, positions_of(index_map, q, j))
                    + values[j]);
                assert(seq_sum(values, pq0) == seq_sum(values, positions_of(index_map, q0, j))
                    + values[j]);
            }
        }
    }
}

/// The positions selected for a set of distinct indices carry the same sum
/// and exactly the same mapped indices: the bridge from index space to the
/// sorted position space the search runs in.
proof fn lemma_positions_bridge(
    numbers: Seq<i64>,
    values: Seq<i64>,
    index_map: Seq<usize>,
    q: Seq<usize>,
)
    requires
        permuted_view(numbers, values, index_map),
        index_map.len() <= usize::MAX,
        forall|k: int| 0 <= k < q.len() ==> q[k] < numbers.len(),
        forall|k1: int, k2: int| 0 <= k1 < k2 < q.len() ==> q[k1] != q[k2],
        forall|idx: int| 0 <= idx < numbers.len() ==> #[trigger] index_covered(index_map, idx),
    ensures
        seq_sum(values, positions_of(index_map, q, index_map.len() as int)) == seq_sum(numbers, q),
        same_index_set(
            map_positions(index_map, positions_of(index_map, q, index_map.len() as int)),
            q,
        ),
    decreases q.len(),
{
    let n = index_map.len() as int;
    let ps = positions_of(index_map, q, n);
    lemma_positions_of_props(index_map, q, n);
    // the sum carries over, one appended index at a time
    if q.len() == 0 {
        assert forall|kk: int| 0 <= kk < n implies !q.contains(#[trigger] index_map[kk]) by {
            if q.contains(index_map[kk]) {
                let w = choose|w: int| 0 <= w < q.len() && q[w] == index_map[kk];
            }
        }
        lemma_positions_of_none(index_map, q, n);
    } else {
        let x = q.last();
        let q0 = q.drop_last();
        assert(!q0.contains(x)) by {
            if q0.contains(x) {
                let w = choose|w: int| 0 <= w < q0.len() && q0[w] == x;
                assert(q[w] == x);
                assert(q[w] != q[q.len() - 1]);
            }
        }
        lemma_positions_bridge(numbers, values, index_map, q0);
        assert(x < numbers.len());
        assert(index_covered(index_map, x as int));
        let kstar = choose|k: int|
            0 <= k < index_map.len() && (#[trigger] index_map[k]) == x as int;
        assert(q0.push(x) =~= q);
        lemma_positions_insert(values, index_map, q, q0, x, kstar, n);
        assert(values[kstar] == numbers[index_map[kstar] as int]);
        assert(seq_sum(numbers, q) == seq_sum(numbers, q0) + numbers[x as int]);
    }
    // and the mapped positions carry exactly the indices of q
    let mp = map_positions(index_map, ps);
    assert forall|x: usize| #[trigger] mp.contains(x) implies q.contains(x) by {
        let t = choose|t: int| 0 <= t < mp.len() && mp[t] == x;
        assert(mp[t] == index_map[ps[t] as int]);
        assert(q.contains(index_map[ps[t] as int]));
    }
    assert forall|x: usize| #[trigger] q.contains(x) implies mp.contains(x) by {
        let w0 = choose|w: int| 0 <= w < q.len() && q[w] == x;
        assert(x < numbers.len());
        assert(index_covered(index_map, x as int));
        let kstar = choose|k: int|
            0 <= k < index_map.len() && (#[trigger] index_map[k]) == x as int;
        assert(q.contains(index_map[kstar]));
        assert(ps.contains(kstar as usize));
        let t = choose|t: int| 0 <= t < ps.len() && ps[t] == kstar as usize;
        assert(mp[t] == index_map[kstar]);
        assert(mp.contains(x));
    }
}

/// A choice among the sorted positions `[depth, max_depth)`: strictly
/// increasing positions in that range.
pub open spec fn is_prefix_choice(depth: int, max_depth: int, pp: Seq<usize>) -> bool {
    &&& forall|k: int| 0 <= k < pp.len() ==> depth <= pp[k] && pp[k] < max_depth
    &&& forall|k1: int, k2: int| 0 <= k1 < k2 < pp.len() ==> pp[k1] < pp[k2]
}

/// Some pair of the list carries the original index.
pub open spec fn pair_covered(pairs: Seq<(i64, usize)>, idx: int) -> bool {
    exists|k: int| 0 <= k < pairs.len() && (#[trigger] pairs[k]).1 == idx
}

/// Absolute value, widened so that every `i64` has one.
fn abs_wide(x: i64) -> (r: i128)
    ensures
        r == abs1(x),
{
    if x < 0 {
        -(x as i128)
    } else {
        x as i128
    }
}

/// Pair every element with its index and sort by descending absolute value.
/// The result is a permutation: each original index appears exactly once,
/// paired with its element.
fn sort_by_abs_desc(numbers: &Vec<i64>) -> (r: Vec<(i64, usize)>)
    ensures
        r@.len() == numbers@.len(),
        forall|k: int|
            0 <= k < r@.len() ==> r@[k].1 < numbers@.len() && r@[k].0 == numbers@[r@[k].1 as int],
        forall|k1: int, k2: int| 0 <= k1 < k2 < r@.len() ==> r@[k1].1 != r@[k2].1,
        forall|idx: int| 0 <= idx < numbers@.len() ==> #[trigger] pair_covered(r@, idx),
{
    let n = numbers.len();
    let mut rest: Vec<(i64, usize)> = Vec::new();
    let mut i: usize = 0;
    while i < n
        invariant
            0 <= i <= n,
            n == numbers@.len(),
            rest@.len() == i,
            forall|k: int| 0 <= k < i ==> #[trigger] rest@[k] == (numbers@[k], k as usize),
            forall|idx: int| 0 <= idx < i ==> #[trigger] pair_covered(rest@, idx),
        decreases n - i,
    {
        let element = numbers[i];
        let ghost old_rest = rest@;
        rest.push((element, i));
        proof {
            assert(rest@ == old_rest.push((element, i)));
            assert forall|k: int| 0 <= k < i + 1 implies #[trigger] rest@[k] == (
                numbers@[k],
                k as usize,
            ) by {
                if k < i {
                    assert(rest@[k] == old_rest[k]);
                } else {
                    assert(rest@[k] == (element, i));
                }
            }
            assert forall|idx: int| 0 <= idx < i + 1 implies #[trigger] pair_covered(
                rest@,
                idx,
            ) by {
                assert(rest@[idx].1 == idx);
            }
        }
        i = i + 1;
    }
    let mut sorted: Vec<(i64, usize)> = Vec::new();
    while rest.len() > 0
        invariant
            n == numbers@.len(),
            rest@.len() + sorted@.len() == n,
            forall|k: int|
                0 <= k < rest@.len() ==> rest@[k].1 < n && rest@[k].0 == numbers@[rest@[k].1 as int],
            forall|k: int|
                0 <= k < sorted@.len() ==> sorted@[k].1 < n && sorted@[k].0 == numbers@[sorted@[
                    k
                ].1 as int],
            forall|k1: int, k2: int| 0 <= k1 < k2 < rest@.len() ==> rest@[k1].1 != rest@[k2].1,
            forall|k1: int, k2: int|
                0 <= k1 < k2 < sorted@.len() ==> sorted@[k1].1 != sorted@[k2].1,
            forall|k1: int, k2: int|
                0 <= k1 < sorted@.len() && 0 <= k2 < rest@.len() ==> sorted@[k1].1 != rest@[k2].1,
            forall|idx: int|
                0 <= idx < n ==> pair_covered(rest@, idx) || pair_covered(sorted@, idx),
        decreases rest@.len(),
    {
        let ghost old_rest = rest@;
        let x = rest.pop().unwrap();
        let mut pos: usize = 0;
        while pos < sorted.len() && abs_wide(sorted[pos].0) >= abs_wide(x.0)
            invariant
                0 <= pos <= sorted@.len(),
            decreases sorted@.len() - pos,
        {
            pos = pos + 1;
        }
        let ghost old_sorted = sorted@;
        sorted.insert(pos, x);
        proof {
            assert(sorted@ == old_sorted.insert(pos as int, x));
            assert(forall|k: int| 0 <= k < pos ==> sorted@[k] == old_sorted[k]);
            assert(sorted@[pos as int] == x);
            assert(forall|k: int| pos < k < sorted@.len() ==> sorted@[k] == old_sorted[k - 1]);
            assert forall|idx: int|
                0 <= idx < n implies pair_covered(rest@, idx) || pair_covered(sorted@, idx) by {
                if pair_covered(old_sorted, idx) {
                    let w = choose|w: int|
                        0 <= w < old_sorted.len() && (#[trigger] old_sorted[w]).1 == idx;
                    if w < pos {
                        assert(sorted@[w].1 == idx);
                    } else {
                        assert(sorted@[w + 1].1 == idx);
                    }
                    assert(pair_covered(sorted@, idx));
                } else if pair_covered(old_rest, idx) {
                    let w = choose|w: int|
                        0 <= w < old_rest.len() && (#[trigger] old_rest[w]).1 == idx;
                    if w < old_rest.len() - 1 {
                        assert(rest@[w].1 == idx);
                        assert(pair_covered(rest@, idx));
                    } else {
                        assert(x.1 == idx);
                        assert(sorted@[pos as int].1 == idx);
                        assert(pair_covered(sorted@, idx));
                    }
                }
            }
        }
    }
    sorted
}

/// Enumerate every include/exclude prefix of the sorted positions
/// `[depth, max_depth)` as an independent task, exclude branch first. Each
/// task carries the running sum and the original indices included so far.
/// The first generated task extends the given path by excluding everything.
fn generate_tasks(
    depth: usize,
    max_depth: usize,
    current_sum: i64,
    path: Vec<usize>,
    values: &Vec<i64>,
    index_map: &Vec<usize>,
    tasks: &mut Vec<(i64, Vec<usize>)>,
    Ghost(orig): Ghost<Seq<i64>>,
)
    requires
        depth <= max_depth <= orig.len(),
        permuted_view(orig, values@, index_map@),
        abs_total(orig) <= i64::MAX,
        current_sum as int == seq_sum(orig, path@),
        path_ok(orig, index_map@, depth as int, path@),
    ensures
        final(tasks)@.len() > old(tasks)@.len(),
        forall|j: int| 0 <= j < old(tasks)@.len() ==> final(tasks)@[j] == old(tasks)@[j],
        forall|j: int|
            old(tasks)@.len() <= j < final(tasks)@.len() ==> (final(tasks)@[j].0 as int == seq_sum(
                orig,
                final(tasks)@[j].1@,
            ) && path_ok(orig, index_map@, max_depth as int, final(tasks)@[j].1@)),
        final(tasks)@[old(tasks)@.len() as int].0 == current_sum,
        final(tasks)@[old(tasks)@.len() as int].1@ == path@,
        forall|pp: Seq<usize>|
            #[trigger] is_prefix_choice(depth as int, max_depth as int, pp) ==> exists|j: int|
                old(tasks)@.len() <= j < final(tasks)@.len() && (#[trigger] final(tasks)@[j]).0
                    as int == current_sum + seq_sum(values@, pp) && final(tasks)@[j].1@ == path@
                    + map_positions(index_map@, pp),
    decreases max_depth - depth,
{
    let ghost path_view = path@;
    if depth == max_depth {
        tasks.push((current_sum, path));
        proof {
            assert forall|pp: Seq<usize>|
                #[trigger] is_prefix_choice(depth as int, max_depth as int, pp) implies exists|
                j: int,
            |
                old(tasks)@.len() <= j < tasks@.len() && (#[trigger] tasks@[j]).0 as int
                    == current_sum + seq_sum(values@, pp) && tasks@[j].1@ == path_view
                    + map_positions(index_map@, pp) by {
                assert(pp.len() == 0) by {
                    if pp.len() > 0 {
                        assert(depth <= pp[0] && pp[0] < max_depth);
                    }
                }
                assert(pp =~= Seq::<usize>::empty());
                assert(seq_sum(values@, pp) == 0);
                assert(path_view + map_positions(index_map@, pp) =~= path_view);
                let j = tasks@.len() - 1;
                assert(tasks@[j].0 as int == current_sum + seq_sum(values@, pp));
                assert(tasks@[j].1@ == path_view + map_positions(index_map@, pp));
            }
        }
        return ;
    }
    let path_copy = clone_indices(&path);
    generate_tasks(
        depth + 1,
        max_depth,
        current_sum,
        path_copy,
        values,
        index_map,
        tasks,
        Ghost(orig),
    );
    let idx = index_map[depth];
    let mut with_path = path;
    proof {
        assert(!with_path@.contains(index_map@[depth as int]));
        assert(forall|k: int| 0 <= k < with_path@.len() ==> with_path@[k] != idx) by {
            assert(forall|k: int|
                0 <= k < with_path@.len() && with_path@[k] == idx ==> with_path@.contains(idx));
        }
        assert((with_path@.push(idx)).drop_last() =~= with_path@);
        lemma_seq_sum_bound_distinct(orig, with_path@.push(idx), orig.len() as int);
        lemma_abs_upto_mono(orig, 0, orig.len() as int);
    }
    let new_sum = current_sum + values[depth];
    with_path.push(idx);
    proof {
        assert forall|d: int|
            depth + 1 <= d < index_map@.len() implies !with_path@.contains(index_map@[d]) by {
            let previous = with_path@.drop_last();
            if with_path@.contains(index_map@[d]) {
                let j = choose|j: int|
                    0 <= j < with_path@.len() && with_path@[j] == index_map@[d];
                if j < with_path@.len() - 1 {
                    assert(previous[j] == index_map@[d]);
                    assert(previous.contains(index_map@[d]));
                }
            }
        }
    }
    let ghost mid_tasks = tasks@;
    let ghost inc_path = with_path@;
    generate_tasks(
        depth + 1,
        max_depth,
        new_sum,
        with_path,
        values,
        index_map,
        tasks,
        Ghost(orig),
    );
    proof {
        // every prefix choice either skips this position (covered by the
        // exclude branch, whose tasks the include branch preserved) or takes
        // it first (covered by the include branch)
        assert forall|pp: Seq<usize>|
            #[trigger] is_prefix_choice(depth as int, max_depth as int, pp) implies exists|j: int|
            old(tasks)@.len() <= j < tasks@.len() && (#[trigger] tasks@[j]).0 as int == current_sum
                + seq_sum(values@, pp) && tasks@[j].1@ == path_view + map_positions(
                index_map@,
                pp,
            ) by {
            if pp.len() == 0 || pp[0] > depth {
                assert(is_prefix_choice(depth + 1, max_depth as int, pp));
                let j = choose|j: int|
                    old(tasks)@.len() <= j < mid_tasks.len() && (#[trigger] mid_tasks[j]).0 as int
                        == current_sum + seq_sum(values@, pp) && mid_tasks[j].1@ == path_view
                        + map_positions(index_map@, pp);
                assert(tasks@[j] == mid_tasks[j]);
            } else {
                assert(pp[0] == depth);
                let pptail = pp.subrange(1, pp.len() as int);
                assert(seq![pp[0]] + pptail =~= pp);
                lemma_seq_sum_concat(values@, seq![pp[0]], pptail);
                assert((seq![pp[0]]).drop_last() =~= Seq::<usize>::empty());
                assert(seq_sum(values@, Seq::<usize>::empty()) == 0);
                assert((seq![pp[0]]).last() == pp[0]);
                assert(seq_sum(values@, seq![pp[0]]) == values@[depth as int]);
                assert(is_prefix_choice(depth + 1, max_depth as int, pptail));
                let j = choose|j: int|
                    mid_tasks.len() <= j < tasks@.len() && (#[trigger] tasks@[j]).0 as int
                        == new_sum + seq_sum(values@, pptail) && tasks@[j].1@ == inc_path
                        + map_positions(index_map@, pptail);
                assert(path_view + map_positions(index_map@, pp) =~= inc_path + map_positions(
                    index_map@,
                    pptail,
                ));
                assert(tasks@[j].1@ == path_view + map_positions(index_map@, pp));
            }
        }
    }
}

/// Serial branch-and-bound from sorted position `start_depth`. The running
/// sum is tested against the window first, so a feasible path is recorded at
/// intermediate depths too; then the branch is pruned if no selection of the
/// remaining elements can reach the window. Each remaining position is tried
/// excluded first, then included. A row is recorded whenever some completion
/// of the current path matches; with `find_all` set every matching
/// completion's row is recorded, and with it unset the search stops as soon
/// as one solution is recorded.
fn serial_branch_and_bound(
    start_depth: usize,
    n: usize,
    current_sum: i64,
    current_path: Vec<usize>,
    values: &Vec<i64>,
    index_map: &Vec<usize>,
    target: i64,
    tolerance: i64,
    results: &mut Vec<Vec<usize>>,
    find_all: bool,
    Ghost(orig): Ghost<Seq<i64>>,
)
    requires
        start_depth <= n,
        n == orig.len(),
        permuted_view(orig, values@, index_map@),
        tolerance >= 0,
        abs_total(orig) + abs1(target) + tolerance <= i64::MAX,
        current_sum as int == seq_sum(orig, current_path@),
        path_ok(orig, index_map@, start_depth as int, current_path@),
        forall|j: int|
            0 <= j < old(results)@.len() ==> valid_solution(orig, target, tolerance, old(
                results,
            )@[j]@),
        !find_all ==> old(results)@.len() == 0,
    ensures
        final(results)@.len() >= old(results)@.len(),
        forall|j: int| 0 <= j < old(results)@.len() ==> final(results)@[j] == old(results)@[j],
        forall|j: int|
            0 <= j < final(results)@.len() ==> valid_solution(
                orig,
                target,
                tolerance,
                final(results)@[j]@,
            ),
        !find_all ==> final(results)@.len() <= 1,
        in_window(current_sum as int, target, tolerance) ==> final(results)@.len() > old(
            results,
        )@.len(),
        completion_exists(values@, target, tolerance, current_sum as int, start_depth as int)
            ==> final(results)@.len() > old(results)@.len(),
        find_all ==> forall|d: Seq<usize>|
            is_tail_choice(values@, start_depth as int, d) && in_window(
                current_sum + seq_sum(values@, d),
                target,
                tolerance,
            ) ==> dv_of(final(results)@).contains(
                #[trigger] (current_path@ + map_positions(index_map@, d)),
            ),
    decreases n - start_depth,
{
    proof {
        lemma_abs_upto_mono(orig, 0, orig.len() as int);
    }
    if current_sum >= target - tolerance && current_sum <= target + tolerance {
        let solution = clone_indices(&current_path);
        proof {
            assert(valid_solution(orig, target, tolerance, solution@));
        }
        let ghost pre = results@;
        results.push(solution);
        proof {
            assert(dv_of(results@)[results@.len() - 1] == current_path@);
            assert(current_path@ + map_positions(index_map@, Seq::<usize>::empty())
                =~= current_path@);
            assert(dv_of(results@).contains(current_path@));
        }
        if !find_all {
            return ;
        }
    }
    // the exact range the undecided tail can still add or subtract
    let mut remaining_pos: i64 = 0;
    let mut remaining_neg: i64 = 0;
    let mut k = start_depth;
    let ghost mut posel: Seq<usize> = Seq::empty();
    let ghost mut negel: Seq<usize> = Seq::empty();
    while k < n
        invariant
            start_depth <= k <= n,
            n == values@.len(),
            n == orig.len(),
            permuted_view(orig, values@, index_map@),
            tolerance >= 0,
            abs_total(orig) + abs1(target) + tolerance <= i64::MAX,
            remaining_pos as int == pos_range(values@, start_depth as int, k as int),
            remaining_neg as int == neg_range(values@, start_depth as int, k as int),
            remaining_pos as int == seq_sum(values@, posel),
            remaining_neg as int == seq_sum(values@, negel),
            forall|j: int| 0 <= j < posel.len() ==> start_depth <= posel[j] && posel[j] < k,
            forall|j1: int, j2: int| 0 <= j1 < j2 < posel.len() ==> posel[j1] < posel[j2],
            forall|j: int| 0 <= j < negel.len() ==> start_depth <= negel[j] && negel[j] < k,
            forall|j1: int, j2: int| 0 <= j1 < j2 < negel.len() ==> negel[j1] < negel[j2],
        decreases n - k,
    {
        let v = values[k];
        if v > 0 {
            proof {
                assert((posel.push(k)).drop_last() =~= posel);
                let mapped = map_positions(index_map@, posel.push(k));
                lemma_mapped_sum(orig, values@, index_map@, posel.push(k));
                assert forall|a: int, b: int|
                    0 <= a < b < mapped.len() implies mapped[a] != mapped[b] by {
                    assert(mapped[a] == index_map@[(posel.push(k))[a] as int]);
                    assert(mapped[b] == index_map@[(posel.push(k))[b] as int]);
                }
                assert(forall|a: int|
                    0 <= a < mapped.len() ==> #[trigger] mapped[a] < orig.len());
                lemma_seq_sum_bound_distinct(orig, mapped, orig.len() as int);
            }
            remaining_pos = remaining_pos + v;
            proof {
                posel = posel.push(k);
            }
        } else if v < 0 {
            proof {
                assert((negel.push(k)).drop_last() =~= negel);
                let mapped = map_positions(index_map@, negel.push(k));
                lemma_mapped_sum(orig, values@, index_map@, negel.push(k));
                assert forall|a: int, b: int|
                    0 <= a < b < mapped.len() implies mapped[a] != mapped[b] by {
                    assert(mapped[a] == index_map@[(negel.push(k))[a] as int]);
                    assert(mapped[b] == index_map@[(negel.push(k))[b] as int]);
                }
                assert(forall|a: int|
                    0 <= a < mapped.len() ==> #[trigger] mapped[a] < orig.len());
                lemma_seq_sum_bound_distinct(orig, mapped, orig.len() as int);
            }
            remaining_neg = remaining_neg + v;
            proof {
                negel = negel.push(k);
            }
        }
        k = k + 1;
    }
    // prune: the window is unreachable from this node by any tail choice
    let reach_hi = current_sum as i128 + remaining_pos as i128;
    let reach_lo = current_sum as i128 + remaining_neg as i128;
    if reach_hi < target as i128 - tolerance as i128 || reach_lo > target as i128
        + tolerance as i128 {
        proof {
            assert forall|d: Seq<usize>|
                #[trigger] is_tail_choice(values@, start_depth as int, d) implies !in_window(
                current_sum + seq_sum(values@, d),
                target,
                tolerance,
            ) by {
                lemma_tail_sum_in_range(values@, d, start_depth as int, n as int);
            }
            assert(is_tail_choice(values@, start_depth as int, Seq::<usize>::empty()));
            assert(seq_sum(values@, Seq::<usize>::empty()) == 0);
            assert(!in_window(current_sum as int, target, tolerance));
            assert(!completion_exists(
                values@,
                target,
                tolerance,
                current_sum as int,
                start_depth as int,
            ));
        }
        return ;
    }
    let mut depth = start_depth;
    while depth < n
        invariant
            start_depth <= depth <= n,
            n == orig.len(),
            n == values@.len(),
            permuted_view(orig, values@, index_map@),
            tolerance >= 0,
            abs_total(orig) + abs1(target) + tolerance <= i64::MAX,
            current_sum as int == seq_sum(orig, current_path@),
            path_ok(orig, index_map@, start_depth as int, current_path@),
            results@.len() >= old(results)@.len(),
            forall|j: int| 0 <= j < old(results)@.len() ==> results@[j] == old(results)@[j],
            forall|j: int|
                0 <= j < results@.len() ==> valid_solution(orig, target, tolerance, results@[j]@),
            !find_all ==> results@.len() == 0,
            in_window(current_sum as int, target, tolerance) ==> results@.len() > old(
                results,
            )@.len(),
            results@.len() == old(results)@.len() ==> !in_window(
                current_sum as int,
                target,
                tolerance,
            ) && (forall|d: Seq<usize>|
                is_tail_choice(values@, start_depth as int, d) && d.len() > 0 && d[0] < depth
                    ==> !(#[trigger] in_window(
                    current_sum + seq_sum(values@, d),
                    target,
                    tolerance,
                ))),
            find_all ==> forall|d: Seq<usize>|
                is_tail_choice(values@, start_depth as int, d) && (d.len() == 0 || d[0] < depth)
                    && in_window(current_sum + seq_sum(values@, d), target, tolerance) ==> dv_of(
                    results@,
                ).contains(#[trigger] (current_path@ + map_positions(index_map@, d))),
        decreases n - depth,
    {
        let ghost before_ex = results@;
        let path_copy = clone_indices(&current_path);
        serial_branch_and_bound(
            depth + 1,
            n,
            current_sum,
            path_copy,
            values,
            index_map,
            target,
            tolerance,
            results,
            find_all,
            Ghost(orig),
        );
        if !find_all && results.len() > 0 {
            return ;
        }
        let idx = index_map[depth];
        let mut new_path = clone_indices(&current_path);
        proof {
            assert(!new_path@.contains(index_map@[depth as int]));
            assert(forall|j: int| 0 <= j < new_path@.len() ==> new_path@[j] != idx) by {
                assert(forall|j: int|
                    0 <= j < new_path@.len() && new_path@[j] == idx ==> new_path@.contains(idx));
            }
            assert((new_path@.push(idx)).drop_last() =~= new_path@);
            lemma_seq_sum_bound_distinct(orig, new_path@.push(idx), orig.len() as int);
        }
        let new_sum = current_sum + values[depth];
        new_path.push(idx);
        proof {
            assert forall|d: int|
                depth + 1 <= d < index_map@.len() implies !new_path@.contains(index_map@[d]) by {
                let previous = new_path@.drop_last();
                if new_path@.contains(index_map@[d]) {
                    let j = choose|j: int|
                        0 <= j < new_path@.len() && new_path@[j] == index_map@[d];
                    if j < new_path@.len() - 1 {
                        assert(previous[j] == index_map@[d]);
                        assert(previous.contains(index_map@[d]));
                    }
                }
            }
        }
        let ghost before_inc = results@;
        let ghost inc_path = new_path@;
        serial_branch_and_bound(
            depth + 1,
            n,
            new_sum,
            new_path,
            values,
            index_map,
            target,
            tolerance,
            results,
            find_all,
            Ghost(orig),
        );
        proof {
            // a choice through this position splits into the position itself
            // plus a choice over the later ones
            if find_all {
                assert forall|d: Seq<usize>|
                    is_tail_choice(values@, start_depth as int, d) && (d.len() == 0 || d[0] < depth
                        + 1) && in_window(
                        current_sum + seq_sum(values@, d),
                        target,
                        tolerance,
                    ) implies dv_of(results@).contains(
                    #[trigger] (current_path@ + map_positions(index_map@, d)),
                ) by {
                    if d.len() == 0 || d[0] < depth {
                        assert(dv_of(before_ex).contains(
                            current_path@ + map_positions(index_map@, d),
                        ));
                        assert(forall|j: int|
                            0 <= j < before_ex.len() ==> results@[j] == #[trigger] before_ex[j]);
                        lemma_dv_contains_grow(
                            before_ex,
                            results@,
                            current_path@ + map_positions(index_map@, d),
                        );
                    } else {
                        let dtail = d.subrange(1, d.len() as int);
                        assert(seq![d[0]] + dtail =~= d);
                        lemma_seq_sum_concat(values@, seq![d[0]], dtail);
                        assert((seq![d[0]]).drop_last() =~= Seq::<usize>::empty());
                        assert(seq_sum(values@, Seq::<usize>::empty()) == 0);
                        assert((seq![d[0]]).last() == d[0]);
                        assert(seq_sum(values@, seq![d[0]]) == values@[depth as int]);
                        assert(is_tail_choice(values@, depth + 1, dtail));
                        assert(in_window(new_sum + seq_sum(values@, dtail), target, tolerance));
                        assert(dv_of(results@).contains(
                            inc_path + map_positions(index_map@, dtail),
                        ));
                        assert(current_path@ + map_positions(index_map@, d) =~= inc_path
                            + map_positions(index_map@, dtail));
                    }
                }
            }
            if results@.len() == old(results)@.len() {
                // neither branch recorded anything: no choice deciding this
                // position first can match
                assert(before_ex.len() == old(results)@.len());
                assert(before_inc.len() == old(results)@.len());
                assert(!completion_exists(values@, target, tolerance, new_sum as int, depth + 1));
                assert forall|d: Seq<usize>|
                    is_tail_choice(values@, start_depth as int, d) && d.len() > 0 && d[0] < depth
                        + 1 implies !(#[trigger] in_window(
                    current_sum + seq_sum(values@, d),
                    target,
                    tolerance,
                )) by {
                    if d[0] == depth {
                        let dtail = d.subrange(1, d.len() as int);
                        assert(seq![d[0]] + dtail =~= d);
                        lemma_seq_sum_concat(values@, seq![d[0]], dtail);
                        assert((seq![d[0]]).drop_last() =~= Seq::<usize>::empty());
                        assert(seq_sum(values@, Seq::<usize>::empty()) == 0);
                        assert((seq![d[0]]).last() == d[0]);
                        assert(seq_sum(values@, seq![d[0]]) == values@[depth as int]);
                        assert(is_tail_choice(values@, depth + 1, dtail));
                        if in_window(current_sum + seq_sum(values@, d), target, tolerance) {
                            assert(in_window(
                                new_sum + seq_sum(values@, dtail),
                                target,
                                tolerance,
                            ));
                            assert(completion_exists(
                                values@,
                                target,
                                tolerance,
                                new_sum as int,
                                depth + 1,
                            ));
                        }
                    }
                }
            }
        }
        if !find_all && results.len() > 0 {
            return ;
        }
        depth = depth + 1;
    }
    proof {
        if results@.len() == old(results)@.len() {
            // the whole tail was explored and nothing was recorded, so no
            // choice matches at all
            assert forall|d: Seq<usize>|
                #[trigger] is_tail_choice(values@, start_depth as int, d) implies !in_window(
                current_sum + seq_sum(values@, d),
                target,
                tolerance,
            ) by {
                if d.len() == 0 {
                    assert(seq_sum(values@, d) == 0);
                } else {
                    assert(d[0] < n);
                }
            }
            if completion_exists(values@, target, tolerance, current_sum as int, start_depth as int) {
                let d = choose|d: Seq<usize>|
                    #[trigger] is_tail_choice(values@, start_depth as int, d) && in_window(
                        current_sum + seq_sum(values@, d),
                        target,
                        tolerance,
                    );
                assert(false);
            }
        }
        if find_all {
            assert forall|d: Seq<usize>|
                is_tail_choice(values@, start_depth as int, d) && in_window(
                    current_sum + seq_sum(values@, d),
                    target,
                    tolerance,
                ) implies dv_of(results@).contains(
                #[trigger] (current_path@ + map_positions(index_map@, d)),
            ) by {
                if d.len() > 0 {
                    assert(d[0] < n);
                }
            }
        }
    }
}

/// Branch-and-bound subset-sum search: sort by descending absolute value,
/// pre-split the top min(ceil(n/4), 10) decision levels into independent
/// tasks, search each task serially, and merge. Every returned index set is
/// a valid solution; with `find_all` unset the merged result is truncated to
/// at most one solution, and exactly one is returned precisely when a
/// solution exists; with `find_all` set the result carries every valid index
/// set, in the search's own index order.
#[verifier::rlimit(60)]
pub fn find_subset_sum_branch_bound_raw(
    numbers: &Vec<i64>,
    target: i64,
    tolerance: i64,
    find_all: bool,
) -> (r: Vec<Vec<usize>>)
    requires
        tolerance >= 0,
        abs_total(numbers@) + abs1(target) + tolerance <= i64::MAX,
    ensures
        forall|j: int| 0 <= j < r@.len() ==> valid_solution(numbers@, target, tolerance, r@[j]@),
        !find_all ==> r@.len() <= 1,
        in_window(0, target, tolerance) ==> r@.len() >= 1,
        !find_all ==> (r@.len() == 1 <==> exists|q: Seq<usize>|
            #[trigger] valid_solution(numbers@, target, tolerance, q)),
        find_all ==> forall|q: Seq<usize>|
            #[trigger] valid_solution(numbers@, target, tolerance, q) ==> exists|j: int|
                0 <= j < r@.len() && same_index_set(#[trigger] r@[j]@, q),
{
    let n = numbers.len();
    let sorted_pairs = sort_by_abs_desc(numbers);
    let mut values: Vec<i64> = Vec::new();
    let mut index_map: Vec<usize> = Vec::new();
    let mut k: usize = 0;
    while k < n
        invariant
            0 <= k <= n,
            n == numbers@.len(),
            sorted_pairs@.len() == n,
            forall|j: int|
                0 <= j < n ==> sorted_pairs@[j].1 < n && sorted_pairs@[j].0 == numbers@[
                    sorted_pairs@[j].1 as int
                ],
            forall|j1: int, j2: int| 0 <= j1 < j2 < n ==> sorted_pairs@[j1].1 != sorted_pairs@[j2].1,
            forall|idx: int| 0 <= idx < n ==> #[trigger] pair_covered(sorted_pairs@, idx),
            values@.len() == k,
            index_map@.len() == k,
            forall|j: int| 0 <= j < k ==> values@[j] == sorted_pairs@[j].0,
            forall|j: int| 0 <= j < k ==> index_map@[j] == sorted_pairs@[j].1,
        decreases n - k,
    {
        values.push(sorted_pairs[k].0);
        index_map.push(sorted_pairs[k].1);
        k = k + 1;
    }
    assert(permuted_view(numbers@, values@, index_map@));
    proof {
        // the sort kept every original index, so the permutation is onto
        assert forall|idx: int| 0 <= idx < n implies #[trigger] index_covered(
            index_map@,
            idx,
        ) by {
            assert(pair_covered(sorted_pairs@, idx));
            let w = choose|w: int|
                0 <= w < sorted_pairs@.len() && (#[trigger] sorted_pairs@[w]).1 == idx;
            assert(index_map@[w] == idx);
        }
    }
    let pd0 = n / 4 + if n % 4 == 0 {
        0
    } else {
        1
    };
    let pd1 = if pd0 > 10 {
        10
    } else {
        pd0
    };
    let parallel_depth = if pd1 > n {
        n
    } else {
        pd1
    };
    let mut tasks: Vec<(i64, Vec<usize>)> = Vec::new();
    let empty_path: Vec<usize> = Vec::new();
    let ghost empty_view = empty_path@;
    proof {
        assert(seq_sum(numbers@, empty_path@) == 0);
        lemma_abs_upto_mono(numbers@, 0, numbers@.len() as int);
    }
    generate_tasks(
        0,
        parallel_depth,
        0,
        empty_path,
        &values,
        &index_map,
        &mut tasks,
        Ghost(numbers@),
    );
    let mut results: Vec<Vec<usize>> = Vec::new();
    let mut t: usize = 0;
    while t < tasks.len()
        invariant
            0 <= t <= tasks@.len(),
            tasks@.len() >= 1,
            n == numbers@.len(),
            parallel_depth <= n,
            permuted_view(numbers@, values@, index_map@),
            tolerance >= 0,
            abs_total(numbers@) + abs1(target) + tolerance <= i64::MAX,
            forall|j: int|
                0 <= j < tasks@.len() ==> (tasks@[j].0 as int == seq_sum(numbers@, tasks@[j].1@)
                    && path_ok(numbers@, index_map@, parallel_depth as int, tasks@[j].1@)),
            tasks@[0].0 == 0,
            tasks@[0].1@ == Seq::<usize>::empty(),
            forall|j: int|
                0 <= j < results@.len() ==> valid_solution(numbers@, target, tolerance, results@[j]@),
            in_window(0, target, tolerance) && t > 0 ==> results@.len() >= 1,
            forall|j: int|
                0 <= j < t && completion_exists(
                    values@,
                    target,
                    tolerance,
                    (#[trigger] tasks@[j]).0 as int,
                    parallel_depth as int,
                ) ==> results@.len() >= 1,
            find_all ==> forall|j: int, d: Seq<usize>|
                0 <= j < t && is_tail_choice(values@, parallel_depth as int, d) && in_window(
                    tasks@[j].0 + seq_sum(values@, d),
                    target,
                    tolerance,
                ) ==> dv_of(results@).contains(
                    #[trigger] (tasks@[j].1@ + map_positions(index_map@, d)),
                ),
        decreases tasks@.len() - t,
    {
        let task_sum = tasks[t].0;
        let task_path = clone_indices(&tasks[t].1);
        let mut local: Vec<Vec<usize>> = Vec::new();
        serial_branch_and_bound(
            parallel_depth,
            n,
            task_sum,
            task_path,
            &values,
            &index_map,
            target,
            tolerance,
            &mut local,
            find_all,
            Ghost(numbers@),
        );
        let ghost prev_results = results@;
        let ghost local_view = local@;
        results.append(&mut local);
        proof {
            assert(results@ == prev_results + local_view);
            assert forall|j: int|
                0 <= j < t + 1 && completion_exists(
                    values@,
                    target,
                    tolerance,
                    (#[trigger] tasks@[j]).0 as int,
                    parallel_depth as int,
                ) implies results@.len() >= 1 by {
                if j == t {
                    assert(local_view.len() > 0);
                }
            }
            if find_all {
                assert forall|j: int, d: Seq<usize>|
                    0 <= j < t + 1 && is_tail_choice(values@, parallel_depth as int, d)
                        && in_window(
                        tasks@[j].0 + seq_sum(values@, d),
                        target,
                        tolerance,
                    ) implies dv_of(results@).contains(
                    #[trigger] (tasks@[j].1@ + map_positions(index_map@, d)),
                ) by {
                    if j < t {
                        assert(dv_of(prev_results).contains(
                            tasks@[j].1@ + map_positions(index_map@, d),
                        ));
                        lemma_dv_contains_grow(
                            prev_results,
                            results@,
                            tasks@[j].1@ + map_positions(index_map@, d),
                        );
                    } else {
                        assert(dv_of(local_view).contains(
                            tasks@[t as int].1@ + map_positions(index_map@, d),
                        ));
                        let w = choose|w: int|
                            0 <= w < dv_of(local_view).len() && dv_of(local_view)[w] == tasks@[
                                t as int
                            ].1@ + map_positions(index_map@, d);
                        assert(results@[prev_results.len() + w] == local_view[w]);
                        assert(dv_of(results@)[prev_results.len() + w] == tasks@[t as int].1@
                            + map_positions(index_map@, d));
                    }
                }
            }
        }
        t = t + 1;
    }
    proof {
        // a solution in original-index space corresponds, through the sort's
        // permutation, to a choice of sorted positions: its prefix picks the
        // task, its tail is found by that task's search
        assert forall|q: Seq<usize>|
            #[trigger] valid_solution(numbers@, target, tolerance, q) implies (exists|j: int|
            0 <= j < tasks@.len() && completion_exists(
                values@,
                target,
                tolerance,
                (#[trigger] tasks@[j]).0 as int,
                parallel_depth as int,
            )) && (find_all ==> exists|w: int|
            0 <= w < results@.len() && same_index_set(#[trigger] results@[w]@, q)) by {
            lemma_positions_bridge(numbers@, values@, index_map@, q);
            let nn = index_map@.len() as int;
            let ps = positions_of(index_map@, q, nn);
            lemma_positions_of_props(index_map@, q, nn);
            let c = cnt_below(ps, parallel_depth as int);
            lemma_split_increasing(ps, parallel_depth as int);
            let pp = ps.subrange(0, c);
            let d = ps.subrange(c, ps.len() as int);
            assert(pp + d =~= ps);
            lemma_seq_sum_concat(values@, pp, d);
            assert(is_prefix_choice(0, parallel_depth as int, pp));
            assert(is_tail_choice(values@, parallel_depth as int, d));
            let j = choose|j: int|
                0 <= j < tasks@.len() && (#[trigger] tasks@[j]).0 as int == 0 + seq_sum(
                    values@,
                    pp,
                ) && tasks@[j].1@ == empty_view + map_positions(index_map@, pp);
            assert(tasks@[j].0 + seq_sum(values@, d) == seq_sum(values@, ps));
            assert(seq_sum(values@, ps) == seq_sum(numbers@, q));
            assert(in_window(tasks@[j].0 + seq_sum(values@, d), target, tolerance));
            assert(completion_exists(
                values@,
                target,
                tolerance,
                tasks@[j].0 as int,
                parallel_depth as int,
            ));
            if find_all {
                assert(dv_of(results@).contains(
                    tasks@[j].1@ + map_positions(index_map@, d),
                ));
                let w = choose|w: int|
                    0 <= w < dv_of(results@).len() && dv_of(results@)[w] == tasks@[j].1@
                        + map_positions(index_map@, d);
                assert(tasks@[j].1@ + map_positions(index_map@, d) =~= map_positions(
                    index_map@,
                    ps,
                ));
                assert(same_index_set(results@[w]@, q));
            }
        }
    }
    if !find_all && results.len() > 1 {
        let first = clone_indices(&results[0]);
        let mut single: Vec<Vec<usize>> = Vec::new();
        single.push(first);
        proof {
            assert(single@[0]@ == results@[0]@);
            assert(valid_solution(numbers@, target, tolerance, single@[0]@));
        }
        return single;
    }
    proof {
        if !find_all && results@.len() == 1 {
            assert(valid_solution(numbers@, target, tolerance, results@[0]@));
        }
    }
    results
}

} // verus!
