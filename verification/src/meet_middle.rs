//! Meet-in-the-middle solver: enumerate the subset sums of each half of the
//! input, sort the first half's entries by sum, and pair every second-half
//! subset with the first-half entries whose sum completes it to the match
//! window, found by binary search.

use vstd::prelude::*;

use crate::model::{
    abs1, abs_total, abs_upto, dv_of, in_window, increasing_solution, mask_indices_from,
    mask_sum_from, seq_sum, valid_solution,
};
use crate::model::{cnt_below, lemma_split_increasing};
use crate::model::{
    concat_indices, lemma_abs_upto_mono, lemma_dv_contains_push, lemma_mask_exists_from,
    lemma_mask_indices_from_valid, lemma_seq_sum_bound, lemma_seq_sum_concat,
};
use crate::workers::available_workers;

verus! {

/// A half-enumeration entry: strictly increasing indices drawn from
/// `[lo, hi)`, paired with the sum of the elements they select.
pub open spec fn half_entry_valid(
    numbers: Seq<i64>,
    lo: int,
    hi: int,
    e: (i64, Vec<usize>),
) -> bool {
    &&& forall|k: int| 0 <= k < e.1@.len() ==> lo <= e.1@[k] && e.1@[k] < hi
    &&& forall|k1: int, k2: int| 0 <= k1 < k2 < e.1@.len() ==> e.1@[k1] < e.1@[k2]
    &&& e.0 as int == seq_sum(numbers, e.1@)
}

/// Entries in ascending order of their sum.
pub open spec fn sorted_by_sum(s: Seq<(i64, Vec<usize>)>) -> bool {
    forall|i: int, j: int| 0 <= i < j < s.len() ==> s[i].0 <= s[j].0
}

/// Every pairing of a first-half entry with a second-half mask below `bound`
/// whose sums together land in the window has its combined index set
/// recorded in `results`.
pub open spec fn pairs_emitted(
    numbers: Seq<i64>,
    target: i64,
    tolerance: i64,
    fh: Seq<(i64, Vec<usize>)>,
    mid: int,
    shl: int,
    results: Seq<Vec<usize>>,
    bound: u64,
) -> bool {
    forall|m2: u64, p: int|
        m2 < bound && 0 <= p < fh.len() && in_window(
            fh[p].0 + mask_sum_from(numbers, m2, mid, shl),
            target,
            tolerance,
        ) ==> dv_of(results).contains(#[trigger] (fh[p].1@ + mask_indices_from(m2, mid, shl)))
}

/// What was emitted stays emitted as the result list grows.
proof fn lemma_pairs_emitted_push(
    numbers: Seq<i64>,
    target: i64,
    tolerance: i64,
    fh: Seq<(i64, Vec<usize>)>,
    mid: int,
    shl: int,
    results: Seq<Vec<usize>>,
    x: Vec<usize>,
    bound: u64,
)
    requires
        pairs_emitted(numbers, target, tolerance, fh, mid, shl, results, bound),
    ensures
        pairs_emitted(numbers, target, tolerance, fh, mid, shl, results.push(x), bound),
{
    assert forall|m2: u64, p: int|
        m2 < bound && 0 <= p < fh.len() && in_window(
            fh[p].0 + mask_sum_from(numbers, m2, mid, shl),
            target,
            tolerance,
        ) implies dv_of(results.push(x)).contains(
        #[trigger] (fh[p].1@ + mask_indices_from(m2, mid, shl)),
    ) by {
        assert(dv_of(results).contains(fh[p].1@ + mask_indices_from(m2, mid, shl)));
        lemma_dv_contains_push(results, x, fh[p].1@ + mask_indices_from(m2, mid, shl));
    }
}

/// No pairing of a first-half entry with a second-half mask below `bound`
/// lands in the window: the search found nothing because nothing exists.
pub open spec fn no_window_pairs(
    numbers: Seq<i64>,
    target: i64,
    tolerance: i64,
    fh: Seq<(i64, Vec<usize>)>,
    mid: int,
    shl: int,
    bound: u64,
) -> bool {
    forall|m2: u64, p: int|
        m2 < bound && 0 <= p < fh.len() ==> !(#[trigger] in_window(
            fh[p].0 + mask_sum_from(numbers, m2, mid, shl),
            target,
            tolerance,
        ))
}

/// Split a solution at `mid` into the first-half entry and the second-half
/// mask that together produce it: the witness for both completeness and the
/// found-iff-exists argument.
proof fn lemma_decompose_solution(
    numbers: Seq<i64>,
    target: i64,
    tolerance: i64,
    fu: Seq<(i64, Vec<usize>)>,
    fh: Seq<(i64, Vec<usize>)>,
    mid: int,
    shl: int,
    q: Seq<usize>,
) -> (wit: (u64, int))
    requires
        0 <= mid <= 63,
        0 <= shl <= 63,
        mid + shl == numbers.len(),
        fu.len() == 1u64 << (mid as u64),
        forall|m: int|
            0 <= m < fu.len() ==> (#[trigger] fu[m]).0 as int == mask_sum_from(
                numbers,
                m as u64,
                0,
                mid,
            ) && fu[m].1@ == mask_indices_from(m as u64, 0, mid),
        forall|e: (i64, Vec<usize>)| #[trigger] fu.contains(e) ==> fh.contains(e),
        increasing_solution(numbers, target, tolerance, q),
    ensures
        0 <= wit.1 < fh.len(),
        wit.0 < (1u64 << (shl as u64)),
        in_window(fh[wit.1].0 + mask_sum_from(numbers, wit.0, mid, shl), target, tolerance),
        fh[wit.1].1@ + mask_indices_from(wit.0, mid, shl) == q,
{
    let c = cnt_below(q, mid);
    lemma_split_increasing(q, mid);
    let q1 = q.subrange(0, c);
    let q2 = q.subrange(c, q.len() as int);
    assert(q1 + q2 =~= q);
    lemma_seq_sum_concat(numbers, q1, q2);
    // the first-half part is one of the enumerated entries
    lemma_mask_exists_from(q1, 0, mid);
    let m1 = choose|m1: u64|
        m1 < (1u64 << (mid as u64)) && #[trigger] mask_indices_from(m1, 0, mid) == q1;
    assert(0 <= m1 < fu.len());
    assert(fu[m1 as int].1@ == q1);
    lemma_mask_indices_from_valid(numbers, m1, 0, mid);
    assert(fu[m1 as int].0 as int == seq_sum(numbers, q1));
    assert(fu.contains(fu[m1 as int]));
    assert(fh.contains(fu[m1 as int]));
    let p = choose|p: int| 0 <= p < fh.len() && fh[p] == fu[m1 as int];
    // the second-half part is reached by one of the masks
    lemma_mask_exists_from(q2, mid, shl);
    let m2 = choose|m2: u64|
        m2 < (1u64 << (shl as u64)) && #[trigger] mask_indices_from(m2, mid, shl) == q2;
    lemma_mask_indices_from_valid(numbers, m2, mid, shl);
    assert(mask_sum_from(numbers, m2, mid, shl) == seq_sum(numbers, q2));
    assert(in_window(fh[p].0 + mask_sum_from(numbers, m2, mid, shl), target, tolerance));
    assert(fh[p].1@ + mask_indices_from(m2, mid, shl) =~= q);
    (m2, p)
}

/// The subset of `[lo, hi)` selected by the low bits of `mask`: bit `i` of
/// `mask` selects position `lo + i`. Returns the subset's sum and its
/// indices in ascending order.
fn subset_of_mask(numbers: &Vec<i64>, lo: usize, hi: usize, mask: u64) -> (r: (i64, Vec<usize>))
    requires
        lo <= hi <= numbers@.len(),
        hi - lo <= 63,
        abs_total(numbers@) <= i64::MAX,
    ensures
        half_entry_valid(numbers@, lo as int, hi as int, r),
        r.0 as int == mask_sum_from(numbers@, mask, lo as int, hi - lo),
        r.1@ == mask_indices_from(mask, lo as int, hi - lo),
{
    let len = hi - lo;
    let mut subset_sum: i64 = 0;
    let mut indices: Vec<usize> = Vec::new();
    let mut i: usize = 0;
    proof {
        assert(indices@ =~= mask_indices_from(mask, lo as int, 0));
    }
    while i < len
        invariant
            0 <= i <= len,
            len == hi - lo,
            lo <= hi <= numbers@.len(),
            len <= 63,
            abs_total(numbers@) <= i64::MAX,
            subset_sum as int == seq_sum(numbers@, indices@),
            subset_sum as int == mask_sum_from(numbers@, mask, lo as int, i as int),
            indices@ == mask_indices_from(mask, lo as int, i as int),
            forall|k: int| 0 <= k < indices@.len() ==> lo <= indices@[k] && indices@[k] < lo + i,
            forall|k1: int, k2: int|
                0 <= k1 < k2 < indices@.len() ==> indices@[k1] < indices@[k2],
            abs_upto(numbers@, lo as int) - abs_upto(numbers@, lo + i) <= subset_sum as int
                <= abs_upto(numbers@, lo + i) - abs_upto(numbers@, lo as int),
        decreases len - i,
    {
        if (mask & (1u64 << (i as u64))) != 0 {
            let idx = lo + i;
            proof {
                assert(crate::model::mask_bit(mask, i as int));
                assert((indices@.push(idx)).drop_last() =~= indices@);
                assert(abs_upto(numbers@, lo + i + 1) == abs_upto(numbers@, lo + i) + abs1(
                    numbers@[lo + i],
                ));
                lemma_abs_upto_mono(numbers@, 0, lo as int);
                lemma_abs_upto_mono(numbers@, lo + i + 1, numbers@.len() as int);
            }
            subset_sum = subset_sum + numbers[idx];
            indices.push(idx);
        } else {
            proof {
                assert(!crate::model::mask_bit(mask, i as int));
                lemma_abs_upto_mono(numbers@, lo + i, lo + i + 1);
            }
        }
        i = i + 1;
    }
    (subset_sum, indices)
}

/// All 2^(hi-lo) subsets of positions `[lo, hi)`, each with its sum: the
/// entry at position `m` is the subset selected by mask `m`.
fn enumerate_half(numbers: &Vec<i64>, lo: usize, hi: usize) -> (r: Vec<(i64, Vec<usize>)>)
    requires
        lo <= hi <= numbers@.len(),
        hi - lo <= 63,
        abs_total(numbers@) <= i64::MAX,
    ensures
        forall|j: int|
            0 <= j < r@.len() ==> half_entry_valid(numbers@, lo as int, hi as int, r@[j]),
        r@.len() == 1u64 << ((hi - lo) as u64),
        forall|m: int|
            0 <= m < r@.len() ==> (#[trigger] r@[m]).0 as int == mask_sum_from(
                numbers@,
                m as u64,
                lo as int,
                hi - lo,
            ) && r@[m].1@ == mask_indices_from(m as u64, lo as int, hi - lo),
{
    let count: u64 = 1u64 << ((hi - lo) as u64);
    let mut r: Vec<(i64, Vec<usize>)> = Vec::new();
    let mut mask: u64 = 0;
    while mask < count
        invariant
            lo <= hi <= numbers@.len(),
            hi - lo <= 63,
            abs_total(numbers@) <= i64::MAX,
            count == 1u64 << ((hi - lo) as u64),
            0 <= mask <= count,
            r@.len() == mask,
            forall|j: int|
                0 <= j < r@.len() ==> half_entry_valid(numbers@, lo as int, hi as int, r@[j]),
            forall|m: int|
                0 <= m < r@.len() ==> (#[trigger] r@[m]).0 as int == mask_sum_from(
                    numbers@,
                    m as u64,
                    lo as int,
                    hi - lo,
                ) && r@[m].1@ == mask_indices_from(m as u64, lo as int, hi - lo),
        decreases count - mask,
    {
        let e = subset_of_mask(numbers, lo, hi, mask);
        r.push(e);
        mask = mask + 1;
    }
    r
}

/// Insertion sort of half-enumeration entries by ascending sum. Each entry
/// of the result satisfies the same validity predicate as the input, and
/// every input entry occurs in the result.
fn sort_pairs_by_sum(
    numbers: &Vec<i64>,
    hi_bound: usize,
    pairs: Vec<(i64, Vec<usize>)>,
) -> (r: Vec<(i64, Vec<usize>)>)
    requires
        forall|j: int|
            0 <= j < pairs@.len() ==> half_entry_valid(numbers@, 0, hi_bound as int, pairs@[j]),
    ensures
        forall|j: int|
            0 <= j < r@.len() ==> half_entry_valid(numbers@, 0, hi_bound as int, r@[j]),
        sorted_by_sum(r@),
        forall|e: (i64, Vec<usize>)| #[trigger] pairs@.contains(e) ==> r@.contains(e),
{
    let ghost original = pairs@;
    let mut rest = pairs;
    let mut sorted: Vec<(i64, Vec<usize>)> = Vec::new();
    while rest.len() > 0
        invariant
            original == pairs@,
            forall|j: int|
                0 <= j < rest@.len() ==> half_entry_valid(numbers@, 0, hi_bound as int, rest@[j]),
            forall|j: int|
                0 <= j < sorted@.len() ==> half_entry_valid(
                    numbers@,
                    0,
                    hi_bound as int,
                    sorted@[j],
                ),
            sorted_by_sum(sorted@),
            forall|e: (i64, Vec<usize>)|
                #[trigger] original.contains(e) ==> rest@.contains(e) || sorted@.contains(e),
        decreases rest@.len(),
    {
        let ghost old_rest = rest@;
        let x = rest.pop().unwrap();
        proof {
            assert(x == old_rest[old_rest.len() - 1]);
        }
        let mut pos: usize = 0;
        while pos < sorted.len() && sorted[pos].0 <= x.0
            invariant
                0 <= pos <= sorted@.len(),
                forall|k: int| 0 <= k < pos ==> sorted@[k].0 <= x.0,
            decreases sorted@.len() - pos,
        {
            pos = pos + 1;
        }
        let ghost old_sorted = sorted@;
        sorted.insert(pos, x);
        proof {
            assert(sorted@ == old_sorted.insert(pos as int, x));
            assert(forall|k: int| 0 <= k < pos ==> sorted@[k] == old_sorted[k]);
            assert(sorted@[pos as int] == x);
            assert(forall|k: int| pos < k < sorted@.len() ==> sorted@[k] == old_sorted[k - 1]);
            assert forall|i: int, j: int| 0 <= i < j < sorted@.len() implies sorted@[i].0
                <= sorted@[j].0 by {
                if i < pos && j == pos {
                    assert(sorted@[i].0 <= x.0);
                } else if i == pos && j > pos {
                    assert(old_sorted[j - 1].0 >= x.0);
                }
            }
            assert forall|e: (i64, Vec<usize>)|
                #[trigger] original.contains(e) implies rest@.contains(e) || sorted@.contains(
                e,
            ) by {
                if old_sorted.contains(e) {
                    let w = choose|w: int| 0 <= w < old_sorted.len() && old_sorted[w] == e;
                    if w < pos {
                        assert(sorted@[w] == e);
                    } else {
                        assert(sorted@[w + 1] == e);
                    }
                    assert(sorted@.contains(e));
                } else if old_rest.contains(e) {
                    let w = choose|w: int| 0 <= w < old_rest.len() && old_rest[w] == e;
                    if w < old_rest.len() - 1 {
                        assert(rest@[w] == e);
                        assert(rest@.contains(e));
                    } else {
                        assert(e == x);
                        assert(sorted@[pos as int] == e);
                        assert(sorted@.contains(e));
                    }
                }
            }
        }
    }
    sorted
}

/// Position of the first entry whose sum is at least `bound`: every entry
/// before it is below `bound`, every entry from it on is at least `bound`.
fn binary_search_lower_bound(arr: &Vec<(i64, Vec<usize>)>, bound: i64) -> (r: usize)
    requires
        sorted_by_sum(arr@),
    ensures
        r <= arr@.len(),
        forall|k: int| 0 <= k < r ==> arr@[k].0 < bound,
        forall|k: int| r <= k < arr@.len() ==> arr@[k].0 >= bound,
{
    let mut left: usize = 0;
    let mut right: usize = arr.len();
    while left < right
        invariant
            0 <= left <= right <= arr@.len(),
            sorted_by_sum(arr@),
            forall|k: int| 0 <= k < left ==> arr@[k].0 < bound,
            forall|k: int| right <= k < arr@.len() ==> arr@[k].0 >= bound,
        decreases right - left,
    {
        let mid = left + (right - left) / 2;
        if arr[mid].0 < bound {
            left = mid + 1;
        } else {
            right = mid;
        }
    }
    left
}

/// Meet-in-the-middle subset-sum search. The input is split at `n / 2`; all
/// first-half subset sums are enumerated and sorted, then every second-half
/// subset (partitioned into per-worker mask blocks) is completed through a
/// binary-searched window of first-half sums. Every returned index set is a
/// valid solution; with `find_all` unset at most the first match is kept,
/// and on two or more elements exactly one is returned precisely when a
/// solution exists; with `find_all` set the result holds every strictly
/// increasing solution. An empty input yields no solution; a single-element
/// input tests that one element directly against the match window.
pub fn find_subset_sum_meet_middle_raw(
    numbers: &Vec<i64>,
    target: i64,
    tolerance: i64,
    find_all: bool,
) -> (r: Vec<Vec<usize>>)
    requires
        tolerance >= 0,
        abs_total(numbers@) + abs1(target) + tolerance <= i64::MAX,
        numbers@.len() <= 126,
    ensures
        forall|j: int| 0 <= j < r@.len() ==> valid_solution(numbers@, target, tolerance, r@[j]@),
        forall|j: int|
            0 <= j < r@.len() ==> increasing_solution(numbers@, target, tolerance, r@[j]@),
        !find_all ==> r@.len() <= 1,
        numbers@.len() == 0 ==> r@.len() == 0,
        numbers@.len() == 1 ==> dv_of(r@) == (if in_window(numbers@[0] as int, target, tolerance) {
            seq![seq![0usize]]
        } else {
            Seq::<Seq<usize>>::empty()
        }),
        find_all && numbers@.len() >= 2 ==> forall|q: Seq<usize>|
            increasing_solution(numbers@, target, tolerance, q) ==> #[trigger] dv_of(
                r@,
            ).contains(q),
        !find_all && numbers@.len() >= 2 ==> (r@.len() == 1 <==> exists|q: Seq<usize>|
            #[trigger] increasing_solution(numbers@, target, tolerance, q)),
{
    let n = numbers.len();
    let mut results: Vec<Vec<usize>> = Vec::new();
    proof {
        lemma_abs_upto_mono(numbers@, 0, numbers@.len() as int);
        assert(dv_of(results@) =~= Seq::<Seq<usize>>::empty());
    }
    if n == 0 {
        return results;
    }
    if n == 1 {
        proof {
            assert(abs_upto(numbers@, 1) == abs1(numbers@[0]));
        }
        if numbers[0] >= target - tolerance && numbers[0] <= target + tolerance {
            let mut only: Vec<usize> = Vec::new();
            only.push(0);
            proof {
                assert(only@.drop_last() =~= Seq::<usize>::empty());
                assert(seq_sum(numbers@, Seq::<usize>::empty()) == 0);
                assert(seq_sum(numbers@, only@) == numbers@[0]);
                assert(valid_solution(numbers@, target, tolerance, only@));
                assert(increasing_solution(numbers@, target, tolerance, only@));
            }
            let ghost only_view = only@;
            results.push(only);
            proof {
                assert(only_view =~= seq![0usize]);
                assert(dv_of(results@) =~= seq![seq![0usize]]);
            }
        }
        return results;
    }
    let mid = n / 2;
    let first_unsorted = enumerate_half(numbers, 0, mid);
    let ghost fu = first_unsorted@;
    let first_half = sort_pairs_by_sum(numbers, mid, first_unsorted);
    let second_half_len = n - mid;
    let ghost shl = second_half_len as int;
    let max_second: u64 = 1u64 << (second_half_len as u64);
    proof {
        let s = second_half_len as u64;
        assert((1u64 << s) <= 0x8000000000000000) by (bit_vector)
            requires
                s <= 63;
    }
    let w0 = available_workers();
    let workers: u64 = if w0 > 1048576 {
        1048576u64
    } else {
        w0 as u64
    };
    let block_size: u64 = max_second / workers + 1;
    let mut start: u64 = 0;
    while start < max_second && (find_all || results.len() == 0)
        invariant
            0 <= start <= max_second,
            block_size >= 1,
            mid == n as int / 2,
            2 <= n == numbers@.len() <= 126,
            second_half_len == n - mid,
            shl == second_half_len as int,
            tolerance >= 0,
            abs_total(numbers@) + abs1(target) + tolerance <= i64::MAX,
            sorted_by_sum(first_half@),
            forall|j: int|
                0 <= j < first_half@.len() ==> half_entry_valid(
                    numbers@,
                    0,
                    mid as int,
                    first_half@[j],
                ),
            forall|j: int|
                0 <= j < results@.len() ==> valid_solution(numbers@, target, tolerance, results@[j]@),
            forall|j: int|
                0 <= j < results@.len() ==> increasing_solution(
                    numbers@,
                    target,
                    tolerance,
                    results@[j]@,
                ),
            !find_all ==> results@.len() <= 1,
            find_all ==> pairs_emitted(
                numbers@,
                target,
                tolerance,
                first_half@,
                mid as int,
                shl,
                results@,
                start,
            ),
            !find_all && results@.len() == 0 ==> no_window_pairs(
                numbers@,
                target,
                tolerance,
                first_half@,
                mid as int,
                shl,
                start,
            ),
        decreases max_second - start,
    {
        let end = if max_second - start > block_size {
            start + block_size
        } else {
            max_second
        };
        let mut mask: u64 = start;
        while mask < end && (find_all || results.len() == 0)
            invariant
                start <= mask <= end <= max_second,
                mid == n as int / 2,
                2 <= n == numbers@.len() <= 126,
                second_half_len == n - mid,
                shl == second_half_len as int,
                tolerance >= 0,
                abs_total(numbers@) + abs1(target) + tolerance <= i64::MAX,
                sorted_by_sum(first_half@),
                forall|j: int|
                    0 <= j < first_half@.len() ==> half_entry_valid(
                        numbers@,
                        0,
                        mid as int,
                        first_half@[j],
                    ),
                forall|j: int|
                    0 <= j < results@.len() ==> valid_solution(
                        numbers@,
                        target,
                        tolerance,
                        results@[j]@,
                    ),
                forall|j: int|
                    0 <= j < results@.len() ==> increasing_solution(
                        numbers@,
                        target,
                        tolerance,
                        results@[j]@,
                    ),
                !find_all ==> results@.len() <= 1,
                find_all ==> pairs_emitted(
                    numbers@,
                    target,
                    tolerance,
                    first_half@,
                    mid as int,
                    shl,
                    results@,
                    mask,
                ),
                !find_all && results@.len() == 0 ==> no_window_pairs(
                    numbers@,
                    target,
                    tolerance,
                    first_half@,
                    mid as int,
                    shl,
                    mask,
                ),
            decreases end - mask,
        {
            let sm = subset_of_mask(numbers, mid, n, mask);
            let second_sum = sm.0;
            let second_indices = sm.1;
            proof {
                lemma_seq_sum_bound(numbers@, second_indices@, n as int);
            }
            let target_sum = target - second_sum;
            let lower = target_sum - tolerance;
            let upper = target_sum + tolerance;
            let start_pos = binary_search_lower_bound(&first_half, lower);
            let mut i: usize = start_pos;
            while i < first_half.len()
                invariant_except_break
                    !find_all ==> results@.len() == 0,
                invariant
                    start_pos <= i <= first_half@.len(),
                    !find_all ==> i == start_pos,
                    tolerance >= 0,
                    abs_total(numbers@) + abs1(target) + tolerance <= i64::MAX,
                    2 <= n == numbers@.len() <= 126,
                    mid == n as int / 2,
                    second_half_len == n - mid,
                    shl == second_half_len as int,
                    lower == target - second_sum - tolerance,
                    upper == target - second_sum + tolerance,
                    second_sum as int == seq_sum(numbers@, second_indices@),
                    second_sum as int == mask_sum_from(numbers@, mask, mid as int, shl),
                    second_indices@ == mask_indices_from(mask, mid as int, shl),
                    forall|k: int|
                        0 <= k < second_indices@.len() ==> mid <= second_indices@[k]
                            && second_indices@[k] < n,
                    forall|k1: int, k2: int|
                        0 <= k1 < k2 < second_indices@.len() ==> second_indices@[k1]
                            < second_indices@[k2],
                    sorted_by_sum(first_half@),
                    forall|k: int| 0 <= k < start_pos ==> first_half@[k].0 < lower,
                    forall|k: int| start_pos <= k < first_half@.len() ==> first_half@[k].0 >= lower,
                    forall|j: int|
                        0 <= j < first_half@.len() ==> half_entry_valid(
                            numbers@,
                            0,
                            mid as int,
                            first_half@[j],
                        ),
                    forall|j: int|
                        0 <= j < results@.len() ==> valid_solution(
                            numbers@,
                            target,
                            tolerance,
                            results@[j]@,
                        ),
                    forall|j: int|
                        0 <= j < results@.len() ==> increasing_solution(
                            numbers@,
                            target,
                            tolerance,
                            results@[j]@,
                        ),
                    !find_all ==> results@.len() <= 1,
                    find_all ==> pairs_emitted(
                        numbers@,
                        target,
                        tolerance,
                        first_half@,
                        mid as int,
                        shl,
                        results@,
                        mask,
                    ),
                    find_all ==> forall|p: int|
                        0 <= p < i && lower <= first_half@[p].0 <= upper ==> dv_of(
                            results@,
                        ).contains(#[trigger] (first_half@[p].1@ + mask_indices_from(
                            mask,
                            mid as int,
                            shl,
                        ))),
                ensures
                    forall|j: int|
                        0 <= j < results@.len() ==> valid_solution(
                            numbers@,
                            target,
                            tolerance,
                            results@[j]@,
                        ),
                    forall|j: int|
                        0 <= j < results@.len() ==> increasing_solution(
                            numbers@,
                            target,
                            tolerance,
                            results@[j]@,
                        ),
                    !find_all ==> results@.len() <= 1,
                    find_all ==> pairs_emitted(
                        numbers@,
                        target,
                        tolerance,
                        first_half@,
                        mid as int,
                        shl,
                        results@,
                        mask,
                    ),
                    find_all ==> forall|p: int|
                        0 <= p < first_half@.len() && lower <= first_half@[p].0 <= upper ==> dv_of(
                            results@,
                        ).contains(#[trigger] (first_half@[p].1@ + mask_indices_from(
                            mask,
                            mid as int,
                            shl,
                        ))),
                    !find_all && results@.len() == 0 ==> forall|p: int|
                        0 <= p < first_half@.len() ==> !(lower <= first_half@[p].0
                            && first_half@[p].0 <= upper),
                decreases first_half@.len() - i,
            {
                if first_half[i].0 > upper {
                    proof {
                        if !find_all && results@.len() == 0 {
                            // sorted: everything from here on exceeds the
                            // window, everything before the search start is
                            // below it
                            assert forall|p: int|
                                0 <= p < first_half@.len() implies !(lower <= first_half@[p].0
                                && first_half@[p].0 <= upper) by {
                                if p >= i {
                                    assert(first_half@[i as int].0 <= first_half@[p].0);
                                }
                            }
                        }
                        if find_all {
                            // the array is sorted, so nothing at or past this
                            // position can still be in the window
                            assert forall|p: int|
                                0 <= p < first_half@.len() && lower <= first_half@[p].0
                                    <= upper implies dv_of(results@).contains(
                                #[trigger] (first_half@[p].1@ + mask_indices_from(
                                    mask,
                                    mid as int,
                                    shl,
                                )),
                            ) by {
                                if p >= i {
                                    assert(first_half@[i as int].0 <= first_half@[p].0);
                                }
                            }
                        }
                    }
                    break ;
                }
                let combined = concat_indices(&first_half[i].1, &second_indices);
                proof {
                    let e = first_half@[i as int];
                    lemma_seq_sum_concat(numbers@, e.1@, second_indices@);
                    assert(e.0 >= lower && e.0 <= upper);
                    assert(in_window(seq_sum(numbers@, combined@), target, tolerance));
                    assert forall|k1: int, k2: int|
                        0 <= k1 < k2 < combined@.len() implies combined@[k1] < combined@[k2] by {
                        if k1 < e.1@.len() && k2 >= e.1@.len() {
                            assert(combined@[k1] < mid);
                            assert(combined@[k2] >= mid);
                        }
                    }
                    assert(valid_solution(numbers@, target, tolerance, combined@));
                    assert(increasing_solution(numbers@, target, tolerance, combined@));
                }
                let ghost pre_results = results@;
                let ghost combined_view = combined@;
                results.push(combined);
                proof {
                    if find_all {
                        lemma_pairs_emitted_push(
                            numbers@,
                            target,
                            tolerance,
                            first_half@,
                            mid as int,
                            shl,
                            pre_results,
                            results@[results@.len() - 1],
                            mask,
                        );
                        assert(results@ == pre_results.push(results@[results@.len() - 1]));
                        assert(dv_of(results@)[results@.len() - 1] == combined_view);
                        assert forall|p: int|
                            0 <= p < i + 1 && lower <= first_half@[p].0 <= upper implies dv_of(
                            results@,
                        ).contains(#[trigger] (first_half@[p].1@ + mask_indices_from(
                            mask,
                            mid as int,
                            shl,
                        ))) by {
                            if p < i {
                                assert(dv_of(pre_results).contains(
                                    first_half@[p].1@ + mask_indices_from(mask, mid as int, shl),
                                ));
                                lemma_dv_contains_push(
                                    pre_results,
                                    results@[results@.len() - 1],
                                    first_half@[p].1@ + mask_indices_from(mask, mid as int, shl),
                                );
                            } else {
                                assert(combined_view == first_half@[p].1@ + mask_indices_from(
                                    mask,
                                    mid as int,
                                    shl,
                                ));
                                assert(dv_of(results@).contains(combined_view));
                            }
                        }
                    }
                }
                if !find_all {
                    break ;
                }
                i = i + 1;
            }
            proof {
                if find_all {
                    // every window pairing for this mask is now recorded
                    assert forall|m2: u64, p: int|
                        m2 < mask + 1 && 0 <= p < first_half@.len() && in_window(
                            first_half@[p].0 + mask_sum_from(numbers@, m2, mid as int, shl),
                            target,
                            tolerance,
                        ) implies dv_of(results@).contains(
                        #[trigger] (first_half@[p].1@ + mask_indices_from(m2, mid as int, shl)),
                    ) by {
                        if m2 == mask {
                            assert(lower <= first_half@[p].0 <= upper);
                        }
                    }
                }
                if !find_all && results@.len() == 0 {
                    // nothing found for this mask either
                    assert forall|m2: u64, p: int|
                        m2 < mask + 1 && 0 <= p < first_half@.len() implies !(#[trigger] in_window(
                        first_half@[p].0 + mask_sum_from(numbers@, m2, mid as int, shl),
                        target,
                        tolerance,
                    )) by {
                        if m2 == mask {
                            assert(!(lower <= first_half@[p].0 && first_half@[p].0 <= upper));
                        }
                    }
                }
            }
            mask = mask + 1;
        }
        start = end;
    }
    proof {
        assert(1u64 << (shl as u64) == max_second);
        if find_all && n >= 2 {
            assert(start == max_second);
            assert forall|q: Seq<usize>|
                increasing_solution(numbers@, target, tolerance, q) implies #[trigger] dv_of(
                results@,
            ).contains(q) by {
                let wit = lemma_decompose_solution(
                    numbers@,
                    target,
                    tolerance,
                    fu,
                    first_half@,
                    mid as int,
                    shl,
                    q,
                );
                assert(wit.0 < max_second);
                assert(dv_of(results@).contains(
                    first_half@[wit.1].1@ + mask_indices_from(wit.0, mid as int, shl),
                ));
            }
        }
        if !find_all && n >= 2 {
            if results@.len() == 1 {
                assert(increasing_solution(numbers@, target, tolerance, results@[0]@));
            }
            if exists|q: Seq<usize>| #[trigger] increasing_solution(numbers@, target, tolerance, q) {
                let q = choose|q: Seq<usize>|
                    #[trigger] increasing_solution(numbers@, target, tolerance, q);
                if results@.len() == 0 {
                    // the search ran to completion and found nothing, yet a
                    // solution decomposes into a pairing it must have seen
                    assert(start == max_second);
                    let wit = lemma_decompose_solution(
                        numbers@,
                        target,
                        tolerance,
                        fu,
                        first_half@,
                        mid as int,
                        shl,
                        q,
                    );
                    assert(wit.0 < max_second);
                    assert(in_window(
                        first_half@[wit.1].0 + mask_sum_from(numbers@, wit.0, mid as int, shl),
                        target,
                        tolerance,
                    ));
                    assert(false);
                }
                assert(results@.len() == 1);
            }
        }
    }
    results
}

} // verus!
