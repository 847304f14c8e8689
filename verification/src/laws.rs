//! Cross-algorithm laws: the exhaustive bit enumeration finds every
//! strictly increasing solution, and on inputs it covers fully it returns
//! exactly the same index sets as the dynamic-programming solver.

use vstd::prelude::*;

use crate::bit_enum::{bit_enum_expected, lemma_bit_matches_has, mask_count};
use crate::model::{
    bit_matches, increasing_solution, kbits, lemma_mask_exists, lemma_mask_indices_valid,
    mask_indices_upto, mask_matches, mask_sum_upto, same_index_set, seq_sum, valid_solution,
};
use crate::model::{lemma_increasing_reorder, lemma_seq_sum_same_elements};

verus! {

/// Every entry of `bit_matches` is a solution in strictly increasing index
/// order.
pub proof fn lemma_bit_matches_increasing(
    numbers: Seq<i64>,
    target: i64,
    tolerance: i64,
    lo: u64,
    hi: u64,
    k: int,
)
    requires
        0 <= k <= numbers.len(),
        k <= usize::MAX,
    ensures
        forall|j: int|
            #![trigger bit_matches(numbers, target, tolerance, lo, hi, k)[j]]
            0 <= j < bit_matches(numbers, target, tolerance, lo, hi, k).len()
                ==> increasing_solution(
                numbers,
                target,
                tolerance,
                bit_matches(numbers, target, tolerance, lo, hi, k)[j],
            ),
    decreases hi - lo,
{
    if hi > lo {
        lemma_bit_matches_increasing(numbers, target, tolerance, lo, (hi - 1) as u64, k);
        let prev = bit_matches(numbers, target, tolerance, lo, (hi - 1) as u64, k);
        let cur = bit_matches(numbers, target, tolerance, lo, hi, k);
        assert forall|j: int|
            0 <= j < cur.len() implies increasing_solution(
            numbers,
            target,
            tolerance,
            #[trigger] cur[j],
        ) by {
            if j < prev.len() {
                assert(cur[j] == prev[j]);
            } else {
                let m = (hi - 1) as u64;
                assert(mask_matches(numbers, target, tolerance, m, k));
                assert(cur[j] == mask_indices_upto(m, k));
                lemma_mask_indices_valid(numbers, m, k);
            }
        }
    }
}

/// Law: the exhaustive oracle is complete. On an input whose mask space is
/// covered in full, the bit-enumeration result under `find_all` contains
/// every solution in strictly increasing index order.
pub proof fn lemma_bit_enum_complete(
    numbers: Seq<i64>,
    target: i64,
    tolerance: i64,
    r: Seq<Seq<usize>>,
    q: Seq<usize>,
)
    requires
        numbers.len() <= 30,
        r == bit_enum_expected(numbers, target, tolerance, true, 0, mask_count(
            numbers.len() as int,
        )),
        increasing_solution(numbers, target, tolerance, q),
    ensures
        r.contains(q),
{
    let n = numbers.len() as int;
    lemma_mask_exists(q, n);
    let m = choose|m: u64|
        m < (1u64 << (n as u64)) && #[trigger] mask_indices_upto(m, n) == q;
    lemma_mask_indices_valid(numbers, m, n);
    assert(seq_sum(numbers, q) == mask_sum_upto(numbers, m, n));
    assert(mask_matches(numbers, target, tolerance, m, n));
    assert(mask_count(n) == 1u64 << (n as u64));
    assert(kbits(n) == n);
    lemma_bit_matches_has(numbers, target, tolerance, 0, mask_count(n), n, m);
}

/// Law (algorithm agreement): on an input the exhaustive search covers in
/// full, the bit-enumeration result and any sound and complete collection of
/// increasing solutions — the dynamic-programming result under `find_all`,
/// or the meet-in-the-middle result under `find_all` on two or more elements
/// — hold exactly the same index sets.
pub proof fn lemma_exhaustive_agreement(
    numbers: Seq<i64>,
    target: i64,
    tolerance: i64,
    r_be: Seq<Seq<usize>>,
    r_other: Seq<Seq<usize>>,
)
    requires
        numbers.len() <= 30,
        r_be == bit_enum_expected(numbers, target, tolerance, true, 0, mask_count(
            numbers.len() as int,
        )),
        forall|j: int|
            0 <= j < r_other.len() ==> increasing_solution(
                numbers,
                target,
                tolerance,
                #[trigger] r_other[j],
            ),
        forall|q: Seq<usize>|
            increasing_solution(numbers, target, tolerance, q) ==> #[trigger] r_other.contains(q),
    ensures
        forall|q: Seq<usize>| #![trigger r_be.contains(q)] #![trigger r_other.contains(q)]
            r_be.contains(q) <==> r_other.contains(q),
{
    let n = numbers.len() as int;
    lemma_bit_matches_increasing(numbers, target, tolerance, 0, mask_count(n), kbits(n));
    assert forall|q: Seq<usize>| #![trigger r_be.contains(q)] #![trigger r_other.contains(q)]
        r_be.contains(q) <==> r_other.contains(q) by {
        if r_be.contains(q) {
            let j = choose|j: int| 0 <= j < r_be.len() && r_be[j] == q;
            assert(increasing_solution(numbers, target, tolerance, r_be[j]));
            assert(r_other.contains(q));
        }
        if r_other.contains(q) {
            let j = choose|j: int| 0 <= j < r_other.len() && r_other[j] == q;
            assert(increasing_solution(numbers, target, tolerance, q));
            lemma_bit_enum_complete(numbers, target, tolerance, r_be, q);
        }
    }
}

/// Law (idempotence of the exhaustive solver): its contract pins the result
/// completely, so two searches over the same problem return identical lists.
pub proof fn lemma_bit_enum_deterministic(
    numbers: Seq<i64>,
    target: i64,
    tolerance: i64,
    find_all: bool,
    r1: Seq<Seq<usize>>,
    r2: Seq<Seq<usize>>,
)
    requires
        r1 == bit_enum_expected(numbers, target, tolerance, find_all, 0, mask_count(
            numbers.len() as int,
        )),
        r2 == bit_enum_expected(numbers, target, tolerance, find_all, 0, mask_count(
            numbers.len() as int,
        )),
    ensures
        r1 == r2,
{
}

/// Law (idempotence up to order and duplication): two results that are each
/// sound and complete over increasing solutions — as the dynamic-programming
/// and meet-in-the-middle results under `find_all` are — hold exactly the
/// same index sets, whatever order either run produced them in.
pub proof fn lemma_find_all_same_sets(
    numbers: Seq<i64>,
    target: i64,
    tolerance: i64,
    r1: Seq<Seq<usize>>,
    r2: Seq<Seq<usize>>,
)
    requires
        forall|j: int|
            0 <= j < r1.len() ==> increasing_solution(numbers, target, tolerance, #[trigger] r1[j]),
        forall|q: Seq<usize>|
            increasing_solution(numbers, target, tolerance, q) ==> #[trigger] r1.contains(q),
        forall|j: int|
            0 <= j < r2.len() ==> increasing_solution(numbers, target, tolerance, #[trigger] r2[j]),
        forall|q: Seq<usize>|
            increasing_solution(numbers, target, tolerance, q) ==> #[trigger] r2.contains(q),
    ensures
        forall|q: Seq<usize>| #![trigger r1.contains(q)] #![trigger r2.contains(q)]
            r1.contains(q) <==> r2.contains(q),
{
    assert forall|q: Seq<usize>| #![trigger r1.contains(q)] #![trigger r2.contains(q)]
        r1.contains(q) <==> r2.contains(q) by {
        if r1.contains(q) {
            let j = choose|j: int| 0 <= j < r1.len() && r1[j] == q;
            assert(increasing_solution(numbers, target, tolerance, q));
        }
        if r2.contains(q) {
            let j = choose|j: int| 0 <= j < r2.len() && r2[j] == q;
            assert(increasing_solution(numbers, target, tolerance, q));
        }
    }
}

/// Some entry of the result has exactly this row's index set.
pub open spec fn matched_in(r: Seq<Seq<usize>>, row: Seq<usize>) -> bool {
    exists|q: Seq<usize>| #[trigger] r.contains(q) && same_index_set(row, q)
}

/// Law (algorithm agreement with unordered results): on an input the
/// exhaustive search covers in full, a result that is sound and complete up
/// to index order — as branch-and-bound's is under `find_all` — holds
/// exactly the index sets of the exhaustive result.
pub proof fn lemma_exhaustive_branch_bound_agreement(
    numbers: Seq<i64>,
    target: i64,
    tolerance: i64,
    r_be: Seq<Seq<usize>>,
    r_bb: Seq<Seq<usize>>,
)
    requires
        numbers.len() <= 30,
        r_be == bit_enum_expected(numbers, target, tolerance, true, 0, mask_count(
            numbers.len() as int,
        )),
        forall|j: int|
            0 <= j < r_bb.len() ==> valid_solution(numbers, target, tolerance, #[trigger] r_bb[j]),
        forall|q: Seq<usize>|
            #[trigger] valid_solution(numbers, target, tolerance, q) ==> exists|j: int|
                0 <= j < r_bb.len() && same_index_set(#[trigger] r_bb[j], q),
    ensures
        forall|q: Seq<usize>|
            #[trigger] r_be.contains(q) ==> exists|j: int|
                0 <= j < r_bb.len() && same_index_set(#[trigger] r_bb[j], q),
        forall|j: int|
            #![trigger r_bb[j]]
            0 <= j < r_bb.len() ==> matched_in(r_be, r_bb[j]),
{
    let n = numbers.len() as int;
    lemma_bit_matches_increasing(numbers, target, tolerance, 0, mask_count(n), kbits(n));
    assert forall|q: Seq<usize>| #[trigger] r_be.contains(q) implies exists|j: int|
        0 <= j < r_bb.len() && same_index_set(#[trigger] r_bb[j], q) by {
        let w = choose|w: int| 0 <= w < r_be.len() && r_be[w] == q;
        assert(increasing_solution(numbers, target, tolerance, q));
        assert(valid_solution(numbers, target, tolerance, q));
    }
    assert forall|j: int| #![trigger r_bb[j]] 0 <= j < r_bb.len() implies matched_in(
        r_be,
        r_bb[j],
    ) by {
        let row = r_bb[j];
        assert(valid_solution(numbers, target, tolerance, row));
        let q = lemma_increasing_reorder(row);
        lemma_seq_sum_same_elements(numbers, q, row);
        assert forall|k: int| 0 <= k < q.len() implies q[k] < numbers.len() by {
            assert(q.contains(q[k])) by {
                assert(q[k] == q[k]);
            }
            assert(row.contains(q[k]));
            let t = choose|t: int| 0 <= t < row.len() && row[t] == q[k];
        }
        assert(increasing_solution(numbers, target, tolerance, q));
        lemma_bit_enum_complete(numbers, target, tolerance, r_be, q);
        assert forall|y: usize|
            #![trigger r_bb[j].contains(y)]
            #![trigger q.contains(y)]
            r_bb[j].contains(y) <==> q.contains(y) by {
        }
        assert(same_index_set(r_bb[j], q));
        assert(r_be.contains(q) && same_index_set(r_bb[j], q));
        assert(matched_in(r_be, r_bb[j]));
    }
}

} // verus!
