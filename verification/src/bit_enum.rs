//! Exhaustive bit-enumeration solver: every inclusion mask over the first
//! min(n, 64) positions is tried, in ascending mask order, with the mask
//! range partitioned into one contiguous block per available worker.

use vstd::prelude::*;

use crate::model::{
    abs1, abs_total, bit_matches, dv_of, kbits, mask_bit, mask_indices_upto, mask_matches,
    mask_sum_upto, truncate_one, valid_solution,
};
use crate::model::{
    lemma_abs_upto_mono, lemma_bit_matches_concat, lemma_bit_matches_valid, lemma_dv_of_concat,
    lemma_dv_of_push, lemma_mask_sum_bound,
};
use crate::workers::available_workers;

verus! {

/// What a bit-enumeration pass over masks `[lo, hi)` returns: the index set
/// of every matching mask, in ascending mask order, truncated to at most one
/// entry when a single solution was asked for.
pub open spec fn bit_enum_expected(
    numbers: Seq<i64>,
    target: i64,
    tolerance: i64,
    find_all: bool,
    lo: u64,
    hi: u64,
) -> Seq<Seq<usize>> {
    let full = bit_matches(numbers, target, tolerance, lo, hi, kbits(numbers.len() as int));
    if find_all {
        full
    } else {
        truncate_one(full)
    }
}

/// Number of masks the solver enumerates: 2^n, capped at 2^30 for
/// tractability.
pub open spec fn mask_count(n: int) -> u64 {
    if n >= 30 {
        1u64 << 30u64
    } else {
        1u64 << (n as u64)
    }
}

/// `bit_matches` holds the index set of every matching mask in the range.
pub proof fn lemma_bit_matches_has(
    numbers: Seq<i64>,
    target: i64,
    tolerance: i64,
    lo: u64,
    hi: u64,
    k: int,
    m: u64,
)
    requires
        lo <= m < hi,
        mask_matches(numbers, target, tolerance, m, k),
    ensures
        bit_matches(numbers, target, tolerance, lo, hi, k).contains(mask_indices_upto(m, k)),
    decreases hi - lo,
{
    let cur = bit_matches(numbers, target, tolerance, lo, hi, k);
    let prev = bit_matches(numbers, target, tolerance, lo, (hi - 1) as u64, k);
    if m == hi - 1 {
        assert(cur[prev.len() as int] == mask_indices_upto(m, k));
        assert(cur.contains(mask_indices_upto(m, k)));
    } else {
        lemma_bit_matches_has(numbers, target, tolerance, lo, (hi - 1) as u64, k, m);
        let w = choose|w: int|
            0 <= w < prev.len() && prev[w] == mask_indices_upto(m, k);
        assert(cur[w] == mask_indices_upto(m, k));
        assert(cur.contains(mask_indices_upto(m, k)));
    }
}

/// Enumerate the masks in `[start, end)` and collect the index set of every
/// mask whose subset sum falls in the match window; stop at the first match
/// when a single solution is asked for.
pub fn bit_enum_block(
    numbers: &Vec<i64>,
    target: i64,
    tolerance: i64,
    find_all: bool,
    start: u64,
    end: u64,
) -> (r: Vec<Vec<usize>>)
    requires
        tolerance >= 0,
        abs_total(numbers@) + abs1(target) + tolerance <= i64::MAX,
        start <= end,
    ensures
        dv_of(r@) == bit_enum_expected(numbers@, target, tolerance, find_all, start, end),
        forall|j: int| 0 <= j < r@.len() ==> valid_solution(numbers@, target, tolerance, r@[j]@),
        !find_all ==> r@.len() <= 1,
{
    let n = numbers.len();
    let kmax: usize = if n < 64 {
        n
    } else {
        64
    };
    let mut results: Vec<Vec<usize>> = Vec::new();
    let mut mask: u64 = start;
    proof {
        assert(dv_of(results@) =~= Seq::<Seq<usize>>::empty());
    }
    while mask < end && (find_all || results.len() == 0)
        invariant
            start <= mask <= end,
            tolerance >= 0,
            abs_total(numbers@) + abs1(target) + tolerance <= i64::MAX,
            n == numbers@.len(),
            kmax as int == kbits(n as int),
            kmax <= 64,
            kmax <= n,
            find_all ==> dv_of(results@) == bit_matches(
                numbers@,
                target,
                tolerance,
                start,
                mask,
                kmax as int,
            ),
            !find_all ==> dv_of(results@) == truncate_one(
                bit_matches(numbers@, target, tolerance, start, mask, kmax as int),
            ) && results@.len() <= 1,
        decreases end - mask,
    {
        let mut subset_sum: i64 = 0;
        let mut indices: Vec<usize> = Vec::new();
        let mut i: usize = 0;
        proof {
            assert(indices@ =~= mask_indices_upto(mask, 0));
        }
        while i < kmax
            invariant
                0 <= i <= kmax,
                kmax <= 64,
                kmax <= n,
                n == numbers@.len(),
                tolerance >= 0,
                abs_total(numbers@) + abs1(target) + tolerance <= i64::MAX,
                subset_sum as int == mask_sum_upto(numbers@, mask, i as int),
                indices@ == mask_indices_upto(mask, i as int),
            decreases kmax - i,
        {
            if (mask & (1u64 << (i as u64))) != 0 {
                proof {
                    assert(mask_bit(mask, i as int));
                    lemma_mask_sum_bound(numbers@, mask, i as int + 1);
                    lemma_abs_upto_mono(numbers@, i as int + 1, numbers@.len() as int);
                    assert(mask_sum_upto(numbers@, mask, i as int + 1) == subset_sum
                        + numbers@[i as int]);
                }
                subset_sum = subset_sum + numbers[i];
                indices.push(i);
            } else {
                proof {
                    assert(!mask_bit(mask, i as int));
                }
            }
            i = i + 1;
        }
        proof {
            lemma_abs_upto_mono(numbers@, 0, numbers@.len() as int);
        }
        let is_match = subset_sum >= target - tolerance && subset_sum <= target + tolerance;
        let ghost prev = bit_matches(numbers@, target, tolerance, start, mask, kmax as int);
        let ghost cur = bit_matches(numbers@, target, tolerance, start, (mask + 1) as u64, kmax as int);
        if is_match {
            assert(mask_matches(numbers@, target, tolerance, mask, kmax as int));
            assert(cur =~= prev + seq![mask_indices_upto(mask, kmax as int)]);
            let ghost idx_view = indices@;
            proof {
                lemma_dv_of_push(results@, indices);
            }
            results.push(indices);
            proof {
                if find_all {
                    assert(dv_of(results@) =~= cur);
                } else {
                    assert(prev.len() == 0) by {
                        if prev.len() >= 1 {
                            assert(truncate_one(prev).len() >= 1);
                        }
                    }
                    assert(cur =~= seq![idx_view]);
                    assert(dv_of(results@) =~= truncate_one(cur));
                }
            }
        } else {
            proof {
                assert(!mask_matches(numbers@, target, tolerance, mask, kmax as int));
                assert(cur =~= prev);
            }
        }
        mask = mask + 1;
    }
    proof {
        let k = kmax as int;
        let full = bit_matches(numbers@, target, tolerance, start, end, k);
        let part = bit_matches(numbers@, target, tolerance, start, mask, k);
        if mask < end {
            // stopped early with one recorded solution; every later mask is
            // behind the first match, so truncation gives the same answer
            lemma_bit_matches_concat(numbers@, target, tolerance, start, mask, end, k);
            assert(!find_all && results@.len() == 1);
            assert(part.len() >= 1) by {
                if part.len() == 0 {
                    assert(truncate_one(part).len() == 0);
                }
            }
            assert(full[0] == part[0]);
            assert(full.len() >= 1);
            assert(truncate_one(full) =~= seq![part[0]]);
            assert(truncate_one(part) =~= seq![part[0]]);
        }
        lemma_bit_matches_valid(numbers@, target, tolerance, start, end, k);
        assert forall|j: int| 0 <= j < results@.len() implies valid_solution(
            numbers@,
            target,
            tolerance,
            results@[j]@,
        ) by {
            assert(dv_of(results@)[j] == results@[j]@);
            let expected = bit_enum_expected(numbers@, target, tolerance, find_all, start, end);
            if !find_all && full.len() > 1 {
                assert(expected[j] == full[0]);
            }
        }
    }
    results
}

/// Exhaustive subset-sum search over all inclusion masks, partitioned into
/// one contiguous mask block per available worker. Returns the index set of
/// every matching mask in ascending mask order when `find_all` is set, and
/// at most the first match otherwise.
pub fn find_subset_sum_bit_enum_raw(
    numbers: &Vec<i64>,
    target: i64,
    tolerance: i64,
    find_all: bool,
) -> (r: Vec<Vec<usize>>)
    requires
        tolerance >= 0,
        abs_total(numbers@) + abs1(target) + tolerance <= i64::MAX,
    ensures
        dv_of(r@) == bit_enum_expected(
            numbers@,
            target,
            tolerance,
            find_all,
            0,
            mask_count(numbers@.len() as int),
        ),
        forall|j: int| 0 <= j < r@.len() ==> valid_solution(numbers@, target, tolerance, r@[j]@),
        !find_all ==> r@.len() <= 1,
{
    let n = numbers.len();
    let max_combinations: u64 = if n >= 30 {
        1u64 << 30u64
    } else {
        1u64 << (n as u64)
    };
    proof {
        assert(1u64 << 30u64 == 0x40000000) by (bit_vector);
        if n < 30 {
            let nn = n as u64;
            assert((1u64 << nn) <= 0x40000000) by (bit_vector)
                requires
                    nn < 30;
        }
    }
    let w0 = available_workers();
    let workers: u64 = if w0 > 1048576 {
        1048576u64
    } else {
        w0 as u64
    };
    let block_size: u64 = max_combinations / workers + 1;
    assert(1 <= block_size <= max_combinations + 1);
    let mut results: Vec<Vec<usize>> = Vec::new();
    let mut cpu_id: u64 = 0;
    let mut covered: u64 = 0;
    proof {
        assert(dv_of(results@) =~= Seq::<Seq<usize>>::empty());
    }
    while cpu_id < workers && (find_all || results.len() == 0)
        invariant
            1 <= workers <= 1048576,
            block_size == max_combinations / workers + 1,
            max_combinations == mask_count(numbers@.len() as int),
            max_combinations <= 0x40000000,
            0 <= cpu_id <= workers,
            covered == if cpu_id * block_size > max_combinations {
                max_combinations as int
            } else {
                cpu_id * block_size
            },
            covered <= max_combinations,
            tolerance >= 0,
            abs_total(numbers@) + abs1(target) + tolerance <= i64::MAX,
            n == numbers@.len(),
            find_all ==> dv_of(results@) == bit_matches(
                numbers@,
                target,
                tolerance,
                0,
                covered,
                kbits(n as int),
            ),
            !find_all ==> dv_of(results@) == truncate_one(
                bit_matches(numbers@, target, tolerance, 0, covered, kbits(n as int)),
            ) && results@.len() <= 1,
        decreases workers - cpu_id,
    {
        proof {
            assert(cpu_id * block_size <= 1048576 * 0x40000001) by (nonlinear_arith)
                requires
                    0 <= cpu_id <= 1048576,
                    0 <= block_size <= 0x40000001;
            assert((cpu_id + 1) * block_size == cpu_id * block_size + block_size)
                by (nonlinear_arith);
        }
        let start0 = cpu_id * block_size;
        let start = if start0 > max_combinations {
            max_combinations
        } else {
            start0
        };
        let end0 = start0 + block_size;
        let end = if end0 > max_combinations {
            max_combinations
        } else {
            end0
        };
        assert(start == covered);
        assert(start <= end);
        let mut block = bit_enum_block(numbers, target, tolerance, find_all, start, end);
        let ghost prev_results = results@;
        let ghost block_view = block@;
        let ghost k = kbits(n as int);
        let ghost pre = bit_matches(numbers@, target, tolerance, 0, covered, k);
        let ghost mid = bit_matches(numbers@, target, tolerance, covered, end, k);
        let ghost whole = bit_matches(numbers@, target, tolerance, 0, end, k);
        proof {
            lemma_bit_matches_concat(numbers@, target, tolerance, 0, covered, end, k);
            lemma_dv_of_concat(prev_results, block_view);
        }
        results.append(&mut block);
        proof {
            assert(results@ == prev_results + block_view);
            if find_all {
                assert(dv_of(results@) == pre + dv_of(block_view));
                assert(dv_of(block_view) == mid);
                assert(dv_of(results@) == whole);
            } else {
                assert(prev_results.len() == 0);
                assert(pre.len() == 0) by {
                    if pre.len() >= 1 {
                        assert(truncate_one(pre).len() >= 1);
                        assert(dv_of(prev_results).len() >= 1);
                    }
                }
                assert(whole =~= mid);
                assert(results@ =~= block_view);
                assert(dv_of(results@) == truncate_one(whole));
                assert(results@.len() <= 1);
            }
        }
        covered = end;
        cpu_id = cpu_id + 1;
    }
    proof {
        let k = kbits(n as int);
        if covered < max_combinations {
            if cpu_id == workers {
                // every worker together covers the whole mask range
                vstd::arithmetic::div_mod::lemma_fundamental_div_mod(
                    max_combinations as int,
                    workers as int,
                );
                assert(workers * block_size > max_combinations) by (nonlinear_arith)
                    requires
                        1 <= workers,
                        block_size == max_combinations / workers + 1,
                        max_combinations == workers * ((max_combinations as int) / (
                        workers as int)) + (max_combinations as int) % (workers as int),
                        (max_combinations as int) % (workers as int) < workers;
                assert(false);
            }
            // stopped early with one recorded solution
            assert(!find_all && results@.len() == 1);
            let part = bit_matches(numbers@, target, tolerance, 0, covered, k);
            let full = bit_matches(numbers@, target, tolerance, 0, max_combinations, k);
            lemma_bit_matches_concat(numbers@, target, tolerance, 0, covered, max_combinations, k);
            assert(part.len() >= 1) by {
                if part.len() == 0 {
                    assert(truncate_one(part).len() == 0);
                }
            }
            assert(full[0] == part[0]);
            assert(truncate_one(full) =~= seq![part[0]]);
            assert(truncate_one(part) =~= seq![part[0]]);
        }
        let full = bit_matches(numbers@, target, tolerance, 0, max_combinations, k);
        lemma_bit_matches_valid(numbers@, target, tolerance, 0, max_combinations, k);
        assert forall|j: int| 0 <= j < results@.len() implies valid_solution(
            numbers@,
            target,
            tolerance,
            results@[j]@,
        ) by {
            assert(dv_of(results@)[j] == results@[j]@);
            if !find_all && full.len() > 1 {
                assert(dv_of(results@)[j] == full[0]);
            }
        }
    }
    results
}

} // verus!
