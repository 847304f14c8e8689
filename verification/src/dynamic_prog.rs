//! Dynamic-programming solver: a reachability table indexed by achievable
//! sum (shifted by an offset so that negative sums index too) records, for
//! every reachable sum, every index set achieving it. After all elements are
//! processed, the solutions whose sum lies in the match window are collected.

use vstd::prelude::*;

use crate::model::{abs1, abs_total, abs_upto, dv_of, in_window, increasing_solution, seq_sum, valid_solution};
use crate::model::{clone_indices, clone_paths, lemma_abs_upto_mono};

verus! {

/// Sum of the positive elements among the first `k`.
pub open spec fn pos_upto(numbers: Seq<i64>, k: int) -> int
    decreases k,
{
    if k <= 0 {
        0
    } else {
        pos_upto(numbers, k - 1) + if numbers[k - 1] > 0 {
            numbers[k - 1] as int
        } else {
            0
        }
    }
}

/// Sum of the negative elements among the first `k`.
pub open spec fn neg_upto(numbers: Seq<i64>, k: int) -> int
    decreases k,
{
    if k <= 0 {
        0
    } else {
        neg_upto(numbers, k - 1) + if numbers[k - 1] < 0 {
            numbers[k - 1] as int
        } else {
            0
        }
    }
}

/// The positive and negative partial sums split the absolute sum.
pub proof fn lemma_pos_neg(numbers: Seq<i64>, k: int)
    ensures
        pos_upto(numbers, k) - neg_upto(numbers, k) == abs_upto(numbers, k),
        pos_upto(numbers, k) >= 0,
        neg_upto(numbers, k) <= 0,
    decreases k,
{
    if k > 0 {
        lemma_pos_neg(numbers, k - 1);
    }
}

/// Positive partial sums grow, negative partial sums shrink, with `k`.
pub proof fn lemma_pos_neg_mono(numbers: Seq<i64>, k1: int, k2: int)
    requires
        k1 <= k2,
    ensures
        pos_upto(numbers, k1) <= pos_upto(numbers, k2),
        neg_upto(numbers, k2) <= neg_upto(numbers, k1),
    decreases k2 - k1,
{
    if k1 < k2 {
        lemma_pos_neg_mono(numbers, k1, k2 - 1);
    }
}

/// The sum over strictly increasing indices below `hi` lies between the
/// negative and the positive partial sum below `hi`.
pub proof fn lemma_seq_sum_in_range(numbers: Seq<i64>, s: Seq<usize>, hi: int)
    requires
        0 <= hi <= numbers.len(),
        forall|k: int| 0 <= k < s.len() ==> s[k] < hi,
        forall|k1: int, k2: int| 0 <= k1 < k2 < s.len() ==> s[k1] < s[k2],
    ensures
        neg_upto(numbers, hi) <= seq_sum(numbers, s) <= pos_upto(numbers, hi),
    decreases s.len(),
{
    lemma_pos_neg(numbers, hi);
    if s.len() > 0 {
        let last = s.last() as int;
        let front = s.drop_last();
        assert(forall|k: int| 0 <= k < front.len() ==> front[k] < last);
        lemma_seq_sum_in_range(numbers, front, last);
        lemma_pos_neg_mono(numbers, last + 1, hi);
        lemma_pos_neg(numbers, last);
        lemma_pos_neg(numbers, last + 1);
    }
}

/// An index set recorded for sum `sum` over the first `upto` elements:
/// strictly increasing indices below `upto` whose elements sum to `sum`.
pub open spec fn dp_entry_ok(numbers: Seq<i64>, upto: int, sum: int, path: Seq<usize>) -> bool {
    &&& forall|k: int| 0 <= k < path.len() ==> path[k] < upto
    &&& forall|k1: int, k2: int| 0 <= k1 < k2 < path.len() ==> path[k1] < path[k2]
    &&& seq_sum(numbers, path) == sum
}

/// Every recorded index set of a table cell achieves the cell's sum.
pub open spec fn cell_ok(numbers: Seq<i64>, upto: int, sum: int, cell: Seq<Vec<usize>>) -> bool {
    forall|j: int| 0 <= j < cell.len() ==> dp_entry_ok(numbers, upto, sum, #[trigger] cell[j]@)
}

/// Table soundness: cell `u` records only index sets summing to `u - offset`.
pub open spec fn table_ok(
    numbers: Seq<i64>,
    upto: int,
    offset: int,
    table: Seq<Vec<Vec<usize>>>,
) -> bool {
    forall|u: int|
        0 <= u < table.len() ==> cell_ok(numbers, upto, u - offset, #[trigger] table[u]@)
}

/// Table completeness: every strictly increasing index set over the first
/// `upto` elements is recorded in the cell of its sum.
pub open spec fn table_complete(
    numbers: Seq<i64>,
    upto: int,
    offset: int,
    table: Seq<Vec<Vec<usize>>>,
) -> bool {
    forall|u: int, p: Seq<usize>|
        0 <= u < table.len() && dp_entry_ok(numbers, upto, u - offset, p) ==> #[trigger] dv_of(
            table[u]@,
        ).contains(p)
}

/// No cell records the same index list twice.
pub open spec fn cell_distinct(cell: Seq<Vec<usize>>) -> bool {
    forall|t1: int, t2: int|
        0 <= t1 < t2 < cell.len() ==> (#[trigger] cell[t1]@) != (#[trigger] cell[t2]@)
}

/// Every cell of the table is duplicate-free.
pub open spec fn table_distinct(table: Seq<Vec<Vec<usize>>>) -> bool {
    forall|u: int| 0 <= u < table.len() ==> cell_distinct(#[trigger] table[u]@)
}

/// Entries appended beyond `base` all come from cells of `paths` whose sum
/// lies in the match window.
pub open spec fn appended_from_window(
    paths: Seq<Vec<Vec<usize>>>,
    min_sum: int,
    target: i64,
    precision: i64,
    base: Seq<Vec<usize>>,
    cur: Seq<Vec<usize>>,
) -> bool {
    &&& cur.len() >= base.len()
    &&& forall|j: int| 0 <= j < base.len() ==> cur[j] == base[j]
    &&& forall|j: int|
        #![trigger cur[j]]
        base.len() <= j < cur.len() ==> exists|u: int, t: int|
            0 <= u < paths.len() && in_window(u + min_sum, target, precision) && 0 <= t < paths[
                u
            ]@.len() && cur[j]@ == #[trigger] paths[u]@[t]@
}

/// Every entry of every window cell whose sum is below `bound` occurs in the
/// collection.
pub open spec fn window_collected_below(
    paths: Seq<Vec<Vec<usize>>>,
    min_sum: int,
    target: i64,
    precision: i64,
    cur: Seq<Vec<usize>>,
    bound: int,
) -> bool {
    forall|u: int, t: int|
        0 <= u < paths.len() && in_window(u + min_sum, target, precision) && u + min_sum < bound
            && 0 <= t < paths[u]@.len() ==> dv_of(cur).contains(#[trigger] paths[u]@[t]@)
}

/// Some window cell is non-empty: a solution in the window exists.
pub open spec fn window_nonempty(
    paths: Seq<Vec<Vec<usize>>>,
    min_sum: int,
    target: i64,
    precision: i64,
) -> bool {
    exists|u: int|
        0 <= u < paths.len() && in_window(#[trigger] (u + min_sum), target, precision) && paths[
            u
        ]@.len() > 0
}

/// Rows appended under a single-solution request all come from one cell:
/// the least reachable window sum, every smaller window sum being
/// unreachable.
pub open spec fn first_window_cell_rows(
    paths: Seq<Vec<Vec<usize>>>,
    min_sum: int,
    target: i64,
    precision: i64,
    base: Seq<Vec<usize>>,
    cur: Seq<Vec<usize>>,
) -> bool {
    forall|j: int|
        #![trigger cur[j]]
        base.len() <= j < cur.len() ==> exists|u: int, t: int|
            0 <= u < paths.len() && in_window(u + min_sum, target, precision) && 0 <= t < paths[
                u
            ]@.len() && cur[j]@ == #[trigger] paths[u]@[t]@ && (forall|u2: int|
                0 <= u2 < u && in_window(#[trigger] (u2 + min_sum), target, precision)
                    ==> paths[u2]@.len() == 0)
}

/// The appended rows are exactly the rows of cell `u0`, in cell order.
pub open spec fn appended_exactly_cell(
    paths: Seq<Vec<Vec<usize>>>,
    u0: int,
    base: Seq<Vec<usize>>,
    cur: Seq<Vec<usize>>,
) -> bool {
    &&& cur.len() == base.len() + paths[u0]@.len()
    &&& forall|t: int|
        0 <= t < paths[u0]@.len() ==> cur[base.len() + t]@ == #[trigger] paths[u0]@[t]@
}

/// The row is recorded in some cell whose sum is below `bound`.
pub open spec fn sourced_row(
    paths: Seq<Vec<Vec<usize>>>,
    min_sum: int,
    row: Seq<usize>,
    bound: int,
) -> bool {
    exists|u: int, t: int|
        0 <= u < paths.len() && u + min_sum < bound && 0 <= t < paths[u]@.len() && row
            == #[trigger] paths[u]@[t]@
}

/// Appended rows each come from a cell whose sum is below `bound`.
pub open spec fn appended_sourced(
    paths: Seq<Vec<Vec<usize>>>,
    min_sum: int,
    base: Seq<Vec<usize>>,
    cur: Seq<Vec<usize>>,
    bound: int,
) -> bool {
    forall|j: int|
        #![trigger cur[j]]
        base.len() <= j < cur.len() ==> sourced_row(paths, min_sum, cur[j]@, bound)
}

/// A row sourced below one bound is sourced below any larger one.
proof fn lemma_appended_sourced_weaken(
    paths: Seq<Vec<Vec<usize>>>,
    min_sum: int,
    base: Seq<Vec<usize>>,
    cur: Seq<Vec<usize>>,
    b1: int,
    b2: int,
)
    requires
        appended_sourced(paths, min_sum, base, cur, b1),
        b1 <= b2,
    ensures
        appended_sourced(paths, min_sum, base, cur, b2),
{
    assert forall|j: int|
        #![trigger cur[j]]
        base.len() <= j < cur.len() implies sourced_row(paths, min_sum, cur[j]@, b2) by {
        assert(sourced_row(paths, min_sum, cur[j]@, b1));
        let (u, t) = choose|u: int, t: int|
            0 <= u < paths.len() && u + min_sum < b1 && 0 <= t < paths[u]@.len() && cur[j]@
                == #[trigger] paths[u]@[t]@;
        assert(cur[j]@ == paths[u]@[t]@);
        assert(sourced_row(paths, min_sum, cur[j]@, b2));
    }
}

/// No two appended rows are the same index list.
pub open spec fn appended_distinct(base: Seq<Vec<usize>>, cur: Seq<Vec<usize>>) -> bool {
    forall|j1: int, j2: int|
        base.len() <= j1 < j2 < cur.len() ==> (#[trigger] cur[j1]@) != (#[trigger] cur[j2]@)
}

/// Collect the recorded index sets whose sum lies in the match window
/// `[target - precision, target + precision]`, scanning window sums in
/// ascending order. Cell `u` of `paths` stands for sum `u + min_sum`, and
/// `dp` flags the non-empty cells. With `find_all` unset, only the first
/// non-empty window cell is collected.
pub fn collect_results(
    dp: Vec<bool>,
    paths: Vec<Vec<Vec<usize>>>,
    target: i64,
    precision: i64,
    offset: i64,
    min_sum: i64,
    max_sum: i64,
    find_all: bool,
    results: &mut Vec<Vec<usize>>,
)
    requires
        precision >= 0,
        offset == -min_sum,
        min_sum <= 0 <= max_sum,
        paths@.len() == max_sum - min_sum + 1,
        dp@.len() == paths@.len(),
        forall|u: int| 0 <= u < dp@.len() ==> (dp@[u] <==> paths@[u]@.len() > 0),
        abs1(target) + precision <= i64::MAX,
        max_sum - min_sum <= i64::MAX,
        table_distinct(paths@),
        forall|u1: int, t1: int, u2: int, t2: int|
            0 <= u1 < paths@.len() && 0 <= u2 < paths@.len() && u1 != u2 && 0 <= t1 < paths@[
                u1
            ]@.len() && 0 <= t2 < paths@[u2]@.len() ==> (#[trigger] paths@[u1]@[t1]@) != (
            #[trigger] paths@[u2]@[t2]@),
    ensures
        appended_from_window(
            paths@,
            min_sum as int,
            target,
            precision,
            old(results)@,
            final(results)@,
        ),
        find_all ==> window_collected_below(
            paths@,
            min_sum as int,
            target,
            precision,
            final(results)@,
            target + precision + 1,
        ),
        !find_all ==> (final(results)@.len() > old(results)@.len() <==> window_nonempty(
            paths@,
            min_sum as int,
            target,
            precision,
        )),
        !find_all ==> first_window_cell_rows(
            paths@,
            min_sum as int,
            target,
            precision,
            old(results)@,
            final(results)@,
        ),
        !find_all && window_nonempty(paths@, min_sum as int, target, precision) ==> exists|u0: int|
            0 <= u0 < paths@.len() && in_window(#[trigger] (u0 + min_sum), target, precision)
                && paths@[u0]@.len() > 0 && appended_exactly_cell(
                paths@,
                u0,
                old(results)@,
                final(results)@,
            ),
        appended_distinct(old(results)@, final(results)@),
{
    let lower: i64 = target - precision;
    let upper: i64 = target + precision;
    let plen = paths.len();
    let ghost base = results@;
    let mut t: i128 = lower as i128;
    proof {
        assert(appended_from_window(paths@, min_sum as int, target, precision, base, results@));
        assert(first_window_cell_rows(paths@, min_sum as int, target, precision, base, results@));
        assert(appended_sourced(paths@, min_sum as int, base, results@, t as int));
        assert(appended_distinct(base, results@));
    }
    while t <= upper as i128
        invariant_except_break
            appended_sourced(paths@, min_sum as int, base, results@, t as int),
            !find_all ==> results@.len() == base.len() && forall|u: int|
                0 <= u < paths@.len() && in_window(#[trigger] (u + min_sum), target, precision)
                    && u + min_sum < t ==> paths@[u]@.len() == 0,
        invariant
            lower as i128 <= t <= upper as i128 + 1,
            plen == paths@.len(),
            max_sum - min_sum <= i64::MAX,
            lower == target - precision,
            upper == target + precision,
            precision >= 0,
            offset == -min_sum,
            min_sum <= 0 <= max_sum,
            paths@.len() == max_sum - min_sum + 1,
            dp@.len() == paths@.len(),
            forall|u: int| 0 <= u < dp@.len() ==> (dp@[u] <==> paths@[u]@.len() > 0),
            base == old(results)@,
            table_distinct(paths@),
            forall|u1: int, t1: int, u2: int, t2: int|
                0 <= u1 < paths@.len() && 0 <= u2 < paths@.len() && u1 != u2 && 0 <= t1 < paths@[
                    u1
                ]@.len() && 0 <= t2 < paths@[u2]@.len() ==> (#[trigger] paths@[u1]@[t1]@) != (
                #[trigger] paths@[u2]@[t2]@),
            appended_from_window(paths@, min_sum as int, target, precision, base, results@),
            !find_all ==> first_window_cell_rows(
                paths@,
                min_sum as int,
                target,
                precision,
                base,
                results@,
            ),
            appended_distinct(base, results@),
            find_all ==> window_collected_below(
                paths@,
                min_sum as int,
                target,
                precision,
                results@,
                t as int,
            ),
        ensures
            base == old(results)@,
            appended_from_window(paths@, min_sum as int, target, precision, base, results@),
            find_all ==> window_collected_below(
                paths@,
                min_sum as int,
                target,
                precision,
                results@,
                target + precision + 1,
            ),
            !find_all ==> (results@.len() > base.len() <==> window_nonempty(
                paths@,
                min_sum as int,
                target,
                precision,
            )),
            appended_distinct(base, results@),
            !find_all ==> first_window_cell_rows(
                paths@,
                min_sum as int,
                target,
                precision,
                base,
                results@,
            ),
            !find_all && window_nonempty(paths@, min_sum as int, target, precision)
                ==> exists|u0: int|
                0 <= u0 < paths@.len() && in_window(#[trigger] (u0 + min_sum), target, precision)
                    && paths@[u0]@.len() > 0 && appended_exactly_cell(paths@, u0, base, results@),
        decreases upper as i128 + 1 - t,
    {
        let ghost head_results = results@;
        if t >= min_sum as i128 && t <= max_sum as i128 {
            let t64: i64 = t as i64;
            let u: usize = (t64 - min_sum) as usize;
            proof {
                assert(0 <= t - min_sum < paths@.len());
                assert(u as int == t - min_sum);
                assert(in_window(u + min_sum, target, precision));
            }
            if dp[u] {
                let cell = &paths[u];
                let ghost prior = results@;
                proof {
                    lemma_appended_sourced_weaken(
                        paths@,
                        min_sum as int,
                        base,
                        results@,
                        t as int,
                        t as int + 1,
                    );
                    if !find_all {
                        assert(prior =~= base);
                        assert forall|u2: int|
                            0 <= u2 < u && in_window(
                                #[trigger] (u2 + min_sum),
                                target,
                                precision,
                            ) implies paths@[u2]@.len() == 0 by {
                            assert(u2 + min_sum < t);
                        }
                    }
                }
                let mut j: usize = 0;
                while j < cell.len()
                    invariant
                        0 <= j <= cell@.len(),
                        cell@ == paths@[u as int]@,
                        0 <= u < paths@.len(),
                        in_window(u + min_sum, target, precision),
                        base == old(results)@,
                        base.len() <= prior.len(),
                        results@.len() == prior.len() + j,
                        forall|j2: int| 0 <= j2 < prior.len() ==> results@[j2] == prior[j2],
                        forall|t2: int|
                            0 <= t2 < j ==> results@[prior.len() + t2]@ == #[trigger] cell@[t2]@,
                        appended_from_window(
                            paths@,
                            min_sum as int,
                            target,
                            precision,
                            base,
                            results@,
                        ),
                        !find_all ==> prior == base,
                        !find_all ==> forall|u2: int|
                            0 <= u2 < u && in_window(
                                #[trigger] (u2 + min_sum),
                                target,
                                precision,
                            ) ==> paths@[u2]@.len() == 0,
                        !find_all ==> first_window_cell_rows(
                            paths@,
                            min_sum as int,
                            target,
                            precision,
                            base,
                            results@,
                        ),
                        u as int + min_sum == t,
                        table_distinct(paths@),
                        forall|u1: int, t1: int, u2: int, t2: int|
                            0 <= u1 < paths@.len() && 0 <= u2 < paths@.len() && u1 != u2 && 0 <= t1
                                < paths@[u1]@.len() && 0 <= t2 < paths@[u2]@.len() ==> (
                            #[trigger] paths@[u1]@[t1]@) != (#[trigger] paths@[u2]@[t2]@),
                        appended_sourced(paths@, min_sum as int, base, prior, t as int),
                        appended_sourced(paths@, min_sum as int, base, results@, t as int + 1),
                        appended_distinct(base, results@),
                    decreases cell@.len() - j,
                {
                    let p = clone_indices(&cell[j]);
                    let ghost before = results@;
                    results.push(p);
                    proof {
                        assert forall|j2: int|
                            #![trigger results@[j2]]
                            base.len() <= j2 < results@.len() implies exists|u2: int, t2: int|
                            0 <= u2 < paths@.len() && in_window(u2 + min_sum, target, precision)
                                && 0 <= t2 < paths@[u2]@.len() && results@[j2]@ == #[trigger] paths@[
                            u2
                        ]@[t2]@ by {
                            if j2 < before.len() {
                                assert(results@[j2] == before[j2]);
                                let (u2, t2) = choose|u2: int, t2: int|
                                    0 <= u2 < paths@.len() && in_window(
                                        u2 + min_sum,
                                        target,
                                        precision,
                                    ) && 0 <= t2 < paths@[u2]@.len() && before[j2]@ == #[trigger] paths@[
                                    u2
                                ]@[t2]@;
                                assert(results@[j2]@ == paths@[u2]@[t2]@);
                            } else {
                                assert(results@[j2]@ == paths@[u as int]@[j as int]@);
                                assert(0 <= (u as int) < paths@.len() && in_window(
                                    u as int + min_sum,
                                    target,
                                    precision,
                                ) && 0 <= (j as int) < paths@[u as int]@.len() && results@[j2]@
                                    == paths@[u as int]@[j as int]@);
                            }
                        }
                        assert(appended_from_window(
                            paths@,
                            min_sum as int,
                            target,
                            precision,
                            base,
                            results@,
                        ));
                        if !find_all {
                            assert forall|j2: int|
                                #![trigger results@[j2]]
                                base.len() <= j2 < results@.len() implies exists|u2: int, t2: int|
                                0 <= u2 < paths@.len() && in_window(u2 + min_sum, target, precision)
                                    && 0 <= t2 < paths@[u2]@.len() && results@[j2]@
                                    == #[trigger] paths@[u2]@[t2]@ && (forall|u3: int|
                                    0 <= u3 < u2 && in_window(
                                        #[trigger] (u3 + min_sum),
                                        target,
                                        precision,
                                    ) ==> paths@[u3]@.len() == 0) by {
                                if j2 < before.len() {
                                    assert(results@[j2] == before[j2]);
                                    let (u2, t2) = choose|u2: int, t2: int|
                                        0 <= u2 < paths@.len() && in_window(
                                            u2 + min_sum,
                                            target,
                                            precision,
                                        ) && 0 <= t2 < paths@[u2]@.len() && before[j2]@
                                            == #[trigger] paths@[u2]@[t2]@ && (forall|u3: int|
                                            0 <= u3 < u2 && in_window(
                                                #[trigger] (u3 + min_sum),
                                                target,
                                                precision,
                                            ) ==> paths@[u3]@.len() == 0);
                                    assert(results@[j2]@ == paths@[u2]@[t2]@);
                                } else {
                                    assert(results@[j2]@ == paths@[u as int]@[j as int]@);
                                    assert(0 <= (u as int) < paths@.len() && in_window(
                                        u as int + min_sum,
                                        target,
                                        precision,
                                    ) && 0 <= (j as int) < paths@[u as int]@.len() && results@[j2]@
                                        == paths@[u as int]@[j as int]@ && (forall|u3: int|
                                        0 <= u3 < u && in_window(
                                            #[trigger] (u3 + min_sum),
                                            target,
                                            precision,
                                        ) ==> paths@[u3]@.len() == 0));
                                }
                            }
                            assert(first_window_cell_rows(
                                paths@,
                                min_sum as int,
                                target,
                                precision,
                                base,
                                results@,
                            ));
                        }
                        // the new row comes from this cell, below the next
                        // bound, and differs from every earlier appended row
                        assert forall|j2: int|
                            #![trigger results@[j2]]
                            base.len() <= j2 < results@.len() implies sourced_row(
                            paths@,
                            min_sum as int,
                            results@[j2]@,
                            t as int + 1,
                        ) by {
                            if j2 < before.len() {
                                assert(results@[j2] == before[j2]);
                                assert(sourced_row(
                                    paths@,
                                    min_sum as int,
                                    before[j2]@,
                                    t as int + 1,
                                ));
                            } else {
                                assert(results@[j2]@ == paths@[u as int]@[j as int]@);
                                assert(0 <= (u as int) < paths@.len() && (u as int) + min_sum < t
                                    + 1 && 0 <= (j as int) < paths@[u as int]@.len() && results@[
                                    j2
                                ]@ == paths@[u as int]@[j as int]@);
                                assert(sourced_row(
                                    paths@,
                                    min_sum as int,
                                    results@[j2]@,
                                    t as int + 1,
                                ));
                            }
                        }
                        assert(appended_sourced(
                            paths@,
                            min_sum as int,
                            base,
                            results@,
                            t as int + 1,
                        ));
                        assert forall|j1: int, j2: int|
                            base.len() <= j1 < j2 < results@.len() implies (#[trigger] results@[
                            j1
                        ]@) != (#[trigger] results@[j2]@) by {
                            if j2 == results@.len() - 1 {
                                assert(results@[j2]@ == paths@[u as int]@[j as int]@);
                                if j1 >= prior.len() {
                                    assert(before[prior.len() + (j1 - prior.len())]@ == cell@[j1
                                        - prior.len()]@);
                                    assert(results@[j1]@ == paths@[u as int]@[j1 - prior.len()]@);
                                    assert(cell_distinct(paths@[u as int]@));
                                } else {
                                    assert(results@[j1] == prior[j1]);
                                    assert(sourced_row(
                                        paths@,
                                        min_sum as int,
                                        prior[j1]@,
                                        t as int,
                                    ));
                                    let (u2, t2) = choose|u2: int, t2: int|
                                        0 <= u2 < paths@.len() && u2 + min_sum < t && 0 <= t2
                                            < paths@[u2]@.len() && prior[j1]@ == #[trigger] paths@[
                                            u2
                                        ]@[t2]@;
                                    assert(u2 != u as int);
                                    assert(paths@[u2]@[t2]@ != paths@[u as int]@[j as int]@);
                                }
                            } else {
                                assert(results@[j1] == before[j1] && results@[j2] == before[j2]);
                            }
                        }
                        assert(appended_distinct(base, results@));
                    }
                    j = j + 1;
                }
                proof {
                    if find_all {
                        assert forall|u2: int, t2: int|
                            0 <= u2 < paths@.len() && in_window(u2 + min_sum, target, precision)
                                && u2 + min_sum < t + 1 && 0 <= t2 < paths@[u2]@.len() implies dv_of(
                            results@,
                        ).contains(#[trigger] paths@[u2]@[t2]@) by {
                            if u2 + min_sum < t {
                                let prev = window_collected_below(
                                    paths@,
                                    min_sum as int,
                                    target,
                                    precision,
                                    prior,
                                    t as int,
                                );
                                assert(prev);
                                assert(dv_of(prior).contains(paths@[u2]@[t2]@));
                                let w = choose|w: int|
                                    0 <= w < prior.len() && dv_of(prior)[w] == paths@[u2]@[t2]@;
                                assert(results@[w] == prior[w]);
                                assert(dv_of(results@)[w] == paths@[u2]@[t2]@);
                            } else {
                                assert(u2 == u as int);
                                assert(results@[prior.len() + t2]@ == paths@[u as int]@[t2]@);
                                assert(dv_of(results@)[prior.len() + t2] == paths@[u2]@[t2]@);
                            }
                        }
                    }
                }
                if !find_all && results.len() > 0 {
                    proof {
                        assert(paths@[u as int]@.len() > 0);
                        assert(window_nonempty(paths@, min_sum as int, target, precision));
                        assert(prior =~= base);
                        assert(appended_exactly_cell(paths@, u as int, base, results@));
                    }
                    break ;
                }
            }
        }
        proof {
            if find_all {
                assert forall|u2: int, t2: int|
                    0 <= u2 < paths@.len() && in_window(u2 + min_sum, target, precision) && u2
                        + min_sum < t + 1 && 0 <= t2 < paths@[u2]@.len() implies dv_of(
                    results@,
                ).contains(#[trigger] paths@[u2]@[t2]@) by {
                    if u2 + min_sum == t {
                        assert(0 <= t - min_sum < paths@.len());
                        assert(min_sum as i128 <= t <= max_sum as i128);
                    }
                }
            }
            if results@ == head_results {
                lemma_appended_sourced_weaken(
                    paths@,
                    min_sum as int,
                    base,
                    results@,
                    t as int,
                    t as int + 1,
                );
            }
            assert(appended_sourced(paths@, min_sum as int, base, results@, t as int + 1));
        }
        t = t + 1;
    }
    proof {
        if find_all {
            assert forall|u2: int, t2: int|
                0 <= u2 < paths@.len() && in_window(u2 + min_sum, target, precision) && u2
                    + min_sum < target + precision + 1 && 0 <= t2 < paths@[u2]@.len() implies dv_of(
                results@,
            ).contains(#[trigger] paths@[u2]@[t2]@) by {
            }
        }
        if !find_all && results@.len() == base.len() {
            assert forall|u2: int|
                0 <= u2 < paths@.len() && in_window(
                    #[trigger] (u2 + min_sum),
                    target,
                    precision,
                ) implies paths@[u2]@.len() == 0 by {
            }
        }
    }
}

/// Dynamic-programming subset-sum search. A table indexed by achievable sum
/// (shifted by the magnitude of the most negative achievable sum, so that
/// negative sums index too) records, per sum, every strictly increasing index
/// set achieving it; one pass per element extends it. The result collects
/// exactly the recorded index sets whose sum lies in the match window: every
/// solution is valid, no row is repeated, and with `find_all` set the result
/// contains every strictly increasing solution. With `find_all` unset at
/// most one solution is returned, one is returned exactly when a solution
/// exists, and the returned solution carries the least achievable window
/// sum.
pub fn find_subset_sum_dp_raw(
    numbers: &Vec<i64>,
    target: i64,
    tolerance: i64,
    find_all: bool,
) -> (r: Vec<Vec<usize>>)
    requires
        tolerance >= 0,
        abs_total(numbers@) + abs1(target) + tolerance <= i64::MAX,
        abs_total(numbers@) < usize::MAX,
    ensures
        forall|j: int| 0 <= j < r@.len() ==> valid_solution(numbers@, target, tolerance, r@[j]@),
        forall|j: int|
            0 <= j < r@.len() ==> increasing_solution(numbers@, target, tolerance, r@[j]@),
        !find_all ==> r@.len() <= 1,
        find_all ==> forall|q: Seq<usize>|
            increasing_solution(numbers@, target, tolerance, q) ==> #[trigger] dv_of(
                r@,
            ).contains(q),
        !find_all ==> (r@.len() == 1 <==> exists|q: Seq<usize>|
            #[trigger] increasing_solution(numbers@, target, tolerance, q)),
        !find_all && r@.len() == 1 ==> forall|q: Seq<usize>|
            #[trigger] increasing_solution(numbers@, target, tolerance, q) ==> seq_sum(
                numbers@,
                r@[0]@,
            ) <= seq_sum(numbers@, q),
        forall|j1: int, j2: int| 0 <= j1 < j2 < r@.len() ==> (#[trigger] r@[j1]@) != (
        #[trigger] r@[j2]@),
{
    let n = numbers.len();
    let mut pos_sum: i64 = 0;
    let mut neg_sum: i64 = 0;
    let mut k: usize = 0;
    while k < n
        invariant
            0 <= k <= n,
            n == numbers@.len(),
            abs_total(numbers@) + abs1(target) + tolerance <= i64::MAX,
            tolerance >= 0,
            pos_sum as int == pos_upto(numbers@, k as int),
            neg_sum as int == neg_upto(numbers@, k as int),
        decreases n - k,
    {
        proof {
            lemma_pos_neg(numbers@, k as int);
            lemma_pos_neg(numbers@, k + 1);
            lemma_abs_upto_mono(numbers@, k + 1, n as int);
            lemma_abs_upto_mono(numbers@, 0, n as int);
        }
        let v = numbers[k];
        if v > 0 {
            pos_sum = pos_sum + v;
        } else if v < 0 {
            neg_sum = neg_sum + v;
        }
        k = k + 1;
    }
    proof {
        lemma_pos_neg(numbers@, n as int);
    }
    let offset: i64 = -neg_sum;
    let span: i64 = pos_sum - neg_sum;
    let range_len: usize = span as usize + 1;
    // the table starts with one cell per achievable sum, the empty index set
    // recorded for sum zero
    let mut table: Vec<Vec<Vec<usize>>> = Vec::new();
    let mut u: usize = 0;
    while u < range_len
        invariant
            0 <= u <= range_len,
            range_len == span + 1,
            span == pos_sum - neg_sum,
            0 <= offset == -neg_sum <= span,
            table@.len() == u,
            forall|u2: int|
                0 <= u2 < u ==> cell_ok(numbers@, 0, u2 - offset, #[trigger] table@[u2]@),
            forall|u2: int| 0 <= u2 < u ==> cell_distinct(#[trigger] table@[u2]@),
            forall|u2: int| 0 <= u2 < u ==> (#[trigger] table@[u2]@).len() <= 1,
            forall|u2: int|
                0 <= u2 < u && u2 == offset ==> dv_of(#[trigger] table@[u2]@).contains(
                    Seq::<usize>::empty(),
                ),
        decreases range_len - u,
    {
        let mut cell: Vec<Vec<usize>> = Vec::new();
        if u as i64 == offset {
            let empty_path: Vec<usize> = Vec::new();
            cell.push(empty_path);
            proof {
                assert(seq_sum(numbers@, Seq::<usize>::empty()) == 0);
                assert(cell@[0]@ =~= Seq::<usize>::empty());
                assert(dp_entry_ok(numbers@, 0, 0, cell@[0]@));
                assert(dv_of(cell@)[0] =~= Seq::<usize>::empty());
                assert(dv_of(cell@).contains(Seq::<usize>::empty()));
            }
        }
        table.push(cell);
        u = u + 1;
    }
    proof {
        assert(table_ok(numbers@, 0, offset as int, table@));
        assert forall|u2: int, p: Seq<usize>|
            0 <= u2 < table@.len() && dp_entry_ok(numbers@, 0, u2 - offset, p) implies #[trigger] dv_of(
            table@[u2]@,
        ).contains(p) by {
            assert(p.len() == 0) by {
                if p.len() > 0 {
                    assert(p[0] < 0);
                }
            }
            assert(p =~= Seq::<usize>::empty());
            assert(seq_sum(numbers@, p) == 0);
            assert(u2 == offset);
        }
        assert(table_complete(numbers@, 0, offset as int, table@));
    }
    // one pass per element: every cell keeps its sets and gains the sets of
    // the cell one element-value away, extended by the new index
    let mut i: usize = 0;
    while i < n
        invariant
            0 <= i <= n,
            n == numbers@.len(),
            tolerance >= 0,
            abs_total(numbers@) + abs1(target) + tolerance <= i64::MAX,
            pos_sum as int == pos_upto(numbers@, n as int),
            neg_sum as int == neg_upto(numbers@, n as int),
            range_len == span + 1,
            span == pos_sum - neg_sum,
            0 <= offset == -neg_sum <= span,
            table@.len() == range_len,
            table_ok(numbers@, i as int, offset as int, table@),
            table_complete(numbers@, i as int, offset as int, table@),
            table_distinct(table@),
        decreases n - i,
    {
        let v = numbers[i];
        let mut new_table: Vec<Vec<Vec<usize>>> = Vec::new();
        let mut u: usize = 0;
        while u < range_len
            invariant
                0 <= u <= range_len,
                0 <= i < n,
                n == numbers@.len(),
                v == numbers@[i as int],
                pos_sum as int == pos_upto(numbers@, n as int),
                neg_sum as int == neg_upto(numbers@, n as int),
                range_len == span + 1,
                span == pos_sum - neg_sum,
                0 <= offset == -neg_sum <= span,
                table@.len() == range_len,
                table_ok(numbers@, i as int, offset as int, table@),
                table_complete(numbers@, i as int, offset as int, table@),
                table_distinct(table@),
                new_table@.len() == u,
                table_ok(numbers@, i + 1, offset as int, new_table@),
                table_complete(numbers@, i + 1, offset as int, new_table@),
                table_distinct(new_table@),
            decreases range_len - u,
        {
            let mut cell = clone_paths(&table[u]);
            let ghost base_len = table@[u as int]@.len();
            let src_wide: i128 = u as i128 - v as i128;
            let ghost in_shift_range = 0 <= src_wide && src_wide < range_len as i128;
            if src_wide >= 0 && src_wide < range_len as i128 {
                let src: usize = src_wide as usize;
                let mut j: usize = 0;
                while j < table[src].len()
                    invariant
                        0 <= j <= table@[src as int]@.len(),
                        0 <= src < table@.len(),
                        src == u - v,
                        0 <= u < range_len,
                        0 <= i < n,
                        n == numbers@.len(),
                        v == numbers@[i as int],
                        table@.len() == range_len,
                        table_ok(numbers@, i as int, offset as int, table@),
                        table_distinct(table@),
                        0 <= offset <= span,
                        range_len == span + 1,
                        base_len == table@[u as int]@.len(),
                        cell@.len() == base_len + j,
                        forall|t2: int|
                            0 <= t2 < base_len ==> #[trigger] cell@[t2]@ == table@[u as int]@[t2]@,
                        forall|t2: int|
                            0 <= t2 < j ==> #[trigger] cell@[base_len + t2]@ == table@[
                                src as int
                            ]@[t2]@.push(i),
                    decreases table@[src as int]@.len() - j,
                {
                    let mut np = clone_indices(&table[src][j]);
                    proof {
                        assert(cell_ok(
                            numbers@,
                            i as int,
                            src - offset,
                            table@[src as int]@,
                        ));
                        assert(dp_entry_ok(
                            numbers@,
                            i as int,
                            src - offset,
                            table@[src as int]@[j as int]@,
                        ));
                        assert((np@.push(i)).drop_last() =~= np@);
                    }
                    np.push(i);
                    cell.push(np);
                    j = j + 1;
                }
            }
            // the finished cell is sound and complete for sums over the
            // first i + 1 elements
            proof {
                let nt = numbers@;
                let ucell = cell@;
                let old_cell = table@[u as int]@;
                assert(cell_ok(nt, i as int, u - offset, old_cell));
                assert forall|t2: int|
                    0 <= t2 < ucell.len() implies dp_entry_ok(
                    nt,
                    i + 1,
                    u - offset,
                    #[trigger] ucell[t2]@,
                ) by {
                    if t2 < base_len {
                        assert(ucell[t2]@ == old_cell[t2]@);
                        assert(dp_entry_ok(nt, i as int, u - offset, old_cell[t2]@));
                    } else {
                        let src = u - v;
                        let p0 = table@[src]@[t2 - base_len]@;
                        assert(cell@[base_len + (t2 - base_len)]@ == table@[src]@[t2
                            - base_len]@.push(i));
                        assert(ucell[t2]@ == p0.push(i));
                        assert(cell_ok(nt, i as int, src - offset, table@[src]@));
                        assert(dp_entry_ok(nt, i as int, src - offset, p0));
                        assert((p0.push(i)).drop_last() =~= p0);
                        assert(seq_sum(nt, p0.push(i)) == seq_sum(nt, p0) + nt[i as int]);
                    }
                }
                assert(cell_ok(nt, i + 1, u - offset, ucell));
                assert(cell_distinct(old_cell));
                assert forall|t1: int, t2: int|
                    0 <= t1 < t2 < ucell.len() implies (#[trigger] ucell[t1]@) != (
                #[trigger] ucell[t2]@) by {
                    if t2 < base_len {
                        assert(ucell[t1]@ == old_cell[t1]@);
                        assert(ucell[t2]@ == old_cell[t2]@);
                    } else if t1 < base_len {
                        // an old row keeps all entries below the new index,
                        // while a shifted row ends with it
                        let src = u - v;
                        assert(cell@[base_len + (t2 - base_len)]@ == table@[src]@[t2
                            - base_len]@.push(i));
                        let p2 = table@[src]@[t2 - base_len]@;
                        assert(ucell[t2]@ == p2.push(i));
                        assert(ucell[t2]@[ucell[t2]@.len() - 1] == i);
                        assert(dp_entry_ok(nt, i as int, u - offset, old_cell[t1]@));
                        if ucell[t1]@ == ucell[t2]@ {
                            assert(old_cell[t1]@[ucell[t2]@.len() - 1] < i);
                        }
                    } else {
                        let src = u - v;
                        assert(cell@[base_len + (t1 - base_len)]@ == table@[src]@[t1
                            - base_len]@.push(i));
                        assert(cell@[base_len + (t2 - base_len)]@ == table@[src]@[t2
                            - base_len]@.push(i));
                        let p1 = table@[src]@[t1 - base_len]@;
                        let p2 = table@[src]@[t2 - base_len]@;
                        assert(cell_distinct(table@[src]@));
                        assert(p1 != p2);
                        if ucell[t1]@ == ucell[t2]@ {
                            assert((p1.push(i)).drop_last() =~= p1);
                            assert((p2.push(i)).drop_last() =~= p2);
                            assert(p1 =~= p2);
                        }
                    }
                }
                assert(cell_distinct(ucell));
                assert forall|p: Seq<usize>|
                    dp_entry_ok(nt, i + 1, u - offset, p) implies dv_of(ucell).contains(p) by {
                    if p.len() > 0 && p.last() == i {
                        // the new index can only close the set: it is the
                        // largest, so the rest is a recorded set one value
                        // away
                        let p0 = p.drop_last();
                        assert(p0.push(i as usize) =~= p);
                        assert(forall|k2: int| 0 <= k2 < p0.len() ==> p0[k2] < i);
                        assert(seq_sum(nt, p) == seq_sum(nt, p0) + nt[i as int]);
                        lemma_seq_sum_in_range(nt, p0, i as int);
                        lemma_pos_neg_mono(nt, i as int, n as int);
                        let src = u - v;
                        assert(neg_sum <= seq_sum(nt, p0) <= pos_sum);
                        assert(seq_sum(nt, p0) == src - offset);
                        assert(0 <= src < range_len);
                        assert(in_shift_range);
                        assert(dp_entry_ok(nt, i as int, src - offset, p0));
                        assert(table_complete(nt, i as int, offset as int, table@));
                        assert(dv_of(table@[src]@).contains(p0));
                        let w = choose|w: int|
                            0 <= w < dv_of(table@[src]@).len() && dv_of(table@[src]@)[w] == p0;
                        assert(table@[src]@[w]@ == p0);
                        assert(cell@[base_len + w]@ == p0.push(i));
                        assert(dv_of(ucell)[base_len + w] == p);
                        assert(dv_of(ucell).contains(p));
                    } else {
                        // the new index is absent: the set was already
                        // recorded for this sum
                        assert forall|k2: int| 0 <= k2 < p.len() implies p[k2] < i by {
                            if p[k2] == i {
                                assert(k2 < p.len() - 1 ==> p[k2] < p[p.len() - 1] < i + 1);
                            }
                        }
                        assert(dp_entry_ok(nt, i as int, u - offset, p));
                        assert(dv_of(table@[u as int]@).contains(p));
                        let w = choose|w: int|
                            0 <= w < dv_of(table@[u as int]@).len() && dv_of(
                                table@[u as int]@,
                            )[w] == p;
                        assert(table@[u as int]@[w]@ == p);
                        assert(cell@[w]@ == p);
                        assert(dv_of(ucell)[w] == p);
                        assert(dv_of(ucell).contains(p));
                    }
                }
            }
            let ghost prev_new = new_table@;
            new_table.push(cell);
            proof {
                assert forall|u2: int|
                    0 <= u2 < new_table@.len() implies cell_ok(
                    numbers@,
                    i + 1,
                    u2 - offset,
                    #[trigger] new_table@[u2]@,
                ) by {
                    if u2 < prev_new.len() {
                        assert(new_table@[u2] == prev_new[u2]);
                    }
                }
                assert forall|u2: int, p: Seq<usize>|
                    0 <= u2 < new_table@.len() && dp_entry_ok(
                        numbers@,
                        i + 1,
                        u2 - offset,
                        p,
                    ) implies #[trigger] dv_of(new_table@[u2]@).contains(p) by {
                    if u2 < prev_new.len() {
                        assert(new_table@[u2] == prev_new[u2]);
                        assert(dv_of(prev_new[u2]@).contains(p));
                    }
                }
                assert forall|u2: int|
                    0 <= u2 < new_table@.len() implies cell_distinct(
                    #[trigger] new_table@[u2]@,
                ) by {
                    if u2 < prev_new.len() {
                        assert(new_table@[u2] == prev_new[u2]);
                    }
                }
            }
            u = u + 1;
        }
        table = new_table;
        i = i + 1;
    }
    // flag the non-empty cells, then collect the window
    let mut dp: Vec<bool> = Vec::new();
    let mut u: usize = 0;
    while u < range_len
        invariant
            0 <= u <= range_len,
            table@.len() == range_len,
            dp@.len() == u,
            forall|u2: int| 0 <= u2 < u ==> (#[trigger] dp@[u2] <==> table@[u2]@.len() > 0),
        decreases range_len - u,
    {
        dp.push(table[u].len() > 0);
        u = u + 1;
    }
    let mut results: Vec<Vec<usize>> = Vec::new();
    let ghost paths_view = table@;
    proof {
        lemma_pos_neg(numbers@, n as int);
        lemma_abs_upto_mono(numbers@, 0, n as int);
        // rows of different cells have different sums, so they differ
        assert forall|u1: int, t1: int, u2: int, t2: int|
            0 <= u1 < paths_view.len() && 0 <= u2 < paths_view.len() && u1 != u2 && 0 <= t1
                < paths_view[u1]@.len() && 0 <= t2 < paths_view[u2]@.len() implies (
        #[trigger] paths_view[u1]@[t1]@) != (#[trigger] paths_view[u2]@[t2]@) by {
            assert(cell_ok(numbers@, n as int, u1 - offset, paths_view[u1]@));
            assert(cell_ok(numbers@, n as int, u2 - offset, paths_view[u2]@));
            assert(dp_entry_ok(numbers@, n as int, u1 - offset, paths_view[u1]@[t1]@));
            assert(dp_entry_ok(numbers@, n as int, u2 - offset, paths_view[u2]@[t2]@));
        }
    }
    collect_results(
        dp,
        table,
        target,
        tolerance,
        offset,
        neg_sum,
        pos_sum,
        find_all,
        &mut results,
    );
    proof {
        let nt = numbers@;
        // every collected index set comes from a cell, so it is a valid
        // solution
        assert forall|j: int| 0 <= j < results@.len() implies valid_solution(
            nt,
            target,
            tolerance,
            results@[j]@,
        ) && increasing_solution(nt, target, tolerance, results@[j]@) by {
            let (u2, t2) = choose|u2: int, t2: int|
                0 <= u2 < paths_view.len() && in_window(u2 + neg_sum, target, tolerance) && 0 <= t2
                    < paths_view[u2]@.len() && results@[j]@ == #[trigger] paths_view[u2]@[t2]@;
            assert(cell_ok(nt, n as int, u2 - offset, paths_view[u2]@));
            assert(dp_entry_ok(nt, n as int, u2 - offset, paths_view[u2]@[t2]@));
            assert(u2 - offset == u2 + neg_sum);
        }
        if find_all {
            assert forall|q: Seq<usize>|
                increasing_solution(nt, target, tolerance, q) implies #[trigger] dv_of(
                results@,
            ).contains(q) by {
                lemma_seq_sum_in_range(nt, q, n as int);
                let sum = seq_sum(nt, q);
                let u2 = sum + offset;
                assert(0 <= u2 < paths_view.len());
                assert(dp_entry_ok(nt, n as int, u2 - offset, q));
                assert(dv_of(paths_view[u2]@).contains(q));
                let w = choose|w: int|
                    0 <= w < dv_of(paths_view[u2]@).len() && dv_of(paths_view[u2]@)[w] == q;
                assert(paths_view[u2]@[w]@ == q);
                assert(in_window(u2 + neg_sum, target, tolerance));
                assert(u2 + neg_sum < target + tolerance + 1);
                assert(dv_of(results@).contains(paths_view[u2]@[w]@));
            }
        }
    }
    proof {
        if !find_all && results@.len() >= 1 {
            let nt = numbers@;
            // the first collected row carries the least achievable window sum
            assert forall|q: Seq<usize>|
                #[trigger] increasing_solution(nt, target, tolerance, q) implies seq_sum(
                nt,
                results@[0]@,
            ) <= seq_sum(nt, q) by {
                let (u2, t2) = choose|u2: int, t2: int|
                    0 <= u2 < paths_view.len() && in_window(u2 + neg_sum, target, tolerance) && 0
                        <= t2 < paths_view[u2]@.len() && results@[0]@ == #[trigger] paths_view[
                        u2
                    ]@[t2]@ && (forall|u3: int|
                        0 <= u3 < u2 && in_window(
                            #[trigger] (u3 + neg_sum),
                            target,
                            tolerance,
                        ) ==> paths_view[u3]@.len() == 0);
                assert(cell_ok(nt, n as int, u2 - offset, paths_view[u2]@));
                assert(dp_entry_ok(nt, n as int, u2 - offset, paths_view[u2]@[t2]@));
                assert(seq_sum(nt, results@[0]@) == u2 + neg_sum);
                lemma_seq_sum_in_range(nt, q, n as int);
                let uq = seq_sum(nt, q) + offset;
                assert(0 <= uq < paths_view.len());
                assert(dp_entry_ok(nt, n as int, uq - offset, q));
                assert(dv_of(paths_view[uq]@).contains(q));
                assert(paths_view[uq]@.len() > 0);
                assert(in_window(uq + neg_sum, target, tolerance));
                if seq_sum(nt, q) < seq_sum(nt, results@[0]@) {
                    assert(uq < u2);
                    assert(paths_view[uq]@.len() == 0);
                }
            }
        }
    }
    if !find_all && results.len() > 1 {
        let first = clone_indices(&results[0]);
        let mut single: Vec<Vec<usize>> = Vec::new();
        single.push(first);
        proof {
            let nt = numbers@;
            assert(single@[0]@ == results@[0]@);
            assert(valid_solution(nt, target, tolerance, single@[0]@));
            assert(increasing_solution(nt, target, tolerance, single@[0]@));
            assert(results@.len() > 0);
            assert(window_nonempty(paths_view, neg_sum as int, target, tolerance));
            let u2 = choose|u2: int|
                0 <= u2 < paths_view.len() && in_window(
                    #[trigger] (u2 + neg_sum),
                    target,
                    tolerance,
                ) && paths_view[u2]@.len() > 0;
            assert(cell_ok(nt, n as int, u2 - offset, paths_view[u2]@));
            let q = paths_view[u2]@[0]@;
            assert(dp_entry_ok(nt, n as int, u2 - offset, q));
            assert(increasing_solution(nt, target, tolerance, q));
        }
        return single;
    }
    proof {
        let nt = numbers@;
        if !find_all {
            if results@.len() >= 1 {
                assert(window_nonempty(paths_view, neg_sum as int, target, tolerance));
                let u2 = choose|u2: int|
                    0 <= u2 < paths_view.len() && in_window(
                        #[trigger] (u2 + neg_sum),
                        target,
                        tolerance,
                    ) && paths_view[u2]@.len() > 0;
                assert(cell_ok(nt, n as int, u2 - offset, paths_view[u2]@));
                let q = paths_view[u2]@[0]@;
                assert(dp_entry_ok(nt, n as int, u2 - offset, q));
                assert(increasing_solution(nt, target, tolerance, q));
            }
            if exists|q: Seq<usize>| #[trigger] increasing_solution(nt, target, tolerance, q) {
                let q = choose|q: Seq<usize>|
                    #[trigger] increasing_solution(nt, target, tolerance, q);
                lemma_seq_sum_in_range(nt, q, n as int);
                let sum = seq_sum(nt, q);
                let u2 = sum + offset;
                assert(0 <= u2 < paths_view.len());
                assert(dp_entry_ok(nt, n as int, u2 - offset, q));
                assert(dv_of(paths_view[u2]@).contains(q));
                assert(paths_view[u2]@.len() > 0);
                assert(in_window(u2 + neg_sum, target, tolerance));
                assert(window_nonempty(paths_view, neg_sum as int, target, tolerance));
                assert(results@.len() > 0);
            }
        }
    }
    results
}

/// A suffix solution as the memoized search produces it: strictly
/// decreasing indices drawn from `[index, n)` whose removal from `remaining`
/// lands within the tolerance of zero.
pub open spec fn decreasing_suffix_solution(
    numbers: Seq<i64>,
    tolerance: i64,
    index: int,
    remaining: int,
    p: Seq<usize>,
) -> bool {
    &&& forall|k: int| 0 <= k < p.len() ==> index <= p[k] && p[k] < numbers.len()
    &&& forall|k1: int, k2: int| 0 <= k1 < k2 < p.len() ==> p[k1] > p[k2]
    &&& -tolerance <= remaining - seq_sum(numbers, p) <= tolerance
}

/// A cache entry for `(index, remaining)` holds only suffix solutions for
/// that key, and is empty exactly when the key has none.
pub open spec fn memo_entry_ok(
    numbers: Seq<i64>,
    tolerance: i64,
    find_all: bool,
    entry: (usize, i64, Vec<Vec<usize>>),
) -> bool {
    &&& forall|j: int|
        0 <= j < entry.2@.len() ==> decreasing_suffix_solution(
            numbers,
            tolerance,
            entry.0 as int,
            entry.1 as int,
            #[trigger] entry.2@[j]@,
        )
    &&& (entry.2@.len() > 0 <==> exists|p: Seq<usize>|
        decreasing_suffix_solution(numbers, tolerance, entry.0 as int, entry.1 as int, p))
    &&& (find_all ==> forall|p: Seq<usize>|
        decreasing_suffix_solution(numbers, tolerance, entry.0 as int, entry.1 as int, p)
            ==> #[trigger] dv_of(entry.2@).contains(p))
    &&& forall|t1: int, t2: int|
        0 <= t1 < t2 < entry.2@.len() ==> (#[trigger] entry.2@[t1]@) != (#[trigger] entry.2@[t2]@)
}

/// Every cache entry is consistent.
pub open spec fn memo_ok(
    numbers: Seq<i64>,
    tolerance: i64,
    find_all: bool,
    memo: Seq<(usize, i64, Vec<Vec<usize>>)>,
) -> bool {
    forall|e: int|
        0 <= e < memo.len() ==> memo_entry_ok(numbers, tolerance, find_all, #[trigger] memo[e])
}

/// Memoized include/exclude search from `index` with `remaining` still to be
/// matched: returns suffix solutions, all of them when `find_all` is set and
/// at most the first otherwise, and a non-empty answer exactly when one
/// exists. `chosen` records the indices already included, tying `remaining`
/// to the original target.
fn dp_search(
    numbers: &Vec<i64>,
    index: usize,
    remaining: i64,
    memo: &mut Vec<(usize, i64, Vec<Vec<usize>>)>,
    tolerance: i64,
    find_all: bool,
    Ghost(target): Ghost<i64>,
    Ghost(chosen): Ghost<Seq<usize>>,
) -> (r: Vec<Vec<usize>>)
    requires
        index <= numbers@.len(),
        tolerance >= 0,
        abs_total(numbers@) + abs1(target) + tolerance <= i64::MAX,
        memo_ok(numbers@, tolerance, find_all, old(memo)@),
        forall|k: int| 0 <= k < chosen.len() ==> chosen[k] < index && chosen[k] < numbers@.len(),
        forall|k1: int, k2: int| 0 <= k1 < k2 < chosen.len() ==> chosen[k1] < chosen[k2],
        remaining as int == target - seq_sum(numbers@, chosen),
    ensures
        memo_ok(numbers@, tolerance, find_all, final(memo)@),
        forall|j: int|
            0 <= j < r@.len() ==> decreasing_suffix_solution(
                numbers@,
                tolerance,
                index as int,
                remaining as int,
                #[trigger] r@[j]@,
            ),
        (r@.len() > 0 <==> exists|p: Seq<usize>|
            decreasing_suffix_solution(numbers@, tolerance, index as int, remaining as int, p)),
        !find_all ==> r@.len() <= 1,
        find_all ==> forall|p: Seq<usize>|
            decreasing_suffix_solution(numbers@, tolerance, index as int, remaining as int, p)
                ==> #[trigger] dv_of(r@).contains(p),
        forall|j1: int, j2: int| 0 <= j1 < j2 < r@.len() ==> (#[trigger] r@[j1]@) != (
        #[trigger] r@[j2]@),
    decreases numbers@.len() - index,
{
    let n = numbers.len();
    let nt = Ghost(numbers@);
    if index == n {
        let mut result: Vec<Vec<usize>> = Vec::new();
        if -tolerance <= remaining && remaining <= tolerance {
            let empty_path: Vec<usize> = Vec::new();
            result.push(empty_path);
            proof {
                assert(seq_sum(nt@, Seq::<usize>::empty()) == 0);
                assert(result@[0]@ =~= Seq::<usize>::empty());
                assert(decreasing_suffix_solution(
                    nt@,
                    tolerance,
                    index as int,
                    remaining as int,
                    result@[0]@,
                ));
                assert forall|p: Seq<usize>|
                    decreasing_suffix_solution(
                        nt@,
                        tolerance,
                        index as int,
                        remaining as int,
                        p,
                    ) implies dv_of(result@).contains(p) by {
                    assert(p.len() == 0) by {
                        if p.len() > 0 {
                            assert(index <= p[0] && p[0] < nt@.len());
                        }
                    }
                    assert(p =~= Seq::<usize>::empty());
                    assert(dv_of(result@)[0] == result@[0]@);
                    assert(dv_of(result@)[0] == p);
                }
            }
        } else {
            proof {
                assert forall|p: Seq<usize>|
                    !decreasing_suffix_solution(
                        nt@,
                        tolerance,
                        index as int,
                        remaining as int,
                        p,
                    ) by {
                    if decreasing_suffix_solution(nt@, tolerance, index as int, remaining as int, p) {
                        assert(p.len() == 0) by {
                            if p.len() > 0 {
                                assert(index <= p[0] && p[0] < nt@.len());
                            }
                        }
                        assert(p =~= Seq::<usize>::empty());
                        assert(seq_sum(nt@, p) == 0);
                    }
                }
            }
        }
        return result;
    }
    // cache lookup
    let mut m: usize = 0;
    while m < memo.len()
        invariant
            0 <= m <= memo@.len(),
            memo_ok(numbers@, tolerance, find_all, memo@),
        decreases memo@.len() - m,
    {
        if memo[m].0 == index && memo[m].1 == remaining {
            let cached = clone_paths(&memo[m].2);
            proof {
                assert(memo_entry_ok(numbers@, tolerance, find_all, memo@[m as int]));
                assert forall|j: int|
                    0 <= j < cached@.len() implies decreasing_suffix_solution(
                    numbers@,
                    tolerance,
                    index as int,
                    remaining as int,
                    #[trigger] cached@[j]@,
                ) by {
                    assert(cached@[j]@ == memo@[m as int].2@[j]@);
                }
                assert forall|t1: int, t2: int|
                    0 <= t1 < t2 < cached@.len() implies (#[trigger] cached@[t1]@) != (
                #[trigger] cached@[t2]@) by {
                    assert(cached@[t1]@ == memo@[m as int].2@[t1]@);
                    assert(cached@[t2]@ == memo@[m as int].2@[t2]@);
                }
                if find_all {
                    assert forall|p: Seq<usize>|
                        decreasing_suffix_solution(
                            numbers@,
                            tolerance,
                            index as int,
                            remaining as int,
                            p,
                        ) implies dv_of(cached@).contains(p) by {
                        assert(dv_of(memo@[m as int].2@).contains(p));
                        let w = choose|w: int|
                            0 <= w < dv_of(memo@[m as int].2@).len() && dv_of(
                                memo@[m as int].2@,
                            )[w] == p;
                        assert(cached@[w]@ == memo@[m as int].2@[w]@);
                        assert(dv_of(cached@)[w] == p);
                    }
                }
            }
            if !find_all && cached.len() > 1 {
                // a cached list may hold several; a single answer was asked
                let first = clone_indices(&cached[0]);
                let mut single: Vec<Vec<usize>> = Vec::new();
                single.push(first);
                proof {
                    assert(single@[0]@ == cached@[0]@);
                    assert(decreasing_suffix_solution(
                        numbers@,
                        tolerance,
                        index as int,
                        remaining as int,
                        single@[0]@,
                    ));
                }
                return single;
            }
            return cached;
        }
        m = m + 1;
    }
    let v = numbers[index];
    // exclude the current index
    let mut result = dp_search(
        numbers,
        index + 1,
        remaining,
        memo,
        tolerance,
        find_all,
        Ghost(target),
        Ghost(chosen),
    );
    proof {
        assert forall|j: int|
            0 <= j < result@.len() implies decreasing_suffix_solution(
            nt@,
            tolerance,
            index as int,
            remaining as int,
            #[trigger] result@[j]@,
        ) by {
            assert(decreasing_suffix_solution(
                nt@,
                tolerance,
                index + 1,
                remaining as int,
                result@[j]@,
            ));
        }
    }
    let ghost exclude_len = result@.len();
    let ghost exclude_view = result@;
    let ghost exclude_exists = exists|p: Seq<usize>|
        #[trigger] decreasing_suffix_solution(nt@, tolerance, index + 1, remaining as int, p);
    if !(!find_all && result.len() > 0) {
        // include the current index
        proof {
            assert((chosen.push(index)).drop_last() =~= chosen);
            crate::model::lemma_seq_sum_bound(nt@, chosen.push(index), nt@.len() as int);
            lemma_abs_upto_mono(nt@, 0, nt@.len() as int);
        }
        let next_remaining = remaining - v;
        let with_current = dp_search(
            numbers,
            index + 1,
            next_remaining,
            memo,
            tolerance,
            find_all,
            Ghost(target),
            Ghost(chosen.push(index)),
        );
        let ghost include_exists = exists|p: Seq<usize>|
            #[trigger] decreasing_suffix_solution(nt@, tolerance, index + 1, next_remaining as int, p);
        let mut j: usize = 0;
        while j < with_current.len()
            invariant
                0 <= j <= with_current@.len(),
                n == nt@.len(),
                nt@ == numbers@,
                index < n,
                v == nt@[index as int],
                tolerance >= 0,
                next_remaining == remaining - v,
                result@.len() == exclude_len + j,
                forall|j2: int|
                    0 <= j2 < with_current@.len() ==> decreasing_suffix_solution(
                        nt@,
                        tolerance,
                        index + 1,
                        next_remaining as int,
                        #[trigger] with_current@[j2]@,
                    ),
                forall|j2: int|
                    0 <= j2 < result@.len() ==> decreasing_suffix_solution(
                        nt@,
                        tolerance,
                        index as int,
                        remaining as int,
                        #[trigger] result@[j2]@,
                    ),
                exclude_view.len() == exclude_len,
                forall|w: int| 0 <= w < exclude_len ==> result@[w] == exclude_view[w],
                forall|w: int|
                    #![trigger with_current@[w]]
                    0 <= w < j ==> result@[exclude_len + w]@ == with_current@[w]@.push(index),
                forall|w: int|
                    0 <= w < exclude_len ==> decreasing_suffix_solution(
                        nt@,
                        tolerance,
                        index + 1,
                        remaining as int,
                        (#[trigger] exclude_view[w])@,
                    ),
                forall|w1: int, w2: int|
                    0 <= w1 < w2 < exclude_len ==> (#[trigger] exclude_view[w1]@) != (
                    #[trigger] exclude_view[w2]@),
                forall|w1: int, w2: int|
                    0 <= w1 < w2 < with_current@.len() ==> (#[trigger] with_current@[w1]@) != (
                    #[trigger] with_current@[w2]@),
                forall|j1: int, j2: int|
                    0 <= j1 < j2 < result@.len() ==> (#[trigger] result@[j1]@) != (
                    #[trigger] result@[j2]@),
            decreases with_current@.len() - j,
        {
            let mut np = clone_indices(&with_current[j]);
            proof {
                assert(decreasing_suffix_solution(
                    nt@,
                    tolerance,
                    index + 1,
                    next_remaining as int,
                    np@,
                ));
                assert((np@.push(index)).drop_last() =~= np@);
                assert(seq_sum(nt@, np@.push(index)) == seq_sum(nt@, np@) + v);
                assert(decreasing_suffix_solution(
                    nt@,
                    tolerance,
                    index as int,
                    remaining as int,
                    np@.push(index),
                ));
            }
            np.push(index);
            let ghost pre_push = result@;
            result.push(np);
            proof {
                // the new row ends with the current index: it differs from
                // every exclude row (whose entries are all later) and from
                // every earlier include row (built from a different suffix)
                assert forall|j1: int, j2: int|
                    0 <= j1 < j2 < result@.len() implies (#[trigger] result@[j1]@) != (
                #[trigger] result@[j2]@) by {
                    if j2 == result@.len() - 1 {
                        assert(result@[j2]@ == with_current@[j as int]@.push(index));
                        if j1 >= exclude_len {
                            assert(result@[j1] == pre_push[j1]);
                            assert(pre_push[exclude_len + (j1 - exclude_len)]@ == with_current@[
                                j1 - exclude_len
                            ]@.push(index));
                            let p1 = with_current@[j1 - exclude_len]@;
                            let p2 = with_current@[j as int]@;
                            assert(p1 != p2);
                            if result@[j1]@ == result@[j2]@ {
                                assert((p1.push(index)).drop_last() =~= p1);
                                assert((p2.push(index)).drop_last() =~= p2);
                                assert(p1 =~= p2);
                            }
                        } else {
                            assert(result@[j1] == exclude_view[j1]);
                            assert(decreasing_suffix_solution(
                                nt@,
                                tolerance,
                                index + 1,
                                remaining as int,
                                exclude_view[j1]@,
                            ));
                            if result@[j1]@ == result@[j2]@ {
                                assert(result@[j2]@[result@[j2]@.len() - 1] == index);
                                assert(exclude_view[j1]@[result@[j2]@.len() - 1] >= index + 1);
                            }
                        }
                    } else {
                        assert(result@[j1] == pre_push[j1] && result@[j2] == pre_push[j2]);
                    }
                }
            }
            j = j + 1;
        }
        proof {
            if find_all {
                // both branches are complete, so every suffix solution is a
                // row: one avoiding the current index sits in the exclude
                // part, one ending at it extends an include row
                assert forall|p: Seq<usize>|
                    decreasing_suffix_solution(
                        nt@,
                        tolerance,
                        index as int,
                        remaining as int,
                        p,
                    ) implies dv_of(result@).contains(p) by {
                    if p.len() > 0 && p[p.len() - 1] == index {
                        let p0 = p.drop_last();
                        assert(p0.push(index) =~= p);
                        assert(forall|k: int|
                            0 <= k < p0.len() ==> index + 1 <= p0[k] && p0[k] < nt@.len());
                        assert(seq_sum(nt@, p) == seq_sum(nt@, p0) + v);
                        assert(decreasing_suffix_solution(
                            nt@,
                            tolerance,
                            index + 1,
                            next_remaining as int,
                            p0,
                        ));
                        assert(dv_of(with_current@).contains(p0));
                        let w = choose|w: int|
                            0 <= w < dv_of(with_current@).len() && dv_of(with_current@)[w] == p0;
                        assert(with_current@[w]@ == p0);
                        assert(result@[exclude_len + w]@ == p0.push(index));
                        assert(dv_of(result@)[exclude_len + w] == p);
                        assert(dv_of(result@).contains(p));
                    } else {
                        assert forall|k: int| 0 <= k < p.len() implies index + 1 <= p[k] && p[k]
                            < nt@.len() by {
                            if p[k] == index {
                                assert(k < p.len() - 1 ==> p[k] > p[p.len() - 1] >= index);
                            }
                        }
                        assert(decreasing_suffix_solution(
                            nt@,
                            tolerance,
                            index + 1,
                            remaining as int,
                            p,
                        ));
                        assert(dv_of(exclude_view).contains(p));
                        let w = choose|w: int|
                            0 <= w < dv_of(exclude_view).len() && dv_of(exclude_view)[w] == p;
                        assert(result@[w] == exclude_view[w]);
                        assert(dv_of(result@)[w] == p);
                        assert(dv_of(result@).contains(p));
                    }
                }
            }
            if result@.len() == 0 {
                // neither branch found a suffix, so none exists
                assert(!exclude_exists && !include_exists);
                assert forall|p: Seq<usize>|
                    !decreasing_suffix_solution(
                        nt@,
                        tolerance,
                        index as int,
                        remaining as int,
                        p,
                    ) by {
                    if decreasing_suffix_solution(nt@, tolerance, index as int, remaining as int, p) {
                        if p.len() > 0 && p[p.len() - 1] == index {
                            let p0 = p.drop_last();
                            assert(p0.push(index) =~= p);
                            assert(forall|k: int|
                                0 <= k < p0.len() ==> index + 1 <= p0[k] && p0[k] < nt@.len());
                            assert(seq_sum(nt@, p) == seq_sum(nt@, p0) + v);
                            assert(decreasing_suffix_solution(
                                nt@,
                                tolerance,
                                index + 1,
                                next_remaining as int,
                                p0,
                            ));
                        } else {
                            assert forall|k: int| 0 <= k < p.len() implies index + 1 <= p[k]
                                && p[k] < nt@.len() by {
                                if p[k] == index {
                                    assert(k < p.len() - 1 ==> p[k] > p[p.len() - 1] >= index);
                                }
                            }
                            assert(decreasing_suffix_solution(
                                nt@,
                                tolerance,
                                index + 1,
                                remaining as int,
                                p,
                            ));
                        }
                    }
                }
            }
        }
    }
    // memoize the finished answer
    let cached = clone_paths(&result);
    let ghost pre_memo = memo@;
    memo.push((index, remaining, cached));
    proof {
        let entry = memo@[memo@.len() - 1];
        assert(entry.2@.len() == result@.len());
        assert forall|j: int|
            0 <= j < entry.2@.len() implies decreasing_suffix_solution(
            nt@,
            tolerance,
            entry.0 as int,
            entry.1 as int,
            #[trigger] entry.2@[j]@,
        ) by {
            assert(entry.2@[j]@ == result@[j]@);
        }
        if entry.2@.len() > 0 {
            assert(decreasing_suffix_solution(
                nt@,
                tolerance,
                index as int,
                remaining as int,
                result@[0]@,
            ));
        }
        if find_all {
            assert forall|p: Seq<usize>|
                decreasing_suffix_solution(
                    nt@,
                    tolerance,
                    index as int,
                    remaining as int,
                    p,
                ) implies dv_of(entry.2@).contains(p) by {
                assert(dv_of(result@).contains(p));
                let w = choose|w: int| 0 <= w < dv_of(result@).len() && dv_of(result@)[w] == p;
                assert(entry.2@[w]@ == result@[w]@);
                assert(dv_of(entry.2@)[w] == p);
            }
        }
        assert forall|t1: int, t2: int|
            0 <= t1 < t2 < entry.2@.len() implies (#[trigger] entry.2@[t1]@) != (
        #[trigger] entry.2@[t2]@) by {
            assert(entry.2@[t1]@ == result@[t1]@);
            assert(entry.2@[t2]@ == result@[t2]@);
        }
        assert(memo_entry_ok(nt@, tolerance, find_all, entry));
        assert forall|e: int|
            0 <= e < memo@.len() implies memo_entry_ok(
            nt@,
            tolerance,
            find_all,
            #[trigger] memo@[e],
        ) by {
            if e < pre_memo.len() {
                assert(memo@[e] == pre_memo[e]);
            }
        }
    }
    result
}

/// Memoized recursive dynamic programming: decide include/exclude per index
/// with a cache keyed by position and remaining target. Every returned index
/// set is a valid solution; the answer is non-empty exactly when a solution
/// exists; with `find_all` unset at most one solution is returned, and with
/// it set the result contains every solution in strictly decreasing index
/// order, the canonical form this search produces, each exactly once.
pub fn dp_with_memoization(
    numbers: &Vec<i64>,
    target: i64,
    tolerance: i64,
    find_all: bool,
) -> (r: Vec<Vec<usize>>)
    requires
        tolerance >= 0,
        abs_total(numbers@) + abs1(target) + tolerance <= i64::MAX,
    ensures
        forall|j: int| 0 <= j < r@.len() ==> valid_solution(numbers@, target, tolerance, r@[j]@),
        !find_all ==> r@.len() <= 1,
        (r@.len() > 0 <==> exists|p: Seq<usize>|
            decreasing_suffix_solution(numbers@, tolerance, 0, target as int, p)),
        find_all ==> forall|q: Seq<usize>|
            decreasing_suffix_solution(numbers@, tolerance, 0, target as int, q)
                ==> #[trigger] dv_of(r@).contains(q),
        forall|j1: int, j2: int| 0 <= j1 < j2 < r@.len() ==> (#[trigger] r@[j1]@) != (
        #[trigger] r@[j2]@),
{
    let mut memo: Vec<(usize, i64, Vec<Vec<usize>>)> = Vec::new();
    proof {
        assert(seq_sum(numbers@, Seq::<usize>::empty()) == 0);
    }
    let result = dp_search(
        numbers,
        0,
        target,
        &mut memo,
        tolerance,
        find_all,
        Ghost(target),
        Ghost(Seq::<usize>::empty()),
    );
    proof {
        assert forall|j: int|
            0 <= j < result@.len() implies valid_solution(
            numbers@,
            target,
            tolerance,
            result@[j]@,
        ) by {
            assert(decreasing_suffix_solution(numbers@, tolerance, 0, target as int, result@[j]@));
        }
    }
    result
}

} // verus!
