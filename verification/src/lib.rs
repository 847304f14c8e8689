//! Subset-sum solving engine.
//!
//! Given a sequence of signed integers, a target value and a non-negative
//! tolerance, the solvers find one or all index sets whose selected elements
//! sum within the closed window `[target - tolerance, target + tolerance]`.
//! Four interchangeable strategies are provided: exhaustive bit enumeration,
//! meet-in-the-middle, dynamic programming over sums, and pruned
//! branch-and-bound, together with a size-based selection policy.

use vstd::prelude::*;

pub mod bit_enum;
pub mod branch_bound;
pub mod dynamic_prog;
pub mod laws;
pub mod meet_middle;
pub mod model;
pub mod workers;

use crate::bit_enum::{bit_enum_expected, find_subset_sum_bit_enum_raw, mask_count};
use crate::branch_bound::find_subset_sum_branch_bound_raw;
use crate::dynamic_prog::find_subset_sum_dp_raw;
use crate::meet_middle::find_subset_sum_meet_middle_raw;
use crate::model::{abs1, abs_total, dv_of, in_window, increasing_solution, same_index_set, seq_sum, valid_solution};

verus! {

/// The four search strategies a caller can ask for by name.
#[derive(Clone, Copy, PartialEq, Eq, Structural, Debug)]
pub enum SolverChoice {
    BitEnum,
    MeetMiddle,
    Dp,
    BranchBound,
}

/// Relies on str's PartialEq: two string slices are equal exactly when
/// their characters are.
#[verifier::external_body]
fn str_eq(a: &str, b: &str) -> (r: bool)
    ensures
        r == (a@ == b@),
{
    a == b
}

/// The size-based fallback policy: small inputs get exhaustive enumeration,
/// medium inputs meet-in-the-middle, large inputs branch-and-bound. Dynamic
/// programming is never selected automatically.
pub open spec fn auto_choice(n: int) -> SolverChoice {
    if n <= 25 {
        SolverChoice::BitEnum
    } else if n <= 40 {
        SolverChoice::MeetMiddle
    } else {
        SolverChoice::BranchBound
    }
}

/// Which solver a given algorithm name selects for an input of `n` elements:
/// the four recognized names pick their solver, anything else falls back to
/// the automatic policy.
pub open spec fn spec_choice(algorithm: Seq<char>, n: int) -> SolverChoice {
    if algorithm == "bit_enum"@ {
        SolverChoice::BitEnum
    } else if algorithm == "meet_middle"@ {
        SolverChoice::MeetMiddle
    } else if algorithm == "dp"@ {
        SolverChoice::Dp
    } else if algorithm == "branch_bound"@ {
        SolverChoice::BranchBound
    } else {
        auto_choice(n)
    }
}

/// Resolve an algorithm name to a solver for an input of `n` elements.
pub fn select_algorithm(algorithm: &str, n: usize) -> (c: SolverChoice)
    ensures
        c == spec_choice(algorithm@, n as int),
{
    if str_eq(algorithm, "bit_enum") {
        SolverChoice::BitEnum
    } else if str_eq(algorithm, "meet_middle") {
        SolverChoice::MeetMiddle
    } else if str_eq(algorithm, "dp") {
        SolverChoice::Dp
    } else if str_eq(algorithm, "branch_bound") {
        SolverChoice::BranchBound
    } else if n <= 25 {
        SolverChoice::BitEnum
    } else if n <= 40 {
        SolverChoice::MeetMiddle
    } else {
        SolverChoice::BranchBound
    }
}

/// Solve a subset-sum problem with the named algorithm, or with the
/// size-based policy when the name is `auto` or unrecognized. Every returned
/// index set selects distinct in-range positions whose elements sum within
/// `tolerance` of `target`; with `find_all` unset at most one solution is
/// returned. The solver-specific guarantees of the chosen strategy carry
/// over to the result.
pub fn solve(
    numbers: &Vec<i64>,
    target: i64,
    tolerance: i64,
    find_all: bool,
    algorithm: &str,
) -> (r: Vec<Vec<usize>>)
    requires
        tolerance >= 0,
        abs_total(numbers@) + abs1(target) + tolerance <= i64::MAX,
        spec_choice(algorithm@, numbers@.len() as int) == SolverChoice::MeetMiddle
            ==> numbers@.len() <= 126,
        spec_choice(algorithm@, numbers@.len() as int) == SolverChoice::Dp ==> abs_total(numbers@)
            < usize::MAX,
    ensures
        forall|j: int| 0 <= j < r@.len() ==> valid_solution(numbers@, target, tolerance, r@[j]@),
        !find_all ==> r@.len() <= 1,
        spec_choice(algorithm@, numbers@.len() as int) == SolverChoice::BitEnum ==> dv_of(r@)
            == bit_enum_expected(
            numbers@,
            target,
            tolerance,
            find_all,
            0,
            mask_count(numbers@.len() as int),
        ),
        spec_choice(algorithm@, numbers@.len() as int) == SolverChoice::Dp && find_all
            ==> forall|q: Seq<usize>|
            increasing_solution(numbers@, target, tolerance, q) ==> #[trigger] dv_of(
                r@,
            ).contains(q),
        spec_choice(algorithm@, numbers@.len() as int) == SolverChoice::Dp && !find_all ==> (
        r@.len() == 1 <==> exists|q: Seq<usize>|
            #[trigger] increasing_solution(numbers@, target, tolerance, q)),
        spec_choice(algorithm@, numbers@.len() as int) == SolverChoice::BranchBound && in_window(
            0,
            target,
            tolerance,
        ) ==> r@.len() >= 1,
        spec_choice(algorithm@, numbers@.len() as int) == SolverChoice::MeetMiddle
            && numbers@.len() == 0 ==> r@.len() == 0,
        spec_choice(algorithm@, numbers@.len() as int) == SolverChoice::MeetMiddle
            && numbers@.len() == 1 ==> dv_of(r@) == (if in_window(
            numbers@[0] as int,
            target,
            tolerance,
        ) {
            seq![seq![0usize]]
        } else {
            Seq::<Seq<usize>>::empty()
        }),
        spec_choice(algorithm@, numbers@.len() as int) == SolverChoice::Dp || spec_choice(
            algorithm@,
            numbers@.len() as int,
        ) == SolverChoice::MeetMiddle ==> forall|j: int|
            0 <= j < r@.len() ==> increasing_solution(numbers@, target, tolerance, #[trigger] r@[j]@),
        spec_choice(algorithm@, numbers@.len() as int) == SolverChoice::MeetMiddle && find_all
            && numbers@.len() >= 2 ==> forall|q: Seq<usize>|
            increasing_solution(numbers@, target, tolerance, q) ==> #[trigger] dv_of(
                r@,
            ).contains(q),
        spec_choice(algorithm@, numbers@.len() as int) == SolverChoice::MeetMiddle && !find_all
            && numbers@.len() >= 2 ==> (r@.len() == 1 <==> exists|q: Seq<usize>|
            #[trigger] increasing_solution(numbers@, target, tolerance, q)),
        spec_choice(algorithm@, numbers@.len() as int) == SolverChoice::BranchBound && !find_all
            ==> (r@.len() == 1 <==> exists|q: Seq<usize>|
            #[trigger] valid_solution(numbers@, target, tolerance, q)),
        spec_choice(algorithm@, numbers@.len() as int) == SolverChoice::BranchBound && find_all
            ==> forall|q: Seq<usize>|
            #[trigger] valid_solution(numbers@, target, tolerance, q) ==> exists|j: int|
                0 <= j < r@.len() && same_index_set(#[trigger] r@[j]@, q),
        spec_choice(algorithm@, numbers@.len() as int) == SolverChoice::Dp && !find_all
            && r@.len() == 1 ==> forall|q: Seq<usize>|
            #[trigger] increasing_solution(numbers@, target, tolerance, q) ==> seq_sum(
                numbers@,
                r@[0]@,
            ) <= seq_sum(numbers@, q),
        spec_choice(algorithm@, numbers@.len() as int) == SolverChoice::Dp ==> forall|
            j1: int,
            j2: int,
        |
            0 <= j1 < j2 < r@.len() ==> (#[trigger] r@[j1]@) != (#[trigger] r@[j2]@),
{
    let n = numbers.len();
    let c = select_algorithm(algorithm, n);
    match c {
        SolverChoice::BitEnum => find_subset_sum_bit_enum_raw(numbers, target, tolerance, find_all),
        SolverChoice::MeetMiddle => find_subset_sum_meet_middle_raw(
            numbers,
            target,
            tolerance,
            find_all,
        ),
        SolverChoice::Dp => find_subset_sum_dp_raw(numbers, target, tolerance, find_all),
        SolverChoice::BranchBound => find_subset_sum_branch_bound_raw(
            numbers,
            target,
            tolerance,
            find_all,
        ),
    }
}

/// The rows of a result flattened into one sequence, in row order.
pub open spec fn flatten_rows(s: Seq<Seq<usize>>) -> Seq<usize>
    decreases s.len(),
{
    if s.len() == 0 {
        Seq::empty()
    } else {
        flatten_rows(s.drop_last()) + s.last()
    }
}

/// Turn a result into the flat shape a foreign caller receives: the row
/// count, the length of each row, and all indices flattened in row order.
pub fn convert_result_to_c_format(result: &Vec<Vec<usize>>) -> (r: (u32, Vec<u32>, Vec<u32>))
    requires
        result@.len() <= u32::MAX,
        forall|j: int| 0 <= j < result@.len() ==> (#[trigger] result@[j]@.len()) <= u32::MAX,
        forall|j: int, k: int|
            0 <= j < result@.len() && 0 <= k < result@[j]@.len() ==> (#[trigger] result@[j]@[k])
                <= u32::MAX,
    ensures
        r.0 == result@.len(),
        r.1@.len() == result@.len(),
        forall|j: int| 0 <= j < result@.len() ==> r.1@[j] == result@[j]@.len(),
        r.2@.map_values(|x: u32| x as usize) == flatten_rows(dv_of(result@)),
{
    let rows = result.len() as u32;
    let mut cols_vec: Vec<u32> = Vec::new();
    let mut flat_data: Vec<u32> = Vec::new();
    let mut j: usize = 0;
    proof {
        assert(dv_of(result@.subrange(0, 0)) =~= Seq::<Seq<usize>>::empty());
        assert(flat_data@.map_values(|x: u32| x as usize) =~= flatten_rows(
            dv_of(result@.subrange(0, 0)),
        ));
    }
    while j < result.len()
        invariant
            0 <= j <= result@.len(),
            result@.len() <= u32::MAX,
            forall|j2: int| 0 <= j2 < result@.len() ==> (#[trigger] result@[j2]@.len()) <= u32::MAX,
            forall|j2: int, k: int|
                0 <= j2 < result@.len() && 0 <= k < result@[j2]@.len() ==> (#[trigger] result@[
                    j2
                ]@[k]) <= u32::MAX,
            cols_vec@.len() == j,
            forall|j2: int| 0 <= j2 < j ==> cols_vec@[j2] == result@[j2]@.len(),
            flat_data@.map_values(|x: u32| x as usize) == flatten_rows(
                dv_of(result@.subrange(0, j as int)),
            ),
        decreases result@.len() - j,
    {
        let row = &result[j];
        cols_vec.push(row.len() as u32);
        let ghost row_base = flat_data@;
        let mut k: usize = 0;
        while k < row.len()
            invariant
                0 <= k <= row@.len(),
                row@ == result@[j as int]@,
                0 <= j < result@.len(),
                forall|j2: int, k2: int|
                    0 <= j2 < result@.len() && 0 <= k2 < result@[j2]@.len() ==> (#[trigger] result@[
                        j2
                    ]@[k2]) <= u32::MAX,
                flat_data@.len() == row_base.len() + k,
                forall|t: int| 0 <= t < row_base.len() ==> flat_data@[t] == row_base[t],
                forall|t: int|
                    0 <= t < k ==> flat_data@[row_base.len() + t] as usize == row@[t],
            decreases row@.len() - k,
        {
            flat_data.push(row[k] as u32);
            k = k + 1;
        }
        proof {
            let pre = result@.subrange(0, j as int);
            let cur = result@.subrange(0, j + 1);
            assert(cur.drop_last() =~= pre);
            assert(dv_of(cur).drop_last() =~= dv_of(pre));
            assert(dv_of(cur).last() == result@[j as int]@);
            assert(flatten_rows(dv_of(cur)) == flatten_rows(dv_of(cur).drop_last()) + dv_of(
                cur,
            ).last());
            assert(flat_data@.map_values(|x: u32| x as usize) =~= flatten_rows(dv_of(cur)));
        }
        j = j + 1;
    }
    proof {
        assert(result@.subrange(0, result@.len() as int) =~= result@);
    }
    (rows, cols_vec, flat_data)
}

} // verus!
