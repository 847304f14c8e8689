use subset_solver::bit_enum::find_subset_sum_bit_enum_raw;
use subset_solver::branch_bound::find_subset_sum_branch_bound_raw;
use subset_solver::dynamic_prog::dp_with_memoization;
use subset_solver::dynamic_prog::find_subset_sum_dp_raw;
use subset_solver::meet_middle::find_subset_sum_meet_middle_raw;
use subset_solver::solve;
use subset_solver::{select_algorithm, SolverChoice};

fn sum_of(numbers: &[i64], indices: &[usize]) -> i64 {
    indices.iter().map(|&i| numbers[i]).sum()
}

/// The distinct solutions as sorted index lists, themselves sorted, so that
/// results can be compared across algorithms regardless of order.
fn normalized(results: &[Vec<usize>]) -> Vec<Vec<usize>> {
    let mut sets: Vec<Vec<usize>> = results
        .iter()
        .map(|s| {
            let mut s = s.clone();
            s.sort();
            s
        })
        .collect();
    sets.sort();
    sets.dedup();
    sets
}

#[test]
fn test_bit_enum_simple() {
    let numbers = vec![1, 2, 3, 4, 5];
    let target = 9;
    let precision = 0;

    let results = find_subset_sum_bit_enum_raw(&numbers, target, precision, true);

    // three element sets sum to 9: {4,5}, {2,3,4} and {1,3,5}
    assert_eq!(results.len(), 3);

    let sums: Vec<i64> = results
        .iter()
        .map(|indices| indices.iter().map(|&i| numbers[i]).sum())
        .collect();

    for sum in sums {
        assert_eq!(sum, target);
    }
}

#[test]
fn test_find_subset_sum_branch_bound_raw() {
    let numbers = vec![1, 2, 3, 4, 5, 6, 7, 8, 9];
    let target = 10;
    let precision = 0;
    let find_all = false;

    let results = find_subset_sum_branch_bound_raw(&numbers, target, precision, find_all);

    assert_eq!(results.len(), 1);
    // any index set summing to the target is acceptable
    assert_eq!(sum_of(&numbers, &results[0]), 10);
}

#[test]
fn test_dp_simple() {
    let numbers = vec![1, 2, 3, 4, 5];
    let target = 9;
    let precision = 0;

    let results = find_subset_sum_dp_raw(&numbers, target, precision, true);

    for indices in &results {
        let sum: i64 = indices.iter().map(|&i| numbers[i]).sum();
        assert_eq!(sum, target);
    }
}

#[test]
fn test_meet_middle_simple() {
    let numbers = vec![1, 2, 3, 4, 5, 6, 7, 8];
    let target = 15;
    let precision = 0;

    let results = find_subset_sum_meet_middle_raw(&numbers, target, precision, true);

    for indices in &results {
        let sum: i64 = indices.iter().map(|&i| numbers[i]).sum();
        assert_eq!(sum, target);
    }
}

#[test]
fn scenario_all_sets_of_nine() {
    // numbers 1..=5, target 9, exact matching, every solution asked for
    let numbers = vec![1, 2, 3, 4, 5];
    let results = find_subset_sum_bit_enum_raw(&numbers, 9, 0, true);
    let sets = normalized(&results);
    assert_eq!(sets, vec![vec![0, 2, 4], vec![1, 2, 3], vec![3, 4]]);

    let dp = normalized(&find_subset_sum_dp_raw(&numbers, 9, 0, true));
    assert_eq!(dp, sets);
    let mm = normalized(&find_subset_sum_meet_middle_raw(&numbers, 9, 0, true));
    assert_eq!(mm, sets);
    let bb = normalized(&find_subset_sum_branch_bound_raw(&numbers, 9, 0, true));
    assert_eq!(bb, sets);
}

#[test]
fn scenario_single_answer() {
    // numbers 1..=9, target 10, exact matching, one solution asked for
    let numbers: Vec<i64> = (1..=9).collect();
    for algorithm in ["bit_enum", "meet_middle", "dp", "branch_bound"] {
        let results = solve(&numbers, 10, 0, false, algorithm);
        assert_eq!(results.len(), 1, "algorithm {algorithm}");
        assert_eq!(sum_of(&numbers, &results[0]), 10, "algorithm {algorithm}");
    }
}

#[test]
fn scenario_empty_input() {
    // an empty input yields either no solution or exactly the empty one
    let numbers: Vec<i64> = vec![];
    for algorithm in ["bit_enum", "meet_middle", "dp", "branch_bound"] {
        let results = solve(&numbers, 0, 0, true, algorithm);
        assert!(
            results.is_empty() || results == vec![Vec::<usize>::new()],
            "algorithm {algorithm}: {results:?}"
        );
        // each algorithm answers the same way every time
        let again = solve(&numbers, 0, 0, true, algorithm);
        assert_eq!(results, again, "algorithm {algorithm}");
    }
}

#[test]
fn scenario_single_element_tolerance() {
    // |5 - 5| = 0 <= 2: the one-element set matches
    let numbers = vec![5];
    for algorithm in ["bit_enum", "meet_middle", "dp", "branch_bound"] {
        let results = solve(&numbers, 5, 2, true, algorithm);
        assert!(
            results.contains(&vec![0usize]),
            "algorithm {algorithm}: {results:?}"
        );
        for s in &results {
            let sum = sum_of(&numbers, s);
            assert!((sum - 5).abs() <= 2, "algorithm {algorithm}");
        }
    }
    // |5 - 10| = 5 > 2: nothing matches
    for algorithm in ["bit_enum", "meet_middle", "dp", "branch_bound"] {
        let results = solve(&numbers, 10, 2, true, algorithm);
        assert!(results.is_empty(), "algorithm {algorithm}: {results:?}");
    }
}

#[test]
fn algorithms_agree_on_valid_sets() {
    // the same problem, negative values included, must give the same set of
    // solutions under every algorithm
    let numbers = vec![3, -1, 4, 2, -2];
    let expected = normalized(&find_subset_sum_bit_enum_raw(&numbers, 2, 0, true));
    assert!(!expected.is_empty());
    for algorithm in ["meet_middle", "dp", "branch_bound"] {
        let results = solve(&numbers, 2, 0, true, algorithm);
        for s in &results {
            assert_eq!(sum_of(&numbers, s), 2, "algorithm {algorithm}");
        }
        assert_eq!(normalized(&results), expected, "algorithm {algorithm}");
    }
}

#[test]
fn algorithms_agree_within_tolerance() {
    let numbers = vec![7, -3, 5, 1];
    let expected = normalized(&find_subset_sum_bit_enum_raw(&numbers, 4, 1, true));
    for algorithm in ["meet_middle", "dp", "branch_bound"] {
        let results = solve(&numbers, 4, 1, true, algorithm);
        for s in &results {
            let sum = sum_of(&numbers, s);
            assert!((sum - 4).abs() <= 1, "algorithm {algorithm}");
        }
        assert_eq!(normalized(&results), expected, "algorithm {algorithm}");
    }
}

#[test]
fn solving_twice_gives_identical_results() {
    let numbers = vec![1, 2, 3, 4, 5, 6];
    for algorithm in ["bit_enum", "meet_middle", "dp", "branch_bound"] {
        for find_all in [false, true] {
            let first = solve(&numbers, 7, 0, find_all, algorithm);
            let second = solve(&numbers, 7, 0, find_all, algorithm);
            assert_eq!(first, second, "algorithm {algorithm}");
        }
    }
}

#[test]
fn unrecognized_name_falls_back_to_auto() {
    // on an empty input the automatic policy picks bit enumeration, which
    // records the empty selection for target zero
    let numbers: Vec<i64> = vec![];
    let results = solve(&numbers, 0, 0, true, "whatever");
    assert_eq!(results, vec![Vec::<usize>::new()]);
    let auto = solve(&numbers, 0, 0, true, "auto");
    assert_eq!(auto, results);
    // an explicit name is honored: meet-in-the-middle returns nothing on an
    // empty input, so name dispatch is observable
    let named = solve(&numbers, 0, 0, true, "meet_middle");
    assert!(named.is_empty());
}

#[test]
fn dp_memoization_matches_table() {
    let numbers = vec![1, 2, 3, 4, 5];
    let memo = dp_with_memoization(&numbers, 9, 0, true);
    assert_eq!(
        normalized(&memo),
        vec![vec![0, 2, 4], vec![1, 2, 3], vec![3, 4]]
    );
    let single = dp_with_memoization(&numbers, 9, 0, false);
    assert_eq!(single.len(), 1);
    assert_eq!(sum_of(&numbers, &single[0]), 9);
    let none = dp_with_memoization(&numbers, 100, 0, true);
    assert!(none.is_empty());
}

#[test]
fn dp_handles_negative_values() {
    let numbers = vec![-5, 3, 8, -2];
    let results = find_subset_sum_dp_raw(&numbers, 1, 0, true);
    let sets = normalized(&results);
    // 3 + (-2) = 1 and -5 + 8 + (-2) = 1
    assert_eq!(sets, vec![vec![0, 2, 3], vec![1, 3]]);
}

#[test]
fn find_all_false_returns_at_most_one() {
    let numbers = vec![2, 2, 2, 2];
    for algorithm in ["bit_enum", "meet_middle", "dp", "branch_bound"] {
        let results = solve(&numbers, 4, 0, false, algorithm);
        assert_eq!(results.len(), 1, "algorithm {algorithm}");
        assert_eq!(sum_of(&numbers, &results[0]), 4, "algorithm {algorithm}");
        let nothing = solve(&numbers, 9, 0, false, algorithm);
        assert!(nothing.is_empty(), "algorithm {algorithm}");
    }
}

#[test]
fn tolerance_window_is_closed() {
    // both edges of [target - tolerance, target + tolerance] match
    let numbers = vec![4, 8];
    let results = find_subset_sum_bit_enum_raw(&numbers, 6, 2, true);
    let sets = normalized(&results);
    assert_eq!(sets, vec![vec![0], vec![1]]);
}

#[test]
fn flat_conversion_has_exact_shape() {
    let result = vec![vec![1usize, 2], vec![], vec![4usize, 0, 3]];
    let (rows, cols, flat) = subset_solver::convert_result_to_c_format(&result);
    assert_eq!(rows, 3);
    assert_eq!(cols, vec![2, 0, 3]);
    assert_eq!(flat, vec![1, 2, 4, 0, 3]);
}

#[test]
fn selection_policy_thresholds() {
    assert_eq!(select_algorithm("auto", 0), SolverChoice::BitEnum);
    assert_eq!(select_algorithm("auto", 25), SolverChoice::BitEnum);
    assert_eq!(select_algorithm("auto", 26), SolverChoice::MeetMiddle);
    assert_eq!(select_algorithm("auto", 40), SolverChoice::MeetMiddle);
    assert_eq!(select_algorithm("auto", 41), SolverChoice::BranchBound);
    // unrecognized names follow the same policy; dp is never automatic
    assert_eq!(select_algorithm("unknown", 30), SolverChoice::MeetMiddle);
    assert_eq!(select_algorithm("dp", 41), SolverChoice::Dp);
    assert_eq!(select_algorithm("bit_enum", 100), SolverChoice::BitEnum);
    assert_eq!(select_algorithm("branch_bound", 3), SolverChoice::BranchBound);
    assert_eq!(select_algorithm("meet_middle", 3), SolverChoice::MeetMiddle);
}

#[test]
fn bit_enum_order_is_ascending_masks() {
    // masks are tried in ascending order: {0} (mask 1) comes before {1}
    // (mask 2), and with find_all unset the first match alone is kept
    let numbers = vec![5, 5];
    let all = find_subset_sum_bit_enum_raw(&numbers, 5, 0, true);
    assert_eq!(all, vec![vec![0usize], vec![1usize]]);
    let first = find_subset_sum_bit_enum_raw(&numbers, 5, 0, false);
    assert_eq!(first, vec![vec![0usize]]);
}

#[test]
fn no_duplicate_rows_under_find_all() {
    // the table and memoized DP results never repeat an index set, and
    // meet-in-the-middle emits each (first-half, second-half) pairing once
    let numbers = vec![1, 2, 3, 4, 5];
    for results in [
        find_subset_sum_dp_raw(&numbers, 9, 0, true),
        dp_with_memoization(&numbers, 9, 0, true),
        find_subset_sum_meet_middle_raw(&numbers, 9, 0, true),
    ] {
        let mut rows = results.clone();
        rows.sort();
        let mut deduped = rows.clone();
        deduped.dedup();
        assert_eq!(rows, deduped, "{results:?}");
    }
}
