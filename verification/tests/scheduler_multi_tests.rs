use sched_alloc::hungarian::{find_solutions, find_solutions_round, subtract_col_mins, subtract_row_mins, RoundOutcome};
use sched_alloc::matching::{greedy_assignment, pairs_for_matrix, pairs_from_assignment};
use sched_alloc::time_budget::{make_matrix, map_time_budget, realtime_requirement, time_budget_matrix};
use std::collections::HashMap;

fn relative_computing_time() -> Vec<Vec<i32>> {
    vec![
        vec![3, 4, 4, 5, 5, 4],
        vec![1, 2, 2, 2, 2, 2],
        vec![2, 3, 3, 3, 4, 3],
        vec![8, 9, 10, 12, 14, 9],
        vec![2, 3, 3, 3, 4, 3],
        vec![1, 2, 2, 2, 2, 2],
    ]
}

fn start_time() -> Vec<i32> {
    vec![0, 0, 0, 0, 0, 0]
}

fn end_time() -> Vec<i32> {
    vec![8, 4, 9, 6, 5, 6]
}

fn expected_budget() -> Vec<Vec<i32>> {
    vec![
        vec![3, 2, 2, 1, 1, 2],
        vec![1, 0, 0, 0, 0, 0],
        vec![5, 4, 4, 4, 3, 4],
        vec![-4, -5, -6, -8, -10, -5],
        vec![1, 0, 0, 0, -1, 0],
        vec![3, 2, 2, 2, 2, 2],
    ]
}

fn expected_mapped() -> Vec<Vec<i32>> {
    vec![
        vec![0, 0, 0, 0, 0, 0],
        vec![0, 0, 0, 0, 0, 0],
        vec![0, 0, 0, 0, 0, 0],
        vec![4, 5, 6, 8, 10, 5],
        vec![0, 0, 0, 0, 1, 0],
        vec![0, 0, 0, 0, 0, 0],
    ]
}

fn map_of(pairs: &[(usize, usize)]) -> HashMap<usize, usize> {
    pairs.iter().cloned().collect()
}

#[test]
fn time_budget_matrix_matches_the_worked_example() {
    let m = time_budget_matrix(&relative_computing_time(), 2, &start_time(), &end_time());
    assert_eq!(m, expected_budget());
}

#[test]
fn realtime_requirement_sums_the_budget() {
    assert_eq!(realtime_requirement(&expected_budget()), (11, true));
    assert_eq!(realtime_requirement(&vec![vec![-3, 1], vec![1, 0]]), (-1, false));
    assert_eq!(realtime_requirement(&vec![]), (0, true));
}

#[test]
fn map_time_budget_keeps_only_shortfalls() {
    assert_eq!(map_time_budget(&expected_budget()), expected_mapped());
    assert_eq!(map_time_budget(&vec![vec![0, -7, 2]]), vec![vec![0, 7, 0]]);
}

#[test]
fn make_matrix_matches_the_worked_example() {
    let m = make_matrix(&relative_computing_time(), 2, &start_time(), &end_time());
    assert_eq!(m, expected_mapped());
}

#[test]
fn subtract_row_mins_leaves_a_zero_in_each_row() {
    let m = subtract_row_mins(&vec![vec![3, 1], vec![2, 5]]).unwrap();
    assert_eq!(m, vec![vec![2, 0], vec![0, 3]]);
    assert_eq!(subtract_row_mins(&vec![vec![i32::MAX, i32::MIN], vec![0, 0]]), None);
}

#[test]
fn subtract_col_mins_covers_every_row() {
    assert_eq!(subtract_col_mins(&vec![vec![1, 2], vec![3, 4]]), vec![vec![0, 0], vec![2, 2]]);
    assert_eq!(subtract_col_mins(&vec![vec![2, 0], vec![0, 3]]), vec![vec![2, 0], vec![0, 3]]);
}

#[test]
fn reduction_leaves_a_zero_in_every_row_and_column() {
    let m = subtract_col_mins(&subtract_row_mins(&vec![vec![4, 7, 3], vec![2, 9, 8], vec![6, 5, 9]]).unwrap());
    for row in m.iter() {
        assert!(row.contains(&0));
    }
    for c in 0..3 {
        assert!(m.iter().any(|row| row[c] == 0));
    }
}

#[test]
fn pairs_for_matrix_pairs_the_worked_example() {
    let reduced = vec![
        vec![0, 0, 0, 0, 0, 0],
        vec![0, 0, 0, 0, 0, 0],
        vec![0, 0, 0, 0, 0, 0],
        vec![0, 1, 2, 4, 6, 1],
        vec![0, 0, 0, 0, 1, 0],
        vec![0, 0, 0, 0, 0, 0],
    ];
    let pairs = pairs_for_matrix(&reduced);
    assert_eq!(pairs, map_of(&[(0, 3), (1, 1), (5, 4), (2, 2), (4, 5), (3, 0)]));
}

#[test]
fn pairs_for_matrix_diagonal() {
    let pairs = pairs_for_matrix(&vec![vec![0, 1], vec![1, 0]]);
    assert_eq!(pairs, map_of(&[(0, 0), (1, 1)]));
}

#[test]
fn pairs_for_matrix_leaves_a_task_without_zeros_unpaired() {
    let pairs = pairs_for_matrix(&vec![vec![0, 0], vec![3, 3]]);
    assert_eq!(pairs, map_of(&[(0, 0)]));
}

#[test]
fn greedy_assignment_marks_used_nodes() {
    let (assigned, used) = greedy_assignment(&vec![vec![0, 1], vec![1, 0]]);
    assert_eq!(assigned, vec![Some(0), Some(1)]);
    assert_eq!(used, vec![true, true]);
    assert_eq!(pairs_from_assignment(&assigned), map_of(&[(0, 0), (1, 1)]));
}

#[test]
fn find_solutions_solves_the_worked_example() {
    let result = find_solutions(&expected_mapped());
    assert_eq!(result, Some(map_of(&[(0, 3), (1, 1), (5, 4), (2, 2), (4, 5), (3, 0)])));
}

#[test]
fn find_solutions_single_task() {
    assert_eq!(find_solutions(&vec![vec![5]]), Some(map_of(&[(0, 0)])));
}

#[test]
fn find_solutions_round_solves_a_reduced_matrix() {
    match find_solutions_round(&vec![vec![1, 2], vec![3, 4]]) {
        RoundOutcome::Solved(pairs) => assert_eq!(pairs, map_of(&[(0, 0), (1, 1)])),
        _ => panic!("expected a solution in one round"),
    }
}

#[test]
fn pairs_for_matrix_leaves_a_task_unpaired_when_no_node_can_be_freed() {
    // task 2 only links to node 1; the first task linked to node 1 is task
    // 0, whose node 0 task 2 does not link to, so task 2 stays unpaired
    let pairs = pairs_for_matrix(&vec![vec![0, 0, 0], vec![1, 0, 1], vec![1, 0, 1]]);
    assert_eq!(pairs, map_of(&[(0, 0), (1, 1)]));
    let pairs = pairs_for_matrix(&vec![
        vec![0, 0, 1, 0],
        vec![1, 0, 1, 1],
        vec![1, 0, 1, 1],
        vec![1, 1, 1, 1],
    ]);
    assert_eq!(pairs, map_of(&[(0, 0), (1, 1)]));
}

#[test]
fn pairs_for_matrix_moves_the_first_task_linked_to_the_wanted_node() {
    // task 1 links only to node 0, which task 0 holds; task 0 moves on to
    // node 1 and task 1 takes node 0
    let pairs = pairs_for_matrix(&vec![vec![0, 0], vec![0, 1]]);
    assert_eq!(pairs, map_of(&[(0, 1), (1, 0)]));
    // task 2's first node is 0; the first task linked to node 0 is task 0,
    // which holds node 1 by then: task 2 takes node 1 and task 0 moves on
    // to node 2
    let pairs = pairs_for_matrix(&vec![vec![0, 0, 0], vec![0, 1, 1], vec![0, 0, 1]]);
    assert_eq!(pairs, map_of(&[(0, 2), (1, 0), (2, 1)]));
}

fn cheapest_from(matrix: &Vec<Vec<i32>>, row: usize, used: &mut Vec<bool>) -> i64 {
    if row == matrix.len() {
        return 0;
    }
    let mut best = i64::MAX;
    for col in 0..matrix.len() {
        if !used[col] {
            used[col] = true;
            let rest = cheapest_from(matrix, row + 1, used);
            used[col] = false;
            best = best.min(matrix[row][col] as i64 + rest);
        }
    }
    best
}

fn cheapest_cost(matrix: &Vec<Vec<i32>>) -> i64 {
    cheapest_from(matrix, 0, &mut vec![false; matrix.len()])
}

fn cost_of(matrix: &Vec<Vec<i32>>, pairs: &HashMap<usize, usize>) -> i64 {
    (0..matrix.len()).map(|t| matrix[t][pairs[&t]] as i64).sum()
}

#[test]
fn find_solutions_returns_an_assignment_of_least_cost() {
    let matrix = expected_mapped();
    let pairs = find_solutions(&matrix).unwrap();
    assert_eq!(cost_of(&matrix, &pairs), cheapest_cost(&matrix));
    let matrix = vec![vec![7, 2, 9], vec![3, 8, 4], vec![6, 5, 1]];
    let pairs = find_solutions(&matrix).unwrap();
    assert_eq!(cost_of(&matrix, &pairs), cheapest_cost(&matrix));
    assert_eq!(cost_of(&matrix, &pairs), 6);
}

#[test]
fn find_solutions_grows_the_pairing_along_a_path_of_zeros() {
    // greedy pairing gives rows 0 and 1 their first zeros; row 2 needs
    // row 0 to move, which a path of zeros allows
    let matrix = vec![vec![0, 0, 1], vec![1, 0, 0], vec![0, 1, 1]];
    let pairs = find_solutions(&matrix).unwrap();
    assert_eq!(pairs, map_of(&[(0, 1), (1, 2), (2, 0)]));
    assert_eq!(cost_of(&matrix, &pairs), 0);
}

#[test]
fn find_solutions_shifts_until_a_zero_assignment_exists() {
    let matrix = vec![vec![0, 0, 1, 0], vec![1, 0, 1, 1], vec![5, 0, 1, 1], vec![1, 1, 0, 1]];
    let pairs = find_solutions(&matrix).unwrap();
    assert_eq!(cost_of(&matrix, &pairs), cheapest_cost(&matrix));
    assert_eq!(cost_of(&matrix, &pairs), 1);
    let matrix = vec![vec![4, 1, 3], vec![2, 0, 5], vec![3, 2, 2]];
    let pairs = find_solutions(&matrix).unwrap();
    assert_eq!(cost_of(&matrix, &pairs), cheapest_cost(&matrix));
    assert_eq!(cost_of(&matrix, &pairs), 5);
    let matrix = vec![
        vec![9, 2, 7, 8, 6],
        vec![6, 4, 3, 7, 5],
        vec![5, 8, 1, 8, 7],
        vec![7, 6, 9, 4, 3],
        vec![2, 9, 8, 5, 6],
    ];
    let pairs = find_solutions(&matrix).unwrap();
    assert_eq!(cost_of(&matrix, &pairs), cheapest_cost(&matrix));
}

#[test]
fn find_solutions_round_shifts_when_a_task_has_no_zero() {
    match find_solutions_round(&vec![vec![0, 0], vec![0, 5]]) {
        RoundOutcome::Solved(pairs) => assert_eq!(pairs, map_of(&[(0, 1), (1, 0)])),
        _ => panic!("a path of zeros pairs both tasks"),
    }
    // tasks 1 and 2 link only to node 0: the reached tasks 1 and 2 give up
    // one and the reached node 0 gets it back
    match find_solutions_round(&vec![vec![0, 0, 0], vec![0, 1, 1], vec![0, 1, 1]]) {
        RoundOutcome::Next(m) => assert_eq!(m, vec![vec![1, 0, 0], vec![0, 0, 0], vec![0, 0, 0]]),
        _ => panic!("the third task needs a shift"),
    }
}

#[test]
fn find_solutions_handles_the_largest_entries() {
    let big = i32::MAX;
    let matrix = vec![vec![big, 0], vec![0, big]];
    assert_eq!(find_solutions(&matrix), Some(map_of(&[(0, 1), (1, 0)])));
}
