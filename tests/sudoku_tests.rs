use sudoku::{checked_sudoku_indices, solve_sudoku, sudoku_indices, valid_sudoku, GroupsError};

fn grid_of(cells: &[i32]) -> Vec<Option<i32>> {
    cells.iter().map(|&v| if v == 0 { None } else { Some(v) }).collect()
}

#[test]
fn test_1() {
    let n = 2;
    let indices = sudoku_indices(n);
    assert_eq!(
        indices,
        vec![
            [0, 1, 2, 3],
            [0, 4, 8, 12],
            [0, 1, 4, 5],
            [4, 5, 6, 7],
            [1, 5, 9, 13],
            [2, 3, 6, 7],
            [8, 9, 10, 11],
            [2, 6, 10, 14],
            [8, 9, 12, 13],
            [12, 13, 14, 15],
            [3, 7, 11, 15],
            [10, 11, 14, 15]
        ]
    );
}

#[test]
fn groups_of_block_size_one() {
    assert_eq!(sudoku_indices(1), vec![vec![0], vec![0], vec![0]]);
}

#[test]
fn groups_of_block_size_zero_are_empty() {
    assert!(sudoku_indices(0).is_empty());
}

#[test]
fn groups_of_block_size_three() {
    let groups = sudoku_indices(3);
    assert_eq!(groups.len(), 27);
    assert_eq!(groups[0], vec![0, 1, 2, 3, 4, 5, 6, 7, 8]);
    assert_eq!(groups[4], vec![1, 10, 19, 28, 37, 46, 55, 64, 73]);
    assert_eq!(groups[14], vec![30, 31, 32, 39, 40, 41, 48, 49, 50]);
    assert_eq!(groups[26], vec![60, 61, 62, 69, 70, 71, 78, 79, 80]);
}

#[test]
fn every_index_in_one_group_of_each_kind() {
    for n in 1..5usize {
        let groups = sudoku_indices(n);
        for x in 0..n * n * n * n {
            for kind in 0..3 {
                let count = (0..n * n)
                    .filter(|&i| groups[3 * i + kind].contains(&x))
                    .count();
                assert_eq!(count, 1);
            }
        }
    }
}

#[test]
fn empty_grids_are_valid() {
    assert!(valid_sudoku(&vec![]));
    assert!(valid_sudoku(&vec![None]));
    assert!(valid_sudoku(&vec![None; 16]));
    assert!(valid_sudoku(&vec![None; 81]));
}

#[test]
fn any_single_value_is_valid() {
    assert!(valid_sudoku(&vec![Some(1)]));
    assert!(valid_sudoku(&vec![Some(7)]));
}

#[test]
fn lengths_that_are_not_fourth_powers_are_invalid() {
    assert!(!valid_sudoku(&vec![None; 2]));
    assert!(!valid_sudoku(&vec![None; 15]));
    assert!(!valid_sudoku(&vec![None; 17]));
}

#[test]
fn duplicate_in_row_is_invalid() {
    let mut grid = vec![None; 16];
    grid[0] = Some(1);
    grid[1] = Some(1);
    assert!(!valid_sudoku(&grid));
}

#[test]
fn duplicate_in_column_is_invalid() {
    let mut grid = vec![None; 16];
    grid[2] = Some(3);
    grid[14] = Some(3);
    assert!(!valid_sudoku(&grid));
}

#[test]
fn duplicate_in_block_is_invalid() {
    let mut grid = vec![None; 16];
    grid[0] = Some(4);
    grid[5] = Some(4);
    assert!(!valid_sudoku(&grid));
}

#[test]
fn distinct_values_are_valid() {
    let grid = grid_of(&[1, 2, 0, 0, 3, 4, 0, 0, 0, 0, 0, 0, 0, 0, 0, 0]);
    assert!(valid_sudoku(&grid));
}

#[test]
fn more_values_keep_an_invalid_grid_invalid() {
    let mut grid = vec![None; 16];
    grid[0] = Some(1);
    grid[1] = Some(1);
    assert!(!valid_sudoku(&grid));
    grid[5] = Some(2);
    grid[15] = Some(3);
    assert!(!valid_sudoku(&grid));
    grid[4] = Some(1);
    assert!(!valid_sudoku(&grid));
}

#[test]
fn removing_the_sole_duplicate_restores_validity() {
    let mut grid = vec![None; 16];
    grid[0] = Some(1);
    grid[1] = Some(1);
    grid[6] = Some(2);
    assert!(!valid_sudoku(&grid));
    grid[1] = None;
    assert!(valid_sudoku(&grid));
}

#[test]
fn solve_empty_four_by_four() {
    let mut grid = vec![None; 16];
    assert!(solve_sudoku(&mut grid));
    assert!(valid_sudoku(&grid));
    assert!(grid.iter().all(|c| c.is_some()));
    let first = grid[0].unwrap();
    assert!((1..=4).contains(&first));
    let expected = grid_of(&[1, 2, 3, 4, 3, 4, 1, 2, 2, 1, 4, 3, 4, 3, 2, 1]);
    assert_eq!(grid, expected);
}

#[test]
fn solve_keeps_given_values() {
    let start = grid_of(&[0, 0, 0, 0, 0, 0, 0, 1, 0, 3, 0, 0, 0, 0, 0, 0]);
    let mut grid = start.clone();
    assert!(solve_sudoku(&mut grid));
    assert!(valid_sudoku(&grid));
    for i in 0..16 {
        assert!(grid[i].is_some());
        if start[i].is_some() {
            assert_eq!(grid[i], start[i]);
        }
    }
}

#[test]
fn solve_rejects_duplicate_in_row() {
    let mut grid = vec![None; 16];
    grid[0] = Some(1);
    grid[1] = Some(1);
    let before = grid.clone();
    assert!(!valid_sudoku(&grid));
    assert!(!solve_sudoku(&mut grid));
    assert_eq!(grid[0], Some(1));
    assert_eq!(grid[1], Some(1));
    assert_eq!(grid, before);
}

#[test]
fn solve_failure_on_valid_unsolvable_grid_leaves_grid_unchanged() {
    let start = grid_of(&[1, 2, 0, 0, 0, 0, 0, 3, 0, 0, 0, 0, 0, 0, 0, 0]);
    let mut grid = start.clone();
    assert!(valid_sudoku(&grid));
    assert!(!solve_sudoku(&mut grid));
    assert_eq!(grid, start);
}

#[test]
fn solve_on_solved_grid_changes_nothing() {
    let solved = grid_of(&[1, 2, 3, 4, 3, 4, 1, 2, 2, 1, 4, 3, 4, 3, 2, 1]);
    let mut grid = solved.clone();
    assert!(solve_sudoku(&mut grid));
    assert_eq!(grid, solved);
}

#[test]
fn solve_on_complete_invalid_grid_fails() {
    let start = grid_of(&[1, 2, 3, 4, 3, 4, 1, 2, 2, 1, 4, 3, 4, 3, 1, 2]);
    let mut grid = start.clone();
    assert!(!solve_sudoku(&mut grid));
    assert_eq!(grid, start);
}

#[test]
fn solve_single_cell() {
    let mut grid = vec![None];
    assert_eq!(sudoku_indices(1).len(), 3);
    assert!(solve_sudoku(&mut grid));
    assert_eq!(grid, vec![Some(1)]);
}

#[test]
fn solve_rejects_malformed_length() {
    let mut grid = vec![None; 3];
    assert!(!solve_sudoku(&mut grid));
    assert_eq!(grid, vec![None; 3]);
}

#[test]
fn solve_empty_grid() {
    let mut grid: Vec<Option<i32>> = vec![];
    assert!(solve_sudoku(&mut grid));
    assert!(grid.is_empty());
}

#[test]
fn solve_nearly_complete_nine_by_nine() {
    let solved = grid_of(&[
        5, 3, 4, 6, 7, 8, 9, 1, 2, //
        6, 7, 2, 1, 9, 5, 3, 4, 8, //
        1, 9, 8, 3, 4, 2, 5, 6, 7, //
        8, 5, 9, 7, 6, 1, 4, 2, 3, //
        4, 2, 6, 8, 5, 3, 7, 9, 1, //
        7, 1, 3, 9, 2, 4, 8, 5, 6, //
        9, 6, 1, 5, 3, 7, 2, 8, 4, //
        2, 8, 7, 4, 1, 9, 6, 3, 5, //
        3, 4, 5, 2, 8, 6, 1, 7, 9,
    ]);
    assert!(valid_sudoku(&solved));
    let mut grid = solved.clone();
    for &i in &[0usize, 10, 40, 44, 80] {
        grid[i] = None;
    }
    assert!(valid_sudoku(&grid));
    assert!(solve_sudoku(&mut grid));
    assert_eq!(grid, solved);
}

#[test]
fn checked_groups_reject_block_size_zero() {
    assert_eq!(checked_sudoku_indices(0), Err(GroupsError::InvalidBlockSize));
}

#[test]
fn checked_groups_reject_oversized_grid() {
    assert_eq!(checked_sudoku_indices(usize::MAX), Err(GroupsError::TooLarge));
    assert_eq!(checked_sudoku_indices(1usize << 16), Err(GroupsError::TooLarge));
}

#[test]
fn checked_groups_match_plain_groups() {
    assert_eq!(checked_sudoku_indices(2), Ok(sudoku_indices(2)));
    assert_eq!(checked_sudoku_indices(1), Ok(vec![vec![0], vec![0], vec![0]]));
}
