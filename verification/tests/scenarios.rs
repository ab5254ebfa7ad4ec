//! Exact results on small inputs: the documented examples, the edge cases
//! and the properties the library promises, checked on concrete values.

use combigen::backtracking::{
    count_solutions, find_paths, format_board, format_sudoku, n_queens, parse_sudoku,
    solve_sudoku, Grid, NQueens, Paths,
};
use combigen::combinatorics::{
    cartesian_product, combinations, combinations_with_replacement, integer_partitions,
    permutations, power_set, set_partitions, CartesianProduct, IntegerPartitions, SetPartitions, Combinations,
    CombinationsWithReplacement, Permutations, PowerSet,
};

fn drain_permutations<T: Clone>(mut it: Permutations<T>) -> Vec<Vec<T>> {
    let mut out = Vec::new();
    while let Some(v) = it.next() {
        out.push(v);
    }
    out
}

fn drain_combinations<T: Clone>(mut it: Combinations<T>) -> Vec<Vec<T>> {
    let mut out = Vec::new();
    while let Some(v) = it.next() {
        out.push(v);
    }
    out
}

fn drain_multicombinations<T: Clone>(mut it: CombinationsWithReplacement<T>) -> Vec<Vec<T>> {
    let mut out = Vec::new();
    while let Some(v) = it.next() {
        out.push(v);
    }
    out
}

fn drain_subsets<T: Clone>(mut it: PowerSet<T>) -> Vec<Vec<T>> {
    let mut out = Vec::new();
    while let Some(v) = it.next() {
        out.push(v);
    }
    out
}

fn drain_tuples<T: Clone>(mut it: CartesianProduct<T>) -> Vec<Vec<T>> {
    let mut out = Vec::new();
    while let Some(v) = it.next() {
        out.push(v);
    }
    out
}

fn drain_placements(mut it: NQueens) -> Vec<Vec<usize>> {
    let mut out = Vec::new();
    while let Some(v) = it.next() {
        out.push(v);
    }
    out
}

fn drain_partitions(mut it: IntegerPartitions) -> Vec<Vec<u32>> {
    let mut out = Vec::new();
    while let Some(v) = it.next() {
        out.push(v);
    }
    out
}

fn drain_set_partitions<T: Clone>(mut it: SetPartitions<T>) -> Vec<Vec<Vec<T>>> {
    let mut out = Vec::new();
    while let Some(v) = it.next() {
        out.push(v);
    }
    out
}

fn drain_paths(mut it: Paths) -> Vec<Vec<(usize, usize)>> {
    let mut out = Vec::new();
    while let Some(v) = it.next() {
        out.push(v);
    }
    out
}

// ---------------------------------------------------------------------------
// Documented examples
// ---------------------------------------------------------------------------

#[test]
fn test_permutations_documented_example() {
    let result: Vec<Vec<i32>> = drain_permutations(permutations(&[1, 2, 3], Some(2)));
    assert_eq!(
        result,
        vec![
            vec![1, 2], vec![1, 3],
            vec![2, 1], vec![2, 3],
            vec![3, 1], vec![3, 2]
        ]
    );
}

#[test]
fn test_combinations_documented_example() {
    let result: Vec<Vec<i32>> = drain_combinations(combinations(&[1, 2, 3, 4], 2));
    assert_eq!(
        result,
        vec![
            vec![1, 2], vec![1, 3], vec![1, 4],
            vec![2, 3], vec![2, 4],
            vec![3, 4]
        ]
    );
}

#[test]
fn test_multicombinations_documented_example() {
    let result: Vec<Vec<i32>> =
        drain_multicombinations(combinations_with_replacement(&[1, 2], 2));
    assert_eq!(result, vec![vec![1, 1], vec![1, 2], vec![2, 2]]);
}

#[test]
fn test_integer_partitions_documented_example() {
    let result: Vec<Vec<u32>> = drain_partitions(integer_partitions(4, None));
    assert_eq!(
        result,
        vec![
            vec![4],
            vec![3, 1],
            vec![2, 2],
            vec![2, 1, 1],
            vec![1, 1, 1, 1]
        ]
    );
}

#[test]
fn test_set_partitions_documented_example() {
    let result: Vec<Vec<Vec<i32>>> = drain_set_partitions(set_partitions(vec![1, 2, 3]));
    assert_eq!(result.len(), 5); // B(3) = 5
    assert_eq!(result[0], vec![vec![1, 2, 3]]);
}

#[test]
fn test_power_set_documented_example() {
    let result: Vec<Vec<i32>> = drain_subsets(power_set(&[1, 2, 3]));
    assert_eq!(
        result,
        vec![
            vec![],
            vec![1], vec![2], vec![3],
            vec![1, 2], vec![1, 3], vec![2, 3],
            vec![1, 2, 3]
        ]
    );
}

#[test]
fn test_cartesian_documented_example() {
    let bits: Vec<Vec<i32>> = drain_tuples(cartesian_product(vec![vec![0, 1]], 3));
    assert_eq!(bits.len(), 8);
    assert_eq!(bits[0], vec![0, 0, 0]);
    assert_eq!(bits[7], vec![1, 1, 1]);
}

// ---------------------------------------------------------------------------
// Exact orders and edge cases
// ---------------------------------------------------------------------------

#[test]
fn test_permutations_in_lexicographic_order() {
    let result = drain_permutations(permutations(&['a', 'b', 'c'], None));
    assert_eq!(
        result,
        vec![
            vec!['a', 'b', 'c'],
            vec!['a', 'c', 'b'],
            vec!['b', 'a', 'c'],
            vec!['b', 'c', 'a'],
            vec!['c', 'a', 'b'],
            vec!['c', 'b', 'a'],
        ]
    );
}

#[test]
fn test_permutations_follow_positions_not_values() {
    // Equal items are distinct by position, as in the documented order.
    let result = drain_permutations(permutations(&[1, 1], None));
    assert_eq!(result, vec![vec![1, 1], vec![1, 1]]);
}

#[test]
fn test_permutations_too_long_is_empty() {
    let result = drain_permutations(permutations(&[1, 2], Some(3)));
    assert!(result.is_empty());
}

#[test]
fn test_combinations_too_long_is_empty() {
    let result = drain_combinations(combinations(&[1, 2], 3));
    assert!(result.is_empty());
}

#[test]
fn test_combinations_of_nothing() {
    let result = drain_combinations(combinations::<i32>(&[], 0));
    assert_eq!(result, vec![Vec::<i32>::new()]);
}

#[test]
fn test_multicombinations_of_empty_pool() {
    let none = drain_multicombinations(combinations_with_replacement::<i32>(&[], 2));
    assert!(none.is_empty());
    let one = drain_multicombinations(combinations_with_replacement::<i32>(&[], 0));
    assert_eq!(one, vec![Vec::<i32>::new()]);
}

#[test]
fn test_multicombinations_count() {
    // C(3 + 3 - 1, 3) = 10
    let result = drain_multicombinations(combinations_with_replacement(&[1, 2, 3], 3));
    assert_eq!(result.len(), 10);
    assert_eq!(result[0], vec![1, 1, 1]);
    assert_eq!(result[9], vec![3, 3, 3]);
}

#[test]
fn test_power_set_of_nothing() {
    let result = drain_subsets(power_set::<i32>(&[]));
    assert_eq!(result, vec![Vec::<i32>::new()]);
}

#[test]
fn test_power_set_count() {
    let result = drain_subsets(power_set(&[1, 2, 3, 4, 5]));
    assert_eq!(result.len(), 32);
}

#[test]
fn test_cartesian_with_an_empty_pool() {
    let result = drain_tuples(cartesian_product(vec![vec![1, 2], vec![]], 1));
    assert!(result.is_empty());
}

#[test]
fn test_cartesian_with_no_pools() {
    let result = drain_tuples(cartesian_product::<i32>(vec![], 1));
    assert_eq!(result, vec![Vec::<i32>::new()]);
}

#[test]
fn test_cartesian_repeat_zero() {
    let result = drain_tuples(cartesian_product(vec![vec![1, 2]], 0));
    assert_eq!(result, vec![Vec::<i32>::new()]);
}

#[test]
fn test_cartesian_last_pool_turns_fastest() {
    let result = drain_tuples(cartesian_product(vec![vec![1, 2], vec![3, 4]], 1));
    assert_eq!(result, vec![vec![1, 3], vec![1, 4], vec![2, 3], vec![2, 4]]);
}

#[test]
fn test_integer_partitions_bounded_part() {
    let result = drain_partitions(integer_partitions(5, Some(2)));
    assert_eq!(result, vec![vec![2, 2, 1], vec![2, 1, 1, 1], vec![1, 1, 1, 1, 1]]);
}

#[test]
fn test_integer_partitions_of_zero() {
    let result = drain_partitions(integer_partitions(0, None));
    assert_eq!(result, vec![Vec::<u32>::new()]);
}

#[test]
fn test_integer_partitions_with_no_room() {
    assert!(drain_partitions(integer_partitions(3, Some(0))).is_empty());
    assert_eq!(drain_partitions(integer_partitions(0, Some(0))), vec![Vec::<u32>::new()]);
}

#[test]
fn test_integer_partitions_stay_exhausted() {
    let mut it = integer_partitions(1, None);
    assert_eq!(it.next(), Some(vec![1]));
    assert_eq!(it.next(), None);
    assert_eq!(it.next(), None);
}

#[test]
fn test_integer_partitions_count_seven() {
    assert_eq!(drain_partitions(integer_partitions(7, None)).len(), 15);
}

#[test]
fn test_set_partitions_exact_order() {
    let result = drain_set_partitions(set_partitions(vec![1, 2, 3]));
    assert_eq!(
        result,
        vec![
            vec![vec![1, 2, 3]],
            vec![vec![1, 2], vec![3]],
            vec![vec![1, 3], vec![2]],
            vec![vec![1], vec![2, 3]],
            vec![vec![1], vec![2], vec![3]],
        ]
    );
}

#[test]
fn test_set_partitions_of_nothing() {
    let result = drain_set_partitions(set_partitions(Vec::<i32>::new()));
    assert_eq!(result, vec![Vec::<Vec<i32>>::new()]);
}

#[test]
fn test_set_partitions_blocks_cover_items_once() {
    let items = vec![1, 2, 3, 4, 5];
    let result = drain_set_partitions(set_partitions(items.clone()));
    assert_eq!(result.len(), 52); // B(5) = 52
    for partition in &result {
        let mut seen: Vec<i32> = partition.iter().flatten().copied().collect();
        seen.sort();
        assert_eq!(seen, items);
        assert!(partition.iter().all(|block| !block.is_empty()));
    }
}

// ---------------------------------------------------------------------------
// N-Queens
// ---------------------------------------------------------------------------

#[test]
fn test_n_queens_four_exact() {
    assert_eq!(
        drain_placements(n_queens(4)),
        vec![vec![1, 3, 0, 2], vec![2, 0, 3, 1]]
    );
}

#[test]
fn test_n_queens_small_boards() {
    assert_eq!(drain_placements(n_queens(0)), vec![Vec::<usize>::new()]);
    assert_eq!(drain_placements(n_queens(1)), vec![vec![0]]);
    assert!(drain_placements(n_queens(2)).is_empty());
    assert!(drain_placements(n_queens(3)).is_empty());
}

#[test]
fn test_n_queens_stays_exhausted() {
    let mut it = n_queens(2);
    assert_eq!(it.next(), None);
    assert_eq!(it.next(), None);
}

#[test]
fn test_n_queens_count_matches_enumeration() {
    for n in 0..=8 {
        assert_eq!(drain_placements(n_queens(n)).len(), count_solutions(n));
    }
}

#[test]
fn test_n_queens_first_of_twelve() {
    assert_eq!(n_queens(12).next(), Some(vec![0, 2, 4, 7, 9, 11, 5, 10, 1, 6, 8, 3]));
}

#[test]
fn test_count_solutions_eight() {
    assert_eq!(count_solutions(8), 92);
    assert_eq!(count_solutions(6), 4);
}

#[test]
fn test_format_board_exact() {
    assert_eq!(
        format_board(&[1, 3, 0, 2]),
        ". Q . .\n. . . Q\nQ . . .\n. . Q ."
    );
}

#[test]
fn test_format_board_empty() {
    assert_eq!(format_board(&[]), "");
}

// ---------------------------------------------------------------------------
// Sudoku
// ---------------------------------------------------------------------------

const EASY_PUZZLE: &str =
    "53..7....6..195....98....6.8...6...34..8.3..17...2...6.6....28....419..5....8..79";

#[test]
fn test_parse_sudoku_reports_count() {
    assert_eq!(parse_sudoku("tooshort"), Err("Expected 81 cells, got 0".to_string()));
    assert_eq!(parse_sudoku("12.4"), Err("Expected 81 cells, got 4".to_string()));
}

#[test]
fn test_parse_sudoku_skips_other_characters() {
    let spaced: String = EASY_PUZZLE.chars().flat_map(|c| [c, ' ']).collect();
    assert_eq!(parse_sudoku(&spaced), parse_sudoku(EASY_PUZZLE));
    let grid = parse_sudoku(EASY_PUZZLE).unwrap();
    assert_eq!(grid[0], vec![5, 3, 0, 0, 7, 0, 0, 0, 0]);
    assert_eq!(grid[8], vec![0, 0, 0, 0, 8, 0, 0, 7, 9]);
}

#[test]
fn test_parse_sudoku_zero_is_empty() {
    let zeros = "0".repeat(81);
    assert_eq!(parse_sudoku(&zeros), Ok(vec![vec![0u8; 9]; 9]));
}

#[test]
fn test_format_sudoku_exact() {
    let grid = parse_sudoku(EASY_PUZZLE).unwrap();
    let expected = "+-------+-------+-------+\n\
| 5 3 . | . 7 . | . . . |\n\
| 6 . . | 1 9 5 | . . . |\n\
| . 9 8 | . . . | . 6 . |\n\
+-------+-------+-------+\n\
| 8 . . | . 6 . | . . 3 |\n\
| 4 . . | 8 . 3 | . . 1 |\n\
| 7 . . | . 2 . | . . 6 |\n\
+-------+-------+-------+\n\
| . 6 . | . . . | 2 8 . |\n\
| . . . | 4 1 9 | . . 5 |\n\
| . . . | . 8 . | . 7 9 |\n\
+-------+-------+-------+";
    assert_eq!(format_sudoku(&grid), expected);
}

#[test]
fn test_format_then_parse_round_trip() {
    let grid = parse_sudoku(EASY_PUZZLE).unwrap();
    assert_eq!(parse_sudoku(&format_sudoku(&grid)), Ok(grid));
}

fn is_solved_keeping(puzzle: &Grid, solution: &Grid) -> bool {
    let full: Vec<u8> = (1..=9).collect();
    for r in 0..9 {
        for c in 0..9 {
            if puzzle[r][c] != 0 && puzzle[r][c] != solution[r][c] {
                return false;
            }
        }
    }
    for i in 0..9 {
        let mut row: Vec<u8> = solution[i].clone();
        let mut col: Vec<u8> = (0..9).map(|r| solution[r][i]).collect();
        let mut bx: Vec<u8> = (0..9)
            .map(|k| solution[3 * (i / 3) + k / 3][3 * (i % 3) + k % 3])
            .collect();
        row.sort();
        col.sort();
        bx.sort();
        if row != full || col != full || bx != full {
            return false;
        }
    }
    true
}

#[test]
fn test_solution_keeps_givens_and_fills_every_group() {
    let puzzle = parse_sudoku(EASY_PUZZLE).unwrap();
    let solution = solve_sudoku(&puzzle).next().unwrap();
    assert!(is_solved_keeping(&puzzle, &solution));
    assert_eq!(solution[0], vec![5, 3, 4, 6, 7, 8, 9, 1, 2]);
}

#[test]
fn test_solved_grid_is_its_own_solution() {
    let puzzle = parse_sudoku(EASY_PUZZLE).unwrap();
    let solution = solve_sudoku(&puzzle).next().unwrap();
    let mut again = solve_sudoku(&solution);
    assert_eq!(again.next(), Some(solution));
    assert_eq!(again.next(), None);
}

#[test]
fn test_dead_end_puzzle_has_no_solution() {
    // The top-right cell sees 1..=8 in its row and 9 in its column.
    let mut puzzle: Grid = vec![vec![0; 9]; 9];
    puzzle[0] = vec![1, 2, 3, 4, 5, 6, 7, 8, 0];
    puzzle[4][8] = 9;
    assert_eq!(solve_sudoku(&puzzle).next(), None);
}

// ---------------------------------------------------------------------------
// Paths
// ---------------------------------------------------------------------------

#[test]
fn test_find_paths_exact_order() {
    let grid = vec![vec![1, 1], vec![1, 1]];
    let paths = drain_paths(find_paths(grid, (0, 0), (1, 1), None));
    assert_eq!(
        paths,
        vec![vec![(0, 0), (1, 0), (1, 1)], vec![(0, 0), (0, 1), (1, 1)]]
    );
}

#[test]
fn test_find_paths_custom_moves() {
    let grid = vec![vec![1, 1], vec![1, 1]];
    let paths = drain_paths(find_paths(grid, (0, 0), (1, 1), Some(vec![(1, 1)])));
    assert_eq!(paths, vec![vec![(0, 0), (1, 1)]]);
}

#[test]
fn test_find_paths_start_is_end() {
    let grid = vec![vec![1]];
    let paths = drain_paths(find_paths(grid, (0, 0), (0, 0), None));
    assert_eq!(paths, vec![vec![(0, 0)]]);
}

#[test]
fn test_find_paths_are_simple() {
    let grid = vec![vec![1, 1, 1], vec![1, 1, 1], vec![1, 1, 1]];
    let paths = drain_paths(find_paths(grid, (0, 0), (2, 2), None));
    assert_eq!(paths.len(), 12);
    for path in &paths {
        let mut cells = path.clone();
        cells.sort();
        cells.dedup();
        assert_eq!(cells.len(), path.len());
        for w in path.windows(2) {
            let dr = (w[0].0 as isize - w[1].0 as isize).abs();
            let dc = (w[0].1 as isize - w[1].1 as isize).abs();
            assert_eq!(dr + dc, 1);
        }
    }
}

#[test]
fn test_find_paths_one_at_a_time() {
    let grid = vec![vec![1, 1], vec![1, 1]];
    let mut paths = find_paths(grid, (0, 0), (1, 1), None);
    assert_eq!(paths.next(), Some(vec![(0, 0), (1, 0), (1, 1)]));
    assert_eq!(paths.next(), Some(vec![(0, 0), (0, 1), (1, 1)]));
    assert_eq!(paths.next(), None);
    assert_eq!(paths.next(), None);
}

#[test]
fn test_find_paths_blocked_start_neighbors() {
    let grid = vec![vec![1, 0, 1], vec![0, 1, 1]];
    assert!(drain_paths(find_paths(grid, (0, 0), (1, 2), None)).is_empty());
}

#[test]
fn test_solved_grid_round_trip() {
    let puzzle = parse_sudoku(EASY_PUZZLE).unwrap();
    let solution = solve_sudoku(&puzzle).next().unwrap();
    assert_eq!(parse_sudoku(&format_sudoku(&solution)), Ok(solution));
}

#[test]
fn test_digit_past_ninth_cell_counts_in_its_row() {
    let puzzle = parse_sudoku(EASY_PUZZLE).unwrap();
    let solution = solve_sudoku(&puzzle).next().unwrap();
    let taken = solution[0][0];
    let mut blank = solution.clone();
    blank[0][0] = 0;
    // a tenth cell holding the missing digit leaves no candidate for (0, 0)
    let mut long_row = blank.clone();
    long_row[0].push(taken);
    assert_eq!(solve_sudoku(&long_row).next(), None);
    // a tenth cell that holds no digit changes nothing, and is kept
    let mut empty_tail = blank.clone();
    empty_tail[0].push(0);
    let mut expected = solution.clone();
    expected[0].push(0);
    assert_eq!(solve_sudoku(&empty_tail).next(), Some(expected));
}

#[test]
fn test_combinations_are_increasing_permutations() {
    let items = [1, 2, 3, 4];
    let perms = drain_permutations(permutations(&items, Some(2)));
    let increasing: Vec<Vec<i32>> = perms.into_iter().filter(|p| p[0] < p[1]).collect();
    assert_eq!(drain_combinations(combinations(&items, 2)), increasing);
}

#[test]
fn test_cartesian_repeat_is_concatenation() {
    let pools = vec![vec![1, 2], vec![3]];
    let repeated = drain_tuples(cartesian_product(pools.clone(), 2));
    let mut flat = pools.clone();
    flat.extend(pools.clone());
    assert_eq!(repeated, drain_tuples(cartesian_product(flat, 1)));
    assert_eq!(repeated.len(), 4);
}

#[test]
fn test_find_paths_ragged_grid_never_read_past_a_row() {
    let grid = vec![vec![1, 1], vec![0]];
    let paths = drain_paths(find_paths(grid, (0, 0), (0, 1), None));
    assert_eq!(paths, vec![vec![(0, 0), (0, 1)]]);
}
