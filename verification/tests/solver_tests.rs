use sudoku_sat::grid::{Grid, SudokuError};
use sudoku_sat::solver::{fill_grid_with_solution, solve_grid, Verdict};

const SOLVED: [[u8; 9]; 9] = [
    [5, 3, 4, 6, 7, 8, 9, 1, 2],
    [6, 7, 2, 1, 9, 5, 3, 4, 8],
    [1, 9, 8, 3, 4, 2, 5, 6, 7],
    [8, 5, 9, 7, 6, 1, 4, 2, 3],
    [4, 2, 6, 8, 5, 3, 7, 9, 1],
    [7, 1, 3, 9, 2, 4, 8, 5, 6],
    [9, 6, 1, 5, 3, 7, 2, 8, 4],
    [2, 8, 7, 4, 1, 9, 6, 3, 5],
    [3, 4, 5, 2, 8, 6, 1, 7, 9],
];

fn solved_grid() -> Grid {
    let mut g = Grid::empty_9x9_grid();
    for (r, row) in SOLVED.iter().enumerate() {
        for (c, &v) in row.iter().enumerate() {
            g.set_value(r as u8 + 1, c as u8 + 1, v).unwrap();
        }
    }
    g
}

#[test]
fn fully_given_valid_grid_has_unique_solution() {
    let mut g = solved_grid();
    let before = g.get_filled_cells();
    let verdict = solve_grid(&mut g).unwrap();
    assert!(matches!(verdict, Verdict::UniqueSolution));
    assert_eq!(g.get_filled_cells(), before);
}

#[test]
fn repeated_value_in_a_row_is_unsolvable_with_core() {
    let mut g = Grid::empty_9x9_grid();
    g.set_value(1, 1, 4).unwrap();
    g.set_value(1, 5, 4).unwrap();
    let verdict = solve_grid(&mut g).unwrap();
    match verdict {
        Verdict::Unsolvable(core) => {
            assert!(!core.is_empty());
            assert!(
                core.iter().any(|d| d == "Exactly one 4 in row 1"),
                "core was: {:?}",
                core
            );
        }
        _ => panic!("expected Unsolvable"),
    }
    assert_eq!(g.get_filled_cells(), vec![(1, 1, 4), (1, 5, 4)]);
}

#[test]
fn two_completion_puzzle_is_ambiguous() {
    let mut g = solved_grid();
    // Clearing a rectangle of cells whose values can swap leaves two valid
    // completions: rows 1 and 4 hold 6/7 and 7/6 in columns 4 and 5.
    g.set_value(1, 4, 0).unwrap();
    g.set_value(1, 5, 0).unwrap();
    g.set_value(4, 4, 0).unwrap();
    g.set_value(4, 5, 0).unwrap();
    let verdict = solve_grid(&mut g).unwrap();
    match verdict {
        Verdict::Ambiguous(n) => assert!(n > 1, "count was {}", n),
        _ => panic!("expected Ambiguous"),
    }
}

#[test]
fn solving_a_proper_puzzle_fills_the_grid() {
    // The solved grid with one box's worth of clues removed still has
    // exactly one solution, and solving reproduces the full grid.
    let mut g = solved_grid();
    for r in 1..=3u8 {
        for c in 1..=3u8 {
            g.set_value(r, c, 0).unwrap();
        }
    }
    let verdict = solve_grid(&mut g).unwrap();
    assert!(matches!(verdict, Verdict::UniqueSolution));
    assert_eq!(g.get_filled_cells(), solved_grid().get_filled_cells());
}

#[test]
fn decoding_model_names_fills_cells() {
    let mut g = Grid::empty_9x9_grid();
    let names = vec!["v_1_2_3".to_string(), "v_9_9_1".to_string()];
    fill_grid_with_solution(&names, &mut g).unwrap();
    assert_eq!(g.get_filled_cells(), vec![(1, 2, 3), (9, 9, 1)]);
}

#[test]
fn decoding_malformed_name_fails() {
    let mut g = Grid::empty_9x9_grid();
    let names = vec!["v_1_2_3".to_string(), "nonsense".to_string()];
    assert_eq!(
        fill_grid_with_solution(&names, &mut g).unwrap_err(),
        SudokuError::DecodingError
    );
}

#[test]
fn decoding_out_of_range_name_fails() {
    let mut g = Grid::empty_9x9_grid();
    let names = vec!["v_1_2_10".to_string()];
    assert_eq!(
        fill_grid_with_solution(&names, &mut g).unwrap_err(),
        SudokuError::RangeError
    );
}

#[test]
fn four_by_four_pipeline_works_end_to_end() {
    let mut g = Grid::create(4, 4, 2).unwrap();
    let solved: [[u8; 4]; 4] = [[1, 2, 3, 4], [3, 4, 1, 2], [2, 1, 4, 3], [4, 3, 2, 1]];
    for (r, row) in solved.iter().enumerate() {
        for (c, &v) in row.iter().enumerate() {
            g.set_value(r as u8 + 1, c as u8 + 1, v).unwrap();
        }
    }
    let before = g.get_filled_cells();
    let verdict = solve_grid(&mut g).unwrap();
    assert!(matches!(verdict, Verdict::UniqueSolution));
    assert_eq!(g.get_filled_cells(), before);
}
