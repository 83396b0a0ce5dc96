use sudoku_sat::grid::{Grid, SudokuError};

#[test]
fn create_accepts_square_geometry() {
    assert!(Grid::create(9, 9, 3).is_ok());
    assert!(Grid::create(4, 4, 2).is_ok());
    assert!(Grid::create(1, 1, 1).is_ok());
    assert!(Grid::create(16, 16, 4).is_ok());
    assert!(Grid::create(225, 225, 15).is_ok());
}

#[test]
fn create_rejects_bad_geometry() {
    assert_eq!(Grid::create(9, 8, 3).unwrap_err(), SudokuError::ConfigurationError);
    assert_eq!(Grid::create(8, 8, 3).unwrap_err(), SudokuError::ConfigurationError);
    assert_eq!(Grid::create(0, 0, 0).unwrap_err(), SudokuError::ConfigurationError);
}

#[test]
fn empty_grid_has_no_filled_cells() {
    let g = Grid::empty_9x9_grid();
    assert!(g.get_filled_cells().is_empty());
}

#[test]
fn set_value_and_read_back() {
    let mut g = Grid::empty_9x9_grid();
    g.set_value(1, 1, 5).unwrap();
    g.set_value(9, 9, 1).unwrap();
    assert_eq!(g.get_filled_cells(), vec![(1, 1, 5), (9, 9, 1)]);
}

#[test]
fn set_value_rejects_out_of_range() {
    let mut g = Grid::empty_9x9_grid();
    assert_eq!(g.set_value(0, 1, 5).unwrap_err(), SudokuError::RangeError);
    assert_eq!(g.set_value(10, 1, 5).unwrap_err(), SudokuError::RangeError);
    assert_eq!(g.set_value(1, 10, 5).unwrap_err(), SudokuError::RangeError);
    assert_eq!(g.set_value(1, 1, 10).unwrap_err(), SudokuError::RangeError);
    assert!(g.get_filled_cells().is_empty());
}

#[test]
fn set_row_loads_values_and_placeholders() {
    let mut g = Grid::empty_9x9_grid();
    g.set_row(2, "- - 9 8 - - - - 7").unwrap();
    assert_eq!(g.get_filled_cells(), vec![(2, 3, 9), (2, 4, 8), (2, 9, 7)]);
}

#[test]
fn set_row_rejects_bad_tokens() {
    let mut g = Grid::empty_9x9_grid();
    assert_eq!(g.set_row(1, "- - x 8 - - - - 7").unwrap_err(), SudokuError::ParseError);
    assert_eq!(g.set_row(1, "1 2 3").unwrap_err(), SudokuError::ParseError);
    assert_eq!(g.set_row(1, "- - 10 8 - - - - 7").unwrap_err(), SudokuError::ParseError);
    assert_eq!(g.set_row(1, "- - 0 8 - - - - 7").unwrap_err(), SudokuError::ParseError);
    assert_eq!(g.set_row(1, "").unwrap_err(), SudokuError::ParseError);
    assert_eq!(g.set_row(0, "- - - - - - - - -").unwrap_err(), SudokuError::RangeError);
    assert!(g.get_filled_cells().is_empty());
}

#[test]
fn geometry_handles_cover_the_grid() {
    let g = Grid::empty_9x9_grid();
    let rows = g.rows();
    assert_eq!(rows.len(), 9);
    assert_eq!(rows[0].cells(), (1..=9).map(|c| (1, c)).collect::<Vec<_>>());
    let cols = g.cols();
    assert_eq!(cols.len(), 9);
    assert_eq!(cols[8].cells(), (1..=9).map(|r| (r, 9)).collect::<Vec<_>>());
    let boxes = g.boxes();
    assert_eq!(boxes.len(), 9);
    let mut covered = vec![vec![0u32; 9]; 9];
    for b in &boxes {
        for (r, c) in b.cells() {
            covered[r as usize - 1][c as usize - 1] += 1;
        }
    }
    for row in &covered {
        for &count in row {
            assert_eq!(count, 1);
        }
    }
    assert_eq!(g.possible_values(), (1..=9).collect::<Vec<u8>>());
}

#[test]
fn render_matches_fixed_width_format() {
    let mut g = Grid::empty_9x9_grid();
    g.set_row(1, "5 3 - - 7 - - - -").unwrap();
    let out = g.render();
    let expected_first_lines = "┏━━━━━━━┯━━━━━━━┯━━━━━━━┓\n┃ 5 3 - │ - 7 - │ - - - ┃\n";
    assert!(out.starts_with(expected_first_lines));
    assert!(out.ends_with("┗━━━━━━━┷━━━━━━━┷━━━━━━━┛\n"));
    assert_eq!(out.lines().count(), 13);
}

#[test]
fn render_then_reload_reproduces_grid() {
    let mut g = Grid::empty_9x9_grid();
    g.set_row(1, "5 3 - - 7 - - - -").unwrap();
    g.set_row(5, "4 - - 8 - 3 - - 1").unwrap();
    g.set_row(9, "- - - - 8 - - 7 9").unwrap();
    let before = g.get_filled_cells();
    let rendered = g.render();

    let mut reloaded = Grid::empty_9x9_grid();
    let mut row: u8 = 0;
    for line in rendered.lines() {
        if !line.starts_with('┃') {
            continue;
        }
        let clues: String = line
            .chars()
            .filter(|c| c.is_ascii_digit() || *c == '-' || *c == ' ')
            .collect();
        let tokens: Vec<&str> = clues.split_whitespace().collect();
        row += 1;
        reloaded.set_row(row, &tokens.join(" ")).unwrap();
    }
    assert_eq!(row, 9);
    assert_eq!(reloaded.get_filled_cells(), before);
}
