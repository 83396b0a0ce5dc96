use std::collections::HashSet;
use sudoku_sat::encoder::{translate_to_sat_encoding, ConstraintKind};
use sudoku_sat::grid::Grid;

fn counts(grid: &Grid) -> (usize, usize) {
    let props = translate_to_sat_encoding(grid);
    let mut exactly_one = 0;
    let mut given = 0;
    for c in &props {
        match &c.kind {
            ConstraintKind::ExactlyOne(_) => exactly_one += 1,
            ConstraintKind::Given(_) => given += 1,
        }
    }
    (exactly_one, given)
}

#[test]
fn empty_grid_yields_full_structural_set() {
    let g = Grid::empty_9x9_grid();
    assert_eq!(counts(&g), (324, 0));
}

#[test]
fn each_clue_adds_one_unit_constraint() {
    let mut g = Grid::empty_9x9_grid();
    g.set_value(1, 1, 5).unwrap();
    g.set_value(3, 7, 2).unwrap();
    g.set_value(9, 9, 9).unwrap();
    assert_eq!(counts(&g), (324, 3));
}

#[test]
fn four_by_four_grid_counts() {
    let mut g = Grid::create(4, 4, 2).unwrap();
    g.set_value(2, 2, 3).unwrap();
    assert_eq!(counts(&g), (64, 1));
}

#[test]
fn descriptions_are_present_and_distinct() {
    let mut g = Grid::empty_9x9_grid();
    g.set_value(1, 1, 5).unwrap();
    let props = translate_to_sat_encoding(&g);
    let mut seen: HashSet<String> = HashSet::new();
    for c in &props {
        assert!(!c.description.is_empty());
        assert!(seen.insert(c.description.clone()), "duplicate: {}", c.description);
    }
    assert_eq!(seen.len(), 325);
}

#[test]
fn description_wording_matches_families() {
    let g = Grid::empty_9x9_grid();
    let props = translate_to_sat_encoding(&g);
    assert_eq!(props[0].description, "Exactly one 1 in row 1");
    assert_eq!(props[80].description, "Exactly one 9 in row 9");
    assert_eq!(props[81].description, "Exactly one 1 in column 1");
    assert_eq!(props[162].description, "Exactly one value in row 1 column 1");
    assert_eq!(props[243].description, "Exactly one 1 in box 1");
    assert_eq!(props[323].description, "Exactly one 9 in box 9");
}

#[test]
fn exactly_one_groups_cover_nine_variables() {
    let g = Grid::empty_9x9_grid();
    let props = translate_to_sat_encoding(&g);
    for c in &props {
        match &c.kind {
            ConstraintKind::ExactlyOne(vars) => {
                assert_eq!(vars.len(), 9);
                let distinct: HashSet<_> =
                    vars.iter().map(|v| (v.row, v.col, v.value)).collect();
                assert_eq!(distinct.len(), 9);
            }
            ConstraintKind::Given(_) => unreachable!("no clues were set"),
        }
    }
}
