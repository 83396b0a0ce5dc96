//! A Sudoku puzzle modelled as combinatorial placement constraints.
//!
//! The grid's geometry and cell state live in [`grid`]; [`codec`] gives each
//! placement proposition "cell (row, col) holds value v" a collision-free
//! textual name; [`encoder`] turns a grid into the exactly-one constraint
//! families that capture the rules plus one unit constraint per given clue;
//! [`solver`] hands the encoding to an external satisfiability oracle, decodes
//! a returned assignment back into grid state, and classifies the puzzle as
//! unsolvable, uniquely solvable or ambiguous.

pub mod codec;
pub mod encoder;
pub mod grid;
pub mod solver;
