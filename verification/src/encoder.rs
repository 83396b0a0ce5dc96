//! Translation of a grid into its constraint set.
//!
//! The encoding is satisfiable exactly when the grid's givens extend to a
//! valid solution: for every row, column and box, each value occurs exactly
//! once; every cell holds exactly one value; and every given clue is asserted
//! as a unit constraint. Constraints are produced in that order, each with a
//! distinct human-readable description used when the oracle reports an
//! unsatisfiable core.

use crate::codec::dec_digits;
use crate::grid::Grid;
use vstd::prelude::*;

verus! {

/// The proposition "cell (row, col) holds value", keyed by its triple.
#[derive(Clone, Copy, Debug, PartialEq, Eq, Structural)]
pub struct PlacementVar {
    pub row: u8,
    pub col: u8,
    pub value: u8,
}

impl PlacementVar {
    /// The triple this variable denotes.
    pub open spec fn key(&self) -> (int, int, int) {
        (self.row as int, self.col as int, self.value as int)
    }
}

/// The logical form of one constraint, over placement-variable keys.
pub enum ConstraintShape {
    /// True for precisely one of the listed variables.
    ExactlyOne(Seq<(int, int, int)>),
    /// A single variable asserted true (a given clue).
    Given((int, int, int)),
}

/// One labeled constraint as handed to the oracle.
pub enum ConstraintKind {
    ExactlyOne(Vec<PlacementVar>),
    Given(PlacementVar),
}

pub struct Constraint {
    /// Distinct human-readable label, surfaced in unsatisfiable cores.
    pub description: String,
    pub kind: ConstraintKind,
}

impl Constraint {
    pub open spec fn shape(&self) -> ConstraintShape {
        match self.kind {
            ConstraintKind::ExactlyOne(vs) => ConstraintShape::ExactlyOne(
                vs@.map_values(|v: PlacementVar| v.key()),
            ),
            ConstraintKind::Given(v) => ConstraintShape::Given(v.key()),
        }
    }

    /// Abstract view: description characters and logical shape.
    pub open spec fn model(&self) -> (Seq<char>, ConstraintShape) {
        (self.description@, self.shape())
    }
}

/// Abstract view of a constraint sequence.
pub open spec fn models(s: Seq<Constraint>) -> Seq<(Seq<char>, ConstraintShape)> {
    s.map_values(|c: Constraint| c.model())
}

/// Appending a constraint appends its abstract view.
proof fn lemma_models_push(s: Seq<Constraint>, c: Constraint)
    ensures
        models(s.push(c)) =~= models(s).push(c.model()),
{
    assert forall|i: int| 0 <= i < s.len() + 1 implies models(s.push(c))[i] == models(s).push(
        c.model())[i] by {
        if i < s.len() {
            assert(s.push(c)[i] == s[i]);
        } else {
            assert(s.push(c)[i] == c);
        }
    }
}

pub open spec fn row_desc(value: int, row: int) -> Seq<char> {
    "Exactly one "@ + dec_digits(value) + " in row "@ + dec_digits(row)
}

pub open spec fn col_desc(value: int, col: int) -> Seq<char> {
    "Exactly one "@ + dec_digits(value) + " in column "@ + dec_digits(col)
}

pub open spec fn cell_desc(row: int, col: int) -> Seq<char> {
    "Exactly one value in row "@ + dec_digits(row) + " column "@ + dec_digits(col)
}

pub open spec fn box_desc(value: int, num: int) -> Seq<char> {
    "Exactly one "@ + dec_digits(value) + " in box "@ + dec_digits(num)
}

pub open spec fn given_desc(value: int, row: int, col: int) -> Seq<char> {
    "Given "@ + dec_digits(value) + " in row "@ + dec_digits(row) + " column "@ + dec_digits(col)
}

/// Row-uniqueness family: entry `i` covers row `i / dim + 1`, value
/// `i % dim + 1`, over that row's cells.
pub open spec fn row_family(g: Grid) -> Seq<(Seq<char>, ConstraintShape)> {
    let n = g.dim();
    Seq::new(
        (n * n) as nat,
        |i: int|
            (
                row_desc(i % n + 1, i / n + 1),
                ConstraintShape::ExactlyOne(Seq::new(n as nat, |j: int| (i / n + 1, j + 1, i % n + 1))),
            ),
    )
}

/// Column-uniqueness family: entry `i` covers column `i / dim + 1`, value
/// `i % dim + 1`, over that column's cells.
pub open spec fn col_family(g: Grid) -> Seq<(Seq<char>, ConstraintShape)> {
    let n = g.dim();
    Seq::new(
        (n * n) as nat,
        |i: int|
            (
                col_desc(i % n + 1, i / n + 1),
                ConstraintShape::ExactlyOne(Seq::new(n as nat, |j: int| (j + 1, i / n + 1, i % n + 1))),
            ),
    )
}

/// Cell-uniqueness family: entry `i` covers cell
/// `(i / dim + 1, i % dim + 1)`, over all possible values.
pub open spec fn cell_family(g: Grid) -> Seq<(Seq<char>, ConstraintShape)> {
    let n = g.dim();
    Seq::new(
        (n * n) as nat,
        |i: int|
            (
                cell_desc(i / n + 1, i % n + 1),
                ConstraintShape::ExactlyOne(Seq::new(n as nat, |j: int| (i / n + 1, i % n + 1, j + 1))),
            ),
    )
}

/// Box-uniqueness family: entry `i` covers box `i / dim` (in row-major
/// anchor order), value `i % dim + 1`, over that box's cells.
pub open spec fn box_family(g: Grid) -> Seq<(Seq<char>, ConstraintShape)> {
    let n = g.dim();
    let b = g.bdim();
    Seq::new(
        (n * n) as nat,
        |i: int|
            (
                box_desc(i % n + 1, i / n + 1),
                ConstraintShape::ExactlyOne(
                    Seq::new(
                        n as nat,
                        |j: int|
                            (
                                (i / n / b) * b + 1 + j / b,
                                (i / n % b) * b + 1 + j % b,
                                i % n + 1,
                            ),
                    ),
                ),
            ),
    )
}

/// Clue-assertion family: one unit constraint per filled cell, row-major.
pub open spec fn given_family(g: Grid) -> Seq<(Seq<char>, ConstraintShape)> {
    g.filled_cells_spec().map_values(
        |t: (u8, u8, u8)|
            (
                given_desc(t.2 as int, t.0 as int, t.1 as int),
                ConstraintShape::Given((t.0 as int, t.1 as int, t.2 as int)),
            ),
    )
}

/// The complete encoding of a grid, in generation order.
pub open spec fn encode_model(g: Grid) -> Seq<(Seq<char>, ConstraintShape)> {
    row_family(g) + col_family(g) + cell_family(g) + box_family(g) + given_family(g)
}

fn make_row_desc(value: u8, row: u8) -> (r: String)
    ensures
        r@ == row_desc(value as int, row as int),
{
    let mut s = String::new();
    s.append("Exactly one ");
    crate::codec::push_decimal(&mut s, value);
    s.append(" in row ");
    crate::codec::push_decimal(&mut s, row);
    proof {
        assert(s@ =~= row_desc(value as int, row as int));
    }
    s
}

fn make_col_desc(value: u8, col: u8) -> (r: String)
    ensures
        r@ == col_desc(value as int, col as int),
{
    let mut s = String::new();
    s.append("Exactly one ");
    crate::codec::push_decimal(&mut s, value);
    s.append(" in column ");
    crate::codec::push_decimal(&mut s, col);
    proof {
        assert(s@ =~= col_desc(value as int, col as int));
    }
    s
}

fn make_cell_desc(row: u8, col: u8) -> (r: String)
    ensures
        r@ == cell_desc(row as int, col as int),
{
    let mut s = String::new();
    s.append("Exactly one value in row ");
    crate::codec::push_decimal(&mut s, row);
    s.append(" column ");
    crate::codec::push_decimal(&mut s, col);
    proof {
        assert(s@ =~= cell_desc(row as int, col as int));
    }
    s
}

fn make_box_desc(value: u8, num: u8) -> (r: String)
    ensures
        r@ == box_desc(value as int, num as int),
{
    let mut s = String::new();
    s.append("Exactly one ");
    crate::codec::push_decimal(&mut s, value);
    s.append(" in box ");
    crate::codec::push_decimal(&mut s, num);
    proof {
        assert(s@ =~= box_desc(value as int, num as int));
    }
    s
}

fn make_given_desc(value: u8, row: u8, col: u8) -> (r: String)
    ensures
        r@ == given_desc(value as int, row as int, col as int),
{
    let mut s = String::new();
    s.append("Given ");
    crate::codec::push_decimal(&mut s, value);
    s.append(" in row ");
    crate::codec::push_decimal(&mut s, row);
    s.append(" column ");
    crate::codec::push_decimal(&mut s, col);
    proof {
        assert(s@ =~= given_desc(value as int, row as int, col as int));
    }
    s
}

/// Appends the row-uniqueness constraints: for every row and value, exactly
/// one cell of that row holds that value.
pub fn one_number_per_row(props: &mut Vec<Constraint>, grid: &Grid)
    requires
        grid.wf(),
    ensures
        models(final(props)@) == models(old(props)@) + row_family(*grid),
{
    let n = grid.number_rows as usize;
    let rows = grid.rows();
    let values = grid.possible_values();
    let mut ri: usize = 0;
    while ri < n
        invariant
            grid.wf(),
            n == grid.dim(),
            rows@.len() == n,
            values@.len() == n,
            forall|i: int|
                0 <= i < n ==> #[trigger] rows@[i] == (crate::grid::Row {
                    row: (i + 1) as u8,
                    number_cols: grid.number_cols,
                }),
            forall|i: int| 0 <= i < n ==> #[trigger] values@[i] == (i + 1) as u8,
            ri <= n,
            models(props@) == models(old(props)@) + row_family(*grid).subrange(
                0, ri as int * n as int),
        decreases n - ri,
    {
        let row = row_handle_at(&rows, ri);
        let cells = row.cells();
        let mut vi: usize = 0;
        while vi < n
            invariant
                grid.wf(),
                n == grid.dim(),
                values@.len() == n,
                forall|i: int| 0 <= i < n ==> #[trigger] values@[i] == (i + 1) as u8,
                ri < n,
                vi <= n,
                row == (crate::grid::Row {
                    row: (ri + 1) as u8,
                    number_cols: grid.number_cols,
                }),
                cells@.len() == n,
                forall|j: int|
                    0 <= j < n ==> #[trigger] cells@[j] == (((ri + 1) as u8), ((j + 1) as u8)),
                models(props@) == models(old(props)@) + row_family(*grid).subrange(
                    0, ri as int * n as int + vi as int),
            decreases n - vi,
        {
            let value = values[vi];
            let mut vars: Vec<PlacementVar> = Vec::new();
            let mut j: usize = 0;
            while j < n
                invariant
                    cells@.len() == n,
                    forall|k: int|
                        0 <= k < n ==> #[trigger] cells@[k] == (((ri + 1) as u8), ((k + 1) as u8)),
                    j <= n,
                    vars@.len() == j,
                    forall|k: int|
                        0 <= k < j ==> #[trigger] vars@[k] == (PlacementVar {
                            row: (ri + 1) as u8,
                            col: (k + 1) as u8,
                            value: value,
                        }),
                decreases n - j,
            {
                let (r, c) = cells[j];
                vars.push(PlacementVar { row: r, col: c, value });
                j += 1;
            }
            let desc = make_row_desc(value, row.row);
            let c = Constraint { description: desc, kind: ConstraintKind::ExactlyOne(vars) };
            proof {
                let gi = *grid;
                let ni = n as int;
                assert((ri as int) * ni + (vi as int) < ni * ni) by (nonlinear_arith)
                    requires
                        0 <= (ri as int) < ni,
                        0 <= (vi as int) < ni,
                ;
                let k = ri as int * ni + vi as int;
                vstd::arithmetic::div_mod::lemma_fundamental_div_mod_converse(
                    k, ni, ri as int, vi as int);
                assert(vars@.map_values(|v: PlacementVar| v.key()) =~= Seq::new(
                    ni as nat, |jj: int| (k / ni + 1, jj + 1, k % ni + 1)));
                assert(c.model() == row_family(gi)[k]);
            }
            let ghost prev = props@;
            props.push(c);
            proof {
                let gi = *grid;
                let ni = n as int;
                let k = ri as int * ni + vi as int;
                lemma_models_push(prev, c);
                assert(models(prev).push(row_family(gi)[k]) =~= models(old(props)@) + row_family(
                    gi).subrange(0, k + 1));
                assert(models(props@) == models(old(props)@) + row_family(gi).subrange(0, k + 1));
            }
            vi += 1;
        }
        proof {
            assert((ri as int + 1) * (n as int) == ri as int * n as int + n as int) by (nonlinear_arith);
        }
        ri += 1;
    }
    proof {
        assert(row_family(*grid).subrange(0, n as int * n as int) =~= row_family(*grid));
    }
}

/// Appends the column-uniqueness constraints: for every column and value,
/// exactly one cell of that column holds that value.
pub fn one_number_per_col(props: &mut Vec<Constraint>, grid: &Grid)
    requires
        grid.wf(),
    ensures
        models(final(props)@) == models(old(props)@) + col_family(*grid),
{
    let n = grid.number_rows as usize;
    let cols = grid.cols();
    let values = grid.possible_values();
    let mut ci: usize = 0;
    while ci < n
        invariant
            grid.wf(),
            n == grid.dim(),
            cols@.len() == n,
            values@.len() == n,
            forall|i: int|
                0 <= i < n ==> #[trigger] cols@[i] == (crate::grid::Column {
                    col: (i + 1) as u8,
                    number_rows: grid.number_rows,
                }),
            forall|i: int| 0 <= i < n ==> #[trigger] values@[i] == (i + 1) as u8,
            ci <= n,
            models(props@) == models(old(props)@) + col_family(*grid).subrange(
                0, ci as int * n as int),
        decreases n - ci,
    {
        let col = crate::grid::Column { col: cols[ci].col, number_rows: cols[ci].number_rows };
        let cells = col.cells();
        let mut vi: usize = 0;
        while vi < n
            invariant
                grid.wf(),
                n == grid.dim(),
                values@.len() == n,
                forall|i: int| 0 <= i < n ==> #[trigger] values@[i] == (i + 1) as u8,
                ci < n,
                vi <= n,
                col == (crate::grid::Column {
                    col: (ci + 1) as u8,
                    number_rows: grid.number_rows,
                }),
                cells@.len() == n,
                forall|j: int|
                    0 <= j < n ==> #[trigger] cells@[j] == (((j + 1) as u8), ((ci + 1) as u8)),
                models(props@) == models(old(props)@) + col_family(*grid).subrange(
                    0, ci as int * n as int + vi as int),
            decreases n - vi,
        {
            let value = values[vi];
            let mut vars: Vec<PlacementVar> = Vec::new();
            let mut j: usize = 0;
            while j < n
                invariant
                    cells@.len() == n,
                    forall|k: int|
                        0 <= k < n ==> #[trigger] cells@[k] == (((k + 1) as u8), ((ci + 1) as u8)),
                    j <= n,
                    vars@.len() == j,
                    forall|k: int|
                        0 <= k < j ==> #[trigger] vars@[k] == (PlacementVar {
                            row: (k + 1) as u8,
                            col: (ci + 1) as u8,
                            value: value,
                        }),
                decreases n - j,
            {
                let (r, c) = cells[j];
                vars.push(PlacementVar { row: r, col: c, value });
                j += 1;
            }
            let desc = make_col_desc(value, col.col);
            let c = Constraint { description: desc, kind: ConstraintKind::ExactlyOne(vars) };
            proof {
                let gi = *grid;
                let ni = n as int;
                assert((ci as int) * ni + (vi as int) < ni * ni) by (nonlinear_arith)
                    requires
                        0 <= (ci as int) < ni,
                        0 <= (vi as int) < ni,
                ;
                let k = ci as int * ni + vi as int;
                vstd::arithmetic::div_mod::lemma_fundamental_div_mod_converse(
                    k, ni, ci as int, vi as int);
                assert(vars@.map_values(|v: PlacementVar| v.key()) =~= Seq::new(
                    ni as nat, |jj: int| (jj + 1, k / ni + 1, k % ni + 1)));
                assert(c.model() == col_family(gi)[k]);
            }
            let ghost prev = props@;
            props.push(c);
            proof {
                let gi = *grid;
                let ni = n as int;
                let k = ci as int * ni + vi as int;
                lemma_models_push(prev, c);
                assert(models(prev).push(col_family(gi)[k]) =~= models(old(props)@) + col_family(
                    gi).subrange(0, k + 1));
                assert(models(props@) == models(old(props)@) + col_family(gi).subrange(0, k + 1));
            }
            vi += 1;
        }
        proof {
            assert((ci as int + 1) * (n as int) == ci as int * n as int + n as int) by (nonlinear_arith);
        }
        ci += 1;
    }
    proof {
        assert(col_family(*grid).subrange(0, n as int * n as int) =~= col_family(*grid));
    }
}

/// Appends the cell-uniqueness constraints: every cell holds exactly one of
/// the possible values.
pub fn one_number_per_cell(props: &mut Vec<Constraint>, grid: &Grid)
    requires
        grid.wf(),
    ensures
        models(final(props)@) == models(old(props)@) + cell_family(*grid),
{
    let n = grid.number_rows as usize;
    let rows = grid.rows();
    let values = grid.possible_values();
    let mut ri: usize = 0;
    while ri < n
        invariant
            grid.wf(),
            n == grid.dim(),
            rows@.len() == n,
            values@.len() == n,
            forall|i: int|
                0 <= i < n ==> #[trigger] rows@[i] == (crate::grid::Row {
                    row: (i + 1) as u8,
                    number_cols: grid.number_cols,
                }),
            forall|i: int| 0 <= i < n ==> #[trigger] values@[i] == (i + 1) as u8,
            ri <= n,
            models(props@) == models(old(props)@) + cell_family(*grid).subrange(
                0, ri as int * n as int),
        decreases n - ri,
    {
        let row = row_handle_at(&rows, ri);
        let cells = row.cells();
        let mut ci: usize = 0;
        while ci < n
            invariant
                grid.wf(),
                n == grid.dim(),
                values@.len() == n,
                forall|i: int| 0 <= i < n ==> #[trigger] values@[i] == (i + 1) as u8,
                ri < n,
                ci <= n,
                cells@.len() == n,
                forall|j: int|
                    0 <= j < n ==> #[trigger] cells@[j] == (((ri + 1) as u8), ((j + 1) as u8)),
                models(props@) == models(old(props)@) + cell_family(*grid).subrange(
                    0, ri as int * n as int + ci as int),
            decreases n - ci,
        {
            let (cell_row, cell_col) = cells[ci];
            let mut vars: Vec<PlacementVar> = Vec::new();
            let mut j: usize = 0;
            while j < n
                invariant
                    values@.len() == n,
                    forall|i: int| 0 <= i < n ==> #[trigger] values@[i] == (i + 1) as u8,
                    cell_row == (ri + 1) as u8,
                    cell_col == (ci + 1) as u8,
                    ri < n,
                    ci < n,
                    j <= n,
                    vars@.len() == j,
                    forall|k: int|
                        0 <= k < j ==> #[trigger] vars@[k] == (PlacementVar {
                            row: (ri + 1) as u8,
                            col: (ci + 1) as u8,
                            value: (k + 1) as u8,
                        }),
                decreases n - j,
            {
                vars.push(PlacementVar { row: cell_row, col: cell_col, value: values[j] });
                j += 1;
            }
            let desc = make_cell_desc(cell_row, cell_col);
            let c = Constraint { description: desc, kind: ConstraintKind::ExactlyOne(vars) };
            proof {
                let gi = *grid;
                let ni = n as int;
                assert((ri as int) * ni + (ci as int) < ni * ni) by (nonlinear_arith)
                    requires
                        0 <= (ri as int) < ni,
                        0 <= (ci as int) < ni,
                ;
                let k = ri as int * ni + ci as int;
                vstd::arithmetic::div_mod::lemma_fundamental_div_mod_converse(
                    k, ni, ri as int, ci as int);
                assert(vars@.map_values(|v: PlacementVar| v.key()) =~= Seq::new(
                    ni as nat, |jj: int| (k / ni + 1, k % ni + 1, jj + 1)));
                assert(c.model() == cell_family(gi)[k]);
            }
            let ghost prev = props@;
            props.push(c);
            proof {
                let gi = *grid;
                let ni = n as int;
                let k = ri as int * ni + ci as int;
                lemma_models_push(prev, c);
                assert(models(prev).push(cell_family(gi)[k]) =~= models(old(props)@) + cell_family(
                    gi).subrange(0, k + 1));
                assert(models(props@) == models(old(props)@) + cell_family(gi).subrange(0, k + 1));
            }
            ci += 1;
        }
        proof {
            assert((ri as int + 1) * (n as int) == ri as int * n as int + n as int) by (nonlinear_arith);
        }
        ri += 1;
    }
    proof {
        assert(cell_family(*grid).subrange(0, n as int * n as int) =~= cell_family(*grid));
    }
}

/// Appends the box-uniqueness constraints: for every box and value, exactly
/// one cell of that box holds that value.
pub fn one_number_per_box(props: &mut Vec<Constraint>, grid: &Grid)
    requires
        grid.wf(),
    ensures
        models(final(props)@) == models(old(props)@) + box_family(*grid),
{
    let n = grid.number_rows as usize;
    let boxes = grid.boxes();
    let values = grid.possible_values();
    let mut bi: usize = 0;
    while bi < n
        invariant
            grid.wf(),
            n == grid.dim(),
            boxes@.len() == n,
            values@.len() == n,
            forall|i: int|
                0 <= i < n ==> #[trigger] boxes@[i] == (crate::grid::GridBox {
                    row: ((i / grid.bdim()) * grid.bdim() + 1) as u8,
                    col: ((i % grid.bdim()) * grid.bdim() + 1) as u8,
                    box_size: grid.box_size,
                }),
            forall|i: int| 0 <= i < n ==> #[trigger] values@[i] == (i + 1) as u8,
            bi <= n,
            models(props@) == models(old(props)@) + box_family(*grid).subrange(
                0, bi as int * n as int),
        decreases n - bi,
    {
        let gbox = crate::grid::GridBox {
            row: boxes[bi].row,
            col: boxes[bi].col,
            box_size: boxes[bi].box_size,
        };
        proof {
            let b = grid.bdim();
            let q = bi as int / b;
            let m = bi as int % b;
            vstd::arithmetic::div_mod::lemma_fundamental_div_mod(bi as int, b);
            assert(0 <= q && q < b && 0 <= m < b) by (nonlinear_arith)
                requires
                    0 <= (bi as int),
                    (bi as int) < b * b,
                    b >= 1,
                    q == (bi as int) / b,
                    m == (bi as int) % b,
            ;
            assert(q * b + 1 + b <= b * b + 1 && m * b + 1 + b <= b * b + 1) by (nonlinear_arith)
                requires
                    0 <= q && q < b,
                    0 <= m && m < b,
                    b >= 1,
            ;
        }
        let cells = gbox.cells();
        let mut vi: usize = 0;
        while vi < n
            invariant
                grid.wf(),
                n == grid.dim(),
                values@.len() == n,
                forall|i: int| 0 <= i < n ==> #[trigger] values@[i] == (i + 1) as u8,
                bi < n,
                vi <= n,
                gbox == (crate::grid::GridBox {
                    row: ((bi as int / grid.bdim()) * grid.bdim() + 1) as u8,
                    col: ((bi as int % grid.bdim()) * grid.bdim() + 1) as u8,
                    box_size: grid.box_size,
                }),
                gbox.row as int == (bi as int / grid.bdim()) * grid.bdim() + 1,
                gbox.col as int == (bi as int % grid.bdim()) * grid.bdim() + 1,
                cells@.len() == n,
                forall|j: int|
                    0 <= j < n ==> #[trigger] cells@[j] == (
                        (gbox.row as int + j / grid.bdim()) as u8,
                        (gbox.col as int + j % grid.bdim()) as u8,
                    ),
                models(props@) == models(old(props)@) + box_family(*grid).subrange(
                    0, bi as int * n as int + vi as int),
            decreases n - vi,
        {
            let value = values[vi];
            let mut vars: Vec<PlacementVar> = Vec::new();
            let mut j: usize = 0;
            while j < n
                invariant
                    grid.wf(),
                    n == grid.dim(),
                    cells@.len() == n,
                    forall|k: int|
                        0 <= k < n ==> #[trigger] cells@[k] == (
                            (gbox.row as int + k / grid.bdim()) as u8,
                            (gbox.col as int + k % grid.bdim()) as u8,
                        ),
                    j <= n,
                    vars@.len() == j,
                    forall|k: int|
                        0 <= k < j ==> #[trigger] vars@[k] == (PlacementVar {
                            row: (gbox.row as int + k / grid.bdim()) as u8,
                            col: (gbox.col as int + k % grid.bdim()) as u8,
                            value: value,
                        }),
                decreases n - j,
            {
                let (r, c) = cells[j];
                vars.push(PlacementVar { row: r, col: c, value });
                j += 1;
            }
            proof {
                assert(bi as int + 1 <= 255);
            }
            let desc = make_box_desc(value, (bi + 1) as u8);
            let c = Constraint { description: desc, kind: ConstraintKind::ExactlyOne(vars) };
            proof {
                let gi = *grid;
                let ni = n as int;
                let b = gi.bdim();
                assert((bi as int) * ni + (vi as int) < ni * ni) by (nonlinear_arith)
                    requires
                        0 <= (bi as int) < ni,
                        0 <= (vi as int) < ni,
                ;
                let k = bi as int * ni + vi as int;
                vstd::arithmetic::div_mod::lemma_fundamental_div_mod_converse(
                    k, ni, bi as int, vi as int);
                assert forall|jj: int| #![trigger vars@[jj]] 0 <= jj < ni implies vars@.map_values(
                    |v: PlacementVar| v.key())[jj] == (
                    (k / ni / b) * b + 1 + jj / b,
                    (k / ni % b) * b + 1 + jj % b,
                    k % ni + 1,
                ) by {
                    assert(b * b == ni && jj < b * b && (bi as int) < b * b);
                    vstd::arithmetic::div_mod::lemma_multiply_divide_lt(jj, b, b);
                    vstd::arithmetic::div_mod::lemma_div_pos_is_pos(jj, b);
                    vstd::arithmetic::div_mod::lemma_mod_division_less_than_divisor(jj, b);
                    vstd::arithmetic::div_mod::lemma_multiply_divide_lt(bi as int, b, b);
                    vstd::arithmetic::div_mod::lemma_div_pos_is_pos(bi as int, b);
                    vstd::arithmetic::div_mod::lemma_mod_division_less_than_divisor(bi as int, b);
                    assert((bi as int / b) * b + b <= b * b && (bi as int % b) * b + b <= b
                        * b) by (nonlinear_arith)
                        requires
                            0 <= (bi as int / b) && (bi as int / b) < b,
                            0 <= (bi as int % b) && (bi as int % b) < b,
                            b >= 1,
                    ;
                    assert(vars@[jj].key() == (
                        gbox.row as int + jj / b,
                        gbox.col as int + jj % b,
                        value as int,
                    ));
                }
                assert(vars@.map_values(|v: PlacementVar| v.key()) =~= Seq::new(
                    ni as nat,
                    |jj: int| ((k / ni / b) * b + 1 + jj / b, (k / ni % b) * b + 1 + jj % b, k % ni + 1),
                ));
                assert(c.model() == box_family(gi)[k]);
            }
            let ghost prev = props@;
            props.push(c);
            proof {
                let gi = *grid;
                let ni = n as int;
                let k = bi as int * ni + vi as int;
                lemma_models_push(prev, c);
                assert(models(prev).push(box_family(gi)[k]) =~= models(old(props)@) + box_family(
                    gi).subrange(0, k + 1));
                assert(models(props@) == models(old(props)@) + box_family(gi).subrange(0, k + 1));
            }
            vi += 1;
        }
        proof {
            assert((bi as int + 1) * (n as int) == bi as int * n as int + n as int) by (nonlinear_arith);
        }
        bi += 1;
    }
    proof {
        assert(box_family(*grid).subrange(0, n as int * n as int) =~= box_family(*grid));
    }
}

/// Appends one unit constraint per given clue, in row-major cell order.
pub fn fill_given_digits(props: &mut Vec<Constraint>, grid: &Grid)
    requires
        grid.wf(),
    ensures
        models(final(props)@) == models(old(props)@) + given_family(*grid),
{
    let filled = grid.get_filled_cells();
    let mut i: usize = 0;
    while i < filled.len()
        invariant
            grid.wf(),
            filled@ == grid.filled_cells_spec(),
            i <= filled@.len(),
            models(props@) == models(old(props)@) + given_family(*grid).subrange(0, i as int),
        decreases filled@.len() - i,
    {
        let (row, col, value) = filled[i];
        let desc = make_given_desc(value, row, col);
        let c = Constraint {
            description: desc,
            kind: ConstraintKind::Given(PlacementVar { row, col, value }),
        };
        proof {
            assert(c.model() == given_family(*grid)[i as int]);
        }
        let ghost prev = props@;
        props.push(c);
        proof {
            lemma_models_push(prev, c);
            assert(models(prev).push(given_family(*grid)[i as int]) =~= models(old(props)@)
                + given_family(*grid).subrange(0, i as int + 1));
            assert(models(props@) == models(old(props)@) + given_family(*grid).subrange(
                0, i as int + 1));
        }
        i += 1;
    }
    proof {
        assert(given_family(*grid).subrange(0, given_family(*grid).len() as int) =~= given_family(
            *grid));
    }
}

/// Translates a grid into its complete, labeled constraint set, in the order
/// rows, columns, cells, boxes, then given clues.
pub fn translate_to_sat_encoding(grid: &Grid) -> (r: Vec<Constraint>)
    requires
        grid.wf(),
    ensures
        models(r@) == encode_model(*grid),
{
    let mut props: Vec<Constraint> = Vec::new();
    proof {
        assert(models(props@) =~= Seq::<(Seq<char>, ConstraintShape)>::empty());
    }
    one_number_per_row(&mut props, grid);
    one_number_per_col(&mut props, grid);
    one_number_per_cell(&mut props, grid);
    one_number_per_box(&mut props, grid);
    fill_given_digits(&mut props, grid);
    proof {
        assert(models(props@) =~= encode_model(*grid));
    }
    props
}

/// Number of exactly-one constraints in an abstract constraint sequence.
pub open spec fn count_exactly_one(s: Seq<(Seq<char>, ConstraintShape)>) -> int
    decreases s.len(),
{
    if s.len() == 0 {
        0
    } else {
        count_exactly_one(s.drop_last()) + if s.last().1 is ExactlyOne {
            1int
        } else {
            0int
        }
    }
}

/// Number of unit (given-clue) constraints in an abstract constraint sequence.
pub open spec fn count_given(s: Seq<(Seq<char>, ConstraintShape)>) -> int
    decreases s.len(),
{
    if s.len() == 0 {
        0
    } else {
        count_given(s.drop_last()) + if s.last().1 is Given {
            1int
        } else {
            0int
        }
    }
}

/// Counting a sequence whose first `m` entries are exactly-one constraints
/// and whose rest are unit constraints.
proof fn lemma_count_split(s: Seq<(Seq<char>, ConstraintShape)>, m: int)
    requires
        0 <= m <= s.len(),
        forall|i: int| 0 <= i < m ==> #[trigger] s[i].1 is ExactlyOne,
        forall|i: int| m <= i < s.len() ==> #[trigger] s[i].1 is Given,
    ensures
        count_exactly_one(s) == m,
        count_given(s) == s.len() - m,
    decreases s.len(),
{
    if s.len() == 0 {
    } else if m == s.len() {
        lemma_count_split(s.drop_last(), m - 1);
    } else {
        lemma_count_split(s.drop_last(), m);
    }
}

/// Constraint-count formula: the encoding of a well-formed grid with `k`
/// given clues holds exactly `4 * dim * dim` exactly-one constraints followed
/// by exactly `k` unit constraints, and nothing else.
pub proof fn lemma_constraint_counts(g: Grid)
    requires
        g.wf(),
    ensures
        encode_model(g).len() == 4 * g.dim() * g.dim() + g.filled_cells_spec().len(),
        count_exactly_one(encode_model(g)) == 4 * g.dim() * g.dim(),
        count_given(encode_model(g)) == g.filled_cells_spec().len(),
{
    let s = encode_model(g);
    let n = g.dim();
    let nn = n * n;
    assert(2 * nn == nn + nn && 3 * nn == nn + nn + nn && 4 * nn == nn + nn + nn + nn);
    assert(4 * n * n == 4 * nn) by (nonlinear_arith)
        requires
            nn == n * n,
    ;
    assert(row_family(g).len() == nn && col_family(g).len() == nn && cell_family(g).len() == nn
        && box_family(g).len() == nn);
    assert(given_family(g).len() == g.filled_cells_spec().len());
    assert(s.len() == 4 * nn + g.filled_cells_spec().len());
    assert forall|i: int| 0 <= i < 4 * nn implies #[trigger] s[i].1 is ExactlyOne by {
        if i < nn {
            assert(s[i] == row_family(g)[i]);
        } else if i < 2 * nn {
            assert(s[i] == col_family(g)[i - nn]);
        } else if i < 3 * nn {
            assert(s[i] == cell_family(g)[i - 2 * nn]);
        } else {
            assert(s[i] == box_family(g)[i - 3 * nn]);
        }
    }
    assert forall|i: int| 4 * nn <= i < s.len() implies #[trigger] s[i].1 is Given by {
        assert(s[i] == given_family(g)[i - 4 * nn]);
    }
    lemma_count_split(s, 4 * nn);
}

/// The placement-variable assignment a grid induces: the triples of its
/// non-empty cells.
pub open spec fn assignment_of(g: Grid) -> Set<(int, int, int)> {
    Set::new(|t: (int, int, int)| g.in_range(t.0, t.1) && t.2 == g.at(t.0, t.1) && t.2 != 0)
}

/// Whether an assignment of placement variables satisfies one constraint:
/// an exactly-one constraint wants precisely one of its variables assigned,
/// a unit constraint wants its variable assigned.
pub open spec fn only_hit(a: Set<(int, int, int)>, ks: Seq<(int, int, int)>, i: int) -> bool {
    forall|j: int| 0 <= j < ks.len() && j != i ==> !a.contains(#[trigger] ks[j])
}

pub open spec fn sat_exactly_one(a: Set<(int, int, int)>, ks: Seq<(int, int, int)>) -> bool {
    exists|i: int| 0 <= i < ks.len() && a.contains(#[trigger] ks[i]) && only_hit(a, ks, i)
}

pub open spec fn satisfies(a: Set<(int, int, int)>, c: ConstraintShape) -> bool {
    match c {
        ConstraintShape::ExactlyOne(ks) => sat_exactly_one(a, ks),
        ConstraintShape::Given(k) => a.contains(k),
    }
}

/// A sequence of `n` pairwise-distinct values drawn from `[1, n]` hits every
/// value of `[1, n]`.
proof fn lemma_pigeonhole(s: Seq<int>, n: int, v: int)
    requires
        s.len() == n,
        forall|i: int| 0 <= i < n ==> 1 <= #[trigger] s[i] <= n,
        forall|i: int, j: int| 0 <= i < j < n ==> s[i] != s[j],
        1 <= v <= n,
    ensures
        exists|i: int| 0 <= i < n && #[trigger] s[i] == v,
{
    assert(s.no_duplicates()) by {
        assert forall|i: int, j: int| 0 <= i < s.len() && 0 <= j < s.len() && i != j implies s[i]
            != s[j] by {
            if i < j {
            } else {
                assert(s[j] != s[i]);
            }
        }
    }
    s.unique_seq_to_set();
    let range = vstd::set_lib::set_int_range(1, n + 1);
    vstd::set_lib::lemma_int_range(1, n + 1);
    if !(exists|i: int| 0 <= i < n && s[i] == v) {
        let small = range.remove(v);
        assert(s.to_set().subset_of(small)) by {
            assert forall|x: int| s.to_set().contains(x) implies small.contains(x) by {
                let i = choose|i: int| 0 <= i < s.len() && s[i] == x;
                assert(1 <= x <= n);
                assert(x != v);
            }
        }
        vstd::set_lib::lemma_len_subset(s.to_set(), small);
        assert(small.len() == n - 1);
        assert(false);
    }
}

/// An assignment with exactly one hit among `ks` satisfies the exactly-one
/// constraint over `ks`.
proof fn lemma_exactly_one_witness(a: Set<(int, int, int)>, ks: Seq<(int, int, int)>, i0: int)
    requires
        0 <= i0 < ks.len(),
        a.contains(ks[i0]),
        only_hit(a, ks, i0),
    ensures
        satisfies(a, ConstraintShape::ExactlyOne(ks)),
{
    assert(sat_exactly_one(a, ks)) by {
        assert(0 <= i0 < ks.len() && a.contains(ks[i0]) && only_hit(a, ks, i0));
    }
}

/// A row-uniqueness constraint holds of the assignment of a fully filled,
/// rule-valid grid.
proof fn lemma_row_constraint_sat(g: Grid, r: int, v: int, ks: Seq<(int, int, int)>)
    requires
        g.wf(),
        g.valid(),
        g.fully_filled(),
        1 <= r <= g.dim(),
        1 <= v <= g.dim(),
        ks.len() == g.dim(),
        forall|j: int| 0 <= j < ks.len() ==> #[trigger] ks[j] == (r, j + 1, v),
    ensures
        satisfies(assignment_of(g), ConstraintShape::ExactlyOne(ks)),
{
    let n = g.dim();
    let a = assignment_of(g);
    let s = Seq::new(n as nat, |c: int| g.at(r, c + 1));
    assert forall|i: int, j: int| 0 <= i < j < n implies s[i] != s[j] by {
        assert(g.at(r, i + 1) != 0);
    }
    lemma_pigeonhole(s, n, v);
    let c0 = choose|c: int| 0 <= c < n && s[c] == v;
    assert(a.contains(ks[c0]));
    assert forall|j: int| 0 <= j < ks.len() && j != c0 implies !a.contains(#[trigger] ks[j]) by {
        if a.contains(ks[j]) {
            assert(g.at(r, j + 1) == v && g.at(r, c0 + 1) == v);
            assert(g.at(r, j + 1) != 0);
        }
    }
    assert(only_hit(a, ks, c0));
    lemma_exactly_one_witness(a, ks, c0);
}

/// A column-uniqueness constraint holds of the assignment of a fully filled,
/// rule-valid grid.
proof fn lemma_col_constraint_sat(g: Grid, c: int, v: int, ks: Seq<(int, int, int)>)
    requires
        g.wf(),
        g.valid(),
        g.fully_filled(),
        1 <= c <= g.dim(),
        1 <= v <= g.dim(),
        ks.len() == g.dim(),
        forall|j: int| 0 <= j < ks.len() ==> #[trigger] ks[j] == (j + 1, c, v),
    ensures
        satisfies(assignment_of(g), ConstraintShape::ExactlyOne(ks)),
{
    let n = g.dim();
    let a = assignment_of(g);
    let s = Seq::new(n as nat, |r: int| g.at(r + 1, c));
    assert forall|i: int, j: int| 0 <= i < j < n implies s[i] != s[j] by {
        assert(g.at(i + 1, c) != 0);
    }
    lemma_pigeonhole(s, n, v);
    let r0 = choose|r: int| 0 <= r < n && s[r] == v;
    assert(a.contains(ks[r0]));
    assert forall|j: int| 0 <= j < ks.len() && j != r0 implies !a.contains(#[trigger] ks[j]) by {
        if a.contains(ks[j]) {
            assert(g.at(j + 1, c) == v && g.at(r0 + 1, c) == v);
            assert(g.at(j + 1, c) != 0);
        }
    }
    assert(only_hit(a, ks, r0));
    lemma_exactly_one_witness(a, ks, r0);
}

/// A cell-uniqueness constraint holds of the assignment of a fully filled
/// grid: the cell's one value is assigned and no other.
proof fn lemma_cell_constraint_sat(g: Grid, r: int, c: int, ks: Seq<(int, int, int)>)
    requires
        g.wf(),
        g.fully_filled(),
        1 <= r <= g.dim(),
        1 <= c <= g.dim(),
        ks.len() == g.dim(),
        forall|j: int| 0 <= j < ks.len() ==> #[trigger] ks[j] == (r, c, j + 1),
    ensures
        satisfies(assignment_of(g), ConstraintShape::ExactlyOne(ks)),
{
    let a = assignment_of(g);
    let v0 = g.at(r, c);
    assert(1 <= v0 <= g.dim());
    assert(a.contains(ks[v0 - 1]));
    assert forall|j: int| 0 <= j < ks.len() && j != v0 - 1 implies !a.contains(
        #[trigger] ks[j]) by {
        assert(ks[j].2 != v0);
    }
    assert(only_hit(a, ks, v0 - 1));
    lemma_exactly_one_witness(a, ks, v0 - 1);
}

/// A box-uniqueness constraint holds of the assignment of a fully filled,
/// rule-valid grid.
proof fn lemma_box_constraint_sat(g: Grid, bn: int, v: int, ks: Seq<(int, int, int)>)
    requires
        g.wf(),
        g.valid(),
        g.fully_filled(),
        0 <= bn < g.dim(),
        1 <= v <= g.dim(),
        ks.len() == g.dim(),
        forall|j: int|
            0 <= j < ks.len() ==> #[trigger] ks[j] == (
                (bn / g.bdim()) * g.bdim() + 1 + j / g.bdim(),
                (bn % g.bdim()) * g.bdim() + 1 + j % g.bdim(),
                v,
            ),
    ensures
        satisfies(assignment_of(g), ConstraintShape::ExactlyOne(ks)),
{
    let n = g.dim();
    let b = g.bdim();
    let a = assignment_of(g);
    assert(b * b == n);
    vstd::arithmetic::div_mod::lemma_multiply_divide_lt(bn, b, b);
    vstd::arithmetic::div_mod::lemma_div_pos_is_pos(bn, b);
    vstd::arithmetic::div_mod::lemma_mod_division_less_than_divisor(bn, b);
    let ar = (bn / b) * b + 1;
    let ac = (bn % b) * b + 1;
    let s = Seq::new(n as nat, |j: int| g.at(ar + j / b, ac + j % b));
    assert forall|j: int|
        #![trigger ks[j]]
        #![trigger s[j]]
        0 <= j < n implies 1 <= ar + j / b <= n && 1 <= ac + j % b <= n && ((ar + j / b) - 1) / b
        == bn / b && ((ac + j % b) - 1) / b == bn % b by {
        vstd::arithmetic::div_mod::lemma_multiply_divide_lt(j, b, b);
        vstd::arithmetic::div_mod::lemma_div_pos_is_pos(j, b);
        vstd::arithmetic::div_mod::lemma_mod_division_less_than_divisor(j, b);
        assert((bn / b) * b + b <= b * b && (bn % b) * b + b <= b * b) by (nonlinear_arith)
            requires
                0 <= (bn / b) && (bn / b) < b,
                0 <= (bn % b) && (bn % b) < b,
                b >= 1,
        ;
        vstd::arithmetic::div_mod::lemma_fundamental_div_mod_converse(
            (ar + j / b) - 1, b, bn / b, j / b);
        vstd::arithmetic::div_mod::lemma_fundamental_div_mod_converse(
            (ac + j % b) - 1, b, bn % b, j % b);
    }
    assert forall|i: int, j: int| 0 <= i < j < n implies s[i] != s[j] by {
        assert(s[i] == g.at(ar + i / b, ac + i % b));
        assert(s[j] == g.at(ar + j / b, ac + j % b));
        vstd::arithmetic::div_mod::lemma_fundamental_div_mod(i, b);
        vstd::arithmetic::div_mod::lemma_fundamental_div_mod(j, b);
        assert(!(i / b == j / b && i % b == j % b));
        assert(g.same_box(ar + i / b, ac + i % b, ar + j / b, ac + j % b));
        assert(g.at(ar + i / b, ac + i % b) != 0);
    }
    lemma_pigeonhole(s, n, v);
    let j0 = choose|j: int| 0 <= j < n && s[j] == v;
    assert(a.contains(ks[j0]));
    assert forall|j: int| 0 <= j < ks.len() && j != j0 implies !a.contains(#[trigger] ks[j]) by {
        if a.contains(ks[j]) {
            assert(s[j] == g.at(ar + j / b, ac + j % b));
            assert(s[j0] == g.at(ar + j0 / b, ac + j0 % b));
            vstd::arithmetic::div_mod::lemma_fundamental_div_mod(j, b);
            vstd::arithmetic::div_mod::lemma_fundamental_div_mod(j0, b);
            assert(!(j / b == j0 / b && j % b == j0 % b));
            assert(g.same_box(ar + j / b, ac + j % b, ar + j0 / b, ac + j0 % b));
            assert(g.at(ar + j / b, ac + j % b) == v && g.at(ar + j0 / b, ac + j0 % b) == v);
            assert(g.at(ar + j / b, ac + j % b) != 0);
        }
    }
    assert(only_hit(a, ks, j0));
    lemma_exactly_one_witness(a, ks, j0);
}

/// Whether `g2` extends `g`: the same geometry, every given (non-empty)
/// cell of `g` keeping its value in `g2`.
pub open spec fn extends(g2: Grid, g: Grid) -> bool {
    &&& g2.number_rows == g.number_rows
    &&& g2.number_cols == g.number_cols
    &&& g2.box_size == g.box_size
    &&& forall|r: int, c: int|
        g.in_range(r, c) && #[trigger] g.at(r, c) != 0 ==> g2.at(r, c) == g.at(r, c)
}

/// Every constraint of the encoding of a fully filled, rule-valid grid is
/// satisfied by the assignment that reads the grid's own cells as true
/// placement variables.
pub proof fn lemma_encoding_satisfied(g: Grid)
    requires
        g.wf(),
        g.valid(),
        g.fully_filled(),
    ensures
        forall|i: int|
            0 <= i < encode_model(g).len() ==> satisfies(
                assignment_of(g),
                #[trigger] encode_model(g)[i].1,
            ),
{
    lemma_encoding_satisfied_by_completion(g, g);
}

/// The encoder-side soundness of the translation: whenever the givens of a
/// grid extend to some complete, rule-valid grid, that completion's
/// assignment satisfies every constraint of the partial grid's encoding —
/// the structural families because the completion obeys the rules, and the
/// clue assertions because the completion keeps every given.
pub proof fn lemma_encoding_satisfied_by_completion(g: Grid, g2: Grid)
    requires
        g.wf(),
        g2.wf(),
        extends(g2, g),
        g2.valid(),
        g2.fully_filled(),
    ensures
        forall|i: int|
            0 <= i < encode_model(g).len() ==> satisfies(
                assignment_of(g2),
                #[trigger] encode_model(g)[i].1,
            ),
{
    let s = encode_model(g);
    let n = g.dim();
    let b = g.bdim();
    let a = assignment_of(g2);
    let nn = n * n;
    assert(2 * nn == nn + nn && 3 * nn == nn + nn + nn && 4 * nn == nn + nn + nn + nn);
    assert(n >= 1) by (nonlinear_arith)
        requires
            b >= 1,
            b * b == n,
    ;
    assert(row_family(g).len() == nn && col_family(g).len() == nn && cell_family(g).len() == nn
        && box_family(g).len() == nn);
    assert forall|i: int| 0 <= i < s.len() implies satisfies(a, #[trigger] s[i].1) by {
        if i < nn {
            assert(s[i] == row_family(g)[i]);
            let k = i;
            vstd::arithmetic::div_mod::lemma_multiply_divide_lt(k, n, n);
            vstd::arithmetic::div_mod::lemma_div_pos_is_pos(k, n);
            vstd::arithmetic::div_mod::lemma_mod_division_less_than_divisor(k, n);
            lemma_row_constraint_sat(
                g2,
                k / n + 1,
                k % n + 1,
                Seq::new(n as nat, |j: int| (k / n + 1, j + 1, k % n + 1)),
            );
        } else if i < 2 * nn {
            assert(s[i] == col_family(g)[i - nn]);
            let k = i - nn;
            vstd::arithmetic::div_mod::lemma_multiply_divide_lt(k, n, n);
            vstd::arithmetic::div_mod::lemma_div_pos_is_pos(k, n);
            vstd::arithmetic::div_mod::lemma_mod_division_less_than_divisor(k, n);
            lemma_col_constraint_sat(
                g2,
                k / n + 1,
                k % n + 1,
                Seq::new(n as nat, |j: int| (j + 1, k / n + 1, k % n + 1)),
            );
        } else if i < 3 * nn {
            assert(s[i] == cell_family(g)[i - 2 * nn]);
            let k = i - 2 * nn;
            vstd::arithmetic::div_mod::lemma_multiply_divide_lt(k, n, n);
            vstd::arithmetic::div_mod::lemma_div_pos_is_pos(k, n);
            vstd::arithmetic::div_mod::lemma_mod_division_less_than_divisor(k, n);
            lemma_cell_constraint_sat(
                g2,
                k / n + 1,
                k % n + 1,
                Seq::new(n as nat, |j: int| (k / n + 1, k % n + 1, j + 1)),
            );
        } else if i < 4 * nn {
            assert(s[i] == box_family(g)[i - 3 * nn]);
            let k = i - 3 * nn;
            vstd::arithmetic::div_mod::lemma_multiply_divide_lt(k, n, n);
            vstd::arithmetic::div_mod::lemma_div_pos_is_pos(k, n);
            vstd::arithmetic::div_mod::lemma_mod_division_less_than_divisor(k, n);
            lemma_box_constraint_sat(
                g2,
                k / n,
                k % n + 1,
                Seq::new(
                    n as nat,
                    |j: int| ((k / n / b) * b + 1 + j / b, (k / n % b) * b + 1 + j % b, k % n + 1),
                ),
            );
        } else {
            assert(s[i] == given_family(g)[i - 4 * nn]);
            let t = g.filled_cells_spec()[i - 4 * nn];
            lemma_filled_cells_are_filled(g);
            assert(g2.at(t.0 as int, t.1 as int) == g.at(t.0 as int, t.1 as int));
            assert(a.contains((t.0 as int, t.1 as int, t.2 as int)));
        }
    }
}

/// Every triple the filled-cells view lists is a non-empty cell of the grid
/// holding that value.
pub proof fn lemma_filled_cells_are_filled(g: Grid)
    requires
        g.wf(),
    ensures
        forall|i: int|
            0 <= i < g.filled_cells_spec().len() ==> {
                let t = #[trigger] g.filled_cells_spec()[i];
                &&& g.in_range(t.0 as int, t.1 as int)
                &&& g.at(t.0 as int, t.1 as int) == t.2 as int
                &&& t.2 != 0
            },
{
    lemma_filled_prefix_filled(g, g.dim());
}

/// Triples listed for the first `row` rows are non-empty cells.
proof fn lemma_filled_prefix_filled(g: Grid, row: int)
    requires
        g.wf(),
        row <= g.dim(),
    ensures
        forall|i: int|
            0 <= i < g.filled_prefix(row).len() ==> {
                let t = #[trigger] g.filled_prefix(row)[i];
                &&& g.in_range(t.0 as int, t.1 as int)
                &&& g.at(t.0 as int, t.1 as int) == t.2 as int
                &&& t.2 != 0
            },
    decreases (if row >= 0 { row } else { 0 }),
{
    if row > 0 {
        lemma_filled_prefix_filled(g, row - 1);
        lemma_row_filled_prefix_filled(g, row, g.dim());
        let l1 = g.filled_prefix(row - 1).len() as int;
        assert forall|i: int| 0 <= i < g.filled_prefix(row).len() implies {
            let t = #[trigger] g.filled_prefix(row)[i];
            &&& g.in_range(t.0 as int, t.1 as int)
            &&& g.at(t.0 as int, t.1 as int) == t.2 as int
            &&& t.2 != 0
        } by {
            if i < l1 {
                assert(g.filled_prefix(row)[i] == g.filled_prefix(row - 1)[i]);
            } else {
                assert(g.filled_prefix(row)[i] == g.row_filled_prefix(row, g.dim())[i - l1]);
            }
        }
    }
}

/// Triples listed for one row up to column `col` are non-empty cells.
proof fn lemma_row_filled_prefix_filled(g: Grid, row: int, col: int)
    requires
        g.wf(),
        1 <= row <= g.dim(),
        col <= g.dim(),
    ensures
        forall|i: int|
            0 <= i < g.row_filled_prefix(row, col).len() ==> {
                let t = #[trigger] g.row_filled_prefix(row, col)[i];
                &&& g.in_range(t.0 as int, t.1 as int)
                &&& g.at(t.0 as int, t.1 as int) == t.2 as int
                &&& t.2 != 0
            },
    decreases (if col >= 0 { col } else { 0 }),
{
    if col > 0 {
        lemma_row_filled_prefix_filled(g, row, col - 1);
        let l1 = g.row_filled_prefix(row, col - 1).len() as int;
        assert forall|i: int| 0 <= i < g.row_filled_prefix(row, col).len() implies {
            let t = #[trigger] g.row_filled_prefix(row, col)[i];
            &&& g.in_range(t.0 as int, t.1 as int)
            &&& g.at(t.0 as int, t.1 as int) == t.2 as int
            &&& t.2 != 0
        } by {
            if i < l1 {
                assert(g.row_filled_prefix(row, col)[i] == g.row_filled_prefix(row, col - 1)[i]);
            } else {
                assert(g.at(row, col) != 0);
                assert(g.row_filled_prefix(row, col)[i] == (
                    row as u8,
                    col as u8,
                    g.data@[row - 1]@[col - 1],
                ));
            }
        }
    }
}

/// A non-empty cell's triple appears in the row's filled prefix once the
/// scan has passed its column.
proof fn lemma_row_filled_prefix_lists(g: Grid, row: int, c: int, col: int)
    requires
        g.wf(),
        1 <= row <= g.dim(),
        g.in_range(row, c),
        g.at(row, c) != 0,
        c <= col <= g.dim(),
    ensures
        g.row_filled_prefix(row, col).contains((row as u8, c as u8, g.data@[row - 1]@[c - 1])),
    decreases col,
{
    let t = (row as u8, c as u8, g.data@[row - 1]@[c - 1]);
    if col == c {
        let pre = g.row_filled_prefix(row, col - 1);
        assert(g.row_filled_prefix(row, col) == pre + seq![t]);
        assert(g.row_filled_prefix(row, col)[pre.len() as int] == t);
    } else {
        lemma_row_filled_prefix_lists(g, row, c, col - 1);
        let pre = g.row_filled_prefix(row, col - 1);
        let i = choose|i: int| 0 <= i < pre.len() && pre[i] == t;
        assert(g.row_filled_prefix(row, col)[i] == t);
    }
}

/// A non-empty cell's triple appears in the filled prefix once the scan has
/// passed its row.
proof fn lemma_filled_prefix_lists(g: Grid, r: int, c: int, row: int)
    requires
        g.wf(),
        g.in_range(r, c),
        g.at(r, c) != 0,
        r <= row <= g.dim(),
    ensures
        g.filled_prefix(row).contains((r as u8, c as u8, g.data@[r - 1]@[c - 1])),
    decreases row,
{
    let t = (r as u8, c as u8, g.data@[r - 1]@[c - 1]);
    if row == r {
        lemma_row_filled_prefix_lists(g, r, c, g.dim());
        let pre = g.filled_prefix(row - 1);
        let part = g.row_filled_prefix(r, g.dim());
        let i = choose|i: int| 0 <= i < part.len() && part[i] == t;
        assert(g.filled_prefix(row)[pre.len() + i] == t);
    } else {
        lemma_filled_prefix_lists(g, r, c, row - 1);
        let pre = g.filled_prefix(row - 1);
        let i = choose|i: int| 0 <= i < pre.len() && pre[i] == t;
        assert(g.filled_prefix(row)[i] == t);
    }
}

/// Every non-empty cell of a grid is listed among its filled cells.
pub proof fn lemma_filled_cell_listed(g: Grid, r: int, c: int)
    requires
        g.wf(),
        g.in_range(r, c),
        g.at(r, c) != 0,
    ensures
        g.filled_cells_spec().contains((r as u8, c as u8, g.data@[r - 1]@[c - 1])),
{
    lemma_filled_prefix_lists(g, r, c, g.dim());
}

/// Two given clues with the same value in one row make the encoding
/// unsatisfiable: no assignment satisfies every constraint, because the two
/// clue assertions and the row-uniqueness constraint for that value cannot
/// hold together.
pub proof fn lemma_duplicate_in_row_unsatisfiable(
    g: Grid,
    a: Set<(int, int, int)>,
    row: int,
    c1: int,
    c2: int,
)
    requires
        g.wf(),
        g.in_range(row, c1),
        g.in_range(row, c2),
        c1 != c2,
        g.at(row, c1) != 0,
        g.at(row, c1) == g.at(row, c2),
    ensures
        !(forall|i: int|
            0 <= i < encode_model(g).len() ==> satisfies(a, #[trigger] encode_model(g)[i].1)),
{
    let s = encode_model(g);
    let n = g.dim();
    let nn = n * n;
    let v = g.at(row, c1);
    assert(2 * nn == nn + nn && 3 * nn == nn + nn + nn && 4 * nn == nn + nn + nn + nn);
    assert(row_family(g).len() == nn && col_family(g).len() == nn && cell_family(g).len() == nn
        && box_family(g).len() == nn);
    if forall|i: int| 0 <= i < s.len() ==> satisfies(a, #[trigger] s[i].1) {
        lemma_filled_cell_listed(g, row, c1);
        lemma_filled_cell_listed(g, row, c2);
        let t1 = (row as u8, c1 as u8, g.data@[row - 1]@[c1 - 1]);
        let t2 = (row as u8, c2 as u8, g.data@[row - 1]@[c2 - 1]);
        let filled = g.filled_cells_spec();
        let i1 = choose|i: int| 0 <= i < filled.len() && filled[i] == t1;
        let i2 = choose|i: int| 0 <= i < filled.len() && filled[i] == t2;
        assert(s[4 * nn + i1] == given_family(g)[i1]);
        assert(s[4 * nn + i2] == given_family(g)[i2]);
        assert(satisfies(a, s[4 * nn + i1].1));
        assert(satisfies(a, s[4 * nn + i2].1));
        assert(a.contains((row, c1, v)));
        assert(a.contains((row, c2, v)));
        let k = (row - 1) * n + (v - 1);
        assert(0 <= k < nn) by (nonlinear_arith)
            requires
                1 <= row <= n,
                1 <= v <= n,
                k == (row - 1) * n + (v - 1),
                nn == n * n,
        ;
        vstd::arithmetic::div_mod::lemma_fundamental_div_mod_converse(k, n, row - 1, v - 1);
        assert(s[k] == row_family(g)[k]);
        assert(satisfies(a, s[k].1));
        let ks = s[k].1->ExactlyOne_0;
        assert(ks[c1 - 1] == (row, c1, v) && ks[c2 - 1] == (row, c2, v));
        let i0 = choose|i0: int|
            0 <= i0 < ks.len() && a.contains(#[trigger] ks[i0]) && only_hit(a, ks, i0);
        assert(c1 - 1 == i0 || !a.contains(ks[c1 - 1]));
        assert(c2 - 1 == i0 || !a.contains(ks[c2 - 1]));
        assert(false);
    }
}

/// The converse encoder direction: an assignment that satisfies every
/// constraint of a grid's encoding describes exactly one completed grid.
/// Among the in-range values it assigns exactly one to each cell, never
/// repeats a value within a row, column or box, and keeps every given clue
/// — so each satisfying assignment corresponds to one rule-valid completion
/// of the givens.
pub proof fn lemma_satisfying_assignment_is_completion(g: Grid, a: Set<(int, int, int)>)
    requires
        g.wf(),
        forall|i: int|
            0 <= i < encode_model(g).len() ==> satisfies(a, #[trigger] encode_model(g)[i].1),
    ensures
        forall|r: int, c: int|
            g.in_range(r, c) ==> exists|v: int|
                1 <= v <= g.dim() && #[trigger] a.contains((r, c, v)),
        forall|r: int, c: int, v1: int, v2: int|
            g.in_range(r, c) && 1 <= v1 <= g.dim() && 1 <= v2 <= g.dim() && a.contains(
                (r, c, v1),
            ) && a.contains((r, c, v2)) ==> v1 == v2,
        forall|r: int, c1: int, c2: int, v: int|
            g.in_range(r, c1) && g.in_range(r, c2) && 1 <= v <= g.dim() && a.contains(
                (r, c1, v),
            ) && a.contains((r, c2, v)) ==> c1 == c2,
        forall|c: int, r1: int, r2: int, v: int|
            g.in_range(r1, c) && g.in_range(r2, c) && 1 <= v <= g.dim() && a.contains(
                (r1, c, v),
            ) && a.contains((r2, c, v)) ==> r1 == r2,
        forall|r1: int, c1: int, r2: int, c2: int, v: int|
            g.in_range(r1, c1) && g.in_range(r2, c2) && g.same_box(r1, c1, r2, c2) && 1 <= v
                <= g.dim() && a.contains((r1, c1, v)) && a.contains((r2, c2, v)) ==> r1 == r2
                && c1 == c2,
        forall|r: int, c: int|
            g.in_range(r, c) && #[trigger] g.at(r, c) != 0 ==> a.contains((r, c, g.at(r, c))),
{
    let s = encode_model(g);
    let n = g.dim();
    let b = g.bdim();
    let nn = n * n;
    assert(2 * nn == nn + nn && 3 * nn == nn + nn + nn && 4 * nn == nn + nn + nn + nn);
    assert(row_family(g).len() == nn && col_family(g).len() == nn && cell_family(g).len() == nn
        && box_family(g).len() == nn);
    assert forall|r: int, c: int| g.in_range(r, c) implies exists|v: int|
        1 <= v <= n && #[trigger] a.contains((r, c, v)) by {
        let k = (r - 1) * n + (c - 1);
        assert(0 <= k < nn) by (nonlinear_arith)
            requires
                1 <= r <= n,
                1 <= c <= n,
                k == (r - 1) * n + (c - 1),
                nn == n * n,
        ;
        vstd::arithmetic::div_mod::lemma_fundamental_div_mod_converse(k, n, r - 1, c - 1);
        assert(s[2 * nn + k] == cell_family(g)[k]);
        assert(satisfies(a, s[2 * nn + k].1));
        let ks = s[2 * nn + k].1->ExactlyOne_0;
        let i0 = choose|i0: int|
            0 <= i0 < ks.len() && a.contains(#[trigger] ks[i0]) && only_hit(a, ks, i0);
        assert(ks[i0] == (r, c, i0 + 1));
        assert(a.contains((r, c, i0 + 1)));
    }
    assert forall|r: int, c: int, v1: int, v2: int|
        g.in_range(r, c) && 1 <= v1 <= n && 1 <= v2 <= n && a.contains((r, c, v1)) && a.contains(
            (r, c, v2),
        ) implies v1 == v2 by {
        let k = (r - 1) * n + (c - 1);
        assert(0 <= k < nn) by (nonlinear_arith)
            requires
                1 <= r <= n,
                1 <= c <= n,
                k == (r - 1) * n + (c - 1),
                nn == n * n,
        ;
        vstd::arithmetic::div_mod::lemma_fundamental_div_mod_converse(k, n, r - 1, c - 1);
        assert(s[2 * nn + k] == cell_family(g)[k]);
        assert(satisfies(a, s[2 * nn + k].1));
        let ks = s[2 * nn + k].1->ExactlyOne_0;
        if v1 != v2 {
            assert(ks[v1 - 1] == (r, c, v1) && ks[v2 - 1] == (r, c, v2));
            let i0 = choose|i0: int|
                0 <= i0 < ks.len() && a.contains(#[trigger] ks[i0]) && only_hit(a, ks, i0);
            assert(v1 - 1 == i0 || !a.contains(ks[v1 - 1]));
            assert(v2 - 1 == i0 || !a.contains(ks[v2 - 1]));
            assert(false);
        }
    }
    assert forall|r: int, c1: int, c2: int, v: int|
        g.in_range(r, c1) && g.in_range(r, c2) && 1 <= v <= n && a.contains((r, c1, v))
            && a.contains((r, c2, v)) implies c1 == c2 by {
        let k = (r - 1) * n + (v - 1);
        assert(0 <= k < nn) by (nonlinear_arith)
            requires
                1 <= r <= n,
                1 <= v <= n,
                k == (r - 1) * n + (v - 1),
                nn == n * n,
        ;
        vstd::arithmetic::div_mod::lemma_fundamental_div_mod_converse(k, n, r - 1, v - 1);
        assert(s[k] == row_family(g)[k]);
        assert(satisfies(a, s[k].1));
        let ks = s[k].1->ExactlyOne_0;
        if c1 != c2 {
            assert(ks[c1 - 1] == (r, c1, v) && ks[c2 - 1] == (r, c2, v));
            let i0 = choose|i0: int|
                0 <= i0 < ks.len() && a.contains(#[trigger] ks[i0]) && only_hit(a, ks, i0);
            assert(c1 - 1 == i0 || !a.contains(ks[c1 - 1]));
            assert(c2 - 1 == i0 || !a.contains(ks[c2 - 1]));
            assert(false);
        }
    }
    assert forall|c: int, r1: int, r2: int, v: int|
        g.in_range(r1, c) && g.in_range(r2, c) && 1 <= v <= n && a.contains((r1, c, v))
            && a.contains((r2, c, v)) implies r1 == r2 by {
        let k = (c - 1) * n + (v - 1);
        assert(0 <= k < nn) by (nonlinear_arith)
            requires
                1 <= c <= n,
                1 <= v <= n,
                k == (c - 1) * n + (v - 1),
                nn == n * n,
        ;
        vstd::arithmetic::div_mod::lemma_fundamental_div_mod_converse(k, n, c - 1, v - 1);
        assert(s[nn + k] == col_family(g)[k]);
        assert(satisfies(a, s[nn + k].1));
        let ks = s[nn + k].1->ExactlyOne_0;
        if r1 != r2 {
            assert(ks[r1 - 1] == (r1, c, v) && ks[r2 - 1] == (r2, c, v));
            let i0 = choose|i0: int|
                0 <= i0 < ks.len() && a.contains(#[trigger] ks[i0]) && only_hit(a, ks, i0);
            assert(r1 - 1 == i0 || !a.contains(ks[r1 - 1]));
            assert(r2 - 1 == i0 || !a.contains(ks[r2 - 1]));
            assert(false);
        }
    }
    assert forall|r1: int, c1: int, r2: int, c2: int, v: int|
        g.in_range(r1, c1) && g.in_range(r2, c2) && g.same_box(r1, c1, r2, c2) && 1 <= v <= n
            && a.contains((r1, c1, v)) && a.contains((r2, c2, v)) implies r1 == r2 && c1
        == c2 by {
        lemma_box_membership(g, a, r1, c1, r2, c2, v);
    }
    assert forall|r: int, c: int|
        g.in_range(r, c) && #[trigger] g.at(r, c) != 0 implies a.contains(
            (r, c, g.at(r, c)),
        ) by {
        lemma_filled_cell_listed(g, r, c);
        let t = (r as u8, c as u8, g.data@[r - 1]@[c - 1]);
        let filled = g.filled_cells_spec();
        let i1 = choose|i: int| 0 <= i < filled.len() && filled[i] == t;
        assert(s[4 * nn + i1] == given_family(g)[i1]);
        assert(satisfies(a, s[4 * nn + i1].1));
    }
}

/// Two cells of one box assigned the same value by an assignment that
/// satisfies the box-uniqueness constraints must be the same cell.
proof fn lemma_box_membership(
    g: Grid,
    a: Set<(int, int, int)>,
    r1: int,
    c1: int,
    r2: int,
    c2: int,
    v: int,
)
    requires
        g.wf(),
        forall|i: int|
            0 <= i < encode_model(g).len() ==> satisfies(a, #[trigger] encode_model(g)[i].1),
        g.in_range(r1, c1),
        g.in_range(r2, c2),
        g.same_box(r1, c1, r2, c2),
        1 <= v <= g.dim(),
        a.contains((r1, c1, v)),
        a.contains((r2, c2, v)),
    ensures
        r1 == r2 && c1 == c2,
{
    let s = encode_model(g);
    let n = g.dim();
    let b = g.bdim();
    let nn = n * n;
    assert(2 * nn == nn + nn && 3 * nn == nn + nn + nn && 4 * nn == nn + nn + nn + nn);
    assert(row_family(g).len() == nn && col_family(g).len() == nn && cell_family(g).len() == nn
        && box_family(g).len() == nn);
    let br = (r1 - 1) / b;
    let bc = (c1 - 1) / b;
    vstd::arithmetic::div_mod::lemma_fundamental_div_mod(r1 - 1, b);
    vstd::arithmetic::div_mod::lemma_fundamental_div_mod(c1 - 1, b);
    vstd::arithmetic::div_mod::lemma_fundamental_div_mod(r2 - 1, b);
    vstd::arithmetic::div_mod::lemma_fundamental_div_mod(c2 - 1, b);
    vstd::arithmetic::div_mod::lemma_mod_division_less_than_divisor(r1 - 1, b);
    vstd::arithmetic::div_mod::lemma_mod_division_less_than_divisor(c1 - 1, b);
    vstd::arithmetic::div_mod::lemma_mod_division_less_than_divisor(r2 - 1, b);
    vstd::arithmetic::div_mod::lemma_mod_division_less_than_divisor(c2 - 1, b);
    vstd::arithmetic::div_mod::lemma_multiply_divide_lt(r1 - 1, b, b);
    vstd::arithmetic::div_mod::lemma_multiply_divide_lt(c1 - 1, b, b);
    vstd::arithmetic::div_mod::lemma_div_pos_is_pos(r1 - 1, b);
    vstd::arithmetic::div_mod::lemma_div_pos_is_pos(c1 - 1, b);
    let bn = br * b + bc;
    assert(0 <= bn < n) by (nonlinear_arith)
        requires
            0 <= br && br < b,
            0 <= bc && bc < b,
            nn == n * n,
            b * b == n,
            bn == br * b + bc,
    ;
    vstd::arithmetic::div_mod::lemma_fundamental_div_mod_converse(bn, b, br, bc);
    let k = bn * n + (v - 1);
    assert(0 <= k < nn) by (nonlinear_arith)
        requires
            0 <= bn < n,
            1 <= v <= n,
            k == bn * n + (v - 1),
            nn == n * n,
    ;
    vstd::arithmetic::div_mod::lemma_fundamental_div_mod_converse(k, n, bn, v - 1);
    assert(s[3 * nn + k] == box_family(g)[k]);
    assert(satisfies(a, s[3 * nn + k].1));
    let ks = s[3 * nn + k].1->ExactlyOne_0;
    let j1 = ((r1 - 1) % b) * b + ((c1 - 1) % b);
    let j2 = ((r2 - 1) % b) * b + ((c2 - 1) % b);
    assert(0 <= j1 < n && 0 <= j2 < n) by (nonlinear_arith)
        requires
            0 <= ((r1 - 1) % b) && ((r1 - 1) % b) < b,
            0 <= ((c1 - 1) % b) && ((c1 - 1) % b) < b,
            0 <= ((r2 - 1) % b) && ((r2 - 1) % b) < b,
            0 <= ((c2 - 1) % b) && ((c2 - 1) % b) < b,
            b * b == n,
            j1 == ((r1 - 1) % b) * b + ((c1 - 1) % b),
            j2 == ((r2 - 1) % b) * b + ((c2 - 1) % b),
    ;
    vstd::arithmetic::div_mod::lemma_fundamental_div_mod_converse(j1, b, (r1 - 1) % b, (c1 - 1) % b);
    vstd::arithmetic::div_mod::lemma_fundamental_div_mod_converse(j2, b, (r2 - 1) % b, (c2 - 1) % b);
    assert(b * br == br * b && b * bc == bc * b) by (nonlinear_arith);
    assert(r1 == br * b + (r1 - 1) % b + 1);
    assert(c1 == bc * b + (c1 - 1) % b + 1);
    assert(r2 == br * b + (r2 - 1) % b + 1);
    assert(c2 == bc * b + (c2 - 1) % b + 1);
    assert(ks[j1] == (r1, c1, v));
    assert(ks[j2] == (r2, c2, v));
    let i0 = choose|i0: int|
        0 <= i0 < ks.len() && a.contains(#[trigger] ks[i0]) && only_hit(a, ks, i0);
    assert(j1 == i0 || !a.contains(ks[j1]));
    assert(j2 == i0 || !a.contains(ks[j2]));
}

/// Whether a constraint shape mentions the placement key `k`.
pub open spec fn shape_has_key(c: ConstraintShape, k: (int, int, int)) -> bool {
    match c {
        ConstraintShape::ExactlyOne(ks) => ks.contains(k),
        ConstraintShape::Given(kk) => kk == k,
    }
}

/// Every placement key of a grid's encoding is in range: row, column and
/// value all lie in `[1, dim]`.
pub proof fn lemma_encode_keys_in_range(g: Grid)
    requires
        g.wf(),
    ensures
        forall|i: int, k: (int, int, int)|
            0 <= i < encode_model(g).len() && #[trigger] shape_has_key(encode_model(g)[i].1, k)
                ==> 1 <= k.0 <= g.dim() && 1 <= k.1 <= g.dim() && 1 <= k.2 <= g.dim(),
{
    let s = encode_model(g);
    let n = g.dim();
    let b = g.bdim();
    let nn = n * n;
    assert(2 * nn == nn + nn && 3 * nn == nn + nn + nn && 4 * nn == nn + nn + nn + nn);
    assert(n >= 1) by (nonlinear_arith)
        requires
            b >= 1,
            b * b == n,
    ;
    assert(row_family(g).len() == nn && col_family(g).len() == nn && cell_family(g).len() == nn
        && box_family(g).len() == nn);
    assert forall|i: int, k: (int, int, int)|
        0 <= i < s.len() && #[trigger] shape_has_key(s[i].1, k) implies 1 <= k.0 <= n && 1 <= k.1
        <= n && 1 <= k.2 <= n by {
        if i < 4 * nn {
            let kk = if i < nn {
                i
            } else if i < 2 * nn {
                i - nn
            } else if i < 3 * nn {
                i - 2 * nn
            } else {
                i - 3 * nn
            };
            if i < nn {
                assert(s[i] == row_family(g)[kk]);
            } else if i < 2 * nn {
                assert(s[i] == col_family(g)[kk]);
            } else if i < 3 * nn {
                assert(s[i] == cell_family(g)[kk]);
            } else {
                assert(s[i] == box_family(g)[kk]);
            }
            vstd::arithmetic::div_mod::lemma_multiply_divide_lt(kk, n, n);
            vstd::arithmetic::div_mod::lemma_div_pos_is_pos(kk, n);
            vstd::arithmetic::div_mod::lemma_mod_division_less_than_divisor(kk, n);
            let ks = s[i].1->ExactlyOne_0;
            let j = choose|j: int| 0 <= j < ks.len() && ks[j] == k;
            vstd::arithmetic::div_mod::lemma_multiply_divide_lt(j, b, b);
            vstd::arithmetic::div_mod::lemma_div_pos_is_pos(j, b);
            vstd::arithmetic::div_mod::lemma_mod_division_less_than_divisor(j, b);
            vstd::arithmetic::div_mod::lemma_multiply_divide_lt(kk / n, b, b);
            vstd::arithmetic::div_mod::lemma_div_pos_is_pos(kk / n, b);
            vstd::arithmetic::div_mod::lemma_mod_division_less_than_divisor(kk / n, b);
            assert((kk / n / b) * b + b <= b * b && (kk / n % b) * b + b <= b * b) by (nonlinear_arith)
                requires
                    0 <= (kk / n / b) && (kk / n / b) < b,
                    0 <= (kk / n % b) && (kk / n % b) < b,
                    b >= 1,
            ;
        } else {
            assert(s[i] == given_family(g)[i - 4 * nn]);
            lemma_filled_cells_are_filled(g);
            assert(g.filled_cells_spec()[i - 4 * nn].2 != 0);
        }
    }
}

/// Copies entry `i` of a row-handle vector.
fn row_handle_at(rows: &Vec<crate::grid::Row>, i: usize) -> (r: crate::grid::Row)
    requires
        i < rows@.len(),
    ensures
        r == rows@[i as int],
{
    crate::grid::Row { row: rows[i].row, number_cols: rows[i].number_cols }
}

} // verus!
