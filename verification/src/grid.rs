//! Puzzle geometry and cell state.
//!
//! A grid is square with side `number_rows == number_cols == box_size *
//! box_size`; a cell holds a value in `[0, number_rows]` where `0` means
//! empty. Coordinates are 1-indexed at every public boundary.

use vstd::prelude::*;

verus! {

/// The error kinds the library reports.
#[derive(Clone, Copy, Debug, PartialEq, Eq, Structural)]
pub enum SudokuError {
    /// Invalid geometry at grid construction.
    ConfigurationError,
    /// Malformed row input.
    ParseError,
    /// Out-of-bounds coordinate or value.
    RangeError,
    /// An assignment variable name does not parse back into a triple.
    DecodingError,
}

/// A square puzzle grid with `box_size * box_size` rows and columns.
#[derive(Debug)]
pub struct Grid {
    pub number_rows: u8,
    pub number_cols: u8,
    pub box_size: u8,
    pub data: Vec<Vec<u8>>,
}

impl Grid {
    /// Side length of the grid.
    pub open spec fn dim(&self) -> int {
        self.number_rows as int
    }

    /// Side length of one sub-box.
    pub open spec fn bdim(&self) -> int {
        self.box_size as int
    }

    /// Value of the cell at 1-indexed coordinates.
    pub open spec fn at(&self, row: int, col: int) -> int {
        self.data@[row - 1]@[col - 1] as int
    }

    /// Whether 1-indexed coordinates name a cell of the grid.
    pub open spec fn in_range(&self, row: int, col: int) -> bool {
        1 <= row <= self.dim() && 1 <= col <= self.dim()
    }

    /// Geometry and cell-state invariant.
    pub open spec fn wf(&self) -> bool {
        &&& self.number_rows == self.number_cols
        &&& self.box_size >= 1
        &&& self.bdim() * self.bdim() == self.dim()
        &&& self.data@.len() == self.dim()
        &&& forall|r: int| 0 <= r < self.dim() ==> (#[trigger] self.data@[r])@.len() == self.dim()
        &&& forall|r: int, c: int|
            self.in_range(r, c) ==> 0 <= #[trigger] self.at(r, c) <= self.dim()
    }

    /// Each value occurs at most once per row.
    pub open spec fn rows_valid(&self) -> bool {
        forall|r: int, c1: int, c2: int|
            self.in_range(r, c1) && self.in_range(r, c2) && c1 != c2 && #[trigger] self.at(r, c1)
                != 0 ==> self.at(r, c1) != #[trigger] self.at(r, c2)
    }

    /// Each value occurs at most once per column.
    pub open spec fn cols_valid(&self) -> bool {
        forall|c: int, r1: int, r2: int|
            self.in_range(r1, c) && self.in_range(r2, c) && r1 != r2 && #[trigger] self.at(r1, c)
                != 0 ==> self.at(r1, c) != #[trigger] self.at(r2, c)
    }

    /// Whether two cells lie in the same sub-box.
    pub open spec fn same_box(&self, r1: int, c1: int, r2: int, c2: int) -> bool {
        (r1 - 1) / self.bdim() == (r2 - 1) / self.bdim() && (c1 - 1) / self.bdim() == (c2 - 1)
            / self.bdim()
    }

    /// Each value occurs at most once per box.
    pub open spec fn boxes_valid(&self) -> bool {
        forall|r1: int, c1: int, r2: int, c2: int|
            self.in_range(r1, c1) && self.in_range(r2, c2) && self.same_box(r1, c1, r2, c2) && !(
            r1 == r2 && c1 == c2) && #[trigger] self.at(r1, c1) != 0 ==> self.at(r1, c1)
                != #[trigger] self.at(r2, c2)
    }

    /// The grid obeys the puzzle's rules: no value repeated in any row,
    /// column or box.
    pub open spec fn valid(&self) -> bool {
        self.rows_valid() && self.cols_valid() && self.boxes_valid()
    }

    /// Every cell is non-empty.
    pub open spec fn fully_filled(&self) -> bool {
        forall|r: int, c: int| self.in_range(r, c) ==> #[trigger] self.at(r, c) != 0
    }

    /// Builds an empty grid after validating the geometry: the side lengths
    /// must be equal and the square of the box size.
    pub fn create(number_rows: u8, number_cols: u8, box_size: u8) -> (r: Result<Grid, SudokuError>)
        ensures
            match r {
                Ok(g) => {
                    &&& g.wf()
                    &&& g.number_rows == number_rows
                    &&& g.number_cols == number_cols
                    &&& g.box_size == box_size
                    &&& forall|rr: int, cc: int| g.in_range(rr, cc) ==> #[trigger] g.at(rr, cc) == 0
                    &&& number_rows == number_cols
                    &&& box_size >= 1
                    &&& (box_size as int) * (box_size as int) == number_rows as int
                },
                Err(e) => {
                    &&& e == SudokuError::ConfigurationError
                    &&& !(number_rows == number_cols && box_size >= 1 && (box_size as int) * (
                    box_size as int) == number_rows as int)
                },
            },
    {
        proof {
            assert((box_size as int) * (box_size as int) <= 255 * 255) by (nonlinear_arith)
                requires
                    0 <= box_size as int <= 255,
            ;
        }
        let sq: u16 = (box_size as u16) * (box_size as u16);
        if box_size < 1 || number_rows != number_cols || sq != number_rows as u16 {
            return Err(SudokuError::ConfigurationError);
        }
        let n = number_rows as usize;
        let mut data: Vec<Vec<u8>> = Vec::new();
        let mut r: usize = 0;
        while r < n
            invariant
                data@.len() == r,
                r <= n,
                forall|i: int| 0 <= i < r ==> (#[trigger] data@[i])@.len() == n,
                forall|i: int, j: int|
                    0 <= i < r && 0 <= j < n ==> #[trigger] data@[i]@[j] == 0u8,
            decreases n - r,
        {
            let mut row: Vec<u8> = Vec::new();
            let mut c: usize = 0;
            while c < n
                invariant
                    row@.len() == c,
                    c <= n,
                    forall|j: int| 0 <= j < c ==> row@[j] == 0u8,
                decreases n - c,
            {
                row.push(0u8);
                c += 1;
            }
            data.push(row);
            r += 1;
        }
        Ok(Grid { number_rows, number_cols, box_size, data })
    }

    /// The standard empty 9x9 grid with 3x3 boxes.
    pub fn empty_9x9_grid() -> (g: Grid)
        ensures
            g.wf(),
            g.dim() == 9,
            g.bdim() == 3,
            forall|rr: int, cc: int| g.in_range(rr, cc) ==> #[trigger] g.at(rr, cc) == 0,
    {
        let r = Grid::create(9, 9, 3);
        match r {
            Ok(g) => g,
            Err(_) => {
                proof {
                    assert(false);
                }
                Grid { number_rows: 0, number_cols: 0, box_size: 0, data: Vec::new() }
            },
        }
    }

    /// Overwrites one cell; rejects out-of-range coordinates or values.
    pub fn set_value(&mut self, row: u8, col: u8, value: u8) -> (r: Result<(), SudokuError>)
        requires
            old(self).wf(),
        ensures
            final(self).wf(),
            final(self).number_rows == old(self).number_rows,
            final(self).number_cols == old(self).number_cols,
            final(self).box_size == old(self).box_size,
            match r {
                Ok(()) => {
                    &&& old(self).in_range(row as int, col as int)
                    &&& value as int <= old(self).dim()
                    &&& final(self).at(row as int, col as int) == value as int
                    &&& forall|rr: int, cc: int|
                        old(self).in_range(rr, cc) && !(rr == row as int && cc == col as int)
                            ==> #[trigger] final(self).at(rr, cc) == old(self).at(rr, cc)
                },
                Err(e) => {
                    &&& e == SudokuError::RangeError
                    &&& !(old(self).in_range(row as int, col as int) && value as int <= old(
                    self).dim())
                    &&& *final(self) == *old(self)
                },
            },
    {
        if row < 1 || row > self.number_rows || col < 1 || col > self.number_cols || value
            > self.number_rows {
            return Err(SudokuError::RangeError);
        }
        let ri = row as usize - 1;
        let ci = col as usize - 1;
        self.data[ri][ci] = value;
        proof {
            assert forall|r: int| 0 <= r < self.dim() implies (#[trigger] self.data@[r])@.len()
                == self.dim() by {
                if r != ri as int {
                    assert(self.data@[r] == old(self).data@[r]);
                }
            }
            assert forall|rr: int, cc: int|
                old(self).in_range(rr, cc) && !(rr == row as int && cc == col as int)
                implies #[trigger] self.at(rr, cc) == old(self).at(rr, cc) by {
                if rr == row as int {
                    assert(self.data@[rr - 1]@[cc - 1] == old(self).data@[rr - 1]@[cc - 1]);
                } else {
                    assert(self.data@[rr - 1] == old(self).data@[rr - 1]);
                }
            }
            assert forall|rr: int, cc: int| self.in_range(rr, cc) implies 0 <= #[trigger] self.at(
                rr, cc) <= self.dim() by {
                if !(rr == row as int && cc == col as int) {
                    assert(self.at(rr, cc) == old(self).at(rr, cc));
                }
            }
        }
        Ok(())
    }

    /// Loads one row from a clue line of space-separated tokens, one per
    /// column: `-` leaves the cell as it is, a decimal integer in
    /// `[1, dim]` sets it. The grid changes only when the whole line is
    /// well formed.
    pub fn set_row(&mut self, row: u8, tokens: &str) -> (r: Result<(), SudokuError>)
        requires
            old(self).wf(),
        ensures
            final(self).wf(),
            final(self).number_rows == old(self).number_rows,
            final(self).number_cols == old(self).number_cols,
            final(self).box_size == old(self).box_size,
            match r {
                Ok(()) => {
                    &&& 1 <= row as int <= old(self).dim()
                    &&& row_tokens_ok(*old(self), tokens@)
                    &&& forall|c: int|
                        1 <= c <= old(self).dim() ==> (#[trigger] final(self).at(row as int, c))
                            == (match token_value(
                            old(self).dim(),
                            tokens_from(tokens@, 0)[c - 1],
                        ) {
                            Option::Some(Option::Some(v)) => v as int,
                            _ => old(self).at(row as int, c),
                        })
                    &&& forall|rr: int, cc: int|
                        old(self).in_range(rr, cc) && rr != row as int
                            ==> #[trigger] final(self).at(rr, cc) == old(self).at(rr, cc)
                },
                Err(e) => {
                    &&& *final(self) == *old(self)
                    &&& (e == SudokuError::RangeError || e == SudokuError::ParseError)
                    &&& (e == SudokuError::RangeError <==> !(1 <= row as int <= old(self).dim()))
                    &&& (e == SudokuError::ParseError <==> (1 <= row as int <= old(self).dim())
                        && !row_tokens_ok(*old(self), tokens@))
                },
            },
    {
        if row < 1 || row > self.number_rows {
            return Err(SudokuError::RangeError);
        }
        let n = self.number_rows as usize;
        let len = tokens.unicode_len();
        let mut cells: Vec<Option<u8>> = Vec::new();
        let ghost mut done: Seq<Seq<char>> = Seq::empty();
        let mut p: usize = 0;
        let mut finished = false;
        while !finished
            invariant
                *self == *old(self),
                old(self).wf(),
                1 <= row as int <= old(self).dim(),
                n == old(self).dim(),
                len == tokens@.len(),
                p <= len,
                cells@.len() == done.len(),
                !finished ==> tokens_from(tokens@, 0) == done + tokens_from(
                    tokens@, p as int),
                finished ==> tokens_from(tokens@, 0) == done,
                forall|i: int|
                    0 <= i < done.len() ==> token_value(n as int, #[trigger] done[i])
                        == Option::Some(cells@[i]),
            decreases len - p + (if finished { 0int } else { 1int }),
        {
            let e = scan_token_end(tokens, p);
            let ghost tok = tokens@.subrange(p as int, e as int);
            proof {
                assert(tokens_from(tokens@, p as int) == seq![tok] + tokens_from(
                    tokens@, e + 1)) by {
                    if e as int >= tokens@.len() {
                        assert(tokens_from(tokens@, e + 1) =~= Seq::<Seq<char>>::empty());
                        assert(seq![tok] + tokens_from(tokens@, e + 1) =~= seq![tok]);
                    }
                }
                assert(tokens_from(tokens@, 0)[done.len() as int] == tok) by {
                    assert((seq![tok] + tokens_from(tokens@, e + 1))[0] == tok);
                }
            }
            match parse_token(tokens, p, e, self.number_rows) {
                Some(ov) => {
                    cells.push(ov);
                    proof {
                        done = done.push(tok);
                        assert(tokens_from(tokens@, 0) =~= done + tokens_from(tokens@, e + 1));
                    }
                },
                None => {
                    proof {
                        assert(token_value(n as int, tokens_from(tokens@, 0)[done.len() as int])
                            is None);
                        assert(!row_tokens_ok(*old(self), tokens@));
                    }
                    return Err(SudokuError::ParseError);
                },
            }
            if e == len {
                proof {
                    assert(tokens_from(tokens@, e + 1) =~= Seq::<Seq<char>>::empty());
                    assert(tokens_from(tokens@, 0) =~= done);
                }
                finished = true;
            } else {
                p = e + 1;
            }
        }
        if cells.len() != n {
            return Err(SudokuError::ParseError);
        }
        let ghost g0 = *self;
        let mut c: usize = 0;
        while c < n
            invariant
                g0 == *old(self),
                self.wf(),
                g0.wf(),
                self.number_rows == g0.number_rows,
                self.number_cols == g0.number_cols,
                self.box_size == g0.box_size,
                1 <= row as int <= g0.dim(),
                n == g0.dim(),
                c <= n,
                cells@.len() == n,
                cells@.len() == done.len(),
                tokens_from(tokens@, 0) == done,
                forall|i: int|
                    0 <= i < done.len() ==> token_value(n as int, #[trigger] done[i])
                        == Option::Some(cells@[i]),
                forall|cc: int|
                    1 <= cc <= c ==> (#[trigger] self.at(row as int, cc)) == (match cells@[cc
                        - 1] {
                        Option::Some(v) => v as int,
                        Option::None => g0.at(row as int, cc),
                    }),
                forall|cc: int| c < cc <= n ==> #[trigger] self.at(row as int, cc) == g0.at(
                    row as int, cc),
                forall|rr: int, cc: int|
                    g0.in_range(rr, cc) && rr != row as int ==> #[trigger] self.at(rr, cc)
                        == g0.at(rr, cc),
            decreases n - c,
        {
            match cells[c] {
                Some(v) => {
                    proof {
                        assert(token_value(n as int, done[c as int]) == Option::Some(
                            Option::Some(v)));
                        assert(1 <= v as int <= n);
                    }
                    match self.set_value(row, (c + 1) as u8, v) {
                        Ok(()) => {},
                        Err(_) => {
                            proof {
                                assert(false);
                            }
                            return Err(SudokuError::RangeError);
                        },
                    }
                },
                None => {},
            }
            c += 1;
        }
        Ok(())
    }

    /// The cells of row `row` up to column `col`, as `(row, col, value)`
    /// triples of the non-empty cells, in column order.
    pub open spec fn row_filled_prefix(&self, row: int, col: int) -> Seq<(u8, u8, u8)>
        decreases col,
    {
        if col <= 0 {
            Seq::empty()
        } else {
            self.row_filled_prefix(row, col - 1) + if self.at(row, col) != 0 {
                seq![(row as u8, col as u8, self.data@[row - 1]@[col - 1])]
            } else {
                Seq::empty()
            }
        }
    }

    /// The `(row, col, value)` triples of the non-empty cells of the first
    /// `row` rows, in row-major order.
    pub open spec fn filled_prefix(&self, row: int) -> Seq<(u8, u8, u8)>
        decreases row,
    {
        if row <= 0 {
            Seq::empty()
        } else {
            self.filled_prefix(row - 1) + self.row_filled_prefix(row, self.dim())
        }
    }

    /// The `(row, col, value)` triples of all non-empty cells, row-major.
    pub open spec fn filled_cells_spec(&self) -> Seq<(u8, u8, u8)> {
        self.filled_prefix(self.dim())
    }

    /// Collects the `(row, col, value)` triples of all non-empty cells in
    /// row-major order.
    pub fn get_filled_cells(&self) -> (r: Vec<(u8, u8, u8)>)
        requires
            self.wf(),
        ensures
            r@ == self.filled_cells_spec(),
    {
        let n = self.number_rows as usize;
        let mut filled: Vec<(u8, u8, u8)> = Vec::new();
        let mut ri: usize = 0;
        while ri < n
            invariant
                self.wf(),
                n == self.dim(),
                ri <= n,
                filled@ == self.filled_prefix(ri as int),
            decreases n - ri,
        {
            let mut ci: usize = 0;
            while ci < n
                invariant
                    self.wf(),
                    n == self.dim(),
                    ri < n,
                    ci <= n,
                    filled@ == self.filled_prefix(ri as int) + self.row_filled_prefix(
                        ri + 1, ci as int),
                decreases n - ci,
            {
                let value = self.data[ri][ci];
                if value != 0 {
                    filled.push(((ri + 1) as u8, (ci + 1) as u8, value));
                }
                ci += 1;
            }
            ri += 1;
        }
        proof {
            assert(filled@ == self.filled_prefix(n as int));
        }
        filled
    }

    /// One handle per row, in row order.
    pub fn rows(&self) -> (r: Vec<Row>)
        requires
            self.wf(),
        ensures
            r@.len() == self.dim(),
            forall|i: int|
                0 <= i < self.dim() ==> #[trigger] r@[i] == (Row {
                    row: (i + 1) as u8,
                    number_cols: self.number_cols,
                }),
    {
        let n = self.number_rows as usize;
        let mut res: Vec<Row> = Vec::new();
        let mut i: usize = 0;
        while i < n
            invariant
                n == self.dim(),
                i <= n,
                res@.len() == i,
                forall|k: int|
                    0 <= k < i ==> #[trigger] res@[k] == (Row {
                        row: (k + 1) as u8,
                        number_cols: self.number_cols,
                    }),
            decreases n - i,
        {
            res.push(Row { row: (i + 1) as u8, number_cols: self.number_cols });
            i += 1;
        }
        res
    }

    /// One handle per column, in column order.
    pub fn cols(&self) -> (r: Vec<Column>)
        requires
            self.wf(),
        ensures
            r@.len() == self.dim(),
            forall|i: int|
                0 <= i < self.dim() ==> #[trigger] r@[i] == (Column {
                    col: (i + 1) as u8,
                    number_rows: self.number_rows,
                }),
    {
        let n = self.number_cols as usize;
        let mut res: Vec<Column> = Vec::new();
        let mut i: usize = 0;
        while i < n
            invariant
                n == self.dim(),
                i <= n,
                res@.len() == i,
                forall|k: int|
                    0 <= k < i ==> #[trigger] res@[k] == (Column {
                        col: (k + 1) as u8,
                        number_rows: self.number_rows,
                    }),
            decreases n - i,
        {
            res.push(Column { col: (i + 1) as u8, number_rows: self.number_rows });
            i += 1;
        }
        res
    }

    /// One handle per box, tiling the grid in row-major order of anchors.
    /// Box `i` is anchored at row `(i / box_size) * box_size + 1`, column
    /// `(i % box_size) * box_size + 1`.
    pub fn boxes(&self) -> (r: Vec<GridBox>)
        requires
            self.wf(),
        ensures
            r@.len() == self.dim(),
            forall|i: int|
                0 <= i < self.dim() ==> #[trigger] r@[i] == (GridBox {
                    row: ((i / self.bdim()) * self.bdim() + 1) as u8,
                    col: ((i % self.bdim()) * self.bdim() + 1) as u8,
                    box_size: self.box_size,
                }),
    {
        let b = self.box_size as usize;
        let mut res: Vec<GridBox> = Vec::new();
        let mut br: usize = 0;
        while br < b
            invariant
                self.wf(),
                b == self.bdim(),
                br <= b,
                res@.len() == br * b,
                forall|i: int|
                    0 <= i < res@.len() ==> #[trigger] res@[i] == (GridBox {
                        row: ((i / self.bdim()) * self.bdim() + 1) as u8,
                        col: ((i % self.bdim()) * self.bdim() + 1) as u8,
                        box_size: self.box_size,
                    }),
            decreases b - br,
        {
            let mut bc: usize = 0;
            while bc < b
                invariant
                    self.wf(),
                    b == self.bdim(),
                    br < b,
                    bc <= b,
                    res@.len() == br * b + bc,
                    forall|i: int|
                        0 <= i < res@.len() ==> #[trigger] res@[i] == (GridBox {
                            row: ((i / self.bdim()) * self.bdim() + 1) as u8,
                            col: ((i % self.bdim()) * self.bdim() + 1) as u8,
                            box_size: self.box_size,
                        }),
                decreases b - bc,
            {
                proof {
                    let bi = self.bdim();
                    assert(bi * bi == self.dim());
                    assert((br as int) * bi + 1 <= bi * bi && (bc as int) * bi + 1 <= bi * bi
                        && (br as int) * bi + (bc as int) < bi * bi) by (nonlinear_arith)
                        requires
                            0 <= (br as int) && (br as int) < bi,
                            0 <= (bc as int) && (bc as int) < bi,
                    ;
                    let k = (br as int) * bi + (bc as int);
                    assert(k / bi == br as int && k % bi == bc as int) by {
                        vstd::arithmetic::div_mod::lemma_fundamental_div_mod_converse(
                            k, bi, br as int, bc as int);
                    }
                }
                res.push(
                    GridBox {
                        row: (br * b + 1) as u8,
                        col: (bc * b + 1) as u8,
                        box_size: self.box_size,
                    },
                );
                bc += 1;
            }
            proof {
                assert((br as int + 1) * (b as int) == (br as int) * (b as int) + (
                b as int)) by (nonlinear_arith);
            }
            br += 1;
        }
        res
    }

    /// The legal non-empty cell values `1 ..= dim`, ascending.
    pub fn possible_values(&self) -> (r: Vec<u8>)
        requires
            self.wf(),
        ensures
            r@.len() == self.dim(),
            forall|i: int| 0 <= i < self.dim() ==> #[trigger] r@[i] == (i + 1) as u8,
    {
        let n = self.number_rows as usize;
        let mut res: Vec<u8> = Vec::new();
        let mut i: usize = 0;
        while i < n
            invariant
                n == self.dim(),
                i <= n,
                res@.len() == i,
                forall|k: int| 0 <= k < i ==> #[trigger] res@[k] == (k + 1) as u8,
            decreases n - i,
        {
            res.push((i + 1) as u8);
            i += 1;
        }
        res
    }
}

/// Index of the first space of `s` at or after `i` (or `s.len()` if none).
pub open spec fn token_end(s: Seq<char>, i: int) -> int
    decreases s.len() - i,
{
    if i < 0 || i >= s.len() || s[i] == ' ' {
        i
    } else {
        token_end(s, i + 1)
    }
}

/// The scan stays within `s`.
pub proof fn lemma_token_end_bounds(s: Seq<char>, i: int)
    requires
        0 <= i <= s.len(),
    ensures
        i <= token_end(s, i) <= s.len(),
    decreases s.len() - i,
{
    if i < s.len() && s[i] != ' ' {
        lemma_token_end_bounds(s, i + 1);
    }
}

/// The space-separated tokens of `s` from position `p` on: consecutive
/// spaces and a trailing space yield empty tokens, as the original
/// splitting does.
pub open spec fn tokens_from(s: Seq<char>, p: int) -> Seq<Seq<char>>
    decreases s.len() - p,
    via tokens_from_decreases
{
    if p < 0 || p > s.len() {
        Seq::empty()
    } else {
        let e = token_end(s, p);
        if e >= s.len() {
            seq![s.subrange(p, e)]
        } else {
            seq![s.subrange(p, e)] + tokens_from(s, e + 1)
        }
    }
}

#[via_fn]
proof fn tokens_from_decreases(s: Seq<char>, p: int) {
    if !(p < 0 || p > s.len()) {
        lemma_token_end_bounds(s, p);
    }
}

/// What one token denotes on a grid of side `dim`: the placeholder leaves a
/// cell empty, a decimal integer in `[1, dim]` is a value, anything else is
/// a parse failure.
pub open spec fn token_value(dim: int, t: Seq<char>) -> Option<Option<u8>> {
    if t == seq!['-'] {
        Option::Some(Option::None)
    } else if t.len() >= 1 && crate::codec::digit_run_end(t, 0) == t.len() && 1
        <= crate::codec::num_val(t) <= dim {
        Option::Some(Option::Some(crate::codec::num_val(t) as u8))
    } else {
        Option::None
    }
}

/// A well-formed clue line for a grid: exactly `dim` tokens, each the
/// placeholder or an in-range value.
pub open spec fn row_tokens_ok(g: Grid, s: Seq<char>) -> bool {
    &&& tokens_from(s, 0).len() == g.dim()
    &&& forall|i: int|
        0 <= i < tokens_from(s, 0).len() ==> (token_value(g.dim(), #[trigger] tokens_from(s, 0)[i])
            is Some)
}

/// Finds the end of the token starting at `p`.
fn scan_token_end(s: &str, p: usize) -> (e: usize)
    requires
        p <= s@.len(),
    ensures
        e as int == token_end(s@, p as int),
        p <= e <= s@.len(),
{
    let len = s.unicode_len();
    let mut j = p;
    while j < len && s.get_char(j) != ' '
        invariant
            p <= j <= len,
            len == s@.len(),
            token_end(s@, p as int) == token_end(s@, j as int),
        decreases len - j,
    {
        proof {
            assert(token_end(s@, j as int) == token_end(s@, j + 1));
        }
        j += 1;
    }
    proof {
        assert(token_end(s@, j as int) == j);
    }
    j
}

/// Parses the token `s[p..e]`: placeholder, in-range value, or failure.
fn parse_token(s: &str, p: usize, e: usize, dim: u8) -> (r: Option<Option<u8>>)
    requires
        p <= e <= s@.len(),
    ensures
        r == token_value(dim as int, s@.subrange(p as int, e as int)),
{
    let ghost t = s@.subrange(p as int, e as int);
    if e - p == 1 && s.get_char(p) == '-' {
        proof {
            assert(t =~= seq!['-']);
        }
        return Some(None);
    }
    if e == p {
        proof {
            assert(t.len() == 0);
            assert(t != seq!['-']);
        }
        return None;
    }
    proof {
        assert(t != seq!['-']) by {
            if t == seq!['-'] {
                assert(t.len() == 1 && t[0] == '-');
                assert(s@[p as int] == '-');
            }
        }
    }
    let mut acc: u16 = 0;
    let mut k = p;
    while k < e
        invariant
            p <= k <= e <= s@.len(),
            t == s@.subrange(p as int, e as int),
            t != seq!['-'],
            forall|kk: int| p <= kk < k ==> crate::codec::is_digit(#[trigger] s@[kk]),
            (acc <= 255 && acc as int == crate::codec::num_val(
                t.subrange(0, k - p),
            )) || (acc == 300 && crate::codec::num_val(t.subrange(0, k - p)) > 255),
        decreases e - k,
    {
        let d = match crate::codec::digit_of(s.get_char(k)) {
            Some(d) => d,
            None => {
                proof {
                    assert(t[k - p] == s@[k as int]);
                    crate::codec::lemma_run_end_segment(t, 0, k - p);
                    assert(t != seq!['-']);
                }
                return None;
            },
        };
        proof {
            assert(t.subrange(0, k - p + 1).drop_last() =~= t.subrange(0, k - p));
            assert(t.subrange(0, k - p + 1).last() == s@[k as int]);
        }
        if acc <= 255 {
            let cand: u16 = acc * 10 + d as u16;
            if cand > 255 {
                acc = 300;
            } else {
                acc = cand;
            }
        }
        k += 1;
    }
    proof {
        assert(t.subrange(0, e - p) =~= t);
        assert forall|kk: int| 0 <= kk < t.len() implies crate::codec::is_digit(
            #[trigger] t[kk]) by {
            assert(t[kk] == s@[p + kk]);
        }
        crate::codec::lemma_run_end_segment(t, 0, t.len() as int);
    }
    if acc == 0 || acc > dim as u16 {
        return None;
    }
    Some(Some(acc as u8))
}

/// The glyphs one cell renders to: `-` for an empty cell, the value's
/// decimal digits otherwise.
pub open spec fn cell_token(v: int) -> Seq<char> {
    if v == 0 {
        seq!['-']
    } else {
        crate::codec::dec_digits(v)
    }
}

impl Grid {
    /// The rendered cell glyphs of row `row` up to column `col`, each cell
    /// followed by a space, with a column separator before each box.
    pub open spec fn render_cells_part(&self, row: int, col: int) -> Seq<char>
        decreases col,
    {
        if col <= 0 {
            Seq::empty()
        } else {
            self.render_cells_part(row, col - 1) + (if col != 1 && (col - 1) % self.bdim() == 0 {
                "│ "@
            } else {
                Seq::empty()
            }) + cell_token(self.at(row, col)) + seq![' ']
        }
    }

    /// The rendered data lines of the first `row` rows, with a separator
    /// line before each box row.
    pub open spec fn render_rows_part(&self, row: int) -> Seq<char>
        decreases row,
    {
        if row <= 0 {
            Seq::empty()
        } else {
            self.render_rows_part(row - 1) + (if row != 1 && (row - 1) % self.bdim() == 0 {
                "┠───────┼───────┼───────┨\n"@
            } else {
                Seq::empty()
            }) + "┃ "@ + self.render_cells_part(row, self.dim()) + "┃\n"@
        }
    }

    /// The full fixed-width rendering: top border, data rows with box
    /// separators, bottom border.
    pub open spec fn render_spec(&self) -> Seq<char> {
        "┏━━━━━━━┯━━━━━━━┯━━━━━━━┓\n"@ + self.render_rows_part(self.dim())
            + "┗━━━━━━━┷━━━━━━━┷━━━━━━━┛\n"@
    }

    /// Renders the grid to its fixed-width textual form: a pure function of
    /// the current state.
    pub fn render(&self) -> (r: String)
        requires
            self.wf(),
        ensures
            r@ == self.render_spec(),
    {
        let n = self.number_rows as usize;
        let b = self.box_size as usize;
        let mut out = String::new();
        out.append("┏━━━━━━━┯━━━━━━━┯━━━━━━━┓\n");
        let mut ri: usize = 0;
        while ri < n
            invariant
                self.wf(),
                n == self.dim(),
                b == self.bdim(),
                ri <= n,
                out@ == "┏━━━━━━━┯━━━━━━━┯━━━━━━━┓\n"@ + self.render_rows_part(ri as int),
            decreases n - ri,
        {
            if ri != 0 && ri % b == 0 {
                out.append("┠───────┼───────┼───────┨\n");
            }
            out.append("┃ ");
            let ghost line_start = out@;
            let mut ci: usize = 0;
            while ci < n
                invariant
                    self.wf(),
                    n == self.dim(),
                    b == self.bdim(),
                    ri < n,
                    ci <= n,
                    out@ == line_start + self.render_cells_part(ri + 1, ci as int),
                decreases n - ci,
            {
                if ci != 0 && ci % b == 0 {
                    out.append("│ ");
                }
                let value = self.data[ri][ci];
                if value == 0 {
                    out.append("-");
                } else {
                    crate::codec::push_decimal(&mut out, value);
                }
                out.append(" ");
                proof {
                    reveal_strlit("-");
                    reveal_strlit(" ");
                    assert(out@ =~= line_start + self.render_cells_part(ri + 1, ci + 1));
                }
                ci += 1;
            }
            out.append("┃\n");
            proof {
                assert(out@ =~= "┏━━━━━━━┯━━━━━━━┯━━━━━━━┓\n"@ + self.render_rows_part(
                    ri + 1));
            }
            ri += 1;
        }
        out.append("┗━━━━━━━┷━━━━━━━┷━━━━━━━┛\n");
        proof {
            assert(out@ =~= self.render_spec());
        }
        out
    }
}

/// A token run bounded by a space (or the end) ends exactly there.
pub proof fn lemma_token_end_segment(s: Seq<char>, i: int, j: int)
    requires
        0 <= i <= j <= s.len(),
        forall|k: int| i <= k < j ==> #[trigger] s[k] != ' ',
        j == s.len() || s[j] == ' ',
    ensures
        token_end(s, i) == j,
    decreases j - i,
{
    if i < j {
        lemma_token_end_segment(s, i + 1, j);
    }
}

/// A rendered cell glyph is a well-formed token: never empty, free of
/// spaces, and parsing it back gives the placeholder for an empty cell and
/// the cell's own value otherwise.
pub proof fn lemma_cell_token_value(dim: int, v: int)
    requires
        0 <= v <= dim <= 255,
    ensures
        cell_token(v).len() >= 1,
        forall|k: int| 0 <= k < cell_token(v).len() ==> #[trigger] cell_token(v)[k] != ' ',
        token_value(dim, cell_token(v)) == Option::Some(
            if v == 0 {
                Option::<u8>::None
            } else {
                Option::<u8>::Some(v as u8)
            },
        ),
{
    let t = cell_token(v);
    if v == 0 {
        assert(t == seq!['-']);
        assert(t[0] != ' ');
    } else {
        crate::codec::lemma_dec_digits_shape(v);
        crate::codec::lemma_num_val_dec_digits(v);
        assert forall|k: int| 0 <= k < t.len() implies #[trigger] t[k] != ' ' by {
            assert(crate::codec::is_digit(t[k]));
        }
        assert(t != seq!['-']) by {
            if t == seq!['-'] {
                assert(crate::codec::is_digit(t[0]));
            }
        }
        assert forall|k: int| 0 <= k < t.len() implies crate::codec::is_digit(
            #[trigger] t[k]) by {}
        crate::codec::lemma_run_end_segment(t, 0, t.len() as int);
    }
}

impl Grid {
    /// The clue form of row `row` from column `col` on: the rendered cell
    /// glyphs joined by single spaces.
    pub open spec fn row_clue_suffix(&self, row: int, col: int) -> Seq<char>
        decreases self.dim() - col,
    {
        if col < 1 || col > self.dim() {
            Seq::empty()
        } else if col == self.dim() {
            cell_token(self.at(row, col))
        } else {
            cell_token(self.at(row, col)) + seq![' '] + self.row_clue_suffix(row, col + 1)
        }
    }

    /// The clue form of a whole row: what its rendering shows for each cell,
    /// as a loadable line of tokens.
    pub open spec fn row_clue_spec(&self, row: int) -> Seq<char> {
        self.row_clue_suffix(row, 1)
    }
}

/// The clue suffix from column `col` splits into exactly the rendered cell
/// glyphs of columns `col ..= dim`.
proof fn lemma_clue_tokens(g: Grid, row: int, col: int, s: Seq<char>, p: int)
    requires
        g.wf(),
        1 <= row <= g.dim(),
        1 <= col <= g.dim(),
        0 <= p <= s.len(),
        s.subrange(p, s.len() as int) == g.row_clue_suffix(row, col),
    ensures
        tokens_from(s, p).len() == g.dim() - col + 1,
        forall|i: int|
            0 <= i < tokens_from(s, p).len() ==> #[trigger] tokens_from(s, p)[i] == cell_token(
                g.at(row, col + i)),
    decreases g.dim() - col,
{
    let t = cell_token(g.at(row, col));
    lemma_cell_token_value(g.dim(), g.at(row, col));
    let suf = g.row_clue_suffix(row, col);
    assert(forall|k: int| 0 <= k < s.len() - p ==> #[trigger] s[p + k] == suf[k]);
    if col == g.dim() {
        assert(suf == t);
        assert(s.len() - p == t.len());
        assert forall|k: int| p <= k < s.len() implies #[trigger] s[k] != ' ' by {
            assert(s[k] == suf[k - p]);
        }
        lemma_token_end_segment(s, p, s.len() as int);
        assert(s.subrange(p, s.len() as int) == t);
        assert(tokens_from(s, p) == seq![t]);
        assert(tokens_from(s, p)[0] == cell_token(g.at(row, col + 0)));
    } else {
        assert(suf == t + seq![' '] + g.row_clue_suffix(row, col + 1));
        let e = p + t.len() as int;
        assert forall|k: int| p <= k < e implies #[trigger] s[k] != ' ' by {
            assert(s[k] == suf[k - p]);
            assert(suf[k - p] == t[k - p]);
        }
        assert(s[e] == suf[t.len() as int]);
        assert(suf[t.len() as int] == ' ');
        lemma_token_end_segment(s, p, e);
        assert(s.subrange(p, e) =~= t);
        assert(s.subrange(e + 1, s.len() as int) =~= g.row_clue_suffix(row, col + 1)) by {
            assert forall|k: int|
                #![trigger s.subrange(e + 1, s.len() as int)[k]]
                0 <= k < s.len() - e - 1 implies s.subrange(e + 1, s.len() as int)[k]
                == g.row_clue_suffix(row, col + 1)[k] by {
                assert(s[e + 1 + k] == suf[t.len() + 1 + k]);
            }
        }
        lemma_clue_tokens(g, row, col + 1, s, e + 1);
        assert(tokens_from(s, p) == seq![t] + tokens_from(s, e + 1));
        assert forall|i: int| 0 <= i < tokens_from(s, p).len() implies #[trigger] tokens_from(
            s, p)[i] == cell_token(g.at(row, col + i)) by {
            if i == 0 {
                assert(tokens_from(s, p)[0] == t);
            } else {
                assert(tokens_from(s, p)[i] == tokens_from(s, e + 1)[i - 1]);
                assert(tokens_from(s, e + 1)[i - 1] == cell_token(g.at(row, col + 1 + (i - 1))));
            }
        }
    }
}

/// Rendering idempotence: the clue line made of a row's rendered cell
/// glyphs (exactly what the grid's rendering shows for those cells) is a
/// well-formed row input, and parsing it back yields the placeholder for
/// each empty cell and each filled cell's own value — so loading it
/// reproduces the row unchanged.
pub proof fn lemma_render_parse_round_trip(g: Grid, row: int)
    requires
        g.wf(),
        1 <= row <= g.dim(),
    ensures
        row_tokens_ok(g, g.row_clue_spec(row)),
        forall|c: int|
            1 <= c <= g.dim() ==> token_value(
                g.dim(),
                tokens_from(g.row_clue_spec(row), 0)[c - 1],
            ) == Option::Some(
                if g.at(row, c) == 0 {
                    Option::<u8>::None
                } else {
                    Option::<u8>::Some(g.at(row, c) as u8)
                },
            ),
{
    let s = g.row_clue_spec(row);
    assert(s.subrange(0, s.len() as int) =~= s);
    lemma_clue_tokens(g, row, 1, s, 0);
    assert forall|c: int| 1 <= c <= g.dim() implies token_value(
        g.dim(),
        tokens_from(s, 0)[c - 1],
    ) == Option::Some(
        if g.at(row, c) == 0 {
            Option::<u8>::None
        } else {
            Option::<u8>::Some(g.at(row, c) as u8)
        },
    ) by {
        assert(tokens_from(s, 0)[c - 1] == cell_token(g.at(row, 1 + (c - 1))));
        lemma_cell_token_value(g.dim(), g.at(row, c));
    }
    assert forall|i: int| 0 <= i < tokens_from(s, 0).len() implies (token_value(
        g.dim(),
        #[trigger] tokens_from(s, 0)[i],
    ) is Some) by {
        assert(tokens_from(s, 0)[i] == cell_token(g.at(row, 1 + i)));
        lemma_cell_token_value(g.dim(), g.at(row, 1 + i));
    }
}

/// A row of the grid, identified by its 1-indexed row number.
pub struct Row {
    pub row: u8,
    pub number_cols: u8,
}

impl Row {
    /// The ordered `(row, col)` coordinates of the row's cells.
    pub fn cells(&self) -> (r: Vec<(u8, u8)>)
        ensures
            r@.len() == self.number_cols as int,
            forall|i: int|
                0 <= i < self.number_cols as int ==> #[trigger] r@[i] == (self.row, (i + 1) as u8),
    {
        let n = self.number_cols as usize;
        let mut res: Vec<(u8, u8)> = Vec::new();
        let mut i: usize = 0;
        while i < n
            invariant
                n == self.number_cols as int,
                i <= n,
                res@.len() == i,
                forall|k: int| 0 <= k < i ==> #[trigger] res@[k] == (self.row, (k + 1) as u8),
            decreases n - i,
        {
            res.push((self.row, (i + 1) as u8));
            i += 1;
        }
        res
    }
}

/// A column of the grid, identified by its 1-indexed column number.
pub struct Column {
    pub col: u8,
    pub number_rows: u8,
}

impl Column {
    /// The ordered `(row, col)` coordinates of the column's cells.
    pub fn cells(&self) -> (r: Vec<(u8, u8)>)
        ensures
            r@.len() == self.number_rows as int,
            forall|i: int|
                0 <= i < self.number_rows as int ==> #[trigger] r@[i] == ((i + 1) as u8, self.col),
    {
        let n = self.number_rows as usize;
        let mut res: Vec<(u8, u8)> = Vec::new();
        let mut i: usize = 0;
        while i < n
            invariant
                n == self.number_rows as int,
                i <= n,
                res@.len() == i,
                forall|k: int| 0 <= k < i ==> #[trigger] res@[k] == ((k + 1) as u8, self.col),
            decreases n - i,
        {
            res.push(((i + 1) as u8, self.col));
            i += 1;
        }
        res
    }
}

/// One `box_size x box_size` sub-box, identified by its top-left anchor.
pub struct GridBox {
    pub col: u8,
    pub row: u8,
    pub box_size: u8,
}

impl GridBox {
    /// The `(row, col)` coordinates of the box's cells, in row-major order:
    /// cell `i` lies at `(row + i / box_size, col + i % box_size)`.
    pub fn cells(&self) -> (r: Vec<(u8, u8)>)
        requires
            self.row as int + self.box_size as int <= 256,
            self.col as int + self.box_size as int <= 256,
        ensures
            r@.len() == self.box_size as int * self.box_size as int,
            forall|i: int|
                0 <= i < r@.len() ==> #[trigger] r@[i] == (
                    (self.row as int + i / self.box_size as int) as u8,
                    (self.col as int + i % self.box_size as int) as u8,
                ),
    {
        let b = self.box_size as usize;
        let mut res: Vec<(u8, u8)> = Vec::new();
        let mut ro: usize = 0;
        while ro < b
            invariant
                b == self.box_size as int,
                self.row as int + b <= 256,
                self.col as int + b <= 256,
                ro <= b,
                res@.len() == ro * b,
                forall|i: int|
                    0 <= i < res@.len() ==> #[trigger] res@[i] == (
                        (self.row as int + i / self.box_size as int) as u8,
                        (self.col as int + i % self.box_size as int) as u8,
                    ),
            decreases b - ro,
        {
            let mut co: usize = 0;
            while co < b
                invariant
                    b == self.box_size as int,
                    self.row as int + b <= 256,
                    self.col as int + b <= 256,
                    ro < b,
                    co <= b,
                    res@.len() == ro * b + co,
                    forall|i: int|
                        0 <= i < res@.len() ==> #[trigger] res@[i] == (
                            (self.row as int + i / self.box_size as int) as u8,
                            (self.col as int + i % self.box_size as int) as u8,
                        ),
                decreases b - co,
            {
                proof {
                    let bi = self.box_size as int;
                    assert((ro as int) * bi + (co as int) < bi * bi) by (nonlinear_arith)
                        requires
                            0 <= (ro as int) && (ro as int) < bi,
                            0 <= (co as int) && (co as int) < bi,
                    ;
                    let k = (ro as int) * bi + (co as int);
                    assert(k / bi == ro as int && k % bi == co as int) by {
                        vstd::arithmetic::div_mod::lemma_fundamental_div_mod_converse(
                            k, bi, ro as int, co as int);
                    }
                }
                res.push(((self.row + ro as u8), (self.col + co as u8)));
                co += 1;
            }
            proof {
                assert((ro as int + 1) * (b as int) == (ro as int) * (b as int) + (
                b as int)) by (nonlinear_arith);
            }
            ro += 1;
        }
        res
    }
}

} // verus!
