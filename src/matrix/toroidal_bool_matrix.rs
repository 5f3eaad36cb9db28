//! The dense backing: one boolean per cell, in row-major order.
use crate::matrix::{
    cell, flat, lemma_flat_index, lemma_flat_index_injective, n_cells, n_cols, table_fits,
    table_grid, table_is_empty, table_is_rectangular, xor_grid, MatrixConstructError,
    MatrixOpError, ToroidalBinaryMatrix, ToroidalMatrixIndex,
};
use vstd::prelude::*;

verus! {

/// The grid that a row-major sequence of cells holds for a shape.
pub open spec fn dense_grid(s: Seq<bool>, rows: int, cols: int) -> Seq<Seq<bool>> {
    Seq::new(rows as nat, |r: int| s.subrange(r * cols, r * cols + cols))
}

/// A toroidal binary matrix backed by a `Vec<bool>`, one entry per cell in row-major order.
#[derive(Debug, Clone)]
pub struct ToroidalBoolMatrix {
    rows: usize,
    cols: usize,
    storage: Vec<bool>,
}

impl View for ToroidalBoolMatrix {
    type V = Seq<Seq<bool>>;

    closed spec fn view(&self) -> Seq<Seq<bool>> {
        dense_grid(self.storage@, self.rows as int, self.cols as int)
    }
}

impl ToroidalBoolMatrix {
    proof fn lemma_cell(&self, r: int, c: int)
        requires
            self.wf(),
            0 <= r < self.rows,
            0 <= c < self.cols,
        ensures
            0 <= r * self.cols + c < self.storage@.len(),
            self@[r].len() == self.cols,
            self@[r][c] == self.storage@[r * self.cols + c],
    {
        lemma_flat_index(self.rows as int, self.cols as int, r, c);
    }

    /// Sets the cell at canonical position `(row, col)` to `value` and returns its former
    /// value.
    fn set_canonical(&mut self, row: usize, col: usize, value: bool) -> (r: bool)
        requires
            old(self).wf(),
            row < old(self).rows,
            col < old(self).cols,
        ensures
            final(self).wf(),
            final(self).rows == old(self).rows,
            final(self).cols == old(self).cols,
            r == old(self)@[row as int][col as int],
            final(self)@ == old(self)@.update(
                row as int,
                old(self)@[row as int].update(col as int, value),
            ),
    {
        proof {
            self.lemma_cell(0, 0);
            self.lemma_cell(row as int, col as int);
        }
        let k = row * self.cols + col;
        let result = self.storage[k];
        let ghost before = *self;
        self.storage.set(k, value);
        proof {
            let target = before@.update(row as int, before@[row as int].update(col as int, value));
            assert forall|rr: int| 0 <= rr < self.rows implies #[trigger] self@[rr] == target[rr] by {
                before.lemma_cell(rr, 0);
                assert forall|cc: int| 0 <= cc < self.cols implies self@[rr][cc] == target[rr][cc] by {
                    before.lemma_cell(rr, cc);
                    self.lemma_cell(rr, cc);
                    if rr * self.cols + cc == k {
                        lemma_flat_index_injective(
                            self.cols as int,
                            rr,
                            cc,
                            row as int,
                            col as int,
                        );
                    }
                }
                self.lemma_cell(rr, 0);
                assert(self@[rr] =~= target[rr]);
            }
            assert(self@ =~= target);
        }
        result
    }

    /// The storage backing the matrix: its cells in row-major order.
    pub fn get_storage(&self) -> (r: &Vec<bool>)
        requires
            self.wf(),
        ensures
            r@.len() == n_cells(self@),
            dense_grid(r@, self@.len() as int, n_cols(self@)) == self@,
    {
        proof {
            self.lemma_cell(0, 0);
        }
        &self.storage
    }

    /// Builds a matrix of `rows` rows and `cols` columns from its cells in row-major order.
    pub fn from_storage(rows: usize, cols: usize, storage: Vec<bool>) -> (r: Result<
        Self,
        MatrixConstructError,
    >)
        requires
            storage@.len() <= isize::MAX,
        ensures
            r is Ok <==> rows > 0 && cols > 0 && storage@.len() > 0 && rows * cols
                == storage@.len(),
            r matches Ok(m) ==> m.wf() && m@ == dense_grid(storage@, rows as int, cols as int),
            r == Err::<Self, _>(MatrixConstructError::EmptyTable()) <==> rows == 0 || cols == 0
                || storage@.len() == 0,
            r == Err::<Self, _>(MatrixConstructError::InvalidStorage()) <==> rows > 0 && cols > 0
                && storage@.len() > 0 && rows * cols != storage@.len(),
    {
        if rows == 0 || cols == 0 || storage.len() == 0 {
            return Err(MatrixConstructError::EmptyTable());
        }
        match rows.checked_mul(cols) {
            Some(n) => {
                if n != storage.len() {
                    return Err(MatrixConstructError::InvalidStorage());
                }
            },
            None => {
                return Err(MatrixConstructError::InvalidStorage());
            },
        }
        Ok(ToroidalBoolMatrix { rows, cols, storage })
    }
}

impl ToroidalBinaryMatrix for ToroidalBoolMatrix {
    closed spec fn wf(&self) -> bool {
        &&& self.rows > 0
        &&& self.cols > 0
        &&& self.rows * self.cols <= isize::MAX
        &&& self.storage@.len() == self.rows * self.cols
    }

    proof fn lemma_wf(&self) {
        assert forall|r: int| 0 <= r < self@.len() implies #[trigger] self@[r].len()
            == self@[0].len() by {
            self.lemma_cell(r, 0);
            self.lemma_cell(0, 0);
        }
        self.lemma_cell(0, 0);
    }

    fn new(table: Vec<Vec<bool>>) -> (r: Result<Self, MatrixConstructError>) {
        let rows = table.len();
        if rows == 0 {
            return Err(MatrixConstructError::EmptyTable());
        }
        let mut i: usize = 0;
        while i < rows
            invariant
                rows == table@.len(),
                i <= rows,
                forall|j: int| 0 <= j < i ==> table@[j]@.len() > 0,
            decreases rows - i,
        {
            if table[i].len() == 0 {
                return Err(MatrixConstructError::EmptyTable());
            }
            i += 1;
        }
        let cols = table[0].len();
        let mut i: usize = 0;
        while i < rows
            invariant
                rows == table@.len(),
                cols == table@[0]@.len(),
                i <= rows,
                !table_is_empty(table@),
                forall|j: int| 0 <= j < i ==> table@[j]@.len() == cols,
            decreases rows - i,
        {
            if table[i].len() != cols {
                return Err(MatrixConstructError::RaggedTable());
            }
            i += 1;
        }
        assert(rows * cols <= isize::MAX) by {
            assert(table_fits(table@));
            assert(table@.len() * table@[0]@.len() <= isize::MAX);
        }
        let mut storage: Vec<bool> = Vec::new();
        let mut r: usize = 0;
        while r < rows
            invariant
                rows == table@.len(),
                cols == table@[0]@.len(),
                0 < cols,
                r <= rows,
                rows * cols <= isize::MAX,
                table_is_rectangular(table@),
                storage@.len() == r * cols,
                forall|rr: int, cc: int|
                    0 <= rr < r && 0 <= cc < cols ==> storage@[flat(cols as int, rr, cc)]
                        == #[trigger] table@[rr]@[cc],
            decreases rows - r,
        {
            let mut c: usize = 0;
            proof {
                lemma_flat_index(rows as int, cols as int, r as int, 0);
                assert forall|rr: int, cc: int| 0 <= rr < r && 0 <= cc < cols implies #[trigger] flat(
                    cols as int,
                    rr,
                    cc,
                ) < r * cols by {
                    lemma_flat_index(r as int, cols as int, rr, cc);
                }
            }
            while c < cols
                invariant
                    rows == table@.len(),
                    cols == table@[0]@.len(),
                    r < rows,
                    c <= cols,
                    rows * cols <= isize::MAX,
                    r * cols + cols <= rows * cols,
                    table_is_rectangular(table@),
                    storage@.len() == r * cols + c,
                    forall|rr: int, cc: int|
                        0 <= rr < r && 0 <= cc < cols ==> storage@[flat(cols as int, rr, cc)]
                            == #[trigger] table@[rr]@[cc],
                    forall|cc: int| 0 <= cc < c ==> storage@[r * cols + cc] == table@[r as int]@[cc],
                    forall|rr: int, cc: int|
                        0 <= rr < r && 0 <= cc < cols ==> #[trigger] flat(cols as int, rr, cc) < r
                            * cols,
                decreases cols - c,
            {
                assert(table@[r as int]@.len() == cols);
                storage.push(table[r][c]);
                c += 1;
            }
            proof {
                assert forall|rr: int, cc: int|
                    0 <= rr < r + 1 && 0 <= cc < cols implies storage@[flat(cols as int, rr, cc)]
                    == #[trigger] table@[rr]@[cc] by {
                    if rr == r {
                    }
                }
                assert(storage@.len() == (r + 1) * cols) by (nonlinear_arith)
                    requires
                        storage@.len() == r * cols + cols,
                ;
            }
            r += 1;
        }
        let m = ToroidalBoolMatrix { rows, cols, storage };
        proof {
            assert(m.wf());
            assert forall|rr: int| 0 <= rr < rows implies #[trigger] m@[rr] == table_grid(
                table@,
            )[rr] by {
                lemma_flat_index(rows as int, cols as int, rr, 0);
                assert forall|cc: int| 0 <= cc < cols implies m@[rr][cc] == table@[rr]@[cc] by {
                    m.lemma_cell(rr, cc);
                }
                assert(m@[rr] =~= table@[rr]@);
            }
            assert(m@ =~= table_grid(table@));
        }
        Ok(m)
    }

    fn get_rows(&self) -> (r: usize) {
        self.rows
    }

    fn get_cols(&self) -> (r: usize) {
        proof {
            self.lemma_cell(0, 0);
        }
        self.cols
    }

    fn at(&self, idx: &ToroidalMatrixIndex) -> (r: bool) {
        let (row, col) = self.canonize_index(*idx);
        proof {
            self.lemma_cell(0, 0);
            self.lemma_cell(row as int, col as int);
        }
        self.storage[row * self.cols + col]
    }

    fn set(&mut self, idx: &ToroidalMatrixIndex, value: bool) -> (r: bool) {
        let (row, col) = self.canonize_index(*idx);
        proof {
            self.lemma_cell(0, 0);
        }
        self.set_canonical(row, col, value)
    }

    fn swap_rows(&mut self, row1: isize, row2: isize) {
        let ghost g = self@;
        let row_1_idx: usize = self.canonize_row_index(row1);
        let row_2_idx: usize = self.canonize_row_index(row2);
        let ghost ca = row_1_idx as int;
        let ghost cb = row_2_idx as int;
        proof {
            self.lemma_wf();
            self.lemma_cell(0, 0);
        }
        let cols = self.cols;
        let mut i: usize = 0;
        while i < cols
            invariant
                self.wf(),
                crate::matrix::fits_matrix(g),
                cols == self.cols,
                cols == n_cols(g),
                i <= cols,
                row_1_idx < g.len(),
                row_2_idx < g.len(),
                ca == row_1_idx,
                cb == row_2_idx,
                ca == crate::matrix::canon(row1 as int, g.len() as int),
                cb == crate::matrix::canon(row2 as int, g.len() as int),
                self@.len() == g.len(),
                forall|r: int| 0 <= r < g.len() ==> #[trigger] self@[r].len() == cols,
                forall|r: int| 0 <= r < g.len() && r != ca && r != cb ==> #[trigger] self@[r] == g[r],
                forall|c: int| 0 <= c < i ==> #[trigger] self@[ca][c] == g[cb][c],
                forall|c: int| 0 <= c < i ==> #[trigger] self@[cb][c] == g[ca][c],
                forall|c: int| i <= c < cols ==> #[trigger] self@[ca][c] == g[ca][c],
                forall|c: int| i <= c < cols ==> #[trigger] self@[cb][c] == g[cb][c],
            decreases cols - i,
        {
            proof {
                self.lemma_cell(row_1_idx as int, i as int);
                self.lemma_cell(row_2_idx as int, i as int);
            }
            let a = self.storage[row_1_idx * cols + i];
            let b = self.storage[row_2_idx * cols + i];
            let ghost before = self@;
            self.set_canonical(row_1_idx, i, b);
            self.set_canonical(row_2_idx, i, a);
            proof {
                self.lemma_wf();
                assert(before[ca][i as int] == g[ca][i as int]);
                assert(before[cb][i as int] == g[cb][i as int]);
            }
            i += 1;
        }
        proof {
            let target = crate::matrix::swap_rows_grid(g, row1 as int, row2 as int);
            assert forall|r: int| 0 <= r < g.len() implies #[trigger] self@[r] == target[r] by {
                if r == ca || r == cb {
                    assert(g[ca].len() == cols && g[cb].len() == cols);
                    assert forall|c: int| 0 <= c < cols implies self@[r][c] == target[r][c] by {
                        assert(0 <= c < i);
                        assert(self@[ca][c] == g[cb][c]);
                        assert(self@[cb][c] == g[ca][c]);
                    }
                    assert(self@[r] =~= target[r]);
                }
            }
            assert(self@ =~= target);
        }
    }

    fn bitwise_xor(&mut self, other: &Self) -> (r: Result<(), MatrixOpError>) {
        proof {
            self.lemma_cell(0, 0);
            other.lemma_cell(0, 0);
        }
        if self.rows != other.rows || self.cols != other.cols {
            return Err(MatrixOpError::DifferentShapes());
        }
        let ghost before = *self;
        let n = self.rows * self.cols;
        let mut i: usize = 0;
        while i < n
            invariant
                n == self.storage@.len(),
                n == other.storage@.len(),
                n == before.storage@.len(),
                i <= n,
                self.rows == before.rows,
                self.cols == before.cols,
                forall|j: int| 0 <= j < i ==> self.storage@[j] == (before.storage@[j] != other.storage@[j]),
                forall|j: int| i <= j < n ==> self.storage@[j] == before.storage@[j],
            decreases n - i,
        {
            let v = self.storage[i] != other.storage[i];
            self.storage.set(i, v);
            i += 1;
        }
        proof {
            let target = xor_grid(before@, other@);
            assert forall|rr: int| 0 <= rr < self.rows implies #[trigger] self@[rr] == target[rr] by {
                before.lemma_cell(rr, 0);
                assert forall|cc: int| 0 <= cc < self.cols implies self@[rr][cc] == target[rr][cc] by {
                    before.lemma_cell(rr, cc);
                    other.lemma_cell(rr, cc);
                    self.lemma_cell(rr, cc);
                }
                self.lemma_cell(rr, 0);
                assert(self@[rr] =~= target[rr]);
            }
            assert(self@ =~= target);
        }
        Ok(())
    }
}

} // verus!
