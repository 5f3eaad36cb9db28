//! Binary matrices on a torus: the shared interface, its mathematical model, and two
//! storage backings.
use vstd::prelude::*;

pub mod toroidal_bit_matrix;
pub mod toroidal_bool_matrix;

pub use toroidal_bit_matrix::ToroidalBitMatrix;
pub use toroidal_bool_matrix::ToroidalBoolMatrix;

verus! {

/// A (row, column) position on a toroidal matrix. Either coordinate may be negative or past
/// the matrix's bounds; it is reduced by Euclidean remainder before any cell is addressed.
pub type ToroidalMatrixIndex = (isize, isize);

/// Error arising while building a matrix.
///
/// A table that is both ragged and holds an empty row is reported as `EmptyTable`.
#[derive(Debug, PartialEq, Eq, Structural)]
pub enum MatrixConstructError {
    /// The rows of the table differ in length.
    RaggedTable(),
    /// The table has no rows, or a row with no entries.
    EmptyTable(),
    /// The storage does not hold exactly enough entries for the given shape.
    InvalidStorage(),
}

impl MatrixConstructError {
    /// A short description of the error.
    pub fn message(&self) -> (r: &'static str)
        ensures
            self is RaggedTable ==> r@ == "Ragged table"@,
            self is EmptyTable ==> r@ == "Empty table"@,
            self is InvalidStorage ==> r@ == "Invalid storage"@,
    {
        match self {
            MatrixConstructError::RaggedTable() => "Ragged table",
            MatrixConstructError::EmptyTable() => "Empty table",
            MatrixConstructError::InvalidStorage() => "Invalid storage",
        }
    }
}

/// Error arising from an operation on two matrices.
#[derive(Debug, PartialEq, Eq, Structural)]
pub enum MatrixOpError {
    /// The two matrices differ in shape.
    DifferentShapes(),
    /// The two matrices have incompatible shapes.
    IncompatibleShapes(),
}

impl MatrixOpError {
    /// A short description of the error.
    pub fn message(&self) -> (r: &'static str)
        ensures
            self is DifferentShapes ==> r@ == "Different shapes"@,
            self is IncompatibleShapes ==> r@ == "Incompatible shapes"@,
    {
        match self {
            MatrixOpError::DifferentShapes() => "Different shapes",
            MatrixOpError::IncompatibleShapes() => "Incompatible shapes",
        }
    }
}

/// A matrix's contents: `g[r][c]` is the cell at canonical row `r` and column `c`.
pub open spec fn is_grid(g: Seq<Seq<bool>>) -> bool {
    &&& g.len() > 0
    &&& g[0].len() > 0
    &&& forall|r: int| 0 <= r < g.len() ==> #[trigger] g[r].len() == g[0].len()
}

/// The number of columns of a grid.
pub open spec fn n_cols(g: Seq<Seq<bool>>) -> int {
    g[0].len() as int
}

/// The number of cells of a grid.
pub open spec fn n_cells(g: Seq<Seq<bool>>) -> int {
    g.len() * n_cols(g)
}

/// A grid that a matrix can hold: non-empty, rectangular, and small enough that each cell
/// has a flat row-major index in `isize`.
pub open spec fn fits_matrix(g: Seq<Seq<bool>>) -> bool {
    &&& is_grid(g)
    &&& n_cells(g) <= isize::MAX
}

/// Whether two grids have the same number of rows and of columns.
pub open spec fn same_shape(a: Seq<Seq<bool>>, b: Seq<Seq<bool>>) -> bool {
    a.len() == b.len() && n_cols(a) == n_cols(b)
}

/// The canonical form of coordinate `i` on an axis of length `n`: its Euclidean remainder.
pub open spec fn canon(i: int, n: int) -> int {
    i % n
}

/// The cell at a possibly noncanonical position.
pub open spec fn cell(g: Seq<Seq<bool>>, r: int, c: int) -> bool {
    g[canon(r, g.len() as int)][canon(c, n_cols(g))]
}

/// The grid with the cell at a possibly noncanonical position set to `v`.
pub open spec fn set_cell(g: Seq<Seq<bool>>, r: int, c: int, v: bool) -> Seq<Seq<bool>> {
    let cr = canon(r, g.len() as int);
    let cc = canon(c, n_cols(g));
    g.update(cr, g[cr].update(cc, v))
}

/// The grid with the cells at two positions exchanged.
pub open spec fn swap_cells(
    g: Seq<Seq<bool>>,
    e1: ToroidalMatrixIndex,
    e2: ToroidalMatrixIndex,
) -> Seq<Seq<bool>> {
    set_cell(
        set_cell(g, e1.0 as int, e1.1 as int, cell(g, e2.0 as int, e2.1 as int)),
        e2.0 as int,
        e2.1 as int,
        cell(g, e1.0 as int, e1.1 as int),
    )
}

/// The grid with two rows, given by possibly noncanonical indices, exchanged.
pub open spec fn swap_rows_grid(g: Seq<Seq<bool>>, a: int, b: int) -> Seq<Seq<bool>> {
    let ca = canon(a, g.len() as int);
    let cb = canon(b, g.len() as int);
    g.update(ca, g[cb]).update(cb, g[ca])
}

/// The grid with two columns, given by possibly noncanonical indices, exchanged.
pub open spec fn swap_cols_grid(g: Seq<Seq<bool>>, a: int, b: int) -> Seq<Seq<bool>> {
    let ca = canon(a, n_cols(g));
    let cb = canon(b, n_cols(g));
    Seq::new(g.len(), |r: int| g[r].update(ca, g[r][cb]).update(cb, g[r][ca]))
}

/// The cell-by-cell exclusive or of two grids of one shape.
pub open spec fn xor_grid(a: Seq<Seq<bool>>, b: Seq<Seq<bool>>) -> Seq<Seq<bool>> {
    Seq::new(a.len(), |r: int| Seq::new(a[r].len(), |c: int| a[r][c] != b[r][c]))
}

/// The number of `true` entries of a row.
pub open spec fn count_row(row: Seq<bool>) -> nat
    decreases row.len(),
{
    if row.len() == 0 {
        0
    } else {
        count_row(row.drop_last()) + if row.last() {
            1nat
        } else {
            0nat
        }
    }
}

/// The number of `true` cells of a grid.
pub open spec fn count_true(g: Seq<Seq<bool>>) -> nat
    decreases g.len(),
{
    if g.len() == 0 {
        0
    } else {
        count_true(g.drop_last()) + count_row(g.last())
    }
}

/// The contents of a table of rows.
pub open spec fn table_grid(t: Seq<Vec<bool>>) -> Seq<Seq<bool>> {
    t.map_values(|row: Vec<bool>| row@)
}

/// A table with no rows, or with a row that has no entries.
pub open spec fn table_is_empty(t: Seq<Vec<bool>>) -> bool {
    t.len() == 0 || exists|i: int| 0 <= i < t.len() && #[trigger] t[i]@.len() == 0
}

/// A table whose rows all have the length of the first.
pub open spec fn table_is_rectangular(t: Seq<Vec<bool>>) -> bool {
    forall|i: int| 0 <= i < t.len() ==> #[trigger] t[i]@.len() == t[0]@.len()
}

/// A table small enough that, were it rectangular, each of its cells would have a flat
/// row-major index in `isize`.
pub open spec fn table_fits(t: Seq<Vec<bool>>) -> bool {
    t.len() > 0 ==> t.len() * t[0]@.len() <= isize::MAX
}

/// The row-major flat index of the cell at row `r` and column `c`.
pub open spec fn flat(cols: int, r: int, c: int) -> int {
    r * cols + c
}

/// Bounds on the row-major flat index `r * cols + c` of a cell.
pub proof fn lemma_flat_index(rows: int, cols: int, r: int, c: int)
    requires
        0 <= r < rows,
        0 <= c < cols,
    ensures
        0 <= r * cols,
        r * cols + c < rows * cols,
        r * cols + cols <= rows * cols,
{
    assert(0 <= r * cols) by (nonlinear_arith)
        requires
            0 <= r,
            0 <= c < cols,
    ;
    assert(r * cols + cols <= rows * cols) by (nonlinear_arith)
        requires
            0 <= r < rows,
            0 <= c < cols,
    ;
}

/// Distinct cells have distinct row-major flat indices.
pub proof fn lemma_flat_index_injective(cols: int, r1: int, c1: int, r2: int, c2: int)
    requires
        0 <= r1,
        0 <= r2,
        0 <= c1 < cols,
        0 <= c2 < cols,
        r1 * cols + c1 == r2 * cols + c2,
    ensures
        r1 == r2,
        c1 == c2,
{
    if r1 < r2 {
        assert(r1 * cols + cols <= r2 * cols) by (nonlinear_arith)
            requires
                r1 < r2,
                0 <= c1 < cols,
        ;
    } else if r2 < r1 {
        assert(r2 * cols + cols <= r1 * cols) by (nonlinear_arith)
            requires
                r2 < r1,
                0 <= c1 < cols,
        ;
    }
}

/// Setting a cell keeps the grid's shape.
pub proof fn lemma_set_cell_shape(g: Seq<Seq<bool>>, r: int, c: int, v: bool)
    requires
        fits_matrix(g),
    ensures
        fits_matrix(set_cell(g, r, c, v)),
        same_shape(set_cell(g, r, c, v), g),
{
    vstd::arithmetic::div_mod::lemma_mod_bound(r, g.len() as int);
    vstd::arithmetic::div_mod::lemma_mod_bound(c, n_cols(g));
    let h = set_cell(g, r, c, v);
    assert forall|i: int| 0 <= i < h.len() implies #[trigger] h[i].len() == h[0].len() by {
        assert(g[i].len() == g[0].len());
    }
}

/// Canonicalization is idempotent: a canonical index is its own canonical form, and so is
/// the canonical form of any index, on any axis of positive length.
pub proof fn lemma_canon_idempotent(i: int, n: int)
    requires
        n > 0,
    ensures
        0 <= canon(i, n) < n,
        canon(canon(i, n), n) == canon(i, n),
        0 <= i < n ==> canon(i, n) == i,
{
    vstd::arithmetic::div_mod::lemma_mod_bound(i, n);
    vstd::arithmetic::div_mod::lemma_small_mod(canon(i, n) as nat, n as nat);
    if 0 <= i < n {
        vstd::arithmetic::div_mod::lemma_small_mod(i as nat, n as nat);
    }
}

/// Canonicalizing an index of a matrix twice gives what canonicalizing it once gives, on
/// both axes.
pub proof fn lemma_canonize_index_idempotent(rows: int, cols: int, idx: (int, int))
    requires
        rows > 0,
        cols > 0,
    ensures
        canon(canon(idx.0, rows), rows) == canon(idx.0, rows),
        canon(canon(idx.1, cols), cols) == canon(idx.1, cols),
{
    lemma_canon_idempotent(idx.0, rows);
    lemma_canon_idempotent(idx.1, cols);
}

/// Exclusive or with the same grid twice restores a grid: `a.bitwise_xor(b)` done twice
/// leaves `a` as it was.
pub proof fn lemma_xor_self_inverse(a: Seq<Seq<bool>>, b: Seq<Seq<bool>>)
    requires
        is_grid(a),
        is_grid(b),
        same_shape(a, b),
    ensures
        is_grid(xor_grid(a, b)),
        same_shape(xor_grid(a, b), a),
        xor_grid(xor_grid(a, b), b) == a,
{
    let x = xor_grid(a, b);
    assert forall|r: int| 0 <= r < a.len() implies #[trigger] xor_grid(x, b)[r] == a[r] by {
        assert(a[r].len() == a[0].len() && b[r].len() == b[0].len());
        assert(xor_grid(x, b)[r] =~= a[r]);
    }
    assert(xor_grid(x, b) =~= a);
}

/// Counting the `true` cells of the first `r + 1` rows adds row `r` to the first `r`.
pub proof fn lemma_count_true_take(g: Seq<Seq<bool>>, r: int)
    requires
        0 <= r < g.len(),
    ensures
        count_true(g.take(r + 1)) == count_true(g.take(r)) + count_row(g[r]),
{
    assert(g.take(r + 1).drop_last() =~= g.take(r));
}

/// Counting the `true` entries of the first `c + 1` entries adds entry `c` to the first `c`.
pub proof fn lemma_count_row_take(row: Seq<bool>, c: int)
    requires
        0 <= c < row.len(),
    ensures
        count_row(row.take(c + 1)) == count_row(row.take(c)) + if row[c] {
            1nat
        } else {
            0nat
        },
{
    assert(row.take(c + 1).drop_last() =~= row.take(c));
}

/// A binary matrix on a genus-1 torus.
///
/// Its view is its grid of cells. Every operation that takes a position reduces it by
/// Euclidean remainder, per axis, before addressing a cell.
pub trait ToroidalBinaryMatrix: Sized + View<V = Seq<Seq<bool>>> {
    /// The matrix's internal invariant; it implies `fits_matrix(self@)`.
    spec fn wf(&self) -> bool;

    /// Builds a matrix from a table of rows, `table[row][col]` being the cell at `(row, col)`.
    fn new(table: Vec<Vec<bool>>) -> (r: Result<Self, MatrixConstructError>)
        requires
            table_fits(table@),
        ensures
            r is Ok <==> !table_is_empty(table@) && table_is_rectangular(table@),
            r matches Ok(m) ==> m.wf() && m@ == table_grid(table@),
            r == Err::<Self, _>(MatrixConstructError::EmptyTable()) <==> table_is_empty(table@),
            r == Err::<Self, _>(MatrixConstructError::RaggedTable()) <==> !table_is_empty(table@)
                && !table_is_rectangular(table@),
    ;

    /// The number of rows.
    fn get_rows(&self) -> (r: usize)
        requires
            self.wf(),
        ensures
            r == self@.len(),
    ;

    /// The number of columns.
    fn get_cols(&self) -> (r: usize)
        requires
            self.wf(),
        ensures
            r == n_cols(self@),
    ;

    /// Proves that a well-formed matrix holds a grid that fits.
    proof fn lemma_wf(&self)
        requires
            self.wf(),
        ensures
            fits_matrix(self@),
    ;

    /// The cell at `idx`.
    fn at(&self, idx: &ToroidalMatrixIndex) -> (r: bool)
        requires
            self.wf(),
        ensures
            r == cell(self@, idx.0 as int, idx.1 as int),
    ;

    /// Sets the cell at `idx` to `value` and returns its former value.
    fn set(&mut self, idx: &ToroidalMatrixIndex, value: bool) -> (r: bool)
        requires
            old(self).wf(),
        ensures
            final(self).wf(),
            r == cell(old(self)@, idx.0 as int, idx.1 as int),
            final(self)@ == set_cell(old(self)@, idx.0 as int, idx.1 as int, value),
    ;

    /// Replaces this matrix by its cell-by-cell exclusive or with `other`. Matrices of
    /// different shapes give `DifferentShapes` and leave this one as it was.
    fn bitwise_xor(&mut self, other: &Self) -> (r: Result<(), MatrixOpError>)
        requires
            old(self).wf(),
            other.wf(),
        ensures
            final(self).wf(),
            r is Ok <==> same_shape(old(self)@, other@),
            r is Ok ==> final(self)@ == xor_grid(old(self)@, other@),
            r is Err ==> r == Err::<(), _>(MatrixOpError::DifferentShapes()) && final(self)@
                == old(self)@,
    ;

    /// The number of cells.
    fn num_elements(&self) -> (r: usize)
        requires
            self.wf(),
        ensures
            r == n_cells(self@),
    {
        proof {
            self.lemma_wf();
        }
        self.get_rows() * self.get_cols()
    }

    /// The canonical form of column index `col_index`.
    fn canonize_col_index(&self, col_index: isize) -> (r: usize)
        requires
            self.wf(),
        ensures
            r == canon(col_index as int, n_cols(self@)),
    {
        proof {
            self.lemma_wf();
            vstd::arithmetic::mul::lemma_mul_increases(self@.len() as int, n_cols(self@));
            vstd::arithmetic::div_mod::lemma_mod_bound(col_index as int, n_cols(self@));
        }
        let n = self.get_cols() as isize;
        let m = col_index.checked_rem_euclid(n).unwrap();
        m as usize
    }

    /// The canonical form of row index `row_index`.
    fn canonize_row_index(&self, row_index: isize) -> (r: usize)
        requires
            self.wf(),
        ensures
            r == canon(row_index as int, self@.len() as int),
    {
        proof {
            self.lemma_wf();
            vstd::arithmetic::mul::lemma_mul_increases(n_cols(self@), self@.len() as int);
            vstd::arithmetic::mul::lemma_mul_is_commutative(n_cols(self@), self@.len() as int);
            vstd::arithmetic::div_mod::lemma_mod_bound(row_index as int, self@.len() as int);
        }
        let n = self.get_rows() as isize;
        let m = row_index.checked_rem_euclid(n).unwrap();
        m as usize
    }

    /// The canonical form of `index`, one axis at a time.
    fn canonize_index(&self, index: ToroidalMatrixIndex) -> (r: (usize, usize))
        requires
            self.wf(),
        ensures
            r.0 == canon(index.0 as int, self@.len() as int),
            r.1 == canon(index.1 as int, n_cols(self@)),
    {
        let (row, col) = index;
        let row_result = self.canonize_row_index(row);
        let col_result = self.canonize_col_index(col);
        (row_result, col_result)
    }

    /// Exchanges the cells at `entry1` and `entry2`.
    fn swap_entries(&mut self, entry1: &ToroidalMatrixIndex, entry2: &ToroidalMatrixIndex)
        requires
            old(self).wf(),
        ensures
            final(self).wf(),
            final(self)@ == swap_cells(old(self)@, *entry1, *entry2),
    {
        let ghost g = self@;
        proof {
            self.lemma_wf();
        }
        let v2 = self.at(entry2);
        let temp = self.set(entry1, v2);
        let ghost g1 = self@;
        proof {
            self.lemma_wf();
            assert(g1.len() == g.len());
            assert(n_cols(g1) == n_cols(g));
        }
        self.set(entry2, temp);
    }

    /// Exchanges rows `row1` and `row2`, given by possibly noncanonical indices.
    fn swap_rows(&mut self, row1: isize, row2: isize)
        requires
            old(self).wf(),
        ensures
            final(self).wf(),
            final(self)@ == swap_rows_grid(old(self)@, row1 as int, row2 as int),
    {
        let ghost g = self@;
        let ghost ca = canon(row1 as int, g.len() as int);
        let ghost cb = canon(row2 as int, g.len() as int);
        proof {
            self.lemma_wf();
            vstd::arithmetic::div_mod::lemma_mod_bound(row1 as int, g.len() as int);
            vstd::arithmetic::div_mod::lemma_mod_bound(row2 as int, g.len() as int);
            vstd::arithmetic::mul::lemma_mul_increases(g.len() as int, n_cols(g));
        }
        let cols = self.get_cols();
        let mut col: usize = 0;
        while col < cols
            invariant
                self.wf(),
                fits_matrix(g),
                cols == n_cols(g),
                cols <= isize::MAX,
                col <= cols,
                0 <= ca < g.len(),
                0 <= cb < g.len(),
                ca == canon(row1 as int, g.len() as int),
                cb == canon(row2 as int, g.len() as int),
                self@.len() == g.len(),
                forall|r: int| 0 <= r < g.len() ==> #[trigger] self@[r].len() == cols,
                forall|r: int| 0 <= r < g.len() && r != ca && r != cb ==> #[trigger] self@[r] == g[r],
                forall|c: int|
                    0 <= c < col ==> #[trigger] self@[ca][c] == g[cb][c] && self@[cb][c] == g[ca][c],
                forall|c: int|
                    col <= c < cols ==> #[trigger] self@[ca][c] == g[ca][c] && self@[cb][c] == g[cb][c],
            decreases cols - col,
        {
            proof {
                vstd::arithmetic::div_mod::lemma_small_mod(col as nat, cols as nat);
            }
            self.swap_entries(&(row1, col as isize), &(row2, col as isize));
            proof {
                self.lemma_wf();
            }
            col += 1;
        }
        proof {
            let target = swap_rows_grid(g, row1 as int, row2 as int);
            assert forall|r: int| 0 <= r < g.len() implies #[trigger] self@[r] == target[r] by {
                if r == ca || r == cb {
                    assert(g[ca].len() == cols && g[cb].len() == cols);
                    assert forall|c: int| 0 <= c < cols implies self@[r][c] == target[r][c] by {
                        assert(0 <= c < col);
                        assert(self@[ca][c] == g[cb][c]);
                        assert(self@[cb][c] == g[ca][c]);
                    }
                    assert(self@[r] =~= target[r]);
                }
            }
            assert(self@ =~= target);
        }
    }

    /// Exchanges columns `col1` and `col2`, given by possibly noncanonical indices.
    fn swap_cols(&mut self, col1: isize, col2: isize)
        requires
            old(self).wf(),
        ensures
            final(self).wf(),
            final(self)@ == swap_cols_grid(old(self)@, col1 as int, col2 as int),
    {
        let ghost g = self@;
        let ghost ca = canon(col1 as int, n_cols(g));
        let ghost cb = canon(col2 as int, n_cols(g));
        proof {
            self.lemma_wf();
            vstd::arithmetic::div_mod::lemma_mod_bound(col1 as int, n_cols(g));
            vstd::arithmetic::div_mod::lemma_mod_bound(col2 as int, n_cols(g));
            vstd::arithmetic::mul::lemma_mul_increases(n_cols(g), g.len() as int);
            vstd::arithmetic::mul::lemma_mul_is_commutative(n_cols(g), g.len() as int);
        }
        let rows = self.get_rows();
        let mut row: usize = 0;
        while row < rows
            invariant
                self.wf(),
                fits_matrix(g),
                rows == g.len(),
                rows <= isize::MAX,
                row <= rows,
                0 <= ca < n_cols(g),
                0 <= cb < n_cols(g),
                ca == canon(col1 as int, n_cols(g)),
                cb == canon(col2 as int, n_cols(g)),
                self@.len() == g.len(),
                forall|r: int| 0 <= r < g.len() ==> #[trigger] self@[r].len() == n_cols(g),
                forall|r: int, c: int|
                    0 <= r < row && 0 <= c < n_cols(g) ==> #[trigger] self@[r][c]
                        == swap_cols_grid(g, col1 as int, col2 as int)[r][c],
                forall|r: int| row <= r < rows ==> #[trigger] self@[r] == g[r],
            decreases rows - row,
        {
            proof {
                vstd::arithmetic::div_mod::lemma_small_mod(row as nat, rows as nat);
            }
            self.swap_entries(&(row as isize, col1), &(row as isize, col2));
            proof {
                self.lemma_wf();
            }
            row += 1;
        }
        proof {
            let target = swap_cols_grid(g, col1 as int, col2 as int);
            assert forall|r: int| 0 <= r < g.len() implies #[trigger] self@[r] == target[r] by {
                assert forall|c: int| 0 <= c < n_cols(g) implies self@[r][c] == target[r][c] by {
                    assert(self@[r][c] == swap_cols_grid(g, col1 as int, col2 as int)[r][c]);
                }
                assert(self@[r] =~= target[r]);
            }
            assert(self@ =~= target);
        }
    }

    /// The number of `true` cells.
    fn popcount(&self) -> (r: u32)
        requires
            self.wf(),
            n_cells(self@) <= u32::MAX,
        ensures
            r == count_true(self@),
    {
        let ghost g = self@;
        proof {
            self.lemma_wf();
            vstd::arithmetic::mul::lemma_mul_increases(n_cols(g), g.len() as int);
            vstd::arithmetic::mul::lemma_mul_is_commutative(n_cols(g), g.len() as int);
            vstd::arithmetic::mul::lemma_mul_increases(g.len() as int, n_cols(g));
        }
        let rows = self.get_rows();
        let cols = self.get_cols();
        let mut sum: u32 = 0;
        let mut row: usize = 0;
        while row < rows
            invariant
                self.wf(),
                g == self@,
                fits_matrix(g),
                rows == g.len(),
                cols == n_cols(g),
                rows <= isize::MAX,
                cols <= isize::MAX,
                n_cells(g) <= u32::MAX,
                row <= rows,
                sum == count_true(g.take(row as int)),
                sum <= row * cols,
            decreases rows - row,
        {
            let mut col: usize = 0;
            proof {
                lemma_flat_index(rows as int, cols as int, row as int, 0);
            }
            while col < cols
                invariant
                    self.wf(),
                    g == self@,
                    fits_matrix(g),
                    rows == g.len(),
                    cols == n_cols(g),
                    rows <= isize::MAX,
                    cols <= isize::MAX,
                    n_cells(g) <= u32::MAX,
                    row < rows,
                    col <= cols,
                    row * cols + cols <= rows * cols,
                    sum == count_true(g.take(row as int)) + count_row(g[row as int].take(col as int)),
                    sum <= row * cols + col,
                decreases cols - col,
            {
                proof {
                    vstd::arithmetic::div_mod::lemma_small_mod(row as nat, rows as nat);
                    vstd::arithmetic::div_mod::lemma_small_mod(col as nat, cols as nat);
                    lemma_count_row_take(g[row as int], col as int);
                }
                if self.at(&(row as isize, col as isize)) {
                    sum = sum + 1;
                }
                col += 1;
            }
            proof {
                lemma_count_true_take(g, row as int);
                assert(g[row as int].take(cols as int) =~= g[row as int]);
                assert(sum <= (row + 1) * cols) by (nonlinear_arith)
                    requires
                        sum <= row * cols + cols,
                ;
            }
            row += 1;
        }
        proof {
            assert(g.take(rows as int) =~= g);
        }
        sum
    }

    /// The matrix's cells as a table of rows.
    fn to_table(&self) -> (r: Vec<Vec<bool>>)
        requires
            self.wf(),
        ensures
            table_grid(r@) == self@,
    {
        let ghost g = self@;
        proof {
            self.lemma_wf();
            vstd::arithmetic::mul::lemma_mul_increases(n_cols(g), g.len() as int);
            vstd::arithmetic::mul::lemma_mul_is_commutative(n_cols(g), g.len() as int);
            vstd::arithmetic::mul::lemma_mul_increases(g.len() as int, n_cols(g));
        }
        let rows = self.get_rows();
        let cols = self.get_cols();
        let mut table: Vec<Vec<bool>> = Vec::new();
        let mut row: usize = 0;
        while row < rows
            invariant
                self.wf(),
                g == self@,
                fits_matrix(g),
                rows == g.len(),
                cols == n_cols(g),
                rows <= isize::MAX,
                cols <= isize::MAX,
                row <= rows,
                table@.len() == row,
                forall|r: int| 0 <= r < row ==> #[trigger] table@[r]@ == g[r],
            decreases rows - row,
        {
            let mut line: Vec<bool> = Vec::new();
            let mut col: usize = 0;
            while col < cols
                invariant
                    self.wf(),
                    g == self@,
                    fits_matrix(g),
                    rows == g.len(),
                    cols == n_cols(g),
                    rows <= isize::MAX,
                    cols <= isize::MAX,
                    row < rows,
                    col <= cols,
                    line@ == g[row as int].take(col as int),
                decreases cols - col,
            {
                proof {
                    vstd::arithmetic::div_mod::lemma_small_mod(row as nat, rows as nat);
                    vstd::arithmetic::div_mod::lemma_small_mod(col as nat, cols as nat);
                }
                let v = self.at(&(row as isize, col as isize));
                line.push(v);
                proof {
                    assert(line@ =~= g[row as int].take(col + 1));
                }
                col += 1;
            }
            proof {
                assert(line@ =~= g[row as int]);
            }
            table.push(line);
            row += 1;
        }
        proof {
            assert(table_grid(table@) =~= g);
        }
        table
    }
}

} // verus!
