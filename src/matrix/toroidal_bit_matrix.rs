//! The packed backing: one bit per cell, row-major cells packed into unsigned words.
use crate::bits::{count_ones, ones_below, Bit, BitWise};
use crate::matrix::{
    canon, cell, count_row, count_true, flat, lemma_count_row_take, lemma_count_true_take, lemma_flat_index, lemma_flat_index_injective, n_cells, n_cols, set_cell,
    table_fits, table_grid, table_is_empty, table_is_rectangular, xor_grid, MatrixConstructError,
    MatrixOpError, ToroidalBinaryMatrix, ToroidalMatrixIndex,
};
use vstd::prelude::*;

verus! {

/// The width of `T` in bits, as an integer.
pub open spec fn word_width<T: BitWise>() -> int {
    T::width() as int
}

/// The number of words needed to hold `n` bits.
pub open spec fn words_for<T: BitWise>(n: int) -> int {
    (n + word_width::<T>() - 1) / word_width::<T>()
}

/// Flat bit `k` of a sequence of words: bit `k % width` of word `k / width`.
pub open spec fn packed_bit<T: BitWise>(s: Seq<T>, k: int) -> bool {
    s[k / word_width::<T>()].bit((k % word_width::<T>()) as nat)
}

/// The grid that a sequence of words holds for a shape, cells packed in row-major order.
pub open spec fn packed_grid<T: BitWise>(s: Seq<T>, rows: int, cols: int) -> Seq<Seq<bool>> {
    Seq::new(rows as nat, |r: int| Seq::new(cols as nat, |c: int| packed_bit(s, flat(cols, r, c))))
}

/// Every bit of the words past the first `n` is clear.
pub open spec fn padding_clear<T: BitWise>(s: Seq<T>, n: int) -> bool {
    forall|k: int| n <= k < s.len() * word_width::<T>() ==> !#[trigger] packed_bit(s, k)
}

/// Where flat bit `k` lives, and that distinct flat bits live apart.
proof fn lemma_word_index<T: BitWise>(k: int, n: int)
    requires
        0 <= k < n,
        word_width::<T>() >= 8,
    ensures
        0 <= k / word_width::<T>() < words_for::<T>(n),
        0 <= k % word_width::<T>() < word_width::<T>(),
        k == word_width::<T>() * (k / word_width::<T>()) + k % word_width::<T>(),
{
    let w = word_width::<T>();
    vstd::arithmetic::div_mod::lemma_fundamental_div_mod(k, w);
    vstd::arithmetic::div_mod::lemma_mod_pos_bound(k, w);
    vstd::arithmetic::div_mod::lemma_div_pos_is_pos(k, w);
    vstd::arithmetic::div_mod::lemma_div_is_ordered(k, n - 1, w);
    let q = (n - 1) / w;
    let r0 = (n - 1) % w;
    vstd::arithmetic::div_mod::lemma_fundamental_div_mod(n - 1, w);
    vstd::arithmetic::div_mod::lemma_mod_pos_bound(n - 1, w);
    assert(n + w - 1 == w * (q + 1) + r0) by (nonlinear_arith)
        requires
            n - 1 == w * q + r0,
    ;
    vstd::arithmetic::div_mod::lemma_fundamental_div_mod_converse_div(n + w - 1, w, q + 1, r0);
}

/// Distinct flat bits have distinct (word, bit) positions.
proof fn lemma_word_index_injective<T: BitWise>(k1: int, k2: int)
    requires
        0 <= k1,
        0 <= k2,
        word_width::<T>() >= 8,
        k1 / word_width::<T>() == k2 / word_width::<T>(),
        k1 % word_width::<T>() == k2 % word_width::<T>(),
    ensures
        k1 == k2,
{
    vstd::arithmetic::div_mod::lemma_fundamental_div_mod(k1, word_width::<T>());
    vstd::arithmetic::div_mod::lemma_fundamental_div_mod(k2, word_width::<T>());
}

/// A flat bit below `len * width` lies in one of the first `len` words.
proof fn lemma_word_of_bit<T: BitWise>(j: int, len: int)
    requires
        0 <= j < len * word_width::<T>(),
        word_width::<T>() >= 8,
    ensures
        0 <= j / word_width::<T>() < len,
        0 <= j % word_width::<T>() < word_width::<T>(),
{
    let w = word_width::<T>();
    vstd::arithmetic::div_mod::lemma_mod_pos_bound(j, w);
    vstd::arithmetic::div_mod::lemma_div_pos_is_pos(j, w);
    vstd::arithmetic::div_mod::lemma_fundamental_div_mod(j, w);
    if j / w >= len {
        assert(false) by (nonlinear_arith)
            requires
                j / w >= len,
                j == w * (j / w) + j % w,
                j % w >= 0,
                j < len * w,
                w > 0,
        ;
    }
}

/// More bits than `len` words hold need more than `len` words.
proof fn lemma_too_many_bits<T: BitWise>(n: int, len: int)
    requires
        word_width::<T>() >= 8,
        0 <= len,
        n > len * word_width::<T>(),
    ensures
        words_for::<T>(n) > len,
{
    let w = word_width::<T>();
    assert(n + w - 1 >= (len + 1) * w) by (nonlinear_arith)
        requires
            n > len * w,
    ;
    vstd::arithmetic::div_mod::lemma_div_is_ordered((len + 1) * w, n + w - 1, w);
    vstd::arithmetic::div_mod::lemma_div_multiples_vanish(len + 1, w);
}

/// The flat bit of a cell lies within the words that hold the cells.
proof fn lemma_cell_bit<T: BitWise>(rows: int, cols: int, r: int, c: int)
    requires
        0 <= r < rows,
        0 <= c < cols,
        word_width::<T>() >= 8,
    ensures
        0 <= flat(cols, r, c) < rows * cols,
        0 <= flat(cols, r, c) / word_width::<T>() < words_for::<T>(rows * cols),
        0 <= flat(cols, r, c) % word_width::<T>() < word_width::<T>(),
        flat(cols, r, c) < words_for::<T>(rows * cols) * word_width::<T>(),
{
    let w = word_width::<T>();
    let k = flat(cols, r, c);
    lemma_flat_index(rows, cols, r, c);
    lemma_word_index::<T>(k, rows * cols);
    assert(k < words_for::<T>(rows * cols) * w) by (nonlinear_arith)
        requires
            k == w * (k / w) + k % w,
            k / w < words_for::<T>(rows * cols),
            k % w < w,
    ;
}

/// The number of set flat bits below `k`.
pub open spec fn flat_count<T: BitWise>(s: Seq<T>, k: int) -> nat
    decreases k,
{
    if k <= 0 {
        0
    } else {
        flat_count(s, k - 1) + if packed_bit(s, k - 1) {
            1nat
        } else {
            0nat
        }
    }
}

/// At most `k` flat bits below `k` are set.
proof fn lemma_flat_count_bound<T: BitWise>(s: Seq<T>, k: int)
    requires
        0 <= k,
    ensures
        flat_count(s, k) <= k,
    decreases k,
{
    if k > 0 {
        lemma_flat_count_bound(s, k - 1);
    }
}

/// Counting through word `i` adds that word's set bits.
proof fn lemma_flat_count_word<T: BitWise>(s: Seq<T>, i: int, j: int)
    requires
        0 <= i < s.len(),
        0 <= j <= word_width::<T>(),
        word_width::<T>() >= 8,
    ensures
        flat_count(s, i * word_width::<T>() + j) == flat_count(s, i * word_width::<T>())
            + ones_below(s[i], j as nat),
    decreases j,
{
    let w = word_width::<T>();
    if j > 0 {
        lemma_flat_count_word(s, i, j - 1);
        assert(0 <= i * w) by (nonlinear_arith)
            requires
                0 <= i,
                w >= 8,
        ;
        vstd::arithmetic::div_mod::lemma_fundamental_div_mod_converse(i * w + j - 1, w, i, j - 1);
    }
}

/// Clear padding bits add nothing to the count.
proof fn lemma_flat_count_padding<T: BitWise>(s: Seq<T>, n: int, k: int)
    requires
        0 <= n <= k <= s.len() * word_width::<T>(),
        padding_clear(s, n),
    ensures
        flat_count(s, k) == flat_count(s, n),
    decreases k - n,
{
    if k > n {
        lemma_flat_count_padding(s, n, k - 1);
        assert(!packed_bit(s, k - 1));
    }
}

/// The set cells of the first `r` rows are the set flat bits below `r * cols`.
proof fn lemma_flat_count_rows<T: BitWise>(s: Seq<T>, rows: int, cols: int, r: int)
    requires
        0 <= r <= rows,
        0 < cols,
    ensures
        count_true(packed_grid(s, rows, cols).take(r)) == flat_count(s, r * cols),
    decreases r,
{
    let g = packed_grid(s, rows, cols);
    if r == 0 {
        assert(g.take(0) =~= Seq::<Seq<bool>>::empty());
    } else {
        lemma_flat_count_rows(s, rows, cols, r - 1);
        lemma_count_true_take(g, r - 1);
        let base = (r - 1) * cols;
        assert forall|c: int| 0 <= c <= cols implies count_row(#[trigger] g[r - 1].take(c))
            + flat_count(s, base) == flat_count(s, base + c) by {
            lemma_flat_count_cols(s, rows, cols, r - 1, c);
        }
        assert(g[r - 1].take(cols) =~= g[r - 1]);
        assert(base + cols == r * cols) by (nonlinear_arith)
            requires
                base == (r - 1) * cols,
        ;
    }
}

/// The set cells of row `r` before column `c` are the set flat bits from `r * cols` to
/// `r * cols + c`.
proof fn lemma_flat_count_cols<T: BitWise>(s: Seq<T>, rows: int, cols: int, r: int, c: int)
    requires
        0 <= r < rows,
        0 <= c <= cols,
    ensures
        count_row(packed_grid(s, rows, cols)[r].take(c)) + flat_count(s, r * cols) == flat_count(
            s,
            r * cols + c,
        ),
    decreases c,
{
    let row = packed_grid(s, rows, cols)[r];
    if c == 0 {
        assert(row.take(0) =~= Seq::<bool>::empty());
    } else {
        lemma_flat_count_cols(s, rows, cols, r, c - 1);
        lemma_count_row_take(row, c - 1);
    }
}

/// A toroidal binary matrix backed by a `Vec<T>` of unsigned words: cell `(r, c)` is flat bit
/// `r * cols + c`, that is bit `k % width` of word `k / width`. Bits past the last cell are
/// kept clear.
#[derive(Debug, Clone)]
pub struct ToroidalBitMatrix<T: BitWise> {
    rows: usize,
    cols: usize,
    storage: Vec<T>,
}

impl<T: BitWise> View for ToroidalBitMatrix<T> {
    type V = Seq<Seq<bool>>;

    closed spec fn view(&self) -> Seq<Seq<bool>> {
        packed_grid(self.storage@, self.rows as int, self.cols as int)
    }
}

impl<T: BitWise> ToroidalBitMatrix<T> {
    /// The storage backing the matrix.
    pub fn get_storage(&self) -> (r: &Vec<T>)
        requires
            self.wf(),
        ensures
            r@.len() == words_for::<T>(n_cells(self@)),
            packed_grid(r@, self@.len() as int, n_cols(self@)) == self@,
            padding_clear(r@, n_cells(self@)),
    {
        &self.storage
    }

    /// Builds a matrix of `rows` rows and `cols` columns from packed words, cell `(r, c)`
    /// being flat bit `r * cols + c`. The words must be exactly as many as the cells need;
    /// bits past the last cell are cleared.
    pub fn from_storage(rows: usize, cols: usize, storage: Vec<T>) -> (r: Result<
        Self,
        MatrixConstructError,
    >)
        requires
            storage@.len() * word_width::<T>() <= isize::MAX,
        ensures
            r is Ok <==> rows > 0 && cols > 0 && storage@.len() > 0 && words_for::<T>(rows * cols)
                == storage@.len(),
            r matches Ok(m) ==> m.wf() && m@ == packed_grid(storage@, rows as int, cols as int),
            r == Err::<Self, _>(MatrixConstructError::EmptyTable()) <==> rows == 0 || cols == 0
                || storage@.len() == 0,
            r == Err::<Self, _>(MatrixConstructError::InvalidStorage()) <==> rows > 0 && cols > 0
                && storage@.len() > 0 && words_for::<T>(rows * cols) != storage@.len(),
    {
        if rows == 0 || cols == 0 || storage.len() == 0 {
            return Err(MatrixConstructError::EmptyTable());
        }
        let bits_per_t = T::n_bits() as usize;
        let ghost w = word_width::<T>();
        let ghost len = storage@.len() as int;
        let n_bits_in_storage = storage.len() * bits_per_t;
        proof {
            if rows * cols > len * w {
                lemma_too_many_bits::<T>(rows * cols, len);
            }
        }
        let n_bits = match rows.checked_mul(cols) {
            Some(n) => n,
            None => {
                proof {
                    assert(rows * cols > len * w);
                }
                return Err(MatrixConstructError::InvalidStorage());
            },
        };
        if n_bits > n_bits_in_storage {
            return Err(MatrixConstructError::InvalidStorage());
        }
        if (n_bits + bits_per_t - 1) / bits_per_t != storage.len() {
            return Err(MatrixConstructError::InvalidStorage());
        }
        let ghost given = storage@;
        let mut storage = storage;
        let mut k: usize = n_bits;
        while k < n_bits_in_storage
            invariant
                n_bits <= k <= n_bits_in_storage,
                n_bits_in_storage == len * w,
                storage@.len() == len,
                w == word_width::<T>(),
                bits_per_t == w,
                8 <= w <= 128,
                forall|j: int| 0 <= j < n_bits ==> #[trigger] packed_bit(storage@, j) == packed_bit(
                    given,
                    j,
                ),
                forall|j: int| n_bits <= j < k ==> !#[trigger] packed_bit(storage@, j),
            decreases n_bits_in_storage - k,
        {
            proof {
                lemma_word_of_bit::<T>(k as int, len);
            }
            let element_idx = k / bits_per_t;
            let bit_idx = k % bits_per_t;
            let ghost before = storage@;
            let mut element = storage[element_idx];
            element.set_bit_unchecked(bit_idx, Bit::ZERO);
            storage.set(element_idx, element);
            proof {
                assert forall|j: int| 0 <= j < len * w && j != k implies packed_bit(storage@, j)
                    == packed_bit(before, j) by {
                    lemma_word_of_bit::<T>(j, len);
                    if j / w == element_idx as int && j % w == bit_idx as int {
                        lemma_word_index_injective::<T>(j, k as int);
                    }
                }
                assert forall|j: int| 0 <= j < n_bits implies #[trigger] packed_bit(storage@, j)
                    == packed_bit(given, j) by {
                    assert(packed_bit(storage@, j) == packed_bit(before, j));
                }
                assert forall|j: int| n_bits <= j < k + 1 implies !#[trigger] packed_bit(
                    storage@,
                    j,
                ) by {
                    if j < k {
                        assert(packed_bit(storage@, j) == packed_bit(before, j));
                    }
                }
            }
            k += 1;
        }
        let m = ToroidalBitMatrix { rows, cols, storage };
        proof {
            let target = packed_grid(given, rows as int, cols as int);
            assert forall|rr: int| 0 <= rr < rows implies #[trigger] m@[rr] == target[rr] by {
                assert forall|cc: int| 0 <= cc < cols implies m@[rr][cc] == target[rr][cc] by {
                    lemma_flat_index(rows as int, cols as int, rr, cc);
                }
                assert(m@[rr] =~= target[rr]);
            }
            assert(m@ =~= target);
        }
        Ok(m)
    }

    /// The word index and the bit index within it of the cell at canonical position
    /// `(row, col)`.
    fn get_element_bit_index_from_canon_index(&self, index: (usize, usize)) -> (r: (usize, usize))
        requires
            self.wf(),
            index.0 < self.rows,
            index.1 < self.cols,
        ensures
            r.0 == flat(self.cols as int, index.0 as int, index.1 as int) / word_width::<T>(),
            r.1 == flat(self.cols as int, index.0 as int, index.1 as int) % word_width::<T>(),
            r.0 < self.storage@.len(),
            r.1 < T::width(),
    {
        let (bit_row, bit_col) = index;
        proof {
            lemma_flat_index(self.rows as int, self.cols as int, bit_row as int, bit_col as int);
            lemma_word_index::<T>(
                flat(self.cols as int, bit_row as int, bit_col as int),
                self.rows * self.cols,
            );
        }
        let flat_bit_idx = self.cols * bit_row + bit_col;
        let bits_per_t = T::n_bits() as usize;
        let element_idx = flat_bit_idx / bits_per_t;
        let bit_idx = flat_bit_idx % bits_per_t;
        (element_idx, bit_idx)
    }
}

impl<T: BitWise> ToroidalBinaryMatrix for ToroidalBitMatrix<T> {
    closed spec fn wf(&self) -> bool {
        &&& self.rows > 0
        &&& self.cols > 0
        &&& self.rows * self.cols <= isize::MAX
        &&& 8 <= word_width::<T>() <= 128
        &&& self.storage@.len() == words_for::<T>(self.rows * self.cols)
        &&& padding_clear(self.storage@, self.rows * self.cols)
    }

    proof fn lemma_wf(&self) {
        lemma_flat_index(self.rows as int, self.cols as int, 0, 0);
    }

    fn new(table: Vec<Vec<bool>>) -> (r: Result<Self, MatrixConstructError>) {
        let rows = table.len();
        if rows == 0 {
            return Err(MatrixConstructError::EmptyTable());
        }
        let mut i: usize = 0;
        while i < rows
            invariant
                rows == table@.len(),
                i <= rows,
                forall|j: int| 0 <= j < i ==> table@[j]@.len() > 0,
            decreases rows - i,
        {
            if table[i].len() == 0 {
                return Err(MatrixConstructError::EmptyTable());
            }
            i += 1;
        }
        let cols = table[0].len();
        let mut i: usize = 0;
        while i < rows
            invariant
                rows == table@.len(),
                cols == table@[0]@.len(),
                i <= rows,
                !table_is_empty(table@),
                forall|j: int| 0 <= j < i ==> table@[j]@.len() == cols,
            decreases rows - i,
        {
            if table[i].len() != cols {
                return Err(MatrixConstructError::RaggedTable());
            }
            i += 1;
        }
        assert(rows * cols <= isize::MAX) by {
            assert(table_fits(table@));
            assert(table@.len() * table@[0]@.len() <= isize::MAX);
        }
        let n_bits = rows * cols;
        let n_bits_per_entry = T::n_bits() as usize;
        let n_storage_entries = (n_bits + n_bits_per_entry - 1) / n_bits_per_entry;
        let mut storage: Vec<T> = Vec::new();
        let mut i: usize = 0;
        while i < n_storage_entries
            invariant
                i <= n_storage_entries,
                storage@.len() == i,
                forall|j: int, b: nat| 0 <= j < i && b < T::width() ==> !#[trigger] storage@[j].bit(b),
            decreases n_storage_entries - i,
        {
            storage.push(T::zero());
            i += 1;
        }
        let mut result = ToroidalBitMatrix { rows, cols, storage };
        proof {
            let w = word_width::<T>();
            assert forall|k: int| 0 <= k < result.storage@.len() * w implies !#[trigger] packed_bit(
                result.storage@,
                k,
            ) by {
                vstd::arithmetic::div_mod::lemma_mod_pos_bound(k, w);
                vstd::arithmetic::div_mod::lemma_div_pos_is_pos(k, w);
                vstd::arithmetic::div_mod::lemma_div_is_ordered(k, result.storage@.len() * w - 1, w);
                vstd::arithmetic::div_mod::lemma_div_multiples_vanish(result.storage@.len() as int, w);
                if k / w >= result.storage@.len() {
                    vstd::arithmetic::div_mod::lemma_fundamental_div_mod(k, w);
                    vstd::arithmetic::div_mod::lemma_fundamental_div_mod(result.storage@.len() * w - 1, w);
                    assert(false) by (nonlinear_arith)
                        requires
                            k / w >= result.storage@.len(),
                            k == w * (k / w) + k % w,
                            k % w >= 0,
                            k < result.storage@.len() * w,
                            w > 0,
                    ;
                }
            }
        }
        proof {
            vstd::arithmetic::mul::lemma_mul_increases(cols as int, rows as int);
            vstd::arithmetic::mul::lemma_mul_increases(rows as int, cols as int);
            assert forall|rr: int, cc: int|
                0 <= rr < rows && 0 <= cc < cols implies !#[trigger] result@[rr][cc] by {
                lemma_cell_bit::<T>(rows as int, cols as int, rr, cc);
            }
        }
        let mut r: usize = 0;
        while r < rows
            invariant
                result.wf(),
                result@.len() == rows,
                n_cols(result@) == cols,
                rows == table@.len(),
                cols == table@[0]@.len(),
                r <= rows,
                rows * cols <= isize::MAX,
                rows <= isize::MAX,
                cols <= isize::MAX,
                table_is_rectangular(table@),
                forall|rr: int, cc: int|
                    0 <= rr < rows && 0 <= cc < cols ==> #[trigger] result@[rr][cc] == (rr < r
                        && table@[rr]@[cc]),
            decreases rows - r,
        {
            let mut c: usize = 0;
            while c < cols
                invariant
                    result.wf(),
                    result@.len() == rows,
                    n_cols(result@) == cols,
                    rows == table@.len(),
                    cols == table@[0]@.len(),
                    r < rows,
                    c <= cols,
                    rows * cols <= isize::MAX,
                    rows <= isize::MAX,
                    cols <= isize::MAX,
                    table_is_rectangular(table@),
                    forall|rr: int, cc: int|
                        0 <= rr < rows && 0 <= cc < cols ==> #[trigger] result@[rr][cc] == ((rr < r
                            || (rr == r && cc < c)) && table@[rr]@[cc]),
                decreases cols - c,
            {
                proof {
                    lemma_flat_index(rows as int, cols as int, r as int, c as int);
                    vstd::arithmetic::div_mod::lemma_small_mod(r as nat, rows as nat);
                    vstd::arithmetic::div_mod::lemma_small_mod(c as nat, cols as nat);
                    assert(table@[r as int]@.len() == cols);
                    assert(canon(r as int, rows as int) == r);
                    assert(canon(c as int, cols as int) == c);
                    result.lemma_wf();
                }
                let ghost before = result@;
                result.set(&(r as isize, c as isize), table[r][c]);
                proof {
                    assert forall|rr: int, cc: int|
                        0 <= rr < rows && 0 <= cc < cols implies #[trigger] result@[rr][cc] == ((rr
                        < r || (rr == r && cc < c + 1)) && table@[rr]@[cc]) by {
                        assert(before[rr][cc] == ((rr < r || (rr == r && cc < c)) && table@[rr]@[cc]));
                        result.lemma_wf();
                    }
                }
                c += 1;
            }
            r += 1;
        }
        proof {
            let target = table_grid(table@);
            assert forall|rr: int| 0 <= rr < rows implies #[trigger] result@[rr] == target[rr] by {
                assert forall|cc: int| 0 <= cc < cols implies result@[rr][cc] == target[rr][cc] by {
                    assert(result@[rr][cc] == ((rr < r) && table@[rr]@[cc]));
                }
                assert(result@[rr] =~= target[rr]);
            }
            assert(result@ =~= target);
        }
        Ok(result)
    }

    fn get_rows(&self) -> (r: usize) {
        self.rows
    }

    fn get_cols(&self) -> (r: usize) {
        self.cols
    }

    fn at(&self, idx: &ToroidalMatrixIndex) -> (r: bool) {
        let (row, col) = self.canonize_index(*idx);
        let (element_idx, bit_idx) = self.get_element_bit_index_from_canon_index((row, col));
        let element = self.storage[element_idx];
        element.get_bit_unchecked(bit_idx).is_set()
    }

    fn set(&mut self, idx: &ToroidalMatrixIndex, value: bool) -> (r: bool) {
        let (row, col) = self.canonize_index(*idx);
        let (element_idx, bit_idx) = self.get_element_bit_index_from_canon_index((row, col));
        let ghost before = *self;
        let ghost k = flat(self.cols as int, row as int, col as int);
        let mut element = self.storage[element_idx];
        let prior = element.set_bit_unchecked(bit_idx, Bit::from_bool(value));
        self.storage.set(element_idx, element);
        proof {
            let w = word_width::<T>();
            lemma_flat_index(self.rows as int, self.cols as int, row as int, col as int);
            assert forall|j: int| 0 <= j < self.storage@.len() * w && j != k implies packed_bit(
                self.storage@,
                j,
            ) == packed_bit(before.storage@, j) by {
                lemma_word_of_bit::<T>(j, self.storage@.len() as int);
                if j / w == element_idx as int && j % w == bit_idx as int {
                    lemma_word_index_injective::<T>(j, k);
                }
            }
            assert forall|kk: int|
                self.rows * self.cols <= kk < self.storage@.len() * w implies !#[trigger] packed_bit(
                self.storage@,
                kk,
            ) by {
                assert(packed_bit(before.storage@, kk) == packed_bit(self.storage@, kk));
            }
            let target = set_cell(before@, idx.0 as int, idx.1 as int, value);
            assert forall|rr: int| 0 <= rr < self.rows implies #[trigger] self@[rr] == target[rr] by {
                assert forall|cc: int| 0 <= cc < self.cols implies self@[rr][cc] == target[rr][cc] by {
                    lemma_cell_bit::<T>(self.rows as int, self.cols as int, rr, cc);
                    if flat(self.cols as int, rr, cc) == k {
                        lemma_flat_index_injective(
                            self.cols as int,
                            rr,
                            cc,
                            row as int,
                            col as int,
                        );
                    }
                }
                assert(self@[rr] =~= target[rr]);
            }
            assert(self@ =~= target);
        }
        prior.is_set()
    }

    fn popcount(&self) -> (r: u32) {
        let ghost s = self.storage@;
        let ghost w = word_width::<T>();
        let n = self.storage.len();
        proof {
            let k = self.rows * self.cols;
            vstd::arithmetic::div_mod::lemma_fundamental_div_mod(k + w - 1, w);
            vstd::arithmetic::div_mod::lemma_mod_pos_bound(k + w - 1, w);
            vstd::arithmetic::mul::lemma_mul_is_commutative(n as int, w);
        }
        let mut sum: u64 = 0;
        let mut i: usize = 0;
        while i < n
            invariant
                s == self.storage@,
                n == s.len(),
                w == word_width::<T>(),
                8 <= w <= 128,
                n * w <= isize::MAX + 128,
                i <= n,
                sum == flat_count(s, i * w),
            decreases n - i,
        {
            proof {
                lemma_flat_count_word(s, i as int, w);
                assert(i * w + w == (i + 1) * w) by (nonlinear_arith);
                assert((i + 1) * w <= n * w) by (nonlinear_arith)
                    requires
                        i < n,
                        w > 0,
                ;
                lemma_flat_count_bound(s, (i + 1) * w);
            }
            sum = sum + count_ones(self.storage[i]) as u64;
            i += 1;
        }
        proof {
            let k = self.rows * self.cols;
            vstd::arithmetic::div_mod::lemma_fundamental_div_mod(k + w - 1, w);
            vstd::arithmetic::div_mod::lemma_mod_pos_bound(k + w - 1, w);
            vstd::arithmetic::mul::lemma_mul_is_commutative(n as int, w);
            assert(k <= n * w);
            lemma_flat_count_padding(s, k, n * w);
            lemma_flat_count_rows(s, self.rows as int, self.cols as int, self.rows as int);
            assert(self@.take(self.rows as int) =~= self@);
            lemma_flat_count_bound(s, k);
            assert(sum == count_true(self@));
            assert(sum <= u32::MAX);
        }
        sum as u32
    }

    fn bitwise_xor(&mut self, other: &Self) -> (r: Result<(), MatrixOpError>) {
        if self.get_cols() != other.get_cols() || self.get_rows() != other.get_rows() {
            return Err(MatrixOpError::DifferentShapes());
        }
        let ghost before = *self;
        let n = self.storage.len();
        let mut i: usize = 0;
        while i < n
            invariant
                n == self.storage@.len(),
                n == other.storage@.len(),
                n == before.storage@.len(),
                i <= n,
                self.rows == before.rows,
                self.cols == before.cols,
                forall|j: int, b: nat|
                    0 <= j < i && b < T::width() ==> #[trigger] self.storage@[j].bit(b) == (
                    before.storage@[j].bit(b) != other.storage@[j].bit(b)),
                forall|j: int| i <= j < n ==> self.storage@[j] == before.storage@[j],
            decreases n - i,
        {
            let v = self.storage[i].xor(other.storage[i]);
            self.storage.set(i, v);
            i += 1;
        }
        proof {
            let w = word_width::<T>();
            assert forall|k: int| 0 <= k < n * w implies #[trigger] packed_bit(self.storage@, k) == (
            packed_bit(before.storage@, k) != packed_bit(other.storage@, k)) by {
                vstd::arithmetic::div_mod::lemma_mod_pos_bound(k, w);
                vstd::arithmetic::div_mod::lemma_div_pos_is_pos(k, w);
                vstd::arithmetic::div_mod::lemma_fundamental_div_mod(k, w);
                if k / w >= n {
                    assert(false) by (nonlinear_arith)
                        requires
                            k / w >= n,
                            k == w * (k / w) + k % w,
                            k % w >= 0,
                            k < n * w,
                            w > 0,
                    ;
                }
            }
            let target = xor_grid(before@, other@);
            assert forall|rr: int| 0 <= rr < self.rows implies #[trigger] self@[rr] == target[rr] by {
                assert forall|cc: int| 0 <= cc < self.cols implies self@[rr][cc] == target[rr][cc] by {
                    lemma_flat_index(self.rows as int, self.cols as int, rr, cc);
                    lemma_word_index::<T>(flat(self.cols as int, rr, cc), self.rows * self.cols);
                    assert(flat(self.cols as int, rr, cc) < n * w) by (nonlinear_arith)
                        requires
                            flat(self.cols as int, rr, cc) == w * (flat(self.cols as int, rr, cc) / w)
                                + flat(self.cols as int, rr, cc) % w,
                            flat(self.cols as int, rr, cc) / w < n,
                            flat(self.cols as int, rr, cc) % w < w,
                    ;
                }
                assert(self@[rr] =~= target[rr]);
            }
            assert(self@ =~= target);
        }
        Ok(())
    }
}

} // verus!
