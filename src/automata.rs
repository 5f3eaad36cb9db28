//! A binary cellular automaton on a torus, driven by a symmetric Moore-neighbourhood rule.
use crate::matrix::{cell, count_true, n_cols, same_shape, set_cell, table_fits, table_grid,
    table_is_empty, table_is_rectangular, ToroidalBinaryMatrix, ToroidalMatrixIndex,
};
use vstd::prelude::*;

verus! {

/// How an automaton moves from one generation to the next. The rule is symmetric: it depends
/// only on the number (0 to 8) of alive Moore neighbours of a cell.
#[derive(Debug, Clone, Copy)]
pub struct AutomatonRule {
    /// `born[k]`: a dead cell with `k` alive neighbours becomes alive.
    pub born: [bool; 9],
    /// `dies[k]`: a living cell with `k` alive neighbours dies.
    pub dies: [bool; 9],
}

/// One for `true`, zero for `false`.
pub open spec fn b2n(b: bool) -> nat {
    if b {
        1
    } else {
        0
    }
}

/// The number of alive cells among the eight toroidal Moore neighbours of `(r, c)`. On a grid
/// one row high or one column wide, some of these positions are the cell itself.
pub open spec fn alive_count(g: Seq<Seq<bool>>, r: int, c: int) -> nat {
    b2n(cell(g, r - 1, c - 1)) + b2n(cell(g, r - 1, c)) + b2n(cell(g, r - 1, c + 1)) + b2n(
        cell(g, r, c - 1),
    ) + b2n(cell(g, r, c + 1)) + b2n(cell(g, r + 1, c - 1)) + b2n(cell(g, r + 1, c)) + b2n(
        cell(g, r + 1, c + 1),
    )
}

/// The next state of cell `(r, c)`.
pub open spec fn next_cell(rule: AutomatonRule, g: Seq<Seq<bool>>, r: int, c: int) -> bool {
    let n = alive_count(g, r, c) as int;
    if cell(g, r, c) {
        !rule.dies@[n]
    } else {
        rule.born@[n]
    }
}

/// One generation: every cell moves to its next state at once.
pub open spec fn step(rule: AutomatonRule, g: Seq<Seq<bool>>) -> Seq<Seq<bool>> {
    Seq::new(g.len(), |r: int| Seq::new(n_cols(g) as nat, |c: int| next_cell(rule, g, r, c)))
}

/// The grid after `n` generations.
pub open spec fn iterate(rule: AutomatonRule, g: Seq<Seq<bool>>, n: nat) -> Seq<Seq<bool>>
    decreases n,
{
    if n == 0 {
        g
    } else {
        step(rule, iterate(rule, g, (n - 1) as nat))
    }
}

/// Running `a` generations and then `b` more is running `a + b` generations.
pub proof fn lemma_iterate_compose(rule: AutomatonRule, g: Seq<Seq<bool>>, a: nat, b: nat)
    ensures
        iterate(rule, iterate(rule, g, a), b) == iterate(rule, g, a + b),
    decreases b,
{
    if b > 0 {
        lemma_iterate_compose(rule, g, a, (b - 1) as nat);
    }
}

/// A generation keeps the grid's shape.
pub proof fn lemma_iterate_shape(rule: AutomatonRule, g: Seq<Seq<bool>>, n: nat)
    requires
        crate::matrix::fits_matrix(g),
    ensures
        crate::matrix::fits_matrix(iterate(rule, g, n)),
        same_shape(iterate(rule, g, n), g),
    decreases n,
{
    if n > 0 {
        lemma_iterate_shape(rule, g, (n - 1) as nat);
    }
}

/// Automata over different backings that start from the same grid under the same rule
/// agree after the same number of generations: every cell, and so the count of alive
/// cells, is the same. `a1` and `b1` are `a0` and `b0` after `iter_rule(n)`.
pub proof fn lemma_backings_agree<A: ToroidalBinaryMatrix, B: ToroidalBinaryMatrix>(
    a0: Automaton<A>,
    a1: Automaton<A>,
    b0: Automaton<B>,
    b1: Automaton<B>,
    n: nat,
)
    requires
        a0.current() == b0.current(),
        a0.rule() == b0.rule(),
        a1.current() == iterate(a0.rule(), a0.current(), n),
        b1.current() == iterate(b0.rule(), b0.current(), n),
    ensures
        a1.current() == b1.current(),
        forall|r: int, c: int| cell(a1.current(), r, c) == cell(b1.current(), r, c),
        count_true(a1.current()) == count_true(b1.current()),
{
}

/// The character that stands for a cell's state in text: `#` alive, `.` dead.
pub open spec fn state_char(alive: bool) -> char {
    if alive {
        '#'
    } else {
        '.'
    }
}

/// A binary cellular automaton on a torus, holding its state in a `T` matrix. A second
/// matrix of the same shape serves as scratch space for computing each generation.
#[derive(Debug)]
pub struct Automaton<T: ToroidalBinaryMatrix> {
    rule: AutomatonRule,
    state: T,
    state_copy: T,
}

impl<T: ToroidalBinaryMatrix> Automaton<T> {
    /// The automaton's invariant.
    pub closed spec fn wf(&self) -> bool {
        &&& self.state.wf()
        &&& self.state_copy.wf()
        &&& same_shape(self.state@, self.state_copy@)
    }

    /// The rule the automaton follows.
    pub closed spec fn rule(&self) -> AutomatonRule {
        self.rule
    }

    /// The automaton's current state.
    pub closed spec fn current(&self) -> Seq<Seq<bool>> {
        self.state@
    }

    /// Proves that a well-formed automaton's state is a grid that fits a matrix.
    pub proof fn lemma_wf(&self)
        requires
            self.wf(),
        ensures
            crate::matrix::fits_matrix(self.current()),
    {
        self.state.lemma_wf();
    }

    /// Creates an automaton with initial state `state` following `rule`.
    pub fn new(state: T, rule: AutomatonRule) -> (r: Self)
        requires
            state.wf(),
        ensures
            r.wf(),
            r.current() == state@,
            r.rule() == rule,
    {
        let table = state.to_table();
        proof {
            state.lemma_wf();
            let g = state@;
            assert(table_grid(table@) == g);
            assert(table@.len() == g.len());
            assert forall|i: int| 0 <= i < table@.len() implies #[trigger] table@[i]@ == g[i] by {
                assert(table_grid(table@)[i] == table@[i]@);
            }
            assert(!table_is_empty(table@));
            assert(table_is_rectangular(table@));
            assert(table_fits(table@));
        }
        let scratch = T::new(table).unwrap();
        proof {
            state.lemma_wf();
            scratch.lemma_wf();
        }
        Automaton { rule, state, state_copy: scratch }
    }

    /// Counts the alive Moore neighbours of the cell at `idx`. Where the grid is one row high
    /// or one column wide, the cell itself is among the positions counted.
    pub fn alive_neighbors(&self, idx: ToroidalMatrixIndex) -> (r: u32)
        requires
            self.wf(),
            isize::MIN < idx.0 < isize::MAX,
            isize::MIN < idx.1 < isize::MAX,
        ensures
            r == alive_count(self.current(), idx.0 as int, idx.1 as int),
            r <= 8,
    {
        let (row, col) = idx;
        let mut sum_neighbors: u32 = 0;
        if self.state.at(&(row - 1, col - 1)) {
            sum_neighbors += 1;
        }
        if self.state.at(&(row - 1, col)) {
            sum_neighbors += 1;
        }
        if self.state.at(&(row - 1, col + 1)) {
            sum_neighbors += 1;
        }
        if self.state.at(&(row, col - 1)) {
            sum_neighbors += 1;
        }
        if self.state.at(&(row, col + 1)) {
            sum_neighbors += 1;
        }
        if self.state.at(&(row + 1, col - 1)) {
            sum_neighbors += 1;
        }
        if self.state.at(&(row + 1, col)) {
            sum_neighbors += 1;
        }
        if self.state.at(&(row + 1, col + 1)) {
            sum_neighbors += 1;
        }
        sum_neighbors
    }

    /// Advances the automaton `iterations` generations.
    pub fn iter_rule(&mut self, iterations: u32)
        requires
            old(self).wf(),
        ensures
            final(self).wf(),
            final(self).rule() == old(self).rule(),
            final(self).current() == iterate(old(self).rule(), old(self).current(), iterations as nat),
    {
        let ghost g0 = self.state@;
        proof {
            self.state.lemma_wf();
            vstd::arithmetic::mul::lemma_mul_increases(n_cols(g0), g0.len() as int);
            vstd::arithmetic::mul::lemma_mul_is_commutative(n_cols(g0), g0.len() as int);
            vstd::arithmetic::mul::lemma_mul_increases(g0.len() as int, n_cols(g0));
        }
        let rows = self.state.get_rows();
        let cols = self.state.get_cols();
        let mut it: u32 = 0;
        while it < iterations
            invariant
                self.wf(),
                self.rule == old(self).rule,
                it <= iterations,
                rows == g0.len(),
                cols == n_cols(g0),
                rows <= isize::MAX,
                cols <= isize::MAX,
                self.state@ == iterate(self.rule, g0, it as nat),
                same_shape(self.state@, g0),
            decreases iterations - it,
        {
            let ghost g = self.state@;
            let ghost next = step(self.rule, g);
            let mut row: usize = 0;
            while row < rows
                invariant
                    self.wf(),
                    self.rule == old(self).rule,
                    self.state@ == g,
                    rows == g.len(),
                    cols == n_cols(g),
                    rows <= isize::MAX,
                    cols <= isize::MAX,
                    next == step(self.rule, g),
                    row <= rows,
                    forall|r: int, c: int|
                        0 <= r < row && 0 <= c < cols ==> #[trigger] self.state_copy@[r][c]
                            == next[r][c],
                decreases rows - row,
            {
                let mut col: usize = 0;
                while col < cols
                    invariant
                        self.wf(),
                        self.rule == old(self).rule,
                        self.state@ == g,
                        rows == g.len(),
                        cols == n_cols(g),
                        rows <= isize::MAX,
                        cols <= isize::MAX,
                        next == step(self.rule, g),
                        row < rows,
                        col <= cols,
                        forall|r: int, c: int|
                            0 <= r < row && 0 <= c < cols ==> #[trigger] self.state_copy@[r][c]
                                == next[r][c],
                        forall|c: int|
                            0 <= c < col ==> #[trigger] self.state_copy@[row as int][c]
                                == next[row as int][c],
                    decreases cols - col,
                {
                    let idx = (row as isize, col as isize);
                    let n_alive_neighbors = self.alive_neighbors(idx);
                    let ghost before = self.state_copy@;
                    proof {
                        self.state.lemma_wf();
                        self.state_copy.lemma_wf();
                        vstd::arithmetic::div_mod::lemma_small_mod(row as nat, rows as nat);
                        vstd::arithmetic::div_mod::lemma_small_mod(col as nat, cols as nat);
                        assert(next[row as int][col as int] == next_cell(
                            self.rule,
                            g,
                            row as int,
                            col as int,
                        ));
                    }
                    proof {
                        crate::matrix::lemma_set_cell_shape(
                            self.state_copy@,
                            row as int,
                            col as int,
                            next[row as int][col as int],
                        );
                    }
                    if self.state.at(&idx) {
                        self.state_copy.set(&idx, !self.rule.dies[n_alive_neighbors as usize]);
                    } else {
                        self.state_copy.set(&idx, self.rule.born[n_alive_neighbors as usize]);
                    }
                    proof {
                        self.state_copy.lemma_wf();
                        assert forall|r: int, c: int|
                            0 <= r < row && 0 <= c < cols implies #[trigger] self.state_copy@[r][c]
                            == next[r][c] by {
                            assert(before[r][c] == next[r][c]);
                        }
                        assert forall|c: int|
                            0 <= c < col + 1 implies #[trigger] self.state_copy@[row as int][c]
                            == next[row as int][c] by {
                            if c < col {
                                assert(before[row as int][c] == next[row as int][c]);
                            }
                        }
                    }
                    col += 1;
                }
                row += 1;
            }
            core::mem::swap(&mut self.state, &mut self.state_copy);
            proof {
                self.state.lemma_wf();
                self.state_copy.lemma_wf();
                assert forall|r: int| 0 <= r < rows implies #[trigger] self.state@[r] == next[r] by {
                    assert(self.state@[r] =~= next[r]);
                }
                assert(self.state@ =~= next);
            }
            it += 1;
        }
    }

    /// The automaton's current state.
    pub fn get_state(&self) -> (r: &T)
        requires
            self.wf(),
        ensures
            r.wf(),
            r@ == self.current(),
    {
        &self.state
    }

    /// The current state as rows of text, `#` for an alive cell and `.` for a dead one.
    pub fn to_text_rows(&self) -> (r: Vec<Vec<char>>)
        requires
            self.wf(),
        ensures
            r@.len() == self.current().len(),
            forall|i: int|
                0 <= i < r@.len() ==> #[trigger] r@[i]@ == self.current()[i].map_values(
                    |b: bool| state_char(b),
                ),
    {
        let table = self.state.to_table();
        let ghost g = self.state@;
        proof {
            assert forall|i: int| 0 <= i < table@.len() implies #[trigger] table@[i]@ == g[i] by {
                assert(crate::matrix::table_grid(table@)[i] == table@[i]@);
            }
        }
        let mut rows: Vec<Vec<char>> = Vec::new();
        let mut i: usize = 0;
        while i < table.len()
            invariant
                g == self.current(),
                table@.len() == g.len(),
                forall|k: int| 0 <= k < table@.len() ==> #[trigger] table@[k]@ == g[k],
                i <= table@.len(),
                rows@.len() == i,
                forall|k: int|
                    0 <= k < i ==> #[trigger] rows@[k]@ == g[k].map_values(|b: bool| state_char(b)),
            decreases table@.len() - i,
        {
            let row = &table[i];
            let mut line: Vec<char> = Vec::new();
            let mut j: usize = 0;
            while j < row.len()
                invariant
                    i < table@.len(),
                    row@ == g[i as int],
                    j <= row@.len(),
                    line@ == row@.take(j as int).map_values(|b: bool| state_char(b)),
                decreases row@.len() - j,
            {
                line.push(if row[j] { '#' } else { '.' });
                j += 1;
                proof {
                    assert(line@ =~= row@.take(j as int).map_values(|b: bool| state_char(b)));
                }
            }
            proof {
                assert(row@.take(row@.len() as int) =~= row@);
            }
            rows.push(line);
            i += 1;
        }
        rows
    }

    /// Sets the cell at `idx` of the current state to `value` and returns its former value.
    pub fn set_state(&mut self, idx: &ToroidalMatrixIndex, value: bool) -> (r: bool)
        requires
            old(self).wf(),
        ensures
            final(self).wf(),
            final(self).rule() == old(self).rule(),
            r == cell(old(self).current(), idx.0 as int, idx.1 as int),
            final(self).current() == set_cell(old(self).current(), idx.0 as int, idx.1 as int, value),
    {
        proof {
            self.state.lemma_wf();
            crate::matrix::lemma_set_cell_shape(self.state@, idx.0 as int, idx.1 as int, value);
        }
        let r = self.state.set(idx, value);
        r
    }
}

} // verus!
