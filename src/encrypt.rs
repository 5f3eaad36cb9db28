//! The block transform: two automata, seeded from a key, scramble and mask 256-bit blocks.
use crate::automata::{b2n, iterate, lemma_iterate_compose, lemma_iterate_shape, Automaton,
    AutomatonRule,
};
use crate::bits::BitWise;
use crate::matrix::toroidal_bit_matrix::{packed_grid, word_width, words_for};
use crate::matrix::{cell, fits_matrix, lemma_xor_self_inverse, n_cols, same_shape, swap_rows_grid, xor_grid,
    ToroidalBinaryMatrix, ToroidalBitMatrix, ToroidalMatrixIndex,
};
use crate::parse::{
    base32_digits, digit_map, gen_char_map, get_temporal_seed_map, parse_bool_table, read_table,
    text_positions, TableReadError,
};
use vstd::prelude::*;

verus! {

/// Number of rows in a block matrix.
pub const N_ROWS: usize = 16;

/// Number of columns in a block matrix.
pub const N_COLS: usize = 16;

/// Number of bits in a block.
pub const BLOCK_SIZE: usize = N_ROWS * N_COLS;

/// Number of bytes in a block.
pub const BLOCK_BYTES: usize = 32;

/// Number of generations both automata advance for each block.
pub const N_ITERS_PER_BLOCK: u32 = 11;

/// Number of generations of each half of temporal seeding.
pub const N_SEED_ITERS: u32 = 8;

/// A bit-packed matrix over bytes: a block's 32 bytes are its storage as they stand.
pub type TalosMatrix = ToroidalBitMatrix<u8>;

/// An automaton over a bit-packed byte matrix.
pub type TalosAutomaton = Automaton<TalosMatrix>;

/// The 4-bit value read at four positions, the first contributing 1, the last 8.
pub open spec fn read4(
    m: Seq<Seq<bool>>,
    i0: (int, int),
    i1: (int, int),
    i2: (int, int),
    i3: (int, int),
) -> nat {
    b2n(cell(m, i0.0, i0.1)) + 2 * b2n(cell(m, i1.0, i1.1)) + 4 * b2n(cell(m, i2.0, i2.1)) + 8
        * b2n(cell(m, i3.0, i3.1))
}

/// The column offset that row slot `j` of a row band reads from: `[0, 2, 1, 3][j]`.
pub open spec fn row_phase_col(j: int) -> int {
    if j == 0 {
        0
    } else if j == 1 {
        2
    } else if j == 2 {
        1
    } else {
        3
    }
}

/// The row offset that column slot `j` of a column band reads from: `[3, 0, 2, 1][j]`.
pub open spec fn col_phase_row(j: int) -> int {
    if j == 0 {
        3
    } else if j == 1 {
        0
    } else if j == 2 {
        2
    } else {
        1
    }
}

/// The swap target of slot `j` of row band `b`: bits read along row `4b + j`.
pub open spec fn row_phase_target(key: Seq<Seq<bool>>, b: int, j: int) -> int {
    let r = 4 * b + j;
    let c = row_phase_col(j);
    read4(key, (r, c), (r, 4 + c), (r, 8 + c), (r, 12 + c)) as int
}

/// The swap target of slot `j` of column band `b`: bits read down column `4b + j`.
pub open spec fn col_phase_target(key: Seq<Seq<bool>>, b: int, j: int) -> int {
    let r = col_phase_row(j);
    let c = 4 * b + j;
    read4(key, (r, c), (4 + r, c), (8 + r, c), (12 + r, c)) as int
}

/// The 32 row transpositions of the scramble, in order: 16 for the row bands, then 16 for
/// the column bands. Each exchanges the band's first row with the computed target row.
pub open spec fn swap_schedule(key: Seq<Seq<bool>>) -> Seq<(int, int)> {
    Seq::new(
        32,
        |k: int|
            if k < 16 {
                (4 * (k / 4), row_phase_target(key, k / 4, k % 4))
            } else {
                (4 * ((k - 16) / 4), col_phase_target(key, (k - 16) / 4, (k - 16) % 4))
            },
    )
}

/// The grid after the row transpositions of `s`, first to last.
pub open spec fn apply_swaps(g: Seq<Seq<bool>>, s: Seq<(int, int)>) -> Seq<Seq<bool>>
    decreases s.len(),
{
    if s.len() == 0 {
        g
    } else {
        swap_rows_grid(apply_swaps(g, s.drop_last()), s.last().0, s.last().1)
    }
}

/// The grid after the row transpositions of `s`, last to first.
pub open spec fn undo_swaps(g: Seq<Seq<bool>>, s: Seq<(int, int)>) -> Seq<Seq<bool>>
    decreases s.len(),
{
    if s.len() == 0 {
        g
    } else {
        undo_swaps(swap_rows_grid(g, s.last().0, s.last().1), s.drop_last())
    }
}

/// The scramble of `g` driven by `key`.
pub open spec fn scramble(g: Seq<Seq<bool>>, key: Seq<Seq<bool>>) -> Seq<Seq<bool>> {
    apply_swaps(g, swap_schedule(key))
}

/// The inverse scramble of `g` driven by `key`.
pub open spec fn unscramble(g: Seq<Seq<bool>>, key: Seq<Seq<bool>>) -> Seq<Seq<bool>> {
    undo_swaps(g, swap_schedule(key))
}

/// A row swap keeps the grid's shape.
pub proof fn lemma_swap_rows_shape(g: Seq<Seq<bool>>, a: int, b: int)
    requires
        fits_matrix(g),
    ensures
        fits_matrix(swap_rows_grid(g, a, b)),
        same_shape(swap_rows_grid(g, a, b), g),
{
    vstd::arithmetic::div_mod::lemma_mod_bound(a, g.len() as int);
    vstd::arithmetic::div_mod::lemma_mod_bound(b, g.len() as int);
    let h = swap_rows_grid(g, a, b);
    assert(g[crate::matrix::canon(a, g.len() as int)].len() == g[0].len());
    assert(g[crate::matrix::canon(b, g.len() as int)].len() == g[0].len());
    assert forall|i: int| 0 <= i < h.len() implies #[trigger] h[i].len() == h[0].len() by {
        assert(g[i].len() == g[0].len());
    }
}

/// A sequence of row swaps keeps the grid's shape.
pub proof fn lemma_apply_swaps_shape(g: Seq<Seq<bool>>, s: Seq<(int, int)>)
    requires
        fits_matrix(g),
    ensures
        fits_matrix(apply_swaps(g, s)),
        same_shape(apply_swaps(g, s), g),
    decreases s.len(),
{
    if s.len() > 0 {
        lemma_apply_swaps_shape(g, s.drop_last());
        lemma_swap_rows_shape(apply_swaps(g, s.drop_last()), s.last().0, s.last().1);
    }
}

/// A sequence of row swaps, replayed last to first, keeps the grid's shape.
pub proof fn lemma_undo_swaps_shape(g: Seq<Seq<bool>>, s: Seq<(int, int)>)
    requires
        fits_matrix(g),
    ensures
        fits_matrix(undo_swaps(g, s)),
        same_shape(undo_swaps(g, s), g),
    decreases s.len(),
{
    if s.len() > 0 {
        lemma_swap_rows_shape(g, s.last().0, s.last().1);
        lemma_undo_swaps_shape(swap_rows_grid(g, s.last().0, s.last().1), s.drop_last());
    }
}

/// Exchanging two rows twice restores the grid.
pub proof fn lemma_swap_rows_involution(g: Seq<Seq<bool>>, a: int, b: int)
    requires
        g.len() > 0,
    ensures
        swap_rows_grid(swap_rows_grid(g, a, b), a, b) == g,
{
    vstd::arithmetic::div_mod::lemma_mod_bound(a, g.len() as int);
    vstd::arithmetic::div_mod::lemma_mod_bound(b, g.len() as int);
    assert(swap_rows_grid(swap_rows_grid(g, a, b), a, b) =~= g);
}

/// Replaying row swaps last to first undoes them.
pub proof fn lemma_undo_apply_swaps(g: Seq<Seq<bool>>, s: Seq<(int, int)>)
    requires
        fits_matrix(g),
    ensures
        undo_swaps(apply_swaps(g, s), s) == g,
    decreases s.len(),
{
    if s.len() > 0 {
        let p = s.last();
        let h = apply_swaps(g, s.drop_last());
        lemma_apply_swaps_shape(g, s.drop_last());
        lemma_swap_rows_involution(h, p.0, p.1);
        lemma_undo_apply_swaps(g, s.drop_last());
    }
}

/// The inverse scramble undoes the scramble driven by the same key.
pub proof fn lemma_unscramble_scramble(g: Seq<Seq<bool>>, key: Seq<Seq<bool>>)
    requires
        fits_matrix(g),
    ensures
        unscramble(scramble(g, key), key) == g,
{
    lemma_undo_apply_swaps(g, swap_schedule(key));
}

/// Reads the cells at four positions of `matrix` and packs them into a byte, the cell at
/// position `i` contributing `2^i`.
pub fn read_4_bits<T: ToroidalBinaryMatrix>(
    matrix: &T,
    idx0: ToroidalMatrixIndex,
    idx1: ToroidalMatrixIndex,
    idx2: ToroidalMatrixIndex,
    idx3: ToroidalMatrixIndex,
) -> (r: u8)
    requires
        matrix.wf(),
    ensures
        r == read4(
            matrix@,
            (idx0.0 as int, idx0.1 as int),
            (idx1.0 as int, idx1.1 as int),
            (idx2.0 as int, idx2.1 as int),
            (idx3.0 as int, idx3.1 as int),
        ),
        r < 16,
{
    let mut result: u8 = 0;
    if matrix.at(&idx0) {
        result += 1;
    }
    if matrix.at(&idx1) {
        result += 2;
    }
    if matrix.at(&idx2) {
        result += 4;
    }
    if matrix.at(&idx3) {
        result += 8;
    }
    result
}


/// Takes one more entry of a schedule: the swaps so far, then entry `k`.
proof fn lemma_apply_swaps_step(g: Seq<Seq<bool>>, s: Seq<(int, int)>, k: int)
    requires
        0 <= k < s.len(),
    ensures
        apply_swaps(g, s.take(k + 1)) == swap_rows_grid(apply_swaps(g, s.take(k)), s[k].0, s[k].1),
{
    assert(s.take(k + 1).drop_last() =~= s.take(k));
}

/// Replays one more entry of a schedule, last to first.
proof fn lemma_undo_swaps_step(g: Seq<Seq<bool>>, s: Seq<(int, int)>, k: int)
    requires
        0 <= k < s.len(),
    ensures
        undo_swaps(g, s.take(k + 1)) == undo_swaps(swap_rows_grid(g, s[k].0, s[k].1), s.take(k)),
{
    assert(s.take(k + 1).drop_last() =~= s.take(k));
}

/// Entry `4 * b + j` of the schedule is slot `j` of row band `b`, and entry `16 + 4 * b + j`
/// is slot `j` of column band `b`.
proof fn lemma_schedule_entry(key: Seq<Seq<bool>>, b: int, j: int)
    requires
        0 <= b < 4,
        0 <= j < 4,
    ensures
        swap_schedule(key)[4 * b + j] == (4 * b, row_phase_target(key, b, j)),
        swap_schedule(key)[16 + 4 * b + j] == (4 * b, col_phase_target(key, b, j)),
{
    vstd::arithmetic::div_mod::lemma_fundamental_div_mod_converse(4 * b + j, 4, b, j);
}

/// The swap target of slot `j` of row band `row_block`.
fn row_phase_swap<T: ToroidalBinaryMatrix>(key: &T, row_block: isize, j: isize) -> (r: isize)
    requires
        key.wf(),
        0 <= row_block < 4,
        0 <= j < 4,
    ensures
        r == row_phase_target(key@, row_block as int, j as int),
{
    let row_order: [isize; 4] = [0, 2, 1, 3];
    proof {
        assert(row_order@ == seq![0isize, 2, 1, 3]);
    }
    let row = 4 * row_block + j;
    let c_offset = row_order[j as usize];
    read_4_bits(
        key,
        (row, c_offset),
        (row, 4 + c_offset),
        (row, 8 + c_offset),
        (row, 12 + c_offset),
    ) as isize
}

/// The swap target of slot `j` of column band `col_block`.
fn col_phase_swap<T: ToroidalBinaryMatrix>(key: &T, col_block: isize, j: isize) -> (r: isize)
    requires
        key.wf(),
        0 <= col_block < 4,
        0 <= j < 4,
    ensures
        r == col_phase_target(key@, col_block as int, j as int),
{
    let col_order: [isize; 4] = [3, 0, 2, 1];
    proof {
        assert(col_order@ == seq![3isize, 0, 2, 1]);
    }
    let col = 4 * col_block + j;
    let r_offset = col_order[j as usize];
    read_4_bits(
        key,
        (r_offset, col),
        (4 + r_offset, col),
        (8 + r_offset, col),
        (12 + r_offset, col),
    ) as isize
}

/// Applies the scramble to `message_matrix`, driven by `key`: for each row band, then for
/// each column band, four row transpositions whose targets are read from `key`.
fn scramble_matrix_256<T: ToroidalBinaryMatrix>(message_matrix: &mut T, key: &T)
    requires
        old(message_matrix).wf(),
        key.wf(),
    ensures
        final(message_matrix).wf(),
        final(message_matrix)@ == scramble(old(message_matrix)@, key@),
{
    let ghost g0 = message_matrix@;
    let ghost s = swap_schedule(key@);
    let mut row_block: isize = 0;
    while row_block < 4
        invariant
            message_matrix.wf(),
            key.wf(),
            0 <= row_block <= 4,
            s == swap_schedule(key@),
            message_matrix@ == apply_swaps(g0, s.take(4 * row_block)),
        decreases 4 - row_block,
    {
        let block_offset: isize = 4 * row_block;
        let mut j: isize = 0;
        while j < 4
            invariant
                message_matrix.wf(),
                key.wf(),
                0 <= row_block < 4,
                0 <= j <= 4,
                block_offset == 4 * row_block,
                s == swap_schedule(key@),
                message_matrix@ == apply_swaps(g0, s.take(4 * row_block + j)),
            decreases 4 - j,
        {
            let row_swap_idx = row_phase_swap(key, row_block, j);
            message_matrix.swap_rows(block_offset, row_swap_idx);
            proof {
                lemma_schedule_entry(key@, row_block as int, j as int);
                lemma_apply_swaps_step(g0, s, 4 * row_block + j);
            }
            j += 1;
        }
        row_block += 1;
    }
    let mut col_block: isize = 0;
    while col_block < 4
        invariant
            message_matrix.wf(),
            key.wf(),
            0 <= col_block <= 4,
            s == swap_schedule(key@),
            message_matrix@ == apply_swaps(g0, s.take(16 + 4 * col_block)),
        decreases 4 - col_block,
    {
        let block_offset: isize = 4 * col_block;
        let mut j: isize = 0;
        while j < 4
            invariant
                message_matrix.wf(),
                key.wf(),
                0 <= col_block < 4,
                0 <= j <= 4,
                block_offset == 4 * col_block,
                s == swap_schedule(key@),
                message_matrix@ == apply_swaps(g0, s.take(16 + 4 * col_block + j)),
            decreases 4 - j,
        {
            let row_swap_idx = col_phase_swap(key, col_block, j);
            message_matrix.swap_rows(block_offset, row_swap_idx);
            proof {
                lemma_schedule_entry(key@, col_block as int, j as int);
                lemma_apply_swaps_step(g0, s, 16 + 4 * col_block + j);
            }
            j += 1;
        }
        col_block += 1;
    }
    proof {
        assert(s.take(32) =~= s);
    }
}

/// Applies the inverse scramble to `message_matrix`, driven by `key`: the scramble's row
/// transpositions, replayed in reverse order.
fn unscramble_matrix_256<T: ToroidalBinaryMatrix>(message_matrix: &mut T, key: &T)
    requires
        old(message_matrix).wf(),
        key.wf(),
    ensures
        final(message_matrix).wf(),
        final(message_matrix)@ == unscramble(old(message_matrix)@, key@),
{
    let ghost g0 = message_matrix@;
    let ghost s = swap_schedule(key@);
    let ghost target = undo_swaps(g0, s);
    proof {
        assert(s.take(32) =~= s);
    }
    let mut col_block: isize = 4;
    while col_block > 0
        invariant
            message_matrix.wf(),
            key.wf(),
            0 <= col_block <= 4,
            s == swap_schedule(key@),
            target == undo_swaps(g0, s),
            undo_swaps(message_matrix@, s.take(16 + 4 * col_block)) == target,
        decreases col_block,
    {
        col_block -= 1;
        let block_offset: isize = 4 * col_block;
        let mut j: isize = 4;
        while j > 0
            invariant
                message_matrix.wf(),
                key.wf(),
                0 <= col_block < 4,
                0 <= j <= 4,
                block_offset == 4 * col_block,
                s == swap_schedule(key@),
                target == undo_swaps(g0, s),
                undo_swaps(message_matrix@, s.take(16 + 4 * col_block + j)) == target,
            decreases j,
        {
            j -= 1;
            let ghost before = message_matrix@;
            let row_swap_idx = col_phase_swap(key, col_block, j);
            message_matrix.swap_rows(block_offset, row_swap_idx);
            proof {
                lemma_schedule_entry(key@, col_block as int, j as int);
                lemma_undo_swaps_step(before, s, 16 + 4 * col_block + j);
            }
        }
    }
    let mut row_block: isize = 4;
    while row_block > 0
        invariant
            message_matrix.wf(),
            key.wf(),
            0 <= row_block <= 4,
            s == swap_schedule(key@),
            target == undo_swaps(g0, s),
            undo_swaps(message_matrix@, s.take(4 * row_block)) == target,
        decreases row_block,
    {
        row_block -= 1;
        let block_offset: isize = 4 * row_block;
        let mut j: isize = 4;
        while j > 0
            invariant
                message_matrix.wf(),
                key.wf(),
                0 <= row_block < 4,
                0 <= j <= 4,
                block_offset == 4 * row_block,
                s == swap_schedule(key@),
                target == undo_swaps(g0, s),
                undo_swaps(message_matrix@, s.take(4 * row_block + j)) == target,
            decreases j,
        {
            j -= 1;
            let ghost before = message_matrix@;
            let row_swap_idx = row_phase_swap(key, row_block, j);
            message_matrix.swap_rows(block_offset, row_swap_idx);
            proof {
                lemma_schedule_entry(key@, row_block as int, j as int);
                lemma_undo_swaps_step(before, s, 4 * row_block + j);
            }
        }
    }
    proof {
        assert(s.take(0) =~= Seq::<(int, int)>::empty());
    }
}


/// A grid of the block's shape: 16 rows of 16 cells.
pub open spec fn is_block_shape(g: Seq<Seq<bool>>) -> bool {
    fits_matrix(g) && g.len() == N_ROWS && n_cols(g) == N_COLS
}

/// The 16 by 16 grid that 32 bytes hold, cells packed least significant bit first.
pub open spec fn block_grid(b: Seq<u8>) -> Seq<Seq<bool>> {
    packed_grid::<u8>(b, 16, 16)
}

/// The transform of a plaintext block: scramble driven by the shift state `s`, then
/// exclusive or with the transpose state `t`.
pub open spec fn encrypt_grid(g: Seq<Seq<bool>>, s: Seq<Seq<bool>>, t: Seq<Seq<bool>>) -> Seq<
    Seq<bool>,
> {
    xor_grid(scramble(g, s), t)
}

/// The transform of a ciphertext block: exclusive or with the transpose state `t`, then the
/// inverse scramble driven by the shift state `s`.
pub open spec fn decrypt_grid(g: Seq<Seq<bool>>, s: Seq<Seq<bool>>, t: Seq<Seq<bool>>) -> Seq<
    Seq<bool>,
> {
    unscramble(xor_grid(g, t), s)
}

/// Decrypting a block with the states that encrypted it gives it back.
pub proof fn lemma_decrypt_encrypt_grid(g: Seq<Seq<bool>>, s: Seq<Seq<bool>>, t: Seq<Seq<bool>>)
    requires
        is_block_shape(g),
        is_block_shape(t),
    ensures
        decrypt_grid(encrypt_grid(g, s, t), s, t) == g,
{
    lemma_apply_swaps_shape(g, swap_schedule(s));
    lemma_xor_self_inverse(scramble(g, s), t);
    lemma_unscramble_scramble(g, s);
}

/// Two bytes with the same eight bits are equal.
proof fn lemma_byte_from_bits(x: u8, y: u8)
    by (bit_vector)
    requires
        ((x >> 0u8) & 1u8 == 1u8) == ((y >> 0u8) & 1u8 == 1u8),
        ((x >> 1u8) & 1u8 == 1u8) == ((y >> 1u8) & 1u8 == 1u8),
        ((x >> 2u8) & 1u8 == 1u8) == ((y >> 2u8) & 1u8 == 1u8),
        ((x >> 3u8) & 1u8 == 1u8) == ((y >> 3u8) & 1u8 == 1u8),
        ((x >> 4u8) & 1u8 == 1u8) == ((y >> 4u8) & 1u8 == 1u8),
        ((x >> 5u8) & 1u8 == 1u8) == ((y >> 5u8) & 1u8 == 1u8),
        ((x >> 6u8) & 1u8 == 1u8) == ((y >> 6u8) & 1u8 == 1u8),
        ((x >> 7u8) & 1u8 == 1u8) == ((y >> 7u8) & 1u8 == 1u8),
    ensures
        x == y,
{
}

/// Bit `j` of byte `i` of a block is the cell at flat index `8 * i + j`.
proof fn lemma_block_cell(b: Seq<u8>, i: int, j: int)
    requires
        b.len() == 32,
        0 <= i < 32,
        0 <= j < 8,
    ensures
        block_grid(b)[(8 * i + j) / 16][(8 * i + j) % 16] == b[i].bit(j as nat),
{
    let k = 8 * i + j;
    vstd::arithmetic::div_mod::lemma_fundamental_div_mod(k, 16);
    vstd::arithmetic::div_mod::lemma_fundamental_div_mod_converse(k, 8, i, j);
}

/// A block's bytes are fixed by its grid.
pub proof fn lemma_block_grid_injective(a: Seq<u8>, b: Seq<u8>)
    requires
        a.len() == 32,
        b.len() == 32,
        block_grid(a) == block_grid(b),
    ensures
        a == b,
{
    assert forall|i: int| 0 <= i < 32 implies a[i] == b[i] by {
        assert forall|j: int| 0 <= j < 8 implies #[trigger] a[i].bit(j as nat) == b[i].bit(
            j as nat,
        ) by {
            lemma_block_cell(a, i, j);
            lemma_block_cell(b, i, j);
        }
        assert(a[i].bit(0int as nat) == b[i].bit(0int as nat));
        assert(a[i].bit(1int as nat) == b[i].bit(1int as nat));
        assert(a[i].bit(2int as nat) == b[i].bit(2int as nat));
        assert(a[i].bit(3int as nat) == b[i].bit(3int as nat));
        assert(a[i].bit(4int as nat) == b[i].bit(4int as nat));
        assert(a[i].bit(5int as nat) == b[i].bit(5int as nat));
        assert(a[i].bit(6int as nat) == b[i].bit(6int as nat));
        assert(a[i].bit(7int as nat) == b[i].bit(7int as nat));
        lemma_byte_from_bits(a[i], b[i]);
    }
    assert(a =~= b);
}

/// A copy of a byte vector.
fn copy_bytes(v: &Vec<u8>) -> (r: Vec<u8>)
    ensures
        r@ == v@,
{
    let mut r: Vec<u8> = Vec::new();
    let mut i: usize = 0;
    while i < v.len()
        invariant
            i <= v@.len(),
            r@ == v@.take(i as int),
        decreases v@.len() - i,
    {
        r.push(v[i]);
        i += 1;
        proof {
            assert(r@ =~= v@.take(i as int));
        }
    }
    proof {
        assert(v@.take(v@.len() as int) =~= v@);
    }
    r
}

/// Advances both automata one block's worth of generations.
fn advance_for_block(shift_automata: &mut TalosAutomaton, transpose_automata: &mut TalosAutomaton)
    requires
        old(shift_automata).wf(),
        old(transpose_automata).wf(),
        is_block_shape(old(shift_automata).current()),
        is_block_shape(old(transpose_automata).current()),
    ensures
        final(shift_automata).wf(),
        final(transpose_automata).wf(),
        final(shift_automata).rule() == old(shift_automata).rule(),
        final(transpose_automata).rule() == old(transpose_automata).rule(),
        final(shift_automata).current() == iterate(
            old(shift_automata).rule(),
            old(shift_automata).current(),
            N_ITERS_PER_BLOCK as nat,
        ),
        final(transpose_automata).current() == iterate(
            old(transpose_automata).rule(),
            old(transpose_automata).current(),
            N_ITERS_PER_BLOCK as nat,
        ),
        is_block_shape(final(shift_automata).current()),
        is_block_shape(final(transpose_automata).current()),
{
    shift_automata.iter_rule(N_ITERS_PER_BLOCK);
    transpose_automata.iter_rule(N_ITERS_PER_BLOCK);
    proof {
        lemma_iterate_shape(
            old(shift_automata).rule(),
            old(shift_automata).current(),
            N_ITERS_PER_BLOCK as nat,
        );
        lemma_iterate_shape(
            old(transpose_automata).rule(),
            old(transpose_automata).current(),
            N_ITERS_PER_BLOCK as nat,
        );
    }
}

/// Encrypts one 32-byte block: advances both automata 11 generations, scrambles the block
/// driven by the shift state, then masks it with the transpose state.
fn encrypt_block_256(
    message_block: Vec<u8>,
    shift_automata: &mut TalosAutomaton,
    transpose_automata: &mut TalosAutomaton,
) -> (r: Vec<u8>)
    requires
        message_block@.len() == BLOCK_BYTES,
        old(shift_automata).wf(),
        old(transpose_automata).wf(),
        is_block_shape(old(shift_automata).current()),
        is_block_shape(old(transpose_automata).current()),
    ensures
        final(shift_automata).wf(),
        final(transpose_automata).wf(),
        final(shift_automata).rule() == old(shift_automata).rule(),
        final(transpose_automata).rule() == old(transpose_automata).rule(),
        final(shift_automata).current() == iterate(
            old(shift_automata).rule(),
            old(shift_automata).current(),
            N_ITERS_PER_BLOCK as nat,
        ),
        final(transpose_automata).current() == iterate(
            old(transpose_automata).rule(),
            old(transpose_automata).current(),
            N_ITERS_PER_BLOCK as nat,
        ),
        is_block_shape(final(shift_automata).current()),
        is_block_shape(final(transpose_automata).current()),
        r@.len() == BLOCK_BYTES,
        block_grid(r@) == encrypt_grid(
            block_grid(message_block@),
            final(shift_automata).current(),
            final(transpose_automata).current(),
        ),
{
    proof {
        assert(word_width::<u8>() == 8);
        assert(words_for::<u8>(N_ROWS * N_COLS) == BLOCK_BYTES);
    }
    let mut message_matrix = TalosMatrix::from_storage(N_ROWS, N_COLS, message_block).unwrap();
    let ghost g = block_grid(message_block@);
    proof {
        message_matrix.lemma_wf();
        assert(message_matrix@ == g);
    }
    advance_for_block(shift_automata, transpose_automata);
    let ghost s1 = shift_automata.current();
    let ghost t1 = transpose_automata.current();
    scramble_matrix_256(&mut message_matrix, shift_automata.get_state());
    proof {
        lemma_apply_swaps_shape(g, swap_schedule(s1));
        message_matrix.lemma_wf();
        assert(same_shape(message_matrix@, t1));
    }
    let _ = message_matrix.bitwise_xor(transpose_automata.get_state());
    let ghost x = message_matrix@;
    proof {
        message_matrix.lemma_wf();
        assert(x == encrypt_grid(g, s1, t1));
        assert(x.len() == 16 && n_cols(x) == 16);
    }
    let storage = message_matrix.get_storage();
    proof {
        assert(storage@.len() == words_for::<u8>(256));
        assert(block_grid(storage@) == x);
    }
    copy_bytes(storage)
}

/// Decrypts one 32-byte block: advances both automata 11 generations, unmasks the block
/// with the transpose state, then applies the inverse scramble driven by the shift state.
fn decrypt_block_256(
    encrypted_block: Vec<u8>,
    shift_automata: &mut TalosAutomaton,
    transpose_automata: &mut TalosAutomaton,
) -> (r: Vec<u8>)
    requires
        encrypted_block@.len() == BLOCK_BYTES,
        old(shift_automata).wf(),
        old(transpose_automata).wf(),
        is_block_shape(old(shift_automata).current()),
        is_block_shape(old(transpose_automata).current()),
    ensures
        final(shift_automata).wf(),
        final(transpose_automata).wf(),
        final(shift_automata).rule() == old(shift_automata).rule(),
        final(transpose_automata).rule() == old(transpose_automata).rule(),
        final(shift_automata).current() == iterate(
            old(shift_automata).rule(),
            old(shift_automata).current(),
            N_ITERS_PER_BLOCK as nat,
        ),
        final(transpose_automata).current() == iterate(
            old(transpose_automata).rule(),
            old(transpose_automata).current(),
            N_ITERS_PER_BLOCK as nat,
        ),
        is_block_shape(final(shift_automata).current()),
        is_block_shape(final(transpose_automata).current()),
        r@.len() == BLOCK_BYTES,
        block_grid(r@) == decrypt_grid(
            block_grid(encrypted_block@),
            final(shift_automata).current(),
            final(transpose_automata).current(),
        ),
{
    proof {
        assert(word_width::<u8>() == 8);
        assert(words_for::<u8>(N_ROWS * N_COLS) == BLOCK_BYTES);
    }
    let mut message_matrix = TalosMatrix::from_storage(N_ROWS, N_COLS, encrypted_block).unwrap();
    let ghost g = block_grid(encrypted_block@);
    proof {
        message_matrix.lemma_wf();
        assert(message_matrix@ == g);
    }
    advance_for_block(shift_automata, transpose_automata);
    let ghost s1 = shift_automata.current();
    let ghost t1 = transpose_automata.current();
    let _ = message_matrix.bitwise_xor(transpose_automata.get_state());
    proof {
        message_matrix.lemma_wf();
        assert(message_matrix@ == xor_grid(g, t1));
    }
    let ghost y = message_matrix@;
    unscramble_matrix_256(&mut message_matrix, shift_automata.get_state());
    let ghost x = message_matrix@;
    proof {
        lemma_undo_swaps_shape(y, swap_schedule(s1));
        message_matrix.lemma_wf();
        assert(x == decrypt_grid(g, s1, t1));
        assert(x.len() == 16 && n_cols(x) == 16);
    }
    let storage = message_matrix.get_storage();
    proof {
        assert(storage@.len() == words_for::<u8>(256));
        assert(block_grid(storage@) == x);
    }
    copy_bytes(storage)
}


/// The number of 32-byte blocks a message of `len` bytes occupies.
pub open spec fn n_blocks(len: int) -> int {
    (len + 31) / 32
}

/// Block `k` of a message, zero-padded past the message's end.
pub open spec fn message_block(m: Seq<u8>, k: int) -> Seq<u8> {
    Seq::new(32, |i: int| if 32 * k + i < m.len() { m[32 * k + i] } else { 0u8 })
}

/// Bytes `32 * k` to `32 * k + 32` of an output.
pub open spec fn block_of(c: Seq<u8>, k: int) -> Seq<u8> {
    c.subrange(32 * k, 32 * k + 32)
}

/// The first `n` blocks of `c` are the encryption of those of `m` by shift and transpose
/// automata that start from states `s0` and `t0` under rules `rs` and `rt`: block `k` is
/// transformed with the states after `11 * (k + 1)` generations.
#[verifier::opaque]
pub open spec fn encrypted_blocks(
    m: Seq<u8>,
    c: Seq<u8>,
    rs: AutomatonRule,
    s0: Seq<Seq<bool>>,
    rt: AutomatonRule,
    t0: Seq<Seq<bool>>,
    n: int,
) -> bool {
    forall|k: int|
        0 <= k < n ==> block_grid(#[trigger] block_of(c, k)) == encrypt_grid(
            block_grid(message_block(m, k)),
            iterate(rs, s0, (11 * (k + 1)) as nat),
            iterate(rt, t0, (11 * (k + 1)) as nat),
        )
}

/// The first `n` blocks of `d` are the decryption of those of `c` by shift and transpose
/// automata that start from states `s0` and `t0` under rules `rs` and `rt`.
#[verifier::opaque]
pub open spec fn decrypted_blocks(
    c: Seq<u8>,
    d: Seq<u8>,
    rs: AutomatonRule,
    s0: Seq<Seq<bool>>,
    rt: AutomatonRule,
    t0: Seq<Seq<bool>>,
    n: int,
) -> bool {
    forall|k: int|
        0 <= k < n ==> block_grid(#[trigger] block_of(d, k)) == decrypt_grid(
            block_grid(message_block(c, k)),
            iterate(rs, s0, (11 * (k + 1)) as nat),
            iterate(rt, t0, (11 * (k + 1)) as nat),
        )
}

/// `c` is the encryption of the whole of `m`, its length rounded up to whole blocks.
pub open spec fn is_encryption(
    m: Seq<u8>,
    c: Seq<u8>,
    rs: AutomatonRule,
    s0: Seq<Seq<bool>>,
    rt: AutomatonRule,
    t0: Seq<Seq<bool>>,
) -> bool {
    &&& c.len() == 32 * n_blocks(m.len() as int)
    &&& encrypted_blocks(m, c, rs, s0, rt, t0, n_blocks(m.len() as int))
}

/// `d` is the decryption of the whole of `c`, its length rounded up to whole blocks.
pub open spec fn is_decryption(
    c: Seq<u8>,
    d: Seq<u8>,
    rs: AutomatonRule,
    s0: Seq<Seq<bool>>,
    rt: AutomatonRule,
    t0: Seq<Seq<bool>>,
) -> bool {
    &&& d.len() == 32 * n_blocks(c.len() as int)
    &&& decrypted_blocks(c, d, rs, s0, rt, t0, n_blocks(c.len() as int))
}

/// Appending the encryption of block `n` extends the encrypted prefix by one block.
proof fn lemma_encrypted_blocks_push(
    m: Seq<u8>,
    c: Seq<u8>,
    b: Seq<u8>,
    rs: AutomatonRule,
    s0: Seq<Seq<bool>>,
    rt: AutomatonRule,
    t0: Seq<Seq<bool>>,
    n: int,
)
    requires
        0 <= n,
        c.len() == 32 * n,
        b.len() == 32,
        encrypted_blocks(m, c, rs, s0, rt, t0, n),
        block_grid(b) == encrypt_grid(
            block_grid(message_block(m, n)),
            iterate(rs, s0, (11 * (n + 1)) as nat),
            iterate(rt, t0, (11 * (n + 1)) as nat),
        ),
    ensures
        encrypted_blocks(m, c + b, rs, s0, rt, t0, n + 1),
{
    reveal(encrypted_blocks);
    assert forall|k: int| 0 <= k < n + 1 implies block_grid(#[trigger] block_of(c + b, k))
        == encrypt_grid(
        block_grid(message_block(m, k)),
        iterate(rs, s0, (11 * (k + 1)) as nat),
        iterate(rt, t0, (11 * (k + 1)) as nat),
    ) by {
        if k < n {
            assert(block_of(c + b, k) =~= block_of(c, k));
        } else {
            assert(block_of(c + b, k) =~= b);
        }
    }
}

/// Appending the decryption of block `n` extends the decrypted prefix by one block.
proof fn lemma_decrypted_blocks_push(
    c: Seq<u8>,
    d: Seq<u8>,
    b: Seq<u8>,
    rs: AutomatonRule,
    s0: Seq<Seq<bool>>,
    rt: AutomatonRule,
    t0: Seq<Seq<bool>>,
    n: int,
)
    requires
        0 <= n,
        d.len() == 32 * n,
        b.len() == 32,
        decrypted_blocks(c, d, rs, s0, rt, t0, n),
        block_grid(b) == decrypt_grid(
            block_grid(message_block(c, n)),
            iterate(rs, s0, (11 * (n + 1)) as nat),
            iterate(rt, t0, (11 * (n + 1)) as nat),
        ),
    ensures
        decrypted_blocks(c, d + b, rs, s0, rt, t0, n + 1),
{
    reveal(decrypted_blocks);
    assert forall|k: int| 0 <= k < n + 1 implies block_grid(#[trigger] block_of(d + b, k))
        == decrypt_grid(
        block_grid(message_block(c, k)),
        iterate(rs, s0, (11 * (k + 1)) as nat),
        iterate(rt, t0, (11 * (k + 1)) as nat),
    ) by {
        if k < n {
            assert(block_of(d + b, k) =~= block_of(d, k));
        } else {
            assert(block_of(d + b, k) =~= b);
        }
    }
}

/// Splits `message` into 32-byte blocks, zero-padding the last one.
fn block_split_256_message(message: Vec<u8>) -> (r: Vec<Vec<u8>>)
    ensures
        r@.len() == n_blocks(message@.len() as int),
        forall|k: int| 0 <= k < r@.len() ==> #[trigger] r@[k]@ == message_block(message@, k),
{
    let len = message.len();
    let n = len / BLOCK_BYTES + if len % BLOCK_BYTES == 0 {
        0
    } else {
        1
    };
    proof {
        vstd::arithmetic::div_mod::lemma_fundamental_div_mod(len as int, 32);
        vstd::arithmetic::div_mod::lemma_fundamental_div_mod(len + 31, 32);
    }
    let mut blocks: Vec<Vec<u8>> = Vec::new();
    let mut k: usize = 0;
    while k < n
        invariant
            n == n_blocks(len as int),
            len == message@.len(),
            n * 32 <= len + 31,
            k <= n,
            blocks@.len() == k,
            forall|kk: int| 0 <= kk < k ==> #[trigger] blocks@[kk]@ == message_block(message@, kk),
        decreases n - k,
    {
        let mut block: Vec<u8> = Vec::new();
        let mut i: usize = 0;
        while i < BLOCK_BYTES
            invariant
                len == message@.len(),
                k < n,
                n * 32 <= len + 31,
                i <= 32,
                block@ == message_block(message@, k as int).take(i as int),
            decreases 32 - i,
        {
            let pos = BLOCK_BYTES * k + i;
            if pos < len {
                block.push(message[pos]);
            } else {
                block.push(0);
            }
            i += 1;
            proof {
                assert(block@ =~= message_block(message@, k as int).take(i as int));
            }
        }
        proof {
            assert(block@ =~= message_block(message@, k as int));
        }
        blocks.push(block);
        k += 1;
    }
    blocks
}

/// Encrypts `message` block by block. The shift and transpose automata must already be
/// seeded; they advance 11 generations per block and are left in their final state. The
/// output is the message's length rounded up to a multiple of 32 bytes.
pub fn encrypt_message_256(
    message: Vec<u8>,
    shift_automata: &mut TalosAutomaton,
    transpose_automata: &mut TalosAutomaton,
) -> (r: Vec<u8>)
    requires
        old(shift_automata).wf(),
        old(transpose_automata).wf(),
        is_block_shape(old(shift_automata).current()),
        is_block_shape(old(transpose_automata).current()),
    ensures
        is_encryption(
            message@,
            r@,
            old(shift_automata).rule(),
            old(shift_automata).current(),
            old(transpose_automata).rule(),
            old(transpose_automata).current(),
        ),
        final(shift_automata).wf(),
        final(transpose_automata).wf(),
        final(shift_automata).rule() == old(shift_automata).rule(),
        final(transpose_automata).rule() == old(transpose_automata).rule(),
        final(shift_automata).current() == iterate(
            old(shift_automata).rule(),
            old(shift_automata).current(),
            (11 * n_blocks(message@.len() as int)) as nat,
        ),
        final(transpose_automata).current() == iterate(
            old(transpose_automata).rule(),
            old(transpose_automata).current(),
            (11 * n_blocks(message@.len() as int)) as nat,
        ),
{
    let ghost m = message@;
    let ghost rs = shift_automata.rule();
    let ghost rt = transpose_automata.rule();
    let ghost s0 = shift_automata.current();
    let ghost t0 = transpose_automata.current();
    let blocks = block_split_256_message(message);
    let mut result: Vec<u8> = Vec::new();
    proof {
        reveal(encrypted_blocks);
    }
    let mut k: usize = 0;
    while k < blocks.len()
        invariant
            blocks@.len() == n_blocks(m.len() as int),
            forall|kk: int| 0 <= kk < blocks@.len() ==> #[trigger] blocks@[kk]@ == message_block(m, kk),
            k <= blocks@.len(),
            result@.len() == 32 * k,
            shift_automata.wf(),
            transpose_automata.wf(),
            shift_automata.rule() == rs,
            transpose_automata.rule() == rt,
            is_block_shape(shift_automata.current()),
            is_block_shape(transpose_automata.current()),
            shift_automata.current() == iterate(rs, s0, (11 * k) as nat),
            transpose_automata.current() == iterate(rt, t0, (11 * k) as nat),
            encrypted_blocks(m, result@, rs, s0, rt, t0, k as int),
        decreases blocks@.len() - k,
    {
        let block = copy_bytes(&blocks[k]);
        let mut out = encrypt_block_256(block, shift_automata, transpose_automata);
        proof {
            lemma_iterate_compose(rs, s0, (11 * k) as nat, 11);
            lemma_iterate_compose(rt, t0, (11 * k) as nat, 11);
            assert((11 * k) as nat + 11 == (11 * (k + 1)) as nat);
            lemma_encrypted_blocks_push(m, result@, out@, rs, s0, rt, t0, k as int);
        }
        result.append(&mut out);
        k += 1;
    }
    result
}

/// Decrypts `ciphertext` block by block, mirroring [`encrypt_message_256`]. The automata
/// must be seeded as they were for encryption. The output has the ciphertext's length
/// rounded up to a multiple of 32 bytes; trailing padding is not removed.
pub fn decrypt_message_256(
    ciphertext: Vec<u8>,
    shift_automata: &mut TalosAutomaton,
    transpose_automata: &mut TalosAutomaton,
) -> (r: Vec<u8>)
    requires
        old(shift_automata).wf(),
        old(transpose_automata).wf(),
        is_block_shape(old(shift_automata).current()),
        is_block_shape(old(transpose_automata).current()),
    ensures
        is_decryption(
            ciphertext@,
            r@,
            old(shift_automata).rule(),
            old(shift_automata).current(),
            old(transpose_automata).rule(),
            old(transpose_automata).current(),
        ),
        final(shift_automata).wf(),
        final(transpose_automata).wf(),
        final(shift_automata).rule() == old(shift_automata).rule(),
        final(transpose_automata).rule() == old(transpose_automata).rule(),
        final(shift_automata).current() == iterate(
            old(shift_automata).rule(),
            old(shift_automata).current(),
            (11 * n_blocks(ciphertext@.len() as int)) as nat,
        ),
        final(transpose_automata).current() == iterate(
            old(transpose_automata).rule(),
            old(transpose_automata).current(),
            (11 * n_blocks(ciphertext@.len() as int)) as nat,
        ),
{
    let ghost m = ciphertext@;
    let ghost rs = shift_automata.rule();
    let ghost rt = transpose_automata.rule();
    let ghost s0 = shift_automata.current();
    let ghost t0 = transpose_automata.current();
    let blocks = block_split_256_message(ciphertext);
    let mut result: Vec<u8> = Vec::new();
    proof {
        reveal(decrypted_blocks);
    }
    let mut k: usize = 0;
    while k < blocks.len()
        invariant
            blocks@.len() == n_blocks(m.len() as int),
            forall|kk: int| 0 <= kk < blocks@.len() ==> #[trigger] blocks@[kk]@ == message_block(m, kk),
            k <= blocks@.len(),
            result@.len() == 32 * k,
            shift_automata.wf(),
            transpose_automata.wf(),
            shift_automata.rule() == rs,
            transpose_automata.rule() == rt,
            is_block_shape(shift_automata.current()),
            is_block_shape(transpose_automata.current()),
            shift_automata.current() == iterate(rs, s0, (11 * k) as nat),
            transpose_automata.current() == iterate(rt, t0, (11 * k) as nat),
            decrypted_blocks(m, result@, rs, s0, rt, t0, k as int),
        decreases blocks@.len() - k,
    {
        let block = copy_bytes(&blocks[k]);
        let mut out = decrypt_block_256(block, shift_automata, transpose_automata);
        proof {
            lemma_iterate_compose(rs, s0, (11 * k) as nat, 11);
            lemma_iterate_compose(rt, t0, (11 * k) as nat, 11);
            assert((11 * k) as nat + 11 == (11 * (k + 1)) as nat);
            lemma_decrypted_blocks_push(m, result@, out@, rs, s0, rt, t0, k as int);
        }
        result.append(&mut out);
        k += 1;
    }
    result
}

/// Decrypting the encryption of a message, with automata seeded alike for both, gives the
/// message back, followed by the padding of its last block.
pub proof fn lemma_decrypt_inverts_encrypt(
    m: Seq<u8>,
    c: Seq<u8>,
    d: Seq<u8>,
    rs: AutomatonRule,
    s0: Seq<Seq<bool>>,
    rt: AutomatonRule,
    t0: Seq<Seq<bool>>,
)
    requires
        is_block_shape(s0),
        is_block_shape(t0),
        is_encryption(m, c, rs, s0, rt, t0),
        is_decryption(c, d, rs, s0, rt, t0),
    ensures
        d.len() == c.len(),
        d.len() == 32 * n_blocks(m.len() as int),
        d.len() >= m.len(),
        d.take(m.len() as int) == m,
        forall|i: int| m.len() <= i < d.len() ==> d[i] == 0,
{
    reveal(encrypted_blocks);
    reveal(decrypted_blocks);
    let n = n_blocks(m.len() as int);
    assert(n_blocks(c.len() as int) == n);
    assert forall|k: int| 0 <= k < n implies #[trigger] block_of(d, k) == message_block(m, k) by {
        let sk = iterate(rs, s0, (11 * (k + 1)) as nat);
        let tk = iterate(rt, t0, (11 * (k + 1)) as nat);
        lemma_iterate_shape(rt, t0, (11 * (k + 1)) as nat);
        assert(message_block(c, k) =~= block_of(c, k));
        assert(block_grid(block_of(c, k)) == encrypt_grid(block_grid(message_block(m, k)), sk, tk));
        assert(block_grid(block_of(d, k)) == decrypt_grid(block_grid(message_block(c, k)), sk, tk));
        lemma_block_grid_is_block_shape(message_block(m, k));
        lemma_decrypt_encrypt_grid(block_grid(message_block(m, k)), sk, tk);
        lemma_block_grid_injective(block_of(d, k), message_block(m, k));
    }
    assert forall|i: int| 0 <= i < m.len() implies d[i] == m[i] by {
        let k = i / 32;
        vstd::arithmetic::div_mod::lemma_fundamental_div_mod(i, 32);
        assert(block_of(d, k) == message_block(m, k));
        assert(block_of(d, k)[i - 32 * k] == d[i]);
    }
    assert(d.take(m.len() as int) =~= m);
    assert forall|i: int| m.len() <= i < d.len() implies d[i] == 0 by {
        let k = i / 32;
        vstd::arithmetic::div_mod::lemma_fundamental_div_mod(i, 32);
        assert(block_of(d, k) == message_block(m, k));
        assert(block_of(d, k)[i - 32 * k] == d[i]);
    }
}

/// Bit `i` of a 32-bit key.
pub open spec fn key_bit(key: u32, i: int) -> bool {
    (key >> (i as u32)) & 1u32 != 0u32
}

/// A list of positions as integer pairs.
pub open spec fn index_view(v: Seq<ToroidalMatrixIndex>) -> Seq<(int, int)> {
    v.map_values(|p: ToroidalMatrixIndex| (p.0 as int, p.1 as int))
}

/// Lists of positions as integer pairs.
pub open spec fn positions_view(p: Seq<Vec<ToroidalMatrixIndex>>) -> Seq<Seq<(int, int)>> {
    p.map_values(|v: Vec<ToroidalMatrixIndex>| index_view(v@))
}

/// The grid with every listed position set to `v`, first to last.
pub open spec fn write_all(g: Seq<Seq<bool>>, list: Seq<(int, int)>, v: bool) -> Seq<
    Seq<bool>,
>
    decreases list.len(),
{
    if list.len() == 0 {
        g
    } else {
        crate::matrix::set_cell(
            write_all(g, list.drop_last(), v),
            list.last().0,
            list.last().1,
            v,
        )
    }
}

/// The grid with the positions of list `i` set to key bit `i`, for each list in turn.
pub open spec fn seed_writes(
    g: Seq<Seq<bool>>,
    key: u32,
    positions: Seq<Seq<(int, int)>>,
) -> Seq<Seq<bool>>
    decreases positions.len(),
{
    if positions.len() == 0 {
        g
    } else {
        write_all(
            seed_writes(g, key, positions.drop_last()),
            positions.last(),
            key_bit(key, positions.len() - 1),
        )
    }
}

/// Temporal seeding of a state: 8 generations, the key bits written at their positions,
/// then 8 generations more.
pub open spec fn temporal_seed(
    rule: AutomatonRule,
    g: Seq<Seq<bool>>,
    key: u32,
    positions: Seq<Seq<(int, int)>>,
) -> Seq<Seq<bool>> {
    iterate(
        rule,
        seed_writes(iterate(rule, g, N_SEED_ITERS as nat), key, positions),
        N_SEED_ITERS as nat,
    )
}

/// Writing cells keeps the grid's shape.
pub proof fn lemma_write_all_shape(g: Seq<Seq<bool>>, list: Seq<(int, int)>, v: bool)
    requires
        fits_matrix(g),
    ensures
        fits_matrix(write_all(g, list, v)),
        same_shape(write_all(g, list, v), g),
    decreases list.len(),
{
    if list.len() > 0 {
        lemma_write_all_shape(g, list.drop_last(), v);
        crate::matrix::lemma_set_cell_shape(
            write_all(g, list.drop_last(), v),
            list.last().0,
            list.last().1,
            v,
        );
    }
}

/// Writing key bits keeps the grid's shape.
pub proof fn lemma_seed_writes_shape(
    g: Seq<Seq<bool>>,
    key: u32,
    positions: Seq<Seq<(int, int)>>,
)
    requires
        fits_matrix(g),
    ensures
        fits_matrix(seed_writes(g, key, positions)),
        same_shape(seed_writes(g, key, positions), g),
    decreases positions.len(),
{
    if positions.len() > 0 {
        lemma_seed_writes_shape(g, key, positions.drop_last());
        lemma_write_all_shape(
            seed_writes(g, key, positions.drop_last()),
            positions.last(),
            key_bit(key, positions.len() - 1),
        );
    }
}

/// Temporal seeding keeps the grid's shape.
pub proof fn lemma_temporal_seed_shape(
    rule: AutomatonRule,
    g: Seq<Seq<bool>>,
    key: u32,
    positions: Seq<Seq<(int, int)>>,
)
    requires
        fits_matrix(g),
    ensures
        fits_matrix(temporal_seed(rule, g, key, positions)),
        same_shape(temporal_seed(rule, g, key, positions), g),
{
    let g8 = iterate(rule, g, N_SEED_ITERS as nat);
    lemma_iterate_shape(rule, g, N_SEED_ITERS as nat);
    lemma_seed_writes_shape(g8, key, positions);
    lemma_iterate_shape(rule, seed_writes(g8, key, positions), N_SEED_ITERS as nat);
}

/// Binds `key` into `automaton` by temporal seeding: advances it 8 generations, sets each
/// position of `seed_positions[i]` to bit `i` of `key`, then advances it 8 generations more.
pub fn temporal_seed_automaton(
    automaton: &mut TalosAutomaton,
    key: u32,
    seed_positions: &[Vec<ToroidalMatrixIndex>],
)
    requires
        old(automaton).wf(),
        seed_positions@.len() <= 32,
    ensures
        final(automaton).wf(),
        final(automaton).rule() == old(automaton).rule(),
        final(automaton).current() == temporal_seed(
            old(automaton).rule(),
            old(automaton).current(),
            key,
            positions_view(seed_positions@),
        ),
{
    automaton.iter_rule(N_SEED_ITERS);
    let ghost g8 = automaton.current();
    let ghost pos = positions_view(seed_positions@);
    let mut bit_pos: usize = 0;
    while bit_pos < seed_positions.len()
        invariant
            automaton.wf(),
            automaton.rule() == old(automaton).rule(),
            pos == positions_view(seed_positions@),
            pos.len() <= 32,
            bit_pos <= pos.len(),
            automaton.current() == seed_writes(g8, key, pos.take(bit_pos as int)),
        decreases pos.len() - bit_pos,
    {
        let overwritten_value: bool = (key >> (bit_pos as u32)) & 1 != 0;
        let seed_position = &seed_positions[bit_pos];
        let ghost base = seed_writes(g8, key, pos.take(bit_pos as int));
        let mut i: usize = 0;
        while i < seed_position.len()
            invariant
                automaton.wf(),
                automaton.rule() == old(automaton).rule(),
                i <= seed_position@.len(),
                automaton.current() == write_all(
                    base,
                    index_view(seed_position@).take(i as int),
                    overwritten_value,
                ),
            decreases seed_position@.len() - i,
        {
            automaton.set_state(&seed_position[i], overwritten_value);
            proof {
                assert(index_view(seed_position@).take(i + 1).drop_last() =~= index_view(
                    seed_position@,
                ).take(i as int));
            }
            i += 1;
        }
        proof {
            assert(index_view(seed_position@).take(seed_position@.len() as int) =~= index_view(
                seed_position@,
            ));
            assert(pos.take(bit_pos + 1).drop_last() =~= pos.take(bit_pos as int));
            assert(overwritten_value == key_bit(key, bit_pos as int));
        }
        bit_pos += 1;
    }
    proof {
        assert(pos.take(pos.len() as int) =~= pos);
    }
    automaton.iter_rule(N_SEED_ITERS);
}

/// The grid of any 32 bytes has the block's shape.
pub proof fn lemma_block_grid_is_block_shape(b: Seq<u8>)
    requires
        b.len() == 32,
    ensures
        is_block_shape(block_grid(b)),
{
    let g = block_grid(b);
    assert forall|r: int| 0 <= r < g.len() implies #[trigger] g[r].len() == g[0].len() by {}
}


/// Error setting up the two automata from their initial grid texts.
#[derive(Debug, PartialEq, Eq, Structural)]
pub enum SetupError {
    /// A grid text could not be read.
    InvalidGrid(TableReadError),
    /// A grid text's lines are of equal length, but not 16 lines of 16 cells.
    NotBlockShaped(),
}

/// The rule both automata follow.
pub open spec fn is_talos_rule(r: AutomatonRule) -> bool {
    &&& r.born@ == seq![false, false, true, true, true, true, true, false, false]
    &&& r.dies@ == seq![true, true, false, false, false, true, true, true, true]
}

/// The rule both automata follow.
pub fn automata_rule() -> (r: AutomatonRule)
    ensures
        is_talos_rule(r),
{
    let r = AutomatonRule {
        born: [false, false, true, true, true, true, true, false, false],
        dies: [true, true, false, false, false, true, true, true, true],
    };
    proof {
        assert(r.born@ =~= seq![false, false, true, true, true, true, true, false, false]);
        assert(r.dies@ =~= seq![true, true, false, false, false, true, true, true, true]);
    }
    r
}

/// The character map of a key: base-32 digit `i` stands for bit `i` of `seed`, `#` for
/// `true` and `.` for `false`.
pub open spec fn key_map(seed: u32) -> Map<char, bool> {
    digit_map(seed, 32).insert('#', true).insert('.', false)
}

/// The grid an initial text stands for under a key, or why it stands for none.
pub open spec fn initial_grid(text: Seq<char>, seed: u32) -> Result<Seq<Seq<bool>>, TableReadError> {
    read_table(text, key_map(seed))
}

/// Where temporal seeding writes each key bit: the positions of base-32 digit `i` in the
/// initial text, for each `i`.
pub open spec fn seed_positions(text: Seq<char>) -> Seq<Seq<(int, int)>> {
    Seq::new(32, |i: int| text_positions(text, base32_digits()[i]))
}

/// Whether a table is 16 rows of 16 entries.
fn is_block_table(table: &Vec<Vec<bool>>) -> (r: bool)
    ensures
        r == (table@.len() == N_ROWS && forall|i: int|
            0 <= i < table@.len() ==> #[trigger] table@[i]@.len() == N_COLS),
{
    if table.len() != N_ROWS {
        return false;
    }
    let mut i: usize = 0;
    while i < table.len()
        invariant
            i <= table@.len(),
            forall|j: int| 0 <= j < i ==> #[trigger] table@[j]@.len() == N_COLS,
        decreases table@.len() - i,
    {
        if table[i].len() != N_COLS {
            return false;
        }
        i += 1;
    }
    true
}

/// Builds an automaton from a parsed 16 by 16 table and seeds it with `seed`.
fn seeded_automaton(
    table: Vec<Vec<bool>>,
    rule: AutomatonRule,
    seed: u32,
    text: &str,
) -> (r: TalosAutomaton)
    requires
        text@.len() <= isize::MAX,
        table@.len() == N_ROWS,
        forall|i: int| 0 <= i < table@.len() ==> #[trigger] table@[i]@.len() == N_COLS,
    ensures
        r.wf(),
        r.rule() == rule,
        r.current() == temporal_seed(rule, crate::matrix::table_grid(table@), seed, seed_positions(text@)),
        is_block_shape(r.current()),
{
    let ghost g = crate::matrix::table_grid(table@);
    proof {
        assert(!crate::matrix::table_is_empty(table@));
        assert(crate::matrix::table_is_rectangular(table@));
        assert(crate::matrix::table_fits(table@));
    }
    let state = TalosMatrix::new(table).unwrap();
    let mut automaton = Automaton::new(state, rule);
    let positions = get_temporal_seed_map(text);
    proof {
        assert(positions_view(positions@) =~= seed_positions(text@));
        automaton.lemma_wf();
    }
    temporal_seed_automaton(&mut automaton, seed, positions.as_slice());
    proof {
        lemma_temporal_seed_shape(rule, g, seed, seed_positions(text@));
    }
    automaton
}

/// Prepares the shift and transpose automata for a key: each starts from its initial grid
/// text read through the key's character map, follows [`automata_rule`], and is seeded
/// with the key by temporal seeding. Returns `(shift, transpose)`.
pub fn get_transpose_shift_automata(seed: u32, s_init: &str, t_init: &str) -> (r: Result<
    (TalosAutomaton, TalosAutomaton),
    SetupError,
>)
    requires
        s_init@.len() <= isize::MAX,
        t_init@.len() <= isize::MAX,
    ensures
        match (initial_grid(s_init@, seed), initial_grid(t_init@, seed)) {
            (Err(e), _) => r == Err::<(TalosAutomaton, TalosAutomaton), _>(
                SetupError::InvalidGrid(e),
            ),
            (Ok(_), Err(e)) => r == Err::<(TalosAutomaton, TalosAutomaton), _>(
                SetupError::InvalidGrid(e),
            ),
            (Ok(sg), Ok(tg)) => if is_block_shape(sg) && is_block_shape(tg) {
                r matches Ok((s, t)) && {
                    &&& s.wf()
                    &&& t.wf()
                    &&& is_talos_rule(s.rule())
                    &&& t.rule() == s.rule()
                    &&& s.current() == temporal_seed(s.rule(), sg, seed, seed_positions(s_init@))
                    &&& t.current() == temporal_seed(t.rule(), tg, seed, seed_positions(t_init@))
                    &&& is_block_shape(s.current())
                    &&& is_block_shape(t.current())
                }
            } else {
                r == Err::<(TalosAutomaton, TalosAutomaton), _>(SetupError::NotBlockShaped())
            },
        },
{
    let mut char_map = gen_char_map(seed);
    char_map.insert('#', true);
    char_map.insert('.', false);
    proof {
        assert(char_map@ == key_map(seed));
    }
    let s_table = match parse_bool_table(s_init, &char_map) {
        Ok(t) => t,
        Err(e) => {
            return Err(SetupError::InvalidGrid(e));
        },
    };
    let t_table = match parse_bool_table(t_init, &char_map) {
        Ok(t) => t,
        Err(e) => {
            return Err(SetupError::InvalidGrid(e));
        },
    };
    let ghost sg = crate::matrix::table_grid(s_table@);
    let ghost tg = crate::matrix::table_grid(t_table@);
    let s_ok = is_block_table(&s_table);
    let t_ok = is_block_table(&t_table);
    proof {
        if s_ok {
            lemma_table_block_shape(s_table@);
        } else if sg.len() == 16 {
            let i = choose|i: int| 0 <= i < s_table@.len() && s_table@[i]@.len() != N_COLS;
            assert(sg[i].len() != 16);
        }
        if t_ok {
            lemma_table_block_shape(t_table@);
        } else if tg.len() == 16 {
            let i = choose|i: int| 0 <= i < t_table@.len() && t_table@[i]@.len() != N_COLS;
            assert(tg[i].len() != 16);
        }
    }
    if !s_ok || !t_ok {
        return Err(SetupError::NotBlockShaped());
    }
    let rule = automata_rule();
    let s_automaton = seeded_automaton(s_table, rule, seed, s_init);
    let t_automaton = seeded_automaton(t_table, rule, seed, t_init);
    Ok((s_automaton, t_automaton))
}

/// For every key whose grid texts set up the automata, decrypting the encryption of a
/// message gives the message back: `c` is what [`encrypt_message_256`] gives for `m`, and
/// `d` what [`decrypt_message_256`] gives for `c`, each with automata that
/// [`get_transpose_shift_automata`] set up from `seed` and the same texts.
pub proof fn lemma_round_trip_for_key(
    m: Seq<u8>,
    c: Seq<u8>,
    d: Seq<u8>,
    rule: AutomatonRule,
    seed: u32,
    s_text: Seq<char>,
    t_text: Seq<char>,
)
    requires
        initial_grid(s_text, seed) is Ok,
        initial_grid(t_text, seed) is Ok,
        is_block_shape(initial_grid(s_text, seed)->Ok_0),
        is_block_shape(initial_grid(t_text, seed)->Ok_0),
        is_encryption(
            m,
            c,
            rule,
            temporal_seed(rule, initial_grid(s_text, seed)->Ok_0, seed, seed_positions(s_text)),
            rule,
            temporal_seed(rule, initial_grid(t_text, seed)->Ok_0, seed, seed_positions(t_text)),
        ),
        is_decryption(
            c,
            d,
            rule,
            temporal_seed(rule, initial_grid(s_text, seed)->Ok_0, seed, seed_positions(s_text)),
            rule,
            temporal_seed(rule, initial_grid(t_text, seed)->Ok_0, seed, seed_positions(t_text)),
        ),
    ensures
        d.len() == 32 * n_blocks(m.len() as int),
        d.take(m.len() as int) == m,
        forall|i: int| m.len() <= i < d.len() ==> d[i] == 0,
{
    let sg = initial_grid(s_text, seed)->Ok_0;
    let tg = initial_grid(t_text, seed)->Ok_0;
    lemma_temporal_seed_shape(rule, sg, seed, seed_positions(s_text));
    lemma_temporal_seed_shape(rule, tg, seed, seed_positions(t_text));
    lemma_decrypt_inverts_encrypt(
        m,
        c,
        d,
        rule,
        temporal_seed(rule, sg, seed, seed_positions(s_text)),
        rule,
        temporal_seed(rule, tg, seed, seed_positions(t_text)),
    );
}

/// A table of 16 rows of 16 entries holds a grid of the block's shape.
proof fn lemma_table_block_shape(t: Seq<Vec<bool>>)
    requires
        t.len() == N_ROWS,
        forall|i: int| 0 <= i < t.len() ==> #[trigger] t[i]@.len() == N_COLS,
    ensures
        is_block_shape(crate::matrix::table_grid(t)),
{
    let g = crate::matrix::table_grid(t);
    assert forall|r: int| 0 <= r < g.len() implies #[trigger] g[r].len() == g[0].len() by {
        assert(g[r] == t[r]@);
        assert(g[0] == t[0]@);
    }
}

} // verus!
