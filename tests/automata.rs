use talos::automata::{Automaton, AutomatonRule};
use talos::matrix::{ToroidalBinaryMatrix, ToroidalBitMatrix, ToroidalBoolMatrix};

#[test]
fn test_toroidal_matrix_eqivalence() {
    let table_1 = vec![
        vec![false, true, false, false, false, true],
        vec![false, false, false, true, true, true],
        vec![false, true, false, false, false, false],
        vec![false, true, true, false, false, false],
        vec![true, false, false, true, true, false],
        vec![true, true, false, true, false, true],
    ];

    let rule = AutomatonRule {
        born: [false, false, true, true, true, true, true, false, false],
        dies: [true, true, false, false, false, false, true, true, true],
    };

    let mat_1 = ToroidalBitMatrix::<u8>::new(table_1.clone()).unwrap();
    let mat_2 = ToroidalBitMatrix::<u32>::new(table_1.clone()).unwrap();
    let mat_3 = ToroidalBoolMatrix::new(table_1.clone()).unwrap();

    let mut automata_1 = Automaton::<ToroidalBitMatrix<u8>>::new(mat_1, rule.clone());
    let mut automata_2 = Automaton::<ToroidalBitMatrix<u32>>::new(mat_2, rule.clone());
    let mut automata_3 = Automaton::<ToroidalBoolMatrix>::new(mat_3, rule.clone());

    automata_1.iter_rule(32);
    automata_2.iter_rule(32);
    automata_3.iter_rule(32);

    assert_eq!(automata_1.get_state().to_table(), automata_2.get_state().to_table());
    assert_eq!(automata_1.get_state().to_table(), automata_3.get_state().to_table());
    assert_eq!(automata_2.get_state().to_table(), automata_3.get_state().to_table());
}

fn life() -> AutomatonRule {
    AutomatonRule {
        born: [false, false, false, true, false, false, false, false, false],
        dies: [true, true, false, false, true, true, true, true, true],
    }
}

fn blinker() -> Vec<Vec<bool>> {
    let mut t = vec![vec![false; 5]; 5];
    t[2][1] = true;
    t[2][2] = true;
    t[2][3] = true;
    t
}

#[test]
fn blinker_oscillates() {
    let mut a = Automaton::new(ToroidalBoolMatrix::new(blinker()).unwrap(), life());
    a.iter_rule(1);
    let mut vertical = vec![vec![false; 5]; 5];
    vertical[1][2] = true;
    vertical[2][2] = true;
    vertical[3][2] = true;
    assert_eq!(a.get_state().to_table(), vertical);
    a.iter_rule(1);
    assert_eq!(a.get_state().to_table(), blinker());
}

#[test]
fn backings_agree_on_popcount_and_cells() {
    let mut table = vec![vec![false; 9]; 7];
    for (r, row) in table.iter_mut().enumerate() {
        for (c, cell) in row.iter_mut().enumerate() {
            *cell = (r * 7 + c * 3) % 5 < 2;
        }
    }
    let rule = AutomatonRule {
        born: [false, false, true, true, true, true, true, false, false],
        dies: [true, true, false, false, false, true, true, true, true],
    };
    let mut dense = Automaton::new(ToroidalBoolMatrix::new(table.clone()).unwrap(), rule);
    let mut packed = Automaton::new(ToroidalBitMatrix::<u16>::new(table).unwrap(), rule);
    for _ in 0..10 {
        dense.iter_rule(3);
        packed.iter_rule(3);
        assert_eq!(dense.get_state().popcount(), packed.get_state().popcount());
        for r in -7isize..14 {
            for c in -9isize..18 {
                assert_eq!(dense.get_state().at(&(r, c)), packed.get_state().at(&(r, c)));
            }
        }
    }
}

#[test]
fn iterating_in_parts_equals_iterating_at_once() {
    let rule = life();
    let mut table = vec![vec![false; 8]; 8];
    table[0][1] = true;
    table[1][2] = true;
    table[2][0] = true;
    table[2][1] = true;
    table[2][2] = true;
    let mut a = Automaton::new(ToroidalBitMatrix::<u8>::new(table.clone()).unwrap(), rule);
    let mut b = Automaton::new(ToroidalBitMatrix::<u8>::new(table).unwrap(), rule);
    a.iter_rule(3);
    a.iter_rule(9);
    b.iter_rule(12);
    assert_eq!(a.get_state().to_table(), b.get_state().to_table());
    assert_eq!(a.get_state().popcount(), 5);
}

#[test]
fn alive_neighbors_counts_moore_neighbourhood() {
    let full = Automaton::new(ToroidalBoolMatrix::new(vec![vec![true; 3]; 3]).unwrap(), life());
    assert_eq!(full.alive_neighbors((1, 1)), 8);
    assert_eq!(full.alive_neighbors((0, 0)), 8);
    let b = Automaton::new(ToroidalBoolMatrix::new(blinker()).unwrap(), life());
    assert_eq!(b.alive_neighbors((2, 2)), 2);
    assert_eq!(b.alive_neighbors((1, 2)), 3);
    assert_eq!(b.alive_neighbors((0, 0)), 0);
}

#[test]
fn alive_neighbors_on_one_row_counts_the_cell_itself() {
    let a = Automaton::new(
        ToroidalBoolMatrix::new(vec![vec![true, false, true]]).unwrap(),
        life(),
    );
    // rows r-1 and r+1 are row 0 again: the cell's column is counted twice more
    assert_eq!(a.alive_neighbors((0, 1)), 6);
    assert_eq!(a.alive_neighbors((0, 0)), 5);
}

#[test]
fn set_state_returns_prior_value() {
    let mut a = Automaton::new(ToroidalBitMatrix::<u32>::new(blinker()).unwrap(), life());
    assert!(a.set_state(&(2, 2), false));
    assert!(!a.set_state(&(-3, -3), true));
    assert!(a.get_state().at(&(2, 2)));
}

#[test]
fn state_renders_as_text_rows() {
    let a = Automaton::new(ToroidalBitMatrix::<u8>::new(blinker()).unwrap(), life());
    let rows = a.to_text_rows();
    assert_eq!(rows.len(), 5);
    assert_eq!(rows[2], vec!['.', '#', '#', '#', '.']);
    assert_eq!(rows[0], vec!['.'; 5]);
}
