use talos::matrix::{
    MatrixConstructError, MatrixOpError, ToroidalBinaryMatrix, ToroidalBitMatrix,
    ToroidalBoolMatrix,
};

#[test]
fn toroidal_bool_matrix_test_new_ok() {
    let table_1 = vec![vec![false, false, false], vec![false, false, true]];
    let table_2 = vec![vec![false], vec![true], vec![true], vec![true]];

    let mat_1 = ToroidalBoolMatrix::new(table_1).unwrap();
    let mat_2 = ToroidalBoolMatrix::new(table_2).unwrap();

    assert_eq!(mat_1.get_rows(), 2);
    assert_eq!(mat_1.get_cols(), 3);

    assert_eq!(mat_2.get_rows(), 4);
    assert_eq!(mat_2.get_cols(), 1);
}

#[test]
fn toroidal_bool_matrix_test_new_empty() {
    let empty_table_1: Vec<Vec<bool>> = vec![];
    let empty_table_2: Vec<Vec<bool>> = vec![vec![], vec![]];

    let mat_1 = ToroidalBoolMatrix::new(empty_table_1);
    let mat_2 = ToroidalBoolMatrix::new(empty_table_2);

    assert!(matches!(mat_1, Err(MatrixConstructError::EmptyTable())));
    assert!(matches!(mat_2, Err(MatrixConstructError::EmptyTable())));
}

#[test]
fn toroidal_bool_matrix_test_new_ragged() {
    let ragged_table = vec![vec![false], vec![false, true]];

    let mat_ragged = ToroidalBoolMatrix::new(ragged_table);

    assert!(matches!(mat_ragged, Err(MatrixConstructError::RaggedTable())));
}

#[test]
fn toroidal_bool_matrix_test_new_empty_ragged() {
    let table_1 = vec![vec![false], vec![false, true], vec![]];
    let table_2 = vec![vec![], vec![false, true], vec![false]];

    let mat_1 = ToroidalBoolMatrix::new(table_1);
    let mat_2 = ToroidalBoolMatrix::new(table_2);

    assert!(matches!(mat_1, Err(MatrixConstructError::EmptyTable())));
    assert!(matches!(mat_2, Err(MatrixConstructError::EmptyTable())));
}

#[test]
fn test_popcount() {
    let table_1 = vec![
        vec![false, false, true, true],
        vec![false, false, true, false],
    ];
    let table_2 = vec![
        vec![true],
        vec![false],
        vec![true],
        vec![true],
        vec![true],
        vec![true],
    ];

    let mat_1 = ToroidalBoolMatrix::new(table_1).unwrap();
    let mat_2 = ToroidalBoolMatrix::new(table_2).unwrap();

    assert_eq!(mat_1.popcount(), 3);
    assert_eq!(mat_2.popcount(), 5);
}

#[test]
fn toroidal_bit_matrix_test_new_ok() {
    let table_1 = vec![vec![false, false, false], vec![false, false, true]];
    let table_2 = vec![vec![false], vec![true], vec![true], vec![true]];

    let mat_1 = ToroidalBitMatrix::<u32>::new(table_1).unwrap();
    let mat_2 = ToroidalBitMatrix::<u32>::new(table_2).unwrap();

    assert_eq!(mat_1.get_rows(), 2);
    assert_eq!(mat_1.get_cols(), 3);

    assert_eq!(mat_2.get_rows(), 4);
    assert_eq!(mat_2.get_cols(), 1);
}

#[test]
fn toroidal_bit_matrix_test_new_empty() {
    let empty_table_1: Vec<Vec<bool>> = vec![];
    let empty_table_2: Vec<Vec<bool>> = vec![vec![], vec![]];

    let mat_1 = ToroidalBitMatrix::<u32>::new(empty_table_1);
    let mat_2 = ToroidalBitMatrix::<u32>::new(empty_table_2);

    assert!(matches!(mat_1, Err(MatrixConstructError::EmptyTable())));
    assert!(matches!(mat_2, Err(MatrixConstructError::EmptyTable())));
}

#[test]
fn toroidal_bit_matrix_test_new_ragged() {
    let ragged_table = vec![vec![false], vec![false, true]];

    let mat_ragged = ToroidalBitMatrix::<u32>::new(ragged_table);

    assert!(matches!(mat_ragged, Err(MatrixConstructError::RaggedTable())));
}

#[test]
fn toroidal_bit_matrix_test_new_empty_ragged() {
    let table_1 = vec![vec![false], vec![false, true], vec![]];
    let table_2 = vec![vec![], vec![false, true], vec![false]];

    let mat_1 = ToroidalBitMatrix::<u32>::new(table_1);
    let mat_2 = ToroidalBitMatrix::<u32>::new(table_2);

    assert!(matches!(mat_1, Err(MatrixConstructError::EmptyTable())));
    assert!(matches!(mat_2, Err(MatrixConstructError::EmptyTable())));
}

#[test]
fn test_from_storage_ok() {
    let storage = vec![
        0b0000_0000_0000_0000_0000_0000_0000_0000u32,
        0b0000_0000_0000_0000_0000_0000_0000_0000u32,
        0b0000_0000_0000_0000_0000_0000_0000_0000u32,
    ];

    let mat_1 = ToroidalBitMatrix::<u32>::from_storage(3, 32, storage.clone()).unwrap();
    let mat_2 = ToroidalBitMatrix::<u32>::from_storage(32, 3, storage.clone()).unwrap();
    let mat_3 = ToroidalBitMatrix::<u32>::from_storage(31, 3, storage.clone()).unwrap();

    assert_eq!(mat_1.get_rows(), 3);
    assert_eq!(mat_1.get_cols(), 32);

    assert_eq!(mat_2.get_rows(), 32);
    assert_eq!(mat_2.get_cols(), 3);

    assert_eq!(mat_3.get_rows(), 31);
    assert_eq!(mat_3.get_cols(), 3);
}

#[test]
fn test_from_storage_empty() {
    let storage = vec![
        0b0000_0000_0000_0000_0000_0000_0000_0000u32,
        0b0000_0000_0000_0000_0000_0000_0000_0000u32,
        0b0000_0000_0000_0000_0000_0000_0000_0000u32,
    ];

    let empty_storage: Vec<u32> = vec![];

    let err_1 = ToroidalBitMatrix::<u32>::from_storage(0, 0, storage.clone());
    let err_2 = ToroidalBitMatrix::<u32>::from_storage(1, 0, storage.clone());
    let err_3 = ToroidalBitMatrix::<u32>::from_storage(0, 1, storage.clone());
    let err_4 = ToroidalBitMatrix::<u32>::from_storage(1, 1, empty_storage.clone());

    assert!(matches!(err_1, Err(MatrixConstructError::EmptyTable())));
    assert!(matches!(err_2, Err(MatrixConstructError::EmptyTable())));
    assert!(matches!(err_3, Err(MatrixConstructError::EmptyTable())));
    assert!(matches!(err_4, Err(MatrixConstructError::EmptyTable())));
}

#[test]
fn test_from_storage_invalid() {
    let storage = vec![
        0b0000_0000_0000_0000_0000_0000_0000_0000u32,
        0b0000_0000_0000_0000_0000_0000_0000_0000u32,
        0b0000_0000_0000_0000_0000_0000_0000_0000u32,
    ];

    // 96 bits in 32-bit words: only 65 to 96 cells fit exactly three words.
    let err_1 = ToroidalBitMatrix::<u32>::from_storage(64, 1, storage.clone());
    let err_2 = ToroidalBitMatrix::<u32>::from_storage(97, 1, storage.clone());

    assert!(matches!(err_1, Err(MatrixConstructError::InvalidStorage())));
    assert!(matches!(err_2, Err(MatrixConstructError::InvalidStorage())));
}

#[test]
fn bit_from_storage_clears_padding_bits() {
    // 2 x 3 = 6 cells in one byte: bits 6 and 7 are padding.
    let m = ToroidalBitMatrix::<u8>::from_storage(2, 3, vec![0b1110_0101]).unwrap();
    assert_eq!(m.get_storage(), &vec![0b0010_0101u8]);
    assert_eq!(m.popcount(), 3);
    assert_eq!(m.to_table(), vec![vec![true, false, true], vec![false, false, true]]);
}

#[test]
fn bool_from_storage() {
    let m = ToroidalBoolMatrix::from_storage(2, 2, vec![true, false, false, true]).unwrap();
    assert_eq!(m.to_table(), vec![vec![true, false], vec![false, true]]);
    assert!(matches!(
        ToroidalBoolMatrix::from_storage(2, 3, vec![true; 4]),
        Err(MatrixConstructError::InvalidStorage())
    ));
    assert!(matches!(
        ToroidalBoolMatrix::from_storage(0, 3, vec![true; 4]),
        Err(MatrixConstructError::EmptyTable())
    ));
    assert_eq!(m.get_storage(), &vec![true, false, false, true]);
}

#[test]
fn bit_storage_is_row_major_lsb_first() {
    let table = vec![
        vec![true, false, false, false, false, false, false, false, false, true],
        vec![false, true, false, false, false, false, false, false, false, false],
    ];
    let m = ToroidalBitMatrix::<u8>::new(table).unwrap();
    // cells 0, 9 and 11 are set
    assert_eq!(m.get_storage(), &vec![0b0000_0001u8, 0b0000_1010, 0]);
}

#[test]
fn canonize_uses_euclidean_remainder() {
    let m = ToroidalBoolMatrix::new(vec![vec![false; 5]; 3]).unwrap();
    assert_eq!(m.canonize_row_index(1), 1);
    assert_eq!(m.canonize_row_index(-1), 2);
    assert_eq!(m.canonize_row_index(5), 2);
    assert_eq!(m.canonize_col_index(-1), 4);
    assert_eq!(m.canonize_col_index(5), 0);
    assert_eq!(m.canonize_index((1, 3)), (1, 3));
    assert_eq!(m.canonize_index((-2, 15)), (1, 0));
    assert_eq!(m.canonize_index((5, -12)), (2, 3));
}

#[test]
fn canonize_is_idempotent() {
    let m = ToroidalBitMatrix::<u16>::new(vec![vec![false; 7]; 4]).unwrap();
    for r in -20isize..20 {
        for c in -20isize..20 {
            let (cr, cc) = m.canonize_index((r, c));
            assert_eq!(m.canonize_index((cr as isize, cc as isize)), (cr, cc));
        }
    }
}

#[test]
fn at_and_set_wrap_around() {
    let mut m = ToroidalBitMatrix::<u8>::new(vec![vec![false; 4]; 3]).unwrap();
    assert!(!m.set(&(-1, -1), true));
    assert!(m.at(&(2, 3)));
    assert!(m.at(&(5, 7)));
    assert!(m.set(&(2, 3), false));
    assert_eq!(m.popcount(), 0);

    let mut d = ToroidalBoolMatrix::new(vec![vec![false; 4]; 3]).unwrap();
    assert!(!d.set(&(3, 4), true));
    assert!(d.at(&(0, 0)));
    assert_eq!(d.num_elements(), 12);
}

fn sample_table() -> Vec<Vec<bool>> {
    vec![
        vec![true, false, true, true],
        vec![false, false, true, false],
        vec![true, true, false, false],
    ]
}

#[test]
fn xor_twice_restores() {
    let other_table = vec![
        vec![false, true, true, false],
        vec![true, true, true, true],
        vec![false, false, false, true],
    ];
    let mut a = ToroidalBitMatrix::<u8>::new(sample_table()).unwrap();
    let b = ToroidalBitMatrix::<u8>::new(other_table.clone()).unwrap();
    a.bitwise_xor(&b).unwrap();
    assert_eq!(
        a.to_table(),
        vec![
            vec![true, true, false, true],
            vec![true, true, false, true],
            vec![true, true, false, true],
        ]
    );
    a.bitwise_xor(&b).unwrap();
    assert_eq!(a.to_table(), sample_table());

    let mut c = ToroidalBoolMatrix::new(sample_table()).unwrap();
    let d = ToroidalBoolMatrix::new(other_table).unwrap();
    c.bitwise_xor(&d).unwrap();
    c.bitwise_xor(&d).unwrap();
    assert_eq!(c.to_table(), sample_table());
}

#[test]
fn xor_of_different_shapes_fails() {
    let mut a = ToroidalBoolMatrix::new(sample_table()).unwrap();
    let b = ToroidalBoolMatrix::new(vec![vec![true; 3]; 4]).unwrap();
    assert!(matches!(a.bitwise_xor(&b), Err(MatrixOpError::DifferentShapes())));
    assert_eq!(a.to_table(), sample_table());

    let mut c = ToroidalBitMatrix::<u32>::new(sample_table()).unwrap();
    let d = ToroidalBitMatrix::<u32>::new(vec![vec![true; 4]; 2]).unwrap();
    assert!(matches!(c.bitwise_xor(&d), Err(MatrixOpError::DifferentShapes())));
    assert_eq!(c.to_table(), sample_table());
}

#[test]
fn swap_rows_and_cols_agree_across_backings() {
    let mut a = ToroidalBoolMatrix::new(sample_table()).unwrap();
    let mut b = ToroidalBitMatrix::<u8>::new(sample_table()).unwrap();
    a.swap_rows(0, -1);
    b.swap_rows(0, -1);
    let expected = vec![
        vec![true, true, false, false],
        vec![false, false, true, false],
        vec![true, false, true, true],
    ];
    assert_eq!(a.to_table(), expected);
    assert_eq!(b.to_table(), expected);

    a.swap_cols(1, 6);
    b.swap_cols(1, 6);
    let expected = vec![
        vec![true, false, true, false],
        vec![false, true, false, false],
        vec![true, true, false, true],
    ];
    assert_eq!(a.to_table(), expected);
    assert_eq!(b.to_table(), expected);

    a.swap_entries(&(0, 0), &(1, 0));
    b.swap_entries(&(0, 0), &(1, 0));
    assert_eq!(a.to_table(), b.to_table());
    assert!(!a.at(&(0, 0)));
    assert!(a.at(&(1, 0)));
}

#[test]
fn popcount_agrees_across_word_widths() {
    let table = vec![vec![true, false, true, true, false, true, true]; 5];
    assert_eq!(ToroidalBoolMatrix::new(table.clone()).unwrap().popcount(), 25);
    assert_eq!(ToroidalBitMatrix::<u8>::new(table.clone()).unwrap().popcount(), 25);
    assert_eq!(ToroidalBitMatrix::<u16>::new(table.clone()).unwrap().popcount(), 25);
    assert_eq!(ToroidalBitMatrix::<u64>::new(table.clone()).unwrap().popcount(), 25);
    assert_eq!(ToroidalBitMatrix::<u128>::new(table).unwrap().popcount(), 25);
}

#[test]
fn error_messages() {
    assert_eq!(MatrixConstructError::RaggedTable().message(), "Ragged table");
    assert_eq!(MatrixConstructError::EmptyTable().message(), "Empty table");
    assert_eq!(MatrixConstructError::InvalidStorage().message(), "Invalid storage");
    assert_eq!(MatrixOpError::DifferentShapes().message(), "Different shapes");
    assert_eq!(MatrixOpError::IncompatibleShapes().message(), "Incompatible shapes");
}
