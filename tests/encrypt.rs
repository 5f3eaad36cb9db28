use std::collections::HashSet;
use talos::automata::{Automaton, AutomatonRule};
use talos::encrypt::{
    automata_rule, decrypt_message_256, encrypt_message_256, get_transpose_shift_automata,
    read_4_bits, temporal_seed_automaton, SetupError, TalosMatrix,
};
use talos::matrix::{ToroidalBinaryMatrix, ToroidalBoolMatrix};
use talos::parse::TableReadError;

const SYMBOLS: &str = "ABCDEFGHIJKLMNOPQRSTUVWXYZ234567#.";

fn grid_text(step: usize, offset: usize) -> String {
    let symbols: Vec<char> = SYMBOLS.chars().collect();
    let mut text = String::new();
    for r in 0..16 {
        for c in 0..16 {
            text.push(symbols[(offset + r * step + c * (step + 2)) % symbols.len()]);
        }
        text.push('\n');
    }
    text
}

fn s_text() -> String {
    grid_text(5, 0)
}

fn t_text() -> String {
    grid_text(7, 11)
}

fn message() -> Vec<u8> {
    (0..100u32).map(|i| (i * 37 % 251) as u8).collect()
}

fn encrypt(key: u32, message: Vec<u8>) -> Vec<u8> {
    let (mut s, mut t) = get_transpose_shift_automata(key, &s_text(), &t_text()).unwrap();
    encrypt_message_256(message, &mut s, &mut t)
}

fn decrypt(key: u32, ciphertext: Vec<u8>) -> Vec<u8> {
    let (mut s, mut t) = get_transpose_shift_automata(key, &s_text(), &t_text()).unwrap();
    decrypt_message_256(ciphertext, &mut s, &mut t)
}

#[test]
fn read_4_bits_packs_least_significant_first() {
    let m = ToroidalBoolMatrix::new(vec![vec![false, true, true, false]]).unwrap();
    assert_eq!(read_4_bits(&m, (0, 0), (0, 1), (0, 2), (0, 3)), 6);
    assert_eq!(read_4_bits(&m, (0, 3), (0, 2), (0, 1), (0, 0)), 6);
    assert_eq!(read_4_bits(&m, (0, 1), (0, 1), (0, 5), (0, -2)), 15);
    assert_eq!(read_4_bits(&m, (0, 0), (0, 4), (0, 8), (0, 1)), 8);
}

#[test]
fn decrypt_inverts_encrypt() {
    let m = message();
    for key in 0..32 {
        let ciphertext = encrypt(key, m.clone());
        assert_eq!(ciphertext.len(), 128);
        let decrypted = decrypt(key, ciphertext);
        assert_eq!(decrypted.len(), 128);
        assert_eq!(m, decrypted[..m.len()]);
        assert!(decrypted[m.len()..].iter().all(|b| *b == 0));
    }
}

#[test]
fn decrypt_inverts_encrypt_for_large_keys() {
    let m = message();
    for key in [0xffff_ffffu32, 0x8000_0001, 0xdead_beef, 123_456_789] {
        assert_eq!(m, decrypt(key, encrypt(key, m.clone()))[..m.len()]);
    }
}

#[test]
fn output_length_rounds_up_to_blocks() {
    assert_eq!(encrypt(7, vec![]).len(), 0);
    assert_eq!(encrypt(7, vec![1; 32]).len(), 32);
    assert_eq!(encrypt(7, vec![1; 33]).len(), 64);
    assert_eq!(decrypt(7, vec![1; 64]).len(), 64);
}

#[test]
fn encryption_is_deterministic_and_changes_the_message() {
    let m = message();
    let c1 = encrypt(42, m.clone());
    let c2 = encrypt(42, m.clone());
    assert_eq!(c1, c2);
    assert_ne!(c1[..m.len()], m[..]);
}

#[test]
fn encryptions_under_distinct_keys_differ() {
    let m = message();
    let mut seen: HashSet<Vec<u8>> = HashSet::new();
    for key in 0..32 {
        let c = encrypt(key, m.clone());
        assert!(!seen.contains(&c));
        seen.insert(c);
    }
}

#[test]
fn decrypting_with_a_wrong_key_does_not_recover() {
    let m = message();
    let ciphertext = encrypt(0, m.clone());
    let mut seen: HashSet<Vec<u8>> = HashSet::new();
    for key in 1..32 {
        let plaintext = decrypt(key, ciphertext.clone());
        assert_ne!(m, plaintext[..m.len()]);
        assert!(!seen.contains(&plaintext));
        seen.insert(plaintext);
    }
}

#[test]
fn blocks_are_transformed_independently_of_earlier_data() {
    let mut a = vec![0u8; 64];
    let mut b = vec![0u8; 64];
    a[0] = 1;
    b[0] = 2;
    let ca = encrypt(9, a);
    let cb = encrypt(9, b);
    assert_ne!(ca[..32], cb[..32]);
    assert_eq!(ca[32..], cb[32..]);
}

#[test]
fn setup_reports_invalid_characters() {
    let mut bad = s_text();
    bad.replace_range(20..21, "x");
    assert!(matches!(
        get_transpose_shift_automata(1, &bad, &t_text()),
        Err(SetupError::InvalidGrid(TableReadError::InvalidCharacter('x')))
    ));
    assert!(matches!(
        get_transpose_shift_automata(1, &s_text(), "AB?\n"),
        Err(SetupError::InvalidGrid(TableReadError::InvalidCharacter('?')))
    ));
}

#[test]
fn setup_requires_block_shaped_grids() {
    let short: String = s_text().lines().take(15).map(|l| format!("{}\n", l)).collect();
    assert!(matches!(
        get_transpose_shift_automata(1, &short, &t_text()),
        Err(SetupError::NotBlockShaped())
    ));
    let narrow: String = t_text().lines().map(|l| format!("{}\n", &l[..15])).collect();
    assert!(matches!(
        get_transpose_shift_automata(1, &s_text(), &narrow),
        Err(SetupError::NotBlockShaped())
    ));
}

#[test]
fn setup_reports_ragged_grid_text() {
    let mut lines: Vec<String> = s_text().lines().map(|l| l.to_string()).collect();
    lines[3].pop();
    let ragged: String = lines.iter().map(|l| format!("{}\n", l)).collect();
    assert!(matches!(
        get_transpose_shift_automata(1, &ragged, &t_text()),
        Err(SetupError::InvalidGrid(TableReadError::RaggedTable()))
    ));
}

#[test]
fn setup_gives_seeded_block_automata() {
    let (s, t) = get_transpose_shift_automata(3, &s_text(), &t_text()).unwrap();
    assert_eq!(s.get_state().get_rows(), 16);
    assert_eq!(s.get_state().get_cols(), 16);
    assert_eq!(t.get_state().get_rows(), 16);
    assert_eq!(t.get_state().get_cols(), 16);
    let (s2, _) = get_transpose_shift_automata(4, &s_text(), &t_text()).unwrap();
    assert_ne!(s.get_state().to_table(), s2.get_state().to_table());
}

#[test]
fn the_fixed_rule() {
    let rule = automata_rule();
    assert_eq!(rule.born, [false, false, true, true, true, true, true, false, false]);
    assert_eq!(rule.dies, [true, true, false, false, false, true, true, true, true]);
}

#[test]
fn temporal_seeding_writes_key_bits_at_positions() {
    let still = AutomatonRule { born: [false; 9], dies: [false; 9] };
    let state = TalosMatrix::new(vec![vec![false; 16]; 16]).unwrap();
    let mut a = Automaton::new(state, still);
    let positions = vec![vec![(0, 0), (1, 1)], vec![(2, 2)], vec![(3, 3), (-1, -1)]];
    temporal_seed_automaton(&mut a, 0b101, &positions);
    assert!(a.get_state().at(&(0, 0)));
    assert!(a.get_state().at(&(1, 1)));
    assert!(!a.get_state().at(&(2, 2)));
    assert!(a.get_state().at(&(3, 3)));
    assert!(a.get_state().at(&(15, 15)));
    assert_eq!(a.get_state().popcount(), 4);
}
