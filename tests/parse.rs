use talos::parse::typing::{
    concat_bool_to_u8, concat_bool_to_u8_vec, explode_u8_to_bool, explode_u8_to_bool_vec,
    pack_u8s_to_u32s, unpack_u32s_to_u8s,
};
use talos::parse::{gen_char_map, get_temporal_seed_map, parse_bool_table, CharMap, TableReadError};

#[test]
fn char_map_insert_and_get() {
    let mut map = CharMap::new();
    assert_eq!(map.get(&'#'), None);
    map.insert('#', true);
    map.insert('.', false);
    map.insert('#', false);
    assert_eq!(map.get(&'#'), Some(false));
    assert_eq!(map.get(&'.'), Some(false));
    assert_eq!(map.get(&'x'), None);
}

#[test]
fn gen_char_map_maps_digits_to_key_bits() {
    let map = gen_char_map(1);
    assert_eq!(map.get(&'A'), Some(true));
    assert_eq!(map.get(&'B'), Some(false));
    assert_eq!(map.get(&'7'), Some(false));
    assert_eq!(map.get(&'#'), None);
    assert_eq!(map.get(&'a'), None);

    let map = gen_char_map(0x8000_0004);
    assert_eq!(map.get(&'C'), Some(true));
    assert_eq!(map.get(&'7'), Some(true));
    assert_eq!(map.get(&'Z'), Some(false));
    assert_eq!(map.get(&'2'), Some(false));
}

fn hash_dot_map() -> CharMap {
    let mut map = CharMap::new();
    map.insert('#', true);
    map.insert('.', false);
    map
}

#[test]
fn parse_bool_table_reads_lines() {
    let table = parse_bool_table(".....\n..#..\n...#.\n.###.\n", &hash_dot_map()).unwrap();
    assert_eq!(
        table,
        vec![
            vec![false, false, false, false, false],
            vec![false, false, true, false, false],
            vec![false, false, false, true, false],
            vec![false, true, true, true, false],
        ]
    );
}

#[test]
fn parse_bool_table_handles_line_endings() {
    let table = parse_bool_table("#.\r\n.#", &hash_dot_map()).unwrap();
    assert_eq!(table, vec![vec![true, false], vec![false, true]]);
    let table = parse_bool_table("#.\n.#\n", &hash_dot_map()).unwrap();
    assert_eq!(table, vec![vec![true, false], vec![false, true]]);
    assert_eq!(parse_bool_table("", &hash_dot_map()).unwrap(), Vec::<Vec<bool>>::new());
}

#[test]
fn parse_bool_table_rejects_ragged_text() {
    let result = parse_bool_table("#.#\n.#\n", &hash_dot_map());
    assert!(matches!(result, Err(TableReadError::RaggedTable())));
    let result = parse_bool_table("#.\n\n.#\n", &hash_dot_map());
    assert!(matches!(result, Err(TableReadError::RaggedTable())));
    // an unknown character is reported before raggedness
    let result = parse_bool_table("#.#\n.x\n", &hash_dot_map());
    assert!(matches!(result, Err(TableReadError::InvalidCharacter('x'))));
}

#[test]
fn parse_bool_table_reports_first_invalid_character() {
    let result = parse_bool_table("#.\n.a#b\n#c", &hash_dot_map());
    assert!(matches!(result, Err(TableReadError::InvalidCharacter('a'))));
}

#[test]
fn parse_bool_table_with_key_digits() {
    let mut map = gen_char_map(0b10);
    map.insert('#', true);
    map.insert('.', false);
    let table = parse_bool_table("AB#\n.BA\n", &map).unwrap();
    assert_eq!(table, vec![vec![false, true, true], vec![false, true, false]]);
}

#[test]
fn temporal_seed_map_lists_digit_positions() {
    let map = get_temporal_seed_map("A.A.B\n##A.A");
    assert_eq!(map.len(), 32);
    assert_eq!(map[0], vec![(0, 0), (0, 2), (1, 2), (1, 4)]);
    assert_eq!(map[1], vec![(0, 4)]);
    assert!(map[2..].iter().all(|v| v.is_empty()));
    let map = get_temporal_seed_map("7.\n.2\n");
    assert_eq!(map[31], vec![(0, 0)]);
    assert_eq!(map[26], vec![(1, 1)]);
}

#[test]
fn pack_and_unpack_words() {
    assert_eq!(pack_u8s_to_u32s(&[1, 2, 3, 4, 5]), vec![0x0403_0201, 5]);
    assert_eq!(pack_u8s_to_u32s(&[]), Vec::<u32>::new());
    assert_eq!(pack_u8s_to_u32s(&[0xff, 0xff, 0xff, 0xff]), vec![u32::MAX]);
    assert_eq!(unpack_u32s_to_u8s(&[0x0403_0201, 5]), vec![1, 2, 3, 4, 5, 0, 0, 0]);
    let bytes: Vec<u8> = (0..=255u8).collect();
    assert_eq!(unpack_u32s_to_u8s(&pack_u8s_to_u32s(&bytes)), bytes);
}

#[test]
fn explode_and_concat_bits() {
    assert_eq!(
        explode_u8_to_bool(6),
        vec![false, true, true, false, false, false, false, false]
    );
    assert_eq!(explode_u8_to_bool_vec(vec![1, 128]).len(), 16);
    assert!(explode_u8_to_bool_vec(vec![1, 128])[0]);
    assert!(explode_u8_to_bool_vec(vec![1, 128])[15]);
    assert_eq!(concat_bool_to_u8(vec![false, true, true, false]), 6);
    assert_eq!(concat_bool_to_u8(vec![true; 8]), 255);
    assert_eq!(concat_bool_to_u8(vec![]), 0);
    let bytes = vec![0u8, 7, 200, 255, 31];
    assert_eq!(concat_bool_to_u8_vec(explode_u8_to_bool_vec(bytes.clone())), bytes);
    assert_eq!(concat_bool_to_u8_vec(vec![true; 10]), vec![255, 3]);
}

#[test]
fn table_read_error_messages() {
    assert_eq!(TableReadError::InvalidCharacter('x').message(), "Invalid character");
    assert_eq!(TableReadError::RaggedTable().message(), "Ragged table");
}
