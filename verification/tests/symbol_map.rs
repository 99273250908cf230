use libribzip2::bitwise::bitreader::InMemoryBitReader;
use libribzip2::bitwise::Bit;
use libribzip2::block::symbol_map::{
    get_symbol_table, get_used_regions, get_used_symbols_from_regions, read_symbol_table,
};
use libribzip2::error::DecodeError;
use std::iter::repeat;

fn zeros(num: usize) -> Vec<Bit> {
    repeat(Bit::Zero).take(num).collect::<Vec<_>>()
}

#[test]
pub fn one_symbol() {
    let out = &get_symbol_table(vec![0]);
    let mut expected = vec![Bit::One];

    expected.append(&mut zeros(15));
    assert_eq!(&out[0..16], expected);
    assert_eq!(&out[16..32], expected);
    assert_eq!(out.len(), 32);
}

#[test]
pub fn two_symbols_in_same_range() {
    let out = &get_symbol_table(vec![0, 1]);
    let mut expected = vec![Bit::One];

    expected.append(&mut zeros(15));
    assert_eq!(&out[0..16], expected);

    let mut expected = vec![Bit::One, Bit::One];
    expected.append(&mut zeros(14));

    assert_eq!(&out[16..32], expected);
    assert_eq!(out.len(), 32);
}

#[test]
pub fn two_symbols_in_different_ranges() {
    let out = &get_symbol_table(vec![0, 16]);
    let mut expected_overview = vec![Bit::One, Bit::One];

    expected_overview.append(&mut zeros(14));
    assert_eq!(&out[0..16], expected_overview);

    let mut expected_detail = vec![Bit::One];
    expected_detail.append(&mut zeros(15));

    assert_eq!(&out[16..32], expected_detail);
    assert_eq!(&out[32..48], expected_detail);

    assert_eq!(out.len(), 48);
}

#[test]
pub fn two_symbols_in_non_neighboured_ranges() {
    let out = &get_symbol_table(vec![0, 32]);
    let mut expected_overview = vec![Bit::One, Bit::Zero, Bit::One];

    expected_overview.append(&mut zeros(13));
    assert_eq!(&out[0..16], expected_overview);

    let mut expected_detail = vec![Bit::One];
    expected_detail.append(&mut zeros(15));

    assert_eq!(&out[16..32], expected_detail);
    assert_eq!(&out[32..48], expected_detail);

    assert_eq!(out.len(), 48);
}

#[test]
pub fn decodes() {
    let bit_pattern = vec![
        Bit::Zero,
        Bit::One,
        Bit::Zero,
        Bit::One,
        Bit::Zero,
        Bit::Zero,
        Bit::Zero,
        Bit::Zero,
        Bit::Zero,
        Bit::Zero,
        Bit::Zero,
        Bit::Zero,
        Bit::Zero,
        Bit::Zero,
        Bit::Zero,
        Bit::One,
    ];

    assert_eq!(get_used_regions(&bit_pattern), vec![1, 3, 15]);
}

#[test]
pub fn computes_used_symbol() {
    let bit_pattern = vec![
        Bit::Zero,
        Bit::One,
        Bit::Zero,
        Bit::Zero,
        Bit::Zero,
        Bit::Zero,
        Bit::Zero,
        Bit::Zero,
        Bit::Zero,
        Bit::Zero,
        Bit::Zero,
        Bit::Zero,
        Bit::Zero,
        Bit::Zero,
        Bit::Zero,
        Bit::Zero,
        Bit::Zero,
    ];
    let used_symbols = get_used_symbols_from_regions(&[1], bit_pattern);
    assert_eq!(used_symbols, vec![17]);
}

#[test]
pub fn computes_more_used_symbols() {
    let mut bit_pattern = vec![
        Bit::Zero,
        Bit::One,
        Bit::Zero,
        Bit::Zero,
        Bit::Zero,
        Bit::Zero,
        Bit::Zero,
        Bit::Zero,
        Bit::Zero,
        Bit::Zero,
        Bit::Zero,
        Bit::Zero,
        Bit::Zero,
        Bit::Zero,
        Bit::Zero,
        Bit::Zero,
    ];
    bit_pattern.append(&mut bit_pattern.clone());
    let used_symbols = get_used_symbols_from_regions(&[1, 2], bit_pattern);
    assert_eq!(used_symbols, vec![17, 33]);
}

#[test]
pub fn computes_even_more_used_symbols() {
    let mut bit_pattern = vec![
        Bit::Zero,
        Bit::One,
        Bit::Zero,
        Bit::Zero,
        Bit::Zero,
        Bit::Zero,
        Bit::Zero,
        Bit::Zero,
        Bit::Zero,
        Bit::Zero,
        Bit::Zero,
        Bit::Zero,
        Bit::Zero,
        Bit::Zero,
        Bit::Zero,
        Bit::Zero,
    ];
    let mut second_bit_pattern = vec![
        Bit::Zero,
        Bit::Zero,
        Bit::Zero,
        Bit::Zero,
        Bit::Zero,
        Bit::Zero,
        Bit::Zero,
        Bit::Zero,
        Bit::Zero,
        Bit::Zero,
        Bit::Zero,
        Bit::Zero,
        Bit::Zero,
        Bit::Zero,
        Bit::Zero,
        Bit::One,
    ];
    bit_pattern.append(&mut bit_pattern.clone());
    second_bit_pattern.append(&mut bit_pattern);
    let used_symbols = get_used_symbols_from_regions(&[0, 1, 2], second_bit_pattern);
    assert_eq!(used_symbols, vec![15, 17, 33]);
}

#[test]
pub fn symbol_maps_survive_the_round_trip() {
    let tables: Vec<Vec<u8>> = vec![
        vec![0],
        vec![255],
        vec![0, 16],
        vec![97, 98, 110],
        (0..=255).collect(),
        (0..=255).filter(|b| b % 3 == 1).collect(),
        vec![],
    ];
    for table in tables {
        let bits = get_symbol_table(table.clone());
        let regions = bits[..16].iter().filter(|bit| **bit == Bit::One).count();
        assert_eq!(bits.len(), 16 + 16 * regions);
        let mut reader = InMemoryBitReader::from_bits(&bits);
        assert_eq!(read_symbol_table(&mut reader), Ok(table));
    }
    // the order in which the bytes are given does not matter
    assert_eq!(get_symbol_table(vec![110, 97, 98, 97]), get_symbol_table(vec![97, 98, 110]));
}

#[test]
pub fn symbol_maps_end_with_the_input() {
    let mut reader = InMemoryBitReader::from_bits(&zeros(15));
    assert_eq!(read_symbol_table(&mut reader), Err(DecodeError::Io));
    let mut bits = vec![Bit::One];
    bits.append(&mut zeros(30));
    let mut reader = InMemoryBitReader::from_bits(&bits);
    assert_eq!(read_symbol_table(&mut reader), Err(DecodeError::Io));
}
