use libribzip2::bitwise::bitreader::InMemoryBitReader;
use libribzip2::bitwise::Bit;
use libribzip2::block::selectors::{create_selectors, read_unary};
use libribzip2::error::DecodeError;

#[test]
pub fn decodes_one_unary() {
    let encoded = vec![
        Bit::One,
        Bit::One,
        Bit::Zero,
        Bit::One,
        Bit::One,
        Bit::Zero,
        Bit::One,
        Bit::Zero,
    ];

    let mut bit_reader = InMemoryBitReader::from_bits(&encoded);
    assert_eq!(read_unary(&mut bit_reader, 1).unwrap(), vec![2]);
}

#[test]
pub fn decodes_zero_unary() {
    let encoded = vec![
        Bit::One,
        Bit::Zero,
        Bit::Zero,
        Bit::One,
        Bit::One,
        Bit::Zero,
        Bit::One,
        Bit::Zero,
    ];
    let mut bit_reader = InMemoryBitReader::from_bits(&encoded);

    assert_eq!(read_unary(&mut bit_reader, 4).unwrap(), vec![1, 0, 2, 1]);
}

#[test]
pub fn selectors_are_moved_to_the_front() {
    // tables 0, 1, 2: the selector 2 stands at place 2, then at the front
    let (bits, count) = create_selectors(&[2, 2, 0, 1, 1], 3);
    assert_eq!(count, 5);
    let mut bit_reader = InMemoryBitReader::from_bits(&bits);
    assert_eq!(read_unary(&mut bit_reader, 5), Ok(vec![2, 0, 1, 2, 0]));
    // a table that is not used keeps its place
    let (bits, _) = create_selectors(&[2, 0], 3);
    let mut bit_reader = InMemoryBitReader::from_bits(&bits);
    assert_eq!(read_unary(&mut bit_reader, 2), Ok(vec![2, 1]));
    let (bits, count) = create_selectors(&[0, 0, 0], 2);
    assert_eq!(bits, vec![Bit::Zero; 3]);
    assert_eq!(count, 3);
    assert_eq!(create_selectors(&[], 2), (vec![], 0));
}

#[test]
pub fn unary_numbers_end_with_the_input() {
    let mut bit_reader = InMemoryBitReader::from_bits(&[Bit::One, Bit::One]);
    assert_eq!(read_unary(&mut bit_reader, 1), Err(DecodeError::Io));
    let mut bit_reader = InMemoryBitReader::from_bits(&[]);
    assert_eq!(read_unary(&mut bit_reader, 0), Ok(vec![]));
    let ones = vec![Bit::One; 300];
    let mut bit_reader = InMemoryBitReader::from_bits(&ones);
    assert_eq!(read_unary(&mut bit_reader, 1), Err(DecodeError::Format));
    let mut bits = vec![Bit::One; 255];
    bits.push(Bit::Zero);
    let mut bit_reader = InMemoryBitReader::from_bits(&bits);
    assert_eq!(read_unary(&mut bit_reader, 1), Ok(vec![255]));
}
