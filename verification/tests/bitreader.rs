use libribzip2::bitwise::bitreader::{BitReader, BitReaderImpl, InMemoryBitReader};
use libribzip2::bitwise::Bit;

#[test]
pub fn reads_0() {
    let vec = vec![0u8, 1, 2, 3];
    let mut reader = BitReaderImpl::from_reader(&vec);
    let bits = reader.read_bits(8);
    assert_eq!(
        bits,
        Ok(vec![
            Bit::Zero,
            Bit::Zero,
            Bit::Zero,
            Bit::Zero,
            Bit::Zero,
            Bit::Zero,
            Bit::Zero,
            Bit::Zero
        ])
    );
}

#[test]
pub fn reads_8() {
    let vec = vec![8u8, 1, 2, 3];
    let mut reader = BitReaderImpl::from_reader(&vec);
    let bits = reader.read_bits(8);
    assert_eq!(
        bits,
        Ok(vec![
            Bit::Zero,
            Bit::Zero,
            Bit::Zero,
            Bit::Zero,
            Bit::One,
            Bit::Zero,
            Bit::Zero,
            Bit::Zero
        ])
    );
}

#[test]
pub fn reads_two_times_8() {
    let vec = vec![8u8, 8u8, 2, 3];
    let mut reader = BitReaderImpl::from_reader(&vec);
    let _ = reader.read_bits(8);
    let bits = reader.read_bits(8);

    assert_eq!(
        bits,
        Ok(vec![
            Bit::Zero,
            Bit::Zero,
            Bit::Zero,
            Bit::Zero,
            Bit::One,
            Bit::Zero,
            Bit::Zero,
            Bit::Zero
        ])
    );
}

#[test]
pub fn reads_9_bits() {
    let vec = vec![0u8, 255u8, 2, 3];
    let mut reader = BitReaderImpl::from_reader(&vec);
    let bits_1 = reader.read_bits(9);
    let bits_2 = reader.read_bits(1);

    assert_eq!(
        bits_1,
        Ok(vec![
            Bit::Zero,
            Bit::Zero,
            Bit::Zero,
            Bit::Zero,
            Bit::Zero,
            Bit::Zero,
            Bit::Zero,
            Bit::Zero,
            Bit::One,
        ])
    );
    assert_eq!(bits_2, Ok(vec![Bit::One]));
}

#[test]
pub fn reads_bytes_then_bits() {
    let vec = vec![42u8, 42u8, 2, 3];
    let mut reader = BitReaderImpl::from_reader(&vec);
    let _ = reader.read_bits(8);
    let bytes = reader.read_bytes(1).unwrap();
    let bits = reader.read_bits(8).unwrap();
    assert_eq!(bytes, vec![42]);
    assert_eq!(
        bits,
        vec![
            Bit::Zero,
            Bit::Zero,
            Bit::Zero,
            Bit::Zero,
            Bit::Zero,
            Bit::Zero,
            Bit::One,
            Bit::Zero,
        ]
    );
}

#[test]
pub fn reading_past_the_end_fails() {
    let vec = vec![1u8];
    let mut reader = BitReaderImpl::from_reader(&vec);
    assert_eq!(reader.read_bits(9), Err(()));
    let mut reader = BitReaderImpl::from_reader(&vec);
    assert!(reader.read_bits(8).is_ok());
    assert!(reader.is_exhausted());
    assert_eq!(reader.read_bits(1), Err(()));
    assert_eq!(reader.read_bits(0), Ok(vec![]));
    let mut reader = BitReaderImpl::from_reader(&vec);
    assert_eq!(reader.read_bytes(2), Err(()));
}

#[test]
pub fn aligns_to_the_next_byte() {
    let vec = vec![0u8, 0x80u8];
    let mut reader = BitReaderImpl::from_reader(&vec);
    reader.align_to_byte();
    assert_eq!(reader.read_bits(3), Ok(vec![Bit::Zero; 3]));
    reader.align_to_byte();
    assert!(!reader.is_exhausted());
    assert_eq!(reader.read_bits(1), Ok(vec![Bit::One]));
    reader.align_to_byte();
    assert!(reader.is_exhausted());
}

#[test]
pub fn reads_bits_from_memory() {
    let bits = vec![Bit::One, Bit::Zero, Bit::One];
    let mut reader = InMemoryBitReader::from_bits(&bits);
    assert_eq!(reader.read_bits(2), Ok(vec![Bit::One, Bit::Zero]));
    assert_eq!(reader.read_bits(2), Err(()));
    assert_eq!(reader.read_bits(1), Ok(vec![Bit::One]));
    assert_eq!(reader.read_bits(0), Ok(vec![]));
    assert_eq!(reader.read_bits(1), Err(()));
}
