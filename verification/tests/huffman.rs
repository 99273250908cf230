use libribzip2::bitwise::bitreader::BitReaderImpl;
use libribzip2::bitwise::bitwriter::{BitWriter, BitWriterImpl};
use libribzip2::bitwise::Bit;
use libribzip2::block::code_table::{encode_bit_lengths, encode_code_table, read_delta};
use libribzip2::block::delta::{encode_delta, DeltaEncoded, DeltaEncodedSome, DeltaSymbol};
use libribzip2::block::huffman::package_merge::{compute_lis, package_merge, Coin};
use libribzip2::block::huffman::reader::{read_from_table, read_group, read_symbols};
use libribzip2::block::huffman::{
    balanced_lengths, check_complete_code, compute_huffman, CanonicalCodeTable,
    CanonicalCodeTableEntry, CodeTable, CodeTableEntry, HuffmanSymbol,
};
use libribzip2::block::symbol_statistics::IntoFrequencyTable;
use libribzip2::block::zle::ZleSymbol;
use libribzip2::error::DecodeError;

#[test]
pub fn reads_table() {
    let lengths = vec![1, 2, 3, 4];
    let mut writer = BitWriterImpl::from_writer(vec![]);
    writer.write_bits(&encode_bit_lengths(&lengths)).unwrap();
    writer.finalize().unwrap();
    let buf = writer.into_writer();
    let mut bit_reader = BitReaderImpl::from_reader(&buf);
    let read = read_delta(&mut bit_reader, 4);

    assert_eq!(lengths, read.unwrap());
}

#[test]
pub fn encodes() {
    let res = encode_delta(vec![1, 2, 2, 1, 3, 1]);
    assert_eq!(
        res,
        DeltaEncoded::NonEmpty(DeltaEncodedSome {
            start_value: 1,
            deltas: vec![
                DeltaSymbol::Stop,
                DeltaSymbol::Increase,
                DeltaSymbol::Stop,
                DeltaSymbol::Stop,
                DeltaSymbol::Decrease,
                DeltaSymbol::Stop,
                DeltaSymbol::Increase,
                DeltaSymbol::Increase,
                DeltaSymbol::Stop,
                DeltaSymbol::Decrease,
                DeltaSymbol::Decrease,
                DeltaSymbol::Stop
            ]
        })
    )
}

fn symbol(place: u8) -> HuffmanSymbol {
    match place {
        0 => HuffmanSymbol::NormalSymbol(ZleSymbol::RunA),
        1 => HuffmanSymbol::NormalSymbol(ZleSymbol::RunB),
        n => HuffmanSymbol::NormalSymbol(ZleSymbol::Number(n - 1)),
    }
}

#[test]
pub fn canonicalizes_and_sorts_alphabetically() {
    let table = CodeTable(vec![
        CodeTableEntry {
            code: vec![Bit::One, Bit::One].len(),
            symbol: symbol(0),
        },
        CodeTableEntry {
            code: vec![Bit::Zero].len(),
            symbol: symbol(1),
        },
        CodeTableEntry {
            code: vec![Bit::One, Bit::Zero, Bit::One].len(),
            symbol: symbol(2),
        },
        CodeTableEntry {
            code: vec![Bit::One, Bit::Zero, Bit::Zero].len(),
            symbol: symbol(3),
        },
    ]);
    let canonical = table.canonicalize();
    assert_eq!(
        CanonicalCodeTable(vec![
            CanonicalCodeTableEntry {
                code: vec![Bit::One, Bit::Zero],
                symbol: symbol(0),
            },
            CanonicalCodeTableEntry {
                code: vec![Bit::Zero],
                symbol: symbol(1),
            },
            CanonicalCodeTableEntry {
                code: vec![Bit::One, Bit::One, Bit::Zero],
                symbol: symbol(2),
            },
            CanonicalCodeTableEntry {
                code: vec![Bit::One, Bit::One, Bit::One],
                symbol: symbol(3),
            },
        ]),
        canonical
    );
}

#[test]
pub fn compute_code() {
    let res = compute_lis(&[0, 1, 2, 3, 4, 5, 6, 7], 20);
    assert_eq!(res.len(), 8);
    println!("{:?}", res);
}

#[test]
pub fn creates_packages_of_value_1() {
    let res = package_merge(&[
        Coin {
            numismatic_value: 1,
            demonination_exponential: 3,
        },
        Coin {
            numismatic_value: 1,
            demonination_exponential: 3,
        },
        Coin {
            numismatic_value: 3,
            demonination_exponential: 3,
        },
        Coin {
            numismatic_value: 4,
            demonination_exponential: 3,
        },
        Coin {
            numismatic_value: 2,
            demonination_exponential: 2,
        },
        Coin {
            numismatic_value: 5,
            demonination_exponential: 2,
        },
        Coin {
            numismatic_value: 1,
            demonination_exponential: 0,
        },
        Coin {
            numismatic_value: 3,
            demonination_exponential: 0,
        },
    ]);
    for set in res {
        assert!(
            (set.iter()
                .map(|y| 2f64.powf(-(y.demonination_exponential as f64)))
                .sum::<f64>()
                - 1.0)
                .abs()
                < f64::EPSILON
        );
    }
}

#[test]
pub fn reads_symbols() {
    let table = CanonicalCodeTable(vec![
        CanonicalCodeTableEntry {
            code: vec![Bit::Zero],
            symbol: HuffmanSymbol::NormalSymbol(ZleSymbol::RunA),
        },
        CanonicalCodeTableEntry {
            code: vec![Bit::One, Bit::Zero],
            symbol: HuffmanSymbol::NormalSymbol(ZleSymbol::RunB),
        },
        CanonicalCodeTableEntry {
            code: vec![Bit::One, Bit::One, Bit::One, Bit::Zero],
            symbol: HuffmanSymbol::NormalSymbol(ZleSymbol::Number(0)),
        },
        CanonicalCodeTableEntry {
            code: vec![Bit::One, Bit::One, Bit::Zero],
            symbol: HuffmanSymbol::NormalSymbol(ZleSymbol::Number(1)),
        },
        CanonicalCodeTableEntry {
            code: vec![Bit::One, Bit::One, Bit::One, Bit::One],
            symbol: HuffmanSymbol::EoB,
        },
    ]);
    let stream = vec![
        Bit::Zero,
        Bit::One,
        Bit::Zero,
        Bit::One,
        Bit::One,
        Bit::One,
        Bit::Zero,
        Bit::One,
        Bit::One,
        Bit::Zero,
        Bit::One,
        Bit::One,
        Bit::One,
        Bit::One,
    ];
    let mut bit_writer = BitWriterImpl::from_writer(vec![]);
    bit_writer.write_bits(&stream).unwrap();
    bit_writer.finalize().unwrap();
    let bytes = bit_writer.into_writer();

    let mut bit_reader = BitReaderImpl::from_reader(&bytes);

    let code = read_symbols(&mut bit_reader, &table, 5).unwrap();

    let expected_code = vec![
        ZleSymbol::RunA,
        ZleSymbol::RunB,
        ZleSymbol::Number(0),
        ZleSymbol::Number(1),
    ];
    assert_eq!(code, expected_code);
}

fn small_table() -> CanonicalCodeTable {
    CanonicalCodeTable(vec![
        CanonicalCodeTableEntry {
            code: vec![Bit::Zero],
            symbol: HuffmanSymbol::NormalSymbol(ZleSymbol::RunA),
        },
        CanonicalCodeTableEntry {
            code: vec![Bit::One, Bit::Zero],
            symbol: HuffmanSymbol::NormalSymbol(ZleSymbol::RunB),
        },
        CanonicalCodeTableEntry {
            code: vec![Bit::One, Bit::One, Bit::One],
            symbol: HuffmanSymbol::EoB,
        },
    ])
}

#[test]
pub fn reads_groups_up_to_the_end_of_the_block() {
    let table = small_table();
    let bytes = vec![0b0100_1110u8];
    let mut reader = BitReaderImpl::from_reader(&bytes);
    assert_eq!(
        read_group(&mut reader, &table, 2),
        Ok((vec![ZleSymbol::RunA, ZleSymbol::RunB], false))
    );
    assert_eq!(read_group(&mut reader, &table, 0), Ok((vec![], false)));
    assert_eq!(read_group(&mut reader, &table, 50), Ok((vec![ZleSymbol::RunA], true)));
    // the bits 110 are no code of the table
    let bytes = vec![0b1100_0000u8];
    let mut reader = BitReaderImpl::from_reader(&bytes);
    assert_eq!(read_group(&mut reader, &table, 50), Err(DecodeError::Format));
    // the input ends inside a code
    let bytes = vec![0b0000_0001u8];
    let mut reader = BitReaderImpl::from_reader(&bytes);
    assert_eq!(read_symbols(&mut reader, &table, 50), Err(DecodeError::Io));
    assert_eq!(
        read_from_table(&table, &[Bit::One, Bit::Zero]),
        Some(HuffmanSymbol::NormalSymbol(ZleSymbol::RunB))
    );
    assert_eq!(read_from_table(&table, &[Bit::One]), None);
}

fn kraft(lengths: &[usize]) -> f64 {
    lengths.iter().map(|l| 2f64.powi(-(*l as i32))).sum()
}

#[test]
pub fn huffman_codes_are_complete() {
    let mut state = 17u32;
    for round in 0..60usize {
        let size = 1 + (round * 31) % 257;
        let frequencies: Vec<usize> = (0..size)
            .map(|_| {
                state = state.wrapping_mul(1664525).wrapping_add(1013904223);
                match round % 4 {
                    0 => 0,
                    1 => (state >> 28) as usize,
                    2 => (state >> 12) as usize,
                    _ => 2_550_000 - (state >> 30) as usize,
                }
            })
            .collect();
        let table = compute_huffman(IntoFrequencyTable { frequencies });
        let lengths: Vec<usize> = table.0.iter().map(|entry| entry.code).collect();
        assert_eq!(lengths.len(), size + 1);
        assert!(lengths.iter().all(|length| 1 <= *length && *length <= 17));
        assert_eq!(kraft(&lengths), 1.0);
        assert!(check_complete_code(&lengths, 17));
        let mut keys: Vec<HuffmanSymbol> = table.0.iter().map(|entry| entry.symbol).collect();
        keys.dedup();
        assert_eq!(keys.len(), size + 1);
        assert!(keys.contains(&HuffmanSymbol::EoB));
    }
}

#[test]
pub fn huffman_lengths_follow_the_frequencies() {
    // RunA 5 times, RunB once, Number(1) twice, the end of the block never
    let table = compute_huffman(IntoFrequencyTable {
        frequencies: vec![5, 1, 2],
    });
    assert_eq!(
        table.0,
        vec![
            CodeTableEntry { code: 3, symbol: HuffmanSymbol::EoB },
            CodeTableEntry { code: 3, symbol: HuffmanSymbol::NormalSymbol(ZleSymbol::RunB) },
            CodeTableEntry { code: 2, symbol: HuffmanSymbol::NormalSymbol(ZleSymbol::Number(1)) },
            CodeTableEntry { code: 1, symbol: HuffmanSymbol::NormalSymbol(ZleSymbol::RunA) },
        ]
    );
    assert_eq!(compute_lis(&[1, 2, 4, 8], 17), vec![3, 3, 2, 1]);
    assert_eq!(compute_lis(&[1, 2, 4, 8], 2), vec![2, 2, 2, 2]);
    assert_eq!(compute_lis(&[5], 17), vec![0]);
}

#[test]
pub fn even_codes_are_complete() {
    for count in 2..=300usize {
        let lengths = balanced_lengths(count);
        assert_eq!(lengths.len(), count);
        assert_eq!(kraft(&lengths), 1.0);
        let longest = *lengths.iter().max().unwrap();
        let shortest = *lengths.iter().min().unwrap();
        assert!(longest - shortest <= 1);
    }
    assert!(!check_complete_code(&vec![1, 1, 1], 17));
    assert!(!check_complete_code(&vec![1, 2], 17));
    assert!(!check_complete_code(&vec![0], 17));
    assert!(!check_complete_code(&vec![1, 18, 18], 17));
    assert!(check_complete_code(&vec![1, 2, 2], 17));
}

#[test]
pub fn canonical_codes_of_lengths_that_overflow_grow() {
    // three codes of one bit do not fit: the third code takes a second bit
    let table = CodeTable(vec![
        CodeTableEntry { code: 1, symbol: symbol(0) },
        CodeTableEntry { code: 1, symbol: symbol(1) },
        CodeTableEntry { code: 1, symbol: symbol(2) },
    ]);
    let canonical = table.canonicalize();
    let codes: Vec<Vec<Bit>> = canonical.0.iter().map(|entry| entry.code.clone()).collect();
    assert_eq!(
        codes,
        vec![vec![Bit::Zero], vec![Bit::One], vec![Bit::One, Bit::Zero]]
    );
}

#[test]
pub fn tables_from_lengths_cover_the_alphabet() {
    let table = CodeTable::from_weights(&[2, 2, 2, 3, 3]);
    let symbols: Vec<HuffmanSymbol> = table.0.iter().map(|entry| entry.symbol).collect();
    assert_eq!(
        symbols,
        vec![symbol(0), symbol(1), symbol(2), symbol(3), HuffmanSymbol::EoB]
    );
    let canonical = table.canonicalize();
    assert_eq!(canonical.0[4].code, vec![Bit::One, Bit::One, Bit::One]);
    assert_eq!(canonical.0[0].code, vec![Bit::Zero, Bit::Zero]);
    let bits = encode_code_table(&canonical);
    let mut writer = BitWriterImpl::from_writer(vec![]);
    writer.write_bits(&bits).unwrap();
    writer.finalize().unwrap();
    let bytes = writer.into_writer();
    let mut reader = BitReaderImpl::from_reader(&bytes);
    assert_eq!(read_delta(&mut reader, 5), Ok(vec![2, 2, 2, 3, 3]));
}

#[test]
pub fn code_lengths_out_of_range_are_refused() {
    // start value 0
    let bytes = vec![0u8, 0];
    let mut reader = BitReaderImpl::from_reader(&bytes);
    assert_eq!(read_delta(&mut reader, 1), Err(DecodeError::Format));
    // start value 17, the longest length
    let bytes = vec![0b1000_1000u8, 0];
    let mut reader = BitReaderImpl::from_reader(&bytes);
    assert_eq!(read_delta(&mut reader, 1), Ok(vec![17]));
    // start value 17, then a step up
    let bytes = vec![0b1000_1100u8, 0];
    let mut reader = BitReaderImpl::from_reader(&bytes);
    assert_eq!(read_delta(&mut reader, 1), Err(DecodeError::Format));
    // start value 18
    let bytes = vec![0b1001_0000u8, 0];
    let mut reader = BitReaderImpl::from_reader(&bytes);
    assert_eq!(read_delta(&mut reader, 1), Err(DecodeError::Format));
    // start value 1, then a step down
    let bytes = vec![0b0000_1110u8, 0];
    let mut reader = BitReaderImpl::from_reader(&bytes);
    assert_eq!(read_delta(&mut reader, 1), Err(DecodeError::Format));
    // the input ends
    let bytes = vec![0b0000_1101u8];
    let mut reader = BitReaderImpl::from_reader(&bytes);
    assert_eq!(read_delta(&mut reader, 3), Err(DecodeError::Io));
    let bytes = vec![];
    let mut reader = BitReaderImpl::from_reader(&bytes);
    assert_eq!(read_delta(&mut reader, 3), Err(DecodeError::Io));
    assert_eq!(encode_delta(vec![]), DeltaEncoded::Empty);
    assert_eq!(encode_bit_lengths(&[]), Vec::<Bit>::new());
    assert_eq!(
        encode_bit_lengths(&[3, 2]),
        vec![
            Bit::Zero, Bit::Zero, Bit::Zero, Bit::One, Bit::One, Bit::Zero, Bit::One, Bit::One,
            Bit::Zero
        ]
    );
}

#[test]
pub fn entries_are_ordered_by_length_then_symbol() {
    let short_late = CodeTableEntry { code: 2, symbol: HuffmanSymbol::EoB };
    let long_early = CodeTableEntry { code: 3, symbol: HuffmanSymbol::NormalSymbol(ZleSymbol::RunA) };
    let long_late = CodeTableEntry { code: 3, symbol: HuffmanSymbol::NormalSymbol(ZleSymbol::Number(4)) };
    assert!(short_late < long_early);
    assert!(long_early < long_late);
    assert!(long_late > short_late);
    assert!(!(long_late < long_late));
    assert!(HuffmanSymbol::NormalSymbol(ZleSymbol::Number(255)) < HuffmanSymbol::EoB);
    assert!(HuffmanSymbol::NormalSymbol(ZleSymbol::RunB) < HuffmanSymbol::NormalSymbol(ZleSymbol::Number(0)));
    assert_eq!(HuffmanSymbol::EoB.partial_cmp(&HuffmanSymbol::EoB), Some(std::cmp::Ordering::Equal));
}
