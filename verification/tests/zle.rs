use libribzip2::block::zle::{
    convert_remainder, decode_zero_amount, decode_zle, decode_zle_bounded, encode_zero_amount,
    zle_transform, PropabilityMap, ZleSymbol,
};

#[test]
pub fn decodes_zero_amount() {
    let data = vec![
        (1, vec![ZleSymbol::RunA]),
        (2, vec![ZleSymbol::RunB]),
        (3, vec![ZleSymbol::RunA, ZleSymbol::RunA]),
        (4, vec![ZleSymbol::RunB, ZleSymbol::RunA]),
        (5, vec![ZleSymbol::RunA, ZleSymbol::RunB]),
        (6, vec![ZleSymbol::RunB, ZleSymbol::RunB]),
        (7, vec![ZleSymbol::RunA, ZleSymbol::RunA, ZleSymbol::RunA]),
        (8, vec![ZleSymbol::RunB, ZleSymbol::RunA, ZleSymbol::RunA]),
        (9, vec![ZleSymbol::RunA, ZleSymbol::RunB, ZleSymbol::RunA]),
        (10, vec![ZleSymbol::RunB, ZleSymbol::RunB, ZleSymbol::RunA]),
        (11, vec![ZleSymbol::RunA, ZleSymbol::RunA, ZleSymbol::RunB]),
        (12, vec![ZleSymbol::RunB, ZleSymbol::RunA, ZleSymbol::RunB]),
        (13, vec![ZleSymbol::RunA, ZleSymbol::RunB, ZleSymbol::RunB]),
        (14, vec![ZleSymbol::RunB, ZleSymbol::RunB, ZleSymbol::RunB]),
        (
            63,
            vec![
                ZleSymbol::RunA,
                ZleSymbol::RunA,
                ZleSymbol::RunA,
                ZleSymbol::RunA,
                ZleSymbol::RunA,
                ZleSymbol::RunA,
            ],
        ),
    ];
    for (num, encoded) in data.into_iter() {
        let zeroes = decode_zero_amount(&encoded);
        assert_eq!(zeroes, num);
    }
}

#[test]
pub fn encodes_zero_amount() {
    let data = vec![
        (1, vec![ZleSymbol::RunA]),
        (2, vec![ZleSymbol::RunB]),
        (3, vec![ZleSymbol::RunA, ZleSymbol::RunA]),
        (4, vec![ZleSymbol::RunB, ZleSymbol::RunA]),
        (5, vec![ZleSymbol::RunA, ZleSymbol::RunB]),
        (6, vec![ZleSymbol::RunB, ZleSymbol::RunB]),
        (7, vec![ZleSymbol::RunA, ZleSymbol::RunA, ZleSymbol::RunA]),
        (8, vec![ZleSymbol::RunB, ZleSymbol::RunA, ZleSymbol::RunA]),
        (9, vec![ZleSymbol::RunA, ZleSymbol::RunB, ZleSymbol::RunA]),
        (10, vec![ZleSymbol::RunB, ZleSymbol::RunB, ZleSymbol::RunA]),
        (11, vec![ZleSymbol::RunA, ZleSymbol::RunA, ZleSymbol::RunB]),
        (12, vec![ZleSymbol::RunB, ZleSymbol::RunA, ZleSymbol::RunB]),
        (13, vec![ZleSymbol::RunA, ZleSymbol::RunB, ZleSymbol::RunB]),
        (14, vec![ZleSymbol::RunB, ZleSymbol::RunB, ZleSymbol::RunB]),
        (
            63,
            vec![
                ZleSymbol::RunA,
                ZleSymbol::RunA,
                ZleSymbol::RunA,
                ZleSymbol::RunA,
                ZleSymbol::RunA,
                ZleSymbol::RunA,
            ],
        ),
    ];
    for (num, encoded) in data.into_iter() {
        let zeroes = encode_zero_amount(num);
        assert_eq!(zeroes, encoded);
    }
}

#[test]
fn encodes_zeros() {
    let encoded = zle_transform(vec![0, 0, 0], 1);
    assert_eq!(encoded.0, vec![ZleSymbol::RunA, ZleSymbol::RunA]);
}

#[test]
fn encodes_zeros_and_numbers() {
    let encoded = zle_transform(vec![1, 0, 0, 0], 2);
    assert_eq!(
        encoded.0,
        vec![ZleSymbol::Number(1), ZleSymbol::RunA, ZleSymbol::RunA]
    );
}

#[test]
fn decodes_zeros_and_numbers() {
    let encoded = decode_zle(&[ZleSymbol::Number(1), ZleSymbol::RunA, ZleSymbol::RunA]);
    assert_eq!(encoded, vec![1, 0, 0, 0]);
}

#[test]
fn encodes_zeros_and_trailing_numbers() {
    let encoded = zle_transform(vec![1, 0, 0, 0, 2], 3).0;
    assert_eq!(
        encoded,
        vec![
            ZleSymbol::Number(1),
            ZleSymbol::RunA,
            ZleSymbol::RunA,
            ZleSymbol::Number(2)
        ]
    );
}

#[test]
fn decodes_zeros_and_trailing_numbers() {
    let encoded = decode_zle(&[
        ZleSymbol::Number(1),
        ZleSymbol::RunA,
        ZleSymbol::RunA,
        ZleSymbol::Number(2),
    ]);
    assert_eq!(encoded, vec![1, 0, 0, 0, 2]);
}

#[test]
fn encodes_numbers_and_trailing_zeroes() {
    let encoded = zle_transform(vec![1, 0, 0, 0, 2, 0, 0], 3);
    assert_eq!(
        encoded.0,
        vec![
            ZleSymbol::Number(1),
            ZleSymbol::RunA,
            ZleSymbol::RunA,
            ZleSymbol::Number(2),
            ZleSymbol::RunB,
        ]
    );
    // the run at the end is the last symbol: nothing marks the end
    assert_ne!(encoded.0.last(), Some(&ZleSymbol::Number(255)));
}

#[test]
fn counts_the_symbols() {
    let (symbols, map) = zle_transform(vec![1, 0, 0, 0, 2, 0, 0, 1, 0], 3);
    assert_eq!(symbols.len(), 7);
    assert_eq!(map.frequencies, vec![3, 1, 2, 1]);
    assert_eq!(
        map.iterator(),
        vec![
            (ZleSymbol::RunA, 3),
            (ZleSymbol::RunB, 1),
            (ZleSymbol::Number(1), 2),
            (ZleSymbol::Number(2), 1),
        ]
    );
    let mut fresh = PropabilityMap::create(2);
    assert_eq!(fresh.frequencies, vec![0, 0, 0]);
    fresh.report_symbol(&ZleSymbol::Number(1));
    fresh.report_symbol(&ZleSymbol::RunA);
    fresh.report_symbol(&ZleSymbol::Number(1));
    assert_eq!(fresh.frequencies, vec![1, 0, 2]);
}

#[test]
fn zero_runs_survive_the_round_trip() {
    assert_eq!(convert_remainder(0), ZleSymbol::RunA);
    assert_eq!(convert_remainder(1), ZleSymbol::RunB);
    assert_eq!(encode_zero_amount(0), Vec::<ZleSymbol>::new());
    assert_eq!(decode_zero_amount(&[]), 0);
    for zeros in (0..3000usize).chain([899_999, 900_000, 1 << 40]) {
        assert_eq!(decode_zero_amount(&encode_zero_amount(zeros)), zeros);
    }
}

#[test]
fn zero_run_encoding_survives_the_round_trip() {
    let mut state = 5u32;
    for round in 0..100usize {
        let input: Vec<u8> = (0..round * 5)
            .map(|_| {
                state = state.wrapping_mul(1664525).wrapping_add(1013904223);
                let value = (state >> 20) % 7;
                if value < 4 {
                    0
                } else {
                    (value - 3) as u8
                }
            })
            .collect();
        let (symbols, _) = zle_transform(input.clone(), 4);
        assert_eq!(decode_zle(&symbols), input);
        assert_eq!(decode_zle_bounded(&symbols, input.len()), Some(input.clone()));
        if !input.is_empty() {
            assert_eq!(decode_zle_bounded(&symbols, input.len() - 1), None);
        }
    }
}

#[test]
fn long_zero_runs_are_refused_beyond_the_limit() {
    let run = vec![ZleSymbol::RunB; 100];
    assert_eq!(decode_zle_bounded(&run, 900_000), None);
    let run = vec![ZleSymbol::RunA; 3];
    assert_eq!(decode_zle_bounded(&run, 7), Some(vec![0; 7]));
    assert_eq!(decode_zle_bounded(&run, 6), None);
    assert_eq!(decode_zle_bounded(&[], 0), Some(vec![]));
}

#[test]
pub fn symbols_are_ordered_as_in_the_alphabet() {
    assert!(ZleSymbol::RunA < ZleSymbol::RunB);
    assert!(ZleSymbol::RunB < ZleSymbol::Number(0));
    assert!(ZleSymbol::Number(0) < ZleSymbol::Number(1));
    assert!(ZleSymbol::Number(7) > ZleSymbol::RunA);
    assert!(ZleSymbol::Number(200) >= ZleSymbol::Number(200));
    assert!(!(ZleSymbol::RunB < ZleSymbol::RunA));
    assert_eq!(ZleSymbol::RunB.partial_cmp(&ZleSymbol::RunB), Some(std::cmp::Ordering::Equal));
    assert_eq!(ZleSymbol::Number(9).partial_cmp(&ZleSymbol::Number(3)), Some(std::cmp::Ordering::Greater));
}
