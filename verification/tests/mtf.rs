use libribzip2::block::mtf::{
    bring_to_front_of_dict, check_codes_in_range, create_dict, find_pos, inverse_mtf, mtf,
};
use std::collections::VecDeque;

#[test]
pub fn brings_to_front_of_dictionary() {
    let mut dict: VecDeque<u8> = vec![1, 2, 3, 4].into();
    bring_to_front_of_dict(3, &mut dict);
    assert_eq!(dict, vec![4, 1, 2, 3]);
}

#[test]
pub fn mtf_easy_sample() {
    let input = b"nnbaaaa";

    let res: Vec<u8> = vec![2, 0, 2, 2, 0, 0, 0];
    assert_eq!(mtf(&input.to_vec()).encoded, res);
}

#[test]
pub fn inverse_mtf_easy_sample() {
    let input = vec![2, 0, 2, 2, 0, 0, 0];

    let res: Vec<u8> = b"nnbaaaa".to_vec();
    assert_eq!(inverse_mtf(&input, b"abn"), res);
}

#[test]
pub fn used_symbols_are_sorted() {
    let result = mtf(b"nnbaaaa");
    assert_eq!(result.used_symbols, b"abn".to_vec());
    let (dict, used) = create_dict(&[255, 0, 255, 7]);
    assert_eq!(used, vec![0, 7, 255]);
    assert_eq!(dict, vec![0, 7, 255]);
    assert_eq!(find_pos(255, &dict), 2);
    let empty = mtf(b"");
    assert!(empty.encoded.is_empty());
    assert!(empty.used_symbols.is_empty());
}

#[test]
pub fn move_to_front_survives_the_round_trip() {
    let all: Vec<u8> = (0..=255u8).rev().chain(0..=255u8).collect();
    let result = mtf(&all);
    assert_eq!(result.used_symbols.len(), 256);
    assert!(check_codes_in_range(&result.encoded, result.used_symbols.len()));
    assert_eq!(inverse_mtf(&result.encoded, &result.used_symbols), all);
    let mut state = 99u32;
    for round in 0..50 {
        let input: Vec<u8> = (0..round * 9)
            .map(|_| {
                state = state.wrapping_mul(1664525).wrapping_add(1013904223);
                ((state >> 20) % 11) as u8 * 23
            })
            .collect();
        let result = mtf(&input);
        assert_eq!(inverse_mtf(&result.encoded, &result.used_symbols), input);
    }
    assert!(!check_codes_in_range(&[0, 3], 3));
    assert!(check_codes_in_range(&[], 0));
}
