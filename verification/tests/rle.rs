use libribzip2::block::rle::{inverse_rle, rle, rle_augment, rle_total_size};

#[test]
pub fn keeps_three_byte_sequences() {
    let rle_result = rle(&[1, 1, 1], 0, None);
    assert_eq!(rle_result, (vec![], 3, Some(1)));

    let (rle_data, rle_count, rle_last_char) = rle_result;
    assert_eq!(rle_total_size(rle_data.len(), rle_count, rle_last_char), 3);

    let rle_total = rle_augment(&rle_data, rle_count, rle_last_char);
    assert_eq!(rle_total, vec![1, 1, 1]);
}

#[test]
pub fn adds_overflow_to_sequence() {
    let rle_result = rle(&[1, 1, 1, 1], 0, None);
    assert_eq!(rle_result, (vec![], 4, Some(1)));

    let (rle_data, rle_count, rle_last_char) = rle_result;
    assert_eq!(rle_total_size(rle_data.len(), rle_count, rle_last_char), 5);

    let rle_total = rle_augment(&rle_data, rle_count, rle_last_char);
    assert_eq!(rle_total, vec![1, 1, 1, 1, 0]);
}

#[test]
pub fn larger_numbers() {
    let rle_result = rle(&[1, 1, 1, 1, 1], 0, None);
    assert_eq!(rle_result, (vec![], 5, Some(1)));

    let (rle_data, rle_count, rle_last_char) = rle_result;
    assert_eq!(rle_total_size(rle_data.len(), rle_count, rle_last_char), 5);

    let rle_total = rle_augment(&rle_data, rle_count, rle_last_char);
    assert_eq!(rle_total, vec![1, 1, 1, 1, 1]);
}

#[test]
pub fn mixed_sequences() {
    let rle_result = rle(&[1, 1, 1, 1, 2, 2, 2], 0, None);
    assert_eq!(rle_result, (vec![1, 1, 1, 1, 0], 3, Some(2)));

    let (rle_data, rle_count, rle_last_char) = rle_result;
    assert_eq!(rle_total_size(rle_data.len(), rle_count, rle_last_char), 8);

    let rle_total = rle_augment(&rle_data, rle_count, rle_last_char);
    assert_eq!(rle_total, vec![1, 1, 1, 1, 0, 2, 2, 2]);
}

#[test]
pub fn mixed_sequences_with_length() {
    let rle_result = rle(&[1, 1, 1, 1, 1, 2, 2, 2, 2, 2], 0, None);
    assert_eq!(rle_result, (vec![1, 1, 1, 1, 1], 5, Some(2)));

    let (rle_data, rle_count, rle_last_char) = rle_result;
    assert_eq!(rle_total_size(rle_data.len(), rle_count, rle_last_char), 10);

    let rle_total = rle_augment(&rle_data, rle_count, rle_last_char);
    assert_eq!(rle_total, vec![1, 1, 1, 1, 1, 2, 2, 2, 2, 1]);
}

#[test]
pub fn mixed_sequences_with_and_without_length() {
    let rle_result = rle(&[1, 1, 1, 2, 2, 2, 2, 2], 0, None);
    assert_eq!(rle_result, (vec![1, 1, 1], 5, Some(2)));

    let (rle_data, rle_count, rle_last_char) = rle_result;
    assert_eq!(rle_total_size(rle_data.len(), rle_count, rle_last_char), 8);

    let rle_total = rle_augment(&rle_data, rle_count, rle_last_char);
    assert_eq!(rle_total, vec![1, 1, 1, 2, 2, 2, 2, 1]);
}

#[test]
pub fn mixed_sequences_with_and_without_length_2() {
    let rle_result = rle(&[1, 1, 1, 1, 2, 2, 2], 0, None);
    assert_eq!(rle_result, (vec![1, 1, 1, 1, 0], 3, Some(2)));

    let (rle_data, rle_count, rle_last_char) = rle_result;
    assert_eq!(rle_total_size(rle_data.len(), rle_count, rle_last_char), 8);

    let rle_total = rle_augment(&rle_data, rle_count, rle_last_char);
    assert_eq!(rle_total, vec![1, 1, 1, 1, 0, 2, 2, 2]);
}

#[test]
pub fn even_longer_sequences() {
    let rle_result = rle(&[1, 1, 1, 1, 1, 1, 2, 2, 2, 2, 2, 2, 3, 3, 3], 0, None);
    assert_eq!(rle_result, (vec![1, 1, 1, 1, 2, 2, 2, 2, 2, 2], 3, Some(3)));

    let (rle_data, rle_count, rle_last_char) = rle_result;
    assert_eq!(rle_total_size(rle_data.len(), rle_count, rle_last_char), 13);

    let rle_total = rle_augment(&rle_data, rle_count, rle_last_char);
    assert_eq!(rle_total, vec![1, 1, 1, 1, 2, 2, 2, 2, 2, 2, 3, 3, 3]);
}

#[test]
pub fn max_block_length() {
    let rle_result = rle(
        &std::iter::repeat(3).take(255).collect::<Vec<u8>>(),
        0,
        None,
    );
    assert_eq!(rle_result, (vec![], 255, Some(3)));

    let (rle_data, rle_count, rle_last_char) = rle_result;
    assert_eq!(rle_total_size(rle_data.len(), rle_count, rle_last_char), 5);

    let rle_total = rle_augment(&rle_data, rle_count, rle_last_char);
    assert_eq!(rle_total, vec![3, 3, 3, 3, 251]);
}

#[test]
pub fn more_than_max_block_length() {
    let rle_result = rle(
        &std::iter::repeat(3).take(256).collect::<Vec<u8>>(),
        0,
        None,
    );
    assert_eq!(rle_result, (vec![3, 3, 3, 3, 251], 1, Some(3)));

    let (rle_data, rle_count, rle_last_char) = rle_result;
    assert_eq!(rle_total_size(rle_data.len(), rle_count, rle_last_char), 6);

    let rle_total = rle_augment(&rle_data, rle_count, rle_last_char);
    assert_eq!(rle_total, vec![3, 3, 3, 3, 251, 3]);
}

#[test]
pub fn twice_max_block_length() {
    let rle_result = rle(
        &std::iter::repeat(3).take(510).collect::<Vec<u8>>(),
        0,
        None,
    );
    assert_eq!(rle_result, (vec![3, 3, 3, 3, 251], 255, Some(3)));

    let (rle_data, rle_count, rle_last_char) = rle_result;
    assert_eq!(rle_total_size(rle_data.len(), rle_count, rle_last_char), 10);

    let rle_total = rle_augment(&rle_data, rle_count, rle_last_char);
    assert_eq!(rle_total, vec![3, 3, 3, 3, 251, 3, 3, 3, 3, 251]);
}

#[test]
pub fn inverse_rle_works() {
    assert_eq!(
        inverse_rle(&[1, 1, 1, 1, 2, 2, 2, 2, 2, 2, 3, 3, 3]),
        vec![1, 1, 1, 1, 1, 1, 2, 2, 2, 2, 2, 2, 3, 3, 3]
    );
}

#[test]
pub fn inverse_mixed_sequences_with_and_without_length_2() {
    assert_eq!(
        inverse_rle(&[1, 1, 1, 1, 0, 2, 2, 2]),
        vec![1, 1, 1, 1, 2, 2, 2]
    );
}

fn encode(input: &[u8]) -> Vec<u8> {
    let (data, count, last) = rle(input, 0, None);
    assert_eq!(rle_total_size(data.len(), count, last), rle_augment(&data, count, last).len());
    rle_augment(&data, count, last)
}

#[test]
pub fn five_equal_bytes_are_four_and_a_count() {
    assert_eq!(encode(b"aaaaa"), vec![b'a', b'a', b'a', b'a', 1]);
    assert_eq!(inverse_rle(&[b'a', b'a', b'a', b'a', 1]), b"aaaaa".to_vec());
    assert_eq!(encode(b""), Vec::<u8>::new());
    assert_eq!(inverse_rle(&[]), Vec::<u8>::new());
}

#[test]
pub fn a_count_byte_that_equals_the_next_run_starts_no_run() {
    // 102 times 'a', then "bbb" and a 'c': the count byte 98 is the byte 'b'
    let mut input = vec![b'a'; 102];
    input.extend_from_slice(b"bbbc");
    let encoded = encode(&input);
    assert_eq!(encoded, vec![b'a', b'a', b'a', b'a', 98, b'b', b'b', b'b', b'c']);
    assert_eq!(inverse_rle(&encoded), input);
    // a run of 300: 259 and 41
    let long = vec![7u8; 300];
    let encoded = encode(&long);
    assert_eq!(encoded, vec![7, 7, 7, 7, 251, 7, 7, 7, 7, 41]);
    assert_eq!(inverse_rle(&encoded), long);
}

#[test]
pub fn run_length_encoding_survives_the_round_trip() {
    let mut state = 12345u32;
    for round in 0..200 {
        let len = (round * 37) % 700;
        let mut input = Vec::new();
        while input.len() < len {
            state = state.wrapping_mul(1664525).wrapping_add(1013904223);
            let byte = ((state >> 24) % 3) as u8 * 127;
            let run = 1 + ((state >> 8) % 300) as usize % (1 + round);
            for _ in 0..run {
                input.push(byte);
            }
        }
        assert_eq!(inverse_rle(&encode(&input)), input);
    }
}

#[test]
pub fn encoding_in_parts_gives_the_same() {
    let input: Vec<u8> = (0..2000u32).map(|i| ((i / 7) % 5) as u8).collect();
    let whole = rle(&input, 0, None);
    for cut in [0usize, 1, 3, 4, 5, 500, 1999, 2000] {
        let (first, count, last) = rle(&input[..cut], 0, None);
        let (second, count, last) = rle(&input[cut..], count, last);
        let mut joined = first;
        joined.extend_from_slice(&second);
        assert_eq!((joined, count, last), whole);
    }
}
