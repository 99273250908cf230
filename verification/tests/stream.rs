use libribzip2::bitwise::bitreader::{BitReader, BitReaderImpl, InMemoryBitReader};
use libribzip2::bitwise::bitwriter::{
    convert_to_code_pad_to_bytes, convert_to_number, BitWriter, BitWriterImpl,
};
use libribzip2::bitwise::Bit;
use libribzip2::block::block_decoder::{decode_block, read_head, read_selectors, read_trees};
use libribzip2::block::block_encoder::{block_header, crc_as_bytes, generate_block_data};
use libribzip2::block::crc32::{combine_crc, crc32};
use libribzip2::block::rle::{rle, rle_augment};
use libribzip2::block::symbol_map::read_symbol_table;
use libribzip2::error::DecodeError;
use libribzip2::stream::decoder::{read_file_header, what_next, BlockType};
use libribzip2::stream::{decode_stream, encode_stream, file_header, next_block, stream_footer, Encoder};
use libribzip2::EncodingStrategy;

#[test]
pub fn accepts_correct_header() {
    let input = b"BZh9";
    let mut bit_reader = BitReaderImpl::from_reader(input);
    let read = read_file_header(&mut bit_reader);
    assert!(read.is_ok());
}

#[test]
pub fn detects_block_header() {
    let data = vec![0x31u8, 0x41u8, 0x59u8, 0x26u8, 0x53u8, 0x59u8];
    let mut bit_reader = BitReaderImpl::from_reader(&data);

    assert_eq!(BlockType::BlockHeader, what_next(&mut bit_reader).unwrap());
}

#[test]
pub fn detects_stream_footer() {
    let data = vec![0x17, 0x72, 0x45, 0x38, 0x50, 0x90];
    let mut bit_reader = BitReaderImpl::from_reader(&data);

    assert_eq!(BlockType::StreamFooter, what_next(&mut bit_reader).unwrap());
}

#[test]
pub fn detects_error() {
    let data = vec![0, 1, 2, 3, 4, 5];
    let mut bit_reader = BitReaderImpl::from_reader(&data);

    assert!(what_next(&mut bit_reader).is_err());
}

fn sample(len: usize, alphabet: u32, seed: u32) -> Vec<u8> {
    let mut state = seed;
    let mut out = Vec::with_capacity(len);
    for _ in 0..len {
        state = state.wrapping_mul(1664525).wrapping_add(1013904223);
        out.push(((state >> 16) % alphabet) as u8);
    }
    out
}

fn text(len: usize) -> Vec<u8> {
    let words: [&[u8]; 8] = [
        b"peter ", b"piper ", b"picked ", b"a ", b"peck ", b"of ", b"pickled ", b"peppers\n",
    ];
    let mut out = Vec::with_capacity(len + 8);
    let mut state = 1u32;
    while out.len() < len {
        state = state.wrapping_mul(1664525).wrapping_add(1013904223);
        out.extend_from_slice(words[(state >> 29) as usize]);
    }
    out.truncate(len);
    out
}

fn pack(bits: &[Bit]) -> Vec<u8> {
    let mut writer = BitWriterImpl::from_writer(vec![]);
    writer.write_bits(bits).unwrap();
    writer.finalize().unwrap();
    writer.into_writer()
}

#[test]
pub fn checksum_of_known_data() {
    assert_eq!(crc32(b""), 0);
    assert_eq!(crc32(b"a"), 0x19939b6b);
    assert_eq!(crc32(b"banana"), 0xefb6ec01);
    assert_eq!(crc32(b"aaaaa"), 0x44a4303d);
    assert_eq!(crc_as_bytes(0xefb6ec01), vec![0xef, 0xb6, 0xec, 0x01]);
}

#[test]
pub fn combined_checksum_follows_the_recurrence() {
    assert_eq!(combine_crc(0, 0xefb6ec01), 0xefb6ec01);
    assert_eq!(combine_crc(0x8000_0001, 0), 0x0000_0003);
    assert_eq!(combine_crc(0x8000_0001, 0xffff_ffff), 0xffff_fffc);
    let crcs = [crc32(b"one"), crc32(b"two"), crc32(b"three")];
    let mut combined = 0u32;
    for crc in crcs {
        combined = crc ^ combined.rotate_left(1);
    }
    assert_eq!(
        combine_crc(combine_crc(combine_crc(0, crcs[0]), crcs[1]), crcs[2]),
        combined
    );
}

#[test]
pub fn header_and_footer() {
    assert_eq!(pack(&file_header()), b"BZh9".to_vec());
    assert_eq!(
        pack(&stream_footer(0x01020304)),
        vec![0x17, 0x72, 0x45, 0x38, 0x50, 0x90, 1, 2, 3, 4]
    );
    let header = block_header(0xefb6ec01, 3);
    assert_eq!(header.len(), 48 + 32 + 1 + 24);
    assert_eq!(
        pack(&header[..80]),
        vec![0x31, 0x41, 0x59, 0x26, 0x53, 0x59, 0xef, 0xb6, 0xec, 0x01]
    );
    assert_eq!(header[80], Bit::Zero);
    assert_eq!(convert_to_number(&header[81..]), 3);
    assert_eq!(convert_to_number(&block_header(0, 0x00ab_cdef)[81..]), 0x00ab_cdef);
}

#[test]
pub fn empty_input_is_head_and_foot() {
    let encoded = encode_stream(b"", EncodingStrategy::Single);
    assert_eq!(
        encoded,
        vec![0x42, 0x5A, 0x68, 0x39, 0x17, 0x72, 0x45, 0x38, 0x50, 0x90, 0, 0, 0, 0]
    );
    assert_eq!(decode_stream(&encoded), Ok(vec![]));
}

#[test]
pub fn banana_survives_the_round_trip() {
    let encoded = encode_stream(b"banana", EncodingStrategy::Single);
    assert_eq!(&encoded[..4], b"BZh9");
    assert_eq!(&encoded[4..10], &[0x31, 0x41, 0x59, 0x26, 0x53, 0x59]);
    // the checksum of the block, and the combined checksum of the one block
    assert_eq!(&encoded[10..14], &[0xef, 0xb6, 0xec, 0x01]);
    assert_eq!(decode_stream(&encoded), Ok(b"banana".to_vec()));
    let (bits, crc) = generate_block_data(b"banana", b"banana".to_vec(), EncodingStrategy::Single);
    assert_eq!(crc, 0xefb6ec01);
    let bytes = pack(&bits);
    let mut reader = BitReaderImpl::from_reader(&bytes);
    assert_eq!(what_next(&mut reader), Ok(BlockType::BlockHeader));
    assert_eq!(decode_block(&mut reader), Ok(b"banana".to_vec()));
}

#[test]
pub fn banana_is_written_as_a_stream_that_libbz2_decodes() {
    // this stream was given to the decoder of libbz2, which returned "banana"
    let encoded = encode_stream(b"banana", EncodingStrategy::Single);
    assert_eq!(
        encoded,
        vec![
            0x42, 0x5a, 0x68, 0x39, 0x31, 0x41, 0x59, 0x26, 0x53, 0x59, 0xef, 0xb6, 0xec, 0x01,
            0x00, 0x00, 0x01, 0x81, 0x00, 0x30, 0x01, 0x20, 0x00, 0x40, 0xda, 0x9f, 0xaa, 0x0d,
            0xa9, 0xfa, 0xa3, 0x17, 0x8b, 0xb9, 0x22, 0x9c, 0x28, 0x48, 0x77, 0xdb, 0x76, 0x00,
            0x80
        ]
    );
}

fn hex(bytes: &[u8]) -> String {
    bytes.iter().map(|b| format!("{:02x}", b)).collect()
}

fn cycle(len: usize) -> Vec<u8> {
    (0..len).map(|i| b"abcdefg"[i % 7]).collect()
}

// The streams of the following five tests were given to the decoder of libbz2, which
// returned the inputs.

#[test]
pub fn one_byte_is_written_as_a_stream_that_libbz2_decodes() {
    let encoded = encode_stream(&cycle(1), EncodingStrategy::Single);
    assert_eq!(
        hex(&encoded),
        "425a683931415926535919939b6b000000010020002000405014317724538509019939b6b0"
    );
    assert_eq!(decode_stream(&encoded), Ok(cycle(1)));
}

#[test]
pub fn one_byte_less_than_a_block_is_written_as_a_stream_that_libbz2_decodes() {
    let encoded = encode_stream(&cycle(899_999), EncodingStrategy::Single);
    assert_eq!(
        hex(&encoded),
        "425a68393141592653594ab1ccf300fb1d81003f8020008026aaa7ea6ca826aaa7ea6ca9c42a20cca0a883f10a883e21\
         5107885441a42a20e215107f1772453850904ab1ccf3"
    );
    assert!(decode_stream(&encoded) == Ok(cycle(899_999)));
}

#[test]
pub fn a_block_is_written_as_a_stream_that_libbz2_decodes() {
    let encoded = encode_stream(&cycle(900_000), EncodingStrategy::Single);
    assert_eq!(
        hex(&encoded),
        "425a68393141592653594ab1ccf300fb1d81003f8020008026aaa7ea6ca826aaa7ea6ca9c42a20cca0a883f10a883e21\
         5107885441a42a20e215107f3141592653591011a0050000000100080020004050143177245385090857239e30"
    );
    assert!(decode_stream(&encoded) == Ok(cycle(900_000)));
}

#[test]
pub fn two_blocks_are_written_as_a_stream_that_libbz2_decodes() {
    let encoded = encode_stream(&cycle(1_800_000), EncodingStrategy::Single);
    assert_eq!(
        hex(&encoded),
        "425a68393141592653594ab1ccf300fb1d81003f8020008026aaa7ea6ca826aaa7ea6ca9c42a20cca0a883f10a883e21\
         5107885441a42a20e215107f3141592653595812ee0902f15881003f8020008026a949fa6a826a949fa6a9c42a20c215\
         107c42a20dda0a883085441e21510710a883f98a0ac9329acdfd9d55c0000000080018010002067a0cf4217724538509\
         0255145670"
    );
    assert!(decode_stream(&encoded) == Ok(cycle(1_800_000)));
}

#[test]
pub fn equal_bytes_are_written_as_a_stream_that_libbz2_decodes() {
    let encoded = encode_stream(&vec![b'x'; 2_000_000], EncodingStrategy::Single);
    assert_eq!(
        hex(&encoded),
        "425a6839314159265359a3995296000f53a0808000804000082000409aa6826a9a7562a486d45490f177245385090a39\
         952960"
    );
    assert!(decode_stream(&encoded) == Ok(vec![b'x'; 2_000_000]));
}

#[test]
pub fn streams_written_by_libbz2_are_decoded() {
    let banana = vec![
        66, 90, 104, 57, 49, 65, 89, 38, 83, 89, 239, 182, 236, 1, 0, 0, 1, 129, 0, 48, 1, 32, 0,
        48, 204, 12, 122, 136, 94, 46, 228, 138, 112, 161, 33, 223, 109, 216, 2,
    ];
    assert_eq!(decode_stream(&banana), Ok(b"banana".to_vec()));
    let aaaaa = vec![
        66, 90, 104, 57, 49, 65, 89, 38, 83, 89, 68, 164, 48, 61, 0, 0, 2, 65, 0, 32, 0, 32, 0,
        32, 0, 33, 0, 130, 11, 23, 114, 69, 56, 80, 144, 68, 164, 48, 61,
    ];
    assert_eq!(decode_stream(&aaaaa), Ok(b"aaaaa".to_vec()));
    let a = vec![
        66, 90, 104, 57, 49, 65, 89, 38, 83, 89, 25, 147, 155, 107, 0, 0, 0, 1, 0, 32, 0, 32, 0,
        33, 24, 70, 130, 238, 72, 167, 10, 18, 3, 50, 115, 109, 96,
    ];
    assert_eq!(decode_stream(&a), Ok(b"a".to_vec()));
    let empty = vec![66, 90, 104, 57, 23, 114, 69, 56, 80, 144, 0, 0, 0, 0];
    assert_eq!(decode_stream(&empty), Ok(vec![]));
}

#[test]
pub fn five_equal_bytes_survive_the_round_trip() {
    let (data, count, last) = rle(b"aaaaa", 0, None);
    let rle_data = rle_augment(&data, count, last);
    assert_eq!(rle_data, vec![b'a', b'a', b'a', b'a', 1]);
    let (bits, crc) = generate_block_data(b"aaaaa", rle_data, EncodingStrategy::Single);
    assert_eq!(crc, 0x44a4303d);
    let bytes = pack(&bits[48..]);
    let mut reader = BitReaderImpl::from_reader(&bytes);
    assert_eq!(decode_block(&mut reader), Ok(b"aaaaa".to_vec()));
    let encoded = encode_stream(b"aaaaa", EncodingStrategy::Single);
    assert_eq!(decode_stream(&encoded), Ok(b"aaaaa".to_vec()));
}

#[test]
pub fn short_inputs_survive_the_round_trip() {
    let strategies = [
        EncodingStrategy::Single,
        EncodingStrategy::BlockWise { num_clusters: 2, num_iterations: 0 },
        EncodingStrategy::BlockWise { num_clusters: 6, num_iterations: 3 },
    ];
    let mut inputs: Vec<Vec<u8>> = vec![
        vec![0],
        vec![255],
        b"a".to_vec(),
        b"ab".to_vec(),
        b"abababab".to_vec(),
        vec![0; 1000],
        vec![255; 259],
        vec![7; 260],
        (0..=255).collect(),
        text(3000),
    ];
    for seed in 0..20 {
        inputs.push(sample(1 + seed as usize * 53, 1 + seed * 13, seed));
    }
    for input in inputs.iter() {
        for strategy in strategies {
            let encoded = encode_stream(input, strategy);
            assert_eq!(decode_stream(&encoded).as_ref(), Ok(input));
        }
    }
}

#[test]
pub fn one_block_short_of_full_survives_the_round_trip() {
    let input = text(899_999);
    let encoded = encode_stream(&input, EncodingStrategy::Single);
    assert!(encoded.len() < input.len() / 2);
    assert!(decode_stream(&encoded) == Ok(input));
}

#[test]
pub fn a_full_block_survives_the_round_trip() {
    let input: Vec<u8> = (0..900_000u32).map(|i| (i % 251) as u8).collect();
    let encoded = encode_stream(&input, EncodingStrategy::Single);
    assert!(decode_stream(&encoded) == Ok(input));
}

#[test]
pub fn two_blocks_survive_the_round_trip() {
    let input = text(1_800_000);
    let (end, rle_data) = next_block(&input, 0);
    assert!(end < input.len());
    assert!(rle_data.len() >= 899_999 && rle_data.len() <= 900_000);
    let encoded = encode_stream(&input, EncodingStrategy::Single);
    assert!(decode_stream(&encoded) == Ok(input.clone()));
    // the foot holds the combined checksum of the blocks
    let (second_end, _) = next_block(&input, end);
    let mut combined = combine_crc(0, crc32(&input[..end]));
    combined = combine_crc(combined, crc32(&input[end..second_end]));
    if second_end < input.len() {
        combined = combine_crc(combined, crc32(&input[second_end..]));
    }
    assert_eq!(foot_crc(&encoded), combined);
}

#[test]
pub fn repetitive_input_survives_the_round_trip() {
    let input = vec![b'x'; 2_000_000];
    let encoded = encode_stream(&input, EncodingStrategy::Single);
    assert!(encoded.len() < 200);
    assert!(decode_stream(&encoded) == Ok(input));
}

#[test]
pub fn clustered_tables_survive_the_round_trip() {
    // two kinds of text, so that the groups of symbols fall into different clusters
    let mut input = text(1_000_000);
    input.extend(sample(1_000_000, 4, 3).iter().map(|b| b'0' + b));
    let strategy = EncodingStrategy::BlockWise { num_clusters: 6, num_iterations: 3 };
    let encoded = encode_stream(&input, strategy);
    assert!(decode_stream(&encoded) == Ok(input));
    let mut reader = BitReaderImpl::from_reader(&encoded);
    assert_eq!(read_file_header(&mut reader), Ok(()));
    assert_eq!(what_next(&mut reader), Ok(BlockType::BlockHeader));
    assert!(read_head(&mut reader).is_ok());
    assert!(read_symbol_table(&mut reader).is_ok());
    let (num_tables, selectors) = read_selectors(&mut reader).unwrap();
    assert_eq!(num_tables, 6);
    let first = selectors[0];
    assert!(selectors.iter().any(|selector| *selector != first));
    assert!(selectors.iter().all(|selector| (*selector as usize) < 6));
}

#[test]
pub fn streams_one_after_the_other_are_decoded_as_one() {
    let mut encoded = encode_stream(b"banana", EncodingStrategy::Single);
    encoded.extend(encode_stream(b"", EncodingStrategy::Single));
    encoded.extend(encode_stream(
        b" bandana",
        EncodingStrategy::BlockWise { num_clusters: 3, num_iterations: 1 },
    ));
    assert_eq!(decode_stream(&encoded), Ok(b"banana bandana".to_vec()));
    // a stream of libbz2 between two of ours
    let aaaaa = vec![
        66, 90, 104, 57, 49, 65, 89, 38, 83, 89, 68, 164, 48, 61, 0, 0, 2, 65, 0, 32, 0, 32, 0,
        32, 0, 33, 0, 130, 11, 23, 114, 69, 56, 80, 144, 68, 164, 48, 61,
    ];
    let mut joined = encode_stream(b"x", EncodingStrategy::Single);
    joined.extend(aaaaa);
    joined.extend(encode_stream(b"y", EncodingStrategy::Single));
    assert_eq!(decode_stream(&joined), Ok(b"xaaaaay".to_vec()));
    // what follows a stream must be a stream
    let mut spoiled = encode_stream(b"x", EncodingStrategy::Single);
    spoiled.push(0);
    assert!(decode_stream(&spoiled).is_err());
}

/// Where the symbols of the first block begin and where the foot begins, in bits.
fn payload_range(encoded: &[u8]) -> (usize, usize) {
    let bits = convert_to_code_pad_to_bytes(encoded);
    let mut reader = InMemoryBitReader::from_bits(&bits);
    assert_eq!(read_file_header(&mut reader), Ok(()));
    assert_eq!(what_next(&mut reader), Ok(BlockType::BlockHeader));
    assert!(read_head(&mut reader).is_ok());
    let symbols = read_symbol_table(&mut reader).unwrap();
    let (num_tables, _) = read_selectors(&mut reader).unwrap();
    assert!(read_trees(&mut reader, num_tables, symbols.len() + 2).is_ok());
    let mut left = 0;
    while reader.read_bits(1).is_ok() {
        left += 1;
    }
    (bits.len() - left, foot_start(encoded))
}

/// Where the foot of the stream begins, in bits.
fn foot_start(encoded: &[u8]) -> usize {
    let bits = convert_to_code_pad_to_bytes(encoded);
    let magic = convert_to_code_pad_to_bytes(&[0x17, 0x72, 0x45, 0x38, 0x50, 0x90]);
    for padding in 0..8 {
        let start = bits.len() - padding - 80;
        if bits[start..start + 48] == magic[..] {
            return start;
        }
    }
    panic!("no foot");
}

/// The combined checksum in the foot of the stream.
fn foot_crc(encoded: &[u8]) -> u32 {
    let bits = convert_to_code_pad_to_bytes(encoded);
    let start = foot_start(encoded);
    convert_to_number(&bits[start + 48..start + 80]) as u32
}

#[test]
pub fn a_flipped_bit_is_an_error() {
    let input = text(400);
    let encoded = encode_stream(&input, EncodingStrategy::Single);
    assert_eq!(decode_stream(&encoded).as_ref(), Ok(&input));
    let (start, end) = payload_range(&encoded);
    assert!(start + 400 < end);
    let mut format_or_checksum = 0;
    for bit in start..end {
        let mut broken = encoded.clone();
        broken[bit / 8] ^= 0x80 >> (bit % 8);
        let result = decode_stream(&broken);
        assert!(result.is_err(), "bit {}", bit);
        if result == Err(DecodeError::Format) || result == Err(DecodeError::Checksum) {
            format_or_checksum += 1;
        }
    }
    assert!(format_or_checksum > 0);
    // the first symbol of the block
    let mut broken = encoded.clone();
    broken[start / 8] ^= 0x80 >> (start % 8);
    let result = decode_stream(&broken);
    assert!(result == Err(DecodeError::Format) || result == Err(DecodeError::Checksum));
}

#[test]
pub fn every_kind_of_error() {
    let encoded = encode_stream(b"banana", EncodingStrategy::Single);
    assert_eq!(decode_stream(b""), Err(DecodeError::Io));
    assert_eq!(decode_stream(b"BZ"), Err(DecodeError::Io));
    assert_eq!(decode_stream(b"BZh9"), Err(DecodeError::Io));
    assert_eq!(decode_stream(&encoded[..encoded.len() - 1]), Err(DecodeError::Io));
    assert_eq!(decode_stream(&encoded[..20]), Err(DecodeError::Io));
    assert_eq!(decode_stream(b"AZh9abcdefgh"), Err(DecodeError::Format));
    assert_eq!(decode_stream(b"BZh9abcdefgh"), Err(DecodeError::Format));
    // a wrong checksum of the block
    let mut broken = encoded.clone();
    broken[10] ^= 1;
    assert_eq!(decode_stream(&broken), Err(DecodeError::Checksum));
    // a wrong combined checksum
    let mut broken = encoded.clone();
    let last = broken.len() - 1;
    broken[last - 1] ^= 0x40;
    assert_eq!(decode_stream(&broken), Err(DecodeError::Checksum));
    // bytes behind the foot that are no stream
    let mut broken = encoded.clone();
    broken.push(0);
    assert_eq!(decode_stream(&broken), Err(DecodeError::Io));
    // eight tables
    let mut reader = BitReaderImpl::from_reader(&[0b1110_0000, 0, 0]);
    assert_eq!(read_selectors(&mut reader), Err(DecodeError::Format));
    // no selectors
    let mut reader = BitReaderImpl::from_reader(&[0b0100_0000, 0, 0]);
    assert_eq!(read_selectors(&mut reader), Err(DecodeError::Format));
    // a selector that names the third of two tables
    let mut reader = BitReaderImpl::from_reader(&[0b0100_0000, 0, 0b0111_0000]);
    assert_eq!(read_selectors(&mut reader), Err(DecodeError::Format));
    let mut reader = BitReaderImpl::from_reader(&[0b0100_0000, 0, 0b0110_0000]);
    assert_eq!(read_selectors(&mut reader), Ok((2, vec![1])));
}

#[test]
pub fn an_empty_alphabet_is_an_error() {
    let mut bits = block_header(0, 0);
    bits.extend(vec![Bit::Zero; 64]);
    let bytes = pack(&bits[48..]);
    let mut reader = BitReaderImpl::from_reader(&bytes);
    assert_eq!(decode_block(&mut reader), Err(DecodeError::Format));
}

#[test]
pub fn blocks_are_put_together_in_order() {
    let input = b"banana";
    let (first, first_crc) = generate_block_data(&input[..3], input[..3].to_vec(), EncodingStrategy::Single);
    let (second, second_crc) = generate_block_data(&input[3..], input[3..].to_vec(), EncodingStrategy::Single);
    let mut encoder = Encoder::new(EncodingStrategy::Single, 2);
    assert_eq!(encoder.num_threads(), 2);
    encoder.start();
    encoder.flush_work_buffer(&first, first_crc);
    encoder.flush_work_buffer(&second, second_crc);
    encoder.finish();
    let encoded = encoder.into_bytes();
    assert_eq!(decode_stream(&encoded), Ok(input.to_vec()));
    let combined = second_crc ^ first_crc.rotate_left(1);
    assert_eq!(foot_crc(&encoded), combined);
    // one block: the combined checksum is the checksum of the block
    let encoded = encode_stream(input, EncodingStrategy::Single);
    assert_eq!(foot_crc(&encoded), crc32(input));
}

#[test]
pub fn blocks_end_where_the_encoding_is_full() {
    let input = vec![1u8; 10];
    assert_eq!(next_block(&input, 0), (10, vec![1, 1, 1, 1, 6]));
    assert_eq!(next_block(&input, 7), (10, vec![1, 1, 1]));
    // bytes in pairs do not shrink: a block takes 900000 of them
    let pairs: Vec<u8> = (0..1_000_000u32).map(|i| (i / 2 % 2) as u8).collect();
    let (end, rle_data) = next_block(&pairs, 0);
    assert_eq!(rle_data.len(), end);
    assert!(end >= 899_999 && end <= 900_000);
    // runs of four grow by a quarter
    let fours: Vec<u8> = (0..1_000_000u32).map(|i| (i / 4 % 2) as u8).collect();
    let (end, rle_data) = next_block(&fours, 0);
    assert!(rle_data.len() >= 899_999 && rle_data.len() <= 900_000);
    assert!(end >= 719_990 && end <= 720_000);
}
