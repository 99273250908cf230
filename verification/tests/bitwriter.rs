use libribzip2::bitwise::bitwriter::{
    convert_to_code_pad_to_15_bits, convert_to_code_pad_to_byte, convert_to_code_pad_to_bytes,
    convert_to_code_pad_to_n_bits, convert_to_number, increment_symbol, BitWriter, BitWriterImpl,
};
use libribzip2::bitwise::Bit;

fn convert_to_code(mut input: usize) -> Vec<Bit> {
    let mut output = Vec::new();
    while input > 0 {
        match input & 1 {
            0 => output.push(Bit::Zero),
            _ => output.push(Bit::One),
        }
        input >>= 1;
    }

    output.reverse();
    output
}

#[test]
pub fn converts_correctly() {
    assert_eq!(convert_to_number(&convert_to_code(1)), 1);
}

#[test]
pub fn converts_correctly_2() {
    assert_eq!(convert_to_number(&convert_to_code(3)), 3);
}

#[test]
pub fn converts_correctly_more_than_one_byte() {
    assert_eq!(convert_to_number(&convert_to_code(256)), 256);
    assert_eq!(
        convert_to_code(256),
        vec![
            Bit::One,
            Bit::Zero,
            Bit::Zero,
            Bit::Zero,
            Bit::Zero,
            Bit::Zero,
            Bit::Zero,
            Bit::Zero,
            Bit::Zero,
        ]
    )
}

#[test]
pub fn increments_more_than_one_byte() {
    assert_eq!(
        increment_symbol(convert_to_code(255)),
        vec![
            Bit::One,
            Bit::Zero,
            Bit::Zero,
            Bit::Zero,
            Bit::Zero,
            Bit::Zero,
            Bit::Zero,
            Bit::Zero,
            Bit::Zero,
        ]
    )
}

#[test]
pub fn converts_correctly_3() {
    assert_eq!(
        convert_to_code(convert_to_number(&[Bit::One, Bit::Zero])),
        vec![Bit::One, Bit::Zero]
    );
}

#[test]
pub fn sanity_check() {
    assert_eq!(
        convert_to_code_pad_to_byte(3),
        vec![
            Bit::Zero,
            Bit::Zero,
            Bit::Zero,
            Bit::Zero,
            Bit::Zero,
            Bit::Zero,
            Bit::One,
            Bit::One
        ]
    );
}

#[test]
pub fn increments_padded() {
    assert_eq!(
        increment_symbol(vec![Bit::Zero, Bit::Zero]),
        vec![Bit::Zero, Bit::One]
    );
}

#[test]
pub fn sanity_check_2() {
    assert_eq!(convert_to_number(&[Bit::One, Bit::One, Bit::Zero]), 6);
}

#[test]
pub fn writes_bits() {
    let buf = vec![];
    let mut bit_writer = BitWriterImpl::from_writer(buf);
    bit_writer.write_bits(&[Bit::One]).unwrap();
    bit_writer.finalize().unwrap();
    let buf = bit_writer.into_writer();
    assert_eq!(buf, vec![128]);
}

#[test]
pub fn writes_bits_2() {
    let buf = vec![];
    let mut bit_writer = BitWriterImpl::from_writer(buf);
    bit_writer
        .write_bits(&[
            Bit::One,
            Bit::One,
            Bit::One,
            Bit::One,
            Bit::One,
            Bit::One,
            Bit::One,
            Bit::One,
        ])
        .unwrap();
    let buf = bit_writer.into_writer();

    assert_eq!(buf, vec![255]);
}

#[test]
pub fn padding() {
    let buf = vec![];
    let mut bit_writer = BitWriterImpl::from_writer(buf);

    bit_writer
        .write_bits(&[
            Bit::One,
            Bit::One,
            Bit::One,
            Bit::One,
            Bit::One,
            Bit::One,
            Bit::One,
            Bit::One,
            Bit::One,
        ])
        .unwrap();
    bit_writer.finalize().unwrap();
    let buf = bit_writer.into_writer();
    assert_eq!(buf, vec![255, 128]);
}

#[test]
pub fn pads_numbers_to_the_width() {
    assert_eq!(
        convert_to_code_pad_to_n_bits(5, 5),
        vec![Bit::Zero, Bit::Zero, Bit::One, Bit::Zero, Bit::One]
    );
    assert_eq!(convert_to_code_pad_to_n_bits(0, 3), vec![Bit::Zero; 3]);
    assert_eq!(convert_to_code_pad_to_n_bits(0, 0), Vec::<Bit>::new());
    // a number that needs more digits than the width is written in full
    assert_eq!(
        convert_to_code_pad_to_n_bits(6, 2),
        vec![Bit::One, Bit::One, Bit::Zero]
    );
    let wide = convert_to_code_pad_to_n_bits(1, 70);
    assert_eq!(wide.len(), 70);
    assert_eq!(convert_to_number(&wide), 1);
}

#[test]
pub fn fifteen_bits_and_bytes() {
    let code = convert_to_code_pad_to_15_bits(18001);
    assert_eq!(code.len(), 15);
    assert_eq!(convert_to_number(&code), 18001);
    assert_eq!(convert_to_code_pad_to_15_bits(0), vec![Bit::Zero; 15]);
    let bits = convert_to_code_pad_to_bytes(&[0x80, 0x01]);
    let mut expected = vec![Bit::Zero; 16];
    expected[0] = Bit::One;
    expected[15] = Bit::One;
    assert_eq!(bits, expected);
}

#[test]
pub fn numbers_survive_the_round_trip() {
    for value in [0usize, 1, 2, 3, 127, 128, 255, 256, 65535, 1 << 20, usize::MAX] {
        for width in [0usize, 1, 8, 24, 64] {
            let bits = convert_to_code_pad_to_n_bits(value, width);
            assert_eq!(convert_to_number(&bits), value);
            assert!(bits.len() >= width);
        }
    }
}

#[test]
pub fn finalize_on_a_byte_boundary_writes_nothing() {
    let mut bit_writer = BitWriterImpl::from_writer(vec![7]);
    bit_writer.finalize().unwrap();
    bit_writer.write_bits(&[Bit::Zero; 8]).unwrap();
    bit_writer.finalize().unwrap();
    assert_eq!(bit_writer.content(), 2);
    assert_eq!(bit_writer.into_writer(), vec![7, 0]);
}
