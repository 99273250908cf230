use vstd::prelude::*;
use crate::bitwise::{Bit, bits_to_nat, bits_to_bytes, bytes_to_bits, lemma_bits_to_bytes, lemma_bits_to_nat_bound};
use crate::bitwise::bitreader::{BitReader, BitReaderImpl};
use crate::bitwise::bitwriter::convert_to_number;
use crate::block::block_decoder::{decode_block, decode_block_spec};
use crate::block::block_encoder::block_magic;
use crate::block::crc32::{combine_crc, combine_crc_spec, crc32, crc32_spec};
use crate::error::DecodeError;
use crate::stream::footer_magic;

verus! {

/// What follows in a stream: a block, or the foot of the stream.
#[derive(Debug, PartialEq, Eq, Clone, Copy, Structural)]
pub enum BlockType {
    StreamFooter,
    BlockHeader,
}

/// What the head of a stream is read as: four bytes, of which the first three are
/// `BZh`.
pub open spec fn parse_file_header(bits: Seq<Bit>) -> Result<int, DecodeError> {
    if bits.len() < 32 {
        Err(DecodeError::Io)
    } else {
        let bytes = bits_to_bytes(bits.take(32));
        if bytes[0] == 0x42 && bytes[1] == 0x5A && bytes[2] == 0x68 {
            Ok(32)
        } else {
            Err(DecodeError::Format)
        }
    }
}

/// What the next six bytes announce.
pub open spec fn parse_what_next(bits: Seq<Bit>) -> Result<BlockType, DecodeError> {
    if bits.len() < 48 {
        Err(DecodeError::Io)
    } else {
        let bytes = bits_to_bytes(bits.take(48));
        if bytes == block_magic() {
            Ok(BlockType::BlockHeader)
        } else if bytes == footer_magic() {
            Ok(BlockType::StreamFooter)
        } else {
            Err(DecodeError::Format)
        }
    }
}

/// Reads the head of a stream.
pub fn read_file_header<R: BitReader>(bit_reader: &mut R) -> (r: Result<(), DecodeError>)
    requires
        old(bit_reader).inv(),
    ensures
        final(bit_reader).inv(),
        match parse_file_header(old(bit_reader).remaining()) {
            Ok(position) => r is Ok && final(bit_reader).remaining() == old(bit_reader).remaining().skip(
                position,
            ),
            Err(e) => r == Err::<(), DecodeError>(e),
        },
{
    let res = match bit_reader.read_bytes(4) {
        Ok(res) => res,
        Err(_) => {
            return Err(DecodeError::Io);
        },
    };
    proof {
        lemma_bits_to_bytes(res@);
    }
    if res[0] == 0x42 && res[1] == 0x5A && res[2] == 0x68 {
        Ok(())
    } else {
        Err(DecodeError::Format)
    }
}

/// Compares a byte string with six given bytes.
fn is_magic(bytes: &Vec<u8>, b0: u8, b1: u8, b2: u8, b3: u8, b4: u8, b5: u8) -> (equal: bool)
    ensures
        equal == (bytes@ == seq![b0, b1, b2, b3, b4, b5]),
{
    let equal = bytes.len() == 6 && bytes[0] == b0 && bytes[1] == b1 && bytes[2] == b2 && bytes[3] == b3
        && bytes[4] == b4 && bytes[5] == b5;
    proof {
        let magic = seq![b0, b1, b2, b3, b4, b5];
        if equal {
            assert(bytes@ =~= magic);
        } else if bytes@.len() == 6 {
            assert(bytes@[0] == magic[0] && bytes@[1] == magic[1] && bytes@[2] == magic[2] && bytes@[3]
                == magic[3] && bytes@[4] == magic[4] && bytes@[5] == magic[5] ==> equal);
        } else {
            assert(magic.len() == 6);
        }
    }
    equal
}

/// Reads the six bytes that announce a block or the foot of the stream.
pub fn what_next<R: BitReader>(bit_reader: &mut R) -> (r: Result<BlockType, DecodeError>)
    requires
        old(bit_reader).inv(),
    ensures
        final(bit_reader).inv(),
        r == parse_what_next(old(bit_reader).remaining()),
        r is Ok ==> final(bit_reader).remaining() == old(bit_reader).remaining().skip(48),
{
    let res = match bit_reader.read_bytes(6) {
        Ok(res) => res,
        Err(_) => {
            return Err(DecodeError::Io);
        },
    };
    proof {
        lemma_bits_to_bytes(res@);
    }
    if is_magic(&res, 0x31u8, 0x41u8, 0x59u8, 0x26u8, 0x53u8, 0x59u8) {
        Ok(BlockType::BlockHeader)
    } else if is_magic(&res, 0x17u8, 0x72u8, 0x45u8, 0x38u8, 0x50u8, 0x90u8) {
        Ok(BlockType::StreamFooter)
    } else {
        Err(DecodeError::Format)
    }
}

/// What the blocks and the foot of a stream decode to, given the combined checksum
/// of the blocks before: the data of the blocks one after the other and the position
/// after the foot, or the reason for which they cannot be decoded. The checksum in
/// the foot must be the combined checksum of the blocks.
pub open spec fn decode_blocks_spec(bits: Seq<Bit>, total_crc: u32) -> Result<(Seq<u8>, int), DecodeError>
    decreases bits.len(),
{
    match parse_what_next(bits) {
        Err(e) => Err(e),
        Ok(BlockType::StreamFooter) => if bits.len() < 80 {
            Err(DecodeError::Io)
        } else if bits_to_nat(bits.subrange(48, 80)) != total_crc {
            Err(DecodeError::Checksum)
        } else {
            Ok((Seq::empty(), 80))
        },
        Ok(BlockType::BlockHeader) => match decode_block_spec(bits.skip(48)) {
            Err(e) => Err(e),
            Ok((data, p)) => if p < 0 || 48 + p > bits.len() {
                Err(DecodeError::Io)
            } else {
                match decode_blocks_spec(bits.skip(48 + p), combine_crc_spec(total_crc, crc32_spec(data))) {
                    Err(e) => Err(e),
                    Ok((more, q)) => Ok((data + more, 48 + p + q)),
                }
            },
        },
    }
}

/// What one stream decodes to: its data and the position after its foot.
pub open spec fn decode_one_stream_spec(bits: Seq<Bit>) -> Result<(Seq<u8>, int), DecodeError> {
    match parse_file_header(bits) {
        Err(e) => Err(e),
        Ok(p) => match decode_blocks_spec(bits.skip(p), 0) {
            Err(e) => Err(e),
            Ok((data, q)) => Ok((data, p + q)),
        },
    }
}

/// What a sequence of streams decodes to: the data of the streams one after the
/// other. After the foot of a stream the bits up to the end of its last byte are
/// passed over; if bits follow, they are another stream.
pub open spec fn decode_streams_spec(bits: Seq<Bit>) -> Result<Seq<u8>, DecodeError>
    decreases bits.len(),
{
    match decode_one_stream_spec(bits) {
        Err(e) => Err(e),
        Ok((data, p)) => if p < 32 || p > bits.len() {
            Err(DecodeError::Io)
        } else {
            let rest = bits.skip(p);
            let aligned = rest.skip((rest.len() % 8) as int);
            if aligned.len() == 0 {
                Ok(data)
            } else {
                match decode_streams_spec(aligned) {
                    Err(e) => Err(e),
                    Ok(more) => Ok(data + more),
                }
            }
        },
    }
}

/// A result with more data in front.
pub open spec fn prepend_data(done: Seq<u8>, position: int, rest: Result<(Seq<u8>, int), DecodeError>) -> Result<
    (Seq<u8>, int),
    DecodeError,
> {
    match rest {
        Ok((more, q)) => Ok((done + more, position + q)),
        Err(e) => Err(e),
    }
}

/// Decodes the blocks of a stream and checks its foot.
pub fn decode_blocks<R: BitReader>(bit_reader: &mut R) -> (r: Result<Vec<u8>, DecodeError>)
    requires
        old(bit_reader).inv(),
    ensures
        final(bit_reader).inv(),
        match decode_blocks_spec(old(bit_reader).remaining(), 0) {
            Ok((data, position)) => r is Ok && r.unwrap()@ == data && final(bit_reader).remaining() == old(bit_reader).remaining().skip(position)
                && 48 <= position <= old(bit_reader).remaining().len(),
            Err(e) => r == Err::<Vec<u8>, DecodeError>(e),
        },
{
    let ghost bits = bit_reader.remaining();
    let mut output: Vec<u8> = Vec::new();
    let mut total_crc: u32 = 0;
    let ghost mut position: int = 0;
    proof {
        assert(bits.skip(0) =~= bits);
    }
    loop
        invariant
            bit_reader.inv(),
            bits == old(bit_reader).remaining(),
            0 <= position <= bits.len(),
            bit_reader.remaining() == bits.skip(position),
            decode_blocks_spec(bits, 0) == prepend_data(
                output@,
                position,
                decode_blocks_spec(bits.skip(position), total_crc),
            ),
        decreases bits.len() - position,
    {
        let ghost here = bits.skip(position);
        match what_next(bit_reader) {
            Err(e) => {
                return Err(e);
            },
            Ok(BlockType::StreamFooter) => {
                let crc_bits = match bit_reader.read_bits(32) {
                    Ok(crc_bits) => crc_bits,
                    Err(_) => {
                        return Err(DecodeError::Io);
                    },
                };
                proof {
                    vstd::arithmetic::power2::lemma2_to64();
                    lemma_bits_to_nat_bound(crc_bits@);
                    assert(crc_bits@ =~= here.subrange(48, 80));
                    assert(here.skip(48).skip(32) =~= bits.skip(position + 80));
                    assert(output@ + Seq::<u8>::empty() =~= output@);
                }
                let crc = convert_to_number(crc_bits.as_slice());
                if crc != total_crc as usize {
                    return Err(DecodeError::Checksum);
                }
                return Ok(output);
            },
            Ok(BlockType::BlockHeader) => {
                let mut data = match decode_block(bit_reader) {
                    Ok(data) => data,
                    Err(e) => {
                        return Err(e);
                    },
                };
                let ghost p = decode_block_spec(here.skip(48)).unwrap().1;
                let block_crc = crc32(data.as_slice());
                let ghost before = output@;
                let ghost block = data@;
                total_crc = combine_crc(total_crc, block_crc);
                output.append(&mut data);
                proof {
                    assert(here.skip(48).skip(p) =~= bits.skip(position + 48 + p));
                    assert(here.skip(48 + p) =~= bits.skip(position + 48 + p));
                    let rest = decode_blocks_spec(bits.skip(position + 48 + p), total_crc);
                    match rest {
                        Ok((more, q)) => {
                            assert(before + (block + more) =~= output@ + more);
                        },
                        Err(_) => {},
                    }
                    position = position + 48 + p;
                }
            },
        }
    }
}

/// Decodes a sequence of streams: the data of all blocks of all streams, one after
/// the other.
pub fn decode_stream(input: &[u8]) -> (r: Result<Vec<u8>, DecodeError>)
    ensures
        match decode_streams_spec(bytes_to_bits(input@)) {
            Ok(data) => r is Ok && r.unwrap()@ == data,
            Err(e) => r == Err::<Vec<u8>, DecodeError>(e),
        },
{
    let mut bit_reader = BitReaderImpl::from_reader(input);
    let ghost bits = bit_reader.remaining();
    let mut output: Vec<u8> = Vec::new();
    loop
        invariant
            bit_reader.inv(),
            bits == bytes_to_bits(input@),
            match decode_streams_spec(bit_reader.remaining()) {
                Ok(data) => decode_streams_spec(bits) == Ok::<Seq<u8>, DecodeError>(output@ + data),
                Err(e) => decode_streams_spec(bits) == Err::<Seq<u8>, DecodeError>(e),
            },
        decreases bit_reader.remaining().len(),
    {
        let ghost here = bit_reader.remaining();
        match read_file_header(&mut bit_reader) {
            Ok(()) => {},
            Err(e) => {
                return Err(e);
            },
        }
        let mut data = match decode_blocks(&mut bit_reader) {
            Ok(data) => data,
            Err(e) => {
                return Err(e);
            },
        };
        let ghost q = decode_blocks_spec(here.skip(32), 0).unwrap().1;
        let ghost before = output@;
        let ghost stream_data = data@;
        output.append(&mut data);
        proof {
            assert(here.skip(32).skip(q) =~= here.skip(32 + q));
        }
        bit_reader.align_to_byte();
        if bit_reader.is_exhausted() {
            proof {
                assert(before + stream_data =~= output@);
            }
            return Ok(output);
        }
        proof {
            match decode_streams_spec(bit_reader.remaining()) {
                Ok(more) => {
                    assert(before + (stream_data + more) =~= output@ + more);
                },
                Err(_) => {},
            }
        }
    }
}

} // verus!
