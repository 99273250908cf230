use vstd::prelude::*;
use vstd::slice::slice_subrange;
use crate::bitwise::{Bit, bytes_to_bits, lemma_bytes_to_bits_concat};
use crate::bitwise::bitwriter::{BitWriter, BitWriterImpl, convert_to_code_pad_to_bytes, padding};
use crate::block::block_encoder::{crc_as_bytes, crc_bytes, generate_block_data, strategy_valid, is_block_for};
use crate::block::crc32::{combine_crc, combine_crc_spec, combined_crc, crc32_spec};
use crate::block::rle::{rle, rle_augment, rle_total_size, rle_spec, rle_encode_spec, rle_state_size, rle_state_valid, lemma_rle_spec_concat, lemma_rle_growth};
use crate::block::symbol_statistics::EncodingStrategy;
use crate::error::DecodeError;
use crate::round_trip::stream::lemma_stream_round_trip;
use crate::stream::decoder::decode_streams_spec;

pub mod decoder;
pub mod joined;
pub use decoder::decode_stream;

verus! {

/// The largest number of bytes that a block holds after run-length encoding.
pub const RLE_LIMIT: usize = 900_000;

/// The four bytes that begin a stream: `BZh9`.
pub open spec fn header_bytes() -> Seq<u8> {
    seq![0x42u8, 0x5Au8, 0x68u8, 0x39u8]
}

/// The six bytes that begin the foot of a stream.
pub open spec fn footer_magic() -> Seq<u8> {
    seq![0x17u8, 0x72u8, 0x45u8, 0x38u8, 0x50u8, 0x90u8]
}

/// The foot of a stream: the magic bytes and the combined checksum.
pub open spec fn footer_bits(crc: u32) -> Seq<Bit> {
    bytes_to_bits(footer_magic()) + bytes_to_bits(crc_bytes(crc))
}

/// Writes the foot of a stream.
pub fn stream_footer(crc: u32) -> (out: Vec<Bit>)
    ensures
        out@ == footer_bits(crc),
{
    let mut bytes: Vec<u8> = Vec::new();
    bytes.push(0x17u8);
    bytes.push(0x72u8);
    bytes.push(0x45u8);
    bytes.push(0x38u8);
    bytes.push(0x50u8);
    bytes.push(0x90u8);
    proof {
        assert(bytes@ =~= footer_magic());
    }
    let mut out = convert_to_code_pad_to_bytes(bytes.as_slice());
    let crc = crc_as_bytes(crc);
    let mut crc_as_bits = convert_to_code_pad_to_bytes(crc.as_slice());
    out.append(&mut crc_as_bits);
    out
}

/// Writes the head of a stream.
pub fn file_header() -> (out: Vec<Bit>)
    ensures
        out@ == bytes_to_bits(header_bytes()),
{
    let mut bytes: Vec<u8> = Vec::new();
    bytes.push(0x42u8);
    bytes.push(0x5Au8);
    bytes.push(0x68u8);
    bytes.push(0x39u8);
    proof {
        assert(bytes@ =~= header_bytes());
    }
    convert_to_code_pad_to_bytes(bytes.as_slice())
}

/// Where the block that begins at `start` ends, given that it reaches to `position`
/// at least. Bytes are taken in portions of half the room that is left in the
/// block, since a byte makes the run-length encoding longer by two bytes at most,
/// until the input ends or the room is less than two bytes.
pub open spec fn block_end_from(input: Seq<u8>, start: int, position: int) -> int
    decreases input.len() - position,
{
    let state = rle_spec(input.subrange(start, position), 0, None);
    let total = rle_state_size(state);
    if position >= input.len() || position < start || start < 0 {
        position
    } else if RLE_LIMIT - total < 2 {
        position
    } else {
        let room = (RLE_LIMIT - total) / 2;
        let left = input.len() - position;
        block_end_from(
            input,
            start,
            position + if room < left {
                room
            } else {
                left
            },
        )
    }
}

/// Where the block that begins at `start` ends.
pub open spec fn block_end(input: Seq<u8>, start: int) -> int {
    block_end_from(input, start, start)
}

/// Takes the next block from the input: as many bytes from `start` on as fit into a
/// block after run-length encoding. Returns where the block ends and its run-length
/// encoding.
pub fn next_block(input: &[u8], start: usize) -> (result: (usize, Vec<u8>))
    requires
        start < input@.len(),
    ensures
        result.0 == block_end(input@, start as int),
        start < result.0 <= input@.len(),
        result.1@ == rle_encode_spec(input@.subrange(start as int, result.0 as int)),
        0 < result.1@.len() <= RLE_LIMIT,
{
    let mut rle_data: Vec<u8> = Vec::new();
    let mut rle_count: usize = 0;
    let mut rle_last_char: Option<u8> = None;
    let mut position: usize = start;
    proof {
        assert(input@.subrange(start as int, start as int) =~= Seq::<u8>::empty());
    }
    loop
        invariant
            start <= position <= input@.len(),
            start < input@.len(),
            (rle_data@, rle_count as nat, rle_last_char) == rle_spec(
                input@.subrange(start as int, position as int),
                0,
                None,
            ),
            rle_state_valid(rle_count as nat, rle_last_char),
            rle_state_size((rle_data@, rle_count as nat, rle_last_char)) <= RLE_LIMIT,
            position > start ==> rle_state_size((rle_data@, rle_count as nat, rle_last_char)) >= 1,
            block_end(input@, start as int) == block_end_from(input@, start as int, position as int),
        ensures
            start < position <= input@.len(),
            position == block_end(input@, start as int),
            (rle_data@, rle_count as nat, rle_last_char) == rle_spec(
                input@.subrange(start as int, position as int),
                0,
                None,
            ),
            rle_state_valid(rle_count as nat, rle_last_char),
            1 <= rle_state_size((rle_data@, rle_count as nat, rle_last_char)) <= RLE_LIMIT,
        decreases input@.len() - position,
    {
        let total = rle_total_size(rle_data.len(), rle_count, rle_last_char);
        if position >= input.len() || RLE_LIMIT - total < 2 {
            break ;
        }
        let room: usize = (RLE_LIMIT - total) / 2;
        let left: usize = input.len() - position;
        let to_take: usize = if room < left { room } else { left };
        let chunk = slice_subrange(input, position, position + to_take);
        let rle_result = rle(chunk, rle_count, rle_last_char);
        let (mut rle_next, rle_next_count, rle_next_char) = rle_result;
        proof {
            let done = input@.subrange(start as int, position as int);
            lemma_rle_spec_concat(done, chunk@, 0, None);
            assert(done + chunk@ =~= input@.subrange(start as int, position + to_take));
            lemma_rle_growth(chunk@, rle_count as nat, rle_last_char);
        }
        rle_data.append(&mut rle_next);
        rle_count = rle_next_count;
        rle_last_char = rle_next_char;
        position = position + to_take;
    }
    let rle_total = rle_augment(rle_data.as_slice(), rle_count, rle_last_char);
    (position, rle_total)
}

/// Puts the blocks of a stream together: the head of the stream, the blocks in their
/// order, and the foot with the combined checksum.
pub struct Encoder {
    num_threads: usize,
    encoding_strategy: EncodingStrategy,
    bit_writer: BitWriterImpl,
    total_crc: u32,
    finalized: bool,
    initialized: bool,
}

impl Encoder {
    /// The bits written so far.
    pub closed spec fn stream(&self) -> Seq<Bit> {
        self.bit_writer.stream()
    }

    /// The combined checksum of the blocks written so far.
    pub closed spec fn total_crc(&self) -> u32 {
        self.total_crc
    }

    /// Whether the head of the stream has been written.
    pub closed spec fn initialized(&self) -> bool {
        self.initialized
    }

    /// Whether the foot of the stream has been written.
    pub closed spec fn finalized(&self) -> bool {
        self.finalized
    }

    /// What holds of an encoder between calls.
    pub closed spec fn inv(&self) -> bool {
        self.bit_writer.inv()
    }

    /// The strategy by which the tables of the blocks are chosen.
    pub closed spec fn strategy(&self) -> EncodingStrategy {
        self.encoding_strategy
    }

    /// The number of workers among which the blocks are to be shared.
    pub closed spec fn workers(&self) -> usize {
        self.num_threads
    }

    /// An encoder that has written nothing yet.
    pub fn new(encoding_strategy: EncodingStrategy, num_threads: usize) -> (encoder: Self)
        ensures
            encoder.inv(),
            encoder.workers() == num_threads,
            encoder.stream() == Seq::<Bit>::empty(),
            encoder.total_crc() == 0,
            !encoder.initialized(),
            !encoder.finalized(),
            encoder.strategy() == encoding_strategy,
    {
        let bit_writer = BitWriterImpl::from_writer(Vec::new());
        proof {
            bit_writer.lemma_stream();
            assert(bytes_to_bits(Seq::<u8>::empty()) + Seq::<Bit>::empty() =~= Seq::<Bit>::empty());
        }
        Encoder {
            num_threads,
            encoding_strategy,
            bit_writer,
            total_crc: 0,
            finalized: false,
            initialized: false,
        }
    }

    /// The strategy by which the tables of the blocks are chosen.
    pub fn encoding_strategy(&self) -> (strategy: EncodingStrategy)
        ensures
            strategy == self.strategy(),
    {
        self.encoding_strategy
    }

    /// The number of workers among which the blocks are to be shared.
    pub fn num_threads(&self) -> (workers: usize)
        ensures
            workers == self.workers(),
    {
        self.num_threads
    }

    /// Writes the head of the stream.
    pub fn start(&mut self)
        requires
            old(self).inv(),
            !old(self).initialized(),
        ensures
            final(self).inv(),
            final(self).initialized(),
            final(self).finalized() == old(self).finalized(),
            final(self).total_crc() == old(self).total_crc(),
            final(self).strategy() == old(self).strategy(),
            final(self).workers() == old(self).workers(),
            final(self).stream() == old(self).stream() + bytes_to_bits(header_bytes()),
    {
        let header = file_header();
        let _ = self.bit_writer.write_bits(header.as_slice());
        self.initialized = true;
    }

    /// Writes the next block and takes its checksum into the combined checksum.
    pub fn flush_work_buffer(&mut self, bits: &[Bit], block_crc: u32)
        requires
            old(self).inv(),
            old(self).initialized(),
            !old(self).finalized(),
        ensures
            final(self).inv(),
            final(self).initialized(),
            !final(self).finalized(),
            final(self).strategy() == old(self).strategy(),
            final(self).workers() == old(self).workers(),
            final(self).total_crc() == combine_crc_spec(old(self).total_crc(), block_crc),
            final(self).stream() == old(self).stream() + bits@,
    {
        let _ = self.bit_writer.write_bits(bits);
        self.total_crc = combine_crc(self.total_crc, block_crc);
    }

    /// Writes the foot of the stream and fills the last byte with zeros.
    pub fn finish(&mut self)
        requires
            old(self).inv(),
            old(self).initialized(),
            !old(self).finalized(),
        ensures
            final(self).inv(),
            final(self).finalized(),
            final(self).initialized(),
            final(self).strategy() == old(self).strategy(),
            final(self).workers() == old(self).workers(),
            final(self).total_crc() == old(self).total_crc(),
            final(self).stream() == old(self).stream() + footer_bits(old(self).total_crc()) + padding(
                (old(self).stream() + footer_bits(old(self).total_crc())).len(),
            ),
    {
        let footer = stream_footer(self.total_crc);
        let _ = self.bit_writer.write_bits(footer.as_slice());
        let _ = self.bit_writer.finalize();
        self.finalized = true;
    }

    /// Hands out the bytes of the stream.
    pub fn into_bytes(self) -> (bytes: Vec<u8>)
        requires
            self.inv(),
            self.finalized(),
            self.stream().len() % 8 == 0,
        ensures
            bytes_to_bits(bytes@) == self.stream(),
    {
        proof {
            lemma_bytes_to_bits_concat(self.bit_writer.bytes(), Seq::empty());
            self.bit_writer.lemma_stream();
            assert(self.bit_writer.pending().len() == 0);
            assert(self.bit_writer.stream() =~= bytes_to_bits(self.bit_writer.bytes()));
        }
        self.bit_writer.into_writer()
    }
}

/// Where the block with the number `k` begins.
pub open spec fn block_start(input: Seq<u8>, k: nat) -> int
    decreases k,
{
    if k == 0 {
        0
    } else {
        block_end(input, block_start(input, (k - 1) as nat))
    }
}

/// The bytes of the block with the number `k`.
pub open spec fn raw_block(input: Seq<u8>, k: nat) -> Seq<u8> {
    input.subrange(block_start(input, k), block_start(input, k + 1))
}

/// The checksums of the first `count` blocks.
pub open spec fn block_crcs(input: Seq<u8>, count: nat) -> Seq<u32> {
    Seq::new(count, |k: int| crc32_spec(raw_block(input, k as nat)))
}

/// Whether `bits` is a block for the bytes `raw` under the given strategy.
pub open spec fn is_block_of(bits: Seq<Bit>, raw: Seq<u8>, strategy: EncodingStrategy) -> bool {
    is_block_for(bits, raw, rle_encode_spec(raw), strategy)
}

/// The blocks one after the other.
pub open spec fn concat_blocks(blocks: Seq<Seq<Bit>>) -> Seq<Bit>
    decreases blocks.len(),
{
    if blocks.len() == 0 {
        Seq::empty()
    } else {
        concat_blocks(blocks.drop_last()) + blocks.last()
    }
}

/// Whether the block with the number `k` is a block for its part of the input.
pub open spec fn block_in_place(input: Seq<u8>, strategy: EncodingStrategy, blocks: Seq<Seq<Bit>>, k: int) -> bool {
    &&& block_start(input, k as nat) < input.len()
    &&& is_block_of(blocks[k], raw_block(input, k as nat), strategy)
}

/// Whether `blocks` are blocks for all of the input, one for every part into which
/// the input is divided.
pub open spec fn covers(input: Seq<u8>, strategy: EncodingStrategy, blocks: Seq<Seq<Bit>>) -> bool {
    &&& block_start(input, blocks.len()) == input.len()
    &&& forall|k: int| 0 <= k < blocks.len() ==> #[trigger] block_in_place(input, strategy, blocks, k)
}

/// The bits of a stream with the given blocks: the head, the blocks, the foot with
/// the combined checksum of the blocks, and zeros up to the end of the last byte.
pub open spec fn stream_bits(input: Seq<u8>, blocks: Seq<Seq<Bit>>) -> Seq<Bit> {
    let body = bytes_to_bits(header_bytes()) + concat_blocks(blocks) + footer_bits(
        combined_crc(block_crcs(input, blocks.len())),
    );
    body + padding(body.len())
}

/// Whether `output` is a stream for `input` under the given strategy.
pub open spec fn is_encoding(input: Seq<u8>, strategy: EncodingStrategy, output: Seq<u8>) -> bool {
    exists|blocks: Seq<Seq<Bit>>| #[trigger]
        covers(input, strategy, blocks) && bytes_to_bits(output) == stream_bits(input, blocks)
}

/// Compresses the input into a stream, block by block. Decoding the stream gives
/// the input.
pub fn encode_stream(input: &[u8], encoding_strategy: EncodingStrategy) -> (output: Vec<u8>)
    requires
        strategy_valid(encoding_strategy),
    ensures
        is_encoding(input@, encoding_strategy, output@),
        decode_streams_spec(bytes_to_bits(output@)) == Ok::<Seq<u8>, DecodeError>(input@),
{
    let mut encoder = Encoder::new(encoding_strategy, 1);
    encoder.start();
    let ghost mut blocks: Seq<Seq<Bit>> = Seq::empty();
    let mut position: usize = 0;
    proof {
        assert(encoder.stream() =~= bytes_to_bits(header_bytes()) + concat_blocks(blocks));
        assert(block_crcs(input@, 0) =~= Seq::<u32>::empty());
    }
    while position < input.len()
        invariant
            strategy_valid(encoding_strategy),
            encoder.inv(),
            encoder.initialized(),
            !encoder.finalized(),
            position <= input@.len(),
            position == block_start(input@, blocks.len()),
            forall|k: int| 0 <= k < blocks.len() ==> #[trigger] block_in_place(input@, encoding_strategy, blocks, k),
            encoder.stream() == bytes_to_bits(header_bytes()) + concat_blocks(blocks),
            encoder.total_crc() == combined_crc(block_crcs(input@, blocks.len())),
        decreases input@.len() - position,
    {
        let (end, rle_total) = next_block(input, position);
        let raw = slice_subrange(input, position, end);
        let (bits, block_crc) = generate_block_data(raw, rle_total, encoding_strategy);
        encoder.flush_work_buffer(bits.as_slice(), block_crc);
        proof {
            let count = blocks.len();
            let before = blocks;
            blocks = blocks.push(bits@);
            assert(blocks.drop_last() =~= before);
            assert(raw@ == raw_block(input@, count));
            assert(is_block_of(bits@, raw_block(input@, count), encoding_strategy));
            assert(block_crcs(input@, count + 1) =~= block_crcs(input@, count).push(block_crc));
            crate::block::crc32::lemma_combined_crc_push(block_crcs(input@, count), block_crc);
            assert(encoder.stream() =~= bytes_to_bits(header_bytes()) + concat_blocks(blocks));
            assert forall|k: int| 0 <= k < blocks.len() implies #[trigger] block_in_place(
                input@,
                encoding_strategy,
                blocks,
                k,
            ) by {
                if k < count {
                    assert(blocks[k] == before[k]);
                    assert(block_in_place(input@, encoding_strategy, before, k));
                } else {
                    assert(blocks[k] == bits@);
                    assert(k as nat == count);
                }
            }
        }
        position = end;
    }
    let ghost body = encoder.stream() + footer_bits(encoder.total_crc());
    encoder.finish();
    proof {
        assert(covers(input@, encoding_strategy, blocks));
        assert(encoder.stream() == stream_bits(input@, blocks));
    }
    let output = encoder.into_bytes();
    proof {
        assert(is_encoding(input@, encoding_strategy, output@));
        lemma_stream_round_trip(input@, encoding_strategy, output@);
    }
    output
}

} // verus!
