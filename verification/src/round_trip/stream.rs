use vstd::prelude::*;
use crate::bitwise::{Bit, bytes_to_bits, lemma_bits_to_bytes, lemma_bytes_to_bits_len};
use crate::bitwise::bitwriter::padding;
use crate::block::block_encoder::{block_magic, crc_bytes, is_block_for, strategy_valid, MAX_BLOCK_SIZE};
use crate::block::crc32::{combine_crc_spec, combined_crc, crc32_spec, lemma_combined_crc_push};
use crate::block::rle::{rle_spec, rle_encode_spec, rle_state_size, lemma_rle_spec_concat, lemma_rle_growth};
use crate::block::symbol_statistics::EncodingStrategy;
use crate::error::DecodeError;
use crate::round_trip::block::{lemma_block_round_trip, lemma_crc_bytes};
use crate::round_trip::parsing::{holds_at, lemma_holds_at_concat};
use crate::round_trip::payload::lemma_holds_at_skip;
use crate::stream::{RLE_LIMIT, header_bytes, footer_magic, footer_bits, block_end, block_end_from, block_start, raw_block, block_crcs, concat_blocks, block_in_place, covers, stream_bits, is_encoding};
use crate::stream::joined::{decoded_as, begins_with_stream, after_stream, lemma_last_stream, lemma_joined_streams};
use crate::stream::decoder::{BlockType, parse_file_header, parse_what_next, decode_blocks_spec, decode_one_stream_spec, decode_streams_spec};

verus! {

proof fn lemma_block_end_from(input: Seq<u8>, start: int, position: int)
    requires
        0 <= start <= position <= input.len(),
        start < input.len(),
        rle_state_size(rle_spec(input.subrange(start, position), 0, None)) <= RLE_LIMIT,
        position > start ==> rle_state_size(rle_spec(input.subrange(start, position), 0, None)) >= 1,
        position == start ==> rle_state_size(rle_spec(input.subrange(start, position), 0, None)) == 0,
    ensures
        start < block_end_from(input, start, position) <= input.len(),
        position <= block_end_from(input, start, position),
        1 <= rle_state_size(rle_spec(input.subrange(start, block_end_from(input, start, position)), 0, None))
            <= RLE_LIMIT,
    decreases input.len() - position,
{
    let done = input.subrange(start, position);
    let state = rle_spec(done, 0, None);
    let total = rle_state_size(state);
    if position < input.len() && RLE_LIMIT - total >= 2 {
        let room = (RLE_LIMIT - total) / 2;
        let left = input.len() - position;
        let taken = if room < left {
            room
        } else {
            left
        };
        let chunk = input.subrange(position, position + taken);
        crate::block::rle::lemma_rle_spec_valid(done, 0, None);
        lemma_rle_spec_concat(done, chunk, 0, None);
        assert(done + chunk =~= input.subrange(start, position + taken));
        lemma_rle_growth(chunk, state.1, state.2);
        lemma_block_end_from(input, start, position + taken);
    }
}

/// A block begins before it ends, ends in the input, and has a run-length encoding
/// that is neither empty nor longer than a block may be.
pub proof fn lemma_block_end(input: Seq<u8>, start: int)
    requires
        0 <= start < input.len(),
    ensures
        start < block_end(input, start) <= input.len(),
        1 <= rle_encode_spec(input.subrange(start, block_end(input, start))).len() <= MAX_BLOCK_SIZE,
{
    assert(input.subrange(start, start) =~= Seq::<u8>::empty());
    lemma_block_end_from(input, start, start);
}

/// The blocks begin one after the other in the input.
pub proof fn lemma_block_starts(input: Seq<u8>, strategy: EncodingStrategy, blocks: Seq<Seq<Bit>>, k: int)
    requires
        covers(input, strategy, blocks),
        0 <= k <= blocks.len(),
    ensures
        0 <= block_start(input, k as nat) <= input.len(),
        k < blocks.len() ==> block_start(input, k as nat) < block_start(input, (k + 1) as nat) <= input.len(),
    decreases k,
{
    if k > 0 {
        lemma_block_starts(input, strategy, blocks, k - 1);
    }
    if k < blocks.len() {
        assert(block_in_place(input, strategy, blocks, k));
        lemma_block_end(input, block_start(input, k as nat));
    }
}

proof fn lemma_blocks_prefix(bits: Seq<Bit>, base: int, blocks: Seq<Seq<Bit>>, k: int)
    requires
        0 <= k <= blocks.len(),
        holds_at(bits, base, concat_blocks(blocks)),
    ensures
        holds_at(bits, base, concat_blocks(blocks.take(k))),
        k < blocks.len() ==> holds_at(bits, base + concat_blocks(blocks.take(k)).len(), blocks[k])
            && concat_blocks(blocks.take(k + 1)) == concat_blocks(blocks.take(k)) + blocks[k],
    decreases blocks.len() - k,
{
    if k == blocks.len() {
        assert(blocks.take(k) =~= blocks);
    } else {
        lemma_blocks_prefix(bits, base, blocks, k + 1);
        assert(blocks.take(k + 1).drop_last() =~= blocks.take(k));
        lemma_holds_at_concat(bits, base, concat_blocks(blocks.take(k)), blocks[k]);
    }
}

/// The head of a stream is read as it is.
pub proof fn lemma_parse_file_header(bits: Seq<Bit>)
    requires
        holds_at(bits, 0, bytes_to_bits(header_bytes())),
    ensures
        parse_file_header(bits) == Ok::<int, DecodeError>(32),
{
    lemma_bytes_to_bits_len(header_bytes());
    lemma_bits_to_bytes(header_bytes());
    assert(bits.take(32) =~= bytes_to_bits(header_bytes()));
}

/// The foot of a stream is read as it is.
pub proof fn lemma_parse_footer(bits: Seq<Bit>, crc: u32)
    requires
        holds_at(bits, 0, footer_bits(crc)),
    ensures
        decode_blocks_spec(bits, crc) == Ok::<(Seq<u8>, int), DecodeError>((Seq::empty(), 80)),
{
    lemma_bytes_to_bits_len(footer_magic());
    lemma_bits_to_bytes(footer_magic());
    lemma_crc_bytes(crc);
    lemma_holds_at_concat(bits, 0, bytes_to_bits(footer_magic()), bytes_to_bits(crc_bytes(crc)));
    assert(bits.take(48) =~= bytes_to_bits(footer_magic()));
    assert(bits.subrange(48, 80) =~= bytes_to_bits(crc_bytes(crc)));
    assert(footer_magic()[0] != block_magic()[0]);
}

/// The magic bytes of a block announce a block.
pub proof fn lemma_parse_block_magic(bits: Seq<Bit>)
    requires
        holds_at(bits, 0, bytes_to_bits(block_magic())),
    ensures
        parse_what_next(bits) == Ok::<BlockType, DecodeError>(BlockType::BlockHeader),
{
    lemma_bytes_to_bits_len(block_magic());
    lemma_bits_to_bytes(block_magic());
    assert(bits.take(48) =~= bytes_to_bits(block_magic()));
}

/// The bits of the blocks from the block `k` on and of the foot.
pub open spec fn blocks_and_foot(input: Seq<u8>, blocks: Seq<Seq<Bit>>) -> Seq<Bit> {
    concat_blocks(blocks) + footer_bits(combined_crc(block_crcs(input, blocks.len())))
}

/// A block before blocks that are decoded is decoded with them.
pub proof fn lemma_decode_block_step(
    bits: Seq<Bit>,
    raw: Seq<u8>,
    strategy: EncodingStrategy,
    block: Seq<Bit>,
    total_crc: u32,
    more: Seq<u8>,
    length: int,
)
    requires
        strategy_valid(strategy),
        1 <= rle_encode_spec(raw).len() <= MAX_BLOCK_SIZE,
        is_block_for(block, raw, rle_encode_spec(raw), strategy),
        holds_at(bits, 0, block),
        decode_blocks_spec(bits.skip(block.len() as int), combine_crc_spec(total_crc, crc32_spec(raw))) == Ok::<
            (Seq<u8>, int),
            DecodeError,
        >((more, length)),
    ensures
        decode_blocks_spec(bits, total_crc) == Ok::<(Seq<u8>, int), DecodeError>(
            (raw + more, block.len() + length),
        ),
{
    lemma_block_round_trip(bits, raw, strategy, block);
    lemma_parse_block_magic(bits);
    assert(bits.skip(48 + (block.len() - 48)) =~= bits.skip(block.len() as int));
}

#[verifier::rlimit(80)]
proof fn lemma_decode_blocks_from(
    bits: Seq<Bit>,
    input: Seq<u8>,
    strategy: EncodingStrategy,
    blocks: Seq<Seq<Bit>>,
    k: int,
)
    requires
        strategy_valid(strategy),
        covers(input, strategy, blocks),
        holds_at(bits, 0, blocks_and_foot(input, blocks)),
        0 <= k <= blocks.len(),
    ensures
        decode_blocks_spec(
            bits.skip(concat_blocks(blocks.take(k)).len() as int),
            combined_crc(block_crcs(input, k as nat)),
        ) == Ok::<(Seq<u8>, int), DecodeError>(
            (
                input.skip(block_start(input, k as nat)),
                concat_blocks(blocks).len() - concat_blocks(blocks.take(k)).len() + 80,
            ),
        ),
    decreases blocks.len() - k,
{
    let m = blocks.len() as int;
    let foot = footer_bits(combined_crc(block_crcs(input, blocks.len())));
    let done = concat_blocks(blocks.take(k));
    let here = bits.skip(done.len() as int);
    lemma_holds_at_concat(bits, 0, concat_blocks(blocks), foot);
    lemma_blocks_prefix(bits, 0, blocks, k);
    lemma_block_starts(input, strategy, blocks, k);
    if k == m {
        assert(blocks.take(k) =~= blocks);
        lemma_holds_at_skip(bits, done.len() as int, 0, foot);
        lemma_parse_footer(here, combined_crc(block_crcs(input, blocks.len())));
        assert(input.skip(input.len() as int) =~= Seq::<u8>::empty());
    } else {
        let raw = raw_block(input, k as nat);
        let block = blocks[k];
        assert(block_in_place(input, strategy, blocks, k));
        lemma_block_end(input, block_start(input, k as nat));
        lemma_holds_at_skip(bits, done.len() as int, 0, block);
        lemma_decode_blocks_from(bits, input, strategy, blocks, k + 1);
        assert(block_crcs(input, (k + 1) as nat) =~= block_crcs(input, k as nat).push(crc32_spec(raw)));
        lemma_combined_crc_push(block_crcs(input, k as nat), crc32_spec(raw));
        let next = concat_blocks(blocks.take(k + 1));
        assert(here.skip(block.len() as int) =~= bits.skip(next.len() as int));
        lemma_decode_block_step(
            here,
            raw,
            strategy,
            block,
            combined_crc(block_crcs(input, k as nat)),
            input.skip(block_start(input, (k + 1) as nat)),
            concat_blocks(blocks).len() - next.len() + 80,
        );
        assert(raw + input.skip(block_start(input, (k + 1) as nat)) =~= input.skip(
            block_start(input, k as nat),
        ));
    }
}

/// What one stream with the given blocks decodes to.
pub proof fn lemma_decode_one_stream(bits: Seq<Bit>, input: Seq<u8>, strategy: EncodingStrategy, blocks: Seq<Seq<Bit>>)
    requires
        strategy_valid(strategy),
        covers(input, strategy, blocks),
        holds_at(bits, 0, bytes_to_bits(header_bytes()) + blocks_and_foot(input, blocks)),
    ensures
        decode_one_stream_spec(bits) == Ok::<(Seq<u8>, int), DecodeError>(
            (input, 32 + blocks_and_foot(input, blocks).len() as int),
        ),
{
    let head = bytes_to_bits(header_bytes());
    let rest = blocks_and_foot(input, blocks);
    lemma_bytes_to_bits_len(header_bytes());
    lemma_holds_at_concat(bits, 0, head, rest);
    lemma_parse_file_header(bits);
    lemma_holds_at_skip(bits, 32, 0, rest);
    lemma_decode_blocks_from(bits.skip(32), input, strategy, blocks, 0);
    assert(blocks.take(0) =~= Seq::<Seq<Bit>>::empty());
    assert(bits.skip(32).skip(0) =~= bits.skip(32));
    assert(input.skip(0) =~= input);
    assert(rest.len() == concat_blocks(blocks).len() + 80) by {
        lemma_bytes_to_bits_len(footer_magic());
        lemma_crc_bytes(combined_crc(block_crcs(input, blocks.len())));
    }
}

/// The bits of the stream for an input decode to the input.
proof fn lemma_stream_bits_decoded(input: Seq<u8>, strategy: EncodingStrategy, blocks: Seq<Seq<Bit>>)
    requires
        strategy_valid(strategy),
        covers(input, strategy, blocks),
    ensures
        decoded_as(stream_bits(input, blocks), input),
{
    let bits = stream_bits(input, blocks);
    let body = bytes_to_bits(header_bytes()) + blocks_and_foot(input, blocks);
    let fill = padding(body.len());
    assert(bits =~= body + fill);
    lemma_holds_at_concat(bits, 0, body, fill);
    assert(begins_with_stream(bits, input, body.len() as int)) by {
        reveal(begins_with_stream);
        lemma_decode_one_stream(bits, input, strategy, blocks);
        lemma_bytes_to_bits_len(header_bytes());
    }
    assert(32 <= body.len()) by {
        lemma_bytes_to_bits_len(header_bytes());
    }
    assert(after_stream(bits, body.len() as int).len() == 0) by {
        let left = bits.skip(body.len() as int);
        assert(left.len() == fill.len());
        assert(fill.len() < 8);
    }
    lemma_last_stream(bits, input, body.len() as int);
}

/// Decoding the stream for an input gives the input.
pub proof fn lemma_stream_round_trip(input: Seq<u8>, strategy: EncodingStrategy, output: Seq<u8>)
    requires
        strategy_valid(strategy),
        is_encoding(input, strategy, output),
    ensures
        decode_streams_spec(bytes_to_bits(output)) == Ok::<Seq<u8>, DecodeError>(input),
{
    let blocks = choose|blocks: Seq<Seq<Bit>>| #[trigger]
        covers(input, strategy, blocks) && bytes_to_bits(output) == stream_bits(input, blocks);
    lemma_stream_bits_decoded(input, strategy, blocks);
    reveal(decoded_as);
}

/// Two streams written one after the other decode to their inputs one after the
/// other.
pub proof fn lemma_two_streams(
    first_input: Seq<u8>,
    first_strategy: EncodingStrategy,
    first_output: Seq<u8>,
    second_input: Seq<u8>,
    second_strategy: EncodingStrategy,
    second_output: Seq<u8>,
)
    requires
        strategy_valid(first_strategy),
        strategy_valid(second_strategy),
        is_encoding(first_input, first_strategy, first_output),
        is_encoding(second_input, second_strategy, second_output),
    ensures
        decode_streams_spec(bytes_to_bits(first_output + second_output)) == Ok::<Seq<u8>, DecodeError>(
            first_input + second_input,
        ),
{
    lemma_stream_round_trip(first_input, first_strategy, first_output);
    lemma_stream_round_trip(second_input, second_strategy, second_output);
    lemma_joined_streams(first_output, second_output, first_input, second_input);
}

} // verus!
