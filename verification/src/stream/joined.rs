//! What the decoder makes of bits that are followed by more bits: whatever it has
//! read, it reads again, so that streams written one after the other decode to their
//! data one after the other.

use vstd::prelude::*;
use crate::bitwise::{Bit, bits_to_nat, bytes_to_bits, lemma_bytes_to_bits_concat, lemma_bytes_to_bits_len};
use crate::block::block_decoder::{parse_head, parse_selectors, parse_trees, parse_payload, parse_block, decode_block_spec, tables_of};
use crate::block::code_table::{parse_lengths, parse_delta};
use crate::block::huffman::{CodeView, HuffmanSymbol};
use crate::block::huffman::reader::{parse_symbols, first_match};
use crate::block::selectors::parse_unary;
use crate::block::symbol_map::parse_symbol_table;
use crate::block::crc32::{combine_crc_spec, crc32_spec};
use crate::error::DecodeError;
use crate::stream::decoder::{BlockType, parse_file_header, parse_what_next, decode_blocks_spec, decode_one_stream_spec, decode_streams_spec};

verus! {

/// Numbers in unary that were read are read again when more bits follow.
pub proof fn lemma_parse_unary_more(bits: Seq<Bit>, more: Seq<Bit>, position: int, current: int, amount: nat)
    requires
        0 <= position <= bits.len(),
        parse_unary(bits, position, current, amount) is Ok,
    ensures
        parse_unary(bits + more, position, current, amount) == parse_unary(bits, position, current, amount),
        position <= parse_unary(bits, position, current, amount).unwrap().1 <= bits.len(),
    decreases bits.len() - position,
{
    if amount > 0 {
        assert((bits + more)[position] == bits[position]);
        if bits[position] == Bit::One {
            lemma_parse_unary_more(bits, more, position + 1, current + 1, amount);
        } else {
            lemma_parse_unary_more(bits, more, position + 1, 0, (amount - 1) as nat);
        }
    }
}

/// Code lengths that were read are read again when more bits follow.
pub proof fn lemma_parse_lengths_more(bits: Seq<Bit>, more: Seq<Bit>, position: int, current: int, amount: nat)
    requires
        0 <= position <= bits.len(),
        parse_lengths(bits, position, current, amount) is Ok,
    ensures
        parse_lengths(bits + more, position, current, amount) == parse_lengths(bits, position, current, amount),
        position <= parse_lengths(bits, position, current, amount).unwrap().1 <= bits.len(),
    decreases bits.len() - position, amount,
{
    if amount > 0 {
        assert((bits + more)[position] == bits[position]);
        if bits[position] == Bit::Zero {
            lemma_parse_lengths_more(bits, more, position + 1, current, (amount - 1) as nat);
        } else {
            assert((bits + more)[position + 1] == bits[position + 1]);
            if bits[position + 1] == Bit::Zero {
                lemma_parse_lengths_more(bits, more, position + 2, current + 1, amount);
            } else {
                lemma_parse_lengths_more(bits, more, position + 2, current - 1, amount);
            }
        }
    }
}

/// Symbols that were read are read again when more bits follow.
pub proof fn lemma_parse_symbols_more(
    bits: Seq<Bit>,
    more: Seq<Bit>,
    position: int,
    table: CodeView,
    current: Seq<Bit>,
    amount: nat,
)
    requires
        0 <= position <= bits.len(),
        parse_symbols(bits, position, table, current, amount) is Ok,
    ensures
        parse_symbols(bits + more, position, table, current, amount) == parse_symbols(
            bits,
            position,
            table,
            current,
            amount,
        ),
        position <= parse_symbols(bits, position, table, current, amount).unwrap().1 <= bits.len(),
    decreases bits.len() - position,
{
    if amount > 0 {
        assert((bits + more)[position] == bits[position]);
        let code = current.push(bits[position]);
        match first_match(table, code, 0) {
            Some(HuffmanSymbol::NormalSymbol(symbol)) => {
                lemma_parse_symbols_more(bits, more, position + 1, table, Seq::empty(), (amount - 1) as nat);
            },
            Some(HuffmanSymbol::EoB) => {},
            None => {
                lemma_parse_symbols_more(bits, more, position + 1, table, code, amount);
            },
        }
    }
}

/// The bits after a position, when more bits follow.
pub proof fn lemma_skip_more(bits: Seq<Bit>, more: Seq<Bit>, position: int)
    requires
        0 <= position <= bits.len(),
    ensures
        (bits + more).skip(position) == bits.skip(position) + more,
        (bits + more).take(position) == bits.take(position),
{
    assert((bits + more).skip(position) =~= bits.skip(position) + more);
    assert((bits + more).take(position) =~= bits.take(position));
}

/// The bits between two positions, when more bits follow.
pub proof fn lemma_subrange_more(bits: Seq<Bit>, more: Seq<Bit>, from: int, to: int)
    requires
        0 <= from <= to <= bits.len(),
    ensures
        (bits + more).subrange(from, to) == bits.subrange(from, to),
{
    assert((bits + more).subrange(from, to) =~= bits.subrange(from, to));
}

/// The head of a block that was read is read again when more bits follow.
pub proof fn lemma_parse_head_more(bits: Seq<Bit>, more: Seq<Bit>)
    requires
        parse_head(bits) is Ok,
    ensures
        parse_head(bits + more) == parse_head(bits),
        0 <= parse_head(bits).unwrap().1 <= bits.len(),
{
    lemma_subrange_more(bits, more, 0, 32);
    lemma_subrange_more(bits, more, 33, 57);
}

/// The bytes in use that were read are read again when more bits follow.
pub proof fn lemma_parse_symbol_table_more(bits: Seq<Bit>, more: Seq<Bit>)
    requires
        parse_symbol_table(bits) is Ok,
    ensures
        parse_symbol_table(bits + more) == parse_symbol_table(bits),
        0 <= parse_symbol_table(bits).unwrap().1 <= bits.len(),
{
    lemma_skip_more(bits, more, 16);
    let end = parse_symbol_table(bits).unwrap().1;
    lemma_subrange_more(bits, more, 16, end);
}

/// The selectors that were read are read again when more bits follow.
pub proof fn lemma_parse_selectors_more(bits: Seq<Bit>, more: Seq<Bit>)
    requires
        parse_selectors(bits) is Ok,
    ensures
        parse_selectors(bits + more) == parse_selectors(bits),
        0 <= parse_selectors(bits).unwrap().1 <= bits.len(),
{
    lemma_skip_more(bits, more, 3);
    lemma_subrange_more(bits, more, 3, 18);
    lemma_skip_more(bits, more, 18);
    let count = bits_to_nat(bits.subrange(3, 18));
    lemma_parse_unary_more(bits.skip(18), more, 0, 0, count);
}

/// A list of code lengths that was read is read again when more bits follow.
pub proof fn lemma_parse_delta_more(bits: Seq<Bit>, more: Seq<Bit>, amount: nat)
    requires
        parse_delta(bits, amount) is Ok,
    ensures
        parse_delta(bits + more, amount) == parse_delta(bits, amount),
        0 <= parse_delta(bits, amount).unwrap().1 <= bits.len(),
{
    lemma_skip_more(bits, more, 5);
    lemma_parse_lengths_more(bits, more, 5, bits_to_nat(bits.take(5)) as int, amount);
}

/// The code lengths of the tables that were read are read again when more bits
/// follow.
pub proof fn lemma_parse_trees_more(bits: Seq<Bit>, more: Seq<Bit>, count: nat, total: nat)
    requires
        parse_trees(bits, count, total) is Ok,
    ensures
        parse_trees(bits + more, count, total) == parse_trees(bits, count, total),
        0 <= parse_trees(bits, count, total).unwrap().1 <= bits.len(),
    decreases count,
{
    if count > 0 {
        lemma_parse_delta_more(bits, more, total);
        let p = parse_delta(bits, total).unwrap().1;
        lemma_skip_more(bits, more, p);
        lemma_parse_trees_more(bits.skip(p), more, (count - 1) as nat, total);
    }
}

/// The symbols of a block that were read are read again when more bits follow.
pub proof fn lemma_parse_payload_more(
    bits: Seq<Bit>,
    more: Seq<Bit>,
    tables: Seq<CodeView>,
    selectors: Seq<u8>,
    group: int,
)
    requires
        parse_payload(bits, tables, selectors, group) is Ok,
    ensures
        parse_payload(bits + more, tables, selectors, group) == parse_payload(bits, tables, selectors, group),
        0 <= parse_payload(bits, tables, selectors, group).unwrap().1 <= bits.len(),
    decreases selectors.len() - group,
{
    let table = tables[selectors[group] as int];
    lemma_parse_symbols_more(bits, more, 0, table, Seq::empty(), 50);
    let read = parse_symbols(bits, 0, table, Seq::empty(), 50).unwrap();
    if !read.0.1 {
        lemma_skip_more(bits, more, read.1);
        lemma_parse_payload_more(bits.skip(read.1), more, tables, selectors, group + 1);
    }
}

/// The parts of a block that were read are read again when more bits follow.
pub proof fn lemma_parse_block_more(bits: Seq<Bit>, more: Seq<Bit>)
    requires
        parse_block(bits) is Ok,
    ensures
        parse_block(bits + more) == parse_block(bits),
        0 <= parse_block(bits).unwrap().1 <= bits.len(),
{
    lemma_parse_head_more(bits, more);
    let head_len = parse_head(bits).unwrap().1;
    lemma_skip_more(bits, more, head_len);
    lemma_parse_symbol_table_more(bits.skip(head_len), more);
    let (used, map_len) = parse_symbol_table(bits.skip(head_len)).unwrap();
    lemma_skip_more(bits, more, head_len + map_len);
    lemma_parse_selectors_more(bits.skip(head_len + map_len), more);
    let ((num_trees, selectors), selectors_len) = parse_selectors(bits.skip(head_len + map_len)).unwrap();
    lemma_skip_more(bits, more, head_len + map_len + selectors_len);
    lemma_parse_trees_more(bits.skip(head_len + map_len + selectors_len), more, num_trees, used.len() + 2);
    let (lengths, trees_len) = parse_trees(
        bits.skip(head_len + map_len + selectors_len),
        num_trees,
        used.len() + 2,
    ).unwrap();
    lemma_skip_more(bits, more, head_len + map_len + selectors_len + trees_len);
    lemma_parse_payload_more(
        bits.skip(head_len + map_len + selectors_len + trees_len),
        more,
        tables_of(lengths),
        selectors,
        0,
    );
}

/// A block that was decoded is decoded again when more bits follow.
pub proof fn lemma_decode_block_more(bits: Seq<Bit>, more: Seq<Bit>)
    requires
        decode_block_spec(bits) is Ok,
    ensures
        decode_block_spec(bits + more) == decode_block_spec(bits),
        0 <= decode_block_spec(bits).unwrap().1 <= bits.len(),
{
    lemma_parse_block_more(bits, more);
}

/// The blocks and the foot of a stream that were decoded are decoded again when
/// more bits follow.
pub proof fn lemma_decode_blocks_more(bits: Seq<Bit>, more: Seq<Bit>, total_crc: u32)
    requires
        decode_blocks_spec(bits, total_crc) is Ok,
    ensures
        decode_blocks_spec(bits + more, total_crc) == decode_blocks_spec(bits, total_crc),
        80 <= decode_blocks_spec(bits, total_crc).unwrap().1 <= bits.len(),
    decreases bits.len(),
{
    lemma_skip_more(bits, more, 48);
    match parse_what_next(bits) {
        Ok(BlockType::StreamFooter) => {
            lemma_subrange_more(bits, more, 48, 80);
        },
        Ok(BlockType::BlockHeader) => {
            lemma_decode_block_more(bits.skip(48), more);
            let (data, p) = decode_block_spec(bits.skip(48)).unwrap();
            lemma_skip_more(bits, more, 48 + p);
            lemma_decode_blocks_more(bits.skip(48 + p), more, combine_crc_spec(total_crc, crc32_spec(data)));
        },
        Err(_) => {},
    }
}

/// A stream that was decoded is decoded again when more bits follow.
pub proof fn lemma_decode_one_stream_more(bits: Seq<Bit>, more: Seq<Bit>)
    requires
        decode_one_stream_spec(bits) is Ok,
    ensures
        decode_one_stream_spec(bits + more) == decode_one_stream_spec(bits),
        112 <= decode_one_stream_spec(bits).unwrap().1 <= bits.len(),
{
    lemma_skip_more(bits, more, 32);
    lemma_decode_blocks_more(bits.skip(32), more, 0);
}

/// Whether the bits decode as streams to the data.
#[verifier::opaque]
pub open spec fn decoded_as(bits: Seq<Bit>, data: Seq<u8>) -> bool {
    decode_streams_spec(bits) == Ok::<Seq<u8>, DecodeError>(data)
}

/// Whether the bits begin with a stream that decodes to the data and ends at `end`.
#[verifier::opaque]
pub open spec fn begins_with_stream(bits: Seq<Bit>, data: Seq<u8>, end: int) -> bool {
    decode_one_stream_spec(bits) == Ok::<(Seq<u8>, int), DecodeError>((data, end))
}

/// The bits that follow a stream that ends at `end`, from the next byte boundary on.
pub open spec fn after_stream(bits: Seq<Bit>, end: int) -> Seq<Bit> {
    let rest = bits.skip(end);
    rest.skip((rest.len() % 8) as int)
}

/// Bits that decode as streams begin with a stream; either nothing follows it, or
/// what follows decodes as streams.
pub proof fn lemma_first_stream(bits: Seq<Bit>, data: Seq<u8>) -> (first: (Seq<u8>, int))
    requires
        decoded_as(bits, data),
    ensures
        begins_with_stream(bits, first.0, first.1),
        32 <= first.1 <= bits.len(),
        after_stream(bits, first.1).len() == 0 ==> data == first.0,
        after_stream(bits, first.1).len() > 0 ==> exists|later: Seq<u8>| #[trigger]
            decoded_as(after_stream(bits, first.1), later) && data == first.0 + later,
{
    reveal(decoded_as);
    reveal(begins_with_stream);
    let first = decode_one_stream_spec(bits).unwrap();
    if after_stream(bits, first.1).len() > 0 {
        let later = decode_streams_spec(after_stream(bits, first.1)).unwrap();
        assert(decoded_as(after_stream(bits, first.1), later));
    }
    first
}

/// A stream that nothing follows decodes to its data.
pub proof fn lemma_last_stream(bits: Seq<Bit>, data: Seq<u8>, end: int)
    requires
        begins_with_stream(bits, data, end),
        32 <= end <= bits.len(),
        after_stream(bits, end).len() == 0,
    ensures
        decoded_as(bits, data),
{
    reveal(decoded_as);
    reveal(begins_with_stream);
}

/// A stream that is followed by streams decodes to its data followed by theirs.
pub proof fn lemma_stream_and_later(bits: Seq<Bit>, data: Seq<u8>, end: int, later: Seq<u8>)
    requires
        begins_with_stream(bits, data, end),
        32 <= end <= bits.len(),
        after_stream(bits, end).len() > 0,
        decoded_as(after_stream(bits, end), later),
    ensures
        decoded_as(bits, data + later),
{
    reveal(decoded_as);
    reveal(begins_with_stream);
}

/// Bits that begin with a stream begin with it when more bits follow.
pub proof fn lemma_begins_with_stream_more(bits: Seq<Bit>, more: Seq<Bit>, data: Seq<u8>, end: int)
    requires
        begins_with_stream(bits, data, end),
    ensures
        begins_with_stream(bits + more, data, end),
        32 <= end <= bits.len(),
{
    reveal(begins_with_stream);
    lemma_decode_one_stream_more(bits, more);
}

/// What follows a stream when whole bytes are added at the end.
pub proof fn lemma_after_stream_more(bits: Seq<Bit>, more: Seq<Bit>, end: int)
    requires
        0 <= end <= bits.len(),
        more.len() % 8 == 0,
    ensures
        after_stream(bits + more, end) == after_stream(bits, end) + more,
        after_stream(bits, end).len() % 8 == 0,
{
    let rest = bits.skip(end);
    let k = (rest.len() % 8) as int;
    assert((bits + more).skip(end) =~= rest + more);
    assert((rest + more).len() == rest.len() + more.len());
    assert((rest.len() + more.len()) % 8 == k);
    assert((rest + more).skip(k) =~= rest.skip(k) + more);
}

/// Bits that decode as streams are not empty.
pub proof fn lemma_streams_have_a_head(bits: Seq<Bit>, data: Seq<u8>)
    requires
        decoded_as(bits, data),
    ensures
        bits.len() >= 32,
{
    reveal(decoded_as);
    if bits.len() < 32 {
        assert(parse_file_header(bits) is Err);
        assert(decode_one_stream_spec(bits) is Err);
    }
}

/// Whole bytes that decode as streams, followed by whole bytes that decode as
/// streams, decode to the data of the first followed by the data of the second.
pub proof fn lemma_joined_bits(first: Seq<Bit>, second: Seq<Bit>, first_data: Seq<u8>, second_data: Seq<u8>)
    requires
        second.len() % 8 == 0,
        decoded_as(first, first_data),
        decoded_as(second, second_data),
    ensures
        decoded_as(first + second, first_data + second_data),
    decreases first.len(),
{
    let (data, end) = lemma_first_stream(first, first_data);
    lemma_begins_with_stream_more(first, second, data, end);
    lemma_after_stream_more(first, second, end);
    lemma_streams_have_a_head(second, second_data);
    let left = after_stream(first, end);
    if left.len() == 0 {
        assert(left + second =~= second);
        lemma_stream_and_later(first + second, data, end, second_data);
    } else {
        let later = choose|later: Seq<u8>| #[trigger] decoded_as(left, later) && first_data == data + later;
        lemma_joined_bits(left, second, later, second_data);
        lemma_stream_and_later(first + second, data, end, later + second_data);
        assert(data + (later + second_data) =~= first_data + second_data);
    }
}

/// Streams written one after the other decode to their data one after the other:
/// bytes that decode, followed by bytes that decode, decode to the data of the first
/// followed by the data of the second.
pub proof fn lemma_joined_streams(first: Seq<u8>, second: Seq<u8>, first_data: Seq<u8>, second_data: Seq<u8>)
    requires
        decode_streams_spec(bytes_to_bits(first)) == Ok::<Seq<u8>, DecodeError>(first_data),
        decode_streams_spec(bytes_to_bits(second)) == Ok::<Seq<u8>, DecodeError>(second_data),
    ensures
        decode_streams_spec(bytes_to_bits(first + second)) == Ok::<Seq<u8>, DecodeError>(
            first_data + second_data,
        ),
{
    let first_bits = bytes_to_bits(first);
    let second_bits = bytes_to_bits(second);
    assert(decoded_as(first_bits, first_data) && decoded_as(second_bits, second_data)) by {
        reveal(decoded_as);
    }
    assert(bytes_to_bits(first + second) == first_bits + second_bits) by {
        lemma_bytes_to_bits_concat(first, second);
    }
    assert(second_bits.len() % 8 == 0) by {
        lemma_bytes_to_bits_len(second);
    }
    lemma_joined_bits(first_bits, second_bits, first_data, second_data);
    assert(decoded_as(bytes_to_bits(first + second), first_data + second_data));
    reveal(decoded_as);
}

} // verus!
