use vstd::prelude::*;
use vstd::arithmetic::power2::*;
use crate::bitwise::{Bit, bits_to_nat, byte_bits, bytes_to_bits, nat_to_bits, lemma_bytes_to_bits_len, lemma_nat_to_bits_value};
use crate::block::block_decoder::{parse_head, parse_selectors, parse_trees, parse_payload, parse_data, parse_block, decode_block_spec, tables_of, ParsedBlock};
use crate::block::block_encoder::{block_magic, crc_bytes, pointer_bytes, trees_bits, encoded_block, is_block_for, block_tables, strategy_frequencies, strategy_selectors, strategy_valid, MAX_BLOCK_SIZE};
use crate::block::bwt::bwt_internal::{is_bwt, is_sorted_rotations, last_column};
use crate::block::code_table::{bit_lengths_bits, canonical_lengths};
use crate::block::crc32::crc32_spec;
use crate::block::huffman::{CodeView, canonical_view, huffman_table, weights_table};
use crate::block::mtf::{mtf_spec, mtf_state, used_symbols_spec, inverse_mtf_spec, codes_in_range, lemma_mtf_state, lemma_mtf_inverts, lemma_mtf_round_trip, lemma_used_below};
use crate::block::rle::{rle_encode_spec, lemma_rle_round_trip};
use crate::block::selectors::{selector_dict, selector_bits, unary_bits};
use crate::block::symbol_map::{symbol_table_bits, parse_symbol_table};
use crate::block::symbol_statistics::{EncodingStrategy, groups_of};
use crate::block::symbol_statistics::kmeansclustering::{lloyd, nearest, assign};
use crate::block::zle::{ZleSymbol, zle_spec, unzle_spec, fits_alphabet, lemma_zle_round_trip, lemma_zle_numbers, lemma_zle_state_fits};
use crate::error::DecodeError;
use crate::round_trip::codes::{is_prefix_code, in_alphabet_order, lemma_huffman_table, lemma_canonical_view};
use crate::round_trip::parsing::{holds_at, lemma_holds_at_concat, lemma_parse_unary, lemma_parse_delta, lemma_parse_symbol_table, bytes_ascending};
use crate::round_trip::payload::{are_block_tables, is_block_symbol, payload_and_end, lemma_parse_payload, lemma_holds_at_skip};
use crate::round_trip::rotations::lemma_bwt_inverts;

verus! {

/// The number that two bit strings denote one after the other.
pub proof fn lemma_bits_to_nat_concat(a: Seq<Bit>, b: Seq<Bit>)
    ensures
        bits_to_nat(a + b) == bits_to_nat(a) * pow2(b.len()) + bits_to_nat(b),
    decreases b.len(),
{
    if b.len() == 0 {
        assert(a + b =~= a);
        lemma2_to64();
        assert(bits_to_nat(a) * 1 == bits_to_nat(a)) by (nonlinear_arith);
    } else {
        lemma_bits_to_nat_concat(a, b.drop_last());
        assert((a + b).drop_last() =~= a + b.drop_last());
        lemma_pow2_unfold(b.len());
        let p = pow2((b.len() - 1) as nat);
        assert(2 * (bits_to_nat(a) * p) == bits_to_nat(a) * (2 * p)) by (nonlinear_arith);
    }
}

/// The number that the bits of bytes denote: the number that the bytes before the
/// last denote, 256 times, and the last byte.
pub proof fn lemma_bytes_value(bytes: Seq<u8>)
    requires
        bytes.len() >= 1,
    ensures
        bits_to_nat(bytes_to_bits(bytes)) == bits_to_nat(bytes_to_bits(bytes.drop_last())) * 256 + bytes.last(),
{
    lemma2_to64();
    lemma_nat_to_bits_value(bytes.last() as nat, 8);
    lemma_bits_to_nat_concat(bytes_to_bits(bytes.drop_last()), byte_bits(bytes.last()));
}

/// The bytes of a checksum denote the checksum.
pub proof fn lemma_crc_bytes(crc: u32)
    ensures
        bits_to_nat(bytes_to_bits(crc_bytes(crc))) == crc,
        bytes_to_bits(crc_bytes(crc)).len() == 32,
{
    let bytes = crc_bytes(crc);
    let b3 = bytes;
    let b2 = b3.drop_last();
    let b1 = b2.drop_last();
    let b0 = b1.drop_last();
    lemma_bytes_value(b3);
    lemma_bytes_value(b2);
    lemma_bytes_value(b1);
    lemma_bytes_value(b0);
    assert(b0.drop_last() =~= Seq::<u8>::empty());
    assert(bits_to_nat(bytes_to_bits(b0.drop_last())) == 0);
    lemma_bytes_to_bits_len(bytes);
    assert(((crc >> 24u32) & 0xFFu32) == (crc / 0x1000000u32) % 256u32) by (bit_vector);
    assert(((crc >> 16u32) & 0xFFu32) == (crc / 0x10000u32) % 256u32) by (bit_vector);
    assert(((crc >> 8u32) & 0xFFu32) == (crc / 0x100u32) % 256u32) by (bit_vector);
    assert((crc & 0xFFu32) == crc % 256u32) by (bit_vector);
}

/// The bytes of the row of the input denote the row, if it is below 2^24.
pub proof fn lemma_pointer_bytes(orig_pointer: u32)
    requires
        orig_pointer < 0x1000000,
    ensures
        bits_to_nat(bytes_to_bits(pointer_bytes(orig_pointer))) == orig_pointer,
        bytes_to_bits(pointer_bytes(orig_pointer)).len() == 24,
{
    let bytes = pointer_bytes(orig_pointer);
    let b2 = bytes;
    let b1 = b2.drop_last();
    let b0 = b1.drop_last();
    lemma_bytes_value(b2);
    lemma_bytes_value(b1);
    lemma_bytes_value(b0);
    assert(b0.drop_last() =~= Seq::<u8>::empty());
    assert(bits_to_nat(bytes_to_bits(b0.drop_last())) == 0);
    lemma_bytes_to_bits_len(bytes);
    assert(((orig_pointer >> 16u32) & 0xFFu32) == (orig_pointer / 0x10000u32) % 256u32) by (bit_vector);
    assert(((orig_pointer >> 8u32) & 0xFFu32) == (orig_pointer / 0x100u32) % 256u32) by (bit_vector);
    assert((orig_pointer & 0xFFu32) == orig_pointer % 256u32) by (bit_vector);
}

/// The head of a block behind its magic bytes.
pub open spec fn head_bits(crc: u32, orig_pointer: u32) -> Seq<Bit> {
    bytes_to_bits(crc_bytes(crc)) + seq![Bit::Zero] + bytes_to_bits(pointer_bytes(orig_pointer))
}

/// The head of a block is read as it is.
pub proof fn lemma_parse_head(bits: Seq<Bit>, crc: u32, orig_pointer: u32)
    requires
        orig_pointer < 0x1000000,
        holds_at(bits, 0, head_bits(crc, orig_pointer)),
    ensures
        parse_head(bits) == Ok::<((u32, nat), int), DecodeError>(((crc, orig_pointer as nat), 57)),
        head_bits(crc, orig_pointer).len() == 57,
{
    lemma_crc_bytes(crc);
    lemma_pointer_bytes(orig_pointer);
    let head = head_bits(crc, orig_pointer);
    assert(bits.subrange(0, 32) =~= bytes_to_bits(crc_bytes(crc))) by {
        assert forall|t: int| 0 <= t < 32 implies bits.subrange(0, 32)[t] == bytes_to_bits(crc_bytes(crc))[t] by {
            assert(head[t] == bytes_to_bits(crc_bytes(crc))[t]);
            assert(bits[0 + t] == head[t]);
        }
    }
    assert(bits.subrange(33, 57) =~= bytes_to_bits(pointer_bytes(orig_pointer))) by {
        assert forall|t: int| 0 <= t < 24 implies bits.subrange(33, 57)[t] == bytes_to_bits(
            pointer_bytes(orig_pointer),
        )[t] by {
            assert(head[33 + t] == bytes_to_bits(pointer_bytes(orig_pointer))[t]);
            assert(bits[0 + (33 + t)] == head[33 + t]);
        }
    }
}

/// The number of tables, the number of selectors and the selectors as they are
/// written.
pub open spec fn selectors_part(selectors: Seq<u8>, num_tables: nat) -> Seq<Bit> {
    nat_to_bits(num_tables, 3) + nat_to_bits(selectors.len(), 15) + selector_bits(selectors, num_tables)
}

/// The selectors of a block are read as they are.
pub proof fn lemma_parse_selectors(bits: Seq<Bit>, selectors: Seq<u8>, num_tables: nat)
    requires
        2 <= num_tables <= 6,
        1 <= selectors.len() < 0x8000,
        forall|s: int| 0 <= s < selectors.len() ==> (#[trigger] selectors[s] as int) < num_tables,
        holds_at(bits, 0, selectors_part(selectors, num_tables)),
    ensures
        parse_selectors(bits) == Ok::<((nat, Seq<u8>), int), DecodeError>(
            ((num_tables, selectors), selectors_part(selectors, num_tables).len() as int),
        ),
{
    lemma2_to64();
    lemma_nat_to_bits_value(num_tables, 3);
    lemma_nat_to_bits_value(selectors.len(), 15);
    let dict = selector_dict(num_tables);
    let positions = mtf_state(dict, selectors).0;
    let first = nat_to_bits(num_tables, 3);
    let second = nat_to_bits(selectors.len(), 15);
    let third = unary_bits(positions);
    lemma_holds_at_concat(bits, 0, first + second, third);
    lemma_holds_at_concat(bits, 0, first, second);
    assert(bits.take(3) =~= first);
    assert(bits.subrange(3, 18) =~= second);
    assert forall|i: int| 0 <= i < selectors.len() implies dict.contains(#[trigger] selectors[i]) by {
        assert(dict[selectors[i] as int] == selectors[i]);
    }
    lemma_mtf_state(dict, selectors);
    lemma_mtf_inverts(dict, selectors);
    lemma_holds_at_skip(bits, 18, 0, third);
    lemma_parse_unary(bits.skip(18), positions);
}

/// Whether every table has `total` codes of between 1 and 17 bits.
pub open spec fn are_writable(tables: Seq<CodeView>, total: int) -> bool {
    forall|t: int|
        0 <= t < tables.len() ==> (#[trigger] tables[t]).len() == total && forall|i: int|
            0 <= i < total ==> 1 <= (#[trigger] tables[t][i]).0.len() <= 17
}

/// The code lengths of the tables from the table `j` on.
pub open spec fn lengths_from(tables: Seq<CodeView>, j: int) -> Seq<Seq<u8>> {
    Seq::new((tables.len() - j) as nat, |t: int| canonical_lengths(tables[j + t]))
}

proof fn lemma_trees_prefix(bits: Seq<Bit>, base: int, tables: Seq<CodeView>, j: int)
    requires
        0 <= j <= tables.len(),
        holds_at(bits, base, trees_bits(tables, tables.len() as int)),
    ensures
        holds_at(bits, base, trees_bits(tables, j)),
        j < tables.len() ==> holds_at(
            bits,
            base + trees_bits(tables, j).len(),
            bit_lengths_bits(canonical_lengths(tables[j])),
        ),
    decreases tables.len() - j,
{
    if j < tables.len() {
        lemma_trees_prefix(bits, base, tables, j + 1);
        lemma_holds_at_concat(bits, base, trees_bits(tables, j), bit_lengths_bits(canonical_lengths(tables[j])));
    }
}

proof fn lemma_parse_trees_from(bits: Seq<Bit>, base: int, tables: Seq<CodeView>, total: int, j: int)
    requires
        total >= 1,
        are_writable(tables, total),
        0 <= base,
        holds_at(bits, base, trees_bits(tables, tables.len() as int)),
        0 <= j <= tables.len(),
    ensures
        parse_trees(bits.skip(base + trees_bits(tables, j).len()), (tables.len() - j) as nat, total as nat)
            == Ok::<(Seq<Seq<u8>>, int), DecodeError>(
            (
                lengths_from(tables, j),
                trees_bits(tables, tables.len() as int).len() - trees_bits(tables, j).len(),
            ),
        ),
    decreases tables.len() - j,
{
    let k = tables.len() as int;
    if j == k {
        assert(lengths_from(tables, j) =~= Seq::<Seq<u8>>::empty());
    } else {
        lemma_parse_trees_from(bits, base, tables, total, j + 1);
        lemma_trees_prefix(bits, base, tables, j);
        lemma_trees_prefix(bits, base, tables, j + 1);
        let lengths = canonical_lengths(tables[j]);
        let from = base + trees_bits(tables, j).len();
        let here = bits.skip(from);
        lemma_holds_at_skip(bits, from, 0, bit_lengths_bits(lengths));
        assert forall|i: int| 0 <= i < lengths.len() implies 1 <= #[trigger] lengths[i] <= 17 by {
            assert(1 <= tables[j][i].0.len() <= 17);
        }
        lemma_parse_delta(here, lengths);
        let p = bit_lengths_bits(lengths).len() as int;
        assert(here.skip(p) =~= bits.skip(base + trees_bits(tables, j + 1).len()));
        assert(seq![lengths] + lengths_from(tables, j + 1) =~= lengths_from(tables, j));
    }
}

/// The code lengths of the tables of a block are read as they are.
pub proof fn lemma_parse_trees(bits: Seq<Bit>, tables: Seq<CodeView>, total: int)
    requires
        total >= 1,
        are_writable(tables, total),
        holds_at(bits, 0, trees_bits(tables, tables.len() as int)),
    ensures
        parse_trees(bits, tables.len(), total as nat) == Ok::<(Seq<Seq<u8>>, int), DecodeError>(
            (lengths_from(tables, 0), trees_bits(tables, tables.len() as int).len() as int),
        ),
{
    lemma_parse_trees_from(bits, 0, tables, total, 0);
    assert(bits.skip(0) =~= bits);
}

/// The nearest cluster is one of the clusters.
pub proof fn lemma_nearest_range(centers: Seq<Seq<u64>>, point: Seq<u8>, k: int)
    ensures
        0 <= nearest(centers, point, k),
        nearest(centers, point, k) < k || nearest(centers, point, k) == 0,
    decreases k,
{
    if k > 1 {
        lemma_nearest_range(centers, point, k - 1);
    }
}

/// The shape of what clustering gives: a centre of `dimension` coordinates for every
/// cluster, and a cluster for every point.
pub proof fn lemma_lloyd_shape(data: Seq<Seq<u8>>, num_clusters: int, dimension: int, passes: nat)
    requires
        1 <= num_clusters <= 256,
        0 <= dimension,
    ensures
        lloyd(data, num_clusters, dimension, passes).0.len() == num_clusters,
        forall|c: int|
            0 <= c < num_clusters ==> (#[trigger] lloyd(data, num_clusters, dimension, passes).0[c]).len()
                == dimension,
        lloyd(data, num_clusters, dimension, passes).1.len() == data.len(),
        forall|p: int|
            0 <= p < data.len() ==> (#[trigger] lloyd(data, num_clusters, dimension, passes).1[p] as int)
                < num_clusters,
    decreases passes,
{
    if passes > 0 {
        lemma_lloyd_shape(data, num_clusters, dimension, (passes - 1) as nat);
        let before = lloyd(data, num_clusters, dimension, (passes - 1) as nat);
        let assignments = assign(before.0, data);
        assert forall|p: int| 0 <= p < data.len() implies (#[trigger] assignments[p] as int) < num_clusters by {
            lemma_nearest_range(before.0, data[p], num_clusters);
        }
    }
}

/// The shape of the tables and selectors of a block: between two and six tables of
/// frequencies for the alphabet, and selectors that name them, one for every group
/// of symbols and the end of the block, fewer than 2^15.
pub proof fn lemma_strategy_shapes(symbols: Seq<ZleSymbol>, size: nat, strategy: EncodingStrategy)
    requires
        1 <= size <= 256,
        strategy_valid(strategy),
        symbols.len() <= MAX_BLOCK_SIZE,
    ensures
        2 <= strategy_frequencies(symbols, size, strategy).len() <= 6,
        forall|t: int|
            0 <= t < strategy_frequencies(symbols, size, strategy).len() ==> (
            #[trigger] strategy_frequencies(symbols, size, strategy)[t]).len() == size + 1,
        symbols.len() / 50 < strategy_selectors(symbols, size, strategy).len() < 0x8000,
        forall|g: int|
            0 <= g < strategy_selectors(symbols, size, strategy).len() ==> (
            #[trigger] strategy_selectors(symbols, size, strategy)[g] as int) < strategy_frequencies(
                symbols,
                size,
                strategy,
            ).len(),
{
    match strategy {
        EncodingStrategy::Single => {},
        EncodingStrategy::BlockWise { num_clusters, num_iterations } => {
            lemma_lloyd_shape(
                groups_of(symbols, size + 1),
                num_clusters as int,
                size as int + 1,
                num_iterations as nat,
            );
        },
    }
}

/// The tables of a block are prefix codes in the order of its alphabet, and the
/// canonical codes of their own lengths.
pub proof fn lemma_block_tables(symbols: Seq<ZleSymbol>, size: nat, strategy: EncodingStrategy)
    requires
        1 <= size <= 256,
        strategy_valid(strategy),
        symbols.len() <= MAX_BLOCK_SIZE,
    ensures
        block_tables(symbols, size, strategy).len() == strategy_frequencies(symbols, size, strategy).len(),
        are_block_tables(block_tables(symbols, size, strategy), size as int + 2),
        are_writable(block_tables(symbols, size, strategy), size as int + 2),
        tables_of(lengths_from(block_tables(symbols, size, strategy), 0)) == block_tables(
            symbols,
            size,
            strategy,
        ),
{
    lemma_strategy_shapes(symbols, size, strategy);
    let frequencies = strategy_frequencies(symbols, size, strategy);
    let tables = block_tables(symbols, size, strategy);
    let total = size as int + 2;
    assert forall|t: int| 0 <= t < tables.len() implies is_prefix_code(#[trigger] tables[t])
        && in_alphabet_order(tables[t], total) && tables[t].len() == total && (forall|i: int|
        0 <= i < total ==> 1 <= (#[trigger] tables[t][i]).0.len() <= 17) && canonical_view(
        weights_table(canonical_lengths(tables[t])),
    ) == tables[t] by {
        assert(frequencies[t].len() == size + 1);
        lemma_huffman_table(frequencies[t]);
        lemma_canonical_view(huffman_table(frequencies[t]), total);
    }
    assert(tables_of(lengths_from(tables, 0)) =~= tables) by {
        assert forall|t: int| 0 <= t < tables.len() implies tables_of(lengths_from(tables, 0))[t]
            == tables[t] by {
            assert(lengths_from(tables, 0)[t] == canonical_lengths(tables[0 + t]));
        }
    }
}

/// The bytes in use of a block with the given transformed data.
pub open spec fn block_used(bwt_data: Seq<u8>) -> Seq<u8> {
    used_symbols_spec(bwt_data)
}

/// The symbols of a block with the given transformed data.
pub open spec fn block_symbols(bwt_data: Seq<u8>) -> Seq<ZleSymbol> {
    zle_spec(mtf_spec(bwt_data))
}

/// The tables of a block with the given transformed data.
pub open spec fn tables_for(bwt_data: Seq<u8>, strategy: EncodingStrategy) -> Seq<CodeView> {
    block_tables(block_symbols(bwt_data), block_used(bwt_data).len(), strategy)
}

/// The selectors of a block with the given transformed data.
pub open spec fn selectors_for(bwt_data: Seq<u8>, strategy: EncodingStrategy) -> Seq<u8> {
    strategy_selectors(block_symbols(bwt_data), block_used(bwt_data).len(), strategy)
}

/// Whether the parts of a block can be read back: the bytes in use ascend, the
/// symbols belong to the alphabet, the tables are prefix codes that are the
/// canonical codes of their lengths, and the selectors name tables.
pub open spec fn parts_fit(bwt_data: Seq<u8>, strategy: EncodingStrategy) -> bool {
    let used = block_used(bwt_data);
    let symbols = block_symbols(bwt_data);
    let tables = tables_for(bwt_data, strategy);
    let selectors = selectors_for(bwt_data, strategy);
    let total = used.len() as int + 2;
    &&& 1 <= used.len() <= 256
    &&& bytes_ascending(used)
    &&& forall|i: int| 0 <= i < symbols.len() ==> is_block_symbol(#[trigger] symbols[i], total)
    &&& 2 <= tables.len() <= 6
    &&& are_block_tables(tables, total)
    &&& are_writable(tables, total)
    &&& tables_of(lengths_from(tables, 0)) == tables
    &&& symbols.len() / 50 < selectors.len() < 0x8000
    &&& forall|g: int| 0 <= g < selectors.len() ==> (#[trigger] selectors[g] as int) < tables.len()
    &&& unzle_spec(symbols) == mtf_spec(bwt_data)
    &&& mtf_spec(bwt_data).len() == bwt_data.len()
    &&& codes_in_range(mtf_spec(bwt_data), used.len() as int)
    &&& inverse_mtf_spec(mtf_spec(bwt_data), used) == bwt_data
}

/// The parts of a block for transformed data that is not empty can be read back.
pub proof fn lemma_parts_fit(bwt_data: Seq<u8>, strategy: EncodingStrategy)
    requires
        1 <= bwt_data.len() <= MAX_BLOCK_SIZE,
        strategy_valid(strategy),
    ensures
        parts_fit(bwt_data, strategy),
{
    let used = used_symbols_spec(bwt_data);
    let positions = mtf_spec(bwt_data);
    let symbols = zle_spec(positions);
    lemma_used_below(bwt_data, 256);
    assert(bwt_data.contains(bwt_data[0]));
    assert(used.contains(bwt_data[0]));
    let size = used.len();
    assert forall|i: int| 0 <= i < bwt_data.len() implies used.contains(#[trigger] bwt_data[i]) by {
        assert(bwt_data.contains(bwt_data[i]));
    }
    lemma_mtf_state(used, bwt_data);
    assert(fits_alphabet(positions, size as int));
    lemma_zle_state_fits(positions, size as int);
    lemma_zle_numbers(positions, size as int);
    let total = size as int + 2;
    assert forall|i: int| 0 <= i < symbols.len() implies is_block_symbol(#[trigger] symbols[i], total) by {}
    lemma_strategy_shapes(symbols, size, strategy);
    lemma_block_tables(symbols, size, strategy);
    lemma_zle_round_trip(positions);
    lemma_mtf_round_trip(bwt_data);
    assert(bytes_ascending(used)) by {
        assert forall|i: int, j: int| 0 <= i < j < used.len() implies used[i] < used[j] by {}
    }
}

/// The bits of a block behind its magic bytes.
pub open spec fn block_body(crc: u32, bwt_data: Seq<u8>, orig_pointer: u32, strategy: EncodingStrategy) -> Seq<
    Bit,
> {
    let tables = tables_for(bwt_data, strategy);
    let selectors = selectors_for(bwt_data, strategy);
    head_bits(crc, orig_pointer) + (symbol_table_bits(block_used(bwt_data)) + (selectors_part(
        selectors,
        tables.len(),
    ) + (trees_bits(tables, tables.len() as int) + payload_and_end(
        tables,
        selectors,
        block_symbols(bwt_data),
    ))))
}

/// A block is its magic bytes and its body.
pub proof fn lemma_block_body(crc: u32, bwt_data: Seq<u8>, orig_pointer: u32, strategy: EncodingStrategy)
    ensures
        encoded_block(crc, bwt_data, orig_pointer, strategy) == bytes_to_bits(block_magic()) + block_body(
            crc,
            bwt_data,
            orig_pointer,
            strategy,
        ),
        bytes_to_bits(block_magic()).len() == 48,
{
    lemma_bytes_to_bits_len(block_magic());
    assert(encoded_block(crc, bwt_data, orig_pointer, strategy) =~= bytes_to_bits(block_magic())
        + block_body(crc, bwt_data, orig_pointer, strategy));
}

/// Where the parts of the body of a block stand.
pub proof fn lemma_body_parts(bits: Seq<Bit>, crc: u32, bwt_data: Seq<u8>, orig_pointer: u32, strategy: EncodingStrategy)
    requires
        holds_at(bits, 0, block_body(crc, bwt_data, orig_pointer, strategy)),
    ensures
        ({
            let tables = tables_for(bwt_data, strategy);
            let selectors = selectors_for(bwt_data, strategy);
            let map = symbol_table_bits(block_used(bwt_data));
            let chosen = selectors_part(selectors, tables.len());
            let trees = trees_bits(tables, tables.len() as int);
            let payload = payload_and_end(tables, selectors, block_symbols(bwt_data));
            &&& holds_at(bits, 0, head_bits(crc, orig_pointer))
            &&& holds_at(bits.skip(57), 0, map)
            &&& holds_at(bits.skip(57 + map.len() as int), 0, chosen)
            &&& holds_at(bits.skip(57 + map.len() as int + chosen.len() as int), 0, trees)
            &&& holds_at(bits.skip(57 + map.len() as int + chosen.len() as int + trees.len() as int), 0, payload)
            &&& block_body(crc, bwt_data, orig_pointer, strategy).len() == 57 + map.len() + chosen.len()
                + trees.len() + payload.len()
        }),
{
    let tables = tables_for(bwt_data, strategy);
    let selectors = selectors_for(bwt_data, strategy);
    let head = head_bits(crc, orig_pointer);
    let map = symbol_table_bits(block_used(bwt_data));
    let chosen = selectors_part(selectors, tables.len());
    let trees = trees_bits(tables, tables.len() as int);
    let payload = payload_and_end(tables, selectors, block_symbols(bwt_data));
    lemma_parse_head_len(crc, orig_pointer);
    lemma_holds_at_concat(bits, 0, head, map + (chosen + (trees + payload)));
    lemma_holds_at_concat(bits, 57, map, chosen + (trees + payload));
    lemma_holds_at_concat(bits, 57 + map.len() as int, chosen, trees + payload);
    lemma_holds_at_concat(bits, 57 + map.len() as int + chosen.len() as int, trees, payload);
    lemma_holds_at_skip(bits, 57, 0, map);
    lemma_holds_at_skip(bits, 57 + map.len() as int, 0, chosen);
    lemma_holds_at_skip(bits, 57 + map.len() as int + chosen.len() as int, 0, trees);
    lemma_holds_at_skip(bits, 57 + map.len() as int + chosen.len() as int + trees.len() as int, 0, payload);
}

/// The body of a block is read as its parts.
#[verifier::rlimit(80)]
pub proof fn lemma_parse_body(bits: Seq<Bit>, crc: u32, bwt_data: Seq<u8>, orig_pointer: u32, strategy: EncodingStrategy)
    requires
        parts_fit(bwt_data, strategy),
        orig_pointer < bwt_data.len(),
        bwt_data.len() <= MAX_BLOCK_SIZE,
        holds_at(bits, 0, block_body(crc, bwt_data, orig_pointer, strategy)),
    ensures
        parse_block(bits) == Ok::<(ParsedBlock, int), DecodeError>(
            (
                ParsedBlock { crc, orig_ptr: orig_pointer as nat, bwt_data },
                block_body(crc, bwt_data, orig_pointer, strategy).len() as int,
            ),
        ),
{
    let used = block_used(bwt_data);
    let symbols = block_symbols(bwt_data);
    let tables = tables_for(bwt_data, strategy);
    let selectors = selectors_for(bwt_data, strategy);
    let total = used.len() as int + 2;
    let map = symbol_table_bits(used);
    let chosen = selectors_part(selectors, tables.len());
    let trees = trees_bits(tables, tables.len() as int);
    let payload = payload_and_end(tables, selectors, symbols);
    let map_len = map.len() as int;
    let selectors_len = chosen.len() as int;
    let trees_len = trees.len() as int;
    let payload_len = payload.len() as int;
    lemma_body_parts(bits, crc, bwt_data, orig_pointer, strategy);
    assert(parse_head(bits) == Ok::<((u32, nat), int), DecodeError>(((crc, orig_pointer as nat), 57))) by {
        lemma_parse_head(bits, crc, orig_pointer);
    }
    assert(parse_symbol_table(bits.skip(57)) == Ok::<(Seq<u8>, int), DecodeError>((used, map_len))) by {
        lemma_parse_symbol_table(bits.skip(57), used);
    }
    assert(parse_selectors(bits.skip(57 + map_len)) == Ok::<((nat, Seq<u8>), int), DecodeError>(
        ((tables.len(), selectors), selectors_len),
    )) by {
        lemma_parse_selectors(bits.skip(57 + map_len), selectors, tables.len());
    }
    assert(parse_trees(bits.skip(57 + map_len + selectors_len), tables.len(), (used.len() + 2) as nat) == Ok::<
        (Seq<Seq<u8>>, int),
        DecodeError,
    >((lengths_from(tables, 0), trees_len))) by {
        lemma_parse_trees(bits.skip(57 + map_len + selectors_len), tables, total);
    }
    assert(parse_payload(bits.skip(57 + map_len + selectors_len + trees_len), tables, selectors, 0) == Ok::<
        (Seq<ZleSymbol>, int),
        DecodeError,
    >((symbols, payload_len))) by {
        lemma_parse_payload(bits.skip(57 + map_len + selectors_len + trees_len), tables, total, selectors, symbols);
    }
    let parsed = ParsedBlock { crc, orig_ptr: orig_pointer as nat, bwt_data };
    assert(parse_data(symbols, used, crc, orig_pointer as nat) == Ok::<ParsedBlock, DecodeError>(parsed));
}

/// Decoding a block gives the data of the block. `bits` begin with the block, magic
/// bytes included; the block is decoded from the bits behind the magic bytes.
#[verifier::rlimit(80)]
pub proof fn lemma_block_round_trip(bits: Seq<Bit>, raw: Seq<u8>, strategy: EncodingStrategy, block: Seq<Bit>)
    requires
        1 <= rle_encode_spec(raw).len() <= MAX_BLOCK_SIZE,
        strategy_valid(strategy),
        is_block_for(block, raw, rle_encode_spec(raw), strategy),
        holds_at(bits, 0, block),
    ensures
        block.len() >= 48,
        holds_at(bits, 0, bytes_to_bits(block_magic())),
        decode_block_spec(bits.skip(48)) == Ok::<(Seq<u8>, int), DecodeError>((raw, block.len() - 48)),
{
    let rle = rle_encode_spec(raw);
    let (bwt_data, orig_pointer) = choose|bwt_data: Seq<u8>, orig_pointer: u32| #[trigger]
        is_bwt(rle, bwt_data, orig_pointer as int) && block == encoded_block(
            crc32_spec(raw),
            bwt_data,
            orig_pointer,
            strategy,
        );
    let crc = crc32_spec(raw);
    assert(bwt_data.len() == rle.len() && orig_pointer < rle.len()) by {
        let rows = choose|rows: Seq<usize>|
            {
                &&& #[trigger] is_sorted_rotations(rle, rows)
                &&& bwt_data == last_column(rle, rows)
                &&& 0 <= orig_pointer < rle.len()
                &&& rows[orig_pointer as int] == 0
            };
    }
    lemma_parts_fit(bwt_data, strategy);
    lemma_block_body(crc, bwt_data, orig_pointer, strategy);
    let body = block_body(crc, bwt_data, orig_pointer, strategy);
    lemma_holds_at_concat(bits, 0, bytes_to_bits(block_magic()), body);
    lemma_holds_at_skip(bits, 48, 0, body);
    lemma_parse_body(bits.skip(48), crc, bwt_data, orig_pointer, strategy);
    lemma_bwt_inverts(rle, bwt_data, orig_pointer as int);
    lemma_rle_round_trip(raw);
}

/// The head of a block has 57 bits behind the magic bytes.
pub proof fn lemma_parse_head_len(crc: u32, orig_pointer: u32)
    ensures
        head_bits(crc, orig_pointer).len() == 57,
{
    lemma_bytes_to_bits_len(crc_bytes(crc));
    lemma_bytes_to_bits_len(pointer_bytes(orig_pointer));
}

} // verus!
