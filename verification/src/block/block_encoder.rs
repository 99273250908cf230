use vstd::prelude::*;
use vstd::arithmetic::power2::*;
use crate::bitwise::{Bit, bytes_to_bits, nat_to_bits, lemma_bits_are_nat_to_bits, lemma_bit_length_bound};
use crate::bitwise::bitwriter::{convert_to_code_pad_to_15_bits, convert_to_code_pad_to_bytes, convert_to_code_pad_to_n_bits};
use crate::block::code_table::{encode_code_table, bit_lengths_bits, canonical_lengths};
use crate::block::bwt::bwt_internal::{bwt, is_bwt};
use crate::block::crc32::{crc32, crc32_spec};
use crate::block::huffman::{CanonicalCodeTable, CodeView, HuffmanSymbol, symbol_key, key_of_symbol, compute_huffman, table_lengths, canonical_view, huffman_table, views_of};
use crate::block::mtf::{mtf, mtf_spec, used_symbols_spec, lemma_used_below};
use crate::block::symbol_statistics::{copy_frequencies, EncodingStrategy, ReportedSymbols, IntoFrequencyTable, SinglePropabilityMap, BlockWisePropabilityMap, single_selector_count, GROUP_SIZE, groups_of, group, group_frequencies, frequency_views, centers_as_frequencies, lemma_group_frequencies_push};
use crate::block::symbol_statistics::kmeansclustering::{lloyd, data_view};
use crate::block::zle::{zle_transform, zle_spec, symbol_index, frequencies_of, lemma_zle_state_fits, lemma_count_symbol_bound, fits_alphabet};
use crate::block::selectors::{create_selectors, selector_bits, selectors_in_range};
use crate::block::symbol_map::{get_symbol_table, symbol_table_bits};
use crate::block::zle::ZleSymbol;

verus! {

/// The six bytes that begin a block.
pub open spec fn block_magic() -> Seq<u8> {
    seq![0x31u8, 0x41u8, 0x59u8, 0x26u8, 0x53u8, 0x59u8]
}

/// The four bytes of a checksum, the most significant first.
pub open spec fn crc_bytes(crc: u32) -> Seq<u8> {
    seq![
        ((crc >> 24u32) & 0xFFu32) as u8,
        ((crc >> 16u32) & 0xFFu32) as u8,
        ((crc >> 8u32) & 0xFFu32) as u8,
        (crc & 0xFFu32) as u8,
    ]
}

/// The lower three bytes of the row of the input, the most significant first.
pub open spec fn pointer_bytes(orig_pointer: u32) -> Seq<u8> {
    seq![
        ((orig_pointer >> 16u32) & 0xFFu32) as u8,
        ((orig_pointer >> 8u32) & 0xFFu32) as u8,
        (orig_pointer & 0xFFu32) as u8,
    ]
}

/// The head of a block: the magic bytes, the checksum, a zero bit that says that the
/// block is not randomised, and the row of the input in 24 bits.
pub open spec fn header_bits(crc: u32, orig_pointer: u32) -> Seq<Bit> {
    bytes_to_bits(block_magic()) + bytes_to_bits(crc_bytes(crc)) + seq![Bit::Zero] + bytes_to_bits(
        pointer_bytes(orig_pointer),
    )
}

/// Takes one byte out of a number.
fn byte_of(value: u32, shift: u32) -> (byte: u8)
    requires
        shift <= 24,
    ensures
        byte == ((value >> shift) & 0xFFu32) as u8,
{
    let masked: u32 = (value >> shift) & 0xFF;
    proof {
        assert(((value >> shift) & 0xFFu32) <= 0xFFu32) by (bit_vector);
    }
    masked as u8
}

/// Writes a checksum as four bytes, the most significant first.
pub fn crc_as_bytes(crc: u32) -> (magic: Vec<u8>)
    ensures
        magic@ == crc_bytes(crc),
{
    let mut magic: Vec<u8> = Vec::new();
    magic.push(byte_of(crc, 24));
    magic.push(byte_of(crc, 16));
    magic.push(byte_of(crc, 8));
    magic.push(byte_of(crc, 0));
    proof {
        assert((crc >> 0u32) & 0xFFu32 == crc & 0xFFu32) by (bit_vector);
        assert(magic@ =~= crc_bytes(crc));
    }
    magic
}

/// Writes the head of a block.
pub fn block_header(crc: u32, orig_pointer: u32) -> (magic: Vec<Bit>)
    ensures
        magic@ == header_bits(crc, orig_pointer),
{
    let mut bytes: Vec<u8> = Vec::new();
    bytes.push(0x31u8);
    bytes.push(0x41u8);
    bytes.push(0x59u8);
    bytes.push(0x26u8);
    bytes.push(0x53u8);
    bytes.push(0x59u8);
    proof {
        assert(bytes@ =~= block_magic());
    }
    let mut magic = convert_to_code_pad_to_bytes(bytes.as_slice());
    let crc_bytes = crc_as_bytes(crc);
    let mut crc_bits = convert_to_code_pad_to_bytes(crc_bytes.as_slice());
    magic.append(&mut crc_bits);
    magic.push(Bit::Zero);
    let mut pointer: Vec<u8> = Vec::new();
    pointer.push(byte_of(orig_pointer, 16));
    pointer.push(byte_of(orig_pointer, 8));
    pointer.push(byte_of(orig_pointer, 0));
    proof {
        assert((orig_pointer >> 0u32) & 0xFFu32 == orig_pointer & 0xFFu32) by (bit_vector);
        assert(pointer@ =~= pointer_bytes(orig_pointer));
    }
    let mut pointer_bits = convert_to_code_pad_to_bytes(pointer.as_slice());
    magic.append(&mut pointer_bits);
    proof {
        assert(magic@ =~= header_bits(crc, orig_pointer));
    }
    magic
}

/// The place of the first entry from `from` on whose symbol has the given key; the
/// length of the table where there is none.
pub open spec fn first_place(table: CodeView, key: int, from: int) -> int
    decreases table.len() - from,
{
    if from < 0 || from >= table.len() {
        table.len() as int
    } else if symbol_key(table[from].1) == key {
        from
    } else {
        first_place(table, key, from + 1)
    }
}

/// The code of a symbol: that of the first entry for it, and no bits where the table
/// has none.
pub open spec fn code_of(table: CodeView, symbol: HuffmanSymbol) -> Seq<Bit> {
    let place = first_place(table, symbol_key(symbol) as int, 0);
    if place < table.len() {
        table[place].0
    } else {
        Seq::empty()
    }
}

/// The first place of a key lies in the table or is its length.
pub proof fn lemma_first_place(table: CodeView, key: int, from: int)
    requires
        0 <= from <= table.len(),
    ensures
        from <= first_place(table, key, from) <= table.len(),
        first_place(table, key, from) < table.len() ==> symbol_key(table[first_place(table, key, from)].1)
            == key,
    decreases table.len() - from,
{
    if from < table.len() && symbol_key(table[from].1) != key {
        lemma_first_place(table, key, from + 1);
    }
}

/// Whether `places` holds for every key the first place of the table with that key.
pub open spec fn is_code_places(places: Seq<usize>, table: CodeView) -> bool {
    &&& places.len() == 259
    &&& forall|key: int| 0 <= key < 259 ==> #[trigger] places[key] == first_place(table, key, 0)
}

/// Finds for every key the first entry of the table with that key.
pub fn code_places(table: &CanonicalCodeTable) -> (places: Vec<usize>)
    ensures
        is_code_places(places@, table@),
{
    let n = table.0.len();
    let mut places: Vec<usize> = vec![n; 259];
    let mut k: usize = n;
    while k > 0
        invariant
            k <= n,
            n == table.0@.len(),
            places@.len() == 259,
            forall|key: int| 0 <= key < 259 ==> #[trigger] places@[key] == first_place(table@, key, k as int),
        decreases k,
    {
        k = k - 1;
        let key = key_of_symbol(&table.0[k].symbol);
        places[key] = k;
    }
    places
}

/// The codes of the first `k` symbols, each from the table that the selector of its
/// group of 50 names.
pub open spec fn payload_bits(tables: Seq<CodeView>, selectors: Seq<u8>, symbols: Seq<ZleSymbol>, k: int) -> Seq<
    Bit,
>
    decreases k,
{
    if k <= 0 {
        Seq::empty()
    } else {
        payload_bits(tables, selectors, symbols, k - 1) + code_of(
            tables[selectors[(k - 1) / 50] as int],
            HuffmanSymbol::NormalSymbol(symbols[k - 1]),
        )
    }
}

/// The code lengths of the first `t` tables, as they are written.
pub open spec fn trees_bits(tables: Seq<CodeView>, t: int) -> Seq<Bit>
    decreases t,
{
    if t <= 0 {
        Seq::empty()
    } else {
        trees_bits(tables, t - 1) + bit_lengths_bits(canonical_lengths(tables[t - 1]))
    }
}

/// The bits of a block: the head, the used bytes, the number of tables in three bits,
/// the number of selectors in fifteen, the selectors, the code lengths of the tables,
/// the codes of the symbols, and the code of the end of the block from the table of
/// the group that would come next.
pub open spec fn block_bits(
    crc: u32,
    orig_pointer: u32,
    used_symbols: Seq<u8>,
    tables: Seq<CodeView>,
    selectors: Seq<u8>,
    symbols: Seq<ZleSymbol>,
) -> Seq<Bit> {
    header_bits(crc, orig_pointer) + symbol_table_bits(used_symbols) + nat_to_bits(tables.len(), 3)
        + nat_to_bits(selectors.len(), 15) + selector_bits(selectors, tables.len()) + trees_bits(
        tables,
        tables.len() as int,
    ) + payload_bits(tables, selectors, symbols, symbols.len() as int) + code_of(
        tables[selectors[symbols.len() as int / 50] as int],
        HuffmanSymbol::EoB,
    )
}

/// Whether the parts of a block can be written: there are at most seven tables, whose
/// codes are no longer than 255 bits, fewer than 2^15 selectors, each of which names
/// a table, and a selector for every group of 50 symbols and for the end of the
/// block.
pub open spec fn block_parts_fit(tables: Seq<CodeView>, selectors: Seq<u8>, symbols: Seq<ZleSymbol>) -> bool {
    &&& tables.len() <= 7
    &&& selectors.len() < 0x8000
    &&& selectors_in_range(selectors, tables.len() as int)
    &&& symbols.len() / 50 < selectors.len()
    &&& forall|t: int, k: int|
        0 <= t < tables.len() && 0 <= k < tables[t].len() ==> (#[trigger] tables[t][k]).0.len() <= 255
}

/// Writes a block from its parts.
pub fn assemble_block(
    checksum: u32,
    orig_pointer: u32,
    used_symbols: Vec<u8>,
    code_tables: &Vec<CanonicalCodeTable>,
    selected_tables: &Vec<u8>,
    zle_data: &Vec<ZleSymbol>,
) -> (output: Vec<Bit>)
    requires
        block_parts_fit(views_of(code_tables@), selected_tables@, zle_data@),
    ensures
        output@ == block_bits(
            checksum,
            orig_pointer,
            used_symbols@,
            views_of(code_tables@),
            selected_tables@,
            zle_data@,
        ),
{
    let num_tables = code_tables.len();
    let ghost used = used_symbols@;
    let ghost tables = views_of(code_tables@);
    let mut output: Vec<Bit> = block_header(checksum, orig_pointer);
    let mut symbol_map = get_symbol_table(used_symbols);
    output.append(&mut symbol_map);
    proof {
        lemma2_to64();
        lemma_bit_length_bound(num_tables as nat, 3);
    }
    let mut table_count = convert_to_code_pad_to_n_bits(num_tables, 3);
    proof {
        lemma_bits_are_nat_to_bits(table_count@);
    }
    output.append(&mut table_count);
    let mut selectors = create_selectors(selected_tables.as_slice(), num_tables);
    let mut selector_count = convert_to_code_pad_to_15_bits(selectors.1 as u16);
    proof {
        lemma_bits_are_nat_to_bits(selector_count@);
    }
    output.append(&mut selector_count);
    output.append(&mut selectors.0);
    let ghost head = output@;
    proof {
        assert(head =~= header_bits(checksum, orig_pointer) + symbol_table_bits(used) + nat_to_bits(
            num_tables as nat,
            3,
        ) + nat_to_bits(selected_tables@.len(), 15) + selector_bits(selected_tables@, num_tables as nat));
    }
    // the code lengths of the tables
    let mut lookups: Vec<Vec<usize>> = Vec::new();
    let mut t: usize = 0;
    while t < num_tables
        invariant
            t <= num_tables,
            num_tables == code_tables@.len(),
            tables == views_of(code_tables@),
            block_parts_fit(tables, selected_tables@, zle_data@),
            output@ == head + trees_bits(tables, t as int),
            lookups@.len() == t,
            forall|u: int| 0 <= u < t ==> is_code_places((#[trigger] lookups@[u])@, tables[u]),
        decreases num_tables - t,
    {
        let table = &code_tables[t];
        proof {
            assert(tables[t as int] == table@);
            assert forall|k: int| 0 <= k < table.0@.len() implies (#[trigger] table.0@[k]).code@.len()
                <= 255 by {
                assert(tables[t as int][k].0.len() <= 255);
            }
        }
        let mut tree = encode_code_table(table);
        let ghost before = output@;
        output.append(&mut tree);
        let ghost previous = lookups@;
        lookups.push(code_places(table));
        proof {
            assert(output@ =~= head + trees_bits(tables, t + 1));
            assert forall|u: int| 0 <= u < t + 1 implies is_code_places(
                (#[trigger] lookups@[u])@,
                tables[u],
            ) by {
                if u < t {
                    assert(lookups@[u] == previous[u]);
                }
            }
        }
        t = t + 1;
    }
    let ghost trees = output@;
    // the symbols
    let mut position: usize = 0;
    while position < zle_data.len()
        invariant
            position <= zle_data@.len(),
            num_tables == code_tables@.len(),
            tables == views_of(code_tables@),
            block_parts_fit(tables, selected_tables@, zle_data@),
            lookups@.len() == num_tables,
            forall|u: int| 0 <= u < num_tables ==> is_code_places((#[trigger] lookups@[u])@, tables[u]),
            output@ == trees + payload_bits(tables, selected_tables@, zle_data@, position as int),
        decreases zle_data@.len() - position,
    {
        let symbol = HuffmanSymbol::NormalSymbol(zle_data[position]);
        let selected = selected_tables[position / 50] as usize;
        let code_table = &code_tables[selected];
        let key = key_of_symbol(&symbol);
        let ghost before = output@;
        proof {
            assert(is_code_places(lookups@[selected as int]@, tables[selected as int]));
            assert(tables[selected as int] == code_table@);
        }
        let place = lookups[selected][key];
        if place < code_table.0.len() {
            let mut code = crate::block::huffman::copy_bits(&code_table.0[place].code);
            output.append(&mut code);
        }
        proof {
            assert(output@ =~= before + code_of(code_table@, symbol));
            assert(output@ =~= trees + payload_bits(tables, selected_tables@, zle_data@, position + 1));
        }
        position = position + 1;
    }
    // the end of the block
    let selected = selected_tables[position / 50] as usize;
    let code_table = &code_tables[selected];
    let key = key_of_symbol(&HuffmanSymbol::EoB);
    proof {
        assert(is_code_places(lookups@[selected as int]@, tables[selected as int]));
        assert(tables[selected as int] == code_table@);
    }
    let place = lookups[selected][key];
    let ghost before = output@;
    if place < code_table.0.len() {
        let mut code = crate::block::huffman::copy_bits(&code_table.0[place].code);
        output.append(&mut code);
    }
    proof {
        assert(output@ =~= before + code_of(code_table@, HuffmanSymbol::EoB));
        assert(output@ =~= block_bits(checksum, orig_pointer, used, tables, selected_tables@, zle_data@));
    }
    output
}

/// The largest number of bytes that a block holds after run-length encoding.
pub const MAX_BLOCK_SIZE: usize = 900_000;

/// Whether a strategy can be used: with tables chosen by clustering there are between
/// two and six of them.
pub open spec fn strategy_valid(strategy: EncodingStrategy) -> bool {
    match strategy {
        EncodingStrategy::BlockWise { num_clusters, num_iterations } => 2 <= num_clusters <= 6,
        EncodingStrategy::Single => true,
    }
}

/// The frequency tables of a block of the given symbols over an alphabet of `size`
/// bytes. Under the single strategy the frequencies of the symbols, twice; with
/// clustering the centres of the clusters of the groups of symbols.
pub open spec fn strategy_frequencies(symbols: Seq<ZleSymbol>, size: nat, strategy: EncodingStrategy) -> Seq<
    Seq<usize>,
> {
    match strategy {
        EncodingStrategy::Single => seq![frequencies_of(symbols, size + 1), frequencies_of(symbols, size + 1)],
        EncodingStrategy::BlockWise { num_clusters, num_iterations } => centers_as_frequencies(
            lloyd(groups_of(symbols, size + 1), num_clusters as int, size as int + 1, num_iterations as nat).0,
        ),
    }
}

/// The selectors of a block of the given symbols. Under the single strategy a 0 for
/// every group begun and one more; with clustering the cluster of every group.
pub open spec fn strategy_selectors(symbols: Seq<ZleSymbol>, size: nat, strategy: EncodingStrategy) -> Seq<u8> {
    match strategy {
        EncodingStrategy::Single => Seq::new(
            single_selector_count(symbols.len() as int) as nat,
            |g: int| 0u8,
        ),
        EncodingStrategy::BlockWise { num_clusters, num_iterations } => lloyd(
            groups_of(symbols, size + 1),
            num_clusters as int,
            size as int + 1,
            num_iterations as nat,
        ).1,
    }
}

/// Whether the groups that have been closed and the open group are those of the
/// first `k` symbols.
pub open spec fn groups_counted(map: BlockWisePropabilityMap, symbols: Seq<ZleSymbol>, k: int) -> bool {
    &&& map.counter == k % 50
    &&& map.maps@.len() == k / 50
    &&& forall|g: int|
        0 <= g < k / 50 ==> (#[trigger] map.maps@[g])@ == group_frequencies(
            symbols.subrange(50 * g, 50 * g + 50),
            (map.size + 1) as nat,
        )
    &&& map.current_frequencies@ == group_frequencies(
        symbols.subrange(50 * (k / 50), k),
        (map.size + 1) as nat,
    )
}

/// Counts the symbols of a block for the tables of the given strategy.
pub fn count_symbols(zle_data: &Vec<ZleSymbol>, size: usize, strategy: EncodingStrategy) -> (reported:
    ReportedSymbols)
    requires
        1 <= size <= 256,
        strategy_valid(strategy),
        zle_data@.len() <= MAX_BLOCK_SIZE,
        forall|k: int| 0 <= k < zle_data@.len() ==> 0 <= symbol_index(#[trigger] zle_data@[k]) <= size,
    ensures
        frequency_views(reported.reported_frequencies@) == strategy_frequencies(zle_data@, size as nat, strategy),
        reported.selectors@ == strategy_selectors(zle_data@, size as nat, strategy),
        2 <= reported.reported_frequencies@.len() <= 6,
        forall|t: int|
            0 <= t < reported.reported_frequencies@.len() ==> (
            #[trigger] reported.reported_frequencies@[t]).frequencies@.len() == size + 1 && forall|d: int|
                0 <= d <= size ==> #[trigger] reported.reported_frequencies@[t].frequencies@[d]
                    <= 0x7FFF_FFFF,
        selectors_in_range(reported.selectors@, reported.reported_frequencies@.len() as int),
        zle_data@.len() / 50 < reported.selectors@.len() <= zle_data@.len() / 50 + 2,
{
    match strategy {
        EncodingStrategy::Single => {
            let mut map = SinglePropabilityMap::create(size);
            let mut k: usize = 0;
            while k < zle_data.len()
                invariant
                    k <= zle_data@.len() <= MAX_BLOCK_SIZE,
                    forall|j: int| 0 <= j < zle_data@.len() ==> 0 <= symbol_index(#[trigger] zle_data@[j]) <= size,
                    map.symbol_count == k,
                    map.frequencies@ == frequencies_of(zle_data@.take(k as int), (size + 1) as nat),
                decreases zle_data@.len() - k,
            {
                proof {
                    lemma_count_symbol_bound(zle_data@.take(k as int), symbol_index(zle_data@[k as int]));
                    assert(zle_data@.take(k + 1).drop_last() =~= zle_data@.take(k as int));
                }
                let symbol = zle_data[k];
                map.report_symbol(&symbol);
                k = k + 1;
                proof {
                    assert(map.frequencies@ =~= frequencies_of(zle_data@.take(k as int), (size + 1) as nat));
                }
            }
            proof {
                assert(zle_data@.take(k as int) =~= zle_data@);
                assert forall|d: int| 0 <= d <= size implies #[trigger] map.frequencies@[d] <= 0x7FFF_FFFF by {
                    lemma_count_symbol_bound(zle_data@, d);
                }
            }
            let reported = map.finalize();
            proof {
                assert(frequency_views(reported.reported_frequencies@) =~= strategy_frequencies(
                    zle_data@,
                    size as nat,
                    strategy,
                ));
                assert(reported.selectors@ =~= strategy_selectors(zle_data@, size as nat, strategy));
            }
            reported
        },
        EncodingStrategy::BlockWise { num_clusters, num_iterations } => {
            let mut map = BlockWisePropabilityMap::create(size, num_clusters, num_iterations);
            let mut k: usize = 0;
            proof {
                assert(zle_data@.subrange(0, 0) =~= Seq::<ZleSymbol>::empty());
            }
            while k < zle_data.len()
                invariant
                    k <= zle_data@.len() <= MAX_BLOCK_SIZE,
                    forall|j: int| 0 <= j < zle_data@.len() ==> 0 <= symbol_index(#[trigger] zle_data@[j]) <= size,
                    map.wf(),
                    map.size == size,
                    map.num_clusters == num_clusters,
                    map.num_iterations == num_iterations,
                    groups_counted(map, zle_data@, k as int),
                decreases zle_data@.len() - k,
            {
                let symbol = zle_data[k];
                let ghost before = map;
                let ghost start = 50 * (k as int / 50);
                let ghost open = zle_data@.subrange(start, k as int);
                proof {
                    lemma_group_frequencies_push(open, symbol, (size + 1) as nat);
                    assert(open.push(symbol) =~= zle_data@.subrange(start, k + 1));
                }
                map.report_symbol(&symbol);
                k = k + 1;
                proof {
                    if before.counter + 1 < GROUP_SIZE {
                        assert(k as int / 50 == (k - 1) / 50);
                    } else {
                        assert(k as int / 50 == (k - 1) / 50 + 1);
                        assert(zle_data@.subrange(k as int, k as int) =~= Seq::<ZleSymbol>::empty());
                        assert forall|g: int| 0 <= g < k as int / 50 implies (#[trigger] map.maps@[g])@
                            == group_frequencies(
                            zle_data@.subrange(50 * g, 50 * g + 50),
                            (map.size + 1) as nat,
                        ) by {
                            if g < before.maps@.len() {
                                assert(map.maps@[g] == map.maps@.drop_last()[g]);
                            }
                        }
                    }
                }
            }
            let ghost counted = map;
            let reported = map.finalize();
            proof {
                let n = zle_data@.len() as int;
                let groups = data_view(counted.maps@).push(counted.current_frequencies@);
                assert(groups =~= groups_of(zle_data@, (size + 1) as nat)) by {
                    assert forall|g: int| 0 <= g < groups.len() implies groups[g] == groups_of(
                        zle_data@,
                        (size + 1) as nat,
                    )[g] by {
                        if g < n / 50 {
                            assert(groups[g] == counted.maps@[g]@);
                        }
                    }
                }
            }
            reported
        },
    }
}

/// The canonical codes of the tables of a block of the given symbols.
pub open spec fn block_tables(symbols: Seq<ZleSymbol>, size: nat, strategy: EncodingStrategy) -> Seq<CodeView> {
    let frequencies = strategy_frequencies(symbols, size, strategy);
    Seq::new(frequencies.len(), |t: int| canonical_view(huffman_table(frequencies[t])))
}

/// Builds the canonical code of every frequency table.
pub fn build_code_tables(frequencies: &Vec<IntoFrequencyTable>) -> (tables: Vec<CanonicalCodeTable>)
    requires
        forall|t: int|
            0 <= t < frequencies@.len() ==> 1 <= (#[trigger] frequencies@[t]).frequencies@.len() <= 257
                && forall|d: int|
                0 <= d < frequencies@[t].frequencies@.len() ==> #[trigger] frequencies@[t].frequencies@[d]
                    <= 0x7FFF_FFFF,
    ensures
        tables@.len() == frequencies@.len(),
        forall|t: int|
            0 <= t < tables@.len() ==> (#[trigger] tables@[t])@ == canonical_view(
                huffman_table(frequencies@[t].frequencies@),
            ) && tables@[t].0@.len() == frequencies@[t].frequencies@.len() + 1,
        forall|t: int, k: int|
            0 <= t < tables@.len() && 0 <= k < tables@[t].0@.len() ==> (#[trigger] tables@[t].0@[k]).code@.len()
                <= 32,
{
    let mut tables: Vec<CanonicalCodeTable> = Vec::new();
    let mut t: usize = 0;
    while t < frequencies.len()
        invariant
            t <= frequencies@.len(),
            tables@.len() == t,
            forall|t: int|
                0 <= t < frequencies@.len() ==> 1 <= (#[trigger] frequencies@[t]).frequencies@.len() <= 257
                    && forall|d: int|
                    0 <= d < frequencies@[t].frequencies@.len() ==> #[trigger] frequencies@[t].frequencies@[d]
                        <= 0x7FFF_FFFF,
            forall|u: int|
                0 <= u < tables@.len() ==> (#[trigger] tables@[u])@ == canonical_view(
                    huffman_table(frequencies@[u].frequencies@),
                ) && tables@[u].0@.len() == frequencies@[u].frequencies@.len() + 1,
            forall|u: int, k: int|
                0 <= u < tables@.len() && 0 <= k < tables@[u].0@.len() ==> (
                #[trigger] tables@[u].0@[k]).code@.len() <= 32,
        decreases frequencies@.len() - t,
    {
        let table = IntoFrequencyTable { frequencies: copy_frequencies(&frequencies[t].frequencies) };
        proof {
            assert(1 <= frequencies@[t as int].frequencies@.len() <= 257);
        }
        let code = compute_huffman(table);
        let ghost code_entries = code.0@;
        proof {
            assert forall|k: int| 0 <= k < code_entries.len() implies (#[trigger] code_entries[k]).code
                <= 20 by {
                assert(table_lengths(code_entries)[k] == code_entries[k].code);
            }
            assert(code.bounded());
        }
        let canonical = code.canonicalize();
        let ghost before = tables@;
        tables.push(canonical);
        proof {
            assert forall|u: int| 0 <= u < tables@.len() implies (#[trigger] tables@[u])@
                == canonical_view(huffman_table(frequencies@[u].frequencies@)) && tables@[u].0@.len()
                == frequencies@[u].frequencies@.len() + 1 by {
                if u < before.len() {
                    assert(tables@[u] == before[u]);
                }
            }
            assert forall|u: int, k: int|
                0 <= u < tables@.len() && 0 <= k < tables@[u].0@.len() implies (
            #[trigger] tables@[u].0@[k]).code@.len() <= 32 by {
                if u < before.len() {
                    assert(tables@[u] == before[u]);
                }
            }
        }
        t = t + 1;
    }
    tables
}

/// The bits of the block for data with the given Burrows-Wheeler transform: the
/// symbols are the transform after move-to-front and zero-run encoding, the tables
/// and the selectors those of the strategy.
pub open spec fn encoded_block(crc: u32, bwt_data: Seq<u8>, orig_pointer: u32, strategy: EncodingStrategy) -> Seq<
    Bit,
> {
    let used = used_symbols_spec(bwt_data);
    let symbols = zle_spec(mtf_spec(bwt_data));
    block_bits(
        crc,
        orig_pointer,
        used,
        block_tables(symbols, used.len(), strategy),
        strategy_selectors(symbols, used.len(), strategy),
        symbols,
    )
}

/// Whether `bits` is the block for the data `raw` with the run-length encoding
/// `rle_data` under the given strategy: the block of a Burrows-Wheeler transform
/// of `rle_data`, with the checksum of `raw`.
pub open spec fn is_block_for(bits: Seq<Bit>, raw: Seq<u8>, rle_data: Seq<u8>, strategy: EncodingStrategy) -> bool {
    exists|bwt_data: Seq<u8>, orig_pointer: u32| #[trigger]
        is_bwt(rle_data, bwt_data, orig_pointer as int) && bits == encoded_block(
            crc32_spec(raw),
            bwt_data,
            orig_pointer,
            strategy,
        )
}

/// Compresses one block. `input` is the data of the block and `rle_data` its
/// run-length encoding. Returns the bits of the block and the checksum of `input`.
pub fn generate_block_data(input: &[u8], rle_data: Vec<u8>, encoding_strategy: EncodingStrategy) -> (result:
    (Vec<Bit>, u32))
    requires
        0 < rle_data@.len() <= MAX_BLOCK_SIZE,
        strategy_valid(encoding_strategy),
    ensures
        result.1 == crc32_spec(input@),
        is_block_for(result.0@, input@, rle_data@, encoding_strategy),
{
    let checksum = crc32(input);
    let ghost rle = rle_data@;
    let bwt_data = bwt(rle_data);
    let mtf_data = mtf(bwt_data.data.as_slice());
    let size = mtf_data.used_symbols.len();
    proof {
        lemma_used_below(bwt_data.data@, 256);
        assert(bwt_data.data@.len() > 0);
        assert(bwt_data.data@.contains(bwt_data.data@[0]));
        assert(mtf_data.used_symbols@.contains(bwt_data.data@[0]));
        assert(fits_alphabet(mtf_data.encoded@, size as int));
        lemma_zle_state_fits(mtf_data.encoded@, size as int);
    }
    let (zle_data, _) = zle_transform(mtf_data.encoded, size);
    let frequencies = count_symbols(&zle_data, size, encoding_strategy);
    let ReportedSymbols { reported_frequencies, selectors: selected_tables } = frequencies;
    let code_tables = build_code_tables(&reported_frequencies);
    proof {
        let tables = views_of(code_tables@);
        assert forall|t: int, k: int| 0 <= t < tables.len() && 0 <= k < tables[t].len() implies (
        #[trigger] tables[t][k]).0.len() <= 255 by {
            assert(code_tables@[t].0@[k].code@.len() <= 32);
        }
        assert(tables =~= block_tables(zle_data@, size as nat, encoding_strategy)) by {
            assert forall|t: int| 0 <= t < tables.len() implies tables[t] == block_tables(
                zle_data@,
                size as nat,
                encoding_strategy,
            )[t] by {
                assert(frequency_views(reported_frequencies@)[t] == reported_frequencies@[t].frequencies@);
            }
        }
    }
    let output = assemble_block(
        checksum,
        bwt_data.end_of_string,
        mtf_data.used_symbols,
        &code_tables,
        &selected_tables,
        &zle_data,
    );
    proof {
        assert(is_bwt(rle, bwt_data.data@, bwt_data.end_of_string as int));
    }
    (output, checksum)
}

} // verus!
