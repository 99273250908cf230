use vstd::prelude::*;
use vstd::arithmetic::power2::*;
use crate::bitwise::{Bit, bits_to_nat, lemma_bits_to_nat_bound};
use crate::bitwise::bitreader::BitReader;
use crate::bitwise::bitwriter::convert_to_number;
use crate::block::block_encoder::MAX_BLOCK_SIZE;
use crate::block::bwt::bwt_inverse::{inverse_bwt, inverse_bwt_spec};
use crate::block::code_table::{read_delta, parse_delta};
use crate::block::crc32::{crc32, crc32_spec};
use crate::block::huffman::{CanonicalCodeTable, CodeTable, CodeView, canonical_view, weights_table, views_of};
use crate::block::huffman::reader::{read_group, parse_symbols};
use crate::block::mtf::{inverse_mtf, inverse_mtf_spec, codes_in_range, check_codes_in_range};
use crate::block::rle::{inverse_rle, inverse_rle_spec};
use crate::block::selectors::{read_unary, parse_unary, selector_dict};
use crate::block::symbol_map::{read_symbol_table, parse_symbol_table, lemma_symbols_below_len, lemma_ones_below};
use crate::block::zle::{ZleSymbol, decode_zle_bounded, unzle_spec};
use crate::error::DecodeError;

verus! {

/// What the head of a block says, after its magic bytes: the checksum of the data,
/// and the row of the input in the sorted rotations. The bit between them, which
/// says whether the block is randomised, is passed over.
pub open spec fn parse_head(bits: Seq<Bit>) -> Result<((u32, nat), int), DecodeError> {
    if bits.len() < 57 {
        Err(DecodeError::Io)
    } else {
        Ok(((bits_to_nat(bits.subrange(0, 32)) as u32, bits_to_nat(bits.subrange(33, 57))), 57))
    }
}

/// What the selectors of a block are read as: the number of tables, which lies
/// between 2 and 6, and for every group of symbols its table. There is at least one
/// selector, and every selector names a table.
pub open spec fn parse_selectors(bits: Seq<Bit>) -> Result<((nat, Seq<u8>), int), DecodeError> {
    if bits.len() < 3 {
        Err(DecodeError::Io)
    } else {
        let num_trees = bits_to_nat(bits.take(3));
        if num_trees < 2 || num_trees > 6 {
            Err(DecodeError::Format)
        } else if bits.len() < 18 {
            Err(DecodeError::Io)
        } else {
            let count = bits_to_nat(bits.subrange(3, 18));
            if count == 0 {
                Err(DecodeError::Format)
            } else {
                match parse_unary(bits.skip(18), 0, 0, count) {
                    Err(e) => Err(e),
                    Ok((positions, p)) => if !codes_in_range(positions, num_trees as int) {
                        Err(DecodeError::Format)
                    } else {
                        Ok(((num_trees, inverse_mtf_spec(positions, selector_dict(num_trees))), 18 + p))
                    },
                }
            }
        }
    }
}

/// What the code lengths of `count` tables over an alphabet of `total` symbols are
/// read as.
pub open spec fn parse_trees(bits: Seq<Bit>, count: nat, total: nat) -> Result<
    (Seq<Seq<u8>>, int),
    DecodeError,
>
    decreases count,
{
    if count == 0 {
        Ok((Seq::empty(), 0))
    } else {
        match parse_delta(bits, total) {
            Err(e) => Err(e),
            Ok((lengths, p)) => if p < 0 || p > bits.len() {
                Err(DecodeError::Io)
            } else {
                match parse_trees(bits.skip(p), (count - 1) as nat, total) {
                    Err(e) => Err(e),
                    Ok((more, q)) => Ok((seq![lengths] + more, p + q)),
                }
            },
        }
    }
}

/// The canonical codes for lists of code lengths.
pub open spec fn tables_of(lengths: Seq<Seq<u8>>) -> Seq<CodeView> {
    Seq::new(lengths.len(), |t: int| canonical_view(weights_table(lengths[t])))
}

/// What the symbols of a block are read as, from the group with the number `group`
/// on: groups of 50 symbols, each with the table that its selector names, up to the
/// end of the block. A group without a selector is an error.
pub open spec fn parse_payload(bits: Seq<Bit>, tables: Seq<CodeView>, selectors: Seq<u8>, group: int) -> Result<
    (Seq<ZleSymbol>, int),
    DecodeError,
>
    decreases selectors.len() - group,
{
    if group < 0 || group >= selectors.len() {
        Err(DecodeError::Format)
    } else {
        match parse_symbols(bits, 0, tables[selectors[group] as int], Seq::empty(), 50) {
            Err(e) => Err(e),
            Ok(((symbols, end), p)) => if end {
                Ok((symbols, p))
            } else if p < 0 || p > bits.len() {
                Err(DecodeError::Io)
            } else {
                match parse_payload(bits.skip(p), tables, selectors, group + 1) {
                    Err(e) => Err(e),
                    Ok((more, q)) => Ok((symbols + more, p + q)),
                }
            },
        }
    }
}

/// What a block holds: the checksum of its data, and the transformed data with the
/// row of the input.
pub struct ParsedBlock {
    pub crc: u32,
    pub orig_ptr: nat,
    pub bwt_data: Seq<u8>,
}

/// The transformed data that the symbols of a block stand for, over the bytes in
/// use. The data holds at most as many bytes as a block may, every position lies in
/// the alphabet, and the row of the input lies in the data.
pub open spec fn parse_data(symbols: Seq<ZleSymbol>, used: Seq<u8>, crc: u32, orig_ptr: nat) -> Result<
    ParsedBlock,
    DecodeError,
> {
    let positions = unzle_spec(symbols);
    if positions.len() > MAX_BLOCK_SIZE {
        Err(DecodeError::Format)
    } else if !codes_in_range(positions, used.len() as int) {
        Err(DecodeError::Format)
    } else if orig_ptr >= positions.len() {
        Err(DecodeError::Format)
    } else {
        Ok(ParsedBlock { crc, orig_ptr, bwt_data: inverse_mtf_spec(positions, used) })
    }
}

/// What the bits after the magic bytes of a block are read as: the head, the bytes
/// in use, of which there is at least one, the selectors, the code lengths of the
/// tables, and the symbols.
pub open spec fn parse_block(bits: Seq<Bit>) -> Result<(ParsedBlock, int), DecodeError> {
    match parse_head(bits) {
        Err(e) => Err(e),
        Ok(((crc, orig_ptr), head_len)) => match parse_symbol_table(bits.skip(head_len)) {
            Err(e) => Err(e),
            Ok((used, map_len)) => if used.len() == 0 {
                Err(DecodeError::Format)
            } else {
                match parse_selectors(bits.skip(head_len + map_len)) {
                    Err(e) => Err(e),
                    Ok(((num_trees, selectors), selectors_len)) => match parse_trees(
                        bits.skip(head_len + map_len + selectors_len),
                        num_trees,
                        used.len() + 2,
                    ) {
                        Err(e) => Err(e),
                        Ok((lengths, trees_len)) => match parse_payload(
                            bits.skip(head_len + map_len + selectors_len + trees_len),
                            tables_of(lengths),
                            selectors,
                            0,
                        ) {
                            Err(e) => Err(e),
                            Ok((symbols, payload_len)) => match parse_data(symbols, used, crc, orig_ptr) {
                                Err(e) => Err(e),
                                Ok(block) => Ok((block, head_len + map_len + selectors_len + trees_len + payload_len)),
                            },
                        },
                    },
                }
            },
        },
    }
}

/// Reads the head of a block.
pub fn read_head<R: BitReader>(reader: &mut R) -> (r: Result<(u32, usize), DecodeError>)
    requires
        old(reader).inv(),
    ensures
        final(reader).inv(),
        match parse_head(old(reader).remaining()) {
            Ok(((crc, orig_ptr), position)) => r is Ok && r.unwrap().0 == crc && r.unwrap().1 == orig_ptr
                && final(reader).remaining() == old(reader).remaining().skip(position),
            Err(e) => r == Err::<(u32, usize), DecodeError>(e),
        },
{
    let ghost bits = reader.remaining();
    proof {
        lemma2_to64();
    }
    let crc_bits = match reader.read_bits(32) {
        Ok(crc_bits) => crc_bits,
        Err(_) => {
            return Err(DecodeError::Io);
        },
    };
    proof {
        lemma_bits_to_nat_bound(crc_bits@);
        assert(crc_bits@ =~= bits.subrange(0, 32));
    }
    let crc = convert_to_number(crc_bits.as_slice()) as u32;
    let _randomized = match reader.read_bits(1) {
        Ok(randomized) => randomized,
        Err(_) => {
            return Err(DecodeError::Io);
        },
    };
    let pointer_bits = match reader.read_bits(24) {
        Ok(pointer_bits) => pointer_bits,
        Err(_) => {
            return Err(DecodeError::Io);
        },
    };
    proof {
        lemma_bits_to_nat_bound(pointer_bits@);
        assert(pointer_bits@ =~= bits.subrange(33, 57));
        assert(reader.remaining() =~= bits.skip(57));
    }
    let orig_ptr = convert_to_number(pointer_bits.as_slice());
    Ok((crc, orig_ptr))
}

/// Reads the number of tables and the selectors of a block.
pub fn read_selectors<R: BitReader>(reader: &mut R) -> (r: Result<(usize, Vec<u8>), DecodeError>)
    requires
        old(reader).inv(),
    ensures
        final(reader).inv(),
        match parse_selectors(old(reader).remaining()) {
            Ok(((num_trees, selectors), position)) => r is Ok && r.unwrap().0 == num_trees
                && r.unwrap().1@ == selectors && final(reader).remaining() == old(reader).remaining().skip(position) && 0 <= position <= old(reader).remaining().len(),
            Err(e) => r == Err::<(usize, Vec<u8>), DecodeError>(e),
        },
        r is Ok ==> 2 <= r.unwrap().0 <= 6 && r.unwrap().1@.len() >= 1 && forall|g: int|
            0 <= g < r.unwrap().1@.len() ==> (#[trigger] r.unwrap().1@[g] as int) < r.unwrap().0,
{
    let ghost bits = reader.remaining();
    proof {
        lemma2_to64();
    }
    let tree_bits = match reader.read_bits(3) {
        Ok(tree_bits) => tree_bits,
        Err(_) => {
            return Err(DecodeError::Io);
        },
    };
    proof {
        lemma_bits_to_nat_bound(tree_bits@);
    }
    let num_trees = convert_to_number(tree_bits.as_slice());
    if num_trees < 2 || num_trees > 6 {
        return Err(DecodeError::Format);
    }
    let count_bits = match reader.read_bits(15) {
        Ok(count_bits) => count_bits,
        Err(_) => {
            return Err(DecodeError::Io);
        },
    };
    proof {
        lemma_bits_to_nat_bound(count_bits@);
        assert(count_bits@ =~= bits.subrange(3, 18));
        assert(reader.remaining() =~= bits.skip(18));
    }
    let num_selectors = convert_to_number(count_bits.as_slice());
    if num_selectors == 0 {
        return Err(DecodeError::Format);
    }
    let positions = match read_unary(reader, num_selectors) {
        Ok(positions) => positions,
        Err(e) => {
            return Err(e);
        },
    };
    if !check_codes_in_range(positions.as_slice(), num_trees) {
        return Err(DecodeError::Format);
    }
    let mut dictionary: Vec<u8> = Vec::new();
    let mut t: usize = 0;
    while t < num_trees
        invariant
            t <= num_trees <= 6,
            dictionary@ == selector_dict(t as nat),
        decreases num_trees - t,
    {
        dictionary.push(t as u8);
        t = t + 1;
        proof {
            assert(dictionary@ =~= selector_dict(t as nat));
        }
    }
    let selectors = inverse_mtf(positions.as_slice(), dictionary.as_slice());
    proof {
        let p = parse_unary(bits.skip(18), 0, 0, num_selectors as nat).unwrap().1;
        assert(bits.skip(18).skip(p) =~= bits.skip(18 + p));
        lemma_unary_count(bits.skip(18), 0, 0, num_selectors as nat);
        crate::block::mtf::lemma_inverse_mtf_range(positions@, dictionary@, num_trees as int);
    }
    Ok((num_trees, selectors))
}

/// As many numbers are read as were asked for.
pub proof fn lemma_unary_count(bits: Seq<Bit>, position: int, current: int, amount: nat)
    ensures
        parse_unary(bits, position, current, amount) is Ok ==> parse_unary(
            bits,
            position,
            current,
            amount,
        ).unwrap().0.len() == amount,
    decreases bits.len() - position,
{
    if amount > 0 && 0 <= position < bits.len() {
        if bits[position] == Bit::One {
            if current < 255 {
                lemma_unary_count(bits, position + 1, current + 1, amount);
            }
        } else {
            lemma_unary_count(bits, position + 1, 0, (amount - 1) as nat);
        }
    }
}

/// A result with more tables in front.
pub open spec fn prepend_trees(done: Seq<Seq<u8>>, position: int, rest: Result<(Seq<Seq<u8>>, int), DecodeError>) -> Result<
    (Seq<Seq<u8>>, int),
    DecodeError,
> {
    match rest {
        Ok((more, q)) => Ok((done + more, position + q)),
        Err(e) => Err(e),
    }
}

/// Reads the code lengths of `num_trees` tables over an alphabet of `total` symbols
/// and builds their canonical codes.
pub fn read_trees<R: BitReader>(reader: &mut R, num_trees: usize, total: usize) -> (r: Result<
    Vec<CanonicalCodeTable>,
    DecodeError,
>)
    requires
        old(reader).inv(),
        3 <= total <= 258,
    ensures
        final(reader).inv(),
        match parse_trees(old(reader).remaining(), num_trees as nat, total as nat) {
            Ok((lengths, position)) => r is Ok && views_of(r.unwrap()@) == tables_of(lengths) && final(reader).remaining() == old(reader).remaining().skip(position) && 0 <= position <= old(reader).remaining().len(),
            Err(e) => r == Err::<Vec<CanonicalCodeTable>, DecodeError>(e),
        },
        r is Ok ==> r.unwrap()@.len() == num_trees,
{
    let ghost bits = reader.remaining();
    let mut code_tables: Vec<CanonicalCodeTable> = Vec::new();
    let ghost mut done: Seq<Seq<u8>> = Seq::empty();
    let ghost mut position: int = 0;
    proof {
        assert(bits.skip(0) =~= bits);
    }
    while code_tables.len() < num_trees
        invariant
            reader.inv(),
            3 <= total <= 258,
            bits == old(reader).remaining(),
            0 <= position <= bits.len(),
            reader.remaining() == bits.skip(position),
            code_tables@.len() <= num_trees,
            done.len() == code_tables@.len(),
            views_of(code_tables@) == tables_of(done),
            parse_trees(bits, num_trees as nat, total as nat) == prepend_trees(
                done,
                position,
                parse_trees(bits.skip(position), (num_trees - code_tables@.len()) as nat, total as nat),
            ),
        decreases num_trees - code_tables@.len(),
    {
        let tree = match read_delta(reader, total) {
            Ok(tree) => tree,
            Err(e) => {
                return Err(e);
            },
        };
        let code = CodeTable::from_weights(tree.as_slice());
        proof {
            assert(code.bounded());
        }
        let canonical = code.canonicalize();
        let ghost p = parse_delta(bits.skip(position), total as nat).unwrap().1;
        let ghost before = done;
        let ghost tables_before = code_tables@;
        code_tables.push(canonical);
        proof {
            done = done.push(tree@);
            assert(bits.skip(position).skip(p) =~= bits.skip(position + p));
            let rest = parse_trees(
                bits.skip(position + p),
                (num_trees - code_tables@.len()) as nat,
                total as nat,
            );
            match rest {
                Ok((more, q)) => {
                    assert(before + (seq![tree@] + more) =~= done + more);
                },
                Err(_) => {},
            }
            assert(views_of(code_tables@) =~= tables_of(done)) by {
                assert forall|t: int| 0 <= t < code_tables@.len() implies views_of(code_tables@)[t]
                    == tables_of(done)[t] by {
                    if t < tables_before.len() {
                        assert(code_tables@[t] == tables_before[t]);
                        assert(views_of(tables_before)[t] == tables_of(before)[t]);
                        assert(done[t] == before[t]);
                    }
                }
            }
            position = position + p;
        }
    }
    proof {
        assert(done + Seq::<Seq<u8>>::empty() =~= done);
    }
    Ok(code_tables)
}

/// A result with more symbols in front.
pub open spec fn prepend_payload(done: Seq<ZleSymbol>, position: int, rest: Result<(Seq<ZleSymbol>, int), DecodeError>) -> Result<
    (Seq<ZleSymbol>, int),
    DecodeError,
> {
    match rest {
        Ok((more, q)) => Ok((done + more, position + q)),
        Err(e) => Err(e),
    }
}

/// Reads the symbols of a block up to its end.
pub fn read_payload<R: BitReader>(reader: &mut R, code_tables: &Vec<CanonicalCodeTable>, selectors: &Vec<u8>) -> (r:
    Result<Vec<ZleSymbol>, DecodeError>)
    requires
        old(reader).inv(),
        forall|g: int| 0 <= g < selectors@.len() ==> (#[trigger] selectors@[g] as int) < code_tables@.len(),
    ensures
        final(reader).inv(),
        match parse_payload(old(reader).remaining(), views_of(code_tables@), selectors@, 0) {
            Ok((symbols, position)) => r is Ok && r.unwrap()@ == symbols && final(reader).remaining() == old(reader).remaining().skip(position)
                && 0 <= position <= old(reader).remaining().len(),
            Err(e) => r == Err::<Vec<ZleSymbol>, DecodeError>(e),
        },
{
    let ghost bits = reader.remaining();
    let mut zle_input: Vec<ZleSymbol> = Vec::new();
    let ghost mut position: int = 0;
    let mut group: usize = 0;
    proof {
        assert(bits.skip(0) =~= bits);
    }
    loop
        invariant
            reader.inv(),
            bits == old(reader).remaining(),
            forall|g: int| 0 <= g < selectors@.len() ==> (#[trigger] selectors@[g] as int) < code_tables@.len(),
            0 <= position <= bits.len(),
            reader.remaining() == bits.skip(position),
            group <= selectors@.len(),
            parse_payload(bits, views_of(code_tables@), selectors@, 0) == prepend_payload(
                zle_input@,
                position,
                parse_payload(bits.skip(position), views_of(code_tables@), selectors@, group as int),
            ),
        decreases selectors@.len() - group,
    {
        if group >= selectors.len() {
            return Err(DecodeError::Format);
        }
        let table = &code_tables[selectors[group] as usize];
        proof {
            assert(views_of(code_tables@)[selectors@[group as int] as int] == table@);
        }
        let (mut symbols, end) = match read_group(reader, table, 50) {
            Ok(read) => read,
            Err(e) => {
                return Err(e);
            },
        };
        let ghost p = parse_symbols(bits.skip(position), 0, table@, Seq::empty(), 50).unwrap().1;
        let ghost before = zle_input@;
        let ghost read = symbols@;
        zle_input.append(&mut symbols);
        proof {
            assert(bits.skip(position).skip(p) =~= bits.skip(position + p));
        }
        if end {
            return Ok(zle_input);
        }
        proof {
            let rest = parse_payload(
                bits.skip(position + p),
                views_of(code_tables@),
                selectors@,
                group + 1,
            );
            match rest {
                Ok((more, q)) => {
                    assert(before + (read + more) =~= zle_input@ + more);
                },
                Err(_) => {},
            }
            position = position + p;
        }
        group = group + 1;
    }
}

/// The data of a block: the text whose Burrows-Wheeler transform the block holds,
/// with the run-length encoding inverted. A checksum other than the one in the block
/// is an error.
pub open spec fn block_data(block: ParsedBlock) -> Result<Seq<u8>, DecodeError> {
    let data = inverse_rle_spec(inverse_bwt_spec(block.bwt_data, block.orig_ptr as int));
    if crc32_spec(data) == block.crc {
        Ok(data)
    } else {
        Err(DecodeError::Checksum)
    }
}

/// What the bits after the magic bytes of a block decode to: the data of the block
/// and the position after it, or the reason for which it cannot be decoded.
pub open spec fn decode_block_spec(bits: Seq<Bit>) -> Result<(Seq<u8>, int), DecodeError> {
    match parse_block(bits) {
        Err(e) => Err(e),
        Ok((block, position)) => match block_data(block) {
            Err(e) => Err(e),
            Ok(data) => Ok((data, position)),
        },
    }
}

/// Decodes a block whose magic bytes have been read: reads its parts, inverts the
/// zero-run encoding, the move-to-front transform, the Burrows-Wheeler transform and
/// the run-length encoding, and compares the checksum of the result with the one in
/// the block.
pub fn decode_block<R: BitReader>(reader: &mut R) -> (r: Result<Vec<u8>, DecodeError>)
    requires
        old(reader).inv(),
    ensures
        final(reader).inv(),
        match decode_block_spec(old(reader).remaining()) {
            Err(e) => r == Err::<Vec<u8>, DecodeError>(e),
            Ok((data, position)) => r is Ok && r.unwrap()@ == data && final(reader).remaining() == old(reader).remaining().skip(position)
                && 0 <= position <= old(reader).remaining().len(),
        },
{
    let ghost bits = reader.remaining();
    let (crc, orig_ptr) = match read_head(reader) {
        Ok(head) => head,
        Err(e) => {
            return Err(e);
        },
    };
    let symbols = match read_symbol_table(reader) {
        Ok(symbols) => symbols,
        Err(e) => {
            return Err(e);
        },
    };
    let ghost map_len = parse_symbol_table(bits.skip(57)).unwrap().1;
    proof {
        assert(bits.skip(57).skip(map_len) =~= bits.skip(57 + map_len));
        let regions = crate::block::symbol_map::ones_below(bits.skip(57).take(16), 16);
        lemma_ones_below(bits.skip(57).take(16), 16);
        lemma_symbols_below_len(
            regions,
            bits.skip(57).subrange(16, 16 + 16 * regions.len() as int),
            16 * regions.len() as int,
        );
    }
    if symbols.len() == 0 {
        return Err(DecodeError::Format);
    }
    let (num_trees, selectors) = match read_selectors(reader) {
        Ok(read) => read,
        Err(e) => {
            return Err(e);
        },
    };
    let ghost selectors_len = parse_selectors(bits.skip(57 + map_len)).unwrap().1;
    proof {
        assert(bits.skip(57 + map_len).skip(selectors_len) =~= bits.skip(57 + map_len + selectors_len));
    }
    let code_tables = match read_trees(reader, num_trees, symbols.len() + 2) {
        Ok(code_tables) => code_tables,
        Err(e) => {
            return Err(e);
        },
    };
    let ghost parsed_trees = parse_trees(bits.skip(57 + map_len + selectors_len), num_trees as nat, (symbols@.len() + 2) as nat).unwrap();
    let ghost trees_len = parsed_trees.1;
    proof {
        assert(bits.skip(57 + map_len + selectors_len).skip(trees_len) =~= bits.skip(57 + map_len + selectors_len + trees_len));
    }
    let zle_input = match read_payload(reader, &code_tables, &selectors) {
        Ok(zle_input) => zle_input,
        Err(e) => {
            return Err(e);
        },
    };
    let ghost payload_len = parse_payload(bits.skip(57 + map_len + selectors_len + trees_len), tables_of(parsed_trees.0), selectors@, 0).unwrap().1;
    proof {
        assert(bits.skip(57 + map_len + selectors_len + trees_len).skip(payload_len) =~= bits.skip(57 + map_len + selectors_len + trees_len + payload_len));
    }
    let mtf_input = match decode_zle_bounded(zle_input.as_slice(), MAX_BLOCK_SIZE) {
        Some(mtf_input) => mtf_input,
        None => {
            return Err(DecodeError::Format);
        },
    };
    if !check_codes_in_range(mtf_input.as_slice(), symbols.len()) {
        return Err(DecodeError::Format);
    }
    if orig_ptr >= mtf_input.len() {
        return Err(DecodeError::Format);
    }
    let bwt_input = inverse_mtf(mtf_input.as_slice(), symbols.as_slice());
    proof {
        let block = ParsedBlock { crc, orig_ptr: orig_ptr as nat, bwt_data: bwt_input@ };
        assert(parse_head(bits) == Ok::<((u32, nat), int), DecodeError>(((crc, orig_ptr as nat), 57)));
        assert(parse_symbol_table(bits.skip(57)) == Ok::<(Seq<u8>, int), DecodeError>((symbols@, map_len)));
        assert(parse_selectors(bits.skip(57 + map_len)) == Ok::<((nat, Seq<u8>), int), DecodeError>(
            ((num_trees as nat, selectors@), selectors_len),
        ));
        assert(symbols@.len() + 2 == (symbols@.len() + 2) as nat);
        assert(views_of(code_tables@) == tables_of(parsed_trees.0));
        assert(parse_payload(bits.skip(57 + map_len + selectors_len + trees_len), tables_of(parsed_trees.0), selectors@, 0)
            == Ok::<(Seq<ZleSymbol>, int), DecodeError>((zle_input@, payload_len)));
        assert(parse_data(zle_input@, symbols@, crc, orig_ptr as nat) == Ok::<ParsedBlock, DecodeError>(
            block,
        ));
        assert(parse_block(bits) == Ok::<(ParsedBlock, int), DecodeError>(
            (block, 57 + map_len + selectors_len + trees_len + payload_len),
        ));
    }
    let rle_input = inverse_bwt(bwt_input.as_slice(), orig_ptr);
    let decoded = inverse_rle(rle_input.as_slice());
    let computed_crc = crc32(decoded.as_slice());
    if computed_crc != crc {
        return Err(DecodeError::Checksum);
    }
    Ok(decoded)
}

} // verus!
