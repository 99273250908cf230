use vstd::prelude::*;
use crate::bitwise::Bit;
use crate::bitwise::bitreader::BitReader;
use crate::block::code_table::read_bit;
use crate::block::huffman::{CanonicalCodeTable, HuffmanSymbol, CodeView};
use crate::block::zle::ZleSymbol;
use crate::error::DecodeError;

verus! {

/// The symbol of the first entry from `from` on whose code is `code`.
pub open spec fn first_match(table: CodeView, code: Seq<Bit>, from: int) -> Option<HuffmanSymbol>
    decreases table.len() - from,
{
    if from < 0 || from >= table.len() {
        None
    } else if table[from].0 == code {
        Some(table[from].1)
    } else {
        first_match(table, code, from + 1)
    }
}

/// The length of the longest code among the first `k` entries.
pub open spec fn longest_code(table: CodeView, k: int) -> nat
    decreases k,
{
    if k <= 0 {
        0
    } else {
        let rest = longest_code(table, k - 1);
        if table[k - 1].0.len() > rest {
            table[k - 1].0.len()
        } else {
            rest
        }
    }
}

/// What a group of symbols is read as: the symbols, and whether the end of the block
/// was met.
pub type Group = (Seq<ZleSymbol>, bool);

/// A result with one more symbol in front.
pub open spec fn prepend_symbol(symbol: ZleSymbol, rest: Result<(Group, int), DecodeError>) -> Result<
    (Group, int),
    DecodeError,
> {
    match rest {
        Ok(((symbols, end), position)) => Ok(((seq![symbol] + symbols, end), position)),
        Err(e) => Err(e),
    }
}

/// A result with more symbols in front.
pub open spec fn prepend_symbols(symbols: Seq<ZleSymbol>, rest: Result<(Group, int), DecodeError>) -> Result<
    (Group, int),
    DecodeError,
> {
    match rest {
        Ok(((more, end), position)) => Ok(((symbols + more, end), position)),
        Err(e) => Err(e),
    }
}

/// What reading up to `amount` symbols from `bits` gives, starting at `position`
/// with the bits `current` of an unfinished code: the symbols, whether the end of the
/// block was met, and the position after them; or the reason for which they cannot
/// be read. Bits are taken one by one until they are the code of an entry; bits
/// that are no code and as many as the longest code are an error.
pub open spec fn parse_symbols(
    bits: Seq<Bit>,
    position: int,
    table: CodeView,
    current: Seq<Bit>,
    amount: nat,
) -> Result<(Group, int), DecodeError>
    decreases bits.len() - position,
{
    if amount == 0 {
        Ok(((Seq::empty(), false), position))
    } else if position < 0 || position >= bits.len() {
        Err(DecodeError::Io)
    } else {
        let code = current.push(bits[position]);
        match first_match(table, code, 0) {
            Some(HuffmanSymbol::NormalSymbol(symbol)) => prepend_symbol(
                symbol,
                parse_symbols(bits, position + 1, table, Seq::empty(), (amount - 1) as nat),
            ),
            Some(HuffmanSymbol::EoB) => Ok(((Seq::empty(), true), position + 1)),
            None => if code.len() >= longest_code(table, table.len() as int) {
                Err(DecodeError::Format)
            } else {
                parse_symbols(bits, position + 1, table, code, amount)
            },
        }
    }
}

/// Compares two bit strings.
pub fn bits_equal(left: &[Bit], right: &Vec<Bit>) -> (equal: bool)
    ensures
        equal == (left@ == right@),
{
    if left.len() != right.len() {
        return false;
    }
    let mut i: usize = 0;
    while i < left.len()
        invariant
            i <= left@.len(),
            left@.len() == right@.len(),
            forall|k: int| 0 <= k < i ==> left@[k] == right@[k],
        decreases left@.len() - i,
    {
        if left[i] != right[i] {
            return false;
        }
        i = i + 1;
    }
    proof {
        assert(left@ =~= right@);
    }
    true
}

/// Finds the symbol whose code the bits are.
pub fn read_from_table(table: &CanonicalCodeTable, symbols: &[Bit]) -> (symbol: Option<HuffmanSymbol>)
    ensures
        symbol == first_match(table@, symbols@, 0),
{
    let mut k: usize = 0;
    while k < table.0.len()
        invariant
            k <= table.0@.len(),
            first_match(table@, symbols@, 0) == first_match(table@, symbols@, k as int),
        decreases table.0@.len() - k,
    {
        if bits_equal(symbols, &table.0[k].code) {
            return Some(table.0[k].symbol);
        }
        k = k + 1;
    }
    None
}

/// Finds the length of the longest code of a table.
pub fn longest_code_length(table: &CanonicalCodeTable) -> (longest: usize)
    ensures
        longest == longest_code(table@, table@.len() as int),
{
    let mut longest: usize = 0;
    let mut k: usize = 0;
    while k < table.0.len()
        invariant
            k <= table.0@.len(),
            longest == longest_code(table@, k as int),
        decreases table.0@.len() - k,
    {
        if table.0[k].code.len() > longest {
            longest = table.0[k].code.len();
        }
        k = k + 1;
    }
    longest
}

/// Reads symbols until `max_number` are read or the end of the block is met, and
/// says which.
pub fn read_group<R: BitReader>(reader: &mut R, table: &CanonicalCodeTable, max_number: usize) -> (r:
    Result<(Vec<ZleSymbol>, bool), DecodeError>)
    requires
        old(reader).inv(),
    ensures
        final(reader).inv(),
        match parse_symbols(old(reader).remaining(), 0, table@, Seq::empty(), max_number as nat) {
            Ok(((symbols, end), position)) => r is Ok && r.unwrap().0@ == symbols && r.unwrap().1 == end
                && final(reader).remaining() == old(reader).remaining().skip(position) && 0 <= position
                <= old(reader).remaining().len() && symbols.len() <= max_number,
            Err(e) => r == Err::<(Vec<ZleSymbol>, bool), DecodeError>(e),
        },
{
    let ghost bits = reader.remaining();
    let longest = longest_code_length(table);
    let mut all_symbols: Vec<ZleSymbol> = Vec::new();
    let mut current_symbol: Vec<Bit> = Vec::new();
    let ghost mut position: int = 0;
    proof {
        assert(bits.skip(0) =~= bits);
    }
    while all_symbols.len() < max_number
        invariant
            reader.inv(),
            bits == old(reader).remaining(),
            0 <= position <= bits.len(),
            reader.remaining() == bits.skip(position),
            all_symbols@.len() <= max_number,
            longest == longest_code(table@, table@.len() as int),
            parse_symbols(bits, 0, table@, Seq::empty(), max_number as nat) == prepend_symbols(
                all_symbols@,
                parse_symbols(
                    bits,
                    position,
                    table@,
                    current_symbol@,
                    (max_number - all_symbols@.len()) as nat,
                ),
            ),
        decreases bits.len() - position,
    {
        proof {
            assert(bits.skip(position).len() == bits.len() - position);
        }
        let bit = match read_bit(reader) {
            Ok(bit) => bit,
            Err(e) => {
                return Err(e);
            },
        };
        proof {
            assert(bits.skip(position)[0] == bits[position]);
            assert(bits.skip(position).skip(1) =~= bits.skip(position + 1));
        }
        current_symbol.push(bit);
        match read_from_table(table, current_symbol.as_slice()) {
            Some(HuffmanSymbol::NormalSymbol(symbol)) => {
                let ghost before = all_symbols@;
                let ghost rest = parse_symbols(
                    bits,
                    position + 1,
                    table@,
                    Seq::empty(),
                    (max_number - before.len() - 1) as nat,
                );
                all_symbols.push(symbol);
                current_symbol = Vec::new();
                proof {
                    match rest {
                        Ok(((more, end), tail)) => {
                            assert(before + (seq![symbol] + more) =~= all_symbols@ + more);
                        },
                        Err(_) => {},
                    }
                }
            },
            Some(HuffmanSymbol::EoB) => {
                proof {
                    assert(all_symbols@ + Seq::<ZleSymbol>::empty() =~= all_symbols@);
                }
                return Ok((all_symbols, true));
            },
            None => {
                if current_symbol.len() >= longest {
                    return Err(DecodeError::Format);
                }
            },
        }
        proof {
            position = position + 1;
        }
    }
    proof {
        assert(all_symbols@ + Seq::<ZleSymbol>::empty() =~= all_symbols@);
    }
    Ok((all_symbols, false))
}

/// Reads symbols until `max_number` are read or the end of the block is met.
pub fn read_symbols<R: BitReader>(reader: &mut R, table: &CanonicalCodeTable, max_number: usize) -> (r:
    Result<Vec<ZleSymbol>, DecodeError>)
    requires
        old(reader).inv(),
    ensures
        final(reader).inv(),
        match parse_symbols(old(reader).remaining(), 0, table@, Seq::empty(), max_number as nat) {
            Ok(((symbols, end), position)) => r is Ok && r.unwrap()@ == symbols
                && final(reader).remaining() == old(reader).remaining().skip(position),
            Err(e) => r == Err::<Vec<ZleSymbol>, DecodeError>(e),
        },
{
    match read_group(reader, table, max_number) {
        Ok((symbols, _)) => Ok(symbols),
        Err(e) => Err(e),
    }
}

} // verus!
