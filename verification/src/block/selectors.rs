use vstd::prelude::*;
use std::collections::VecDeque;
use crate::bitwise::Bit;
use crate::bitwise::bitreader::BitReader;
use crate::block::code_table::{read_bit, prepend_length, prepend_lengths};
use crate::block::mtf::{mtf_state, find_pos, bring_to_front_of_dict, lemma_move_to_front};
use crate::error::DecodeError;

verus! {

/// The first dictionary of the selectors of a block with `size` tables: the numbers
/// of the tables, ascending.
pub open spec fn selector_dict(size: nat) -> Seq<u8> {
    Seq::new(size, |i: int| i as u8)
}

/// The number `value` in unary: as many ones, and a zero.
pub open spec fn unary(value: u8) -> Seq<Bit> {
    Seq::new(value as nat, |i: int| Bit::One).push(Bit::Zero)
}

/// The numbers in unary, one after the other.
pub open spec fn unary_bits(values: Seq<u8>) -> Seq<Bit>
    decreases values.len(),
{
    if values.len() == 0 {
        Seq::empty()
    } else {
        unary_bits(values.drop_last()) + unary(values.last())
    }
}

/// The bits of the selectors of a block with `num_tables` tables: their
/// move-to-front positions over the numbers of the tables, in unary.
pub open spec fn selector_bits(selectors: Seq<u8>, num_tables: nat) -> Seq<Bit> {
    unary_bits(mtf_state(selector_dict(num_tables), selectors).0)
}

/// Whether every selector names one of `num_tables` tables.
pub open spec fn selectors_in_range(selectors: Seq<u8>, num_tables: int) -> bool {
    forall|i: int| 0 <= i < selectors.len() ==> (#[trigger] selectors[i] as int) < num_tables
}

/// Writes the selectors of a block: every selector is replaced by its position in
/// the list of tables and moved to the front of that list, and the position is
/// written in unary. Returns the bits and the number of selectors.
pub fn create_selectors(selectors: &[u8], num_tables: usize) -> (result: (Vec<Bit>, usize))
    requires
        num_tables <= 256,
        selectors_in_range(selectors@, num_tables as int),
    ensures
        result.0@ == selector_bits(selectors@, num_tables as nat),
        result.1 == selectors@.len(),
{
    let mut out: Vec<Bit> = Vec::new();
    let mut dict: VecDeque<u8> = VecDeque::new();
    let mut t: usize = 0;
    while t < num_tables
        invariant
            t <= num_tables <= 256,
            dict@ == selector_dict(t as nat),
        decreases num_tables - t,
    {
        dict.push_back(t as u8);
        t = t + 1;
        proof {
            assert(dict@ =~= selector_dict(t as nat));
        }
    }
    let ghost mut positions: Seq<u8> = Seq::empty();
    let mut i: usize = 0;
    proof {
        assert forall|v: u8| #[trigger] dict@.contains(v) <==> (v as int) < num_tables by {
            if (v as int) < num_tables {
                assert(dict@[v as int] == v);
            }
        }
    }
    while i < selectors.len()
        invariant
            i <= selectors@.len(),
            num_tables <= 256,
            selectors_in_range(selectors@, num_tables as int),
            dict@.len() == num_tables,
            forall|v: u8| #[trigger] dict@.contains(v) <==> (v as int) < num_tables,
            (positions, dict@) == mtf_state(selector_dict(num_tables as nat), selectors@.take(i as int)),
            out@ == unary_bits(positions),
        decreases selectors@.len() - i,
    {
        let selector = selectors[i];
        proof {
            assert(selectors@.take(i + 1).drop_last() =~= selectors@.take(i as int));
        }
        let position = find_pos(selector, &dict);
        let ghost dict_before = dict@;
        bring_to_front_of_dict(position, &mut dict);
        proof {
            lemma_move_to_front(dict_before, position as int);
            assert forall|v: u8| #[trigger] dict@.contains(v) <==> (v as int) < num_tables by {
                assert(dict@.contains(v) <==> dict_before.contains(v));
            }
        }
        let ghost before = out@;
        let mut k: u8 = 0;
        while k < position
            invariant
                k <= position,
                out@ == before + Seq::new(k as nat, |i: int| Bit::One),
            decreases position - k,
        {
            out.push(Bit::One);
            k = k + 1;
            proof {
                assert(out@ =~= before + Seq::new(k as nat, |i: int| Bit::One));
            }
        }
        out.push(Bit::Zero);
        proof {
            assert(out@ =~= before + unary(position));
            assert(positions.push(position).drop_last() =~= positions);
            positions = positions.push(position);
        }
        i = i + 1;
    }
    proof {
        assert(selectors@.take(i as int) =~= selectors@);
    }
    (out, selectors.len())
}

/// What reading `amount` numbers in unary from `bits` gives, starting at `position`
/// with `current` ones counted: the numbers and the position after them, or the
/// reason for which they cannot be read. No number may exceed 255.
pub open spec fn parse_unary(bits: Seq<Bit>, position: int, current: int, amount: nat) -> Result<
    (Seq<u8>, int),
    DecodeError,
>
    decreases bits.len() - position,
{
    if amount == 0 {
        Ok((Seq::empty(), position))
    } else if position < 0 || position >= bits.len() {
        Err(DecodeError::Io)
    } else if bits[position] == Bit::One {
        if current >= 255 {
            Err(DecodeError::Format)
        } else {
            parse_unary(bits, position + 1, current + 1, amount)
        }
    } else {
        prepend_length(current as u8, parse_unary(bits, position + 1, 0, (amount - 1) as nat))
    }
}

/// Reads `amount` numbers written in unary.
pub fn read_unary<R: BitReader>(reader: &mut R, amount: usize) -> (r: Result<Vec<u8>, DecodeError>)
    requires
        old(reader).inv(),
    ensures
        final(reader).inv(),
        match parse_unary(old(reader).remaining(), 0, 0, amount as nat) {
            Ok((numbers, position)) => r is Ok && r.unwrap()@ == numbers && final(reader).remaining() == old(
                reader,
            ).remaining().skip(position) && 0 <= position <= old(reader).remaining().len(),
            Err(e) => r == Err::<Vec<u8>, DecodeError>(e),
        },
{
    let ghost bits = reader.remaining();
    let mut output: Vec<u8> = Vec::new();
    let mut current_symbol: u8 = 0;
    let ghost mut position: int = 0;
    proof {
        assert(bits.skip(0) =~= bits);
    }
    while output.len() < amount
        invariant
            reader.inv(),
            bits == old(reader).remaining(),
            0 <= position <= bits.len(),
            reader.remaining() == bits.skip(position),
            output@.len() <= amount,
            parse_unary(bits, 0, 0, amount as nat) == prepend_lengths(
                output@,
                parse_unary(bits, position, current_symbol as int, (amount - output@.len()) as nat),
            ),
        decreases bits.len() - position,
    {
        proof {
            assert(bits.skip(position).len() == bits.len() - position);
        }
        let bit = match read_bit(reader) {
            Ok(bit) => bit,
            Err(e) => {
                return Err(e);
            },
        };
        proof {
            assert(bits.skip(position)[0] == bits[position]);
            assert(bits.skip(position).skip(1) =~= bits.skip(position + 1));
        }
        match bit {
            Bit::One => {
                if current_symbol == 255 {
                    return Err(DecodeError::Format);
                }
                current_symbol = current_symbol + 1;
            },
            Bit::Zero => {
                let ghost before = output@;
                let ghost rest = parse_unary(bits, position + 1, 0, (amount - before.len() - 1) as nat);
                output.push(current_symbol);
                proof {
                    match rest {
                        Ok((more, end)) => {
                            assert(before + (seq![current_symbol] + more) =~= output@ + more);
                        },
                        Err(_) => {},
                    }
                }
                current_symbol = 0;
            },
        }
        proof {
            position = position + 1;
        }
    }
    proof {
        assert(output@ + Seq::<u8>::empty() =~= output@);
    }
    Ok(output)
}

} // verus!
