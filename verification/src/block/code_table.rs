use vstd::prelude::*;
use crate::bitwise::{Bit, bits_to_nat, bit_length, nat_to_bits, lemma_bits_to_nat_bound, lemma_bits_are_nat_to_bits};
use crate::bitwise::bitreader::BitReader;
use crate::bitwise::bitwriter::{convert_to_code_pad_to_n_bits, convert_to_number, max_nat};
use crate::block::delta::{encode_delta, DeltaEncoded, DeltaSymbol, deltas_of};
use crate::block::huffman::{CanonicalCodeTable, CodeView};
use crate::error::DecodeError;

verus! {

/// The bits of a step of a delta encoding.
pub open spec fn delta_symbol_bits(symbol: DeltaSymbol) -> Seq<Bit> {
    match symbol {
        DeltaSymbol::Decrease => seq![Bit::One, Bit::One],
        DeltaSymbol::Increase => seq![Bit::One, Bit::Zero],
        DeltaSymbol::Stop => seq![Bit::Zero],
    }
}

/// The bits of the steps of a delta encoding, in order.
pub open spec fn delta_bits(deltas: Seq<DeltaSymbol>) -> Seq<Bit>
    decreases deltas.len(),
{
    if deltas.len() == 0 {
        Seq::empty()
    } else {
        delta_bits(deltas.drop_last()) + delta_symbol_bits(deltas.last())
    }
}

/// The bits of a list of code lengths: the first length in five bits (in more where
/// it does not fit), then the steps from each length to the next.
pub open spec fn bit_lengths_bits(code_lengths: Seq<u8>) -> Seq<Bit> {
    if code_lengths.len() == 0 {
        Seq::empty()
    } else {
        nat_to_bits(code_lengths[0] as nat, max_nat(5, bit_length(code_lengths[0] as nat))) + delta_bits(
            deltas_of(code_lengths),
        )
    }
}

/// The code lengths of a canonical table, in its order.
pub open spec fn canonical_lengths(table: CodeView) -> Seq<u8> {
    Seq::new(table.len(), |k: int| table[k].0.len() as u8)
}

/// Writes the code lengths of a table.
pub fn encode_code_table(table: &CanonicalCodeTable) -> (out: Vec<Bit>)
    requires
        forall|k: int| 0 <= k < table.0@.len() ==> (#[trigger] table.0@[k]).code@.len() <= 255,
    ensures
        out@ == bit_lengths_bits(canonical_lengths(table@)),
{
    let mut code_lengths: Vec<u8> = Vec::new();
    let mut k: usize = 0;
    while k < table.0.len()
        invariant
            k <= table.0@.len(),
            forall|k: int| 0 <= k < table.0@.len() ==> (#[trigger] table.0@[k]).code@.len() <= 255,
            code_lengths@ == canonical_lengths(table@).take(k as int),
        decreases table.0@.len() - k,
    {
        code_lengths.push(table.0[k].code.len() as u8);
        k = k + 1;
        proof {
            assert(code_lengths@ =~= canonical_lengths(table@).take(k as int));
        }
    }
    proof {
        assert(canonical_lengths(table@).take(k as int) =~= canonical_lengths(table@));
    }
    encode_bit_lengths(code_lengths.as_slice())
}

/// Writes a list of code lengths: the first length, then the steps from each length
/// to the next, a step up as `10`, a step down as `11`, a stop as `0`.
pub fn encode_bit_lengths(code_lengths: &[u8]) -> (out: Vec<Bit>)
    ensures
        out@ == bit_lengths_bits(code_lengths@),
{
    let mut out: Vec<Bit> = Vec::new();
    let mut copy: Vec<u8> = Vec::new();
    copy.extend_from_slice(code_lengths);
    proof {
        assert(copy@ =~= code_lengths@);
    }
    let delta = encode_delta(copy);
    match delta {
        DeltaEncoded::Empty => {},
        DeltaEncoded::NonEmpty(enc) => {
            let mut start = convert_to_code_pad_to_n_bits(enc.start_value as usize, 5);
            proof {
                lemma_bits_are_nat_to_bits(start@);
            }
            out.append(&mut start);
            let ghost head = out@;
            let mut d: usize = 0;
            while d < enc.deltas.len()
                invariant
                    d <= enc.deltas@.len(),
                    out@ == head + delta_bits(enc.deltas@.take(d as int)),
                decreases enc.deltas@.len() - d,
            {
                proof {
                    assert(enc.deltas@.take(d + 1).drop_last() =~= enc.deltas@.take(d as int));
                }
                let ghost before = out@;
                match enc.deltas[d] {
                    DeltaSymbol::Decrease => {
                        out.push(Bit::One);
                        out.push(Bit::One);
                    },
                    DeltaSymbol::Increase => {
                        out.push(Bit::One);
                        out.push(Bit::Zero);
                    },
                    DeltaSymbol::Stop => {
                        out.push(Bit::Zero);
                    },
                }
                proof {
                    assert(out@ =~= before + delta_symbol_bits(enc.deltas@[d as int]));
                }
                d = d + 1;
            }
            proof {
                assert(enc.deltas@.take(d as int) =~= enc.deltas@);
            }
        },
    }
    out
}

/// The shortest and the longest code length that a stream may hold.
pub const MIN_LENGTH: usize = 1;

pub const MAX_LENGTH: usize = 17;

/// What reading `amount` code lengths from `bits` gives, starting at `position` with
/// the length `current`: the lengths and the position after them, or the reason for
/// which they cannot be read. Before every step the current length must lie between
/// 1 and 17; a `0` writes it down, `10` raises it, `11` lowers it.
pub open spec fn parse_lengths(bits: Seq<Bit>, position: int, current: int, amount: nat) -> Result<
    (Seq<u8>, int),
    DecodeError,
>
    decreases bits.len() - position, amount,
{
    if amount == 0 {
        Ok((Seq::empty(), position))
    } else if current < MIN_LENGTH || current > MAX_LENGTH {
        Err(DecodeError::Format)
    } else if position < 0 || position >= bits.len() {
        Err(DecodeError::Io)
    } else if bits[position] == Bit::Zero {
        prepend_length(current as u8, parse_lengths(bits, position + 1, current, (amount - 1) as nat))
    } else if position + 1 >= bits.len() {
        Err(DecodeError::Io)
    } else if bits[position + 1] == Bit::Zero {
        parse_lengths(bits, position + 2, current + 1, amount)
    } else {
        parse_lengths(bits, position + 2, current - 1, amount)
    }
}

/// A result with one more length in front.
pub open spec fn prepend_length(length: u8, rest: Result<(Seq<u8>, int), DecodeError>) -> Result<
    (Seq<u8>, int),
    DecodeError,
> {
    match rest {
        Ok((lengths, position)) => Ok((seq![length] + lengths, position)),
        Err(e) => Err(e),
    }
}

/// A result with more lengths in front.
pub open spec fn prepend_lengths(lengths: Seq<u8>, rest: Result<(Seq<u8>, int), DecodeError>) -> Result<
    (Seq<u8>, int),
    DecodeError,
> {
    match rest {
        Ok((more, position)) => Ok((lengths + more, position)),
        Err(e) => Err(e),
    }
}

/// What reading a list of `amount` code lengths from `bits` gives: the first length
/// from five bits, the others by steps.
pub open spec fn parse_delta(bits: Seq<Bit>, amount: nat) -> Result<(Seq<u8>, int), DecodeError> {
    if bits.len() < 5 {
        Err(DecodeError::Io)
    } else {
        parse_lengths(bits, 5, bits_to_nat(bits.take(5)) as int, amount)
    }
}

/// Reads one bit.
pub fn read_bit<R: BitReader>(reader: &mut R) -> (r: Result<Bit, DecodeError>)
    requires
        old(reader).inv(),
    ensures
        final(reader).inv(),
        r is Ok <==> old(reader).remaining().len() >= 1,
        r is Ok ==> r.unwrap() == old(reader).remaining()[0] && final(reader).remaining() == old(
            reader,
        ).remaining().skip(1),
        r is Err ==> r == Err::<Bit, DecodeError>(DecodeError::Io),
{
    match reader.read_bits(1) {
        Ok(bits) => Ok(bits[0]),
        Err(_) => Err(DecodeError::Io),
    }
}

/// Reads a list of `amount` code lengths.
pub fn read_delta<R: BitReader>(reader: &mut R, amount: usize) -> (r: Result<Vec<u8>, DecodeError>)
    requires
        old(reader).inv(),
    ensures
        final(reader).inv(),
        match parse_delta(old(reader).remaining(), amount as nat) {
            Ok((lengths, position)) => r is Ok && r.unwrap()@ == lengths && final(reader).remaining() == old(
                reader,
            ).remaining().skip(position) && 0 <= position <= old(reader).remaining().len(),
            Err(e) => r == Err::<Vec<u8>, DecodeError>(e),
        },
        r is Ok ==> r.unwrap()@.len() == amount && forall|k: int|
            0 <= k < amount ==> MIN_LENGTH <= #[trigger] r.unwrap()@[k] <= MAX_LENGTH,
{
    let ghost bits = reader.remaining();
    let first = match reader.read_bits(5) {
        Ok(first) => first,
        Err(_) => {
            return Err(DecodeError::Io);
        },
    };
    proof {
        lemma_bits_to_nat_bound(first@);
        vstd::arithmetic::power2::lemma2_to64();
    }
    let mut start: usize = convert_to_number(first.as_slice());
    let mut out: Vec<u8> = Vec::new();
    let ghost mut position: int = 5;
    while out.len() < amount
        invariant
            reader.inv(),
            bits == old(reader).remaining(),
            5 <= position <= bits.len(),
            reader.remaining() == bits.skip(position),
            out@.len() <= amount,
            start <= 32,
            forall|k: int| 0 <= k < out@.len() ==> MIN_LENGTH <= #[trigger] out@[k] <= MAX_LENGTH,
            parse_delta(bits, amount as nat) == prepend_lengths(
                out@,
                parse_lengths(bits, position, start as int, (amount - out@.len()) as nat),
            ),
        decreases bits.len() - position, amount - out@.len(),
    {
        let ghost left = (amount - out@.len()) as nat;
        let ghost here = parse_lengths(bits, position, start as int, left);
        if start < MIN_LENGTH || start > MAX_LENGTH {
            assert(here == Err::<(Seq<u8>, int), DecodeError>(DecodeError::Format));
            return Err(DecodeError::Format);
        }
        proof {
            assert(bits.skip(position).len() == bits.len() - position);
        }
        let bit = match read_bit(reader) {
            Ok(bit) => bit,
            Err(e) => {
                return Err(e);
            },
        };
        proof {
            assert(bits.skip(position)[0] == bits[position]);
            assert(bits.skip(position).skip(1) =~= bits.skip(position + 1));
        }
        match bit {
            Bit::One => {
                let second = match read_bit(reader) {
                    Ok(bit) => bit,
                    Err(e) => {
                        return Err(e);
                    },
                };
                proof {
                    assert(bits.skip(position + 1)[0] == bits[position + 1]);
                    assert(bits.skip(position + 1).skip(1) =~= bits.skip(position + 2));
                    position = position + 2;
                }
                match second {
                    Bit::Zero => {
                        start = start + 1;
                    },
                    Bit::One => {
                        start = start - 1;
                    },
                }
            },
            Bit::Zero => {
                let ghost before = out@;
                let ghost rest = parse_lengths(
                    bits,
                    position + 1,
                    start as int,
                    (amount - before.len() - 1) as nat,
                );
                out.push(start as u8);
                proof {
                    position = position + 1;
                    match rest {
                        Ok((more, end)) => {
                            assert(before + (seq![start as u8] + more) =~= out@ + more);
                        },
                        Err(_) => {},
                    }
                }
            },
        }
    }
    proof {
        assert(out@ + Seq::<u8>::empty() =~= out@);
    }
    Ok(out)
}

} // verus!
