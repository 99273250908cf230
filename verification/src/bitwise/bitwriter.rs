use vstd::prelude::*;
use vstd::arithmetic::power2::*;
use vstd::arithmetic::div_mod::*;
use crate::bitwise::{Bit, bit_value, bits_to_nat, bit_length, byte_bits, bytes_to_bits, zero_bits, lemma_bits_to_nat_prefix, lemma_bit_length_bound, lemma_bits_to_nat_bound, lemma_bits_are_nat_to_bits, lemma_bytes_to_bits_concat};

verus! {

/// Reads a bit string as a number, most significant bit first.
pub fn convert_to_number(input: &[Bit]) -> (number: usize)
    requires
        bits_to_nat(input@) <= usize::MAX,
    ensures
        number == bits_to_nat(input@),
{
    let mut ct: usize = 0;
    let mut i: usize = 0;
    while i < input.len()
        invariant
            i <= input.len(),
            ct == bits_to_nat(input@.take(i as int)),
            bits_to_nat(input@) <= usize::MAX,
        decreases input.len() - i,
    {
        proof {
            lemma_bits_to_nat_prefix(input@, i + 1);
            assert(input@.take(i + 1).drop_last() =~= input@.take(i as int));
        }
        ct = ct * 2;
        match input[i] {
            Bit::Zero => {},
            Bit::One => {
                ct = ct + 1;
            },
        }
        i = i + 1;
    }
    proof {
        assert(input@.take(i as int) =~= input@);
    }
    ct
}

/// The larger of two numbers.
pub open spec fn max_nat(a: nat, b: nat) -> nat {
    if a >= b {
        a
    } else {
        b
    }
}

/// Counts the binary digits of a number.
fn count_digits(input: usize) -> (digits: usize)
    ensures
        digits == bit_length(input as nat),
        digits <= 64,
{
    let mut cur: usize = input;
    let mut digits: usize = 0;
    proof {
        lemma2_to64_rest();
        lemma_bit_length_bound(input as nat, 64);
    }
    while cur > 0
        invariant
            digits + bit_length(cur as nat) == bit_length(input as nat),
            bit_length(input as nat) <= 64,
        decreases cur,
    {
        cur = cur / 2;
        digits = digits + 1;
    }
    digits
}

/// Writes a number in binary, most significant bit first, with leading zeros up to
/// `n` digits. A number that needs more than `n` digits is written in full.
pub fn convert_to_code_pad_to_n_bits(input: usize, n: usize) -> (output: Vec<Bit>)
    ensures
        output@.len() == max_nat(n as nat, bit_length(input as nat)),
        bits_to_nat(output@) == input,
{
    let digits = count_digits(input);
    let width: usize = if n > digits { n } else { digits };
    let mut output: Vec<Bit> = Vec::new();
    let mut k: usize = 0;
    proof {
        lemma2_to64_rest();
        lemma_bit_length_bound(input as nat, width as nat);
        lemma_bit_length_bound(input as nat, 64);
        lemma_small_div_converse(input as int, pow2(width as nat) as int);
        lemma_pow2_pos(width as nat);
        lemma_basic_div(input as int, pow2(width as nat) as int);
    }
    while k < width
        invariant
            k <= width,
            output@.len() == k,
            bits_to_nat(output@) == input as nat / pow2((width - k) as nat),
            input < pow2(64),
        decreases width - k,
    {
        let shift: usize = width - k - 1;
        let bit = if shift >= 64 {
            proof {
                if shift > 64 {
                    lemma_pow2_strictly_increases(64, shift as nat);
                }
                lemma_basic_div(input as int, pow2(shift as nat) as int);
            }
            Bit::Zero
        } else {
            let shifted: u64 = (input as u64) >> (shift as u64);
            proof {
                vstd::bits::lemma_u64_shr_is_div(input as u64, shift as u64);
                assert(shifted & 1 == shifted % 2) by (bit_vector);
            }
            if shifted & 1 == 1 {
                Bit::One
            } else {
                Bit::Zero
            }
        };
        proof {
            let y = input as nat / pow2(shift as nat);
            assert(bit_value(bit) == y % 2);
            lemma_pow2_unfold((shift + 1) as nat);
            lemma_pow2_pos(shift as nat);
            lemma_div_denominator(input as int, pow2(shift as nat) as int, 2);
            assert(y / 2 == input as nat / pow2((shift + 1) as nat));
            assert(output@.push(bit).drop_last() =~= output@);
        }
        output.push(bit);
        k = k + 1;
    }
    proof {
        lemma2_to64();
        assert((width - k) as nat == 0);
        assert(pow2(0) == 1);
        assert(input as nat / 1 == input as nat);
        assert(bits_to_nat(output@) == input as nat / pow2(0));
    }
    output
}

/// Writes a byte as eight bits, most significant bit first.
pub fn convert_to_code_pad_to_byte(input: u8) -> (output: Vec<Bit>)
    ensures
        output@ == byte_bits(input),
        output@.len() == 8,
        bits_to_nat(output@) == input,
{
    proof {
        lemma2_to64();
        lemma_bit_length_bound(input as nat, 8);
    }
    let output = convert_to_code_pad_to_n_bits(input as usize, 8);
    proof {
        lemma_bits_are_nat_to_bits(output@);
    }
    output
}

/// Writes every byte of the input as eight bits, in order.
pub fn convert_to_code_pad_to_bytes(input: &[u8]) -> (output: Vec<Bit>)
    ensures
        output@ == bytes_to_bits(input@),
        output@.len() == 8 * input@.len(),
{
    let mut output: Vec<Bit> = Vec::new();
    let mut i: usize = 0;
    while i < input.len()
        invariant
            i <= input.len(),
            output@ == bytes_to_bits(input@.take(i as int)),
        decreases input.len() - i,
    {
        let mut byte = convert_to_code_pad_to_byte(input[i]);
        proof {
            assert(input@.take(i + 1).drop_last() =~= input@.take(i as int));
        }
        output.append(&mut byte);
        i = i + 1;
    }
    proof {
        assert(input@.take(i as int) =~= input@);
        crate::bitwise::lemma_bytes_to_bits_len(input@);
    }
    output
}

/// Writes a number below 2^15 as fifteen bits, most significant bit first.
pub fn convert_to_code_pad_to_15_bits(input: u16) -> (output: Vec<Bit>)
    requires
        input < 0x8000,
    ensures
        output@.len() == 15,
        bits_to_nat(output@) == input,
{
    proof {
        lemma2_to64();
        lemma_bit_length_bound(input as nat, 15);
    }
    convert_to_code_pad_to_n_bits(input as usize, 15)
}

/// The successor of the number a bit string denotes, written with as many digits
/// as the input has, or one more where the carry needs it.
pub fn increment_symbol(input: Vec<Bit>) -> (output: Vec<Bit>)
    requires
        bits_to_nat(input@) < usize::MAX,
    ensures
        bits_to_nat(output@) == bits_to_nat(input@) + 1,
        output@.len() == max_nat(input@.len(), bit_length(bits_to_nat(input@) + 1)),
{
    let len = input.len();
    convert_to_code_pad_to_n_bits(convert_to_number(input.as_slice()) + 1, len)
}

/// A sink for bits.
pub trait BitWriter {
    /// Every bit the sink has taken so far, in order.
    spec fn stream(&self) -> Seq<Bit>;

    /// What the sink needs to hold between calls.
    spec fn inv(&self) -> bool;

    /// Appends bits to the sink.
    fn write_bits(&mut self, bits_to_write: &[Bit]) -> (r: Result<(), ()>)
        requires
            old(self).inv(),
        ensures
            final(self).inv(),
            r is Ok ==> final(self).stream() == old(self).stream() + bits_to_write@,
    ;

    /// Fills the last byte with zero bits, so that the stream ends on a byte boundary.
    fn finalize(&mut self) -> (r: Result<(), ()>)
        requires
            old(self).inv(),
        ensures
            final(self).inv(),
            r is Ok ==> final(self).stream() == old(self).stream() + padding(old(self).stream().len()),
    ;
}

/// The zero bits that bring a stream of `len` bits to the next byte boundary.
pub open spec fn padding(len: nat) -> Seq<Bit> {
    zero_bits(((8 - len % 8) % 8) as nat)
}

/// A bit sink that packs the bits into bytes, most significant bit first.
pub struct BitWriterImpl {
    pending_bits: Vec<Bit>,
    byte_writer: Vec<u8>,
}

impl BitWriterImpl {
    /// The bytes completed so far.
    pub closed spec fn bytes(&self) -> Seq<u8> {
        self.byte_writer@
    }

    /// The bits that do not fill a byte yet.
    pub closed spec fn pending(&self) -> Seq<Bit> {
        self.pending_bits@
    }

    /// The stream of a sink is its bytes followed by its pending bits, of which there
    /// are fewer than eight.
    pub proof fn lemma_stream(&self)
        requires
            self.inv(),
        ensures
            self.stream() == bytes_to_bits(self.bytes()) + self.pending(),
            self.pending().len() < 8,
            self.pending().len() == self.stream().len() % 8,
    {
        crate::bitwise::lemma_bytes_to_bits_len(self.byte_writer@);
    }

    /// Starts a sink that appends to the given bytes.
    pub fn from_writer(byte_writer: Vec<u8>) -> (writer: Self)
        ensures
            writer.inv(),
            writer.bytes() == byte_writer@,
            writer.pending() == Seq::<Bit>::empty(),
    {
        BitWriterImpl { pending_bits: Vec::new(), byte_writer }
    }

    /// Hands back the completed bytes; pending bits are dropped.
    pub fn into_writer(self) -> (bytes: Vec<u8>)
        ensures
            bytes@ == self.bytes(),
    {
        self.byte_writer
    }

    /// The number of completed bytes.
    pub fn content(&self) -> (n: usize)
        ensures
            n == self.bytes().len(),
    {
        self.byte_writer.len()
    }

    fn push_bit(&mut self, bit: Bit)
        requires
            old(self).inv(),
        ensures
            final(self).inv(),
            final(self).stream() == old(self).stream().push(bit),
            final(self).pending_bits@.len() == (if old(self).pending_bits@.len() == 7 { 0 } else { old(self).pending_bits@.len() + 1 }),
    {
        self.pending_bits.push(bit);
        if self.pending_bits.len() == 8 {
            proof {
                lemma_bits_to_nat_bound(self.pending_bits@);
                lemma2_to64();
                lemma_bits_are_nat_to_bits(self.pending_bits@);
            }
            let number = convert_to_number(self.pending_bits.as_slice());
            let ghost before = self.byte_writer@;
            self.byte_writer.push(number as u8);
            proof {
                assert(self.byte_writer@.drop_last() =~= before);
                assert(old(self).stream().push(bit) =~= bytes_to_bits(before) + self.pending_bits@);
            }
            self.pending_bits = Vec::new();
            proof {
                assert(self.stream() =~= bytes_to_bits(self.byte_writer@));
            }
        } else {
            proof {
                assert(self.stream() =~= old(self).stream().push(bit));
            }
        }
    }
}

impl BitWriter for BitWriterImpl {
    closed spec fn stream(&self) -> Seq<Bit> {
        bytes_to_bits(self.byte_writer@) + self.pending_bits@
    }

    closed spec fn inv(&self) -> bool {
        self.pending_bits@.len() < 8
    }

    fn write_bits(&mut self, bits_to_write: &[Bit]) -> (r: Result<(), ()>)
        ensures
            r is Ok,
    {
        let mut i: usize = 0;
        while i < bits_to_write.len()
            invariant
                i <= bits_to_write.len(),
                self.inv(),
                self.stream() == old(self).stream() + bits_to_write@.take(i as int),
            decreases bits_to_write.len() - i,
        {
            proof {
                assert((old(self).stream() + bits_to_write@.take(i as int)).push(bits_to_write@[i as int])
                    =~= old(self).stream() + bits_to_write@.take(i + 1));
            }
            self.push_bit(bits_to_write[i]);
            i = i + 1;
        }
        proof {
            assert(bits_to_write@.take(i as int) =~= bits_to_write@);
        }
        Ok(())
    }

    fn finalize(&mut self) -> (r: Result<(), ()>)
        ensures
            r is Ok,
            final(self).pending() == Seq::<Bit>::empty(),
    {
        proof {
            lemma_bytes_to_bits_concat(self.byte_writer@, Seq::empty());
        }
        let len = self.pending_bits.len();
        if len == 0 {
            proof {
                assert(self.stream() =~= old(self).stream() + padding(old(self).stream().len()));
            }
            return Ok(());
        }
        let missing: usize = 8 - len;
        let mut k: usize = 0;
        while k < missing
            invariant
                k <= missing,
                missing == 8 - len,
                0 < len < 8,
                self.inv(),
                self.pending_bits@.len() == (if k == missing { 0 } else { len + k }),
                self.stream() == old(self).stream() + zero_bits(k as nat),
            decreases missing - k,
        {
            self.push_bit(Bit::Zero);
            k = k + 1;
            proof {
                assert(self.stream() =~= old(self).stream() + zero_bits(k as nat));
            }
        }
        Ok(())
    }
}

} // verus!
