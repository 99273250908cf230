use vstd::prelude::*;
use vstd::arithmetic::power2::*;
use crate::bitwise::{Bit, byte_bits, bytes_to_bits, lemma_bits_to_nat_bound, lemma_bits_are_nat_to_bits, lemma_bytes_to_bits_concat, lemma_bytes_to_bits_len};
use crate::bitwise::bitwriter::{convert_to_number, convert_to_code_pad_to_byte};

verus! {

/// A source of bits.
pub trait BitReader {
    /// The bits that have not been read yet, in order.
    spec fn remaining(&self) -> Seq<Bit>;

    /// What the source needs to hold between calls.
    spec fn inv(&self) -> bool;

    /// Takes the next `num` bits. Fails exactly when fewer than `num` bits are left;
    /// nothing is promised about the source after a failure.
    fn read_bits(&mut self, num: usize) -> (r: Result<Vec<Bit>, ()>)
        requires
            old(self).inv(),
        ensures
            final(self).inv(),
            r is Ok <==> num <= old(self).remaining().len(),
            r is Ok ==> r.unwrap()@ == old(self).remaining().take(num as int)
                && final(self).remaining() == old(self).remaining().skip(num as int),
    ;

    /// Takes the next `number` bytes, eight bits each. Fails exactly when fewer than
    /// `8 * number` bits are left.
    fn read_bytes(&mut self, number: usize) -> (r: Result<Vec<u8>, ()>)
        requires
            old(self).inv(),
        ensures
            final(self).inv(),
            r is Ok <==> 8 * number <= old(self).remaining().len(),
            r is Ok ==> r.unwrap()@.len() == number
                && bytes_to_bits(r.unwrap()@) == old(self).remaining().take(8 * number)
                && final(self).remaining() == old(self).remaining().skip(8 * number),
    {
        let mut out: Vec<u8> = Vec::new();
        let mut i: usize = 0;
        while i < number
            invariant
                i <= number,
                self.inv(),
                out@.len() == i,
                8 * i <= old(self).remaining().len(),
                bytes_to_bits(out@) == old(self).remaining().take(8 * i),
                self.remaining() == old(self).remaining().skip(8 * i),
            decreases number - i,
        {
            let ghost before = self.remaining();
            let bits = match self.read_bits(8) {
                Ok(bits) => bits,
                Err(e) => {
                    return Err(e);
                },
            };
            proof {
                lemma_bits_to_nat_bound(bits@);
                lemma2_to64();
                lemma_bits_are_nat_to_bits(bits@);
            }
            let number_read = convert_to_number(bits.as_slice());
            let ghost prev = out@;
            out.push(number_read as u8);
            i = i + 1;
            proof {
                assert(out@.drop_last() =~= prev);
                assert(bytes_to_bits(out@) =~= old(self).remaining().take(8 * i));
                assert(self.remaining() =~= old(self).remaining().skip(8 * i));
            }
        }
        Ok(out)
    }
}

/// A bit source over a byte string, most significant bit of each byte first.
pub struct BitReaderImpl<'a> {
    byte_reader: &'a [u8],
    next_byte: usize,
    current_bits: Vec<Bit>,
    current_byte_cursor: usize,
}

impl<'a> BitReaderImpl<'a> {
    /// Starts reading at the first bit of the given bytes.
    pub fn from_reader(reader: &'a [u8]) -> (r: Self)
        ensures
            r.inv(),
            r.remaining() == bytes_to_bits(reader@),
    {
        let r = BitReaderImpl {
            byte_reader: reader,
            next_byte: 0,
            current_bits: Vec::new(),
            current_byte_cursor: 0,
        };
        proof {
            assert(reader@.skip(0) =~= reader@);
            assert(r.current_bits@.skip(0) + bytes_to_bits(reader@) =~= bytes_to_bits(reader@));
        }
        r
    }

    /// Passes over the bits that are left of the byte that is being read.
    pub fn align_to_byte(&mut self)
        requires
            old(self).inv(),
        ensures
            final(self).inv(),
            final(self).remaining() == old(self).remaining().skip((old(self).remaining().len() % 8) as int),
            final(self).remaining().len() % 8 == 0,
    {
        proof {
            lemma_bytes_to_bits_len(self.byte_reader@.skip(self.next_byte as int));
        }
        let ghost rest = bytes_to_bits(self.byte_reader@.skip(self.next_byte as int));
        let ghost left = self.current_bits@.skip(self.current_byte_cursor as int);
        if self.current_bits.len() - self.current_byte_cursor < 8 {
            self.current_byte_cursor = self.current_bits.len();
            proof {
                assert((left + rest).skip(left.len() as int) =~= rest);
                assert(self.remaining() =~= rest);
            }
        } else {
            proof {
                assert((left + rest).skip(0) =~= left + rest);
            }
        }
    }

    /// Whether every bit has been read.
    pub fn is_exhausted(&self) -> (b: bool)
        requires
            self.inv(),
        ensures
            b == (self.remaining().len() == 0),
    {
        proof {
            lemma_bytes_to_bits_len(self.byte_reader@.skip(self.next_byte as int));
        }
        self.current_byte_cursor == self.current_bits.len() && self.next_byte == self.byte_reader.len()
    }
}

impl<'a> BitReader for BitReaderImpl<'a> {
    closed spec fn remaining(&self) -> Seq<Bit> {
        self.current_bits@.skip(self.current_byte_cursor as int) + bytes_to_bits(
            self.byte_reader@.skip(self.next_byte as int),
        )
    }

    closed spec fn inv(&self) -> bool {
        &&& self.current_byte_cursor <= self.current_bits@.len() <= 8
        &&& self.next_byte <= self.byte_reader@.len()
    }

    fn read_bits(&mut self, num: usize) -> (r: Result<Vec<Bit>, ()>) {
        proof {
            lemma_bytes_to_bits_len(self.byte_reader@.skip(self.next_byte as int));
        }
        let in_current: usize = self.current_bits.len() - self.current_byte_cursor;
        if num > in_current {
            let need: usize = num - in_current;
            let bytes_needed: usize = if need % 8 == 0 { need / 8 } else { need / 8 + 1 };
            if bytes_needed > self.byte_reader.len() - self.next_byte {
                return Err(());
            }
        }
        let mut out: Vec<Bit> = Vec::new();
        while out.len() < num
            invariant
                self.inv(),
                out@.len() <= num <= old(self).remaining().len(),
                out@ == old(self).remaining().take(out@.len() as int),
                self.remaining() == old(self).remaining().skip(out@.len() as int),
                self.byte_reader == old(self).byte_reader,
            decreases num - out@.len(), (if self.current_byte_cursor >= self.current_bits@.len() { 1int } else { 0int }),
        {
            if self.current_byte_cursor >= self.current_bits.len() {
                proof {
                    let rest = self.byte_reader@.skip(self.next_byte as int);
                    lemma_bytes_to_bits_len(rest);
                    assert(self.next_byte < self.byte_reader@.len());
                    lemma_bytes_to_bits_concat(rest.take(1), rest.skip(1));
                    assert(rest.take(1) + rest.skip(1) =~= rest);
                    assert(rest.take(1).drop_last() =~= Seq::<u8>::empty());
                    assert(bytes_to_bits(Seq::<u8>::empty()) =~= Seq::<Bit>::empty());
                    assert(rest.take(1).last() == rest[0]);
                    assert(bytes_to_bits(rest.take(1)) =~= byte_bits(rest[0]));
                    assert(rest.skip(1) =~= self.byte_reader@.skip(self.next_byte + 1));
                }
                self.current_bits = convert_to_code_pad_to_byte(self.byte_reader[self.next_byte]);
                self.next_byte = self.next_byte + 1;
                self.current_byte_cursor = 0;
                proof {
                    assert(self.remaining() =~= old(self).remaining().skip(out@.len() as int));
                }
            } else {
                let ghost prev = out@;
                let ghost before = self.remaining();
                out.push(self.current_bits[self.current_byte_cursor]);
                self.current_byte_cursor = self.current_byte_cursor + 1;
                proof {
                    assert(before[0] == out@.last());
                    assert(self.remaining() =~= before.skip(1));
                    assert(out@ =~= old(self).remaining().take(out@.len() as int));
                    assert(self.remaining() =~= old(self).remaining().skip(out@.len() as int));
                }
            }
        }
        Ok(out)
    }
}

/// A bit source over a bit string held in memory.
pub struct InMemoryBitReader {
    bits: Vec<Bit>,
    cursor: usize,
}

impl InMemoryBitReader {
    /// Starts reading at the first of the given bits.
    pub fn from_bits(bits: &[Bit]) -> (r: Self)
        ensures
            r.inv(),
            r.remaining() == bits@,
    {
        let mut copy: Vec<Bit> = Vec::new();
        let mut i: usize = 0;
        while i < bits.len()
            invariant
                i <= bits.len(),
                copy@ == bits@.take(i as int),
            decreases bits.len() - i,
        {
            copy.push(bits[i]);
            i = i + 1;
            proof {
                assert(copy@ =~= bits@.take(i as int));
            }
        }
        proof {
            assert(bits@.take(i as int) =~= bits@);
            assert(copy@.skip(0) =~= copy@);
        }
        InMemoryBitReader { bits: copy, cursor: 0 }
    }
}

impl BitReader for InMemoryBitReader {
    closed spec fn remaining(&self) -> Seq<Bit> {
        self.bits@.skip(self.cursor as int)
    }

    closed spec fn inv(&self) -> bool {
        self.cursor <= self.bits@.len()
    }

    fn read_bits(&mut self, num: usize) -> (r: Result<Vec<Bit>, ()>) {
        if num > self.bits.len() - self.cursor {
            return Err(());
        }
        let mut out: Vec<Bit> = Vec::new();
        let start = self.cursor;
        let mut i: usize = 0;
        while i < num
            invariant
                i <= num,
                start + num <= self.bits@.len() <= usize::MAX,
                start == self.cursor,
                self.bits == old(self).bits,
                self.cursor == old(self).cursor,
                out@ == self.bits@.subrange(start as int, start + i),
            decreases num - i,
        {
            out.push(self.bits[start + i]);
            i = i + 1;
            proof {
                assert(out@ =~= self.bits@.subrange(start as int, start + i));
            }
        }
        self.cursor = start + num;
        proof {
            assert(out@ =~= old(self).remaining().take(num as int));
            assert(self.remaining() =~= old(self).remaining().skip(num as int));
        }
        Ok(out)
    }
}

} // verus!
