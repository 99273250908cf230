use vstd::prelude::*;
use vstd::arithmetic::power2::*;

pub mod bitreader;
pub mod bitwriter;

verus! {

/// A single binary digit.
#[derive(Clone, Copy, Debug, PartialEq, Eq, Structural)]
pub enum Bit {
    Zero,
    One,
}

/// The numeric value of a bit.
pub open spec fn bit_value(b: Bit) -> nat {
    match b {
        Bit::Zero => 0,
        Bit::One => 1,
    }
}

/// The number a bit string denotes when read with the most significant bit first.
pub open spec fn bits_to_nat(bits: Seq<Bit>) -> nat
    decreases bits.len(),
{
    if bits.len() == 0 {
        0
    } else {
        2 * bits_to_nat(bits.drop_last()) + bit_value(bits.last())
    }
}

/// The number of binary digits of `x` without leading zeros (0 for 0).
pub open spec fn bit_length(x: nat) -> nat
    decreases x,
{
    if x == 0 {
        0
    } else {
        1 + bit_length(x / 2)
    }
}

/// A run of `n` zero bits.
pub open spec fn zero_bits(n: nat) -> Seq<Bit> {
    Seq::new(n, |i: int| Bit::Zero)
}

/// The bits of a byte string, each byte contributing eight bits, most significant first.
pub open spec fn bytes_to_bits(bytes: Seq<u8>) -> Seq<Bit>
    decreases bytes.len(),
{
    if bytes.len() == 0 {
        Seq::empty()
    } else {
        bytes_to_bits(bytes.drop_last()) + byte_bits(bytes.last())
    }
}

/// The bit that stands for a binary digit.
pub open spec fn digit_bit(d: nat) -> Bit {
    if d == 0 {
        Bit::Zero
    } else {
        Bit::One
    }
}

/// The lowest `width` binary digits of `x`, most significant first.
pub open spec fn nat_to_bits(x: nat, width: nat) -> Seq<Bit>
    decreases width,
{
    if width == 0 {
        Seq::empty()
    } else {
        nat_to_bits(x / 2, (width - 1) as nat).push(digit_bit(x % 2))
    }
}

/// The eight bits of a byte, most significant first.
pub open spec fn byte_bits(b: u8) -> Seq<Bit> {
    nat_to_bits(b as nat, 8)
}

/// Writing a number with enough digits and reading it back gives the number.
pub proof fn lemma_nat_to_bits_value(x: nat, width: nat)
    requires
        x < pow2(width),
    ensures
        nat_to_bits(x, width).len() == width,
        bits_to_nat(nat_to_bits(x, width)) == x,
    decreases width,
{
    if width == 0 {
        lemma2_to64();
    } else {
        lemma_pow2_unfold(width);
        lemma_nat_to_bits_value(x / 2, (width - 1) as nat);
        let rest = nat_to_bits(x / 2, (width - 1) as nat);
        assert(rest.push(digit_bit(x % 2)).drop_last() =~= rest);
    }
}

/// A bit string is the fixed-width binary form of the number it denotes.
pub proof fn lemma_bits_are_nat_to_bits(bits: Seq<Bit>)
    ensures
        bits == nat_to_bits(bits_to_nat(bits), bits.len()),
{
    lemma_bits_to_nat_bound(bits);
    lemma_nat_to_bits_value(bits_to_nat(bits), bits.len());
    lemma_bits_to_nat_injective(bits, nat_to_bits(bits_to_nat(bits), bits.len()));
}

/// The bits of a concatenation are the concatenation of the bits.
pub proof fn lemma_bytes_to_bits_concat(a: Seq<u8>, b: Seq<u8>)
    ensures
        bytes_to_bits(a + b) == bytes_to_bits(a) + bytes_to_bits(b),
        bytes_to_bits(a).len() == 8 * a.len(),
    decreases b.len(),
{
    lemma_bytes_to_bits_len(a);
    if b.len() == 0 {
        assert(a + b =~= a);
        assert(bytes_to_bits(a) + bytes_to_bits(b) =~= bytes_to_bits(a));
    } else {
        lemma_bytes_to_bits_concat(a, b.drop_last());
        assert((a + b).drop_last() =~= a + b.drop_last());
        assert(bytes_to_bits(a + b) =~= bytes_to_bits(a) + bytes_to_bits(b));
    }
}

/// The bytes that a bit string holds, eight bits for every byte; bits that do not
/// fill a byte are left out.
pub open spec fn bits_to_bytes(bits: Seq<Bit>) -> Seq<u8> {
    Seq::new(bits.len() / 8, |i: int| bits_to_nat(bits.subrange(8 * i, 8 * i + 8)) as u8)
}

/// The bytes of the bits of a byte string are the byte string.
pub proof fn lemma_bits_to_bytes(bytes: Seq<u8>)
    ensures
        bits_to_bytes(bytes_to_bits(bytes)) == bytes,
    decreases bytes.len(),
{
    lemma_bytes_to_bits_len(bytes);
    let bits = bytes_to_bits(bytes);
    if bytes.len() > 0 {
        let rest = bytes.drop_last();
        lemma_bits_to_bytes(rest);
        lemma_bytes_to_bits_len(rest);
        lemma2_to64();
        lemma_nat_to_bits_value(bytes.last() as nat, 8);
        assert forall|i: int| 0 <= i < bytes.len() implies bits_to_bytes(bits)[i] == bytes[i] by {
            if i < rest.len() {
                assert(bits.subrange(8 * i, 8 * i + 8) =~= bytes_to_bits(rest).subrange(8 * i, 8 * i + 8));
                assert(bits_to_bytes(bytes_to_bits(rest))[i] == rest[i]);
            } else {
                assert(bits.subrange(8 * i, 8 * i + 8) =~= byte_bits(bytes.last()));
            }
        }
    }
    assert(bits_to_bytes(bits) =~= bytes);
}

/// Every byte contributes eight bits.
pub proof fn lemma_bytes_to_bits_len(a: Seq<u8>)
    ensures
        bytes_to_bits(a).len() == 8 * a.len(),
    decreases a.len(),
{
    if a.len() > 0 {
        lemma_bytes_to_bits_len(a.drop_last());
        lemma2_to64();
        lemma_nat_to_bits_value(a.last() as nat, 8);
    }
}

/// A bit string denotes a number below two to the power of its length.
pub proof fn lemma_bits_to_nat_bound(bits: Seq<Bit>)
    ensures
        bits_to_nat(bits) < pow2(bits.len()),
    decreases bits.len(),
{
    if bits.len() == 0 {
        lemma2_to64();
    } else {
        lemma_bits_to_nat_bound(bits.drop_last());
        lemma_pow2_unfold(bits.len());
    }
}

/// The value of a prefix never exceeds the value of the whole string.
pub proof fn lemma_bits_to_nat_prefix(bits: Seq<Bit>, k: int)
    requires
        0 <= k <= bits.len(),
    ensures
        bits_to_nat(bits.take(k)) <= bits_to_nat(bits),
    decreases bits.len(),
{
    if k == bits.len() {
        assert(bits.take(k) =~= bits);
    } else {
        lemma_bits_to_nat_prefix(bits.drop_last(), k);
        assert(bits.drop_last().take(k) =~= bits.take(k));
    }
}

/// Leading zeros do not change the number a bit string denotes.
pub proof fn lemma_bits_to_nat_leading_zeros(n: nat, bits: Seq<Bit>)
    ensures
        bits_to_nat(zero_bits(n) + bits) == bits_to_nat(bits),
    decreases bits.len(),
{
    if bits.len() == 0 {
        assert(zero_bits(n) + bits =~= zero_bits(n));
        lemma_bits_to_nat_zeros(n);
    } else {
        lemma_bits_to_nat_leading_zeros(n, bits.drop_last());
        assert((zero_bits(n) + bits).drop_last() =~= zero_bits(n) + bits.drop_last());
    }
}

/// A run of zeros denotes zero.
pub proof fn lemma_bits_to_nat_zeros(n: nat)
    ensures
        bits_to_nat(zero_bits(n)) == 0,
    decreases n,
{
    if n > 0 {
        lemma_bits_to_nat_zeros((n - 1) as nat);
        assert(zero_bits(n).drop_last() =~= zero_bits((n - 1) as nat));
    }
}

/// Two bit strings of one length that denote the same number are equal.
pub proof fn lemma_bits_to_nat_injective(a: Seq<Bit>, b: Seq<Bit>)
    requires
        a.len() == b.len(),
        bits_to_nat(a) == bits_to_nat(b),
    ensures
        a == b,
    decreases a.len(),
{
    if a.len() == 0 {
        assert(a =~= b);
    } else {
        lemma_bits_to_nat_injective(a.drop_last(), b.drop_last());
        assert(a =~= a.drop_last().push(a.last()));
        assert(b =~= b.drop_last().push(b.last()));
    }
}

/// A number has at most `k` binary digits exactly when it lies below two to the `k`.
pub proof fn lemma_bit_length_bound(x: nat, k: nat)
    ensures
        x < pow2(k) <==> bit_length(x) <= k,
    decreases k,
{
    if k == 0 {
        lemma2_to64();
    } else {
        lemma_pow2_unfold(k);
        lemma_pow2_pos(k);
        if x > 0 {
            lemma_bit_length_bound(x / 2, (k - 1) as nat);
            let h = pow2((k - 1) as nat);
            assert(x < 2 * h <==> x / 2 < h);
        }
    }
}

} // verus!
