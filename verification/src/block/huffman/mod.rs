use vstd::prelude::*;
use vstd::std_specs::cmp::PartialOrdSpec;
use vstd::arithmetic::power2::*;
use crate::bitwise::{Bit, bits_to_nat, bit_length, nat_to_bits, zero_bits, lemma_bits_to_nat_bound, lemma_bits_are_nat_to_bits};
use crate::bitwise::bitwriter::{increment_symbol, max_nat};
use crate::block::sorting::{sort_places, sorted_places, is_sorted_places, holds_place};
use crate::block::symbol_statistics::IntoFrequencyTable;
use crate::block::zle::ZleSymbol;
use crate::block::huffman::package_merge::{compute_lis, lis_spec};

pub mod package_merge;
pub mod reader;

verus! {

/// A symbol of the Huffman alphabet of a block: a symbol of the zero-run encoding,
/// or the end of the block.
#[derive(PartialEq, Eq, Clone, Copy, Debug, Structural)]
pub enum HuffmanSymbol {
    NormalSymbol(ZleSymbol),
    EoB,
}

/// A symbol with the bit length of its code.
#[derive(PartialEq, Eq, Clone, Copy, Debug)]
pub struct CodeTableEntry {
    pub code: usize,
    pub symbol: HuffmanSymbol,
}

/// A symbol with its code.
#[derive(PartialEq, Eq, Clone, Debug)]
pub struct CanonicalCodeTableEntry {
    pub code: Vec<Bit>,
    pub symbol: HuffmanSymbol,
}

/// The bit lengths of a code.
#[derive(PartialEq, Clone, Debug)]
pub struct CodeTable(pub Vec<CodeTableEntry>);

/// How two keys stand to each other.
pub open spec fn key_order(first: usize, second: usize) -> Option<std::cmp::Ordering> {
    if first < second {
        Some(std::cmp::Ordering::Less)
    } else if first == second {
        Some(std::cmp::Ordering::Equal)
    } else {
        Some(std::cmp::Ordering::Greater)
    }
}

/// The symbols are ordered by their keys: the end of the block comes last.
impl PartialOrd for HuffmanSymbol {
    fn partial_cmp(&self, other: &Self) -> (order: Option<std::cmp::Ordering>) {
        let this_key = key_of_symbol(self);
        let other_key = key_of_symbol(other);
        if this_key < other_key {
            Some(std::cmp::Ordering::Less)
        } else if this_key == other_key {
            Some(std::cmp::Ordering::Equal)
        } else {
            Some(std::cmp::Ordering::Greater)
        }
    }
}

impl vstd::std_specs::cmp::PartialOrdSpecImpl for HuffmanSymbol {
    open spec fn obeys_partial_cmp_spec() -> bool {
        true
    }

    open spec fn partial_cmp_spec(&self, other: &Self) -> Option<std::cmp::Ordering> {
        key_order(symbol_key(*self), symbol_key(*other))
    }
}

/// The entries are ordered by the length of the code, and entries of one length by
/// their symbols.
impl PartialOrd for CodeTableEntry {
    fn partial_cmp(&self, other: &Self) -> (order: Option<std::cmp::Ordering>) {
        if self.code < other.code {
            Some(std::cmp::Ordering::Less)
        } else if self.code > other.code {
            Some(std::cmp::Ordering::Greater)
        } else {
            self.symbol.partial_cmp(&other.symbol)
        }
    }
}

impl vstd::std_specs::cmp::PartialOrdSpecImpl for CodeTableEntry {
    open spec fn obeys_partial_cmp_spec() -> bool {
        true
    }

    open spec fn partial_cmp_spec(&self, other: &Self) -> Option<std::cmp::Ordering> {
        if self.code != other.code {
            key_order(self.code, other.code)
        } else {
            key_order(symbol_key(self.symbol), symbol_key(other.symbol))
        }
    }
}

/// A canonical code, its entries sorted by symbol.
#[derive(PartialEq, Eq, Clone, Debug)]
pub struct CanonicalCodeTable(pub Vec<CanonicalCodeTableEntry>);

/// A canonical code as a list of codes with their symbols.
pub type CodeView = Seq<(Seq<Bit>, HuffmanSymbol)>;

impl View for CanonicalCodeTable {
    type V = CodeView;

    open spec fn view(&self) -> CodeView {
        Seq::new(self.0@.len(), |i: int| (self.0@[i].code@, self.0@[i].symbol))
    }
}

/// The canonical codes of a list of tables.
pub open spec fn views_of(tables: Seq<CanonicalCodeTable>) -> Seq<CodeView> {
    Seq::new(tables.len(), |t: int| tables[t]@)
}

/// The longest code that is built.
pub const MAX_CODE_LENGTH: usize = 17;

/// The longest code of a table that is made canonical.
pub const MAX_TABLE_CODE_LENGTH: usize = 20;

/// The number by which symbols are ordered: `RunA`, `RunB`, the numbers by their
/// byte, and the end of the block last.
pub open spec fn symbol_key(symbol: HuffmanSymbol) -> usize {
    match symbol {
        HuffmanSymbol::NormalSymbol(ZleSymbol::RunA) => 0,
        HuffmanSymbol::NormalSymbol(ZleSymbol::RunB) => 1,
        HuffmanSymbol::NormalSymbol(ZleSymbol::Number(i)) => (i + 2) as usize,
        HuffmanSymbol::EoB => 258,
    }
}

/// The order of the symbols is the order of their keys.
pub proof fn lemma_symbol_order(first: ZleSymbol, second: ZleSymbol)
    ensures
        first.partial_cmp_spec(&second) == Some(std::cmp::Ordering::Less) <==> symbol_key(
            HuffmanSymbol::NormalSymbol(first),
        ) < symbol_key(HuffmanSymbol::NormalSymbol(second)),
        first.partial_cmp_spec(&second) == Some(std::cmp::Ordering::Equal) <==> first == second,
{
}

/// The symbol at a place of an alphabet of `total` symbols: `RunA`, `RunB`, the
/// numbers from one on, and the end of the block last.
pub open spec fn alphabet_symbol(place: int, total: int) -> HuffmanSymbol {
    if place == total - 1 {
        HuffmanSymbol::EoB
    } else if place == 0 {
        HuffmanSymbol::NormalSymbol(ZleSymbol::RunA)
    } else if place == 1 {
        HuffmanSymbol::NormalSymbol(ZleSymbol::RunB)
    } else {
        HuffmanSymbol::NormalSymbol(ZleSymbol::Number((place - 1) as u8))
    }
}

/// The sum of `2^(limit - length)` over the lengths: the share of the code space
/// that the codes take, in units of `2^-limit`.
pub open spec fn kraft_units(lengths: Seq<usize>, limit: nat) -> nat
    decreases lengths.len(),
{
    if lengths.len() == 0 {
        0
    } else {
        kraft_units(lengths.drop_last(), limit) + pow2((limit - lengths.last()) as nat)
    }
}

/// Whether the lengths are those of a complete prefix code with no code longer than
/// `limit`: every length lies between 1 and `limit`, and the codes fill the code
/// space exactly.
pub open spec fn is_complete_code(lengths: Seq<usize>, limit: nat) -> bool {
    &&& forall|i: int| 0 <= i < lengths.len() ==> 1 <= #[trigger] lengths[i] <= limit
    &&& kraft_units(lengths, limit) == pow2(limit)
}

/// The bit lengths of a table, in its order.
pub open spec fn table_lengths(table: Seq<CodeTableEntry>) -> Seq<usize> {
    Seq::new(table.len(), |k: int| table[k].code)
}

/// Computes a power of two.
fn power_of_two(exponent: usize) -> (power: u64)
    requires
        exponent <= 32,
    ensures
        power == pow2(exponent as nat),
{
    let mut power: u64 = 1;
    let mut e: usize = 0;
    proof {
        lemma2_to64();
    }
    while e < exponent
        invariant
            e <= exponent <= 32,
            power == pow2(e as nat),
            power <= 0x1_0000_0000,
        decreases exponent - e,
    {
        proof {
            lemma_pow2_unfold((e + 1) as nat);
            lemma2_to64();
            if e + 1 < 32 {
                lemma_pow2_strictly_increases((e + 1) as nat, 32);
            }
        }
        power = power * 2;
        e = e + 1;
    }
    power
}

/// Checks whether the lengths are those of a complete prefix code with no code
/// longer than `limit`.
pub fn check_complete_code(lengths: &Vec<usize>, limit: usize) -> (ok: bool)
    requires
        limit <= 32,
        lengths@.len() <= 0x10000,
    ensures
        ok == is_complete_code(lengths@, limit as nat),
{
    let mut sum: u64 = 0;
    let mut i: usize = 0;
    while i < lengths.len()
        invariant
            i <= lengths@.len() <= 0x10000,
            limit <= 32,
            forall|k: int| 0 <= k < i ==> 1 <= #[trigger] lengths@[k] <= limit,
            sum == kraft_units(lengths@.take(i as int), limit as nat),
            sum <= i * 0x1_0000_0000,
        decreases lengths@.len() - i,
    {
        let length = lengths[i];
        if length < 1 || length > limit {
            return false;
        }
        proof {
            assert(lengths@.take(i + 1).drop_last() =~= lengths@.take(i as int));
            lemma2_to64();
            if limit - length < 32 {
                lemma_pow2_strictly_increases((limit - length) as nat, 32);
            }
        }
        sum = sum + power_of_two(limit - length);
        i = i + 1;
    }
    proof {
        assert(lengths@.take(i as int) =~= lengths@);
    }
    sum == power_of_two(limit)
}

/// Splitting a code in two keeps the code complete.
proof fn lemma_kraft_split(lengths: Seq<usize>, at: int, limit: nat)
    requires
        0 <= at < lengths.len(),
        lengths[at] < limit,
        lengths[at] < usize::MAX,
    ensures
        kraft_units(lengths.update(at, (lengths[at] + 1) as usize).push((lengths[at] + 1) as usize), limit)
            == kraft_units(lengths, limit),
    decreases lengths.len(),
{
    let longer = (lengths[at] + 1) as usize;
    let split = lengths.update(at, longer).push(longer);
    assert(split.drop_last() =~= lengths.update(at, longer));
    lemma_pow2_unfold((limit - lengths[at]) as nat);
    lemma_kraft_update(lengths, at, limit);
}

proof fn lemma_kraft_update(lengths: Seq<usize>, at: int, limit: nat)
    requires
        0 <= at < lengths.len(),
        lengths[at] < limit,
        lengths[at] < usize::MAX,
    ensures
        kraft_units(lengths.update(at, (lengths[at] + 1) as usize), limit) + pow2(
            (limit - lengths[at] - 1) as nat,
        ) == kraft_units(lengths, limit),
    decreases lengths.len(),
{
    let longer = (lengths[at] + 1) as usize;
    let updated = lengths.update(at, longer);
    if at == lengths.len() - 1 {
        assert(updated.drop_last() =~= lengths.drop_last());
        lemma_pow2_unfold((limit - lengths[at]) as nat);
    } else {
        lemma_kraft_update(lengths.drop_last(), at, limit);
        assert(updated.drop_last() =~= lengths.drop_last().update(at, longer));
    }
}

proof fn lemma_kraft_all_longest(lengths: Seq<usize>, limit: nat)
    requires
        forall|i: int| 0 <= i < lengths.len() ==> #[trigger] lengths[i] == limit,
    ensures
        kraft_units(lengths, limit) == lengths.len(),
    decreases lengths.len(),
{
    if lengths.len() > 0 {
        assert forall|i: int| 0 <= i < lengths.drop_last().len() implies #[trigger] lengths.drop_last()[i]
            == limit by {
            assert(lengths.drop_last()[i] == lengths[i]);
        }
        lemma_kraft_all_longest(lengths.drop_last(), limit);
        lemma2_to64();
    }
}

/// The place of the first of the shortest among the first `k` lengths.
pub open spec fn first_shortest(lengths: Seq<usize>, k: int) -> int
    decreases k,
{
    if k <= 1 {
        0
    } else {
        let best = first_shortest(lengths, k - 1);
        if lengths[k - 1] < lengths[best] {
            k - 1
        } else {
            best
        }
    }
}

/// The lengths with the first of the shortest codes split in two.
pub open spec fn split_shortest(lengths: Seq<usize>) -> Seq<usize> {
    let shortest = first_shortest(lengths, lengths.len() as int);
    let longer = (lengths[shortest] + 1) as usize;
    lengths.update(shortest, longer).push(longer)
}

/// The lengths of the even code for `count` symbols: two codes of one bit, of which
/// the first of the shortest is split in two until there are enough.
pub open spec fn balanced_spec(count: int) -> Seq<usize>
    decreases count,
{
    if count <= 2 {
        seq![1usize, 1usize]
    } else {
        split_shortest(balanced_spec(count - 1))
    }
}

/// The first of the shortest lengths is a place of the list, and no length is
/// shorter.
pub proof fn lemma_first_shortest(lengths: Seq<usize>, k: int)
    requires
        1 <= k <= lengths.len(),
    ensures
        0 <= first_shortest(lengths, k) < k,
        forall|i: int| 0 <= i < k ==> lengths[first_shortest(lengths, k)] <= #[trigger] lengths[i],
    decreases k,
{
    if k > 1 {
        lemma_first_shortest(lengths, k - 1);
    }
}

/// The even code is a complete prefix code.
pub proof fn lemma_balanced_spec(count: int)
    requires
        2 <= count <= 0x10000,
    ensures
        balanced_spec(count).len() == count,
        is_complete_code(balanced_spec(count), MAX_CODE_LENGTH as nat),
    decreases count,
{
    if count == 2 {
        lemma2_to64();
        let s = balanced_spec(2);
        assert(s.drop_last().drop_last() =~= Seq::<usize>::empty());
        assert(kraft_units(s.drop_last().drop_last(), 17) == 0);
        assert(kraft_units(s.drop_last(), 17) == pow2(16));
        assert(kraft_units(s, 17) == pow2(16) + pow2(16));
    } else {
        lemma_balanced_spec(count - 1);
        let before = balanced_spec(count - 1);
        lemma_first_shortest(before, before.len() as int);
        let shortest = first_shortest(before, before.len() as int);
        if before[shortest] >= MAX_CODE_LENGTH {
            lemma_kraft_all_longest(before, MAX_CODE_LENGTH as nat);
            lemma2_to64();
        }
        lemma_kraft_split(before, shortest, MAX_CODE_LENGTH as nat);
    }
}

/// The lengths of a complete prefix code for `count` symbols that is as even as it
/// can be: one code is split in two, the shortest first, until there are enough.
pub fn balanced_lengths(count: usize) -> (lengths: Vec<usize>)
    requires
        2 <= count <= 0x10000,
    ensures
        lengths@ == balanced_spec(count as int),
        lengths@.len() == count,
        is_complete_code(lengths@, MAX_CODE_LENGTH as nat),
{
    let mut lengths: Vec<usize> = Vec::new();
    lengths.push(1);
    lengths.push(1);
    proof {
        lemma2_to64();
        let s = lengths@;
        assert(s.drop_last().drop_last() =~= Seq::<usize>::empty());
        assert(kraft_units(s.drop_last().drop_last(), 17) == 0);
        assert(kraft_units(s.drop_last(), 17) == pow2(16));
        assert(kraft_units(s, 17) == pow2(16) + pow2(16));
        assert(s =~= balanced_spec(2));
    }
    while lengths.len() < count
        invariant
            2 <= lengths@.len() <= count <= 0x10000,
            is_complete_code(lengths@, MAX_CODE_LENGTH as nat),
            lengths@ == balanced_spec(lengths@.len() as int),
        decreases count - lengths@.len(),
    {
        let mut shortest: usize = 0;
        let mut i: usize = 1;
        while i < lengths.len()
            invariant
                1 <= i <= lengths@.len(),
                shortest < lengths@.len(),
                shortest == first_shortest(lengths@, i as int),
                forall|k: int| 0 <= k < i ==> lengths@[shortest as int] <= #[trigger] lengths@[k],
            decreases lengths@.len() - i,
        {
            if lengths[i] < lengths[shortest] {
                shortest = i;
            }
            i = i + 1;
        }
        let length = lengths[shortest];
        proof {
            if length >= MAX_CODE_LENGTH {
                lemma_kraft_all_longest(lengths@, MAX_CODE_LENGTH as nat);
                lemma2_to64();
            }
            lemma_kraft_split(lengths@, shortest as int, MAX_CODE_LENGTH as nat);
        }
        lengths[shortest] = length + 1;
        lengths.push(length + 1);
    }
    lengths
}

/// The frequencies of a table followed by the frequency 0 of the end of the block.
pub open spec fn with_end_of_block(frequencies: Seq<usize>) -> Seq<usize> {
    frequencies.push(0)
}

/// The weights of the first `k` symbols in the order `order`: their frequencies,
/// but one more than the weight before where that is not smaller.
pub open spec fn raised_weights(counts: Seq<usize>, order: Seq<usize>, k: int) -> Seq<usize>
    decreases k,
{
    if k <= 0 {
        Seq::empty()
    } else {
        let before = raised_weights(counts, order, k - 1);
        let frequency = counts[order[k - 1] as int];
        if k > 1 && before[k - 2] >= frequency {
            before.push((before[k - 2] + 1) as usize)
        } else {
            before.push(frequency)
        }
    }
}

/// The code lengths for a frequency table, in the order of the frequencies: those
/// that the package-merge algorithm gives for the raised weights if they make a
/// complete prefix code, and those of the even code if not.
pub open spec fn huffman_lengths(frequencies: Seq<usize>) -> Seq<usize> {
    let counts = with_end_of_block(frequencies);
    let order = sorted_places(counts, counts.len() as int);
    let lengths = lis_spec(raised_weights(counts, order, counts.len() as int), MAX_CODE_LENGTH as int);
    if is_complete_code(lengths, MAX_CODE_LENGTH as nat) {
        lengths
    } else {
        balanced_spec(counts.len() as int)
    }
}

/// The table of code lengths for a frequency table: the symbols in the order of
/// their frequencies, each with its length.
pub open spec fn huffman_table(frequencies: Seq<usize>) -> Seq<CodeTableEntry> {
    let counts = with_end_of_block(frequencies);
    let order = sorted_places(counts, counts.len() as int);
    Seq::new(
        counts.len(),
        |k: int|
            CodeTableEntry {
                code: huffman_lengths(frequencies)[k],
                symbol: alphabet_symbol(order[k] as int, counts.len() as int),
            },
    )
}

/// Computes the bit lengths of a Huffman code for the symbols of a frequency table
/// and the end of the block, no code longer than 17 bits. The symbols are sorted by
/// frequency, symbols of one frequency in their own order; a frequency that is not
/// larger than the one before it is raised to one more than that; the lengths come
/// from the package-merge algorithm. Lengths that would not make a complete prefix
/// code are replaced by those of an even code.
pub fn compute_huffman(frequency_table: IntoFrequencyTable) -> (table: CodeTable)
    requires
        1 <= frequency_table.frequencies@.len() <= 257,
        forall|i: int|
            0 <= i < frequency_table.frequencies@.len() ==> #[trigger] frequency_table.frequencies@[i]
                <= 0x7FFF_FFFF,
    ensures
        table.0@ == huffman_table(frequency_table.frequencies@),
        table.0@.len() == frequency_table.frequencies@.len() + 1,
        is_complete_code(table_lengths(table.0@), MAX_CODE_LENGTH as nat),
        forall|k: int|
            0 <= k < table.0@.len() ==> (#[trigger] table.0@[k]).symbol == alphabet_symbol(
                sorted_places(
                    with_end_of_block(frequency_table.frequencies@),
                    table.0@.len() as int,
                )[k] as int,
                table.0@.len() as int,
            ),
        forall|place: int|
            0 <= place < table.0@.len() ==> #[trigger] lists_symbol(
                table.0@,
                alphabet_symbol(place, table.0@.len() as int),
            ),
{
    let ghost frequencies = frequency_table.frequencies@;
    let entries = frequency_table.iterate();
    let total: usize = entries.len() + 1;
    let mut counts: Vec<usize> = Vec::new();
    let mut i: usize = 0;
    while i < entries.len()
        invariant
            i <= entries@.len(),
            entries@.len() == frequencies.len(),
            forall|k: int| 0 <= k < entries@.len() ==> (#[trigger] entries@[k]).1 == frequencies[k],
            counts@ == frequencies.take(i as int),
        decreases entries@.len() - i,
    {
        counts.push(entries[i].1);
        i = i + 1;
        proof {
            assert(counts@ =~= frequencies.take(i as int));
        }
    }
    counts.push(0);
    proof {
        assert(frequencies.take(i as int) =~= frequencies);
        assert(counts@ =~= with_end_of_block(frequencies));
    }
    let order = sort_places(&counts);
    let mut weights: Vec<usize> = Vec::new();
    let mut last: usize = 0;
    let mut k: usize = 0;
    while k < order.len()
        invariant
            k <= order@.len(),
            order@.len() == total,
            counts@.len() == total,
            total <= 258,
            is_sorted_places(counts@, order@, total as int),
            forall|i: int| 0 <= i < counts@.len() ==> #[trigger] counts@[i] <= 0x7FFF_FFFF,
            weights@.len() == k,
            last <= 0x7FFF_FFFF + k,
            weights@ == raised_weights(counts@, order@, k as int),
            k > 0 ==> last == weights@[k - 1],
        decreases order@.len() - k,
    {
        let mut frequency = counts[order[k]];
        if k > 0 && last >= frequency {
            frequency = last + 1;
        }
        weights.push(frequency);
        last = frequency;
        k = k + 1;
    }
    let mut lengths = compute_lis(weights.as_slice(), MAX_CODE_LENGTH);
    if !check_complete_code(&lengths, MAX_CODE_LENGTH) {
        lengths = balanced_lengths(total);
    }
    proof {
        assert(lengths@ == huffman_lengths(frequencies));
    }
    let mut table: Vec<CodeTableEntry> = Vec::new();
    let mut k: usize = 0;
    while k < total
        invariant
            k <= total,
            total <= 258,
            order@.len() == total,
            lengths@.len() == total,
            is_sorted_places(counts@, order@, total as int),
            table@.len() == k,
            forall|j: int|
                0 <= j < k ==> (#[trigger] table@[j]).symbol == alphabet_symbol(order@[j] as int, total as int)
                    && table@[j].code == lengths@[j],
            forall|j: int|
                0 <= j < k ==> #[trigger] table@[j] == (CodeTableEntry {
                    code: lengths@[j],
                    symbol: alphabet_symbol(order@[j] as int, total as int),
                }),
        decreases total - k,
    {
        let place = order[k];
        let symbol = if place == total - 1 {
            HuffmanSymbol::EoB
        } else if place == 0 {
            HuffmanSymbol::NormalSymbol(ZleSymbol::RunA)
        } else if place == 1 {
            HuffmanSymbol::NormalSymbol(ZleSymbol::RunB)
        } else {
            HuffmanSymbol::NormalSymbol(ZleSymbol::Number((place - 1) as u8))
        };
        table.push(CodeTableEntry { code: lengths[k], symbol });
        k = k + 1;
    }
    proof {
        assert(table_lengths(table@) =~= lengths@);
        assert(table@ =~= huffman_table(frequencies));
        assert forall|place: int| 0 <= place < total implies #[trigger] lists_symbol(
            table@,
            alphabet_symbol(place, total as int),
        ) by {
            assert(holds_place(order@, place));
            let r = choose|r: int| 0 <= r < order@.len() && #[trigger] order@[r] == place;
            assert(table@[r].symbol == alphabet_symbol(place, total as int));
        }
    }
    CodeTable(table)
}

/// Whether some entry of the table is for `symbol`.
pub open spec fn lists_symbol(table: Seq<CodeTableEntry>, symbol: HuffmanSymbol) -> bool {
    exists|k: int| 0 <= k < table.len() && (#[trigger] table[k]).symbol == symbol
}

/// The number by which the entries of a table are ordered to give them their codes:
/// by length, and by symbol where the lengths are equal.
pub open spec fn length_key(entry: CodeTableEntry) -> usize {
    (entry.code * 512 + symbol_key(entry.symbol)) as usize
}

/// The code that follows `previous` for an entry of `length` bits: the successor of
/// `previous` as a number, with zeros added behind it up to the length.
pub open spec fn next_code(previous: Seq<Bit>, length: nat) -> Seq<Bit> {
    let value = bits_to_nat(previous) + 1;
    let width = max_nat(previous.len(), bit_length(value));
    if length > width {
        nat_to_bits(value, width) + zero_bits((length - width) as nat)
    } else {
        nat_to_bits(value, width)
    }
}

/// The code of the entry at place `j` of a table sorted by length and symbol.
pub open spec fn code_at(lengths: Seq<usize>, j: int) -> Seq<Bit>
    decreases j,
{
    if j <= 0 {
        zero_bits(lengths[0] as nat)
    } else {
        next_code(code_at(lengths, j - 1), lengths[j] as nat)
    }
}

/// The keys of the entries of a table, for giving them their codes.
pub open spec fn length_keys(table: Seq<CodeTableEntry>) -> Seq<usize> {
    Seq::new(table.len(), |k: int| length_key(table[k]))
}

/// The entries of a table sorted by length and symbol.
pub open spec fn by_length(table: Seq<CodeTableEntry>) -> Seq<CodeTableEntry> {
    Seq::new(
        table.len(),
        |j: int| table[sorted_places(length_keys(table), table.len() as int)[j] as int],
    )
}

/// The keys of the entries of a table, for sorting them by symbol.
pub open spec fn symbol_keys(table: Seq<CodeTableEntry>) -> Seq<usize> {
    Seq::new(table.len(), |k: int| symbol_key(table[k].symbol))
}

/// Where the entry at place `i` of the canonical table stands among the entries
/// sorted by length and symbol.
pub open spec fn canonical_place(table: Seq<CodeTableEntry>, i: int) -> int {
    sorted_places(symbol_keys(by_length(table)), table.len() as int)[i] as int
}

/// The code of the entry at place `i` of the canonical table.
pub open spec fn canonical_code(table: Seq<CodeTableEntry>, i: int) -> Seq<Bit> {
    code_at(table_lengths(by_length(table)), canonical_place(table, i))
}

/// The symbol of the entry at place `i` of the canonical table.
pub open spec fn canonical_symbol(table: Seq<CodeTableEntry>, i: int) -> HuffmanSymbol {
    by_length(table)[canonical_place(table, i)].symbol
}

/// The canonical code for a table of lengths.
pub open spec fn canonical_view(table: Seq<CodeTableEntry>) -> CodeView {
    Seq::new(table.len(), |i: int| (canonical_code(table, i), canonical_symbol(table, i)))
}

/// The table of an alphabet of as many symbols as there are lengths.
pub open spec fn weights_table(code_lengths: Seq<u8>) -> Seq<CodeTableEntry> {
    Seq::new(
        code_lengths.len(),
        |k: int|
            CodeTableEntry {
                code: code_lengths[k] as usize,
                symbol: alphabet_symbol(k, code_lengths.len() as int),
            },
    )
}

/// Computes the number by which symbols are ordered.
pub fn key_of_symbol(symbol: &HuffmanSymbol) -> (key: usize)
    ensures
        key == symbol_key(*symbol),
        key <= 258,
{
    match symbol {
        HuffmanSymbol::NormalSymbol(ZleSymbol::RunA) => 0,
        HuffmanSymbol::NormalSymbol(ZleSymbol::RunB) => 1,
        HuffmanSymbol::NormalSymbol(ZleSymbol::Number(i)) => *i as usize + 2,
        HuffmanSymbol::EoB => 258,
    }
}

impl CodeTable {
    /// Whether the table can be made canonical: it has an entry, and neither too many
    /// entries nor too long a code for the codes to be counted in a machine word.
    pub open spec fn bounded(&self) -> bool {
        &&& 1 <= self.0@.len() <= 1024
        &&& forall|k: int| 0 <= k < self.0@.len() ==> (#[trigger] self.0@[k]).code <= MAX_TABLE_CODE_LENGTH
    }

    /// Gives every symbol its code. The entries are sorted by length, and by symbol
    /// where the lengths are equal; the first gets the code of zeros; every other gets
    /// the successor of the code before it, with zeros added behind it up to its own
    /// length. The result is sorted by symbol.
    pub fn canonicalize(self) -> (canonical: CanonicalCodeTable)
        requires
            self.bounded(),
        ensures
            canonical@ == canonical_view(self.0@),
            canonical.0@.len() == self.0@.len(),
            forall|i: int|
                0 <= i < canonical.0@.len() ==> (#[trigger] canonical.0@[i]).code@ == canonical_code(
                    self.0@,
                    i,
                ) && canonical.0@[i].symbol == canonical_symbol(self.0@, i),
            forall|k: int| 0 <= k < self.0@.len() ==> #[trigger] has_symbol(canonical.0@, self.0@[k].symbol),
            forall|i: int| 0 <= i < canonical.0@.len() ==> (#[trigger] canonical.0@[i]).code@.len() <= 32,
    {
        let n = self.0.len();
        let mut keys: Vec<usize> = Vec::new();
        let mut k: usize = 0;
        while k < n
            invariant
                k <= n,
                n == self.0@.len(),
                self.bounded(),
                keys@ == length_keys(self.0@).take(k as int),
            decreases n - k,
        {
            let entry = self.0[k];
            keys.push(entry.code * 512 + key_of_symbol(&entry.symbol));
            k = k + 1;
            proof {
                assert(keys@ =~= length_keys(self.0@).take(k as int));
            }
        }
        proof {
            assert(length_keys(self.0@).take(k as int) =~= length_keys(self.0@));
        }
        let order = sort_places(&keys);
        let mut sorted: Vec<CodeTableEntry> = Vec::new();
        let mut j: usize = 0;
        while j < n
            invariant
                j <= n,
                n == self.0@.len(),
                order@.len() == n,
                order@ == sorted_places(length_keys(self.0@), n as int),
                is_sorted_places(keys@, order@, n as int),
                sorted@ == by_length(self.0@).take(j as int),
            decreases n - j,
        {
            sorted.push(self.0[order[j]]);
            j = j + 1;
            proof {
                assert(sorted@ =~= by_length(self.0@).take(j as int));
            }
        }
        proof {
            assert(by_length(self.0@).take(j as int) =~= by_length(self.0@));
        }
        let ghost lengths = table_lengths(sorted@);
        let mut codes: Vec<Vec<Bit>> = Vec::new();
        let mut symbol_key_list: Vec<usize> = Vec::new();
        let mut last: Vec<Bit> = Vec::new();
        let mut j: usize = 0;
        while j < n
            invariant
                j <= n,
                n == sorted@.len(),
                1 <= n <= 1024,
                lengths == table_lengths(sorted@),
                forall|k: int| 0 <= k < n ==> (#[trigger] sorted@[k]).code <= MAX_TABLE_CODE_LENGTH,
                codes@.len() == j,
                forall|k: int| 0 <= k < j ==> (#[trigger] codes@[k])@ == code_at(lengths, k),
                forall|k: int| 0 <= k < j ==> (#[trigger] codes@[k])@.len() <= 32,
                last@.len() <= 32,
                j > 0 ==> last@ == code_at(lengths, j - 1),
                j > 0 ==> bits_to_nat(last@) < j * 0x100000,
                symbol_key_list@ == symbol_keys(sorted@).take(j as int),
            decreases n - j,
        {
            let entry = sorted[j];
            let mut code: Vec<Bit> = if j == 0 {
                Vec::new()
            } else {
                increment_symbol(last)
            };
            proof {
                if j > 0 {
                    lemma_bits_are_nat_to_bits(code@);
                    lemma2_to64();
                    assert(pow2(32) == 0x100000000);
                    crate::bitwise::lemma_bit_length_bound(bits_to_nat(code@), 32);
                }
                lemma2_to64();
            }
            let ghost unpadded = code@;
            while code.len() < entry.code
                invariant
                    unpadded.len() <= code@.len() <= max_nat(unpadded.len(), entry.code as nat),
                    code@ == unpadded + zero_bits((code@.len() - unpadded.len()) as nat),
                decreases entry.code - code@.len(),
            {
                code.push(Bit::Zero);
                proof {
                    assert(code@ =~= unpadded + zero_bits((code@.len() - unpadded.len()) as nat));
                }
            }
            proof {
                if j == 0 {
                    assert(code@ =~= zero_bits(entry.code as nat));
                    crate::bitwise::lemma_bits_to_nat_zeros(entry.code as nat);
                } else {
                    if unpadded.len() < entry.code {
                        lemma_bits_to_nat_bound(code@);
                        lemma_pow2_strictly_increases(code@.len(), 21);
                        lemma2_to64_rest();
                        assert(pow2(21) == 0x200000);
                    } else {
                        assert(code@ =~= unpadded);
                    }
                    assert(code@ =~= next_code(last@, entry.code as nat));
                }
            }
            let ghost before = codes@;
            codes.push(copy_bits(&code));
            symbol_key_list.push(key_of_symbol(&entry.symbol));
            last = code;
            j = j + 1;
            proof {
                assert forall|k: int| 0 <= k < j implies (#[trigger] codes@[k])@ == code_at(lengths, k)
                    && codes@[k]@.len() <= 32 by {
                    if k < j - 1 {
                        assert(codes@[k] == before[k]);
                    }
                }
                assert(symbol_key_list@ =~= symbol_keys(sorted@).take(j as int));
            }
        }
        proof {
            assert(symbol_keys(sorted@).take(j as int) =~= symbol_keys(sorted@));
        }
        // sort the new codes by symbol
        let by_symbol = sort_places(&symbol_key_list);
        let mut canonical_code_table_entries: Vec<CanonicalCodeTableEntry> = Vec::new();
        let mut i: usize = 0;
        while i < n
            invariant
                i <= n,
                n == sorted@.len(),
                n == self.0@.len(),
                codes@.len() == n,
                by_symbol@.len() == n,
                sorted@ == by_length(self.0@),
                lengths == table_lengths(sorted@),
                by_symbol@ == sorted_places(symbol_keys(sorted@), n as int),
                is_sorted_places(symbol_key_list@, by_symbol@, n as int),
                forall|k: int| 0 <= k < n ==> (#[trigger] codes@[k])@ == code_at(lengths, k),
                forall|k: int| 0 <= k < n ==> (#[trigger] codes@[k])@.len() <= 32,
                canonical_code_table_entries@.len() == i,
                forall|k: int| 0 <= k < i ==> (#[trigger] canonical_code_table_entries@[k]).code@.len() <= 32,
                forall|k: int|
                    0 <= k < i ==> (#[trigger] canonical_code_table_entries@[k]).code@ == canonical_code(
                        self.0@,
                        k,
                    ) && canonical_code_table_entries@[k].symbol == canonical_symbol(self.0@, k),
            decreases n - i,
        {
            let place = by_symbol[i];
            let ghost before = canonical_code_table_entries@;
            canonical_code_table_entries.push(
                CanonicalCodeTableEntry { code: copy_bits(&codes[place]), symbol: sorted[place].symbol },
            );
            proof {
                assert forall|k: int| 0 <= k < i + 1 implies (
                #[trigger] canonical_code_table_entries@[k]).code@ == canonical_code(self.0@, k)
                    && canonical_code_table_entries@[k].symbol == canonical_symbol(self.0@, k)
                    && canonical_code_table_entries@[k].code@.len() <= 32 by {
                    if k < i {
                        assert(canonical_code_table_entries@[k] == before[k]);
                    }
                }
            }
            i = i + 1;
        }
        proof {
            assert forall|k: int| 0 <= k < n implies #[trigger] has_symbol(
                canonical_code_table_entries@,
                self.0@[k].symbol,
            ) by {
                assert(holds_place(order@, k));
                let j = choose|j: int| 0 <= j < order@.len() && #[trigger] order@[j] == k;
                assert(holds_place(by_symbol@, j));
                let i = choose|i: int| 0 <= i < by_symbol@.len() && #[trigger] by_symbol@[i] == j;
                assert(canonical_code_table_entries@[i].symbol == self.0@[k].symbol);
            }
        }
        let canonical = CanonicalCodeTable(canonical_code_table_entries);
        proof {
            assert(canonical@ =~= canonical_view(self.0@));
        }
        canonical
    }

    /// The table of an alphabet of as many symbols as there are lengths: `RunA`,
    /// `RunB`, the numbers from one on, and the end of the block, with the lengths in
    /// this order.
    pub fn from_weights(code_lengths: &[u8]) -> (table: CodeTable)
        requires
            3 <= code_lengths@.len() <= 258,
        ensures
            table.0@ == weights_table(code_lengths@),
            table.0@.len() == code_lengths@.len(),
            forall|k: int|
                0 <= k < table.0@.len() ==> (#[trigger] table.0@[k]).code == code_lengths@[k]
                    && table.0@[k].symbol == alphabet_symbol(k, table.0@.len() as int),
    {
        let total = code_lengths.len();
        let mut table: Vec<CodeTableEntry> = Vec::new();
        let mut k: usize = 0;
        while k < total
            invariant
                k <= total,
                3 <= total <= 258,
                total == code_lengths@.len(),
                table@.len() == k,
                forall|j: int|
                    0 <= j < k ==> (#[trigger] table@[j]).code == code_lengths@[j] && table@[j].symbol
                        == alphabet_symbol(j, total as int),
            decreases total - k,
        {
            let symbol = if k == total - 1 {
                HuffmanSymbol::EoB
            } else if k == 0 {
                HuffmanSymbol::NormalSymbol(ZleSymbol::RunA)
            } else if k == 1 {
                HuffmanSymbol::NormalSymbol(ZleSymbol::RunB)
            } else {
                HuffmanSymbol::NormalSymbol(ZleSymbol::Number((k - 1) as u8))
            };
            table.push(CodeTableEntry { code: code_lengths[k] as usize, symbol });
            k = k + 1;
        }
        proof {
            assert(table@ =~= weights_table(code_lengths@));
        }
        CodeTable(table)
    }
}

/// Whether some entry of the table is for `symbol`.
pub open spec fn has_symbol(table: Seq<CanonicalCodeTableEntry>, symbol: HuffmanSymbol) -> bool {
    exists|i: int| 0 <= i < table.len() && (#[trigger] table[i]).symbol == symbol
}

/// Copies a bit string.
pub fn copy_bits(source: &Vec<Bit>) -> (copy: Vec<Bit>)
    ensures
        copy@ == source@,
{
    let mut copy: Vec<Bit> = Vec::new();
    let mut i: usize = 0;
    while i < source.len()
        invariant
            i <= source@.len(),
            copy@ == source@.take(i as int),
        decreases source@.len() - i,
    {
        copy.push(source[i]);
        i = i + 1;
        proof {
            assert(copy@ =~= source@.take(i as int));
        }
    }
    proof {
        assert(source@.take(i as int) =~= source@);
    }
    copy
}

} // verus!
