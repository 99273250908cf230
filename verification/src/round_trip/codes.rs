use vstd::prelude::*;
use vstd::arithmetic::power2::*;
use vstd::arithmetic::mul::*;
use crate::bitwise::{Bit, bits_to_nat, bit_length, nat_to_bits, zero_bits, lemma_bits_to_nat_zeros, lemma_nat_to_bits_value, lemma_bit_length_bound};
use crate::bitwise::bitwriter::max_nat;
use crate::block::sorting::{sorted_places, is_sorted_places, holds_place, place_before, lemma_insert_by_key, lemma_insert_keeps_sorted};
use crate::block::huffman::{kraft_units, code_at, CodeTableEntry, CodeView, HuffmanSymbol, symbol_key, alphabet_symbol, length_key, length_keys, by_length, table_lengths, symbol_keys, canonical_place, canonical_view, weights_table, is_complete_code, lists_symbol};
use crate::block::huffman::{huffman_table, huffman_lengths, with_end_of_block, lemma_balanced_spec};
use crate::block::code_table::canonical_lengths;

verus! {

/// Where a place is put into a sorted order: behind the last place whose key is not
/// larger.
pub open spec fn insertion_slot(order: Seq<usize>, keys: Seq<usize>, x: usize) -> int
    decreases order.len(),
{
    if order.len() == 0 {
        0
    } else if keys[order.last() as int] <= keys[x as int] {
        order.len() as int
    } else {
        insertion_slot(order.drop_last(), keys, x)
    }
}

proof fn lemma_insertion_slot(order: Seq<usize>, keys: Seq<usize>, x: usize)
    ensures
        0 <= insertion_slot(order, keys, x) <= order.len(),
        insertion_slot(order, keys, x) > 0 ==> keys[order[insertion_slot(order, keys, x) - 1] as int]
            <= keys[x as int],
        forall|r: int|
            insertion_slot(order, keys, x) <= r < order.len() ==> keys[#[trigger] order[r] as int] > keys[x as int],
    decreases order.len(),
{
    if order.len() > 0 && keys[order.last() as int] > keys[x as int] {
        lemma_insertion_slot(order.drop_last(), keys, x);
        let slot = insertion_slot(order.drop_last(), keys, x);
        assert forall|r: int| slot <= r < order.len() implies keys[#[trigger] order[r] as int] > keys[x as int] by {
            if r < order.len() - 1 {
                assert(order.drop_last()[r] == order[r]);
            }
        }
        if slot > 0 {
            assert(order.drop_last()[slot - 1] == order[slot - 1]);
        }
    }
}

/// The sorted places of the first `k` keys are these places, each once, in the
/// order of their keys; places with equal keys are in their own order. The order of
/// one more key is that of the keys before with the new place inserted.
pub proof fn lemma_sorted_places(keys: Seq<usize>, k: int)
    requires
        0 <= k <= keys.len(),
        k <= usize::MAX,
    ensures
        is_sorted_places(keys, sorted_places(keys, k), k),
        k > 0 ==> sorted_places(keys, k) == sorted_places(keys, k - 1).insert(
            insertion_slot(sorted_places(keys, k - 1), keys, (k - 1) as usize),
            (k - 1) as usize,
        ),
    decreases k,
{
    if k > 0 {
        lemma_sorted_places(keys, k - 1);
        let before = sorted_places(keys, k - 1);
        let x = (k - 1) as usize;
        lemma_insertion_slot(before, keys, x);
        let slot = insertion_slot(before, keys, x);
        lemma_insert_by_key(before, keys, x, slot);
        lemma_insert_keeps_sorted(before, keys, k - 1, slot);
    }
}

/// No place stands twice in a sorted order.
pub proof fn lemma_sorted_places_distinct(keys: Seq<usize>, order: Seq<usize>, k: int, a: int, b: int)
    requires
        is_sorted_places(keys, order, k),
        0 <= a < order.len(),
        0 <= b < order.len(),
        a != b,
    ensures
        order[a] != order[b],
{
    if a < b {
        assert(place_before(keys, order[a], order[b]));
    } else {
        assert(place_before(keys, order[b], order[a]));
    }
}

/// The value of a bit string with zeros behind it.
pub proof fn lemma_bits_to_nat_trailing_zeros(bits: Seq<Bit>, k: nat)
    ensures
        bits_to_nat(bits + zero_bits(k)) == bits_to_nat(bits) * pow2(k),
    decreases k,
{
    if k == 0 {
        assert(bits + zero_bits(0) =~= bits);
        lemma2_to64();
        assert(bits_to_nat(bits) * 1 == bits_to_nat(bits)) by (nonlinear_arith);
    } else {
        lemma_bits_to_nat_trailing_zeros(bits, (k - 1) as nat);
        let longer = bits + zero_bits(k);
        assert(longer.drop_last() =~= bits + zero_bits((k - 1) as nat));
        assert(longer.last() == Bit::Zero);
        lemma_pow2_unfold(k);
        assert(2 * (bits_to_nat(bits) * pow2((k - 1) as nat)) == bits_to_nat(bits) * (2 * pow2(
            (k - 1) as nat,
        ))) by (nonlinear_arith);
    }
}

/// A bit string that begins with another denotes a number in the range that the
/// other leaves open.
pub proof fn lemma_prefix_value(a: Seq<Bit>, b: Seq<Bit>)
    requires
        a.len() <= b.len(),
        b.take(a.len() as int) == a,
    ensures
        bits_to_nat(a) * pow2((b.len() - a.len()) as nat) <= bits_to_nat(b) < (bits_to_nat(a) + 1) * pow2(
            (b.len() - a.len()) as nat,
        ),
    decreases b.len() - a.len(),
{
    if a.len() == b.len() {
        assert(b.take(a.len() as int) =~= b);
        lemma2_to64();
        assert(bits_to_nat(a) * 1 == bits_to_nat(a)) by (nonlinear_arith);
        assert((bits_to_nat(a) + 1) * 1 == bits_to_nat(a) + 1) by (nonlinear_arith);
    } else {
        let shorter = b.drop_last();
        assert(shorter.take(a.len() as int) =~= a);
        lemma_prefix_value(a, shorter);
        let d = (b.len() - a.len()) as nat;
        lemma_pow2_unfold(d);
        let p = pow2((d - 1) as nat);
        let va = bits_to_nat(a);
        let vs = bits_to_nat(shorter);
        assert(va * (2 * p) == 2 * (va * p)) by (nonlinear_arith);
        assert((va + 1) * (2 * p) == 2 * ((va + 1) * p)) by (nonlinear_arith);
    }
}

/// The share of the code space that the first `j` codes take.
pub open spec fn units_before(lengths: Seq<usize>, limit: nat, j: int) -> nat {
    kraft_units(lengths.take(j), limit)
}

/// Whether the lengths are in ascending order.
pub open spec fn ascending(lengths: Seq<usize>) -> bool {
    forall|a: int, b: int| 0 <= a <= b < lengths.len() ==> lengths[a] <= lengths[b]
}

proof fn lemma_units_step(lengths: Seq<usize>, limit: nat, j: int)
    requires
        0 <= j < lengths.len(),
    ensures
        units_before(lengths, limit, j + 1) == units_before(lengths, limit, j) + pow2(
            (limit - lengths[j]) as nat,
        ),
{
    assert(lengths.take(j + 1).drop_last() =~= lengths.take(j));
}

proof fn lemma_units_grow(lengths: Seq<usize>, limit: nat, a: int, b: int)
    requires
        0 <= a <= b <= lengths.len(),
    ensures
        units_before(lengths, limit, a) <= units_before(lengths, limit, b),
    decreases b - a,
{
    if a < b {
        lemma_units_grow(lengths, limit, a, b - 1);
        lemma_units_step(lengths, limit, b - 1);
    }
}

/// The codes of a complete code in ascending order of length: every code has its
/// length, and denotes the share of the code space that the codes before it take,
/// in units of its own length.
pub proof fn lemma_code_at(lengths: Seq<usize>, limit: nat, j: int)
    requires
        ascending(lengths),
        forall|i: int| 0 <= i < lengths.len() ==> 1 <= #[trigger] lengths[i] <= limit,
        kraft_units(lengths, limit) == pow2(limit),
        0 <= j < lengths.len(),
        limit <= 32,
    ensures
        code_at(lengths, j).len() == lengths[j],
        bits_to_nat(code_at(lengths, j)) * pow2((limit - lengths[j]) as nat) == units_before(lengths, limit, j),
    decreases j,
{
    if j == 0 {
        lemma_bits_to_nat_zeros(lengths[0] as nat);
        assert(lengths.take(0) =~= Seq::<usize>::empty());
        assert(0 * pow2((limit - lengths[0]) as nat) == 0) by (nonlinear_arith);
    } else {
        lemma_code_at(lengths, limit, j - 1);
        let previous = code_at(lengths, j - 1);
        let before = lengths[j - 1] as nat;
        let length = lengths[j] as nat;
        let v = bits_to_nat(previous);
        let unit = pow2((limit - before) as nat);
        lemma_units_step(lengths, limit, j - 1);
        lemma_units_step(lengths, limit, j);
        lemma_units_grow(lengths, limit, j + 1, lengths.len() as int);
        assert(lengths.take(lengths.len() as int) =~= lengths);
        lemma_pow2_pos((limit - length) as nat);
        lemma_pow2_pos((limit - before) as nat);
        // the code before is not the last: its successor fits into its length
        assert((v + 1) * unit == v * unit + unit) by (nonlinear_arith);
        assert((v + 1) * unit < pow2(limit));
        lemma_pow2_adds(before, (limit - before) as nat);
        assert(v + 1 < pow2(before)) by (nonlinear_arith)
            requires
                (v + 1) * unit < pow2(before) * unit,
                unit > 0,
        ;
        lemma_bit_length_bound(v + 1, before);
        lemma_nat_to_bits_value(v + 1, before);
        let width = max_nat(previous.len(), bit_length(v + 1));
        assert(width == before);
        if length > width {
            lemma_bits_to_nat_trailing_zeros(nat_to_bits(v + 1, width), (length - width) as nat);
            lemma_pow2_adds((length - width) as nat, (limit - length) as nat);
            assert((v + 1) * pow2((length - width) as nat) * pow2((limit - length) as nat) == (v + 1) * (
            pow2((length - width) as nat) * pow2((limit - length) as nat))) by (nonlinear_arith);
        }
    }
}

/// Whether `a` is the beginning of `b`.
pub open spec fn is_prefix(a: Seq<Bit>, b: Seq<Bit>) -> bool {
    a.len() <= b.len() && b.take(a.len() as int) == a
}

/// In a complete code in ascending order of length no code begins with another.
pub proof fn lemma_code_at_prefix_free(lengths: Seq<usize>, limit: nat, i: int, j: int)
    requires
        ascending(lengths),
        forall|i: int| 0 <= i < lengths.len() ==> 1 <= #[trigger] lengths[i] <= limit,
        kraft_units(lengths, limit) == pow2(limit),
        0 <= i < lengths.len(),
        0 <= j < lengths.len(),
        i != j,
        limit <= 32,
    ensures
        !is_prefix(code_at(lengths, i), code_at(lengths, j)),
{
    lemma_code_at(lengths, limit, i);
    lemma_code_at(lengths, limit, j);
    let a = code_at(lengths, i);
    let b = code_at(lengths, j);
    if is_prefix(a, b) {
        lemma_prefix_value(a, b);
        let la = lengths[i] as nat;
        let lb = lengths[j] as nat;
        let va = bits_to_nat(a);
        let vb = bits_to_nat(b);
        let gap = pow2((lb - la) as nat);
        let unit = pow2((limit - lb) as nat);
        lemma_pow2_adds((lb - la) as nat, (limit - lb) as nat);
        lemma_pow2_pos((limit - lb) as nat);
        assert(va * gap * unit == va * (gap * unit)) by (nonlinear_arith);
        assert((va + 1) * gap * unit == va * (gap * unit) + gap * unit) by (nonlinear_arith);
        assert(va * gap * unit <= vb * unit) by (nonlinear_arith)
            requires
                va * gap <= vb,
                unit > 0,
        ;
        assert(vb * unit < (va + 1) * gap * unit) by (nonlinear_arith)
            requires
                vb < (va + 1) * gap,
                unit > 0,
        ;
        lemma_units_step(lengths, limit, i);
        lemma_units_step(lengths, limit, j);
        lemma_pow2_pos((limit - la) as nat);
        if i < j {
            lemma_units_grow(lengths, limit, i + 1, j);
        } else {
            lemma_units_grow(lengths, limit, j + 1, i);
        }
    }
}

/// Whether the numbers are in strictly ascending order.
pub open spec fn strictly_ascending(a: Seq<usize>) -> bool {
    forall|i: int, j: int| 0 <= i < j < a.len() ==> a[i] < a[j]
}

/// Two strictly ascending lists of the same numbers are the same list.
pub proof fn lemma_ascending_unique(a: Seq<usize>, b: Seq<usize>)
    requires
        strictly_ascending(a),
        strictly_ascending(b),
        forall|x: usize| a.contains(x) <==> b.contains(x),
    ensures
        a == b,
    decreases a.len(),
{
    if a.len() == 0 {
        if b.len() > 0 {
            assert(b.contains(b[0]));
            assert(a.contains(b[0]));
        }
        assert(a =~= b);
    } else {
        let top = a.last();
        assert(a.contains(top));
        assert(b.contains(top));
        let at = choose|at: int| 0 <= at < b.len() && b[at] == top;
        let other = b.last();
        assert(b.contains(other));
        assert(a.contains(other));
        let back = choose|back: int| 0 <= back < a.len() && a[back] == other;
        assert(other == top) by {
            if at < b.len() - 1 {
                assert(b[at] < b[b.len() - 1]);
            }
            if back < a.len() - 1 {
                assert(a[back] < a[a.len() - 1]);
            }
        }
        let a1 = a.drop_last();
        let b1 = b.drop_last();
        assert forall|x: usize| a1.contains(x) <==> b1.contains(x) by {
            if a1.contains(x) {
                let i = choose|i: int| 0 <= i < a1.len() && a1[i] == x;
                assert(a[i] == x);
                assert(a[i] < a[a.len() - 1]);
                assert(a.contains(x));
                assert(b.contains(x));
                let j = choose|j: int| 0 <= j < b.len() && b[j] == x;
                assert(j < b.len() - 1);
                assert(b1[j] == x);
            }
            if b1.contains(x) {
                let j = choose|j: int| 0 <= j < b1.len() && b1[j] == x;
                assert(b[j] == x);
                assert(b[j] < b[b.len() - 1]);
                assert(b.contains(x));
                assert(a.contains(x));
                let i = choose|i: int| 0 <= i < a.len() && a[i] == x;
                assert(i < a.len() - 1);
                assert(a1[i] == x);
            }
        }
        assert(strictly_ascending(a1)) by {
            assert forall|i: int, j: int| 0 <= i < j < a1.len() implies a1[i] < a1[j] by {
                assert(a[i] < a[j]);
            }
        }
        assert(strictly_ascending(b1)) by {
            assert forall|i: int, j: int| 0 <= i < j < b1.len() implies b1[i] < b1[j] by {
                assert(b[i] < b[j]);
            }
        }
        lemma_ascending_unique(a1, b1);
        assert(a =~= a1.push(top));
        assert(b =~= b1.push(other));
    }
}

/// One more length adds its share to the code space, wherever it stands.
pub proof fn lemma_kraft_insert(lengths: Seq<usize>, slot: int, length: usize, limit: nat)
    requires
        0 <= slot <= lengths.len(),
    ensures
        kraft_units(lengths.insert(slot, length), limit) == kraft_units(lengths, limit) + pow2(
            (limit - length) as nat,
        ),
    decreases lengths.len(),
{
    let longer = lengths.insert(slot, length);
    if slot == lengths.len() {
        assert(longer =~= lengths.push(length));
        assert(longer.drop_last() =~= lengths);
    } else {
        lemma_kraft_insert(lengths.drop_last(), slot, length, limit);
        assert(longer.drop_last() =~= lengths.drop_last().insert(slot, length));
        assert(longer.last() == lengths.last());
    }
}

/// The values at the first `k` places in their sorted order.
pub open spec fn sorted_values(values: Seq<usize>, keys: Seq<usize>, k: int) -> Seq<usize> {
    Seq::new(k as nat, |j: int| values[sorted_places(keys, k)[j] as int])
}

/// Sorting the lengths of a code leaves the share of the code space that it takes.
pub proof fn lemma_kraft_sorted(lengths: Seq<usize>, keys: Seq<usize>, limit: nat, k: int)
    requires
        0 <= k <= lengths.len(),
        lengths.len() == keys.len(),
        k <= usize::MAX,
    ensures
        kraft_units(sorted_values(lengths, keys, k), limit) == kraft_units(lengths.take(k), limit),
    decreases k,
{
    if k == 0 {
        assert(sorted_values(lengths, keys, 0) =~= Seq::<usize>::empty());
        assert(lengths.take(0) =~= Seq::<usize>::empty());
    } else {
        lemma_kraft_sorted(lengths, keys, limit, k - 1);
        lemma_sorted_places(keys, k);
        lemma_sorted_places(keys, k - 1);
        let before = sorted_places(keys, k - 1);
        let slot = insertion_slot(before, keys, (k - 1) as usize);
        lemma_insertion_slot(before, keys, (k - 1) as usize);
        assert(sorted_values(lengths, keys, k) =~= sorted_values(lengths, keys, k - 1).insert(
            slot,
            lengths[k - 1],
        ));
        lemma_kraft_insert(sorted_values(lengths, keys, k - 1), slot, lengths[k - 1], limit);
        assert(lengths.take(k).drop_last() =~= lengths.take(k - 1));
    }
}

/// Whether the table lists every symbol of the alphabet of `total` symbols once,
/// with the lengths of a complete prefix code.
pub open spec fn is_alphabet_table(table: Seq<CodeTableEntry>, total: int) -> bool {
    &&& table.len() == total
    &&& 3 <= total <= 258
    &&& is_complete_code(table_lengths(table), 17)
    &&& forall|k: int| 0 <= k < table.len() ==> #[trigger] in_alphabet(table[k].symbol, total)
    &&& forall|place: int| 0 <= place < total ==> #[trigger] lists_symbol(table, alphabet_symbol(place, total))
    &&& forall|a: int, b: int|
        0 <= a < table.len() && 0 <= b < table.len() && a != b ==> (#[trigger] table[a]).symbol != (
        #[trigger] table[b]).symbol
}

/// Whether the symbol belongs to the alphabet of `total` symbols.
pub open spec fn in_alphabet(symbol: HuffmanSymbol, total: int) -> bool {
    exists|place: int| 0 <= place < total && symbol == #[trigger] alphabet_symbol(place, total)
}

/// The keys of the symbols of an alphabet ascend with their places.
pub proof fn lemma_alphabet_keys(total: int, a: int, b: int)
    requires
        3 <= total <= 258,
        0 <= a < b < total,
    ensures
        symbol_key(alphabet_symbol(a, total)) < symbol_key(alphabet_symbol(b, total)),
        symbol_key(alphabet_symbol(b, total)) <= 258,
{
}

/// Symbols with one key are one symbol.
pub proof fn lemma_symbol_key_injective(a: HuffmanSymbol, b: HuffmanSymbol)
    requires
        symbol_key(a) == symbol_key(b),
    ensures
        a == b,
{
}

/// Entries with one key are one entry.
pub proof fn lemma_length_key_injective(a: CodeTableEntry, b: CodeTableEntry)
    requires
        a.code <= 20,
        b.code <= 20,
        length_key(a) == length_key(b),
    ensures
        a == b,
{
    assert(symbol_key(a.symbol) <= 258);
    assert(symbol_key(b.symbol) <= 258);
    lemma_symbol_key_injective(a.symbol, b.symbol);
}

/// The keys of the entries of a table in the order of their lengths.
pub open spec fn sorted_keys(table: Seq<CodeTableEntry>) -> Seq<usize> {
    Seq::new(table.len(), |j: int| length_key(by_length(table)[j]))
}

/// The entries of a table in the order of their lengths: the same entries, in
/// strictly ascending order of their keys and in ascending order of their lengths,
/// and with the same share of the code space.
pub proof fn lemma_by_length(table: Seq<CodeTableEntry>, total: int)
    requires
        is_alphabet_table(table, total),
    ensures
        by_length(table).len() == total,
        strictly_ascending(sorted_keys(table)),
        ascending(table_lengths(by_length(table))),
        is_complete_code(table_lengths(by_length(table)), 17),
        forall|j: int| 0 <= j < total ==> table.contains(#[trigger] by_length(table)[j]),
        forall|k: int| 0 <= k < total ==> by_length(table).contains(#[trigger] table[k]),
        forall|a: int, b: int|
            0 <= a < total && 0 <= b < total && a != b ==> (#[trigger] by_length(table)[a]).symbol != (
            #[trigger] by_length(table)[b]).symbol,
{
    let keys = length_keys(table);
    let order = sorted_places(keys, total);
    let sorted = by_length(table);
    lemma_sorted_places(keys, total);
    assert forall|k: int| 0 <= k < total implies 1 <= (#[trigger] table[k]).code <= 17 by {
        assert(table_lengths(table)[k] == table[k].code);
    }
    assert forall|a: int, b: int| 0 <= a < b < total implies sorted_keys(table)[a] < sorted_keys(table)[b]
        && sorted[a].code <= sorted[b].code && sorted[a].symbol != sorted[b].symbol by {
        assert(place_before(keys, order[a], order[b]));
        lemma_sorted_places_distinct(keys, order, total, a, b);
        let x = table[order[a] as int];
        let y = table[order[b] as int];
        assert(x.symbol != y.symbol);
        assert(symbol_key(x.symbol) <= 258 && symbol_key(y.symbol) <= 258);
        if symbol_key(x.symbol) == symbol_key(y.symbol) {
            lemma_symbol_key_injective(x.symbol, y.symbol);
        }
        assert(keys[order[a] as int] == length_key(x));
        assert(keys[order[b] as int] == length_key(y));
    }
    assert forall|a: int, b: int| 0 <= a <= b < total implies table_lengths(sorted)[a] <= table_lengths(
        sorted,
    )[b] by {
        if a < b {
            assert(sorted[a].code <= sorted[b].code);
        }
    }
    assert forall|a: int, b: int| 0 <= a < total && 0 <= b < total && a != b implies (
    #[trigger] sorted[a]).symbol != (#[trigger] sorted[b]).symbol by {
        if a < b {
            assert(sorted[a].symbol != sorted[b].symbol);
        } else {
            assert(sorted[b].symbol != sorted[a].symbol);
        }
    }
    assert forall|j: int| 0 <= j < total implies table.contains(#[trigger] sorted[j]) by {
        assert(table[order[j] as int] == sorted[j]);
    }
    assert forall|k: int| 0 <= k < total implies sorted.contains(#[trigger] table[k]) by {
        assert(holds_place(order, k));
        let j = choose|j: int| 0 <= j < order.len() && #[trigger] order[j] == k;
        assert(sorted[j] == table[k]);
    }
    lemma_kraft_sorted(table_lengths(table), keys, 17, total);
    assert(sorted_values(table_lengths(table), keys, total) =~= table_lengths(sorted));
    assert(table_lengths(table).take(total) =~= table_lengths(table));
    assert forall|j: int| 0 <= j < total implies 1 <= #[trigger] table_lengths(sorted)[j] <= 17 by {
        assert(table[order[j] as int] == sorted[j]);
    }
}

/// Tables that list the same entries have the same canonical code.
pub proof fn lemma_canonical_view_of_same_entries(first: Seq<CodeTableEntry>, second: Seq<CodeTableEntry>, total: int)
    requires
        is_alphabet_table(first, total),
        is_alphabet_table(second, total),
        forall|k: int| 0 <= k < total ==> second.contains(#[trigger] first[k]),
        forall|k: int| 0 <= k < total ==> first.contains(#[trigger] second[k]),
    ensures
        by_length(first) == by_length(second),
        canonical_view(first) == canonical_view(second),
{
    lemma_by_length(first, total);
    lemma_by_length(second, total);
    let a = sorted_keys(first);
    let b = sorted_keys(second);
    assert forall|x: usize| a.contains(x) implies b.contains(x) by {
        let j = choose|j: int| 0 <= j < a.len() && a[j] == x;
        let entry = by_length(first)[j];
        assert(first.contains(entry));
        let k = choose|k: int| 0 <= k < first.len() && first[k] == entry;
        assert(second.contains(first[k]));
        let k2 = choose|k2: int| 0 <= k2 < second.len() && second[k2] == entry;
        assert(by_length(second).contains(second[k2]));
        let j2 = choose|j2: int| 0 <= j2 < by_length(second).len() && by_length(second)[j2] == entry;
        assert(b[j2] == x);
    }
    assert forall|x: usize| b.contains(x) implies a.contains(x) by {
        let j = choose|j: int| 0 <= j < b.len() && b[j] == x;
        let entry = by_length(second)[j];
        assert(second.contains(entry));
        let k = choose|k: int| 0 <= k < second.len() && second[k] == entry;
        assert(first.contains(second[k]));
        let k2 = choose|k2: int| 0 <= k2 < first.len() && first[k2] == entry;
        assert(by_length(first).contains(first[k2]));
        let j2 = choose|j2: int| 0 <= j2 < by_length(first).len() && by_length(first)[j2] == entry;
        assert(a[j2] == x);
    }
    lemma_ascending_unique(a, b);
    assert forall|j: int| 0 <= j < total implies by_length(first)[j] == by_length(second)[j] by {
        assert(a[j] == b[j]);
        let x = by_length(first)[j];
        let y = by_length(second)[j];
        assert(first.contains(x));
        assert(second.contains(y));
        let kx = choose|k: int| 0 <= k < first.len() && first[k] == x;
        let ky = choose|k: int| 0 <= k < second.len() && second[k] == y;
        assert(table_lengths(first)[kx] == first[kx].code);
        assert(table_lengths(second)[ky] == second[ky].code);
        lemma_length_key_injective(x, y);
    }
    assert(by_length(first) =~= by_length(second));
    assert(canonical_view(first) =~= canonical_view(second));
}

/// Whether no code of the table begins with the code of another entry, and every
/// code has between 1 and 17 bits.
pub open spec fn is_prefix_code(table: CodeView) -> bool {
    &&& forall|i: int| 0 <= i < table.len() ==> 1 <= (#[trigger] table[i]).0.len() <= 17
    &&& forall|i: int, j: int|
        0 <= i < table.len() && 0 <= j < table.len() && i != j ==> !is_prefix(
            (#[trigger] table[i]).0,
            (#[trigger] table[j]).0,
        )
}

/// Whether the table holds the symbols of the alphabet of `total` symbols in their
/// order.
pub open spec fn in_alphabet_order(table: CodeView, total: int) -> bool {
    &&& table.len() == total
    &&& forall|i: int| 0 <= i < total ==> (#[trigger] table[i]).1 == alphabet_symbol(i, total)
}

/// The canonical code of a table that lists every symbol of an alphabet once, with
/// the lengths of a complete prefix code: the symbols stand in the order of the
/// alphabet, no code begins with another, and the canonical code of the lengths of
/// the codes is the same code again.
pub proof fn lemma_canonical_view(table: Seq<CodeTableEntry>, total: int)
    requires
        is_alphabet_table(table, total),
    ensures
        in_alphabet_order(canonical_view(table), total),
        is_prefix_code(canonical_view(table)),
        canonical_view(weights_table(canonical_lengths(canonical_view(table)))) == canonical_view(table),
{
    lemma_by_length(table, total);
    let sorted = by_length(table);
    let lengths = table_lengths(sorted);
    let keys = symbol_keys(sorted);
    let order = sorted_places(keys, total);
    let view = canonical_view(table);
    lemma_sorted_places(keys, total);
    assert forall|i: int| 0 <= i < total implies canonical_place(table, i) == order[i] && 0 <= order[i]
        < total && view[i].0 == code_at(lengths, order[i] as int) && view[i].1 == sorted[order[i] as int].symbol
        && view[i].0.len() == sorted[order[i] as int].code && 1 <= view[i].0.len() <= 17 by {
        lemma_code_at(lengths, 17, order[i] as int);
        assert(lengths[order[i] as int] == sorted[order[i] as int].code);
    }
    // the symbols of the code stand in the order of the alphabet
    let mine = Seq::new(total as nat, |i: int| symbol_key(view[i].1));
    let theirs = Seq::new(total as nat, |i: int| symbol_key(alphabet_symbol(i, total)));
    assert(strictly_ascending(mine)) by {
        assert forall|i: int, j: int| 0 <= i < j < mine.len() implies mine[i] < mine[j] by {
            assert(place_before(keys, order[i], order[j]));
            lemma_sorted_places_distinct(keys, order, total, i, j);
            let x = sorted[order[i] as int].symbol;
            let y = sorted[order[j] as int].symbol;
            assert(x != y);
            if symbol_key(x) == symbol_key(y) {
                lemma_symbol_key_injective(x, y);
            }
            assert(keys[order[i] as int] == symbol_key(x));
            assert(keys[order[j] as int] == symbol_key(y));
        }
    }
    assert(strictly_ascending(theirs)) by {
        assert forall|i: int, j: int| 0 <= i < j < theirs.len() implies theirs[i] < theirs[j] by {
            lemma_alphabet_keys(total, i, j);
        }
    }
    assert forall|x: usize| mine.contains(x) implies theirs.contains(x) by {
        let i = choose|i: int| 0 <= i < mine.len() && mine[i] == x;
        let entry = sorted[order[i] as int];
        assert(table.contains(entry));
        let k = choose|k: int| 0 <= k < table.len() && table[k] == entry;
        assert(in_alphabet(table[k].symbol, total));
        let place = choose|place: int|
            0 <= place < total && table[k].symbol == #[trigger] alphabet_symbol(place, total);
        assert(theirs[place] == x);
    }
    assert forall|x: usize| theirs.contains(x) implies mine.contains(x) by {
        let place = choose|place: int| 0 <= place < theirs.len() && theirs[place] == x;
        assert(lists_symbol(table, alphabet_symbol(place, total)));
        let k = choose|k: int|
            0 <= k < table.len() && (#[trigger] table[k]).symbol == alphabet_symbol(place, total);
        assert(sorted.contains(table[k]));
        let j = choose|j: int| 0 <= j < sorted.len() && sorted[j] == table[k];
        assert(holds_place(order, j));
        let i = choose|i: int| 0 <= i < order.len() && #[trigger] order[i] == j;
        assert(mine[i] == x);
    }
    lemma_ascending_unique(mine, theirs);
    assert forall|i: int| 0 <= i < total implies (#[trigger] view[i]).1 == alphabet_symbol(i, total) by {
        assert(mine[i] == theirs[i]);
        lemma_symbol_key_injective(view[i].1, alphabet_symbol(i, total));
    }
    // no code begins with another
    assert forall|i: int, j: int| 0 <= i < total && 0 <= j < total && i != j implies !is_prefix(
        (#[trigger] view[i]).0,
        (#[trigger] view[j]).0,
    ) by {
        lemma_sorted_places_distinct(keys, order, total, i, j);
        lemma_code_at_prefix_free(lengths, 17, order[i] as int, order[j] as int);
    }
    // the table of the lengths in the order of the alphabet lists the same entries
    let again = weights_table(canonical_lengths(view));
    assert forall|i: int| 0 <= i < total implies #[trigger] again[i] == sorted[order[i] as int] by {
        assert(canonical_lengths(view)[i] == view[i].0.len() as u8);
    }
    assert(table_lengths(again) =~= sorted_values(lengths, keys, total));
    lemma_kraft_sorted(lengths, keys, 17, total);
    assert(lengths.take(total) =~= lengths);
    assert forall|k: int| 0 <= k < total implies table.contains(#[trigger] again[k]) by {
        assert(table.contains(sorted[order[k] as int]));
    }
    assert forall|k: int| 0 <= k < total implies again.contains(#[trigger] table[k]) by {
        assert(sorted.contains(table[k]));
        let j = choose|j: int| 0 <= j < sorted.len() && sorted[j] == table[k];
        assert(holds_place(order, j));
        let i = choose|i: int| 0 <= i < order.len() && #[trigger] order[i] == j;
        assert(again[i] == table[k]);
    }
    assert(is_alphabet_table(again, total)) by {
        assert forall|k: int| 0 <= k < again.len() implies #[trigger] in_alphabet(again[k].symbol, total) by {
            assert(again[k].symbol == alphabet_symbol(k, total));
        }
        assert forall|place: int| 0 <= place < total implies #[trigger] lists_symbol(
            again,
            alphabet_symbol(place, total),
        ) by {
            assert(again[place].symbol == alphabet_symbol(place, total));
        }
        assert forall|a: int, b: int|
            0 <= a < again.len() && 0 <= b < again.len() && a != b implies (#[trigger] again[a]).symbol != (
        #[trigger] again[b]).symbol by {
            if a < b {
                lemma_alphabet_keys(total, a, b);
            } else {
                lemma_alphabet_keys(total, b, a);
            }
        }
        assert forall|i: int| 0 <= i < again.len() implies 1 <= #[trigger] table_lengths(again)[i] <= 17 by {
            assert(again[i] == sorted[order[i] as int]);
        }
    }
    lemma_canonical_view_of_same_entries(again, table, total);
}

/// There is a raised weight for every symbol.
pub proof fn lemma_raised_weights_len(counts: Seq<usize>, order: Seq<usize>, k: int)
    requires
        0 <= k,
    ensures
        crate::block::huffman::raised_weights(counts, order, k).len() == k,
    decreases k,
{
    if k > 0 {
        lemma_raised_weights_len(counts, order, k - 1);
    }
}

/// The table of code lengths for a frequency table lists every symbol of the
/// alphabet once, with the lengths of a complete prefix code.
pub proof fn lemma_huffman_table(frequencies: Seq<usize>)
    requires
        2 <= frequencies.len() <= 257,
    ensures
        is_alphabet_table(huffman_table(frequencies), frequencies.len() as int + 1),
{
    let total = frequencies.len() as int + 1;
    let counts = with_end_of_block(frequencies);
    let order = sorted_places(counts, total);
    let table = huffman_table(frequencies);
    lemma_sorted_places(counts, total);
    lemma_balanced_spec(total);
    lemma_raised_weights_len(counts, order, total);
    assert(huffman_lengths(frequencies).len() == total);
    assert(table_lengths(table) =~= huffman_lengths(frequencies));
    assert forall|k: int| 0 <= k < table.len() implies #[trigger] in_alphabet(table[k].symbol, total) by {
        assert(table[k].symbol == alphabet_symbol(order[k] as int, total));
    }
    assert forall|place: int| 0 <= place < total implies #[trigger] lists_symbol(
        table,
        alphabet_symbol(place, total),
    ) by {
        assert(holds_place(order, place));
        let k = choose|k: int| 0 <= k < order.len() && #[trigger] order[k] == place;
        assert(table[k].symbol == alphabet_symbol(place, total));
    }
    assert forall|a: int, b: int|
        0 <= a < table.len() && 0 <= b < table.len() && a != b implies (#[trigger] table[a]).symbol != (
    #[trigger] table[b]).symbol by {
        lemma_sorted_places_distinct(counts, order, total, a, b);
        if order[a] < order[b] {
            lemma_alphabet_keys(total, order[a] as int, order[b] as int);
        } else {
            lemma_alphabet_keys(total, order[b] as int, order[a] as int);
        }
    }
}

} // verus!
