use vstd::prelude::*;
use vstd::arithmetic::power2::*;
use crate::bitwise::{Bit, nat_to_bits, lemma_nat_to_bits_value, lemma_bit_length_bound};
use crate::block::code_table::{parse_lengths, parse_delta, prepend_length, prepend_lengths, bit_lengths_bits, delta_bits, delta_symbol_bits, MIN_LENGTH, MAX_LENGTH};
use crate::block::delta::{DeltaSymbol, delta_steps, deltas_of};
use crate::block::selectors::{parse_unary, unary, unary_bits};
use crate::error::DecodeError;
use crate::block::symbol_map::{region_used, region_bits, detail_bits, details_below, symbol_table_bits, ones_below, symbols_below, parse_symbol_table, lemma_ones_below};

verus! {

/// Whether the bits from `from` on begin with `part`.
pub open spec fn holds_at(bits: Seq<Bit>, from: int, part: Seq<Bit>) -> bool {
    &&& 0 <= from
    &&& from + part.len() <= bits.len()
    &&& forall|t: int| 0 <= t < part.len() ==> bits[from + t] == #[trigger] part[t]
}

/// Bits begin with two parts if they begin with the first, and go on with the
/// second.
pub proof fn lemma_holds_at_concat(bits: Seq<Bit>, from: int, first: Seq<Bit>, second: Seq<Bit>)
    ensures
        holds_at(bits, from, first + second) <==> holds_at(bits, from, first) && holds_at(
            bits,
            from + first.len(),
            second,
        ),
{
    let whole = first + second;
    if holds_at(bits, from, whole) {
        assert forall|t: int| 0 <= t < first.len() implies bits[from + t] == #[trigger] first[t] by {
            assert(whole[t] == first[t]);
        }
        assert forall|t: int| 0 <= t < second.len() implies bits[from + first.len() + t]
            == #[trigger] second[t] by {
            assert(whole[first.len() + t] == second[t]);
        }
    }
    if holds_at(bits, from, first) && holds_at(bits, from + first.len(), second) {
        assert forall|t: int| 0 <= t < whole.len() implies bits[from + t] == #[trigger] whole[t] by {
            if t < first.len() {
                assert(first[t] == whole[t]);
            } else {
                assert(second[t - first.len()] == whole[t]);
            }
        }
    }
}

/// The numbers of a list in unary are those of its first part and those of the rest.
pub proof fn lemma_unary_bits_concat(a: Seq<u8>, b: Seq<u8>)
    ensures
        unary_bits(a + b) == unary_bits(a) + unary_bits(b),
    decreases b.len(),
{
    if b.len() == 0 {
        assert(a + b =~= a);
        assert(unary_bits(a) + unary_bits(b) =~= unary_bits(a));
    } else {
        lemma_unary_bits_concat(a, b.drop_last());
        assert((a + b).drop_last() =~= a + b.drop_last());
        assert(unary_bits(a + b) =~= unary_bits(a) + unary_bits(b));
    }
}

proof fn lemma_parse_ones(bits: Seq<Bit>, position: int, current: int, ones: int, amount: nat)
    requires
        0 <= position,
        0 <= current,
        0 <= ones,
        current + ones <= 255,
        amount >= 1,
        position + ones < bits.len(),
        forall|t: int| 0 <= t < ones ==> #[trigger] bits[position + t] == Bit::One,
        bits[position + ones] == Bit::Zero,
    ensures
        parse_unary(bits, position, current, amount) == prepend_length(
            (current + ones) as u8,
            parse_unary(bits, position + ones + 1, 0, (amount - 1) as nat),
        ),
    decreases ones,
{
    if ones > 0 {
        assert(bits[position + 0] == Bit::One);
        assert forall|t: int| 0 <= t < ones - 1 implies #[trigger] bits[position + 1 + t] == Bit::One by {
            assert(bits[position + (t + 1)] == Bit::One);
        }
        lemma_parse_ones(bits, position + 1, current + 1, ones - 1, amount);
    }
}

proof fn lemma_parse_unary_upto(bits: Seq<Bit>, values: Seq<u8>, k: int)
    requires
        holds_at(bits, 0, unary_bits(values)),
        0 <= k <= values.len(),
    ensures
        parse_unary(bits, 0, 0, values.len()) == prepend_lengths(
            values.take(k),
            parse_unary(bits, unary_bits(values.take(k)).len() as int, 0, (values.len() - k) as nat),
        ),
    decreases k,
{
    if k == 0 {
        assert(values.take(0) =~= Seq::<u8>::empty());
        let rest = parse_unary(bits, 0, 0, values.len());
        match rest {
            Ok((more, end)) => {
                assert(Seq::<u8>::empty() + more =~= more);
            },
            Err(_) => {},
        }
    } else {
        lemma_parse_unary_upto(bits, values, k - 1);
        let done = values.take(k - 1);
        let value = values[k - 1];
        let from = unary_bits(done).len() as int;
        assert(values.take(k).drop_last() =~= done);
        assert(values.take(k) + values.skip(k) =~= values);
        lemma_unary_bits_concat(values.take(k), values.skip(k));
        lemma_holds_at_concat(bits, 0, unary_bits(values.take(k)), unary_bits(values.skip(k)));
        lemma_holds_at_concat(bits, 0, unary_bits(done), unary(value));
        assert forall|t: int| 0 <= t < value implies #[trigger] bits[from + t] == Bit::One by {
            assert(unary(value)[t] == Bit::One);
        }
        assert(unary(value)[value as int] == Bit::Zero);
        lemma_parse_ones(bits, from, 0, value as int, (values.len() - k + 1) as nat);
        let rest = parse_unary(bits, from + value + 1, 0, (values.len() - k) as nat);
        match rest {
            Ok((more, end)) => {
                assert(done + (seq![value] + more) =~= values.take(k) + more);
            },
            Err(_) => {},
        }
    }
}

/// Numbers that are written in unary are read as they are.
pub proof fn lemma_parse_unary(bits: Seq<Bit>, values: Seq<u8>)
    requires
        holds_at(bits, 0, unary_bits(values)),
    ensures
        parse_unary(bits, 0, 0, values.len()) == Ok::<(Seq<u8>, int), DecodeError>(
            (values, unary_bits(values).len() as int),
        ),
{
    lemma_parse_unary_upto(bits, values, values.len() as int);
    assert(values.take(values.len() as int) =~= values);
    assert(values + Seq::<u8>::empty() =~= values);
}

/// The bits of a list of steps are those of its first part and those of the rest.
pub proof fn lemma_delta_bits_concat(a: Seq<DeltaSymbol>, b: Seq<DeltaSymbol>)
    ensures
        delta_bits(a + b) == delta_bits(a) + delta_bits(b),
    decreases b.len(),
{
    if b.len() == 0 {
        assert(a + b =~= a);
        assert(delta_bits(a) + delta_bits(b) =~= delta_bits(a));
    } else {
        lemma_delta_bits_concat(a, b.drop_last());
        assert((a + b).drop_last() =~= a + b.drop_last());
        assert(delta_bits(a + b) =~= delta_bits(a) + delta_bits(b));
    }
}

/// The bits of one step.
pub proof fn lemma_delta_bits_one(symbol: DeltaSymbol)
    ensures
        delta_bits(seq![symbol]) == delta_symbol_bits(symbol),
{
    let one = seq![symbol];
    assert(one.drop_last() =~= Seq::<DeltaSymbol>::empty());
    assert(one.last() == symbol);
    assert(delta_bits(one.drop_last()) =~= Seq::<Bit>::empty());
    assert(delta_bits(one) == delta_bits(one.drop_last()) + delta_symbol_bits(symbol));
    assert(delta_bits(one) =~= delta_symbol_bits(symbol));
}

/// The steps from a length to another and the stop behind them.
pub open spec fn steps_and_stop(from: u8, to: u8) -> Seq<DeltaSymbol> {
    delta_steps(from, to).push(DeltaSymbol::Stop)
}

proof fn lemma_parse_steps(bits: Seq<Bit>, position: int, current: u8, target: u8, amount: nat)
    requires
        MIN_LENGTH <= current <= MAX_LENGTH,
        MIN_LENGTH <= target <= MAX_LENGTH,
        amount >= 1,
        holds_at(bits, position, delta_bits(steps_and_stop(current, target))),
    ensures
        parse_lengths(bits, position, current as int, amount) == prepend_length(
            target,
            parse_lengths(
                bits,
                position + delta_bits(steps_and_stop(current, target)).len(),
                target as int,
                (amount - 1) as nat,
            ),
        ),
    decreases
            (if current < target {
                target - current
            } else {
                current - target
            }),
{
    let all = steps_and_stop(current, target);
    if current == target {
        assert(all =~= seq![DeltaSymbol::Stop]);
        lemma_delta_bits_one(DeltaSymbol::Stop);
        assert(delta_bits(all)[0] == Bit::Zero);
        assert(bits[position + 0] == Bit::Zero);
    } else {
        let step = if current < target {
            DeltaSymbol::Increase
        } else {
            DeltaSymbol::Decrease
        };
        let next: u8 = if current < target {
            (current + 1) as u8
        } else {
            (current - 1) as u8
        };
        assert(all =~= seq![step] + steps_and_stop(next, target));
        lemma_delta_bits_concat(seq![step], steps_and_stop(next, target));
        lemma_delta_bits_one(step);
        lemma_holds_at_concat(bits, position, delta_symbol_bits(step), delta_bits(steps_and_stop(next, target)));
        assert(delta_symbol_bits(step)[0] == Bit::One);
        assert(bits[position + 0] == Bit::One);
        assert(bits[position + 1] == delta_symbol_bits(step)[1]);
        lemma_parse_steps(bits, position + 2, next, target, amount);
    }
}

proof fn lemma_deltas_prefix(bits: Seq<Bit>, from: int, lengths: Seq<u8>, k: int)
    requires
        1 <= k <= lengths.len(),
        holds_at(bits, from, delta_bits(deltas_of(lengths))),
    ensures
        holds_at(bits, from, delta_bits(deltas_of(lengths.take(k)))),
        k < lengths.len() ==> holds_at(
            bits,
            from + delta_bits(deltas_of(lengths.take(k))).len(),
            delta_bits(steps_and_stop(lengths[k - 1], lengths[k])),
        ) && delta_bits(deltas_of(lengths.take(k + 1))).len() == delta_bits(deltas_of(lengths.take(k))).len()
            + delta_bits(steps_and_stop(lengths[k - 1], lengths[k])).len(),
    decreases lengths.len() - k,
{
    if k == lengths.len() {
        assert(lengths.take(k) =~= lengths);
    } else {
        lemma_deltas_prefix(bits, from, lengths, k + 1);
        let longer = lengths.take(k + 1);
        assert(longer.drop_last() =~= lengths.take(k));
        assert(longer[longer.len() - 2] == lengths[k - 1]);
        assert(longer.last() == lengths[k]);
        assert(deltas_of(longer) == deltas_of(lengths.take(k)) + steps_and_stop(lengths[k - 1], lengths[k]));
        lemma_delta_bits_concat(deltas_of(lengths.take(k)), steps_and_stop(lengths[k - 1], lengths[k]));
        lemma_holds_at_concat(
            bits,
            from,
            delta_bits(deltas_of(lengths.take(k))),
            delta_bits(steps_and_stop(lengths[k - 1], lengths[k])),
        );
    }
}

proof fn lemma_parse_lengths_upto(bits: Seq<Bit>, lengths: Seq<u8>, k: int)
    requires
        1 <= k <= lengths.len(),
        forall|i: int| 0 <= i < lengths.len() ==> MIN_LENGTH <= #[trigger] lengths[i] <= MAX_LENGTH,
        holds_at(bits, 5, delta_bits(deltas_of(lengths))),
    ensures
        parse_lengths(bits, 5, lengths[0] as int, lengths.len()) == prepend_lengths(
            lengths.take(k),
            parse_lengths(
                bits,
                5 + delta_bits(deltas_of(lengths.take(k))).len() as int,
                lengths[k - 1] as int,
                (lengths.len() - k) as nat,
            ),
        ),
    decreases k,
{
    if k == 1 {
        lemma_deltas_prefix(bits, 5, lengths, 1);
        assert(lengths.take(1).len() == 1);
        assert(deltas_of(lengths.take(1)) =~= seq![DeltaSymbol::Stop]);
        lemma_delta_bits_one(DeltaSymbol::Stop);
        assert(delta_bits(deltas_of(lengths.take(1)))[0] == Bit::Zero);
        assert(bits[5int + 0] == Bit::Zero);
        let rest = parse_lengths(bits, 6, lengths[0] as int, (lengths.len() - 1) as nat);
        match rest {
            Ok((more, end)) => {
                assert(seq![lengths[0]] + more =~= lengths.take(1) + more);
            },
            Err(_) => {},
        }
    } else {
        lemma_parse_lengths_upto(bits, lengths, k - 1);
        lemma_deltas_prefix(bits, 5, lengths, k - 1);
        let from = 5 + delta_bits(deltas_of(lengths.take(k - 1))).len() as int;
        lemma_parse_steps(bits, from, lengths[k - 2], lengths[k - 1], (lengths.len() - k + 1) as nat);
        let rest = parse_lengths(
            bits,
            5 + delta_bits(deltas_of(lengths.take(k))).len() as int,
            lengths[k - 1] as int,
            (lengths.len() - k) as nat,
        );
        match rest {
            Ok((more, end)) => {
                assert(lengths.take(k - 1) + (seq![lengths[k - 1]] + more) =~= lengths.take(k) + more);
            },
            Err(_) => {},
        }
    }
}

/// Code lengths between 1 and 17 that are written as steps are read as they are.
pub proof fn lemma_parse_delta(bits: Seq<Bit>, lengths: Seq<u8>)
    requires
        lengths.len() >= 1,
        forall|i: int| 0 <= i < lengths.len() ==> MIN_LENGTH <= #[trigger] lengths[i] <= MAX_LENGTH,
        holds_at(bits, 0, bit_lengths_bits(lengths)),
    ensures
        parse_delta(bits, lengths.len()) == Ok::<(Seq<u8>, int), DecodeError>(
            (lengths, bit_lengths_bits(lengths).len() as int),
        ),
{
    lemma2_to64();
    lemma_bit_length_bound(lengths[0] as nat, 5);
    lemma_nat_to_bits_value(lengths[0] as nat, 5);
    let start = nat_to_bits(lengths[0] as nat, 5);
    lemma_holds_at_concat(bits, 0, start, delta_bits(deltas_of(lengths)));
    assert(bits.take(5) =~= start);
    lemma_parse_lengths_upto(bits, lengths, lengths.len() as int);
    assert(lengths.take(lengths.len() as int) =~= lengths);
    assert(lengths + Seq::<u8>::empty() =~= lengths);
}

/// Whether the bytes are in strictly ascending order.
pub open spec fn bytes_ascending(a: Seq<u8>) -> bool {
    forall|i: int, j: int| 0 <= i < j < a.len() ==> a[i] < a[j]
}

/// Two strictly ascending lists of the same bytes are the same list.
pub proof fn lemma_bytes_ascending_unique(a: Seq<u8>, b: Seq<u8>)
    requires
        bytes_ascending(a),
        bytes_ascending(b),
        forall|x: u8| a.contains(x) <==> b.contains(x),
    ensures
        a == b,
    decreases a.len(),
{
    if a.len() == 0 {
        if b.len() > 0 {
            assert(b.contains(b[0]));
            assert(a.contains(b[0]));
        }
        assert(a =~= b);
    } else {
        let top = a.last();
        assert(a.contains(top));
        assert(b.contains(top));
        let at = choose|at: int| 0 <= at < b.len() && b[at] == top;
        let other = b.last();
        assert(b.contains(other));
        assert(a.contains(other));
        let back = choose|back: int| 0 <= back < a.len() && a[back] == other;
        assert(other == top) by {
            if at < b.len() - 1 {
                assert(b[at] < b[b.len() - 1]);
            }
            if back < a.len() - 1 {
                assert(a[back] < a[a.len() - 1]);
            }
        }
        let a1 = a.drop_last();
        let b1 = b.drop_last();
        assert forall|x: u8| a1.contains(x) <==> b1.contains(x) by {
            if a1.contains(x) {
                let i = choose|i: int| 0 <= i < a1.len() && a1[i] == x;
                assert(a[i] == x);
                assert(a[i] < a[a.len() - 1]);
                assert(a.contains(x));
                assert(b.contains(x));
                let j = choose|j: int| 0 <= j < b.len() && b[j] == x;
                assert(j < b.len() - 1);
                assert(b1[j] == x);
            }
            if b1.contains(x) {
                let j = choose|j: int| 0 <= j < b1.len() && b1[j] == x;
                assert(b[j] == x);
                assert(b[j] < b[b.len() - 1]);
                assert(b.contains(x));
                assert(a.contains(x));
                let i = choose|i: int| 0 <= i < a.len() && a[i] == x;
                assert(i < a.len() - 1);
                assert(a1[i] == x);
            }
        }
        assert(bytes_ascending(a1)) by {
            assert forall|i: int, j: int| 0 <= i < j < a1.len() implies a1[i] < a1[j] by {
                assert(a[i] < a[j]);
            }
        }
        assert(bytes_ascending(b1)) by {
            assert forall|i: int, j: int| 0 <= i < j < b1.len() implies b1[i] < b1[j] by {
                assert(b[i] < b[j]);
            }
        }
        lemma_bytes_ascending_unique(a1, b1);
        assert(a =~= a1.push(top));
        assert(b =~= b1.push(other));
    }
}

/// The places of the ones are the places below `k` at which a one stands, in
/// ascending order.
pub proof fn lemma_ones_below_places(input: Seq<Bit>, k: int)
    requires
        0 <= k <= input.len(),
        k <= 256,
    ensures
        bytes_ascending(ones_below(input, k)),
        forall|r: u8| #[trigger] ones_below(input, k).contains(r) <==> (r < k && input[r as int] == Bit::One),
    decreases k,
{
    if k > 0 {
        lemma_ones_below_places(input, k - 1);
        lemma_ones_below(input, k - 1);
        let before = ones_below(input, k - 1);
        let now = ones_below(input, k);
        let top = (k - 1) as u8;
        if input[k - 1] == Bit::One {
            assert(now == before.push(top));
            assert forall|r: u8| #[trigger] now.contains(r) <==> (r < k && input[r as int] == Bit::One) by {
                if now.contains(r) {
                    let i = choose|i: int| 0 <= i < now.len() && now[i] == r;
                    if i < before.len() {
                        assert(before[i] == r);
                        assert(before.contains(r));
                    }
                }
                if r < k && input[r as int] == Bit::One {
                    if r < k - 1 {
                        assert(before.contains(r));
                        let i = choose|i: int| 0 <= i < before.len() && before[i] == r;
                        assert(now[i] == r);
                    } else {
                        assert(now[now.len() - 1] == r);
                    }
                }
            }
            assert forall|i: int, j: int| 0 <= i < j < now.len() implies now[i] < now[j] by {
                assert(before[i] == now[i]);
                if j == before.len() {
                    assert(before.contains(before[i]));
                } else {
                    assert(before[j] == now[j]);
                }
            }
        } else {
            assert(now == before);
            assert forall|r: u8| #[trigger] now.contains(r) <==> (r < k && input[r as int] == Bit::One) by {
                if r < k && input[r as int] == Bit::One {
                    assert(r != top);
                }
            }
        }
    }
}

/// The bits of the bytes of the given regions, in order.
pub open spec fn details_for(table: Seq<u8>, regions: Seq<u8>) -> Seq<Bit>
    decreases regions.len(),
{
    if regions.len() == 0 {
        Seq::empty()
    } else {
        details_for(table, regions.drop_last()) + detail_bits(table, regions.last() as int)
    }
}

/// The bits of the details are the bits of the bytes of the regions in use.
pub proof fn lemma_details_below(table: Seq<u8>, region: int)
    requires
        0 <= region <= 16,
    ensures
        details_below(table, region) == details_for(table, ones_below(region_bits(table), region)),
        details_below(table, region).len() == 16 * ones_below(region_bits(table), region).len(),
    decreases region,
{
    if region > 0 {
        lemma_details_below(table, region - 1);
        let before = ones_below(region_bits(table), region - 1);
        if region_used(table, region - 1) {
            assert(before.push((region - 1) as u8).drop_last() =~= before);
        }
    }
}

/// The bit of a byte among the bits of the bytes of the given regions.
pub proof fn lemma_details_for_index(table: Seq<u8>, regions: Seq<u8>, i: int, j: int)
    requires
        0 <= i < regions.len(),
        0 <= j < 16,
    ensures
        details_for(table, regions).len() == 16 * regions.len(),
        details_for(table, regions)[16 * i + j] == detail_bits(table, regions[i] as int)[j],
    decreases regions.len(),
{
    lemma_details_for_len(table, regions);
    lemma_details_for_len(table, regions.drop_last());
    if i < regions.len() - 1 {
        lemma_details_for_index(table, regions.drop_last(), i, j);
    }
}

proof fn lemma_details_for_len(table: Seq<u8>, regions: Seq<u8>)
    ensures
        details_for(table, regions).len() == 16 * regions.len(),
    decreases regions.len(),
{
    if regions.len() > 0 {
        lemma_details_for_len(table, regions.drop_last());
    }
}

/// The byte that the bit at `position` of the details stands for.
pub open spec fn byte_at(regions: Seq<u8>, position: int) -> int {
    regions[position / 16] * 16 + position % 16
}

/// The bytes that the first `k` bits of the details mark are the bytes of the table
/// that these bits stand for, in ascending order.
pub proof fn lemma_symbols_below(table: Seq<u8>, regions: Seq<u8>, k: int)
    requires
        bytes_ascending(regions),
        forall|i: int| 0 <= i < regions.len() ==> #[trigger] regions[i] < 16,
        0 <= k <= 16 * regions.len(),
    ensures
        bytes_ascending(symbols_below(regions, details_for(table, regions), k)),
        forall|b: u8| #[trigger]
            symbols_below(regions, details_for(table, regions), k).contains(b) <==> (table.contains(b)
                && exists|position: int| 0 <= position < k && #[trigger] byte_at(regions, position) == b),
    decreases k,
{
    let details = details_for(table, regions);
    if k > 0 {
        lemma_symbols_below(table, regions, k - 1);
        let before = symbols_below(regions, details, k - 1);
        let now = symbols_below(regions, details, k);
        let i = (k - 1) / 16;
        let j = (k - 1) % 16;
        lemma_details_for_index(table, regions, i, j);
        let byte = (regions[i] * 16 + j) as u8;
        assert(byte_at(regions, k - 1) == byte);
        assert forall|position: int| 0 <= position < k - 1 implies byte_at(regions, position) < byte by {
            let pi = position / 16;
            if pi < i {
                assert(regions[pi] < regions[i]);
            }
        }
        if details[k - 1] == Bit::One {
            assert(now == before.push(byte));
            assert(table.contains(byte));
            assert forall|b: u8| #[trigger] now.contains(b) <==> (table.contains(b) && exists|position: int|
                0 <= position < k && #[trigger] byte_at(regions, position) == b) by {
                if now.contains(b) {
                    let at = choose|at: int| 0 <= at < now.len() && now[at] == b;
                    if at < before.len() {
                        assert(before[at] == b);
                        assert(before.contains(b));
                        let position = choose|position: int|
                            0 <= position < k - 1 && #[trigger] byte_at(regions, position) == b;
                        assert(0 <= position < k && byte_at(regions, position) == b);
                    } else {
                        assert(byte_at(regions, k - 1) == b);
                    }
                }
                if table.contains(b) && exists|position: int|
                    0 <= position < k && #[trigger] byte_at(regions, position) == b {
                    let position = choose|position: int|
                        0 <= position < k && #[trigger] byte_at(regions, position) == b;
                    if position < k - 1 {
                        assert(before.contains(b));
                        let at = choose|at: int| 0 <= at < before.len() && before[at] == b;
                        assert(now[at] == b);
                    } else {
                        assert(now[now.len() - 1] == b);
                    }
                }
            }
            assert forall|x: int, y: int| 0 <= x < y < now.len() implies now[x] < now[y] by {
                assert(before[x] == now[x]);
                if y == before.len() {
                    assert(before.contains(before[x]));
                    let position = choose|position: int|
                        0 <= position < k - 1 && #[trigger] byte_at(regions, position) == before[x];
                } else {
                    assert(before[y] == now[y]);
                }
            }
        } else {
            assert(now == before);
            assert(!table.contains(byte));
            assert forall|b: u8| #[trigger] now.contains(b) <==> (table.contains(b) && exists|position: int|
                0 <= position < k && #[trigger] byte_at(regions, position) == b) by {
                if now.contains(b) {
                    let position = choose|position: int|
                        0 <= position < k - 1 && #[trigger] byte_at(regions, position) == b;
                    assert(0 <= position < k && byte_at(regions, position) == b);
                }
                if table.contains(b) && exists|position: int|
                    0 <= position < k && #[trigger] byte_at(regions, position) == b {
                    let position = choose|position: int|
                        0 <= position < k && #[trigger] byte_at(regions, position) == b;
                    assert(position < k - 1);
                }
            }
        }
    }
}

/// The bytes in use, in ascending order, that are written as a map of regions and
/// bytes are read as they are.
pub proof fn lemma_parse_symbol_table(bits: Seq<Bit>, table: Seq<u8>)
    requires
        bytes_ascending(table),
        holds_at(bits, 0, symbol_table_bits(table)),
    ensures
        parse_symbol_table(bits) == Ok::<(Seq<u8>, int), DecodeError>(
            (table, symbol_table_bits(table).len() as int),
        ),
{
    let flags = region_bits(table);
    let regions = ones_below(flags, 16);
    lemma_ones_below_places(flags, 16);
    lemma_ones_below(flags, 16);
    lemma_details_below(table, 16);
    let details = details_for(table, regions);
    let need = 16 * regions.len() as int;
    lemma_holds_at_concat(bits, 0, flags, details);
    assert(bits.take(16) =~= flags);
    assert(bits.subrange(16, 16 + need) =~= details);
    lemma_symbols_below(table, regions, need);
    let read = symbols_below(regions, details, need);
    assert forall|b: u8| read.contains(b) <==> table.contains(b) by {
        if table.contains(b) {
            let region = (b / 16) as u8;
            let j = (b % 16) as int;
            assert(table.contains((16 * region + j) as u8));
            assert(region_used(table, region as int));
            assert(flags[region as int] == Bit::One);
            assert(regions.contains(region));
            let i = choose|i: int| 0 <= i < regions.len() && regions[i] == region;
            assert(byte_at(regions, 16 * i + j) == b);
        }
    }
    lemma_bytes_ascending_unique(read, table);
}

} // verus!
