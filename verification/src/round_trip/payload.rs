use vstd::prelude::*;
use crate::bitwise::Bit;
use crate::block::block_encoder::{first_place, code_of, payload_bits};
use crate::block::block_decoder::parse_payload;
use crate::block::huffman::{CodeView, HuffmanSymbol, symbol_key, alphabet_symbol};
use crate::block::huffman::reader::{first_match, longest_code, parse_symbols, prepend_symbol, prepend_symbols, Group};
use crate::block::zle::{ZleSymbol, symbol_index};
use crate::error::DecodeError;
use crate::round_trip::codes::{is_prefix, is_prefix_code, in_alphabet_order, lemma_alphabet_keys};
use crate::round_trip::parsing::{holds_at, lemma_holds_at_concat};

verus! {

/// No entry from `from` on has the code: there is no match.
pub proof fn lemma_no_match(table: CodeView, code: Seq<Bit>, from: int)
    requires
        0 <= from,
        forall|q: int| from <= q < table.len() ==> (#[trigger] table[q]).0 != code,
    ensures
        first_match(table, code, from) is None,
    decreases table.len() - from,
{
    if from < table.len() {
        lemma_no_match(table, code, from + 1);
    }
}

/// The first entry from `from` on that has the code is the match.
pub proof fn lemma_match(table: CodeView, code: Seq<Bit>, from: int, place: int)
    requires
        0 <= from <= place < table.len(),
        table[place].0 == code,
        forall|q: int| from <= q < place ==> (#[trigger] table[q]).0 != code,
    ensures
        first_match(table, code, from) == Some(table[place].1),
    decreases place - from,
{
    if from < place {
        lemma_match(table, code, from + 1, place);
    }
}

/// No code is longer than the longest.
pub proof fn lemma_longest_code(table: CodeView, k: int, q: int)
    requires
        0 <= q < k <= table.len(),
    ensures
        table[q].0.len() <= longest_code(table, k),
    decreases k,
{
    if q < k - 1 {
        lemma_longest_code(table, k - 1, q);
    }
}

/// What reading the code of the entry at `place` gives: its symbol before what
/// follows, or the end of the block.
pub open spec fn after_code(bits: Seq<Bit>, end: int, table: CodeView, place: int, amount: nat) -> Result<
    (Group, int),
    DecodeError,
> {
    match table[place].1 {
        HuffmanSymbol::NormalSymbol(symbol) => prepend_symbol(
            symbol,
            parse_symbols(bits, end, table, Seq::empty(), (amount - 1) as nat),
        ),
        HuffmanSymbol::EoB => Ok(((Seq::empty(), true), end)),
    }
}

proof fn lemma_parse_code_from(bits: Seq<Bit>, position: int, table: CodeView, place: int, read: int, amount: nat)
    requires
        is_prefix_code(table),
        0 <= place < table.len(),
        holds_at(bits, position, table[place].0),
        0 <= read < table[place].0.len(),
        amount >= 1,
    ensures
        parse_symbols(bits, position + read, table, table[place].0.take(read), amount) == after_code(
            bits,
            position + table[place].0.len(),
            table,
            place,
            amount,
        ),
    decreases table[place].0.len() - read,
{
    let code = table[place].0;
    let now = code.take(read).push(bits[position + read]);
    assert(bits[position + read] == code[read]);
    assert(now =~= code.take(read + 1));
    lemma_longest_code(table, table.len() as int, place);
    if read + 1 < code.len() {
        assert forall|q: int| 0 <= q < table.len() implies (#[trigger] table[q]).0 != now by {
            if table[q].0 == now {
                assert(code.take(now.len() as int) == now);
                assert(is_prefix(table[q].0, table[place].0));
            }
        }
        lemma_no_match(table, now, 0);
        lemma_parse_code_from(bits, position, table, place, read + 1, amount);
    } else {
        assert(now =~= code);
        assert forall|q: int| 0 <= q < place implies (#[trigger] table[q]).0 != now by {
            if table[q].0 == now {
                assert(code.take(code.len() as int) =~= code);
                assert(is_prefix(table[q].0, table[place].0));
            }
        }
        lemma_match(table, now, 0, place);
    }
}

/// The code of an entry of a prefix code is read as the symbol of the entry.
pub proof fn lemma_parse_code(bits: Seq<Bit>, position: int, table: CodeView, place: int, amount: nat)
    requires
        is_prefix_code(table),
        0 <= place < table.len(),
        holds_at(bits, position, table[place].0),
        amount >= 1,
    ensures
        parse_symbols(bits, position, table, Seq::empty(), amount) == after_code(
            bits,
            position + table[place].0.len(),
            table,
            place,
            amount,
        ),
{
    assert(table[place].0.take(0) =~= Seq::<Bit>::empty());
    lemma_parse_code_from(bits, position, table, place, 0, amount);
}

/// The place of a symbol of the zero-run encoding in the alphabet.
pub open spec fn place_of(symbol: ZleSymbol) -> int {
    symbol_index(symbol)
}

/// Whether the symbol stands in the alphabet of `total` symbols: a run digit, or a
/// number from one on that has a place before the end of the block.
pub open spec fn is_block_symbol(symbol: ZleSymbol, total: int) -> bool {
    match symbol {
        ZleSymbol::Number(b) => 1 <= b && b + 1 < total - 1,
        _ => true,
    }
}

/// In a table in the order of the alphabet the code of a symbol is the code at its
/// place.
pub proof fn lemma_code_of(table: CodeView, total: int, place: int)
    requires
        in_alphabet_order(table, total),
        3 <= total <= 258,
        0 <= place < total,
    ensures
        first_place(table, symbol_key(alphabet_symbol(place, total)) as int, 0) == place,
        code_of(table, alphabet_symbol(place, total)) == table[place].0,
{
    lemma_first_place_is(table, total, place, 0);
}

proof fn lemma_first_place_is(table: CodeView, total: int, place: int, from: int)
    requires
        in_alphabet_order(table, total),
        3 <= total <= 258,
        0 <= from <= place < total,
    ensures
        first_place(table, symbol_key(alphabet_symbol(place, total)) as int, from) == place,
    decreases place - from,
{
    if from < place {
        lemma_alphabet_keys(total, from, place);
        lemma_first_place_is(table, total, place, from + 1);
    }
}

/// The symbol at the place of a symbol of a block is the symbol.
pub proof fn lemma_place_of(symbol: ZleSymbol, total: int)
    requires
        3 <= total <= 258,
        is_block_symbol(symbol, total),
    ensures
        0 <= place_of(symbol) < total - 1,
        alphabet_symbol(place_of(symbol), total) == HuffmanSymbol::NormalSymbol(symbol),
{
}

/// The codes of the symbols, one after the other.
pub open spec fn codes_of(table: CodeView, symbols: Seq<ZleSymbol>) -> Seq<Bit>
    decreases symbols.len(),
{
    if symbols.len() == 0 {
        Seq::empty()
    } else {
        codes_of(table, symbols.drop_last()) + code_of(table, HuffmanSymbol::NormalSymbol(symbols.last()))
    }
}

/// The codes of a list of symbols are those of its first part and those of the rest.
pub proof fn lemma_codes_of_concat(table: CodeView, a: Seq<ZleSymbol>, b: Seq<ZleSymbol>)
    ensures
        codes_of(table, a + b) == codes_of(table, a) + codes_of(table, b),
    decreases b.len(),
{
    if b.len() == 0 {
        assert(a + b =~= a);
        assert(codes_of(table, a) + codes_of(table, b) =~= codes_of(table, a));
    } else {
        lemma_codes_of_concat(table, a, b.drop_last());
        assert((a + b).drop_last() =~= a + b.drop_last());
        assert(codes_of(table, a + b) =~= codes_of(table, a) + codes_of(table, b));
    }
}

proof fn lemma_parse_codes_upto(
    bits: Seq<Bit>,
    position: int,
    table: CodeView,
    total: int,
    symbols: Seq<ZleSymbol>,
    amount: nat,
    k: int,
)
    requires
        is_prefix_code(table),
        in_alphabet_order(table, total),
        3 <= total <= 258,
        forall|i: int| 0 <= i < symbols.len() ==> is_block_symbol(#[trigger] symbols[i], total),
        holds_at(bits, position, codes_of(table, symbols)),
        0 <= k <= symbols.len() <= amount,
    ensures
        parse_symbols(bits, position, table, Seq::empty(), amount) == prepend_symbols(
            symbols.take(k),
            parse_symbols(
                bits,
                position + codes_of(table, symbols.take(k)).len(),
                table,
                Seq::empty(),
                (amount - k) as nat,
            ),
        ),
    decreases k,
{
    if k == 0 {
        assert(symbols.take(0) =~= Seq::<ZleSymbol>::empty());
        let rest = parse_symbols(bits, position, table, Seq::empty(), amount);
        match rest {
            Ok(((more, end), tail)) => {
                assert(Seq::<ZleSymbol>::empty() + more =~= more);
            },
            Err(_) => {},
        }
    } else {
        lemma_parse_codes_upto(bits, position, table, total, symbols, amount, k - 1);
        let done = symbols.take(k - 1);
        let symbol = symbols[k - 1];
        let from = position + codes_of(table, done).len();
        assert(symbols.take(k).drop_last() =~= done);
        assert(symbols.take(k) + symbols.skip(k) =~= symbols);
        lemma_codes_of_concat(table, symbols.take(k), symbols.skip(k));
        lemma_holds_at_concat(bits, position, codes_of(table, symbols.take(k)), codes_of(table, symbols.skip(k)));
        lemma_place_of(symbol, total);
        lemma_code_of(table, total, place_of(symbol));
        let code = table[place_of(symbol)].0;
        lemma_holds_at_concat(bits, position, codes_of(table, done), code);
        lemma_parse_code(bits, from, table, place_of(symbol), (amount - k + 1) as nat);
        let rest = parse_symbols(bits, from + code.len(), table, Seq::empty(), (amount - k) as nat);
        match rest {
            Ok(((more, end), tail)) => {
                assert(done + (seq![symbol] + more) =~= symbols.take(k) + more);
            },
            Err(_) => {},
        }
    }
}

/// A full group of symbols is read as it is.
pub proof fn lemma_parse_full_group(
    bits: Seq<Bit>,
    position: int,
    table: CodeView,
    total: int,
    symbols: Seq<ZleSymbol>,
)
    requires
        is_prefix_code(table),
        in_alphabet_order(table, total),
        3 <= total <= 258,
        forall|i: int| 0 <= i < symbols.len() ==> is_block_symbol(#[trigger] symbols[i], total),
        holds_at(bits, position, codes_of(table, symbols)),
        symbols.len() == 50,
    ensures
        parse_symbols(bits, position, table, Seq::empty(), 50) == Ok::<(Group, int), DecodeError>(
            ((symbols, false), position + codes_of(table, symbols).len()),
        ),
{
    lemma_parse_codes_upto(bits, position, table, total, symbols, 50, 50);
    assert(symbols.take(50) =~= symbols);
    assert(symbols + Seq::<ZleSymbol>::empty() =~= symbols);
}

/// The last group of symbols and the end of the block are read as they are.
pub proof fn lemma_parse_last_group(
    bits: Seq<Bit>,
    position: int,
    table: CodeView,
    total: int,
    symbols: Seq<ZleSymbol>,
)
    requires
        is_prefix_code(table),
        in_alphabet_order(table, total),
        3 <= total <= 258,
        forall|i: int| 0 <= i < symbols.len() ==> is_block_symbol(#[trigger] symbols[i], total),
        holds_at(bits, position, codes_of(table, symbols) + code_of(table, HuffmanSymbol::EoB)),
        symbols.len() < 50,
    ensures
        parse_symbols(bits, position, table, Seq::empty(), 50) == Ok::<(Group, int), DecodeError>(
            (
                (symbols, true),
                position + codes_of(table, symbols).len() + code_of(table, HuffmanSymbol::EoB).len(),
            ),
        ),
{
    lemma_holds_at_concat(bits, position, codes_of(table, symbols), code_of(table, HuffmanSymbol::EoB));
    let k = symbols.len() as int;
    lemma_parse_codes_upto(bits, position, table, total, symbols, 50, k);
    assert(symbols.take(k) =~= symbols);
    lemma_code_of(table, total, total - 1);
    lemma_parse_code(bits, position + codes_of(table, symbols).len(), table, total - 1, (50 - k) as nat);
    assert(symbols + Seq::<ZleSymbol>::empty() =~= symbols);
}

/// Bits that begin with a part at a place begin with it when the bits before are
/// passed over.
pub proof fn lemma_holds_at_skip(bits: Seq<Bit>, skipped: int, from: int, part: Seq<Bit>)
    requires
        0 <= skipped,
        0 <= from,
        holds_at(bits, skipped + from, part),
    ensures
        holds_at(bits.skip(skipped), from, part),
{
    assert forall|t: int| 0 <= t < part.len() implies bits.skip(skipped)[from + t] == #[trigger] part[t] by {
        assert(bits[skipped + from + t] == part[t]);
    }
}

/// Whether every table is a prefix code in the order of the alphabet of `total`
/// symbols.
pub open spec fn are_block_tables(tables: Seq<CodeView>, total: int) -> bool {
    &&& 3 <= total <= 258
    &&& forall|t: int|
        0 <= t < tables.len() ==> is_prefix_code(#[trigger] tables[t]) && in_alphabet_order(tables[t], total)
}

/// The bits of the symbols up to a place in the group `g` are those of the groups
/// before and the codes of the symbols of the group.
pub proof fn lemma_payload_group(tables: Seq<CodeView>, selectors: Seq<u8>, symbols: Seq<ZleSymbol>, g: int, k: int)
    requires
        0 <= g,
        50 * g <= k <= 50 * g + 50,
        k <= symbols.len(),
    ensures
        payload_bits(tables, selectors, symbols, k) == payload_bits(tables, selectors, symbols, 50 * g)
            + codes_of(tables[selectors[g] as int], symbols.subrange(50 * g, k)),
    decreases k - 50 * g,
{
    let table = tables[selectors[g] as int];
    if k == 50 * g {
        assert(symbols.subrange(50 * g, k) =~= Seq::<ZleSymbol>::empty());
        assert(payload_bits(tables, selectors, symbols, k) + Seq::<Bit>::empty() =~= payload_bits(
            tables,
            selectors,
            symbols,
            k,
        ));
    } else {
        lemma_payload_group(tables, selectors, symbols, g, k - 1);
        assert((k - 1) / 50 == g);
        let part = symbols.subrange(50 * g, k);
        assert(part.drop_last() =~= symbols.subrange(50 * g, k - 1));
        assert(part.last() == symbols[k - 1]);
        assert(payload_bits(tables, selectors, symbols, k) =~= payload_bits(
            tables,
            selectors,
            symbols,
            50 * g,
        ) + codes_of(table, part));
    }
}

/// The bits of the symbols of a block and of its end.
pub open spec fn payload_and_end(tables: Seq<CodeView>, selectors: Seq<u8>, symbols: Seq<ZleSymbol>) -> Seq<Bit> {
    payload_bits(tables, selectors, symbols, symbols.len() as int) + code_of(
        tables[selectors[symbols.len() as int / 50] as int],
        HuffmanSymbol::EoB,
    )
}

proof fn lemma_parse_payload_from(
    bits: Seq<Bit>,
    base: int,
    tables: Seq<CodeView>,
    total: int,
    selectors: Seq<u8>,
    symbols: Seq<ZleSymbol>,
    g: int,
)
    requires
        are_block_tables(tables, total),
        forall|i: int| 0 <= i < symbols.len() ==> is_block_symbol(#[trigger] symbols[i], total),
        forall|s: int| 0 <= s < selectors.len() ==> (#[trigger] selectors[s] as int) < tables.len(),
        symbols.len() / 50 < selectors.len(),
        0 <= base,
        holds_at(bits, base, payload_and_end(tables, selectors, symbols)),
        0 <= g <= symbols.len() / 50,
    ensures
        parse_payload(
            bits.skip(base + payload_bits(tables, selectors, symbols, 50 * g).len()),
            tables,
            selectors,
            g,
        ) == Ok::<(Seq<ZleSymbol>, int), DecodeError>(
            (
                symbols.skip(50 * g),
                payload_and_end(tables, selectors, symbols).len() - payload_bits(
                    tables,
                    selectors,
                    symbols,
                    50 * g,
                ).len(),
            ),
        ),
    decreases symbols.len() / 50 - g,
{
    let n = symbols.len() as int;
    let last = n / 50;
    let table = tables[selectors[g] as int];
    let before = payload_bits(tables, selectors, symbols, 50 * g);
    let here = bits.skip(base + before.len());
    let end = code_of(tables[selectors[last] as int], HuffmanSymbol::EoB);
    let whole = payload_and_end(tables, selectors, symbols);
    assert(is_prefix_code(table) && in_alphabet_order(table, total));
    if g == last {
        let part = symbols.subrange(50 * g, n);
        lemma_payload_group(tables, selectors, symbols, g, n);
        assert(whole =~= before + (codes_of(table, part) + end));
        lemma_holds_at_concat(bits, base, before, codes_of(table, part) + end);
        lemma_holds_at_skip(bits, base + before.len(), 0, codes_of(table, part) + end);
        assert forall|i: int| 0 <= i < part.len() implies is_block_symbol(#[trigger] part[i], total) by {
            assert(part[i] == symbols[50 * g + i]);
        }
        lemma_parse_last_group(here, 0, table, total, part);
        assert(part =~= symbols.skip(50 * g));
    } else {
        let part = symbols.subrange(50 * g, 50 * g + 50);
        let next = payload_bits(tables, selectors, symbols, 50 * (g + 1));
        lemma_payload_group(tables, selectors, symbols, g, 50 * g + 50);
        assert(next == before + codes_of(table, part));
        lemma_parse_payload_from(bits, base, tables, total, selectors, symbols, g + 1);
        // the bits of the groups up to this one are the beginning of all bits
        lemma_payload_prefix(tables, selectors, symbols, 50 * (g + 1));
        let tail = payload_tail(tables, selectors, symbols, 50 * (g + 1));
        assert(whole =~= before + (codes_of(table, part) + (tail + end)));
        lemma_holds_at_concat(bits, base, before, codes_of(table, part) + (tail + end));
        lemma_holds_at_concat(bits, base + before.len(), codes_of(table, part), tail + end);
        lemma_holds_at_skip(bits, base + before.len(), 0, codes_of(table, part));
        assert forall|i: int| 0 <= i < part.len() implies is_block_symbol(#[trigger] part[i], total) by {
            assert(part[i] == symbols[50 * g + i]);
        }
        lemma_parse_full_group(here, 0, table, total, part);
        let p = codes_of(table, part).len() as int;
        assert(here.skip(p) =~= bits.skip(base + next.len()));
        assert(part + symbols.skip(50 * (g + 1)) =~= symbols.skip(50 * g));
    }
}

/// The bits of the symbols from the place `k` on.
pub open spec fn payload_tail(tables: Seq<CodeView>, selectors: Seq<u8>, symbols: Seq<ZleSymbol>, k: int) -> Seq<
    Bit,
>
    decreases symbols.len() - k,
{
    if k >= symbols.len() || k < 0 {
        Seq::empty()
    } else {
        code_of(tables[selectors[k / 50] as int], HuffmanSymbol::NormalSymbol(symbols[k])) + payload_tail(
            tables,
            selectors,
            symbols,
            k + 1,
        )
    }
}

/// The bits of the symbols are those up to a place and those from the place on.
pub proof fn lemma_payload_prefix(tables: Seq<CodeView>, selectors: Seq<u8>, symbols: Seq<ZleSymbol>, k: int)
    requires
        0 <= k <= symbols.len(),
    ensures
        payload_bits(tables, selectors, symbols, symbols.len() as int) == payload_bits(
            tables,
            selectors,
            symbols,
            k,
        ) + payload_tail(tables, selectors, symbols, k),
    decreases symbols.len() - k,
{
    let n = symbols.len() as int;
    if k == n {
        assert(payload_bits(tables, selectors, symbols, n) + Seq::<Bit>::empty() =~= payload_bits(
            tables,
            selectors,
            symbols,
            n,
        ));
    } else {
        lemma_payload_prefix(tables, selectors, symbols, k + 1);
        let code = code_of(tables[selectors[k / 50] as int], HuffmanSymbol::NormalSymbol(symbols[k]));
        assert(payload_bits(tables, selectors, symbols, k + 1) == payload_bits(tables, selectors, symbols, k)
            + code);
        assert(payload_bits(tables, selectors, symbols, k) + (code + payload_tail(
            tables,
            selectors,
            symbols,
            k + 1,
        )) =~= (payload_bits(tables, selectors, symbols, k) + code) + payload_tail(
            tables,
            selectors,
            symbols,
            k + 1,
        ));
    }
}

/// The symbols of a block that are written with the codes of its tables, and the end
/// of the block behind them, are read as they are.
pub proof fn lemma_parse_payload(
    bits: Seq<Bit>,
    tables: Seq<CodeView>,
    total: int,
    selectors: Seq<u8>,
    symbols: Seq<ZleSymbol>,
)
    requires
        are_block_tables(tables, total),
        forall|i: int| 0 <= i < symbols.len() ==> is_block_symbol(#[trigger] symbols[i], total),
        forall|s: int| 0 <= s < selectors.len() ==> (#[trigger] selectors[s] as int) < tables.len(),
        symbols.len() / 50 < selectors.len(),
        holds_at(bits, 0, payload_and_end(tables, selectors, symbols)),
    ensures
        parse_payload(bits, tables, selectors, 0) == Ok::<(Seq<ZleSymbol>, int), DecodeError>(
            (symbols, payload_and_end(tables, selectors, symbols).len() as int),
        ),
{
    lemma_parse_payload_from(bits, 0, tables, total, selectors, symbols, 0);
    assert(bits.skip(0) =~= bits);
    assert(symbols.skip(0) =~= symbols);
}

} // verus!
