use vstd::prelude::*;
use vstd::arithmetic::power2::*;

verus! {

/// A symbol of the zero-run encoding: one of the two digits that write the length
/// of a run of zeros, or a byte other than zero.
#[derive(PartialEq, Eq, Clone, Copy, Debug, Hash, Structural)]
pub enum ZleSymbol {
    RunA,
    RunB,
    Number(u8),
}

/// The symbols are ordered as they stand in the alphabet: `RunA`, `RunB`, then the
/// bytes by their value.
impl PartialOrd for ZleSymbol {
    fn partial_cmp(&self, other: &Self) -> (order: Option<std::cmp::Ordering>) {
        match (*self, *other) {
            (ZleSymbol::RunA, ZleSymbol::RunA) => Some(std::cmp::Ordering::Equal),
            (ZleSymbol::RunA, _) => Some(std::cmp::Ordering::Less),
            (ZleSymbol::RunB, ZleSymbol::RunA) => Some(std::cmp::Ordering::Greater),
            (ZleSymbol::RunB, ZleSymbol::RunB) => Some(std::cmp::Ordering::Equal),
            (ZleSymbol::RunB, ZleSymbol::Number(_)) => Some(std::cmp::Ordering::Less),
            (ZleSymbol::Number(this_number), ZleSymbol::Number(other_number)) => if this_number < other_number {
                Some(std::cmp::Ordering::Less)
            } else if this_number == other_number {
                Some(std::cmp::Ordering::Equal)
            } else {
                Some(std::cmp::Ordering::Greater)
            },
            (ZleSymbol::Number(_), _) => Some(std::cmp::Ordering::Greater),
        }
    }
}

impl vstd::std_specs::cmp::PartialOrdSpecImpl for ZleSymbol {
    open spec fn obeys_partial_cmp_spec() -> bool {
        true
    }

    open spec fn partial_cmp_spec(&self, other: &Self) -> Option<std::cmp::Ordering> {
        match (*self, *other) {
            (ZleSymbol::RunA, ZleSymbol::RunA) => Some(std::cmp::Ordering::Equal),
            (ZleSymbol::RunA, _) => Some(std::cmp::Ordering::Less),
            (ZleSymbol::RunB, ZleSymbol::RunA) => Some(std::cmp::Ordering::Greater),
            (ZleSymbol::RunB, ZleSymbol::RunB) => Some(std::cmp::Ordering::Equal),
            (ZleSymbol::RunB, ZleSymbol::Number(_)) => Some(std::cmp::Ordering::Less),
            (ZleSymbol::Number(this_number), ZleSymbol::Number(other_number)) => if this_number < other_number {
                Some(std::cmp::Ordering::Less)
            } else if this_number == other_number {
                Some(std::cmp::Ordering::Equal)
            } else {
                Some(std::cmp::Ordering::Greater)
            },
            (ZleSymbol::Number(_), _) => Some(std::cmp::Ordering::Greater),
        }
    }
}

/// The digit that a remainder stands for.
pub open spec fn remainder_symbol(remainder: nat) -> ZleSymbol {
    if remainder == 0 {
        ZleSymbol::RunA
    } else {
        ZleSymbol::RunB
    }
}

/// The binary digits of `num`, least significant first, without the leading one.
pub open spec fn digits_of(num: nat) -> Seq<ZleSymbol>
    decreases num,
{
    if num <= 1 {
        Seq::empty()
    } else {
        seq![remainder_symbol(num % 2)] + digits_of(num / 2)
    }
}

/// How a run of `number_of_zeros` zeros is written.
pub open spec fn zero_run(number_of_zeros: nat) -> Seq<ZleSymbol> {
    digits_of(number_of_zeros + 1)
}

/// What a digit counts for: `RunA` one, `RunB` two.
pub open spec fn digit_weight(symbol: ZleSymbol) -> nat {
    match symbol {
        ZleSymbol::RunB => 2,
        _ => 1,
    }
}

/// The number of zeros that a run of digits stands for: the sum of the digits, each
/// weighted by two to the power of its place.
pub open spec fn zeros_of(run: Seq<ZleSymbol>) -> nat
    decreases run.len(),
{
    if run.len() == 0 {
        0
    } else {
        zeros_of(run.drop_last()) + digit_weight(run.last()) * pow2((run.len() - 1) as nat)
    }
}

/// The encoder's state after all of `input`: what has been written, and the number
/// of zeros in the run that is still open.
pub open spec fn zle_state(input: Seq<u8>) -> (Seq<ZleSymbol>, nat)
    decreases input.len(),
{
    if input.len() == 0 {
        (Seq::empty(), 0)
    } else {
        let before = zle_state(input.drop_last());
        if input.last() == 0 {
            (before.0, before.1 + 1)
        } else {
            ((before.0 + zero_run(before.1)).push(ZleSymbol::Number(input.last())), 0)
        }
    }
}

/// The zero-run encoding of `input`.
pub open spec fn zle_spec(input: Seq<u8>) -> Seq<ZleSymbol> {
    zle_state(input).0 + zero_run(zle_state(input).1)
}

/// A run of `n` zero bytes.
pub open spec fn zero_bytes(n: nat) -> Seq<u8> {
    Seq::new(n, |i: int| 0u8)
}

/// The decoder's state after all of `input`: what has been written, and the digits
/// of the run that is still open.
pub open spec fn unzle_state(input: Seq<ZleSymbol>) -> (Seq<u8>, Seq<ZleSymbol>)
    decreases input.len(),
{
    if input.len() == 0 {
        (Seq::empty(), Seq::empty())
    } else {
        let before = unzle_state(input.drop_last());
        match input.last() {
            ZleSymbol::Number(element) => (
                (before.0 + zero_bytes(zeros_of(before.1))).push(element),
                Seq::empty(),
            ),
            _ => (before.0, before.1.push(input.last())),
        }
    }
}

/// The bytes that a zero-run encoded string stands for.
pub open spec fn unzle_spec(input: Seq<ZleSymbol>) -> Seq<u8> {
    unzle_state(input).0 + zero_bytes(zeros_of(unzle_state(input).1))
}

/// The place of a symbol in a frequency table.
pub open spec fn symbol_index(symbol: ZleSymbol) -> int {
    match symbol {
        ZleSymbol::RunA => 0,
        ZleSymbol::RunB => 1,
        ZleSymbol::Number(i) => i as int + 1,
    }
}

/// The symbol that has the place `place`: `RunA`, `RunB`, then the numbers from one
/// on.
pub open spec fn symbol_at(place: int) -> ZleSymbol {
    if place == 0 {
        ZleSymbol::RunA
    } else if place == 1 {
        ZleSymbol::RunB
    } else {
        ZleSymbol::Number((place - 1) as u8)
    }
}

/// How many of the symbols have the place `index`.
pub open spec fn count_symbol(symbols: Seq<ZleSymbol>, index: int) -> nat
    decreases symbols.len(),
{
    if symbols.len() == 0 {
        0
    } else {
        count_symbol(symbols.drop_last(), index) + if symbol_index(symbols.last()) == index {
            1nat
        } else {
            0nat
        }
    }
}

/// The frequency table of `len` places over the given symbols.
pub open spec fn frequencies_of(symbols: Seq<ZleSymbol>, len: nat) -> Seq<usize> {
    Seq::new(len, |index: int| count_symbol(symbols, index) as usize)
}

/// No place is counted more often than there are symbols.
pub proof fn lemma_count_symbol_bound(symbols: Seq<ZleSymbol>, index: int)
    ensures
        count_symbol(symbols, index) <= symbols.len(),
    decreases symbols.len(),
{
    if symbols.len() > 0 {
        lemma_count_symbol_bound(symbols.drop_last(), index);
    }
}

/// A digit in front counts once, and doubles what the digits after it count for.
pub proof fn lemma_zeros_of_front(symbol: ZleSymbol, run: Seq<ZleSymbol>)
    ensures
        zeros_of(seq![symbol] + run) == digit_weight(symbol) + 2 * zeros_of(run),
    decreases run.len(),
{
    let whole = seq![symbol] + run;
    if run.len() == 0 {
        assert(whole.drop_last() =~= Seq::<ZleSymbol>::empty());
        lemma2_to64();
        assert(zeros_of(whole.drop_last()) == 0);
        assert(whole.last() == symbol);
        assert(pow2((whole.len() - 1) as nat) == 1);
        assert(digit_weight(symbol) * 1 == digit_weight(symbol));
    } else {
        lemma_zeros_of_front(symbol, run.drop_last());
        assert(whole.drop_last() =~= seq![symbol] + run.drop_last());
        assert(whole.last() == run.last());
        assert(whole.len() - 1 == run.len());
        lemma_pow2_unfold(run.len());
        assert(digit_weight(run.last()) * pow2(run.len()) == 2 * (digit_weight(run.last()) * pow2(
            (run.len() - 1) as nat,
        ))) by (nonlinear_arith)
            requires
                pow2(run.len()) == 2 * pow2((run.len() - 1) as nat),
        ;
    }
}

/// The digits of a number stand for one less than the number.
pub proof fn lemma_zeros_of_digits(num: nat)
    requires
        num >= 1,
    ensures
        zeros_of(digits_of(num)) == num - 1,
    decreases num,
{
    if num >= 2 {
        lemma_zeros_of_digits(num / 2);
        lemma_zeros_of_front(remainder_symbol(num % 2), digits_of(num / 2));
    }
}

/// Reading a run of zeros back gives its length.
pub proof fn lemma_zero_run_round_trip(number_of_zeros: nat)
    ensures
        zeros_of(zero_run(number_of_zeros)) == number_of_zeros,
{
    lemma_zeros_of_digits(number_of_zeros + 1);
}

/// A run of digits stands for at least as many zeros as two to the power of its
/// length, less one.
pub proof fn lemma_zeros_of_lower_bound(run: Seq<ZleSymbol>)
    ensures
        zeros_of(run) + 1 >= pow2(run.len()),
    decreases run.len(),
{
    if run.len() == 0 {
        lemma2_to64();
    } else {
        lemma_zeros_of_lower_bound(run.drop_last());
        lemma_pow2_unfold(run.len());
        let p = pow2((run.len() - 1) as nat);
        assert(digit_weight(run.last()) * p >= p) by (nonlinear_arith)
            requires
                digit_weight(run.last()) >= 1,
                p >= 0,
        ;
    }
}

/// The decoder's state after all of `input`, started in the given state.
pub open spec fn unzle_from(state: (Seq<u8>, Seq<ZleSymbol>), input: Seq<ZleSymbol>) -> (Seq<u8>, Seq<ZleSymbol>)
    decreases input.len(),
{
    if input.len() == 0 {
        state
    } else {
        let before = unzle_from(state, input.drop_last());
        match input.last() {
            ZleSymbol::Number(element) => (
                (before.0 + zero_bytes(zeros_of(before.1))).push(element),
                Seq::empty(),
            ),
            _ => (before.0, before.1.push(input.last())),
        }
    }
}

/// Decoding a string in two parts gives the same as decoding it at once.
pub proof fn lemma_unzle_concat(a: Seq<ZleSymbol>, b: Seq<ZleSymbol>)
    ensures
        unzle_state(a + b) == unzle_from(unzle_state(a), b),
    decreases b.len(),
{
    if b.len() == 0 {
        assert(a + b =~= a);
    } else {
        lemma_unzle_concat(a, b.drop_last());
        assert((a + b).drop_last() =~= a + b.drop_last());
    }
}

/// Digits are added to the open run.
pub proof fn lemma_unzle_digits_seq(state: (Seq<u8>, Seq<ZleSymbol>), digits: Seq<ZleSymbol>)
    requires
        forall|k: int| 0 <= k < digits.len() ==> !(#[trigger] digits[k] is Number),
    ensures
        unzle_from(state, digits) == (state.0, state.1 + digits),
    decreases digits.len(),
{
    if digits.len() == 0 {
        assert(state.1 + digits =~= state.1);
    } else {
        let front = digits.drop_last();
        assert forall|k: int| 0 <= k < front.len() implies !(#[trigger] front[k] is Number) by {
            assert(front[k] == digits[k]);
        }
        lemma_unzle_digits_seq(state, front);
        assert(!(digits[digits.len() - 1] is Number));
        assert((state.1 + front).push(digits.last()) =~= state.1 + digits);
    }
}

proof fn lemma_zle_decodes(input: Seq<u8>)
    ensures
        ({
            let encoded = zle_state(input);
            let decoded = unzle_state(encoded.0);
            &&& decoded.1.len() == 0
            &&& decoded.0 + zero_bytes(encoded.1) == input
        }),
    decreases input.len(),
{
    if input.len() == 0 {
        assert(Seq::<u8>::empty() + zero_bytes(0) =~= input);
    } else {
        let rest = input.drop_last();
        lemma_zle_decodes(rest);
        let before = zle_state(rest);
        let decoded_before = unzle_state(before.0);
        assert(input =~= rest.push(input.last()));
        if input.last() == 0 {
            assert(decoded_before.0 + zero_bytes(before.1 + 1) =~= input);
        } else {
            let run = zero_run(before.1);
            let written = before.0 + run;
            lemma_unzle_concat(before.0, run);
            lemma_digits_of_fits(before.1 + 1);
            lemma_unzle_digits_seq(decoded_before, run);
            assert(decoded_before.1 + run =~= run);
            lemma_zero_run_round_trip(before.1);
            let symbol = ZleSymbol::Number(input.last());
            assert(written.push(symbol).drop_last() =~= written);
            let decoded = unzle_state(written.push(symbol));
            assert(decoded.0 + zero_bytes(0) =~= input);
        }
    }
}

/// Decoding the zero-run encoding of a text gives the text.
pub proof fn lemma_zle_round_trip(input: Seq<u8>)
    ensures
        unzle_spec(zle_spec(input)) == input,
{
    lemma_zle_decodes(input);
    let encoded = zle_state(input);
    let run = zero_run(encoded.1);
    lemma_unzle_concat(encoded.0, run);
    lemma_digits_of_fits(encoded.1 + 1);
    lemma_unzle_digits_seq(unzle_state(encoded.0), run);
    assert(unzle_state(encoded.0).1 + run =~= run);
    lemma_zero_run_round_trip(encoded.1);
}

/// The digit for a remainder of a division by two.
pub fn convert_remainder(input: u8) -> (symbol: ZleSymbol)
    ensures
        symbol == remainder_symbol(input as nat),
{
    match input {
        0 => ZleSymbol::RunA,
        _ => ZleSymbol::RunB,
    }
}

/// Writes the length of a run of zeros in digits, least significant first.
pub fn encode_zero_amount(number_of_zeros: usize) -> (out: Vec<ZleSymbol>)
    requires
        number_of_zeros < usize::MAX,
    ensures
        out@ == zero_run(number_of_zeros as nat),
{
    let mut out: Vec<ZleSymbol> = Vec::new();
    let mut num: usize = number_of_zeros + 1;
    while num > 1
        invariant
            num >= 1,
            out@ + digits_of(num as nat) == digits_of((number_of_zeros + 1) as nat),
        decreases num,
    {
        let ghost before = out@;
        out.push(convert_remainder((num % 2) as u8));
        proof {
            assert(out@ + digits_of((num / 2) as nat) =~= before + digits_of(num as nat));
        }
        num = num / 2;
    }
    proof {
        assert(out@ + digits_of(num as nat) =~= out@);
    }
    out
}

/// Reads the number of zeros that a run of digits stands for.
pub fn decode_zero_amount(input: &[ZleSymbol]) -> (zeros: usize)
    requires
        zeros_of(input@) < usize::MAX,
    ensures
        zeros == zeros_of(input@),
{
    let mut number: usize = 0;
    let mut power: usize = 1;
    let mut i: usize = 0;
    proof {
        lemma2_to64();
    }
    while i < input.len()
        invariant
            i <= input@.len(),
            number == zeros_of(input@.take(i as int)),
            power == pow2(i as nat),
            power <= number + 1,
            zeros_of(input@) < usize::MAX,
        decreases input@.len() - i,
    {
        proof {
            lemma_zeros_of_prefix(input@, i + 1);
            assert(input@.take(i + 1).drop_last() =~= input@.take(i as int));
            lemma_pow2_unfold((i + 1) as nat);
            lemma_zeros_of_lower_bound(input@.take(i + 1));
        }
        match input[i] {
            ZleSymbol::RunB => {
                assert(2 * power == digit_weight(input@[i as int]) * pow2(i as nat)) by (nonlinear_arith)
                    requires
                        power == pow2(i as nat),
                        digit_weight(input@[i as int]) == 2,
                ;
                number = number + 2 * power;
            },
            _ => {
                assert(power == digit_weight(input@[i as int]) * pow2(i as nat)) by (nonlinear_arith)
                    requires
                        power == pow2(i as nat),
                        digit_weight(input@[i as int]) == 1,
                ;
                number = number + power;
            },
        }
        power = 2 * power;
        i = i + 1;
    }
    proof {
        assert(input@.take(i as int) =~= input@);
    }
    number
}

/// A run of digits stands for at least as many zeros as any run it begins with.
pub proof fn lemma_zeros_of_prefix(run: Seq<ZleSymbol>, k: int)
    requires
        0 <= k <= run.len(),
    ensures
        zeros_of(run.take(k)) <= zeros_of(run),
    decreases run.len(),
{
    if k == run.len() {
        assert(run.take(k) =~= run);
    } else {
        lemma_zeros_of_prefix(run.drop_last(), k);
        assert(run.drop_last().take(k) =~= run.take(k));
    }
}

/// The frequencies of the symbols of a zero-run encoding.
pub struct PropabilityMap {
    pub frequencies: Vec<usize>,
}

impl PropabilityMap {
    /// The symbols with their frequencies, by place: `RunA`, `RunB`, then the numbers
    /// from one on.
    pub fn iterator(self) -> (entries: Vec<(ZleSymbol, usize)>)
        requires
            self.frequencies@.len() <= 257,
        ensures
            entries@.len() == self.frequencies@.len(),
            forall|i: int|
                0 <= i < entries@.len() ==> (#[trigger] entries@[i]).1 == self.frequencies@[i]
                    && entries@[i].0 == symbol_at(i),
    {
        let mut entries: Vec<(ZleSymbol, usize)> = Vec::new();
        let mut symbol: usize = 0;
        while symbol < self.frequencies.len()
            invariant
                symbol <= self.frequencies@.len() <= 257,
                entries@.len() == symbol,
                forall|i: int|
                    0 <= i < entries@.len() ==> (#[trigger] entries@[i]).1 == self.frequencies@[i]
                        && entries@[i].0 == symbol_at(i),
            decreases self.frequencies@.len() - symbol,
        {
            let frequency = self.frequencies[symbol];
            if symbol == 0 {
                entries.push((ZleSymbol::RunA, frequency));
            } else if symbol == 1 {
                entries.push((ZleSymbol::RunB, frequency));
            } else {
                entries.push((ZleSymbol::Number((symbol - 1) as u8), frequency));
            }
            symbol = symbol + 1;
        }
        entries
    }

    /// An empty table for an alphabet of `size` bytes: `size + 1` places.
    pub fn create(size: usize) -> (map: Self)
        requires
            size < usize::MAX,
        ensures
            map.frequencies@ == frequencies_of(Seq::empty(), (size + 1) as nat),
    {
        let map = PropabilityMap { frequencies: vec![0; size + 1] };
        proof {
            assert(map.frequencies@ =~= frequencies_of(Seq::empty(), (size + 1) as nat));
        }
        map
    }

    /// Counts one more occurrence of a symbol.
    pub fn report_symbol(&mut self, symbol: &ZleSymbol)
        requires
            symbol_index(*symbol) < old(self).frequencies@.len(),
            old(self).frequencies@[symbol_index(*symbol)] < usize::MAX,
        ensures
            final(self).frequencies@ == old(self).frequencies@.update(
                symbol_index(*symbol),
                (old(self).frequencies@[symbol_index(*symbol)] + 1) as usize,
            ),
    {
        match symbol {
            ZleSymbol::RunA => {
                let count = self.frequencies[0];
                self.frequencies[0] = count + 1;
            },
            ZleSymbol::RunB => {
                let count = self.frequencies[1];
                self.frequencies[1] = count + 1;
            },
            ZleSymbol::Number(i) => {
                let index: usize = *i as usize + 1;
                let count = self.frequencies[index];
                self.frequencies[index] = count + 1;
            },
        }
    }
}

/// Whether every byte of `input` has a place in a table for an alphabet of
/// `alphabet_size` bytes.
pub open spec fn fits_alphabet(input: Seq<u8>, alphabet_size: int) -> bool {
    forall|i: int| 0 <= i < input.len() ==> #[trigger] input[i] < alphabet_size
}

/// Every symbol of the encoding has a place in the table of the alphabet, and there
/// are no more symbols than bytes.
pub proof fn lemma_zle_state_fits(input: Seq<u8>, alphabet_size: int)
    requires
        fits_alphabet(input, alphabet_size),
        alphabet_size >= 1,
    ensures
        forall|k: int|
            0 <= k < zle_spec(input).len() ==> 0 <= symbol_index(#[trigger] zle_spec(input)[k])
                <= alphabet_size,
        forall|k: int|
            0 <= k < zle_state(input).0.len() ==> 0 <= symbol_index(#[trigger] zle_state(input).0[k])
                <= alphabet_size,
        zle_state(input).0.len() + zle_state(input).1 <= input.len(),
        zle_spec(input).len() <= input.len(),
    decreases input.len(),
{
    if input.len() > 0 {
        let rest = input.drop_last();
        assert forall|i: int| 0 <= i < rest.len() implies #[trigger] rest[i] < alphabet_size by {
            assert(rest[i] == input[i]);
        }
        lemma_zle_state_fits(rest, alphabet_size);
        assert(input.last() == input[input.len() - 1]);
        lemma_digits_of_fits(zle_state(rest).1 + 1);
    }
    lemma_digits_of_fits(zle_state(input).1 + 1);
}

/// Every number symbol of the encoding stands for a byte of the input other than
/// zero.
pub proof fn lemma_zle_numbers(input: Seq<u8>, alphabet_size: int)
    requires
        fits_alphabet(input, alphabet_size),
    ensures
        forall|k: int|
            0 <= k < zle_spec(input).len() ==> match #[trigger] zle_spec(input)[k] {
                ZleSymbol::Number(b) => 1 <= b < alphabet_size,
                _ => true,
            },
        forall|k: int|
            0 <= k < zle_state(input).0.len() ==> match #[trigger] zle_state(input).0[k] {
                ZleSymbol::Number(b) => 1 <= b < alphabet_size,
                _ => true,
            },
    decreases input.len(),
{
    if input.len() > 0 {
        let rest = input.drop_last();
        assert forall|i: int| 0 <= i < rest.len() implies #[trigger] rest[i] < alphabet_size by {
            assert(rest[i] == input[i]);
        }
        lemma_zle_numbers(rest, alphabet_size);
        assert(input.last() == input[input.len() - 1]);
        lemma_digits_of_fits(zle_state(rest).1 + 1);
    }
    lemma_digits_of_fits(zle_state(input).1 + 1);
}

/// The digits of a number are `RunA` and `RunB` only, and fewer than the number.
pub proof fn lemma_digits_of_fits(num: nat)
    ensures
        forall|k: int| 0 <= k < digits_of(num).len() ==> 0 <= symbol_index(#[trigger] digits_of(num)[k]) <= 1,
        forall|k: int| 0 <= k < digits_of(num).len() ==> !(#[trigger] digits_of(num)[k] is Number),
        num >= 1 ==> digits_of(num).len() < num,
        num == 0 ==> digits_of(num).len() == 0,
    decreases num,
{
    if num >= 2 {
        lemma_digits_of_fits(num / 2);
    }
}

/// Replaces every run of zeros by its length in digits and every other byte by a
/// number symbol, and counts the symbols.
pub fn zle_transform(input: Vec<u8>, alphabet_size: usize) -> (result: (Vec<ZleSymbol>, PropabilityMap))
    requires
        fits_alphabet(input@, alphabet_size as int),
        1 <= alphabet_size < usize::MAX,
        input@.len() < usize::MAX,
    ensures
        result.0@ == zle_spec(input@),
        result.1.frequencies@ == frequencies_of(zle_spec(input@), (alphabet_size + 1) as nat),
{
    let mut zle_result: Vec<ZleSymbol> = Vec::new();
    let mut zero_count: usize = 0;
    let mut i: usize = 0;
    while i < input.len()
        invariant
            i <= input@.len(),
            (zle_result@, zero_count as nat) == zle_state(input@.take(i as int)),
            zero_count <= i,
        decreases input@.len() - i,
    {
        let byte = input[i];
        proof {
            assert(input@.take(i + 1).drop_last() =~= input@.take(i as int));
        }
        if byte == 0 {
            zero_count = zero_count + 1;
        } else {
            let mut zle_encoded = encode_zero_amount(zero_count);
            zle_result.append(&mut zle_encoded);
            zero_count = 0;
            zle_result.push(ZleSymbol::Number(byte));
        }
        i = i + 1;
    }
    proof {
        assert(input@.take(i as int) =~= input@);
    }
    let mut zle_encoded = encode_zero_amount(zero_count);
    zle_result.append(&mut zle_encoded);

    let mut propability_map = PropabilityMap::create(alphabet_size);
    let mut k: usize = 0;
    proof {
        lemma_zle_state_fits(input@, alphabet_size as int);
    }
    while k < zle_result.len()
        invariant
            k <= zle_result@.len(),
            zle_result@ == zle_spec(input@),
            forall|j: int|
                0 <= j < zle_result@.len() ==> 0 <= symbol_index(#[trigger] zle_result@[j]) <= alphabet_size,
            propability_map.frequencies@ == frequencies_of(
                zle_result@.take(k as int),
                (alphabet_size + 1) as nat,
            ),
        decreases zle_result@.len() - k,
    {
        proof {
            lemma_count_symbol_bound(zle_result@.take(k as int), symbol_index(zle_result@[k as int]));
            assert(zle_result@.take(k + 1).drop_last() =~= zle_result@.take(k as int));
        }
        let symbol = zle_result[k];
        propability_map.report_symbol(&symbol);
        k = k + 1;
        proof {
            assert(propability_map.frequencies@ =~= frequencies_of(
                zle_result@.take(k as int),
                (alphabet_size + 1) as nat,
            ));
        }
    }
    proof {
        assert(zle_result@.take(k as int) =~= zle_result@);
    }
    (zle_result, propability_map)
}

/// The length that the decoder's output has reached: what is written and the zeros
/// of the open run.
pub open spec fn unzle_progress(input: Seq<ZleSymbol>) -> nat {
    unzle_state(input).0.len() + zeros_of(unzle_state(input).1)
}

/// The output only grows as more symbols are read.
pub proof fn lemma_unzle_progress(input: Seq<ZleSymbol>, k: int)
    requires
        0 <= k <= input.len(),
    ensures
        unzle_progress(input.take(k)) <= unzle_progress(input),
    decreases input.len(),
{
    if k == input.len() {
        assert(input.take(k) =~= input);
    } else {
        lemma_unzle_progress(input.drop_last(), k);
        assert(input.drop_last().take(k) =~= input.take(k));
        let before = unzle_state(input.drop_last());
        match input.last() {
            ZleSymbol::Number(_) => {},
            _ => {
                assert(before.1.push(input.last()).drop_last() =~= before.1);
            },
        }
    }
}

/// Expands a zero-run encoded string, unless the result would be longer than
/// `limit`.
pub fn decode_zle_bounded(input: &[ZleSymbol], limit: usize) -> (output: Option<Vec<u8>>)
    requires
        limit < usize::MAX,
    ensures
        output is Some <==> unzle_spec(input@).len() <= limit,
        output is Some ==> output.unwrap()@ == unzle_spec(input@),
{
    let mut output: Vec<u8> = Vec::new();
    let mut run_count: usize = 0;
    let mut power: usize = 1;
    let ghost mut pending: Seq<ZleSymbol> = Seq::empty();
    let mut i: usize = 0;
    proof {
        lemma2_to64();
    }
    while i < input.len()
        invariant
            i <= input@.len(),
            limit < usize::MAX,
            (output@, pending) == unzle_state(input@.take(i as int)),
            run_count == zeros_of(pending),
            power == pow2(pending.len()),
            power <= run_count + 1,
            output@.len() + run_count <= limit,
        decreases input@.len() - i,
    {
        proof {
            assert(input@.take(i + 1).drop_last() =~= input@.take(i as int));
            lemma_unzle_progress(input@, i + 1);
            lemma2_to64();
        }
        match input[i] {
            ZleSymbol::Number(element) => {
                if limit - output.len() - run_count < 1 {
                    return None;
                }
                let ghost before = output@;
                let mut z: usize = 0;
                while z < run_count
                    invariant
                        z <= run_count,
                        before.len() + run_count < usize::MAX,
                        output@ == before + zero_bytes(z as nat),
                    decreases run_count - z,
                {
                    output.push(0u8);
                    z = z + 1;
                    proof {
                        assert(output@ =~= before + zero_bytes(z as nat));
                    }
                }
                output.push(element);
                run_count = 0;
                power = 1;
                proof {
                    pending = Seq::empty();
                }
            },
            symbol => {
                let weight: u128 = match symbol {
                    ZleSymbol::RunB => 2,
                    _ => 1,
                };
                let room: usize = limit - output.len() - run_count;
                proof {
                    let next = pending.push(symbol);
                    assert(next.drop_last() =~= pending);
                    lemma_zeros_of_lower_bound(next);
                    lemma_pow2_unfold(next.len());
                    assert(weight * power == digit_weight(symbol) * pow2(pending.len())) by (nonlinear_arith)
                        requires
                            weight == digit_weight(symbol),
                            power == pow2(pending.len()),
                    ;
                    assert(weight * power <= 2 * power) by (nonlinear_arith)
                        requires
                            weight <= 2,
                            power >= 0,
                    ;
                }
                let added: u128 = weight * (power as u128);
                if added > room as u128 {
                    return None;
                }
                run_count = run_count + added as usize;
                power = 2 * power;
                proof {
                    pending = pending.push(symbol);
                }
            },
        }
        i = i + 1;
    }
    proof {
        assert(input@.take(i as int) =~= input@);
    }
    let ghost before = output@;
    let mut z: usize = 0;
    while z < run_count
        invariant
            z <= run_count,
            before.len() + run_count < usize::MAX,
            output@ == before + zero_bytes(z as nat),
        decreases run_count - z,
    {
        output.push(0u8);
        z = z + 1;
        proof {
            assert(output@ =~= before + zero_bytes(z as nat));
        }
    }
    Some(output)
}

/// Expands a zero-run encoded string: every run of digits becomes as many zeros
/// as it stands for, every number symbol its byte.
pub fn decode_zle(input: &[ZleSymbol]) -> (output: Vec<u8>)
    requires
        unzle_spec(input@).len() < usize::MAX,
    ensures
        output@ == unzle_spec(input@),
{
    match decode_zle_bounded(input, usize::MAX - 1) {
        Some(output) => output,
        None => Vec::new(),
    }
}

} // verus!
