use vstd::prelude::*;

verus! {

/// How a run of `len` copies of `byte` is written: up to three copies as they are,
/// four or more as four copies and the number of further copies.
pub open spec fn run_encoding(byte: u8, len: nat) -> Seq<u8> {
    if len >= 4 {
        Seq::new(4, |i: int| byte).push((len - 4) as u8)
    } else {
        Seq::new(len, |i: int| byte)
    }
}

/// The state of the run-length encoder: what has been written, and the run that is
/// still open (its length and its byte).
pub type RleState = (Seq<u8>, nat, Option<u8>);

/// A run that is still open has a byte and between 1 and 255 copies of it; before
/// the first byte there is no run.
pub open spec fn rle_state_valid(counter: nat, last: Option<u8>) -> bool {
    match last {
        Some(_) => 1 <= counter <= 255,
        None => counter == 0,
    }
}

/// The encoder's state after one more byte.
pub open spec fn rle_step(state: RleState, current: u8) -> RleState {
    match state.2 {
        Some(last_byte) => if last_byte != current || state.1 >= 255 {
            (state.0 + run_encoding(last_byte, state.1), 1, Some(current))
        } else {
            (state.0, state.1 + 1, Some(current))
        },
        None => (state.0, state.1 + 1, Some(current)),
    }
}

/// The encoder's state after all of `input`, started with an open run of `counter`
/// copies of `last` and nothing written.
pub open spec fn rle_spec(input: Seq<u8>, counter: nat, last: Option<u8>) -> RleState
    decreases input.len(),
{
    if input.len() == 0 {
        (Seq::empty(), counter, last)
    } else {
        rle_step(rle_spec(input.drop_last(), counter, last), input.last())
    }
}

/// What the open run adds when the input ends.
pub open spec fn rle_tail(counter: nat, last: Option<u8>) -> Seq<u8> {
    match last {
        Some(last_byte) => run_encoding(last_byte, counter),
        None => Seq::empty(),
    }
}

/// The complete run-length encoding of `input`.
pub open spec fn rle_encode_spec(input: Seq<u8>) -> Seq<u8> {
    let state = rle_spec(input, 0, None);
    state.0 + rle_tail(state.1, state.2)
}

/// The state of the run-length decoder: what has been written, how many times the
/// previous byte has repeated, and the previous byte. After a count byte there is no
/// previous byte.
pub type UnrleState = (Seq<u8>, nat, Option<u8>);

/// The decoder's state after one more byte.
pub open spec fn inverse_rle_step(state: UnrleState, element: u8) -> UnrleState {
    match state.2 {
        Some(previous) => if state.1 == 3 {
            (state.0 + Seq::new(element as nat, |i: int| previous), 0, None)
        } else if previous == element {
            (state.0.push(element), state.1 + 1, Some(element))
        } else {
            (state.0.push(element), 0, Some(element))
        },
        None => (state.0.push(element), 0, Some(element)),
    }
}

/// The decoder's state after all of `input`.
pub open spec fn inverse_rle_state(input: Seq<u8>) -> UnrleState
    decreases input.len(),
{
    if input.len() == 0 {
        (Seq::empty(), 0, None)
    } else {
        inverse_rle_step(inverse_rle_state(input.drop_last()), input.last())
    }
}

/// The bytes that a run-length encoded string stands for.
pub open spec fn inverse_rle_spec(input: Seq<u8>) -> Seq<u8> {
    inverse_rle_state(input).0
}

/// The encoder keeps its open run between 1 and 255 copies.
pub proof fn lemma_rle_spec_valid(input: Seq<u8>, counter: nat, last: Option<u8>)
    requires
        rle_state_valid(counter, last),
    ensures
        rle_state_valid(rle_spec(input, counter, last).1, rle_spec(input, counter, last).2),
    decreases input.len(),
{
    if input.len() > 0 {
        lemma_rle_spec_valid(input.drop_last(), counter, last);
    }
}

/// The length of the complete encoding for a state of the encoder.
pub open spec fn rle_state_size(state: RleState) -> nat {
    state.0.len() + rle_tail(state.1, state.2).len()
}

/// Encoding a text in two parts gives the same as encoding it at once.
pub proof fn lemma_rle_spec_concat(a: Seq<u8>, b: Seq<u8>, counter: nat, last: Option<u8>)
    ensures
        ({
            let first = rle_spec(a, counter, last);
            let second = rle_spec(b, first.1, first.2);
            rle_spec(a + b, counter, last) == (first.0 + second.0, second.1, second.2)
        }),
    decreases b.len(),
{
    let first = rle_spec(a, counter, last);
    if b.len() == 0 {
        assert(a + b =~= a);
        assert(first.0 + Seq::<u8>::empty() =~= first.0);
    } else {
        lemma_rle_spec_concat(a, b.drop_last(), counter, last);
        assert((a + b).drop_last() =~= a + b.drop_last());
        let before = rle_spec(b.drop_last(), first.1, first.2);
        let whole_before = rle_spec(a + b.drop_last(), counter, last);
        assert(whole_before == (first.0 + before.0, before.1, before.2));
        match before.2 {
            Some(last_byte) => {
                assert((first.0 + before.0) + run_encoding(last_byte, before.1) =~= first.0 + (before.0
                    + run_encoding(last_byte, before.1)));
            },
            None => {},
        }
    }
}

/// Every byte makes the complete encoding longer by two bytes at most, and a text
/// that is not empty has an encoding that is not empty.
pub proof fn lemma_rle_growth(input: Seq<u8>, counter: nat, last: Option<u8>)
    requires
        rle_state_valid(counter, last),
    ensures
        rle_state_size(rle_spec(input, counter, last)) <= rle_tail(counter, last).len() + 2 * input.len(),
        input.len() > 0 ==> rle_state_size(rle_spec(input, counter, last)) >= 1,
        rle_state_valid(rle_spec(input, counter, last).1, rle_spec(input, counter, last).2),
    decreases input.len(),
{
    if input.len() > 0 {
        lemma_rle_growth(input.drop_last(), counter, last);
    }
}

/// The decoder's state after all of `input`, started in the given state.
pub open spec fn inverse_rle_from(state: UnrleState, input: Seq<u8>) -> UnrleState
    decreases input.len(),
{
    if input.len() == 0 {
        state
    } else {
        inverse_rle_step(inverse_rle_from(state, input.drop_last()), input.last())
    }
}

/// A run of `len` copies of `byte`.
pub open spec fn run_of(byte: u8, len: nat) -> Seq<u8> {
    Seq::new(len, |i: int| byte)
}

/// Whether the decoder would take `byte` as the first byte of a run: no run is
/// open, or a run of at most three copies of another byte.
pub open spec fn ready_for(state: UnrleState, byte: u8) -> bool {
    match state.2 {
        Some(previous) => previous != byte && state.1 <= 2,
        None => true,
    }
}

/// Decoding a text in two parts gives the same as decoding it at once.
pub proof fn lemma_inverse_rle_concat(a: Seq<u8>, b: Seq<u8>)
    ensures
        inverse_rle_state(a + b) == inverse_rle_from(inverse_rle_state(a), b),
    decreases b.len(),
{
    if b.len() == 0 {
        assert(a + b =~= a);
    } else {
        lemma_inverse_rle_concat(a, b.drop_last());
        assert((a + b).drop_last() =~= a + b.drop_last());
    }
}

proof fn lemma_decode_literals(state: UnrleState, byte: u8, len: nat)
    requires
        ready_for(state, byte),
        1 <= len <= 4,
    ensures
        inverse_rle_from(state, run_of(byte, len)) == (state.0 + run_of(byte, len), (len - 1) as nat, Some(byte)),
    decreases len,
{
    let run = run_of(byte, len);
    if len == 1 {
        assert(run.drop_last() =~= Seq::<u8>::empty());
        assert(inverse_rle_from(state, run.drop_last()) == state);
        assert(state.0.push(byte) =~= state.0 + run);
    } else {
        lemma_decode_literals(state, byte, (len - 1) as nat);
        assert(run.drop_last() =~= run_of(byte, (len - 1) as nat));
        assert((state.0 + run_of(byte, (len - 1) as nat)).push(byte) =~= state.0 + run);
    }
}

/// From a state in which no run of the same byte is open, the decoder reads the
/// encoding of a run as the run.
pub proof fn lemma_decode_run(state: UnrleState, byte: u8, len: nat)
    requires
        ready_for(state, byte),
        1 <= len <= 259,
    ensures
        inverse_rle_from(state, run_encoding(byte, len)).0 == state.0 + run_of(byte, len),
        len >= 4 ==> inverse_rle_from(state, run_encoding(byte, len)).2 is None,
        len < 4 ==> inverse_rle_from(state, run_encoding(byte, len)).2 == Some(byte) && inverse_rle_from(
            state,
            run_encoding(byte, len),
        ).1 == len - 1,
{
    if len < 4 {
        lemma_decode_literals(state, byte, len);
        assert(run_encoding(byte, len) =~= run_of(byte, len));
    } else {
        let encoded = run_encoding(byte, len);
        lemma_decode_literals(state, byte, 4);
        assert(encoded.drop_last() =~= run_of(byte, 4));
        let count = (len - 4) as u8;
        assert(encoded.last() == count);
        assert((state.0 + run_of(byte, 4)) + Seq::new(count as nat, |i: int| byte) =~= state.0 + run_of(
            byte,
            len,
        ));
    }
}

proof fn lemma_rle_decodes(input: Seq<u8>)
    ensures
        ({
            let encoded = rle_spec(input, 0, None);
            let decoded = inverse_rle_state(encoded.0);
            &&& rle_state_valid(encoded.1, encoded.2)
            &&& match encoded.2 {
                Some(last) => decoded.0 + run_of(last, encoded.1) == input && ready_for(decoded, last),
                None => decoded.0 == input,
            }
        }),
    decreases input.len(),
{
    if input.len() > 0 {
        let rest = input.drop_last();
        let current = input.last();
        lemma_rle_decodes(rest);
        let before = rle_spec(rest, 0, None);
        let decoded_before = inverse_rle_state(before.0);
        assert(input =~= rest.push(current));
        match before.2 {
            Some(last) => {
                if last != current || before.1 >= 255 {
                    lemma_inverse_rle_concat(before.0, run_encoding(last, before.1));
                    lemma_decode_run(decoded_before, last, before.1);
                    let decoded = inverse_rle_state(before.0 + run_encoding(last, before.1));
                    assert(decoded.0 + run_of(current, 1) =~= input);
                } else {
                    assert(decoded_before.0 + run_of(last, before.1 + 1) =~= input);
                }
            },
            None => {
                assert(decoded_before.0 + run_of(current, 1) =~= input);
            },
        }
    }
}

/// Decoding the run-length encoding of a text gives the text.
pub proof fn lemma_rle_round_trip(input: Seq<u8>)
    ensures
        inverse_rle_spec(rle_encode_spec(input)) == input,
{
    lemma_rle_decodes(input);
    let encoded = rle_spec(input, 0, None);
    match encoded.2 {
        Some(last) => {
            lemma_inverse_rle_concat(encoded.0, run_encoding(last, encoded.1));
            lemma_decode_run(inverse_rle_state(encoded.0), last, encoded.1);
        },
        None => {
            assert(encoded.0 + Seq::<u8>::empty() =~= encoded.0);
        },
    }
}

/// Run-length encodes `input`, continuing an open run of `init_counter` copies of
/// `init_last`. Returns what can be written so far, and the run that is still open.
pub fn rle(input: &[u8], init_counter: usize, init_last: Option<u8>) -> (result: (
    Vec<u8>,
    usize,
    Option<u8>,
))
    requires
        rle_state_valid(init_counter as nat, init_last),
    ensures
        (result.0@, result.1 as nat, result.2) == rle_spec(input@, init_counter as nat, init_last),
        rle_state_valid(result.1 as nat, result.2),
{
    let mut output: Vec<u8> = Vec::new();
    let mut counter: usize = init_counter;
    let mut last = init_last;
    let mut i: usize = 0;
    while i < input.len()
        invariant
            i <= input.len(),
            rle_state_valid(counter as nat, last),
            (output@, counter as nat, last) == rle_spec(
                input@.take(i as int),
                init_counter as nat,
                init_last,
            ),
        decreases input.len() - i,
    {
        let current = input[i];
        let ghost before = output@;
        proof {
            assert(input@.take(i + 1).drop_last() =~= input@.take(i as int));
        }
        counter = counter + 1;
        if let Some(last_byte) = last {
            if last_byte != current || counter > 255 {
                if counter >= 5 {
                    let mut k: usize = 0;
                    while k < 4
                        invariant
                            k <= 4,
                            output@ == before + Seq::new(k as nat, |i: int| last_byte),
                        decreases 4 - k,
                    {
                        output.push(last_byte);
                        k = k + 1;
                        proof {
                            assert(output@ =~= before + Seq::new(k as nat, |i: int| last_byte));
                        }
                    }
                    output.push((counter - 5) as u8);
                } else {
                    let mut k: usize = 0;
                    while k < counter - 1
                        invariant
                            k <= counter - 1,
                            counter >= 1,
                            output@ == before + Seq::new(k as nat, |i: int| last_byte),
                        decreases counter - 1 - k,
                    {
                        output.push(last_byte);
                        k = k + 1;
                        proof {
                            assert(output@ =~= before + Seq::new(k as nat, |i: int| last_byte));
                        }
                    }
                }
                proof {
                    assert(output@ =~= before + run_encoding(last_byte, (counter - 1) as nat));
                }
                counter = 1;
            }
        }
        last = Some(current);
        i = i + 1;
    }
    proof {
        assert(input@.take(i as int) =~= input@);
    }
    (output, counter, last)
}

/// The length of the complete encoding, given the length written so far and the open run.
pub open spec fn rle_total_size_spec(input_len: nat, counter: nat, last: Option<u8>) -> nat {
    input_len + rle_tail(counter, last).len()
}

/// Computes how long the encoding will be once the open run is written.
pub fn rle_total_size(input_len: usize, counter: usize, last: Option<u8>) -> (output_size: usize)
    requires
        input_len + 5 <= usize::MAX,
    ensures
        output_size == rle_total_size_spec(input_len as nat, counter as nat, last),
{
    let mut output_size = input_len;
    if let Some(_last_byte) = last {
        if counter >= 4 {
            output_size = output_size + 5;
        } else {
            output_size = output_size + counter;
        }
    }
    output_size
}

/// Completes an encoding by writing the open run after what has been written so far.
pub fn rle_augment(input: &[u8], counter: usize, last: Option<u8>) -> (output: Vec<u8>)
    requires
        last is Some ==> counter <= 259,
    ensures
        output@ == input@ + rle_tail(counter as nat, last),
{
    let mut output: Vec<u8> = Vec::new();
    output.extend_from_slice(input);
    if let Some(last_byte) = last {
        let literals: usize = if counter >= 4 { 4 } else { counter };
        let mut k: usize = 0;
        while k < literals
            invariant
                k <= literals,
                output@ == input@ + Seq::new(k as nat, |i: int| last_byte),
            decreases literals - k,
        {
            output.push(last_byte);
            k = k + 1;
            proof {
                assert(output@ =~= input@ + Seq::new(k as nat, |i: int| last_byte));
            }
        }
        if counter >= 4 {
            output.push((counter - 4) as u8);
        }
        proof {
            assert(output@ =~= input@ + run_encoding(last_byte, counter as nat));
        }
    } else {
        proof {
            assert(output@ =~= input@ + Seq::<u8>::empty());
        }
    }
    output
}

/// Expands a run-length encoded string.
pub fn inverse_rle(input: &[u8]) -> (output: Vec<u8>)
    ensures
        output@ == inverse_rle_spec(input@),
{
    let mut output: Vec<u8> = Vec::new();
    let mut equal_count: usize = 0;
    let mut previous: Option<u8> = None;
    let mut i: usize = 0;
    while i < input.len()
        invariant
            i <= input.len(),
            equal_count <= 3,
            (output@, equal_count as nat, previous) == inverse_rle_state(input@.take(i as int)),
        decreases input.len() - i,
    {
        let element = input[i];
        let ghost before = output@;
        proof {
            assert(input@.take(i + 1).drop_last() =~= input@.take(i as int));
        }
        match previous {
            Some(previous_byte) => {
                if equal_count == 3 {
                    let mut k: u8 = 0;
                    while k < element
                        invariant
                            k <= element,
                            output@ == before + Seq::new(k as nat, |i: int| previous_byte),
                        decreases element - k,
                    {
                        output.push(previous_byte);
                        k = k + 1;
                        proof {
                            assert(output@ =~= before + Seq::new(k as nat, |i: int| previous_byte));
                        }
                    }
                    equal_count = 0;
                    previous = None;
                } else if previous_byte == element {
                    equal_count = equal_count + 1;
                    output.push(element);
                    previous = Some(element);
                } else {
                    output.push(element);
                    equal_count = 0;
                    previous = Some(element);
                }
            },
            None => {
                output.push(element);
                previous = Some(element);
            },
        }
        i = i + 1;
    }
    proof {
        assert(input@.take(i as int) =~= input@);
    }
    output
}

} // verus!
