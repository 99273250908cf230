use vstd::prelude::*;

verus! {

/// The delta encoding of a list of numbers.
#[derive(Clone, PartialEq, Debug)]
pub enum DeltaEncoded {
    Empty,
    NonEmpty(DeltaEncodedSome),
}

/// The delta encoding of a list that is not empty: its first number, and the steps
/// from each number to the next.
#[derive(Clone, PartialEq, Debug)]
pub struct DeltaEncodedSome {
    pub start_value: u8,
    pub deltas: Vec<DeltaSymbol>,
}

/// A step of a delta encoding: one down, one up, or the current number stands.
#[derive(Clone, Copy, PartialEq, Eq, Debug, Structural)]
pub enum DeltaSymbol {
    Decrease,
    Increase,
    Stop,
}

/// The steps that lead from one number to another.
pub open spec fn delta_steps(from: u8, to: u8) -> Seq<DeltaSymbol> {
    if to > from {
        Seq::new((to - from) as nat, |i: int| DeltaSymbol::Increase)
    } else {
        Seq::new((from - to) as nat, |i: int| DeltaSymbol::Decrease)
    }
}

/// The steps of the delta encoding of `input`: a stop for the first number, and for
/// every other the steps that lead to it from the number before, and a stop.
pub open spec fn deltas_of(input: Seq<u8>) -> Seq<DeltaSymbol>
    decreases input.len(),
{
    if input.len() == 0 {
        Seq::empty()
    } else if input.len() == 1 {
        seq![DeltaSymbol::Stop]
    } else {
        deltas_of(input.drop_last()) + delta_steps(input[input.len() - 2], input.last()).push(
            DeltaSymbol::Stop,
        )
    }
}

/// Encodes a list of numbers by its first number and the steps from each number to
/// the next.
pub fn encode_delta(input: Vec<u8>) -> (encoded: DeltaEncoded)
    ensures
        input@.len() == 0 ==> encoded is Empty,
        input@.len() > 0 ==> encoded is NonEmpty && encoded->NonEmpty_0.start_value == input@[0]
            && encoded->NonEmpty_0.deltas@ == deltas_of(input@),
{
    if input.len() == 0 {
        return DeltaEncoded::Empty;
    }
    let mut delta_codes: Vec<DeltaSymbol> = Vec::new();
    let value = input[0];
    delta_codes.push(DeltaSymbol::Stop);
    let mut last_value = value;
    let mut i: usize = 1;
    proof {
        assert(input@.take(1).len() == 1);
        assert(delta_codes@ =~= deltas_of(input@.take(1)));
    }
    while i < input.len()
        invariant
            1 <= i <= input@.len(),
            last_value == input@[i - 1],
            delta_codes@ == deltas_of(input@.take(i as int)),
        decreases input@.len() - i,
    {
        let current_value = input[i];
        let ghost before = delta_codes@;
        if last_value > current_value {
            let diff = last_value - current_value;
            let mut k: u8 = 0;
            while k < diff
                invariant
                    k <= diff,
                    delta_codes@ == before + Seq::new(k as nat, |i: int| DeltaSymbol::Decrease),
                decreases diff - k,
            {
                delta_codes.push(DeltaSymbol::Decrease);
                k = k + 1;
                proof {
                    assert(delta_codes@ =~= before + Seq::new(k as nat, |i: int| DeltaSymbol::Decrease));
                }
            }
        } else if last_value < current_value {
            let diff = current_value - last_value;
            let mut k: u8 = 0;
            while k < diff
                invariant
                    k <= diff,
                    delta_codes@ == before + Seq::new(k as nat, |i: int| DeltaSymbol::Increase),
                decreases diff - k,
            {
                delta_codes.push(DeltaSymbol::Increase);
                k = k + 1;
                proof {
                    assert(delta_codes@ =~= before + Seq::new(k as nat, |i: int| DeltaSymbol::Increase));
                }
            }
        } else {
            proof {
                assert(delta_codes@ =~= before + delta_steps(last_value, current_value));
            }
        }
        delta_codes.push(DeltaSymbol::Stop);
        proof {
            assert(input@.take(i + 1).drop_last() =~= input@.take(i as int));
            assert(input@.take(i + 1)[i - 1] == last_value);
            assert(delta_codes@ =~= before + delta_steps(last_value, current_value).push(DeltaSymbol::Stop));
        }
        last_value = current_value;
        i = i + 1;
    }
    proof {
        assert(input@.take(i as int) =~= input@);
    }
    DeltaEncoded::NonEmpty(DeltaEncodedSome { start_value: value, deltas: delta_codes })
}

} // verus!
