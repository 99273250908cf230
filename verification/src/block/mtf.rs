use vstd::prelude::*;
use std::collections::VecDeque;

verus! {

/// The result of the move-to-front transform: the position of every input byte in
/// the dictionary of its moment, and the bytes that occur in the input, ascending.
pub struct MtfData {
    pub encoded: Vec<u8>,
    pub used_symbols: Vec<u8>,
}

/// The bytes below `b` that occur in `input`, ascending.
pub open spec fn used_below(input: Seq<u8>, b: int) -> Seq<u8>
    decreases b,
{
    if b <= 0 {
        Seq::empty()
    } else if input.contains((b - 1) as u8) {
        used_below(input, b - 1).push((b - 1) as u8)
    } else {
        used_below(input, b - 1)
    }
}

/// The bytes that occur in `input`, ascending.
pub open spec fn used_symbols_spec(input: Seq<u8>) -> Seq<u8> {
    used_below(input, 256)
}

/// The first place at which `value` stands in `dict`; the length of `dict` where it
/// does not occur.
pub open spec fn first_index(dict: Seq<u8>, value: u8) -> int
    decreases dict.len(),
{
    if dict.len() == 0 {
        0
    } else if dict[0] == value {
        0
    } else {
        1 + first_index(dict.skip(1), value)
    }
}

/// `dict` with the entry at `position` moved to the front.
pub open spec fn move_to_front(dict: Seq<u8>, position: int) -> Seq<u8> {
    seq![dict[position]] + dict.remove(position)
}

/// The positions written so far and the dictionary, after all of `input`.
pub open spec fn mtf_state(dict: Seq<u8>, input: Seq<u8>) -> (Seq<u8>, Seq<u8>)
    decreases input.len(),
{
    if input.len() == 0 {
        (Seq::empty(), dict)
    } else {
        let before = mtf_state(dict, input.drop_last());
        let position = first_index(before.1, input.last());
        (before.0.push(position as u8), move_to_front(before.1, position))
    }
}

/// The move-to-front transform of `input` over its own sorted alphabet.
pub open spec fn mtf_spec(input: Seq<u8>) -> Seq<u8> {
    mtf_state(used_symbols_spec(input), input).0
}

/// The bytes read so far and the dictionary, after all of `codes`.
pub open spec fn inverse_mtf_state(dict: Seq<u8>, codes: Seq<u8>) -> (Seq<u8>, Seq<u8>)
    decreases codes.len(),
{
    if codes.len() == 0 {
        (Seq::empty(), dict)
    } else {
        let before = inverse_mtf_state(dict, codes.drop_last());
        let value = before.1[codes.last() as int];
        (before.0.push(value), move_to_front(before.1, first_index(before.1, value)))
    }
}

/// The bytes that the positions `codes` stand for over the dictionary `dict`.
pub open spec fn inverse_mtf_spec(codes: Seq<u8>, dict: Seq<u8>) -> Seq<u8> {
    inverse_mtf_state(dict, codes).0
}

/// Where a byte first stands in a dictionary: before that place it does not occur,
/// at that place it does.
pub proof fn lemma_first_index(dict: Seq<u8>, value: u8)
    ensures
        0 <= first_index(dict, value) <= dict.len(),
        first_index(dict, value) < dict.len() ==> dict[first_index(dict, value)] == value,
        forall|j: int| 0 <= j < first_index(dict, value) ==> dict[j] != value,
        dict.contains(value) ==> first_index(dict, value) < dict.len(),
    decreases dict.len(),
{
    if dict.len() > 0 && dict[0] != value {
        lemma_first_index(dict.skip(1), value);
        let rest = first_index(dict.skip(1), value);
        assert forall|j: int| 0 <= j < 1 + rest implies dict[j] != value by {
            if j > 0 {
                assert(dict.skip(1)[j - 1] == dict[j]);
            }
        }
        if dict.contains(value) {
            let i = choose|i: int| 0 <= i < dict.len() && dict[i] == value;
            assert(dict.skip(1)[i - 1] == value);
        }
    }
}

/// Moving an entry to the front keeps the length and the bytes of a dictionary.
pub proof fn lemma_move_to_front(dict: Seq<u8>, position: int)
    requires
        0 <= position < dict.len(),
    ensures
        move_to_front(dict, position).len() == dict.len(),
        forall|v: u8|
            #![trigger move_to_front(dict, position).contains(v)]
            #![trigger dict.contains(v)]
            move_to_front(dict, position).contains(v) <==> dict.contains(v),
{
    let moved = move_to_front(dict, position);
    assert forall|v: u8| moved.contains(v) <==> dict.contains(v) by {
        if moved.contains(v) {
            let i = choose|i: int| 0 <= i < moved.len() && moved[i] == v;
            if i == 0 {
                assert(dict[position] == v);
            } else if i - 1 < position {
                assert(dict[i - 1] == v);
            } else {
                assert(dict[i] == v);
            }
        }
        if dict.contains(v) {
            let i = choose|i: int| 0 <= i < dict.len() && dict[i] == v;
            if i == position {
                assert(moved[0] == v);
            } else if i < position {
                assert(moved[i + 1] == v);
            } else {
                assert(moved[i] == v);
            }
        }
    }
}

/// The used symbols of an input are exactly the bytes that occur in it, at most 256
/// of them.
pub proof fn lemma_used_below(input: Seq<u8>, b: int)
    requires
        0 <= b <= 256,
    ensures
        used_below(input, b).len() <= b,
        forall|v: u8|
            #![trigger used_below(input, b).contains(v)]
            #![trigger input.contains(v)]
            used_below(input, b).contains(v) <==> (v < b && input.contains(v)),
        forall|i: int, j: int|
            0 <= i < j < used_below(input, b).len() ==> used_below(input, b)[i] < used_below(input, b)[j],
    decreases b,
{
    if b > 0 {
        lemma_used_below(input, b - 1);
        let prev = used_below(input, b - 1);
        let cur = used_below(input, b);
        let top = (b - 1) as u8;
        if input.contains(top) {
            assert(cur == prev.push(top));
            assert forall|v: u8| cur.contains(v) implies (v < b && input.contains(v)) by {
                let i = choose|i: int| 0 <= i < cur.len() && cur[i] == v;
                if i < prev.len() {
                    assert(prev[i] == v);
                    assert(prev.contains(v));
                    assert(v < b - 1 && input.contains(v));
                } else {
                    assert(v == top);
                }
            }
            assert forall|v: u8| (v < b && input.contains(v)) implies cur.contains(v) by {
                if v < b - 1 {
                    assert(prev.contains(v));
                    let i = choose|i: int| 0 <= i < prev.len() && prev[i] == v;
                    assert(cur[i] == v);
                } else {
                    assert(v == top);
                    assert(cur[cur.len() - 1] == v);
                }
            }
            assert forall|i: int, j: int| 0 <= i < j < cur.len() implies cur[i] < cur[j] by {
                assert(prev[i] == cur[i]);
                if j == prev.len() {
                    assert(prev.contains(prev[i]));
                    assert(prev[i] < b - 1);
                    assert(cur[j] == top);
                } else {
                    assert(prev[j] == cur[j]);
                }
            }
        } else {
            assert(cur == prev);
            assert forall|v: u8| cur.contains(v) <==> (v < b && input.contains(v)) by {
                if v < b && input.contains(v) {
                    assert(v != top);
                }
            }
        }
    }
}

/// The transform keeps the bytes of the dictionary, and writes one position for
/// every byte.
pub proof fn lemma_mtf_state(dict: Seq<u8>, input: Seq<u8>)
    requires
        forall|i: int| 0 <= i < input.len() ==> dict.contains(#[trigger] input[i]),
    ensures
        mtf_state(dict, input).0.len() == input.len(),
        mtf_state(dict, input).1.len() == dict.len(),
        forall|v: u8| #[trigger] mtf_state(dict, input).1.contains(v) <==> dict.contains(v),
        dict.len() <= 256 ==> forall|i: int|
            0 <= i < input.len() ==> (#[trigger] mtf_state(dict, input).0[i] as int) < dict.len(),
    decreases input.len(),
{
    if input.len() > 0 {
        let rest = input.drop_last();
        assert forall|i: int| 0 <= i < rest.len() implies dict.contains(#[trigger] rest[i]) by {
            assert(rest[i] == input[i]);
        }
        lemma_mtf_state(dict, rest);
        let before = mtf_state(dict, rest);
        assert(input.last() == input[input.len() - 1]);
        assert(before.1.contains(input.last()));
        lemma_first_index(before.1, input.last());
        lemma_move_to_front(before.1, first_index(before.1, input.last()));
    }
}

/// Inverting the transform over the same dictionary gives the input, and leaves the
/// dictionary as the transform left it.
pub proof fn lemma_mtf_inverts(dict: Seq<u8>, input: Seq<u8>)
    requires
        forall|i: int| 0 <= i < input.len() ==> dict.contains(#[trigger] input[i]),
        dict.len() <= 256,
    ensures
        inverse_mtf_state(dict, mtf_state(dict, input).0) == (input, mtf_state(dict, input).1),
    decreases input.len(),
{
    if input.len() == 0 {
    } else {
        let rest = input.drop_last();
        assert forall|i: int| 0 <= i < rest.len() implies dict.contains(#[trigger] rest[i]) by {
            assert(rest[i] == input[i]);
        }
        lemma_mtf_inverts(dict, rest);
        lemma_mtf_state(dict, rest);
        let before = mtf_state(dict, rest);
        let value = input.last();
        assert(value == input[input.len() - 1]);
        assert(before.1.contains(value));
        lemma_first_index(before.1, value);
        let position = first_index(before.1, value);
        let codes = mtf_state(dict, input).0;
        assert(codes == before.0.push(position as u8));
        assert(codes.drop_last() =~= before.0);
        assert(codes.last() == position as u8);
        assert(before.1[position] == value);
        assert(rest.push(value) =~= input);
    }
}

/// Inverting the move-to-front transform of a text over its used symbols gives the
/// text.
pub proof fn lemma_mtf_round_trip(input: Seq<u8>)
    ensures
        inverse_mtf_spec(mtf_spec(input), used_symbols_spec(input)) == input,
{
    lemma_used_below(input, 256);
    assert forall|i: int| 0 <= i < input.len() implies used_symbols_spec(input).contains(
        #[trigger] input[i],
    ) by {
        assert(input.contains(input[i]));
    }
    lemma_mtf_inverts(used_symbols_spec(input), input);
}

/// Collects the bytes that occur in the input, ascending, as the first dictionary and
/// as the list of used symbols.
pub fn create_dict(input: &[u8]) -> (result: (VecDeque<u8>, Vec<u8>))
    ensures
        result.0@ == used_symbols_spec(input@),
        result.1@ == used_symbols_spec(input@),
{
    let mut dict: Vec<bool> = vec![false; 256];
    let mut i: usize = 0;
    while i < input.len()
        invariant
            i <= input@.len(),
            dict@.len() == 256,
            forall|b: int| 0 <= b < 256 ==> (#[trigger] dict@[b] <==> input@.take(i as int).contains(b as u8)),
        decreases input@.len() - i,
    {
        let ghost before = input@.take(i as int);
        dict[input[i] as usize] = true;
        i = i + 1;
        proof {
            let after = input@.take(i as int);
            assert(after =~= before.push(input@[i - 1]));
            assert forall|b: int| 0 <= b < 256 implies (#[trigger] dict@[b] <==> after.contains(b as u8)) by {
                if before.contains(b as u8) {
                    let k = choose|k: int| 0 <= k < before.len() && before[k] == b as u8;
                    assert(after[k] == b as u8);
                }
                if b as u8 == input@[i - 1] {
                    assert(after[i - 1] == b as u8);
                }
                if after.contains(b as u8) {
                    let k = choose|k: int| 0 <= k < after.len() && after[k] == b as u8;
                    if k < i - 1 {
                        assert(before[k] == b as u8);
                    }
                }
            }
        }
    }
    proof {
        assert(input@.take(i as int) =~= input@);
    }
    let mut used_symbols: Vec<u8> = Vec::new();
    let mut dict_vec: VecDeque<u8> = VecDeque::new();
    let mut b: usize = 0;
    while b < 256
        invariant
            b <= 256,
            dict@.len() == 256,
            forall|c: int| 0 <= c < 256 ==> (#[trigger] dict@[c] <==> input@.contains(c as u8)),
            used_symbols@ == used_below(input@, b as int),
            dict_vec@ == used_below(input@, b as int),
        decreases 256 - b,
    {
        if dict[b] {
            used_symbols.push(b as u8);
            dict_vec.push_back(b as u8);
        }
        b = b + 1;
    }
    (dict_vec, used_symbols)
}

/// Moves the entry at `position` to the front of the dictionary.
pub fn bring_to_front_of_dict(position: u8, dict: &mut VecDeque<u8>)
    requires
        position < old(dict)@.len(),
    ensures
        final(dict)@ == move_to_front(old(dict)@, position as int),
{
    if let Some(el) = dict.remove(position as usize) {
        dict.push_front(el);
    }
}

/// Finds where `i` first stands in the dictionary.
pub fn find_pos(i: u8, dict: &VecDeque<u8>) -> (position: u8)
    requires
        dict@.contains(i),
        dict@.len() <= 256,
    ensures
        position == first_index(dict@, i),
        position < dict@.len(),
{
    proof {
        lemma_first_index(dict@, i);
    }
    let mut position: usize = 0;
    while position < dict.len() && dict[position] != i
        invariant
            position <= dict@.len(),
            position <= first_index(dict@, i) < dict@.len(),
            dict@[first_index(dict@, i)] == i,
            forall|j: int| 0 <= j < position ==> dict@[j] != i,
        decreases dict@.len() - position,
    {
        position = position + 1;
    }
    position as u8
}

/// The move-to-front transform: every byte is replaced by its position in a
/// dictionary that starts as the sorted alphabet of the input and moves each byte
/// to the front when it is met.
pub fn mtf(mtf_input: &[u8]) -> (result: MtfData)
    ensures
        result.used_symbols@ == used_symbols_spec(mtf_input@),
        result.encoded@ == mtf_spec(mtf_input@),
        result.encoded@.len() == mtf_input@.len(),
        forall|i: int| 0 <= i < result.encoded@.len() ==> #[trigger] result.encoded@[i] < result.used_symbols@.len(),
{
    let mut mtf_result: Vec<u8> = Vec::new();
    let (mut dict, used_symbols) = create_dict(mtf_input);
    proof {
        lemma_used_below(mtf_input@, 256);
    }
    let mut i: usize = 0;
    while i < mtf_input.len()
        invariant
            i <= mtf_input@.len(),
            used_symbols@ == used_symbols_spec(mtf_input@),
            dict@.len() == used_symbols@.len(),
            dict@.len() <= 256,
            forall|v: u8| dict@.contains(v) <==> mtf_input@.contains(v),
            (mtf_result@, dict@) == mtf_state(used_symbols_spec(mtf_input@), mtf_input@.take(i as int)),
            mtf_result@.len() == i,
            forall|k: int| 0 <= k < mtf_result@.len() ==> #[trigger] mtf_result@[k] < used_symbols@.len(),
        decreases mtf_input@.len() - i,
    {
        let value = mtf_input[i];
        proof {
            assert(mtf_input@.contains(value));
            assert(mtf_input@.take(i + 1).drop_last() =~= mtf_input@.take(i as int));
        }
        let pos = find_pos(value, &dict);
        mtf_result.push(pos);
        proof {
            lemma_move_to_front(dict@, pos as int);
        }
        bring_to_front_of_dict(pos, &mut dict);
        i = i + 1;
    }
    proof {
        assert(mtf_input@.take(i as int) =~= mtf_input@);
    }
    MtfData { encoded: mtf_result, used_symbols }
}

/// Whether every position in `codes` lies inside a dictionary of `size` entries.
pub open spec fn codes_in_range(codes: Seq<u8>, size: int) -> bool {
    forall|i: int| 0 <= i < codes.len() ==> #[trigger] codes[i] < size
}

/// Checks that every position lies inside a dictionary of `size` entries.
pub fn check_codes_in_range(codes: &[u8], size: usize) -> (ok: bool)
    ensures
        ok == codes_in_range(codes@, size as int),
{
    let mut i: usize = 0;
    while i < codes.len()
        invariant
            i <= codes@.len(),
            forall|k: int| 0 <= k < i ==> #[trigger] codes@[k] < size,
        decreases codes@.len() - i,
    {
        if codes[i] as usize >= size {
            return false;
        }
        i = i + 1;
    }
    true
}

/// The bytes that positions stand for are bytes of the dictionary.
pub proof fn lemma_inverse_mtf_range(codes: Seq<u8>, dict: Seq<u8>, size: int)
    requires
        codes_in_range(codes, dict.len() as int),
        forall|i: int| 0 <= i < dict.len() ==> (#[trigger] dict[i] as int) < size,
    ensures
        inverse_mtf_state(dict, codes).0.len() == codes.len(),
        inverse_mtf_state(dict, codes).1.len() == dict.len(),
        forall|i: int| 0 <= i < codes.len() ==> (#[trigger] inverse_mtf_state(dict, codes).0[i] as int) < size,
        forall|i: int| 0 <= i < dict.len() ==> (#[trigger] inverse_mtf_state(dict, codes).1[i] as int) < size,
    decreases codes.len(),
{
    if codes.len() > 0 {
        let rest = codes.drop_last();
        assert forall|i: int| 0 <= i < rest.len() implies #[trigger] rest[i] < dict.len() by {
            assert(rest[i] == codes[i]);
        }
        lemma_inverse_mtf_range(rest, dict, size);
        let before = inverse_mtf_state(dict, rest);
        assert(codes.last() == codes[codes.len() - 1]);
        let value = before.1[codes.last() as int];
        lemma_first_index(before.1, value);
        assert(before.1.contains(value));
        let position = first_index(before.1, value);
        let moved = move_to_front(before.1, position);
        assert forall|i: int| 0 <= i < moved.len() implies (#[trigger] moved[i] as int) < size by {
            if i == 0 {
            } else if i - 1 < position {
                assert(moved[i] == before.1[i - 1]);
            } else {
                assert(moved[i] == before.1[i]);
            }
        }
    }
}

/// Inverts the move-to-front transform over the given first dictionary.
pub fn inverse_mtf(input: &[u8], dictionary: &[u8]) -> (output: Vec<u8>)
    requires
        codes_in_range(input@, dictionary@.len() as int),
        dictionary@.len() <= 256,
    ensures
        output@ == inverse_mtf_spec(input@, dictionary@),
        output@.len() == input@.len(),
{
    let mut output: Vec<u8> = Vec::new();
    let mut dict: VecDeque<u8> = VecDeque::new();
    let mut d: usize = 0;
    while d < dictionary.len()
        invariant
            d <= dictionary@.len(),
            dict@ == dictionary@.take(d as int),
        decreases dictionary@.len() - d,
    {
        dict.push_back(dictionary[d]);
        d = d + 1;
        proof {
            assert(dict@ =~= dictionary@.take(d as int));
        }
    }
    proof {
        assert(dictionary@.take(d as int) =~= dictionary@);
    }
    let mut i: usize = 0;
    while i < input.len()
        invariant
            i <= input@.len(),
            dict@.len() == dictionary@.len(),
            dictionary@.len() <= 256,
            codes_in_range(input@, dictionary@.len() as int),
            (output@, dict@) == inverse_mtf_state(dictionary@, input@.take(i as int)),
            output@.len() == i,
        decreases input@.len() - i,
    {
        let code = input[i];
        proof {
            assert(input@.take(i + 1).drop_last() =~= input@.take(i as int));
        }
        let value = dict[code as usize];
        output.push(value);
        proof {
            assert(dict@[code as int] == value);
            assert(dict@.contains(value));
        }
        let pos = find_pos(value, &dict);
        proof {
            lemma_move_to_front(dict@, pos as int);
        }
        bring_to_front_of_dict(pos, &mut dict);
        i = i + 1;
    }
    proof {
        assert(input@.take(i as int) =~= input@);
    }
    output
}

} // verus!
