use vstd::prelude::*;
use vstd::set_lib::*;
use vstd::relations::injective_on;
use crate::block::bwt::{suffix_lt, rotation, is_min_suffix, lemma_min_suffix_unique, lemma_suffix_lt_after_agreement, lemma_suffix_lt_asymmetric, lemma_suffix_lt_irreflexive};
use crate::block::bwt::duval::rotate_duval;
use crate::block::bwt::sais::{build_suffix_array, is_suffix_array, occurs};
use crate::round_trip::rotations::lemma_seq_lt_total;

verus! {

/// The result of the Burrows-Wheeler transform: the last column of the sorted
/// rotations, and the row in which the input itself stands.
#[derive(Debug, Clone)]
pub struct BwtData {
    pub data: Vec<u8>,
    pub end_of_string: u32,
}

/// Whether `a` comes before `b` in lexicographic order, given that they agree on
/// their first `k` bytes; both have the same length.
pub open spec fn seq_lt(a: Seq<u8>, b: Seq<u8>, k: int) -> bool
    decreases a.len() - k,
{
    if k < 0 || k >= a.len() || k >= b.len() {
        false
    } else if a[k] != b[k] {
        a[k] < b[k]
    } else {
        seq_lt(a, b, k + 1)
    }
}

/// Whether the rotation of `text` that begins at `i` does not come after the one
/// that begins at `j`.
pub open spec fn rotation_le(text: Seq<u8>, i: int, j: int) -> bool {
    !seq_lt(rotation(text, j), rotation(text, i), 0)
}

/// Whether `rows` lists the places at which the rotations of `text` begin, every
/// place once, the rotations in ascending order.
pub open spec fn is_sorted_rotations(text: Seq<u8>, rows: Seq<usize>) -> bool {
    &&& rows.len() == text.len()
    &&& forall|r: int| 0 <= r < rows.len() ==> #[trigger] rows[r] < text.len()
    &&& forall|i: int| 0 <= i < text.len() ==> #[trigger] occurs(rows, i)
    &&& forall|a: int, b: int| 0 <= a < b < rows.len() ==> #[trigger] rows[a] != #[trigger] rows[b]
    &&& forall|a: int, b: int|
        0 <= a < b < rows.len() ==> rotation_le(text, #[trigger] rows[a] as int, #[trigger] rows[b] as int)
}

/// The last byte of every rotation, in the order of the rows: the byte before the
/// place at which the rotation begins.
pub open spec fn last_column(text: Seq<u8>, rows: Seq<usize>) -> Seq<u8> {
    Seq::new(
        text.len(),
        |r: int|
            if rows[r] > 0 {
                text[rows[r] - 1]
            } else {
                text[text.len() - 1]
            },
    )
}

/// The place at which the smallest non-empty suffix of `text` begins.
pub open spec fn smallest_suffix(text: Seq<u8>) -> int {
    choose|start: int| is_min_suffix(text, start)
}

/// How far behind `shift` the place `place` lies in a text of `len` bytes that is
/// read in a circle.
pub open spec fn turned_place(len: int, shift: int, place: int) -> int {
    if place >= shift {
        place - shift
    } else {
        place - shift + len
    }
}

/// Whether rotations of `text` that are equal stand in `rows` by their distance
/// behind `shift`, the farthest first.
pub open spec fn ties_descend(text: Seq<u8>, shift: int, rows: Seq<usize>) -> bool {
    forall|a: int, b: int|
        0 <= a < b < rows.len() && rotation(text, #[trigger] rows[a] as int) == rotation(
            text,
            #[trigger] rows[b] as int,
        ) ==> turned_place(text.len() as int, shift, rows[a] as int) > turned_place(
            text.len() as int,
            shift,
            rows[b] as int,
        )
}

/// Whether `data` and `end_of_string` are the transform of `input`: `data` is the
/// last column of the rotations of `input` in ascending order, and `end_of_string`
/// is the row in which `input` itself stands. Where the input repeats itself, so
/// that rotations are equal, they stand by their distance behind the smallest
/// suffix, the farthest first: this settles the row.
pub open spec fn is_bwt(input: Seq<u8>, data: Seq<u8>, end_of_string: int) -> bool {
    exists|rows: Seq<usize>|
        {
            &&& #[trigger] is_sorted_rotations(input, rows)
            &&& ties_descend(input, smallest_suffix(input), rows)
            &&& data == last_column(input, rows)
            &&& 0 <= end_of_string < input.len()
            &&& rows[end_of_string] == 0
        }
}

/// Two listings of the sorted rotations that settle ties alike agree in their first
/// `k` rows.
proof fn lemma_rows_agree(text: Seq<u8>, shift: int, first: Seq<usize>, second: Seq<usize>, k: int)
    requires
        is_sorted_rotations(text, first),
        is_sorted_rotations(text, second),
        ties_descend(text, shift, first),
        ties_descend(text, shift, second),
        0 <= k <= text.len(),
    ensures
        forall|r: int| 0 <= r < k ==> first[r] == second[r],
    decreases k,
{
    if k > 0 {
        lemma_rows_agree(text, shift, first, second, k - 1);
        let r = k - 1;
        let x = first[r];
        let y = second[r];
        if x != y {
            assert(occurs(second, x as int));
            let in_second = choose|j: int| 0 <= j < second.len() && #[trigger] second[j] == x;
            if in_second < r {
                assert(first[in_second] == second[in_second]);
                assert(first[in_second] != first[r]);
            }
            assert(rotation_le(text, second[r] as int, second[in_second] as int));
            assert(occurs(first, y as int));
            let in_first = choose|j: int| 0 <= j < first.len() && #[trigger] first[j] == y;
            if in_first < r {
                assert(first[in_first] == second[in_first]);
                assert(second[in_first] != second[r]);
            }
            assert(rotation_le(text, first[r] as int, first[in_first] as int));
            lemma_seq_lt_total(rotation(text, x as int), rotation(text, y as int), 0);
            assert(rotation(text, x as int) =~= rotation(text, y as int));
            assert(turned_place(text.len() as int, shift, first[r] as int) > turned_place(
                text.len() as int,
                shift,
                first[in_first] as int,
            ));
            assert(turned_place(text.len() as int, shift, second[r] as int) > turned_place(
                text.len() as int,
                shift,
                second[in_second] as int,
            ));
        }
    }
}

/// The transform is settled by the input: an input has one last column and one row.
pub proof fn lemma_bwt_unique(input: Seq<u8>, data: Seq<u8>, end_of_string: int, other_data: Seq<u8>, other_end: int)
    requires
        is_bwt(input, data, end_of_string),
        is_bwt(input, other_data, other_end),
    ensures
        data == other_data,
        end_of_string == other_end,
{
    let shift = smallest_suffix(input);
    let rows = choose|rows: Seq<usize>|
        {
            &&& #[trigger] is_sorted_rotations(input, rows)
            &&& ties_descend(input, shift, rows)
            &&& data == last_column(input, rows)
            &&& 0 <= end_of_string < input.len()
            &&& rows[end_of_string] == 0
        };
    let others = choose|rows: Seq<usize>|
        {
            &&& #[trigger] is_sorted_rotations(input, rows)
            &&& ties_descend(input, shift, rows)
            &&& other_data == last_column(input, rows)
            &&& 0 <= other_end < input.len()
            &&& rows[other_end] == 0
        };
    lemma_rows_agree(input, shift, rows, others, input.len() as int);
    assert(rows =~= others);
    if end_of_string < other_end {
        assert(rows[end_of_string] != rows[other_end]);
    } else if other_end < end_of_string {
        assert(rows[other_end] != rows[end_of_string]);
    }
}

/// The text twice.
pub open spec fn doubled(text: Seq<u8>) -> Seq<u8> {
    text + text
}

/// The place in `text` at which the rotation begins that begins at `place` in the
/// rotation of `text` by `shift`.
pub open spec fn unshifted(len: int, shift: int, place: int) -> int {
    if place + shift < len {
        place + shift
    } else {
        place + shift - len
    }
}

/// A rotation is a stretch of the doubled text.
pub proof fn lemma_rotation_in_doubled(text: Seq<u8>, start: int, k: int)
    requires
        0 <= start < text.len(),
        0 <= k < text.len(),
    ensures
        rotation(text, start)[k] == doubled(text)[start + k],
        rotation(text, start).len() == text.len(),
{
}

/// A rotation of a rotation is a rotation.
pub proof fn lemma_rotation_of_rotation(text: Seq<u8>, shift: int, place: int)
    requires
        0 <= shift < text.len(),
        0 <= place < text.len(),
    ensures
        rotation(rotation(text, shift), place) == rotation(text, unshifted(text.len() as int, shift, place)),
{
    assert(rotation(rotation(text, shift), place) =~= rotation(
        text,
        unshifted(text.len() as int, shift, place),
    ));
}

proof fn lemma_seq_lt_suffix_lt(text: Seq<u8>, a: int, b: int, k: int)
    requires
        0 <= a < text.len(),
        0 <= b < text.len(),
        0 <= k <= text.len(),
        forall|t: int| 0 <= t < k ==> #[trigger] doubled(text)[a + t] == doubled(text)[b + t],
        seq_lt(rotation(text, a), rotation(text, b), k),
    ensures
        suffix_lt(doubled(text), a, b),
    decreases text.len() - k,
{
    let t = doubled(text);
    lemma_rotation_in_doubled(text, a, k);
    lemma_rotation_in_doubled(text, b, k);
    if t[a + k] != t[b + k] {
        lemma_suffix_lt_after_agreement(t, a, b, k);
    } else {
        assert forall|u: int| 0 <= u < k + 1 implies #[trigger] t[a + u] == t[b + u] by {
            if u == k {
            }
        }
        lemma_seq_lt_suffix_lt(text, a, b, k + 1);
    }
}

/// Rotations are ordered as the suffixes of the doubled text that begin where they
/// begin.
pub proof fn lemma_suffix_order_is_rotation_order(text: Seq<u8>, a: int, b: int)
    requires
        0 <= a < text.len(),
        0 <= b < text.len(),
        suffix_lt(doubled(text), a, b),
    ensures
        rotation_le(text, a, b),
{
    if seq_lt(rotation(text, b), rotation(text, a), 0) {
        lemma_seq_lt_suffix_lt(text, b, a, 0);
        lemma_suffix_lt_asymmetric(doubled(text), a, b);
    }
}

/// Of two equal rotations the one that begins later is the smaller suffix of the
/// doubled text: it ends first.
pub proof fn lemma_equal_rotations_order(text: Seq<u8>, a: int, b: int)
    requires
        0 <= a < b < text.len(),
        rotation(text, a) == rotation(text, b),
    ensures
        suffix_lt(doubled(text), b, a),
{
    let t = doubled(text);
    let n = text.len() as int;
    assert forall|k: int| 0 <= k < 2 * n - b implies #[trigger] t[b + k] == t[a + k] by {
        if k < n {
            lemma_rotation_in_doubled(text, a, k);
            lemma_rotation_in_doubled(text, b, k);
        } else {
            lemma_rotation_in_doubled(text, a, k - n);
            lemma_rotation_in_doubled(text, b, k - n);
            assert(t[a + k] == t[a + k - n]);
            assert(t[b + k] == t[b + k - n]);
        }
    }
    lemma_suffix_lt_after_agreement(t, b, a, 2 * n - b);
}

/// How many of the first `k` entries lie below `n`.
pub open spec fn count_below(sa: Seq<usize>, n: int, k: int) -> int
    decreases k,
{
    if k <= 0 {
        0
    } else {
        count_below(sa, n, k - 1) + if sa[k - 1] < n {
            1int
        } else {
            0int
        }
    }
}

/// The places among the first `k` at which an entry below `n` stands.
pub open spec fn places_below(sa: Seq<usize>, n: int, k: int) -> Set<int> {
    Set::new(|r: int| 0 <= r < k && sa[r] < n)
}

proof fn lemma_places_below(sa: Seq<usize>, n: int, k: int)
    requires
        0 <= k <= sa.len(),
    ensures
        places_below(sa, n, k).finite(),
        places_below(sa, n, k).len() == count_below(sa, n, k),
    decreases k,
{
    if k == 0 {
        assert(places_below(sa, n, k) =~= Set::<int>::empty());
    } else {
        lemma_places_below(sa, n, k - 1);
        if sa[k - 1] < n {
            assert(places_below(sa, n, k) =~= places_below(sa, n, k - 1).insert(k - 1));
        } else {
            assert(places_below(sa, n, k) =~= places_below(sa, n, k - 1));
        }
    }
}

/// Of the suffixes of a text, as many begin below `n` as there are places below `n`.
pub proof fn lemma_count_below(text: Seq<u8>, sa: Seq<usize>, n: int)
    requires
        is_suffix_array(text, sa),
        0 <= n <= text.len(),
    ensures
        count_below(sa, n, sa.len() as int) == n,
{
    let places = places_below(sa, n, sa.len() as int);
    lemma_places_below(sa, n, sa.len() as int);
    let f = |r: int| sa[r] as int;
    assert(injective_on(f, places)) by {
        assert forall|a: int, b: int|
            places.contains(a) && places.contains(b) && #[trigger] f(a) == #[trigger] f(b) implies a
            == b by {
            if a < b {
                assert(suffix_lt(text, sa[a] as int, sa[b] as int));
                lemma_suffix_lt_irreflexive(text, sa[a] as int);
            } else if b < a {
                assert(suffix_lt(text, sa[b] as int, sa[a] as int));
                lemma_suffix_lt_irreflexive(text, sa[a] as int);
            }
        }
    }
    let image = places.map(f);
    lemma_map_size(places, image, f);
    lemma_int_range(0, n);
    assert(image =~= set_int_range(0, n)) by {
        assert forall|i: int| set_int_range(0, n).contains(i) implies image.contains(i) by {
            assert(occurs(sa, i));
            let r = choose|r: int| 0 <= r < sa.len() && #[trigger] sa[r] == i;
            assert(places.contains(r));
            assert(f(r) == i);
        }
        assert forall|i: int| image.contains(i) implies set_int_range(0, n).contains(i) by {
            let r = choose|r: int| places.contains(r) && i == f(r);
        }
    }
}

/// Transforms a non-empty text. The text is turned to begin at its smallest suffix;
/// the rotations are sorted by sorting the suffixes of the turned text written
/// twice, of which those count that begin in the first half. Returns the last
/// column and the row of the input.
pub fn bwt_private(string: &[u8]) -> (result: (Vec<u8>, usize))
    requires
        0 < string@.len() < usize::MAX / 4,
    ensures
        is_bwt(string@, result.0@, result.1 as int),
        result.0@.len() == string@.len(),
{
    let (rotated, shift) = rotate_duval(string);
    let len = string.len();
    let mut twice: Vec<u8> = Vec::new();
    twice.extend_from_slice(rotated.as_slice());
    twice.extend_from_slice(rotated.as_slice());
    proof {
        assert(twice@ =~= doubled(rotated@));
    }
    let entries = build_suffix_array(twice.as_slice());
    let target: usize = if shift == 0 { 0 } else { len - shift };
    let mut bwt: Vec<u8> = Vec::new();
    let mut orig_ptr: usize = 0;
    let mut found = false;
    let ghost text = rotated@;
    let ghost mut rows: Seq<usize> = Seq::empty();
    let mut r: usize = 0;
    while r < entries.len()
        invariant
            r <= entries@.len(),
            len == string@.len(),
            0 < len,
            text == rotated@,
            text == rotation(string@, shift as int),
            shift < len,
            text.len() == len,
            entries@.len() == 2 * len + 1,
            is_suffix_array(doubled(text), entries@),
            target < len,
            rows.len() == count_below(entries@, len as int, r as int),
            rows.len() == bwt@.len(),
            rows.len() <= r,
            forall|a: int| 0 <= a < rows.len() ==> #[trigger] rows[a] < len,
            forall|a: int, later: int|
                0 <= a < rows.len() && r <= later < entries@.len() ==> suffix_lt(
                    doubled(text),
                    #[trigger] rows[a] as int,
                    #[trigger] entries@[later] as int,
                ),
            forall|a: int, b: int|
                0 <= a < b < rows.len() ==> suffix_lt(
                    doubled(text),
                    #[trigger] rows[a] as int,
                    #[trigger] rows[b] as int,
                ),
            forall|k: int| 0 <= k < r && entries@[k] < len ==> occurs(rows, #[trigger] entries@[k] as int),
            forall|a: int|
                0 <= a < rows.len() ==> #[trigger] bwt@[a] == (if rows[a] > 0 {
                    text[rows[a] - 1]
                } else {
                    text[len - 1]
                }),
            found ==> orig_ptr < rows.len() && rows[orig_ptr as int] == target,
            !found ==> forall|a: int| 0 <= a < rows.len() ==> #[trigger] rows[a] != target,
        decreases entries@.len() - r,
    {
        let x = entries[r];
        if x < len {
            let index: usize = if x > 0 { x - 1 } else { len - 1 };
            if !found && x == target {
                orig_ptr = bwt.len();
                found = true;
            }
            let ghost before = rows;
            bwt.push(rotated[index]);
            proof {
                rows = rows.push(x);
                assert forall|a: int, later: int|
                    0 <= a < rows.len() && r + 1 <= later < entries@.len() implies suffix_lt(
                    doubled(text),
                    #[trigger] rows[a] as int,
                    #[trigger] entries@[later] as int,
                ) by {
                    if a < before.len() {
                        assert(rows[a] == before[a]);
                    } else {
                        assert(suffix_lt(doubled(text), entries@[r as int] as int, entries@[later] as int));
                    }
                }
                assert forall|a: int, b: int| 0 <= a < b < rows.len() implies suffix_lt(
                    doubled(text),
                    #[trigger] rows[a] as int,
                    #[trigger] rows[b] as int,
                ) by {
                    assert(rows[a] == before[a]);
                    if b < before.len() {
                        assert(rows[b] == before[b]);
                    } else {
                        assert(suffix_lt(doubled(text), before[a] as int, entries@[r as int] as int));
                    }
                }
                assert forall|k: int| 0 <= k < r + 1 && entries@[k] < len implies occurs(
                    rows,
                    #[trigger] entries@[k] as int,
                ) by {
                    if k < r {
                        assert(occurs(before, entries@[k] as int));
                        let at = choose|at: int| 0 <= at < before.len() && #[trigger] before[at] == entries@[k];
                        assert(rows[at] == entries@[k]);
                    } else {
                        assert(rows[rows.len() - 1] == entries@[k]);
                    }
                }
                assert forall|a: int| 0 <= a < rows.len() implies #[trigger] bwt@[a] == (if rows[a] > 0 {
                    text[rows[a] - 1]
                } else {
                    text[len - 1]
                }) by {
                    if a < before.len() {
                        assert(rows[a] == before[a]);
                    }
                }
            }
        }
        r = r + 1;
    }
    proof {
        lemma_count_below(doubled(text), entries@, len as int);
        assert(occurs(entries@, target as int));
        let k = choose|k: int| 0 <= k < entries@.len() && #[trigger] entries@[k] == target;
        assert(occurs(rows, entries@[k] as int));
        assert(found);
        // the rows, as places in the text before it was turned
        let n = len as int;
        let places = Seq::new(rows.len(), |a: int| unshifted(n, shift as int, rows[a] as int) as usize);
        assert forall|i: int| 0 <= i < n implies #[trigger] occurs(places, i) by {
            let turned = if i >= shift { i - shift } else { i - shift + n };
            assert(occurs(entries@, turned));
            let k = choose|k: int| 0 <= k < entries@.len() && #[trigger] entries@[k] == turned;
            assert(occurs(rows, entries@[k] as int));
            let at = choose|at: int| 0 <= at < rows.len() && #[trigger] rows[at] == turned;
            assert(places[at] == i);
        }
        assert forall|a: int, b: int| 0 <= a < b < places.len() implies #[trigger] places[a]
            != #[trigger] places[b] by {
            assert(suffix_lt(doubled(text), rows[a] as int, rows[b] as int));
            lemma_suffix_lt_irreflexive(doubled(text), rows[a] as int);
        }
        assert forall|a: int, b: int| 0 <= a < b < places.len() implies rotation_le(
            string@,
            #[trigger] places[a] as int,
            #[trigger] places[b] as int,
        ) by {
            assert(suffix_lt(doubled(text), rows[a] as int, rows[b] as int));
            lemma_suffix_order_is_rotation_order(text, rows[a] as int, rows[b] as int);
            lemma_rotation_of_rotation(string@, shift as int, rows[a] as int);
            lemma_rotation_of_rotation(string@, shift as int, rows[b] as int);
        }
        assert(bwt@ =~= last_column(string@, places)) by {
            assert forall|a: int| 0 <= a < n implies bwt@[a] == last_column(string@, places)[a] by {
                assert(rows[a] < len);
            }
        }
        assert(places[orig_ptr as int] == 0);
        assert(is_sorted_rotations(string@, places));
        lemma_min_suffix_unique(string@, shift as int, smallest_suffix(string@));
        assert forall|a: int, b: int|
            0 <= a < b < places.len() && rotation(string@, #[trigger] places[a] as int) == rotation(
                string@,
                #[trigger] places[b] as int,
            ) implies turned_place(n, shift as int, places[a] as int) > turned_place(
            n,
            shift as int,
            places[b] as int,
        ) by {
            assert(suffix_lt(doubled(text), rows[a] as int, rows[b] as int));
            lemma_rotation_of_rotation(string@, shift as int, rows[a] as int);
            lemma_rotation_of_rotation(string@, shift as int, rows[b] as int);
            if rows[a] < rows[b] {
                lemma_equal_rotations_order(text, rows[a] as int, rows[b] as int);
                lemma_suffix_lt_asymmetric(doubled(text), rows[a] as int, rows[b] as int);
            } else if rows[a] == rows[b] {
                lemma_suffix_lt_irreflexive(doubled(text), rows[a] as int);
            }
        }
        assert(ties_descend(string@, smallest_suffix(string@), places));
    }
    (bwt, orig_ptr)
}

/// Computes the Burrows-Wheeler transform of a non-empty input: the last column of
/// its sorted rotations, and the row of the input.
pub fn bwt(input: Vec<u8>) -> (result: BwtData)
    requires
        0 < input@.len() <= u32::MAX,
        input@.len() < usize::MAX / 4,
    ensures
        is_bwt(input@, result.data@, result.end_of_string as int),
        result.data@.len() == input@.len(),
{
    let res = bwt_private(input.as_slice());
    BwtData { data: res.0, end_of_string: res.1 as u32 }
}

} // verus!
