use vstd::prelude::*;
use vstd::set_lib::*;
use vstd::relations::injective_on;
use crate::block::bwt::rotation;
use crate::block::bwt::bwt_internal::{seq_lt, rotation_le, is_sorted_rotations, last_column, is_bwt};
use crate::block::bwt::bwt_inverse::{count_less, count_equal, sorted_position, place_at, stable_order_spec, follow, walk, inverse_bwt_spec, lemma_sorted_position_onto};
use crate::block::bwt::sais::occurs;

verus! {

/// The place after `s` in a text of `n` bytes that is read in a circle.
pub open spec fn next_place(n: int, s: int) -> int {
    if s + 1 < n {
        s + 1
    } else {
        0
    }
}

/// The place before `s` in a text of `n` bytes that is read in a circle.
pub open spec fn previous_place(n: int, s: int) -> int {
    if s > 0 {
        s - 1
    } else {
        n - 1
    }
}

/// The bytes of a rotation.
pub proof fn lemma_rotation_index(text: Seq<u8>, s: int, k: int)
    requires
        0 <= s < text.len(),
        0 <= k < text.len(),
    ensures
        rotation(text, s).len() == text.len(),
        rotation(text, s)[k] == if s + k < text.len() {
            text[s + k]
        } else {
            text[s + k - text.len()]
        },
{
}

/// No text comes before itself.
pub proof fn lemma_seq_lt_irreflexive(a: Seq<u8>, k: int)
    ensures
        !seq_lt(a, a, k),
    decreases a.len() - k,
{
    if 0 <= k < a.len() {
        lemma_seq_lt_irreflexive(a, k + 1);
    }
}

/// The order of texts is transitive.
pub proof fn lemma_seq_lt_transitive(a: Seq<u8>, b: Seq<u8>, c: Seq<u8>, k: int)
    requires
        a.len() == b.len(),
        b.len() == c.len(),
        seq_lt(a, b, k),
        seq_lt(b, c, k),
    ensures
        seq_lt(a, c, k),
    decreases a.len() - k,
{
    if 0 <= k < a.len() && a[k] == b[k] && b[k] == c[k] {
        lemma_seq_lt_transitive(a, b, c, k + 1);
    }
}

/// Texts of one length that agree from `k` on or of which neither comes before the
/// other from `k` on are equal there.
pub proof fn lemma_seq_lt_total(a: Seq<u8>, b: Seq<u8>, k: int)
    requires
        a.len() == b.len(),
        0 <= k,
        !seq_lt(a, b, k),
        !seq_lt(b, a, k),
    ensures
        forall|t: int| k <= t < a.len() ==> a[t] == b[t],
    decreases a.len() - k,
{
    if k < a.len() {
        lemma_seq_lt_total(a, b, k + 1);
    }
}

/// A text that does not come after another, which comes before a third, comes
/// before the third.
pub proof fn lemma_seq_le_lt(a: Seq<u8>, b: Seq<u8>, c: Seq<u8>, k: int)
    requires
        a.len() == b.len(),
        b.len() == c.len(),
        0 <= k,
        !seq_lt(b, a, k),
        seq_lt(b, c, k),
    ensures
        seq_lt(a, c, k),
    decreases a.len() - k,
{
    if k < a.len() {
        if a[k] == b[k] && b[k] == c[k] {
            lemma_seq_le_lt(a, b, c, k + 1);
        }
    }
}

/// A text that comes before another, which does not come after a third, comes
/// before the third.
pub proof fn lemma_seq_lt_le(a: Seq<u8>, b: Seq<u8>, c: Seq<u8>, k: int)
    requires
        a.len() == b.len(),
        b.len() == c.len(),
        0 <= k,
        seq_lt(a, b, k),
        !seq_lt(c, b, k),
    ensures
        seq_lt(a, c, k),
    decreases a.len() - k,
{
    if k < a.len() {
        if a[k] == b[k] && b[k] == c[k] {
            lemma_seq_lt_le(a, b, c, k + 1);
        }
    }
}

/// Two rotations that end with the same byte are ordered as the rotations that
/// begin one place earlier.
pub proof fn lemma_shifted_order(text: Seq<u8>, s: int, t: int, k: int)
    requires
        0 <= s < text.len(),
        0 <= t < text.len(),
        0 <= k <= text.len() - 1,
        text[previous_place(text.len() as int, s)] == text[previous_place(text.len() as int, t)],
    ensures
        seq_lt(
            rotation(text, previous_place(text.len() as int, s)),
            rotation(text, previous_place(text.len() as int, t)),
            k + 1,
        ) == seq_lt(rotation(text, s), rotation(text, t), k),
    decreases text.len() - k,
{
    let n = text.len() as int;
    let ps = previous_place(n, s);
    let pt = previous_place(n, t);
    lemma_rotation_index(text, s, k);
    lemma_rotation_index(text, t, k);
    if k + 1 < n {
        lemma_rotation_index(text, ps, k + 1);
        lemma_rotation_index(text, pt, k + 1);
        lemma_shifted_order(text, s, t, k + 1);
    } else {
        assert(!seq_lt(rotation(text, s), rotation(text, t), k + 1));
    }
}

/// How many of the first `k` flags are set.
pub open spec fn count_true(flags: Seq<bool>, k: int) -> int
    decreases k,
{
    if k <= 0 {
        0
    } else {
        count_true(flags, k - 1) + if flags[k - 1] {
            1int
        } else {
            0int
        }
    }
}

/// The places among the first `k` whose flags are set.
pub open spec fn true_places(flags: Seq<bool>, k: int) -> Set<int> {
    Set::new(|q: int| 0 <= q < k && flags[q])
}

/// There are as many places whose flags are set as flags that are set.
pub proof fn lemma_true_places(flags: Seq<bool>, k: int)
    requires
        0 <= k <= flags.len(),
    ensures
        true_places(flags, k).finite(),
        true_places(flags, k).len() == count_true(flags, k),
    decreases k,
{
    if k == 0 {
        assert(true_places(flags, k) =~= Set::<int>::empty());
    } else {
        lemma_true_places(flags, k - 1);
        if flags[k - 1] {
            assert(true_places(flags, k) =~= true_places(flags, k - 1).insert(k - 1));
        } else {
            assert(true_places(flags, k) =~= true_places(flags, k - 1));
        }
    }
}

/// Flags that imply other flags are set no more often.
pub proof fn lemma_count_true_implies(a: Seq<bool>, b: Seq<bool>, k: int)
    requires
        0 <= k <= a.len(),
        a.len() == b.len(),
        forall|q: int| 0 <= q < k && a[q] ==> b[q],
    ensures
        count_true(a, k) <= count_true(b, k),
    decreases k,
{
    if k > 0 {
        lemma_count_true_implies(a, b, k - 1);
    }
}

/// Flags that are set at the first `p` places are set at least `p` times; flags that
/// are set nowhere from `p` on are set at most `p` times.
pub proof fn lemma_count_true_bounds(flags: Seq<bool>, p: int, k: int)
    requires
        0 <= p <= k <= flags.len(),
    ensures
        (forall|q: int| 0 <= q < p ==> flags[q]) ==> count_true(flags, k) >= p,
        (forall|q: int| p <= q < k ==> !flags[q]) ==> count_true(flags, k) <= p,
        0 <= count_true(flags, k) <= k,
    decreases k,
{
    if k > 0 {
        if p < k {
            lemma_count_true_bounds(flags, p, k - 1);
        } else {
            lemma_count_true_bounds(flags, p - 1, k - 1);
        }
    }
}

/// Flags counted along a list that holds every place once are set as often as the
/// flags themselves.
pub proof fn lemma_count_true_permuted(flags: Seq<bool>, rows: Seq<usize>)
    requires
        rows.len() == flags.len(),
        forall|r: int| 0 <= r < rows.len() ==> #[trigger] rows[r] < flags.len(),
        forall|i: int| 0 <= i < flags.len() ==> #[trigger] occurs(rows, i),
        forall|a: int, b: int| 0 <= a < b < rows.len() ==> #[trigger] rows[a] != #[trigger] rows[b],
    ensures
        count_true(Seq::new(flags.len(), |q: int| flags[rows[q] as int]), flags.len() as int) == count_true(
            flags,
            flags.len() as int,
        ),
{
    let n = flags.len() as int;
    let along = Seq::new(flags.len(), |q: int| flags[rows[q] as int]);
    lemma_true_places(along, n);
    lemma_true_places(flags, n);
    let from = true_places(along, n);
    let to = true_places(flags, n);
    let f = |q: int| rows[q] as int;
    assert(injective_on(f, from)) by {
        assert forall|a: int, b: int|
            from.contains(a) && from.contains(b) && #[trigger] f(a) == #[trigger] f(b) implies a == b by {
            if a < b {
                assert(rows[a] != rows[b]);
            } else if b < a {
                assert(rows[b] != rows[a]);
            }
        }
    }
    assert(from.map(f) =~= to) by {
        assert forall|i: int| to.contains(i) implies from.map(f).contains(i) by {
            assert(occurs(rows, i));
            let r = choose|r: int| 0 <= r < rows.len() && #[trigger] rows[r] == i;
            assert(from.contains(r));
            assert(f(r) == i);
        }
        assert forall|i: int| from.map(f).contains(i) implies to.contains(i) by {
            let r = choose|r: int| from.contains(r) && i == f(r);
        }
    }
    lemma_map_size(from, to, f);
}

/// Flags moved on by one place in a circle are set as often as before.
pub proof fn lemma_count_true_shifted(flags: Seq<bool>)
    requires
        flags.len() >= 1,
    ensures
        count_true(
            Seq::new(flags.len(), |s: int| flags[previous_place(flags.len() as int, s)]),
            flags.len() as int,
        ) == count_true(flags, flags.len() as int),
{
    let n = flags.len() as int;
    let moved = Seq::new(flags.len(), |s: int| flags[previous_place(n, s)]);
    lemma_count_true_moved(flags, n);
}

proof fn lemma_count_true_moved(flags: Seq<bool>, k: int)
    requires
        1 <= k <= flags.len(),
    ensures
        count_true(
            Seq::new(flags.len(), |s: int| flags[previous_place(flags.len() as int, s)]),
            k,
        ) == count_true(flags, k - 1) + if flags[flags.len() - 1] {
            1int
        } else {
            0int
        },
    decreases k,
{
    let n = flags.len() as int;
    let moved = Seq::new(flags.len(), |s: int| flags[previous_place(n, s)]);
    if k > 1 {
        lemma_count_true_moved(flags, k - 1);
        assert(moved[k - 1] == flags[k - 2]);
        assert(count_true(flags, k - 1) == count_true(flags, k - 2) + if flags[k - 2] {
            1int
        } else {
            0int
        });
    } else {
        assert(moved[0] == flags[n - 1]);
        assert(count_true(moved, 0) == 0);
        assert(count_true(flags, 0) == 0);
    }
}

/// In the last column, the bytes that come before the byte of the row `i` in the
/// sorted order are those that are smaller, and those that are equal and stand in
/// an earlier row.
pub proof fn lemma_count_before(data: Seq<u8>, i: int, k: int)
    requires
        0 <= i < data.len(),
        0 <= k <= data.len(),
    ensures
        count_true(
            Seq::new(data.len(), |q: int| data[q] < data[i] || (data[q] == data[i] && q < i)),
            k,
        ) == count_less(data, data[i] as int, k) + count_equal(
            data,
            data[i] as int,
            if k < i {
                k
            } else {
                i
            },
        ),
        count_true(
            Seq::new(data.len(), |q: int| data[q] < data[i] || (data[q] == data[i] && q <= i)),
            k,
        ) == count_less(data, data[i] as int, k) + count_equal(
            data,
            data[i] as int,
            if k < i + 1 {
                k
            } else {
                i + 1
            },
        ),
    decreases k,
{
    if k > 0 {
        lemma_count_before(data, i, k - 1);
    }
}

/// Whether the rotations of `text` stand in `rows` in ascending order, and `data` is
/// their last column.
pub open spec fn is_sorted_matrix(text: Seq<u8>, rows: Seq<usize>, data: Seq<u8>) -> bool {
    &&& text.len() >= 1
    &&& is_sorted_rotations(text, rows)
    &&& data == last_column(text, rows)
}

/// The rotation in the row `q`.
pub open spec fn row(text: Seq<u8>, rows: Seq<usize>, q: int) -> Seq<u8> {
    rotation(text, rows[q] as int)
}

/// The rotation that begins one place before the rotation in the row `q`.
pub open spec fn row_before(text: Seq<u8>, rows: Seq<usize>, q: int) -> Seq<u8> {
    rotation(text, previous_place(text.len() as int, rows[q] as int))
}

/// The rows are ordered without gaps: any two rows are in order.
proof fn lemma_rows_ordered(text: Seq<u8>, rows: Seq<usize>, a: int, b: int)
    requires
        is_sorted_rotations(text, rows),
        0 <= a <= b < rows.len(),
    ensures
        !seq_lt(row(text, rows, b), row(text, rows, a), 0),
{
    if a == b {
        lemma_seq_lt_irreflexive(row(text, rows, a), 0);
    } else {
        assert(rotation_le(text, rows[a] as int, rows[b] as int));
    }
}

/// How the rotations that begin one place before the rows are ordered: by the last
/// bytes of the rows, and by the rows where these are equal.
proof fn lemma_order_of_rows_before(text: Seq<u8>, rows: Seq<usize>, data: Seq<u8>, i: int, q: int)
    requires
        is_sorted_matrix(text, rows, data),
        0 <= i < text.len(),
        0 <= q < text.len(),
    ensures
        seq_lt(row_before(text, rows, q), row_before(text, rows, i), 0) ==> data[q] < data[i] || (data[q]
            == data[i] && q < i),
        data[q] < data[i] || (data[q] == data[i] && q <= i) ==> !seq_lt(
            row_before(text, rows, i),
            row_before(text, rows, q),
            0,
        ),
{
    let n = text.len() as int;
    let s = rows[q] as int;
    let t = rows[i] as int;
    lemma_rotation_index(text, previous_place(n, s), 0);
    lemma_rotation_index(text, previous_place(n, t), 0);
    assert(data[q] == text[previous_place(n, s)]);
    assert(data[i] == text[previous_place(n, t)]);
    if data[q] == data[i] {
        lemma_shifted_order(text, s, t, 0);
        lemma_shifted_order(text, t, s, 0);
        if q <= i {
            lemma_rows_ordered(text, rows, q, i);
        }
        if i <= q {
            lemma_rows_ordered(text, rows, i, q);
        }
    }
}

/// A row that has at most `p` rows before it that come before a text, and more than
/// `p` rows that do not come after it, holds the text.
proof fn lemma_row_found(text: Seq<u8>, rows: Seq<usize>, other: Seq<u8>, p: int)
    requires
        is_sorted_rotations(text, rows),
        text.len() >= 1,
        other.len() == text.len(),
        0 <= p < text.len(),
        count_true(Seq::new(text.len(), |q: int| seq_lt(row(text, rows, q), other, 0)), text.len() as int)
            <= p,
        count_true(Seq::new(text.len(), |q: int| !seq_lt(other, row(text, rows, q), 0)), text.len() as int)
            > p,
    ensures
        row(text, rows, p) == other,
{
    let n = text.len() as int;
    let before = Seq::new(text.len(), |q: int| seq_lt(row(text, rows, q), other, 0));
    let not_after = Seq::new(text.len(), |q: int| !seq_lt(other, row(text, rows, q), 0));
    let mine = row(text, rows, p);
    lemma_rotation_index(text, rows[p] as int, 0);
    if seq_lt(mine, other, 0) {
        assert forall|q: int| 0 <= q < p + 1 implies before[q] by {
            lemma_rows_ordered(text, rows, q, p);
            lemma_rotation_index(text, rows[q] as int, 0);
            lemma_seq_le_lt(row(text, rows, q), mine, other, 0);
        }
        lemma_count_true_bounds(before, p + 1, n);
    } else if seq_lt(other, mine, 0) {
        assert forall|q: int| p <= q < n implies !not_after[q] by {
            lemma_rows_ordered(text, rows, p, q);
            lemma_rotation_index(text, rows[q] as int, 0);
            lemma_seq_lt_le(other, mine, row(text, rows, q), 0);
        }
        lemma_count_true_bounds(not_after, p, n);
    } else {
        lemma_seq_lt_total(mine, other, 0);
        assert(mine =~= other);
    }
}

/// The row at the sorted position of the last byte of the row `i` holds the rotation
/// that begins one place before the rotation of the row `i`.
pub proof fn lemma_row_at_sorted_position(text: Seq<u8>, rows: Seq<usize>, data: Seq<u8>, i: int)
    requires
        is_sorted_matrix(text, rows, data),
        0 <= i < text.len(),
    ensures
        0 <= sorted_position(data, i) < text.len(),
        row(text, rows, sorted_position(data, i)) == row_before(text, rows, i),
{
    let n = text.len() as int;
    let p = sorted_position(data, i);
    let other = row_before(text, rows, i);
    crate::block::bwt::bwt_inverse::lemma_sorted_position(data, i, i);
    lemma_rotation_index(text, previous_place(n, rows[i] as int), 0);
    // the rows that come before the text, counted by the places at which they begin
    let starts_before = Seq::new(text.len(), |s: int| seq_lt(rotation(text, s), other, 0));
    let starts_not_after = Seq::new(text.len(), |s: int| !seq_lt(other, rotation(text, s), 0));
    let before = Seq::new(text.len(), |q: int| seq_lt(row(text, rows, q), other, 0));
    let not_after = Seq::new(text.len(), |q: int| !seq_lt(other, row(text, rows, q), 0));
    lemma_count_true_permuted(starts_before, rows);
    lemma_count_true_permuted(starts_not_after, rows);
    assert(before =~= Seq::new(starts_before.len(), |q: int| starts_before[rows[q] as int]));
    assert(not_after =~= Seq::new(starts_not_after.len(), |q: int| starts_not_after[rows[q] as int]));
    // the same, counted by the places one later
    let moved_before = Seq::new(text.len(), |s: int| starts_before[previous_place(n, s)]);
    let moved_not_after = Seq::new(text.len(), |s: int| starts_not_after[previous_place(n, s)]);
    lemma_count_true_shifted(starts_before);
    lemma_count_true_shifted(starts_not_after);
    lemma_count_true_permuted(moved_before, rows);
    lemma_count_true_permuted(moved_not_after, rows);
    let rows_before = Seq::new(text.len(), |q: int| seq_lt(row_before(text, rows, q), other, 0));
    let rows_not_after = Seq::new(text.len(), |q: int| !seq_lt(other, row_before(text, rows, q), 0));
    assert(rows_before =~= Seq::new(moved_before.len(), |q: int| moved_before[rows[q] as int]));
    assert(rows_not_after =~= Seq::new(moved_not_after.len(), |q: int| moved_not_after[rows[q] as int]));
    // and by the last column
    let smaller = Seq::new(data.len(), |q: int| data[q] < data[i] || (data[q] == data[i] && q < i));
    let not_larger = Seq::new(data.len(), |q: int| data[q] < data[i] || (data[q] == data[i] && q <= i));
    assert forall|q: int| 0 <= q < n && rows_before[q] implies smaller[q] by {
        lemma_order_of_rows_before(text, rows, data, i, q);
    }
    assert forall|q: int| 0 <= q < n && not_larger[q] implies rows_not_after[q] by {
        lemma_order_of_rows_before(text, rows, data, i, q);
    }
    lemma_count_true_implies(rows_before, smaller, n);
    lemma_count_true_implies(not_larger, rows_not_after, n);
    lemma_count_before(data, i, n);
    lemma_row_found(text, rows, other, p);
}

/// Rotations that are equal stay equal when both begin one place later.
proof fn lemma_rotations_shifted(text: Seq<u8>, a: int, b: int)
    requires
        0 <= a < text.len(),
        0 <= b < text.len(),
        rotation(text, a) == rotation(text, b),
    ensures
        rotation(text, next_place(text.len() as int, a)) == rotation(text, next_place(text.len() as int, b)),
{
    let n = text.len() as int;
    let x = rotation(text, next_place(n, a));
    let y = rotation(text, next_place(n, b));
    assert forall|j: int| 0 <= j < n implies x[j] == y[j] by {
        let k = next_place(n, j);
        lemma_rotation_index(text, a, k);
        lemma_rotation_index(text, b, k);
        lemma_rotation_index(text, next_place(n, a), j);
        lemma_rotation_index(text, next_place(n, b), j);
        assert(rotation(text, a)[k] == rotation(text, b)[k]);
    }
    assert(x =~= y);
}

/// After `k` steps from the row of the text, the walk along the sorted order stands
/// in a row that holds the rotation that begins at `k`.
proof fn lemma_walk(text: Seq<u8>, rows: Seq<usize>, data: Seq<u8>, orig_ptr: int, k: int)
    requires
        is_sorted_matrix(text, rows, data),
        0 <= orig_ptr < text.len(),
        rows[orig_ptr] == 0,
        0 <= k <= text.len(),
    ensures
        0 <= follow(stable_order_spec(data), orig_ptr, k) < text.len(),
        row(text, rows, follow(stable_order_spec(data), orig_ptr, k)) == rotation(
            text,
            if k < text.len() {
                k
            } else {
                0
            },
        ),
        k > 0 ==> data[follow(stable_order_spec(data), orig_ptr, k)] == text[k - 1],
    decreases k,
{
    let n = text.len() as int;
    let order = stable_order_spec(data);
    if k > 0 {
        lemma_walk(text, rows, data, orig_ptr, k - 1);
        let here = follow(order, orig_ptr, k - 1);
        let there = follow(order, orig_ptr, k);
        assert(data.len() == n);
        assert(occurs(rows, n - 1));
        lemma_sorted_position_onto(data, here);
        assert(order[here] == place_at(data, here) as usize);
        assert(there == order[here] as int);
        assert(there == place_at(data, here));
        lemma_row_at_sorted_position(text, rows, data, there);
        // the row before the new row is the old row
        let s = rows[there] as int;
        assert(rotation(text, previous_place(n, s)) == rotation(text, k - 1));
        lemma_rotations_shifted(text, previous_place(n, s), k - 1);
        lemma_rotation_index(text, previous_place(n, s), 0);
        lemma_rotation_index(text, k - 1, 0);
    }
}

/// Inverting the Burrows-Wheeler transform of a text gives the text.
pub proof fn lemma_bwt_inverts(input: Seq<u8>, data: Seq<u8>, end_of_string: int)
    requires
        input.len() >= 1,
        is_bwt(input, data, end_of_string),
    ensures
        inverse_bwt_spec(data, end_of_string) == input,
{
    let rows = choose|rows: Seq<usize>|
        {
            &&& #[trigger] is_sorted_rotations(input, rows)
            &&& data == last_column(input, rows)
            &&& 0 <= end_of_string < input.len()
            &&& rows[end_of_string] == 0
        };
    let output = inverse_bwt_spec(data, end_of_string);
    assert forall|k: int| 0 <= k < input.len() implies output[k] == input[k] by {
        lemma_walk(input, rows, data, end_of_string, k + 1);
    }
    assert(output =~= input);
}

} // verus!
