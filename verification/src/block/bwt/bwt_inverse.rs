use vstd::prelude::*;
use vstd::set_lib::*;
use vstd::relations::injective_on;

verus! {

/// How many of the first `k` bytes are smaller than `b`.
pub open spec fn count_less(data: Seq<u8>, b: int, k: int) -> int
    decreases k,
{
    if k <= 0 {
        0
    } else {
        count_less(data, b, k - 1) + if (data[k - 1] as int) < b {
            1int
        } else {
            0int
        }
    }
}

/// How many of the first `k` bytes equal `b`.
pub open spec fn count_equal(data: Seq<u8>, b: int, k: int) -> int
    decreases k,
{
    if k <= 0 {
        0
    } else {
        count_equal(data, b, k - 1) + if data[k - 1] as int == b {
            1int
        } else {
            0int
        }
    }
}

/// Where the byte at `i` stands once the bytes are sorted and equal bytes keep
/// their order.
pub open spec fn sorted_position(data: Seq<u8>, i: int) -> int {
    count_less(data, data[i] as int, data.len() as int) + count_equal(data, data[i] as int, i)
}

/// Whether `order` lists the positions of `data` sorted by their bytes, equal bytes
/// in their order in `data`.
pub open spec fn is_stable_order(data: Seq<u8>, order: Seq<usize>) -> bool {
    &&& order.len() == data.len()
    &&& forall|r: int| 0 <= r < order.len() ==> #[trigger] order[r] < data.len()
    &&& forall|i: int|
        0 <= i < data.len() ==> 0 <= #[trigger] sorted_position(data, i) < data.len()
            && order[sorted_position(data, i)] == i
}

/// The position reached from `start` after `k` steps along `order`.
pub open spec fn follow(order: Seq<usize>, start: int, k: int) -> int
    decreases k,
{
    if k <= 0 {
        start
    } else {
        order[follow(order, start, k - 1)] as int
    }
}

/// The bytes met on a walk of as many steps as there are bytes, from `orig_ptr` on:
/// the byte after the first step first.
pub open spec fn walk(data: Seq<u8>, order: Seq<usize>, orig_ptr: int) -> Seq<u8> {
    Seq::new(data.len(), |k: int| data[follow(order, orig_ptr, k + 1)])
}

/// The byte that stands at `position` once the bytes are sorted.
pub open spec fn place_at(data: Seq<u8>, position: int) -> int {
    choose|i: int| 0 <= i < data.len() && sorted_position(data, i) == position
}

/// The positions of `data` sorted by their bytes, equal bytes in their order in
/// `data`.
pub open spec fn stable_order_spec(data: Seq<u8>) -> Seq<usize> {
    Seq::new(data.len(), |position: int| place_at(data, position) as usize)
}

/// The text whose transform is `data` with the input in row `orig_ptr`: the bytes
/// met on a walk along the sorted order from `orig_ptr` on.
pub open spec fn inverse_bwt_spec(data: Seq<u8>, orig_ptr: int) -> Seq<u8> {
    walk(data, stable_order_spec(data), orig_ptr)
}

proof fn lemma_counts_bound(data: Seq<u8>, b: int, k: int)
    requires
        0 <= k <= data.len(),
    ensures
        0 <= count_less(data, b, k),
        0 <= count_equal(data, b, k),
        count_less(data, b, k) + count_equal(data, b, k) <= k,
    decreases k,
{
    if k > 0 {
        lemma_counts_bound(data, b, k - 1);
    }
}

proof fn lemma_count_equal_grows(data: Seq<u8>, b: int, i: int, k: int)
    requires
        0 <= i <= k <= data.len(),
    ensures
        count_equal(data, b, i) <= count_equal(data, b, k),
        i < k && data[i] as int == b ==> count_equal(data, b, i) < count_equal(data, b, k),
    decreases k - i,
{
    if i < k {
        lemma_count_equal_grows(data, b, i, k - 1);
    }
}

proof fn lemma_count_less_zero(data: Seq<u8>, k: int)
    ensures
        count_less(data, 0, k) == 0,
    decreases k,
{
    if k > 0 {
        lemma_count_less_zero(data, k - 1);
    }
}

proof fn lemma_count_less_next(data: Seq<u8>, b: int, k: int)
    requires
        0 <= k <= data.len(),
    ensures
        count_less(data, b + 1, k) == count_less(data, b, k) + count_equal(data, b, k),
    decreases k,
{
    if k > 0 {
        lemma_count_less_next(data, b, k - 1);
    }
}

proof fn lemma_count_less_grows(data: Seq<u8>, b: int, c: int, k: int)
    requires
        0 <= k <= data.len(),
        b < c,
    ensures
        count_less(data, b, k) + count_equal(data, b, k) <= count_less(data, c, k),
    decreases k,
{
    if k > 0 {
        lemma_count_less_grows(data, b, c, k - 1);
    }
}

/// Every byte has its own position in the sorted order, inside the text.
pub proof fn lemma_sorted_position(data: Seq<u8>, i: int, j: int)
    requires
        0 <= i < data.len(),
        0 <= j < data.len(),
    ensures
        0 <= sorted_position(data, i) < data.len(),
        i != j ==> sorted_position(data, i) != sorted_position(data, j),
{
    let n = data.len() as int;
    let b = data[i] as int;
    let c = data[j] as int;
    lemma_counts_bound(data, b, n);
    lemma_counts_bound(data, b, i);
    lemma_count_equal_grows(data, b, i, n);
    lemma_counts_bound(data, c, n);
    lemma_counts_bound(data, c, j);
    lemma_count_equal_grows(data, c, j, n);
    if b == c {
        if i < j {
            lemma_count_equal_grows(data, b, i, j);
        } else if j < i {
            lemma_count_equal_grows(data, b, j, i);
        }
    } else if b < c {
        lemma_count_less_grows(data, b, c, n);
    } else {
        lemma_count_less_grows(data, c, b, n);
    }
}

/// Every position in the sorted order is the position of a byte.
pub proof fn lemma_sorted_position_onto(data: Seq<u8>, position: int)
    requires
        0 <= position < data.len(),
    ensures
        0 <= place_at(data, position) < data.len(),
        sorted_position(data, place_at(data, position)) == position,
{
    let n = data.len() as int;
    let places = set_int_range(0, n);
    let f = |i: int| sorted_position(data, i);
    lemma_int_range(0, n);
    assert(injective_on(f, places)) by {
        assert forall|a: int, b: int|
            places.contains(a) && places.contains(b) && #[trigger] f(a) == #[trigger] f(b) implies a
            == b by {
            lemma_sorted_position(data, a, b);
        }
    }
    let image = places.map(f);
    lemma_map_size(places, image, f);
    assert(image.subset_of(places)) by {
        assert forall|y: int| image.contains(y) implies places.contains(y) by {
            let x = choose|x: int| places.contains(x) && y == f(x);
            lemma_sorted_position(data, x, x);
        }
    }
    lemma_subset_equality(image, places);
    assert(places.contains(position));
    assert(image.contains(position));
    let x = choose|x: int| places.contains(x) && position == f(x);
    assert(0 <= x < data.len() && sorted_position(data, x) == position);
}

/// There is one stable order only.
pub proof fn lemma_stable_order_unique(data: Seq<u8>, order: Seq<usize>)
    requires
        is_stable_order(data, order),
    ensures
        order == stable_order_spec(data),
{
    assert forall|r: int| 0 <= r < order.len() implies order[r] == stable_order_spec(data)[r] by {
        lemma_sorted_position_onto(data, r);
        let i = place_at(data, r);
        assert(order[sorted_position(data, i)] == i);
    }
    assert(order =~= stable_order_spec(data));
}

/// Sorts the positions of `data` by their bytes, keeping equal bytes in order.
pub fn stable_order(data: &[u8]) -> (order: Vec<usize>)
    ensures
        is_stable_order(data@, order@),
{
    let n = data.len();
    let mut counts: Vec<usize> = vec![0; 256];
    let mut i: usize = 0;
    while i < n
        invariant
            n == data@.len(),
            i <= n,
            counts@.len() == 256,
            forall|b: int| 0 <= b < 256 ==> #[trigger] counts@[b] == count_equal(data@, b, i as int),
        decreases n - i,
    {
        let b = data[i] as usize;
        proof {
            lemma_counts_bound(data@, b as int, i as int);
        }
        let count = counts[b];
        counts[b] = count + 1;
        i = i + 1;
    }
    let mut starts: Vec<usize> = vec![0; 256];
    let mut sum: usize = 0;
    let mut b: usize = 0;
    proof {
        lemma_count_less_zero(data@, n as int);
    }
    while b < 256
        invariant
            n == data@.len(),
            b <= 256,
            counts@.len() == 256,
            starts@.len() == 256,
            forall|c: int| 0 <= c < 256 ==> #[trigger] counts@[c] == count_equal(data@, c, n as int),
            sum == count_less(data@, b as int, n as int),
            forall|c: int| 0 <= c < b ==> #[trigger] starts@[c] == count_less(data@, c, n as int),
        decreases 256 - b,
    {
        proof {
            lemma_count_less_next(data@, b as int, n as int);
            lemma_counts_bound(data@, b as int + 1, n as int);
        }
        starts[b] = sum;
        sum = sum + counts[b];
        b = b + 1;
    }
    let mut order: Vec<usize> = vec![0; n];
    let mut i: usize = 0;
    while i < n
        invariant
            n == data@.len(),
            i <= n,
            starts@.len() == 256,
            order@.len() == n,
            forall|c: int|
                0 <= c < 256 ==> #[trigger] starts@[c] == count_less(data@, c, n as int) + count_equal(
                    data@,
                    c,
                    i as int,
                ),
            forall|r: int| 0 <= r < n ==> #[trigger] order@[r] < n || n == 0,
            forall|k: int| 0 <= k < i ==> order@[#[trigger] sorted_position(data@, k)] == k,
        decreases n - i,
    {
        let b = data[i] as usize;
        let position = starts[b];
        proof {
            lemma_sorted_position(data@, i as int, i as int);
            assert forall|k: int| 0 <= k < i implies sorted_position(data@, k) != position by {
                lemma_sorted_position(data@, i as int, k);
            }
        }
        let ghost before = order@;
        order[position] = i;
        starts[b] = position + 1;
        proof {
            assert(position == sorted_position(data@, i as int));
            assert forall|k: int| 0 <= k < i + 1 implies order@[#[trigger] sorted_position(data@, k)]
                == k by {
                if k < i {
                    lemma_sorted_position(data@, k, i as int);
                    assert(before[sorted_position(data@, k)] == k);
                }
            }
        }
        i = i + 1;
    }
    proof {
        assert forall|k: int| 0 <= k < n implies 0 <= #[trigger] sorted_position(data@, k) < n by {
            lemma_sorted_position(data@, k, k);
        }
    }
    order
}

/// Inverts the Burrows-Wheeler transform: sorts the positions by their bytes and
/// follows the sorted order from the row of the input, once for every byte.
pub fn inverse_bwt(data: &[u8], orig_ptr: usize) -> (out: Vec<u8>)
    requires
        orig_ptr < data@.len(),
    ensures
        out@ == inverse_bwt_spec(data@, orig_ptr as int),
        out@.len() == data@.len(),
{
    let order = stable_order(data);
    proof {
        lemma_stable_order_unique(data@, order@);
    }
    let mut out: Vec<u8> = Vec::new();
    let mut current: usize = orig_ptr;
    let mut k: usize = 0;
    while k < data.len()
        invariant
            k <= data@.len(),
            is_stable_order(data@, order@),
            current < data@.len(),
            current == follow(order@, orig_ptr as int, k as int),
            out@ == walk(data@, order@, orig_ptr as int).take(k as int),
        decreases data@.len() - k,
    {
        current = order[current];
        out.push(data[current]);
        k = k + 1;
        proof {
            assert(out@ =~= walk(data@, order@, orig_ptr as int).take(k as int));
        }
    }
    proof {
        assert(out@ =~= walk(data@, order@, orig_ptr as int));
    }
    out
}

} // verus!
