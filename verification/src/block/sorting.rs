use vstd::prelude::*;

verus! {

/// The order `order` with the place `x` put in behind every place whose key is not
/// larger than that of `x`.
pub open spec fn insert_by_key(order: Seq<usize>, keys: Seq<usize>, x: usize) -> Seq<usize>
    decreases order.len(),
{
    if order.len() == 0 {
        seq![x]
    } else if keys[order.last() as int] <= keys[x as int] {
        order.push(x)
    } else {
        insert_by_key(order.drop_last(), keys, x).push(order.last())
    }
}

/// The first `k` places of `keys`, sorted by their keys; places with equal keys keep
/// their order.
pub open spec fn sorted_places(keys: Seq<usize>, k: int) -> Seq<usize>
    decreases k,
{
    if k <= 0 {
        Seq::empty()
    } else {
        insert_by_key(sorted_places(keys, k - 1), keys, (k - 1) as usize)
    }
}

/// Whether the place `a` comes before the place `b`: by its key, and by its number
/// where the keys are equal.
pub open spec fn place_before(keys: Seq<usize>, a: usize, b: usize) -> bool {
    keys[a as int] < keys[b as int] || (keys[a as int] == keys[b as int] && a < b)
}

/// Whether `order` lists each of the first `k` places once, sorted by key, places
/// with equal keys in their own order.
pub open spec fn is_sorted_places(keys: Seq<usize>, order: Seq<usize>, k: int) -> bool {
    &&& order.len() == k
    &&& forall|r: int| 0 <= r < order.len() ==> #[trigger] order[r] < k
    &&& forall|i: int| 0 <= i < k ==> #[trigger] holds_place(order, i)
    &&& forall|a: int, b: int|
        0 <= a < b < order.len() ==> place_before(keys, #[trigger] order[a], #[trigger] order[b])
}

/// Whether `order` holds the place `i`.
pub open spec fn holds_place(order: Seq<usize>, i: int) -> bool {
    exists|r: int| 0 <= r < order.len() && #[trigger] order[r] == i
}

/// Putting a place in is the same as inserting it behind the last place that does
/// not have a larger key.
pub proof fn lemma_insert_by_key(order: Seq<usize>, keys: Seq<usize>, x: usize, slot: int)
    requires
        0 <= slot <= order.len(),
        slot > 0 ==> keys[order[slot - 1] as int] <= keys[x as int],
        forall|r: int| slot <= r < order.len() ==> keys[#[trigger] order[r] as int] > keys[x as int],
    ensures
        insert_by_key(order, keys, x) == order.insert(slot, x),
    decreases order.len(),
{
    if order.len() == 0 {
        assert(order.insert(slot, x) =~= seq![x]);
    } else if slot == order.len() {
        assert(order.insert(slot, x) =~= order.push(x));
    } else {
        assert(keys[order[order.len() - 1] as int] > keys[x as int]);
        let rest = order.drop_last();
        assert forall|r: int| slot <= r < rest.len() implies keys[#[trigger] rest[r] as int] > keys[x as int] by {
            assert(rest[r] == order[r]);
        }
        lemma_insert_by_key(rest, keys, x, slot);
        assert(rest.insert(slot, x).push(order.last()) =~= order.insert(slot, x));
    }
}

/// Putting a new place into a sorted order keeps it sorted and complete.
pub proof fn lemma_insert_keeps_sorted(order: Seq<usize>, keys: Seq<usize>, k: int, slot: int)
    requires
        0 <= k < keys.len(),
        k <= usize::MAX,
        is_sorted_places(keys, order, k),
        0 <= slot <= order.len(),
        slot > 0 ==> keys[order[slot - 1] as int] <= keys[k],
        forall|r: int| slot <= r < order.len() ==> keys[#[trigger] order[r] as int] > keys[k],
    ensures
        is_sorted_places(keys, order.insert(slot, k as usize), k + 1),
{
    let after = order.insert(slot, k as usize);
    assert forall|i: int| 0 <= i < k + 1 implies #[trigger] holds_place(after, i) by {
        if i == k {
            assert(after[slot] == i);
        } else {
            assert(holds_place(order, i));
            let r = choose|r: int| 0 <= r < order.len() && #[trigger] order[r] == i;
            if r < slot {
                assert(after[r] == i);
            } else {
                assert(after[r + 1] == i);
            }
        }
    }
    assert forall|a: int, b: int| 0 <= a < b < after.len() implies place_before(
        keys,
        #[trigger] after[a],
        #[trigger] after[b],
    ) by {
        let old_a = if a < slot { a } else { a - 1 };
        let old_b = if b < slot { b } else { b - 1 };
        if a == slot {
            assert(after[b] == order[old_b]);
        } else if b == slot {
            assert(after[a] == order[old_a]);
            if old_a < slot - 1 {
                assert(place_before(keys, order[old_a], order[slot - 1]));
            }
        } else {
            assert(after[a] == order[old_a]);
            assert(after[b] == order[old_b]);
        }
    }
}

/// Sorts the places of `keys` by their keys; places with equal keys keep their
/// order.
pub fn sort_places(keys: &Vec<usize>) -> (order: Vec<usize>)
    ensures
        order@ == sorted_places(keys@, keys@.len() as int),
        is_sorted_places(keys@, order@, keys@.len() as int),
{
    let mut order: Vec<usize> = Vec::new();
    let mut next: usize = 0;
    while next < keys.len()
        invariant
            next <= keys@.len(),
            order@ == sorted_places(keys@, next as int),
            is_sorted_places(keys@, order@, next as int),
        decreases keys@.len() - next,
    {
        let mut slot: usize = order.len();
        while slot > 0 && keys[order[slot - 1]] > keys[next]
            invariant
                slot <= order@.len(),
                next < keys@.len(),
                is_sorted_places(keys@, order@, next as int),
                forall|r: int| slot <= r < order@.len() ==> keys@[#[trigger] order@[r] as int] > keys@[next as int],
            decreases slot,
        {
            slot = slot - 1;
        }
        proof {
            lemma_insert_by_key(order@, keys@, next, slot as int);
            lemma_insert_keeps_sorted(order@, keys@, next as int, slot as int);
        }
        order.insert(slot, next);
        next = next + 1;
    }
    order
}

} // verus!
