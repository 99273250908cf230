use vstd::prelude::*;
use vstd::arithmetic::power2::*;
use crate::block::sorting::{sort_places, sorted_places, is_sorted_places};

verus! {

/// A coin: its weight, and the exponent `e` of its face value `2^-e`.
#[derive(Clone, Copy, Debug)]
pub struct Coin {
    pub numismatic_value: usize,
    pub demonination_exponential: usize,
}

/// What an entry of a list is made of: one coin, or the two entries at the given
/// places, packed together.
#[derive(Clone, Copy, Debug)]
pub enum CoinEntryType {
    One(Coin),
    Two(usize, usize),
}

/// An entry of a list: its content and its weight.
#[derive(Clone, Copy, Debug)]
pub struct CoinEntry {
    pub content: CoinEntryType,
    pub numismatic_value: usize,
}

/// Whether every package is made of entries at earlier places.
pub open spec fn entries_wf(entries: Seq<CoinEntry>) -> bool {
    forall|place: int|
        0 <= place < entries.len() ==> match (#[trigger] entries[place]).content {
            CoinEntryType::One(_) => true,
            CoinEntryType::Two(left, right) => left < place && right < place,
        }
}

/// The coins of the entry at `place`, those of the left part first.
pub open spec fn entry_coins(entries: Seq<CoinEntry>, place: int) -> Seq<Coin>
    decreases place,
{
    if place < 0 || place >= entries.len() {
        Seq::empty()
    } else {
        match entries[place].content {
            CoinEntryType::One(coin) => seq![coin],
            CoinEntryType::Two(left, right) => if left < place && right < place {
                entry_coins(entries, left as int) + entry_coins(entries, right as int)
            } else {
                Seq::empty()
            },
        }
    }
}

/// The face value of the coins together, in units of `2^-max_exp`.
pub open spec fn denomination(coins: Seq<Coin>, max_exp: nat) -> nat
    decreases coins.len(),
{
    if coins.len() == 0 {
        0
    } else {
        denomination(coins.drop_last(), max_exp) + pow2(
            (max_exp - coins.last().demonination_exponential) as nat,
        )
    }
}

/// The largest exponent among the coins.
pub open spec fn max_exponent(coins: Seq<Coin>) -> nat
    decreases coins.len(),
{
    if coins.len() == 0 {
        0
    } else {
        let rest = max_exponent(coins.drop_last());
        if coins.last().demonination_exponential > rest {
            coins.last().demonination_exponential as nat
        } else {
            rest
        }
    }
}

/// How many of the coins have the weight `value`.
pub open spec fn count_value(coins: Seq<Coin>, value: usize) -> nat
    decreases coins.len(),
{
    if coins.len() == 0 {
        0
    } else {
        count_value(coins.drop_last(), value) + if coins.last().numismatic_value == value {
            1nat
        } else {
            0nat
        }
    }
}

/// The face value of two heaps of coins is the sum of their face values.
pub proof fn lemma_denomination_concat(a: Seq<Coin>, b: Seq<Coin>, max_exp: nat)
    ensures
        denomination(a + b, max_exp) == denomination(a, max_exp) + denomination(b, max_exp),
    decreases b.len(),
{
    if b.len() == 0 {
        assert(a + b =~= a);
    } else {
        lemma_denomination_concat(a, b.drop_last(), max_exp);
        assert((a + b).drop_last() =~= a + b.drop_last());
    }
}

/// The count of a weight in two heaps of coins is the sum of the counts.
pub proof fn lemma_count_value_concat(a: Seq<Coin>, b: Seq<Coin>, value: usize)
    ensures
        count_value(a + b, value) == count_value(a, value) + count_value(b, value),
    decreases b.len(),
{
    if b.len() == 0 {
        assert(a + b =~= a);
    } else {
        lemma_count_value_concat(a, b.drop_last(), value);
        assert((a + b).drop_last() =~= a + b.drop_last());
    }
}

/// No exponent exceeds the largest.
pub proof fn lemma_max_exponent(coins: Seq<Coin>, i: int)
    requires
        0 <= i < coins.len(),
    ensures
        coins[i].demonination_exponential <= max_exponent(coins),
    decreases coins.len(),
{
    if i < coins.len() - 1 {
        lemma_max_exponent(coins.drop_last(), i);
    }
}

/// New entries at the end leave the coins of the earlier entries as they are.
pub proof fn lemma_entry_coins_push(entries: Seq<CoinEntry>, entry: CoinEntry, place: int)
    requires
        entries_wf(entries),
        0 <= place < entries.len(),
    ensures
        entry_coins(entries.push(entry), place) == entry_coins(entries, place),
    decreases place,
{
    let longer = entries.push(entry);
    assert(longer[place] == entries[place]);
    match entries[place].content {
        CoinEntryType::One(_) => {},
        CoinEntryType::Two(left, right) => {
            lemma_entry_coins_push(entries, entry, left as int);
            lemma_entry_coins_push(entries, entry, right as int);
        },
    }
}

/// The sum of two weights, or the largest number where the sum is larger.
pub open spec fn saturating_sum(a: usize, b: usize) -> usize {
    if a + b > usize::MAX {
        usize::MAX
    } else {
        (a + b) as usize
    }
}

/// The entries and the list of one level after the first `c` coins have been looked
/// at: every coin of the level becomes an entry at the end of the entries, and its
/// place is added to the list.
pub open spec fn with_leaves(entries: Seq<CoinEntry>, coins: Seq<Coin>, level: int, c: int) -> (
    Seq<CoinEntry>,
    Seq<usize>,
)
    decreases c,
{
    if c <= 0 {
        (entries, Seq::empty())
    } else {
        let before = with_leaves(entries, coins, level, c - 1);
        if coins[c - 1].demonination_exponential == level {
            (
                before.0.push(
                    CoinEntry {
                        content: CoinEntryType::One(coins[c - 1]),
                        numismatic_value: coins[c - 1].numismatic_value,
                    },
                ),
                before.1.push(before.0.len() as usize),
            )
        } else {
            before
        }
    }
}

/// The entries and the list of one level after the first `m` pairs of the list of
/// the level before have been packed: every package becomes an entry at the end of
/// the entries, with the sum of the weights of its parts, and its place is added to
/// the list.
pub open spec fn with_packages(state: (Seq<CoinEntry>, Seq<usize>), previous: Seq<usize>, m: int) -> (
    Seq<CoinEntry>,
    Seq<usize>,
)
    decreases m,
{
    if m <= 0 {
        state
    } else {
        let before = with_packages(state, previous, m - 1);
        let left = previous[2 * (m - 1)];
        let right = previous[2 * (m - 1) + 1];
        (
            before.0.push(
                CoinEntry {
                    content: CoinEntryType::Two(left, right),
                    numismatic_value: saturating_sum(
                        before.0[left as int].numismatic_value,
                        before.0[right as int].numismatic_value,
                    ),
                },
            ),
            before.1.push(before.0.len() as usize),
        )
    }
}

/// The weights of the listed entries.
pub open spec fn list_weights(entries: Seq<CoinEntry>, list: Seq<usize>) -> Seq<usize> {
    Seq::new(list.len(), |k: int| entries[list[k] as int].numismatic_value)
}

/// The list sorted by weight; entries of equal weight keep their order.
pub open spec fn sorted_list(entries: Seq<CoinEntry>, list: Seq<usize>) -> Seq<usize> {
    Seq::new(
        list.len(),
        |k: int| list[sorted_places(list_weights(entries, list), list.len() as int)[k] as int],
    )
}

/// The entries made so far and the sorted list of the level `level`, for coins whose
/// largest exponent is `max_exp`: the coins of the level and the packages of the
/// pairs of the level below, sorted by weight.
pub open spec fn level_state(coins: Seq<Coin>, max_exp: int, level: int) -> (Seq<CoinEntry>, Seq<usize>)
    decreases max_exp + 1 - level,
{
    if level > max_exp {
        (Seq::empty(), Seq::empty())
    } else {
        let below = level_state(coins, max_exp, level + 1);
        let leaves = with_leaves(below.0, coins, level, coins.len() as int);
        let packed = with_packages(leaves, below.1, below.1.len() as int / 2);
        (packed.0, sorted_list(packed.0, packed.1))
    }
}

/// The coins of every entry of face value one, the lightest entry first.
pub open spec fn package_merge_spec(coins: Seq<Coin>) -> Seq<Seq<Coin>> {
    let top = level_state(coins, max_exponent(coins) as int, 0);
    Seq::new(top.1.len(), |k: int| entry_coins(top.0, top.1[k] as int))
}

/// The packages as lists of coins.
pub open spec fn packages_view(packages: Seq<Vec<Coin>>) -> Seq<Seq<Coin>> {
    Seq::new(packages.len(), |k: int| packages[k]@)
}

impl CoinEntry {
    /// Lists the coins of the entry at `place`, those of the left part first.
    pub fn flatten(entries: &Vec<CoinEntry>, place: usize) -> (coins: Vec<Coin>)
        requires
            entries_wf(entries@),
            place < entries@.len(),
        ensures
            coins@ == entry_coins(entries@, place as int),
        decreases place,
    {
        match entries[place].content {
            CoinEntryType::One(item) => {
                let mut coins: Vec<Coin> = Vec::new();
                coins.push(item);
                coins
            },
            CoinEntryType::Two(left, right) => {
                let mut left_coins = Self::flatten(entries, left);
                let mut right_coins = Self::flatten(entries, right);
                left_coins.append(&mut right_coins);
                left_coins
            },
        }
    }
}

/// Whether each of the listed entries has a face value of `2^-level` and is made of
/// coins of the input.
pub open spec fn list_at_level(
    entries: Seq<CoinEntry>,
    list: Seq<usize>,
    coins: Seq<Coin>,
    max_exp: nat,
    level: nat,
) -> bool {
    forall|k: int|
        0 <= k < list.len() ==> {
            &&& (#[trigger] list[k]) < entries.len()
            &&& denomination(entry_coins(entries, list[k] as int), max_exp) == pow2((max_exp - level) as nat)
            &&& from_input(entry_coins(entries, list[k] as int), coins)
        }
}

/// Whether every one of `some` is among `coins`.
pub open spec fn from_input(some: Seq<Coin>, coins: Seq<Coin>) -> bool {
    forall|k: int| 0 <= k < some.len() ==> coins.contains(#[trigger] some[k])
}

proof fn lemma_list_push(
    entries: Seq<CoinEntry>,
    entry: CoinEntry,
    list: Seq<usize>,
    coins: Seq<Coin>,
    max_exp: nat,
    level: nat,
)
    requires
        entries_wf(entries),
        list_at_level(entries, list, coins, max_exp, level),
    ensures
        list_at_level(entries.push(entry), list, coins, max_exp, level),
{
    assert forall|k: int| 0 <= k < list.len() implies {
        &&& (#[trigger] list[k]) < entries.push(entry).len()
        &&& denomination(entry_coins(entries.push(entry), list[k] as int), max_exp) == pow2(
            (max_exp - level) as nat,
        )
        &&& from_input(entry_coins(entries.push(entry), list[k] as int), coins)
    } by {
        lemma_entry_coins_push(entries, entry, list[k] as int);
    }
}

/// Solves the coin collector's problem for coins with face values that are powers of
/// a half. From the smallest face value up, the entries of one face value are sorted
/// by weight and packed in pairs; the packages join the coins of the next face value.
/// Returns the coins of every entry of face value one, the lightest entry first.
pub fn package_merge(coins: &[Coin]) -> (packages: Vec<Vec<Coin>>)
    requires
        coins@.len() >= 1,
        forall|i: int| 0 <= i < coins@.len() ==> (#[trigger] coins@[i]).demonination_exponential < usize::MAX,
    ensures
        packages_view(packages@) == package_merge_spec(coins@),
        forall|k: int|
            0 <= k < packages@.len() ==> denomination((#[trigger] packages@[k])@, max_exponent(coins@))
                == pow2(max_exponent(coins@)) && from_input(packages@[k]@, coins@),
{
    let mut max_exp: usize = 0;
    let mut i: usize = 0;
    while i < coins.len()
        invariant
            i <= coins@.len(),
            max_exp == max_exponent(coins@.take(i as int)),
            max_exp < usize::MAX,
            forall|i: int| 0 <= i < coins@.len() ==> (#[trigger] coins@[i]).demonination_exponential < usize::MAX,
        decreases coins@.len() - i,
    {
        proof {
            assert(coins@.take(i + 1).drop_last() =~= coins@.take(i as int));
        }
        if coins[i].demonination_exponential > max_exp {
            max_exp = coins[i].demonination_exponential;
        }
        i = i + 1;
    }
    proof {
        assert(coins@.take(i as int) =~= coins@);
        assert forall|i: int| 0 <= i < coins@.len() implies (#[trigger] coins@[i]).demonination_exponential
            <= max_exp by {
            lemma_max_exponent(coins@, i);
        }
    }
    let mut entries: Vec<CoinEntry> = Vec::new();
    let mut coins_to_merge: Vec<usize> = Vec::new();
    let mut last: Vec<usize> = Vec::new();
    let mut level: usize = max_exp + 1;
    let ghost top = max_exp as nat;
    while level > 0
        invariant
            level <= max_exp + 1,
            max_exp < usize::MAX,
            top == max_exp,
            forall|i: int| 0 <= i < coins@.len() ==> (#[trigger] coins@[i]).demonination_exponential <= max_exp,
            entries_wf(entries@),
            level <= max_exp ==> list_at_level(entries@, coins_to_merge@, coins@, top, level as nat),
            level > max_exp ==> coins_to_merge@.len() == 0,
            level <= max_exp ==> list_at_level(entries@, last@, coins@, top, level as nat),
            level > max_exp ==> last@.len() == 0,
            (entries@, coins_to_merge@) == level_state(coins@, max_exp as int, level as int),
            last@ == coins_to_merge@,
        decreases level,
    {
        let ghost below = (entries@, coins_to_merge@);
        level = level - 1;
        proof {
            if level < max_exp {
                lemma_pow2_unfold((top - level) as nat);
            }
        }
        let mut list: Vec<usize> = Vec::new();
        let mut c: usize = 0;
        while c < coins.len()
            invariant
                c <= coins@.len(),
                level <= max_exp,
                top == max_exp,
                entries_wf(entries@),
                list_at_level(entries@, list@, coins@, top, level as nat),
                level < max_exp ==> list_at_level(entries@, coins_to_merge@, coins@, top, (level + 1) as nat),
                level == max_exp ==> coins_to_merge@.len() == 0,
                (entries@, list@) == with_leaves(below.0, coins@, level as int, c as int),
            decreases coins@.len() - c,
        {
            let coin = coins[c];
            if coin.demonination_exponential == level {
                let entry = CoinEntry {
                    content: CoinEntryType::One(coin),
                    numismatic_value: coin.numismatic_value,
                };
                proof {
                    lemma_list_push(entries@, entry, list@, coins@, top, level as nat);
                    if level < max_exp {
                        lemma_list_push(entries@, entry, coins_to_merge@, coins@, top, (level + 1) as nat);
                    }
                }
                let place = entries.len();
                entries.push(entry);
                proof {
                    let held = entry_coins(entries@, place as int);
                    assert(held =~= seq![coin]);
                    assert(held.drop_last() =~= Seq::<Coin>::empty());
                    assert(denomination(held.drop_last(), top) == 0);
                    assert(coins@.contains(coin));
                    lemma_list_extend(entries@, list@, place, coins@, top, level as nat);
                }
                list.push(place);
            }
            c = c + 1;
        }
        // the packages of the level before join the coins of this level
        let ghost leaves = (entries@, list@);
        let mut m: usize = 0;
        while coins_to_merge.len() - m >= 2
            invariant
                m <= coins_to_merge@.len(),
                m % 2 == 0,
                (entries@, list@) == with_packages(leaves, coins_to_merge@, m as int / 2),
                level <= max_exp,
                top == max_exp,
                entries_wf(entries@),
                list_at_level(entries@, list@, coins@, top, level as nat),
                level < max_exp ==> list_at_level(entries@, coins_to_merge@, coins@, top, (level + 1) as nat),
                level == max_exp ==> coins_to_merge@.len() == 0,
            decreases coins_to_merge@.len() - m,
        {
            let left = coins_to_merge[m];
            let right = coins_to_merge[m + 1];
            let entry = CoinEntry {
                content: CoinEntryType::Two(left, right),
                numismatic_value: entries[left].numismatic_value.saturating_add(
                    entries[right].numismatic_value,
                ),
            };
            proof {
                lemma_list_push(entries@, entry, list@, coins@, top, level as nat);
                lemma_list_push(entries@, entry, coins_to_merge@, coins@, top, (level + 1) as nat);
                lemma_entry_coins_push(entries@, entry, left as int);
                lemma_entry_coins_push(entries@, entry, right as int);
                lemma_denomination_concat(
                    entry_coins(entries@, left as int),
                    entry_coins(entries@, right as int),
                    top,
                );
            }
            let place = entries.len();
            entries.push(entry);
            proof {
                lemma_pow2_unfold((top - level) as nat);
                let left_coins = entry_coins(entries@, left as int);
                let right_coins = entry_coins(entries@, right as int);
                assert(entry_coins(entries@, place as int) =~= left_coins + right_coins);
                assert(from_input(left_coins, coins@));
                assert(from_input(right_coins, coins@));
                assert forall|k: int| 0 <= k < (left_coins + right_coins).len() implies coins@.contains(
                    #[trigger] (left_coins + right_coins)[k],
                ) by {
                    if k < left_coins.len() {
                        assert((left_coins + right_coins)[k] == left_coins[k]);
                    } else {
                        assert((left_coins + right_coins)[k] == right_coins[k - left_coins.len()]);
                    }
                }
                lemma_list_extend(entries@, list@, place, coins@, top, level as nat);
            }
            list.push(place);
            m = m + 2;
        }
        let mut keys: Vec<usize> = Vec::new();
        let mut k: usize = 0;
        while k < list.len()
            invariant
                k <= list@.len(),
                keys@.len() == k,
                list_at_level(entries@, list@, coins@, top, level as nat),
                forall|j: int| 0 <= j < k ==> #[trigger] keys@[j] == entries@[list@[j] as int].numismatic_value,
            decreases list@.len() - k,
        {
            keys.push(entries[list[k]].numismatic_value);
            k = k + 1;
        }
        proof {
            assert(keys@ =~= list_weights(entries@, list@));
        }
        let order = sort_places(&keys);
        let mut sorted: Vec<usize> = Vec::new();
        let mut k: usize = 0;
        while k < order.len()
            invariant
                k <= order@.len(),
                order@.len() == list@.len(),
                order@ == sorted_places(keys@, keys@.len() as int),
                forall|j: int| 0 <= j < k ==> #[trigger] sorted@[j] == list@[order@[j] as int],
                is_sorted_places(keys@, order@, keys@.len() as int),
                keys@.len() == list@.len(),
                list_at_level(entries@, list@, coins@, top, level as nat),
                list_at_level(entries@, sorted@, coins@, top, level as nat),
                sorted@.len() == k,
            decreases order@.len() - k,
        {
            proof {
                let place = list@[order@[k as int] as int];
                lemma_list_extend(entries@, sorted@, place, coins@, top, level as nat);
            }
            sorted.push(list[order[k]]);
            k = k + 1;
        }
        proof {
            assert(sorted@ =~= sorted_list(entries@, list@));
            assert(coins_to_merge@.len() as int / 2 == m as int / 2);
        }
        coins_to_merge = sorted;
        last = copy_places(&coins_to_merge);
    }
    let mut packages: Vec<Vec<Coin>> = Vec::new();
    let mut k: usize = 0;
    while k < last.len()
        invariant
            k <= last@.len(),
            entries_wf(entries@),
            list_at_level(entries@, last@, coins@, top, 0),
            top == max_exponent(coins@),
            packages@.len() == k,
            forall|j: int|
                0 <= j < packages@.len() ==> denomination((#[trigger] packages@[j])@, top) == pow2(top)
                    && from_input(packages@[j]@, coins@) && packages@[j]@ == entry_coins(
                    entries@,
                    last@[j] as int,
                ),
        decreases last@.len() - k,
    {
        let flat = CoinEntry::flatten(&entries, last[k]);
        let ghost before = packages@;
        packages.push(flat);
        proof {
            assert forall|j: int| 0 <= j < packages@.len() implies denomination(
                (#[trigger] packages@[j])@,
                top,
            ) == pow2(top) && from_input(packages@[j]@, coins@) && packages@[j]@ == entry_coins(
                entries@,
                last@[j] as int,
            ) by {
                if j < k {
                    assert(packages@[j] == before[j]);
                }
            }
        }
        k = k + 1;
    }
    proof {
        assert(packages_view(packages@) =~= package_merge_spec(coins@));
    }
    packages
}

proof fn lemma_list_extend(
    entries: Seq<CoinEntry>,
    list: Seq<usize>,
    place: usize,
    coins: Seq<Coin>,
    max_exp: nat,
    level: nat,
)
    requires
        list_at_level(entries, list, coins, max_exp, level),
        place < entries.len(),
        denomination(entry_coins(entries, place as int), max_exp) == pow2((max_exp - level) as nat),
        from_input(entry_coins(entries, place as int), coins),
    ensures
        list_at_level(entries, list.push(place), coins, max_exp, level),
{
    let longer = list.push(place);
    assert forall|k: int| 0 <= k < longer.len() implies {
        &&& (#[trigger] longer[k]) < entries.len()
        &&& denomination(entry_coins(entries, longer[k] as int), max_exp) == pow2((max_exp - level) as nat)
        &&& from_input(entry_coins(entries, longer[k] as int), coins)
    } by {
        if k < list.len() {
            assert(longer[k] == list[k]);
        }
    }
}

/// The coins for a list of weights: for every face value from a half down to
/// `2^-limit`, one coin of every weight.
pub open spec fn coins_for(weights: Seq<usize>, limit: int) -> Seq<Coin>
    decreases limit,
{
    if limit <= 0 {
        Seq::empty()
    } else {
        coins_for(weights, limit - 1) + Seq::new(
            weights.len(),
            |k: int| Coin { numismatic_value: weights[k], demonination_exponential: limit as usize },
        )
    }
}

/// The coins of the first `m` packages, in order.
pub open spec fn first_coins(packages: Seq<Seq<Coin>>, m: int) -> Seq<Coin>
    decreases m,
{
    if m <= 0 {
        Seq::empty()
    } else {
        first_coins(packages, m - 1) + packages[m - 1]
    }
}

/// The coins that are collected for the code lengths of the given weights: those of
/// the lightest packages of face value one, one package less than there are weights.
pub open spec fn lis_solution(weights: Seq<usize>, limit: int) -> Seq<Coin> {
    let packages = package_merge_spec(coins_for(weights, limit));
    first_coins(
        packages,
        if packages.len() < weights.len() - 1 {
            packages.len() as int
        } else {
            weights.len() - 1
        },
    )
}

/// The code lengths for the given weights: for every weight the number of coins of
/// that weight among the collected coins.
pub open spec fn lis_spec(weights: Seq<usize>, limit: int) -> Seq<usize> {
    Seq::new(weights.len(), |i: int| count_value(lis_solution(weights, limit), weights[i]) as usize)
}

/// Computes the bit lengths of a length-limited prefix code for symbols with the
/// given weights, which must differ from each other for the lengths to be told
/// apart. The coins of the `n - 1` lightest packages of face value one are
/// collected; the length of a symbol is the number of coins of its weight among
/// them.
pub fn compute_lis(weights: &[usize], limit: usize) -> (code: Vec<usize>)
    requires
        weights@.len() >= 1,
        1 <= limit < usize::MAX,
    ensures
        code@ == lis_spec(weights@, limit as int),
        code@.len() == weights@.len(),
        from_input(lis_solution(weights@, limit as int), coins_for(weights@, limit as int)),
{
    let mut coins: Vec<Coin> = Vec::new();
    let mut i: usize = 1;
    while i <= limit
        invariant
            1 <= i <= limit + 1,
            limit < usize::MAX,
            coins@ == coins_for(weights@, i - 1),
            forall|k: int| 0 <= k < coins@.len() ==> (#[trigger] coins@[k]).demonination_exponential < usize::MAX,
        decreases limit + 1 - i,
    {
        let ghost before = coins@;
        let mut w: usize = 0;
        while w < weights.len()
            invariant
                w <= weights@.len(),
                i < usize::MAX,
                coins@ == before + Seq::new(
                    w as nat,
                    |k: int| Coin { numismatic_value: weights@[k], demonination_exponential: i },
                ),
                forall|k: int| 0 <= k < coins@.len() ==> (#[trigger] coins@[k]).demonination_exponential < usize::MAX,
            decreases weights@.len() - w,
        {
            let ghost prev = coins@;
            coins.push(Coin { numismatic_value: weights[w], demonination_exponential: i });
            w = w + 1;
            proof {
                assert(coins@ =~= before + Seq::new(
                    w as nat,
                    |k: int| Coin { numismatic_value: weights@[k], demonination_exponential: i },
                ));
                assert forall|k: int| 0 <= k < coins@.len() implies (
                #[trigger] coins@[k]).demonination_exponential < usize::MAX by {
                    if k < prev.len() {
                        assert(coins@[k] == prev[k]);
                    }
                }
            }
        }
        i = i + 1;
    }
    proof {
        assert(coins@.len() >= 1) by {
            assert(coins_for(weights@, limit as int).len() >= weights@.len());
        }
    }
    let packages = package_merge(coins.as_slice());
    let wanted: usize = weights.len() - 1;
    let taken: usize = if packages.len() < wanted { packages.len() } else { wanted };
    let mut solution: Vec<Coin> = Vec::new();
    let mut p: usize = 0;
    while p < taken
        invariant
            p <= taken <= packages@.len(),
            solution@ == first_coins(packages_view(packages@), p as int),
            from_input(solution@, coins@),
            forall|k: int| 0 <= k < packages@.len() ==> from_input((#[trigger] packages@[k])@, coins@),
        decreases taken - p,
    {
        let package = &packages[p];
        let ghost before = solution@;
        let mut c: usize = 0;
        while c < package.len()
            invariant
                c <= package@.len(),
                solution@ == before + package@.take(c as int),
                from_input(solution@, coins@),
                from_input(package@, coins@),
            decreases package@.len() - c,
        {
            let ghost prev = solution@;
            solution.push(package[c]);
            c = c + 1;
            proof {
                assert(solution@ =~= before + package@.take(c as int));
                assert forall|k: int| 0 <= k < solution@.len() implies coins@.contains(
                    #[trigger] solution@[k],
                ) by {
                    if k < prev.len() {
                        assert(solution@[k] == prev[k]);
                    }
                }
            }
        }
        proof {
            assert(package@.take(c as int) =~= package@);
        }
        p = p + 1;
    }
    let mut code: Vec<usize> = Vec::new();
    let mut w: usize = 0;
    while w < weights.len()
        invariant
            w <= weights@.len(),
            code@.len() == w,
            forall|i: int| 0 <= i < w ==> #[trigger] code@[i] == count_value(solution@, weights@[i]),
        decreases weights@.len() - w,
    {
        let weight = weights[w];
        let mut counter: usize = 0;
        let mut c: usize = 0;
        while c < solution.len()
            invariant
                c <= solution@.len(),
                counter == count_value(solution@.take(c as int), weight),
                counter <= c,
            decreases solution@.len() - c,
        {
            proof {
                assert(solution@.take(c + 1).drop_last() =~= solution@.take(c as int));
            }
            if solution[c].numismatic_value == weight {
                counter = counter + 1;
            }
            c = c + 1;
        }
        proof {
            assert(solution@.take(c as int) =~= solution@);
        }
        code.push(counter);
        w = w + 1;
    }
    proof {
        assert(solution@ == lis_solution(weights@, limit as int));
        assert(code@ =~= lis_spec(weights@, limit as int));
    }
    code
}

/// Copies a list of places.
fn copy_places(source: &Vec<usize>) -> (copy: Vec<usize>)
    ensures
        copy@ == source@,
{
    let mut copy: Vec<usize> = Vec::new();
    let mut i: usize = 0;
    while i < source.len()
        invariant
            i <= source@.len(),
            copy@ == source@.take(i as int),
        decreases source@.len() - i,
    {
        copy.push(source[i]);
        i = i + 1;
        proof {
            assert(copy@ =~= source@.take(i as int));
        }
    }
    proof {
        assert(source@.take(i as int) =~= source@);
    }
    copy
}

} // verus!
