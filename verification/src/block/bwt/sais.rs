use vstd::prelude::*;
use crate::block::bwt::{suffix_lt, lemma_suffix_lt_transitive, lemma_suffix_lt_total};

verus! {

/// Whether a suffix is larger (`L`) or smaller (`S`) than the suffix after it.
#[derive(Clone, Copy, Debug, PartialEq, Eq, Structural)]
pub enum SuffixType {
    L,
    S,
}

/// The text that remains to be sorted once the LMS substrings have been named.
pub struct ReducedProblem {
    pub reduced_text: Vec<usize>,
    pub offsets: Vec<usize>,
    pub alphabet_size: usize,
}

/// Whether `sa` lists every suffix of `text`, the empty one included, in increasing
/// lexicographic order.
pub open spec fn is_suffix_array(text: Seq<u8>, sa: Seq<usize>) -> bool {
    &&& sa.len() == text.len() + 1
    &&& forall|r: int| 0 <= r < sa.len() ==> #[trigger] sa[r] <= text.len()
    &&& forall|i: int| 0 <= i <= text.len() ==> #[trigger] occurs(sa, i)
    &&& forall|a: int, b: int|
        0 <= a < b < sa.len() ==> suffix_lt(text, #[trigger] sa[a] as int, #[trigger] sa[b] as int)
}

/// Whether `sa` holds the position `i`.
pub open spec fn occurs(sa: Seq<usize>, i: int) -> bool {
    exists|r: int| 0 <= r < sa.len() && #[trigger] sa[r] == i
}

/// The type of the suffix at `i` over a text of numbers: the empty suffix at the end
/// is of type S, the last character of type L.
pub open spec fn is_s_type(text: Seq<usize>, i: int) -> bool
    decreases text.len() - i,
{
    if i >= text.len() {
        true
    } else if i == text.len() - 1 {
        false
    } else if i < 0 {
        false
    } else {
        text[i] < text[i + 1] || (text[i] == text[i + 1] && is_s_type(text, i + 1))
    }
}

/// An LMS position is one of type S that follows one of type L.
pub open spec fn is_lms(types: Seq<SuffixType>, index: int) -> bool {
    &&& 0 < index < types.len()
    &&& types[index] == SuffixType::S
    &&& types[index - 1] == SuffixType::L
}

/// Classifies every position of the text, and the end of the text, as L or S.
fn get_suffix_types(text: &[usize]) -> (types: Vec<SuffixType>)
    requires
        text@.len() < usize::MAX,
    ensures
        types@.len() == text@.len() + 1,
        forall|i: int|
            0 <= i <= text@.len() ==> (#[trigger] types@[i] == SuffixType::S <==> is_s_type(text@, i)),
{
    let n = text.len();
    let mut types: Vec<SuffixType> = vec![SuffixType::L; n + 1];
    types[n] = SuffixType::S;
    if n == 0 {
        return types;
    }
    let mut i: usize = n - 1;
    while i > 0
        invariant
            n == text@.len(),
            i < n,
            types@.len() == n + 1,
            forall|k: int| i <= k <= n ==> (#[trigger] types@[k] == SuffixType::S <==> is_s_type(text@, k)),
        decreases i,
    {
        i = i - 1;
        if text[i] < text[i + 1] {
            types[i] = SuffixType::S;
        } else if text[i] == text[i + 1] {
            let next = types[i + 1];
            types[i] = next;
        } else {
            types[i] = SuffixType::L;
        }
    }
    types
}

/// How often `character` occurs among the first `k` characters of the text.
pub open spec fn occurrences(text: Seq<usize>, character: int, k: int) -> int
    decreases k,
{
    if k <= 0 {
        0
    } else {
        occurrences(text, character, k - 1) + if text[k - 1] == character {
            1int
        } else {
            0int
        }
    }
}

/// For every character of the alphabet how often it occurs; `None` where a
/// character of the text lies outside the alphabet.
pub open spec fn bucket_sizes_spec(text: Seq<usize>, alphabet_size: usize) -> Option<Seq<usize>> {
    if forall|i: int| 0 <= i < text.len() ==> #[trigger] text[i] < alphabet_size {
        Some(Seq::new(alphabet_size as nat, |c: int| occurrences(text, c, text.len() as int) as usize))
    } else {
        None
    }
}

proof fn lemma_occurrences_bound(text: Seq<usize>, character: int, k: int)
    requires
        0 <= k,
    ensures
        0 <= occurrences(text, character, k) <= k,
    decreases k,
{
    if k > 0 {
        lemma_occurrences_bound(text, character, k - 1);
    }
}

/// Counts how often each character occurs. Fails where a character lies outside
/// the alphabet.
fn get_bucket_sizes(text: &[usize], alphabet_size: usize) -> (sizes: Option<Vec<usize>>)
    ensures
        sizes is Some <==> bucket_sizes_spec(text@, alphabet_size) is Some,
        sizes is Some ==> sizes.unwrap()@ == bucket_sizes_spec(text@, alphabet_size).unwrap(),
{
    let mut sizes: Vec<usize> = vec![0; alphabet_size];
    let mut i: usize = 0;
    while i < text.len()
        invariant
            i <= text@.len(),
            sizes@.len() == alphabet_size,
            forall|k: int| 0 <= k < i ==> #[trigger] text@[k] < alphabet_size,
            forall|c: int| 0 <= c < alphabet_size ==> #[trigger] sizes@[c] == occurrences(text@, c, i as int),
        decreases text@.len() - i,
    {
        let character = text[i];
        if character >= alphabet_size {
            return None;
        }
        proof {
            lemma_occurrences_bound(text@, character as int, i as int);
        }
        let count = sizes[character];
        sizes[character] = count + 1;
        i = i + 1;
    }
    proof {
        assert(sizes@ =~= bucket_sizes_spec(text@, alphabet_size).unwrap());
    }
    Some(sizes)
}

/// The sum of the first `k` bucket sizes.
pub open spec fn bucket_offset(bucket_sizes: Seq<usize>, k: int) -> int
    decreases k,
{
    if k <= 0 {
        0
    } else {
        bucket_offset(bucket_sizes, k - 1) + bucket_sizes[k - 1]
    }
}

/// The first slot of each bucket; slot 0 belongs to the empty suffix. Fails where
/// the sizes do not sum to at most `limit`.
fn get_bucket_heads(bucket_sizes: &[usize], limit: usize) -> (heads: Option<Vec<usize>>)
    requires
        limit < usize::MAX,
    ensures
        heads is Some <==> bucket_offset(bucket_sizes@, bucket_sizes@.len() as int) <= limit,
        heads is Some ==> heads.unwrap()@.len() == bucket_sizes@.len() && forall|c: int|
            0 <= c < bucket_sizes@.len() ==> #[trigger] heads.unwrap()@[c] == 1 + bucket_offset(
                bucket_sizes@,
                c,
            ),
{
    let mut heads: Vec<usize> = vec![0; bucket_sizes.len()];
    let mut offset: usize = 1;
    let mut i: usize = 0;
    while i < bucket_sizes.len()
        invariant
            i <= bucket_sizes@.len(),
            heads@.len() == bucket_sizes@.len(),
            limit < usize::MAX,
            offset == 1 + bucket_offset(bucket_sizes@, i as int),
            offset <= limit + 1,
            forall|c: int| 0 <= c < i ==> #[trigger] heads@[c] == 1 + bucket_offset(bucket_sizes@, c),
        decreases bucket_sizes@.len() - i,
    {
        heads[i] = offset;
        if bucket_sizes[i] > limit + 1 - offset {
            proof {
                lemma_bucket_offset_monotone(bucket_sizes@, i + 1, bucket_sizes@.len() as int);
            }
            return None;
        }
        offset = offset + bucket_sizes[i];
        i = i + 1;
    }
    Some(heads)
}

/// The sum of bucket sizes grows with the number of buckets.
pub proof fn lemma_bucket_offset_monotone(bucket_sizes: Seq<usize>, a: int, b: int)
    requires
        a <= b,
    ensures
        bucket_offset(bucket_sizes, a) <= bucket_offset(bucket_sizes, b),
    decreases b - a,
{
    if a < b {
        lemma_bucket_offset_monotone(bucket_sizes, a, b - 1);
    }
}

/// The last slot of each bucket; slot 0 belongs to the empty suffix. Fails where
/// the sizes do not sum to at most `limit`.
fn get_bucket_tails(bucket_sizes: &[usize], limit: usize) -> (tails: Option<Vec<usize>>)
    requires
        limit < usize::MAX,
    ensures
        tails is Some <==> bucket_offset(bucket_sizes@, bucket_sizes@.len() as int) <= limit,
        tails is Some ==> tails.unwrap()@.len() == bucket_sizes@.len() && forall|c: int|
            0 <= c < bucket_sizes@.len() ==> #[trigger] tails.unwrap()@[c] == bucket_offset(
                bucket_sizes@,
                c + 1,
            ),
{
    let mut tails: Vec<usize> = vec![0; bucket_sizes.len()];
    let mut offset: usize = 1;
    let mut i: usize = 0;
    while i < bucket_sizes.len()
        invariant
            i <= bucket_sizes@.len(),
            tails@.len() == bucket_sizes@.len(),
            limit < usize::MAX,
            offset == 1 + bucket_offset(bucket_sizes@, i as int),
            1 <= offset <= limit + 1,
            forall|c: int| 0 <= c < i ==> #[trigger] tails@[c] == bucket_offset(bucket_sizes@, c + 1),
        decreases bucket_sizes@.len() - i,
    {
        if bucket_sizes[i] > limit + 1 - offset {
            proof {
                lemma_bucket_offset_monotone(bucket_sizes@, i + 1, bucket_sizes@.len() as int);
            }
            return None;
        }
        offset = offset + bucket_sizes[i];
        tails[i] = offset - 1;
        i = i + 1;
    }
    Some(tails)
}

/// Whether `index` is an LMS position.
fn is_lms_character(index: usize, suffix_types: &[SuffixType]) -> (lms: bool)
    ensures
        lms == is_lms(suffix_types@, index as int),
{
    if index == 0 || index >= suffix_types.len() {
        return false;
    }
    suffix_types[index] == SuffixType::S && suffix_types[index - 1] == SuffixType::L
}

/// Whether the LMS substrings that begin at the two offsets are equal: character by
/// character up to and including the next LMS position of both. A substring that
/// runs to the end of the text equals no other.
pub open spec fn lms_blocks_equal(
    text: Seq<usize>,
    types: Seq<SuffixType>,
    previous_offset: int,
    current_offset: int,
    i: int,
) -> bool
    decreases text.len() - i,
{
    if i < 1 || previous_offset < 0 || current_offset < 0 {
        false
    } else if i + current_offset >= text.len() || i + previous_offset >= text.len() {
        false
    } else {
        let is_previous_lms = is_lms(types, previous_offset + i);
        let is_current_lms = is_lms(types, current_offset + i);
        if is_previous_lms && is_current_lms {
            true
        } else if is_previous_lms != is_current_lms {
            false
        } else if text[previous_offset + i] != text[current_offset + i] {
            false
        } else {
            lms_blocks_equal(text, types, previous_offset, current_offset, i + 1)
        }
    }
}

/// Compares the LMS substrings at two offsets.
fn are_lms_blocks_equal(
    text: &[usize],
    previous_offset: usize,
    current_offset: usize,
    suffix_types: &[SuffixType],
) -> (equal: bool)
    ensures
        equal == (previous_offset < text@.len() && current_offset < text@.len()
            && text@[previous_offset as int] == text@[current_offset as int] && lms_blocks_equal(
            text@,
            suffix_types@,
            previous_offset as int,
            current_offset as int,
            1,
        )),
{
    if previous_offset >= text.len() || current_offset >= text.len() {
        return false;
    }
    if text[previous_offset] != text[current_offset] {
        return false;
    }
    let limit: usize = if previous_offset > current_offset {
        text.len() - previous_offset
    } else {
        text.len() - current_offset
    };
    let mut i: usize = 1;
    while i < limit
        invariant
            1 <= i,
            text@.len() <= usize::MAX,
            previous_offset < text@.len(),
            current_offset < text@.len(),
            text@[previous_offset as int] == text@[current_offset as int],
            limit + previous_offset <= text@.len(),
            limit + current_offset <= text@.len(),
            limit + previous_offset == text@.len() || limit + current_offset == text@.len(),
            lms_blocks_equal(text@, suffix_types@, previous_offset as int, current_offset as int, 1)
                == lms_blocks_equal(
                text@,
                suffix_types@,
                previous_offset as int,
                current_offset as int,
                i as int,
            ),
        decreases limit - i,
    {
        let is_previous_lms = is_lms_character(previous_offset + i, suffix_types);
        let is_current_lms = is_lms_character(current_offset + i, suffix_types);
        if is_previous_lms && is_current_lms {
            assert(lms_blocks_equal(
                text@,
                suffix_types@,
                previous_offset as int,
                current_offset as int,
                i as int,
            ));
            return true;
        }
        if is_previous_lms != is_current_lms {
            return false;
        }
        if text[previous_offset + i] != text[current_offset + i] {
            return false;
        }
        i = i + 1;
    }
    false
}

/// A suffix array that is being filled, and the next free slot of every bucket.
pub type Filling = Option<(Seq<Option<usize>>, Seq<usize>)>;

/// The last slot of every bucket; `None` where the sizes sum to more than `limit`.
pub open spec fn bucket_tails_spec(bucket_sizes: Seq<usize>, limit: int) -> Option<Seq<usize>> {
    if bucket_offset(bucket_sizes, bucket_sizes.len() as int) <= limit {
        Some(Seq::new(bucket_sizes.len(), |c: int| bucket_offset(bucket_sizes, c + 1) as usize))
    } else {
        None
    }
}

/// The first slot of every bucket; `None` where the sizes sum to more than `limit`.
pub open spec fn bucket_heads_spec(bucket_sizes: Seq<usize>, limit: int) -> Option<Seq<usize>> {
    if bucket_offset(bucket_sizes, bucket_sizes.len() as int) <= limit {
        Some(Seq::new(bucket_sizes.len(), |c: int| (1 + bucket_offset(bucket_sizes, c)) as usize))
    } else {
        None
    }
}

/// The array with the end of the text in slot 0, and the given slots of the buckets.
pub open spec fn begin_filling(suffix_array: Seq<Option<usize>>, n: int, slots: Option<Seq<usize>>) -> Filling {
    match slots {
        Some(slots) => Some((suffix_array.update(0, Some(n as usize)), slots)),
        None => None,
    }
}

/// The filling with `position` put at the tail of the bucket of `character`, which
/// then ends one slot earlier; `None` where the bucket or the slot does not exist.
pub open spec fn put_at_tail(filling: (Seq<Option<usize>>, Seq<usize>), character: usize, position: usize) -> Filling {
    if character >= filling.1.len() {
        None
    } else {
        let slot = filling.1[character as int];
        if slot == 0 || slot >= filling.0.len() {
            None
        } else {
            Some(
                (
                    filling.0.update(slot as int, Some(position)),
                    filling.1.update(character as int, (slot - 1) as usize),
                ),
            )
        }
    }
}

/// The filling with `position` put at the head of the bucket of `character`, which
/// then begins one slot later; `None` where the bucket or the slot does not exist.
pub open spec fn put_at_head(filling: (Seq<Option<usize>>, Seq<usize>), character: usize, position: usize) -> Filling {
    if character >= filling.1.len() {
        None
    } else {
        let slot = filling.1[character as int];
        if slot >= filling.0.len() {
            None
        } else {
            Some(
                (
                    filling.0.update(slot as int, Some(position)),
                    filling.1.update(character as int, (slot + 1) as usize),
                ),
            )
        }
    }
}

/// The filling after the LMS positions from `i` on have been put at the tails of
/// their buckets, the last position first.
pub open spec fn lms_put(start: Filling, text: Seq<usize>, types: Seq<SuffixType>, i: int) -> Filling
    decreases text.len() - i,
{
    if i >= text.len() || i < 0 {
        start
    } else {
        match lms_put(start, text, types, i + 1) {
            None => None,
            Some(filling) => if is_lms(types, i) {
                put_at_tail(filling, text[i], i as usize)
            } else {
                Some(filling)
            },
        }
    }
}

proof fn lemma_lms_put_fails(start: Filling, text: Seq<usize>, types: Seq<SuffixType>, i: int, earlier: int)
    requires
        0 <= earlier <= i <= text.len(),
        lms_put(start, text, types, i) is None,
    ensures
        lms_put(start, text, types, earlier) is None,
    decreases i - earlier,
{
    if earlier < i {
        lemma_lms_put_fails(start, text, types, i, earlier + 1);
    }
}

/// Puts the empty suffix into slot 0 and every LMS position at the tail of its
/// character's bucket, filling each bucket from its end. Reports whether every
/// write fell inside the array.
fn identify_lms_characters(
    suffix_array: &mut Vec<Option<usize>>,
    text: &[usize],
    suffix_types: &[SuffixType],
    bucket_sizes: &[usize],
) -> (ok: bool)
    requires
        old(suffix_array)@.len() == text@.len() + 1,
    ensures
        final(suffix_array)@.len() == old(suffix_array)@.len(),
        ok <==> lms_put(
            begin_filling(
                old(suffix_array)@,
                text@.len() as int,
                bucket_tails_spec(bucket_sizes@, text@.len() as int),
            ),
            text@,
            suffix_types@,
            0,
        ) is Some,
        ok ==> final(suffix_array)@ == lms_put(
            begin_filling(
                old(suffix_array)@,
                text@.len() as int,
                bucket_tails_spec(bucket_sizes@, text@.len() as int),
            ),
            text@,
            suffix_types@,
            0,
        ).unwrap().0,
{
    let n = text.len();
    assert(suffix_array.len() == n + 1);
    let ghost start = begin_filling(
        suffix_array@,
        n as int,
        bucket_tails_spec(bucket_sizes@, n as int),
    );
    suffix_array[0] = Some(n);
    let mut bucket_tails = match get_bucket_tails(bucket_sizes, n) {
        Some(tails) => tails,
        None => {
            proof {
                lemma_lms_put_fails(start, text@, suffix_types@, n as int, 0);
            }
            return false;
        },
    };
    proof {
        assert(bucket_tails@ =~= bucket_tails_spec(bucket_sizes@, n as int).unwrap());
    }
    let mut i: usize = n;
    while i > 0
        invariant
            n == text@.len(),
            i <= n,
            suffix_array@.len() == n + 1,
            old(suffix_array)@.len() == n + 1,
            start == begin_filling(old(suffix_array)@, n as int, bucket_tails_spec(bucket_sizes@, n as int)),
            lms_put(start, text@, suffix_types@, i as int) == Some((suffix_array@, bucket_tails@)),
        decreases i,
    {
        i = i - 1;
        if is_lms_character(i, suffix_types) {
            let character = text[i];
            if character >= bucket_tails.len() {
                proof {
                    lemma_lms_put_fails(start, text@, suffix_types@, i as int, 0);
                }
                return false;
            }
            let slot = bucket_tails[character];
            if slot == 0 || slot >= suffix_array.len() {
                proof {
                    lemma_lms_put_fails(start, text@, suffix_types@, i as int, 0);
                }
                return false;
            }
            suffix_array[slot] = Some(i);
            bucket_tails[character] = slot - 1;
        }
    }
    true
}

/// The filling after the LMS positions have been put at the tails of their buckets
/// in the order of the suffix array of the reduced text, from its end down to the
/// entry `i`; the first two entries stand for the ends of the texts.
pub open spec fn sorted_lms_put(
    start: Filling,
    text: Seq<usize>,
    summary_suffix_array: Seq<Option<usize>>,
    summary_offsets: Seq<usize>,
    i: int,
) -> Filling
    decreases summary_suffix_array.len() - i,
{
    if i >= summary_suffix_array.len() || i < 2 {
        start
    } else {
        match sorted_lms_put(start, text, summary_suffix_array, summary_offsets, i + 1) {
            None => None,
            Some(filling) => match summary_suffix_array[i] {
                None => None,
                Some(index) => if index >= summary_offsets.len() || summary_offsets[index as int] >= text.len() {
                    None
                } else {
                    put_at_tail(
                        filling,
                        text[summary_offsets[index as int] as int],
                        summary_offsets[index as int],
                    )
                },
            },
        }
    }
}

proof fn lemma_sorted_lms_put_fails(
    start: Filling,
    text: Seq<usize>,
    summary_suffix_array: Seq<Option<usize>>,
    summary_offsets: Seq<usize>,
    i: int,
    earlier: int,
)
    requires
        2 <= earlier <= i,
        sorted_lms_put(start, text, summary_suffix_array, summary_offsets, i) is None,
    ensures
        sorted_lms_put(start, text, summary_suffix_array, summary_offsets, earlier) is None,
    decreases i - earlier,
{
    if earlier < i {
        lemma_sorted_lms_put_fails(start, text, summary_suffix_array, summary_offsets, i, earlier + 1);
    }
}

/// Puts the LMS positions into the tails of their buckets in the order that the
/// suffix array of the reduced text gives. Reports whether every read and write fell
/// inside its array.
fn place_lms_characters(
    suffix_array: &mut Vec<Option<usize>>,
    text: &[usize],
    bucket_sizes: &[usize],
    summary_suffix_array: &[Option<usize>],
    summary_offsets: &[usize],
) -> (ok: bool)
    requires
        old(suffix_array)@.len() == text@.len() + 1,
    ensures
        final(suffix_array)@.len() == old(suffix_array)@.len(),
        ok <==> sorted_lms_put(
            begin_filling(
                old(suffix_array)@,
                text@.len() as int,
                bucket_tails_spec(bucket_sizes@, text@.len() as int),
            ),
            text@,
            summary_suffix_array@,
            summary_offsets@,
            2,
        ) is Some,
        ok ==> final(suffix_array)@ == sorted_lms_put(
            begin_filling(
                old(suffix_array)@,
                text@.len() as int,
                bucket_tails_spec(bucket_sizes@, text@.len() as int),
            ),
            text@,
            summary_suffix_array@,
            summary_offsets@,
            2,
        ).unwrap().0,
{
    let n = text.len();
    assert(suffix_array.len() == n + 1);
    let ghost start = begin_filling(
        suffix_array@,
        n as int,
        bucket_tails_spec(bucket_sizes@, n as int),
    );
    suffix_array[0] = Some(n);
    let mut i: usize = if summary_suffix_array.len() < 2 { 2 } else { summary_suffix_array.len() };
    let mut bucket_tails = match get_bucket_tails(bucket_sizes, n) {
        Some(tails) => tails,
        None => {
            proof {
                lemma_sorted_lms_put_fails(start, text@, summary_suffix_array@, summary_offsets@, i as int, 2);
            }
            return false;
        },
    };
    proof {
        assert(bucket_tails@ =~= bucket_tails_spec(bucket_sizes@, n as int).unwrap());
    }
    while i > 2
        invariant
            n == text@.len(),
            2 <= i,
            i <= summary_suffix_array@.len() || i == 2,
            suffix_array@.len() == n + 1,
            old(suffix_array)@.len() == n + 1,
            start == begin_filling(old(suffix_array)@, n as int, bucket_tails_spec(bucket_sizes@, n as int)),
            sorted_lms_put(start, text@, summary_suffix_array@, summary_offsets@, i as int) == Some(
                (suffix_array@, bucket_tails@),
            ),
        decreases i,
    {
        i = i - 1;
        let summary_index = match summary_suffix_array[i] {
            Some(index) => index,
            None => {
                proof {
                    lemma_sorted_lms_put_fails(start, text@, summary_suffix_array@, summary_offsets@, i as int, 2);
                }
                return false;
            },
        };
        if summary_index >= summary_offsets.len() {
            proof {
                lemma_sorted_lms_put_fails(start, text@, summary_suffix_array@, summary_offsets@, i as int, 2);
            }
            return false;
        }
        let char_index: usize = summary_offsets[summary_index];
        if char_index >= n {
            proof {
                lemma_sorted_lms_put_fails(start, text@, summary_suffix_array@, summary_offsets@, i as int, 2);
            }
            return false;
        }
        let bucket_index: usize = text[char_index];
        if bucket_index >= bucket_tails.len() {
            proof {
                lemma_sorted_lms_put_fails(start, text@, summary_suffix_array@, summary_offsets@, i as int, 2);
            }
            return false;
        }
        let slot = bucket_tails[bucket_index];
        if slot == 0 || slot >= suffix_array.len() {
            proof {
                lemma_sorted_lms_put_fails(start, text@, summary_suffix_array@, summary_offsets@, i as int, 2);
            }
            return false;
        }
        suffix_array[slot] = Some(char_index);
        bucket_tails[bucket_index] = slot - 1;
    }
    true
}

/// The position before the entry of a slot, if the slot holds a position of the
/// text other than the first.
pub open spec fn position_before(entry: Option<usize>, n: int) -> Option<usize> {
    match entry {
        Some(number) => if 0 < number <= n {
            Some((number - 1) as usize)
        } else {
            None
        },
        None => None,
    }
}

/// The filling after the first `i` slots have been scanned from the front: for every
/// slot, the position before its entry is put at the head of its bucket if it is of
/// type L.
pub open spec fn induced_l(start: Filling, text: Seq<usize>, types: Seq<SuffixType>, i: int) -> Filling
    decreases i,
{
    if i <= 0 {
        start
    } else {
        match induced_l(start, text, types, i - 1) {
            None => None,
            Some(filling) => match position_before(filling.0[i - 1], text.len() as int) {
                Some(j) => if j < types.len() && types[j as int] == SuffixType::L {
                    put_at_head(filling, text[j as int], j)
                } else {
                    Some(filling)
                },
                None => Some(filling),
            },
        }
    }
}

proof fn lemma_induced_l_fails(start: Filling, text: Seq<usize>, types: Seq<SuffixType>, i: int, later: int)
    requires
        0 <= i <= later,
        induced_l(start, text, types, i) is None,
    ensures
        induced_l(start, text, types, later) is None,
    decreases later - i,
{
    if i < later {
        lemma_induced_l_fails(start, text, types, i, later - 1);
    }
}

/// The array with the given slots of the buckets.
pub open spec fn begin_scan(suffix_array: Seq<Option<usize>>, slots: Option<Seq<usize>>) -> Filling {
    match slots {
        Some(slots) => Some((suffix_array, slots)),
        None => None,
    }
}

/// Scans the array from the front and puts, for every entry, the position before it
/// at the head of its bucket if that position is of type L. Reports whether every
/// write fell inside the array.
fn induction_sort_l(
    suffix_array: &mut Vec<Option<usize>>,
    text: &[usize],
    suffix_types: &[SuffixType],
    bucket_sizes: &[usize],
) -> (ok: bool)
    requires
        old(suffix_array)@.len() == text@.len() + 1,
    ensures
        final(suffix_array)@.len() == old(suffix_array)@.len(),
        ok <==> induced_l(
            begin_scan(old(suffix_array)@, bucket_heads_spec(bucket_sizes@, text@.len() as int)),
            text@,
            suffix_types@,
            text@.len() as int + 1,
        ) is Some,
        ok ==> final(suffix_array)@ == induced_l(
            begin_scan(old(suffix_array)@, bucket_heads_spec(bucket_sizes@, text@.len() as int)),
            text@,
            suffix_types@,
            text@.len() as int + 1,
        ).unwrap().0,
{
    let n = text.len();
    assert(suffix_array.len() == n + 1);
    let ghost start = begin_scan(suffix_array@, bucket_heads_spec(bucket_sizes@, n as int));
    let mut bucket_heads = match get_bucket_heads(bucket_sizes, n) {
        Some(heads) => heads,
        None => {
            proof {
                lemma_induced_l_fails(start, text@, suffix_types@, 0, n + 1);
            }
            return false;
        },
    };
    proof {
        assert(bucket_heads@ =~= bucket_heads_spec(bucket_sizes@, n as int).unwrap());
    }
    let mut i: usize = 0;
    while i < suffix_array.len()
        invariant
            n == text@.len(),
            i <= n + 1,
            suffix_array@.len() == n + 1,
            old(suffix_array)@.len() == n + 1,
            start == begin_scan(old(suffix_array)@, bucket_heads_spec(bucket_sizes@, n as int)),
            induced_l(start, text@, suffix_types@, i as int) == Some((suffix_array@, bucket_heads@)),
        decreases suffix_array@.len() - i,
    {
        if let Some(number) = suffix_array[i] {
            if number > 0 && number <= n && number - 1 < suffix_types.len() {
                let j: usize = number - 1;
                if suffix_types[j] == SuffixType::L {
                    let character = text[j];
                    if character >= bucket_heads.len() {
                        proof {
                            lemma_induced_l_fails(start, text@, suffix_types@, i + 1, n + 1);
                        }
                        return false;
                    }
                    let slot = bucket_heads[character];
                    if slot >= suffix_array.len() {
                        proof {
                            lemma_induced_l_fails(start, text@, suffix_types@, i + 1, n + 1);
                        }
                        return false;
                    }
                    suffix_array[slot] = Some(j);
                    bucket_heads[character] = slot + 1;
                }
            }
        }
        i = i + 1;
    }
    true
}

/// The filling after the slots from `i` on have been scanned from the back: for
/// every slot, the position before its entry is put at the tail of its bucket if it
/// is of type S.
pub open spec fn induced_s(start: Filling, text: Seq<usize>, types: Seq<SuffixType>, i: int) -> Filling
    decreases text.len() + 1 - i,
{
    if i > text.len() || i < 0 {
        start
    } else {
        match induced_s(start, text, types, i + 1) {
            None => None,
            Some(filling) => match position_before(filling.0[i], text.len() as int) {
                Some(j) => if j < types.len() && types[j as int] == SuffixType::S {
                    put_at_tail(filling, text[j as int], j)
                } else {
                    Some(filling)
                },
                None => Some(filling),
            },
        }
    }
}

proof fn lemma_induced_s_fails(start: Filling, text: Seq<usize>, types: Seq<SuffixType>, i: int, earlier: int)
    requires
        0 <= earlier <= i <= text.len() + 1,
        induced_s(start, text, types, i) is None,
    ensures
        induced_s(start, text, types, earlier) is None,
    decreases i - earlier,
{
    if earlier < i {
        lemma_induced_s_fails(start, text, types, i, earlier + 1);
    }
}

/// Scans the array from the back and puts, for every entry, the position before it
/// at the tail of its bucket if that position is of type S. Reports whether every
/// write fell inside the array.
fn induction_sort_s(
    suffix_array: &mut Vec<Option<usize>>,
    text: &[usize],
    suffix_types: &[SuffixType],
    bucket_sizes: &[usize],
) -> (ok: bool)
    requires
        old(suffix_array)@.len() == text@.len() + 1,
    ensures
        final(suffix_array)@.len() == old(suffix_array)@.len(),
        ok <==> induced_s(
            begin_scan(old(suffix_array)@, bucket_tails_spec(bucket_sizes@, text@.len() as int)),
            text@,
            suffix_types@,
            0,
        ) is Some,
        ok ==> final(suffix_array)@ == induced_s(
            begin_scan(old(suffix_array)@, bucket_tails_spec(bucket_sizes@, text@.len() as int)),
            text@,
            suffix_types@,
            0,
        ).unwrap().0,
{
    let n = text.len();
    assert(suffix_array.len() == n + 1);
    let ghost start = begin_scan(suffix_array@, bucket_tails_spec(bucket_sizes@, n as int));
    let mut bucket_tails = match get_bucket_tails(bucket_sizes, n) {
        Some(tails) => tails,
        None => {
            proof {
                lemma_induced_s_fails(start, text@, suffix_types@, n + 1, 0);
            }
            return false;
        },
    };
    proof {
        assert(bucket_tails@ =~= bucket_tails_spec(bucket_sizes@, n as int).unwrap());
    }
    let mut i: usize = suffix_array.len();
    while i > 0
        invariant
            n == text@.len(),
            i <= n + 1,
            suffix_array@.len() == n + 1,
            old(suffix_array)@.len() == n + 1,
            start == begin_scan(old(suffix_array)@, bucket_tails_spec(bucket_sizes@, n as int)),
            induced_s(start, text@, suffix_types@, i as int) == Some((suffix_array@, bucket_tails@)),
        decreases i,
    {
        i = i - 1;
        if let Some(number) = suffix_array[i] {
            if number > 0 && number <= n && number - 1 < suffix_types.len() {
                let j: usize = number - 1;
                if suffix_types[j] == SuffixType::S {
                    let character = text[j];
                    if character >= bucket_tails.len() {
                        proof {
                            lemma_induced_s_fails(start, text@, suffix_types@, i as int, 0);
                        }
                        return false;
                    }
                    let slot = bucket_tails[character];
                    if slot == 0 || slot >= suffix_array.len() {
                        proof {
                            lemma_induced_s_fails(start, text@, suffix_types@, i as int, 0);
                        }
                        return false;
                    }
                    suffix_array[slot] = Some(j);
                    bucket_tails[character] = slot - 1;
                }
            }
        }
    }
    true
}

/// The state of the naming after the first `r` entries of the array: the names given
/// so far, by position; the last name; the position named last; and the number of
/// names given. `None` where an entry is missing or a position is met twice.
pub open spec fn naming(
    suffix_array: Seq<Option<usize>>,
    text: Seq<usize>,
    types: Seq<SuffixType>,
    r: int,
) -> Option<(Seq<Option<usize>>, usize, usize, usize)>
    decreases r,
{
    let n = text.len();
    if r <= 1 {
        if suffix_array[0] == Some(n as usize) {
            Some((Seq::new(n + 1, |i: int| None::<usize>).update(n as int, Some(0usize)), 0usize, n as usize, 1usize))
        } else {
            None
        }
    } else {
        match naming(suffix_array, text, types, r - 1) {
            None => None,
            Some((names, current_name, previous_offset, count)) => match suffix_array[r - 1] {
                None => None,
                Some(entry) => if entry >= n || !is_lms(types, entry as int) {
                    Some((names, current_name, previous_offset, count))
                } else if names[entry as int] is Some {
                    None
                } else {
                    let name = if text[previous_offset as int] == text[entry as int] && lms_blocks_equal(
                        text,
                        types,
                        previous_offset as int,
                        entry as int,
                        1,
                    ) && previous_offset < n {
                        current_name
                    } else {
                        (current_name + 1) as usize
                    };
                    Some((names.update(entry as int, Some(name)), name, entry, (count + 1) as usize))
                },
            },
        }
    }
}

/// The names among the first `i` positions, in text order, and their positions.
pub open spec fn named_positions(names: Seq<Option<usize>>, i: int) -> (Seq<usize>, Seq<usize>)
    decreases i,
{
    if i <= 0 {
        (Seq::empty(), Seq::empty())
    } else {
        let before = named_positions(names, i - 1);
        match names[i - 1] {
            Some(name) => (before.0.push(name), before.1.push((i - 1) as usize)),
            None => before,
        }
    }
}

/// Names the LMS substrings in the order in which the array lists them, equal
/// substrings that follow each other by one name, and writes the names down in text
/// order, with their positions. Fails where the array does not begin with the end
/// of the text, holds an empty slot, or lists an LMS position twice.
fn reduce_problem(
    suffix_array: &Vec<Option<usize>>,
    text: &[usize],
    suffix_types: &[SuffixType],
) -> (summary: Option<ReducedProblem>)
    requires
        suffix_array@.len() == text@.len() + 1,
    ensures
        summary is Some <==> naming(suffix_array@, text@, suffix_types@, suffix_array@.len() as int) is Some,
        summary is Some ==> {
            let s = summary.unwrap();
            let named = naming(suffix_array@, text@, suffix_types@, suffix_array@.len() as int).unwrap();
            &&& s.reduced_text@ == named_positions(named.0, named.0.len() as int).0
            &&& s.offsets@ == named_positions(named.0, named.0.len() as int).1
            &&& s.alphabet_size == named.1 + 1
            &&& s.reduced_text@.len() == s.offsets@.len()
            &&& 1 <= s.reduced_text@.len() <= text@.len() + 1
            &&& 1 <= s.alphabet_size <= s.reduced_text@.len()
            &&& forall|k: int| 0 <= k < s.reduced_text@.len() ==> #[trigger] s.reduced_text@[k] < s.alphabet_size
            &&& forall|k: int| 0 <= k < s.offsets@.len() ==> #[trigger] s.offsets@[k] <= text@.len()
        },
{
    let n = text.len();
    assert(suffix_array.len() == n + 1);
    let mut lms_names: Vec<Option<usize>> = vec![None; n + 1];
    let mut current_name: usize = 0;
    let mut count: usize = 1;
    let first = match suffix_array[0] {
        Some(first) => first,
        None => {
            proof {
                lemma_naming_fails(suffix_array@, text@, suffix_types@, 1, suffix_array@.len() as int);
            }
            return None;
        },
    };
    if first != n {
        proof {
            lemma_naming_fails(suffix_array@, text@, suffix_types@, 1, suffix_array@.len() as int);
        }
        return None;
    }
    proof {
        lemma_named_before_none(lms_names@, lms_names@.len() as int);
        lemma_named_insert(lms_names@, 0, 0, first as int);
        assert(lms_names@ =~= Seq::new((n + 1) as nat, |i: int| None::<usize>));
    }
    lms_names[first] = Some(current_name);
    let mut previous_offset: usize = first;
    let mut r: usize = 1;
    while r < suffix_array.len()
        invariant
            n == text@.len(),
            1 <= r <= suffix_array@.len(),
            suffix_array@.len() == n + 1,
            lms_names@.len() == n + 1,
            current_name < count <= r,
            named(lms_names@, count as int, current_name as int),
            naming(suffix_array@, text@, suffix_types@, r as int) == Some(
                (lms_names@, current_name, previous_offset, count),
            ),
        decreases suffix_array@.len() - r,
    {
        let entry = match suffix_array[r] {
            Some(entry) => entry,
            None => {
                proof {
                    lemma_naming_fails(suffix_array@, text@, suffix_types@, r + 1, suffix_array@.len() as int);
                }
                return None;
            },
        };
        r = r + 1;
        if entry >= n || !is_lms_character(entry, suffix_types) {
            continue ;
        }
        if lms_names[entry].is_some() {
            proof {
                lemma_naming_fails(suffix_array@, text@, suffix_types@, r as int, suffix_array@.len() as int);
            }
            return None;
        }
        if !are_lms_blocks_equal(text, previous_offset, entry, suffix_types) {
            current_name = current_name + 1;
        }
        previous_offset = entry;
        proof {
            lemma_named_insert(lms_names@, count as int, current_name as int, entry as int);
        }
        lms_names[entry] = Some(current_name);
        count = count + 1;
    }
    let mut reduced_text: Vec<usize> = Vec::new();
    let mut offsets: Vec<usize> = Vec::new();
    let mut i: usize = 0;
    while i < lms_names.len()
        invariant
            i <= lms_names@.len(),
            lms_names@.len() == n + 1,
            current_name < count <= n + 1,
            named(lms_names@, count as int, current_name as int),
            reduced_text@.len() == offsets@.len(),
            reduced_text@.len() == named_before(lms_names@, i as int),
            (reduced_text@, offsets@) == named_positions(lms_names@, i as int),
            forall|k: int| 0 <= k < reduced_text@.len() ==> #[trigger] reduced_text@[k] <= current_name,
            forall|k: int| 0 <= k < offsets@.len() ==> #[trigger] offsets@[k] <= n,
        decreases lms_names@.len() - i,
    {
        if let Some(name) = lms_names[i] {
            reduced_text.push(name);
            offsets.push(i);
        }
        i = i + 1;
    }
    Some(ReducedProblem { reduced_text, offsets, alphabet_size: current_name + 1 })
}

/// Once the naming has failed it stays failed.
proof fn lemma_naming_fails(
    suffix_array: Seq<Option<usize>>,
    text: Seq<usize>,
    types: Seq<SuffixType>,
    r: int,
    later: int,
)
    requires
        1 <= r <= later,
        naming(suffix_array, text, types, r) is None,
    ensures
        naming(suffix_array, text, types, later) is None,
    decreases later - r,
{
    if r < later {
        lemma_naming_fails(suffix_array, text, types, r, later - 1);
    }
}

/// How many of the first `k` slots hold a name.
pub open spec fn named_before(names: Seq<Option<usize>>, k: int) -> int
    decreases k,
{
    if k <= 0 {
        0
    } else {
        named_before(names, k - 1) + if names[k - 1] is Some {
            1int
        } else {
            0int
        }
    }
}

/// Whether exactly `count` slots hold a name and no name exceeds `top`.
pub open spec fn named(names: Seq<Option<usize>>, count: int, top: int) -> bool {
    &&& named_before(names, names.len() as int) == count
    &&& forall|k: int| 0 <= k < names.len() && names[k] is Some ==> (#[trigger] names[k]).unwrap() <= top
}

proof fn lemma_named_before_update(names: Seq<Option<usize>>, at: int, name: usize, k: int)
    requires
        0 <= at < names.len(),
        names[at] is None,
        0 <= k <= names.len(),
    ensures
        named_before(names.update(at, Some(name)), k) == named_before(names, k) + if at < k {
            1int
        } else {
            0int
        },
    decreases k,
{
    if k > 0 {
        lemma_named_before_update(names, at, name, k - 1);
    }
}

proof fn lemma_named_insert(names: Seq<Option<usize>>, count: int, top: int, at: int)
    requires
        0 <= at < names.len(),
        names[at] is None,
        top >= 0,
        named(names, count, top) || named(names, count, top - 1),
    ensures
        named(names.update(at, Some(top as usize)), count + 1, top),
        count < names.len(),
{
    lemma_named_before_update(names, at, top as usize, names.len() as int);
    lemma_named_before_bound(names.update(at, Some(top as usize)), names.len() as int);
}

proof fn lemma_named_before_none(names: Seq<Option<usize>>, k: int)
    requires
        0 <= k <= names.len(),
        forall|i: int| 0 <= i < names.len() ==> #[trigger] names[i] is None,
    ensures
        named_before(names, k) == 0,
    decreases k,
{
    if k > 0 {
        lemma_named_before_none(names, k - 1);
    }
}

proof fn lemma_named_before_bound(names: Seq<Option<usize>>, k: int)
    requires
        0 <= k <= names.len(),
    ensures
        0 <= named_before(names, k) <= k,
    decreases k,
{
    if k > 0 {
        lemma_named_before_bound(names, k - 1);
    }
}

/// The types of the positions of the text and of its end.
pub open spec fn suffix_types_spec(text: Seq<usize>) -> Seq<SuffixType> {
    Seq::new(
        text.len() + 1,
        |i: int|
            if is_s_type(text, i) {
                SuffixType::S
            } else {
                SuffixType::L
            },
    )
}

/// An array without entries.
pub open spec fn empty_array(n: int) -> Seq<Option<usize>> {
    Seq::new((n + 1) as nat, |i: int| None::<usize>)
}

/// The array after a scan from the front and a scan from the back.
pub open spec fn induced(suffix_array: Option<Seq<Option<usize>>>, text: Seq<usize>, sizes: Seq<usize>) -> Option<
    Seq<Option<usize>>,
> {
    match suffix_array {
        None => None,
        Some(suffix_array) => match induced_l(
            begin_scan(suffix_array, bucket_heads_spec(sizes, text.len() as int)),
            text,
            suffix_types_spec(text),
            text.len() as int + 1,
        ) {
            None => None,
            Some(after_l) => match induced_s(
                begin_scan(after_l.0, bucket_tails_spec(sizes, text.len() as int)),
                text,
                suffix_types_spec(text),
                0,
            ) {
                None => None,
                Some(after_s) => Some(after_s.0),
            },
        },
    }
}

/// The array of the first pass: the LMS positions at the tails of their buckets, and
/// what the two scans put in from them.
pub open spec fn first_pass(text: Seq<usize>, sizes: Seq<usize>) -> Option<Seq<Option<usize>>> {
    match lms_put(
        begin_filling(empty_array(text.len() as int), text.len() as int, bucket_tails_spec(sizes, text.len() as int)),
        text,
        suffix_types_spec(text),
        0,
    ) {
        None => None,
        Some(filling) => induced(Some(filling.0), text, sizes),
    }
}

/// The reduced text of the first pass, with the positions of its characters and the
/// size of its alphabet.
pub open spec fn reduced(text: Seq<usize>, sizes: Seq<usize>) -> Option<(Seq<usize>, Seq<usize>, usize)> {
    match first_pass(text, sizes) {
        None => None,
        Some(suffix_array) => match naming(suffix_array, text, suffix_types_spec(text), text.len() as int + 1) {
            None => None,
            Some(named) => Some(
                (
                    named_positions(named.0, named.0.len() as int).0,
                    named_positions(named.0, named.0.len() as int).1,
                    (named.1 + 1) as usize,
                ),
            ),
        },
    }
}

/// The suffix array of a text in which every character differs from every other,
/// after the first `i` characters have been put in their slots; `None` where a
/// character is not below the length of the text.
pub open spec fn names_inverted(reduced_text: Seq<usize>, i: int) -> Option<Seq<Option<usize>>>
    decreases i,
{
    let len = reduced_text.len();
    if i <= 1 {
        Some(Seq::new(len + 1, |k: int| Some(0usize)).update(0, Some(len as usize)))
    } else {
        match names_inverted(reduced_text, i - 1) {
            None => None,
            Some(suffix_array) => if reduced_text[i - 1] >= len {
                None
            } else {
                Some(suffix_array.update(reduced_text[i - 1] + 1, Some((i - 1) as usize)))
            },
        }
    }
}

proof fn lemma_names_inverted_fails(reduced_text: Seq<usize>, i: int, later: int)
    requires
        1 <= i <= later,
        names_inverted(reduced_text, i) is None,
    ensures
        names_inverted(reduced_text, later) is None,
    decreases later - i,
{
    if i < later {
        lemma_names_inverted_fails(reduced_text, i, later - 1);
    }
}

/// The suffix array of the reduced text: read off the names where they all differ,
/// that of induced sorting where they do not.
pub open spec fn summary_array(reduced_text: Seq<usize>, alphabet_size: usize) -> Option<Seq<Option<usize>>>
    decreases
            (if alphabet_size == reduced_text.len() {
                0
            } else {
                2 * reduced_text.len() + 1
            }),
{
    if reduced_text.len() >= usize::MAX / 2 {
        None
    } else if alphabet_size == reduced_text.len() {
        names_inverted(reduced_text, reduced_text.len() as int)
    } else {
        induced_sorting(reduced_text, alphabet_size)
    }
}

/// What induced sorting gives for a text of numbers below `alphabet_size`: the
/// array of the first pass names the LMS substrings; the suffix array of the text
/// of the names orders the LMS positions; from them the two scans fill the array
/// once more. `None` where a step reads or writes outside its array.
pub open spec fn induced_sorting(text: Seq<usize>, alphabet_size: usize) -> Option<Seq<Option<usize>>>
    decreases 2 * text.len(),
{
    let n = text.len() as int;
    if n == 0 {
        Some(seq![Some(0usize)])
    } else {
        match bucket_sizes_spec(text, alphabet_size) {
            None => None,
            Some(sizes) => match reduced(text, sizes) {
                None => None,
                Some((reduced_text, offsets, names)) => if names != reduced_text.len() && reduced_text.len() >= n {
                    None
                } else {
                    match summary_array(reduced_text, names) {
                        None => None,
                        Some(summary) => match sorted_lms_put(
                            begin_filling(empty_array(n), n, bucket_tails_spec(sizes, n)),
                            text,
                            summary,
                            offsets,
                            2,
                        ) {
                            None => None,
                            Some(filling) => induced(Some(filling.0), text, sizes),
                        },
                    }
                },
            },
        }
    }
}

/// The suffix array of the reduced text: read off the names where they all differ,
/// computed by sorting the reduced text in turn where they do not.
fn build_summary_suffix_array(summary: &ReducedProblem) -> (suffix_array: Option<Vec<Option<usize>>>)
    ensures
        suffix_array is Some <==> summary_array(summary.reduced_text@, summary.alphabet_size) is Some,
        suffix_array is Some ==> suffix_array.unwrap()@ == summary_array(
            summary.reduced_text@,
            summary.alphabet_size,
        ).unwrap(),
    decreases
            (if summary.alphabet_size == summary.reduced_text@.len() {
                0
            } else {
                2 * summary.reduced_text@.len() + 1
            }),
{
    let len = summary.reduced_text.len();
    if len >= usize::MAX / 2 {
        return None;
    }
    if summary.alphabet_size == len {
        let mut suffix_array: Vec<Option<usize>> = vec![Some(0); len + 1];
        suffix_array[0] = Some(len);
        let mut i: usize = 1;
        proof {
            assert(suffix_array@ =~= Seq::new((len + 1) as nat, |k: int| Some(0usize)).update(
                0,
                Some(len),
            ));
        }
        while i < len
            invariant
                1 <= i,
                i <= len || i == 1,
                len == summary.reduced_text@.len(),
                len < usize::MAX / 2,
                summary.alphabet_size == len,
                suffix_array@.len() == len + 1,
                names_inverted(summary.reduced_text@, i as int) == Some(suffix_array@),
            decreases len - i,
        {
            let name = summary.reduced_text[i];
            if name >= len {
                proof {
                    lemma_names_inverted_fails(summary.reduced_text@, i + 1, len as int);
                    assert(summary_array(summary.reduced_text@, summary.alphabet_size) == names_inverted(
                        summary.reduced_text@,
                        len as int,
                    ));
                }
                return None;
            }
            suffix_array[name + 1] = Some(i);
            i = i + 1;
        }
        proof {
            if len == 0 {
                assert(names_inverted(summary.reduced_text@, 0) == names_inverted(summary.reduced_text@, 1));
            }
            assert(summary_array(summary.reduced_text@, summary.alphabet_size) == names_inverted(
                summary.reduced_text@,
                len as int,
            ));
        }
        return Some(suffix_array);
    }
    orchestrate_build_suffix_array(summary.reduced_text.as_slice(), summary.alphabet_size)
}

/// Sorts the suffixes of a text of numbers below `alphabet_size` by induced sorting:
/// LMS positions first, then the positions of type L from them, then those of type
/// S, once to name the LMS substrings and once more with the LMS positions in their
/// final order. Gives up where a step reads or writes outside its array.
fn orchestrate_build_suffix_array(text: &[usize], alphabet_size: usize) -> (suffix_array: Option<
    Vec<Option<usize>>,
>)
    requires
        text@.len() < usize::MAX / 2,
    ensures
        suffix_array is Some <==> induced_sorting(text@, alphabet_size) is Some,
        suffix_array is Some ==> suffix_array.unwrap()@ == induced_sorting(text@, alphabet_size).unwrap(),
    decreases 2 * text@.len(),
{
    let n = text.len();
    if n == 0 {
        let first: Vec<Option<usize>> = vec![Some(0)];
        proof {
            assert(first@ =~= seq![Some(0usize)]);
        }
        return Some(first);
    }
    let suffix_types = get_suffix_types(text);
    proof {
        assert(suffix_types@ =~= suffix_types_spec(text@));
    }
    let bucket_sizes = match get_bucket_sizes(text, alphabet_size) {
        Some(sizes) => sizes,
        None => {
            return None;
        },
    };
    let mut suffix_array: Vec<Option<usize>> = vec![None; n + 1];
    proof {
        assert(suffix_array@ =~= empty_array(n as int));
    }
    if !identify_lms_characters(
        &mut suffix_array,
        text,
        suffix_types.as_slice(),
        bucket_sizes.as_slice(),
    ) {
        return None;
    }
    let ghost lms = suffix_array@;
    if !induction_sort_l(&mut suffix_array, text, suffix_types.as_slice(), bucket_sizes.as_slice()) {
        return None;
    }
    if !induction_sort_s(&mut suffix_array, text, suffix_types.as_slice(), bucket_sizes.as_slice()) {
        return None;
    }
    proof {
        assert(first_pass(text@, bucket_sizes@) == Some(suffix_array@));
    }
    let summary = match reduce_problem(&suffix_array, text, suffix_types.as_slice()) {
        Some(summary) => summary,
        None => {
            return None;
        },
    };
    proof {
        assert(reduced(text@, bucket_sizes@) == Some(
            (summary.reduced_text@, summary.offsets@, summary.alphabet_size),
        ));
    }
    if summary.alphabet_size != summary.reduced_text.len() && summary.reduced_text.len() >= n {
        return None;
    }
    let summary_suffix_array = match build_summary_suffix_array(&summary) {
        Some(summary_suffix_array) => summary_suffix_array,
        None => {
            return None;
        },
    };
    suffix_array = vec![None; n + 1];
    proof {
        assert(suffix_array@ =~= empty_array(n as int));
    }
    if !place_lms_characters(
        &mut suffix_array,
        text,
        bucket_sizes.as_slice(),
        summary_suffix_array.as_slice(),
        summary.offsets.as_slice(),
    ) {
        return None;
    }
    if !induction_sort_l(&mut suffix_array, text, suffix_types.as_slice(), bucket_sizes.as_slice()) {
        return None;
    }
    if !induction_sort_s(&mut suffix_array, text, suffix_types.as_slice(), bucket_sizes.as_slice()) {
        return None;
    }
    Some(suffix_array)
}

/// Whether `sa` and `rank` are inverse to each other, the empty suffix comes first,
/// and every suffix but the first is followed by one with a larger first character,
/// or with the same first character and a rest of higher rank.
pub open spec fn locally_sorted(text: Seq<u8>, sa: Seq<usize>, rank: Seq<usize>) -> bool {
    &&& sa.len() == text.len() + 1
    &&& rank.len() == text.len() + 1
    &&& sa[0] == text.len()
    &&& forall|r: int| 0 <= r < sa.len() ==> #[trigger] sa[r] <= text.len() && rank[sa[r] as int] == r
    &&& forall|i: int| 0 <= i < rank.len() ==> #[trigger] rank[i] <= text.len() && sa[rank[i] as int] == i
    &&& forall|r: int| 1 <= r < text.len() ==> #[trigger] step_sorted(text, sa, rank, r)
}

/// Whether the suffix of rank `r` is followed by one with a larger first character,
/// or with the same first character and a rest of higher rank.
pub open spec fn step_sorted(text: Seq<u8>, sa: Seq<usize>, rank: Seq<usize>, r: int) -> bool {
    let a = sa[r] as int;
    let b = sa[r + 1] as int;
    &&& a < text.len()
    &&& b < text.len()
    &&& (text[a] < text[b] || (text[a] == text[b] && rank[a + 1] < rank[b + 1]))
}

proof fn lemma_first_characters(text: Seq<u8>, sa: Seq<usize>, rank: Seq<usize>, ra: int, rb: int)
    requires
        locally_sorted(text, sa, rank),
        1 <= ra < rb <= text.len(),
    ensures
        sa[ra] < text.len(),
        sa[rb] < text.len(),
        text[sa[ra] as int] <= text[sa[rb] as int],
        text[sa[ra] as int] == text[sa[rb] as int] ==> rank[sa[ra] + 1] < rank[sa[rb] + 1],
    decreases rb - ra,
{
    assert(step_sorted(text, sa, rank, rb - 1));
    if ra < rb - 1 {
        lemma_first_characters(text, sa, rank, ra, rb - 1);
    }
}

proof fn lemma_rank_orders_suffixes(text: Seq<u8>, sa: Seq<usize>, rank: Seq<usize>, i: int, j: int)
    requires
        locally_sorted(text, sa, rank),
        0 <= i <= text.len(),
        0 <= j <= text.len(),
        rank[i] < rank[j],
    ensures
        suffix_lt(text, i, j),
    decreases text.len() - i,
{
    let n = text.len() as int;
    assert(rank[sa[0] as int] == 0);
    assert(sa[rank[i] as int] == i);
    assert(sa[rank[j] as int] == j);
    if i == n {
    } else if j == n {
    } else {
        lemma_first_characters(text, sa, rank, rank[i] as int, rank[j] as int);
        if text[i] == text[j] {
            lemma_rank_orders_suffixes(text, sa, rank, i + 1, j + 1);
        }
    }
}

proof fn lemma_locally_sorted_is_suffix_array(text: Seq<u8>, sa: Seq<usize>, rank: Seq<usize>)
    requires
        locally_sorted(text, sa, rank),
    ensures
        is_suffix_array(text, sa),
{
    assert forall|i: int| 0 <= i <= text.len() implies #[trigger] occurs(sa, i) by {
        assert(sa[rank[i] as int] == i);
    }
    assert forall|a: int, b: int| 0 <= a < b < sa.len() implies suffix_lt(
        text,
        #[trigger] sa[a] as int,
        #[trigger] sa[b] as int,
    ) by {
        assert(rank[sa[a] as int] == a);
        assert(rank[sa[b] as int] == b);
        lemma_rank_orders_suffixes(text, sa, rank, sa[a] as int, sa[b] as int);
    }
}

/// In a suffix array the empty suffix stands first and nowhere else, and no suffix
/// stands twice.
pub proof fn lemma_suffix_array_entries(text: Seq<u8>, sa: Seq<usize>)
    requires
        is_suffix_array(text, sa),
    ensures
        sa[0] == text.len(),
        forall|r: int| 1 <= r < sa.len() ==> #[trigger] sa[r] < text.len(),
        forall|a: int, b: int| 0 <= a < b < sa.len() ==> #[trigger] sa[a] != #[trigger] sa[b],
{
    assert(occurs(sa, text.len() as int));
    let r0 = choose|r: int| 0 <= r < sa.len() && #[trigger] sa[r] == text.len();
    if r0 > 0 {
        assert(suffix_lt(text, sa[0] as int, sa[r0] as int));
    }
    assert forall|r: int| 1 <= r < sa.len() implies #[trigger] sa[r] < text.len() by {
        assert(suffix_lt(text, sa[0] as int, sa[r] as int));
    }
    assert forall|a: int, b: int| 0 <= a < b < sa.len() implies #[trigger] sa[a] != #[trigger] sa[b] by {
        assert(suffix_lt(text, sa[a] as int, sa[b] as int));
        crate::block::bwt::lemma_suffix_lt_irreflexive(text, sa[a] as int);
    }
}

/// Two suffix arrays of one text agree in their first `k` entries.
proof fn lemma_suffix_arrays_agree(text: Seq<u8>, first: Seq<usize>, second: Seq<usize>, k: int)
    requires
        is_suffix_array(text, first),
        is_suffix_array(text, second),
        0 <= k <= first.len(),
    ensures
        forall|r: int| 0 <= r < k ==> first[r] == second[r],
    decreases k,
{
    if k > 0 {
        lemma_suffix_arrays_agree(text, first, second, k - 1);
        lemma_suffix_array_entries(text, first);
        lemma_suffix_array_entries(text, second);
        let r = k - 1;
        let x = first[r];
        let y = second[r];
        if x != y {
            assert(first[r] <= text.len());
            assert(second[r] <= text.len());
            assert(occurs(second, x as int));
            let in_second = choose|j: int| 0 <= j < second.len() && #[trigger] second[j] == x;
            if in_second < r {
                assert(first[in_second] == second[in_second]);
                assert(first[in_second] != first[r]);
            }
            assert(suffix_lt(text, second[r] as int, second[in_second] as int));
            assert(occurs(first, y as int));
            let in_first = choose|j: int| 0 <= j < first.len() && #[trigger] first[j] == y;
            if in_first < r {
                assert(first[in_first] == second[in_first]);
                assert(second[in_first] != second[r]);
            }
            assert(suffix_lt(text, first[r] as int, first[in_first] as int));
            crate::block::bwt::lemma_suffix_lt_asymmetric(text, x as int, y as int);
        }
    }
}

/// A text has one suffix array.
pub proof fn lemma_suffix_array_unique(text: Seq<u8>, first: Seq<usize>, second: Seq<usize>)
    requires
        is_suffix_array(text, first),
        is_suffix_array(text, second),
    ensures
        first == second,
{
    lemma_suffix_arrays_agree(text, first, second, first.len() as int);
    assert(first =~= second);
}

/// In a suffix array a suffix that comes before another stands before it.
proof fn lemma_order_of_ranks(text: Seq<u8>, sa: Seq<usize>, x: int, y: int)
    requires
        is_suffix_array(text, sa),
        0 <= x < sa.len(),
        0 <= y < sa.len(),
        suffix_lt(text, sa[x] as int, sa[y] as int),
    ensures
        x < y,
{
    if y < x {
        assert(suffix_lt(text, sa[y] as int, sa[x] as int));
        crate::block::bwt::lemma_suffix_lt_asymmetric(text, sa[x] as int, sa[y] as int);
    } else if x == y {
        crate::block::bwt::lemma_suffix_lt_irreflexive(text, sa[x] as int);
    }
}

/// Checks in one pass over the array whether it lists the suffixes of the text in
/// order.
pub fn check_suffix_array(text: &[u8], sa: &Vec<usize>) -> (ok: bool)
    ensures
        ok == is_suffix_array(text@, sa@),
{
    let n = text.len();
    let entries = sa.len();
    if n == usize::MAX || entries != n + 1 {
        return false;
    }
    proof {
        if is_suffix_array(text@, sa@) {
            lemma_suffix_array_entries(text@, sa@);
        }
    }
    if sa[0] != n {
        return false;
    }
    let unset: usize = n + 1;
    let mut rank: Vec<usize> = vec![unset; n + 1];
    let mut r: usize = 0;
    while r <= n
        invariant
            n == text@.len(),
            n < usize::MAX,
            unset == n + 1,
            r <= n + 1,
            sa@.len() == n + 1,
            rank@.len() == n + 1,
            is_suffix_array(text@, sa@) ==> forall|a: int, b: int|
                0 <= a < b < sa@.len() ==> #[trigger] sa@[a] != #[trigger] sa@[b],
            forall|k: int| 0 <= k < r ==> #[trigger] sa@[k] <= n && rank@[sa@[k] as int] == k,
            forall|i: int| 0 <= i <= n && #[trigger] rank@[i] != unset ==> rank@[i] < r && sa@[rank@[i] as int] == i,
        decreases n + 1 - r,
    {
        let position = sa[r];
        if position > n {
            return false;
        }
        if rank[position] != unset {
            proof {
                if is_suffix_array(text@, sa@) {
                    assert(sa@[rank@[position as int] as int] != sa@[r as int]);
                }
            }
            return false;
        }
        rank[position] = r;
        r = r + 1;
    }
    let mut i: usize = 0;
    while i <= n
        invariant
            n == text@.len(),
            n < usize::MAX,
            unset == n + 1,
            i <= n + 1,
            sa@.len() == n + 1,
            rank@.len() == n + 1,
            forall|k: int| 0 <= k <= n ==> #[trigger] sa@[k] <= n && rank@[sa@[k] as int] == k,
            forall|i: int| 0 <= i <= n && #[trigger] rank@[i] != unset ==> rank@[i] <= n && sa@[rank@[i] as int] == i,
            forall|k: int| 0 <= k < i ==> #[trigger] rank@[k] != unset,
        decreases n + 1 - i,
    {
        if rank[i] == unset {
            proof {
                if is_suffix_array(text@, sa@) {
                    assert(occurs(sa@, i as int));
                    let at = choose|at: int| 0 <= at < sa@.len() && #[trigger] sa@[at] == i;
                    assert(rank@[sa@[at] as int] == at);
                }
            }
            return false;
        }
        i = i + 1;
    }
    let mut r: usize = 1;
    while r < n
        invariant
            n == text@.len(),
            n < usize::MAX,
            1 <= r,
            sa@.len() == n + 1,
            rank@.len() == n + 1,
            sa@[0] == n,
            is_suffix_array(text@, sa@) ==> forall|k: int| 1 <= k < sa@.len() ==> #[trigger] sa@[k] < n,
            forall|k: int| 0 <= k <= n ==> #[trigger] sa@[k] <= n && rank@[sa@[k] as int] == k,
            forall|i: int| 0 <= i <= n ==> #[trigger] rank@[i] <= n && sa@[rank@[i] as int] == i,
            forall|k: int| 1 <= k < r ==> #[trigger] step_sorted(text@, sa@, rank@, k),
        decreases n - r,
    {
        let a = sa[r];
        let b = sa[r + 1];
        if a >= n || b >= n {
            proof {
                if is_suffix_array(text@, sa@) {
                    assert(sa@[r as int] < n);
                    assert(sa@[r + 1] < n);
                }
            }
            return false;
        }
        if !(text[a] < text[b] || (text[a] == text[b] && rank[a + 1] < rank[b + 1])) {
            proof {
                if is_suffix_array(text@, sa@) {
                    assert(suffix_lt(text@, sa@[r as int] as int, sa@[r + 1] as int));
                    assert(sa@[rank@[a + 1] as int] == a + 1);
                    assert(sa@[rank@[b + 1] as int] == b + 1);
                    lemma_order_of_ranks(text@, sa@, rank@[a + 1] as int, rank@[b + 1] as int);
                }
            }
            return false;
        }
        r = r + 1;
    }
    proof {
        lemma_locally_sorted_is_suffix_array(text@, sa@, rank@);
    }
    true
}

/// Compares two suffixes character by character.
pub fn suffix_less(text: &[u8], i: usize, j: usize) -> (less: bool)
    requires
        i <= text@.len(),
        j <= text@.len(),
    ensures
        less == suffix_lt(text@, i as int, j as int),
{
    let n = text.len();
    let mut a: usize = i;
    let mut b: usize = j;
    while a < n && b < n && text[a] == text[b]
        invariant
            n == text@.len(),
            a <= n,
            b <= n,
            suffix_lt(text@, i as int, j as int) == suffix_lt(text@, a as int, b as int),
        decreases n - a,
    {
        a = a + 1;
        b = b + 1;
    }
    if a >= n {
        b < n
    } else if b >= n {
        false
    } else {
        text[a] < text[b]
    }
}

/// Sorts the suffixes of the text by comparing them, one insertion at a time.
pub fn sort_suffixes(text: &[u8]) -> (sa: Vec<usize>)
    requires
        text@.len() < usize::MAX,
    ensures
        is_suffix_array(text@, sa@),
{
    let n = text.len();
    let mut sa: Vec<usize> = Vec::new();
    let mut next: usize = 0;
    while next <= n
        invariant
            n == text@.len(),
            n < usize::MAX,
            next <= n + 1,
            sa@.len() == next,
            forall|r: int| 0 <= r < sa@.len() ==> #[trigger] sa@[r] < next,
            forall|i: int| 0 <= i < next ==> #[trigger] occurs(sa@, i),
            forall|a: int, b: int|
                0 <= a < b < sa@.len() ==> suffix_lt(text@, #[trigger] sa@[a] as int, #[trigger] sa@[b] as int),
        decreases n + 1 - next,
    {
        let mut slot: usize = 0;
        while slot < sa.len() && !suffix_less(text, next, sa[slot])
            invariant
                n == text@.len(),
                next <= n,
                slot <= sa@.len(),
                sa@.len() == next,
                forall|r: int| 0 <= r < sa@.len() ==> #[trigger] sa@[r] < next,
                forall|r: int| 0 <= r < slot ==> suffix_lt(text@, #[trigger] sa@[r] as int, next as int),
            decreases sa@.len() - slot,
        {
            proof {
                lemma_suffix_lt_total(text@, next as int, sa@[slot as int] as int);
            }
            slot = slot + 1;
        }
        let ghost before = sa@;
        sa.insert(slot, next);
        proof {
            let after = sa@;
            assert forall|i: int| 0 <= i < next + 1 implies #[trigger] occurs(after, i) by {
                if i == next {
                    assert(after[slot as int] == i);
                } else {
                    assert(occurs(before, i));
                    let r = choose|r: int| 0 <= r < before.len() && #[trigger] before[r] == i;
                    if r < slot {
                        assert(after[r] == i);
                    } else {
                        assert(after[r + 1] == i);
                    }
                }
            }
            assert forall|a: int, b: int| 0 <= a < b < after.len() implies suffix_lt(
                text@,
                #[trigger] after[a] as int,
                #[trigger] after[b] as int,
            ) by {
                let old_a = if a < slot { a } else { a - 1 };
                let old_b = if b < slot { b } else { b - 1 };
                if a == slot {
                    assert(after[b] == before[old_b]);
                    if old_b > slot {
                        assert(suffix_lt(text@, before[slot as int] as int, before[old_b] as int));
                        lemma_suffix_lt_transitive(
                            text@,
                            next as int,
                            before[slot as int] as int,
                            before[old_b] as int,
                        );
                    }
                } else if b == slot {
                    assert(after[a] == before[old_a]);
                } else {
                    assert(after[a] == before[old_a]);
                    assert(after[b] == before[old_b]);
                }
            }
        }
        next = next + 1;
    }
    sa
}

/// Builds the suffix array of the text, the empty suffix included. The array comes
/// from induced sorting and is checked before it is returned; should the check ever
/// fail, the suffixes are sorted by comparison instead.
pub fn build_suffix_array(bytes: &[u8]) -> (sa: Vec<usize>)
    requires
        bytes@.len() < usize::MAX / 2,
    ensures
        is_suffix_array(bytes@, sa@),
{
    let mut data: Vec<usize> = Vec::new();
    let mut i: usize = 0;
    while i < bytes.len()
        invariant
            i <= bytes@.len(),
            data@.len() == i,
        decreases bytes@.len() - i,
    {
        data.push(bytes[i] as usize);
        i = i + 1;
    }
    if let Some(entries) = orchestrate_build_suffix_array(data.as_slice(), 256) {
        let mut sa: Vec<usize> = Vec::new();
        let mut complete = true;
        let mut r: usize = 0;
        while r < entries.len()
            invariant
                r <= entries@.len(),
            decreases entries@.len() - r,
        {
            match entries[r] {
                Some(index) => {
                    sa.push(index);
                },
                None => {
                    complete = false;
                },
            }
            r = r + 1;
        }
        if complete && check_suffix_array(bytes, &sa) {
            return sa;
        }
    }
    sort_suffixes(bytes)
}

} // verus!
