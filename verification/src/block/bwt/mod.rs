use vstd::prelude::*;

pub mod duval;
pub mod sais;
pub mod bwt_internal;
pub mod bwt_inverse;

verus! {

/// Whether the suffix of `text` that starts at `i` comes before the one that starts
/// at `j` in lexicographic order. The empty suffix comes before every other.
pub open spec fn suffix_lt(text: Seq<u8>, i: int, j: int) -> bool
    decreases text.len() - i,
{
    if i < 0 || j < 0 {
        false
    } else if i >= text.len() {
        j < text.len()
    } else if j >= text.len() {
        false
    } else if text[i] != text[j] {
        text[i] < text[j]
    } else {
        suffix_lt(text, i + 1, j + 1)
    }
}

/// Whether the `d` bytes from `a` on equal the `d` bytes from `b` on.
pub open spec fn agree(text: Seq<u8>, a: int, b: int, d: int) -> bool {
    forall|t: int| 0 <= t < d ==> #[trigger] text[a + t] == text[b + t]
}

/// Two suffixes that agree on `d` bytes are ordered by what follows.
pub proof fn lemma_suffix_lt_after_agreement(text: Seq<u8>, a: int, b: int, d: int)
    requires
        0 <= a,
        0 <= b,
        0 <= d,
        a + d <= text.len(),
        b + d <= text.len(),
        agree(text, a, b, d),
    ensures
        suffix_lt(text, a, b) == suffix_lt(text, a + d, b + d),
    decreases d,
{
    if d > 0 {
        assert(text[a + 0] == text[b + 0]);
        assert forall|t: int| 0 <= t < d - 1 implies #[trigger] text[a + 1 + t] == text[b + 1 + t] by {
            assert(text[a + (t + 1)] == text[b + (t + 1)]);
        }
        lemma_suffix_lt_after_agreement(text, a + 1, b + 1, d - 1);
    }
}

/// No suffix comes before itself.
pub proof fn lemma_suffix_lt_irreflexive(text: Seq<u8>, a: int)
    ensures
        !suffix_lt(text, a, a),
    decreases text.len() - a,
{
    if 0 <= a < text.len() {
        lemma_suffix_lt_irreflexive(text, a + 1);
    }
}

/// The order of suffixes is transitive.
pub proof fn lemma_suffix_lt_transitive(text: Seq<u8>, a: int, b: int, c: int)
    requires
        suffix_lt(text, a, b),
        suffix_lt(text, b, c),
    ensures
        suffix_lt(text, a, c),
    decreases text.len() - a,
{
    if 0 <= a < text.len() && text[a] == text[b] && text[b] == text[c] {
        lemma_suffix_lt_transitive(text, a + 1, b + 1, c + 1);
    }
}

/// Of two different suffixes one comes before the other.
pub proof fn lemma_suffix_lt_total(text: Seq<u8>, a: int, b: int)
    requires
        0 <= a <= text.len(),
        0 <= b <= text.len(),
        a != b,
    ensures
        suffix_lt(text, a, b) || suffix_lt(text, b, a),
    decreases text.len() - a,
{
    if a < text.len() && b < text.len() && text[a] == text[b] {
        lemma_suffix_lt_total(text, a + 1, b + 1);
    }
}

/// No two suffixes come before each other.
pub proof fn lemma_suffix_lt_asymmetric(text: Seq<u8>, a: int, b: int)
    requires
        suffix_lt(text, a, b),
    ensures
        !suffix_lt(text, b, a),
{
    if suffix_lt(text, b, a) {
        lemma_suffix_lt_transitive(text, a, b, a);
        lemma_suffix_lt_irreflexive(text, a);
    }
}

/// Whether `start` is where the smallest non-empty suffix of `text` begins.
pub open spec fn is_min_suffix(text: Seq<u8>, start: int) -> bool {
    &&& 0 <= start < text.len()
    &&& forall|q: int| 0 <= q < text.len() && q != start ==> #[trigger] suffix_lt(text, start, q)
}

/// The smallest non-empty suffix begins at one place only.
pub proof fn lemma_min_suffix_unique(text: Seq<u8>, a: int, b: int)
    requires
        is_min_suffix(text, a),
        is_min_suffix(text, b),
    ensures
        a == b,
{
    if a != b {
        assert(suffix_lt(text, a, b));
        assert(suffix_lt(text, b, a));
        lemma_suffix_lt_asymmetric(text, a, b);
    }
}

/// `text` turned so that it begins at `offset`.
pub open spec fn rotation(text: Seq<u8>, offset: int) -> Seq<u8> {
    text.skip(offset) + text.take(offset)
}

} // verus!
