use vstd::prelude::*;
use crate::block::bwt::{suffix_lt, agree, is_min_suffix, rotation, lemma_suffix_lt_after_agreement, lemma_suffix_lt_transitive};

verus! {

/// Whether the text from `i` to `k + p` repeats with period `p`.
pub open spec fn periodic(text: Seq<u8>, i: int, k: int, p: int) -> bool {
    forall|t: int| i <= t < k ==> #[trigger] text[t] == text[t + p]
}

/// Whether the texts at `a` and at `b` agree on `d` bytes and the byte after them is
/// smaller at `a`.
pub open spec fn mismatch_at(text: Seq<u8>, a: int, b: int, d: int) -> bool {
    &&& 0 <= d
    &&& agree(text, a, b, d)
    &&& text[a + d] < text[b + d]
}

/// Whether the word of length `p` at `i` is smaller than its own suffix at `q`, by a
/// byte inside the word.
pub open spec fn smaller_than_suffix(text: Seq<u8>, i: int, p: int, q: int) -> bool {
    exists|d: int| d < i + p - q && #[trigger] mismatch_at(text, i, q, d)
}

/// Whether the word of length `p` at `i` is smaller than each of its proper suffixes.
pub open spec fn is_lyndon(text: Seq<u8>, i: int, p: int) -> bool {
    forall|q: int| i < q < i + p ==> #[trigger] smaller_than_suffix(text, i, p, q)
}

proof fn lemma_extend_word(text: Seq<u8>, i: int, k: int, j: int, q: int)
    requires
        0 <= i <= k < j < text.len(),
        periodic(text, i, k, j - k),
        is_lyndon(text, i, j - k),
        text[k] < text[j],
        i < q <= j,
    ensures
        smaller_than_suffix(text, i, j + 1 - i, q),
    decreases q,
{
    let p = j - k;
    if q < i + p {
        assert(smaller_than_suffix(text, i, p, q));
        let d = choose|d: int| d < i + p - q && #[trigger] mismatch_at(text, i, q, d);
        assert(d < i + (j + 1 - i) - q && mismatch_at(text, i, q, d));
    } else {
        let q1 = q - p;
        if q1 == i {
            let d = j - q;
            assert forall|t: int| 0 <= t < d implies #[trigger] text[i + t] == text[q + t] by {
                assert(text[i + t] == text[i + t + p]);
            }
            assert(mismatch_at(text, i, q, d));
        } else {
            lemma_extend_word(text, i, k, j, q1);
            let d1 = choose|d: int| d < i + (j + 1 - i) - q1 && #[trigger] mismatch_at(text, i, q1, d);
            if q + d1 < j {
                assert forall|t: int| 0 <= t < d1 implies #[trigger] text[i + t] == text[q + t] by {
                    assert(text[q1 + t] == text[q1 + t + p]);
                    assert(text[i + t] == text[q1 + t]);
                }
                assert(text[q1 + d1] == text[q1 + d1 + p]);
                assert(mismatch_at(text, i, q, d1));
            } else {
                let d = j - q;
                assert forall|t: int| 0 <= t < d implies #[trigger] text[i + t] == text[q + t] by {
                    assert(text[q1 + t] == text[q1 + t + p]);
                    assert(text[i + t] == text[q1 + t]);
                }
                assert(q1 + d == k);
                if d < d1 {
                    assert(text[i + d] == text[q1 + d]);
                }
                assert(mismatch_at(text, i, q, d));
            }
        }
    }
}

proof fn lemma_word_before_suffix(text: Seq<u8>, i: int, p: int, q: int)
    requires
        0 <= i < q < i + p <= text.len(),
        is_lyndon(text, i, p),
    ensures
        suffix_lt(text, i, q),
{
    assert(smaller_than_suffix(text, i, p, q));
    let d = choose|d: int| d < i + p - q && #[trigger] mismatch_at(text, i, q, d);
    lemma_suffix_lt_after_agreement(text, i, q, d);
}

proof fn lemma_next_before_word(text: Seq<u8>, i: int, k: int, j: int)
    requires
        0 <= i <= k < j <= text.len(),
        periodic(text, i, k, j - k),
        j == text.len() || text[k] > text[j],
    ensures
        suffix_lt(text, i + (j - k), i),
{
    let p = j - k;
    let d = k - i;
    assert forall|t: int| 0 <= t < d implies #[trigger] text[i + p + t] == text[i + t] by {
        assert(text[i + t] == text[i + t + p]);
    }
    lemma_suffix_lt_after_agreement(text, i + p, i, d);
}

proof fn lemma_shift_word(text: Seq<u8>, i: int, k: int, p: int)
    requires
        0 <= i,
        0 < p,
        i + p <= k,
        k + p <= text.len(),
        periodic(text, i, k, p),
        is_lyndon(text, i, p),
    ensures
        is_lyndon(text, i + p, p),
{
    assert forall|q: int| i + p < q < i + p + p implies #[trigger] smaller_than_suffix(
        text,
        i + p,
        p,
        q,
    ) by {
        assert(smaller_than_suffix(text, i, p, q - p));
        let d = choose|d: int| d < i + p - (q - p) && #[trigger] mismatch_at(text, i, q - p, d);
        assert forall|t: int| 0 <= t < d implies #[trigger] text[i + p + t] == text[q + t] by {
            assert(text[i + t] == text[i + t + p]);
            assert(text[q - p + t] == text[q - p + t + p]);
            assert(text[i + t] == text[q - p + t]);
        }
        assert(text[i + d] == text[i + d + p]);
        assert(text[q - p + d] == text[q - p + d + p]);
        assert(mismatch_at(text, i + p, q, d));
    }
}

/// Finds where the smallest non-empty suffix of the input begins: the start of the
/// last word of its factorisation into non-increasing Lyndon words.
pub fn duval(input: &[u8]) -> (final_start: usize)
    ensures
        input@.len() == 0 ==> final_start == 0,
        input@.len() > 0 ==> is_min_suffix(input@, final_start as int),
{
    let mut final_start: usize = 0;
    let n = input.len();
    let mut i: usize = 0;
    while i < n
        invariant
            n == input@.len(),
            i <= n,
            i == 0 ==> final_start == 0,
            i > 0 ==> final_start < i,
            forall|q: int| 0 <= q < i && q != final_start ==> #[trigger] suffix_lt(input@, final_start as int, q),
            forall|q: int| 0 <= q < i ==> #[trigger] suffix_lt(input@, i as int, q),
        decreases n - i,
    {
        let mut j: usize = i + 1;
        let mut k: usize = i;
        while j < n && input[k] <= input[j]
            invariant
                n == input@.len(),
                i <= k < j <= n,
                periodic(input@, i as int, k as int, j - k),
                is_lyndon(input@, i as int, j - k),
            decreases n - j,
        {
            if input[k] < input[j] {
                proof {
                    assert forall|q: int| i < q < i + (j + 1 - i) implies #[trigger] smaller_than_suffix(
                        input@,
                        i as int,
                        j + 1 - i,
                        q,
                    ) by {
                        lemma_extend_word(input@, i as int, k as int, j as int, q);
                    }
                }
                k = i;
            } else {
                k = k + 1;
            }
            j = j + 1;
        }
        let p: usize = j - k;
        while i <= k
            invariant
                n == input@.len(),
                k < j <= n,
                p == j - k,
                i <= j,
                j == n || input@[k as int] > input@[j as int],
                periodic(input@, i as int, k as int, p as int),
                i <= k ==> is_lyndon(input@, i as int, p as int),
                i > 0 ==> final_start < i,
                forall|q: int| 0 <= q < i && q != final_start ==> #[trigger] suffix_lt(input@, final_start as int, q),
                forall|q: int| 0 <= q < i ==> #[trigger] suffix_lt(input@, i as int, q),
            decreases j - i,
        {
            proof {
                let s = input@;
                lemma_next_before_word(s, i as int, k as int, j as int);
                assert forall|q: int| 0 <= q < i + p && q != i implies #[trigger] suffix_lt(
                    s,
                    i as int,
                    q,
                ) by {
                    if q > i {
                        lemma_word_before_suffix(s, i as int, p as int, q);
                    }
                }
                assert forall|q: int| 0 <= q < i + p implies #[trigger] suffix_lt(s, i + p, q) by {
                    if q != i {
                        lemma_suffix_lt_transitive(s, i + p, i as int, q);
                    }
                }
                if i + p <= k {
                    lemma_shift_word(s, i as int, k as int, p as int);
                }
            }
            final_start = i;
            i = i + p;
        }
    }
    final_start
}

/// Turns the input so that it begins with its smallest non-empty suffix. Returns the
/// turned text and the offset at which it begins in the input.
pub fn rotate_duval(input: &[u8]) -> (result: (Vec<u8>, usize))
    ensures
        input@.len() == 0 ==> result.1 == 0,
        input@.len() > 0 ==> is_min_suffix(input@, result.1 as int),
        result.0@ == rotation(input@, result.1 as int),
{
    let offset = duval(input);
    let mut buf: Vec<u8> = Vec::new();
    let mut i: usize = offset;
    while i < input.len()
        invariant
            offset <= i <= input.len(),
            buf@ == input@.subrange(offset as int, i as int),
        decreases input.len() - i,
    {
        buf.push(input[i]);
        i = i + 1;
        proof {
            assert(buf@ =~= input@.subrange(offset as int, i as int));
        }
    }
    let mut h: usize = 0;
    while h < offset
        invariant
            h <= offset <= input.len(),
            buf@ == input@.skip(offset as int) + input@.take(h as int),
        decreases offset - h,
    {
        buf.push(input[h]);
        h = h + 1;
        proof {
            assert(buf@ =~= input@.skip(offset as int) + input@.take(h as int));
        }
    }
    (buf, offset)
}

} // verus!
