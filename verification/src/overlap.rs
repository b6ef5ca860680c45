//! The overlap between the tail of an edit buffer and the head of a fragment.

use vstd::prelude::*;

verus! {

/// The last `k` characters of `buffer` are the first `k` characters of `fragment`.
pub open spec fn is_overlap(buffer: Seq<char>, fragment: Seq<char>, k: int) -> bool {
    &&& 0 <= k <= buffer.len()
    &&& k <= fragment.len()
    &&& buffer.subrange(buffer.len() - k, buffer.len() as int) == fragment.subrange(0, k)
}

/// `k` is an overlap of `buffer` and `fragment`, and no greater length is one.
pub open spec fn is_longest_overlap(buffer: Seq<char>, fragment: Seq<char>, k: int) -> bool {
    &&& is_overlap(buffer, fragment, k)
    &&& forall|j: int| k < j ==> !is_overlap(buffer, fragment, j)
}

/// The length of the longest tail of `buffer` that is a head of `fragment`.
pub open spec fn shared_len(buffer: Seq<char>, fragment: Seq<char>) -> int {
    choose|k: int| is_longest_overlap(buffer, fragment, k)
}

/// The longest overlap among the lengths up to `limit`; zero always is one.
spec fn longest_within(buffer: Seq<char>, fragment: Seq<char>, limit: nat) -> nat
    decreases limit,
{
    if limit == 0 {
        0
    } else if is_overlap(buffer, fragment, limit as int) {
        limit
    } else {
        longest_within(buffer, fragment, (limit - 1) as nat)
    }
}

/// `longest_within` is an overlap, and no length above it up to `limit` is.
proof fn lemma_longest_within(buffer: Seq<char>, fragment: Seq<char>, limit: nat)
    ensures
        longest_within(buffer, fragment, limit) <= limit,
        is_overlap(buffer, fragment, longest_within(buffer, fragment, limit) as int),
        forall|j: int|
            longest_within(buffer, fragment, limit) < j <= limit ==> !is_overlap(
                buffer,
                fragment,
                j,
            ),
    decreases limit,
{
    if limit == 0 {
        assert(buffer.subrange(buffer.len() - 0, buffer.len() as int) =~= fragment.subrange(0, 0));
    } else if !is_overlap(buffer, fragment, limit as int) {
        lemma_longest_within(buffer, fragment, (limit - 1) as nat);
    }
}

/// Every buffer and fragment have a longest overlap, and `shared_len` is it.
pub proof fn lemma_shared_len_is_longest(buffer: Seq<char>, fragment: Seq<char>)
    ensures
        is_longest_overlap(buffer, fragment, shared_len(buffer, fragment)),
{
    let limit = if buffer.len() <= fragment.len() {
        buffer.len()
    } else {
        fragment.len()
    };
    lemma_longest_within(buffer, fragment, limit);
    assert(is_longest_overlap(buffer, fragment, longest_within(buffer, fragment, limit) as int));
}

/// A buffer and a fragment have one longest overlap only.
pub proof fn lemma_longest_overlap_unique(
    buffer: Seq<char>,
    fragment: Seq<char>,
    j: int,
    k: int,
)
    requires
        is_longest_overlap(buffer, fragment, j),
        is_longest_overlap(buffer, fragment, k),
    ensures
        j == k,
{
}

/// The shared length is never negative and exceeds neither the buffer's
/// length nor the fragment's.
pub proof fn lemma_shared_len_bounds(buffer: Seq<char>, fragment: Seq<char>)
    ensures
        0 <= shared_len(buffer, fragment) <= buffer.len(),
        shared_len(buffer, fragment) <= fragment.len(),
{
    lemma_shared_len_is_longest(buffer, fragment);
}

/// With an empty buffer, or an empty fragment, nothing is shared.
pub proof fn lemma_shared_len_empty(buffer: Seq<char>, fragment: Seq<char>)
    requires
        buffer.len() == 0 || fragment.len() == 0,
    ensures
        shared_len(buffer, fragment) == 0,
{
    lemma_shared_len_bounds(buffer, fragment);
}

/// Tells whether the last `k` characters of `buffer` are the first `k` of `fragment`.
fn tail_is_head(buffer: &[char], fragment: &[char], k: usize) -> (same: bool)
    requires
        k <= buffer@.len(),
        k <= fragment@.len(),
    ensures
        same == is_overlap(buffer@, fragment@, k as int),
{
    let start: usize = buffer.len() - k;
    let mut i: usize = 0;
    while i < k
        invariant
            i <= k,
            k <= buffer@.len(),
            k <= fragment@.len(),
            start + k == buffer.len(),
            forall|j: int| 0 <= j < i ==> buffer@[start + j] == fragment@[j],
        decreases k - i,
    {
        if buffer[start + i] != fragment[i] {
            proof {
                let tail = buffer@.subrange(buffer@.len() - k, buffer@.len() as int);
                let head = fragment@.subrange(0, k as int);
                assert(tail[i as int] != head[i as int]);
            }
            return false;
        }
        i += 1;
    }
    assert(buffer@.subrange(buffer@.len() - k, buffer@.len() as int) =~= fragment@.subrange(
        0,
        k as int,
    ));
    true
}

/// The length of the longest tail of `buffer` that is a head of `fragment`:
/// the candidate lengths are tried from the greatest down.
pub fn num_shared(buffer: &[char], fragment: &[char]) -> (shared: usize)
    ensures
        shared == shared_len(buffer@, fragment@),
        is_longest_overlap(buffer@, fragment@, shared as int),
        shared <= buffer@.len(),
        shared <= fragment@.len(),
{
    let mut len: usize = if fragment.len() < buffer.len() {
        fragment.len()
    } else {
        buffer.len()
    };
    while len > 0
        invariant
            len <= buffer@.len(),
            len <= fragment@.len(),
            forall|j: int| len < j ==> !is_overlap(buffer@, fragment@, j),
        decreases len,
    {
        if tail_is_head(buffer, fragment, len) {
            proof {
                lemma_shared_len_is_longest(buffer@, fragment@);
            }
            return len;
        }
        len -= 1;
    }
    proof {
        assert(buffer@.subrange(buffer@.len() - 0, buffer@.len() as int) =~= fragment@.subrange(
            0,
            0,
        ));
        lemma_shared_len_is_longest(buffer@, fragment@);
    }
    0
}

} // verus!
