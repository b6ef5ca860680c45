//! Ranking: every fragment is scored against the edit buffer, and the
//! fragments are put in ascending order of overlap, then of count. Fragments
//! of one key keep the order they had, so ranking again changes nothing.

use vstd::prelude::*;
use crate::fragment::{views, Fragment, FragmentView};
use crate::overlap::shared_len;

verus! {

/// The key of `a` does not exceed the key of `b`: keys are pairs of overlap
/// and count, in lexicographic order.
pub open spec fn key_le(a: FragmentView, b: FragmentView) -> bool {
    a.overlap < b.overlap || (a.overlap == b.overlap && a.count <= b.count)
}

/// No fragment stands before one of a smaller key.
pub open spec fn is_ascending(s: Seq<FragmentView>) -> bool {
    forall|i: int, j: int| 0 <= i < j < s.len() ==> key_le(s[i], s[j])
}

/// The predicate that holds of the fragments with the given key.
pub open spec fn has_key(overlap: nat, count: nat) -> spec_fn(FragmentView) -> bool {
    |f: FragmentView| f.overlap == overlap && f.count == count
}

/// The fragment scored against `buffer`.
pub open spec fn scored_one(f: FragmentView, buffer: Seq<char>) -> FragmentView {
    FragmentView { overlap: shared_len(buffer, f.data) as nat, ..f }
}

/// The fragments, each scored against `buffer`, in the order they stand in.
pub open spec fn scored(s: Seq<FragmentView>, buffer: Seq<char>) -> Seq<FragmentView> {
    s.map_values(|f: FragmentView| scored_one(f, buffer))
}

/// Where `x` enters `s`: behind the last fragment whose key does not exceed
/// its own, or in front if there is none.
pub open spec fn insert_index(s: Seq<FragmentView>, x: FragmentView) -> int
    decreases s.len(),
{
    if s.len() == 0 {
        0
    } else if key_le(s.last(), x) {
        s.len() as int
    } else {
        insert_index(s.drop_last(), x)
    }
}

/// The fragments in ascending order of key, those of one key in the order
/// they had: each fragment in turn enters the order of those before it.
pub open spec fn stable_sorted(s: Seq<FragmentView>) -> Seq<FragmentView>
    decreases s.len(),
{
    if s.len() == 0 {
        s
    } else {
        let front = stable_sorted(s.drop_last());
        front.insert(insert_index(front, s.last()), s.last())
    }
}

/// The fragments scored against `buffer` and put in order.
pub open spec fn ranked(s: Seq<FragmentView>, buffer: Seq<char>) -> Seq<FragmentView> {
    stable_sorted(scored(s, buffer))
}

/// What stands before the last fragment of an ascending sequence ascends.
pub proof fn lemma_ascending_front(s: Seq<FragmentView>)
    requires
        is_ascending(s),
        s.len() > 0,
    ensures
        is_ascending(s.drop_last()),
{
    let front = s.drop_last();
    assert forall|i: int, j: int| 0 <= i < j < front.len() implies key_le(front[i], front[j]) by {
        assert(key_le(s[i], s[j]));
    }
}

/// `insert_index` splits an ascending sequence: the keys before it do not
/// exceed the key of `x`, the keys from it on do.
pub proof fn lemma_insert_index(s: Seq<FragmentView>, x: FragmentView)
    requires
        is_ascending(s),
    ensures
        0 <= insert_index(s, x) <= s.len(),
        forall|k: int| 0 <= k < insert_index(s, x) ==> key_le(#[trigger] s[k], x),
        forall|k: int| insert_index(s, x) <= k < s.len() ==> !key_le(#[trigger] s[k], x),
        is_ascending(s.insert(insert_index(s, x), x)),
    decreases s.len(),
{
    if s.len() == 0 {
    } else if key_le(s.last(), x) {
        assert forall|k: int| 0 <= k < s.len() implies key_le(#[trigger] s[k], x) by {
            if k < s.len() - 1 {
                assert(key_le(s[k], s[s.len() - 1]));
            }
        }
    } else {
        let front = s.drop_last();
        lemma_ascending_front(s);
        lemma_insert_index(front, x);
        assert forall|k: int| 0 <= k < insert_index(s, x) implies key_le(#[trigger] s[k], x) by {
            assert(s[k] == front[k]);
        }
        assert forall|k: int| insert_index(s, x) <= k < s.len() implies !key_le(
            #[trigger] s[k],
            x,
        ) by {
            if k < front.len() {
                assert(s[k] == front[k]);
            }
        }
    }
    let p = insert_index(s, x);
    let t = s.insert(p, x);
    assert forall|i: int, j: int| 0 <= i < j < t.len() implies key_le(t[i], t[j]) by {
        if j < p {
            assert(key_le(s[i], s[j]));
        } else if j == p {
            assert(key_le(s[i], x));
        } else if i < p {
            assert(key_le(s[i], s[j - 1]));
        } else if i == p {
            assert(!key_le(s[j - 1], x));
        } else {
            assert(key_le(s[i - 1], s[j - 1]));
        }
    }
}

/// Sorting yields an ascending sequence of the same fragments, each as often
/// as before.
pub proof fn lemma_stable_sorted(s: Seq<FragmentView>)
    ensures
        is_ascending(stable_sorted(s)),
        stable_sorted(s).len() == s.len(),
        stable_sorted(s).to_multiset() == s.to_multiset(),
    decreases s.len(),
{
    broadcast use {vstd::seq_lib::to_multiset_insert, vstd::seq_lib::to_multiset_build};

    if s.len() > 0 {
        let front = stable_sorted(s.drop_last());
        lemma_stable_sorted(s.drop_last());
        lemma_insert_index(front, s.last());
        assert(s == s.drop_last().push(s.last()));
    }
}

/// Sorting keeps the fragments of each key in the order they had.
pub proof fn lemma_stable_sorted_keeps_order(s: Seq<FragmentView>, overlap: nat, count: nat)
    ensures
        stable_sorted(s).filter(has_key(overlap, count)) == s.filter(has_key(overlap, count)),
    decreases s.len(),
{
    if s.len() > 0 {
        let pred = has_key(overlap, count);
        let init = s.drop_last();
        let x = s.last();
        let front = stable_sorted(init);
        lemma_stable_sorted(init);
        lemma_stable_sorted_keeps_order(init, overlap, count);
        lemma_insert_index(front, x);
        let p = insert_index(front, x);
        let left = front.subrange(0, p);
        let right = front.subrange(p, front.len() as int);
        assert(front == left + right);
        assert(front.insert(p, x) == left.push(x) + right);
        assert(s == init.push(x));
        Seq::filter_distributes_over_add(left, right, pred);
        Seq::filter_distributes_over_add(left.push(x), right, pred);
        left.lemma_filter_push(x, pred);
        init.lemma_filter_push(x, pred);
        if pred(x) {
            assert forall|k: int| 0 <= k < right.len() implies !pred(#[trigger] right[k]) by {
                assert(!key_le(front[p + k], x));
            }
            right.lemma_all_neg_filter_empty(pred);
            assert(right.filter(pred) == Seq::<FragmentView>::empty());
            assert(left.filter(pred) + right.filter(pred) == left.filter(pred));
            assert(left.filter(pred).push(x) + right.filter(pred) == left.filter(pred).push(x));
        }
    }
}

/// An ascending sequence is its own sorting.
pub proof fn lemma_ascending_is_sorted(s: Seq<FragmentView>)
    requires
        is_ascending(s),
    ensures
        stable_sorted(s) == s,
    decreases s.len(),
{
    if s.len() > 0 {
        let init = s.drop_last();
        lemma_ascending_front(s);
        lemma_ascending_is_sorted(init);
        if init.len() > 0 {
            assert(key_le(s[init.len() - 1], s[s.len() - 1]));
            assert(init.last() == s[init.len() - 1]);
        }
        assert(insert_index(init, s.last()) == init.len());
        assert(init.insert(init.len() as int, s.last()) == s);
    }
}

/// `t` holds the fragments of `s` in ascending order of key, those of each
/// key in the order they have in `s`.
pub open spec fn is_stable_sort_of(t: Seq<FragmentView>, s: Seq<FragmentView>) -> bool {
    &&& is_ascending(t)
    &&& forall|overlap: nat, count: nat|
        t.filter(#[trigger] has_key(overlap, count)) == s.filter(has_key(overlap, count))
}

/// A fragment of a sequence is found among the fragments of its key.
proof fn lemma_last_of_its_key(s: Seq<FragmentView>)
    requires
        s.len() > 0,
    ensures
        s.filter(has_key(s.last().overlap, s.last().count)) == s.drop_last().filter(
            has_key(s.last().overlap, s.last().count),
        ).push(s.last()),
        forall|overlap: nat, count: nat|
            overlap != s.last().overlap || count != s.last().count ==> s.filter(
                #[trigger] has_key(overlap, count),
            ) == s.drop_last().filter(has_key(overlap, count)),
{
    reveal(Seq::filter);
}

/// Where some fragment has a key, the last fragment of an ascending sequence
/// has that key or a greater one.
proof fn lemma_last_is_greatest(s: Seq<FragmentView>, overlap: nat, count: nat)
    requires
        is_ascending(s),
        s.filter(has_key(overlap, count)).len() > 0,
    ensures
        s.len() > 0,
        overlap < s.last().overlap || (overlap == s.last().overlap && count <= s.last().count),
{
    let pred = has_key(overlap, count);
    let kept = s.filter(pred);
    s.lemma_filter_len(pred);
    s.lemma_filter_pred(pred, 0);
    assert(kept.contains(kept[0]));
    s.lemma_filter_contains_rev(pred, kept[0]);
    let m = s.index_of(kept[0]);
    if m < s.len() - 1 {
        assert(key_le(s[m], s[s.len() - 1]));
    }
}

/// Two ascending sequences that hold the same fragments of each key, in the
/// same order, are one sequence.
pub proof fn lemma_stable_sort_unique(a: Seq<FragmentView>, b: Seq<FragmentView>)
    requires
        is_ascending(a),
        is_ascending(b),
        forall|overlap: nat, count: nat|
            a.filter(#[trigger] has_key(overlap, count)) == b.filter(has_key(overlap, count)),
    ensures
        a == b,
    decreases a.len(),
{
    if a.len() == 0 {
        if b.len() > 0 {
            lemma_last_of_its_key(b);
            a.lemma_filter_len(has_key(b.last().overlap, b.last().count));
        }
        assert(a == b);
    } else {
        let x = a.last();
        let key = has_key(x.overlap, x.count);
        lemma_last_of_its_key(a);
        lemma_last_is_greatest(b, x.overlap, x.count);
        let y = b.last();
        lemma_last_of_its_key(b);
        lemma_last_is_greatest(a, y.overlap, y.count);
        assert(key == has_key(y.overlap, y.count));
        let a_kept = a.drop_last().filter(key);
        let b_kept = b.drop_last().filter(key);
        assert(a_kept.push(x) == b_kept.push(y));
        assert(x == y) by {
            assert(a_kept.push(x).last() == b_kept.push(y).last());
        }
        assert(a_kept == b_kept) by {
            assert(a_kept.push(x).drop_last() == a_kept);
            assert(b_kept.push(y).drop_last() == b_kept);
        }
        lemma_ascending_front(a);
        lemma_ascending_front(b);
        assert forall|overlap: nat, count: nat|
            a.drop_last().filter(#[trigger] has_key(overlap, count)) == b.drop_last().filter(
                has_key(overlap, count),
            ) by {
            if overlap == x.overlap && count == x.count {
                assert(has_key(overlap, count) == key);
            } else {
                assert(a.filter(has_key(overlap, count)) == b.filter(has_key(overlap, count)));
            }
        }
        lemma_stable_sort_unique(a.drop_last(), b.drop_last());
        assert(a == a.drop_last().push(x));
        assert(b == b.drop_last().push(y));
    }
}

/// The sorting of `s` is the one sequence that holds the fragments of `s` in
/// ascending order of key, those of each key in the order they have in `s`.
pub proof fn lemma_stable_sort_is_sorted(t: Seq<FragmentView>, s: Seq<FragmentView>)
    ensures
        is_stable_sort_of(stable_sorted(s), s),
        is_stable_sort_of(t, s) ==> t == stable_sorted(s),
{
    lemma_stable_sorted(s);
    assert forall|overlap: nat, count: nat|
        stable_sorted(s).filter(#[trigger] has_key(overlap, count)) == s.filter(
            has_key(overlap, count),
        ) by {
        lemma_stable_sorted_keeps_order(s, overlap, count);
    }
    if is_stable_sort_of(t, s) {
        lemma_stable_sort_unique(t, stable_sorted(s));
    }
}

/// Every ranked fragment carries its overlap with the buffer it was ranked
/// for: never negative, and no longer than the buffer or the fragment.
pub proof fn lemma_ranked_overlaps(s: Seq<FragmentView>, buffer: Seq<char>, i: int)
    requires
        0 <= i < s.len(),
    ensures
        ranked(s, buffer).len() == s.len(),
        ranked(s, buffer)[i].overlap == shared_len(buffer, ranked(s, buffer)[i].data),
        0 <= ranked(s, buffer)[i].overlap <= buffer.len(),
        ranked(s, buffer)[i].overlap <= ranked(s, buffer)[i].data.len(),
{
    let t = scored(s, buffer);
    let r = ranked(s, buffer);
    lemma_stable_sorted(t);
    assert(r.contains(r[i]));
    vstd::seq_lib::to_multiset_contains(r, r[i]);
    vstd::seq_lib::to_multiset_contains(t, r[i]);
    assert(t.contains(r[i]));
    let k = choose|k: int| 0 <= k < t.len() && t[k] == r[i];
    assert(t[k] == scored_one(s[k], buffer));
    crate::overlap::lemma_shared_len_bounds(buffer, s[k].data);
}

/// The fragments without their overlaps: what stays of them from one
/// ranking to the next.
pub open spec fn unscored(s: Seq<FragmentView>) -> Seq<FragmentView> {
    s.map_values(|f: FragmentView| FragmentView { overlap: 0, ..f })
}

/// Sorting neither adds nor drops a fragment, nor changes one.
proof fn lemma_sorted_keeps_fragments(s: Seq<FragmentView>)
    ensures
        unscored(stable_sorted(s)).to_multiset() == unscored(s).to_multiset(),
    decreases s.len(),
{
    broadcast use {vstd::seq_lib::to_multiset_insert, vstd::seq_lib::to_multiset_build};

    if s.len() > 0 {
        let init = s.drop_last();
        let x = s.last();
        let front = stable_sorted(init);
        lemma_stable_sorted(init);
        lemma_sorted_keeps_fragments(init);
        lemma_insert_index(front, x);
        let p = insert_index(front, x);
        let bare = FragmentView { overlap: 0, ..x };
        assert(unscored(front.insert(p, x)) == unscored(front).insert(p, bare));
        assert(unscored(s) == unscored(init).push(bare));
    }
}

/// Ranking neither adds nor drops a fragment: texts and counts stay, each
/// as often as before, and only overlaps and places change.
pub proof fn lemma_ranked_keeps_fragments(s: Seq<FragmentView>, buffer: Seq<char>)
    ensures
        ranked(s, buffer).len() == s.len(),
        unscored(ranked(s, buffer)).to_multiset() == unscored(s).to_multiset(),
{
    lemma_stable_sorted(scored(s, buffer));
    lemma_sorted_keeps_fragments(scored(s, buffer));
    assert(unscored(scored(s, buffer)) == unscored(s));
}

/// Ranking twice for one buffer gives what ranking once gives.
pub proof fn lemma_ranked_again(s: Seq<FragmentView>, buffer: Seq<char>)
    ensures
        ranked(ranked(s, buffer), buffer) == ranked(s, buffer),
{
    let r = ranked(s, buffer);
    lemma_stable_sorted(scored(s, buffer));
    assert(scored(r, buffer) == r) by {
        assert forall|i: int| 0 <= i < r.len() implies scored(r, buffer)[i] == r[i] by {
            lemma_ranked_overlaps(s, buffer, i);
        }
    }
    lemma_ascending_is_sorted(r);
}

/// Tells whether the key of `a` does not exceed the key of `b`.
fn key_not_above(a: &Fragment, b: &Fragment) -> (le: bool)
    ensures
        le == key_le(a@, b@),
{
    a.overlap() < b.overlap() || (a.overlap() == b.overlap() && a.count() <= b.count())
}

/// Scores every fragment against `buffer`.
pub fn score_all(fragments: &mut Vec<Fragment>, buffer: &[char])
    ensures
        views(final(fragments)@) == scored(views(old(fragments)@), buffer@),
{
    let ghost before = fragments@;
    let n: usize = fragments.len();
    let mut i: usize = 0;
    while i < n
        invariant
            i <= n,
            fragments@.len() == n,
            before.len() == n,
            forall|k: int| 0 <= k < i ==> (#[trigger] fragments@[k])@ == scored_one(before[k]@, buffer@),
            forall|k: int| i <= k < n ==> fragments@[k] == before[k],
        decreases n - i,
    {
        fragments[i].score(buffer);
        i += 1;
    }
    assert(views(fragments@) =~= scored(views(before), buffer@));
}

/// What is kept of a single fragment is the fragment or nothing.
proof fn lemma_filter_one(x: FragmentView, pred: spec_fn(FragmentView) -> bool)
    ensures
        seq![x].filter(pred) == if pred(x) {
            seq![x]
        } else {
            Seq::<FragmentView>::empty()
        },
{
    let none = Seq::<FragmentView>::empty();
    none.lemma_filter_push(x, pred);
    none.lemma_filter_len(pred);
    assert(none.filter(pred) == none);
    assert(none.push(x) == seq![x]);
}

/// No fragment of `s` has a greater key than any fragment of `tail`.
spec fn all_below(s: Seq<FragmentView>, tail: Seq<FragmentView>) -> bool {
    forall|i: int, j: int|
        0 <= i < s.len() && 0 <= j < tail.len() ==> key_le(#[trigger] s[i], #[trigger] tail[j])
}

/// What is left of two sequences, and the tail already merged, hold of each
/// key what the two sequences held: first the fragments of the left one,
/// then those of the right one.
spec fn merges(
    left: Seq<FragmentView>,
    right: Seq<FragmentView>,
    tail: Seq<FragmentView>,
    left_all: Seq<FragmentView>,
    right_all: Seq<FragmentView>,
) -> bool {
    forall|overlap: nat, count: nat|
        left.filter(#[trigger] has_key(overlap, count)) + right.filter(has_key(overlap, count))
            + tail.filter(has_key(overlap, count)) == left_all.filter(has_key(overlap, count))
            + right_all.filter(has_key(overlap, count))
}

/// A fragment put in front of a tail that it does not exceed, with what
/// stays below it: the order holds.
proof fn lemma_tail_grows(s: Seq<FragmentView>, x: FragmentView, tail: Seq<FragmentView>)
    requires
        is_ascending(tail),
        all_below(s, tail),
        forall|i: int| 0 <= i < s.len() ==> key_le(#[trigger] s[i], x),
        forall|j: int| 0 <= j < tail.len() ==> key_le(x, #[trigger] tail[j]),
    ensures
        is_ascending(seq![x] + tail),
        all_below(s, seq![x] + tail),
{
    let grown = seq![x] + tail;
    assert forall|i: int, j: int| 0 <= i < j < grown.len() implies key_le(grown[i], grown[j]) by {
        if i == 0 {
            assert(key_le(x, tail[j - 1]));
        } else {
            assert(key_le(tail[i - 1], tail[j - 1]));
        }
    }
    assert forall|i: int, j: int| 0 <= i < s.len() && 0 <= j < grown.len() implies key_le(
        #[trigger] s[i],
        #[trigger] grown[j],
    ) by {
        if j == 0 {
            assert(key_le(s[i], x));
        } else {
            assert(key_le(s[i], tail[j - 1]));
        }
    }
}

/// The last fragment of the right sequence goes to the front of the tail
/// where the left sequence has no greater one.
proof fn lemma_merge_from_right(
    left: Seq<FragmentView>,
    right: Seq<FragmentView>,
    tail: Seq<FragmentView>,
    left_all: Seq<FragmentView>,
    right_all: Seq<FragmentView>,
)
    requires
        right.len() > 0,
        left.len() == 0 || key_le(left.last(), right.last()),
        is_ascending(left),
        is_ascending(right),
        is_ascending(tail),
        all_below(left, tail),
        all_below(right, tail),
        merges(left, right, tail, left_all, right_all),
    ensures
        is_ascending(right.drop_last()),
        is_ascending(seq![right.last()] + tail),
        all_below(left, seq![right.last()] + tail),
        all_below(right.drop_last(), seq![right.last()] + tail),
        merges(left, right.drop_last(), seq![right.last()] + tail, left_all, right_all),
{
    let y = right.last();
    let rest = right.drop_last();
    lemma_ascending_front(right);
    assert forall|j: int| 0 <= j < tail.len() implies key_le(y, #[trigger] tail[j]) by {
        assert(key_le(right[right.len() - 1], tail[j]));
    }
    assert forall|i: int| 0 <= i < left.len() implies key_le(#[trigger] left[i], y) by {
        if i < left.len() - 1 {
            assert(key_le(left[i], left[left.len() - 1]));
        }
    }
    assert forall|i: int| 0 <= i < rest.len() implies key_le(#[trigger] rest[i], y) by {
        assert(key_le(right[i], right[right.len() - 1]));
    }
    assert(all_below(rest, tail)) by {
        assert forall|i: int, j: int| 0 <= i < rest.len() && 0 <= j < tail.len() implies key_le(
            #[trigger] rest[i],
            #[trigger] tail[j],
        ) by {
            assert(key_le(right[i], tail[j]));
        }
    }
    lemma_tail_grows(left, y, tail);
    lemma_tail_grows(rest, y, tail);
    assert forall|overlap: nat, count: nat|
        left.filter(#[trigger] has_key(overlap, count)) + rest.filter(has_key(overlap, count)) + (
        seq![y] + tail).filter(has_key(overlap, count)) == left_all.filter(
            has_key(overlap, count),
        ) + right_all.filter(has_key(overlap, count)) by {
        let pred = has_key(overlap, count);
        assert(right == rest.push(y));
        rest.lemma_filter_push(y, pred);
        lemma_filter_one(y, pred);
        Seq::filter_distributes_over_add(seq![y], tail, pred);
        assert(left.filter(pred) + rest.filter(pred) + (seq![y] + tail).filter(pred)
            == left.filter(pred) + right.filter(pred) + tail.filter(pred));
    }
}

/// The last fragment of the left sequence goes to the front of the tail
/// where it is greater than every fragment of the right sequence.
proof fn lemma_merge_from_left(
    left: Seq<FragmentView>,
    right: Seq<FragmentView>,
    tail: Seq<FragmentView>,
    left_all: Seq<FragmentView>,
    right_all: Seq<FragmentView>,
)
    requires
        left.len() > 0,
        right.len() == 0 || !key_le(left.last(), right.last()),
        is_ascending(left),
        is_ascending(right),
        is_ascending(tail),
        all_below(left, tail),
        all_below(right, tail),
        merges(left, right, tail, left_all, right_all),
    ensures
        is_ascending(left.drop_last()),
        is_ascending(seq![left.last()] + tail),
        all_below(left.drop_last(), seq![left.last()] + tail),
        all_below(right, seq![left.last()] + tail),
        merges(left.drop_last(), right, seq![left.last()] + tail, left_all, right_all),
{
    let x = left.last();
    let rest = left.drop_last();
    lemma_ascending_front(left);
    assert forall|j: int| 0 <= j < tail.len() implies key_le(x, #[trigger] tail[j]) by {
        assert(key_le(left[left.len() - 1], tail[j]));
    }
    assert forall|i: int| 0 <= i < right.len() implies key_le(#[trigger] right[i], x) && !has_key(
        x.overlap,
        x.count,
    )(right[i]) by {
        if i < right.len() - 1 {
            assert(key_le(right[i], right[right.len() - 1]));
        }
    }
    assert forall|i: int| 0 <= i < rest.len() implies key_le(#[trigger] rest[i], x) by {
        assert(key_le(left[i], left[left.len() - 1]));
    }
    assert(all_below(rest, tail)) by {
        assert forall|i: int, j: int| 0 <= i < rest.len() && 0 <= j < tail.len() implies key_le(
            #[trigger] rest[i],
            #[trigger] tail[j],
        ) by {
            assert(key_le(left[i], tail[j]));
        }
    }
    lemma_tail_grows(rest, x, tail);
    lemma_tail_grows(right, x, tail);
    assert forall|overlap: nat, count: nat|
        rest.filter(#[trigger] has_key(overlap, count)) + right.filter(has_key(overlap, count)) + (
        seq![x] + tail).filter(has_key(overlap, count)) == left_all.filter(
            has_key(overlap, count),
        ) + right_all.filter(has_key(overlap, count)) by {
        let pred = has_key(overlap, count);
        assert(left == rest.push(x));
        rest.lemma_filter_push(x, pred);
        lemma_filter_one(x, pred);
        Seq::filter_distributes_over_add(seq![x], tail, pred);
        if pred(x) {
            assert(pred == has_key(x.overlap, x.count));
            right.lemma_all_neg_filter_empty(pred);
            assert(right.filter(pred) == Seq::<FragmentView>::empty());
        }
        assert(rest.filter(pred) + right.filter(pred) + (seq![x] + tail).filter(pred)
            == left.filter(pred) + right.filter(pred) + tail.filter(pred));
    }
}

/// When nothing is left to merge, the tail is the merged sequence.
proof fn lemma_merge_done(
    tail: Seq<FragmentView>,
    left_all: Seq<FragmentView>,
    right_all: Seq<FragmentView>,
)
    requires
        is_ascending(tail),
        merges(Seq::empty(), Seq::empty(), tail, left_all, right_all),
    ensures
        is_stable_sort_of(tail, left_all + right_all),
{
    let none = Seq::<FragmentView>::empty();
    assert forall|overlap: nat, count: nat|
        tail.filter(#[trigger] has_key(overlap, count)) == (left_all + right_all).filter(
            has_key(overlap, count),
        ) by {
        let pred = has_key(overlap, count);
        Seq::filter_distributes_over_add(left_all, right_all, pred);
        none.lemma_filter_len(pred);
        assert(none.filter(pred) + none.filter(pred) + tail.filter(pred) == tail.filter(pred));
    }
}

/// Merges two ascending vectors into one: its fragments ascend, and those of
/// each key are the ones of `left` in their order, then the ones of `right`
/// in theirs.
fn merge(left: Vec<Fragment>, right: Vec<Fragment>) -> (merged: Vec<Fragment>)
    requires
        is_ascending(views(left@)),
        is_ascending(views(right@)),
    ensures
        is_stable_sort_of(views(merged@), views(left@) + views(right@)),
{
    let ghost left_all = views(left@);
    let ghost right_all = views(right@);
    let mut left = left;
    let mut right = right;
    // The merged fragments from the greatest down.
    let mut backwards: Vec<Fragment> = Vec::new();
    let ghost mut tail: Seq<FragmentView> = Seq::empty();
    proof {
        assert(views(backwards@).reverse() == tail);
        assert forall|overlap: nat, count: nat|
            left_all.filter(#[trigger] has_key(overlap, count)) + right_all.filter(
                has_key(overlap, count),
            ) + tail.filter(has_key(overlap, count)) == left_all.filter(has_key(overlap, count))
                + right_all.filter(has_key(overlap, count)) by {
            tail.lemma_filter_len(has_key(overlap, count));
        }
    }
    while left.len() > 0 || right.len() > 0
        invariant
            is_ascending(views(left@)),
            is_ascending(views(right@)),
            is_ascending(tail),
            tail == views(backwards@).reverse(),
            all_below(views(left@), tail),
            all_below(views(right@), tail),
            merges(views(left@), views(right@), tail, left_all, right_all),
        decreases left@.len() + right@.len(),
    {
        let ghost lv = views(left@);
        let ghost rv = views(right@);
        let ghost before = views(backwards@);
        let from_right: bool = if left.len() == 0 {
            true
        } else if right.len() == 0 {
            false
        } else {
            key_not_above(&left[left.len() - 1], &right[right.len() - 1])
        };
        if from_right {
            proof {
                if left@.len() > 0 {
                    assert(lv.last() == left@[left@.len() - 1]@);
                }
                assert(rv.last() == right@[right@.len() - 1]@);
                lemma_merge_from_right(lv, rv, tail, left_all, right_all);
                tail = seq![rv.last()] + tail;
            }
            let fragment = right.pop().unwrap();
            backwards.push(fragment);
            assert(views(right@) == rv.drop_last());
            assert(views(backwards@) == before.push(rv.last()));
            assert(before.push(rv.last()).reverse() == seq![rv.last()] + before.reverse());
        } else {
            proof {
                if right@.len() > 0 {
                    assert(rv.last() == right@[right@.len() - 1]@);
                }
                assert(lv.last() == left@[left@.len() - 1]@);
                lemma_merge_from_left(lv, rv, tail, left_all, right_all);
                tail = seq![lv.last()] + tail;
            }
            let fragment = left.pop().unwrap();
            backwards.push(fragment);
            assert(views(left@) == lv.drop_last());
            assert(views(backwards@) == before.push(lv.last()));
            assert(before.push(lv.last()).reverse() == seq![lv.last()] + before.reverse());
        }
    }
    proof {
        assert(views(left@) == Seq::<FragmentView>::empty());
        assert(views(right@) == Seq::<FragmentView>::empty());
        lemma_merge_done(tail, left_all, right_all);
    }
    let mut merged: Vec<Fragment> = Vec::new();
    assert(views(merged@) + views(backwards@).reverse() == tail);
    while backwards.len() > 0
        invariant
            views(merged@) + views(backwards@).reverse() == tail,
        decreases backwards@.len(),
    {
        let ghost done = views(merged@);
        let ghost rest = views(backwards@);
        let fragment = backwards.pop().unwrap();
        merged.push(fragment);
        assert(views(merged@) + views(backwards@).reverse() == done + rest.reverse());
    }
    assert(views(merged@) == tail);
    merged
}

/// The fragments in ascending order of key, those of one key in the order
/// they had: the two halves are put in order and merged.
fn merge_sort(fragments: Vec<Fragment>) -> (sorted: Vec<Fragment>)
    ensures
        views(sorted@) == stable_sorted(views(fragments@)),
    decreases fragments@.len(),
{
    let ghost all = views(fragments@);
    let n: usize = fragments.len();
    if n <= 1 {
        proof {
            lemma_ascending_is_sorted(all);
        }
        return fragments;
    }
    let mut left = fragments;
    let right = left.split_off(n / 2);
    let ghost left_all = views(left@);
    let ghost right_all = views(right@);
    assert(all == left_all + right_all);
    let left = merge_sort(left);
    let right = merge_sort(right);
    proof {
        lemma_stable_sorted(left_all);
        lemma_stable_sorted(right_all);
    }
    let merged = merge(left, right);
    proof {
        assert forall|overlap: nat, count: nat|
            views(merged@).filter(#[trigger] has_key(overlap, count)) == all.filter(
                has_key(overlap, count),
            ) by {
            let pred = has_key(overlap, count);
            lemma_stable_sorted_keeps_order(left_all, overlap, count);
            lemma_stable_sorted_keeps_order(right_all, overlap, count);
            Seq::filter_distributes_over_add(views(left@), views(right@), pred);
            Seq::filter_distributes_over_add(left_all, right_all, pred);
        }
        lemma_stable_sort_is_sorted(views(merged@), all);
    }
    merged
}

/// Puts the fragments in ascending order of key, keeping the order of those
/// with one key.
pub fn sort_by_key(fragments: &mut Vec<Fragment>)
    ensures
        views(final(fragments)@) == stable_sorted(views(old(fragments)@)),
        is_stable_sort_of(views(final(fragments)@), views(old(fragments)@)),
{
    let mut taken: Vec<Fragment> = Vec::new();
    core::mem::swap(fragments, &mut taken);
    *fragments = merge_sort(taken);
    proof {
        lemma_stable_sort_is_sorted(views(fragments@), views(old(fragments)@));
    }
}

/// Ranks the fragments for `buffer`: each is scored against it, and they are
/// put in ascending order of overlap, then of count, those of one key in the
/// order they had. The best suggestion stands last.
pub fn rank(fragments: &mut Vec<Fragment>, buffer: &[char])
    ensures
        views(final(fragments)@) == ranked(views(old(fragments)@), buffer@),
        is_stable_sort_of(views(final(fragments)@), scored(views(old(fragments)@), buffer@)),
{
    score_all(fragments, buffer);
    sort_by_key(fragments);
}

} // verus!
