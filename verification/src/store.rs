//! The fragment store: the lines of a source, grouped by their text. Each
//! distinct text becomes one fragment that counts the lines holding it; the
//! fragments stand in the order in which their texts first occur.

use std::collections::HashMap;
use vstd::prelude::*;
use crate::fragment::{views, Fragment, FragmentView};
use crate::text::{into_vec_of_chars, lines_of, same_chars, split_lines, texts};

verus! {

/// The distinct texts among `lines`, in the order of their first occurrence.
pub open spec fn distinct(lines: Seq<Seq<char>>) -> Seq<Seq<char>>
    decreases lines.len(),
{
    if lines.len() == 0 {
        lines
    } else {
        let front = distinct(lines.drop_last());
        if front.contains(lines.last()) {
            front
        } else {
            front.push(lines.last())
        }
    }
}

/// The fragment for `text`: it counts the lines that hold `text`, and
/// overlaps nothing yet.
pub open spec fn group_of(lines: Seq<Seq<char>>, text: Seq<char>) -> FragmentView {
    FragmentView { data: text, count: lines.to_multiset().count(text), overlap: 0 }
}

/// One fragment for each distinct text among `lines`, in the order of first
/// occurrence.
pub open spec fn grouped(lines: Seq<Seq<char>>) -> Seq<FragmentView> {
    distinct(lines).map_values(|text: Seq<char>| group_of(lines, text))
}

/// The distinct texts are the texts of the lines, each once.
pub proof fn lemma_distinct(lines: Seq<Seq<char>>)
    ensures
        distinct(lines).no_duplicates(),
        distinct(lines).len() <= lines.len(),
        forall|text: Seq<char>| distinct(lines).contains(text) <==> lines.contains(text),
    decreases lines.len(),
{
    if lines.len() > 0 {
        let init = lines.drop_last();
        let last = lines.last();
        let front = distinct(init);
        lemma_distinct(init);
        assert forall|text: Seq<char>| distinct(lines).contains(text) <==> lines.contains(
            text,
        ) by {
            if lines.contains(text) {
                let i = lines.index_of(text);
                if i < init.len() {
                    assert(init[i] == text);
                    assert(init.contains(text));
                    assert(front.contains(text));
                    let k = front.index_of(text);
                    assert(distinct(lines)[k] == text);
                } else if !front.contains(last) {
                    assert(distinct(lines)[front.len() as int] == text);
                }
            }
            if distinct(lines).contains(text) {
                let k = distinct(lines).index_of(text);
                if k < front.len() {
                    assert(front[k] == text);
                    assert(front.contains(text));
                    assert(init.contains(text));
                    let i = init.index_of(text);
                    assert(lines[i] == text);
                } else {
                    assert(lines[lines.len() - 1] == text);
                }
            }
        }
    }
}

/// The distinct texts stand in the order of their first occurrence: each
/// occurs among the lines before any later one does.
pub proof fn lemma_distinct_order(lines: Seq<Seq<char>>, j: int, k: int)
    requires
        0 <= j < k < distinct(lines).len(),
    ensures
        exists|p: int|
            0 <= p < lines.len() && #[trigger] lines[p] == distinct(lines)[j] && forall|q: int|
                0 <= q <= p ==> lines[q] != distinct(lines)[k],
    decreases lines.len(),
{
    lemma_distinct(lines);
    if lines.len() > 0 {
        let init = lines.drop_last();
        let front = distinct(init);
        lemma_distinct(init);
        if k < front.len() {
            lemma_distinct_order(init, j, k);
            let p = choose|p: int|
                0 <= p < init.len() && #[trigger] init[p] == front[j] && forall|q: int|
                    0 <= q <= p ==> init[q] != front[k];
            assert(lines[p] == distinct(lines)[j]);
            assert forall|q: int| 0 <= q <= p implies lines[q] != distinct(lines)[k] by {
                assert(lines[q] == init[q]);
            }
        } else {
            assert(front.contains(front[j]));
            assert(init.contains(front[j]));
            let p = init.index_of(front[j]);
            assert(lines[p] == distinct(lines)[j]);
            assert forall|q: int| 0 <= q <= p implies lines[q] != distinct(lines)[k] by {
                assert(lines[q] == init[q]);
                assert(init.contains(init[q]));
            }
        }
    }
}

/// Every line has its fragment, every fragment counts at least one line, and
/// no two fragments have one text.
pub proof fn lemma_grouped(lines: Seq<Seq<char>>)
    ensures
        grouped(lines).len() <= lines.len(),
        forall|i: int|
            0 <= i < lines.len() ==> exists|k: int|
                0 <= k < grouped(lines).len() && grouped(lines)[k].data == #[trigger] lines[i],
        forall|k: int|
            0 <= k < grouped(lines).len() ==> {
                &&& lines.contains(#[trigger] grouped(lines)[k].data)
                &&& grouped(lines)[k].count == lines.to_multiset().count(grouped(lines)[k].data)
                &&& 1 <= grouped(lines)[k].count <= lines.len()
                &&& grouped(lines)[k].overlap == 0
            },
        forall|j: int, k: int|
            0 <= j < k < grouped(lines).len() ==> grouped(lines)[j].data != grouped(lines)[k].data,
{
    broadcast use {
        vstd::seq_lib::to_multiset_contains,
        vstd::seq_lib::to_multiset_len,
        vstd::multiset::axiom_count_le_len,
    };

    lemma_distinct(lines);
    let d = distinct(lines);
    assert forall|i: int| 0 <= i < lines.len() implies exists|k: int|
        0 <= k < grouped(lines).len() && grouped(lines)[k].data == #[trigger] lines[i] by {
        assert(lines.contains(lines[i]));
        assert(d.contains(lines[i]));
        let k = choose|k: int| 0 <= k < d.len() && d[k] == lines[i];
        assert(grouped(lines)[k].data == lines[i]);
    }
    assert forall|k: int| 0 <= k < grouped(lines).len() implies {
        &&& lines.contains(#[trigger] grouped(lines)[k].data)
        &&& 1 <= grouped(lines)[k].count <= lines.len()
    } by {
        assert(grouped(lines)[k].data == d[k]);
        assert(d.contains(d[k]));
        assert(lines.contains(d[k]));
        vstd::seq_lib::to_multiset_contains(lines, d[k]);
        vstd::multiset::axiom_count_le_len(lines.to_multiset(), d[k]);
        vstd::seq_lib::to_multiset_len(lines);
    }
}

/// What one more line does to the fragments: the fragment of its text counts
/// one more, or, where no fragment has its text, a new one joins at the end.
pub proof fn lemma_grouped_push(lines: Seq<Seq<char>>, text: Seq<char>)
    ensures
        distinct(lines).contains(text) ==> {
            let k = distinct(lines).index_of(text);
            &&& 0 <= k < grouped(lines).len()
            &&& grouped(lines)[k].data == text
            &&& grouped(lines.push(text)) == grouped(lines).update(
                k,
                FragmentView { count: grouped(lines)[k].count + 1, ..grouped(lines)[k] },
            )
        },
        !distinct(lines).contains(text) ==> grouped(lines.push(text)) == grouped(lines).push(
            FragmentView { data: text, count: 1, overlap: 0 },
        ),
{
    broadcast use {vstd::seq_lib::to_multiset_build, vstd::seq_lib::to_multiset_contains};

    lemma_distinct(lines);
    let more = lines.push(text);
    assert(more.drop_last() == lines);
    let d = distinct(lines);
    if d.contains(text) {
        let k = d.index_of(text);
        let expected = grouped(lines).update(
            k,
            FragmentView { count: grouped(lines)[k].count + 1, ..grouped(lines)[k] },
        );
        assert(grouped(more) =~= expected);
    } else {
        assert(!lines.contains(text));
        let expected = grouped(lines).push(FragmentView { data: text, count: 1, overlap: 0 });
        assert forall|j: int| 0 <= j < d.len() implies d[j] != text by {
            assert(d.contains(d[j]));
        }
        assert(grouped(more) =~= expected);
    }
}

/// The sum of the fragments' counts.
pub open spec fn total_count(s: Seq<FragmentView>) -> nat
    decreases s.len(),
{
    if s.len() == 0 {
        0
    } else {
        total_count(s.drop_last()) + s.last().count
    }
}

/// One more line counted by the fragment at `k` is one more in the sum.
proof fn lemma_total_count_update(s: Seq<FragmentView>, k: int, f: FragmentView)
    requires
        0 <= k < s.len(),
        f.count == s[k].count + 1,
    ensures
        total_count(s.update(k, f)) == total_count(s) + 1,
    decreases s.len(),
{
    let t = s.update(k, f);
    if k == s.len() - 1 {
        assert(t.drop_last() == s.drop_last());
    } else {
        lemma_total_count_update(s.drop_last(), k, f);
        assert(t.drop_last() == s.drop_last().update(k, f));
    }
}

/// Every line is counted by one fragment: the counts add up to the number
/// of lines.
pub proof fn lemma_counts_add_up(lines: Seq<Seq<char>>)
    ensures
        total_count(grouped(lines)) == lines.len(),
    decreases lines.len(),
{
    if lines.len() > 0 {
        let init = lines.drop_last();
        let last = lines.last();
        lemma_counts_add_up(init);
        lemma_grouped_push(init, last);
        assert(lines == init.push(last));
        if distinct(init).contains(last) {
            let k = distinct(init).index_of(last);
            lemma_total_count_update(
                grouped(init),
                k,
                FragmentView { count: grouped(init)[k].count + 1, ..grouped(init)[k] },
            );
        } else {
            let one = FragmentView { data: last, count: 1, overlap: 0 };
            assert(grouped(init).push(one).drop_last() == grouped(init));
        }
    }
}

/// The modulus of the text numbers: a prime below 2 to the 32nd.
const NUMBER_MODULUS: u64 = 4294967291;

/// A number made of the characters of a text. Texts with different numbers
/// differ, so a text is looked for only among those with its number.
spec fn text_number(text: Seq<char>) -> u64
    decreases text.len(),
{
    if text.len() == 0 {
        0
    } else {
        let front = text_number(text.drop_last()) % NUMBER_MODULUS;
        ((front * 31 + text.last() as u32) % (NUMBER_MODULUS as int)) as u64
    }
}

/// Computes the number of a text.
fn number_of(text: &[char]) -> (number: u64)
    ensures
        number == text_number(text@),
{
    let mut number: u64 = 0;
    let mut i: usize = 0;
    assert(text@.subrange(0, 0) == Seq::<char>::empty());
    while i < text.len()
        invariant
            i <= text@.len(),
            number < NUMBER_MODULUS,
            number == text_number(text@.subrange(0, i as int)),
        decreases text@.len() - i,
    {
        proof {
            let upto = text@.subrange(0, i + 1);
            assert(upto.drop_last() == text@.subrange(0, i as int));
            assert(upto.last() == text@[i as int]);
        }
        number = (number * 31 + (text[i] as u32) as u64) % NUMBER_MODULUS;
        i += 1;
    }
    assert(text@.subrange(0, text@.len() as int) == text@);
    number
}

/// The index finds every fragment: under the number of its text it lists
/// the fragment's place, and it lists no place that is not there.
spec fn finds_all(index: Map<u64, Vec<usize>>, fragments: Seq<FragmentView>) -> bool {
    &&& forall|k: int|
        0 <= k < fragments.len() ==> {
            &&& index.contains_key(#[trigger] text_number(fragments[k].data))
            &&& index[text_number(fragments[k].data)]@.contains(k as usize)
        }
    &&& forall|number: u64, j: int|
        index.contains_key(number) && 0 <= j < index[number]@.len() ==> (
        #[trigger] index[number]@[j]) < fragments.len()
}

/// Looks among the fragments at the listed places for the one with the
/// given text.
fn find_among(fragments: &Vec<Fragment>, places: &Vec<usize>, text: &[char]) -> (found: Option<
    usize,
>)
    requires
        forall|j: int| 0 <= j < places@.len() ==> (#[trigger] places@[j]) < fragments@.len(),
    ensures
        match found {
            Some(k) => k < fragments@.len() && fragments@[k as int]@.data == text@,
            None => forall|j: int|
                0 <= j < places@.len() ==> fragments@[(#[trigger] places@[j]) as int]@.data
                    != text@,
        },
{
    let mut j: usize = 0;
    while j < places.len()
        invariant
            j <= places@.len(),
            forall|i: int| 0 <= i < places@.len() ==> (#[trigger] places@[i]) < fragments@.len(),
            forall|i: int|
                0 <= i < j ==> fragments@[(#[trigger] places@[i]) as int]@.data != text@,
        decreases places@.len() - j,
    {
        let k: usize = places[j];
        if same_chars(fragments[k].data().as_slice(), text) {
            return Some(k);
        }
        j += 1;
    }
    None
}

/// Groups the lines by their text: one fragment for each distinct text, with
/// the number of lines that hold it, in the order of first occurrence.
pub fn group_lines(lines: Vec<Vec<char>>) -> (fragments: Vec<Fragment>)
    ensures
        views(fragments@) == grouped(texts(lines@)),
{
    broadcast use vstd::std_specs::hash::group_hash_axioms;

    let ghost all = texts(lines@);
    let n: usize = lines.len();
    let mut fragments: Vec<Fragment> = Vec::new();
    let mut index: HashMap<u64, Vec<usize>> = HashMap::new();
    assert(all.take(0) == Seq::<Seq<char>>::empty());
    assert(views(fragments@) == grouped(all.take(0)));
    for line in it: lines
        invariant
            it.seq() == lines@,
            all == texts(lines@),
            lines@.len() == n,
            views(fragments@) == grouped(all.take(it.index() as int)),
            finds_all(index@, views(fragments@)),
    {
        let ghost seen = all.take(it.index() as int);
        let ghost before = fragments@;
        proof {
            assert(all.take(it.index() + 1) == seen.push(line@));
            lemma_grouped_push(seen, line@);
            lemma_grouped(seen);
            lemma_distinct(seen);
        }
        let number: u64 = number_of(line.as_slice());
        let found: Option<usize> = match index.get(&number) {
            Some(places) => find_among(&fragments, places, line.as_slice()),
            None => None,
        };
        match found {
            Some(k) => {
                proof {
                    assert(views(before)[k as int] == before[k as int]@);
                    assert(grouped(seen)[k as int].data == distinct(seen)[k as int]);
                    assert(distinct(seen).contains(line@));
                    assert(distinct(seen).index_of(line@) == k);
                }
                fragments[k].count_one_more();
                proof {
                    assert(views(fragments@) =~= views(before).update(
                        k as int,
                        fragments@[k as int]@,
                    ));
                    assert forall|i: int| 0 <= i < fragments@.len() implies (
                    #[trigger] views(fragments@)[i]).data == views(before)[i].data by {}
                }
            },
            None => {
                proof {
                    assert forall|i: int| 0 <= i < distinct(seen).len() implies distinct(seen)[i]
                        != line@ by {
                        assert(views(before)[i].data == distinct(seen)[i]);
                        if views(before)[i].data == line@ {
                            let places = index@[number]@;
                            let j = places.index_of(i as usize);
                            assert(before[places[j] as int]@.data == line@);
                        }
                    }
                }
                let place: usize = fragments.len();
                fragments.push(Fragment::new(line, 1));
                let mut places: Vec<usize> = match index.remove(&number) {
                    Some(places) => places,
                    None => Vec::new(),
                };
                let ghost listed = places@;
                places.push(place);
                index.insert(number, places);
                proof {
                    assert(views(fragments@) =~= views(before).push(fragments@[place as int]@));
                    assert forall|k: int| 0 <= k < fragments@.len() implies {
                        &&& index@.contains_key(#[trigger] text_number(views(fragments@)[k].data))
                        &&& index@[text_number(views(fragments@)[k].data)]@.contains(k as usize)
                    } by {
                        if k == place {
                            assert(index@[number]@[listed.len() as int] == place);
                        } else {
                            assert(views(fragments@)[k] == views(before)[k]);
                            let other = text_number(views(before)[k].data);
                            if other == number {
                                let j = listed.index_of(k as usize);
                                assert(index@[number]@[j] == k as usize);
                            }
                        }
                    }
                }
            },
        }
    }
    assert(all.take(lines@.len() as int) == all);
    fragments
}

/// Loads the fragments of a source from its text: the text is split into
/// lines, and the lines are grouped.
pub fn load(source: &str) -> (fragments: Vec<Fragment>)
    ensures
        views(fragments@) == grouped(lines_of(source@)),
{
    let chars = into_vec_of_chars(source);
    group_lines(split_lines(chars.as_slice()))
}

} // verus!
