use typeahead::fragment::Fragment;
use typeahead::rank::{rank, score_all, sort_by_key};

fn fragment(text: &str, count: usize) -> Fragment {
    Fragment::new(text.chars().collect(), count)
}

fn order(fragments: &[Fragment]) -> Vec<String> {
    fragments.iter().map(|f| f.data().iter().collect()).collect()
}

fn best_first(fragments: &[Fragment]) -> Vec<String> {
    fragments.iter().rev().map(|f| f.data().iter().collect()).collect()
}

#[test]
fn higher_count_breaks_a_tie_of_overlaps() {
    let mut fragments = vec![fragment("hello world", 2), fragment("help me", 1)];
    let buffer: Vec<char> = "hel".chars().collect();
    rank(&mut fragments, &buffer);
    assert!(fragments.iter().all(|f| f.overlap() == 3));
    assert_eq!(best_first(&fragments), vec!["hello world", "help me"]);

    let mut fragments = vec![fragment("help me", 1), fragment("hello world", 2)];
    rank(&mut fragments, &buffer);
    assert_eq!(best_first(&fragments), vec!["hello world", "help me"]);
}

#[test]
fn longer_overlap_beats_higher_count() {
    let mut fragments = vec![fragment("lo and behold", 9), fragment("hello", 1)];
    let buffer: Vec<char> = "hello".chars().collect();
    rank(&mut fragments, &buffer);
    assert_eq!(fragments[0].overlap(), 2);
    assert_eq!(fragments[1].overlap(), 5);
    assert_eq!(best_first(&fragments), vec!["hello", "lo and behold"]);
}

#[test]
fn ranking_orders_by_overlap_then_count() {
    let mut fragments = vec![
        fragment("abc", 1),
        fragment("bcd", 5),
        fragment("xyz", 3),
        fragment("b", 2),
        fragment("xyy", 4),
        fragment("cab", 1),
    ];
    let buffer: Vec<char> = "ab".chars().collect();
    rank(&mut fragments, &buffer);
    let keys: Vec<(usize, usize)> = fragments.iter().map(|f| (f.overlap(), f.count())).collect();
    assert_eq!(keys, vec![(0, 1), (0, 3), (0, 4), (1, 2), (1, 5), (2, 1)]);
    assert_eq!(order(&fragments), vec!["cab", "xyz", "xyy", "b", "bcd", "abc"]);
}

#[test]
fn fragments_of_one_key_keep_their_order() {
    let mut fragments = vec![
        fragment("one", 1),
        fragment("two", 1),
        fragment("zed", 0),
        fragment("three", 1),
        fragment("four", 1),
    ];
    sort_by_key(&mut fragments);
    assert_eq!(order(&fragments), vec!["zed", "one", "two", "three", "four"]);
}

#[test]
fn ranking_again_changes_nothing() {
    let mut fragments = vec![
        fragment("wood", 1),
        fragment("wonderful", 2),
        fragment("word", 1),
        fragment("oval", 1),
        fragment("zebra", 2),
    ];
    let buffer: Vec<char> = "wo".chars().collect();
    rank(&mut fragments, &buffer);
    let first = order(&fragments);
    rank(&mut fragments, &buffer);
    assert_eq!(order(&fragments), first);
    // Keys: zebra (0, 2), oval (1, 1), wood (2, 1), word (2, 1), wonderful (2, 2).
    assert_eq!(first, vec!["zebra", "oval", "wood", "word", "wonderful"]);
}

#[test]
fn ranking_keeps_every_fragment() {
    let mut fragments = vec![fragment("b", 2), fragment("a", 1), fragment("c", 3)];
    rank(&mut fragments, &['a']);
    let mut texts = order(&fragments);
    texts.sort();
    assert_eq!(texts, vec!["a", "b", "c"]);
    let counts: usize = fragments.iter().map(|f| f.count()).sum();
    assert_eq!(counts, 6);
}

#[test]
fn scoring_all_keeps_the_order() {
    let mut fragments = vec![fragment("lot", 1), fragment("hello", 1), fragment("x", 1)];
    let buffer: Vec<char> = "hello".chars().collect();
    score_all(&mut fragments, &buffer);
    assert_eq!(order(&fragments), vec!["lot", "hello", "x"]);
    let overlaps: Vec<usize> = fragments.iter().map(|f| f.overlap()).collect();
    assert_eq!(overlaps, vec![2, 5, 0]);
}

#[test]
fn ranking_nothing_gives_nothing() {
    let mut fragments: Vec<Fragment> = Vec::new();
    rank(&mut fragments, &['a']);
    assert!(fragments.is_empty());
}

#[test]
fn overlaps_follow_the_buffer() {
    let mut fragments = vec![fragment("hello", 1)];
    rank(&mut fragments, &['h', 'e']);
    assert_eq!(fragments[0].overlap(), 2);
    rank(&mut fragments, &['h']);
    assert_eq!(fragments[0].overlap(), 1);
    rank(&mut fragments, &[]);
    assert_eq!(fragments[0].overlap(), 0);
}

#[test]
fn sorting_agrees_with_the_standard_stable_sort() {
    for size in [0usize, 1, 2, 3, 7, 64, 257] {
        let mut seed: u64 = 12345 + size as u64;
        let mut fragments = Vec::new();
        let mut expected = Vec::new();
        for place in 0..size {
            seed = seed.wrapping_mul(6364136223846793005).wrapping_add(1442695040888963407);
            let count = ((seed >> 33) % 5) as usize;
            let text = format!("{}", place);
            fragments.push(Fragment::new(text.chars().collect(), count));
            expected.push((count, text));
        }
        sort_by_key(&mut fragments);
        expected.sort_by_key(|(count, _)| *count);
        let sorted: Vec<(usize, String)> =
            fragments.iter().map(|f| (f.count(), f.data().iter().collect())).collect();
        assert_eq!(sorted, expected);
    }
}

#[test]
fn ranking_agrees_with_the_standard_stable_sort() {
    let words = ["ab", "b", "abc", "bca", "c", "", "cab", "bb", "abab", "ba", "a", "aab"];
    let buffer: Vec<char> = "xab".chars().collect();
    let mut fragments: Vec<Fragment> = words
        .iter()
        .enumerate()
        .map(|(place, word)| Fragment::new(word.chars().collect(), place % 3))
        .collect();
    let mut expected: Vec<(usize, usize, String)> = words
        .iter()
        .enumerate()
        .map(|(place, word)| {
            let shared = (0..=word.len().min(3))
                .rev()
                .find(|k| "xab".ends_with(&word[..*k]))
                .unwrap();
            (shared, place % 3, word.to_string())
        })
        .collect();
    expected.sort_by_key(|(shared, count, _)| (*shared, *count));
    rank(&mut fragments, &buffer);
    let ranked: Vec<(usize, usize, String)> = fragments
        .iter()
        .map(|f| (f.overlap(), f.count(), f.data().iter().collect()))
        .collect();
    assert_eq!(ranked, expected);
}
