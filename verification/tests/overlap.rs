use typeahead::overlap::num_shared;

fn overlap_of(buffer: &str, fragment: &str) -> usize {
    let buffer: Vec<char> = buffer.chars().collect();
    let fragment: Vec<char> = fragment.chars().collect();
    num_shared(&buffer, &fragment)
}

#[test]
fn tail_of_buffer_is_head_of_fragment() {
    assert_eq!(overlap_of("hel", "hello world"), 3);
    assert_eq!(overlap_of("say hel", "hello world"), 3);
    assert_eq!(overlap_of("w", "wonderful"), 1);
    assert_eq!(overlap_of("wo", "wood"), 2);
}

#[test]
fn empty_buffer_shares_nothing() {
    assert_eq!(overlap_of("", "hello"), 0);
    assert_eq!(overlap_of("", ""), 0);
}

#[test]
fn empty_fragment_shares_nothing() {
    assert_eq!(overlap_of("hello", ""), 0);
}

#[test]
fn nothing_in_common_shares_nothing() {
    assert_eq!(overlap_of("abc", "xyz"), 0);
    assert_eq!(overlap_of("hello", "world"), 0);
}

#[test]
fn whole_fragment_can_be_shared() {
    assert_eq!(overlap_of("say hello", "hello"), 5);
    assert_eq!(overlap_of("hello", "hello"), 5);
}

#[test]
fn whole_buffer_can_be_shared() {
    assert_eq!(overlap_of("he", "hello"), 2);
}

#[test]
fn longest_of_several_overlaps_wins() {
    // Both "a" and "aba" are tails of the buffer and heads of the fragment.
    assert_eq!(overlap_of("xaba", "abab"), 3);
    assert_eq!(overlap_of("aaa", "aa"), 2);
    assert_eq!(overlap_of("aa", "aaa"), 2);
}

#[test]
fn head_inside_the_buffer_does_not_count() {
    assert_eq!(overlap_of("hello!", "hello"), 0);
    assert_eq!(overlap_of("abcab", "abc"), 2);
}

#[test]
fn overlap_stays_within_both_lengths() {
    let words = ["", "a", "ab", "aba", "abab", "ba", "bab", "hello", "lo", "low"];
    for buffer in words {
        for fragment in words {
            let shared = overlap_of(buffer, fragment);
            assert!(shared <= buffer.chars().count());
            assert!(shared <= fragment.chars().count());
            assert!(buffer.ends_with(&fragment[..shared]));
            for longer in shared + 1..=fragment.len().min(buffer.len()) {
                assert!(!buffer.ends_with(&fragment[..longer]));
            }
        }
    }
}

#[test]
fn characters_are_compared_not_bytes() {
    assert_eq!(overlap_of("caf\u{e9}", "\u{e9}t\u{e9}"), 1);
    assert_eq!(overlap_of("na\u{ef}", "\u{ef}ve"), 1);
}
