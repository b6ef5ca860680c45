use typeahead::fragment::Fragment;
use typeahead::layout::{count_suffix, layout, suggestion_text, visible_columns, Frame};
use typeahead::rank::rank;

fn ranked_for(buffer: &str, fragments: &[(&str, usize)]) -> (Vec<char>, Vec<Fragment>) {
    let buffer: Vec<char> = buffer.chars().collect();
    let mut fragments: Vec<Fragment> = fragments
        .iter()
        .map(|(text, count)| Fragment::new(text.chars().collect(), *count))
        .collect();
    rank(&mut fragments, &buffer);
    (buffer, fragments)
}

fn rows_of(frame: &Frame) -> Vec<(u16, u16, String)> {
    frame.suggestions.iter().map(|p| (p.row, p.col, p.text.iter().collect())).collect()
}

fn line_of(frame: &Frame) -> String {
    frame.line.iter().collect()
}

#[test]
fn count_above_the_cap_shows_as_the_cap() {
    assert_eq!(count_suffix(137), vec![' ', '(', '9', '9', ')']);
    assert_eq!(count_suffix(99), vec![' ', '(', '9', '9', ')']);
    assert_eq!(count_suffix(100), vec![' ', '(', '9', '9', ')']);
    assert_eq!(count_suffix(usize::MAX), vec![' ', '(', '9', '9', ')']);
}

#[test]
fn count_shows_in_two_digits() {
    assert_eq!(count_suffix(0), vec![' ', '(', '0', '0', ')']);
    assert_eq!(count_suffix(1), vec![' ', '(', '0', '1', ')']);
    assert_eq!(count_suffix(7), vec![' ', '(', '0', '7', ')']);
    assert_eq!(count_suffix(10), vec![' ', '(', '1', '0', ')']);
    assert_eq!(count_suffix(42), vec![' ', '(', '4', '2', ')']);
    assert_eq!(count_suffix(98), vec![' ', '(', '9', '8', ')']);
}

#[test]
fn suggestion_text_is_fragment_and_count() {
    let text: String = suggestion_text(&Fragment::new("hello".chars().collect(), 3)).iter().collect();
    assert_eq!(text, "hello (03)");
    let text: String = suggestion_text(&Fragment::new(Vec::new(), 137)).iter().collect();
    assert_eq!(text, " (99)");
}

#[test]
fn widest_suggestion_takes_its_columns() {
    // Widths: 7 - 3 + 5 = 9 and 11 - 3 + 5 = 13.
    let (_, fragments) = ranked_for("hel", &[("hello world", 2), ("help me", 1)]);
    assert_eq!(visible_columns(40, &fragments), 27);
    assert_eq!(visible_columns(13, &fragments), 0);
    assert_eq!(visible_columns(14, &fragments), 1);
    assert_eq!(visible_columns(5, &fragments), 0);
    assert_eq!(visible_columns(0, &fragments), 0);
}

#[test]
fn without_fragments_every_column_is_visible() {
    assert_eq!(visible_columns(80, &Vec::new()), 80);
    let frame = layout(4, 3, &['a', 'b', 'c', 'd', 'e', 'f'], &Vec::new());
    assert_eq!(line_of(&frame), "cdef");
    assert_eq!(frame.cursor, 4);
    assert!(frame.suggestions.is_empty());
}

#[test]
fn suggestions_stand_under_the_tail_of_the_buffer() {
    let (buffer, fragments) = ranked_for("hel", &[("hello world", 2), ("help me", 1)]);
    let frame = layout(40, 5, &buffer, &fragments);
    assert_eq!(line_of(&frame), "hel");
    assert_eq!(frame.cursor, 3);
    assert_eq!(
        rows_of(&frame),
        vec![(1, 0, "hello world (02)".to_string()), (2, 0, "help me (01)".to_string())]
    );
}

#[test]
fn suggestion_starts_its_overlap_left_of_the_cursor() {
    let (buffer, fragments) = ranked_for("say wo", &[("wood", 1), ("oval", 4), ("zebra", 2)]);
    let frame = layout(80, 24, &buffer, &fragments);
    assert_eq!(line_of(&frame), "say wo");
    assert_eq!(frame.cursor, 6);
    assert_eq!(
        rows_of(&frame),
        vec![
            (1, 4, "wood (01)".to_string()),
            (2, 5, "oval (04)".to_string()),
            (3, 6, "zebra (02)".to_string()),
        ]
    );
}

#[test]
fn long_buffer_shows_its_tail() {
    // Width 9 - 3 + 5 = 11 leaves 9 of 20 columns.
    let (buffer, fragments) = ranked_for("the quick brown fox", &[("fox jumps", 3)]);
    let frame = layout(20, 2, &buffer, &fragments);
    assert_eq!(line_of(&frame), "brown fox");
    assert_eq!(frame.cursor, 9);
    assert_eq!(rows_of(&frame), vec![(1, 6, "fox jumps (03)".to_string())]);
}

#[test]
fn overlap_longer_than_the_shown_buffer_starts_at_column_zero() {
    // Width 12 - 8 + 5 = 9 leaves 1 of 10 columns; the overlap is 8.
    let (buffer, fragments) = ranked_for("abcdefgh", &[("abcdefghijkl", 1)]);
    assert_eq!(fragments[0].overlap(), 8);
    let frame = layout(10, 4, &buffer, &fragments);
    assert_eq!(line_of(&frame), "h");
    assert_eq!(frame.cursor, 1);
    assert_eq!(rows_of(&frame), vec![(1, 0, "abcdefghijkl (01)".to_string())]);
}

#[test]
fn screen_narrower_than_a_suggestion_shows_no_buffer() {
    let (buffer, fragments) = ranked_for("he", &[("hello", 1)]);
    let frame = layout(5, 3, &buffer, &fragments);
    assert_eq!(line_of(&frame), "");
    assert_eq!(frame.cursor, 0);
    assert_eq!(rows_of(&frame), vec![(1, 0, "hello (01)".to_string())]);
}

#[test]
fn screen_without_columns_or_rows_shows_nothing() {
    let (buffer, fragments) = ranked_for("hel", &[("hello world", 2), ("help me", 1)]);
    let frame = layout(0, 0, &buffer, &fragments);
    assert!(frame.line.is_empty());
    assert_eq!(frame.cursor, 0);
    assert!(frame.suggestions.is_empty());

    let frame = layout(0, 0, &[], &Vec::new());
    assert!(frame.line.is_empty());
    assert!(frame.suggestions.is_empty());
}

#[test]
fn rows_below_the_first_limit_the_suggestions() {
    let (buffer, fragments) =
        ranked_for("a", &[("ab", 1), ("ac", 2), ("ad", 3), ("b", 9)]);
    assert!(layout(30, 0, &buffer, &fragments).suggestions.is_empty());
    assert!(layout(30, 1, &buffer, &fragments).suggestions.is_empty());
    let frame = layout(30, 3, &buffer, &fragments);
    assert_eq!(
        rows_of(&frame),
        vec![(1, 0, "ad (03)".to_string()), (2, 0, "ac (02)".to_string())]
    );
    let frame = layout(30, 9, &buffer, &fragments);
    assert_eq!(
        rows_of(&frame),
        vec![
            (1, 0, "ad (03)".to_string()),
            (2, 0, "ac (02)".to_string()),
            (3, 0, "ab (01)".to_string()),
            (4, 1, "b (09)".to_string()),
        ]
    );
}

#[test]
fn hidden_fragments_still_take_their_columns() {
    // The widest fragment is not among those shown, and still counts.
    let (buffer, fragments) = ranked_for("x", &[("xy", 1), ("a much longer fragment", 1)]);
    let frame = layout(40, 2, &buffer, &fragments);
    assert_eq!(frame.cursor, 1);
    assert_eq!(visible_columns(40, &fragments), 40 - (22 + 5));
    assert_eq!(rows_of(&frame), vec![(1, 0, "xy (01)".to_string())]);
}
