//! The layout of one frame: which part of the edit buffer is shown on the
//! top row, and where each suggestion stands below it so that the part it
//! shares with the buffer lies under the buffer's tail.
//!
//! A suggestion whose overlap is longer than the shown part of the buffer
//! would start left of the screen; it is put at column 0 instead.

use vstd::prelude::*;
use crate::fragment::{views, Fragment, FragmentView};

verus! {

/// The width of the count behind a suggestion: a space, and two digits in
/// parentheses.
pub const SUFFIX_WIDTH: usize = 5;

/// The greatest count that is shown as it is; greater ones are shown as this.
pub const COUNT_CAP: usize = 99;

/// One suggestion on the screen.
pub ghost struct PlacementView {
    pub row: int,
    pub col: int,
    pub text: Seq<char>,
}

/// One frame on the screen.
pub ghost struct FrameView {
    pub line: Seq<char>,
    pub cursor: int,
    pub suggestions: Seq<PlacementView>,
}

/// One suggestion on the screen: `text` is written from column `col` of row
/// `row`.
#[derive(Debug)]
pub struct Placement {
    pub row: u16,
    pub col: u16,
    pub text: Vec<char>,
}

/// One frame: `line` is written from column 0 of row 0 and ends at column
/// `cursor`; the suggestions follow on the rows below, the best first.
#[derive(Debug)]
pub struct Frame {
    pub line: Vec<char>,
    pub cursor: u16,
    pub suggestions: Vec<Placement>,
}

impl View for Placement {
    type V = PlacementView;

    open spec fn view(&self) -> PlacementView {
        PlacementView { row: self.row as int, col: self.col as int, text: self.text@ }
    }
}

impl View for Frame {
    type V = FrameView;

    open spec fn view(&self) -> FrameView {
        FrameView {
            line: self.line@,
            cursor: self.cursor as int,
            suggestions: self.suggestions@.map_values(|p: Placement| p@),
        }
    }
}

/// The columns that a suggestion needs to the right of the buffer's tail:
/// the part of its text that the buffer does not hold yet, and its count.
pub open spec fn suggestion_width(f: FragmentView) -> int {
    f.data.len() - f.overlap + SUFFIX_WIDTH
}

/// The greatest width among the fragments, or 0 if there are none.
pub open spec fn max_suggestion_width(s: Seq<FragmentView>) -> int
    decreases s.len(),
{
    if s.len() == 0 {
        0
    } else {
        let front = max_suggestion_width(s.drop_last());
        if suggestion_width(s.last()) > front {
            suggestion_width(s.last())
        } else {
            front
        }
    }
}

/// The columns left for the buffer when the widest suggestion is to fit.
pub open spec fn visible_cols(cols: int, s: Seq<FragmentView>) -> int {
    if cols > max_suggestion_width(s) {
        cols - max_suggestion_width(s)
    } else {
        0
    }
}

/// The index of the first character of the buffer that is shown.
pub open spec fn window_start(len: int, visible: int) -> int {
    if len > visible {
        len - visible
    } else {
        0
    }
}

/// The column at which the shown part of the buffer ends.
pub open spec fn cursor_col(len: int, visible: int) -> int {
    if visible < len {
        visible
    } else {
        len
    }
}

/// The column at which a suggestion starts: its overlap to the left of the
/// cursor, but never left of column 0.
pub open spec fn suggestion_col(cursor: int, overlap: int) -> int {
    if cursor > overlap {
        cursor - overlap
    } else {
        0
    }
}

/// The character for one decimal digit.
pub open spec fn digit(d: int) -> char {
    if d == 0 {
        '0'
    } else if d == 1 {
        '1'
    } else if d == 2 {
        '2'
    } else if d == 3 {
        '3'
    } else if d == 4 {
        '4'
    } else if d == 5 {
        '5'
    } else if d == 6 {
        '6'
    } else if d == 7 {
        '7'
    } else if d == 8 {
        '8'
    } else {
        '9'
    }
}

/// The count as it is shown: no greater than the cap.
pub open spec fn shown_count(count: nat) -> int {
    if count > COUNT_CAP {
        COUNT_CAP as int
    } else {
        count as int
    }
}

/// What is written behind a suggestion: a space, and in parentheses the
/// shown count in two digits.
pub open spec fn suffix_of(count: nat) -> Seq<char> {
    seq![' ', '(', digit(shown_count(count) / 10), digit(shown_count(count) % 10), ')']
}

/// The number of suggestions that are shown: one for each row below the
/// first, as far as there are fragments.
pub open spec fn shown_suggestions(rows: int, fragments: int) -> int {
    if rows - 1 <= 0 {
        0
    } else if rows - 1 < fragments {
        rows - 1
    } else {
        fragments
    }
}

/// The suggestion made of fragment `f` on row `row`.
pub open spec fn placed(f: FragmentView, row: int, cursor: int) -> PlacementView {
    PlacementView {
        row,
        col: suggestion_col(cursor, f.overlap as int),
        text: f.data + suffix_of(f.count),
    }
}

/// The frame for a screen of `cols` columns and `rows` rows. `ranked` is in
/// ascending order, so the best fragment stands last: it is shown on row 1,
/// the one before it on row 2, and so on.
pub open spec fn laid_out(
    cols: int,
    rows: int,
    buffer: Seq<char>,
    ranked: Seq<FragmentView>,
) -> FrameView {
    let visible = visible_cols(cols, ranked);
    let cursor = cursor_col(buffer.len() as int, visible);
    FrameView {
        line: buffer.subrange(window_start(buffer.len() as int, visible), buffer.len() as int),
        cursor,
        suggestions: Seq::new(
            shown_suggestions(rows, ranked.len() as int) as nat,
            |r: int| placed(ranked[ranked.len() - 1 - r], r + 1, cursor),
        ),
    }
}

/// No fragment is wider than the greatest width, which is the width of one
/// of them if there are any, and never negative.
pub proof fn lemma_max_suggestion_width(s: Seq<FragmentView>)
    ensures
        0 <= max_suggestion_width(s),
        forall|i: int| 0 <= i < s.len() ==> suggestion_width(#[trigger] s[i]) <= max_suggestion_width(s),
        s.len() == 0 || max_suggestion_width(s) == 0 || exists|i: int|
            0 <= i < s.len() && suggestion_width(#[trigger] s[i]) == max_suggestion_width(s),
    decreases s.len(),
{
    if s.len() > 0 {
        let front = s.drop_last();
        lemma_max_suggestion_width(front);
        assert forall|i: int| 0 <= i < s.len() implies suggestion_width(#[trigger] s[i])
            <= max_suggestion_width(s) by {
            if i < front.len() {
                assert(s[i] == front[i]);
            }
        }
        if suggestion_width(s.last()) > max_suggestion_width(front) {
            assert(suggestion_width(s[s.len() - 1]) == max_suggestion_width(s));
        } else if max_suggestion_width(s) != 0 {
            let i = choose|i: int|
                0 <= i < front.len() && suggestion_width(#[trigger] front[i])
                    == max_suggestion_width(front);
            assert(s[i] == front[i]);
        }
    }
}

/// On a screen without columns or rows nothing is shown.
pub proof fn lemma_nothing_on_no_screen(buffer: Seq<char>, ranked: Seq<FragmentView>)
    ensures
        laid_out(0, 0, buffer, ranked).line.len() == 0,
        laid_out(0, 0, buffer, ranked).cursor == 0,
        laid_out(0, 0, buffer, ranked).suggestions.len() == 0,
{
    lemma_max_suggestion_width(ranked);
}

/// The shown part of the buffer is its tail; it ends at the cursor and fits
/// the screen's width.
pub proof fn lemma_line_fits(cols: int, rows: int, buffer: Seq<char>, ranked: Seq<FragmentView>)
    requires
        0 <= cols,
    ensures
        laid_out(cols, rows, buffer, ranked).line.len() == laid_out(
            cols,
            rows,
            buffer,
            ranked,
        ).cursor,
        0 <= laid_out(cols, rows, buffer, ranked).cursor <= cols,
        laid_out(cols, rows, buffer, ranked).cursor <= buffer.len(),
        laid_out(cols, rows, buffer, ranked).line == buffer.subrange(
            buffer.len() - laid_out(cols, rows, buffer, ranked).cursor,
            buffer.len() as int,
        ),
{
    lemma_max_suggestion_width(ranked);
}

/// A suggestion ends within the screen's width where no fragment is wider
/// than the screen and its own overlap is shown whole.
pub proof fn lemma_suggestion_fits(
    cols: int,
    rows: int,
    buffer: Seq<char>,
    ranked: Seq<FragmentView>,
    r: int,
)
    requires
        0 <= r < laid_out(cols, rows, buffer, ranked).suggestions.len(),
        max_suggestion_width(ranked) <= cols,
        ranked[ranked.len() - 1 - r].overlap <= laid_out(cols, rows, buffer, ranked).cursor,
    ensures
        laid_out(cols, rows, buffer, ranked).suggestions[r].row == r + 1,
        laid_out(cols, rows, buffer, ranked).suggestions[r].row < rows,
        laid_out(cols, rows, buffer, ranked).suggestions[r].col + ranked[ranked.len() - 1
            - r].overlap == laid_out(cols, rows, buffer, ranked).cursor,
        laid_out(cols, rows, buffer, ranked).suggestions[r].col + laid_out(
            cols,
            rows,
            buffer,
            ranked,
        ).suggestions[r].text.len() <= cols,
{
    lemma_max_suggestion_width(ranked);
    let f = ranked[ranked.len() - 1 - r];
    assert(suggestion_width(f) <= max_suggestion_width(ranked));
}

/// The count behind a suggestion is five characters wide, and every count
/// from the cap on is shown as the cap.
pub proof fn lemma_suffix_capped(count: nat)
    ensures
        suffix_of(count).len() == SUFFIX_WIDTH,
        count >= COUNT_CAP ==> suffix_of(count) == seq![' ', '(', '9', '9', ')'],
{
}

/// The character for one decimal digit.
fn digit_char(d: usize) -> (c: char)
    requires
        d < 10,
    ensures
        c == digit(d as int),
{
    match d {
        0 => '0',
        1 => '1',
        2 => '2',
        3 => '3',
        4 => '4',
        5 => '5',
        6 => '6',
        7 => '7',
        8 => '8',
        _ => '9',
    }
}

/// What is written behind a suggestion with the given count: a space, and in
/// parentheses the count in two digits, 99 standing for every greater count.
pub fn count_suffix(count: usize) -> (suffix: Vec<char>)
    ensures
        suffix@ == suffix_of(count as nat),
        suffix@.len() == SUFFIX_WIDTH,
{
    let shown: usize = if count > COUNT_CAP {
        COUNT_CAP
    } else {
        count
    };
    let mut suffix: Vec<char> = Vec::new();
    suffix.push(' ');
    suffix.push('(');
    suffix.push(digit_char(shown / 10));
    suffix.push(digit_char(shown % 10));
    suffix.push(')');
    assert(suffix@ =~= suffix_of(count as nat));
    suffix
}

/// The text of a suggestion: the fragment's characters, and its count behind
/// them.
pub fn suggestion_text(fragment: &Fragment) -> (text: Vec<char>)
    ensures
        text@ == fragment@.data + suffix_of(fragment@.count),
{
    let data = fragment.data();
    let mut text: Vec<char> = Vec::new();
    let mut i: usize = 0;
    while i < data.len()
        invariant
            i <= data@.len(),
            text@ == data@.subrange(0, i as int),
        decreases data@.len() - i,
    {
        text.push(data[i]);
        assert(text@ == data@.subrange(0, i + 1));
        i += 1;
    }
    assert(data@.subrange(0, data@.len() as int) == data@);
    let mut suffix = count_suffix(fragment.count());
    text.append(&mut suffix);
    text
}

/// The columns left for the buffer when the widest suggestion is to fit on a
/// screen of `cols` columns.
pub fn visible_columns(cols: u16, ranked: &Vec<Fragment>) -> (visible: u16)
    ensures
        visible == visible_cols(cols as int, views(ranked@)),
{
    let mut visible: u16 = cols;
    let mut i: usize = 0;
    assert(views(ranked@).take(0) == Seq::<FragmentView>::empty());
    while i < ranked.len()
        invariant
            i <= ranked@.len(),
            visible == visible_cols(cols as int, views(ranked@).take(i as int)),
        decreases ranked@.len() - i,
    {
        let fragment = &ranked[i];
        proof {
            let upto = views(ranked@).take(i + 1);
            assert(upto.drop_last() == views(ranked@).take(i as int));
            assert(upto.last() == fragment@);
            lemma_max_suggestion_width(upto.drop_last());
        }
        let overlap: usize = fragment.overlap();
        let rest: usize = fragment.data().len() - overlap;
        let room: u16 = if rest >= cols as usize {
            0
        } else if cols - (rest as u16) <= SUFFIX_WIDTH as u16 {
            0
        } else {
            cols - (rest as u16) - (SUFFIX_WIDTH as u16)
        };
        if room < visible {
            visible = room;
        }
        i += 1;
    }
    assert(views(ranked@).take(ranked@.len() as int) == views(ranked@));
    visible
}

/// Lays out one frame for a screen of `cols` columns and `rows` rows. The
/// top row shows the tail of the buffer that fits beside the widest
/// suggestion. The rows below show the fragments from the last of `ranked`
/// backwards, each with its overlap under the buffer's tail, or at column 0
/// where the overlap is longer than what is shown of the buffer.
pub fn layout(cols: u16, rows: u16, buffer: &[char], ranked: &Vec<Fragment>) -> (frame: Frame)
    ensures
        frame@ == laid_out(cols as int, rows as int, buffer@, views(ranked@)),
{
    let visible: usize = visible_columns(cols, ranked) as usize;
    let start: usize = if buffer.len() > visible {
        buffer.len() - visible
    } else {
        0
    };
    let cursor: usize = if visible < buffer.len() {
        visible
    } else {
        buffer.len()
    };
    let mut line: Vec<char> = Vec::new();
    let mut i: usize = start;
    while i < buffer.len()
        invariant
            start <= i <= buffer@.len(),
            line@ == buffer@.subrange(start as int, i as int),
        decreases buffer@.len() - i,
    {
        line.push(buffer[i]);
        assert(line@ == buffer@.subrange(start as int, i + 1));
        i += 1;
    }
    let ghost expected = laid_out(cols as int, rows as int, buffer@, views(ranked@));
    let n: usize = ranked.len();
    let mut suggestions: Vec<Placement> = Vec::new();
    let mut row: u16 = 1;
    while row < rows && row as usize <= n
        invariant
            1 <= row,
            n == ranked@.len(),
            cursor <= u16::MAX,
            cursor == expected.cursor,
            expected == laid_out(cols as int, rows as int, buffer@, views(ranked@)),
            suggestions@.len() == row - 1,
            suggestions@.len() <= expected.suggestions.len(),
            forall|r: int|
                0 <= r < suggestions@.len() ==> (#[trigger] suggestions@[r])@
                    == expected.suggestions[r],
        decreases rows - row,
    {
        let fragment = &ranked[n - row as usize];
        let col: usize = if cursor > fragment.overlap() {
            cursor - fragment.overlap()
        } else {
            0
        };
        suggestions.push(Placement { row, col: col as u16, text: suggestion_text(fragment) });
        row += 1;
    }
    let frame = Frame { line, cursor: cursor as u16, suggestions };
    assert(frame@.suggestions =~= expected.suggestions);
    frame
}

} // verus!
