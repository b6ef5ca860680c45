//! Text as sequences of characters: strings taken apart and put together,
//! and a file's text split into its lines.

use vstd::prelude::*;

verus! {

/// The texts that a vector of lines holds, in order.
pub open spec fn texts(lines: Seq<Vec<char>>) -> Seq<Seq<char>> {
    lines.map_values(|line: Vec<char>| line@)
}

/// `end` is where the first line of `text` ends: at its first line feed, or
/// at the end of `text` if it holds none.
pub open spec fn is_line_end(text: Seq<char>, end: int) -> bool {
    &&& 0 <= end <= text.len()
    &&& forall|i: int| 0 <= i < end ==> text[i] != '\n'
    &&& end < text.len() ==> text[end] == '\n'
}

/// The number of characters before the first line feed of `text`.
pub open spec fn line_end(text: Seq<char>) -> int
    decreases text.len(),
{
    if text.len() == 0 || text[0] == '\n' {
        0
    } else {
        1 + line_end(text.drop_first())
    }
}

/// A line without the carriage return that may stand before its line feed.
pub open spec fn without_cr(line: Seq<char>) -> Seq<char> {
    if line.len() > 0 && line.last() == '\r' {
        line.drop_last()
    } else {
        line
    }
}

/// The lines of `text`. A line ends with a line feed, or with a carriage
/// return and a line feed, and holds neither; what follows the last line feed
/// is a line of its own unless it is empty.
pub open spec fn lines_of(text: Seq<char>) -> Seq<Seq<char>>
    decreases text.len(),
{
    if text.len() == 0 {
        Seq::empty()
    } else {
        let end = line_end(text);
        if 0 <= end < text.len() {
            seq![without_cr(text.subrange(0, end))] + lines_of(
                text.subrange(end + 1, text.len() as int),
            )
        } else {
            seq![text]
        }
    }
}

/// `line_end` is where the first line ends.
pub proof fn lemma_line_end(text: Seq<char>)
    ensures
        is_line_end(text, line_end(text)),
    decreases text.len(),
{
    if text.len() != 0 && text[0] != '\n' {
        let rest = text.drop_first();
        lemma_line_end(rest);
        assert forall|i: int| 0 <= i < line_end(text) implies text[i] != '\n' by {
            if i > 0 {
                assert(text[i] == rest[i - 1]);
            }
        }
        if line_end(text) < text.len() {
            assert(text[line_end(text)] == rest[line_end(rest)]);
        }
    }
}

/// The first line ends in one place only.
pub proof fn lemma_line_end_unique(text: Seq<char>, end: int)
    requires
        is_line_end(text, end),
    ensures
        end == line_end(text),
{
    lemma_line_end(text);
}

/// No line holds a line feed.
pub proof fn lemma_lines_hold_no_line_feed(text: Seq<char>, i: int)
    requires
        0 <= i < lines_of(text).len(),
    ensures
        !lines_of(text)[i].contains('\n'),
    decreases text.len(),
{
    lemma_line_end(text);
    let end = line_end(text);
    if end < text.len() {
        if i > 0 {
            lemma_lines_hold_no_line_feed(text.subrange(end + 1, text.len() as int), i - 1);
        }
    }
}

/// Tells whether two character slices hold the same characters.
pub fn same_chars(a: &[char], b: &[char]) -> (same: bool)
    ensures
        same == (a@ == b@),
{
    if a.len() != b.len() {
        return false;
    }
    let mut i: usize = 0;
    while i < a.len()
        invariant
            i <= a@.len(),
            a@.len() == b@.len(),
            forall|j: int| 0 <= j < i ==> a@[j] == b@[j],
        decreases a@.len() - i,
    {
        if a[i] != b[i] {
            return false;
        }
        i += 1;
    }
    assert(a@ =~= b@);
    true
}

/// The characters of a string, in order.
pub fn into_vec_of_chars(x: &str) -> (chars: Vec<char>)
    ensures
        chars@ == x@,
{
    let mut chars: Vec<char> = Vec::new();
    for c in it: x.chars()
        invariant
            chars@ == it.seq().take(it.index()),
            it.seq() == x@,
    {
        chars.push(c);
    }
    chars
}

/// Splits `text` into its lines.
pub fn split_lines(text: &[char]) -> (lines: Vec<Vec<char>>)
    ensures
        texts(lines@) == lines_of(text@),
{
    let mut lines: Vec<Vec<char>> = Vec::new();
    let mut line: Vec<char> = Vec::new();
    let mut i: usize = 0;
    let ghost mut start: int = 0;
    assert(text@.subrange(0, text@.len() as int) == text@);
    assert(texts(lines@) + lines_of(text@) == lines_of(text@));
    while i < text.len()
        invariant
            0 <= start <= i <= text@.len(),
            line@ == text@.subrange(start, i as int),
            !line@.contains('\n'),
            texts(lines@) + lines_of(text@.subrange(start, text@.len() as int)) == lines_of(text@),
        decreases text@.len() - i,
    {
        let c = text[i];
        let ghost rest = text@.subrange(start, text@.len() as int);
        if c == '\n' {
            proof {
                assert forall|k: int| 0 <= k < i - start implies rest[k] != '\n' by {
                    assert(line@[k] == rest[k]);
                    assert(line@.contains(line@[k]));
                }
                assert(rest[i - start] == '\n');
                lemma_line_end_unique(rest, i - start);
                assert(rest.subrange(0, i - start) == line@);
                assert(rest.subrange(i - start + 1, rest.len() as int) == text@.subrange(
                    i + 1,
                    text@.len() as int,
                ));
            }
            let ghost whole = line@;
            if line.len() > 0 && line[line.len() - 1] == '\r' {
                line.pop();
            }
            assert(line@ == without_cr(whole));
            let ghost before = texts(lines@);
            lines.push(line);
            line = Vec::new();
            proof {
                start = i + 1;
                let after = text@.subrange(start, text@.len() as int);
                assert(texts(lines@) == before + seq![without_cr(whole)]);
                assert(lines_of(rest) == seq![without_cr(whole)] + lines_of(after));
                assert(texts(lines@) + lines_of(after) == before + lines_of(rest));
                assert(line@ == text@.subrange(start, i + 1));
            }
        } else {
            line.push(c);
            proof {
                assert(line@ == text@.subrange(start, i + 1));
                assert forall|k: int| 0 <= k < line@.len() implies line@[k] != '\n' by {
                    if k < line@.len() - 1 {
                        assert(line@[k] == text@.subrange(start, i as int)[k]);
                        assert(text@.subrange(start, i as int).contains(line@[k]));
                    }
                }
            }
        }
        i += 1;
    }
    let ghost rest = text@.subrange(start, text@.len() as int);
    if line.len() > 0 {
        proof {
            assert forall|k: int| 0 <= k < rest.len() implies rest[k] != '\n' by {
                assert(line@.contains(line@[k]));
            }
            lemma_line_end_unique(rest, rest.len() as int);
        }
        let ghost before = texts(lines@);
        lines.push(line);
        assert(texts(lines@) == before + seq![rest]);
    } else {
        assert(texts(lines@) + Seq::<Seq<char>>::empty() == texts(lines@));
    }
    lines
}

/// `String::push` of std. Believed, not proved: the character is added at
/// the end of the string, and the characters before it stay.
#[verifier::external_body]
fn push_char(text: &mut String, c: char)
    ensures
        final(text)@ == old(text)@.push(c),
{
    text.push(c);
}

/// The string made of the given characters, in order.
pub fn string_of_chars(chars: &[char]) -> (text: String)
    ensures
        text@ == chars@,
{
    let mut text = String::new();
    let mut i: usize = 0;
    while i < chars.len()
        invariant
            i <= chars@.len(),
            text@ == chars@.subrange(0, i as int),
        decreases chars@.len() - i,
    {
        push_char(&mut text, chars[i]);
        assert(text@ == chars@.subrange(0, i + 1));
        i += 1;
    }
    assert(chars@.subrange(0, chars@.len() as int) == chars@);
    text
}

} // verus!
