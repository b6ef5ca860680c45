//! A stored fragment: its text, how often it occurred, and how far it
//! overlaps the edit buffer it was last scored against.

use vstd::prelude::*;
use crate::overlap::{is_longest_overlap, num_shared, shared_len};
use crate::text::same_chars;

verus! {

/// What a fragment stands for: its characters, the number of lines that held
/// them, and the overlap with the buffer it was last scored against.
pub ghost struct FragmentView {
    pub data: Seq<char>,
    pub count: nat,
    pub overlap: nat,
}

/// A candidate text. Its characters never change; `count` is set when lines
/// are grouped; `overlap` is set anew by each scoring.
#[derive(Debug)]
pub struct Fragment {
    data: Vec<char>,
    count: usize,
    overlap: usize,
}

impl View for Fragment {
    type V = FragmentView;

    closed spec fn view(&self) -> FragmentView {
        FragmentView {
            data: self.data@,
            count: self.count as nat,
            overlap: self.overlap as nat,
        }
    }
}

impl PartialEq for Fragment {
    /// Two fragments are equal when their characters are the same, whatever
    /// their counts and overlaps.
    fn eq(&self, other: &Fragment) -> (same: bool) {
        same_chars(self.data.as_slice(), other.data.as_slice())
    }
}

impl vstd::std_specs::cmp::PartialEqSpecImpl for Fragment {
    open spec fn obeys_eq_spec() -> bool {
        true
    }

    open spec fn eq_spec(&self, other: &Fragment) -> bool {
        self@.data == other@.data
    }
}

impl Eq for Fragment {

}

/// The views of a sequence of fragments, in the same order.
pub open spec fn views(fragments: Seq<Fragment>) -> Seq<FragmentView> {
    fragments.map_values(|f: Fragment| f@)
}

impl Fragment {
    /// The overlap is no longer than the text.
    #[verifier::type_invariant]
    spec fn inv(&self) -> bool {
        self.overlap <= self.data@.len()
    }

    /// A fragment of the given text and count that overlaps nothing yet.
    pub fn new(data: Vec<char>, count: usize) -> (fragment: Fragment)
        ensures
            fragment@ == (FragmentView { data: data@, count: count as nat, overlap: 0 }),
    {
        Fragment { data, count, overlap: 0 }
    }

    /// The fragment's characters.
    pub fn data(&self) -> (data: &Vec<char>)
        ensures
            data@ == self@.data,
    {
        &self.data
    }

    /// The number of lines that held this text.
    pub fn count(&self) -> (count: usize)
        ensures
            count == self@.count,
    {
        self.count
    }

    /// The overlap with the buffer that the fragment was last scored
    /// against; it is never longer than the text.
    pub fn overlap(&self) -> (overlap: usize)
        ensures
            overlap == self@.overlap,
            overlap <= self@.data.len(),
    {
        proof {
            use_type_invariant(self);
        }
        self.overlap
    }

    /// Counts one more line with this text.
    pub(crate) fn count_one_more(&mut self)
        requires
            old(self)@.count < usize::MAX,
        ensures
            final(self)@ == (FragmentView { count: old(self)@.count + 1, ..old(self)@ }),
    {
        proof {
            use_type_invariant(&*self);
        }
        self.count = self.count + 1;
    }

    /// Scores the fragment against `buffer`: its overlap becomes the length
    /// of the longest tail of `buffer` that is a head of its text.
    pub fn score(&mut self, buffer: &[char])
        ensures
            final(self)@ == (FragmentView {
                overlap: shared_len(buffer@, old(self)@.data) as nat,
                ..old(self)@
            }),
            is_longest_overlap(buffer@, final(self)@.data, final(self)@.overlap as int),
    {
        self.overlap = num_shared(buffer, self.data.as_slice());
    }
}

} // verus!
