//! A letter trie (prefix tree) keyed by the characters of normalized words,
//! with two interchangeable node-ownership models and four load strategies
//! that are proved to produce identical tries.

pub mod base_letter_trie;
pub mod chars;
pub mod counter;
pub mod fixed_node;
pub mod laws;
pub mod loaders;
pub mod model;
pub mod no_parent_letter_trie;

pub use base_letter_trie::BaseLetterTrie;
pub use counter::CharGetCounter;
pub use fixed_node::FixedNode;
pub use no_parent_letter_trie::NoParentLetterTrie;

use vstd::prelude::*;
use crate::counter::CharGetCounter as Counter;
use crate::fixed_node::{fixed_matches, FixedNode as Fixed};
use crate::model::{
    all_nonempty, empty_node, new_nodes, node_count, spec_find, spec_insert, spec_merge, total_len,
    trie_of, SpecNode, ROOT_CHAR,
};

verus! {

/// A letter trie: implementations differ in how nodes refer to their
/// parents and children but behave identically, which the shared contracts
/// below state and the implementations prove.
pub trait LetterTrie: Sized {
    /// The mathematical trie this value represents.
    spec fn model(&self) -> SpecNode;

    /// The representation invariant of the implementation.
    spec fn wf(&self) -> bool;

    /// Create an empty trie.
    fn new() -> (t: Self)
        ensures
            t.wf(),
            t.model() == empty_node(),
    ;

    /// Insert one non-empty normalized word, recording each child lookup on
    /// `counter`: a hit where the child existed, a miss where it was
    /// created.
    fn insert(&mut self, word: &Vec<char>, counter: &mut Counter)
        requires
            old(self).wf(),
            word@.len() > 0,
            old(counter).hit_count + old(counter).miss_count + word@.len() <= usize::MAX,
        ensures
            final(self).wf(),
            final(self).model() == spec_insert(old(self).model(), word@),
            final(counter).miss_count == old(counter).miss_count + new_nodes(
                old(self).model(),
                word@,
            ),
            final(counter).hit_count == old(counter).hit_count + (word@.len() - new_nodes(
                old(self).model(),
                word@,
            )),
    ;

    /// Fold another trie into this one: a word ends in the result where it
    /// ends in either trie. Used by the parallel loader to fold completed
    /// per-letter subtries into the main trie, in whatever order they
    /// arrive.
    fn merged(self, other: Self) -> (r: Self)
        requires
            self.wf(),
            other.wf(),
        ensures
            r.wf(),
            r.model() == spec_merge(self.model(), other.model()),
    ;

    /// Walk the characters of `prefix` from the root and return a snapshot
    /// of the subtree at the end of that path, or `None` if the path leaves
    /// the trie. The empty prefix yields a snapshot of the whole trie.
    fn find(&self, prefix: &str) -> (r: Option<Fixed>)
        requires
            self.wf(),
            node_count(self.model()) <= usize::MAX,
        ensures
            (match spec_find(self.model(), prefix@) {
                None => r is None,
                Some(sub) => {
                    &&& r is Some
                    &&& fixed_matches(
                        r->0,
                        sub,
                        if prefix@.len() == 0 {
                            ROOT_CHAR
                        } else {
                            prefix@.last()
                        },
                        prefix@,
                    )
                },
            }),
    ;

    /// Snapshot of the whole trie.
    fn to_fixed_node(&self) -> (r: Fixed)
        requires
            self.wf(),
            node_count(self.model()) <= usize::MAX,
        ensures
            fixed_matches(r, self.model(), ROOT_CHAR, Seq::<char>::empty()),
    ;

}

/// Which collection of words a benchmark or test loads. Whether a dataset
/// is sorted may affect loading speed for some strategies; the resulting
/// trie is identical either way.
#[derive(Debug)]
pub enum Dataset {
    /// Small file with nine sorted English words.
    TestSmallSorted,
    /// Small file with nine unsorted English words.
    TestSmallUnsorted,
    /// Medium file with 10,000 sorted non-English words.
    TestMediumSorted,
    /// Medium file with 10,000 unsorted non-English words.
    TestMediumUnsorted,
    /// Large file with 584,983 sorted non-English words.
    TestLargeSorted,
    /// Large file with 584,983 unsorted non-English words.
    TestLargeUnsorted,
}

impl Dataset {
    /// The name of the word file this dataset reads.
    pub fn filename(&self) -> (r: &str)
        ensures
            r@ == self.filename_spec(),
    {
        match self {
            Dataset::TestSmallSorted => "words_9_sorted.txt",
            Dataset::TestSmallUnsorted => "words_9_unsorted.txt",
            Dataset::TestMediumSorted => "words_10_000_sorted.txt",
            Dataset::TestMediumUnsorted => "words_10_000_unsorted.txt",
            Dataset::TestLargeSorted => "words_584_983_sorted.txt",
            Dataset::TestLargeUnsorted => "words_584_983_unsorted.txt",
        }
    }

    /// The file name, as a character sequence.
    pub open spec fn filename_spec(&self) -> Seq<char> {
        match self {
            Dataset::TestSmallSorted => "words_9_sorted.txt"@,
            Dataset::TestSmallUnsorted => "words_9_unsorted.txt"@,
            Dataset::TestMediumSorted => "words_10_000_sorted.txt"@,
            Dataset::TestMediumUnsorted => "words_10_000_unsorted.txt"@,
            Dataset::TestLargeSorted => "words_584_983_sorted.txt"@,
            Dataset::TestLargeUnsorted => "words_584_983_unsorted.txt"@,
        }
    }

    /// True if the dataset's words are already in alphabetical order.
    pub fn is_sorted(&self) -> (r: bool)
        ensures
            r == (self is TestSmallSorted || self is TestMediumSorted || self is TestLargeSorted),
    {
        match self {
            Dataset::TestSmallSorted | Dataset::TestMediumSorted | Dataset::TestLargeSorted => true,
            Dataset::TestSmallUnsorted
            | Dataset::TestMediumUnsorted
            | Dataset::TestLargeUnsorted => false,
        }
    }

    /// The dataset's name, for labels.
    pub fn name(&self) -> (r: &str)
        ensures
            r@ == self.name_spec(),
    {
        match self {
            Dataset::TestSmallSorted => "TestSmallSorted",
            Dataset::TestSmallUnsorted => "TestSmallUnsorted",
            Dataset::TestMediumSorted => "TestMediumSorted",
            Dataset::TestMediumUnsorted => "TestMediumUnsorted",
            Dataset::TestLargeSorted => "TestLargeSorted",
            Dataset::TestLargeUnsorted => "TestLargeUnsorted",
        }
    }

    pub open spec fn name_spec(&self) -> Seq<char> {
        match self {
            Dataset::TestSmallSorted => "TestSmallSorted"@,
            Dataset::TestSmallUnsorted => "TestSmallUnsorted"@,
            Dataset::TestMediumSorted => "TestMediumSorted"@,
            Dataset::TestMediumUnsorted => "TestMediumUnsorted"@,
            Dataset::TestLargeSorted => "TestLargeSorted"@,
            Dataset::TestLargeUnsorted => "TestLargeUnsorted"@,
        }
    }
}

/// Which implementation of [`LetterTrie`] to use.
#[derive(Debug)]
pub enum LetterTrieType {
    /// The baseline implementation whose nodes keep a back-link to their
    /// parent for upward navigation.
    Base,
    /// A stripped-down implementation with no parent links and direct
    /// ownership of child nodes.
    NoParent,
}

impl LetterTrieType {
    /// The type's name, for labels.
    pub fn name(&self) -> (r: &str)
        ensures
            r@ == self.name_spec(),
    {
        match self {
            LetterTrieType::Base => "Base",
            LetterTrieType::NoParent => "NoParent",
        }
    }

    pub open spec fn name_spec(&self) -> Seq<char> {
        match self {
            LetterTrieType::Base => "Base"@,
            LetterTrieType::NoParent => "NoParent"@,
        }
    }
}

/// The staging a trie build uses to turn a word list into a trie.
#[derive(Debug, PartialEq)]
pub enum LoadMethod {
    /// Materialize the words, sort them unconditionally, then fill the trie.
    ReadVecFill,
    /// Materialize the words, sort them only if the source is not already
    /// sorted, then fill the trie.
    VecFill,
    /// Insert each word as it arrives, with no intermediate vector.
    Continuous,
    /// Group arriving words by first letter, build one subtrie per group,
    /// and fold each completed subtrie into the main trie.
    ContinuousParallel,
}

impl LoadMethod {
    /// The method's name, for labels.
    pub fn name(&self) -> (r: &str)
        ensures
            r@ == self.name_spec(),
    {
        match self {
            LoadMethod::ReadVecFill => "ReadVecFill",
            LoadMethod::VecFill => "VecFill",
            LoadMethod::Continuous => "Continuous",
            LoadMethod::ContinuousParallel => "ContinuousParallel",
        }
    }

    pub open spec fn name_spec(&self) -> Seq<char> {
        match self {
            LoadMethod::ReadVecFill => "ReadVecFill"@,
            LoadMethod::VecFill => "VecFill"@,
            LoadMethod::Continuous => "Continuous"@,
            LoadMethod::ContinuousParallel => "ContinuousParallel"@,
        }
    }
}

/// Options for how much detail to display while building a trie.
pub struct DisplayDetailOptions {
    /// Print the elapsed time for the whole build, reading included.
    pub print_overall_time: bool,
    /// Print the elapsed time of each step of the chosen load method.
    pub print_step_time: bool,
    /// How much to print about the finished trie: 0 nothing, 1 one line,
    /// 2 the full tree.
    pub object_detail_level: usize,
    /// The label shown with any output; `get_test_label` builds one.
    pub label: String,
}

impl DisplayDetailOptions {
    /// Display nothing.
    pub fn make_no_display() -> (r: Self)
        ensures
            r.print_overall_time == false,
            r.print_step_time == false,
            r.object_detail_level == 0,
            r.label@ == Seq::<char>::empty(),
    {
        Self {
            print_overall_time: false,
            print_step_time: false,
            object_detail_level: 0,
            label: String::new(),
        }
    }

    /// Display only the overall build time.
    pub fn make_overall_time(
        dataset: &Dataset,
        load_method: &LoadMethod,
        char_trie_type: &LetterTrieType,
    ) -> (r: Self)
        ensures
            r.print_overall_time == true,
            r.print_step_time == false,
            r.object_detail_level == 0,
            r.label@ == label_spec(dataset, load_method, char_trie_type),
    {
        Self {
            print_overall_time: true,
            print_step_time: false,
            object_detail_level: 0,
            label: get_test_label(dataset, load_method, char_trie_type),
        }
    }

    /// Display step times and a moderate amount of trie detail: the full
    /// tree for the small datasets, one line for the others.
    pub fn make_moderate(
        dataset: &Dataset,
        load_method: &LoadMethod,
        char_trie_type: &LetterTrieType,
    ) -> (r: Self)
        ensures
            r.print_overall_time == true,
            r.print_step_time == true,
            r.object_detail_level == (match dataset {
                Dataset::TestSmallSorted | Dataset::TestSmallUnsorted => 2int,
                _ => 1int,
            }),
            r.label@ == label_spec(dataset, load_method, char_trie_type),
    {
        Self {
            print_overall_time: true,
            print_step_time: true,
            object_detail_level: match dataset {
                Dataset::TestSmallSorted | Dataset::TestSmallUnsorted => 2,
                _ => 1,
            },
            label: get_test_label(dataset, load_method, char_trie_type),
        }
    }
}

/// The label of a test configuration: the three names joined by "; ".
pub open spec fn label_spec(
    dataset: &Dataset,
    load_method: &LoadMethod,
    char_trie_type: &LetterTrieType,
) -> Seq<char> {
    dataset.name_spec() + "; "@ + load_method.name_spec() + "; "@ + char_trie_type.name_spec()
}

/// Build the label describing one test configuration.
pub fn get_test_label(
    dataset: &Dataset,
    load_method: &LoadMethod,
    char_trie_type: &LetterTrieType,
) -> (r: String)
    ensures
        r@ == label_spec(dataset, load_method, char_trie_type),
{
    let mut label = String::new();
    label.append(dataset.name());
    label.append("; ");
    label.append(load_method.name());
    label.append("; ");
    label.append(char_trie_type.name());
    label
}

} // verus!
