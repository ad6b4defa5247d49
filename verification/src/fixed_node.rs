//! An immutable snapshot of one subtree, independent of the node-ownership
//! model that produced it. Snapshots are the sole mechanism for comparing
//! tries built by different loaders or node models.

use vstd::prelude::*;
use crate::model::{height, node_count, word_count, SpecNode};

verus! {

/// Structural summary of the subtree rooted at one node.
#[derive(Debug, Clone)]
pub struct FixedNode {
    /// The character this node represents; the root holds the sentinel `' '`,
    /// which no normalized (trimmed) word can contain.
    pub c: char,
    /// The full character path from the root to this node.
    pub prefix: Vec<char>,
    /// Distance from the root; equals the length of `prefix`.
    pub depth: usize,
    /// True if some inserted word terminates exactly here.
    pub is_word: bool,
    /// Number of direct children.
    pub child_count: usize,
    /// Total number of nodes in the subtree, including this one.
    pub node_count: usize,
    /// Number of word ends in the subtree, including this node's own.
    pub word_count: usize,
    /// Length of the longest downward chain below this node.
    pub height: usize,
}

/// The snapshot `f` summarizes the model subtree `t`, reached from the root
/// along `prefix` and labeled with character `c`.
pub open spec fn fixed_matches(f: FixedNode, t: SpecNode, c: char, prefix: Seq<char>) -> bool {
    &&& f.c == c
    &&& f.prefix@ == prefix
    &&& f.depth == prefix.len()
    &&& f.is_word == t.is_word
    &&& f.child_count == t.children.len()
    &&& f.node_count == node_count(t)
    &&& f.word_count == word_count(t)
    &&& f.height == height(t)
}

/// Character-by-character equality of two character vectors.
fn chars_eq(a: &Vec<char>, b: &Vec<char>) -> (r: bool)
    ensures
        r == (a@ == b@),
{
    if a.len() != b.len() {
        assert(a@ != b@);
        return false;
    }
    let n = a.len();
    let mut i: usize = 0;
    while i < n
        invariant
            n == a@.len() == b@.len(),
            0 <= i <= n,
            forall|k: int| 0 <= k < i ==> a@[k] == b@[k],
        decreases n - i,
    {
        if a[i] != b[i] {
            return false;
        }
        i = i + 1;
    }
    proof {
        assert(a@ =~= b@);
    }
    true
}

/// LAW: a snapshot is determined by the model subtree, its character and
/// its path alone. Two tries with equal models — whichever node-ownership
/// model or load strategy built them — therefore yield equal snapshots.
pub proof fn lemma_snapshot_determined(
    f1: FixedNode,
    f2: FixedNode,
    t: SpecNode,
    c: char,
    prefix: Seq<char>,
)
    requires
        fixed_matches(f1, t, c, prefix),
        fixed_matches(f2, t, c, prefix),
    ensures
        f1.c == f2.c,
        f1.prefix@ == f2.prefix@,
        f1.depth == f2.depth,
        f1.is_word == f2.is_word,
        f1.child_count == f2.child_count,
        f1.node_count == f2.node_count,
        f1.word_count == f2.word_count,
        f1.height == f2.height,
{
}

impl PartialEq for FixedNode {
    fn eq(&self, other: &FixedNode) -> (r: bool) {
        self.c == other.c && chars_eq(&self.prefix, &other.prefix) && self.depth == other.depth
            && self.is_word == other.is_word && self.child_count == other.child_count
            && self.node_count == other.node_count && self.word_count == other.word_count
            && self.height == other.height
    }
}

impl vstd::std_specs::cmp::PartialEqSpecImpl for FixedNode {
    open spec fn obeys_eq_spec() -> bool {
        true
    }

    open spec fn eq_spec(&self, other: &FixedNode) -> bool {
        &&& self.c == other.c
        &&& self.prefix@ == other.prefix@
        &&& self.depth == other.depth
        &&& self.is_word == other.is_word
        &&& self.child_count == other.child_count
        &&& self.node_count == other.node_count
        &&& self.word_count == other.word_count
        &&& self.height == other.height
    }
}

impl Eq for FixedNode {

}

} // verus!
