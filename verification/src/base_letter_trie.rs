//! The baseline node model with parent tracking: each node is exclusively
//! owned by its parent's child list, and additionally carries a non-owning
//! back-link — the full character path from the root — that supports upward
//! navigation. The back-link never keeps a parent alive; it is meaningful
//! only while the owning trie exists, and since this trie never removes
//! nodes, that is the node's whole lifetime. Children are kept sorted by
//! character, so the model of a trie is canonical.

use vstd::prelude::*;
use crate::chars::str_chars;
use crate::LetterTrie;
use crate::counter::CharGetCounter;
use crate::fixed_node::{fixed_matches, FixedNode};
use crate::model::{
    char_lt, empty_node, height, height_max_from, lemma_char_total, lemma_child_insert_absent,
    lemma_child_insert_found, lemma_counts_bounds, lemma_insert_wf,
    lemma_lookup_absent, lemma_lookup_found, lemma_lookup_wf, lemma_new_nodes_le, lookup,
    merge_children, new_nodes, node_count, node_count_from, spec_find, spec_insert, spec_merge,
    wf_node, word_count, word_count_from, SpecNode, ROOT_CHAR,
};

verus! {

/// One trie node: its character, its word-end marker, and its exclusively
/// owned children, sorted by character.
pub(crate) struct BaseNode {
    pub(crate) c: char,
    pub(crate) is_word: bool,
    /// Back-link: the full character path from the root to this node. The
    /// root holds the empty path.
    pub(crate) prefix: Vec<char>,
    pub(crate) children: Vec<BaseNode>,
}

/// Back-link coherence: every node's stored path extends its parent's path
/// by the node's own character.
pub(crate) open spec fn bn_prefix_ok(n: BaseNode) -> bool
    decreases n,
{
    forall|k: int|
        0 <= k < n.children@.len() ==> (#[trigger] n.children@[k]).prefix@ == n.prefix@.push(
            n.children@[k].c,
        ) && bn_prefix_ok(n.children@[k])
}

/// The model of a sequence of exec nodes, in the same order.
pub(crate) open spec fn bn_children_view(s: Seq<BaseNode>) -> Seq<(char, SpecNode)>
    decreases s,
{
    if s.len() == 0 {
        Seq::empty()
    } else {
        bn_children_view(s.drop_last()).push((s.last().c, bn_view(s.last())))
    }
}

/// The model of one exec node.
pub(crate) open spec fn bn_view(n: BaseNode) -> SpecNode
    decreases n,
{
    SpecNode { is_word: n.is_word, children: bn_children_view(n.children@) }
}

pub(crate) proof fn lemma_bn_children_view(s: Seq<BaseNode>)
    ensures
        bn_children_view(s).len() == s.len(),
        forall|i: int|
            0 <= i < s.len() ==> bn_children_view(s)[i] == (s[i].c, bn_view(#[trigger] s[i])),
    decreases s.len(),
{
    if s.len() > 0 {
        lemma_bn_children_view(s.drop_last());
        assert forall|i: int|
            0 <= i < s.len() implies bn_children_view(s)[i] == (s[i].c, bn_view(#[trigger] s[i])) by {
            if i < s.len() - 1 {
                assert(s.drop_last()[i] == s[i]);
            }
        }
    }
}

pub(crate) proof fn lemma_bn_children_view_update(s: Seq<BaseNode>, j: int, x: BaseNode)
    requires
        0 <= j < s.len(),
    ensures
        bn_children_view(s.update(j, x)) =~= bn_children_view(s).update(j, (x.c, bn_view(x))),
{
    lemma_bn_children_view(s);
    lemma_bn_children_view(s.update(j, x));
    assert forall|k: int|
        0 <= k < s.len() implies bn_children_view(s.update(j, x))[k] == bn_children_view(s).update(
        j,
        (x.c, bn_view(x)),
    )[k] by {
        assert(bn_children_view(s.update(j, x))[k] == (s.update(j, x)[k].c, bn_view(
            s.update(j, x)[k],
        )));
        assert(bn_children_view(s)[k] == (s[k].c, bn_view(s[k])));
        if k != j {
            assert(s.update(j, x)[k] == s[k]);
        }
    }
}

pub(crate) proof fn lemma_bn_children_view_insert(s: Seq<BaseNode>, j: int, x: BaseNode)
    requires
        0 <= j <= s.len(),
    ensures
        bn_children_view(s.insert(j, x)) =~= bn_children_view(s).insert(j, (x.c, bn_view(x))),
{
    lemma_bn_children_view(s);
    lemma_bn_children_view(s.insert(j, x));
    assert forall|k: int|
        0 <= k < s.len() + 1 implies bn_children_view(s.insert(j, x))[k] == bn_children_view(
        s,
    ).insert(j, (x.c, bn_view(x)))[k] by {
        assert(bn_children_view(s.insert(j, x))[k] == (s.insert(j, x)[k].c, bn_view(
            s.insert(j, x)[k],
        )));
        if k < j {
            assert(s.insert(j, x)[k] == s[k]);
            assert(bn_children_view(s)[k] == (s[k].c, bn_view(s[k])));
        } else if k > j {
            assert(s.insert(j, x)[k] == s[k - 1]);
            assert(bn_children_view(s)[k - 1] == (s[k - 1].c, bn_view(s[k - 1])));
        } else {
            assert(s.insert(j, x)[j] == x);
        }
    }
}

/// A node without children trivially satisfies back-link coherence.
pub(crate) proof fn lemma_bn_prefix_ok_leaf(n: BaseNode)
    requires
        n.children@.len() == 0,
    ensures
        bn_prefix_ok(n),
{
}

/// An exact copy of a character path.
fn copy_chars(w: &Vec<char>) -> (r: Vec<char>)
    ensures
        r@ == w@,
{
    let mut r: Vec<char> = Vec::new();
    let n = w.len();
    let mut i: usize = 0;
    while i < n
        invariant
            0 <= i <= n,
            n == w@.len(),
            r@ == w@.take(i as int),
        decreases n - i,
    {
        r.push(w[i]);
        proof {
            assert(r@ =~= w@.take(i as int + 1));
        }
        i = i + 1;
    }
    proof {
        assert(w@.take(n as int) =~= w@);
    }
    r
}

/// Scan sorted children for the position of character `c`: the first index
/// whose character is not below `c`.
fn child_pos(children: &Vec<BaseNode>, c: char) -> (j: usize)
    ensures
        0 <= j <= children@.len(),
        forall|k: int| 0 <= k < j ==> char_lt((#[trigger] children@[k]).c, c),
        j < children@.len() ==> !char_lt(children@[j as int].c, c),
{
    let n = children.len();
    let mut j: usize = 0;
    while j < n
        invariant
            0 <= j <= n,
            n == children@.len(),
            forall|k: int| 0 <= k < j ==> char_lt((#[trigger] children@[k]).c, c),
        decreases n - j,
    {
        if !((children[j].c as u32) < (c as u32)) {
            return j;
        }
        j = j + 1;
    }
    j
}

/// Insert the suffix of `word` starting at `i` below `node`, creating the
/// missing part of the path and marking the final node as a word end. Every
/// child lookup is recorded on `counter`: a hit when the child existed, a
/// miss when it had to be created.
fn bn_insert_at(node: &mut BaseNode, word: &Vec<char>, i: usize, counter: &mut CharGetCounter)
    requires
        wf_node(bn_view(*old(node))),
        bn_prefix_ok(*old(node)),
        i <= word@.len(),
        old(counter).hit_count + old(counter).miss_count + (word@.len() - i) <= usize::MAX,
    ensures
        bn_view(*final(node)) == spec_insert(bn_view(*old(node)), word@.skip(i as int)),
        final(node).c == old(node).c,
        final(node).prefix == old(node).prefix,
        wf_node(bn_view(*final(node))),
        bn_prefix_ok(*final(node)),
        final(counter).miss_count == old(counter).miss_count + new_nodes(
            bn_view(*old(node)),
            word@.skip(i as int),
        ),
        final(counter).hit_count == old(counter).hit_count + ((word@.len() - i) - new_nodes(
            bn_view(*old(node)),
            word@.skip(i as int),
        )),
    decreases word@.len() - i,
{
    proof {
        lemma_new_nodes_le(bn_view(*old(node)), word@.skip(i as int));
    }
    if i == word.len() {
        node.is_word = true;
        proof {
            assert(word@.skip(i as int) =~= Seq::<char>::empty());
            assert(bn_view(*node) =~= spec_insert(bn_view(*old(node)), word@.skip(i as int)));
            assert(bn_prefix_ok(*node)) by {
                assert(node.children@ == old(node).children@);
                assert(node.prefix@ == old(node).prefix@);
            }
        }
    } else {
        let ghost t0 = bn_view(*old(node));
        let ghost w = word@.skip(i as int);
        let c = word[i];
        proof {
            assert(w[0] == c);
            assert(w.drop_first() =~= word@.skip(i as int + 1));
            lemma_bn_children_view(node.children@);
        }
        let j = child_pos(&node.children, c);
        let ghost s = bn_children_view(node.children@);
        proof {
            assert forall|k: int| 0 <= k < j implies char_lt(#[trigger] s[k].0, c) by {
                assert(s[k] == (node.children@[k].c, bn_view(node.children@[k])));
            }
            if j < node.children@.len() {
                assert(s[j as int] == (node.children@[j as int].c, bn_view(
                    node.children@[j as int],
                )));
            }
            assert(j < s.len() ==> !char_lt(s[j as int].0, c));
        }
        if j < node.children.len() && node.children[j].c == c {
            proof {
                lemma_lookup_found(s, c, j as int);
            }
            counter.record(true);
            let ghost ch0 = node.children@;
            let child = &mut node.children[j];
            bn_insert_at(child, word, i + 1, counter);
            proof {
                assert(node.children@ == ch0.update(j as int, node.children@[j as int]));
                assert(bn_prefix_ok(*node)) by {
                    assert forall|k: int|
                        0 <= k < node.children@.len() implies (#[trigger] node.children@[k]).prefix@
                        == node.prefix@.push(node.children@[k].c) && bn_prefix_ok(
                        node.children@[k],
                    ) by {
                        if k != j {
                            assert(node.children@[k] == ch0[k]);
                        }
                    }
                }
                lemma_bn_children_view_update(ch0, j as int, node.children@[j as int]);
                assert(bn_children_view(node.children@) =~= s.update(
                    j as int,
                    (c, spec_insert(s[j as int].1, w.drop_first())),
                ));
                lemma_child_insert_found(s, c, w.drop_first(), j as int);
                assert(bn_view(*node) =~= spec_insert(t0, w));
                lemma_insert_wf(t0, w);
            }
        } else {
            proof {
                if j < s.len() {
                    lemma_char_total(c, s[j as int].0);
                }
                lemma_lookup_absent(s, c, j as int);
            }
            counter.record(false);
            let mut fp = copy_chars(&node.prefix);
            fp.push(c);
            let fresh = BaseNode { c, is_word: false, prefix: fp, children: Vec::new() };
            proof {
                assert(fresh.children@ =~= Seq::<BaseNode>::empty());
                lemma_bn_view_empty(fresh);
                lemma_bn_prefix_ok_leaf(fresh);
                assert(fresh.prefix@ == node.prefix@.push(c));
            }
            let ghost ch0 = node.children@;
            let ghost fresh_v = fresh;
            node.children.insert(j, fresh);
            proof {
                assert(node.children@ == ch0.insert(j as int, fresh_v));
                ch0.insert_ensures(j as int, fresh_v);
                assert(node.children@.len() == ch0.len() + 1);
                assert(node.children@[j as int] == fresh_v);
                assert(wf_node(empty_node()));
                lemma_bn_children_view_insert(ch0, j as int, fresh_v);
                assert(bn_children_view(node.children@) =~= s.insert(j as int, (c, empty_node())));
            }
            let ghost ch1 = node.children@;
            let child = &mut node.children[j];
            bn_insert_at(child, word, i + 1, counter);
            proof {
                assert(node.children@ == ch1.update(j as int, node.children@[j as int]));
                assert(bn_prefix_ok(*node)) by {
                    assert forall|k: int|
                        0 <= k < node.children@.len() implies (#[trigger] node.children@[k]).prefix@
                        == node.prefix@.push(node.children@[k].c) && bn_prefix_ok(
                        node.children@[k],
                    ) by {
                        if k != j {
                            assert(node.children@[k] == ch1[k]);
                            if k < j {
                                assert(ch1[k] == ch0[k]);
                            } else {
                                assert(ch1[k] == ch0[k - 1]);
                            }
                        }
                    }
                }
                lemma_bn_children_view_update(ch1, j as int, node.children@[j as int]);
                assert(bn_children_view(ch1)[j as int] == (ch1[j as int].c, bn_view(
                    ch1[j as int],
                ))) by {
                    lemma_bn_children_view(ch1);
                }
                assert(bn_children_view(node.children@) =~= s.insert(
                    j as int,
                    (c, spec_insert(empty_node(), w.drop_first())),
                ));
                lemma_child_insert_absent(s, c, w.drop_first(), j as int);
                assert(bn_view(*node) =~= spec_insert(t0, w));
                lemma_insert_wf(t0, w);
            }
        }
    }
}

} // verus!

verus! {

pub(crate) proof fn lemma_bn_view_empty(n: BaseNode)
    requires
        n.is_word == false,
        n.children@ == Seq::<BaseNode>::empty(),
    ensures
        bn_view(n) == empty_node(),
{
    assert(bn_children_view(n.children@) =~= Seq::<(char, SpecNode)>::empty());
    assert(bn_view(n) =~= empty_node());
}

} // verus!

verus! {

/// Node, word and height counts of the subtree rooted at `n`.
fn bn_counts(n: &BaseNode) -> (r: (usize, usize, usize))
    requires
        node_count(bn_view(*n)) <= usize::MAX,
    ensures
        r.0 == node_count(bn_view(*n)),
        r.1 == word_count(bn_view(*n)),
        r.2 == height(bn_view(*n)),
    decreases *n,
{
    let ghost t = bn_view(*n);
    let ghost s = bn_children_view(n.children@);
    proof {
        lemma_bn_children_view(n.children@);
        lemma_counts_bounds(t);
    }
    let mut nc: usize = 1;
    let mut wc: usize = if n.is_word {
        1
    } else {
        0
    };
    let mut hmax: usize = 0;
    let len = n.children.len();
    let mut k: usize = 0;
    while k < len
        invariant
            0 <= k <= len,
            len == n.children@.len(),
            s == bn_children_view(n.children@),
            s.len() == len,
            t == bn_view(*n),
            node_count(t) <= usize::MAX,
            node_count(t) == 1 + node_count_from(s, 0),
            word_count(t) == (if t.is_word { 1nat } else { 0nat }) + word_count_from(s, 0),
            word_count(t) <= node_count(t),
            nc + node_count_from(s, k as int) == node_count(t),
            wc + word_count_from(s, k as int) == word_count(t),
            height_max_from(s, 0) == (if hmax >= height_max_from(s, k as int) {
                hmax as nat
            } else {
                height_max_from(s, k as int)
            }),
            hmax <= height_max_from(s, 0),
            forall|i: int|
                0 <= i < s.len() ==> bn_children_view(n.children@)[i] == ((#[trigger] n.children@[i]).c,
                bn_view(n.children@[i])),
        decreases len - k,
    {
        proof {
            assert(s[k as int] == (n.children@[k as int].c, bn_view(n.children@[k as int])));
            lemma_elem_le_helper(s, k as int);
        }
        let child = &n.children[k];
        let (cn, cw, ch) = bn_counts(child);
        proof {
            lemma_counts_bounds(bn_view(*child));
        }
        nc = nc + cn;
        wc = wc + cw;
        if ch > hmax {
            hmax = ch;
        }
        k = k + 1;
    }
    let h: usize = if len == 0 {
        0
    } else {
        hmax + 1
    };
    (nc, wc, h)
}

/// Helper: the node count summed from `k` dominates the count at `k`.
proof fn lemma_elem_le_helper(s: Seq<(char, SpecNode)>, k: int)
    requires
        0 <= k < s.len(),
    ensures
        node_count(s[k].1) + node_count_from(s, k + 1) == node_count_from(s, k),
        word_count(s[k].1) + word_count_from(s, k + 1) == word_count_from(s, k),
        height_max_from(s, k) == (if height(s[k].1) >= height_max_from(s, k + 1) {
            height(s[k].1)
        } else {
            height_max_from(s, k + 1)
        }),
{
}

/// A letter trie whose nodes own their children directly and keep no
/// reference to their parents.
pub struct BaseLetterTrie {
    root: BaseNode,
}

impl crate::LetterTrie for BaseLetterTrie {
    /// The mathematical trie this structure represents.
    closed spec fn model(&self) -> SpecNode {
        bn_view(self.root)
    }

    /// Well-formedness: sorted children everywhere, a sentinel root
    /// character, and no word ending at the root.
    closed spec fn wf(&self) -> bool {
        &&& wf_node(bn_view(self.root))
        &&& self.root.c == ROOT_CHAR
        &&& self.root.is_word == false
        &&& bn_prefix_ok(self.root)
        &&& self.root.prefix@ == Seq::<char>::empty()
    }

    /// Create an empty trie.
    fn new() -> (t: Self) {
        let root = BaseNode { c: ROOT_CHAR, is_word: false, prefix: Vec::new(), children: Vec::new() };
        proof {
            assert(root.children@ =~= Seq::<BaseNode>::empty());
            lemma_bn_view_empty(root);
        }
        BaseLetterTrie { root }
    }

    /// Insert one non-empty normalized word, recording each child lookup on
    /// `counter`: a hit where the child existed, a miss where it was created.
    fn insert(&mut self, word: &Vec<char>, counter: &mut CharGetCounter) {
        bn_insert_at(&mut self.root, word, 0, counter);
        proof {
            assert(word@.skip(0) =~= word@);
        }
    }

    /// Fold another trie into this one, child by child.
    fn merged(self, other: Self) -> (r: Self) {
        let ghost m1 = bn_view(self.root);
        let ghost m2 = bn_view(other.root);
        let root = bn_merge_node(
            self.root,
            other.root,
            Ghost(height(bn_view(other.root))),
        );
        proof {
            crate::laws::lemma_merge_wf(m1, m2);
        }
        BaseLetterTrie { root }
    }

    /// Snapshot of the whole trie.
    fn to_fixed_node(&self) -> (r: FixedNode) {
        let (nc, wc, h) = bn_counts(&self.root);
        proof {
            lemma_bn_children_view(self.root.children@);
        }
        let r = FixedNode {
            c: self.root.c,
            prefix: Vec::new(),
            depth: 0,
            is_word: self.root.is_word,
            child_count: self.root.children.len(),
            node_count: nc,
            word_count: wc,
            height: h,
        };
        r
    }

    /// Walk the characters of `prefix` from the root and return a snapshot
    /// of the subtree at the end of that path, or `None` if the path leaves
    /// the trie. The empty prefix yields a snapshot of the whole trie.
    fn find(&self, prefix: &str) -> (r: Option<FixedNode>) {
        let chars = str_chars(prefix);
        let n = chars.len();
        let mut cur: &BaseNode = &self.root;
        let mut d: usize = 0;
        proof {
            assert(chars@.skip(0) =~= chars@);
        }
        while d < n
            invariant
                0 <= d <= n,
                n == chars@.len(),
                chars@ == prefix@,
                wf_node(bn_view(*cur)),
                node_count(bn_view(*cur)) <= usize::MAX,
                spec_find(self.model(), prefix@) == spec_find(
                    bn_view(*cur),
                    chars@.skip(d as int),
                ),
                cur.c == (if d == 0 {
                    ROOT_CHAR
                } else {
                    chars@[d as int - 1]
                }),
            decreases n - d,
        {
            let c = chars[d];
            proof {
                lemma_bn_children_view(cur.children@);
            }
            let j = child_pos(&cur.children, c);
            let ghost s = bn_children_view(cur.children@);
            proof {
                assert forall|k: int| 0 <= k < j implies char_lt(#[trigger] s[k].0, c) by {
                    assert(s[k] == (cur.children@[k].c, bn_view(cur.children@[k])));
                }
                if j < cur.children@.len() {
                    assert(s[j as int] == (cur.children@[j as int].c, bn_view(
                        cur.children@[j as int],
                    )));
                }
                assert(chars@.skip(d as int)[0] == c);
                assert(chars@.skip(d as int).drop_first() =~= chars@.skip(d as int + 1));
            }
            if j < cur.children.len() && cur.children[j].c == c {
                proof {
                    lemma_lookup_found(s, c, j as int);
                    lemma_lookup_wf(s, c, bn_view(cur.children@[j as int]));
                }
                cur = &cur.children[j];
                d = d + 1;
            } else {
                proof {
                    if j < s.len() {
                        lemma_char_total(c, s[j as int].0);
                    }
                    lemma_lookup_absent(s, c, j as int);
                }
                return None;
            }
        }
        proof {
            assert(chars@.skip(n as int) =~= Seq::<char>::empty());
        }
        let (nc, wc, h) = bn_counts(cur);
        proof {
            lemma_bn_children_view(cur.children@);
        }
        let r = FixedNode {
            c: cur.c,
            prefix: chars,
            depth: d,
            is_word: cur.is_word,
            child_count: cur.children.len(),
            node_count: nc,
            word_count: wc,
            height: h,
        };
        Some(r)
    }
}

impl BaseLetterTrie {
    /// Build a trie holding exactly the given normalized words, with the
    /// staging chosen by `load_method`. Whatever the method and the word
    /// order, the resulting trie is the canonical trie of the word set.
    pub fn from_words(
        words: &Vec<Vec<char>>,
        is_sorted: bool,
        load_method: &crate::LoadMethod,
        counter: &mut CharGetCounter,
    ) -> (t: Self)
        requires
            crate::model::all_nonempty(words.deep_view()),
            old(counter).hit_count + old(counter).miss_count + crate::model::total_len(
                words.deep_view(),
            ) <= usize::MAX,
        ensures
            t.wf(),
            t.model() == crate::model::trie_of(words.deep_view()),
            final(counter).hit_count + final(counter).miss_count == old(counter).hit_count + old(
                counter,
            ).miss_count + crate::model::total_len(words.deep_view()),
    {
        crate::loaders::build_trie::<BaseLetterTrie>(words, is_sorted, load_method, counter)
    }

    /// Upward navigation through the stored back-links: the path of the
    /// parent of the node that `prefix` reaches, read from that node's own
    /// back-link. `None` for the root (which has no parent) and for paths
    /// that leave the trie. The back-link is proved to agree with the walk:
    /// the parent path is the prefix without its last character.
    pub fn parent_prefix(&self, prefix: &str) -> (r: Option<Vec<char>>)
        requires
            self.wf(),
        ensures
            (match spec_find(self.model(), prefix@) {
                None => r is None,
                Some(sub) => {
                    if prefix@.len() == 0 {
                        r is None
                    } else {
                        r is Some && (r->0)@ == prefix@.drop_last()
                    }
                },
            }),
    {
        let chars = str_chars(prefix);
        let n = chars.len();
        let mut cur: &BaseNode = &self.root;
        let mut d: usize = 0;
        proof {
            assert(chars@.skip(0) =~= chars@);
            assert(chars@.take(0) =~= Seq::<char>::empty());
        }
        while d < n
            invariant
                0 <= d <= n,
                n == chars@.len(),
                chars@ == prefix@,
                wf_node(bn_view(*cur)),
                bn_prefix_ok(*cur),
                cur.prefix@ == chars@.take(d as int),
                spec_find(self.model(), prefix@) == spec_find(
                    bn_view(*cur),
                    chars@.skip(d as int),
                ),
            decreases n - d,
        {
            let c = chars[d];
            proof {
                lemma_bn_children_view(cur.children@);
            }
            let j = child_pos(&cur.children, c);
            let ghost s = bn_children_view(cur.children@);
            proof {
                assert forall|k: int| 0 <= k < j implies char_lt(#[trigger] s[k].0, c) by {
                    assert(s[k] == (cur.children@[k].c, bn_view(cur.children@[k])));
                }
                if j < cur.children@.len() {
                    assert(s[j as int] == (cur.children@[j as int].c, bn_view(
                        cur.children@[j as int],
                    )));
                }
                assert(chars@.skip(d as int)[0] == c);
                assert(chars@.skip(d as int).drop_first() =~= chars@.skip(d as int + 1));
            }
            if j < cur.children.len() && cur.children[j].c == c {
                proof {
                    lemma_lookup_found(s, c, j as int);
                    lemma_lookup_wf(s, c, bn_view(cur.children@[j as int]));
                    assert(cur.children@[j as int].prefix@ == cur.prefix@.push(c));
                    assert(cur.prefix@.push(c) =~= chars@.take(d as int + 1));
                }
                cur = &cur.children[j];
                d = d + 1;
            } else {
                proof {
                    if j < s.len() {
                        lemma_char_total(c, s[j as int].0);
                    }
                    lemma_lookup_absent(s, c, j as int);
                }
                return None;
            }
        }
        proof {
            assert(chars@.skip(n as int) =~= Seq::<char>::empty());
        }
        if d == 0 {
            return None;
        }
        let mut p = copy_chars(&cur.prefix);
        let _last = p.pop();
        proof {
            assert(chars@.take(n as int) =~= chars@);
            assert(p@ =~= prefix@.drop_last());
        }
        Some(p)
    }
}

/// The model of dropping the first node is dropping the first entry.
pub(crate) proof fn lemma_bn_children_view_drop_first(s: Seq<BaseNode>)
    requires
        s.len() > 0,
    ensures
        bn_children_view(s.drop_first()) =~= bn_children_view(s).drop_first(),
{
    lemma_bn_children_view(s);
    lemma_bn_children_view(s.drop_first());
    assert forall|k: int|
        0 <= k < s.len() - 1 implies bn_children_view(s.drop_first())[k] == bn_children_view(
        s,
    ).drop_first()[k] by {
        assert(bn_children_view(s.drop_first())[k] == (s.drop_first()[k].c, bn_view(
            s.drop_first()[k],
        )));
        assert(s.drop_first()[k] == s[k + 1]);
        assert(bn_children_view(s)[k + 1] == (s[k + 1].c, bn_view(s[k + 1])));
    }
}

/// The model of a concatenation is the concatenation of the models.
pub(crate) proof fn lemma_bn_children_view_concat(s1: Seq<BaseNode>, s2: Seq<BaseNode>)
    ensures
        bn_children_view(s1 + s2) =~= bn_children_view(s1) + bn_children_view(s2),
{
    lemma_bn_children_view(s1);
    lemma_bn_children_view(s2);
    lemma_bn_children_view(s1 + s2);
    assert forall|k: int|
        0 <= k < s1.len() + s2.len() implies bn_children_view(s1 + s2)[k] == (bn_children_view(s1)
        + bn_children_view(s2))[k] by {
        assert(bn_children_view(s1 + s2)[k] == ((s1 + s2)[k].c, bn_view((s1 + s2)[k])));
        if k < s1.len() {
            assert((s1 + s2)[k] == s1[k]);
        } else {
            assert((s1 + s2)[k] == s2[k - s1.len()]);
        }
    }
}

/// Merge two sorted child lists, walking both from the front and merging
/// children that share a character.
fn bn_merge_children(
    a: Vec<BaseNode>,
    b: Vec<BaseNode>,
    h: Ghost<nat>,
    pp: Ghost<Seq<char>>,
) -> (r: Vec<BaseNode>)
    requires
        forall|k: int| 0 <= k < b@.len() ==> height(bn_view(#[trigger] b@[k])) < h@,
        forall|k: int|
            0 <= k < a@.len() ==> (#[trigger] a@[k]).prefix@ == pp@.push(a@[k].c) && bn_prefix_ok(
                a@[k],
            ),
        forall|k: int|
            0 <= k < b@.len() ==> (#[trigger] b@[k]).prefix@ == pp@.push(b@[k].c) && bn_prefix_ok(
                b@[k],
            ),
    ensures
        bn_children_view(r@) == merge_children(bn_children_view(a@), bn_children_view(b@)),
        forall|k: int|
            0 <= k < r@.len() ==> (#[trigger] r@[k]).prefix@ == pp@.push(r@[k].c) && bn_prefix_ok(
                r@[k],
            ),
    decreases h@, 0int,
{
    let ghost ga = a@;
    let ghost gb = b@;
    let ghost va = bn_children_view(a@);
    let ghost vb = bn_children_view(b@);
    proof {
        assert forall|k: int| 0 <= k < gb.len() implies height(bn_view(#[trigger] gb[k])) < h@ by {
            assert(gb[k] == b@[k]);
        }
    }
    let mut av = a;
    let mut bv = b;
    let mut r: Vec<BaseNode> = Vec::new();
    let ghost mut ib: int = 0;
    proof {
        assert(bn_children_view(r@) =~= Seq::<(char, SpecNode)>::empty());
        assert(merge_children(va, vb) =~= bn_children_view(r@) + merge_children(
            bn_children_view(av@),
            bn_children_view(bv@),
        ));
    }
    while av.len() > 0 && bv.len() > 0
        invariant
            0 <= ib <= gb.len(),
            bv@ =~= gb.skip(ib),
            forall|k: int| 0 <= k < gb.len() ==> height(bn_view(#[trigger] gb[k])) < h@,
            merge_children(va, vb) == bn_children_view(r@) + merge_children(
                bn_children_view(av@),
                bn_children_view(bv@),
            ),
            forall|k: int|
                0 <= k < av@.len() ==> (#[trigger] av@[k]).prefix@ == pp@.push(av@[k].c)
                    && bn_prefix_ok(av@[k]),
            forall|k: int|
                0 <= k < bv@.len() ==> (#[trigger] bv@[k]).prefix@ == pp@.push(bv@[k].c)
                    && bn_prefix_ok(bv@[k]),
            forall|k: int|
                0 <= k < r@.len() ==> (#[trigger] r@[k]).prefix@ == pp@.push(r@[k].c)
                    && bn_prefix_ok(r@[k]),
        decreases av@.len() + bv@.len(),
    {
        let ghost rv0 = bn_children_view(r@);
        let ghost vav = bn_children_view(av@);
        let ghost vbv = bn_children_view(bv@);
        proof {
            lemma_bn_children_view(av@);
            lemma_bn_children_view(bv@);
        }
        if av[0].c == bv[0].c {
            let ghost av0 = av@;
            let ghost bv0 = bv@;
            let x = av.remove(0);
            let y = bv.remove(0);
            proof {
                assert(y == gb[ib]);
                assert(av@ =~= av0.drop_first());
                assert(bv@ =~= bv0.drop_first());
            }
            proof {
                assert(y == gb[ib]);
                assert(x.prefix@ == pp@.push(x.c));
                assert(y.prefix@ == pp@.push(y.c));
            }
            let m = bn_merge_node(x, y, Ghost(height(bn_view(y))));
            let ghost rv1 = bn_children_view(r@);
            let ghost r0 = r@;
            r.push(m);
            proof {
                ib = ib + 1;
                assert(bv@ =~= gb.skip(ib));
                assert(r@.drop_last() =~= r0);
                assert(r@.last() == m);
                assert(bn_children_view(r@) == rv1.push((m.c, bn_view(m))));
                lemma_bn_children_view_drop_first(av0);
                lemma_bn_children_view_drop_first(bv0);
                assert(vav[0] == (av0[0].c, bn_view(av0[0])));
                assert(vbv[0] == (bv0[0].c, bn_view(bv0[0])));
                assert(merge_children(vav, vbv) =~= seq![(vav[0].0, spec_merge(vav[0].1, vbv[0].1))]
                    + merge_children(vav.drop_first(), vbv.drop_first()));
                assert(bn_children_view(r@) =~= rv1 + seq![(m.c, bn_view(m))]);
                assert(merge_children(va, vb) =~= bn_children_view(r@) + merge_children(
                    bn_children_view(av@),
                    bn_children_view(bv@),
                ));
            }
        } else if (av[0].c as u32) < (bv[0].c as u32) {
            let ghost av0 = av@;
            let x = av.remove(0);
            let ghost rv1 = bn_children_view(r@);
            let ghost r0 = r@;
            r.push(x);
            proof {
                assert(av@ =~= av0.drop_first());
                assert(r@.drop_last() =~= r0);
                assert(r@.last() == x);
                assert(bn_children_view(r@) == rv1.push((x.c, bn_view(x))));
                lemma_bn_children_view_drop_first(av0);
                assert(vav[0] == (av0[0].c, bn_view(av0[0])));
                assert(vbv[0] == (bv@[0].c, bn_view(bv@[0])));
                assert(char_lt(vav[0].0, vbv[0].0));
                assert(merge_children(vav, vbv) =~= seq![vav[0]] + merge_children(
                    vav.drop_first(),
                    vbv,
                ));
                assert(bn_children_view(r@) =~= rv1 + seq![(x.c, bn_view(x))]);
                assert(merge_children(va, vb) =~= bn_children_view(r@) + merge_children(
                    bn_children_view(av@),
                    bn_children_view(bv@),
                ));
            }
        } else {
            let ghost bv0 = bv@;
            let y = bv.remove(0);
            let ghost rv1 = bn_children_view(r@);
            let ghost r0 = r@;
            r.push(y);
            proof {
                ib = ib + 1;
                assert(bv@ =~= gb.skip(ib));
                assert(r@.drop_last() =~= r0);
                assert(r@.last() == y);
                assert(bn_children_view(r@) == rv1.push((y.c, bn_view(y))));
                lemma_bn_children_view_drop_first(bv0);
                assert(vav[0] == (av@[0].c, bn_view(av@[0])));
                assert(vbv[0] == (bv0[0].c, bn_view(bv0[0])));
                lemma_char_total(av@[0].c, bv0[0].c);
                assert(char_lt(vbv[0].0, vav[0].0));
                assert(merge_children(vav, vbv) =~= seq![vbv[0]] + merge_children(
                    vav,
                    vbv.drop_first(),
                ));
                assert(bn_children_view(r@) =~= rv1 + seq![(y.c, bn_view(y))]);
                assert(merge_children(va, vb) =~= bn_children_view(r@) + merge_children(
                    bn_children_view(av@),
                    bn_children_view(bv@),
                ));
            }
        }
    }
    let ghost rv = bn_children_view(r@);
    let ghost vav = bn_children_view(av@);
    let ghost vbv = bn_children_view(bv@);
    if bv.len() == 0 {
        proof {
            lemma_bn_children_view(bv@);
            assert(vbv =~= Seq::<(char, SpecNode)>::empty());
            assert(merge_children(vav, vbv) == vav);
        }
        let ghost r0 = r@;
        let ghost rem = av@;
        r.append(&mut av);
        proof {
            assert(r@ == r0 + rem);
            lemma_bn_children_view_concat(r0, rem);
            assert(bn_children_view(r@) =~= rv + vav);
            assert(bn_children_view(r@) =~= merge_children(va, vb));
            assert forall|k: int|
                0 <= k < r@.len() implies (#[trigger] r@[k]).prefix@ == pp@.push(r@[k].c)
                && bn_prefix_ok(r@[k]) by {
                if k < r0.len() {
                    assert(r@[k] == r0[k]);
                } else {
                    assert(r@[k] == rem[k - r0.len()]);
                }
            }
        }
        r
    } else {
        proof {
            lemma_bn_children_view(av@);
            assert(vav =~= Seq::<(char, SpecNode)>::empty());
            assert(merge_children(vav, vbv) == vbv);
        }
        let ghost r0 = r@;
        let ghost rem = bv@;
        r.append(&mut bv);
        proof {
            assert(r@ == r0 + rem);
            lemma_bn_children_view_concat(r0, rem);
            assert(bn_children_view(r@) =~= rv + vbv);
            assert(bn_children_view(r@) =~= merge_children(va, vb));
            assert forall|k: int|
                0 <= k < r@.len() implies (#[trigger] r@[k]).prefix@ == pp@.push(r@[k].c)
                && bn_prefix_ok(r@[k]) by {
                if k < r0.len() {
                    assert(r@[k] == r0[k]);
                } else {
                    assert(r@[k] == rem[k - r0.len()]);
                }
            }
        }
        r
    }
}

/// Merge one node into another: word ends combine, children merge.
fn bn_merge_node(a: BaseNode, b: BaseNode, hb: Ghost<nat>) -> (r: BaseNode)
    requires
        hb@ == height(bn_view(b)),
        bn_prefix_ok(a),
        bn_prefix_ok(b),
        a.prefix@ == b.prefix@,
    ensures
        bn_view(r) == spec_merge(bn_view(a), bn_view(b)),
        r.c == a.c,
        r.is_word == (a.is_word || b.is_word),
        r.prefix == a.prefix,
        bn_prefix_ok(r),
    decreases hb@, 1int,
{
    let ghost vbn = bn_view(b);
    let ghost ga = a;
    let ghost gbn = b;
    proof {
        lemma_bn_children_view(b.children@);
        assert forall|k: int|
            0 <= k < b.children@.len() implies height(
            bn_view(#[trigger] b.children@[k]),
        ) < hb@ by {
            crate::model::lemma_height_elem(vbn.children, k, 0);
            assert(vbn.children[k] == (b.children@[k].c, bn_view(b.children@[k])));
        }
    }
    let BaseNode { c, is_word, prefix, children } = a;
    let BaseNode { c: _, is_word: b_word, prefix: _, children: b_children } = b;
    let merged = bn_merge_children(children, b_children, Ghost(hb@), Ghost(prefix@));
    let r = BaseNode { c, is_word: is_word || b_word, prefix, children: merged };
    proof {
        assert(bn_view(r) =~= spec_merge(bn_view(ga), bn_view(gbn)));
        assert(bn_prefix_ok(r));
    }
    r
}

} // verus!
