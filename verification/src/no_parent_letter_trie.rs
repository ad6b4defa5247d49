//! The no-parent node model: each node exclusively owns its children and
//! holds no reference back to its parent. Children are kept sorted by
//! character, so the model of a trie is canonical.

use vstd::prelude::*;
use crate::chars::str_chars;
use crate::LetterTrie;
use crate::counter::CharGetCounter;
use crate::fixed_node::{fixed_matches, FixedNode};
use crate::model::{
    char_lt, empty_node, height, height_max_from, lemma_char_total, lemma_child_insert_absent,
    lemma_child_insert_found, lemma_counts_bounds, lemma_insert_wf,
    lemma_lookup_absent, lemma_lookup_found, lemma_lookup_wf, lemma_new_nodes_le, lookup,
    merge_children, new_nodes, node_count, node_count_from, spec_find, spec_insert, spec_merge,
    wf_node, word_count, word_count_from, SpecNode, ROOT_CHAR,
};

verus! {

/// One trie node: its character, its word-end marker, and its exclusively
/// owned children, sorted by character.
pub(crate) struct NpNode {
    pub(crate) c: char,
    pub(crate) is_word: bool,
    pub(crate) children: Vec<NpNode>,
}

/// The model of a sequence of exec nodes, in the same order.
pub(crate) open spec fn np_children_view(s: Seq<NpNode>) -> Seq<(char, SpecNode)>
    decreases s,
{
    if s.len() == 0 {
        Seq::empty()
    } else {
        np_children_view(s.drop_last()).push((s.last().c, np_view(s.last())))
    }
}

/// The model of one exec node.
pub(crate) open spec fn np_view(n: NpNode) -> SpecNode
    decreases n,
{
    SpecNode { is_word: n.is_word, children: np_children_view(n.children@) }
}

pub(crate) proof fn lemma_np_children_view(s: Seq<NpNode>)
    ensures
        np_children_view(s).len() == s.len(),
        forall|i: int|
            0 <= i < s.len() ==> np_children_view(s)[i] == (s[i].c, np_view(#[trigger] s[i])),
    decreases s.len(),
{
    if s.len() > 0 {
        lemma_np_children_view(s.drop_last());
        assert forall|i: int|
            0 <= i < s.len() implies np_children_view(s)[i] == (s[i].c, np_view(#[trigger] s[i])) by {
            if i < s.len() - 1 {
                assert(s.drop_last()[i] == s[i]);
            }
        }
    }
}

pub(crate) proof fn lemma_np_children_view_update(s: Seq<NpNode>, j: int, x: NpNode)
    requires
        0 <= j < s.len(),
    ensures
        np_children_view(s.update(j, x)) =~= np_children_view(s).update(j, (x.c, np_view(x))),
{
    lemma_np_children_view(s);
    lemma_np_children_view(s.update(j, x));
    assert forall|k: int|
        0 <= k < s.len() implies np_children_view(s.update(j, x))[k] == np_children_view(s).update(
        j,
        (x.c, np_view(x)),
    )[k] by {
        assert(np_children_view(s.update(j, x))[k] == (s.update(j, x)[k].c, np_view(
            s.update(j, x)[k],
        )));
        assert(np_children_view(s)[k] == (s[k].c, np_view(s[k])));
        if k != j {
            assert(s.update(j, x)[k] == s[k]);
        }
    }
}

pub(crate) proof fn lemma_np_children_view_insert(s: Seq<NpNode>, j: int, x: NpNode)
    requires
        0 <= j <= s.len(),
    ensures
        np_children_view(s.insert(j, x)) =~= np_children_view(s).insert(j, (x.c, np_view(x))),
{
    lemma_np_children_view(s);
    lemma_np_children_view(s.insert(j, x));
    assert forall|k: int|
        0 <= k < s.len() + 1 implies np_children_view(s.insert(j, x))[k] == np_children_view(
        s,
    ).insert(j, (x.c, np_view(x)))[k] by {
        assert(np_children_view(s.insert(j, x))[k] == (s.insert(j, x)[k].c, np_view(
            s.insert(j, x)[k],
        )));
        if k < j {
            assert(s.insert(j, x)[k] == s[k]);
            assert(np_children_view(s)[k] == (s[k].c, np_view(s[k])));
        } else if k > j {
            assert(s.insert(j, x)[k] == s[k - 1]);
            assert(np_children_view(s)[k - 1] == (s[k - 1].c, np_view(s[k - 1])));
        } else {
            assert(s.insert(j, x)[j] == x);
        }
    }
}

/// Scan sorted children for the position of character `c`: the first index
/// whose character is not below `c`.
fn child_pos(children: &Vec<NpNode>, c: char) -> (j: usize)
    ensures
        0 <= j <= children@.len(),
        forall|k: int| 0 <= k < j ==> char_lt((#[trigger] children@[k]).c, c),
        j < children@.len() ==> !char_lt(children@[j as int].c, c),
{
    let n = children.len();
    let mut j: usize = 0;
    while j < n
        invariant
            0 <= j <= n,
            n == children@.len(),
            forall|k: int| 0 <= k < j ==> char_lt((#[trigger] children@[k]).c, c),
        decreases n - j,
    {
        if !((children[j].c as u32) < (c as u32)) {
            return j;
        }
        j = j + 1;
    }
    j
}

/// Insert the suffix of `word` starting at `i` below `node`, creating the
/// missing part of the path and marking the final node as a word end. Every
/// child lookup is recorded on `counter`: a hit when the child existed, a
/// miss when it had to be created.
fn np_insert_at(node: &mut NpNode, word: &Vec<char>, i: usize, counter: &mut CharGetCounter)
    requires
        wf_node(np_view(*old(node))),
        i <= word@.len(),
        old(counter).hit_count + old(counter).miss_count + (word@.len() - i) <= usize::MAX,
    ensures
        np_view(*final(node)) == spec_insert(np_view(*old(node)), word@.skip(i as int)),
        final(node).c == old(node).c,
        wf_node(np_view(*final(node))),
        final(counter).miss_count == old(counter).miss_count + new_nodes(
            np_view(*old(node)),
            word@.skip(i as int),
        ),
        final(counter).hit_count == old(counter).hit_count + ((word@.len() - i) - new_nodes(
            np_view(*old(node)),
            word@.skip(i as int),
        )),
    decreases word@.len() - i,
{
    proof {
        lemma_new_nodes_le(np_view(*old(node)), word@.skip(i as int));
    }
    if i == word.len() {
        node.is_word = true;
        proof {
            assert(word@.skip(i as int) =~= Seq::<char>::empty());
            assert(np_view(*node) =~= spec_insert(np_view(*old(node)), word@.skip(i as int)));
        }
    } else {
        let ghost t0 = np_view(*old(node));
        let ghost w = word@.skip(i as int);
        let c = word[i];
        proof {
            assert(w[0] == c);
            assert(w.drop_first() =~= word@.skip(i as int + 1));
            lemma_np_children_view(node.children@);
        }
        let j = child_pos(&node.children, c);
        let ghost s = np_children_view(node.children@);
        proof {
            assert forall|k: int| 0 <= k < j implies char_lt(#[trigger] s[k].0, c) by {
                assert(s[k] == (node.children@[k].c, np_view(node.children@[k])));
            }
            if j < node.children@.len() {
                assert(s[j as int] == (node.children@[j as int].c, np_view(
                    node.children@[j as int],
                )));
            }
            assert(j < s.len() ==> !char_lt(s[j as int].0, c));
        }
        if j < node.children.len() && node.children[j].c == c {
            proof {
                lemma_lookup_found(s, c, j as int);
            }
            counter.record(true);
            let ghost ch0 = node.children@;
            let child = &mut node.children[j];
            np_insert_at(child, word, i + 1, counter);
            proof {
                assert(node.children@ == ch0.update(j as int, node.children@[j as int]));
                lemma_np_children_view_update(ch0, j as int, node.children@[j as int]);
                assert(np_children_view(node.children@) =~= s.update(
                    j as int,
                    (c, spec_insert(s[j as int].1, w.drop_first())),
                ));
                lemma_child_insert_found(s, c, w.drop_first(), j as int);
                assert(np_view(*node) =~= spec_insert(t0, w));
                lemma_insert_wf(t0, w);
            }
        } else {
            proof {
                if j < s.len() {
                    lemma_char_total(c, s[j as int].0);
                }
                lemma_lookup_absent(s, c, j as int);
            }
            counter.record(false);
            let fresh = NpNode { c, is_word: false, children: Vec::new() };
            proof {
                assert(fresh.children@ =~= Seq::<NpNode>::empty());
                lemma_np_view_empty(fresh);
            }
            let ghost ch0 = node.children@;
            let ghost fresh_v = fresh;
            node.children.insert(j, fresh);
            proof {
                assert(node.children@ == ch0.insert(j as int, fresh_v));
                ch0.insert_ensures(j as int, fresh_v);
                assert(node.children@.len() == ch0.len() + 1);
                assert(node.children@[j as int] == fresh_v);
                assert(wf_node(empty_node()));
                lemma_np_children_view_insert(ch0, j as int, fresh_v);
                assert(np_children_view(node.children@) =~= s.insert(j as int, (c, empty_node())));
            }
            let ghost ch1 = node.children@;
            let child = &mut node.children[j];
            np_insert_at(child, word, i + 1, counter);
            proof {
                assert(node.children@ == ch1.update(j as int, node.children@[j as int]));
                lemma_np_children_view_update(ch1, j as int, node.children@[j as int]);
                assert(np_children_view(ch1)[j as int] == (ch1[j as int].c, np_view(
                    ch1[j as int],
                ))) by {
                    lemma_np_children_view(ch1);
                }
                assert(np_children_view(node.children@) =~= s.insert(
                    j as int,
                    (c, spec_insert(empty_node(), w.drop_first())),
                ));
                lemma_child_insert_absent(s, c, w.drop_first(), j as int);
                assert(np_view(*node) =~= spec_insert(t0, w));
                lemma_insert_wf(t0, w);
            }
        }
    }
}

} // verus!

verus! {

pub(crate) proof fn lemma_np_view_empty(n: NpNode)
    requires
        n.is_word == false,
        n.children@ == Seq::<NpNode>::empty(),
    ensures
        np_view(n) == empty_node(),
{
    assert(np_children_view(n.children@) =~= Seq::<(char, SpecNode)>::empty());
    assert(np_view(n) =~= empty_node());
}

} // verus!

verus! {

/// Node, word and height counts of the subtree rooted at `n`.
fn np_counts(n: &NpNode) -> (r: (usize, usize, usize))
    requires
        node_count(np_view(*n)) <= usize::MAX,
    ensures
        r.0 == node_count(np_view(*n)),
        r.1 == word_count(np_view(*n)),
        r.2 == height(np_view(*n)),
    decreases *n,
{
    let ghost t = np_view(*n);
    let ghost s = np_children_view(n.children@);
    proof {
        lemma_np_children_view(n.children@);
        lemma_counts_bounds(t);
    }
    let mut nc: usize = 1;
    let mut wc: usize = if n.is_word {
        1
    } else {
        0
    };
    let mut hmax: usize = 0;
    let len = n.children.len();
    let mut k: usize = 0;
    while k < len
        invariant
            0 <= k <= len,
            len == n.children@.len(),
            s == np_children_view(n.children@),
            s.len() == len,
            t == np_view(*n),
            node_count(t) <= usize::MAX,
            node_count(t) == 1 + node_count_from(s, 0),
            word_count(t) == (if t.is_word { 1nat } else { 0nat }) + word_count_from(s, 0),
            word_count(t) <= node_count(t),
            nc + node_count_from(s, k as int) == node_count(t),
            wc + word_count_from(s, k as int) == word_count(t),
            height_max_from(s, 0) == (if hmax >= height_max_from(s, k as int) {
                hmax as nat
            } else {
                height_max_from(s, k as int)
            }),
            hmax <= height_max_from(s, 0),
            forall|i: int|
                0 <= i < s.len() ==> np_children_view(n.children@)[i] == ((#[trigger] n.children@[i]).c,
                np_view(n.children@[i])),
        decreases len - k,
    {
        proof {
            assert(s[k as int] == (n.children@[k as int].c, np_view(n.children@[k as int])));
            lemma_elem_le_helper(s, k as int);
        }
        let child = &n.children[k];
        let (cn, cw, ch) = np_counts(child);
        proof {
            lemma_counts_bounds(np_view(*child));
        }
        nc = nc + cn;
        wc = wc + cw;
        if ch > hmax {
            hmax = ch;
        }
        k = k + 1;
    }
    let h: usize = if len == 0 {
        0
    } else {
        hmax + 1
    };
    (nc, wc, h)
}

/// Helper: the node count summed from `k` dominates the count at `k`.
proof fn lemma_elem_le_helper(s: Seq<(char, SpecNode)>, k: int)
    requires
        0 <= k < s.len(),
    ensures
        node_count(s[k].1) + node_count_from(s, k + 1) == node_count_from(s, k),
        word_count(s[k].1) + word_count_from(s, k + 1) == word_count_from(s, k),
        height_max_from(s, k) == (if height(s[k].1) >= height_max_from(s, k + 1) {
            height(s[k].1)
        } else {
            height_max_from(s, k + 1)
        }),
{
}

/// A letter trie whose nodes own their children directly and keep no
/// reference to their parents.
pub struct NoParentLetterTrie {
    root: NpNode,
}

impl crate::LetterTrie for NoParentLetterTrie {
    /// The mathematical trie this structure represents.
    closed spec fn model(&self) -> SpecNode {
        np_view(self.root)
    }

    /// Well-formedness: sorted children everywhere, a sentinel root
    /// character, and no word ending at the root.
    closed spec fn wf(&self) -> bool {
        &&& wf_node(np_view(self.root))
        &&& self.root.c == ROOT_CHAR
        &&& self.root.is_word == false
    }

    /// Create an empty trie.
    fn new() -> (t: Self) {
        let root = NpNode { c: ROOT_CHAR, is_word: false, children: Vec::new() };
        proof {
            assert(root.children@ =~= Seq::<NpNode>::empty());
            lemma_np_view_empty(root);
        }
        NoParentLetterTrie { root }
    }

    /// Insert one non-empty normalized word, recording each child lookup on
    /// `counter`: a hit where the child existed, a miss where it was created.
    fn insert(&mut self, word: &Vec<char>, counter: &mut CharGetCounter) {
        np_insert_at(&mut self.root, word, 0, counter);
        proof {
            assert(word@.skip(0) =~= word@);
        }
    }

    /// Fold another trie into this one, child by child.
    fn merged(self, other: Self) -> (r: Self) {
        let ghost m1 = np_view(self.root);
        let ghost m2 = np_view(other.root);
        let root = np_merge_node(
            self.root,
            other.root,
            Ghost(height(np_view(other.root))),
        );
        proof {
            crate::laws::lemma_merge_wf(m1, m2);
        }
        NoParentLetterTrie { root }
    }

    /// Snapshot of the whole trie.
    fn to_fixed_node(&self) -> (r: FixedNode) {
        let (nc, wc, h) = np_counts(&self.root);
        proof {
            lemma_np_children_view(self.root.children@);
        }
        let r = FixedNode {
            c: self.root.c,
            prefix: Vec::new(),
            depth: 0,
            is_word: self.root.is_word,
            child_count: self.root.children.len(),
            node_count: nc,
            word_count: wc,
            height: h,
        };
        r
    }

    /// Walk the characters of `prefix` from the root and return a snapshot
    /// of the subtree at the end of that path, or `None` if the path leaves
    /// the trie. The empty prefix yields a snapshot of the whole trie.
    fn find(&self, prefix: &str) -> (r: Option<FixedNode>) {
        let chars = str_chars(prefix);
        let n = chars.len();
        let mut cur: &NpNode = &self.root;
        let mut d: usize = 0;
        proof {
            assert(chars@.skip(0) =~= chars@);
        }
        while d < n
            invariant
                0 <= d <= n,
                n == chars@.len(),
                chars@ == prefix@,
                wf_node(np_view(*cur)),
                node_count(np_view(*cur)) <= usize::MAX,
                spec_find(self.model(), prefix@) == spec_find(
                    np_view(*cur),
                    chars@.skip(d as int),
                ),
                cur.c == (if d == 0 {
                    ROOT_CHAR
                } else {
                    chars@[d as int - 1]
                }),
            decreases n - d,
        {
            let c = chars[d];
            proof {
                lemma_np_children_view(cur.children@);
            }
            let j = child_pos(&cur.children, c);
            let ghost s = np_children_view(cur.children@);
            proof {
                assert forall|k: int| 0 <= k < j implies char_lt(#[trigger] s[k].0, c) by {
                    assert(s[k] == (cur.children@[k].c, np_view(cur.children@[k])));
                }
                if j < cur.children@.len() {
                    assert(s[j as int] == (cur.children@[j as int].c, np_view(
                        cur.children@[j as int],
                    )));
                }
                assert(chars@.skip(d as int)[0] == c);
                assert(chars@.skip(d as int).drop_first() =~= chars@.skip(d as int + 1));
            }
            if j < cur.children.len() && cur.children[j].c == c {
                proof {
                    lemma_lookup_found(s, c, j as int);
                    lemma_lookup_wf(s, c, np_view(cur.children@[j as int]));
                }
                cur = &cur.children[j];
                d = d + 1;
            } else {
                proof {
                    if j < s.len() {
                        lemma_char_total(c, s[j as int].0);
                    }
                    lemma_lookup_absent(s, c, j as int);
                }
                return None;
            }
        }
        proof {
            assert(chars@.skip(n as int) =~= Seq::<char>::empty());
        }
        let (nc, wc, h) = np_counts(cur);
        proof {
            lemma_np_children_view(cur.children@);
        }
        let r = FixedNode {
            c: cur.c,
            prefix: chars,
            depth: d,
            is_word: cur.is_word,
            child_count: cur.children.len(),
            node_count: nc,
            word_count: wc,
            height: h,
        };
        Some(r)
    }
}

impl NoParentLetterTrie {
    /// Build a trie holding exactly the given normalized words, with the
    /// staging chosen by `load_method`. Whatever the method and the word
    /// order, the resulting trie is the canonical trie of the word set.
    pub fn from_words(
        words: &Vec<Vec<char>>,
        is_sorted: bool,
        load_method: &crate::LoadMethod,
        counter: &mut CharGetCounter,
    ) -> (t: Self)
        requires
            crate::model::all_nonempty(words.deep_view()),
            old(counter).hit_count + old(counter).miss_count + crate::model::total_len(
                words.deep_view(),
            ) <= usize::MAX,
        ensures
            t.wf(),
            t.model() == crate::model::trie_of(words.deep_view()),
            final(counter).hit_count + final(counter).miss_count == old(counter).hit_count + old(
                counter,
            ).miss_count + crate::model::total_len(words.deep_view()),
    {
        crate::loaders::build_trie::<NoParentLetterTrie>(words, is_sorted, load_method, counter)
    }
}

/// The model of dropping the first node is dropping the first entry.
pub(crate) proof fn lemma_np_children_view_drop_first(s: Seq<NpNode>)
    requires
        s.len() > 0,
    ensures
        np_children_view(s.drop_first()) =~= np_children_view(s).drop_first(),
{
    lemma_np_children_view(s);
    lemma_np_children_view(s.drop_first());
    assert forall|k: int|
        0 <= k < s.len() - 1 implies np_children_view(s.drop_first())[k] == np_children_view(
        s,
    ).drop_first()[k] by {
        assert(np_children_view(s.drop_first())[k] == (s.drop_first()[k].c, np_view(
            s.drop_first()[k],
        )));
        assert(s.drop_first()[k] == s[k + 1]);
        assert(np_children_view(s)[k + 1] == (s[k + 1].c, np_view(s[k + 1])));
    }
}

/// The model of a concatenation is the concatenation of the models.
pub(crate) proof fn lemma_np_children_view_concat(s1: Seq<NpNode>, s2: Seq<NpNode>)
    ensures
        np_children_view(s1 + s2) =~= np_children_view(s1) + np_children_view(s2),
{
    lemma_np_children_view(s1);
    lemma_np_children_view(s2);
    lemma_np_children_view(s1 + s2);
    assert forall|k: int|
        0 <= k < s1.len() + s2.len() implies np_children_view(s1 + s2)[k] == (np_children_view(s1)
        + np_children_view(s2))[k] by {
        assert(np_children_view(s1 + s2)[k] == ((s1 + s2)[k].c, np_view((s1 + s2)[k])));
        if k < s1.len() {
            assert((s1 + s2)[k] == s1[k]);
        } else {
            assert((s1 + s2)[k] == s2[k - s1.len()]);
        }
    }
}

/// Merge two sorted child lists, walking both from the front and merging
/// children that share a character.
fn np_merge_children(a: Vec<NpNode>, b: Vec<NpNode>, h: Ghost<nat>) -> (r: Vec<NpNode>)
    requires
        forall|k: int| 0 <= k < b@.len() ==> height(np_view(#[trigger] b@[k])) < h@,
    ensures
        np_children_view(r@) == merge_children(np_children_view(a@), np_children_view(b@)),
    decreases h@, 0int,
{
    let ghost ga = a@;
    let ghost gb = b@;
    let ghost va = np_children_view(a@);
    let ghost vb = np_children_view(b@);
    proof {
        assert forall|k: int| 0 <= k < gb.len() implies height(np_view(#[trigger] gb[k])) < h@ by {
            assert(gb[k] == b@[k]);
        }
    }
    let mut av = a;
    let mut bv = b;
    let mut r: Vec<NpNode> = Vec::new();
    let ghost mut ib: int = 0;
    proof {
        assert(np_children_view(r@) =~= Seq::<(char, SpecNode)>::empty());
        assert(merge_children(va, vb) =~= np_children_view(r@) + merge_children(
            np_children_view(av@),
            np_children_view(bv@),
        ));
    }
    while av.len() > 0 && bv.len() > 0
        invariant
            0 <= ib <= gb.len(),
            bv@ =~= gb.skip(ib),
            forall|k: int| 0 <= k < gb.len() ==> height(np_view(#[trigger] gb[k])) < h@,
            merge_children(va, vb) == np_children_view(r@) + merge_children(
                np_children_view(av@),
                np_children_view(bv@),
            ),
        decreases av@.len() + bv@.len(),
    {
        let ghost rv0 = np_children_view(r@);
        let ghost vav = np_children_view(av@);
        let ghost vbv = np_children_view(bv@);
        proof {
            lemma_np_children_view(av@);
            lemma_np_children_view(bv@);
        }
        if av[0].c == bv[0].c {
            let ghost av0 = av@;
            let ghost bv0 = bv@;
            let x = av.remove(0);
            let y = bv.remove(0);
            proof {
                assert(y == gb[ib]);
                assert(av@ =~= av0.drop_first());
                assert(bv@ =~= bv0.drop_first());
            }
            proof {
                assert(y == gb[ib]);
            }
            let m = np_merge_node(x, y, Ghost(height(np_view(y))));
            let ghost rv1 = np_children_view(r@);
            let ghost r0 = r@;
            r.push(m);
            proof {
                ib = ib + 1;
                assert(bv@ =~= gb.skip(ib));
                assert(r@.drop_last() =~= r0);
                assert(r@.last() == m);
                assert(np_children_view(r@) == rv1.push((m.c, np_view(m))));
                lemma_np_children_view_drop_first(av0);
                lemma_np_children_view_drop_first(bv0);
                assert(vav[0] == (av0[0].c, np_view(av0[0])));
                assert(vbv[0] == (bv0[0].c, np_view(bv0[0])));
                assert(merge_children(vav, vbv) =~= seq![(vav[0].0, spec_merge(vav[0].1, vbv[0].1))]
                    + merge_children(vav.drop_first(), vbv.drop_first()));
                assert(np_children_view(r@) =~= rv1 + seq![(m.c, np_view(m))]);
                assert(merge_children(va, vb) =~= np_children_view(r@) + merge_children(
                    np_children_view(av@),
                    np_children_view(bv@),
                ));
            }
        } else if (av[0].c as u32) < (bv[0].c as u32) {
            let ghost av0 = av@;
            let x = av.remove(0);
            let ghost rv1 = np_children_view(r@);
            let ghost r0 = r@;
            r.push(x);
            proof {
                assert(av@ =~= av0.drop_first());
                assert(r@.drop_last() =~= r0);
                assert(r@.last() == x);
                assert(np_children_view(r@) == rv1.push((x.c, np_view(x))));
                lemma_np_children_view_drop_first(av0);
                assert(vav[0] == (av0[0].c, np_view(av0[0])));
                assert(vbv[0] == (bv@[0].c, np_view(bv@[0])));
                assert(char_lt(vav[0].0, vbv[0].0));
                assert(merge_children(vav, vbv) =~= seq![vav[0]] + merge_children(
                    vav.drop_first(),
                    vbv,
                ));
                assert(np_children_view(r@) =~= rv1 + seq![(x.c, np_view(x))]);
                assert(merge_children(va, vb) =~= np_children_view(r@) + merge_children(
                    np_children_view(av@),
                    np_children_view(bv@),
                ));
            }
        } else {
            let ghost bv0 = bv@;
            let y = bv.remove(0);
            let ghost rv1 = np_children_view(r@);
            let ghost r0 = r@;
            r.push(y);
            proof {
                ib = ib + 1;
                assert(bv@ =~= gb.skip(ib));
                assert(r@.drop_last() =~= r0);
                assert(r@.last() == y);
                assert(np_children_view(r@) == rv1.push((y.c, np_view(y))));
                lemma_np_children_view_drop_first(bv0);
                assert(vav[0] == (av@[0].c, np_view(av@[0])));
                assert(vbv[0] == (bv0[0].c, np_view(bv0[0])));
                lemma_char_total(av@[0].c, bv0[0].c);
                assert(char_lt(vbv[0].0, vav[0].0));
                assert(merge_children(vav, vbv) =~= seq![vbv[0]] + merge_children(
                    vav,
                    vbv.drop_first(),
                ));
                assert(np_children_view(r@) =~= rv1 + seq![(y.c, np_view(y))]);
                assert(merge_children(va, vb) =~= np_children_view(r@) + merge_children(
                    np_children_view(av@),
                    np_children_view(bv@),
                ));
            }
        }
    }
    let ghost rv = np_children_view(r@);
    let ghost vav = np_children_view(av@);
    let ghost vbv = np_children_view(bv@);
    if bv.len() == 0 {
        proof {
            lemma_np_children_view(bv@);
            assert(vbv =~= Seq::<(char, SpecNode)>::empty());
            assert(merge_children(vav, vbv) == vav);
        }
        let ghost r0 = r@;
        let ghost rem = av@;
        r.append(&mut av);
        proof {
            assert(r@ == r0 + rem);
            lemma_np_children_view_concat(r0, rem);
            assert(np_children_view(r@) =~= rv + vav);
            assert(np_children_view(r@) =~= merge_children(va, vb));
        }
        r
    } else {
        proof {
            lemma_np_children_view(av@);
            assert(vav =~= Seq::<(char, SpecNode)>::empty());
            assert(merge_children(vav, vbv) == vbv);
        }
        let ghost r0 = r@;
        let ghost rem = bv@;
        r.append(&mut bv);
        proof {
            assert(r@ == r0 + rem);
            lemma_np_children_view_concat(r0, rem);
            assert(np_children_view(r@) =~= rv + vbv);
            assert(np_children_view(r@) =~= merge_children(va, vb));
        }
        r
    }
}

/// Merge one node into another: word ends combine, children merge.
fn np_merge_node(a: NpNode, b: NpNode, hb: Ghost<nat>) -> (r: NpNode)
    requires
        hb@ == height(np_view(b)),
    ensures
        np_view(r) == spec_merge(np_view(a), np_view(b)),
        r.c == a.c,
        r.is_word == (a.is_word || b.is_word),
    decreases hb@, 1int,
{
    let ghost vbn = np_view(b);
    proof {
        lemma_np_children_view(b.children@);
        assert forall|k: int|
            0 <= k < b.children@.len() implies height(
            np_view(#[trigger] b.children@[k]),
        ) < hb@ by {
            crate::model::lemma_height_elem(vbn.children, k, 0);
            assert(vbn.children[k] == (b.children@[k].c, np_view(b.children@[k])));
        }
    }
    let NpNode { c, is_word, children } = a;
    let NpNode { c: _, is_word: b_word, children: b_children } = b;
    let merged = np_merge_children(children, b_children, Ghost(hb@));
    let r = NpNode { c, is_word: is_word || b_word, children: merged };
    proof {
        assert(np_view(r) =~= spec_merge(np_view(a), np_view(b)));
    }
    r
}

} // verus!
