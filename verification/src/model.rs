//! The mathematical model of a trie.
//!
//! A trie is modeled by [`SpecNode`]: a word-end marker plus an association
//! sequence from characters to child nodes, kept strictly sorted by
//! character. Sortedness makes the model canonical: two tries hold the same
//! words exactly when their models are equal, whatever order the words were
//! inserted in and whichever node-ownership model built them.

use vstd::prelude::*;

verus! {

/// The root sentinel character; trimmed words never contain it.
pub const ROOT_CHAR: char = ' ';

/// Canonical model of one trie node: the subtree below one character.
#[verifier::ext_equal]
pub struct SpecNode {
    /// True if some inserted word terminates exactly here.
    pub is_word: bool,
    /// Children keyed by character, strictly sorted by character code.
    pub children: Seq<(char, SpecNode)>,
}

/// Strict character order, by code point.
pub open spec fn char_lt(a: char, b: char) -> bool {
    (a as u32) < (b as u32)
}

/// The model of an empty trie: no word ends here, no children.
pub open spec fn empty_node() -> SpecNode {
    SpecNode { is_word: false, children: Seq::empty() }
}

/// An association sequence is sorted when its characters strictly increase,
/// which also makes them pairwise distinct.
pub open spec fn sorted_children(s: Seq<(char, SpecNode)>) -> bool {
    forall|i: int, j: int| 0 <= i < j < s.len() ==> char_lt(s[i].0, s[j].0)
}

/// A node is well formed when its children are strictly sorted by character
/// (hence have pairwise distinct characters) and are themselves well formed.
pub open spec fn wf_node(t: SpecNode) -> bool
    decreases t,
{
    &&& sorted_children(t.children)
    &&& (forall|i: int| 0 <= i < t.children.len() ==> wf_node(#[trigger] t.children[i].1))
}

/// The child of `t` for character `c`, if present, looked up in the
/// association sequence `s`.
pub open spec fn lookup(s: Seq<(char, SpecNode)>, c: char) -> Option<SpecNode>
    decreases s.len(),
{
    if s.len() == 0 {
        None
    } else if s[0].0 == c {
        Some(s[0].1)
    } else {
        lookup(s.drop_first(), c)
    }
}

/// Insert word `w` below node `t`: walk or create the child path for the
/// characters of `w` and mark the final node as a word end.
pub open spec fn spec_insert(t: SpecNode, w: Seq<char>) -> SpecNode
    decreases w.len(), 0int,
{
    if w.len() == 0 {
        SpecNode { is_word: true, children: t.children }
    } else {
        SpecNode { is_word: t.is_word, children: child_insert(t.children, w[0], w.drop_first()) }
    }
}

/// Insert the suffix `w` into the child for `c` of the association sequence
/// `s`, creating that child at its sorted position if it is absent.
pub open spec fn child_insert(s: Seq<(char, SpecNode)>, c: char, w: Seq<char>) -> Seq<
    (char, SpecNode),
>
    decreases w.len(), s.len() + 1,
{
    if s.len() == 0 {
        seq![(c, spec_insert(empty_node(), w))]
    } else if s[0].0 == c {
        seq![(c, spec_insert(s[0].1, w))] + s.drop_first()
    } else if char_lt(c, s[0].0) {
        seq![(c, spec_insert(empty_node(), w))] + s
    } else {
        seq![s[0]] + child_insert(s.drop_first(), c, w)
    }
}

/// The existing child of `s` for `c`, or an empty node where it is absent:
/// the subtree that inserting below `c` continues from.
pub open spec fn child_sub(s: Seq<(char, SpecNode)>, c: char) -> SpecNode {
    match lookup(s, c) {
        Some(sub) => sub,
        None => empty_node(),
    }
}

/// The trie holding exactly the words of `words`, built by inserting them in
/// order into an empty trie.
pub open spec fn trie_of(words: Seq<Seq<char>>) -> SpecNode
    decreases words.len(),
{
    if words.len() == 0 {
        empty_node()
    } else {
        spec_insert(trie_of(words.drop_last()), words.last())
    }
}

/// Total number of nodes in the subtree rooted at `t`, including `t` itself.
pub open spec fn node_count(t: SpecNode) -> nat
    decreases t, 0int, 0int,
{
    1 + node_count_from(t.children, 0)
}

/// Sum of the node counts of the children of `s` from index `i` on.
pub open spec fn node_count_from(s: Seq<(char, SpecNode)>, i: int) -> nat
    decreases s, 1int, s.len() - i,
{
    if 0 <= i < s.len() {
        node_count(s[i].1) + node_count_from(s, i + 1)
    } else {
        0
    }
}

/// Number of word-end markers in the subtree rooted at `t`.
pub open spec fn word_count(t: SpecNode) -> nat
    decreases t, 0int, 0int,
{
    (if t.is_word {
        1nat
    } else {
        0nat
    }) + word_count_from(t.children, 0)
}

/// Sum of the word counts of the children of `s` from index `i` on.
pub open spec fn word_count_from(s: Seq<(char, SpecNode)>, i: int) -> nat
    decreases s, 1int, s.len() - i,
{
    if 0 <= i < s.len() {
        word_count(s[i].1) + word_count_from(s, i + 1)
    } else {
        0
    }
}

/// Length of the longest downward chain below `t`: 0 for a leaf, otherwise
/// one more than the greatest child height.
pub open spec fn height(t: SpecNode) -> nat
    decreases t, 0int, 0int,
{
    if t.children.len() == 0 {
        0
    } else {
        1 + height_max_from(t.children, 0)
    }
}

/// Greatest height among the children of `s` from index `i` on.
pub open spec fn height_max_from(s: Seq<(char, SpecNode)>, i: int) -> nat
    decreases s, 1int, s.len() - i,
{
    if 0 <= i < s.len() {
        let h = height(s[i].1);
        let rest = height_max_from(s, i + 1);
        if h >= rest {
            h
        } else {
            rest
        }
    } else {
        0
    }
}

/// The subtree of `t` reached by walking the characters of `prefix`, if the
/// whole path is present. The empty prefix reaches `t` itself.
pub open spec fn spec_find(t: SpecNode, prefix: Seq<char>) -> Option<SpecNode>
    decreases prefix.len(),
{
    if prefix.len() == 0 {
        Some(t)
    } else {
        match lookup(t.children, prefix[0]) {
            None => None,
            Some(sub) => spec_find(sub, prefix.drop_first()),
        }
    }
}

/// Number of nodes that inserting `w` below `t` creates: zero once the whole
/// word path exists, otherwise every character from the first absent child on
/// creates one node.
pub open spec fn new_nodes(t: SpecNode, w: Seq<char>) -> nat
    decreases w.len(),
{
    if w.len() == 0 {
        0
    } else {
        match lookup(t.children, w[0]) {
            Some(sub) => new_nodes(sub, w.drop_first()),
            None => w.len(),
        }
    }
}

/// Merge two tries: a word ends in the result where it ends in either
/// argument, and children for the same character are merged recursively.
pub open spec fn spec_merge(a: SpecNode, b: SpecNode) -> SpecNode
    decreases b, 0int, 0int,
{
    SpecNode { is_word: a.is_word || b.is_word, children: merge_children(a.children, b.children) }
}

/// Merge two association sequences that are both sorted by character.
pub open spec fn merge_children(
    sa: Seq<(char, SpecNode)>,
    sb: Seq<(char, SpecNode)>,
) -> Seq<(char, SpecNode)>
    decreases sb, 1int, sa.len(),
{
    if sb.len() == 0 {
        sa
    } else if sa.len() == 0 {
        sb
    } else if sa[0].0 == sb[0].0 {
        seq![(sa[0].0, spec_merge(sa[0].1, sb[0].1))] + merge_children(
            sa.drop_first(),
            sb.drop_first(),
        )
    } else if char_lt(sa[0].0, sb[0].0) {
        seq![sa[0]] + merge_children(sa.drop_first(), sb)
    } else {
        seq![sb[0]] + merge_children(sa, sb.drop_first())
    }
}

/// Sum of the lengths of a sequence of words.
pub open spec fn total_len(words: Seq<Seq<char>>) -> nat
    decreases words.len(),
{
    if words.len() == 0 {
        0
    } else {
        total_len(words.drop_last()) + words.last().len()
    }
}

/// All words in `words` are non-empty, as the normalized word source
/// guarantees.
pub open spec fn all_nonempty(words: Seq<Seq<char>>) -> bool {
    forall|i: int| 0 <= i < words.len() ==> (#[trigger] words[i]).len() > 0
}

/// The sorted position for character `c` in `s`: the index of the first entry
/// whose character is not below `c`, or `s.len()` if every entry is below.
pub open spec fn find_pos(s: Seq<(char, SpecNode)>, c: char) -> int
    decreases s.len(),
{
    if s.len() == 0 {
        0
    } else if char_lt(s[0].0, c) {
        1 + find_pos(s.drop_first(), c)
    } else {
        0
    }
}

/// The character order is total: the cast to u32 is injective, so two
/// characters with equal codes are equal.
pub proof fn lemma_char_total(a: char, b: char)
    ensures
        char_lt(a, b) || char_lt(b, a) || a == b,
{
    vstd::utf8::char_u32_cast(a, a as u32);
    vstd::utf8::char_u32_cast(b, b as u32);
}

pub proof fn lemma_sorted_drop_first(s: Seq<(char, SpecNode)>)
    requires
        sorted_children(s),
        s.len() > 0,
    ensures
        sorted_children(s.drop_first()),
{
    assert forall|i: int, j: int|
        0 <= i < j < s.drop_first().len() implies char_lt(
        s.drop_first()[i].0,
        s.drop_first()[j].0,
    ) by {
        assert(s.drop_first()[i] == s[i + 1]);
        assert(s.drop_first()[j] == s[j + 1]);
    }
}

pub proof fn lemma_find_pos(s: Seq<(char, SpecNode)>, c: char)
    requires
        sorted_children(s),
    ensures
        0 <= find_pos(s, c) <= s.len(),
        forall|k: int| 0 <= k < find_pos(s, c) ==> char_lt(#[trigger] s[k].0, c),
        find_pos(s, c) < s.len() ==> !char_lt(s[find_pos(s, c)].0, c),
    decreases s.len(),
{
    if s.len() > 0 && char_lt(s[0].0, c) {
        lemma_sorted_drop_first(s);
        lemma_find_pos(s.drop_first(), c);
        assert forall|k: int| 0 <= k < find_pos(s, c) implies char_lt(#[trigger] s[k].0, c) by {
            if k > 0 {
                assert(s.drop_first()[k - 1] == s[k]);
            }
        }
        if find_pos(s, c) < s.len() {
            assert(s.drop_first()[find_pos(s, c) - 1] == s[find_pos(s, c)]);
        }
    }
}

pub proof fn lemma_lookup_found(s: Seq<(char, SpecNode)>, c: char, j: int)
    requires
        sorted_children(s),
        0 <= j < s.len(),
        s[j].0 == c,
    ensures
        lookup(s, c) == Some(s[j].1),
    decreases j,
{
    if j > 0 {
        assert(char_lt(s[0].0, s[j].0));
        lemma_sorted_drop_first(s);
        assert(s.drop_first()[j - 1] == s[j]);
        lemma_lookup_found(s.drop_first(), c, j - 1);
    }
}

pub proof fn lemma_lookup_absent(s: Seq<(char, SpecNode)>, c: char, j: int)
    requires
        sorted_children(s),
        0 <= j <= s.len(),
        forall|k: int| 0 <= k < j ==> char_lt(#[trigger] s[k].0, c),
        j < s.len() ==> char_lt(c, s[j].0),
    ensures
        lookup(s, c) == None::<SpecNode>,
    decreases s.len(),
{
    if s.len() > 0 {
        if j == 0 {
            lemma_sorted_drop_first(s);
            if s.drop_first().len() > 0 {
                assert(s.drop_first()[0] == s[1]);
                assert(char_lt(s[0].0, s[1].0));
                assert(char_lt(c, s[1].0));
            }
            lemma_lookup_absent(s.drop_first(), c, 0);
        } else {
            lemma_sorted_drop_first(s);
            assert forall|k: int|
                0 <= k < j - 1 implies char_lt(#[trigger] s.drop_first()[k].0, c) by {
                assert(s.drop_first()[k] == s[k + 1]);
            }
            if j - 1 < s.drop_first().len() {
                assert(s.drop_first()[j - 1] == s[j]);
            }
            lemma_lookup_absent(s.drop_first(), c, j - 1);
        }
    }
}

pub proof fn lemma_child_insert_found(s: Seq<(char, SpecNode)>, c: char, w: Seq<char>, j: int)
    requires
        sorted_children(s),
        0 <= j < s.len(),
        s[j].0 == c,
    ensures
        child_insert(s, c, w) =~= s.update(j, (c, spec_insert(s[j].1, w))),
    decreases j,
{
    if j == 0 {
    } else {
        assert(char_lt(s[0].0, s[j].0));
        lemma_sorted_drop_first(s);
        assert(s.drop_first()[j - 1] == s[j]);
        lemma_child_insert_found(s.drop_first(), c, w, j - 1);
        assert(child_insert(s, c, w) =~= seq![s[0]] + s.drop_first().update(
            j - 1,
            (c, spec_insert(s[j].1, w)),
        ));
    }
}

pub proof fn lemma_child_insert_absent(s: Seq<(char, SpecNode)>, c: char, w: Seq<char>, j: int)
    requires
        sorted_children(s),
        0 <= j <= s.len(),
        forall|k: int| 0 <= k < j ==> char_lt(#[trigger] s[k].0, c),
        j < s.len() ==> char_lt(c, s[j].0),
    ensures
        child_insert(s, c, w) =~= s.insert(j, (c, spec_insert(empty_node(), w))),
    decreases s.len(),
{
    if s.len() == 0 {
        assert(child_insert(s, c, w) =~= s.insert(0, (c, spec_insert(empty_node(), w))));
    } else if j == 0 {
        assert(char_lt(c, s[0].0));
        assert(child_insert(s, c, w) =~= s.insert(0, (c, spec_insert(empty_node(), w))));
    } else {
        assert(char_lt(s[0].0, c));
        lemma_sorted_drop_first(s);
        assert forall|k: int| 0 <= k < j - 1 implies char_lt(#[trigger] s.drop_first()[k].0, c) by {
            assert(s.drop_first()[k] == s[k + 1]);
        }
        if j - 1 < s.drop_first().len() {
            assert(s.drop_first()[j - 1] == s[j]);
        }
        lemma_child_insert_absent(s.drop_first(), c, w, j - 1);
        assert(child_insert(s, c, w) =~= seq![s[0]] + s.drop_first().insert(
            j - 1,
            (c, spec_insert(empty_node(), w)),
        ));
    }
}

/// Inserting a word keeps a node well formed.
pub proof fn lemma_insert_wf(t: SpecNode, w: Seq<char>)
    requires
        wf_node(t),
    ensures
        wf_node(spec_insert(t, w)),
    decreases w.len(),
{
    if w.len() > 0 {
        let s = t.children;
        let c = w[0];
        lemma_find_pos(s, c);
        let j = find_pos(s, c);
        if j < s.len() && s[j].0 == c {
            lemma_child_insert_found(s, c, w.drop_first(), j);
            lemma_insert_wf(s[j].1, w.drop_first());
            let s2 = s.update(j, (c, spec_insert(s[j].1, w.drop_first())));
            assert forall|i: int, k: int| 0 <= i < k < s2.len() implies char_lt(
                s2[i].0,
                s2[k].0,
            ) by {
                assert(s2[i].0 == s[i].0 && s2[k].0 == s[k].0);
            }
        } else {
            if j < s.len() {
                lemma_char_total(c, s[j].0);
            }
            assert(j < s.len() ==> char_lt(c, s[j].0));
            lemma_child_insert_absent(s, c, w.drop_first(), j);
            assert(wf_node(empty_node()));
            lemma_insert_wf(empty_node(), w.drop_first());
            let x = (c, spec_insert(empty_node(), w.drop_first()));
            let s2 = s.insert(j, x);
            assert forall|i: int, k: int| 0 <= i < k < s2.len() implies char_lt(
                s2[i].0,
                s2[k].0,
            ) by {
                if i < j && k < j {
                } else if i < j && k == j {
                } else if i < j && k > j {
                    assert(s2[i] == s[i] && s2[k] == s[k - 1]);
                } else if i == j {
                    assert(s2[k] == s[k - 1]);
                    if k - 1 > j {
                        assert(char_lt(s[j].0, s[k - 1].0));
                    }
                    lemma_char_total(c, s[k - 1].0);
                    assert(!char_lt(s[k - 1].0, c));
                } else {
                    assert(s2[i] == s[i - 1] && s2[k] == s[k - 1]);
                }
            }
            assert forall|i: int| 0 <= i < s2.len() implies wf_node(#[trigger] s2[i].1) by {
                if i < j {
                    assert(s2[i] == s[i]);
                } else if i == j {
                } else {
                    assert(s2[i] == s[i - 1]);
                }
            }
        }
    }
}

/// A word path built below an empty node has one node per character.
pub proof fn lemma_chain_count(w: Seq<char>)
    ensures
        node_count(spec_insert(empty_node(), w)) == 1 + w.len(),
    decreases w.len(),
{
    if w.len() > 0 {
        lemma_chain_count(w.drop_first());
        let s2 = child_insert(Seq::empty(), w[0], w.drop_first());
        assert(s2 =~= seq![(w[0], spec_insert(empty_node(), w.drop_first()))]);
        assert(node_count_from(s2, 1) == 0);
    }
}

pub proof fn lemma_node_count_from_update(s: Seq<(char, SpecNode)>, j: int, x: (char, SpecNode), i: int)
    requires
        0 <= j < s.len(),
        0 <= i <= s.len(),
    ensures
        i <= j ==> node_count_from(s.update(j, x), i) == node_count_from(s, i) + node_count(x.1)
            - node_count(s[j].1),
        i > j ==> node_count_from(s.update(j, x), i) == node_count_from(s, i),
    decreases s.len() - i,
{
    if i < s.len() {
        lemma_node_count_from_update(s, j, x, i + 1);
    }
}

pub proof fn lemma_node_count_from_insert_shift(
    s: Seq<(char, SpecNode)>,
    j: int,
    x: (char, SpecNode),
    i: int,
)
    requires
        0 <= j <= i <= s.len(),
    ensures
        node_count_from(s.insert(j, x), i + 1) == node_count_from(s, i),
    decreases s.len() - i,
{
    let s2 = s.insert(j, x);
    if i < s.len() {
        assert(s2[i + 1] == s[i]);
        lemma_node_count_from_insert_shift(s, j, x, i + 1);
    }
}

pub proof fn lemma_node_count_from_insert(
    s: Seq<(char, SpecNode)>,
    j: int,
    x: (char, SpecNode),
    i: int,
)
    requires
        0 <= i <= j <= s.len(),
    ensures
        node_count_from(s.insert(j, x), i) == node_count_from(s, i) + node_count(x.1),
    decreases j - i,
{
    let s2 = s.insert(j, x);
    if i == j {
        assert(s2[j] == x);
        lemma_node_count_from_insert_shift(s, j, x, j);
    } else {
        assert(s2[i] == s[i]);
        lemma_node_count_from_insert(s, j, x, i + 1);
    }
}

/// Inserting a word grows the node count by exactly the nodes it creates.
pub proof fn lemma_insert_node_count(t: SpecNode, w: Seq<char>)
    requires
        wf_node(t),
    ensures
        node_count(spec_insert(t, w)) == node_count(t) + new_nodes(t, w),
    decreases w.len(),
{
    if w.len() > 0 {
        let s = t.children;
        let c = w[0];
        lemma_find_pos(s, c);
        let j = find_pos(s, c);
        if j < s.len() && s[j].0 == c {
            lemma_lookup_found(s, c, j);
            lemma_child_insert_found(s, c, w.drop_first(), j);
            lemma_insert_node_count(s[j].1, w.drop_first());
            lemma_node_count_from_update(
                s,
                j,
                (c, spec_insert(s[j].1, w.drop_first())),
                0,
            );
        } else {
            if j < s.len() {
                lemma_char_total(c, s[j].0);
            }
            lemma_lookup_absent(s, c, j);
            lemma_child_insert_absent(s, c, w.drop_first(), j);
            lemma_chain_count(w.drop_first());
            lemma_node_count_from_insert(
                s,
                j,
                (c, spec_insert(empty_node(), w.drop_first())),
                0,
            );
        }
    }
}

/// The word count never exceeds the node count, and a non-leaf's longest
/// chain is shorter than its node count.
pub proof fn lemma_counts_bounds(t: SpecNode)
    ensures
        word_count(t) <= node_count(t),
        height(t) < node_count(t),
    decreases t, 0int, 0int,
{
    lemma_counts_bounds_from(t.children, 0);
}

pub proof fn lemma_counts_bounds_from(s: Seq<(char, SpecNode)>, i: int)
    requires
        0 <= i <= s.len(),
    ensures
        word_count_from(s, i) <= node_count_from(s, i),
        i < s.len() ==> height_max_from(s, i) < node_count_from(s, i),
    decreases s, 1int, s.len() - i,
{
    if i < s.len() {
        lemma_counts_bounds(s[i].1);
        lemma_counts_bounds_from(s, i + 1);
        assert(node_count_from(s, i) == node_count(s[i].1) + node_count_from(s, i + 1));
        assert(height(s[i].1) < node_count(s[i].1));
        if i + 1 < s.len() {
            assert(height_max_from(s, i + 1) < node_count_from(s, i + 1));
        } else {
            assert(height_max_from(s, i + 1) == 0);
            assert(node_count(s[i].1) >= 1);
        }
    }
}

/// Dropping the first child shifts the summation index by one.
pub proof fn lemma_node_count_from_shift(s: Seq<(char, SpecNode)>, i: int)
    requires
        s.len() > 0,
        0 <= i <= s.len() - 1,
    ensures
        node_count_from(s.drop_first(), i) == node_count_from(s, i + 1),
    decreases s.len() - i,
{
    if i < s.len() - 1 {
        assert(s.drop_first()[i] == s[i + 1]);
        lemma_node_count_from_shift(s, i + 1);
    }
}

/// Each child's node count is no more than the summed node count.
pub proof fn lemma_elem_le_from(s: Seq<(char, SpecNode)>, j: int, i: int)
    requires
        0 <= i <= j < s.len(),
    ensures
        node_count(s[j].1) <= node_count_from(s, i),
    decreases j - i,
{
    if i < j {
        lemma_elem_le_from(s, j, i + 1);
    }
}

/// A subtree found under a well-formed node is well formed and no larger.
pub proof fn lemma_lookup_wf(s: Seq<(char, SpecNode)>, c: char, sub: SpecNode)
    requires
        sorted_children(s),
        forall|i: int| 0 <= i < s.len() ==> wf_node(#[trigger] s[i].1),
        lookup(s, c) == Some(sub),
    ensures
        wf_node(sub),
        node_count(sub) <= node_count_from(s, 0),
    decreases s.len(),
{
    if s.len() > 0 {
        if s[0].0 == c {
            lemma_elem_le_from(s, 0, 0);
        } else {
            lemma_sorted_drop_first(s);
            assert forall|i: int|
                0 <= i < s.drop_first().len() implies wf_node(#[trigger] s.drop_first()[i].1) by {
                assert(s.drop_first()[i] == s[i + 1]);
            }
            lemma_lookup_wf(s.drop_first(), c, sub);
            lemma_node_count_from_shift(s, 0);
        }
    }
}

/// The subtree that `spec_find` reaches under a well-formed node is well
/// formed and no larger than the whole.
pub proof fn lemma_find_wf(t: SpecNode, p: Seq<char>, sub: SpecNode)
    requires
        wf_node(t),
        spec_find(t, p) == Some(sub),
    ensures
        wf_node(sub),
        node_count(sub) <= node_count(t),
    decreases p.len(),
{
    if p.len() > 0 {
        let c = p[0];
        match lookup(t.children, c) {
            None => {},
            Some(ch) => {
                lemma_lookup_wf(t.children, c, ch);
                lemma_find_wf(ch, p.drop_first(), sub);
            },
        }
    }
}

/// Each child's height is no more than the running maximum.
pub proof fn lemma_height_elem(s: Seq<(char, SpecNode)>, k: int, i: int)
    requires
        0 <= i <= k < s.len(),
    ensures
        height(s[k].1) <= height_max_from(s, i),
    decreases k - i,
{
    if i < k {
        lemma_height_elem(s, k, i + 1);
    }
}

/// Inserting a word never creates more nodes than the word has characters.
pub proof fn lemma_new_nodes_le(t: SpecNode, w: Seq<char>)
    ensures
        new_nodes(t, w) <= w.len(),
    decreases w.len(),
{
    if w.len() > 0 {
        match lookup(t.children, w[0]) {
            Some(sub) => lemma_new_nodes_le(sub, w.drop_first()),
            None => {},
        }
    }
}

} // verus!
