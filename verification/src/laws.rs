//! Order laws of the trie model: inserting the same words in any order, or
//! twice, yields the same canonical trie. These laws are what make all load
//! strategies and both node models interchangeable.

use vstd::prelude::*;
use vstd::seq_lib::group_seq_properties;
use crate::model::{
    char_lt, child_insert, child_sub, empty_node, find_pos, lemma_char_total,
    lemma_child_insert_absent, lemma_child_insert_found, lemma_find_pos, lemma_insert_wf,
    lemma_lookup_found, lemma_lookup_wf, lemma_sorted_drop_first, lookup, merge_children,
    sorted_children, spec_insert, spec_merge, trie_of, wf_node, SpecNode,
};

verus! {

/// The lookup that merging two sorted association sequences produces.
pub open spec fn merged_lookup(
    sa: Seq<(char, SpecNode)>,
    sb: Seq<(char, SpecNode)>,
    d: char,
) -> Option<SpecNode> {
    match (lookup(sa, d), lookup(sb, d)) {
        (Some(a), Some(b)) => Some(spec_merge(a, b)),
        (Some(a), None) => Some(a),
        (None, Some(b)) => Some(b),
        (None, None) => None,
    }
}

} // verus!

verus! {

/// A character is absent from an association sequence exactly when no entry
/// carries it.
pub(crate) proof fn lemma_lookup_none_iff(s: Seq<(char, SpecNode)>, c: char)
    ensures
        (lookup(s, c) is None) <==> (forall|k: int| 0 <= k < s.len() ==> (#[trigger] s[k]).0 != c),
    decreases s.len(),
{
    if s.len() > 0 {
        lemma_lookup_none_iff(s.drop_first(), c);
        if s[0].0 != c {
            assert forall|k: int| 0 <= k < s.drop_first().len() implies s.drop_first()[k]
                == s[k + 1] by {}
            if lookup(s, c) is None {
                assert forall|k: int| 0 <= k < s.len() implies (#[trigger] s[k]).0 != c by {
                    if k > 0 {
                        assert(s.drop_first()[k - 1] == s[k]);
                    }
                }
            } else {
                let k0 = choose|k: int|
                    0 <= k < s.drop_first().len() && (#[trigger] s.drop_first()[k]).0 == c;
                assert(s[k0 + 1].0 == c);
            }
        }
    }
}

/// A present character has an index carrying it and its subtree.
pub(crate) proof fn lemma_lookup_index(s: Seq<(char, SpecNode)>, c: char)
    requires
        lookup(s, c) is Some,
    ensures
        exists|j: int|
            0 <= j < s.len() && (#[trigger] s[j]).0 == c && s[j].1 == lookup(s, c)->0,
    decreases s.len(),
{
    if s.len() > 0 {
        if s[0].0 == c {
            assert(0 <= 0 < s.len() && s[0].0 == c && s[0].1 == lookup(s, c)->0);
        } else {
            lemma_lookup_index(s.drop_first(), c);
            let j = choose|j: int|
                0 <= j < s.drop_first().len() && (#[trigger] s.drop_first()[j]).0 == c
                    && s.drop_first()[j].1 == lookup(s.drop_first(), c)->0;
            assert(s[j + 1] == s.drop_first()[j]);
            assert(0 <= j + 1 < s.len() && s[j + 1].0 == c && s[j + 1].1 == lookup(s, c)->0);
        }
    }
}

/// Two sorted association sequences with the same lookups are equal.
pub(crate) proof fn lemma_children_ext(s1: Seq<(char, SpecNode)>, s2: Seq<(char, SpecNode)>)
    requires
        sorted_children(s1),
        sorted_children(s2),
        forall|c: char| #[trigger] lookup(s1, c) == lookup(s2, c),
    ensures
        s1 =~= s2,
    decreases s1.len() + s2.len(),
{
    if s1.len() == 0 && s2.len() == 0 {
        assert(s1 =~= s2);
    } else if s1.len() == 0 {
        lemma_lookup_found(s2, s2[0].0, 0);
        assert(lookup(s1, s2[0].0) is None);
    } else if s2.len() == 0 {
        lemma_lookup_found(s1, s1[0].0, 0);
        assert(lookup(s2, s1[0].0) is None);
    } else {
        let c1 = s1[0].0;
        let c2 = s2[0].0;
        lemma_lookup_found(s1, c1, 0);
        lemma_lookup_found(s2, c2, 0);
        if c1 != c2 {
            lemma_char_total(c1, c2);
            lemma_lookup_index(s2, c1);
            let j1 = choose|j: int|
                0 <= j < s2.len() && (#[trigger] s2[j]).0 == c1 && s2[j].1 == lookup(s2, c1)->0;
            lemma_lookup_index(s1, c2);
            let j2 = choose|j: int|
                0 <= j < s1.len() && (#[trigger] s1[j]).0 == c2 && s1[j].1 == lookup(s1, c2)->0;
            if j1 > 0 {
                assert(char_lt(s2[0].0, s2[j1].0));
            }
            if j2 > 0 {
                assert(char_lt(s1[0].0, s1[j2].0));
            }
            assert(false);
        }
        assert(s1[0].1 == s2[0].1);
        lemma_sorted_drop_first(s1);
        lemma_sorted_drop_first(s2);
        assert forall|c: char| #[trigger] lookup(s1.drop_first(), c) == lookup(
            s2.drop_first(),
            c,
        ) by {
            if c == c1 {
                lemma_lookup_none_iff(s1.drop_first(), c);
                lemma_lookup_none_iff(s2.drop_first(), c);
                assert forall|k: int|
                    0 <= k < s1.drop_first().len() implies (#[trigger] s1.drop_first()[k]).0
                    != c by {
                    assert(s1.drop_first()[k] == s1[k + 1]);
                    assert(char_lt(s1[0].0, s1[k + 1].0));
                }
                assert forall|k: int|
                    0 <= k < s2.drop_first().len() implies (#[trigger] s2.drop_first()[k]).0
                    != c by {
                    assert(s2.drop_first()[k] == s2[k + 1]);
                    assert(char_lt(s2[0].0, s2[k + 1].0));
                }
            } else {
                assert(lookup(s1, c) == lookup(s1.drop_first(), c));
                assert(lookup(s2, c) == lookup(s2.drop_first(), c));
            }
        }
        lemma_children_ext(s1.drop_first(), s2.drop_first());
        assert(s1.len() == s2.len());
        assert forall|k: int| 0 <= k < s1.len() implies s1[k] == s2[k] by {
            if k > 0 {
                assert(s1.drop_first()[k - 1] == s1[k]);
                assert(s2.drop_first()[k - 1] == s2[k]);
            }
        }
        assert(s1 =~= s2);
    }
}

/// What `child_insert` does to lookups: the inserted character now maps to
/// the inserted subtree, every other character is untouched.
pub(crate) proof fn lemma_child_insert_lookup(s: Seq<(char, SpecNode)>, c: char, w: Seq<char>)
    requires
        sorted_children(s),
    ensures
        lookup(child_insert(s, c, w), c) == Some(spec_insert(child_sub(s, c), w)),
        forall|d: char| d != c ==> #[trigger] lookup(child_insert(s, c, w), d) == lookup(s, d),
{
    lemma_find_pos(s, c);
    let j = find_pos(s, c);
    let s2 = child_insert(s, c, w);
    if j < s.len() && s[j].0 == c {
        lemma_lookup_found(s, c, j);
        lemma_child_insert_found(s, c, w, j);
        assert(sorted_children(s2)) by {
            assert forall|i: int, k: int| 0 <= i < k < s2.len() implies char_lt(
                s2[i].0,
                s2[k].0,
            ) by {
                assert(s2[i].0 == s[i].0 && s2[k].0 == s[k].0);
            }
        }
        lemma_lookup_found(s2, c, j);
        assert forall|d: char| d != c implies #[trigger] lookup(s2, d) == lookup(s, d) by {
            if lookup(s, d) is Some {
                lemma_lookup_index(s, d);
                let jd = choose|k: int|
                    0 <= k < s.len() && (#[trigger] s[k]).0 == d && s[k].1 == lookup(s, d)->0;
                assert(s2[jd] == s[jd]);
                lemma_lookup_found(s2, d, jd);
            } else {
                lemma_lookup_none_iff(s, d);
                lemma_lookup_none_iff(s2, d);
                assert forall|k: int| 0 <= k < s2.len() implies (#[trigger] s2[k]).0 != d by {
                    assert(s2[k].0 == s[k].0);
                }
            }
        }
    } else {
        if j < s.len() {
            lemma_char_total(c, s[j].0);
        }
        lemma_lookup_none_iff(s, c);
        assert forall|k: int| 0 <= k < s.len() implies (#[trigger] s[k]).0 != c by {
            if k < j {
            } else {
                if k > j {
                    assert(char_lt(s[j].0, s[k].0));
                }
                lemma_char_total(c, s[k].0);
            }
        }
        assert(lookup(s, c) is None);
        lemma_child_insert_absent(s, c, w, j);
        s.insert_ensures(j, (c, spec_insert(empty_node(), w)));
        assert(sorted_children(s2)) by {
            assert forall|i: int, k: int| 0 <= i < k < s2.len() implies char_lt(
                s2[i].0,
                s2[k].0,
            ) by {
                if i < j && k < j {
                } else if i < j && k == j {
                } else if i < j && k > j {
                    assert(s2[i] == s[i] && s2[k] == s[k - 1]);
                } else if i == j {
                    assert(s2[k] == s[k - 1]);
                    if k - 1 > j {
                        assert(char_lt(s[j].0, s[k - 1].0));
                    }
                    lemma_char_total(c, s[j].0);
                    assert(char_lt(c, s[j].0));
                    assert(!char_lt(s[k - 1].0, c));
                } else {
                    assert(s2[i] == s[i - 1] && s2[k] == s[k - 1]);
                }
            }
        }
        lemma_lookup_found(s2, c, j);
        assert forall|d: char| d != c implies #[trigger] lookup(s2, d) == lookup(s, d) by {
            if lookup(s, d) is Some {
                lemma_lookup_index(s, d);
                let jd = choose|k: int|
                    0 <= k < s.len() && (#[trigger] s[k]).0 == d && s[k].1 == lookup(s, d)->0;
                if jd < j {
                    assert(s2[jd] == s[jd]);
                    lemma_lookup_found(s2, d, jd);
                } else {
                    assert(s2[jd + 1] == s[jd]);
                    lemma_lookup_found(s2, d, jd + 1);
                }
            } else {
                lemma_lookup_none_iff(s, d);
                lemma_lookup_none_iff(s2, d);
                assert forall|k: int| 0 <= k < s2.len() implies (#[trigger] s2[k]).0 != d by {
                    if k < j {
                        assert(s2[k] == s[k]);
                    } else if k == j {
                    } else {
                        assert(s2[k] == s[k - 1]);
                    }
                }
            }
        }
    }
}

/// LAW: inserting two words commutes — the trie does not depend on the
/// order in which words arrive.
pub proof fn lemma_insert_comm(t: SpecNode, a: Seq<char>, b: Seq<char>)
    requires
        wf_node(t),
    ensures
        spec_insert(spec_insert(t, a), b) == spec_insert(spec_insert(t, b), a),
    decreases a.len() + b.len(),
{
    lemma_insert_wf(t, a);
    lemma_insert_wf(t, b);
    if a.len() == 0 {
        assert(spec_insert(spec_insert(t, a), b) =~= spec_insert(spec_insert(t, b), a));
    } else if b.len() == 0 {
        assert(spec_insert(spec_insert(t, a), b) =~= spec_insert(spec_insert(t, b), a));
    } else {
        let x = a[0];
        let y = b[0];
        let s = t.children;
        let t1 = spec_insert(t, a);
        let t2 = spec_insert(t, b);
        let t12 = spec_insert(t1, b);
        let t21 = spec_insert(t2, a);
        lemma_insert_wf(t1, b);
        lemma_insert_wf(t2, a);
        lemma_child_insert_lookup(s, x, a.drop_first());
        lemma_child_insert_lookup(s, y, b.drop_first());
        lemma_child_insert_lookup(t1.children, y, b.drop_first());
        lemma_child_insert_lookup(t2.children, x, a.drop_first());
        if lookup(s, x) is Some {
            lemma_lookup_wf(s, x, lookup(s, x)->0);
        }
        if lookup(s, y) is Some {
            lemma_lookup_wf(s, y, lookup(s, y)->0);
        }
        if x == y {
            lemma_insert_comm(child_sub(s, x), a.drop_first(), b.drop_first());
            assert(child_sub(t1.children, x) == spec_insert(child_sub(s, x), a.drop_first()));
            assert(child_sub(t2.children, x) == spec_insert(child_sub(s, x), b.drop_first()));
            assert forall|d: char| #[trigger] lookup(t12.children, d) == lookup(
                t21.children,
                d,
            ) by {
                if d != x {
                    assert(lookup(t12.children, d) == lookup(t1.children, d));
                    assert(lookup(t1.children, d) == lookup(s, d));
                    assert(lookup(t21.children, d) == lookup(t2.children, d));
                    assert(lookup(t2.children, d) == lookup(s, d));
                }
            }
            lemma_children_ext(t12.children, t21.children);
            assert(t12 =~= t21);
        } else {
            assert forall|d: char| #[trigger] lookup(t12.children, d) == lookup(
                t21.children,
                d,
            ) by {
                if d == x {
                    assert(lookup(t12.children, x) == lookup(t1.children, x));
                    assert(child_sub(t2.children, x) == child_sub(s, x));
                } else if d == y {
                    assert(lookup(t21.children, y) == lookup(t2.children, y));
                    assert(child_sub(t1.children, y) == child_sub(s, y));
                } else {
                    assert(lookup(t12.children, d) == lookup(t1.children, d));
                    assert(lookup(t1.children, d) == lookup(s, d));
                    assert(lookup(t21.children, d) == lookup(t2.children, d));
                    assert(lookup(t2.children, d) == lookup(s, d));
                }
            }
            lemma_children_ext(t12.children, t21.children);
            assert(t12 =~= t21);
        }
    }
}

/// LAW: inserting a word that is already present changes nothing — in
/// particular the node and word counts stay exactly as they were.
pub proof fn lemma_insert_idempotent(t: SpecNode, w: Seq<char>)
    requires
        wf_node(t),
    ensures
        spec_insert(spec_insert(t, w), w) == spec_insert(t, w),
    decreases w.len(),
{
    lemma_insert_wf(t, w);
    if w.len() == 0 {
        assert(spec_insert(spec_insert(t, w), w) =~= spec_insert(t, w));
    } else {
        let c = w[0];
        let s = t.children;
        let t1 = spec_insert(t, w);
        lemma_child_insert_lookup(s, c, w.drop_first());
        lemma_child_insert_lookup(t1.children, c, w.drop_first());
        if lookup(s, c) is Some {
            lemma_lookup_wf(s, c, lookup(s, c)->0);
        }
        lemma_insert_idempotent(child_sub(s, c), w.drop_first());
        assert forall|d: char| #[trigger] lookup(spec_insert(t1, w).children, d) == lookup(
            t1.children,
            d,
        ) by {
            if d != c {
                assert(lookup(spec_insert(t1, w).children, d) == lookup(t1.children, d));
            } else {
                assert(child_sub(t1.children, c) == spec_insert(child_sub(s, c), w.drop_first()));
            }
        }
        lemma_insert_wf(t1, w);
        lemma_children_ext(spec_insert(t1, w).children, t1.children);
        assert(spec_insert(t1, w) =~= t1);
    }
}

/// Every trie built by inserting words into the empty trie is well formed.
pub proof fn lemma_trie_of_wf(words: Seq<Seq<char>>)
    ensures
        wf_node(trie_of(words)),
    decreases words.len(),
{
    if words.len() > 0 {
        lemma_trie_of_wf(words.drop_last());
        lemma_insert_wf(trie_of(words.drop_last()), words.last());
    }
}

/// Appending one word to the build sequence inserts it into the trie.
pub proof fn lemma_trie_of_push(words: Seq<Seq<char>>, w: Seq<char>)
    ensures
        trie_of(words.push(w)) == spec_insert(trie_of(words), w),
{
    assert(words.push(w).drop_last() =~= words);
    assert(words.push(w).last() == w);
}

/// Inserting one word anywhere in the build sequence inserts it into the
/// trie of the rest.
pub proof fn lemma_trie_of_insert_anywhere(words: Seq<Seq<char>>, w: Seq<char>, k: int)
    requires
        0 <= k <= words.len(),
    ensures
        trie_of(words.insert(k, w)) == spec_insert(trie_of(words), w),
    decreases words.len(),
{
    if k == words.len() {
        assert(words.insert(k, w) =~= words.push(w));
        lemma_trie_of_push(words, w);
    } else {
        let ws2 = words.insert(k, w);
        words.insert_ensures(k, w);
        assert(ws2.last() == words.last());
        assert(ws2.drop_last() =~= words.drop_last().insert(k, w));
        lemma_trie_of_insert_anywhere(words.drop_last(), w, k);
        lemma_trie_of_wf(words.drop_last());
        lemma_insert_comm(trie_of(words.drop_last()), w, words.last());
    }
}

/// LAW: the trie is a function of the multiset of words alone — any two
/// build orders of the same words give the same trie, whichever node model
/// or load strategy performs the inserts.
pub proof fn lemma_trie_of_permutation(s1: Seq<Seq<char>>, s2: Seq<Seq<char>>)
    requires
        s1.to_multiset() == s2.to_multiset(),
    ensures
        trie_of(s1) == trie_of(s2),
    decreases s1.len(),
{
    broadcast use group_seq_properties;

    s1.to_multiset_ensures();
    s2.to_multiset_ensures();
    if s1.len() == 0 {
        assert(s2.len() == 0);
        assert(s1 =~= s2);
    } else {
        let w = s1.last();
        let s1p = s1.drop_last();
        assert(s1.contains(w));
        assert(s1.to_multiset().count(w) > 0);
        assert(s2.to_multiset().count(w) > 0);
        assert(s2.contains(w));
        let j = choose|j: int| 0 <= j < s2.len() && s2[j] == w;
        let s2p = s2.remove(j);
        assert(s1p =~= s1.remove(s1.len() - 1));
        assert(s1p.to_multiset() == s1.to_multiset().remove(w));
        assert(s2p.to_multiset() == s2.to_multiset().remove(w));
        lemma_trie_of_permutation(s1p, s2p);
        s2.remove_ensures(j);
        assert(s2 =~= s2p.insert(j, w)) by {
            s2p.insert_ensures(j, w);
            assert forall|k: int| 0 <= k < s2.len() implies s2[k] == s2p.insert(j, w)[k] by {
                if k < j {
                    assert(s2p[k] == s2[k]);
                } else if k > j {
                    assert(s2p[k - 1] == s2[k]);
                }
            }
        }
        lemma_trie_of_insert_anywhere(s2p, w, j);
    }
}

} // verus!

verus! {

/// Merging sorted association sequences is sorted, its head comes from one
/// of the inputs, and its lookups combine the inputs' lookups.
pub(crate) proof fn lemma_merge_children_props(
    sa: Seq<(char, SpecNode)>,
    sb: Seq<(char, SpecNode)>,
)
    requires
        sorted_children(sa),
        sorted_children(sb),
    ensures
        sorted_children(merge_children(sa, sb)),
        merge_children(sa, sb).len() > 0 ==> ((sa.len() > 0 && merge_children(sa, sb)[0].0
            == sa[0].0) || (sb.len() > 0 && merge_children(sa, sb)[0].0 == sb[0].0)),
        forall|d: char| #[trigger] lookup(merge_children(sa, sb), d) == merged_lookup(sa, sb, d),
    decreases sa.len() + sb.len(),
{
    let m = merge_children(sa, sb);
    if sb.len() == 0 {
        assert forall|d: char| #[trigger] lookup(m, d) == merged_lookup(sa, sb, d) by {
            assert(lookup(sb, d) is None);
        }
    } else if sa.len() == 0 {
        assert forall|d: char| #[trigger] lookup(m, d) == merged_lookup(sa, sb, d) by {
            assert(lookup(sa, d) is None);
        }
    } else {
        let ca = sa[0].0;
        let cb = sb[0].0;
        lemma_sorted_drop_first(sa);
        lemma_sorted_drop_first(sb);
        lemma_char_total(ca, cb);
        if ca == cb {
            let c0 = ca;
            let rest = merge_children(sa.drop_first(), sb.drop_first());
            lemma_merge_children_props(sa.drop_first(), sb.drop_first());
            assert(m =~= seq![(ca, spec_merge(sa[0].1, sb[0].1))] + rest);
            assert(m.drop_first() =~= rest);
            assert forall|kk: int| 0 <= kk < rest.len() implies char_lt(
                c0,
                (#[trigger] rest[kk]).0,
            ) by {
                let d = rest[kk].0;
                lemma_lookup_found(rest, d, kk);
                lemma_head_tail_above(sa, c0, d);
                lemma_head_tail_above(sb, c0, d);
            }
            lemma_cons_sorted(m, rest, c0);
            assert forall|d: char| #[trigger] lookup(m, d) == merged_lookup(sa, sb, d) by {
                if d == ca {
                    lemma_lookup_found(sa, ca, 0);
                    lemma_lookup_found(sb, cb, 0);
                } else {
                    assert(lookup(m, d) == lookup(rest, d));
                    assert(lookup(sa, d) == lookup(sa.drop_first(), d));
                    assert(lookup(sb, d) == lookup(sb.drop_first(), d));
                }
            }
        } else if char_lt(ca, cb) {
            let c0 = ca;
            let rest = merge_children(sa.drop_first(), sb);
            lemma_merge_children_props(sa.drop_first(), sb);
            assert(m =~= seq![sa[0]] + rest);
            assert(m.drop_first() =~= rest);
            assert forall|kk: int| 0 <= kk < rest.len() implies char_lt(
                c0,
                (#[trigger] rest[kk]).0,
            ) by {
                let d = rest[kk].0;
                lemma_lookup_found(rest, d, kk);
                lemma_head_tail_above(sa, c0, d);
                lemma_present_above(sb, c0, d);
            }
            lemma_cons_sorted(m, rest, c0);
            assert forall|d: char| #[trigger] lookup(m, d) == merged_lookup(sa, sb, d) by {
                if d == ca {
                    lemma_lookup_found(sa, ca, 0);
                    lemma_lookup_none_iff(sb, ca);
                    assert forall|k: int| 0 <= k < sb.len() implies (#[trigger] sb[k]).0 != ca by {
                        if k > 0 {
                            assert(char_lt(sb[0].0, sb[k].0));
                        }
                        lemma_char_total(ca, sb[k].0);
                    }
                } else {
                    assert(lookup(m, d) == lookup(rest, d));
                    assert(lookup(sa, d) == lookup(sa.drop_first(), d));
                }
            }
        } else {
            let c0 = cb;
            let rest = merge_children(sa, sb.drop_first());
            lemma_merge_children_props(sa, sb.drop_first());
            assert(m =~= seq![sb[0]] + rest);
            assert(m.drop_first() =~= rest);
            assert forall|kk: int| 0 <= kk < rest.len() implies char_lt(
                c0,
                (#[trigger] rest[kk]).0,
            ) by {
                let d = rest[kk].0;
                lemma_lookup_found(rest, d, kk);
                lemma_present_above(sa, c0, d);
                lemma_head_tail_above(sb, c0, d);
            }
            lemma_cons_sorted(m, rest, c0);
            assert forall|d: char| #[trigger] lookup(m, d) == merged_lookup(sa, sb, d) by {
                if d == cb {
                    lemma_lookup_found(sb, cb, 0);
                    lemma_lookup_none_iff(sa, cb);
                    assert forall|k: int| 0 <= k < sa.len() implies (#[trigger] sa[k]).0 != cb by {
                        if k > 0 {
                            assert(char_lt(sa[0].0, sa[k].0));
                        }
                        lemma_char_total(cb, sa[k].0);
                    }
                } else {
                    assert(lookup(m, d) == lookup(rest, d));
                    assert(lookup(sb, d) == lookup(sb.drop_first(), d));
                }
            }
        }
    }
}

/// If a sequence's head carries `c0`, every character present in its tail
/// lies above `c0`.
proof fn lemma_head_tail_above(s: Seq<(char, SpecNode)>, c0: char, d: char)
    requires
        sorted_children(s),
        s.len() > 0,
        s[0].0 == c0,
    ensures
        lookup(s.drop_first(), d) is Some ==> char_lt(c0, d),
{
    lemma_sorted_drop_first(s);
    if lookup(s.drop_first(), d) is Some {
        lemma_lookup_index(s.drop_first(), d);
        let j = choose|j: int|
            0 <= j < s.drop_first().len() && (#[trigger] s.drop_first()[j]).0 == d
                && s.drop_first()[j].1 == lookup(s.drop_first(), d)->0;
        assert(s.drop_first()[j] == s[j + 1]);
        assert(char_lt(s[0].0, s[j + 1].0));
    }
}

/// If a sorted sequence's head character lies above `c0`, every character
/// present in it lies above `c0`.
proof fn lemma_present_above(s: Seq<(char, SpecNode)>, c0: char, d: char)
    requires
        sorted_children(s),
        s.len() > 0,
        char_lt(c0, s[0].0),
    ensures
        lookup(s, d) is Some ==> char_lt(c0, d),
{
    if lookup(s, d) is Some {
        lemma_lookup_index(s, d);
        let j = choose|j: int|
            0 <= j < s.len() && (#[trigger] s[j]).0 == d && s[j].1 == lookup(s, d)->0;
        if j > 0 {
            assert(char_lt(s[0].0, s[j].0));
        }
    }
}

/// A sorted tail prefixed with an entry below all its characters is sorted.
proof fn lemma_cons_sorted(m: Seq<(char, SpecNode)>, rest: Seq<(char, SpecNode)>, c0: char)
    requires
        m.len() == rest.len() + 1,
        m[0].0 == c0,
        m.drop_first() =~= rest,
        sorted_children(rest),
        forall|kk: int| 0 <= kk < rest.len() ==> char_lt(c0, (#[trigger] rest[kk]).0),
    ensures
        sorted_children(m),
{
    assert forall|i: int, k: int| 0 <= i < k < m.len() implies char_lt(m[i].0, m[k].0) by {
        assert(m.drop_first()[k - 1] == m[k]);
        if i > 0 {
            assert(m.drop_first()[i - 1] == m[i]);
        }
    }
}

/// Merging with the empty trie changes nothing.
pub proof fn lemma_merge_empty(t: SpecNode)
    ensures
        spec_merge(t, empty_node()) == t,
{
    assert(spec_merge(t, empty_node()) =~= t);
}

/// Merging is well formed.
pub proof fn lemma_merge_wf(a: SpecNode, b: SpecNode)
    requires
        wf_node(a),
        wf_node(b),
    ensures
        wf_node(spec_merge(a, b)),
    decreases b,
{
    let m = spec_merge(a, b);
    lemma_merge_children_props(a.children, b.children);
    assert forall|i: int| 0 <= i < m.children.len() implies wf_node(#[trigger] m.children[i].1) by {
        let d = m.children[i].0;
        lemma_lookup_found(m.children, d, i);
        match (lookup(a.children, d), lookup(b.children, d)) {
            (Some(ca), Some(cb)) => {
                lemma_lookup_wf(a.children, d, ca);
                lemma_lookup_wf(b.children, d, cb);
                lemma_lookup_index(b.children, d);
                lemma_merge_wf(ca, cb);
            },
            (Some(ca), None) => {
                lemma_lookup_wf(a.children, d, ca);
            },
            (None, Some(cb)) => {
                lemma_lookup_wf(b.children, d, cb);
            },
            (None, None) => {},
        }
    }
}

/// Merging with a trie holding one extra word is inserting that word after
/// the merge.
pub proof fn lemma_merge_insert(t: SpecNode, u: SpecNode, w: Seq<char>)
    requires
        wf_node(t),
        wf_node(u),
    ensures
        spec_merge(t, spec_insert(u, w)) == spec_insert(spec_merge(t, u), w),
    decreases w.len(),
{
    lemma_insert_wf(u, w);
    lemma_merge_wf(t, u);
    lemma_merge_wf(t, spec_insert(u, w));
    lemma_insert_wf(spec_merge(t, u), w);
    let lhs = spec_merge(t, spec_insert(u, w));
    let rhs = spec_insert(spec_merge(t, u), w);
    if w.len() == 0 {
        lemma_merge_children_props(t.children, u.children);
        assert(lhs.children == merge_children(t.children, u.children));
        assert(lhs =~= rhs);
    } else {
        let c = w[0];
        lemma_merge_children_props(t.children, u.children);
        lemma_merge_children_props(t.children, spec_insert(u, w).children);
        lemma_child_insert_lookup(u.children, c, w.drop_first());
        lemma_child_insert_lookup(merge_children(t.children, u.children), c, w.drop_first());
        if lookup(t.children, c) is Some {
            lemma_lookup_wf(t.children, c, lookup(t.children, c)->0);
        }
        if lookup(u.children, c) is Some {
            lemma_lookup_wf(u.children, c, lookup(u.children, c)->0);
        }
        assert forall|d: char| #[trigger] lookup(lhs.children, d) == lookup(rhs.children, d) by {
            if d == c {
                match (lookup(t.children, c), lookup(u.children, c)) {
                    (Some(tc), Some(uc)) => {
                        lemma_merge_insert(tc, uc, w.drop_first());
                    },
                    (Some(tc), None) => {
                        lemma_merge_insert(tc, empty_node(), w.drop_first());
                        lemma_merge_empty(tc);
                    },
                    (None, Some(uc)) => {},
                    (None, None) => {},
                }
            } else {
                assert(lookup(spec_insert(u, w).children, d) == lookup(u.children, d));
                assert(lookup(rhs.children, d) == lookup(
                    merge_children(t.children, u.children),
                    d,
                ));
            }
        }
        lemma_children_ext(lhs.children, rhs.children);
        assert(lhs =~= rhs);
    }
}

/// Merging the tries of two word sequences builds the trie of their
/// concatenation.
pub proof fn lemma_merge_tries(ws1: Seq<Seq<char>>, ws2: Seq<Seq<char>>)
    ensures
        spec_merge(trie_of(ws1), trie_of(ws2)) == trie_of(ws1 + ws2),
    decreases ws2.len(),
{
    lemma_trie_of_wf(ws1);
    if ws2.len() == 0 {
        lemma_merge_empty(trie_of(ws1));
        assert(ws1 + ws2 =~= ws1);
        assert(trie_of(ws2) == empty_node());
    } else {
        let w = ws2.last();
        let ws2p = ws2.drop_last();
        lemma_trie_of_wf(ws2p);
        lemma_merge_insert(trie_of(ws1), trie_of(ws2p), w);
        lemma_merge_tries(ws1, ws2p);
        lemma_trie_of_push(ws1 + ws2p, w);
        assert((ws1 + ws2p).push(w) =~= ws1 + ws2);
    }
}

/// LAW: subtries merge into the main trie in any completion order — merging
/// the tries of word groups `g1` and `g2` into the trie of `ws` gives the
/// same trie either way round.
pub proof fn lemma_merge_any_order(ws: Seq<Seq<char>>, g1: Seq<Seq<char>>, g2: Seq<Seq<char>>)
    ensures
        spec_merge(spec_merge(trie_of(ws), trie_of(g1)), trie_of(g2)) == spec_merge(
            spec_merge(trie_of(ws), trie_of(g2)),
            trie_of(g1),
        ),
{
    broadcast use group_seq_properties;

    lemma_merge_tries(ws, g1);
    lemma_merge_tries(ws + g1, g2);
    lemma_merge_tries(ws, g2);
    lemma_merge_tries(ws + g2, g1);
    assert(spec_merge(spec_merge(trie_of(ws), trie_of(g1)), trie_of(g2)) == trie_of(
        ws + g1 + g2,
    ));
    assert(spec_merge(spec_merge(trie_of(ws), trie_of(g2)), trie_of(g1)) == trie_of(
        ws + g2 + g1,
    ));
    lemma_concat_multiset(ws, g1, g2);
    lemma_trie_of_permutation(ws + g1 + g2, ws + g2 + g1);
}

/// Concatenating groups in either order gives the same multiset of words.
proof fn lemma_concat_multiset(ws: Seq<Seq<char>>, g1: Seq<Seq<char>>, g2: Seq<Seq<char>>)
    ensures
        (ws + g1 + g2).to_multiset() == (ws + g2 + g1).to_multiset(),
{
    vstd::seq_lib::lemma_multiset_commutative(ws + g1, g2);
    vstd::seq_lib::lemma_multiset_commutative(ws, g1);
    vstd::seq_lib::lemma_multiset_commutative(ws + g2, g1);
    vstd::seq_lib::lemma_multiset_commutative(ws, g2);
    assert((ws + g1 + g2).to_multiset() =~= (ws + g2 + g1).to_multiset());
}

} // verus!

verus! {

/// LAW: the empty prefix finds the whole trie, so its snapshot carries the
/// trie's total node and word counts.
pub proof fn lemma_find_empty(t: SpecNode)
    ensures
        crate::model::spec_find(t, Seq::<char>::empty()) == Some(t),
{
}

/// A lookup in the children of a built trie succeeds exactly for the first
/// characters of the built words.
pub(crate) proof fn lemma_trie_of_first_chars(words: Seq<Seq<char>>, c: char)
    ensures
        (lookup(trie_of(words).children, c) is Some) <==> (exists|i: int|
            0 <= i < words.len() && (#[trigger] words[i]).len() > 0 && words[i][0] == c),
    decreases words.len(),
{
    lemma_trie_of_wf(words);
    if words.len() == 0 {
    } else {
        let prior = words.drop_last();
        let w = words.last();
        lemma_trie_of_wf(prior);
        lemma_trie_of_first_chars(prior, c);
        let same = w.len() > 0 && c == w[0];
        if !same {
            if w.len() > 0 {
                lemma_child_insert_lookup(trie_of(prior).children, w[0], w.drop_first());
            } else {
                assert(trie_of(words).children == trie_of(prior).children);
            }
            assert(lookup(trie_of(words).children, c) == lookup(trie_of(prior).children, c));
            if lookup(trie_of(words).children, c) is Some {
                let i = choose|i: int|
                    0 <= i < prior.len() && (#[trigger] prior[i]).len() > 0 && prior[i][0] == c;
                assert(words[i] == prior[i]);
                assert(0 <= i < words.len() && words[i].len() > 0 && words[i][0] == c);
            }
            if exists|i: int|
                0 <= i < words.len() && (#[trigger] words[i]).len() > 0 && words[i][0] == c {
                let i = choose|i: int|
                    0 <= i < words.len() && (#[trigger] words[i]).len() > 0 && words[i][0] == c;
                assert(i < prior.len());
                assert(prior[i] == words[i]);
                assert(lookup(trie_of(prior).children, c) is Some);
            }
        } else {
            lemma_child_insert_lookup(trie_of(prior).children, w[0], w.drop_first());
            assert(lookup(trie_of(words).children, c) is Some);
            assert(words[words.len() - 1] == w);
            assert(0 <= words.len() - 1 < words.len() && words[words.len() - 1].len() > 0
                && words[words.len() - 1][0] == c);
        }
    }
}

/// LAW: building from distinct single-character words makes one node per
/// word beside the root. With the loaders' counter contract this is the
/// instrumentation law: starting from a reset counter, such a build records
/// one miss per word and no hit at all, since the first lookup of a
/// brand-new letter is always a miss.
pub proof fn lemma_distinct_single_char_words(words: Seq<Seq<char>>)
    requires
        forall|i: int| 0 <= i < words.len() ==> (#[trigger] words[i]).len() == 1,
        forall|i: int, j: int| 0 <= i < j < words.len() ==> words[i] != words[j],
    ensures
        crate::model::node_count(trie_of(words)) == words.len() + 1,
        crate::model::total_len(words) == words.len(),
    decreases words.len(),
{
    if words.len() > 0 {
        let prior = words.drop_last();
        let w = words.last();
        lemma_distinct_single_char_words(prior);
        lemma_trie_of_wf(prior);
        crate::model::lemma_insert_node_count(trie_of(prior), w);
        lemma_trie_of_first_chars(prior, w[0]);
        assert(lookup(trie_of(prior).children, w[0]) is None) by {
            if lookup(trie_of(prior).children, w[0]) is Some {
                let i = choose|i: int|
                    0 <= i < prior.len() && (#[trigger] prior[i]).len() > 0 && prior[i][0]
                        == w[0];
                assert(prior[i] =~= w);
                assert(words[i] == words[words.len() - 1]);
            }
        }
        assert(crate::model::new_nodes(trie_of(prior), w) == 1);
    }
}

} // verus!

verus! {

/// Looking up a path in a trie with one more word succeeds only where it
/// already succeeded, or along a prefix of the new word.
pub(crate) proof fn lemma_find_insert(t: SpecNode, w: Seq<char>, p: Seq<char>)
    requires
        wf_node(t),
    ensures
        crate::model::spec_find(spec_insert(t, w), p) is Some ==> (crate::model::spec_find(t, p)
            is Some || p.is_prefix_of(w)),
    decreases p.len(),
{
    if p.len() == 0 {
    } else {
        let c = p[0];
        let pp = p.drop_first();
        if w.len() == 0 {
            assert(spec_insert(t, w).children == t.children);
        } else if c != w[0] {
            lemma_child_insert_lookup(t.children, w[0], w.drop_first());
            assert(lookup(spec_insert(t, w).children, c) == lookup(t.children, c));
        } else {
            lemma_child_insert_lookup(t.children, w[0], w.drop_first());
            let sub0 = child_sub(t.children, c);
            if lookup(t.children, c) is Some {
                lemma_lookup_wf(t.children, c, lookup(t.children, c)->0);
            }
            lemma_find_insert(sub0, w.drop_first(), pp);
            if crate::model::spec_find(spec_insert(t, w), p) is Some {
                assert(crate::model::spec_find(spec_insert(sub0, w.drop_first()), pp) is Some);
                if crate::model::spec_find(sub0, pp) is Some {
                    if lookup(t.children, c) is Some {
                        assert(crate::model::spec_find(t, p) is Some);
                    } else {
                        if pp.len() == 0 {
                            assert(p.is_prefix_of(w)) by {
                                assert(p.len() == 1);
                                assert(p =~= w.subrange(0, 1));
                            }
                        } else {
                            assert(lookup(sub0.children, pp[0]) is None);
                            assert(false);
                        }
                    }
                } else {
                    assert(pp.is_prefix_of(w.drop_first()));
                    assert(p.is_prefix_of(w)) by {
                        assert forall|k: int|
                            0 <= k < p.len() implies p[k] == w.subrange(0, p.len() as int)[k] by {
                            if k > 0 {
                                assert(pp[k - 1] == w.drop_first().subrange(
                                    0,
                                    pp.len() as int,
                                )[k - 1]);
                            }
                        }
                        assert(p =~= w.subrange(0, p.len() as int));
                    }
                }
            }
        }
    }
}

/// LAW: a prefix that no inserted word starts with finds nothing.
pub proof fn lemma_find_absent(words: Seq<Seq<char>>, p: Seq<char>)
    requires
        p.len() > 0,
        forall|i: int| 0 <= i < words.len() ==> !p.is_prefix_of(#[trigger] words[i]),
    ensures
        crate::model::spec_find(trie_of(words), p) is None,
    decreases words.len(),
{
    if words.len() == 0 {
        assert(lookup(trie_of(words).children, p[0]) is None);
    } else {
        let prior = words.drop_last();
        let w = words.last();
        assert forall|i: int| 0 <= i < prior.len() implies !p.is_prefix_of(
            #[trigger] prior[i],
        ) by {
            assert(prior[i] == words[i]);
        }
        lemma_find_absent(prior, p);
        lemma_trie_of_wf(prior);
        lemma_find_insert(trie_of(prior), w, p);
        assert(!p.is_prefix_of(w)) by {
            assert(words[words.len() - 1] == w);
        }
    }
}

} // verus!
