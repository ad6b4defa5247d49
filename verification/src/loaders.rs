//! The four load strategies. All of them produce the canonical trie of the
//! word list they are given; they differ only in staging: whether words are
//! copied and sorted first, inserted as they arrive, or grouped by first
//! letter into subtries that are folded into the main trie.

use vstd::prelude::*;
use vstd::seq_lib::lemma_multiset_commutative;
use crate::counter::CharGetCounter;
use crate::laws::{lemma_merge_tries, lemma_trie_of_permutation, lemma_trie_of_push};
use crate::model::{
    all_nonempty, lemma_insert_node_count, lemma_new_nodes_le, node_count, total_len, trie_of,
};
use crate::laws::lemma_trie_of_wf;
use crate::{LetterTrie, LoadMethod};

verus! {

/// Lexicographic order on words, by character code.
pub open spec fn lex_le(a: Seq<char>, b: Seq<char>) -> bool
    decreases a.len(),
{
    if a.len() == 0 {
        true
    } else if b.len() == 0 {
        false
    } else if a[0] != b[0] {
        (a[0] as u32) < (b[0] as u32)
    } else {
        lex_le(a.drop_first(), b.drop_first())
    }
}

/// Compare the suffixes of two words from position `i` on.
fn word_le_at(a: &Vec<char>, b: &Vec<char>, i: usize) -> (r: bool)
    requires
        i <= a@.len(),
        i <= b@.len(),
    ensures
        r == lex_le(a@.skip(i as int), b@.skip(i as int)),
    decreases a@.len() - i,
{
    if i == a.len() {
        proof {
            assert(a@.skip(i as int) =~= Seq::<char>::empty());
        }
        true
    } else if i == b.len() {
        proof {
            assert(b@.skip(i as int) =~= Seq::<char>::empty());
        }
        false
    } else if a[i] != b[i] {
        proof {
            assert(a@.skip(i as int)[0] == a@[i as int]);
            assert(b@.skip(i as int)[0] == b@[i as int]);
        }
        (a[i] as u32) < (b[i] as u32)
    } else {
        let r = word_le_at(a, b, i + 1);
        proof {
            assert(a@.skip(i as int)[0] == a@[i as int]);
            assert(b@.skip(i as int)[0] == b@[i as int]);
            assert(a@.skip(i as int).drop_first() =~= a@.skip(i as int + 1));
            assert(b@.skip(i as int).drop_first() =~= b@.skip(i as int + 1));
        }
        r
    }
}

/// Alphabetical order on two words.
fn word_le(a: &Vec<char>, b: &Vec<char>) -> (r: bool)
    ensures
        r == lex_le(a@, b@),
{
    let r = word_le_at(a, b, 0);
    proof {
        assert(a@.skip(0) =~= a@);
        assert(b@.skip(0) =~= b@);
    }
    r
}

/// An exact copy of one word.
fn clone_word(w: &Vec<char>) -> (r: Vec<char>)
    ensures
        r@ == w@,
{
    let mut r: Vec<char> = Vec::new();
    let n = w.len();
    let mut i: usize = 0;
    while i < n
        invariant
            0 <= i <= n,
            n == w@.len(),
            r@ == w@.take(i as int),
        decreases n - i,
    {
        r.push(w[i]);
        proof {
            assert(r@ =~= w@.take(i as int + 1));
        }
        i = i + 1;
    }
    proof {
        assert(w@.take(n as int) =~= w@);
    }
    r
}

/// A word list's deep view reads off the word views, index by index.
pub(crate) proof fn lemma_words_deep_view(v: Vec<Vec<char>>)
    ensures
        v.deep_view().len() == v@.len(),
        forall|i: int| 0 <= i < v@.len() ==> v.deep_view()[i] == (#[trigger] v@[i])@,
{
    assert forall|i: int| 0 <= i < v@.len() implies v.deep_view()[i] == (#[trigger] v@[i])@ by {
        assert(v@[i].deep_view() =~= v@[i]@);
    }
}

/// An exact copy of a word list.
fn clone_words(words: &Vec<Vec<char>>) -> (r: Vec<Vec<char>>)
    ensures
        r.deep_view() == words.deep_view(),
{
    let mut r: Vec<Vec<char>> = Vec::new();
    let n = words.len();
    let mut i: usize = 0;
    while i < n
        invariant
            0 <= i <= n,
            n == words@.len(),
            r@.len() == i,
            forall|k: int| 0 <= k < i ==> (#[trigger] r@[k])@ == words@[k]@,
        decreases n - i,
    {
        let w2 = clone_word(&words[i]);
        r.push(w2);
        i = i + 1;
    }
    proof {
        lemma_words_deep_view(r);
        lemma_words_deep_view(*words);
        assert(r.deep_view() =~= words.deep_view());
    }
    r
}

/// Moving one word from index `i` to index `j` keeps the multiset of
/// words, the summed length, and non-emptiness of every word.
proof fn lemma_move_step(dv0: Seq<Seq<char>>, i: int, j: int)
    requires
        0 <= i < dv0.len(),
        0 <= j <= dv0.len() - 1,
    ensures
        dv0.remove(i).insert(j, dv0[i]).to_multiset() == dv0.to_multiset(),
        total_len(dv0.remove(i).insert(j, dv0[i])) == total_len(dv0),
        all_nonempty(dv0) ==> all_nonempty(dv0.remove(i).insert(j, dv0[i])),
{
    broadcast use vstd::seq_lib::group_seq_properties;
    broadcast use vstd::multiset::group_multiset_axioms;

    let w = dv0[i];
    let dv1 = dv0.remove(i);
    dv0.to_multiset_ensures();
    dv0.remove_ensures(i);
    lemma_to_multiset_insert(dv1, j, w);
    assert(dv0.contains(w));
    assert(dv0.to_multiset().count(w) > 0);
    assert(dv1.insert(j, w).to_multiset() =~= dv0.to_multiset());
    lemma_total_len_insert(dv1, j, w);
    lemma_total_len_insert(dv1, i, w);
    assert(dv1.insert(i, w) =~= dv0) by {
        dv1.insert_ensures(i, w);
        assert forall|k: int| 0 <= k < dv0.len() implies dv1.insert(i, w)[k] == dv0[k] by {
            if k < i {
                assert(dv1[k] == dv0[k]);
            } else if k > i {
                assert(dv1[k - 1] == dv0[k]);
            }
        }
    }
    if all_nonempty(dv0) {
        let dv2 = dv1.insert(j, w);
        dv1.insert_ensures(j, w);
        assert forall|k: int| 0 <= k < dv2.len() implies (#[trigger] dv2[k]).len() > 0 by {
            if k < j {
                if k < i {
                    assert(dv2[k] == dv0[k]);
                } else {
                    assert(dv2[k] == dv0[k + 1]);
                }
            } else if k > j {
                if k - 1 < i {
                    assert(dv2[k] == dv0[k - 1]);
                } else {
                    assert(dv2[k] == dv0[k]);
                }
            } else {
                assert(dv2[k] == w);
            }
        }
    }
}

/// Summed word length distributes over insertion at any index.
proof fn lemma_total_len_insert(s: Seq<Seq<char>>, j: int, w: Seq<char>)
    requires
        0 <= j <= s.len(),
    ensures
        total_len(s.insert(j, w)) == total_len(s) + w.len(),
    decreases s.len(),
{
    if j == s.len() {
        assert(s.insert(j, w) =~= s.push(w));
        assert(s.push(w).drop_last() =~= s);
    } else {
        let s2 = s.insert(j, w);
        s.insert_ensures(j, w);
        assert(s2.last() == s.last());
        assert(s2.drop_last() =~= s.drop_last().insert(j, w));
        lemma_total_len_insert(s.drop_last(), j, w);
    }
}

/// Inserting an element at any index adds it to the multiset of a sequence.
proof fn lemma_to_multiset_insert<A>(s: Seq<A>, j: int, x: A)
    requires
        0 <= j <= s.len(),
    ensures
        s.insert(j, x).to_multiset() =~= s.to_multiset().insert(x),
{
    broadcast use vstd::seq_lib::group_seq_properties;
    broadcast use vstd::multiset::group_multiset_axioms;

    let left = s.subrange(0, j);
    let right = s.subrange(j, s.len() as int);
    assert(s.insert(j, x) == left.push(x) + right);
    lemma_multiset_commutative(left.push(x), right);
    lemma_multiset_commutative(left, right);
    assert(left.push(x).to_multiset() =~= left.to_multiset().insert(x));
    assert(left + right =~= s);
    assert(s.insert(j, x).to_multiset() =~= s.to_multiset().insert(x));
}

/// Sort the word list alphabetically in place. The multiset of words — and
/// with it the summed length and the canonical trie — is unchanged.
pub(crate) fn sort_words(v: &mut Vec<Vec<char>>)
    ensures
        final(v).deep_view().to_multiset() == old(v).deep_view().to_multiset(),
        total_len(final(v).deep_view()) == total_len(old(v).deep_view()),
        all_nonempty(old(v).deep_view()) ==> all_nonempty(final(v).deep_view()),
{
    let n = v.len();
    let mut i: usize = 1;
    while i < n
        invariant
            1 <= i <= n || (n == 0 && i == 1),
            n == v@.len(),
            v.deep_view().to_multiset() == old(v).deep_view().to_multiset(),
            total_len(v.deep_view()) == total_len(old(v).deep_view()),
            all_nonempty(old(v).deep_view()) ==> all_nonempty(v.deep_view()),
        decreases n - i,
    {
        let ghost dv0 = v.deep_view();
        proof {
            lemma_words_deep_view(*v);
        }
        let w = v.remove(i);
        proof {
            lemma_words_deep_view(*v);
            assert(v.deep_view() =~= dv0.remove(i as int)) by {
                dv0.remove_ensures(i as int);
                assert forall|k: int|
                    0 <= k < v@.len() implies v.deep_view()[k] == dv0.remove(i as int)[k] by {
                    if k < i {
                        assert(v@[k]@ == dv0[k]);
                    } else {
                        assert(v@[k]@ == dv0[k + 1]);
                    }
                }
            }
        }
        let mut j: usize = 0;
        while j < i && !word_le(&w, &v[j])
            invariant
                0 <= j <= i,
                i <= v@.len(),
            decreases i - j,
        {
            j = j + 1;
        }
        let ghost dv1 = v.deep_view();
        v.insert(j, w);
        proof {
            lemma_words_deep_view(*v);
            assert(v.deep_view() =~= dv1.insert(j as int, w@)) by {
                dv1.insert_ensures(j as int, w@);
                assert forall|k: int|
                    0 <= k < v@.len() implies v.deep_view()[k] == dv1.insert(j as int, w@)[k] by {
                    if k < j {
                        assert(v@[k]@ == dv1[k]);
                    } else if k > j {
                        assert(v@[k]@ == dv1[k - 1]);
                    } else {
                        assert(v@[k] == w);
                    }
                }
            }
            assert(w@ == dv0[i as int]);
            lemma_move_step(dv0, i as int, j as int);
        }
        i = i + 1;
    }
}

/// Insert every word of `words`, in order, into `t`. Each created node is
/// one recorded miss, each found node one recorded hit.
pub fn fill_trie<T: LetterTrie>(t: &mut T, words: &Vec<Vec<char>>, counter: &mut CharGetCounter)
    requires
        old(t).wf(),
        old(t).model() == trie_of(Seq::<Seq<char>>::empty()),
        all_nonempty(words.deep_view()),
        old(counter).hit_count + old(counter).miss_count + total_len(words.deep_view())
            <= usize::MAX,
    ensures
        final(t).wf(),
        final(t).model() == trie_of(words.deep_view()),
        final(counter).miss_count == old(counter).miss_count + (node_count(
            trie_of(words.deep_view()),
        ) - 1),
        final(counter).hit_count == old(counter).hit_count + (total_len(words.deep_view()) - (
        node_count(trie_of(words.deep_view())) - 1)),
{
    let ghost dv = words.deep_view();
    let n = words.len();
    let mut i: usize = 0;
    proof {
        assert(dv.take(0) =~= Seq::<Seq<char>>::empty());
        lemma_take_step_facts(dv, 0);
    }
    while i < n
        invariant
            0 <= i <= n,
            n == words@.len(),
            dv == words.deep_view(),
            dv.len() == n,
            all_nonempty(dv),
            t.wf(),
            t.model() == trie_of(dv.take(i as int)),
            counter.miss_count == old(counter).miss_count + (node_count(trie_of(dv.take(i as int)))
                - 1),
            counter.hit_count == old(counter).hit_count + (total_len(dv.take(i as int)) - (
            node_count(trie_of(dv.take(i as int))) - 1)),
            old(counter).hit_count + old(counter).miss_count + total_len(dv) <= usize::MAX,
            node_count(trie_of(dv.take(i as int))) >= 1,
            total_len(dv.take(i as int)) >= node_count(trie_of(dv.take(i as int))) - 1,
        decreases n - i,
    {
        let ghost taken = dv.take(i as int);
        proof {
            lemma_take_step_facts(dv, i as int);
            lemma_take_step_facts(dv, i as int + 1);
            lemma_trie_of_wf(taken);
            lemma_insert_node_count(trie_of(taken), dv[i as int]);
            lemma_new_nodes_le(trie_of(taken), dv[i as int]);
            lemma_trie_of_push(taken, dv[i as int]);
            assert(taken.push(dv[i as int]) =~= dv.take(i as int + 1));
            assert(words[i as int].deep_view() == dv[i as int]);
        }
        let w = &words[i];
        proof {
            assert(w@ =~= dv[i as int]);
        }
        t.insert(w, counter);
        i = i + 1;
    }
    proof {
        assert(dv.take(n as int) =~= dv);
    }
}

/// Taking one more word adds its length; the prefix length never exceeds
/// the total.
proof fn lemma_take_step_facts(dv: Seq<Seq<char>>, i: int)
    requires
        0 <= i <= dv.len(),
    ensures
        i < dv.len() ==> total_len(dv.take(i + 1)) == total_len(dv.take(i)) + dv[i].len(),
        total_len(dv.take(i)) <= total_len(dv),
    decreases dv.len() - i,
{
    if i < dv.len() {
        assert(dv.take(i + 1).drop_last() =~= dv.take(i));
        assert(dv.take(i + 1).last() == dv[i]);
        lemma_take_step_facts(dv, i + 1);
    } else {
        assert(dv.take(i) =~= dv);
    }
}

/// Insert each word as it arrives, with no intermediate vector.
pub fn load_continuous<T: LetterTrie>(words: &Vec<Vec<char>>, counter: &mut CharGetCounter) -> (t:
    T)
    requires
        all_nonempty(words.deep_view()),
        old(counter).hit_count + old(counter).miss_count + total_len(words.deep_view())
            <= usize::MAX,
    ensures
        t.wf(),
        t.model() == trie_of(words.deep_view()),
        final(counter).miss_count == old(counter).miss_count + (node_count(
            trie_of(words.deep_view()),
        ) - 1),
        final(counter).hit_count == old(counter).hit_count + (total_len(words.deep_view()) - (
        node_count(trie_of(words.deep_view())) - 1)),
{
    let mut t = T::new();
    proof {
        assert(trie_of(Seq::<Seq<char>>::empty()) == crate::model::empty_node());
    }
    fill_trie(&mut t, words, counter);
    t
}

/// Materialize the words, sort them (always, or only when the source is
/// unsorted), then fill the trie.
pub fn load_vec_fill<T: LetterTrie>(
    words: &Vec<Vec<char>>,
    skip_sort: bool,
    counter: &mut CharGetCounter,
) -> (t: T)
    requires
        all_nonempty(words.deep_view()),
        old(counter).hit_count + old(counter).miss_count + total_len(words.deep_view())
            <= usize::MAX,
    ensures
        t.wf(),
        t.model() == trie_of(words.deep_view()),
        final(counter).miss_count == old(counter).miss_count + (node_count(
            trie_of(words.deep_view()),
        ) - 1),
        final(counter).hit_count == old(counter).hit_count + (total_len(words.deep_view()) - (
        node_count(trie_of(words.deep_view())) - 1)),
{
    let mut v = clone_words(words);
    if !skip_sort {
        sort_words(&mut v);
        proof {
            lemma_trie_of_permutation(v.deep_view(), words.deep_view());
        }
    }
    load_continuous::<T>(&v, counter)
}

/// Group arriving words by first letter, build one standalone subtrie per
/// completed group, and fold each subtrie into the main trie. Done here in
/// one thread; the grouping, the subtrie builds and the merges are exactly
/// the steps a concurrent driver hands to its workers, and the contract
/// shows the result does not depend on how that work is interleaved.
pub fn load_continuous_parallel<T: LetterTrie>(
    words: &Vec<Vec<char>>,
    counter: &mut CharGetCounter,
) -> (t: T)
    requires
        all_nonempty(words.deep_view()),
        old(counter).hit_count + old(counter).miss_count + total_len(words.deep_view())
            <= usize::MAX,
    ensures
        t.wf(),
        t.model() == trie_of(words.deep_view()),
        final(counter).hit_count + final(counter).miss_count == old(counter).hit_count + old(
            counter,
        ).miss_count + total_len(words.deep_view()),
{
    let ghost dv = words.deep_view();
    let n = words.len();
    let mut main = T::new();
    let mut buf: Vec<Vec<char>> = Vec::new();
    let ghost mut processed = Seq::<Seq<char>>::empty();
    let mut i: usize = 0;
    proof {
        assert(processed + buf.deep_view() =~= dv.take(0));
        assert(trie_of(processed) == crate::model::empty_node());
    }
    while i < n
        invariant
            0 <= i <= n,
            n == words@.len(),
            dv == words.deep_view(),
            dv.len() == n,
            all_nonempty(dv),
            main.wf(),
            main.model() == trie_of(processed),
            processed + buf.deep_view() =~= dv.take(i as int),
            all_nonempty(buf.deep_view()),
            counter.hit_count + counter.miss_count == old(counter).hit_count + old(
                counter,
            ).miss_count + total_len(processed),
            old(counter).hit_count + old(counter).miss_count + total_len(dv) <= usize::MAX,
            total_len(processed) + total_len(buf.deep_view()) == total_len(dv.take(i as int)),
        decreases n - i,
    {
        proof {
            lemma_take_step_facts(dv, i as int);
            assert(words[i as int].deep_view() == dv[i as int]);
        }
        let w = clone_word(&words[i]);
        proof {
            assert(w@ =~= dv[i as int]);
            assert(w@.len() > 0);
        }
        proof {
            if buf@.len() > 0 {
                lemma_words_deep_view(buf);
                assert(buf.deep_view()[0].len() > 0);
            }
        }
        if buf.len() > 0 && buf[0][0] != w[0] {
            let ghost bufdv = buf.deep_view();
            proof {
                lemma_total_len_concat(processed, bufdv);
                lemma_take_le_total(dv, i as int);
            }
            let sub: T = load_continuous(&buf, counter);
            let ghost m0 = main.model();
            main = main.merged(sub);
            proof {
                lemma_merge_tries(processed, bufdv);
            }
            proof {
                processed = processed + bufdv;
            }
            buf = Vec::new();
            proof {
                assert(buf.deep_view() =~= Seq::<Seq<char>>::empty());
                assert(processed + buf.deep_view() =~= processed);
                lemma_total_len_concat(processed, buf.deep_view());
            }
        }
        let ghost bufdv0 = buf.deep_view();
        buf.push(w);
        proof {
            assert(buf.deep_view() =~= bufdv0.push(w@));
            assert(processed + buf.deep_view() =~= dv.take(i as int + 1));
            lemma_total_len_push(bufdv0, w@);
            lemma_total_len_concat(processed, bufdv0);
        }
        i = i + 1;
    }
    proof {
        assert(dv.take(n as int) =~= dv);
    }
    if buf.len() > 0 {
        let ghost bufdv = buf.deep_view();
        proof {
            lemma_total_len_concat(processed, bufdv);
        }
        let sub: T = load_continuous(&buf, counter);
        main = main.merged(sub);
        proof {
            lemma_merge_tries(processed, bufdv);
            assert(processed + bufdv =~= dv);
        }
    } else {
        proof {
            assert(processed =~= dv);
        }
    }
    main
}

/// Pushing one word onto a list adds its length to the total.
proof fn lemma_total_len_push(s: Seq<Seq<char>>, w: Seq<char>)
    ensures
        total_len(s.push(w)) == total_len(s) + w.len(),
{
    assert(s.push(w).drop_last() =~= s);
    assert(s.push(w).last() == w);
}

/// Summed word length distributes over concatenation.
proof fn lemma_total_len_concat(a: Seq<Seq<char>>, b: Seq<Seq<char>>)
    ensures
        total_len(a + b) == total_len(a) + total_len(b),
    decreases b.len(),
{
    if b.len() == 0 {
        assert(a + b =~= a);
    } else {
        assert((a + b).drop_last() =~= a + b.drop_last());
        assert((a + b).last() == b.last());
        lemma_total_len_concat(a, b.drop_last());
        assert(b.drop_last().push(b.last()) =~= b);
        lemma_total_len_push(b.drop_last(), b.last());
    }
}

/// The summed length of a prefix never exceeds the total.
proof fn lemma_take_le_total(dv: Seq<Seq<char>>, i: int)
    requires
        0 <= i <= dv.len(),
    ensures
        total_len(dv.take(i)) <= total_len(dv),
{
    lemma_take_step_facts(dv, i);
}

/// Build a trie with the staging the load method names.
pub fn build_trie<T: LetterTrie>(
    words: &Vec<Vec<char>>,
    is_sorted: bool,
    load_method: &LoadMethod,
    counter: &mut CharGetCounter,
) -> (t: T)
    requires
        all_nonempty(words.deep_view()),
        old(counter).hit_count + old(counter).miss_count + total_len(words.deep_view())
            <= usize::MAX,
    ensures
        t.wf(),
        t.model() == trie_of(words.deep_view()),
        final(counter).hit_count + final(counter).miss_count == old(counter).hit_count + old(
            counter,
        ).miss_count + total_len(words.deep_view()),
{
    proof {
        lemma_new_nodes_budget(words.deep_view());
    }
    match load_method {
        LoadMethod::ReadVecFill => load_vec_fill::<T>(words, false, counter),
        LoadMethod::VecFill => load_vec_fill::<T>(words, is_sorted, counter),
        LoadMethod::Continuous => load_continuous::<T>(words, counter),
        LoadMethod::ContinuousParallel => load_continuous_parallel::<T>(words, counter),
    }
}

/// A trie never holds more created nodes than characters were inserted.
proof fn lemma_new_nodes_budget(dv: Seq<Seq<char>>)
    ensures
        node_count(trie_of(dv)) - 1 <= total_len(dv),
    decreases dv.len(),
{
    if dv.len() > 0 {
        lemma_new_nodes_budget(dv.drop_last());
        lemma_trie_of_wf(dv.drop_last());
        lemma_insert_node_count(trie_of(dv.drop_last()), dv.last());
        lemma_new_nodes_le(trie_of(dv.drop_last()), dv.last());
    }
}

} // verus!
