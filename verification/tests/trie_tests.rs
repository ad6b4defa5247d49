use letter_trie::{
    get_test_label, BaseLetterTrie, CharGetCounter, Dataset, DisplayDetailOptions, FixedNode,
    LetterTrie, LetterTrieType, LoadMethod, NoParentLetterTrie,
};

fn to_word(s: &str) -> Vec<char> {
    let mut v: Vec<char> = Vec::new();
    for c in s.chars() {
        v.push(c);
    }
    v
}

fn to_words(strs: &[&str]) -> Vec<Vec<char>> {
    let mut v: Vec<Vec<char>> = Vec::new();
    for s in strs {
        v.push(to_word(s));
    }
    v
}

fn all_methods() -> Vec<LoadMethod> {
    vec![
        LoadMethod::ReadVecFill,
        LoadMethod::VecFill,
        LoadMethod::Continuous,
        LoadMethod::ContinuousParallel,
    ]
}

fn snapshot_no_parent(strs: &[&str], method: &LoadMethod) -> FixedNode {
    let words = to_words(strs);
    let mut counter = CharGetCounter::new();
    let trie = NoParentLetterTrie::from_words(&words, false, method, &mut counter);
    trie.to_fixed_node()
}

fn snapshot_base(strs: &[&str], method: &LoadMethod) -> FixedNode {
    let words = to_words(strs);
    let mut counter = CharGetCounter::new();
    let trie = BaseLetterTrie::from_words(&words, false, method, &mut counter);
    trie.to_fixed_node()
}

#[test]
fn cat_car_dog_structure() {
    let words = to_words(&["cat", "car", "dog"]);
    let mut counter = CharGetCounter::new();
    let trie =
        NoParentLetterTrie::from_words(&words, false, &LoadMethod::Continuous, &mut counter);
    let root = trie.to_fixed_node();
    assert_eq!(root.node_count, 8);
    assert_eq!(root.word_count, 3);
    assert_eq!(root.height, 3);
    assert_eq!(root.child_count, 2);
    assert_eq!(root.depth, 0);
    assert!(!root.is_word);

    let sub = trie.find("ca").expect("prefix ca must be present");
    assert_eq!(sub.node_count, 3);
    assert_eq!(sub.word_count, 2);
    assert_eq!(sub.c, 'a');
    assert_eq!(sub.depth, 2);
    assert_eq!(sub.prefix, vec!['c', 'a']);

    assert!(trie.find("x").is_none());
    assert!(trie.find("cate").is_none());
    assert!(trie.find("dogs").is_none());
}

#[test]
fn empty_word_set() {
    let words: Vec<Vec<char>> = Vec::new();
    let mut counter = CharGetCounter::new();
    let trie =
        NoParentLetterTrie::from_words(&words, true, &LoadMethod::ReadVecFill, &mut counter);
    let root = trie.to_fixed_node();
    assert_eq!(root.node_count, 1);
    assert_eq!(root.word_count, 0);
    assert_eq!(root.height, 0);
    assert_eq!(root.child_count, 0);
}

#[test]
fn all_loaders_and_models_agree() {
    let sets: Vec<Vec<&str>> = vec![
        vec!["cat", "car", "dog"],
        vec!["dog", "car", "cat"],
        vec!["a", "ab", "abc", "b", "ba"],
        vec!["zebra", "zebu", "yak", "yard", "yarrow"],
    ];
    for set in &sets {
        let reference = snapshot_no_parent(&set, &LoadMethod::Continuous);
        for method in all_methods() {
            assert_eq!(snapshot_no_parent(&set, &method), reference);
            assert_eq!(snapshot_base(&set, &method), reference);
        }
    }
}

#[test]
fn order_does_not_matter() {
    let forward = snapshot_no_parent(&["ant", "bee", "cow", "ape", "bat"], &LoadMethod::Continuous);
    let backward =
        snapshot_no_parent(&["bat", "ape", "cow", "bee", "ant"], &LoadMethod::Continuous);
    let base_backward =
        snapshot_base(&["bat", "ape", "cow", "bee", "ant"], &LoadMethod::ContinuousParallel);
    assert_eq!(forward, backward);
    assert_eq!(forward, base_backward);
}

#[test]
fn duplicate_insert_is_idempotent() {
    let words = to_words(&["cat"]);
    let mut counter = CharGetCounter::new();
    let mut trie =
        NoParentLetterTrie::from_words(&words, false, &LoadMethod::Continuous, &mut counter);
    let before = trie.to_fixed_node();
    trie.insert(&to_word("cat"), &mut counter);
    let after = trie.to_fixed_node();
    assert_eq!(before.node_count, after.node_count);
    assert_eq!(before.word_count, after.word_count);
    assert_eq!(before, after);
}

#[test]
fn find_empty_prefix_is_whole_trie() {
    let words = to_words(&["cat", "car", "dog"]);
    let mut counter = CharGetCounter::new();
    let trie = BaseLetterTrie::from_words(&words, false, &LoadMethod::VecFill, &mut counter);
    let root = trie.to_fixed_node();
    let found = trie.find("").expect("empty prefix finds the root");
    assert_eq!(found, root);
    assert_eq!(found.node_count, 8);
    assert_eq!(found.word_count, 3);
}

#[test]
fn parallel_merge_matches_sequential() {
    // Letters a, b and c arrive interleaved, so several per-letter groups
    // are built and folded into the main trie out of one another's order.
    let set = vec!["ant", "bat", "cat", "ape", "bee", "cow", "add", "bun", "cup"];
    let sequential = snapshot_no_parent(&set, &LoadMethod::Continuous);
    let parallel = snapshot_no_parent(&set, &LoadMethod::ContinuousParallel);
    let parallel_base = snapshot_base(&set, &LoadMethod::ContinuousParallel);
    assert_eq!(sequential, parallel);
    assert_eq!(sequential, parallel_base);
}

#[test]
fn merged_folds_both_tries() {
    let mut counter = CharGetCounter::new();
    let left = NoParentLetterTrie::from_words(
        &to_words(&["cat", "car"]),
        false,
        &LoadMethod::Continuous,
        &mut counter,
    );
    let right = NoParentLetterTrie::from_words(
        &to_words(&["dog", "cat"]),
        false,
        &LoadMethod::Continuous,
        &mut counter,
    );
    let merged = left.merged(right);
    let expected = snapshot_no_parent(&["cat", "car", "dog"], &LoadMethod::Continuous);
    assert_eq!(merged.to_fixed_node(), expected);
}

#[test]
fn counter_reset_build_read() {
    let mut counter = CharGetCounter::new();
    counter.record(true);
    counter.record(false);
    counter.reset();
    assert_eq!(counter.hit_count, 0);
    assert_eq!(counter.miss_count, 0);
    assert_eq!(counter.print_optional(), None);

    // Five distinct single-character words: the first lookup of each brand
    // new letter is a miss, and nothing is ever a hit.
    let words = to_words(&["a", "b", "c", "d", "e"]);
    let mut trie = NoParentLetterTrie::new();
    for w in &words {
        trie.insert(w, &mut counter);
    }
    assert_eq!(counter.miss_count, 5);
    assert_eq!(counter.hit_count, 0);
    assert_eq!(counter.print_optional(), Some((0, 5)));

    // Re-inserting an existing word records only hits.
    counter.reset();
    trie.insert(&to_word("a"), &mut counter);
    assert_eq!(counter.miss_count, 0);
    assert_eq!(counter.hit_count, 1);
}

#[test]
fn counter_totals_per_loader() {
    let set = vec!["cat", "car", "dog"];
    for method in all_methods() {
        let mut counter = CharGetCounter::new();
        let _trie: NoParentLetterTrie =
            NoParentLetterTrie::from_words(&to_words(&set), false, &method, &mut counter);
        // One lookup per character read: 9 characters in all.
        assert_eq!(counter.hit_count + counter.miss_count, 9);
    }
}

#[test]
fn base_parent_prefix_navigation() {
    let words = to_words(&["cat", "car", "dog"]);
    let mut counter = CharGetCounter::new();
    let trie = BaseLetterTrie::from_words(&words, false, &LoadMethod::Continuous, &mut counter);
    assert_eq!(trie.parent_prefix("cat"), Some(vec!['c', 'a']));
    assert_eq!(trie.parent_prefix("ca"), Some(vec!['c']));
    assert_eq!(trie.parent_prefix("c"), Some(Vec::new()));
    assert_eq!(trie.parent_prefix(""), None);
    assert_eq!(trie.parent_prefix("zzz"), None);
}

#[test]
fn dataset_names_and_sortedness() {
    assert_eq!(Dataset::TestSmallSorted.filename(), "words_9_sorted.txt");
    assert_eq!(Dataset::TestMediumSorted.filename(), "words_10_000_sorted.txt");
    assert_eq!(Dataset::TestLargeUnsorted.filename(), "words_584_983_unsorted.txt");
    assert!(Dataset::TestSmallSorted.is_sorted());
    assert!(Dataset::TestMediumSorted.is_sorted());
    assert!(Dataset::TestLargeSorted.is_sorted());
    assert!(!Dataset::TestSmallUnsorted.is_sorted());
    assert!(!Dataset::TestMediumUnsorted.is_sorted());
    assert!(!Dataset::TestLargeUnsorted.is_sorted());
}

#[test]
fn labels_and_display_options() {
    let label = get_test_label(
        &Dataset::TestSmallSorted,
        &LoadMethod::ContinuousParallel,
        &LetterTrieType::NoParent,
    );
    assert_eq!(label, "TestSmallSorted; ContinuousParallel; NoParent");

    let quiet = DisplayDetailOptions::make_no_display();
    assert!(!quiet.print_overall_time);
    assert!(!quiet.print_step_time);
    assert_eq!(quiet.object_detail_level, 0);
    assert_eq!(quiet.label, "");

    let overall = DisplayDetailOptions::make_overall_time(
        &Dataset::TestMediumUnsorted,
        &LoadMethod::VecFill,
        &LetterTrieType::Base,
    );
    assert!(overall.print_overall_time);
    assert!(!overall.print_step_time);
    assert_eq!(overall.label, "TestMediumUnsorted; VecFill; Base");

    let moderate = DisplayDetailOptions::make_moderate(
        &Dataset::TestSmallUnsorted,
        &LoadMethod::ReadVecFill,
        &LetterTrieType::Base,
    );
    assert_eq!(moderate.object_detail_level, 2);
    let moderate_large = DisplayDetailOptions::make_moderate(
        &Dataset::TestLargeSorted,
        &LoadMethod::ReadVecFill,
        &LetterTrieType::Base,
    );
    assert_eq!(moderate_large.object_detail_level, 1);
}

#[test]
fn fixed_node_equality_is_field_by_field() {
    let a = snapshot_no_parent(&["cat"], &LoadMethod::Continuous);
    let b = snapshot_no_parent(&["cat"], &LoadMethod::VecFill);
    let c = snapshot_no_parent(&["cat", "dog"], &LoadMethod::Continuous);
    assert_eq!(a, b);
    assert_ne!(a, c);
}

#[test]
fn repeated_letter_groups_fold_not_overwrite() {
    // The first letters repeat non-consecutively, so the parallel loader
    // builds two groups for 'a' and must fold the second into the first.
    let set = vec!["ant", "bee", "ape"];
    let sequential = snapshot_no_parent(&set, &LoadMethod::Continuous);
    let parallel = snapshot_no_parent(&set, &LoadMethod::ContinuousParallel);
    assert_eq!(sequential, parallel);
    assert_eq!(parallel.word_count, 3);
    assert_eq!(parallel.node_count, 1 + 3 + 3 + 2);
}
