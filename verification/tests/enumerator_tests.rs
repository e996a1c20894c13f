use squareword_gen::WordsFromValidCharsIter;
use squareword_gen::build_trie;
use squareword_gen::enumerate_words;

fn word_list(words: &[&str]) -> Vec<String> {
    let mut v = Vec::new();
    for w in words {
        v.push(w.to_string());
    }
    v
}

#[test]
fn enumerate_follows_constraint_order() {
    let trie = build_trie(&word_list(&["ab", "ba", "bb"]));
    let constraints = vec![vec!['a', 'b'], vec!['a', 'b']];
    let found = enumerate_words(&trie.root, &constraints);
    assert_eq!(found, word_list(&["ab", "ba", "bb"]));
}

#[test]
fn enumerate_produces_only_matching_vocabulary_words() {
    // Soundness on concrete values: each result is a vocabulary word and
    // draws every character from the matching constraint entry.
    let vocab = ["cat", "cot", "dot", "dog"];
    let trie = build_trie(&word_list(&vocab));
    let constraints = vec![vec!['c', 'd'], vec!['o'], vec!['t']];
    let found = enumerate_words(&trie.root, &constraints);
    assert_eq!(found, word_list(&["cot", "dot"]));
    for w in &found {
        assert!(vocab.contains(&w.as_str()));
        let chars: Vec<char> = w.chars().collect();
        assert!(constraints[0].contains(&chars[0]));
        assert!(constraints[1].contains(&chars[1]));
        assert!(constraints[2].contains(&chars[2]));
    }
}

#[test]
fn enumerate_finds_each_matching_word_exactly_once() {
    // Completeness on concrete values: "bad" matches and appears once.
    let trie = build_trie(&word_list(&["bad", "bud", "bid"]));
    let constraints = vec![vec!['b'], vec!['a', 'i', 'u'], vec!['d']];
    let found = enumerate_words(&trie.root, &constraints);
    assert_eq!(found, word_list(&["bad", "bid", "bud"]));
    let hits = found.iter().filter(|w| w.as_str() == "bad").count();
    assert_eq!(hits, 1);
}

#[test]
fn enumerate_prunes_branches_outside_trie_and_constraints() {
    let trie = build_trie(&word_list(&["ax", "by"]));
    // 'c' has no branch in the trie; 'y' is not allowed at position 1.
    let constraints = vec![vec!['a', 'b', 'c'], vec!['x']];
    let found = enumerate_words(&trie.root, &constraints);
    assert_eq!(found, word_list(&["ax"]));
}

#[test]
fn enumerate_with_no_positions_checks_terminal_only() {
    let trie = build_trie(&word_list(&["ab"]));
    let constraints: Vec<Vec<char>> = Vec::new();
    let found = enumerate_words(&trie.root, &constraints);
    assert!(found.is_empty());
}

#[test]
fn enumerate_empty_vocabulary_yields_nothing() {
    let trie = build_trie(&Vec::new());
    let constraints = vec![vec!['a', 'b'], vec!['a', 'b']];
    let found = enumerate_words(&trie.root, &constraints);
    assert!(found.is_empty());
}

#[test]
fn iterator_hands_out_words_one_at_a_time() {
    let trie = build_trie(&word_list(&["an", "at"]));
    let constraints = vec![vec!['a'], vec!['n', 't']];
    let mut it = WordsFromValidCharsIter::new(&trie.root, String::new(), &constraints);
    assert_eq!(it.next(), Some("an".to_string()));
    assert_eq!(it.next(), Some("at".to_string()));
    assert_eq!(it.next(), None);
    assert_eq!(it.next(), None);
}

#[test]
fn iterator_prepends_its_prefix() {
    let trie = build_trie(&word_list(&["n", "t"]));
    let constraints = vec![vec!['n', 't']];
    let mut it = WordsFromValidCharsIter::new(&trie.root, "a".to_string(), &constraints);
    assert_eq!(it.next(), Some("an".to_string()));
    assert_eq!(it.next(), Some("at".to_string()));
    assert_eq!(it.next(), None);
}

#[test]
fn iterator_supports_early_stop() {
    let trie = build_trie(&word_list(&["aa", "ab", "ac"]));
    let constraints = vec![vec!['a'], vec!['a', 'b', 'c']];
    let mut it = WordsFromValidCharsIter::new(&trie.root, String::new(), &constraints);
    // The caller may stop after the first result.
    assert_eq!(it.next(), Some("aa".to_string()));
}

#[test]
fn child_iterators_cover_every_viable_first_character() {
    let trie = build_trie(&word_list(&["ax", "bx", "cy"]));
    // 'c' is in the trie but cannot finish under these constraints; 'd'
    // has no branch at all.
    let constraints = vec![vec!['a', 'b', 'c', 'd'], vec!['x']];
    let iters = WordsFromValidCharsIter::make_child_iters(&trie.root, &constraints);
    let mut collected = Vec::new();
    for mut it in iters {
        while let Some(w) = it.next() {
            collected.push(w);
        }
    }
    assert_eq!(collected, word_list(&["ax", "bx"]));
}
