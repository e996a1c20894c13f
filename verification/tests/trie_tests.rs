use squareword_gen::Trie;
use squareword_gen::TrieError;
use squareword_gen::build_trie;

fn word_list(words: &[&str]) -> Vec<String> {
    let mut v = Vec::new();
    for w in words {
        v.push(w.to_string());
    }
    v
}

#[test]
fn trie_membership_after_insert() {
    let words = word_list(&["aback", "badly", "cargo"]);
    let trie = build_trie(&words);
    assert!(trie.contains_word("aback"));
    assert!(trie.contains_word("badly"));
    assert!(trie.contains_word("cargo"));
}

#[test]
fn trie_rejects_absent_words() {
    let words = word_list(&["aback", "badly"]);
    let trie = build_trie(&words);
    assert!(!trie.contains_word("crane"));
    // A proper prefix of an inserted word ends at a non-terminal node.
    assert!(!trie.contains_word("aba"));
    // An extension of an inserted word runs off the tree.
    assert!(!trie.contains_word("abacka"));
    assert!(!trie.contains_word(""));
}

#[test]
fn trie_insert_is_idempotent() {
    let mut trie = Trie::new();
    trie.add_word("echo");
    trie.add_word("echo");
    assert!(trie.contains_word("echo"));
    assert!(!trie.contains_word("ech"));
}

#[test]
fn empty_trie_contains_nothing() {
    let trie = Trie::new();
    assert!(!trie.contains_word(""));
    assert!(!trie.contains_word("a"));
}

#[test]
fn checked_insert_accepts_matching_length() {
    let mut trie = Trie::new();
    assert_eq!(trie.add_word_checked("tree", 4), Ok(()));
    assert!(trie.contains_word("tree"));
}

#[test]
fn checked_insert_refuses_mismatched_length() {
    let mut trie = Trie::new();
    assert_eq!(trie.add_word_checked("tree", 5), Err(TrieError::InvalidWordLength));
    assert!(!trie.contains_word("tree"));
}

#[test]
fn add_words_inserts_every_word() {
    let words = word_list(&["on", "of", "or"]);
    let mut trie = Trie::new();
    trie.add_words(&words);
    assert!(trie.contains_word("on"));
    assert!(trie.contains_word("of"));
    assert!(trie.contains_word("or"));
    assert!(!trie.contains_word("ox"));
}
