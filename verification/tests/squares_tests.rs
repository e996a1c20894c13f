use squareword_gen::build_trie;
use squareword_gen::find_squares;
use squareword_gen::gen_first_row;

fn word_list(words: &[&str]) -> Vec<String> {
    let mut v = Vec::new();
    for w in words {
        v.push(w.to_string());
    }
    v
}

fn square(rows: &[&str]) -> Vec<String> {
    word_list(rows)
}

#[test]
fn three_letter_vocabulary_forms_its_cyclic_square() {
    // "abc" / "bcd" / "cda" happens to be symmetric: cell (i, j) always
    // equals cell (j, i), and every column repeats a row.
    let trie = build_trie(&word_list(&["abc", "bcd", "cda"]));
    let found = find_squares(&trie, 3, None);
    assert_eq!(found, vec![square(&["abc", "bcd", "cda"])]);
}

#[test]
fn two_by_two_square_and_its_reflection_are_distinct_outputs() {
    let trie = build_trie(&word_list(&["ab", "ba"]));
    let found = find_squares(&trie, 2, None);
    assert_eq!(found, vec![square(&["ab", "ba"]), square(&["ba", "ab"])]);
}

#[test]
fn one_cell_squares_come_in_alphabetical_order() {
    // Insertion order does not matter; candidate order is alphabetical.
    let trie = build_trie(&word_list(&["b", "c", "a"]));
    let found = find_squares(&trie, 1, None);
    assert_eq!(found, vec![square(&["a"]), square(&["b"]), square(&["c"])]);
}

#[test]
fn empty_vocabulary_yields_no_squares() {
    let trie = build_trie(&Vec::new());
    assert!(find_squares(&trie, 1, None).is_empty());
    assert!(find_squares(&trie, 2, None).is_empty());
    assert!(find_squares(&trie, 5, None).is_empty());
}

#[test]
fn vocabulary_of_wrong_length_yields_no_squares() {
    let trie = build_trie(&word_list(&["ab", "ba"]));
    assert!(find_squares(&trie, 3, None).is_empty());
}

#[test]
fn all_two_by_two_squares_in_deterministic_order() {
    let trie = build_trie(&word_list(&["aa", "ab", "ba", "bb"]));
    let found = find_squares(&trie, 2, None);
    let expected = vec![
        square(&["aa", "aa"]),
        square(&["aa", "ab"]),
        square(&["ab", "ba"]),
        square(&["ab", "bb"]),
        square(&["ba", "aa"]),
        square(&["ba", "ab"]),
        square(&["bb", "ba"]),
        square(&["bb", "bb"]),
    ];
    assert_eq!(found, expected);
}

#[test]
fn every_emitted_square_is_symmetric_and_made_of_vocabulary_words() {
    let vocab = ["aa", "ab", "ba", "bb"];
    let trie = build_trie(&word_list(&vocab));
    for sq in find_squares(&trie, 2, None) {
        assert_eq!(sq.len(), 2);
        for row in &sq {
            assert_eq!(row.len(), 2);
            assert!(vocab.contains(&row.as_str()));
        }
        let grid: Vec<Vec<char>> = sq.iter().map(|r| r.chars().collect()).collect();
        for i in 0..2 {
            for j in 0..2 {
                assert_eq!(grid[i][j], grid[j][i]);
            }
        }
    }
}

#[test]
fn limit_caps_the_number_of_squares() {
    let trie = build_trie(&word_list(&["a", "b", "c"]));
    let found = find_squares(&trie, 1, Some(2));
    assert_eq!(found, vec![square(&["a"]), square(&["b"])]);
    assert!(find_squares(&trie, 1, Some(0)).is_empty());
    let uncapped = find_squares(&trie, 1, Some(10));
    assert_eq!(uncapped.len(), 3);
}

#[test]
fn first_row_demo_recovers_each_word_that_is_in_the_trie() {
    let trie = build_trie(&word_list(&["ab", "cd"]));
    let probes = word_list(&["ab", "xy", "cd"]);
    let rows = gen_first_row(&trie, &probes);
    assert_eq!(rows.len(), 3);
    assert_eq!(rows[0], word_list(&["ab"]));
    assert!(rows[1].is_empty());
    assert_eq!(rows[2], word_list(&["cd"]));
}
