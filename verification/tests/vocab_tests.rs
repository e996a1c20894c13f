use squareword_gen::filter_working_words;

fn word_list(words: &[&str]) -> Vec<String> {
    let mut v = Vec::new();
    for w in words {
        v.push(w.to_string());
    }
    v
}

#[test]
fn filter_keeps_legal_words_of_the_right_length_in_frequency_order() {
    let freq = word_list(&["the", "cat", "dogs", "dog", "a", "bird"]);
    let dict = word_list(&["cat", "dog", "bird", "owl"]);
    let picked = filter_working_words(&freq, &dict, 10, 3);
    assert_eq!(picked, word_list(&["cat", "dog"]));
}

#[test]
fn filter_caps_at_top_n() {
    let freq = word_list(&["one", "two", "six", "ten"]);
    let dict = word_list(&["one", "two", "six", "ten"]);
    let picked = filter_working_words(&freq, &dict, 2, 3);
    assert_eq!(picked, word_list(&["one", "two"]));
}

#[test]
fn filter_drops_words_missing_from_the_dictionary() {
    let freq = word_list(&["zzz", "cat"]);
    let dict = word_list(&["cat"]);
    let picked = filter_working_words(&freq, &dict, 5, 3);
    assert_eq!(picked, word_list(&["cat"]));
}

#[test]
fn filter_of_empty_inputs_is_empty() {
    let empty: Vec<String> = Vec::new();
    let dict = word_list(&["cat"]);
    assert!(filter_working_words(&empty, &dict, 5, 3).is_empty());
    assert!(filter_working_words(&dict, &empty, 5, 3).is_empty());
    assert!(filter_working_words(&dict, &dict, 0, 3).is_empty());
}
