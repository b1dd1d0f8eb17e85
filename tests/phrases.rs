use letterwords::phrase::{count_characters, count_words, extend_phrase};
use letterwords::search::{admits_first_word, admits_next_word, count_phrases, find_phrases};

fn dictionary(words: &[&str]) -> Vec<String> {
    words.iter().map(|w| w.to_string()).collect()
}

#[test]
fn two_words_of_four_letters() {
    let dict = dictionary(&["a", "an", "cat"]);
    assert_eq!(count_phrases(&dict, 2, 4), 3);
    let mut found = find_phrases(&dict, 2, 4);
    found.sort();
    assert_eq!(found, vec!["a cat", "an an", "cat a"]);
}

#[test]
fn single_word_hit() {
    let dict = dictionary(&["hi"]);
    assert_eq!(count_phrases(&dict, 1, 2), 1);
    assert_eq!(find_phrases(&dict, 1, 2), vec!["hi"]);
}

#[test]
fn single_word_miss() {
    let dict = dictionary(&["hi"]);
    assert_eq!(count_phrases(&dict, 1, 3), 0);
}

#[test]
fn empty_dictionary() {
    let dict: Vec<String> = Vec::new();
    assert_eq!(count_phrases(&dict, 1, 1), 0);
    assert_eq!(count_phrases(&dict, 3, 10), 0);
    assert_eq!(count_phrases(&dict, 0, 0), 0);
}

#[test]
fn too_few_letters_for_the_words() {
    let dict = dictionary(&["a", "an", "cat"]);
    assert_eq!(count_phrases(&dict, 3, 1), 0);
}

#[test]
fn zero_words_finds_nothing() {
    let dict = dictionary(&["a", "an", "cat"]);
    assert_eq!(count_phrases(&dict, 0, 0), 0);
    assert_eq!(count_phrases(&dict, 0, 3), 0);
}

#[test]
fn degenerate_letter_target() {
    let dict = dictionary(&["", "a"]);
    assert_eq!(count_phrases(&dict, 4, 1), 0);
}

#[test]
fn every_match_has_the_target_counts() {
    let dict = dictionary(&["a", "bb", "ccc", "dd"]);
    let found = find_phrases(&dict, 3, 6);
    assert!(!found.is_empty());
    for phrase in &found {
        assert_eq!(count_words(phrase), 3);
        assert_eq!(count_characters(phrase), 6);
    }
}

fn brute_force(dict: &[String], words: usize, letters: usize) -> usize {
    if words == 0 {
        return if letters == 0 { 1 } else { 0 };
    }
    let mut total = 0;
    for w in dict {
        if w.chars().count() <= letters {
            total += brute_force(dict, words - 1, letters - w.chars().count());
        }
    }
    total
}

#[test]
fn count_equals_all_word_sequences() {
    let dict = dictionary(&["a", "bb", "ccc", "dd", "e", "fghij"]);
    for words in 1..5u32 {
        for letters in 0..12u32 {
            assert_eq!(
                count_phrases(&dict, words, letters),
                brute_force(&dict, words as usize, letters as usize),
                "{} words, {} letters",
                words,
                letters
            );
        }
    }
}

#[test]
fn repeated_entries_count_apart() {
    let dict = dictionary(&["ab", "ab"]);
    assert_eq!(count_phrases(&dict, 2, 4), 4);
}

#[test]
fn words_with_spaces_follow_the_space_count() {
    let dict = dictionary(&["a b"]);
    assert_eq!(count_phrases(&dict, 2, 2), 0);
    assert_eq!(count_phrases(&dict, 1, 2), 0);
    let dict = dictionary(&["a b", "c"]);
    assert_eq!(find_phrases(&dict, 3, 3), vec!["c c c"]);
}

#[test]
fn characters_exclude_spaces() {
    assert_eq!(count_characters(&"an old cat".to_string()), 8);
    assert_eq!(count_characters(&String::new()), 0);
    assert_eq!(count_characters(&"   ".to_string()), 0);
    assert_eq!(count_characters(&"héllo".to_string()), 5);
}

#[test]
fn words_are_spaces_plus_one() {
    assert_eq!(count_words(&"an old cat".to_string()), 3);
    assert_eq!(count_words(&"cat".to_string()), 1);
    assert_eq!(count_words(&String::new()), 1);
    assert_eq!(count_words(&"a  b".to_string()), 3);
}

#[test]
fn extending_adds_a_separator() {
    let r = extend_phrase(&"a".to_string(), &"cat".to_string());
    assert_eq!(r, "a cat");
}

#[test]
fn first_word_bound() {
    assert!(admits_first_word(3, 2, 4));
    assert!(!admits_first_word(4, 2, 4));
    assert!(!admits_first_word(0, 0, 4));
    assert!(!admits_first_word(0, 3, 1));
    assert!(admits_first_word(0, 2, 1));
    assert!(admits_first_word(0, u32::MAX, u32::MAX));
}

#[test]
fn next_word_bound() {
    assert!(admits_next_word(1, 1, 2, 3, 4));
    assert!(!admits_next_word(1, 1, 3, 3, 4));
    assert!(admits_next_word(1, 2, 3, 3, 4));
    assert!(!admits_next_word(4, 1, 0, 3, 4));
    assert!(!admits_next_word(1, 3, 1, 3, 4));
    assert!(!admits_next_word(1, 1, 5, 3, 4));
}
