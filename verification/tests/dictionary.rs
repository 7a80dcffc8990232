use weaver::dict::Dictionary;
use weaver::dict::WordError;
use weaver::dict::find_word_index;
use weaver::dict::valid_word;
use weaver::dict::words_equal;

fn words(list: &[&str]) -> Vec<Vec<u8>> {
    list.iter().map(|w| w.as_bytes().to_vec()).collect()
}

fn dict(list: &[&str]) -> Dictionary {
    Dictionary::new(words(list)).expect("valid dictionary")
}

#[test]
fn dictionary_accepts_valid_words() {
    let d = dict(&["cold", "cord", "card", "ward", "warm"]);
    assert_eq!(d.len(), 5);
    assert_eq!(d.word_at(0).as_slice(), b"cold");
    assert_eq!(d.word_at(4).as_slice(), b"warm");
}

#[test]
fn dictionary_rejects_wrong_length() {
    assert!(Dictionary::new(words(&["cold", "word5"])).is_none());
    assert!(Dictionary::new(words(&["abc"])).is_none());
}

#[test]
fn dictionary_rejects_duplicates() {
    assert!(Dictionary::new(words(&["cold", "warm", "cold"])).is_none());
}

#[test]
fn dictionary_accepts_empty() {
    let d = Dictionary::new(Vec::new()).expect("empty dictionary is valid");
    assert_eq!(d.len(), 0);
}

#[test]
fn words_equal_compares_bytes() {
    assert!(words_equal(&b"cold".to_vec(), &b"cold".to_vec()));
    assert!(!words_equal(&b"cold".to_vec(), &b"cord".to_vec()));
    assert!(!words_equal(&b"cold".to_vec(), &b"col".to_vec()));
}

#[test]
fn matches_is_true_exactly_at_hamming_distance_one() {
    let d = dict(&["cold", "cord", "card", "ward", "warm"]);
    // one letter apart
    assert!(weaver::dict::matches(&d, 0, 1));
    assert!(weaver::dict::matches(&d, 1, 2));
    // symmetric
    assert!(weaver::dict::matches(&d, 1, 0));
    assert!(weaver::dict::matches(&d, 2, 1));
    // two letters apart
    assert!(!weaver::dict::matches(&d, 0, 2));
    assert!(!weaver::dict::matches(&d, 0, 4));
    // identical word: zero positions differ, so no match
    assert!(!weaver::dict::matches(&d, 3, 3));
}

#[test]
fn find_word_index_finds_first_occurrence() {
    let d = dict(&["cold", "cord", "card"]);
    assert_eq!(find_word_index(&d, &b"cord".to_vec()), Some(1));
    assert_eq!(find_word_index(&d, &b"cold".to_vec()), Some(0));
    assert_eq!(find_word_index(&d, &b"warm".to_vec()), None);
}

#[test]
fn valid_word_accepts_dictionary_entries() {
    let d = dict(&["cold", "cord"]);
    assert_eq!(valid_word(&d, &b"cord".to_vec()), Ok(b"cord".to_vec()));
}

#[test]
fn valid_word_rejects_wrong_length() {
    let d = dict(&["cold", "cord"]);
    assert_eq!(valid_word(&d, &b"col".to_vec()), Err(WordError::WrongLength));
    assert_eq!(valid_word(&d, &b"colds".to_vec()), Err(WordError::WrongLength));
}

#[test]
fn valid_word_rejects_unknown_words() {
    let d = dict(&["cold", "cord"]);
    assert_eq!(valid_word(&d, &b"warm".to_vec()), Err(WordError::NotInDictionary));
}
