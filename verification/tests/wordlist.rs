use spellcast_solver::wordlist::is_accepted;
use spellcast_solver::wordlist::load;
use spellcast_solver::wordlist::load_filtered;

#[test]
fn uppercase_policy_folds_and_keeps_all() {
    let trie = load(&["hello", "world", "Hi"]);
    assert!(trie.search("HELLO"));
    assert!(!trie.search("hi"));
    assert!(trie.search("HI"));
    assert_eq!(trie.word_count(), 3);
}

#[test]
fn uppercase_policy_keeps_blank_lines() {
    let trie = load(&["", "cat"]);
    assert!(trie.search(""));
    assert!(trie.search("CAT"));
    assert_eq!(trie.word_count(), 2);
}

#[test]
fn uppercase_policy_counts_duplicates_once() {
    let trie = load(&["cat", "CAT", "Cat"]);
    assert_eq!(trie.word_count(), 1);
}

#[test]
fn filtered_policy_keeps_lowercase_or_empty() {
    let trie = load_filtered(&["ab", "abc", "ABC", ""]);
    assert_eq!(trie.word_count(), 2);
    assert!(trie.search("abc"));
    assert!(trie.search(""));
    assert!(!trie.search("ab"));
    assert!(!trie.search("ABC"));
}

#[test]
fn acceptance_rule() {
    assert!(is_accepted(""));
    assert!(is_accepted("abc"));
    assert!(is_accepted("zzzz"));
    assert!(!is_accepted("ab"));
    assert!(!is_accepted("aBc"));
    assert!(!is_accepted("ab3"));
    assert!(!is_accepted("a b"));
}

#[test]
fn loaded_words_round_trip_sorted() {
    let trie = load(&["banana", "apple", "cherry", "apple"]);
    let words = trie.words();
    assert_eq!(
        words,
        vec![
            "APPLE".to_string(),
            "BANANA".to_string(),
            "CHERRY".to_string()
        ]
    );
}
