use spellcast_solver::trie::Trie;

#[test]
fn empty() {
    let trie = Trie::new();
    assert!(!trie.search("hello"));
    assert!(!trie.search(""));
    assert_eq!(trie.word_count(), 0);
}

#[test]
fn empty_string() {
    let mut trie = Trie::new();
    trie.insert("hello");
    assert!(!trie.search(""));
    trie.insert("");
    assert!(trie.search(""));
    assert_eq!(trie.word_count(), 2);
}

#[test]
fn hello_world() {
    let mut trie = Trie::new();
    trie.insert("hello");
    trie.insert("world");
    assert!(trie.search("hello"));
    assert!(trie.search("world"));
    assert!(!trie.search("hell"));
    assert!(!trie.search("wor"));
    assert!(!trie.search("worlds"));
}

#[test]
fn word_count() {
    let mut trie = Trie::new();
    trie.insert("hello");
    trie.insert("world");
    assert_eq!(trie.word_count(), 2);
}

#[test]
fn words() {
    let mut trie = Trie::new();
    trie.insert("hello");
    trie.insert("world");
    let words = trie.words();
    assert_eq!(words.len(), 2);
    assert!(words.contains(&"hello".to_string()));
    assert!(words.contains(&"world".to_string()));
}

#[test]
fn insert_is_idempotent() {
    let mut trie = Trie::new();
    trie.insert("cat");
    trie.insert("cat");
    assert_eq!(trie.word_count(), 1);
    assert!(trie.search("cat"));
}

#[test]
fn membership_survives_later_inserts() {
    let mut trie = Trie::new();
    trie.insert("cat");
    assert!(trie.search("cat"));
    trie.insert("car");
    trie.insert("ca");
    trie.insert("c");
    assert!(trie.search("cat"));
    assert!(trie.search("car"));
    assert!(trie.search("ca"));
    assert!(trie.search("c"));
}

#[test]
fn prefixes_of_inserted_words() {
    let mut trie = Trie::new();
    trie.insert("hello");
    assert!(trie.starts_with(""));
    assert!(trie.starts_with("h"));
    assert!(trie.starts_with("hell"));
    assert!(trie.starts_with("hello"));
    assert!(!trie.starts_with("hex"));
    assert!(!trie.starts_with("hellos"));
}

#[test]
fn empty_prefix_on_empty_trie() {
    let trie = Trie::new();
    assert!(trie.starts_with(""));
    assert!(!trie.starts_with("a"));
}

#[test]
fn predictive_search_sorted_prefix() {
    let mut trie = Trie::new();
    trie.insert("cat");
    trie.insert("car");
    trie.insert("cab");
    let found = trie.predictive_search("ca");
    assert_eq!(
        found,
        vec!["cab".to_string(), "car".to_string(), "cat".to_string()]
    );
    assert_eq!(trie.word_count(), 3);
}

#[test]
fn predictive_search_no_match() {
    let mut trie = Trie::new();
    trie.insert("cat");
    let found = trie.predictive_search("dog");
    assert!(found.is_empty());
}

#[test]
fn predictive_search_empty_prefix_lists_all() {
    let mut trie = Trie::new();
    trie.insert("b");
    trie.insert("a");
    trie.insert("");
    let found = trie.predictive_search("");
    assert_eq!(
        found,
        vec!["".to_string(), "a".to_string(), "b".to_string()]
    );
}

#[test]
fn insert_empty_word() {
    let mut trie = Trie::new();
    trie.insert("");
    assert!(trie.search(""));
    trie.insert("bat");
    assert!(trie.search(""));
    assert!(trie.search("bat"));
    assert_eq!(trie.word_count(), 2);
}

#[test]
fn flat_format_lists_sorted_lines() {
    let mut trie = Trie::new();
    trie.insert("world");
    trie.insert("hello");
    assert_eq!(trie.flat_format(), "hello\nworld\n");
}

#[test]
fn indent_format_nests_children() {
    let mut trie = Trie::new();
    trie.insert("ab");
    assert_eq!(trie.indent_format(0), "a\n  b (end)\n");
    assert_eq!(trie.indent_format(1), "  a\n    b (end)\n");
}

#[test]
fn default_is_empty() {
    let trie = Trie::default();
    assert_eq!(trie.word_count(), 0);
    assert!(!trie.search(""));
}
