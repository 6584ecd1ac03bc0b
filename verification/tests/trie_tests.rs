use algorithms::trie::Trie;

#[test]
fn trie_test_contains() {
    let mut trie = Trie::new();

    assert!(!trie.contains("a"));

    trie.add("abc");
    assert!(trie.contains("abc"));

    assert!(!trie.contains("ab"));
    assert!(!trie.contains("bca"));
    assert!(!trie.contains("abcd"));

    assert!(trie.contains_prefix("ab"));
    assert!(!trie.contains_prefix("bca"));

    trie.add("abcde");
    assert!(trie.contains("abcde"));
}

#[test]
fn trie_stores_empty_word() {
    let mut trie = Trie::new();
    assert!(!trie.contains(""));
    assert!(trie.contains_prefix(""));
    trie.add("");
    assert!(trie.contains(""));
}

#[test]
fn trie_sibling_words() {
    let mut trie = Trie::new();
    trie.add("car");
    trie.add("cart");
    trie.add("cat");
    assert!(trie.contains("car"));
    assert!(trie.contains("cart"));
    assert!(trie.contains("cat"));
    assert!(!trie.contains("ca"));
    assert!(trie.contains_prefix("ca"));
    assert!(!trie.contains_prefix("cab"));
}
