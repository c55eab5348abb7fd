use crawdad::Trie;

#[test]
fn single_key_trie() {
    let trie = Trie::from_keys(&["a"]).unwrap();
    assert_eq!(trie.exact_match("a"), Some(0));
    assert_eq!(trie.exact_match("aa"), None);
    assert_eq!(trie.exact_match(""), None);
}

#[test]
fn prefix_keys_use_synthetic_leaves() {
    let trie = Trie::from_keys(&["a", "ab", "abc", "b"]).unwrap();
    assert_eq!(trie.exact_match("a"), Some(0));
    assert_eq!(trie.exact_match("ab"), Some(1));
    assert_eq!(trie.exact_match("abc"), Some(2));
    assert_eq!(trie.exact_match("b"), Some(3));
    assert_eq!(trie.exact_match("abcd"), None);
}
