use k0i::trie::Trie;

#[test]
fn search_finds_inserted_words_only() {
    let mut t = Trie::new();
    t.insert("apple".to_string());
    assert!(t.search("apple".to_string()));
    assert!(!t.search("app".to_string()));
    assert!(!t.search("apples".to_string()));
    t.insert("app".to_string());
    assert!(t.search("app".to_string()));
    assert!(t.search("apple".to_string()));
    assert!(!t.search("appl".to_string()));
}

#[test]
fn starts_with_accepts_prefixes_of_words() {
    let mut t = Trie::new();
    t.insert("apple".to_string());
    assert!(t.starts_with("app".to_string()));
    assert!(t.starts_with("apple".to_string()));
    assert!(!t.starts_with("apples".to_string()));
    assert!(!t.starts_with("b".to_string()));
    assert!(t.starts_with(String::new()));
}

#[test]
fn empty_tree_holds_no_word() {
    let t = Trie::new();
    assert!(!t.search(String::new()));
    assert!(!t.search("a".to_string()));
    assert!(t.starts_with(String::new()));
    assert!(!t.starts_with("a".to_string()));
}

#[test]
fn empty_word_can_be_stored() {
    let mut t = Trie::new();
    t.insert(String::new());
    assert!(t.search(String::new()));
    assert!(!t.search("x".to_string()));
}

#[test]
fn words_with_shared_and_wide_characters() {
    let mut t = Trie::new();
    t.insert("héllo".to_string());
    t.insert("hélium".to_string());
    t.insert("hello".to_string());
    assert!(t.search("héllo".to_string()));
    assert!(t.search("hello".to_string()));
    assert!(t.starts_with("hél".to_string()));
    assert!(!t.search("hél".to_string()));
    assert!(!t.starts_with("hex".to_string()));
}
