use trie_alg::trie::charset::{LowerCase, LowerCaseWithHash, UpperCase};
use trie_alg::trie::{MultiTrie, Trie};

#[test]
fn trie_works() {
    let mut t = Trie::<LowerCase>::new();
    t.add("abc");
    assert!(t.contains("abc"));
    assert!(!t.contains("a"));
}

#[test]
fn multi_trie_works() {
    let mut t = MultiTrie::<LowerCase>::new();
    t.add("abc");
    assert_eq!(t.count("abc"), 1);
    t.add("abc");
    assert_eq!(t.count("abc"), 2);
    assert!(t.contains("abc"));
    assert!(!t.contains("a"));
    assert_eq!(t.count("a"), 0);
}

#[test]
fn custom_charset_works() {
    let mut t = MultiTrie::<LowerCaseWithHash>::new();
    t.add("abc");
    assert_eq!(t.count("abc"), 1);
    t.add("abc");
    assert_eq!(t.count("abc"), 2);
    t.add("ab#c");
    t.add("ab#c");
    assert_eq!(t.count("ab#c"), 2);
    assert!(t.contains("abc"));
    assert!(!t.contains("a"));
    assert_eq!(t.count("a"), 0);
}

#[test]
fn multi_trie_works_uppercase() {
    let mut t = MultiTrie::<UpperCase>::new();
    t.add("ABC");
    assert_eq!(t.count("ABC"), 1);
    t.add("ABC");
    assert_eq!(t.count("ABC"), 2);
    assert!(t.contains("ABC"));
    assert!(!t.contains("A"));
    assert_eq!(t.count("A"), 0);
}

#[test]
fn test_single_add() {
    let mut trie = Trie::<LowerCase>::new();
    trie.add("string");
    assert!(trie.contains("string"));
}

#[test]
fn test_single_eq() {
    let mut trie1 = Trie::<LowerCase>::new();
    assert!(trie1.add("string"));
    assert!(!trie1.add("string"));
}

#[test]
fn test_multi_add() {
    let mut trie = MultiTrie::<LowerCase>::new();
    trie.add("string");
    assert!(trie.contains("string"));
}

#[test]
fn test_multi_eq() {
    let mut trie = MultiTrie::<LowerCase>::new();
    assert!(trie.add("string"));
    assert!(!trie.add("string"));
    assert_eq!(trie.count("string"), 2);
}
