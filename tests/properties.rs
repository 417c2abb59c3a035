use trie_alg::trie::charset::{Ascii, LowerCase, LowerCaseWithHash, UpperCase};
use trie_alg::trie::member::MemberType;
use trie_alg::trie::{CharSet, MultiTrie, Trie};

#[test]
fn new_trie_contains_nothing() {
    let t = Trie::<LowerCase>::new();
    assert!(!t.contains(""));
    assert!(!t.contains("a"));
    assert!(!t.contains("abc"));
    let m = MultiTrie::<LowerCase>::new();
    assert!(!m.contains(""));
    assert!(!m.contains("abc"));
    assert_eq!(m.count("abc"), 0);
    assert_eq!(m.count(""), 0);
}

#[test]
fn added_strings_are_contained() {
    let mut t = Trie::<LowerCase>::new();
    for s in ["hello", "help", "he", "world"] {
        t.add(s);
        assert!(t.contains(s));
    }
    assert!(t.contains("hello"));
    assert!(t.contains("help"));
    assert!(t.contains("he"));
    assert!(t.contains("world"));
    assert!(!t.contains("hel"));
    assert!(!t.contains("h"));
}

#[test]
fn presence_add_true_once_per_string() {
    let mut t = Trie::<LowerCase>::new();
    assert!(t.add("cat"));
    assert!(t.add("car"));
    assert!(!t.add("cat"));
    assert!(t.add("ca"));
    assert!(!t.add("car"));
    assert!(!t.add("ca"));
    assert!(!t.add("cat"));
}

#[test]
fn counting_add_true_only_first_time() {
    let mut m = MultiTrie::<LowerCase>::new();
    assert!(m.add("dog"));
    for k in 2..=5u32 {
        assert!(!m.add("dog"));
        assert_eq!(m.count("dog"), k);
    }
    assert_eq!(m.count("dog"), 5);
    assert!(m.add("do"));
    assert_eq!(m.count("do"), 1);
    assert_eq!(m.count("dog"), 5);
}

#[test]
fn strict_prefix_is_not_contained() {
    let mut t = Trie::<LowerCase>::new();
    t.add("abcd");
    assert!(!t.contains("abc"));
    assert!(!t.contains("ab"));
    assert!(!t.contains("a"));
    assert!(!t.contains(""));
    t.add("ab");
    assert!(t.contains("ab"));
    assert!(!t.contains("abc"));
}

#[test]
fn never_added_counts_zero() {
    let mut m = MultiTrie::<LowerCase>::new();
    m.add("abcd");
    m.add("abcd");
    assert_eq!(m.count("abc"), 0);
    assert_eq!(m.count("a"), 0);
    assert_eq!(m.count(""), 0);
    assert_eq!(m.count("xyz"), 0);
    assert_eq!(m.count("abcde"), 0);
    assert_eq!(m.count("abcd"), 2);
}

#[test]
fn presence_scenario_abc() {
    let mut t = Trie::<LowerCase>::new();
    t.add("abc");
    assert!(t.contains("abc"));
    assert!(!t.contains("a"));
    assert!(!t.contains("ab"));
}

#[test]
fn counting_scenario_abc_twice() {
    let mut m = MultiTrie::<LowerCase>::new();
    m.add("abc");
    m.add("abc");
    assert_eq!(m.count("abc"), 2);
    assert!(m.contains("abc"));
    assert_eq!(m.count("a"), 0);
}

#[test]
fn overflow_slot_does_not_collide() {
    let mut m = MultiTrie::<LowerCaseWithHash>::new();
    m.add("ab#c");
    m.add("ab#c");
    assert_eq!(m.count("ab#c"), 2);
    assert_eq!(m.count("abc"), 0);
    m.add("abc");
    assert_eq!(m.count("abc"), 1);
    assert_eq!(m.count("ab#c"), 2);
    // every character outside a..z shares the overflow slot
    assert_eq!(m.count("ab!c"), 2);
}

#[test]
fn empty_string_marks_root_only() {
    let mut t = Trie::<LowerCase>::new();
    assert!(t.add(""));
    assert!(t.contains(""));
    assert!(!t.contains("a"));
    assert!(!t.add(""));
    let mut m = MultiTrie::<LowerCase>::new();
    m.add("a");
    assert_eq!(m.count(""), 0);
    assert!(m.add(""));
    assert!(!m.add(""));
    assert_eq!(m.count(""), 2);
    assert_eq!(m.count("a"), 1);
}

#[test]
fn uppercase_presence() {
    let mut t = Trie::<UpperCase>::new();
    assert!(t.add("HELLO"));
    assert!(t.contains("HELLO"));
    assert!(!t.contains("HELL"));
}

#[test]
fn ascii_trie_mixed_characters() {
    let mut m = MultiTrie::<Ascii>::new();
    m.add("Hello, World!");
    m.add("hello, world!");
    m.add("Hello, World!");
    assert_eq!(m.count("Hello, World!"), 2);
    assert_eq!(m.count("hello, world!"), 1);
    assert_eq!(m.count("Hello"), 0);
    assert!(!m.contains("hello"));
}

#[test]
fn lowercase_map_and_unmap() {
    assert_eq!(LowerCase::SIZE, 26);
    assert_eq!(LowerCase::map('a'), 0);
    assert_eq!(LowerCase::map('c'), 2);
    assert_eq!(LowerCase::map('z'), 25);
    assert_eq!(LowerCase::unmap(2), 'c');
    assert_eq!(LowerCase::unmap(25), 'z');
    // characters outside a..z go to the nearer end
    assert_eq!(LowerCase::map('A'), 0);
    assert_eq!(LowerCase::map('{'), 25);
}

#[test]
fn uppercase_map_and_unmap() {
    assert_eq!(UpperCase::SIZE, 26);
    assert_eq!(UpperCase::map('A'), 0);
    assert_eq!(UpperCase::map('Q'), 16);
    assert_eq!(UpperCase::unmap(16), 'Q');
    assert_eq!(UpperCase::map('a'), 25);
    assert_eq!(UpperCase::map('0'), 0);
}

#[test]
fn ascii_map_and_unmap() {
    assert_eq!(Ascii::SIZE, 256);
    assert_eq!(Ascii::map('A'), 65);
    assert_eq!(Ascii::map('\u{ff}'), 255);
    assert_eq!(Ascii::unmap(65), 'A');
    assert_eq!(Ascii::unmap(233), '\u{e9}');
    assert_eq!(Ascii::map('\u{100}'), 255);
}

#[test]
fn hash_set_map_and_unmap() {
    assert_eq!(LowerCaseWithHash::SIZE, 27);
    assert_eq!(LowerCaseWithHash::map('b'), 1);
    assert_eq!(LowerCaseWithHash::map('#'), 26);
    assert_eq!(LowerCaseWithHash::map('Z'), 26);
    assert_eq!(LowerCaseWithHash::unmap(1), 'b');
    assert_eq!(LowerCaseWithHash::unmap(26), '#');
}

#[test]
fn presence_cell_add() {
    let mut c = <bool as MemberType>::absent();
    assert!(!c.is_member());
    assert!(!MemberType::add(&mut c));
    assert!(c.is_member());
    assert!(MemberType::add(&mut c));
    assert!(c);
}

#[test]
fn counting_cell_add_and_limit() {
    let mut c = <u32 as MemberType>::absent();
    assert!(!c.is_member());
    assert_eq!(MemberType::add(&mut c), 0);
    assert_eq!(MemberType::add(&mut c), 1);
    assert_eq!(c, 2);
    assert!(c.is_member());
    let mut full: u32 = u32::MAX;
    assert_eq!(MemberType::add(&mut full), u32::MAX);
    assert_eq!(full, u32::MAX);
    assert!(full.is_member());
}

#[test]
fn every_slot_round_trips() {
    for h in 0..LowerCase::SIZE {
        assert_eq!(LowerCase::map(LowerCase::unmap(h)), h);
    }
    for h in 0..UpperCase::SIZE {
        assert_eq!(UpperCase::map(UpperCase::unmap(h)), h);
    }
    for h in 0..Ascii::SIZE {
        assert_eq!(Ascii::map(Ascii::unmap(h)), h);
    }
    for h in 0..LowerCaseWithHash::SIZE {
        assert_eq!(LowerCaseWithHash::map(LowerCaseWithHash::unmap(h)), h);
    }
}
