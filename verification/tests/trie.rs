use algorithms::string::trie::Trie;

fn keys(word: &str) -> Vec<char> {
    word.chars().collect()
}

#[test]
fn test() {
    let mut trie: Trie<char, bool> = Trie::new();
    trie.insert(&keys("to"), true);
    trie.insert(&keys("A"), true);
    trie.insert(&keys("tea"), true);
    trie.insert(&keys("ted"), true);
    trie.insert(&keys("ten"), true);
    trie.insert(&keys("inn"), true);

    let not_exist_words = vec!["t", "tod", "B", "todd", "te", "teab", "in", "innnn"];
    for word in not_exist_words {
        assert!(!trie.get(&keys(word)).unwrap_or(false));
    }
    let exist_words = vec!["to", "A", "tea", "ted", "ten", "inn"];
    for word in exist_words {
        assert!(trie.get(&keys(word)).unwrap_or(false));
    }
}

#[test]
fn new_trie_holds_the_default_at_the_empty_path() {
    let trie: Trie<u8, u32> = Trie::new();
    assert_eq!(Some(0), trie.get(&[]));
    assert_eq!(None, trie.get(&[1]));
    assert_eq!(0, trie.cursor().get_data(&trie));
}

#[test]
fn insert_makes_the_prefixes_with_default_data() {
    let mut trie: Trie<u8, u32> = Trie::new();
    trie.insert(&[1, 2, 3], 7);
    assert_eq!(Some(0), trie.get(&[]));
    assert_eq!(Some(0), trie.get(&[1]));
    assert_eq!(Some(0), trie.get(&[1, 2]));
    assert_eq!(Some(7), trie.get(&[1, 2, 3]));
    assert_eq!(None, trie.get(&[1, 2, 3, 4]));
    assert_eq!(None, trie.get(&[2]));
    assert_eq!(None, trie.get(&[1, 3]));
}

#[test]
fn insert_keeps_what_the_trie_held() {
    let mut trie: Trie<u8, u32> = Trie::new();
    trie.insert(&[1, 2], 5);
    trie.insert(&[1], 4);
    trie.insert(&[1, 2, 3], 6);
    trie.insert(&[9], 1);
    assert_eq!(Some(4), trie.get(&[1]));
    assert_eq!(Some(5), trie.get(&[1, 2]));
    assert_eq!(Some(6), trie.get(&[1, 2, 3]));
    assert_eq!(Some(1), trie.get(&[9]));
    trie.insert(&[1, 2], 8);
    assert_eq!(Some(8), trie.get(&[1, 2]));
    assert_eq!(Some(6), trie.get(&[1, 2, 3]));
    trie.insert(&[], 3);
    assert_eq!(Some(3), trie.get(&[]));
    assert_eq!(Some(4), trie.get(&[1]));
}

#[test]
fn cursor_walks_down_and_reads() {
    let mut trie: Trie<char, u8> = Trie::new();
    trie.insert(&keys("ab"), 2);
    trie.insert(&keys("a"), 1);
    let root = trie.cursor();
    assert_eq!(0, root.get_data(&trie));
    assert!(root.to_child(&trie, &'b').is_none());
    let a = root.to_child(&trie, &'a').unwrap();
    assert_eq!(1, a.get_data(&trie));
    let ab = a.to_child(&trie, &'b').unwrap();
    assert_eq!(2, ab.get_data(&trie));
    assert!(ab.to_child(&trie, &'a').is_none());
    assert!(a.to_child(&trie, &'a').is_none());
}

#[test]
fn cursor_sets_data_and_stays_good_while_the_trie_grows() {
    let mut trie: Trie<char, u8> = Trie::new();
    trie.insert(&keys("ab"), 2);
    let a = trie.cursor().to_child(&trie, &'a').unwrap();
    assert_eq!(0, a.get_data(&trie));
    a.set_data(&mut trie, 9);
    assert_eq!(Some(9), trie.get(&keys("a")));
    assert_eq!(Some(2), trie.get(&keys("ab")));
    trie.insert(&keys("xyz"), 4);
    trie.insert(&keys("ac"), 5);
    assert_eq!(9, a.get_data(&trie));
    let ac = a.to_child(&trie, &'c').unwrap();
    assert_eq!(5, ac.get_data(&trie));
    trie.cursor().set_data(&mut trie, 8);
    assert_eq!(Some(8), trie.get(&[]));
}
