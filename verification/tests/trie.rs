use search::trie::Trie;

#[test]
fn test_insert_and_get() {
    let mut trie = Trie::new();
    trie.insert("hello", 42);

    assert_eq!(trie.get("hello"), Some(42));
    assert_eq!(trie.get("world"), None);
}

#[test]
fn test_get_by_prefix() {
    let mut trie = Trie::new();
    trie.insert("hello", 42);
    trie.insert("help", 99);
    trie.insert("world", 123);

    let a = vec![42, 99];
    assert!(trie.get_by_prefix("hel").iter().all(|e| a.contains(e)))
}

#[test]
fn trie_prefix_lists_every_value_once() {
    let mut trie = Trie::new();
    trie.insert("hello", 42);
    trie.insert("help", 99);
    trie.insert("world", 123);
    trie.insert("hel", 7);

    let mut found = trie.get_by_prefix("hel");
    found.sort();
    assert_eq!(found, vec![7, 42, 99]);
    assert_eq!(trie.get_by_prefix("x"), Vec::<i32>::new());
    let mut all = trie.get_by_prefix("");
    all.sort();
    assert_eq!(all, vec![7, 42, 99, 123]);
}

#[test]
fn trie_insert_overwrites() {
    let mut trie = Trie::new();
    trie.insert("a", 1u8);
    trie.insert("a", 2u8);
    assert_eq!(trie.get("a"), Some(2));
    assert_eq!(trie.get(""), None);
    trie.insert("", 3u8);
    assert_eq!(trie.get(""), Some(3));
}

#[test]
fn trie_prefix_gives_one_value_for_each_word() {
    let mut trie = Trie::new();
    trie.insert("hello", 42);
    trie.insert("help", 99);
    trie.insert("world", 123);

    let mut found = trie.get_by_prefix("hel");
    found.sort();
    assert_eq!(found, [42, 99]);

    // equal values of different words are listed once each
    trie.insert("helm", 42);
    let mut found = trie.get_by_prefix("hel");
    found.sort();
    assert_eq!(found, [42, 42, 99]);
    assert_eq!(trie.get_by_prefix("hello"), [42]);
    assert_eq!(trie.get_by_prefix("hellos"), Vec::<i32>::new());
}
