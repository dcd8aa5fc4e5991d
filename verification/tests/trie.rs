use rastd::trie::HashTrie;
use std::collections::HashSet;

#[test]
fn trie_absent() {
    let trie = HashTrie::<u8, i32>::new();
    assert_eq!(trie.get("foobar".as_bytes()), None);
}

#[test]
fn trie_present() {
    let mut trie = HashTrie::new();
    trie.insert("foobar".as_bytes(), 3);
    assert_eq!(trie.get("foobar".as_bytes()), Some(&3));
}

#[test]
fn trie_overwrite() {
    let mut trie = HashTrie::new();
    trie.insert("foobar".as_bytes(), 3);
    trie.insert("foobar".as_bytes(), 5);
    assert_eq!(trie.get("foobar".as_bytes()), Some(&5));
}

#[test]
fn trie_insert_child() {
    let mut trie = HashTrie::new();
    trie.insert("foo".as_bytes(), 3);
    trie.insert("foobar".as_bytes(), 5);
    assert_eq!(trie.get("foo".as_bytes()), Some(&3));
    assert_eq!(trie.get("foobar".as_bytes()), Some(&5));
}

#[test]
fn trie_remove() {
    let mut trie = HashTrie::new();
    trie.insert("foobar".as_bytes(), 3);
    assert_eq!(trie.remove("foobar".as_bytes()), Some(3));
    assert_eq!(trie.get("foobar".as_bytes()), None);
}

#[test]
fn trie_remove_keeps_parent() {
    let mut trie = HashTrie::new();
    trie.insert("foo".as_bytes(), 3);
    trie.insert("foobar".as_bytes(), 4);
    trie.remove("foobar".as_bytes());
    assert_eq!(trie.get("foo".as_bytes()), Some(&3));
}

#[test]
fn trie_iterator() {
    let mut trie = HashTrie::new();
    trie.insert("foo".as_bytes(), 3);
    trie.insert("foobar".as_bytes(), 4);

    let mut iter = trie.iter();
    assert_eq!(iter.next(), Some((&"foo".to_string().into_bytes(), &3)));
    assert_eq!(iter.next(), Some((&"foobar".to_string().into_bytes(), &4)));
    assert_eq!(iter.next(), None);
}

#[test]
fn trie_common_prefix() {
    let mut trie = HashTrie::new();
    trie.insert("foo".as_bytes(), 3);
    trie.insert("foobar".as_bytes(), 4);
    trie.insert("foobaz".as_bytes(), 5);
    assert_eq!(
        trie.entries_with_prefix("foo".as_bytes())
            .into_iter()
            .collect::<HashSet<_>>(),
        vec![
            ("foo".to_string().into_bytes(), &3),
            ("foobar".to_string().into_bytes(), &4),
            ("foobaz".to_string().into_bytes(), &5)
        ]
        .into_iter()
        .collect::<HashSet<_>>()
    )
}

#[test]
fn insert_returns_the_value_before() {
    let mut trie = HashTrie::new();
    assert_eq!(trie.insert("ab".as_bytes(), 1), None);
    assert_eq!(trie.insert("ab".as_bytes(), 2), Some(1));
    assert_eq!(trie.insert("a".as_bytes(), 3), None);
    assert_eq!(trie.insert("".as_bytes(), 4), None);
    assert_eq!(trie.insert("".as_bytes(), 5), Some(4));
    assert_eq!(trie.get("".as_bytes()), Some(&5));
    assert_eq!(trie.get("a".as_bytes()), Some(&3));
    assert_eq!(trie.get("ab".as_bytes()), Some(&2));
    assert_eq!(trie.get("abc".as_bytes()), None);
    assert_eq!(trie.get("b".as_bytes()), None);
}

#[test]
fn remove_of_an_absent_key() {
    let mut trie = HashTrie::new();
    trie.insert("foo".as_bytes(), 3);
    assert_eq!(trie.remove("fo".as_bytes()), None);
    assert_eq!(trie.remove("foobar".as_bytes()), None);
    assert_eq!(trie.remove("bar".as_bytes()), None);
    assert_eq!(trie.get("foo".as_bytes()), Some(&3));
    assert_eq!(trie.remove("foo".as_bytes()), Some(3));
    assert_eq!(trie.remove("foo".as_bytes()), None);
}

#[test]
fn remove_of_a_parent_keeps_the_child() {
    let mut trie = HashTrie::new();
    trie.insert("foo".as_bytes(), 3);
    trie.insert("foobar".as_bytes(), 4);
    assert_eq!(trie.remove("foo".as_bytes()), Some(3));
    assert_eq!(trie.get("foo".as_bytes()), None);
    assert_eq!(trie.get("foobar".as_bytes()), Some(&4));
}

#[test]
fn removed_branches_leave_nothing_to_list() {
    let mut trie = HashTrie::new();
    trie.insert("foobar".as_bytes(), 4);
    trie.insert("fox".as_bytes(), 5);
    assert_eq!(trie.remove("foobar".as_bytes()), Some(4));
    assert_eq!(trie.keys_with_prefix("".as_bytes()), vec!["fox".to_string().into_bytes()]);
    assert_eq!(trie.remove("fox".as_bytes()), Some(5));
    assert!(trie.entries_with_prefix("".as_bytes()).is_empty());
    assert_eq!(trie.iter().next(), None);
}

#[test]
fn entries_on_the_way_to_the_prefix_are_listed_first() {
    let mut trie = HashTrie::new();
    trie.insert("f".as_bytes(), 1);
    trie.insert("foo".as_bytes(), 3);
    trie.insert("foobar".as_bytes(), 4);
    trie.insert("bar".as_bytes(), 9);
    let entries = trie.entries_with_prefix("foo".as_bytes());
    assert_eq!(
        entries,
        vec![
            ("f".to_string().into_bytes(), &1),
            ("foo".to_string().into_bytes(), &3),
            ("foobar".to_string().into_bytes(), &4)
        ]
    );
    assert_eq!(
        trie.keys_with_prefix("foo".as_bytes()),
        vec![
            "f".to_string().into_bytes(),
            "foo".to_string().into_bytes(),
            "foobar".to_string().into_bytes()
        ]
    );
    assert_eq!(trie.values_with_prefix("foo".as_bytes()), vec![&1, &3, &4]);
}

#[test]
fn a_prefix_that_leads_nowhere_lists_only_the_way() {
    let mut trie = HashTrie::new();
    trie.insert("f".as_bytes(), 1);
    trie.insert("fo".as_bytes(), 2);
    assert!(trie.entries_with_prefix("x".as_bytes()).is_empty());
    assert_eq!(
        trie.entries_with_prefix("fox".as_bytes()),
        vec![("f".to_string().into_bytes(), &1)]
    );
}

#[test]
fn keys_and_values_go_together() {
    let mut trie = HashTrie::new();
    trie.insert("a".as_bytes(), 1);
    trie.insert("ab".as_bytes(), 2);
    trie.insert("b".as_bytes(), 3);
    let mut keys = trie.keys();
    let mut values = trie.values();
    let mut seen = HashSet::new();
    while let Some(key) = keys.next() {
        let value = values.next().unwrap();
        assert_eq!(trie.get(key), Some(value));
        seen.insert(key.clone());
    }
    assert_eq!(values.next(), None);
    assert_eq!(seen.len(), 3);
    let listed = trie.keys_with_prefix("".as_bytes());
    let a = listed.iter().position(|k| k == "a".as_bytes()).unwrap();
    let ab = listed.iter().position(|k| k == "ab".as_bytes()).unwrap();
    assert!(a < ab);
}

#[test]
fn tries_over_other_elements() {
    let mut trie = HashTrie::<i32, &str>::new();
    trie.insert(&[1, 2, 3], "abc");
    trie.insert(&[1, 2], "ab");
    assert_eq!(trie.get(&[1, 2, 3]), Some(&"abc"));
    assert_eq!(trie.get(&[1, 2]), Some(&"ab"));
    assert_eq!(trie.get(&[1]), None);
    assert_eq!(trie.values_with_prefix(&[1, 2]), vec![&"ab", &"abc"]);
}
