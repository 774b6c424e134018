use trie::node::TrieNode;
use trie::trie::Trie;

#[test]
fn node_insert_and_get_key_char() {
    let mut root = TrieNode::<u32>::new('a', None);
    let child = TrieNode::<u32>::new('b', None);
    let res = root.insert_child_node('b', child);
    assert!(res.is_some());
    assert_eq!(res.unwrap().get_key_char(), 'b');
}

#[test]
fn node_duplicate_child_insert_fails() {
    let mut root = TrieNode::<u32>::new('a', None);
    assert!(root.insert_child_node('b', TrieNode::new('b', None)).is_some());
    // A child already exists under 'b': the insert fails...
    assert!(root.insert_child_node('b', TrieNode::new('b', None)).is_none());
    // ...and the parent is unmodified.
    assert!(root.has_child('b'));
    assert_eq!(root.get_children().len(), 1);
}

#[test]
fn node_mismatched_label_insert_fails() {
    let mut root = TrieNode::<u32>::new('a', None);
    // The child's own label 'b' is not the requested key 'd'.
    assert!(root.insert_child_node('d', TrieNode::new('b', None)).is_none());
    assert!(!root.has_child('d'));
    assert!(!root.has_child('b'));
    assert!(!root.has_children());
    assert_eq!(root.get_children().len(), 0);
}

#[test]
fn node_remove_child() {
    let mut root = TrieNode::<u32>::new('a', None);
    assert!(root.insert_child_node('b', TrieNode::new('b', None)).is_some());
    assert!(root.insert_child_node('c', TrieNode::new('c', None)).is_some());

    let removed = root.remove_child_node('b');
    assert!(removed.is_some());
    assert_eq!(removed.unwrap().get_key_char(), 'b');
    assert_eq!(root.has_child('b'), false);
    assert_eq!(root.has_children(), true);
    assert!(root.get_child_node('b').is_none());
    // The sibling is unaffected.
    assert!(root.has_child('c'));

    root.remove_child_node('c');
    assert_eq!(root.has_child('c'), false);
    assert_eq!(root.has_children(), false);
    assert!(root.get_child_node('c').is_none());
}

#[test]
fn node_remove_missing_child_returns_none() {
    let mut root = TrieNode::<u32>::new('a', None);
    assert!(root.remove_child_node('z').is_none());
    assert!(!root.has_children());
}

#[test]
fn node_removed_subtree_stays_intact() {
    let mut root = TrieNode::<u32>::new('a', None);
    // Chain through the returned mutable handle, building a grandchild.
    let child_ref = root.insert_child_node('b', TrieNode::new('b', None)).unwrap();
    assert!(child_ref.insert_child_node('c', TrieNode::new('c', Some(7))).is_some());

    let subtree = root.remove_child_node('b');
    assert!(subtree.is_some());
    let subtree = subtree.unwrap();
    assert_eq!(subtree.get_key_char(), 'b');
    assert!(subtree.has_child('c'));
    assert!(!root.has_children());
}

#[test]
fn node_value_accessors() {
    let mut node = TrieNode::<&str>::new('x', None);
    assert!(node.get_value().is_none());
    node.set_value("first");
    assert_eq!(node.get_value(), Some(&"first"));
    // set_value overwrites unconditionally at this layer.
    node.set_value("second");
    assert_eq!(node.get_value(), Some(&"second"));
}

#[test]
fn node_set_key_char() {
    let mut node = TrieNode::<u32>::new('x', Some(3));
    node.set_key_char('y');
    assert_eq!(node.get_key_char(), 'y');
    assert_eq!(node.get_value(), Some(&3));
}

#[test]
fn node_get_children_view() {
    let mut root = TrieNode::<u32>::new('a', None);
    assert!(root.insert_child_node('p', TrieNode::new('p', Some(1))).is_some());
    assert!(root.insert_child_node('q', TrieNode::new('q', None)).is_some());
    let children = root.get_children();
    assert_eq!(children.len(), 2);
    let mut labels: Vec<char> = children.iter().map(|c| c.get_key_char()).collect();
    labels.sort();
    assert_eq!(labels, vec!['p', 'q']);
}

#[test]
fn trie_insert_then_get() {
    let mut trie = Trie::<u32>::new();
    assert!(trie.insert("hello", 42));
    assert_eq!(trie.get_value("hello"), Some(&42));
}

#[test]
fn trie_random_order_insert() {
    let mut trie = Trie::<&str>::new();

    assert!(trie.insert("a", "one"));
    assert!(trie.insert("aaa", "three"));
    assert!(trie.insert("aaaa", "four"));
    assert!(trie.insert("aa", "two"));

    assert_eq!(trie.get_value("a"), Some(&"one"));
    assert_eq!(trie.get_value("aaa"), Some(&"three"));
    assert_eq!(trie.get_value("aaaa"), Some(&"four"));
    assert_eq!(trie.get_value("aa"), Some(&"two"));

    assert_eq!(trie.insert("a", "one"), false);
}

#[test]
fn trie_duplicate_insert_keeps_first_value() {
    let mut trie = Trie::<u32>::new();
    assert!(trie.insert("key", 1));
    assert!(!trie.insert("key", 2));
    assert_eq!(trie.get_value("key"), Some(&1));
}

#[test]
fn trie_empty_key_rejected() {
    let mut trie = Trie::<u32>::new();
    assert!(!trie.insert("", 5));
    assert!(trie.get_value("").is_none());
    // The trie still behaves as an empty trie afterwards.
    assert!(trie.insert("a", 6));
    assert_eq!(trie.get_value("a"), Some(&6));
}

#[test]
fn trie_missing_and_prefix_keys_absent() {
    let mut trie = Trie::<u32>::new();
    assert!(trie.insert("abc", 9));
    // Never inserted at all.
    assert!(trie.get_value("xyz").is_none());
    // A pure prefix of an inserted key that was never itself inserted.
    assert!(trie.get_value("ab").is_none());
    assert!(trie.get_value("a").is_none());
    // An extension of an inserted key.
    assert!(trie.get_value("abcd").is_none());
    assert_eq!(trie.get_value("abc"), Some(&9));
}

#[test]
fn trie_prefix_inserted_later_is_found() {
    let mut trie = Trie::<u32>::new();
    assert!(trie.insert("abc", 1));
    assert!(trie.insert("ab", 2));
    assert_eq!(trie.get_value("ab"), Some(&2));
    assert_eq!(trie.get_value("abc"), Some(&1));
}

#[test]
fn trie_round_trip_many_keys() {
    let keys = ["to", "tea", "ted", "ten", "in", "inn", "A"];
    let mut trie = Trie::<usize>::new();
    for (i, k) in keys.iter().enumerate() {
        assert!(trie.insert(k, i));
    }
    for (i, k) in keys.iter().enumerate() {
        assert_eq!(trie.get_value(k), Some(&i));
    }
    assert!(trie.get_value("t").is_none());
    assert!(trie.get_value("te").is_none());
    assert!(trie.get_value("i").is_none());
}

#[test]
fn trie_unicode_keys() {
    let mut trie = Trie::<u32>::new();
    assert!(trie.insert("héllo", 1));
    assert!(trie.insert("héllò", 2));
    assert_eq!(trie.get_value("héllo"), Some(&1));
    assert_eq!(trie.get_value("héllò"), Some(&2));
    assert!(trie.get_value("héll").is_none());
}

#[test]
fn trie_owned_values() {
    let mut trie = Trie::<String>::new();
    assert!(trie.insert("name", String::from("value")));
    assert_eq!(trie.get_value("name"), Some(&String::from("value")));
}
