use blart::tests_common::{generate_key_fixed_length, setup_tree_from_entries};
use blart::{
    insert, remove, search, search_leaf, InnerNodeIter, InsertResult, NodeType, OpaqueNodePtr,
    TreeIterator,
};

fn entries_of(root: &OpaqueNodePtr<String, 8>) -> Vec<(Vec<u8>, String)> {
    let mut entries = Vec::new();
    let mut iterator = TreeIterator::new(root);
    while let Some(leaf) = iterator.next() {
        entries.push((leaf.key_ref().clone(), leaf.value_ref().clone()));
    }
    entries
}

fn same_nodes(a: &OpaqueNodePtr<String, 8>, b: &OpaqueNodePtr<String, 8>) {
    assert_eq!(a.node_type(), b.node_type());
    assert_eq!(a.header().copied(), b.header().copied());
    for byte in 0..=255u8 {
        match (a.lookup_child(byte), b.lookup_child(byte)) {
            (Some(x), Some(y)) => same_nodes(x, y),
            (None, None) => {},
            _ => unreachable!(),
        }
    }
}

#[test]
fn setup_from_entries() {
    let keys = generate_key_fixed_length([7, 20, 3]);
    let entries: Vec<(Vec<u8>, String)> =
        keys.iter().map(|key| (key.clone(), format!("{:?}", key))).collect();
    let root: OpaqueNodePtr<String, 8> = setup_tree_from_entries(entries.clone());
    assert_eq!(entries_of(&root), entries);
    assert_eq!(root.node_type(), NodeType::Node16);
    for (key, value) in &entries {
        assert_eq!(search(&root, key), Some(value));
        let leaf = search_leaf(&root, key).unwrap();
        assert_eq!(leaf.entry_ref(), (key, value));
    }
    assert!(search_leaf(&root, &[1, 2, 3]).is_none());

    // of two entries with the same key the later one stays
    let twice: OpaqueNodePtr<String, 8> = setup_tree_from_entries(vec![
        (vec![1, 1], "a".to_string()),
        (vec![1, 2], "b".to_string()),
        (vec![1, 1], "c".to_string()),
    ]);
    assert_eq!(
        entries_of(&twice),
        vec![(vec![1, 1], "c".to_string()), (vec![1, 2], "b".to_string())]
    );
    let single: OpaqueNodePtr<String, 8> =
        setup_tree_from_entries(vec![(vec![], "empty".to_string())]);
    assert_eq!(single.node_type(), NodeType::Leaf);
    assert_eq!(search(&single, &[]), Some(&"empty".to_string()));
}

#[test]
fn deep_clones_are_independent_copies() {
    let keys = generate_key_fixed_length([60, 2, 17, 1]);
    let entries: Vec<(Vec<u8>, String)> =
        keys.iter().map(|key| (key.clone(), format!("{:?}", key))).collect();
    let root: OpaqueNodePtr<String, 8> = setup_tree_from_entries(entries.clone());
    let copy = root.deep_clone();
    same_nodes(&root, &copy);
    assert_eq!(entries_of(&copy), entries);

    let mut changed = Some(copy);
    assert_eq!(remove(&mut changed, &keys[5]), Some(format!("{:?}", keys[5])));
    assert!(matches!(
        insert(&mut changed, vec![9, 9, 9, 9, 9], "new".to_string()),
        InsertResult::Inserted
    ));
    match insert(&mut changed, keys[7].clone(), "other".to_string()) {
        InsertResult::Replaced(previous) => assert_eq!(previous, format!("{:?}", keys[7])),
        _ => unreachable!(),
    }
    assert_eq!(entries_of(&root), entries);
    assert_eq!(search(&root, &keys[5]), Some(&format!("{:?}", keys[5])));
    assert_eq!(search(&root, &[9, 9, 9, 9, 9]), None);
    assert_eq!(search(changed.as_ref().unwrap(), &keys[7]), Some(&"other".to_string()));

    let leaf: OpaqueNodePtr<String, 8> = setup_tree_from_entries(vec![(vec![3], "x".to_string())]);
    let copy = leaf.deep_clone();
    assert_eq!(entries_of(&copy), vec![(vec![3], "x".to_string())]);
}

#[test]
fn size_hints_counts_and_last() {
    let keys = generate_key_fixed_length([2, 80]);
    let entries: Vec<(Vec<u8>, String)> =
        keys.iter().map(|key| (key.clone(), String::new())).collect();
    let root: OpaqueNodePtr<String, 8> = setup_tree_from_entries(entries);
    assert_eq!(root.node_type(), NodeType::Node4);
    let mut cursor = InnerNodeIter::new(&root);
    assert_eq!(cursor.size_hint(), (3, Some(3)));
    assert_eq!(InnerNodeIter::new(&root).count(), 3);
    assert_eq!(InnerNodeIter::new(&root).last().map(|entry| entry.0), Some(255));
    let (byte, below) = cursor.next().unwrap();
    assert_eq!(byte, 0);
    assert_eq!(cursor.size_hint(), (2, Some(2)));
    assert_eq!(below.node_type(), NodeType::Node256);
    let mut inner = InnerNodeIter::new(below);
    assert_eq!(inner.size_hint(), (0, Some(256)));
    assert_eq!(InnerNodeIter::new(below).count(), 65);
    assert_eq!(InnerNodeIter::new(below).last().map(|entry| entry.0), Some(255));
    assert_eq!(inner.next().map(|entry| entry.0), Some(0));
    assert_eq!(inner.next_back().map(|entry| entry.0), Some(255));
    assert_eq!(inner.size_hint(), (0, Some(254)));
    let mut left: usize = 0;
    while inner.next().is_some() {
        left += 1;
    }
    assert_eq!(left, 63);
    assert_eq!(inner.size_hint().1, Some(0));
    assert_eq!(inner.count(), 0);

    let mut iterator = TreeIterator::new(&root);
    assert_eq!(iterator.size_hint(), (3, None));
    iterator.next();
    // one cursor over the root with 2 children left, one over a table
    assert_eq!(iterator.size_hint(), (2, None));
    let mut seen: usize = 1;
    while iterator.next().is_some() {
        seen += 1;
    }
    assert_eq!(seen, 3 * 65);
    assert_eq!(iterator.size_hint(), (0, None));

    let leaf: OpaqueNodePtr<String, 8> = setup_tree_from_entries(vec![(vec![3], String::new())]);
    let mut iterator = TreeIterator::new(&leaf);
    assert_eq!(iterator.size_hint(), (1, Some(1)));
    assert!(iterator.next_back().is_some());
    assert_eq!(iterator.size_hint(), (0, Some(0)));
    assert!(iterator.next().is_none());
}
