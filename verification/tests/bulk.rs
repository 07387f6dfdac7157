use blart::tests_common::{
    generate_key_fixed_length, generate_key_with_prefix, generate_keys_skewed, PrefixExpansion,
};
use blart::{
    insert, maximum, minimum, remove, search, InsertResult, NodeType, OpaqueNodePtr, TreeIterator,
};

type Root = Option<OpaqueNodePtr<usize, 8>>;

fn find(root: &Root, key: &[u8]) -> Option<usize> {
    root.as_ref().and_then(|root| search(root, key)).copied()
}

fn fill(keys: &[Vec<u8>]) -> Root {
    let mut root: Root = None;
    for (i, key) in keys.iter().enumerate() {
        assert!(matches!(insert(&mut root, key.clone(), i), InsertResult::Inserted));
    }
    root
}

fn keys_in_order(root: &Root) -> Vec<Vec<u8>> {
    let mut keys = Vec::new();
    if let Some(root) = root {
        let mut iterator = TreeIterator::new(root);
        while let Some(leaf) = iterator.next() {
            keys.push(leaf.key_ref().clone());
        }
    }
    keys
}

#[test]
fn insert_many_then_remove_all() {
    let mut keys: Vec<Vec<u8>> = Vec::new();
    for a in 0..=255u8 {
        for b in [0u8, 7, 100, 255] {
            keys.push(vec![a, b, a ^ b, 9]);
        }
    }
    let mut root = fill(&keys);
    assert_eq!(root.as_ref().unwrap().node_type(), NodeType::Node256);
    for (i, key) in keys.iter().enumerate() {
        assert_eq!(find(&root, key), Some(i));
    }
    let mut sorted = keys.clone();
    sorted.sort();
    assert_eq!(keys_in_order(&root), sorted);
    for (i, key) in keys.iter().enumerate() {
        assert_eq!(remove(&mut root, key), Some(i));
        assert_eq!(find(&root, key), None);
        assert_eq!(remove(&mut root, key), None);
    }
    assert!(root.is_none());
}

#[test]
fn skewed_keys_make_a_deep_tree() {
    let keys = generate_keys_skewed(40);
    let mut root = fill(&keys);
    for (i, key) in keys.iter().enumerate() {
        assert_eq!(find(&root, key), Some(i));
    }
    let mut sorted = keys.clone();
    sorted.sort();
    assert_eq!(keys_in_order(&root), sorted);
    let node = root.as_ref().unwrap();
    assert_eq!(minimum(node).key_ref(), &sorted[0]);
    assert_eq!(maximum(node).key_ref(), &sorted[sorted.len() - 1]);
    // every key but the whole one is a prefix of nothing and has no prefix
    // in the tree, but the zero bytes alone are prefixes
    assert!(matches!(insert(&mut root, vec![0, 0, 0], 0), InsertResult::PrefixConflict));
    assert!(matches!(insert(&mut root, vec![0, 255, 1], 0), InsertResult::PrefixConflict));
    for (i, key) in keys.iter().enumerate().rev() {
        assert_eq!(remove(&mut root, key), Some(i));
    }
    assert!(root.is_none());
}

#[test]
fn fixed_length_keys_fill_every_node_type() {
    let keys = generate_key_fixed_length([3, 15, 20, 255]);
    assert_eq!(keys.len(), 4 * 16 * 21 * 256);
    let mut root = fill(&keys);
    assert_eq!(keys_in_order(&root), keys);
    {
        let node = root.as_ref().unwrap();
        assert_eq!(node.node_type(), NodeType::Node4);
        let second = node.lookup_child(0).unwrap();
        assert_eq!(second.node_type(), NodeType::Node16);
        let third = second.lookup_child(0).unwrap();
        assert_eq!(third.node_type(), NodeType::Node48);
        let fourth = third.lookup_child(0).unwrap();
        assert_eq!(fourth.node_type(), NodeType::Node256);
    }
    for (i, key) in keys.iter().enumerate() {
        assert_eq!(find(&root, key), Some(i));
    }
    for (i, key) in keys.iter().enumerate() {
        if i % 3 != 0 {
            assert_eq!(remove(&mut root, key), Some(i));
        }
    }
    let left: Vec<Vec<u8>> =
        keys.iter().enumerate().filter(|(i, _)| i % 3 == 0).map(|(_, key)| key.clone()).collect();
    assert_eq!(keys_in_order(&root), left);
}

#[test]
fn keys_with_long_shared_prefixes() {
    let keys = generate_key_with_prefix(
        [2; 3],
        &[
            PrefixExpansion { base_index: 0, expanded_length: 12 },
            PrefixExpansion { base_index: 1, expanded_length: 20 },
        ],
    );
    assert_eq!(keys.len(), 27);
    let mut root = fill(&keys);
    assert_eq!(keys_in_order(&root), keys);
    for (i, key) in keys.iter().enumerate() {
        assert_eq!(find(&root, key), Some(i));
        let mut other = key.clone();
        other[15] ^= 1;
        assert_eq!(find(&root, &other), None);
    }
    // a key that leaves a long prefix behind the inline bytes
    let mut odd = keys[13].clone();
    odd[25] = 77;
    assert!(matches!(insert(&mut root, odd.clone(), 99), InsertResult::Inserted));
    assert_eq!(find(&root, &odd), Some(99));
    for (i, key) in keys.iter().enumerate() {
        assert_eq!(find(&root, key), Some(i));
    }
    assert_eq!(remove(&mut root, &odd), Some(99));
    assert_eq!(keys_in_order(&root), keys);
    for (i, key) in keys.iter().enumerate() {
        assert_eq!(remove(&mut root, key), Some(i));
    }
    assert!(root.is_none());
}
