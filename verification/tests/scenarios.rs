use blart::{
    insert, remove, search, ConcreteNodePtr, InsertResult, NodeType, OpaqueNodePtr, TreeIterator,
};

type Root<const PREFIX_LEN: usize> = Option<OpaqueNodePtr<u32, PREFIX_LEN>>;

fn find<const PREFIX_LEN: usize>(root: &Root<PREFIX_LEN>, key: &[u8]) -> Option<u32> {
    root.as_ref().and_then(|root| search(root, key)).copied()
}

fn put<const PREFIX_LEN: usize>(root: &mut Root<PREFIX_LEN>, key: &[u8], value: u32) {
    assert!(matches!(insert(root, key.to_vec(), value), InsertResult::Inserted));
}

fn child_keys<const PREFIX_LEN: usize>(node: &OpaqueNodePtr<u32, PREFIX_LEN>) -> Vec<u8> {
    (0..=255u8).filter(|byte| node.lookup_child(*byte).is_some()).collect()
}

fn forward<const PREFIX_LEN: usize>(root: &Root<PREFIX_LEN>) -> Vec<(Vec<u8>, u32)> {
    let mut entries = Vec::new();
    if let Some(root) = root {
        let mut iterator = TreeIterator::new(root);
        while let Some(leaf) = iterator.next() {
            entries.push((leaf.key_ref().clone(), *leaf.value_ref()));
        }
    }
    entries
}

fn backward<const PREFIX_LEN: usize>(root: &Root<PREFIX_LEN>) -> Vec<(Vec<u8>, u32)> {
    let mut entries = Vec::new();
    if let Some(root) = root {
        let mut iterator = TreeIterator::new(root);
        while let Some(leaf) = iterator.next_back() {
            entries.push((leaf.key_ref().clone(), *leaf.value_ref()));
        }
    }
    entries
}

/// Every inner node has a number of children that its type permits, the
/// header counts the children, and every leaf is found under its key.
fn check_tree<const PREFIX_LEN: usize>(node: &OpaqueNodePtr<u32, PREFIX_LEN>) -> usize {
    match &node.0 {
        ConcreteNodePtr::LeafNode(_) => 1,
        _ => {
            let count = node.header().unwrap().num_children();
            let range = node.node_type().capacity_range();
            assert!(range.contains(&count));
            let keys = child_keys(node);
            assert_eq!(keys.len(), count);
            keys.iter().map(|byte| check_tree(node.lookup_child(*byte).unwrap())).sum()
        },
    }
}

#[test]
fn singleton() {
    let mut root: Root<16> = None;
    put(&mut root, &[1, 2, 3], 10);
    assert_eq!(find(&root, &[1, 2, 3]), Some(10));
    assert_eq!(find(&root, &[1, 2]), None);
}

#[test]
fn split_at_leaf() {
    let mut root: Root<16> = None;
    put(&mut root, &[1, 2, 3, 5, 6, 1], 123561);
    put(&mut root, &[1, 2, 3, 5, 6, 2], 123562);
    let node = root.as_ref().unwrap();
    assert_eq!(node.node_type(), NodeType::Node4);
    assert_eq!(node.header().unwrap().read_prefix(), &[1, 2, 3, 5, 6]);
    assert_eq!(node.header().unwrap().prefix_len(), 5);
    assert_eq!(child_keys(node), vec![1, 2]);
}

fn four_way() -> Root<16> {
    let mut root: Root<16> = None;
    put(&mut root, &[1, 2, 1], 121);
    put(&mut root, &[1, 2, 2], 122);
    put(&mut root, &[1, 2, 3], 123);
    put(&mut root, &[1, 2, 4], 124);
    root
}

#[test]
fn four_way_split_forces_node4() {
    let root = four_way();
    let node = root.as_ref().unwrap();
    assert_eq!(node.node_type(), NodeType::Node4);
    assert_eq!(node.header().unwrap().read_prefix(), &[1, 2]);
    assert_eq!(child_keys(node), vec![1, 2, 3, 4]);
    match &node.0 {
        ConcreteNodePtr::Node4(inner) => assert_eq!(inner.as_ref().keys, [1, 2, 3, 4]),
        _ => unreachable!(),
    }
}

#[test]
fn growth_from_4_to_16() {
    let mut root = four_way();
    put(&mut root, &[1, 2, 5], 125);
    let node = root.as_ref().unwrap();
    assert_eq!(node.node_type(), NodeType::Node16);
    assert_eq!(child_keys(node), vec![1, 2, 3, 4, 5]);
    match &node.0 {
        ConcreteNodePtr::Node16(inner) => assert_eq!(&inner.as_ref().keys[..5], &[1, 2, 3, 4, 5]),
        _ => unreachable!(),
    }
    for (key, value) in [(1u8, 121), (2, 122), (3, 123), (4, 124), (5, 125)] {
        assert_eq!(find(&root, &[1, 2, key]), Some(value));
    }
}

fn two_level() -> Root<16> {
    let mut root: Root<16> = None;
    put(&mut root, &[1, 2, 3, 5, 6, 1], 123561);
    put(&mut root, &[1, 2, 3, 5, 6, 2], 123562);
    put(&mut root, &[1, 2, 4, 7, 8, 3], 124783);
    put(&mut root, &[1, 2, 4, 7, 8, 4], 124784);
    root
}

#[test]
fn two_level_tree_inverse_queries() {
    let root = two_level();
    assert_eq!(find(&root, &[1, 2, 3, 5, 6, 1]), Some(123561));
    assert_eq!(find(&root, &[1, 2, 3, 5, 6, 2]), Some(123562));
    assert_eq!(find(&root, &[1, 2, 4, 7, 8, 3]), Some(124783));
    assert_eq!(find(&root, &[1, 2, 4, 7, 8, 4]), Some(124784));
    assert_eq!(find(&root, &[1, 2, 3]), None);
    assert_eq!(find(&root, &[1, 2, 3, 5, 6]), None);
    assert_eq!(find(&root, &[1, 2, 3, 50, 6, 1]), None);
    assert_eq!(find(&root, &[10, 2, 3, 5, 6, 1]), None);
    let node = root.as_ref().unwrap();
    assert_eq!(node.header().unwrap().read_prefix(), &[1, 2]);
    assert_eq!(child_keys(node), vec![3, 4]);
    assert_eq!(node.lookup_child(3).unwrap().header().unwrap().read_prefix(), &[5, 6]);
    assert_eq!(node.lookup_child(4).unwrap().header().unwrap().read_prefix(), &[7, 8]);
}

#[test]
fn ordered_traversal() {
    let root = two_level();
    let values: Vec<u32> = forward(&root).into_iter().map(|entry| entry.1).collect();
    assert_eq!(values, vec![123561, 123562, 124783, 124784]);
    let values: Vec<u32> = backward(&root).into_iter().map(|entry| entry.1).collect();
    assert_eq!(values, vec![124784, 124783, 123562, 123561]);

    let node = root.as_ref().unwrap();
    let mut iterator = TreeIterator::new(node);
    assert_eq!(iterator.next().map(|leaf| *leaf.value_ref()), Some(123561));
    assert_eq!(iterator.next_back().map(|leaf| *leaf.value_ref()), Some(124784));
    assert_eq!(iterator.next_back().map(|leaf| *leaf.value_ref()), Some(124783));
    assert_eq!(iterator.next().map(|leaf| *leaf.value_ref()), Some(123562));
    assert!(iterator.next().is_none());
    assert!(iterator.next_back().is_none());
}

#[test]
fn replace_returns_the_previous_value() {
    let mut root: Root<16> = None;
    put(&mut root, &[9, 9], 1);
    match insert(&mut root, vec![9, 9], 2) {
        InsertResult::Replaced(previous) => assert_eq!(previous, 1),
        _ => unreachable!(),
    }
    assert_eq!(find(&root, &[9, 9]), Some(2));
    assert_eq!(forward(&root).len(), 1);
}

#[test]
fn prefix_conflict_leaves_the_tree_alone() {
    let mut root = two_level();
    let before = forward(&root);
    for key in [vec![1u8, 2], vec![1, 2, 3], vec![1, 2, 3, 5, 6], vec![], vec![1, 2, 3, 5, 6, 1, 0]]
    {
        assert!(matches!(insert(&mut root, key, 7), InsertResult::PrefixConflict));
        assert_eq!(forward(&root), before);
    }
    let mut single: Root<16> = None;
    put(&mut single, &[4, 5], 1);
    assert!(matches!(insert(&mut single, vec![4], 2), InsertResult::PrefixConflict));
    assert!(matches!(insert(&mut single, vec![4, 5, 6], 2), InsertResult::PrefixConflict));
    assert_eq!(forward(&single), vec![(vec![4, 5], 1)]);
}

#[test]
fn growth_and_shrinkage_through_all_node_types() {
    let mut root: Root<16> = None;
    let expect = |count: usize| match count {
        0 => None,
        1 => Some(NodeType::Leaf),
        2..=4 => Some(NodeType::Node4),
        5..=16 => Some(NodeType::Node16),
        17..=48 => Some(NodeType::Node48),
        _ => Some(NodeType::Node256),
    };
    for byte in 0..=255u8 {
        put(&mut root, &[7, 7, byte, 1], byte as u32);
        let count = byte as usize + 1;
        assert_eq!(root.as_ref().map(|node| node.node_type()), expect(count));
        assert_eq!(check_tree(root.as_ref().unwrap()), count);
        if count > 1 {
            let node = root.as_ref().unwrap();
            assert_eq!(node.header().unwrap().num_children(), count);
            assert_eq!(child_keys(node), (0..=byte).collect::<Vec<u8>>());
        }
    }
    // 4 -> 16 on the 5th, 16 -> 48 on the 17th and 48 -> 256 on the 49th
    // child have been seen above; now the way back.
    for byte in (0..=255u8).rev() {
        assert_eq!(remove(&mut root, &[7, 7, byte, 1]), Some(byte as u32));
        let count = byte as usize;
        assert_eq!(root.as_ref().map(|node| node.node_type()), expect(count));
        if count > 1 {
            let node = root.as_ref().unwrap();
            assert_eq!(check_tree(node), count);
            assert_eq!(child_keys(node), (0..byte).collect::<Vec<u8>>());
            assert_eq!(node.header().unwrap().read_prefix(), &[7, 7]);
        }
        for left in 0..byte {
            assert_eq!(find(&root, &[7, 7, left, 1]), Some(left as u32));
        }
    }
    assert!(root.is_none());
}

#[test]
fn node4_collapses_into_its_child() {
    let mut root: Root<16> = None;
    put(&mut root, &[1, 2, 3, 4, 5], 1);
    put(&mut root, &[1, 2, 3, 9, 9], 2);
    put(&mut root, &[1, 7, 7, 7, 7], 3);
    // root: prefix [1], children 2 -> inner (prefix [3]), 7 -> leaf
    let node = root.as_ref().unwrap();
    assert_eq!(node.header().unwrap().read_prefix(), &[1]);
    assert_eq!(child_keys(node), vec![2, 7]);
    assert_eq!(node.lookup_child(2).unwrap().header().unwrap().read_prefix(), &[3]);

    assert_eq!(remove(&mut root, &[1, 7, 7, 7, 7]), Some(3));
    // the inner child takes the place of the root: prefix [1] ++ [2] ++ [3]
    let node = root.as_ref().unwrap();
    assert_eq!(node.node_type(), NodeType::Node4);
    assert_eq!(node.header().unwrap().read_prefix(), &[1, 2, 3]);
    assert_eq!(node.header().unwrap().prefix_len(), 3);
    assert_eq!(child_keys(node), vec![4, 9]);
    assert_eq!(find(&root, &[1, 2, 3, 4, 5]), Some(1));
    assert_eq!(find(&root, &[1, 2, 3, 9, 9]), Some(2));

    assert_eq!(remove(&mut root, &[1, 2, 3, 4, 5]), Some(1));
    // a single leaf is left and stands for the whole tree
    assert_eq!(root.as_ref().unwrap().node_type(), NodeType::Leaf);
    assert_eq!(find(&root, &[1, 2, 3, 9, 9]), Some(2));
    assert_eq!(remove(&mut root, &[1, 2, 3, 9, 9]), Some(2));
    assert!(root.is_none());
    assert_eq!(remove(&mut root, &[1, 2, 3, 9, 9]), None);
}

#[test]
fn split_with_a_prefix_longer_than_the_inline_buffer() {
    // The inline buffer holds 4 bytes; the common prefix has 10.
    let mut root: Root<4> = None;
    let shared = [1u8, 2, 3, 4, 5, 6, 7, 8, 9, 10];
    let mut first = shared.to_vec();
    first.extend_from_slice(&[20, 1]);
    let mut second = shared.to_vec();
    second.extend_from_slice(&[30, 1]);
    put(&mut root, &first, 1);
    put(&mut root, &second, 2);
    {
        let node = root.as_ref().unwrap();
        let header = node.header().unwrap();
        assert_eq!(header.prefix_len(), 10);
        assert_eq!(header.read_prefix(), &[1, 2, 3, 4]);
        assert_eq!(child_keys(node), vec![20, 30]);
    }
    // The third key leaves the prefix within the part that is not inline.
    let third = vec![1u8, 2, 3, 4, 5, 6, 77, 8, 9, 10, 20, 1];
    put(&mut root, &third, 3);
    {
        let node = root.as_ref().unwrap();
        let header = node.header().unwrap();
        assert_eq!(node.node_type(), NodeType::Node4);
        assert_eq!(header.prefix_len(), 6);
        assert_eq!(header.read_prefix(), &[1, 2, 3, 4]);
        assert_eq!(child_keys(node), vec![7, 77]);
        let below = node.lookup_child(7).unwrap();
        let header = below.header().unwrap();
        assert_eq!(header.prefix_len(), 3);
        assert_eq!(header.read_prefix(), &[8, 9, 10]);
        assert_eq!(child_keys(below), vec![20, 30]);
    }
    assert_eq!(find(&root, &first), Some(1));
    assert_eq!(find(&root, &second), Some(2));
    assert_eq!(find(&root, &third), Some(3));
    assert_eq!(find(&root, &[1, 2, 3, 4, 5, 6, 7, 8, 9, 10, 40, 1]), None);
    assert_eq!(find(&root, &[1, 2, 3, 4, 5, 6, 7, 8, 99, 10, 20, 1]), None);
    // A fourth key leaves a prefix of which the inline part is a part only.
    let fourth = vec![1u8, 2, 3, 4, 5, 6, 7, 8, 9, 10, 20, 2];
    put(&mut root, &fourth, 4);
    assert_eq!(
        forward(&root),
        vec![(first.clone(), 1), (fourth.clone(), 4), (second.clone(), 2), (third.clone(), 3)]
    );
    // The way back joins the prefixes again.
    assert_eq!(remove(&mut root, &third), Some(3));
    assert_eq!(remove(&mut root, &fourth), Some(4));
    let node = root.as_ref().unwrap();
    let header = node.header().unwrap();
    assert_eq!(header.prefix_len(), 10);
    assert_eq!(header.read_prefix(), &[1, 2, 3, 4]);
    assert_eq!(child_keys(node), vec![20, 30]);
    assert_eq!(find(&root, &first), Some(1));
    assert_eq!(find(&root, &second), Some(2));
}

#[test]
fn insert_then_remove_restores_the_tree() {
    let mut root = two_level();
    let before = forward(&root);
    for key in [vec![1u8, 2, 3, 5, 6, 3], vec![1, 2, 9, 9], vec![1, 3], vec![200], vec![1, 2, 3, 5, 7]]
    {
        put(&mut root, &key, 5);
        assert_eq!(find(&root, &key), Some(5));
        assert_eq!(forward(&root).len(), before.len() + 1);
        assert_eq!(remove(&mut root, &key), Some(5));
        assert_eq!(find(&root, &key), None);
        assert_eq!(forward(&root), before);
        let node = root.as_ref().unwrap();
        assert_eq!(node.node_type(), NodeType::Node4);
        assert_eq!(node.header().unwrap().read_prefix(), &[1, 2]);
        assert_eq!(child_keys(node), vec![3, 4]);
    }
}

#[test]
fn insertion_order_does_not_matter() {
    let keys: Vec<Vec<u8>> = vec![
        vec![3, 1, 4, 1],
        vec![3, 1, 4, 2],
        vec![3, 1, 5, 9],
        vec![2, 7, 1, 8],
        vec![2, 7, 1, 9],
        vec![0, 0, 0, 0],
        vec![255, 255, 255, 255],
        vec![3, 2, 1, 0],
    ];
    let mut sorted = keys.clone();
    sorted.sort();
    let orders: Vec<Vec<usize>> = vec![
        vec![0, 1, 2, 3, 4, 5, 6, 7],
        vec![7, 6, 5, 4, 3, 2, 1, 0],
        vec![3, 0, 6, 1, 7, 2, 5, 4],
        vec![5, 2, 7, 0, 4, 6, 1, 3],
    ];
    for order in orders {
        let mut root: Root<16> = None;
        for index in order {
            put(&mut root, &keys[index], index as u32);
        }
        let leaves = forward(&root);
        let found: Vec<Vec<u8>> = leaves.iter().map(|entry| entry.0.clone()).collect();
        assert_eq!(found, sorted);
        for (key, value) in &leaves {
            assert_eq!(keys[*value as usize], *key);
        }
        let mut reversed = backward(&root);
        reversed.reverse();
        assert_eq!(reversed, leaves);
        assert_eq!(check_tree(root.as_ref().unwrap()), keys.len());
    }
}
