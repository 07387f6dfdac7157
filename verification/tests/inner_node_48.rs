use blart::{ConcreteNodePtr, InnerNode, InnerNode48, LeafNode, NodePtr, OpaqueNodePtr};

fn leaf(value: usize) -> OpaqueNodePtr<usize, 16> {
    NodePtr::allocate_node_ptr(LeafNode::new(vec![], value)).to_opaque()
}

fn leaf_value(pointer: Option<&OpaqueNodePtr<usize, 16>>) -> Option<usize> {
    pointer.map(|pointer| match &pointer.0 {
        ConcreteNodePtr::LeafNode(leaf) => *leaf.as_value_ref(),
        _ => unreachable!(),
    })
}

fn inner_node_write_child_test(mut node: InnerNode48<usize, 16>, num_children: usize) {
    assert!(!node.is_full());
    for idx in 0..num_children {
        node.write_child(u8::try_from(idx).unwrap(), leaf(idx));
    }
    for idx in 0..num_children {
        assert_eq!(
            leaf_value(node.lookup_child(u8::try_from(idx).unwrap())),
            Some(idx)
        );
    }
    assert!(node.is_full());
}

fn inner_node_remove_child_test(mut node: InnerNode48<usize, 16>, num_children: usize) {
    assert!(!node.is_full());
    for idx in 0..num_children {
        node.write_child(u8::try_from(idx).unwrap(), leaf(idx));
    }
    for idx in 0..num_children {
        assert_eq!(
            leaf_value(node.lookup_child(u8::try_from(idx).unwrap())),
            Some(idx)
        );
    }
    for idx in 0..num_children {
        let removed = node.remove_child(u8::try_from(idx).unwrap());
        assert_eq!(leaf_value(removed.as_ref()), Some(idx));
        assert!(node.lookup_child(u8::try_from(idx).unwrap()).is_none());
    }
    assert!(!node.is_full());
}

fn inner_node_shrink_test(mut node: InnerNode48<usize, 16>, num_children: usize) {
    for idx in 0..num_children {
        node.write_child(u8::try_from(idx).unwrap(), leaf(idx));
    }
    let shrunk_node = node.shrink();
    for idx in 0..num_children {
        assert_eq!(
            leaf_value(shrunk_node.lookup_child(u8::try_from(idx).unwrap())),
            Some(idx)
        );
    }
}

#[test]
fn lookup() {
    let mut n = InnerNode48::<usize, 16>::empty();

    assert!(n.lookup_child(123).is_none());

    n.write_child(3, leaf(1));
    n.write_child(123, leaf(2));
    n.write_child(1, leaf(3));

    assert_eq!(leaf_value(n.lookup_child(123)), Some(2));
}

#[test]
fn write_child() {
    inner_node_write_child_test(InnerNode48::<_, 16>::empty(), 48)
}

#[test]
fn remove_child() {
    inner_node_remove_child_test(InnerNode48::<_, 16>::empty(), 48)
}

#[test]
fn grow() {
    let mut n48 = InnerNode48::<usize, 16>::empty();

    n48.write_child(3, leaf(1));
    n48.write_child(123, leaf(2));
    n48.write_child(1, leaf(3));

    let n256 = n48.grow();

    assert_eq!(leaf_value(n256.lookup_child(3)), Some(1));
    assert_eq!(leaf_value(n256.lookup_child(123)), Some(2));
    assert_eq!(leaf_value(n256.lookup_child(1)), Some(3));
    assert_eq!(leaf_value(n256.lookup_child(4)), None);
}

#[test]
fn shrink() {
    inner_node_shrink_test(InnerNode48::<_, 16>::empty(), 16);
}

#[test]
fn iterate() {
    let mut node = InnerNode48::<usize, 16>::empty();
    node.write_child(3, leaf(1));
    node.write_child(255, leaf(2));
    node.write_child(0u8, leaf(3));
    node.write_child(85, leaf(4));

    let mut pairs = Vec::new();
    let mut cursor = node.iter();
    while let Some((key_fragment, pointer)) = cursor.next() {
        pairs.push((key_fragment, leaf_value(Some(pointer)).unwrap()));
    }

    assert!(pairs.iter().any(|(key_fragment, value)| *key_fragment == 3 && *value == 1));
    assert!(pairs.iter().any(|(key_fragment, value)| *key_fragment == 255 && *value == 2));
    assert!(pairs.iter().any(|(key_fragment, value)| *key_fragment == 0u8 && *value == 3));
    assert!(pairs.iter().any(|(key_fragment, value)| *key_fragment == 85 && *value == 4));
    assert_eq!(pairs, vec![(0, 3), (3, 1), (85, 4), (255, 2)]);

    let mut reversed = Vec::new();
    let mut cursor = node.iter();
    while let Some((key_fragment, pointer)) = cursor.next_back() {
        reversed.push((key_fragment, leaf_value(Some(pointer)).unwrap()));
    }
    assert_eq!(reversed, vec![(255, 2), (85, 4), (3, 1), (0, 3)]);

    let mut cursor = node.iter();
    assert_eq!(cursor.next().map(|entry| entry.0), Some(0));
    assert_eq!(cursor.next_back().map(|entry| entry.0), Some(255));
    assert_eq!(cursor.next_back().map(|entry| entry.0), Some(85));
    assert_eq!(cursor.next().map(|entry| entry.0), Some(3));
    assert!(cursor.next().is_none());
    assert!(cursor.next_back().is_none());
}

#[test]
fn remove_child_keeps_the_others_in_place() {
    let mut node = InnerNode48::<usize, 16>::empty();
    for idx in 0..20usize {
        node.write_child((idx * 7) as u8, leaf(idx));
    }
    let removed = node.remove_child(7 * 3);
    assert_eq!(leaf_value(removed.as_ref()), Some(3));
    assert!(node.remove_child(7 * 3).is_none());
    assert_eq!(node.header().num_children(), 19);
    for idx in 0..20usize {
        let expected = if idx == 3 { None } else { Some(idx) };
        assert_eq!(leaf_value(node.lookup_child((idx * 7) as u8)), expected);
    }
    assert_eq!(node.min().0, 0);
    assert_eq!(node.max().0, 7 * 19);
}

#[test]
fn write_child_overwrites() {
    let mut node = InnerNode48::<usize, 16>::empty();
    node.write_child(9, leaf(1));
    node.write_child(9, leaf(2));
    assert_eq!(node.header().num_children(), 1);
    assert_eq!(leaf_value(node.lookup_child(9)), Some(2));
}
