use blart::bytes::{bytes_eq, common_prefix};
use blart::{
    ConcreteNodePtr, Header, InnerNode, InnerNode16, InnerNode256, InnerNode4, InnerNode48, InnerNodeIter, LeafNode,
    MatchPrefixResult, Node, NodePtr, NodeType, OpaqueNodePtr, RestrictedNodeIndex,
    TryFromByteError,
};
use std::cmp::Ordering;

fn leaf(value: usize) -> OpaqueNodePtr<usize, 4> {
    NodePtr::allocate_node_ptr(LeafNode::new(vec![value as u8], value)).to_opaque()
}

fn value_of(pointer: Option<&OpaqueNodePtr<usize, 4>>) -> Option<usize> {
    pointer.map(|pointer| match &pointer.0 {
        ConcreteNodePtr::LeafNode(leaf) => *leaf.as_value_ref(),
        _ => unreachable!(),
    })
}

#[test]
fn node_type_capacities() {
    assert_eq!(NodeType::Node4.upper_capacity(), 4);
    assert_eq!(NodeType::Node16.upper_capacity(), 16);
    assert_eq!(NodeType::Node48.upper_capacity(), 48);
    assert_eq!(NodeType::Node256.upper_capacity(), 256);
    assert_eq!(NodeType::Leaf.upper_capacity(), 0);

    assert_eq!(NodeType::Node4.capacity_range(), 2..5);
    assert_eq!(NodeType::Node16.capacity_range(), 5..17);
    assert_eq!(NodeType::Node48.capacity_range(), 17..49);
    assert_eq!(NodeType::Node256.capacity_range(), 49..257);
    assert_eq!(NodeType::Leaf.capacity_range(), 0..0);

    assert!(!NodeType::Node4.should_shrink_inner_node(1));
    assert!(NodeType::Node16.should_shrink_inner_node(4));
    assert!(!NodeType::Node16.should_shrink_inner_node(5));
    assert!(NodeType::Node48.should_shrink_inner_node(16));
    assert!(!NodeType::Node48.should_shrink_inner_node(17));
    assert!(NodeType::Node256.should_shrink_inner_node(48));
    assert!(!NodeType::Node256.should_shrink_inner_node(49));

    for tag in 0..=4u8 {
        assert_eq!(NodeType::from_u8(tag).to_u8(), tag);
    }
    assert_eq!(NodeType::from_u8(4), NodeType::Leaf);
    assert_eq!(NodeType::from_u8(0), NodeType::Node4);
}

#[test]
fn opaque_pointers_know_their_type() {
    let pointer = leaf(5);
    assert_eq!(pointer.node_type(), NodeType::Leaf);
    assert!(pointer.is::<LeafNode<usize, 4>>());
    assert!(!pointer.is::<InnerNode4<usize, 4>>());
    assert!(pointer.header().is_none());
    let pointer = match pointer.cast::<InnerNode48<usize, 4>>() {
        Ok(_) => unreachable!(),
        Err(pointer) => pointer,
    };
    let typed = match pointer.cast::<LeafNode<usize, 4>>() {
        Ok(typed) => typed,
        Err(_) => unreachable!(),
    };
    assert_eq!(typed.as_key_value_ref(), (&vec![5u8], &5usize));
    assert_eq!(typed.as_key_ref(), &vec![5u8]);
    let pointer = OpaqueNodePtr::new(typed);
    let (key, value) = pointer.into_leaf_entry();
    assert_eq!((key, value), (vec![5u8], 5));

    let inner = NodePtr::allocate_node_ptr(InnerNode16::<usize, 4>::empty()).to_opaque();
    assert_eq!(inner.node_type(), NodeType::Node16);
    assert!(inner.is::<InnerNode16<usize, 4>>());
    assert_eq!(inner.header().unwrap().num_children(), 0);
    assert!(matches!(inner.to_node_ptr(), ConcreteNodePtr::Node16(_)));
    assert_eq!(<InnerNode256<usize, 4> as Node<4>>::node_type(), NodeType::Node256);
}

#[test]
fn leaf_nodes() {
    let mut leaf: LeafNode<u32, 8> = LeafNode::new(vec![1, 2, 3], 7);
    assert_eq!(leaf.key_ref(), &vec![1, 2, 3]);
    assert_eq!(leaf.value_ref(), &7);
    assert_eq!(leaf.entry_ref(), (&vec![1, 2, 3], &7));
    assert!(leaf.matches_full_key(&[1, 2, 3]));
    assert!(!leaf.matches_full_key(&[1, 2]));
    assert!(!leaf.matches_full_key(&[1, 2, 4]));
    assert!(!leaf.matches_full_key(&[1, 2, 3, 4]));
    *leaf.value_mut() = 8;
    assert_eq!(leaf.value_ref(), &8);
    {
        let (key, value) = leaf.entry_mut();
        key.push(4);
        *value += 1;
    }
    assert_eq!(leaf.into_entry(), (vec![1, 2, 3, 4], 9));

    let mut pointer = NodePtr::allocate_node_ptr(LeafNode::<u32, 8>::new(vec![1], 1));
    let previous = NodePtr::replace(&mut pointer, LeafNode::new(vec![2], 2));
    assert_eq!(previous.into_entry(), (vec![1], 1));
    pointer.as_mut().value = 3;
    assert_eq!(pointer.as_ref().entry_ref(), (&vec![2], &3));
    *pointer.as_value_mut() += 1;
    {
        let (key, value) = pointer.as_key_ref_value_mut();
        assert_eq!(key, &vec![2]);
        *value *= 10;
    }
    assert_eq!(pointer.as_value_ref(), &40);
    pointer.as_mut().value = 3;
    assert_eq!(NodePtr::deallocate_node_ptr(pointer).into_entry(), (vec![2], 3));
}

#[test]
fn restricted_indices() {
    let empty = RestrictedNodeIndex::<48>::empty();
    assert!(empty.is_empty());
    assert_eq!(u8::from(empty), 48);
    let index = RestrictedNodeIndex::<48>::try_from(47usize).unwrap();
    assert!(!index.is_empty());
    assert_eq!(usize::from(index), 47);
    assert_eq!(u8::from(index), 47);
    assert_eq!(RestrictedNodeIndex::<48>::try_from(48usize), Err(TryFromByteError(48, 48)));
    assert_eq!(RestrictedNodeIndex::<48>::try_from(300usize), Err(TryFromByteError(48, 300)));
    assert_eq!(RestrictedNodeIndex::<48>::try_from(3u8), Ok(RestrictedNodeIndex(3)));
    assert_eq!(RestrictedNodeIndex::<48>::try_from(48u8), Err(TryFromByteError(48, 48)));
    let low = RestrictedNodeIndex::<48>(3);
    let high = RestrictedNodeIndex::<48>(9);
    assert_eq!(low.partial_cmp(&high), Some(Ordering::Less));
    assert_eq!(high.partial_cmp(&low), Some(Ordering::Greater));
    assert_eq!(low.partial_cmp(&low), Some(Ordering::Equal));
    assert_eq!(low.partial_cmp(&empty), None);
    assert_eq!(empty.partial_cmp(&low), None);
    assert_eq!(empty.partial_cmp(&empty), None);
    assert!(low < high);
    assert!(low == RestrictedNodeIndex::<48>(3));
}

#[test]
fn headers() {
    let empty = Header::<4>::empty();
    assert_eq!(empty.num_children(), 0);
    assert_eq!(empty.prefix_len(), 0);
    assert_eq!(empty.read_prefix(), &[] as &[u8]);

    let mut header = Header::<4>::new(&[1, 2, 3], 3);
    assert_eq!(header.read_prefix(), &[1, 2, 3]);
    assert_eq!(header.capped_prefix_len(), 3);
    header.inc_num_children();
    header.inc_num_children();
    header.dec_num_children();
    assert_eq!(header.num_children(), 1);

    header.prepend(&[9]);
    assert_eq!(header.prefix_len(), 4);
    assert_eq!(header.read_prefix(), &[9, 1, 2, 3]);
    header.prepend(&[7, 8]);
    assert_eq!(header.prefix_len(), 6);
    assert_eq!(header.capped_prefix_len(), 4);
    assert_eq!(header.read_prefix(), &[7, 8, 9, 1]);
    header.prepend(&[0, 0, 0, 0, 0, 5]);
    assert_eq!(header.prefix_len(), 12);
    assert_eq!(header.read_prefix(), &[0, 0, 0, 0]);

    // the whole prefix is 0 0 0 0 0 5 7 8 9 1 2 3 and starts at depth 2 of
    // the key of the leaf
    let key = [100, 100, 0, 0, 0, 0, 0, 5, 7, 8, 9, 1, 2, 3, 50];
    header.trim_left_with_leaf(5, 2, &key);
    assert_eq!(header.prefix_len(), 7);
    assert_eq!(header.read_prefix(), &[5, 7, 8, 9]);
    header.trim_left_with_leaf(4, 7, &key);
    assert_eq!(header.prefix_len(), 3);
    assert_eq!(header.read_prefix(), &[1, 2, 3]);
    header.trim_left(1);
    assert_eq!(header.read_prefix(), &[2, 3]);
    header.trim_left(2);
    assert_eq!(header.prefix_len(), 0);
    assert_eq!(header.read_prefix(), &[] as &[u8]);
    assert_eq!(header.num_children(), 1);

    let long = Header::<4>::new(&[1, 2, 3, 4, 5, 6], 9);
    assert_eq!(long.prefix_len(), 9);
    assert_eq!(long.read_prefix(), &[1, 2, 3, 4]);
    let short = Header::<4>::new(&[1], 3);
    assert_eq!(short.read_prefix(), &[1, 0, 0]);
}

#[test]
fn byte_strings() {
    assert!(bytes_eq(&[], &[]));
    assert!(bytes_eq(&[1, 2], &[1, 2]));
    assert!(!bytes_eq(&[1, 2], &[1, 3]));
    assert!(!bytes_eq(&[1, 2], &[1]));
    assert_eq!(common_prefix(&[1, 2, 3], &[1, 2, 4]), 2);
    assert_eq!(common_prefix(&[1, 2, 3], &[1, 2, 3, 4]), 3);
    assert_eq!(common_prefix(&[], &[1]), 0);
    assert_eq!(common_prefix(&[5], &[6]), 0);
}

fn compressed_steps<N: InnerNode<4, Value = usize>>(
    mut node: N,
    size: usize,
    keys_of: fn(&N) -> Vec<u8>,
) -> N {
    let order: Vec<u8> = (0..size).map(|i| ((i * 37 + 11) % 251) as u8).collect();
    assert!(!node.is_full());
    for (i, byte) in order.iter().enumerate() {
        node.write_child(*byte, leaf(i));
        let mut sorted = order[..=i].to_vec();
        sorted.sort();
        assert_eq!(&keys_of(&node)[..=i], &sorted[..]);
        assert_eq!(node.header().num_children(), i + 1);
    }
    assert!(node.is_full());
    for (i, byte) in order.iter().enumerate() {
        assert_eq!(value_of(node.lookup_child(*byte)), Some(i));
    }
    assert_eq!(node.lookup_child(255).map(|_| ()), None);
    let least = *order.iter().min().unwrap();
    let most = *order.iter().max().unwrap();
    assert_eq!(node.min().0, least);
    assert_eq!(node.max().0, most);
    // overwrite
    node.write_child(order[0], leaf(1000));
    assert_eq!(value_of(node.lookup_child(order[0])), Some(1000));
    assert_eq!(node.header().num_children(), size);
    if let Some(child) = node.lookup_child_mut(order[1]) {
        *child = leaf(2000);
    }
    assert_eq!(value_of(node.lookup_child(order[1])), Some(2000));
    assert!(node.lookup_child_mut(254).is_none());
    // removal
    assert_eq!(value_of(node.remove_child(order[2]).as_ref()), Some(2));
    assert!(node.remove_child(order[2]).is_none());
    assert!(node.lookup_child(order[2]).is_none());
    assert_eq!(node.header().num_children(), size - 1);
    assert!(!node.is_full());
    let mut sorted: Vec<u8> = order.iter().copied().filter(|byte| *byte != order[2]).collect();
    sorted.sort();
    assert_eq!(&keys_of(&node)[..size - 1], &sorted[..]);
    node
}

#[test]
fn cursor_over_a_node16() {
    let mut node = InnerNode16::<usize, 4>::empty();
    let order: Vec<u8> = (0..16usize).map(|i| ((i * 37 + 11) % 251) as u8).collect();
    for (i, byte) in order.iter().enumerate() {
        node.write_child(*byte, leaf(i));
    }
    for byte in &order {
        assert_eq!(node.lookup_child_index(*byte).map(|index| node.keys[index]), Some(*byte));
    }
    assert_eq!(node.lookup_child_index(255), None);
    let mut sorted = order.clone();
    sorted.sort();
    let mut cursor = node.iter();
    assert_eq!(cursor.size_hint(), (16, Some(16)));
    assert_eq!(cursor.next().map(|entry| entry.0), Some(sorted[0]));
    assert_eq!(cursor.next_back().map(|entry| entry.0), Some(sorted[15]));
    assert_eq!(cursor.size_hint(), (14, Some(14)));
    let mut between = Vec::new();
    while let Some((byte, _)) = cursor.next() {
        between.push(byte);
    }
    assert_eq!(&between[..], &sorted[1..15]);
    assert!(cursor.next_back().is_none());
    let mut cursor = node.iter();
    let mut reversed = Vec::new();
    while let Some((byte, pointer)) = cursor.next_back() {
        reversed.push(byte);
        assert_eq!(value_of(node.lookup_child(byte)), value_of(Some(pointer)));
    }
    sorted.reverse();
    assert_eq!(reversed, sorted);
}

#[test]
fn node4_and_node16() {
    let n4 = compressed_steps(InnerNode4::<usize, 4>::empty(), 4, |node| node.keys.to_vec());
    assert_eq!(<InnerNode4<usize, 4> as Node<4>>::node_type(), NodeType::Node4);
    let mut n16 = compressed_steps(
        InnerNode16::<usize, 4>::from_prefix(&[1, 2, 3, 4, 5], 5),
        16,
        |node| node.keys.to_vec(),
    );
    assert_eq!(n16.header().prefix_len(), 5);
    assert_eq!(n16.header().read_prefix(), &[1, 2, 3, 4]);
    drop(n4);

    // 16 -> 48 and back
    let keys: Vec<u8> = n16.keys[..15].to_vec();
    let mut n48 = n16.grow();
    assert_eq!(n16.child_pointers.len(), 0);
    assert_eq!(n48.header().num_children(), 15);
    assert_eq!(n48.header().read_prefix(), &[1, 2, 3, 4]);
    for byte in &keys {
        assert!(n48.lookup_child(*byte).is_some());
    }
    assert_eq!((0..=255u8).filter(|byte| n48.lookup_child(*byte).is_some()).count(), 15);
    let back = n48.shrink();
    assert_eq!(&back.keys[..15], &keys[..]);
    assert_eq!(back.header().num_children(), 15);
}

#[test]
fn node4_grows_and_node16_shrinks() {
    let mut n4 = InnerNode4::<usize, 4>::from_prefix(&[6], 1);
    for (i, byte) in [200u8, 3, 90, 17].into_iter().enumerate() {
        n4.write_child(byte, leaf(i));
    }
    let mut n16 = n4.grow();
    assert_eq!(&n16.keys[..4], &[3, 17, 90, 200]);
    assert_eq!(n16.header().num_children(), 4);
    assert_eq!(n16.header().read_prefix(), &[6]);
    assert_eq!(value_of(n16.lookup_child(200)), Some(0));
    assert_eq!(value_of(n16.lookup_child(3)), Some(1));
    n16.write_child(5, leaf(9));
    assert_eq!(&n16.keys[..5], &[3, 5, 17, 90, 200]);
    n16.remove_child(90);
    let n4 = n16.shrink();
    assert_eq!(n4.keys, [3, 5, 17, 200]);
    assert_eq!(value_of(n4.lookup_child(5)), Some(9));
    assert_eq!(value_of(n4.lookup_child(17)), Some(3));
    assert!(n4.is_full());
}

#[test]
fn node256() {
    let mut node = InnerNode256::<usize, 4>::from_prefix(&[1, 2], 2);
    assert!(node.lookup_child(0).is_none());
    for byte in 0..=255u8 {
        assert!(!node.is_full());
        node.write_child(byte, leaf(byte as usize));
    }
    assert!(node.is_full());
    assert_eq!(node.header().num_children(), 256);
    node.write_child(10, leaf(400));
    assert_eq!(node.header().num_children(), 256);
    assert_eq!(value_of(node.lookup_child(10)), Some(400));
    assert_eq!(node.min().0, 0);
    assert_eq!(node.max().0, 255);
    for byte in 0..=255u8 {
        if byte % 5 != 0 {
            assert_eq!(value_of(node.remove_child(byte).as_ref()), Some(byte as usize));
            assert!(node.remove_child(byte).is_none());
        }
    }
    assert_eq!(node.header().num_children(), 52);
    assert_eq!(node.min().0, 0);
    assert_eq!(node.max().0, 255);
    assert!(node.lookup_child_mut(1).is_none());
    *node.lookup_child_mut(5).unwrap() = leaf(500);
    let mut cursor = node.iter();
    assert_eq!(cursor.size_hint(), (0, Some(256)));
    let mut seen = Vec::new();
    while let Some((byte, _)) = cursor.next() {
        seen.push(byte);
    }
    assert_eq!(seen, (0..=255u8).filter(|byte| byte % 5 == 0).collect::<Vec<u8>>());
    let mut cursor = node.iter();
    assert_eq!(cursor.next_back().map(|entry| entry.0), Some(255));
    assert_eq!(cursor.next_back().map(|entry| entry.0), Some(250));
    assert_eq!(cursor.next().map(|entry| entry.0), Some(0));

    for byte in [255u8, 250, 245, 240] {
        node.remove_child(byte);
    }
    let mut n48 = node.shrink();
    assert!(node.lookup_child(0).is_none());
    assert_eq!(n48.header().num_children(), 48);
    assert_eq!(n48.header().read_prefix(), &[1, 2]);
    assert!(n48.is_full());
    assert_eq!(value_of(n48.lookup_child(5)), Some(500));
    assert_eq!(value_of(n48.lookup_child(235)), Some(235));
    assert!(n48.lookup_child(240).is_none());
    let n256 = n48.grow();
    assert_eq!(n256.header().num_children(), 48);
    assert_eq!(value_of(n256.lookup_child(0)), Some(0));
    assert_eq!(value_of(n256.lookup_child(10)), Some(400));
    assert_eq!(
        (0..=255u8).filter(|byte| n256.lookup_child(*byte).is_some()).collect::<Vec<u8>>(),
        (0..48u8).map(|i| i * 5).collect::<Vec<u8>>()
    );
}

#[test]
fn prefixes_are_matched_against_keys() {
    let mut node = InnerNode4::<usize, 4>::from_prefix(&[1, 2, 3], 3);
    node.write_child(7, NodePtr::allocate_node_ptr(LeafNode::new(vec![9, 1, 2, 3, 7], 1)).to_opaque());
    node.write_child(8, NodePtr::allocate_node_ptr(LeafNode::new(vec![9, 1, 2, 3, 8], 2)).to_opaque());
    let node = NodePtr::allocate_node_ptr(node).to_opaque();
    assert!(matches!(
        node.match_prefix(&[9, 1, 2, 3, 7], 1),
        MatchPrefixResult::Match { matched_bytes: 3 }
    ));
    assert!(matches!(
        node.match_prefix(&[9, 1, 2, 3], 1),
        MatchPrefixResult::Match { matched_bytes: 3 }
    ));
    match node.match_prefix(&[9, 1, 5, 3, 7], 1) {
        MatchPrefixResult::Mismatch { mismatch } => {
            assert_eq!(mismatch.matched_bytes, 1);
            assert_eq!(mismatch.prefix_byte, 2);
            assert!(mismatch.leaf_ptr.is_none());
        },
        _ => unreachable!(),
    }
    match node.match_prefix(&[9, 1, 2], 1) {
        MatchPrefixResult::Mismatch { mismatch } => {
            assert_eq!(mismatch.matched_bytes, 2);
            assert_eq!(mismatch.prefix_byte, 3);
        },
        _ => unreachable!(),
    }
    match node.match_prefix(&[9], 1) {
        MatchPrefixResult::Mismatch { mismatch } => {
            assert_eq!(mismatch.matched_bytes, 0);
            assert_eq!(mismatch.prefix_byte, 1);
        },
        _ => unreachable!(),
    }
    assert_eq!(node.read_full_prefix(1).0, &[1, 2, 3]);
    assert_eq!(node.min_child().0, 7);
    assert_eq!(node.max_child().0, 8);
    let mut cursor = InnerNodeIter::new(&node);
    assert_eq!(cursor.size_hint(), (2, Some(2)));
    assert_eq!(cursor.next().map(|entry| entry.0), Some(7));
    assert_eq!(cursor.next_back().map(|entry| entry.0), Some(8));
    assert!(cursor.next().is_none());

    // a prefix of 6 bytes of which 4 are inline; it starts at depth 1
    let mut long = InnerNode4::<usize, 4>::from_prefix(&[1, 2, 3, 4, 5, 6], 6);
    long.write_child(7, NodePtr::allocate_node_ptr(LeafNode::new(vec![9, 1, 2, 3, 4, 5, 6, 7], 1)).to_opaque());
    long.write_child(8, NodePtr::allocate_node_ptr(LeafNode::new(vec![9, 1, 2, 3, 4, 5, 6, 8], 2)).to_opaque());
    let long = NodePtr::allocate_node_ptr(long).to_opaque();
    let (prefix, witness) = long.read_full_prefix(1);
    assert_eq!(prefix, &[1, 2, 3, 4, 5, 6]);
    assert_eq!(witness.map(|leaf| *leaf.value_ref()), Some(1));
    assert!(matches!(
        long.match_prefix(&[9, 1, 2, 3, 4, 5, 6, 8], 1),
        MatchPrefixResult::Match { matched_bytes: 6 }
    ));
    match long.match_prefix(&[9, 1, 2, 3, 4, 5, 60, 8], 1) {
        MatchPrefixResult::Mismatch { mismatch } => {
            assert_eq!(mismatch.matched_bytes, 5);
            assert_eq!(mismatch.prefix_byte, 6);
            assert_eq!(mismatch.leaf_ptr.map(|leaf| leaf.key_ref().clone()), Some(vec![9, 1, 2, 3, 4, 5, 6, 7]));
        },
        _ => unreachable!(),
    }
    match long.match_prefix(&[9, 1, 20, 3, 4, 5, 6, 8], 1) {
        MatchPrefixResult::Mismatch { mismatch } => {
            assert_eq!(mismatch.matched_bytes, 1);
            assert_eq!(mismatch.prefix_byte, 2);
            assert!(mismatch.leaf_ptr.is_some());
        },
        _ => unreachable!(),
    }
}
