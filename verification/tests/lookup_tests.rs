use blart::{
    search, InnerNode, InnerNode16, InnerNode256, InnerNode4, InnerNode48, ConcreteNodePtr,
    LeafNode, NodePtr, OpaqueNodePtr,
};

fn leaf(key: &[u8], value: i32) -> OpaqueNodePtr<i32, 16> {
    NodePtr::allocate_node_ptr(LeafNode::new(key.to_vec(), value)).to_opaque()
}

#[test]
fn lookup_on_leaf() {
    let leaf_ptr = leaf(&[1, 2, 3], 123);

    assert_eq!(search(&leaf_ptr, &[1, 2, 3]), Some(&123));
    let stored = match &leaf_ptr.0 {
        ConcreteNodePtr::LeafNode(pointer) => pointer.as_value_ref(),
        _ => unreachable!(),
    };
    assert!(std::ptr::eq(search(&leaf_ptr, &[1, 2, 3]).unwrap(), stored));
    assert_eq!(search(&leaf_ptr, &[0, 0, 0]), None)
}

#[test]
fn lookup_on_empty_nodes() {
    let roots: Vec<OpaqueNodePtr<(), 16>> = vec![
        NodePtr::allocate_node_ptr(InnerNode4::<(), 16>::empty()).to_opaque(),
        NodePtr::allocate_node_ptr(InnerNode16::<(), 16>::empty()).to_opaque(),
        NodePtr::allocate_node_ptr(InnerNode48::<(), 16>::empty()).to_opaque(),
        NodePtr::allocate_node_ptr(InnerNode256::<(), 16>::empty()).to_opaque(),
    ];

    for root in roots {
        assert_eq!(search(&root, &[1, 2, 1]), None);
        assert_eq!(search(&root, &[1, 2, 2]), None);
        assert_eq!(search(&root, &[1, 2, 3]), None);
        assert_eq!(search(&root, &[1, 2, 4]), None);
        assert_eq!(search(&root, &[]), None);
        assert_eq!(search(&root, &[1, 2]), None);
        assert_eq!(search(&root, &[1, 2, 10]), None);
        assert_eq!(search(&root, &[0, 2, 1]), None);
    }
}

#[test]
fn lookup_on_full_node4() {
    let l1_ptr = leaf(&[1, 2, 1], 121);
    let l2_ptr = leaf(&[1, 2, 2], 122);
    let l3_ptr = leaf(&[1, 2, 3], 123);
    let l4_ptr = leaf(&[1, 2, 4], 124);

    // Update inner node prefix and child slots
    let mut inner_node = InnerNode4::<i32, 16>::from_prefix(&[1, 2], 2);
    inner_node.write_child(1, l1_ptr);
    inner_node.write_child(2, l2_ptr);
    inner_node.write_child(3, l3_ptr);
    inner_node.write_child(4, l4_ptr);

    let root = NodePtr::allocate_node_ptr(inner_node).to_opaque();

    assert_eq!(search(&root, &[1, 2, 1]), Some(&121));
    assert_eq!(search(&root, &[1, 2, 2]), Some(&122));
    assert_eq!(search(&root, &[1, 2, 3]), Some(&123));
    assert_eq!(search(&root, &[1, 2, 4]), Some(&124));

    assert_eq!(search(&root, &[]), None);
    assert_eq!(search(&root, &[1, 2]), None);
    assert_eq!(search(&root, &[1, 2, 10]), None);
    assert_eq!(search(&root, &[0, 2, 1]), None);
}

#[test]
fn lookup_on_node16() {
    let l1_ptr = leaf(&[1, 2, 1], 121);
    let l2_ptr = leaf(&[1, 2, 2], 122);
    let l3_ptr = leaf(&[1, 2, 3], 123);
    let l4_ptr = leaf(&[1, 2, 4], 124);

    // Update inner node prefix and child slots
    let mut inner_node = InnerNode16::<i32, 16>::from_prefix(&[1, 2], 2);
    inner_node.write_child(1, l1_ptr);
    inner_node.write_child(2, l2_ptr);
    inner_node.write_child(3, l3_ptr);
    inner_node.write_child(4, l4_ptr);

    let root = NodePtr::allocate_node_ptr(inner_node).to_opaque();

    assert_eq!(search(&root, &[1, 2, 1]), Some(&121));
    assert_eq!(search(&root, &[1, 2, 2]), Some(&122));
    assert_eq!(search(&root, &[1, 2, 3]), Some(&123));
    assert_eq!(search(&root, &[1, 2, 4]), Some(&124));

    assert_eq!(search(&root, &[]), None);
    assert_eq!(search(&root, &[1, 2]), None);
    assert_eq!(search(&root, &[1, 2, 10]), None);
    assert_eq!(search(&root, &[0, 2, 1]), None);
}

#[test]
fn lookup_on_node48() {
    let l1_ptr = leaf(&[1, 2, 1], 121);
    let l2_ptr = leaf(&[1, 2, 2], 122);
    let l3_ptr = leaf(&[1, 2, 3], 123);
    let l4_ptr = leaf(&[1, 2, 4], 124);

    // Update inner node prefix and child slots
    let mut inner_node = InnerNode48::<i32, 16>::from_prefix(&[1, 2], 2);
    inner_node.write_child(1, l1_ptr);
    inner_node.write_child(2, l2_ptr);
    inner_node.write_child(3, l3_ptr);
    inner_node.write_child(4, l4_ptr);

    let root = NodePtr::allocate_node_ptr(inner_node).to_opaque();

    assert_eq!(search(&root, &[1, 2, 1]), Some(&121));
    assert_eq!(search(&root, &[1, 2, 2]), Some(&122));
    assert_eq!(search(&root, &[1, 2, 3]), Some(&123));
    assert_eq!(search(&root, &[1, 2, 4]), Some(&124));

    assert_eq!(search(&root, &[]), None);
    assert_eq!(search(&root, &[1, 2]), None);
    assert_eq!(search(&root, &[1, 2, 10]), None);
    assert_eq!(search(&root, &[0, 2, 1]), None);
}

#[test]
fn lookup_on_node256() {
    let l1_ptr = leaf(&[1, 2, 1], 121);
    let l2_ptr = leaf(&[1, 2, 2], 122);
    let l3_ptr = leaf(&[1, 2, 3], 123);
    let l4_ptr = leaf(&[1, 2, 4], 124);

    // Update inner node prefix and child slots
    let mut inner_node = InnerNode256::<i32, 16>::from_prefix(&[1, 2], 2);
    inner_node.write_child(1, l1_ptr);
    inner_node.write_child(2, l2_ptr);
    inner_node.write_child(3, l3_ptr);
    inner_node.write_child(4, l4_ptr);

    let root = NodePtr::allocate_node_ptr(inner_node).to_opaque();

    assert_eq!(search(&root, &[1, 2, 1]), Some(&121));
    assert_eq!(search(&root, &[1, 2, 2]), Some(&122));
    assert_eq!(search(&root, &[1, 2, 3]), Some(&123));
    assert_eq!(search(&root, &[1, 2, 4]), Some(&124));

    assert_eq!(search(&root, &[]), None);
    assert_eq!(search(&root, &[1, 2]), None);
    assert_eq!(search(&root, &[1, 2, 10]), None);
    assert_eq!(search(&root, &[0, 2, 1]), None);
}

#[test]
fn lookup_on_n16_n4_layer_tree() {
    let l1_ptr = leaf(&[1, 2, 3, 5, 6, 1], 123561);
    let l2_ptr = leaf(&[1, 2, 3, 5, 6, 2], 123562);
    let l3_ptr = leaf(&[1, 2, 4, 7, 8, 3], 124783);
    let l4_ptr = leaf(&[1, 2, 4, 7, 8, 4], 124784);

    // Update inner node prefix and child slots
    let mut n4_left = InnerNode4::<i32, 16>::from_prefix(&[5, 6], 2);
    n4_left.write_child(1, l1_ptr);
    n4_left.write_child(2, l2_ptr);

    let mut n4_right = InnerNode4::<i32, 16>::from_prefix(&[7, 8], 2);
    n4_right.write_child(3, l3_ptr);
    n4_right.write_child(4, l4_ptr);

    let n4_left_ptr = NodePtr::allocate_node_ptr(n4_left).to_opaque();
    let n4_right_ptr = NodePtr::allocate_node_ptr(n4_right).to_opaque();

    let mut top = InnerNode16::<i32, 16>::from_prefix(&[1, 2], 2);
    top.write_child(3, n4_left_ptr);
    top.write_child(4, n4_right_ptr);

    let root = NodePtr::allocate_node_ptr(top).to_opaque();

    assert_eq!(search(&root, &[1, 2, 3, 5, 6, 1]), Some(&123561));
    assert_eq!(search(&root, &[1, 2, 3, 5, 6, 2]), Some(&123562));
    assert_eq!(search(&root, &[1, 2, 4, 7, 8, 3]), Some(&124783));
    assert_eq!(search(&root, &[1, 2, 4, 7, 8, 4]), Some(&124784));

    assert_eq!(search(&root, &[1, 2, 3]), None);
    assert_eq!(search(&root, &[1, 2, 4]), None);
    assert_eq!(search(&root, &[1, 2, 3, 5, 6]), None);
    assert_eq!(search(&root, &[1, 2, 4, 7, 8]), None);

    assert_eq!(search(&root, &[1, 2, 3, 50, 6, 1]), None);
    assert_eq!(search(&root, &[1, 2, 4, 70, 8, 3]), None);
    assert_eq!(search(&root, &[1, 2, 30, 5, 6, 1]), None);
    assert_eq!(search(&root, &[1, 2, 40, 7, 8, 3]), None);
    assert_eq!(search(&root, &[10, 2, 3, 5, 6, 1]), None);
    assert_eq!(search(&root, &[1, 20, 4, 7, 8, 3]), None);
    assert_eq!(search(&root, &[1, 2, 3, 5, 60, 1]), None);
    assert_eq!(search(&root, &[1, 2, 4, 7, 80, 3]), None);
}

#[test]
fn lookup_on_n48_n4_layer_tree() {
    let l1_ptr = leaf(&[1, 2, 3, 5, 6, 1], 123561);
    let l2_ptr = leaf(&[1, 2, 3, 5, 6, 2], 123562);
    let l3_ptr = leaf(&[1, 2, 4, 7, 8, 3], 124783);
    let l4_ptr = leaf(&[1, 2, 4, 7, 8, 4], 124784);

    // Update inner node prefix and child slots
    let mut n4_left = InnerNode4::<i32, 16>::from_prefix(&[5, 6], 2);
    n4_left.write_child(1, l1_ptr);
    n4_left.write_child(2, l2_ptr);

    let mut n4_right = InnerNode4::<i32, 16>::from_prefix(&[7, 8], 2);
    n4_right.write_child(3, l3_ptr);
    n4_right.write_child(4, l4_ptr);

    let n4_left_ptr = NodePtr::allocate_node_ptr(n4_left).to_opaque();
    let n4_right_ptr = NodePtr::allocate_node_ptr(n4_right).to_opaque();

    let mut top = InnerNode48::<i32, 16>::from_prefix(&[1, 2], 2);
    top.write_child(3, n4_left_ptr);
    top.write_child(4, n4_right_ptr);

    let root = NodePtr::allocate_node_ptr(top).to_opaque();

    assert_eq!(search(&root, &[1, 2, 3, 5, 6, 1]), Some(&123561));
    assert_eq!(search(&root, &[1, 2, 3, 5, 6, 2]), Some(&123562));
    assert_eq!(search(&root, &[1, 2, 4, 7, 8, 3]), Some(&124783));
    assert_eq!(search(&root, &[1, 2, 4, 7, 8, 4]), Some(&124784));

    assert_eq!(search(&root, &[1, 2, 3]), None);
    assert_eq!(search(&root, &[1, 2, 4]), None);
    assert_eq!(search(&root, &[1, 2, 3, 5, 6]), None);
    assert_eq!(search(&root, &[1, 2, 4, 7, 8]), None);

    assert_eq!(search(&root, &[1, 2, 3, 50, 6, 1]), None);
    assert_eq!(search(&root, &[1, 2, 4, 70, 8, 3]), None);
    assert_eq!(search(&root, &[1, 2, 30, 5, 6, 1]), None);
    assert_eq!(search(&root, &[1, 2, 40, 7, 8, 3]), None);
    assert_eq!(search(&root, &[10, 2, 3, 5, 6, 1]), None);
    assert_eq!(search(&root, &[1, 20, 4, 7, 8, 3]), None);
    assert_eq!(search(&root, &[1, 2, 3, 5, 60, 1]), None);
    assert_eq!(search(&root, &[1, 2, 4, 7, 80, 3]), None);
}

#[test]
fn lookup_on_n256_n4_layer_tree() {
    let l1_ptr = leaf(&[1, 2, 3, 5, 6, 1], 123561);
    let l2_ptr = leaf(&[1, 2, 3, 5, 6, 2], 123562);
    let l3_ptr = leaf(&[1, 2, 4, 7, 8, 3], 124783);
    let l4_ptr = leaf(&[1, 2, 4, 7, 8, 4], 124784);

    // Update inner node prefix and child slots
    let mut n4_left = InnerNode4::<i32, 16>::from_prefix(&[5, 6], 2);
    n4_left.write_child(1, l1_ptr);
    n4_left.write_child(2, l2_ptr);

    let mut n4_right = InnerNode4::<i32, 16>::from_prefix(&[7, 8], 2);
    n4_right.write_child(3, l3_ptr);
    n4_right.write_child(4, l4_ptr);

    let n4_left_ptr = NodePtr::allocate_node_ptr(n4_left).to_opaque();
    let n4_right_ptr = NodePtr::allocate_node_ptr(n4_right).to_opaque();

    let mut top = InnerNode256::<i32, 16>::from_prefix(&[1, 2], 2);
    top.write_child(3, n4_left_ptr);
    top.write_child(4, n4_right_ptr);

    let root = NodePtr::allocate_node_ptr(top).to_opaque();

    assert_eq!(search(&root, &[1, 2, 3, 5, 6, 1]), Some(&123561));
    assert_eq!(search(&root, &[1, 2, 3, 5, 6, 2]), Some(&123562));
    assert_eq!(search(&root, &[1, 2, 4, 7, 8, 3]), Some(&124783));
    assert_eq!(search(&root, &[1, 2, 4, 7, 8, 4]), Some(&124784));

    assert_eq!(search(&root, &[1, 2, 3]), None);
    assert_eq!(search(&root, &[1, 2, 4]), None);
    assert_eq!(search(&root, &[1, 2, 3, 5, 6]), None);
    assert_eq!(search(&root, &[1, 2, 4, 7, 8]), None);

    assert_eq!(search(&root, &[1, 2, 3, 50, 6, 1]), None);
    assert_eq!(search(&root, &[1, 2, 4, 70, 8, 3]), None);
    assert_eq!(search(&root, &[1, 2, 30, 5, 6, 1]), None);
    assert_eq!(search(&root, &[1, 2, 40, 7, 8, 3]), None);
    assert_eq!(search(&root, &[10, 2, 3, 5, 6, 1]), None);
    assert_eq!(search(&root, &[1, 20, 4, 7, 8, 3]), None);
    assert_eq!(search(&root, &[1, 2, 3, 5, 60, 1]), None);
    assert_eq!(search(&root, &[1, 2, 4, 7, 80, 3]), None);
}

#[test]
fn lookup_on_n4_n4_layer_tree() {
    let l1_ptr = leaf(&[1, 2, 3, 5, 6, 1], 123561);
    let l2_ptr = leaf(&[1, 2, 3, 5, 6, 2], 123562);
    let l3_ptr = leaf(&[1, 2, 4, 7, 8, 3], 124783);
    let l4_ptr = leaf(&[1, 2, 4, 7, 8, 4], 124784);

    // Update inner node prefix and child slots
    let mut n4_left = InnerNode4::<i32, 16>::from_prefix(&[5, 6], 2);
    n4_left.write_child(1, l1_ptr);
    n4_left.write_child(2, l2_ptr);

    let mut n4_right = InnerNode4::<i32, 16>::from_prefix(&[7, 8], 2);
    n4_right.write_child(3, l3_ptr);
    n4_right.write_child(4, l4_ptr);

    let n4_left_ptr = NodePtr::allocate_node_ptr(n4_left).to_opaque();
    let n4_right_ptr = NodePtr::allocate_node_ptr(n4_right).to_opaque();

    let mut top = InnerNode4::<i32, 16>::from_prefix(&[1, 2], 2);
    top.write_child(3, n4_left_ptr);
    top.write_child(4, n4_right_ptr);

    let root = NodePtr::allocate_node_ptr(top).to_opaque();

    assert_eq!(search(&root, &[1, 2, 3, 5, 6, 1]), Some(&123561));
    assert_eq!(search(&root, &[1, 2, 3, 5, 6, 2]), Some(&123562));
    assert_eq!(search(&root, &[1, 2, 4, 7, 8, 3]), Some(&124783));
    assert_eq!(search(&root, &[1, 2, 4, 7, 8, 4]), Some(&124784));

    assert_eq!(search(&root, &[1, 2, 3]), None);
    assert_eq!(search(&root, &[1, 2, 4]), None);
    assert_eq!(search(&root, &[1, 2, 3, 5, 6]), None);
    assert_eq!(search(&root, &[1, 2, 4, 7, 8]), None);

    assert_eq!(search(&root, &[1, 2, 3, 50, 6, 1]), None);
    assert_eq!(search(&root, &[1, 2, 4, 70, 8, 3]), None);
    assert_eq!(search(&root, &[1, 2, 30, 5, 6, 1]), None);
    assert_eq!(search(&root, &[1, 2, 40, 7, 8, 3]), None);
    assert_eq!(search(&root, &[10, 2, 3, 5, 6, 1]), None);
    assert_eq!(search(&root, &[1, 20, 4, 7, 8, 3]), None);
    assert_eq!(search(&root, &[1, 2, 3, 5, 60, 1]), None);
    assert_eq!(search(&root, &[1, 2, 4, 7, 80, 3]), None);
}
