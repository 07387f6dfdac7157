use blart::{insert, remove, search, ConcreteNodePtr, InsertResult, OpaqueNodePtr, TreeIterator};
use std::collections::BTreeMap;

struct Lcg(u64);

impl Lcg {
    fn next(&mut self) -> u64 {
        self.0 = self.0.wrapping_mul(6364136223846793005).wrapping_add(1442695040888963407);
        self.0 >> 33
    }
}

fn check<const PREFIX_LEN: usize>(node: &OpaqueNodePtr<u64, PREFIX_LEN>, is_root: bool) -> usize {
    match &node.0 {
        ConcreteNodePtr::LeafNode(_) => 1,
        _ => {
            let header = node.header().unwrap();
            let count = header.num_children();
            assert!(node.node_type().capacity_range().contains(&count), "{}", is_root);
            assert_eq!(header.capped_prefix_len(), header.prefix_len().min(PREFIX_LEN));
            let mut leaves = 0;
            let mut children = 0;
            for byte in 0..=255u8 {
                if let Some(child) = node.lookup_child(byte) {
                    children += 1;
                    leaves += check(child, false);
                }
            }
            assert_eq!(children, count);
            leaves
        },
    }
}

fn run<const PREFIX_LEN: usize>(seed: u64, key_len: usize, alphabet: u64, steps: usize) {
    let mut random = Lcg(seed);
    let mut root: Option<OpaqueNodePtr<u64, PREFIX_LEN>> = None;
    let mut model: BTreeMap<Vec<u8>, u64> = BTreeMap::new();
    for step in 0..steps {
        let key: Vec<u8> =
            (0..key_len).map(|_| ((random.next() % alphabet) * 37 % 256) as u8).collect();
        let value = random.next();
        match random.next() % 3 {
            0 | 1 => {
                let expected = model.insert(key.clone(), value);
                match insert(&mut root, key.clone(), value) {
                    InsertResult::Inserted => assert_eq!(expected, None),
                    InsertResult::Replaced(previous) => assert_eq!(expected, Some(previous)),
                    InsertResult::PrefixConflict => unreachable!(),
                }
            },
            _ => {
                assert_eq!(remove(&mut root, &key), model.remove(&key));
            },
        }
        assert_eq!(root.as_ref().and_then(|root| search(root, &key)), model.get(&key));
        if step % 64 == 0 || step + 1 == steps {
            let mut forward = Vec::new();
            let mut backward = Vec::new();
            if let Some(root) = &root {
                assert_eq!(check(root, true), model.len());
                let mut iterator = TreeIterator::new(root);
                while let Some(leaf) = iterator.next() {
                    forward.push((leaf.key_ref().clone(), *leaf.value_ref()));
                }
                let mut iterator = TreeIterator::new(root);
                while let Some(leaf) = iterator.next_back() {
                    backward.push((leaf.key_ref().clone(), *leaf.value_ref()));
                }
            } else {
                assert!(model.is_empty());
            }
            let expected: Vec<(Vec<u8>, u64)> =
                model.iter().map(|(key, value)| (key.clone(), *value)).collect();
            assert_eq!(forward, expected);
            backward.reverse();
            assert_eq!(backward, expected);
        }
    }
    let keys: Vec<Vec<u8>> = model.keys().cloned().collect();
    for key in keys {
        assert_eq!(remove(&mut root, &key), model.remove(&key));
    }
    assert!(root.is_none());
}

#[test]
fn random_operations_with_short_prefixes() {
    run::<16>(1, 4, 256, 6000);
    run::<16>(2, 3, 70, 6000);
}

#[test]
fn random_operations_with_prefixes_beyond_the_inline_buffer() {
    run::<2>(3, 9, 2, 4000);
    run::<1>(4, 12, 2, 4000);
    run::<0>(5, 7, 3, 4000);
    run::<4>(6, 20, 2, 6000);
}

#[test]
fn random_operations_from_both_ends() {
    let mut random = Lcg(7);
    let mut root: Option<OpaqueNodePtr<u64, 3>> = None;
    let mut model: BTreeMap<Vec<u8>, u64> = BTreeMap::new();
    for _ in 0..3000 {
        let key: Vec<u8> = (0..5).map(|_| (random.next() % 7) as u8).collect();
        let value = random.next();
        model.insert(key.clone(), value);
        insert(&mut root, key, value);
    }
    let expected: Vec<(Vec<u8>, u64)> =
        model.iter().map(|(key, value)| (key.clone(), *value)).collect();
    let root = root.unwrap();
    for round in 0..50 {
        let mut iterator = TreeIterator::new(&root);
        let mut front = Vec::new();
        let mut back = Vec::new();
        loop {
            let from_front = random.next() % (round + 2) != 0;
            let leaf = if from_front { iterator.next() } else { iterator.next_back() };
            match leaf {
                Some(leaf) if from_front => front.push((leaf.key_ref().clone(), *leaf.value_ref())),
                Some(leaf) => back.push((leaf.key_ref().clone(), *leaf.value_ref())),
                None => break,
            }
        }
        assert!(iterator.next().is_none());
        assert!(iterator.next_back().is_none());
        back.reverse();
        front.extend(back);
        assert_eq!(front, expected);
    }
}
