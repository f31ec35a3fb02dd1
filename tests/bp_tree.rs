use bptree::entry::{DuplicatePolicy, Entry, InsertError};
use bptree::leaf::LeafNode;
use bptree::node::{InternalNode, Node};
use bptree::tree::BPTree;

/// Walks a subtree and checks its invariants; returns its height and its keys in order.
fn check_node<V>(node: &Node<V>, degree: usize, lo: Option<u64>, hi: Option<u64>) -> (usize, Vec<u64>) {
    match node {
        Node::Leaf(l) => {
            assert_eq!(l.degree, degree);
            assert!(!l.entries.is_empty());
            assert!(l.entries.len() < degree);
            let keys: Vec<u64> = l.entries.iter().map(|e| e.key).collect();
            for w in keys.windows(2) {
                assert!(w[0] < w[1]);
            }
            for k in &keys {
                if let Some(lo) = lo {
                    assert!(*k >= lo);
                }
                if let Some(hi) = hi {
                    assert!(*k < hi);
                }
            }
            (1, keys)
        }
        Node::Internal(n) => {
            assert_eq!(n.degree, degree);
            assert!(!n.children.is_empty());
            assert!(n.children.len() <= degree);
            assert_eq!(n.separators.len() + 1, n.children.len());
            let mut keys = Vec::new();
            let mut height = None;
            for (i, c) in n.children.iter().enumerate() {
                let clo = if i == 0 { lo } else { Some(n.separators[i - 1]) };
                let chi = if i == n.separators.len() { hi } else { Some(n.separators[i]) };
                let (h, ks) = check_node(c, degree, clo, chi);
                if let Some(h0) = height {
                    assert_eq!(h0, h);
                }
                height = Some(h);
                keys.extend(ks);
            }
            (height.unwrap() + 1, keys)
        }
    }
}

fn check_tree<V>(tree: &BPTree<V>) -> (usize, Vec<u64>) {
    match &tree.root_node {
        None => (0, Vec::new()),
        Some(root) => check_node(root, tree.degree, None, None),
    }
}

fn leaf_keys<V>(node: &Node<V>) -> Vec<u64> {
    match node {
        Node::Leaf(l) => l.entries.iter().map(|e| e.key).collect(),
        Node::Internal(_) => panic!("not a leaf"),
    }
}

fn internal<V>(node: &Node<V>) -> &InternalNode<V> {
    match node {
        Node::Internal(n) => n,
        Node::Leaf(_) => panic!("not an internal node"),
    }
}

#[test]
fn insertion_works() {
    let mut bptree = BPTree::new(3);
    bptree.insert(Entry::new(1, vec![1, 2, 3])).unwrap();
    bptree.insert(Entry::new(3, vec![400, 500, 600])).unwrap();
    bptree.insert(Entry::new(2, vec![-1, -2, -3])).unwrap();

    let mut left_leaf_node = LeafNode::new(3);
    left_leaf_node.insert(Entry::new(1, vec![1, 2, 3]), DuplicatePolicy::Overwrite).unwrap();
    left_leaf_node
        .insert(Entry::new(3, vec![400, 500, 600]), DuplicatePolicy::Overwrite)
        .unwrap();
    let right_leaf_node = left_leaf_node
        .insert(Entry::new(2, vec![-2, -2, -3]), DuplicatePolicy::Overwrite)
        .unwrap()
        .unwrap();

    assert_eq!(
        bptree.root_node,
        Some(Node::Internal(InternalNode::from_two_leaf_nodes(
            left_leaf_node,
            right_leaf_node
        )))
    );
}

#[test]
fn empty_tree_insert_makes_one_leaf() {
    let mut tree = BPTree::new(3);
    assert!(tree.root_node.is_none());
    assert_eq!(tree.insert(Entry::new(7, vec![1u8])), Ok(()));
    match &tree.root_node {
        Some(Node::Leaf(l)) => {
            assert_eq!(l.entries.len(), 1);
            assert_eq!(l.entries[0].key, 7);
            assert_eq!(l.entries[0].value, vec![1u8]);
            assert_eq!(l.degree, 3);
        }
        _ => panic!("root should be a leaf"),
    }
    assert_eq!(check_tree(&tree).0, 1);
}

#[test]
fn third_insert_splits_leaf_root() {
    let mut tree = BPTree::new(3);
    tree.insert(Entry::new(1, 10u32)).unwrap();
    tree.insert(Entry::new(3, 30u32)).unwrap();
    assert!(matches!(tree.root_node, Some(Node::Leaf(_))));
    tree.insert(Entry::new(2, 20u32)).unwrap();
    let root = internal(tree.root_node.as_ref().unwrap());
    assert_eq!(root.separators, vec![3]);
    assert_eq!(root.children.len(), 2);
    assert_eq!(leaf_keys(&root.children[0]), vec![1, 2]);
    assert_eq!(leaf_keys(&root.children[1]), vec![3]);
    assert_eq!(check_tree(&tree), (2, vec![1, 2, 3]));
}

#[test]
fn sequential_inserts_split_internal_root() {
    let mut tree = BPTree::new(3);
    let keys = [1u64, 2, 3, 4, 5, 6, 10, 11];
    let mut heights = Vec::new();
    for k in keys {
        tree.insert(Entry::new(k, vec![1])).unwrap();
        heights.push(check_tree(&tree).0);
    }
    assert_eq!(heights, vec![1, 1, 2, 2, 2, 2, 3, 3]);
    let (height, all) = check_tree(&tree);
    assert_eq!(height, 3);
    assert_eq!(all, keys.to_vec());
    let root = internal(tree.root_node.as_ref().unwrap());
    assert_eq!(root.separators, vec![5]);
    let left = internal(&root.children[0]);
    let right = internal(&root.children[1]);
    assert_eq!(left.separators, vec![3]);
    assert_eq!(right.separators, vec![10]);
    assert_eq!(leaf_keys(&left.children[0]), vec![1, 2]);
    assert_eq!(leaf_keys(&left.children[1]), vec![3, 4]);
    assert_eq!(leaf_keys(&right.children[0]), vec![5, 6]);
    assert_eq!(leaf_keys(&right.children[1]), vec![10, 11]);
}

#[test]
fn invariants_hold_over_many_inserts() {
    for degree in 2..7usize {
        let mut tree = BPTree::new(degree);
        let mut expected: Vec<u64> = Vec::new();
        let mut last_height = 0;
        for i in 0..300u64 {
            let k = (i * 7919) % 1009;
            tree.insert(Entry::new(k, i)).unwrap();
            if !expected.contains(&k) {
                expected.push(k);
            }
            let (height, keys) = check_tree(&tree);
            assert!(height == last_height || height == last_height + 1);
            last_height = height;
            let mut sorted = expected.clone();
            sorted.sort();
            assert_eq!(keys, sorted);
        }
    }
}

#[test]
fn descending_inserts_stay_balanced() {
    let mut tree = BPTree::new(4);
    for k in (0..100u64).rev() {
        tree.insert(Entry::new(k, ())).unwrap();
    }
    let (height, keys) = check_tree(&tree);
    assert!(height >= 3);
    assert_eq!(keys, (0..100u64).collect::<Vec<_>>());
}

#[test]
fn degree_two_tree() {
    let mut tree = BPTree::new(2);
    for k in [5u64, 1, 9, 3, 7] {
        tree.insert(Entry::new(k, k)).unwrap();
    }
    let (_, keys) = check_tree(&tree);
    assert_eq!(keys, vec![1, 3, 5, 7, 9]);
}

#[test]
fn overwrite_replaces_value() {
    let mut tree = BPTree::new(3);
    for k in 1..6u64 {
        tree.insert(Entry::new(k, k * 10)).unwrap();
    }
    let before = check_tree(&tree);
    assert_eq!(tree.insert(Entry::new(4, 99)), Ok(()));
    assert_eq!(check_tree(&tree), before);
    fn find(node: &Node<u64>, key: u64) -> Option<u64> {
        match node {
            Node::Leaf(l) => l.entries.iter().find(|e| e.key == key).map(|e| e.value),
            Node::Internal(n) => n.children.iter().find_map(|c| find(c, key)),
        }
    }
    assert_eq!(find(tree.root_node.as_ref().unwrap(), 4), Some(99));
    assert_eq!(find(tree.root_node.as_ref().unwrap(), 5), Some(50));
}

#[test]
fn reject_policy_refuses_duplicate() {
    let mut tree = BPTree::with_policy(3, DuplicatePolicy::Reject);
    for k in 1..6u64 {
        tree.insert(Entry::new(k, k * 10)).unwrap();
    }
    let before = check_tree(&tree);
    assert_eq!(tree.insert(Entry::new(2, 0)), Err(InsertError::DuplicateKey));
    assert_eq!(check_tree(&tree), before);
    assert_eq!(tree.insert(Entry::new(6, 60)), Ok(()));
}

#[test]
fn leaf_split_keeps_upper_half_of_odd_count_on_left() {
    let mut leaf = LeafNode::new(10);
    for k in [4u64, 2, 5, 1, 3] {
        assert!(leaf.insert(Entry::new(k, ()), DuplicatePolicy::Overwrite).unwrap().is_none());
    }
    let right = leaf.split();
    assert_eq!(leaf.entries.iter().map(|e| e.key).collect::<Vec<_>>(), vec![1, 2, 3]);
    assert_eq!(right.entries.iter().map(|e| e.key).collect::<Vec<_>>(), vec![4, 5]);
    assert_eq!(right.degree, 10);
}

#[test]
fn leaf_position_is_binary_search_lower_bound() {
    let mut leaf = LeafNode::new(10);
    for k in [10u64, 20, 30] {
        leaf.insert(Entry::new(k, ()), DuplicatePolicy::Overwrite).unwrap();
    }
    assert_eq!(leaf.position_of(5), 0);
    assert_eq!(leaf.position_of(20), 1);
    assert_eq!(leaf.position_of(25), 2);
    assert_eq!(leaf.position_of(31), 3);
}

#[test]
fn internal_split_drops_middle_separator() {
    let leaf = |k: u64| Node::Leaf(LeafNode::new_from_entry(3, Entry::new(k, ())));
    let mut node = InternalNode::from_two_nodes(leaf(1), leaf(2));
    node.children.push(leaf(3));
    node.separators.push(3);
    node.children.push(leaf(4));
    node.separators.push(4);
    let right = node.split();
    assert_eq!(node.separators, vec![2]);
    assert_eq!(node.children.len(), 2);
    assert_eq!(right.separators, vec![4]);
    assert_eq!(right.children.len(), 2);
    assert_eq!(leaf_keys(&right.children[0]), vec![3]);
}

#[test]
fn min_key_follows_first_children() {
    let mut tree = BPTree::new(3);
    for k in [40u64, 10, 30, 20, 50, 60] {
        tree.insert(Entry::new(k, ())).unwrap();
    }
    assert_eq!(tree.root_node.as_ref().unwrap().min_key(), 10);
    let root = internal(tree.root_node.as_ref().unwrap());
    assert_eq!(root.children[1].min_key(), root.separators[0]);
    assert_eq!(root.child_index(root.separators[0]), 1);
    assert_eq!(root.child_index(0), 0);
}

#[test]
fn entries_compare_by_key() {
    assert_eq!(Entry::new(1, 5), Entry::new(1, 6));
    assert_ne!(Entry::new(1, 5), Entry::new(2, 5));
}

#[test]
fn reject_policy_leaves_tree_unchanged_structurally() {
    let mut tree = BPTree::with_policy(3, DuplicatePolicy::Reject);
    for k in [1u64, 3, 2, 5, 4] {
        tree.insert(Entry::new(k, k)).unwrap();
    }
    let mut copy = BPTree::with_policy(3, DuplicatePolicy::Reject);
    for k in [1u64, 3, 2, 5, 4] {
        copy.insert(Entry::new(k, k)).unwrap();
    }
    assert_eq!(tree.root_node, copy.root_node);
    assert_eq!(tree.insert(Entry::new(3, 0)), Err(InsertError::DuplicateKey));
    assert_eq!(tree.root_node, copy.root_node);
    assert!(tree.root_node.as_ref().unwrap().contains_key(4));
    assert!(!tree.root_node.as_ref().unwrap().contains_key(6));
}
