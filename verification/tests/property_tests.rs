use binary_tree::BinaryTree;
use binary_tree::node::Node;
use binary_tree::node::NodeOption;
use binary_tree::node::NodeOptionValue;

fn collect_values(tree: &BinaryTree) -> Vec<u64> {
    let mut it = tree.iter();
    let mut out: Vec<u64> = Vec::new();
    while let Some(v) = it.next() {
        out.push(*v);
    }
    out
}

#[test]
fn insert_find_round_trip() {
    let mut tree = BinaryTree::new();
    let present: [u64; 7] = [20, 9, 31, 4, 16, 27, 45];
    let absent: [u64; 5] = [0, 10, 21, 30, 100];
    for v in present {
        tree.insert(v);
    }
    for v in present {
        assert!(tree.find(v));
    }
    for v in absent {
        assert!(!tree.find(v));
    }
}

#[test]
fn insert_is_idempotent() {
    let mut tree = BinaryTree::new();
    for v in [6u64, 2, 9, 4, 8] {
        tree.insert(v);
    }
    let before = collect_values(&tree);
    tree.insert(9);
    tree.insert(4);
    tree.insert(6);
    let after = collect_values(&tree);
    assert_eq!(before, after);
    assert_eq!(after.len(), 5);
}

#[test]
fn min_max_track_live_values() {
    let mut tree = BinaryTree::new();
    assert_eq!(tree.find_min(), None);
    assert_eq!(tree.find_max(), None);
    for v in [50u64, 20, 80, 10, 30, 70, 90] {
        tree.insert(v);
    }
    assert_eq!(tree.find_min(), Some(&10));
    assert_eq!(tree.find_max(), Some(&90));
    tree.delete(10);
    tree.delete(90);
    assert_eq!(tree.find_min(), Some(&20));
    assert_eq!(tree.find_max(), Some(&80));
}

#[test]
fn rank_queries_enumerate_sorted_values() {
    let mut tree = BinaryTree::new();
    for v in [13u64, 7, 29, 3, 11, 19, 41, 2, 5] {
        tree.insert(v);
    }
    let mut sorted: Vec<u64> = vec![13, 7, 29, 3, 11, 19, 41, 2, 5];
    sorted.sort();
    assert_eq!(tree.find_n_max(0), None);
    for (k, expected) in sorted.iter().enumerate() {
        assert_eq!(tree.find_n_max(k + 1), Some(expected));
    }
    assert_eq!(tree.find_n_max(sorted.len() + 1), None);
    let mut previous: Option<u64> = None;
    for k in 1..=sorted.len() {
        let v = *tree.find_n_max(k).unwrap();
        if let Some(p) = previous {
            assert!(p < v);
        }
        previous = Some(v);
    }
}

#[test]
fn delete_removes_exactly_one_value() {
    let mut tree = BinaryTree::new();
    let values: [u64; 8] = [40, 18, 60, 9, 25, 52, 77, 21];
    for v in values {
        tree.insert(v);
    }
    tree.delete(18);
    let remaining = collect_values(&tree);
    assert_eq!(remaining, vec![9, 21, 25, 40, 52, 60, 77]);
    let before = collect_values(&tree);
    tree.delete(1000);
    assert_eq!(before, collect_values(&tree));
}

#[test]
fn iteration_count_and_restartability() {
    let mut tree = BinaryTree::new();
    for v in [5u64, 1, 9, 3, 7] {
        tree.insert(v);
    }
    let first = collect_values(&tree);
    let second = collect_values(&tree);
    assert_eq!(first, second);
    assert_eq!(first.len(), 5);
    let mut it = tree.iter();
    for _ in 0..5 {
        assert!(it.next().is_some());
    }
    assert!(it.next().is_none());
    assert!(it.next().is_none());
}

#[test]
fn worked_example_twelve_values() {
    let mut tree = BinaryTree::new();
    for v in [8u64, 5, 3, 2, 4, 6, 7, 15, 12, 17, 10, 14] {
        tree.insert(v);
    }
    assert_eq!(collect_values(&tree).len(), 12);
    tree.delete(8);
    let remaining = collect_values(&tree);
    assert_eq!(remaining.len(), 11);
    assert!(!tree.find(8));
    assert_eq!(remaining, vec![2, 3, 4, 5, 6, 7, 10, 12, 14, 15, 17]);
    for pair in remaining.windows(2) {
        assert!(pair[0] < pair[1]);
    }
}

#[test]
fn delete_node_drops_whole_subtree() {
    let mut tree = BinaryTree::new();
    for v in [8u64, 5, 3, 2, 4, 6, 7, 15, 12, 17, 10, 14] {
        tree.insert(v);
    }
    tree.delete_node(15);
    let remaining = collect_values(&tree);
    assert_eq!(remaining, vec![2, 3, 4, 5, 6, 7, 8]);
    tree.delete_node(8);
    assert_eq!(collect_values(&tree), Vec::<u64>::new());
}

#[test]
fn node_create_and_insert() {
    let mut node = Node::create(10);
    assert!(node.is_leaf());
    node.insert(4);
    node.insert(17);
    node.insert(4);
    assert!(!node.is_leaf());
    assert!(node.find(&4));
    assert!(node.find(&10));
    assert!(node.find(&17));
    assert!(!node.find(&5));
    assert_eq!(*node.find_min(), 4);
    assert_eq!(*node.find_max(), 17);
}

#[test]
fn node_rank_and_walks() {
    let mut node = Node::create(10);
    for v in [4u64, 17, 2, 8, 12, 30] {
        node.insert(v);
    }
    match node.find_n_max(3, NodeOption::Value) {
        Some(NodeOptionValue::Value(v)) => assert_eq!(*v, 8),
        _ => panic!("rank 3 should be present"),
    }
    match node.find_n_max(1, NodeOption::Node) {
        Some(NodeOptionValue::Node(m)) => assert_eq!(m.value, 2),
        _ => panic!("rank 1 should be present"),
    }
    assert!(node.find_n_max(0, NodeOption::Value).is_none());
    assert!(node.find_n_max(8, NodeOption::Value).is_none());
    let mut values = node.values();
    let mut seen: Vec<u64> = Vec::new();
    while let Some(v) = values.next() {
        seen.push(*v);
    }
    assert_eq!(seen, vec![2, 4, 8, 10, 12, 17, 30]);
    let mut nodes = node.nodes();
    let mut node_values: Vec<u64> = Vec::new();
    while let Some(m) = nodes.next() {
        node_values.push(m.value);
    }
    assert_eq!(node_values, seen);
}

#[test]
fn node_get_nodes_count_measures_subtrees() {
    let mut node = Node::create(8);
    for v in [5u64, 3, 2, 4, 6, 7, 15, 12, 17, 10, 14] {
        node.insert(v);
    }
    assert_eq!(node.get_nodes_count(&8), Some(12));
    assert_eq!(node.get_nodes_count(&3), Some(3));
    assert_eq!(node.get_nodes_count(&15), Some(5));
    assert_eq!(node.get_nodes_count(&7), Some(1));
    assert_eq!(node.get_nodes_count(&99), None);
}

#[test]
fn node_remove_node_detaches_subtree() {
    let mut node = Node::create(8);
    for v in [5u64, 3, 2, 4, 6, 7, 15, 12, 17, 10, 14] {
        node.insert(v);
    }
    let sub = node.remove_node(3, 3).expect("subtree rooted at 3");
    assert_eq!(sub.value, 3);
    assert!(sub.find(&2));
    assert!(sub.find(&4));
    assert!(!node.find(&2));
    assert!(!node.find(&3));
    assert!(!node.find(&4));
    assert!(node.find(&5));
    node.delete_node(5, 15);
    assert!(!node.find(&12));
    assert!(!node.find(&17));
    assert!(node.find(&8));
}

#[test]
fn node_min_max_splices() {
    let mut node = Node::create(10);
    for v in [4u64, 17, 2, 8, 12, 30] {
        node.insert(v);
    }
    let min = node.remove_min_node().expect("left subtree present");
    assert_eq!(min.value, 2);
    assert!(min.is_leaf());
    assert_eq!(*node.find_min(), 4);
    let max = node.remove_max_node().expect("right subtree present");
    assert_eq!(max.value, 30);
    assert!(max.is_leaf());
    assert_eq!(*node.find_max(), 17);
    let mut leaf = Node::create(3);
    assert!(leaf.remove_min_node().is_none());
    assert!(leaf.remove_max_node().is_none());
}

#[test]
fn node_mutable_spine_access() {
    let mut node = Node::create(10);
    for v in [4u64, 17, 2, 8] {
        node.insert(v);
    }
    {
        let max = node.get_max_node_mut();
        assert_eq!(max.value, 17);
        max.value = 20;
    }
    assert!(node.find(&20));
    assert!(!node.find(&17));
    {
        let min = node.get_min_node_mut();
        assert_eq!(min.value, 2);
        min.value = 1;
    }
    assert!(node.find(&1));
    assert_eq!(*node.find_min(), 1);
    assert_eq!(*node.find_max(), 20);
}

#[test]
fn node_spine_count_adjustments() {
    let mut node = Node::create(8);
    for v in [5u64, 3, 9] {
        node.insert(v);
    }
    assert_eq!(node.left_nodes_count, 2);
    assert_eq!(node.left.as_ref().unwrap().left_nodes_count, 1);
    node.add_left_nodes_count(4);
    assert_eq!(node.left_nodes_count, 6);
    assert_eq!(node.left.as_ref().unwrap().left_nodes_count, 5);
    assert_eq!(
        node.left.as_ref().unwrap().left.as_ref().unwrap().left_nodes_count,
        4
    );
    node.sub_left_nodes_count(4);
    assert_eq!(node.left_nodes_count, 2);
    assert_eq!(node.left.as_ref().unwrap().left_nodes_count, 1);
    assert_eq!(
        node.left.as_ref().unwrap().left.as_ref().unwrap().left_nodes_count,
        0
    );
}

#[test]
fn node_delete_value_replaces_with_neighbor() {
    let mut node = Node::create(10);
    for v in [4u64, 17, 2, 8, 12, 30] {
        node.insert(v);
    }
    node.delete_value();
    assert_eq!(node.value, 12);
    assert!(!node.find(&10));
    assert!(node.find(&2));
    assert!(node.find(&30));
    let mut left_only = Node::create(9);
    left_only.insert(6);
    left_only.insert(7);
    left_only.delete_value();
    assert_eq!(left_only.value, 7);
    assert!(!left_only.find(&9));
    assert!(left_only.find(&6));
}
