use binary_tree::BinaryTree;

fn count_values(tree: &BinaryTree) -> usize {
    let mut it = tree.iter();
    let mut c: usize = 0;
    while it.next().is_some() {
        c += 1;
    }
    c
}

#[test]
fn test_insert() {
    let mut tree = BinaryTree::new();
    tree.insert(5);
    tree.insert(7);
    tree.insert(4);
    tree.insert(10);
    assert!(tree.find(7))
}

#[test]
#[should_panic]
fn test_find() {
    let tree = BinaryTree::new();
    assert!(tree.find(5))
}

#[test]
fn test_find_max() {
    let mut tree = BinaryTree::new();
    assert_eq!(tree.find_max(), None);
    tree.insert(5);
    tree.insert(14);
    tree.insert(8);
    tree.insert(44);
    tree.insert(25);
    assert_eq!(tree.find_max(), Some(&44))
}

#[test]
fn test_find_min() {
    let mut tree = BinaryTree::new();
    assert_eq!(tree.find_min(), None);
    tree.insert(5);
    tree.insert(14);
    tree.insert(4);
    tree.insert(6);
    tree.insert(3);
    tree.insert(44);
    tree.insert(25);
    assert_eq!(tree.find_min(), Some(&3))
}

#[test]
fn test_find_n_max() {
    let mut tree = BinaryTree::new();
    assert_eq!(tree.find_n_max(4), None);
    tree.insert(3);
    tree.insert(22);
    tree.insert(8);
    tree.insert(55);
    tree.insert(26);
    assert_eq!(tree.find_n_max(3), Some(&22))
}

#[test]
fn test_iter() {
    let mut tree = BinaryTree::new();
    let mut counter: usize = 0;
    tree.insert(3);
    tree.insert(5);
    tree.insert(22);
    tree.insert(7);
    tree.insert(7);
    tree.insert(7);
    tree.insert(22);
    tree.insert(5);
    tree.insert(21);
    tree.insert(53);
    tree.insert(21);
    let mut tree_iter = tree.iter();
    let mut walker = tree.iter();
    while let Some(elem) = walker.next() {
        assert_eq!(Some(elem), tree_iter.next());
        counter += 1;
    }
    assert_eq!(counter, count_values(&tree))
}

#[test]
fn test_delete_node() {
    let mut tree = BinaryTree::new();
    tree.insert(8);
    tree.insert(5);
    tree.insert(3);
    tree.insert(2);
    tree.insert(4);
    tree.insert(6);
    tree.insert(7);
    tree.insert(15);
    tree.insert(12);
    tree.insert(17);
    tree.insert(10);
    tree.insert(14);
    assert_eq!(12, count_values(&tree));
    tree.delete_node(3);
    tree.delete_node(12);
    assert_eq!(6, count_values(&tree));
}

#[test]
fn test_delete() {
    let mut tree = BinaryTree::new();
    tree.insert(8);
    tree.insert(5);
    tree.insert(3);
    tree.insert(2);
    tree.insert(4);
    tree.insert(6);
    tree.insert(7);
    tree.insert(15);
    tree.insert(12);
    tree.insert(17);
    tree.insert(10);
    tree.insert(14);
    assert_eq!(12, count_values(&tree));
    tree.delete(8);
    assert_eq!(11, count_values(&tree));
    tree.delete(10);
    tree.delete(3);
    tree.delete(2);
    tree.delete(17);
    tree.delete(4);
    tree.delete(15);
    assert_eq!(5, count_values(&tree));
}
