use dsa_abc::binary_search_tree::BinarySearchTree;

fn values(refs: Vec<&i32>) -> Vec<i32> {
    refs.into_iter().copied().collect()
}

fn sample_tree() -> BinarySearchTree<i32> {
    let mut tree = BinarySearchTree::new(10);
    tree.add(5);
    tree.add(1);
    tree.add(9);
    tree.add(15);
    tree.add(30);
    tree.add(11);
    tree
}

#[test]
fn binary_search_tree_find_root() {
    let tree = BinarySearchTree::new(10);
    assert_eq!(tree.get(&10), Some(&10));
    assert_eq!(tree.get(&9), None);
}

#[test]
fn binary_search_tree_find_node() {
    let mut tree = BinarySearchTree::new(10);
    tree.add(5);
    tree.add(15);
    assert_eq!(tree.get(&10), Some(&10));
    assert_eq!(tree.get(&5), Some(&5));
    assert_eq!(tree.get(&15), Some(&15));
}

#[test]
fn binary_search_tree_find_deleted_root() {
    let mut tree = BinarySearchTree::new(10);

    tree.add(5);
    assert_eq!(tree.get(&5), Some(&5));

    tree.delete(&5);
    assert_eq!(tree.get(&5), None);

    tree.add(15);
    tree.delete(&15);
    assert_eq!(tree.get(&15), None);

    tree.add(5);
    tree.add(1);
    tree.add(9);
    tree.delete(&5);
    assert_eq!(tree.get(&5), None);

    let vals: Vec<i32> = tree.in_order().into_iter().copied().collect();
    assert_eq!(vals.get(0), Some(&1));
    assert_eq!(vals.get(1), Some(&9));
    assert_eq!(vals.get(2), Some(&10));
}

#[test]
fn binary_search_tree_find_deleted_node() {
    let mut tree = BinarySearchTree::new(10);

    tree.add(20);
    assert_eq!(tree.get(&20), Some(&20));

    tree.delete(&20);
    assert_eq!(tree.get(&20), None);
}

#[test]
fn binary_search_tree_in_order_check() {
    let tree = sample_tree();
    let vals: Vec<i32> = tree.in_order().into_iter().copied().collect();
    assert_eq!(vals.get(0), Some(&1));
    assert_eq!(vals.get(1), Some(&5));
    assert_eq!(vals.get(2), Some(&9));
    assert_eq!(vals.get(3), Some(&10));
    assert_eq!(vals.get(4), Some(&11));
    assert_eq!(vals.get(5), Some(&15));
    assert_eq!(vals.get(6), Some(&30));
}

#[test]
fn binary_search_tree_pre_order_check() {
    let tree = sample_tree();
    let vals: Vec<i32> = tree.pre_order().into_iter().copied().collect();
    assert_eq!(vals.get(0), Some(&10));
    assert_eq!(vals.get(1), Some(&5));
    assert_eq!(vals.get(2), Some(&1));
    assert_eq!(vals.get(3), Some(&9));
    assert_eq!(vals.get(4), Some(&15));
    assert_eq!(vals.get(5), Some(&11));
    assert_eq!(vals.get(6), Some(&30));
}

#[test]
fn binary_search_tree_post_order_check() {
    let tree = sample_tree();
    let vals: Vec<i32> = tree.post_order().into_iter().copied().collect();
    assert_eq!(vals.get(0), Some(&1));
    assert_eq!(vals.get(1), Some(&9));
    assert_eq!(vals.get(2), Some(&5));
    assert_eq!(vals.get(3), Some(&11));
    assert_eq!(vals.get(4), Some(&30));
    assert_eq!(vals.get(5), Some(&15));
    assert_eq!(vals.get(6), Some(&10));
}

#[test]
fn traversals_of_sample_tree_in_full() {
    let tree = sample_tree();
    assert_eq!(values(tree.in_order()), vec![1, 5, 9, 10, 11, 15, 30]);
    assert_eq!(values(tree.pre_order()), vec![10, 5, 1, 9, 15, 11, 30]);
    assert_eq!(values(tree.post_order()), vec![1, 9, 5, 11, 30, 15, 10]);
}

#[test]
fn in_order_is_increasing_for_any_insertion_order() {
    let mut tree = BinarySearchTree::new(0);
    for v in [7, -3, 12, 7, 4, -8, 100, 0, 55, -3, 2] {
        tree.add(v);
    }
    let vals = values(tree.in_order());
    assert_eq!(vals, vec![-8, -3, 0, 2, 4, 7, 12, 55, 100]);
    for w in vals.windows(2) {
        assert!(w[0] < w[1]);
    }
}

#[test]
fn adding_a_present_value_changes_nothing() {
    let mut tree = sample_tree();
    let before = values(tree.pre_order());
    tree.add(9);
    tree.add(10);
    assert_eq!(values(tree.in_order()).len(), 7);
    assert_eq!(values(tree.pre_order()), before);
}

#[test]
fn lookup_finds_inserted_values_only() {
    let tree = sample_tree();
    for v in [1, 5, 9, 10, 11, 15, 30] {
        assert_eq!(tree.get(&v), Some(&v));
    }
    for v in [0, 2, 6, 12, 31, -1, i32::MAX, i32::MIN] {
        assert_eq!(tree.get(&v), None);
    }
}

#[test]
fn delete_then_lookup_keeps_the_rest() {
    let mut tree = sample_tree();
    tree.delete(&15);
    assert_eq!(tree.get(&15), None);
    for v in [1, 5, 9, 10, 11, 30] {
        assert_eq!(tree.get(&v), Some(&v));
    }
    assert_eq!(values(tree.in_order()), vec![1, 5, 9, 10, 11, 30]);
}

#[test]
fn two_child_delete_takes_successor_value() {
    let mut tree = BinarySearchTree::new(10);
    tree.add(5);
    tree.add(1);
    tree.add(9);
    tree.delete(&5);
    assert_eq!(tree.get(&5), None);
    assert_eq!(values(tree.in_order()), vec![1, 9, 10]);
    // The node that held 5 keeps its place and now holds 9.
    assert_eq!(values(tree.pre_order()), vec![10, 9, 1]);
}

#[test]
fn one_child_delete_splices_the_subtree_up() {
    let mut tree = BinarySearchTree::new(10);
    tree.add(5);
    tree.add(3);
    tree.add(4);
    tree.delete(&5);
    assert_eq!(values(tree.pre_order()), vec![10, 3, 4]);
    tree.delete(&3);
    assert_eq!(values(tree.pre_order()), vec![10, 4]);
    assert_eq!(tree.get(&4), Some(&4));
}

#[test]
fn deleting_the_root_with_two_children() {
    let mut tree = sample_tree();
    tree.delete(&10);
    assert_eq!(tree.get(&10), None);
    assert_eq!(values(tree.pre_order()), vec![11, 5, 1, 9, 15, 30]);
    assert_eq!(values(tree.in_order()), vec![1, 5, 9, 11, 15, 30]);
}

#[test]
fn deleting_an_absent_value_is_a_no_op() {
    let mut tree = sample_tree();
    tree.delete(&12);
    tree.delete(&0);
    assert_eq!(values(tree.pre_order()), vec![10, 5, 1, 9, 15, 11, 30]);
}

#[test]
fn emptied_tree_accepts_a_new_root() {
    let mut tree = BinarySearchTree::new(10);
    tree.delete(&10);
    assert_eq!(values(tree.in_order()), Vec::<i32>::new());
    tree.delete(&10);
    assert_eq!(tree.get(&10), None);
    tree.add(7);
    tree.add(3);
    assert_eq!(values(tree.pre_order()), vec![7, 3]);
    assert_eq!(tree.get(&7), Some(&7));
}

#[test]
fn tree_of_strings() {
    let mut tree = BinarySearchTree::new(String::from("m"));
    tree.add(String::from("c"));
    tree.add(String::from("x"));
    tree.add(String::from("a"));
    tree.add(String::from("c"));
    let order: Vec<&str> = tree.in_order().into_iter().map(|s| s.as_str()).collect();
    assert_eq!(order, vec!["a", "c", "m", "x"]);
    tree.delete(&String::from("m"));
    assert_eq!(tree.get(&String::from("m")), None);
    assert_eq!(tree.get(&String::from("x")).map(|s| s.as_str()), Some("x"));
    let order: Vec<&str> = tree.pre_order().into_iter().map(|s| s.as_str()).collect();
    assert_eq!(order, vec!["x", "c", "a"]);
}
