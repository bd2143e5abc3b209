use bst_deque::bst::BinarySearchTree;
use bst_deque::deque::{Deque, Node};
use bst_deque::deque_array_list::DequeArrayList;

#[test]
fn contains_exactly_the_inserted_values() {
    let mut bst = BinarySearchTree::new(None);
    let inserted = [50u64, 25, 100, 17, 42, 75, 150];
    for v in inserted {
        bst.insert(v);
    }
    for v in inserted {
        assert!(bst.contains(v));
    }
    for v in [0u64, 18, 49, 51, 99, 151, u64::MAX] {
        assert!(!bst.contains(v));
    }
}

#[test]
fn duplicate_insert_keeps_size() {
    let mut bst = BinarySearchTree::new(Some(50));
    bst.insert(25);
    bst.insert(100);
    assert_eq!(bst.size(), 3);
    bst.insert(25);
    assert_eq!(bst.size(), 3);
    bst.insert(50);
    assert_eq!(bst.size(), 3);
}

#[test]
fn min_max_present_and_extremal() {
    let mut bst = BinarySearchTree::new(None);
    let inserted = [8u64, 3, 12, 1, 6, 10, 14];
    for v in inserted {
        bst.insert(v);
    }
    let min = bst.min().unwrap();
    let max = bst.max().unwrap();
    assert!(bst.contains(min));
    assert!(bst.contains(max));
    for v in inserted {
        assert!(min <= v);
        assert!(max >= v);
    }
    assert_eq!(min, 1);
    assert_eq!(max, 14);
}

#[test]
fn size_counts_distinct_inserts() {
    let mut bst = BinarySearchTree::new(None);
    assert_eq!(bst.size(), 0);
    for v in [5u64, 2, 9, 2, 5, 7, 9, 11] {
        bst.insert(v);
    }
    // distinct values: 5, 2, 9, 7, 11
    assert_eq!(bst.size(), 5);
}

#[test]
fn height_counts_node_levels() {
    // The pinned convention: height is the number of node levels on the
    // longest root-to-leaf path, so an empty tree has height 0, a lone
    // root has height 1, and a root with two children has height 2.
    let empty = BinarySearchTree::new(None);
    assert_eq!(empty.height(), 0);

    let single = BinarySearchTree::new(Some(7));
    assert_eq!(single.height(), 1);

    let mut three = BinarySearchTree::new(Some(50));
    three.insert(25);
    three.insert(100);
    assert_eq!(three.height(), 2);

    let mut chain = BinarySearchTree::new(Some(1));
    chain.insert(2);
    chain.insert(3);
    chain.insert(4);
    assert_eq!(chain.height(), 4);
}

#[test]
fn delete_root_promotes_rightmost_of_left_subtree() {
    let mut bst = BinarySearchTree::new(Some(50));
    bst.insert(25);
    bst.insert(100);
    bst.delete(50);
    assert_eq!(bst.root.as_ref().unwrap().data, 25);
    assert!(!bst.contains(50));

    let mut empty = BinarySearchTree::new(None);
    empty.delete(50);
    assert!(empty.is_empty());
}

#[test]
fn fifo_round_trip_returns_insertion_order() {
    let mut deque = DequeArrayList::new();
    let values = [4usize, 8, 15, 16, 23, 42];
    for v in values {
        deque.push_back(Node::from(v));
    }
    for v in values {
        assert_eq!(deque.pop_front().unwrap().data, Some(v));
    }
    assert!(deque.is_empty());
}

#[test]
fn push_back_pop_back_leaves_prior_contents() {
    let mut deque = DequeArrayList::from_vec(vec![Node::from(1usize), Node::from(2)]);
    deque.push_back(Node::from(3));
    assert_eq!(deque.pop_back().unwrap().data, Some(3));
    assert_eq!(deque.len(), 2);
    assert_eq!(deque.front().unwrap().data, Some(1));
    assert_eq!(deque.back().unwrap().data, Some(2));
}

#[test]
fn deque_scenario_mixed_ends() {
    let mut deque = DequeArrayList::new();
    deque.push_back(Node::from(1usize));
    deque.push_back(Node::from(2));
    deque.push_back(Node::from(3));
    assert_eq!(deque.front().unwrap().data, Some(1));
    assert_eq!(deque.back().unwrap().data, Some(3));
    assert_eq!(deque.len(), 3);
    assert_eq!(deque.pop_front().unwrap().data, Some(1));
    assert_eq!(deque.front().unwrap().data, Some(2));
    assert_eq!(deque.pop_back().unwrap().data, Some(3));
    assert_eq!(deque.back().unwrap().data, Some(2));
    assert_eq!(deque.len(), 1);
}

#[test]
fn empty_containers_return_absent_values() {
    let bst = BinarySearchTree::new(None);
    assert!(bst.min().is_none());
    assert!(bst.max().is_none());

    let mut deque = DequeArrayList::<usize>::new();
    assert!(deque.front().is_none());
    assert!(deque.back().is_none());
    assert!(deque.pop_front().is_none());
    assert!(deque.pop_back().is_none());
}

#[test]
fn node_constructors() {
    let empty = Node::<usize>::new();
    assert!(empty.data.is_none());
    let defaulted = Node::<usize>::default();
    assert!(defaulted.data.is_none());
    let filled = Node::from(9usize);
    assert_eq!(filled.data, Some(9));
}

#[test]
fn clear_resets_to_reusable_empty() {
    let mut bst = BinarySearchTree::new(Some(50));
    bst.insert(25);
    bst.clear();
    assert!(bst.is_empty());
    assert_eq!(bst.size(), 0);
    bst.insert(7);
    assert!(bst.contains(7));
    assert_eq!(bst.size(), 1);
}
