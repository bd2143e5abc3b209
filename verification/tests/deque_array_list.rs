use bst_deque::deque::{Deque, Node};
use bst_deque::deque_array_list::DequeArrayList;

type UNode = Node<usize>;
type UDeque = DequeArrayList<usize>;

#[test]
fn test_push_front_empty() {
    let mut deque = UDeque::new();
    deque.push_front(UNode::from(255));
    assert_eq!(deque.back().unwrap().data, Some(255));
    assert_eq!(deque.front().unwrap().data, Some(255));
}

#[test]
fn test_push_front_filled() {
    let mut deque = UDeque::from_vec(vec![UNode::from(1), UNode::from(2), UNode::from(3)]);
    deque.push_front(UNode::from(255));
    assert_eq!(deque.front().unwrap().data, Some(255));
    assert_eq!(deque.back().unwrap().data, Some(3))
}

#[test]
fn test_push_back_empty() {
    let mut deque = UDeque::new();
    deque.push_back(UNode::from(255));
    assert_eq!(deque.back().unwrap().data, Some(255));
    assert_eq!(deque.front().unwrap().data, Some(255));
}

#[test]
fn test_push_back_filled() {
    let mut deque = UDeque::from_vec(vec![UNode::from(1), UNode::from(2), UNode::from(3)]);
    deque.push_back(UNode::from(255));
    assert_eq!(deque.front().unwrap().data, Some(1));
    assert_eq!(deque.back().unwrap().data, Some(255))
}

#[test]
fn test_pop_front_empty() {
    let mut deque = UDeque::new();
    let elem = deque.pop_front();
    assert_eq!(elem.is_none(), true);
    assert_eq!(deque.front().is_none(), true);
    assert_eq!(deque.back().is_none(), true);
}

#[test]
fn test_pop_front_one_element() {
    let mut deque = UDeque::from_vec(vec![UNode::from(1)]);
    let elem = deque.pop_front();
    assert_eq!(elem.unwrap().data, Some(1));
    assert_eq!(deque.front().is_none(), true);
    assert_eq!(deque.back().is_none(), true);
}

#[test]
fn test_pop_front_filled() {
    let mut deque = UDeque::from_vec(vec![UNode::from(1), UNode::from(2), UNode::from(3)]);
    let elem = deque.pop_front();
    assert_eq!(elem.unwrap().data, Some(1));
    assert_eq!(deque.front().unwrap().data, Some(2));
    assert_eq!(deque.back().unwrap().data, Some(3));
}

#[test]
fn test_pop_back_empty() {
    let mut deque = UDeque::new();
    let elem = deque.pop_back();
    assert_eq!(elem.is_none(), true);
    assert_eq!(deque.front().is_none(), true);
    assert_eq!(deque.back().is_none(), true);
}

#[test]
fn test_pop_back_one_element() {
    let mut deque = UDeque::from_vec(vec![UNode::from(1)]);
    let elem = deque.pop_back();
    assert_eq!(elem.unwrap().data, Some(1));
    assert_eq!(deque.front().is_none(), true);
    assert_eq!(deque.back().is_none(), true);
}

#[test]
fn test_pop_back_filled() {
    let mut deque = UDeque::from_vec(vec![UNode::from(1), UNode::from(2), UNode::from(3)]);
    let elem = deque.pop_back();
    assert_eq!(elem.unwrap().data, Some(3));
    assert_eq!(deque.front().unwrap().data, Some(1));
    assert_eq!(deque.back().unwrap().data, Some(2));
}

#[test]
fn test_front_empty() {
    let deque = UDeque::new();
    assert_eq!(deque.front().is_none(), true);
}

#[test]
fn test_front_filled() {
    let deque = UDeque::from_vec(vec![UNode::from(1), UNode::from(2), UNode::from(3)]);
    assert_eq!(deque.front().unwrap().data, Some(1));
}

#[test]
fn test_back_empty() {
    let deque = UDeque::new();
    assert_eq!(deque.back().is_none(), true);
}

#[test]
fn test_back_filled() {
    let deque = UDeque::from_vec(vec![UNode::from(1), UNode::from(2), UNode::from(3)]);
    assert_eq!(deque.back().unwrap().data, Some(3));
}

#[test]
fn test_empty_empty() {
    let deque = UDeque::new();
    assert_eq!(deque.is_empty(), true);
}

#[test]
fn test_empty_filled() {
    let deque = UDeque::from_vec(vec![Node::from(1), Node::from(2), Node::from(3)]);
    assert_eq!(deque.is_empty(), false);
}

#[test]
fn deque_array_list_test_size_empty() {
    let deque = UDeque::new();
    assert_eq!(deque.len(), 0);
}

#[test]
fn test_size_filled() {
    let deque = UDeque::from_vec(vec![UNode::from(1), UNode::from(2), UNode::from(3)]);
    assert_eq!(deque.len(), 3);
}
