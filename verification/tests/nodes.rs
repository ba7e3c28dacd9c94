use btree::order::{less, same};
use btree::Node;

fn leaf(t: usize, keys: &[i32]) -> Box<Node<i32>> {
    let mut node = Node::<i32>::leaf(t);
    for k in keys {
        node.keys.push(*k);
    }
    node.count = keys.len();
    Box::new(node)
}

fn inner(t: usize, keys: &[i32], children: Vec<Box<Node<i32>>>) -> Box<Node<i32>> {
    let mut node = Node::<i32>::empty(t);
    for k in keys {
        node.keys.push(*k);
    }
    node.count = keys.len();
    node.children = children;
    Box::new(node)
}

#[test]
fn empty_and_leaf_constructors() {
    let a = Node::<i32>::empty(4);
    assert!(!a.leaf);
    assert_eq!(a.count, 0);
    assert!(a.keys.is_empty());
    assert!(a.children.is_empty());
    assert_eq!(a.t, 4);
    assert!(a.is_empty());
    let b = Node::<i32>::leaf(4);
    assert!(b.leaf);
    assert_eq!(b.count, 0);
    assert_eq!(b.t, 4);
    assert!(b.is_empty());
}

#[test]
fn is_full_at_two_t_minus_one() {
    let node = inner(3, &[10], vec![leaf(3, &[1, 2, 3, 4, 5]), leaf(3, &[11, 12, 13, 14])]);
    assert!(node.is_full(0));
    assert!(!node.is_full(1));
    assert!(!node.is_empty());
}

#[test]
fn siblings_at_the_ends_and_in_the_middle() {
    let children = vec![leaf(2, &[1]), leaf(2, &[3]), leaf(2, &[5])];
    assert_eq!(Node::siblings(&children, 0), (None, 0, Some(1)));
    assert_eq!(Node::siblings(&children, 1), (Some(0), 1, Some(2)));
    assert_eq!(Node::siblings(&children, 2), (Some(1), 2, None));
    let one = vec![leaf(2, &[1])];
    assert_eq!(Node::siblings(&one, 0), (None, 0, None));
}

#[test]
fn to_vec_interleaves_children_and_keys() {
    let node = inner(2, &[10, 20], vec![leaf(2, &[1, 2]), leaf(2, &[11]), leaf(2, &[21, 22, 23])]);
    assert_eq!(node.to_vec(), vec![1, 2, 10, 11, 20, 21, 22, 23]);
    assert_eq!(leaf(2, &[4, 5]).to_vec(), vec![4, 5]);
}

#[test]
fn contains_finds_keys_at_every_level() {
    let node = inner(2, &[10, 20], vec![leaf(2, &[1, 2]), leaf(2, &[11]), leaf(2, &[21, 22, 23])]);
    for v in [1, 2, 10, 11, 20, 21, 22, 23] {
        assert!(node.contains(v));
    }
    for v in [0, 3, 12, 19, 24] {
        assert!(!node.contains(v));
    }
}

#[test]
fn split_moves_the_middle_key_up() {
    let mut node = inner(3, &[100], vec![leaf(3, &[1, 2, 3, 4, 5]), leaf(3, &[101, 102])]);
    node.split(0);
    assert_eq!(node.keys, vec![3, 100]);
    assert_eq!(node.count, 2);
    assert_eq!(node.children.len(), 3);
    assert_eq!(node.children[0].keys, vec![1, 2]);
    assert_eq!(node.children[0].count, 2);
    assert_eq!(node.children[1].keys, vec![4, 5]);
    assert_eq!(node.children[1].count, 2);
    assert!(node.children[1].leaf);
    assert_eq!(node.children[2].keys, vec![101, 102]);
    assert_eq!(node.to_vec(), vec![1, 2, 3, 4, 5, 100, 101, 102]);
}

#[test]
fn split_of_an_inner_child_divides_its_children() {
    let full = inner(
        2,
        &[10, 20, 30],
        vec![leaf(2, &[1]), leaf(2, &[11]), leaf(2, &[21]), leaf(2, &[31])],
    );
    let other = inner(2, &[50], vec![leaf(2, &[41]), leaf(2, &[51])]);
    let mut node = inner(2, &[40], vec![full, other]);
    node.split(0);
    assert_eq!(node.keys, vec![20, 40]);
    assert_eq!(node.children[0].keys, vec![10]);
    assert_eq!(node.children[0].children.len(), 2);
    assert_eq!(node.children[1].keys, vec![30]);
    assert_eq!(node.children[1].children.len(), 2);
    assert!(!node.children[1].leaf);
    assert_eq!(node.children[1].children[0].keys, vec![21]);
    assert_eq!(node.to_vec(), vec![1, 10, 11, 20, 21, 30, 31, 40, 41, 50, 51]);
}

#[test]
fn insert_nonfull_into_a_leaf_goes_behind_equal_keys() {
    let mut node = leaf(3, &[1, 5, 9]);
    node.insert_nonfull(5);
    assert_eq!(node.keys, vec![1, 5, 5, 9]);
    assert_eq!(node.count, 4);
    node.insert_nonfull(0);
    assert_eq!(node.keys, vec![0, 1, 5, 5, 9]);
}

#[test]
fn insert_nonfull_splits_a_full_child_on_the_way() {
    let mut node = inner(2, &[10], vec![leaf(2, &[1, 2, 3]), leaf(2, &[11, 12])]);
    node.insert_nonfull(4);
    assert_eq!(node.keys, vec![2, 10]);
    assert_eq!(node.children[0].keys, vec![1]);
    assert_eq!(node.children[1].keys, vec![3, 4]);
    assert_eq!(node.children[2].keys, vec![11, 12]);
}

#[test]
fn remove_key_takes_the_first_equal_key() {
    let mut node = leaf(3, &[1, 5, 5, 9]);
    assert!(node.remove_key(5));
    assert_eq!(node.keys, vec![1, 5, 9]);
    assert_eq!(node.count, 3);
    assert!(!node.remove_key(4));
    assert_eq!(node.keys, vec![1, 5, 9]);
    assert_eq!(node.count, 3);
}

#[test]
fn merge_prefers_the_left_neighbour() {
    let mut children = vec![leaf(2, &[1]), leaf(2, &[3]), leaf(2, &[5])];
    let at = Node::merge(&mut children, 1, 2);
    assert_eq!(at, 0);
    assert_eq!(children.len(), 2);
    assert_eq!(children[0].keys, vec![1, 2, 3]);
    assert_eq!(children[0].count, 3);
    assert_eq!(children[1].keys, vec![5]);
}

#[test]
fn merge_of_the_first_child_takes_the_right_neighbour() {
    let mut children = vec![leaf(2, &[1]), leaf(2, &[3]), leaf(2, &[5])];
    let at = Node::merge(&mut children, 0, 2);
    assert_eq!(at, 0);
    assert_eq!(children.len(), 2);
    assert_eq!(children[0].keys, vec![1, 2, 3]);
    assert_eq!(children[1].keys, vec![5]);
}

#[test]
fn merge_of_inner_nodes_joins_their_children() {
    let a = inner(2, &[10], vec![leaf(2, &[1]), leaf(2, &[11])]);
    let b = inner(2, &[30], vec![leaf(2, &[21]), leaf(2, &[31])]);
    let mut children = vec![a, b];
    let at = Node::merge(&mut children, 1, 20);
    assert_eq!(at, 0);
    assert_eq!(children.len(), 1);
    assert_eq!(children[0].keys, vec![10, 20, 30]);
    assert_eq!(children[0].children.len(), 4);
    assert_eq!(children[0].to_vec(), vec![1, 10, 11, 20, 21, 30, 31]);
}

#[test]
fn borrow_from_left_rotates_through_the_parent() {
    let mut node = inner(2, &[10], vec![leaf(2, &[1, 2, 3]), leaf(2, &[11])]);
    node.borrow_from_left(1);
    assert_eq!(node.keys, vec![3]);
    assert_eq!(node.children[0].keys, vec![1, 2]);
    assert_eq!(node.children[0].count, 2);
    assert_eq!(node.children[1].keys, vec![10, 11]);
    assert_eq!(node.children[1].count, 2);
}

#[test]
fn borrow_from_right_rotates_through_the_parent() {
    let mut node = inner(2, &[10], vec![leaf(2, &[1]), leaf(2, &[11, 12, 13])]);
    node.borrow_from_right(0);
    assert_eq!(node.keys, vec![11]);
    assert_eq!(node.children[0].keys, vec![1, 10]);
    assert_eq!(node.children[1].keys, vec![12, 13]);
    assert_eq!(node.children[1].count, 2);
}

#[test]
fn borrow_between_inner_nodes_moves_a_child() {
    let a = inner(2, &[10, 20], vec![leaf(2, &[1]), leaf(2, &[11]), leaf(2, &[21])]);
    let b = inner(2, &[40], vec![leaf(2, &[31]), leaf(2, &[41])]);
    let mut node = inner(2, &[30], vec![a, b]);
    node.borrow_from_left(1);
    assert_eq!(node.keys, vec![20]);
    assert_eq!(node.children[0].keys, vec![10]);
    assert_eq!(node.children[0].children.len(), 2);
    assert_eq!(node.children[1].keys, vec![30, 40]);
    assert_eq!(node.children[1].children.len(), 3);
    assert_eq!(node.children[1].children[0].keys, vec![21]);
    assert_eq!(node.to_vec(), vec![1, 10, 11, 20, 21, 30, 31, 40, 41]);
    node.borrow_from_right(0);
    assert_eq!(node.keys, vec![30]);
    assert_eq!(node.children[0].keys, vec![10, 20]);
    assert_eq!(node.children[1].keys, vec![40]);
    assert_eq!(node.children[0].children[2].keys, vec![21]);
    assert_eq!(node.to_vec(), vec![1, 10, 11, 20, 21, 30, 31, 40, 41]);
}

#[test]
fn refill_borrows_left_then_right_then_merges() {
    let mut node = inner(2, &[10, 20], vec![leaf(2, &[1, 2]), leaf(2, &[11]), leaf(2, &[21, 22])]);
    assert_eq!(node.refill(1), 1);
    assert_eq!(node.keys, vec![2, 20]);
    assert_eq!(node.children[1].keys, vec![10, 11]);

    let mut node = inner(2, &[10, 20], vec![leaf(2, &[1]), leaf(2, &[11]), leaf(2, &[21, 22])]);
    assert_eq!(node.refill(1), 1);
    assert_eq!(node.keys, vec![10, 21]);
    assert_eq!(node.children[1].keys, vec![11, 20]);
    assert_eq!(node.children[2].keys, vec![22]);

    let mut node = inner(2, &[10, 20], vec![leaf(2, &[1]), leaf(2, &[11]), leaf(2, &[21])]);
    assert_eq!(node.refill(1), 0);
    assert_eq!(node.keys, vec![20]);
    assert_eq!(node.count, 1);
    assert_eq!(node.children.len(), 2);
    assert_eq!(node.children[0].keys, vec![1, 10, 11]);

    let mut node = inner(2, &[10, 20], vec![leaf(2, &[1]), leaf(2, &[11]), leaf(2, &[21])]);
    assert_eq!(node.refill(0), 0);
    assert_eq!(node.keys, vec![20]);
    assert_eq!(node.children[0].keys, vec![1, 10, 11]);
    assert_eq!(node.children[1].keys, vec![21]);
}

#[test]
fn remove_min_takes_the_least_key() {
    let mut node = inner(2, &[10, 20], vec![leaf(2, &[1, 2]), leaf(2, &[11]), leaf(2, &[21])]);
    assert_eq!(node.remove_min(), 1);
    assert_eq!(node.to_vec(), vec![2, 10, 11, 20, 21]);
    assert_eq!(node.remove_min(), 2);
    assert_eq!(node.to_vec(), vec![10, 11, 20, 21]);
    assert_eq!(node.keys, vec![20]);
    assert_eq!(node.children[0].keys, vec![10, 11]);
}

#[test]
fn delete_key_at_puts_the_successor_in_its_place() {
    let mut node = inner(2, &[10, 20], vec![leaf(2, &[1, 2]), leaf(2, &[11, 12]), leaf(2, &[21])]);
    node.delete_key_at(0);
    assert_eq!(node.keys, vec![11, 20]);
    assert_eq!(node.children[1].keys, vec![12]);
    assert_eq!(node.to_vec(), vec![1, 2, 11, 12, 20, 21]);
    node.delete_key_at(1);
    assert_eq!(node.to_vec(), vec![1, 2, 11, 12, 21]);
    assert_eq!(node.keys, vec![11]);
    assert_eq!(node.children[0].keys, vec![1, 2]);
    assert_eq!(node.children[1].keys, vec![12, 21]);
}

#[test]
fn delete_from_leaf_refills_a_small_leaf_first() {
    let mut node = inner(2, &[10, 20], vec![leaf(2, &[1, 2]), leaf(2, &[11]), leaf(2, &[21])]);
    assert!(node.delete_from_leaf(11, 1));
    assert_eq!(node.keys, vec![2, 20]);
    assert_eq!(node.children[0].keys, vec![1]);
    assert_eq!(node.children[1].keys, vec![10]);
    assert!(!node.delete_from_leaf(15, 1));
    assert_eq!(node.to_vec(), vec![1, 2, 10, 20, 21]);
    assert_eq!(node.keys, vec![20]);
    assert_eq!(node.children[0].keys, vec![1, 2, 10]);
}

#[test]
fn delete_from_leaf_with_keys_to_spare_only_removes() {
    let mut node = inner(2, &[10], vec![leaf(2, &[1, 2]), leaf(2, &[11, 12])]);
    assert!(node.delete_from_leaf(12, 1));
    assert_eq!(node.keys, vec![10]);
    assert_eq!(node.children[0].keys, vec![1, 2]);
    assert_eq!(node.children[1].keys, vec![11]);
}

#[test]
fn delete_in_an_inner_node_of_two_levels() {
    let a = inner(2, &[10], vec![leaf(2, &[1]), leaf(2, &[11])]);
    let b = inner(2, &[30], vec![leaf(2, &[21]), leaf(2, &[31])]);
    let mut node = inner(2, &[20], vec![a, b]);
    assert!(node.delete(21));
    assert_eq!(node.to_vec(), vec![1, 10, 11, 20, 30, 31]);
    assert_eq!(node.keys.len(), 0);
    assert_eq!(node.children.len(), 1);
    assert_eq!(node.children[0].keys, vec![10, 20]);
    assert!(!inner(2, &[10], vec![leaf(2, &[1]), leaf(2, &[11])]).contains(5));
}

#[test]
fn less_and_same_on_integers() {
    assert!(less(1, 2));
    assert!(!less(2, 2));
    assert!(!less(3, 2));
    assert!(same(2, 2));
    assert!(!same(2, 3));
    assert!(less(-5i64, 0i64));
    assert!(less('a', 'b'));
}

#[test]
fn lower_bound_is_the_first_key_not_before() {
    let node = leaf(4, &[10, 20, 20, 30]);
    assert_eq!(node.lower_bound(5), 0);
    assert_eq!(node.lower_bound(10), 0);
    assert_eq!(node.lower_bound(15), 1);
    assert_eq!(node.lower_bound(20), 1);
    assert_eq!(node.lower_bound(25), 3);
    assert_eq!(node.lower_bound(30), 3);
    assert_eq!(node.lower_bound(31), 4);
    assert_eq!(leaf(4, &[]).lower_bound(1), 0);
}

#[test]
fn child_for_is_behind_the_last_key_before() {
    let node = inner(
        3,
        &[10, 20, 20],
        vec![leaf(3, &[1, 2]), leaf(3, &[11, 12]), leaf(3, &[20, 20]), leaf(3, &[21, 22])],
    );
    assert_eq!(node.child_for(5), 0);
    assert_eq!(node.child_for(10), 0);
    assert_eq!(node.child_for(15), 1);
    assert_eq!(node.child_for(20), 1);
    assert_eq!(node.child_for(21), 3);
}

#[test]
fn pop_back_and_pop_front_of_a_leaf() {
    let mut node = leaf(3, &[1, 2, 3]);
    let (key, child) = node.pop_back();
    assert_eq!(key, 3);
    assert!(child.is_none());
    assert_eq!(node.keys, vec![1, 2]);
    assert_eq!(node.count, 2);
    let (key, child) = node.pop_front();
    assert_eq!(key, 1);
    assert!(child.is_none());
    assert_eq!(node.keys, vec![2]);
    assert_eq!(node.count, 1);
}

#[test]
fn pop_back_and_pop_front_of_an_inner_node() {
    let mut node = inner(2, &[10, 20], vec![leaf(2, &[1]), leaf(2, &[11]), leaf(2, &[21])]);
    let (key, child) = node.pop_back();
    assert_eq!(key, 20);
    assert_eq!(child.unwrap().keys, vec![21]);
    assert_eq!(node.keys, vec![10]);
    assert_eq!(node.children.len(), 2);
    assert_eq!(node.count, 1);
    let (key, child) = node.pop_front();
    assert_eq!(key, 10);
    assert_eq!(child.unwrap().keys, vec![1]);
    assert!(node.keys.is_empty());
    assert_eq!(node.children.len(), 1);
    assert_eq!(node.children[0].keys, vec![11]);
}

#[test]
fn push_front_and_push_back() {
    let mut node = leaf(3, &[5]);
    node.push_front(4, None);
    node.push_back(6, None);
    assert_eq!(node.keys, vec![4, 5, 6]);
    assert_eq!(node.count, 3);

    let mut node = inner(2, &[10], vec![leaf(2, &[5]), leaf(2, &[15])]);
    node.push_front(0, Some(leaf(2, &[-5])));
    node.push_back(20, Some(leaf(2, &[25])));
    assert_eq!(node.keys, vec![0, 10, 20]);
    assert_eq!(node.count, 3);
    assert_eq!(node.children.len(), 4);
    assert_eq!(node.to_vec(), vec![-5, 0, 5, 10, 15, 20, 25]);
}

#[test]
fn join_children_takes_the_key_between_them() {
    let mut node =
        inner(3, &[10, 20], vec![leaf(3, &[1, 2]), leaf(3, &[11]), leaf(3, &[21, 22])]);
    assert_eq!(node.join_children(1), 0);
    assert_eq!(node.keys, vec![20]);
    assert_eq!(node.count, 1);
    assert_eq!(node.children.len(), 2);
    assert_eq!(node.children[0].keys, vec![1, 2, 10, 11]);
    assert_eq!(node.children[0].count, 4);
    assert_eq!(node.children[1].keys, vec![21, 22]);

    let mut node =
        inner(3, &[10, 20], vec![leaf(3, &[1]), leaf(3, &[11, 12]), leaf(3, &[21, 22])]);
    assert_eq!(node.join_children(0), 0);
    assert_eq!(node.keys, vec![20]);
    assert_eq!(node.children.len(), 2);
    assert_eq!(node.children[0].keys, vec![1, 10, 11, 12]);
    assert_eq!(node.to_vec(), vec![1, 10, 11, 12, 20, 21, 22]);
}
