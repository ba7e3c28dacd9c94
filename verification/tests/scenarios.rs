use btree::{BTree, Node};

/// Checks the shape of a subtree and returns the depth of its leaves.
fn audit(node: &Node<i32>, t: usize, is_root: bool) -> usize {
    assert_eq!(node.t, t);
    assert_eq!(node.count, node.keys.len());
    assert!(node.keys.len() <= 2 * t - 1);
    if !is_root {
        assert!(node.keys.len() >= t - 1);
    }
    for w in node.keys.windows(2) {
        assert!(w[0] <= w[1]);
    }
    if node.leaf {
        assert!(node.children.is_empty());
        return 0;
    }
    assert_eq!(node.children.len(), node.keys.len() + 1);
    let depth = audit(&node.children[0], t, false);
    for child in node.children.iter() {
        assert_eq!(audit(child, t, false), depth);
    }
    depth + 1
}

fn build(t: usize, values: &[i32]) -> BTree<i32> {
    let mut tree = BTree::<i32>::new(t);
    for v in values {
        tree.insert(*v);
        audit(&tree.root, t, true);
    }
    tree
}

#[test]
fn new_tree_is_empty() {
    let tree = BTree::<i32>::new(2);
    assert_eq!(tree.to_vec(), Vec::<i32>::new());
    assert!(!tree.contains(0));
    assert!(tree.root.leaf);
    assert_eq!(tree.t, 2);
}

#[test]
fn inserts_come_out_sorted() {
    let tree = build(3, &[1, 2, 3, -1, 2, 100, -1, 0, 6, 3, -10, 0, 234, -112]);
    assert_eq!(tree.to_vec(), vec![-112, -10, -1, -1, 0, 0, 1, 2, 2, 3, 3, 6, 100, 234]);
    assert!(!tree.contains(1000));
    assert!(tree.contains(100));
}

#[test]
fn delete_takes_one_key() {
    let mut tree = build(3, &[1, 2, -1, 2, 5, 100, -10, 0, 124, 4]);
    assert!(tree.delete(1));
    assert_eq!(tree.to_vec(), vec![-10, -1, 0, 2, 2, 4, 5, 100, 124]);
    audit(&tree.root, 3, true);
}

#[test]
fn count_after_insertions() {
    let values: Vec<i32> = (0..200).map(|i| (i * 37) % 50).collect();
    let tree = build(2, &values);
    let out = tree.to_vec();
    assert_eq!(out.len(), 200);
    let mut expected = values.clone();
    expected.sort();
    assert_eq!(out, expected);
}

#[test]
fn contains_until_deleted() {
    let mut tree = build(2, &[5, 3, 8, 1, 4, 7, 9, 2, 6]);
    tree.insert(10);
    assert!(tree.contains(10));
    tree.insert(11);
    assert!(tree.delete(3));
    assert!(tree.contains(10));
    assert!(tree.delete(10));
    assert!(!tree.contains(10));
}

#[test]
fn delete_single_occurrence_then_absent() {
    let mut tree = build(3, &[10, 20, 30, 40, 50, 60, 70]);
    assert!(tree.delete(40));
    assert!(!tree.contains(40));
    let before = tree.to_vec();
    assert!(!tree.delete(40));
    assert_eq!(tree.to_vec(), before);
    assert!(!tree.delete(-5));
    assert!(!tree.delete(55));
    assert!(!tree.delete(1000));
    assert_eq!(tree.to_vec(), before);
}

#[test]
fn delete_one_of_several_equal_keys() {
    let mut tree = build(2, &[7, 7, 7, 7, 7, 7, 7, 7, 7]);
    assert!(tree.delete(7));
    assert_eq!(tree.to_vec(), vec![7; 8]);
    assert!(tree.contains(7));
    audit(&tree.root, 2, true);
    for left in (0..8).rev() {
        assert!(tree.delete(7));
        assert_eq!(tree.to_vec(), vec![7; left]);
        audit(&tree.root, 2, true);
    }
    assert!(!tree.contains(7));
    assert!(!tree.delete(7));
}

#[test]
fn traversal_twice_is_the_same() {
    let tree = build(2, &[4, 1, 3, 9, 9, 2]);
    assert_eq!(tree.to_vec(), tree.to_vec());
}

#[test]
fn shape_holds_through_inserts_and_deletes() {
    for t in 2..5usize {
        let mut tree = BTree::<i32>::new(t);
        let mut model: Vec<i32> = Vec::new();
        let mut x: i32 = 12345;
        for step in 0..600 {
            x = (x.wrapping_mul(1103515245).wrapping_add(12345)) & 0x7fffffff;
            let v = (x >> 8) % 40;
            if step % 3 == 2 || step > 400 {
                let expected = model.iter().position(|e| *e == v);
                let found = tree.delete(v);
                assert_eq!(found, expected.is_some());
                if let Some(p) = expected {
                    model.remove(p);
                }
            } else {
                tree.insert(v);
                let p = model.iter().position(|e| *e >= v).unwrap_or(model.len());
                model.insert(p, v);
            }
            audit(&tree.root, t, true);
            assert_eq!(tree.to_vec(), model);
            assert_eq!(tree.contains(v), model.contains(&v));
        }
    }
}

#[test]
fn delete_everything_shrinks_to_a_leaf() {
    let values: Vec<i32> = (0..100).collect();
    let mut tree = build(2, &values);
    assert!(!tree.root.leaf);
    for v in values.iter() {
        assert!(tree.delete(*v));
        audit(&tree.root, 2, true);
    }
    assert!(tree.root.leaf);
    assert_eq!(tree.to_vec(), Vec::<i32>::new());
    tree.insert(3);
    assert_eq!(tree.to_vec(), vec![3]);
}

#[test]
fn delete_in_descending_order() {
    let values: Vec<i32> = (0..64).collect();
    let mut tree = build(3, &values);
    for v in values.iter().rev() {
        assert!(tree.delete(*v));
        audit(&tree.root, 3, true);
        assert!(!tree.contains(*v));
    }
    assert!(tree.root.leaf);
}

#[test]
fn delete_key_of_inner_node() {
    let mut tree = build(2, &[1, 2, 3, 4, 5, 6, 7, 8, 9, 10]);
    let top = tree.root.keys[0];
    assert!(tree.delete(top));
    assert!(!tree.contains(top));
    audit(&tree.root, 2, true);
    let mut expected: Vec<i32> = (1..=10).collect();
    expected.retain(|e| *e != top);
    assert_eq!(tree.to_vec(), expected);
}

#[test]
fn root_grows_when_full() {
    let mut tree = BTree::<i32>::new(2);
    tree.insert(1);
    tree.insert(2);
    tree.insert(3);
    assert!(tree.root.leaf);
    assert_eq!(tree.root.keys, vec![1, 2, 3]);
    tree.insert(4);
    assert!(!tree.root.leaf);
    assert_eq!(tree.root.keys, vec![2]);
    assert_eq!(tree.root.children[0].keys, vec![1]);
    assert_eq!(tree.root.children[1].keys, vec![3, 4]);
}

#[test]
fn keys_of_other_types() {
    let mut bytes = BTree::<u8>::new(2);
    for v in [200u8, 3, 3, 255, 0, 17] {
        bytes.insert(v);
    }
    assert_eq!(bytes.to_vec(), vec![0, 3, 3, 17, 200, 255]);
    assert!(bytes.delete(3));
    assert!(bytes.contains(3));
    assert!(bytes.delete(3));
    assert!(!bytes.contains(3));

    let mut pairs = BTree::<(i32, char)>::new(2);
    for v in [(2, 'b'), (1, 'z'), (2, 'a'), (1, 'a'), (3, 'c')] {
        pairs.insert(v);
    }
    assert_eq!(pairs.to_vec(), vec![(1, 'a'), (1, 'z'), (2, 'a'), (2, 'b'), (3, 'c')]);
    assert!(pairs.delete((2, 'a')));
    assert!(!pairs.delete((2, 'a')));
    assert_eq!(pairs.to_vec(), vec![(1, 'a'), (1, 'z'), (2, 'b'), (3, 'c')]);
}

#[test]
fn large_branching_parameter_keeps_one_leaf() {
    let mut tree = BTree::<i32>::new(50);
    for v in (0..99).rev() {
        tree.insert(v);
    }
    assert!(tree.root.leaf);
    assert_eq!(tree.root.keys.len(), 99);
    tree.insert(99);
    assert!(!tree.root.leaf);
    assert_eq!(tree.root.keys, vec![49]);
    assert_eq!(tree.to_vec(), (0..100).collect::<Vec<i32>>());
    audit(&tree.root, 50, true);
}
