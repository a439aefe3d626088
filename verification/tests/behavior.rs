use comp_geo::bst::{BST, BSTNode};

fn inorder_keys<V>(node: &Option<Box<BSTNode<V>>>, out: &mut Vec<i64>) {
    if let Some(n) = node {
        inorder_keys(&n.left, out);
        out.push(n.key);
        inorder_keys(&n.right, out);
    }
}

#[test]
fn inorder_is_sorted() {
    let mut n = BST::new();
    for k in [8i64, 3, 10, 1, 6, 14, 4, 7, 13, 2] {
        n.insert(k, k * 10);
    }
    let mut keys: Vec<i64> = Vec::new();
    inorder_keys(&n.root, &mut keys);
    assert_eq!(keys, vec![1, 2, 3, 4, 6, 7, 8, 10, 13, 14]);
    n.delete(&8);
    n.delete(&1);
    let mut keys: Vec<i64> = Vec::new();
    inorder_keys(&n.root, &mut keys);
    assert_eq!(keys, vec![2, 3, 4, 6, 7, 10, 13, 14]);
}

#[test]
fn round_trip_many_keys() {
    let mut n = BST::new();
    for i in 1..=100i64 {
        n.insert(i, i * i);
    }
    for i in 1..=100i64 {
        assert_eq!(n.find(&i), Some(&(i * i)));
    }
    n.delete(&37);
    assert_eq!(n.find(&37), None);
    assert_eq!(n.find(&36), Some(&1296));
    assert_eq!(n.find(&38), Some(&1444));
}

#[test]
fn delete_absent_is_a_no_op() {
    let mut n = BST::new();
    n.insert(1, "one");
    n.insert(2, "two");
    n.insert(3, "three");
    n.delete(&9);
    n.delete(&9);
    assert_eq!(n.find(&1), Some(&"one"));
    assert_eq!(n.find(&2), Some(&"two"));
    assert_eq!(n.find(&3), Some(&"three"));
    assert_eq!(n.root.as_ref().unwrap().height, 2);
    let mut d = BST::<&str>::new();
    d.delete(&0);
    assert!(d.root.is_none());
}

#[test]
fn neighbors_boundaries() {
    let mut n = BST::new();
    n.insert(2, "2");
    n.insert(1, "1");
    n.insert(3, "3");
    n.insert(4, "4");
    n.insert(5, "5");
    n.insert(6, "6");

    // below the minimum: no predecessor, successor is the minimum
    assert_eq!(n.neighbors(&0), (None, Some(&"1")));
    // on the minimum key itself: no predecessor
    assert_eq!(n.neighbors(&1), (None, Some(&"2")));
    // on the maximum key itself: no successor
    assert_eq!(n.neighbors(&6), (Some(&"5"), None));
    // past the maximum: the maximum is the predecessor
    assert_eq!(n.neighbors(&700), (Some(&"6"), None));
    // an absent key between two stored keys gets its tight bounds
    let mut g = BST::new();
    for k in [10i64, 5, 15, 11, 20, 1] {
        g.insert(k, k);
    }
    assert_eq!(g.neighbors(&12), (Some(&11), Some(&15)));
    assert_eq!(g.neighbors(&2), (Some(&1), Some(&5)));
}

#[test]
fn delete_two_children_uses_successor() {
    // scenario: delete a two-child root; its in-order successor replaces it
    let mut n = BST::new();
    for k in [10i64, 5, 15, 11, 20, 1] {
        n.insert(k, k);
    }
    n.delete(&10);
    assert_eq!(n.root.as_ref().unwrap().key, 11);
    let mut keys: Vec<i64> = Vec::new();
    inorder_keys(&n.root, &mut keys);
    assert_eq!(keys, vec![1, 5, 11, 15, 20]);
}

#[test]
fn duplicate_keys_both_stored() {
    let mut n = BST::new();
    n.insert(5, "first");
    n.insert(5, "second");
    // the duplicate lands in the right subtree of the first occurrence
    let root = n.root.as_ref().unwrap();
    assert_eq!(root.key, 5);
    assert_eq!(root.right.as_ref().unwrap().key, 5);
    // lookup returns the occurrence met by the descent
    assert_eq!(n.find(&5), Some(&"first"));
    // deleting removes one occurrence, the other stays
    n.delete(&5);
    assert!(n.find(&5).is_some());
    n.delete(&5);
    assert_eq!(n.find(&5), None);
}

#[test]
fn empty_map_queries() {
    let n = BST::<u32>::new();
    assert_eq!(n.find(&0), None);
    assert_eq!(n.neighbors(&0), (None, None));
    let d = BST::<u32>::default();
    assert!(d.root.is_none());
}

#[test]
fn delete_does_not_rebalance() {
    // deletion only refreshes heights on its way up; a sequence of
    // deletions can push a balance factor outside [-1, 1], and that
    // behavior is kept as designed
    let mut n = BST::new();
    for k in [4i64, 2, 6, 1, 3, 5, 7] {
        n.insert(k, ());
    }
    n.delete(&5);
    n.delete(&7);
    n.delete(&6);
    let root = n.root.as_ref().unwrap();
    assert_eq!(root.key, 4);
    assert_eq!(root.balance_factor(), -2);
    // heights are still exact, and the order is intact
    check_heights(&n.root);
    let mut keys: Vec<i64> = Vec::new();
    inorder_keys(&n.root, &mut keys);
    assert_eq!(keys, vec![1, 2, 3, 4]);
}

fn check_heights<V>(node: &Option<Box<BSTNode<V>>>) {
    if let Some(n) = node {
        let h_l = BSTNode::get_height(&n.left);
        let h_r = BSTNode::get_height(&n.right);
        assert_eq!(n.height, 1 + h_l.max(h_r));
        check_heights(&n.left);
        check_heights(&n.right);
    }
}

#[test]
fn heights_exact_after_mixed_operations() {
    let mut n = BST::new();
    for i in 0..64i64 {
        n.insert((i * 37) % 101, i);
    }
    // deletion refreshes heights but does not rebalance; heights must
    // still be exact after deletions
    for k in [0i64, 37, 74, 10, 47].iter() {
        n.delete(k);
    }
    check_heights(&n.root);
}
