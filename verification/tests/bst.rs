use comp_geo::bst::{BST, BSTNode};

fn assert_avl_invariants<V: std::fmt::Debug>(node: &Option<Box<BSTNode<V>>>) {
    if let Some(n) = node {
        let h_l = BSTNode::get_height(&n.left);
        let h_r = BSTNode::get_height(&n.right);

        // Height must be correctly updated
        assert_eq!(n.height, 1 + h_l.max(h_r));

        // Balance factor must be within [-1, 1]
        let diff = (h_r as i64 - h_l as i64).abs();
        assert!(diff <= 1, "Balance factor at key {:?} is {}", n.key, diff);

        assert_avl_invariants(&n.left);
        assert_avl_invariants(&n.right);
    }
}

#[test]
fn complexity_test() {
    let mut n = BST::new();
    for i in 0..100i64 {
        n.insert(i, "data");
    }
    assert_avl_invariants(&n.root);
}

#[test]
fn new() {
    let mut n = BST::new();
    n.insert(100, 'a');
    assert_eq!(n.root.as_ref().unwrap().key, 100);
    assert!(n.root.as_ref().unwrap().left.is_none());
    assert!(n.root.as_ref().unwrap().right.is_none());
}

#[test]
fn insert() {
    let mut n = BST::new();
    n.insert(100, "a");
    n.insert(99, "b");
    assert!(n
        .root
        .as_ref()
        .unwrap()
        .left
        .as_ref()
        .is_some_and(|n| n.key == 99));
    assert!(n.root.as_ref().unwrap().right.is_none());

    n.insert(101, "c");
    assert!(n
        .root
        .as_ref()
        .unwrap()
        .right
        .as_ref()
        .is_some_and(|n| n.key == 101));
}

#[test]
fn find() {
    let mut n = BST::new();
    n.insert(10, "ten");
    n.insert(5, "five");
    n.insert(11, "eleven");
    n.insert(99, "ninety-nine");
    n.insert(1, "one");

    assert_eq!(n.find(&11).unwrap(), &"eleven");
    assert_eq!(n.find(&1).unwrap(), &"one");
    assert_eq!(n.find(&2), None);
}

#[test]
fn delete_node() {
    let mut n = BST::new();
    n.insert(10, "10");
    n.insert(5, "5");
    n.insert(15, "15");
    n.insert(11, "11");
    n.insert(20, "20");
    n.insert(1, "1");
    assert_eq!(n.find(&10).unwrap(), &"10");
    n.delete(&10);
    assert_eq!(n.find(&10), None);
    // should be the min child of right tree
    assert_eq!(n.root.as_ref().unwrap().key, 11);

    assert_avl_invariants(&n.root);
}

#[test]
fn delete_node_immediate_succesor() {
    // handle case where right child does not
    // have left tree
    let mut n = BST::new();
    n.insert(10, "10");
    n.insert(5, "5");
    n.insert(15, "15");
    n.insert(20, "20");
    n.delete(&10);
    let root = n.root.as_ref().unwrap();
    assert_eq!(root.key, 15);
    assert_eq!(root.left.as_ref().unwrap().key, 5);
    assert_eq!(root.right.as_ref().unwrap().key, 20);
}

#[test]
fn height_insert() {
    let mut n = BST::new();
    n.insert(10, "10");

    assert_eq!(&n.root.as_ref().unwrap().height, &1);
    n.insert(5, "5");
    assert_eq!(&n.root.as_ref().unwrap().height, &2);

    n.insert(2, "2");
    // rebalances
    assert_eq!(&n.root.as_ref().unwrap().height, &2);
    assert_eq!(&n.root.as_ref().unwrap().key, &5);

    n.insert(12, "12");
    assert_eq!(&n.root.as_ref().unwrap().height, &3);
}

#[test]
fn height_delete() {
    let mut n = BST::new();
    n.insert(10, "10");
    n.insert(5, "5");
    n.insert(15, "15");
    n.insert(14, "14");
    n.insert(11, "11");
    assert_eq!(&n.root.as_ref().unwrap().height, &3);
    n.delete(&10);
    assert_eq!(&n.root.as_ref().unwrap().height, &3);
    assert_eq!(&n.root.as_ref().unwrap().key, &11);
}

#[test]
fn balance_factor() {
    let mut n = BST::new();
    n.insert(10, "10");
    assert_eq!(n.root.as_ref().unwrap().balance_factor(), 0);
    n.insert(5, "5");
    assert_eq!(n.root.as_ref().unwrap().balance_factor(), -1);
    n.insert(15, "15");
    assert_eq!(n.root.as_ref().unwrap().balance_factor(), 0);
    n.insert(25, "25");
    assert_eq!(n.root.as_ref().unwrap().balance_factor(), 1);
}

#[test]
fn avl() {
    let mut n = BST::new();
    n.insert(1, "1");
    n.insert(2, "2");
    n.insert(3, "3");
    n.insert(4, "4");
    n.insert(5, "5");
    let root = n.root.as_ref().unwrap();

    assert_avl_invariants(&n.root);
    assert_eq!(&root.key, &2);
    assert_eq!(&root.left.as_ref().unwrap().key, &1);
    assert_eq!(&root.right.as_ref().unwrap().key, &4)
}

#[test]
fn avl_reverse() {
    let mut n = BST::new();
    n.insert(5, "5");
    n.insert(4, "4");
    n.insert(3, "3");
    n.insert(2, "2");
    n.insert(1, "1");
    let root = n.root.as_ref().unwrap();

    assert_avl_invariants(&n.root);
    assert_eq!(&root.key, &4);
    assert_eq!(&root.left.as_ref().unwrap().key, &2);
    assert_eq!(&root.right.as_ref().unwrap().key, &5)
}

#[test]
fn min_max() {
    let mut n = BST::new();
    n.insert(1, "1");
    n.insert(2, "2");
    n.insert(3, "3");
    n.insert(4, "4");
    n.insert(5, "5");
    n.insert(5, "6");

    let root = n.root.as_ref().unwrap();
    assert_eq!(root.min(), &"1");
    assert_eq!(root.max(), &"6");
}

#[test]
fn test_succesor() {
    let mut n = BST::new();
    n.insert(2, "2");
    n.insert(1, "1");
    n.insert(3, "3");
    n.insert(4, "4");
    n.insert(5, "5");
    n.insert(6, "6");

    let root = n.root.as_ref().unwrap();
    // when the node isn't found return the min
    assert_eq!(root.successor(&0), Some(&"1"));
    assert_eq!(root.successor(&2), Some(&"3"));
    assert_eq!(root.successor(&1), Some(&"2"));
    assert_eq!(root.successor(&3), Some(&"4"));
    assert_eq!(root.successor(&4), Some(&"5"));
    assert_eq!(root.successor(&5), Some(&"6"));
}

#[test]
fn test_predecessor() {
    let mut n = BST::new();
    n.insert(2, "2");
    n.insert(1, "1");
    n.insert(3, "3");
    n.insert(4, "4");
    n.insert(5, "5");
    n.insert(6, "6");

    let root = n.root.as_ref().unwrap();
    assert_eq!(root.predecessor(&2), Some(&"1"));
    assert_eq!(root.predecessor(&3), Some(&"2"));
    assert_eq!(root.predecessor(&4), Some(&"3"));
    assert_eq!(root.predecessor(&5), Some(&"4"));
    assert_eq!(root.predecessor(&6), Some(&"5"));
    // when we fall off the max end, the max value is the predecessor
    assert_eq!(root.predecessor(&700), Some(&"6"));
}
