use crdt_tree::{Tree, TreeNode};
use std::cell::RefCell;

fn sorted(mut v: Vec<u64>) -> Vec<u64> {
    v.sort();
    v
}

// 1 -> {2, 3}, 3 -> {5}, 2 -> {6}, 6 -> {8}
fn sample() -> Tree<&'static str> {
    let mut t = Tree::new();
    t.add_node(2, TreeNode::new(1, "two"));
    t.add_node(3, TreeNode::new(1, "three"));
    t.add_node(5, TreeNode::new(3, "five"));
    t.add_node(6, TreeNode::new(2, "six"));
    t.add_node(8, TreeNode::new(6, "eight"));
    t
}

#[test]
fn tree_find_present_and_absent() {
    let t = sample();
    let n = t.find(&6).unwrap();
    assert_eq!(*n.parent_id(), 2);
    assert_eq!(*n.metadata(), "six");
    assert!(t.find(&1).is_none());
    assert!(t.find(&42).is_none());
}

#[test]
fn tree_children_lists_each_child_once() {
    let t = sample();
    assert_eq!(sorted(t.children(&1)), vec![2, 3]);
    assert_eq!(sorted(t.children(&6)), vec![8]);
    assert!(t.children(&8).is_empty());
    assert!(t.children(&99).is_empty());
}

#[test]
fn tree_is_ancestor_follows_parent_links() {
    let t = sample();
    assert!(t.is_ancestor(&8, &2));
    assert!(t.is_ancestor(&8, &1));
    assert!(t.is_ancestor(&8, &6));
    assert!(!t.is_ancestor(&5, &2));
    assert!(!t.is_ancestor(&8, &8));
    assert!(!t.is_ancestor(&1, &2));
}

#[test]
fn tree_add_node_moves_child_between_parents() {
    let mut t = sample();
    t.add_node(5, TreeNode::new(2, "five"));
    assert_eq!(sorted(t.children(&2)), vec![5, 6]);
    assert!(t.children(&3).is_empty());
    assert_eq!(*t.find(&5).unwrap().parent_id(), 2);
}

#[test]
fn tree_rm_child_prunes_index() {
    let mut t = sample();
    t.rm_child(&5);
    assert!(t.find(&5).is_none());
    assert!(t.children(&3).is_empty());
    t.rm_child(&5);
    assert!(t.find(&5).is_none());
    let mut u = Tree::new();
    u.add_node(2, TreeNode::new(1, "two"));
    u.add_node(3, TreeNode::new(1, "three"));
    u.add_node(6, TreeNode::new(2, "six"));
    u.add_node(8, TreeNode::new(6, "eight"));
    assert_eq!(t, u);
}

#[test]
fn tree_rm_subtree_without_parent() {
    let mut t = sample();
    t.rm_subtree(&2, false);
    assert!(t.find(&6).is_none());
    assert!(t.find(&8).is_none());
    assert!(t.find(&2).is_some());
    assert!(t.find(&3).is_some());
    assert!(t.find(&5).is_some());
    assert!(t.children(&2).is_empty());
}

#[test]
fn tree_rm_subtree_with_parent() {
    let mut t = sample();
    t.rm_subtree(&2, true);
    assert!(t.find(&2).is_none());
    assert!(t.find(&6).is_none());
    assert_eq!(sorted(t.children(&1)), vec![3]);
    t.rm_subtree(&1, false);
    assert_eq!(t, Tree::new());
}

#[test]
fn tree_walk_visits_preorder_with_depths() {
    let t = sample();
    let seen: RefCell<Vec<(u64, usize)>> = RefCell::new(Vec::new());
    t.walk(&1, &|_tree: &Tree<&'static str>, id: &u64, depth: usize| {
        seen.borrow_mut().push((*id, depth));
    });
    let seen = seen.into_inner();
    assert_eq!(seen.len(), 6);
    assert_eq!(seen[0], (1, 0));
    let mut got = seen.clone();
    got.sort();
    assert_eq!(got, vec![(1, 0), (2, 1), (3, 1), (5, 2), (6, 2), (8, 3)]);
    // each node comes after its parent
    for (i, (id, _)) in seen.iter().enumerate() {
        if *id != 1 {
            let p = *t.find(id).unwrap().parent_id();
            let pi = seen.iter().position(|(x, _)| *x == p).unwrap();
            assert!(pi < i);
        }
    }
}

#[test]
fn tree_set_metadata_keeps_parent() {
    let mut t = sample();
    assert!(t.set_metadata(&6, "SIX"));
    assert_eq!(*t.find(&6).unwrap(), TreeNode::new(2, "SIX"));
    assert_eq!(sorted(t.children(&2)), vec![6]);
    assert!(!t.set_metadata(&42, "none"));
    assert!(t.find(&42).is_none());
    let mut u = sample();
    u.add_node(6, TreeNode::new(2, "SIX"));
    assert_eq!(t, u);
}

#[test]
fn tree_preorder_lists_subtree_once_parents_first() {
    let t = sample();
    let order = t.preorder(&1);
    assert_eq!(order[0], (1, 0));
    let mut got = order.clone();
    got.sort();
    assert_eq!(got, vec![(1, 0), (2, 1), (3, 1), (5, 2), (6, 2), (8, 3)]);
    for (i, (id, depth)) in order.iter().enumerate().skip(1) {
        let p = *t.find(id).unwrap().parent_id();
        let pi = order.iter().position(|(x, _)| *x == p).unwrap();
        assert!(pi < i);
        assert_eq!(*depth, order[pi].1 + 1);
    }
    // depth first: the subtree of 2 comes as one block
    let pos = |x: u64| order.iter().position(|(y, _)| *y == x).unwrap();
    let block = [pos(2), pos(6), pos(8)];
    assert_eq!(block.iter().max().unwrap() - block.iter().min().unwrap(), 2);
    assert_eq!(t.preorder(&8), vec![(8, 0)]);
    assert_eq!(t.preorder(&77), vec![(77, 0)]);
}
