use bst::{BstNode, NodePath};

fn build(keys: &[i32]) -> Option<Box<BstNode>> {
    let mut root: Option<Box<BstNode>> = None;
    for &k in keys {
        BstNode::insert(&mut root, k);
    }
    root
}

fn sample() -> Option<Box<BstNode>> {
    build(&[15, 6, 18, 3, 7, 17, 20, 2, 4, 13, 9])
}

fn keys(root: &Option<Box<BstNode>>) -> Vec<i32> {
    match root {
        None => Vec::new(),
        Some(n) => n.in_order(),
    }
}

fn key_at(root: &Option<Box<BstNode>>, p: &NodePath) -> i32 {
    root.as_ref().unwrap().node_at(p).unwrap().key
}

fn find(root: &Option<Box<BstNode>>, k: i32) -> Option<NodePath> {
    root.as_ref().unwrap().tree_search(&k)
}

#[test]
fn new_node_is_a_leaf() {
    let n = BstNode::new(7);
    assert_eq!(n.key, 7);
    assert!(n.left.is_none());
    assert!(n.right.is_none());
    let b = BstNode::new_bst_nodelink(-3);
    assert_eq!(b.key, -3);
    assert!(b.left.is_none() && b.right.is_none());
}

#[test]
fn insert_into_empty_makes_root() {
    let mut root: Option<Box<BstNode>> = None;
    BstNode::insert(&mut root, 42);
    let r = root.as_ref().unwrap();
    assert_eq!(r.key, 42);
    assert!(r.left.is_none() && r.right.is_none());
}

#[test]
fn insert_builds_expected_shape() {
    let root = build(&[42, 17, 68, 9, 33]);
    let r = root.as_ref().unwrap();
    assert_eq!(r.key, 42);
    let l = r.left.as_ref().unwrap();
    let rr = r.right.as_ref().unwrap();
    assert_eq!(l.key, 17);
    assert_eq!(rr.key, 68);
    assert_eq!(l.left.as_ref().unwrap().key, 9);
    assert_eq!(l.right.as_ref().unwrap().key, 33);
    assert!(rr.left.is_none() && rr.right.is_none());
}

#[test]
fn duplicates_go_right() {
    let root = build(&[5, 5, 5]);
    let r = root.as_ref().unwrap();
    assert!(r.left.is_none());
    let a = r.right.as_ref().unwrap();
    assert_eq!(a.key, 5);
    assert!(a.left.is_none());
    assert_eq!(a.right.as_ref().unwrap().key, 5);
    assert_eq!(keys(&root), vec![5, 5, 5]);
}

#[test]
fn tree_insert_keeps_root() {
    let mut root = BstNode::new(10);
    root.tree_insert(4);
    root.tree_insert(12);
    root.tree_insert(10);
    assert_eq!(root.key, 10);
    assert_eq!(root.left.as_ref().unwrap().key, 4);
    assert_eq!(root.right.as_ref().unwrap().key, 12);
    assert_eq!(root.right.as_ref().unwrap().left.as_ref().unwrap().key, 10);
    assert_eq!(root.in_order(), vec![4, 10, 10, 12]);
}

#[test]
fn in_order_is_sorted_after_inserts_and_deletes() {
    let mut root = build(&[50, 30, 70, 20, 40, 60, 80, 30, 65, 10, 45]);
    assert_eq!(keys(&root), vec![10, 20, 30, 30, 40, 45, 50, 60, 65, 70, 80]);
    for k in [30, 50, 80, 10] {
        let p = find(&root, k).unwrap();
        BstNode::delete(&mut root, &p);
        let ks = keys(&root);
        for w in ks.windows(2) {
            assert!(w[0] <= w[1]);
        }
    }
    assert_eq!(keys(&root), vec![20, 30, 40, 45, 60, 65, 70]);
}

#[test]
fn inserted_keys_are_found() {
    let ks = [15, 6, 18, 3, 7, 17, 20, 2, 4, 13, 9];
    let mut root = sample();
    for k in ks {
        let p = find(&root, k).unwrap();
        assert_eq!(key_at(&root, &p), k);
    }
    let p = find(&root, 7).unwrap();
    BstNode::delete(&mut root, &p);
    assert!(find(&root, 7).is_none());
    for k in [15, 6, 18, 3, 17, 20, 2, 4, 13, 9] {
        let p = find(&root, k).unwrap();
        assert_eq!(key_at(&root, &p), k);
    }
}

#[test]
fn search_gives_the_path() {
    let root = sample();
    assert_eq!(find(&root, 15).unwrap().steps, Vec::<bool>::new());
    assert_eq!(find(&root, 13).unwrap().steps, vec![false, true, true]);
    assert_eq!(find(&root, 9).unwrap().steps, vec![false, true, true, false]);
    assert_eq!(find(&root, 20).unwrap().steps, vec![true, true]);
    assert!(find(&root, 22).is_none());
    assert!(find(&root, 1).is_none());
    assert!(find(&root, 8).is_none());
}

#[test]
fn search_goes_right_where_left_is_empty() {
    // Not a search tree: the smaller key hangs to the right.
    let mut root = BstNode::new(10);
    root.add_right_child(3);
    let p = root.tree_search(&3).unwrap();
    assert_eq!(p.steps, vec![true]);
}

#[test]
fn search_from_a_subtree_is_relative() {
    let root = sample();
    let left = root.as_ref().unwrap().left.as_ref().unwrap();
    assert_eq!(left.tree_search(&13).unwrap().steps, vec![true, true]);
    assert!(left.tree_search(&18).is_none());
}

#[test]
fn minimum_and_maximum() {
    let root = sample();
    let r = root.as_ref().unwrap();
    let lo = r.minimum();
    let hi = r.maximum();
    assert_eq!(lo.steps, vec![false, false, false]);
    assert_eq!(hi.steps, vec![true, true]);
    assert_eq!(key_at(&root, &lo), 2);
    assert_eq!(key_at(&root, &hi), 20);
    let ks = keys(&root);
    assert_eq!(key_at(&root, &lo), ks[0]);
    assert_eq!(key_at(&root, &hi), ks[ks.len() - 1]);
}

#[test]
fn minimum_of_a_leaf_is_itself() {
    let n = BstNode::new(1);
    assert!(n.minimum().steps.is_empty());
    assert!(n.maximum().steps.is_empty());
}

#[test]
fn successor_walks_the_keys_in_order() {
    let root = sample();
    let r = root.as_ref().unwrap();
    let mut at = Some(r.minimum());
    let mut seen = Vec::new();
    while let Some(p) = at {
        seen.push(key_at(&root, &p));
        at = r.tree_successor(&p);
    }
    assert_eq!(seen, vec![2, 3, 4, 6, 7, 9, 13, 15, 17, 18, 20]);
}

#[test]
fn successor_cases() {
    let root = sample();
    let r = root.as_ref().unwrap();
    // with a right subtree: its leftmost node
    let s = r.tree_successor(&find(&root, 15).unwrap()).unwrap();
    assert_eq!(s.steps, vec![true, false]);
    assert_eq!(key_at(&root, &s), 17);
    // without one: up to the first node that has it to its left
    let s = r.tree_successor(&find(&root, 13).unwrap()).unwrap();
    assert!(s.steps.is_empty());
    assert_eq!(key_at(&root, &s), 15);
    let s = r.tree_successor(&find(&root, 4).unwrap()).unwrap();
    assert_eq!(key_at(&root, &s), 6);
    // the last node has none
    assert!(r.tree_successor(&r.maximum()).is_none());
}

#[test]
fn successor_with_duplicates_follows_the_shape() {
    let root = build(&[5, 3, 5, 5]);
    let r = root.as_ref().unwrap();
    let first = NodePath { steps: vec![] };
    let s = r.tree_successor(&first).unwrap();
    assert_eq!(s.steps, vec![true]);
    let s = r.tree_successor(&s).unwrap();
    assert_eq!(s.steps, vec![true, true]);
    assert!(r.tree_successor(&s).is_none());
}

#[test]
fn simpler_successor_agrees() {
    let root = sample();
    let r = root.as_ref().unwrap();
    for k in [15, 6, 18, 3, 7, 17, 20, 2, 4, 13, 9] {
        let p = find(&root, k).unwrap();
        let a = r.tree_successor(&p).map(|q| q.steps);
        let b = r.tree_successor_simpler(&p).map(|q| q.steps);
        assert_eq!(a, b);
    }
    let s = r.tree_successor_simpler(&find(&root, 13).unwrap()).unwrap();
    assert_eq!(key_at(&root, &s), 15);
    assert!(r.tree_successor_simpler(&find(&root, 20).unwrap()).is_none());
}

#[test]
fn get_root_is_the_empty_path() {
    let root = sample();
    let deep = find(&root, 9).unwrap();
    let top = BstNode::get_root(&deep);
    assert!(top.steps.is_empty());
    assert!(top.parent().is_none());
    assert_eq!(BstNode::get_root(&top).steps, top.steps);
    assert_eq!(key_at(&root, &top), 15);
}

#[test]
fn paths_step_up_and_down() {
    let p = NodePath::root();
    assert!(p.parent().is_none());
    assert!(!p.is_left_child() && !p.is_right_child());
    let l = p.left();
    let lr = l.right();
    assert_eq!(lr.steps, vec![false, true]);
    assert!(lr.is_right_child());
    assert!(l.is_left_child());
    assert_eq!(lr.parent().unwrap().steps, l.steps);
    assert_eq!(l.parent().unwrap().steps, p.steps);
    assert_eq!(lr.duplicate().steps, lr.steps);
}

#[test]
fn node_at_follows_the_turns() {
    let root = sample();
    let r = root.as_ref().unwrap();
    assert_eq!(r.node_at(&NodePath { steps: vec![false, true] }).unwrap().key, 7);
    assert_eq!(r.node_at(&NodePath { steps: vec![true, false] }).unwrap().key, 17);
    assert!(r.node_at(&NodePath { steps: vec![true, false, false] }).is_none());
    assert!(r.node_at(&NodePath { steps: vec![false, true, false, true] }).is_none());
}

#[test]
fn add_children_replace_the_slot() {
    let mut n = BstNode::new(15);
    n.add_left_child(6);
    n.add_right_child(18);
    assert_eq!(n.key, 15);
    assert_eq!(n.left.as_ref().unwrap().key, 6);
    assert_eq!(n.right.as_ref().unwrap().key, 18);
    n.left.as_mut().unwrap().add_left_child(3);
    n.add_left_child(1);
    assert_eq!(n.left.as_ref().unwrap().key, 1);
    assert!(n.left.as_ref().unwrap().left.is_none());
    assert_eq!(n.in_order(), vec![1, 15, 18]);
}

#[test]
fn copy_is_deep() {
    let root = sample();
    let mut copy = Some(root.as_ref().unwrap().get_bst_nodelink_copy());
    assert_eq!(keys(&copy), keys(&root));
    BstNode::insert(&mut copy, 100);
    assert_eq!(keys(&copy).len(), 12);
    assert_eq!(keys(&root).len(), 11);
}

#[test]
fn transplant_swaps_a_subtree() {
    let mut root = sample();
    let u = find(&root, 7).unwrap();
    let v = build(&[8, 11]);
    let out = BstNode::transplant(&mut root, &u, v);
    assert_eq!(keys(&out), vec![7, 9, 13]);
    assert_eq!(keys(&root), vec![2, 3, 4, 6, 8, 11, 15, 17, 18, 20]);
    assert_eq!(key_at(&root, &u), 8);
}

#[test]
fn transplant_at_root_and_with_nothing() {
    let mut root = sample();
    let out = BstNode::transplant(&mut root, &NodePath::root(), None);
    assert!(root.is_none());
    assert_eq!(keys(&out).len(), 11);
    let mut root = sample();
    let u = find(&root, 18).unwrap();
    let out = BstNode::transplant(&mut root, &u, None);
    assert_eq!(keys(&out), vec![17, 18, 20]);
    assert_eq!(keys(&root), vec![2, 3, 4, 6, 7, 9, 13, 15]);
}

#[test]
fn transplant_off_the_tree_changes_nothing() {
    let mut root = build(&[2, 1]);
    let nowhere = NodePath { steps: vec![true, true, false] };
    let out = BstNode::transplant(&mut root, &nowhere, build(&[9]));
    assert!(out.is_none());
    assert_eq!(keys(&root), vec![1, 2]);
}

#[test]
fn delete_leaf() {
    let mut root = sample();
    let p = find(&root, 9).unwrap();
    BstNode::delete(&mut root, &p);
    assert_eq!(keys(&root), vec![2, 3, 4, 6, 7, 13, 15, 17, 18, 20]);
    assert!(root.as_ref().unwrap().node_at(&p).is_none());
}

#[test]
fn delete_node_without_left() {
    let mut root = sample();
    let p = find(&root, 7).unwrap();
    BstNode::delete(&mut root, &p);
    assert_eq!(keys(&root), vec![2, 3, 4, 6, 9, 13, 15, 17, 18, 20]);
    assert_eq!(key_at(&root, &p), 13);
    assert_eq!(key_at(&root, &p.left()), 9);
}

#[test]
fn delete_node_without_right() {
    let mut root = sample();
    let p = find(&root, 13).unwrap();
    BstNode::delete(&mut root, &p);
    assert_eq!(keys(&root), vec![2, 3, 4, 6, 7, 9, 15, 17, 18, 20]);
    assert_eq!(key_at(&root, &p), 9);
}

#[test]
fn delete_with_successor_as_right_child() {
    let mut root = sample();
    let p = find(&root, 3).unwrap();
    BstNode::delete(&mut root, &p);
    assert_eq!(keys(&root), vec![2, 4, 6, 7, 9, 13, 15, 17, 18, 20]);
    assert_eq!(key_at(&root, &p), 4);
    assert_eq!(key_at(&root, &p.left()), 2);
    assert!(root.as_ref().unwrap().node_at(&p.right()).is_none());
}

#[test]
fn delete_with_successor_deeper() {
    let mut root = sample();
    let p = find(&root, 6).unwrap();
    BstNode::delete(&mut root, &p);
    assert_eq!(keys(&root), vec![2, 3, 4, 7, 9, 13, 15, 17, 18, 20]);
    // 7 is the leftmost node right of 6 and its direct right child
    assert_eq!(key_at(&root, &p), 7);
    assert_eq!(key_at(&root, &p.right()), 13);
    let mut root = build(&[10, 5, 20, 15, 30, 12, 17, 13]);
    let p = find(&root, 10).unwrap();
    BstNode::delete(&mut root, &p);
    let r = root.as_ref().unwrap();
    assert_eq!(r.key, 12);
    assert_eq!(r.left.as_ref().unwrap().key, 5);
    let right = r.right.as_ref().unwrap();
    assert_eq!(right.key, 20);
    assert_eq!(right.left.as_ref().unwrap().key, 15);
    assert_eq!(right.left.as_ref().unwrap().left.as_ref().unwrap().key, 13);
    assert_eq!(right.left.as_ref().unwrap().right.as_ref().unwrap().key, 17);
    assert_eq!(keys(&root), vec![5, 12, 13, 15, 17, 20, 30]);
}

#[test]
fn delete_removes_exactly_one() {
    let mut root = build(&[4, 2, 4, 6, 4]);
    assert_eq!(keys(&root), vec![2, 4, 4, 4, 6]);
    let p = find(&root, 4).unwrap();
    BstNode::delete(&mut root, &p);
    assert_eq!(keys(&root), vec![2, 4, 4, 6]);
    assert_eq!(key_at(&root, &find(&root, 4).unwrap()), 4);
}

#[test]
fn delete_last_node_empties_the_tree() {
    let mut root = build(&[1]);
    BstNode::delete(&mut root, &NodePath::root());
    assert!(root.is_none());
}

#[test]
fn node_matches() {
    let a = BstNode::new(3);
    let mut b = BstNode::new(3);
    b.add_left_child(1);
    let c = BstNode::new(4);
    assert!(BstNode::is_node_match(&a, &b));
    assert!(!BstNode::is_node_match(&a, &c));
    assert!(BstNode::is_node_match_option(None, None));
    assert!(BstNode::is_node_match_option(Some(&a), Some(&b)));
    assert!(!BstNode::is_node_match_option(Some(&a), Some(&c)));
    assert!(!BstNode::is_node_match_option(Some(&a), None));
    assert!(!BstNode::is_node_match_option(None, Some(&a)));
    assert!(BstNode::is_nil(&None));
    assert!(!BstNode::is_nil(&Some(Box::new(a))));
}

#[test]
fn scenario_eleven_keys() {
    let mut root = sample();
    let r = root.as_ref().unwrap();
    assert_eq!(key_at(&root, &r.minimum()), 2);
    assert_eq!(key_at(&root, &r.maximum()), 20);
    assert!(r.tree_search(&22).is_none());
    let two = r.tree_search(&2).unwrap();
    let next = r.tree_successor(&two).unwrap();
    assert_eq!(key_at(&root, &next), 3);
    let twenty = r.tree_search(&20).unwrap();
    assert!(r.tree_successor(&twenty).is_none());
    let top = r.tree_search(&15).unwrap();
    assert!(top.steps.is_empty());
    BstNode::delete(&mut root, &top);
    assert!(find(&root, 15).is_none());
    let nine = find(&root, 9).unwrap();
    assert_eq!(key_at(&root, &nine), 9);
    assert_eq!(root.as_ref().unwrap().key, 17);
    assert_eq!(keys(&root), vec![2, 3, 4, 6, 7, 9, 13, 17, 18, 20]);
}
