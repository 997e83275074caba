//! The operations on trees.
use vstd::prelude::*;
use crate::model::{
    BstNode, link_of, leaf, inorder, is_bst, child, subtree_at, valid_path, replace_at, position,
    min_path, max_path, prepend, search_path, inserted, first_left_turn, successor_path,
    without_root, deleted, insert_index, root_of,
};
use crate::path::NodePath;
use crate::laws::{
    lemma_nothing_below_nothing, lemma_prepend_nothing, lemma_prepend_step, lemma_replace_twice,
    lemma_min_path_valid, lemma_max_path_valid, lemma_insert_keys, lemma_insert_keeps_order,
    lemma_delete_keys, lemma_delete_keeps_order, lemma_search_finds_key,
    lemma_search_finds_present, lemma_successor_is_next, lemma_root_of,
};

verus! {

impl BstNode {
    /// A node without children.
    pub fn new(key: i32) -> (n: BstNode)
        ensures
            n == leaf(key),
    {
        BstNode { key, left: None, right: None }
    }

    /// A tree of one node.
    pub fn new_bst_nodelink(value: i32) -> (t: Box<BstNode>)
        ensures
            *t == leaf(value),
    {
        Box::new(BstNode::new(value))
    }

    /// A copy of this node and of everything below it.
    pub fn get_bst_nodelink_copy(&self) -> (c: Box<BstNode>)
        ensures
            *c == *self,
        decreases *self,
    {
        let left = match &self.left {
            None => None,
            Some(l) => Some(l.get_bst_nodelink_copy()),
        };
        let right = match &self.right {
            None => None,
            Some(r) => Some(r.get_bst_nodelink_copy()),
        };
        Box::new(BstNode { key: self.key, left, right })
    }

    /// Hangs a new leaf for `value` to the left of this node, in place of
    /// what was there.
    pub fn add_left_child(&mut self, value: i32)
        ensures
            final(self).left == link_of(leaf(value)),
            final(self).key == old(self).key,
            final(self).right == old(self).right,
    {
        self.left = Some(BstNode::new_bst_nodelink(value));
    }

    /// Hangs a new leaf for `value` to the right of this node, in place of
    /// what was there.
    pub fn add_right_child(&mut self, value: i32)
        ensures
            final(self).right == link_of(leaf(value)),
            final(self).key == old(self).key,
            final(self).left == old(self).left,
    {
        self.right = Some(BstNode::new_bst_nodelink(value));
    }

    /// The node that `p` leads to from this one, if there is one.
    pub fn node_at(&self, p: &NodePath) -> (r: Option<&BstNode>)
        ensures
            match r {
                Some(n) => subtree_at(link_of(*self), p@) == link_of(*n),
                None => subtree_at(link_of(*self), p@) is None,
            },
    {
        let mut cur: &BstNode = self;
        let mut i: usize = 0;
        proof {
            assert(p@.skip(0) =~= p@);
        }
        while i < p.steps.len()
            invariant
                i <= p.steps.len(),
                subtree_at(link_of(*self), p@) == subtree_at(link_of(*cur), p@.skip(i as int)),
            decreases p.steps.len() - i,
        {
            let next = if p.steps[i] { &cur.right } else { &cur.left };
            proof {
                assert(p@.skip(i as int).drop_first() =~= p@.skip(i as int + 1));
                assert(p@.skip(i as int)[0] == p@[i as int]);
            }
            match next {
                None => {
                    proof {
                        lemma_nothing_below_nothing(p@.skip(i as int + 1));
                    }
                    return None;
                },
                Some(n) => {
                    cur = n;
                },
            }
            i += 1;
        }
        Some(cur)
    }

    /// Looks for `value` from this node down. The search goes left where
    /// `value` is smaller than the key and there is a left subtree, and right
    /// otherwise; it ends at the first node whose key is `value`.
    pub fn tree_search(&self, value: &i32) -> (r: Option<NodePath>)
        ensures
            r is Some == search_path(link_of(*self), *value) is Some,
            r is Some ==> r.unwrap()@ == search_path(link_of(*self), *value).unwrap(),
            r is Some ==> valid_path(link_of(*self), r.unwrap()@) && subtree_at(
                link_of(*self),
                r.unwrap()@,
            ).unwrap().key == *value,
            r is Some ==> inorder(link_of(*self)).contains(*value),
            is_bst(link_of(*self)) && inorder(link_of(*self)).contains(*value) ==> r is Some,
    {
        proof {
            let t = link_of(*self);
            if search_path(t, *value) is Some {
                lemma_search_finds_key(t, *value);
            }
            if is_bst(t) && inorder(t).contains(*value) {
                lemma_search_finds_present(t, *value);
            }
        }
        let mut cur: &BstNode = self;
        let mut steps: Vec<bool> = Vec::new();
        proof {
            lemma_prepend_nothing(search_path(link_of(*cur), *value));
        }
        loop
            invariant
                search_path(link_of(*self), *value) == prepend(steps@, search_path(link_of(*cur), *value)),
                search_path(link_of(*self), *value) is Some ==> {
                    &&& valid_path(link_of(*self), search_path(link_of(*self), *value).unwrap())
                    &&& subtree_at(link_of(*self), search_path(link_of(*self), *value).unwrap()).unwrap().key
                        == *value
                    &&& inorder(link_of(*self)).contains(*value)
                },
                is_bst(link_of(*self)) && inorder(link_of(*self)).contains(*value) ==> search_path(
                    link_of(*self),
                    *value,
                ) is Some,
            decreases inorder(link_of(*cur)).len(),
        {
            if cur.key == *value {
                proof {
                    assert(steps@ + Seq::<bool>::empty() =~= steps@);
                }
                return Some(NodePath { steps });
            }
            let ghost before = steps@;
            if *value < cur.key && cur.left.is_some() {
                let next: &BstNode = cur.left.as_ref().unwrap();
                proof {
                    lemma_prepend_step(before, false, search_path(cur.left, *value));
                }
                steps.push(false);
                cur = next;
            } else if cur.right.is_some() {
                let next: &BstNode = cur.right.as_ref().unwrap();
                proof {
                    lemma_prepend_step(before, true, search_path(cur.right, *value));
                }
                steps.push(true);
                cur = next;
            } else {
                return None;
            }
        }
    }

    /// The leftmost node from this one down.
    pub fn minimum(&self) -> (p: NodePath)
        ensures
            p@ == min_path(link_of(*self)),
            valid_path(link_of(*self), p@),
            position(link_of(*self), p@) == 0,
    {
        proof {
            lemma_min_path_valid(link_of(*self));
        }
        let mut cur: &BstNode = self;
        let mut steps: Vec<bool> = Vec::new();
        proof {
            assert(steps@ + min_path(link_of(*cur)) =~= min_path(link_of(*cur)));
        }
        while cur.left.is_some()
            invariant
                min_path(link_of(*self)) == steps@ + min_path(link_of(*cur)),
            decreases inorder(link_of(*cur)).len(),
        {
            let next: &BstNode = cur.left.as_ref().unwrap();
            proof {
                assert(steps@ + (seq![false] + min_path(cur.left)) =~= steps@.push(false) + min_path(link_of(*next)));
            }
            steps.push(false);
            cur = next;
        }
        proof {
            assert(steps@ + Seq::<bool>::empty() =~= steps@);
        }
        NodePath { steps }
    }

    /// The rightmost node from this one down.
    pub fn maximum(&self) -> (p: NodePath)
        ensures
            p@ == max_path(link_of(*self)),
            valid_path(link_of(*self), p@),
            position(link_of(*self), p@) == inorder(link_of(*self)).len() - 1,
    {
        proof {
            lemma_max_path_valid(link_of(*self));
        }
        let mut cur: &BstNode = self;
        let mut steps: Vec<bool> = Vec::new();
        proof {
            assert(steps@ + max_path(link_of(*cur)) =~= max_path(link_of(*cur)));
        }
        while cur.right.is_some()
            invariant
                max_path(link_of(*self)) == steps@ + max_path(link_of(*cur)),
            decreases inorder(link_of(*cur)).len(),
        {
            let next: &BstNode = cur.right.as_ref().unwrap();
            proof {
                assert(steps@ + (seq![true] + max_path(cur.right)) =~= steps@.push(true) + max_path(link_of(*next)));
            }
            steps.push(true);
            cur = next;
        }
        proof {
            assert(steps@ + Seq::<bool>::empty() =~= steps@);
        }
        NodePath { steps }
    }

    /// The root of the tree that `node` is in: the end of the way up from
    /// parent to parent.
    pub fn get_root(node: &NodePath) -> (r: NodePath)
        ensures
            r@ == root_of(node@),
            r@.len() == 0,
    {
        proof {
            lemma_root_of(node@);
        }
        let mut cur = node.duplicate();
        while cur.steps.len() > 0
            invariant
                root_of(cur@) == root_of(node@),
            decreases cur@.len(),
        {
            cur.steps.pop();
        }
        cur
    }

    /// The node that follows `x_node` in order, or `None` where `x_node` is
    /// the last. With a right subtree it is that subtree's leftmost node;
    /// without one, the nearest node above that has `x_node` to its left.
    pub fn tree_successor(&self, x_node: &NodePath) -> (r: Option<NodePath>)
        requires
            valid_path(link_of(*self), x_node@),
        ensures
            r is Some == successor_path(link_of(*self), x_node@) is Some,
            r is Some ==> r.unwrap()@ == successor_path(link_of(*self), x_node@).unwrap(),
            match r {
                Some(q) => valid_path(link_of(*self), q@) && position(link_of(*self), q@) == position(
                    link_of(*self),
                    x_node@,
                ) + 1,
                None => position(link_of(*self), x_node@) == inorder(link_of(*self)).len() - 1,
            },
            r is None <==> position(link_of(*self), x_node@) == inorder(link_of(*self)).len() - 1,
    {
        proof {
            lemma_successor_is_next(link_of(*self), x_node@);
        }
        let node = self.node_at(x_node).unwrap();
        if let Some(right) = &node.right {
            let down = right.minimum();
            let mut steps = x_node.duplicate().steps;
            steps.push(true);
            append_steps(&mut steps, &down.steps);
            return Some(NodePath { steps });
        }
        let mut cur = x_node.duplicate();
        while cur.is_right_child()
            invariant
                first_left_turn(cur@) == first_left_turn(x_node@),
            decreases cur@.len(),
        {
            cur.steps.pop();
        }
        cur.parent()
    }

    /// The same node as `tree_successor` gives, found on the way down from
    /// the root: without a right subtree it is the node at the last left turn
    /// of the path.
    pub fn tree_successor_simpler(&self, x_node: &NodePath) -> (r: Option<NodePath>)
        requires
            valid_path(link_of(*self), x_node@),
        ensures
            r is Some == successor_path(link_of(*self), x_node@) is Some,
            r is Some ==> r.unwrap()@ == successor_path(link_of(*self), x_node@).unwrap(),
            match r {
                Some(q) => valid_path(link_of(*self), q@) && position(link_of(*self), q@) == position(
                    link_of(*self),
                    x_node@,
                ) + 1,
                None => position(link_of(*self), x_node@) == inorder(link_of(*self)).len() - 1,
            },
            r is None <==> position(link_of(*self), x_node@) == inorder(link_of(*self)).len() - 1,
    {
        proof {
            lemma_successor_is_next(link_of(*self), x_node@);
        }
        let node = self.node_at(x_node).unwrap();
        if !BstNode::is_nil(&node.right) {
            let down = node.right.as_ref().unwrap().minimum();
            let mut steps = x_node.duplicate().steps;
            steps.push(true);
            append_steps(&mut steps, &down.steps);
            return Some(NodePath { steps });
        }
        let mut found: bool = false;
        let mut turn: usize = 0;
        let mut i: usize = 0;
        proof {
            assert(x_node@.take(0).len() == 0);
        }
        while i < x_node.steps.len()
            invariant
                i <= x_node.steps.len(),
                found ==> turn < i,
                found == first_left_turn(x_node@.take(i as int)) is Some,
                found ==> first_left_turn(x_node@.take(i as int)).unwrap() == x_node@.take(turn as int),
            decreases x_node.steps.len() - i,
        {
            proof {
                assert(x_node@.take(i as int + 1).drop_last() =~= x_node@.take(i as int));
                assert(x_node@.take(i as int + 1).last() == x_node@[i as int]);
            }
            if !x_node.steps[i] {
                found = true;
                turn = i;
            }
            i += 1;
        }
        proof {
            assert(x_node@.take(i as int) =~= x_node@);
        }
        if !found {
            return None;
        }
        let mut steps: Vec<bool> = Vec::new();
        let mut j: usize = 0;
        while j < turn
            invariant
                j <= turn,
                turn < x_node.steps.len(),
                steps@ == x_node@.take(j as int),
            decreases turn - j,
        {
            steps.push(x_node.steps[j]);
            j += 1;
            proof {
                assert(steps@ =~= x_node@.take(j as int));
            }
        }
        Some(NodePath { steps })
    }

    /// Whether there is no node.
    pub fn is_nil(node: &Option<Box<BstNode>>) -> (b: bool)
        ensures
            b == (*node is None),
    {
        node.is_none()
    }

    /// Whether the two nodes have the same key.
    pub fn is_node_match(anode: &BstNode, bnode: &BstNode) -> (b: bool)
        ensures
            b == (anode.key == bnode.key),
    {
        anode.key == bnode.key
    }

    /// Whether both are absent, or both are there with the same key.
    pub fn is_node_match_option(node1: Option<&BstNode>, node2: Option<&BstNode>) -> (b: bool)
        ensures
            b == match (node1, node2) {
                (None, None) => true,
                (Some(a), Some(c)) => a.key == c.key,
                _ => false,
            },
    {
        match (node1, node2) {
            (None, None) => true,
            (Some(a), Some(c)) => BstNode::is_node_match(a, c),
            _ => false,
        }
    }

    /// Puts `v` in the place of the subtree at `u` and hands back what was
    /// there. Where `u` leads nowhere in the tree, the tree stays as it is.
    pub fn transplant(root: &mut Option<Box<BstNode>>, u: &NodePath, v: Option<Box<BstNode>>) -> (detached: Option<Box<BstNode>>)
        ensures
            *final(root) == replace_at(*old(root), u@, v),
            detached == subtree_at(*old(root), u@),
    {
        proof {
            assert(u@.skip(0) =~= u@);
        }
        transplant_from(root, &u.steps, 0, v)
    }

    /// Takes the node at `z` out of the tree. A node without a left subtree
    /// gives its place to its right subtree, one without a right subtree to
    /// its left subtree. Otherwise the leftmost node `y` of its right subtree
    /// takes its place: `y` first gives its own place to its right subtree,
    /// unless it is the right child of `z`, and then takes over both
    /// subtrees of `z`.
    pub fn delete(root: &mut Option<Box<BstNode>>, z: &NodePath)
        requires
            valid_path(*old(root), z@),
        ensures
            *final(root) == deleted(*old(root), z@),
            0 <= position(*old(root), z@) < inorder(*old(root)).len(),
            inorder(*final(root)) == inorder(*old(root)).remove(position(*old(root), z@)),
            inorder(*final(root)).len() == inorder(*old(root)).len() - 1,
            is_bst(*old(root)) ==> is_bst(*final(root)),
    {
        let ghost before = *root;
        proof {
            lemma_delete_keys(before, z@);
            if is_bst(before) {
                lemma_delete_keeps_order(before, z@);
            }
        }
        let mut z_node = BstNode::transplant(root, z, None).unwrap();
        let z_left = z_node.left.take();
        let z_right = z_node.right.take();
        proof {
            lemma_replace_twice(before, z@, None, without_root(subtree_at(before, z@)));
        }
        if z_left.is_none() {
            BstNode::transplant(root, z, z_right);
        } else if z_right.is_none() {
            BstNode::transplant(root, z, z_left);
        } else {
            let mut rest = z_right;
            let ghost right = rest;
            let y_path = rest.as_ref().unwrap().minimum();
            proof {
                lemma_min_path_valid(right);
            }
            let mut y: Box<BstNode>;
            if y_path.steps.len() > 0 {
                y = BstNode::transplant(&mut rest, &y_path, None).unwrap();
                let y_right = y.right.take();
                BstNode::transplant(&mut rest, &y_path, y_right);
                proof {
                    lemma_replace_twice(right, y_path@, None, y_right);
                }
                y.right = rest;
            } else {
                y = rest.unwrap();
            }
            y.left = z_left;
            BstNode::transplant(root, z, Some(y));
        }
    }

    /// Puts `key` into the tree below this node, which stays the root.
    pub fn tree_insert(&mut self, key: i32)
        ensures
            link_of(*final(self)) == inserted(link_of(*old(self)), key),
            inorder(link_of(*final(self))) == inorder(link_of(*old(self))).insert(
                insert_index(link_of(*old(self)), key),
                key,
            ),
            is_bst(link_of(*old(self))) ==> is_bst(link_of(*final(self))),
    {
        proof {
            lemma_insert_keys(link_of(*old(self)), key);
            if is_bst(link_of(*old(self))) {
                lemma_insert_keeps_order(link_of(*old(self)), key);
            }
        }
        if key < self.key {
            BstNode::insert(&mut self.left, key);
        } else {
            BstNode::insert(&mut self.right, key);
        }
    }

    /// The keys from this node down, from left to right.
    pub fn in_order(&self) -> (keys: Vec<i32>)
        ensures
            keys@ == inorder(link_of(*self)),
        decreases *self,
    {
        let mut keys: Vec<i32> = match &self.left {
            None => Vec::new(),
            Some(l) => l.in_order(),
        };
        keys.push(self.key);
        match &self.right {
            None => {
                proof {
                    assert(inorder(self.right) =~= Seq::<i32>::empty());
                }
            },
            Some(r) => {
                let mut more = r.in_order();
                keys.append(&mut more);
            },
        }
        proof {
            assert(keys@ =~= inorder(self.left).push(self.key) + inorder(self.right));
        }
        keys
    }

    /// Puts `key` into the tree: left of every larger key on the way down,
    /// right of the others.
    pub fn insert(root: &mut Option<Box<BstNode>>, key: i32)
        ensures
            *final(root) == inserted(*old(root), key),
            0 <= insert_index(*old(root), key) <= inorder(*old(root)).len(),
            inorder(*final(root)) == inorder(*old(root)).insert(insert_index(*old(root), key), key),
            inorder(*final(root)).len() == inorder(*old(root)).len() + 1,
            is_bst(*old(root)) ==> is_bst(*final(root)),
        decreases *old(root),
    {
        proof {
            lemma_insert_keys(*old(root), key);
            if is_bst(*old(root)) {
                lemma_insert_keeps_order(*old(root), key);
            }
        }
        match root.take() {
            None => {
                *root = Some(BstNode::new_bst_nodelink(key));
            },
            Some(mut node) => {
                if key < node.key {
                    BstNode::insert(&mut node.left, key);
                } else {
                    BstNode::insert(&mut node.right, key);
                }
                *root = Some(node);
            },
        }
    }
}

fn append_steps(steps: &mut Vec<bool>, more: &Vec<bool>)
    ensures
        final(steps)@ == old(steps)@ + more@,
{
    let mut i: usize = 0;
    proof {
        assert(steps@ =~= old(steps)@ + more@.take(0));
    }
    while i < more.len()
        invariant
            i <= more.len(),
            steps@ == old(steps)@ + more@.take(i as int),
        decreases more.len() - i,
    {
        steps.push(more[i]);
        i += 1;
        proof {
            assert(steps@ =~= old(steps)@ + more@.take(i as int));
        }
    }
    proof {
        assert(more@.take(i as int) =~= more@);
    }
}

fn transplant_from(root: &mut Option<Box<BstNode>>, steps: &Vec<bool>, i: usize, v: Option<Box<BstNode>>) -> (detached: Option<Box<BstNode>>)
    requires
        i <= steps.len(),
    ensures
        *final(root) == replace_at(*old(root), steps@.skip(i as int), v),
        detached == subtree_at(*old(root), steps@.skip(i as int)),
    decreases steps.len() - i,
{
    if i == steps.len() {
        let there = root.take();
        *root = v;
        there
    } else {
        proof {
            assert(steps@.skip(i as int).drop_first() =~= steps@.skip(i as int + 1));
            assert(steps@.skip(i as int)[0] == steps@[i as int]);
        }
        match root.take() {
            None => {
                proof {
                    lemma_nothing_below_nothing(steps@.skip(i as int + 1));
                }
                None
            },
            Some(mut node) => {
                let there = if steps[i] {
                    transplant_from(&mut node.right, steps, i + 1, v)
                } else {
                    transplant_from(&mut node.left, steps, i + 1, v)
                };
                *root = Some(node);
                there
            },
        }
    }
}

} // verus!
