//! References to nodes.
use vstd::prelude::*;

verus! {

/// A reference to a node that owns nothing: the turns from the root to the
/// node, `false` for left and `true` for right.
#[derive(Debug)]
pub struct NodePath {
    pub steps: Vec<bool>,
}

impl View for NodePath {
    type V = Seq<bool>;

    open spec fn view(&self) -> Seq<bool> {
        self.steps@
    }
}

impl NodePath {
    /// The reference to the root.
    pub fn root() -> (p: NodePath)
        ensures
            p@ == Seq::<bool>::empty(),
    {
        NodePath { steps: Vec::new() }
    }

    /// A reference to the same node.
    pub fn duplicate(&self) -> (p: NodePath)
        ensures
            p@ == self@,
    {
        let mut steps: Vec<bool> = Vec::new();
        let mut i: usize = 0;
        while i < self.steps.len()
            invariant
                i <= self.steps.len(),
                steps@ == self.steps@.take(i as int),
            decreases self.steps.len() - i,
        {
            steps.push(self.steps[i]);
            i += 1;
            proof {
                assert(steps@ =~= self.steps@.take(i as int));
            }
        }
        proof {
            assert(self.steps@.take(i as int) =~= self.steps@);
        }
        NodePath { steps }
    }

    /// The reference to the left child of the node.
    pub fn left(&self) -> (p: NodePath)
        ensures
            p@ == self@.push(false),
            p@.drop_last() == self@,
    {
        let mut down = self.duplicate();
        down.steps.push(false);
        proof {
            assert(down@.drop_last() =~= self@);
        }
        down
    }

    /// The reference to the right child of the node.
    pub fn right(&self) -> (p: NodePath)
        ensures
            p@ == self@.push(true),
            p@.drop_last() == self@,
    {
        let mut down = self.duplicate();
        down.steps.push(true);
        proof {
            assert(down@.drop_last() =~= self@);
        }
        down
    }

    /// The parent of the node, or `None` for the root.
    pub fn parent(&self) -> (p: Option<NodePath>)
        ensures
            self@.len() == 0 ==> p is None,
            self@.len() > 0 ==> p is Some && p.unwrap()@ == self@.drop_last(),
    {
        if self.steps.len() == 0 {
            None
        } else {
            let mut up = self.duplicate();
            up.steps.pop();
            Some(up)
        }
    }

    /// Whether the node is the right child of its parent.
    pub fn is_right_child(&self) -> (b: bool)
        ensures
            b == (self@.len() > 0 && self@.last()),
    {
        self.steps.len() > 0 && self.steps[self.steps.len() - 1]
    }

    /// Whether the node is the left child of its parent.
    pub fn is_left_child(&self) -> (b: bool)
        ensures
            b == (self@.len() > 0 && !self@.last()),
    {
        self.steps.len() > 0 && !self.steps[self.steps.len() - 1]
    }
}

} // verus!
