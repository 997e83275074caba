//! The tree as a mathematical object: its keys in order, the subtree that a
//! path leads to, and what each operation makes of a tree.
use vstd::prelude::*;

verus! {

/// A node with its key and the two subtrees it owns.
#[derive(Debug)]
pub struct BstNode {
    pub key: i32,
    pub left: Option<Box<BstNode>>,
    pub right: Option<Box<BstNode>>,
}

/// An owning link to a subtree; `None` is the empty tree.
pub type BstNodeLink = Option<Box<BstNode>>;

/// The tree that consists of `n` and everything below it.
pub open spec fn link_of(n: BstNode) -> BstNodeLink {
    Some(Box::new(n))
}

/// A node without children.
pub open spec fn leaf(key: i32) -> BstNode {
    BstNode { key, left: None, right: None }
}

/// The keys of `t` from left to right.
pub open spec fn inorder(t: BstNodeLink) -> Seq<i32>
    decreases t,
{
    match t {
        None => Seq::empty(),
        Some(n) => inorder(n.left).push(n.key) + inorder(n.right),
    }
}

/// No key is followed by a smaller one.
pub open spec fn sorted(s: Seq<i32>) -> bool {
    forall|i: int, j: int| 0 <= i < j < s.len() ==> s[i] <= s[j]
}

/// At every node the keys to the left are smaller than the node's key, and
/// the keys to the right are not.
pub open spec fn is_bst(t: BstNodeLink) -> bool
    decreases t,
{
    match t {
        None => true,
        Some(n) => {
            &&& is_bst(n.left)
            &&& is_bst(n.right)
            &&& forall|i: int| 0 <= i < inorder(n.left).len() ==> #[trigger] inorder(n.left)[i] < n.key
            &&& forall|i: int| 0 <= i < inorder(n.right).len() ==> #[trigger] inorder(n.right)[i] >= n.key
        },
    }
}

/// The left (`false`) or right (`true`) subtree of the root of `t`.
pub open spec fn child(t: BstNodeLink, right: bool) -> BstNodeLink {
    match t {
        None => None,
        Some(n) => if right { n.right } else { n.left },
    }
}

/// The subtree reached from the root of `t` by the turns of `p`.
pub open spec fn subtree_at(t: BstNodeLink, p: Seq<bool>) -> BstNodeLink
    decreases p.len(),
{
    if p.len() == 0 {
        t
    } else {
        subtree_at(child(t, p[0]), p.drop_first())
    }
}

/// `p` leads to a node of `t`.
pub open spec fn valid_path(t: BstNodeLink, p: Seq<bool>) -> bool {
    subtree_at(t, p) is Some
}

/// `t` with the subtree at `p` replaced by `v`.
pub open spec fn replace_at(t: BstNodeLink, p: Seq<bool>, v: BstNodeLink) -> BstNodeLink
    decreases p.len(),
{
    if p.len() == 0 {
        v
    } else {
        match t {
            None => None,
            Some(n) => if p[0] {
                link_of(BstNode { key: n.key, left: n.left, right: replace_at(n.right, p.drop_first(), v) })
            } else {
                link_of(BstNode { key: n.key, left: replace_at(n.left, p.drop_first(), v), right: n.right })
            },
        }
    }
}

/// How many keys of `t` come before the subtree at `p`.
pub open spec fn offset(t: BstNodeLink, p: Seq<bool>) -> int
    decreases p.len(),
{
    if p.len() == 0 {
        0
    } else if p[0] {
        inorder(child(t, false)).len() + 1 + offset(child(t, true), p.drop_first())
    } else {
        offset(child(t, false), p.drop_first())
    }
}

/// The index in `inorder(t)` of the key of the node at `p`.
pub open spec fn position(t: BstNodeLink, p: Seq<bool>) -> int {
    offset(t, p) + inorder(child(subtree_at(t, p), false)).len()
}

/// The index in `inorder(t)` just behind the last key of the subtree at `p`.
pub open spec fn end_of(t: BstNodeLink, p: Seq<bool>) -> int {
    offset(t, p) + inorder(subtree_at(t, p)).len()
}

/// The path of left turns from the root of `t` to its leftmost node.
pub open spec fn min_path(t: BstNodeLink) -> Seq<bool>
    decreases t,
{
    match t {
        None => Seq::empty(),
        Some(n) => match n.left {
            None => Seq::empty(),
            Some(_) => seq![false] + min_path(n.left),
        },
    }
}

/// The path of right turns from the root of `t` to its rightmost node.
pub open spec fn max_path(t: BstNodeLink) -> Seq<bool>
    decreases t,
{
    match t {
        None => Seq::empty(),
        Some(n) => match n.right {
            None => Seq::empty(),
            Some(_) => seq![true] + max_path(n.right),
        },
    }
}

/// `r` with `p` put in front of it, where there is an `r`.
pub open spec fn prepend(p: Seq<bool>, r: Option<Seq<bool>>) -> Option<Seq<bool>> {
    match r {
        None => None,
        Some(q) => Some(p + q),
    }
}

/// The path to the node that a search for `value` in `t` ends at. The search
/// goes left where `value` is smaller than the key and there is a left
/// subtree, and right otherwise.
pub open spec fn search_path(t: BstNodeLink, value: i32) -> Option<Seq<bool>>
    decreases t,
{
    match t {
        None => None,
        Some(n) => if n.key == value {
            Some(Seq::empty())
        } else if value < n.key && n.left is Some {
            prepend(seq![false], search_path(n.left, value))
        } else if n.right is Some {
            prepend(seq![true], search_path(n.right, value))
        } else {
            None
        },
    }
}

/// `t` with a new leaf for `key`: left of every key that is larger on the
/// way down, right of the others.
pub open spec fn inserted(t: BstNodeLink, key: i32) -> BstNodeLink
    decreases t,
{
    match t {
        None => link_of(leaf(key)),
        Some(n) => if key < n.key {
            link_of(BstNode { key: n.key, left: inserted(n.left, key), right: n.right })
        } else {
            link_of(BstNode { key: n.key, left: n.left, right: inserted(n.right, key) })
        },
    }
}

/// Where `key` comes to stand among the keys of `t` when it is put in.
pub open spec fn insert_index(t: BstNodeLink, key: i32) -> int
    decreases t,
{
    match t {
        None => 0,
        Some(n) => if key < n.key {
            insert_index(n.left, key)
        } else {
            inorder(n.left).len() + 1 + insert_index(n.right, key)
        },
    }
}

/// The end of the way up from `p`, from parent to parent.
pub open spec fn root_of(p: Seq<bool>) -> Seq<bool>
    decreases p.len(),
{
    if p.len() == 0 {
        p
    } else {
        root_of(p.drop_last())
    }
}

/// The way up from `p`: the nearest node above `p` that has `p` in its left
/// subtree.
pub open spec fn first_left_turn(p: Seq<bool>) -> Option<Seq<bool>>
    decreases p.len(),
{
    if p.len() == 0 {
        None
    } else if !p.last() {
        Some(p.drop_last())
    } else {
        first_left_turn(p.drop_last())
    }
}

/// The path to the node that follows the node at `p` in order.
pub open spec fn successor_path(t: BstNodeLink, p: Seq<bool>) -> Option<Seq<bool>> {
    let right = child(subtree_at(t, p), true);
    if right is Some {
        Some(p.push(true) + min_path(right))
    } else {
        first_left_turn(p)
    }
}

/// What takes the place of the root of `t` when that root is removed.
pub open spec fn without_root(t: BstNodeLink) -> BstNodeLink {
    match t {
        None => None,
        Some(z) => if z.left is None {
            z.right
        } else if z.right is None {
            z.left
        } else {
            let m = min_path(z.right);
            let y = subtree_at(z.right, m).unwrap();
            link_of(BstNode { key: y.key, left: z.left, right: replace_at(z.right, m, y.right) })
        },
    }
}

/// `t` without the node at `p`.
pub open spec fn deleted(t: BstNodeLink, p: Seq<bool>) -> BstNodeLink {
    replace_at(t, p, without_root(subtree_at(t, p)))
}

/// One change to a tree: a key put in, or the node at a path taken out.
pub enum Change {
    Insert(i32),
    Delete(Seq<bool>),
}

/// `t` after the change `c`.
pub open spec fn changed(t: BstNodeLink, c: Change) -> BstNodeLink {
    match c {
        Change::Insert(key) => inserted(t, key),
        Change::Delete(p) => deleted(t, p),
    }
}

/// `t` after the changes `cs`, made in turn.
pub open spec fn changed_by_all(t: BstNodeLink, cs: Seq<Change>) -> BstNodeLink
    decreases cs.len(),
{
    if cs.len() == 0 {
        t
    } else {
        changed(changed_by_all(t, cs.drop_last()), cs.last())
    }
}

/// Every deletion among `cs` names a node of the tree as it then is.
pub open spec fn applicable(t: BstNodeLink, cs: Seq<Change>) -> bool
    decreases cs.len(),
{
    cs.len() == 0 || {
        &&& applicable(t, cs.drop_last())
        &&& match cs.last() {
            Change::Insert(_) => true,
            Change::Delete(p) => valid_path(changed_by_all(t, cs.drop_last()), p),
        }
    }
}

} // verus!
