//! What holds of the operations, proved over the model.
use vstd::prelude::*;
use crate::model::{
    BstNodeLink, inorder, sorted, is_bst, child, subtree_at, valid_path, replace_at, offset,
    position, end_of, min_path, max_path, prepend, search_path, inserted, first_left_turn,
    successor_path, without_root, deleted, insert_index, root_of, Change, changed_by_all,
    applicable,
};

verus! {

/// The keys of a search tree come out in non-decreasing order.
pub proof fn lemma_bst_sorted(t: BstNodeLink)
    requires
        is_bst(t),
    ensures
        sorted(inorder(t)),
    decreases t,
{
    match t {
        None => {},
        Some(n) => {
            lemma_bst_sorted(n.left);
            lemma_bst_sorted(n.right);
        },
    }
}

/// No path leads anywhere from the empty tree.
pub proof fn lemma_nothing_below_nothing(p: Seq<bool>)
    ensures
        subtree_at(None, p) is None,
    decreases p.len(),
{
    if p.len() > 0 {
        lemma_nothing_below_nothing(p.drop_first());
    }
}

/// Putting nothing in front of a path leaves it as it is.
pub proof fn lemma_prepend_nothing(r: Option<Seq<bool>>)
    ensures
        prepend(Seq::empty(), r) == r,
{
    if r is Some {
        assert(Seq::<bool>::empty() + r.unwrap() =~= r.unwrap());
    }
}

/// Putting `p` in front of a path that begins with the turn `d` is putting
/// `p` with `d` behind it in front of the rest.
pub proof fn lemma_prepend_step(p: Seq<bool>, d: bool, r: Option<Seq<bool>>)
    ensures
        prepend(p, prepend(seq![d], r)) == prepend(p.push(d), r),
{
    if r is Some {
        assert(p + (seq![d] + r.unwrap()) =~= p.push(d) + r.unwrap());
    }
}

/// Of two replacements at one place only the second shows.
pub proof fn lemma_replace_twice(t: BstNodeLink, p: Seq<bool>, a: BstNodeLink, b: BstNodeLink)
    ensures
        replace_at(replace_at(t, p, a), p, b) == replace_at(t, p, b),
    decreases p.len(),
{
    if p.len() > 0 {
        lemma_replace_twice(child(t, p[0]), p.drop_first(), a, b);
    }
}

/// The path to the leftmost node leads to a node, which has nothing to its
/// left and comes first in order.
pub proof fn lemma_min_path_valid(t: BstNodeLink)
    requires
        t is Some,
    ensures
        valid_path(t, min_path(t)),
        subtree_at(t, min_path(t)).unwrap().left is None,
        offset(t, min_path(t)) == 0,
        position(t, min_path(t)) == 0,
    decreases t,
{
    let n = t.unwrap();
    if n.left is Some {
        lemma_min_path_valid(n.left);
        assert(min_path(t).drop_first() =~= min_path(n.left));
    }
}

/// A path in two parts leads to where the second part leads from the end of
/// the first, and the keys before that place are those before the end of the
/// first part and those before the place below it.
pub proof fn lemma_path_concat(t: BstNodeLink, a: Seq<bool>, b: Seq<bool>)
    ensures
        subtree_at(t, a + b) == subtree_at(subtree_at(t, a), b),
        offset(t, a + b) == offset(t, a) + offset(subtree_at(t, a), b),
    decreases a.len(),
{
    if a.len() == 0 {
        assert(a + b =~= b);
    } else {
        assert((a + b).drop_first() =~= a.drop_first() + b);
        lemma_path_concat(child(t, a[0]), a.drop_first(), b);
    }
}

/// One more turn at the end of a path leads to the child on that side.
pub proof fn lemma_path_push(t: BstNodeLink, p: Seq<bool>, d: bool)
    ensures
        subtree_at(t, p.push(d)) == child(subtree_at(t, p), d),
        offset(t, p.push(d)) == offset(t, p) + if d {
            inorder(child(subtree_at(t, p), false)).len() + 1
        } else {
            0
        },
{
    lemma_path_concat(t, p, seq![d]);
    assert(p.push(d) =~= p + seq![d]);
    let s = subtree_at(t, p);
    let one = seq![d];
    assert(one.drop_first() =~= Seq::<bool>::empty());
    assert(subtree_at(s, one) == subtree_at(child(s, d), one.drop_first()));
    assert(offset(child(s, d), one.drop_first()) == 0);
    assert(one[0] == d);
}

/// The keys of the subtree at `p` stand together in the keys of `t`, from
/// `offset` to `end_of`, and the key of the node at `p` stands at `position`.
pub proof fn lemma_subtree_keys(t: BstNodeLink, p: Seq<bool>)
    requires
        valid_path(t, p),
    ensures
        0 <= offset(t, p) <= position(t, p) < end_of(t, p) <= inorder(t).len(),
        inorder(t).subrange(offset(t, p), end_of(t, p)) == inorder(subtree_at(t, p)),
        inorder(t)[position(t, p)] == subtree_at(t, p).unwrap().key,
    decreases p.len(),
{
    if p.len() == 0 {
        assert(inorder(t).subrange(0, inorder(t).len() as int) =~= inorder(t));
    } else {
        if t is None {
            lemma_nothing_below_nothing(p);
        }
        let n = t.unwrap();
        let c = child(t, p[0]);
        let rest = p.drop_first();
        lemma_subtree_keys(c, rest);
        let shift = offset(t, p) - offset(c, rest);
        assert(inorder(t).subrange(offset(t, p), end_of(t, p)) =~= inorder(c).subrange(
            offset(c, rest),
            end_of(c, rest),
        ));
        assert(inorder(t)[position(t, p)] == inorder(c)[position(c, rest)]);
    }
}

/// Replacing the subtree at `p` replaces its keys, where they stand, by the
/// keys of the new subtree.
pub proof fn lemma_replace_keys(t: BstNodeLink, p: Seq<bool>, v: BstNodeLink)
    requires
        valid_path(t, p),
    ensures
        inorder(replace_at(t, p, v)) == inorder(t).subrange(0, offset(t, p)) + inorder(v)
            + inorder(t).subrange(end_of(t, p), inorder(t).len() as int),
    decreases p.len(),
{
    lemma_subtree_keys(t, p);
    if p.len() == 0 {
        assert(inorder(v) =~= inorder(t).subrange(0, 0) + inorder(v) + inorder(t).subrange(
            inorder(t).len() as int,
            inorder(t).len() as int,
        ));
    } else {
        if t is None {
            lemma_nothing_below_nothing(p);
        }
        let c = child(t, p[0]);
        let rest = p.drop_first();
        lemma_replace_keys(c, rest, v);
        lemma_subtree_keys(c, rest);
        assert(inorder(replace_at(t, p, v)) =~= inorder(t).subrange(0, offset(t, p)) + inorder(v)
            + inorder(t).subrange(end_of(t, p), inorder(t).len() as int));
    }
}

/// Removing the root of a tree removes its key, and no other, from the keys.
pub proof fn lemma_without_root_keys(t: BstNodeLink)
    requires
        t is Some,
    ensures
        inorder(without_root(t)) == inorder(t).remove(inorder(child(t, false)).len() as int),
{
    let z = t.unwrap();
    if z.left is None {
        assert(inorder(z.right) =~= inorder(t).remove(0));
    } else if z.right is None {
        assert(inorder(z.right).len() == 0);
        assert(inorder(z.left) =~= inorder(t).remove(inorder(z.left).len() as int));
    } else {
        let m = min_path(z.right);
        lemma_min_path_valid(z.right);
        lemma_subtree_keys(z.right, m);
        let y = subtree_at(z.right, m).unwrap();
        lemma_replace_keys(z.right, m, y.right);
        let was = inorder(z.right);
        let now = inorder(replace_at(z.right, m, y.right));
        let below = inorder(subtree_at(z.right, m));
        assert(inorder(y.left).len() == 0);
        assert(below =~= seq![y.key] + inorder(y.right));
        assert(now.len() == was.len() - 1);
        assert forall|i: int| 0 <= i < now.len() implies now[i] == was[i + 1] by {
            if i < inorder(y.right).len() {
                assert(was.subrange(0, end_of(z.right, m))[i + 1] == below[i + 1]);
            }
        }
        assert(now =~= was.remove(0));
        assert(inorder(without_root(t)) =~= inorder(t).remove(inorder(z.left).len() as int));
    }
}

/// Deleting the node at `p` removes the key at its position, and no other:
/// one key less, the others in the order they had.
pub proof fn lemma_delete_keys(t: BstNodeLink, p: Seq<bool>)
    requires
        valid_path(t, p),
    ensures
        0 <= position(t, p) < inorder(t).len(),
        inorder(deleted(t, p)) == inorder(t).remove(position(t, p)),
        inorder(deleted(t, p)).len() == inorder(t).len() - 1,
{
    lemma_subtree_keys(t, p);
    lemma_without_root_keys(subtree_at(t, p));
    lemma_replace_keys(t, p, without_root(subtree_at(t, p)));
    assert(inorder(deleted(t, p)) =~= inorder(t).remove(position(t, p)));
}

/// Putting a key in adds it at `insert_index`, and leaves the others in the
/// order they had.
pub proof fn lemma_insert_keys(t: BstNodeLink, key: i32)
    ensures
        0 <= insert_index(t, key) <= inorder(t).len(),
        inorder(inserted(t, key)) == inorder(t).insert(insert_index(t, key), key),
    decreases t,
{
    match t {
        None => {
            assert(inorder(inserted(t, key)) =~= inorder(t).insert(0, key));
        },
        Some(n) => {
            lemma_insert_keys(n.left, key);
            lemma_insert_keys(n.right, key);
            assert(inorder(inserted(t, key)) =~= inorder(t).insert(insert_index(t, key), key));
        },
    }
}

/// Putting a key into a search tree gives a search tree.
pub proof fn lemma_insert_keeps_order(t: BstNodeLink, key: i32)
    requires
        is_bst(t),
    ensures
        is_bst(inserted(t, key)),
    decreases t,
{
    match t {
        None => {},
        Some(n) => {
            lemma_insert_keys(n.left, key);
            lemma_insert_keys(n.right, key);
            if key < n.key {
                lemma_insert_keeps_order(n.left, key);
                let was = inorder(n.left);
                let now = inorder(inserted(n.left, key));
                let at = insert_index(n.left, key);
                assert forall|i: int| 0 <= i < now.len() implies #[trigger] now[i] < n.key by {
                    if i < at {
                        assert(now[i] == was[i]);
                    } else if i > at {
                        assert(now[i] == was[i - 1]);
                    }
                }
            } else {
                lemma_insert_keeps_order(n.right, key);
                let was = inorder(n.right);
                let now = inorder(inserted(n.right, key));
                let at = insert_index(n.right, key);
                assert forall|i: int| 0 <= i < now.len() implies #[trigger] now[i] >= n.key by {
                    if i < at {
                        assert(now[i] == was[i]);
                    } else if i > at {
                        assert(now[i] == was[i - 1]);
                    }
                }
            }
        },
    }
}

/// Deleting a node of a search tree gives a search tree.
pub proof fn lemma_delete_keeps_order(t: BstNodeLink, p: Seq<bool>)
    requires
        is_bst(t),
        valid_path(t, p),
    ensures
        is_bst(deleted(t, p)),
    decreases t,
{
    if t is None {
        lemma_nothing_below_nothing(p);
    }
    let z = t.unwrap();
    if p.len() == 0 {
        if z.left is Some && z.right is Some {
            let m = min_path(z.right);
            lemma_min_path_valid(z.right);
            let y = subtree_at(z.right, m).unwrap();
            assert(without_root(subtree_at(z.right, m)) == y.right);
            assert(deleted(z.right, m) == replace_at(z.right, m, y.right));
            lemma_delete_keeps_order(z.right, m);
            lemma_delete_keys(z.right, m);
            lemma_subtree_keys(z.right, m);
            lemma_bst_sorted(z.right);
            let was = inorder(z.right);
            let now = inorder(deleted(z.right, m));
            assert(y.key == was[0]);
            assert forall|i: int| 0 <= i < now.len() implies #[trigger] now[i] >= y.key by {
                assert(now[i] == was[i + 1]);
            }
            assert forall|i: int| 0 <= i < inorder(z.left).len() implies #[trigger] inorder(z.left)[i] < y.key by {
            }
        }
    } else {
        let c = child(t, p[0]);
        let rest = p.drop_first();
        lemma_delete_keeps_order(c, rest);
        lemma_delete_keys(c, rest);
        let was = inorder(c);
        let now = inorder(deleted(c, rest));
        let at = position(c, rest);
        assert forall|i: int| 0 <= i < now.len() implies (#[trigger] now[i] == was[i] || now[i] == was[i + 1]) by {
        }
        if p[0] {
            assert forall|i: int| 0 <= i < now.len() implies #[trigger] now[i] >= z.key by {
                assert(now[i] == was[i] || now[i] == was[i + 1]);
            }
        } else {
            assert forall|i: int| 0 <= i < now.len() implies #[trigger] now[i] < z.key by {
                assert(now[i] == was[i] || now[i] == was[i + 1]);
            }
        }
    }
}

/// A search that finds something finds a node with the key looked for.
pub proof fn lemma_search_finds_key(t: BstNodeLink, value: i32)
    requires
        search_path(t, value) is Some,
    ensures
        valid_path(t, search_path(t, value).unwrap()),
        subtree_at(t, search_path(t, value).unwrap()).unwrap().key == value,
        inorder(t).contains(value),
    decreases t,
{
    let n = t.unwrap();
    let p = search_path(t, value).unwrap();
    if n.key == value {
    } else if value < n.key && n.left is Some {
        lemma_search_finds_key(n.left, value);
        assert(p.drop_first() =~= search_path(n.left, value).unwrap());
    } else {
        lemma_search_finds_key(n.right, value);
        assert(p.drop_first() =~= search_path(n.right, value).unwrap());
    }
    lemma_subtree_keys(t, p);
}

/// In a search tree a search finds every key that is there.
pub proof fn lemma_search_finds_present(t: BstNodeLink, value: i32)
    requires
        is_bst(t),
        inorder(t).contains(value),
    ensures
        search_path(t, value) is Some,
    decreases t,
{
    let i = choose|i: int| 0 <= i < inorder(t).len() && inorder(t)[i] == value;
    let n = t.unwrap();
    let l = inorder(n.left);
    let r = inorder(n.right);
    if n.key != value {
        if i < l.len() {
            assert(l[i] == value);
            lemma_search_finds_present(n.left, value);
        } else {
            assert(i > l.len());
            assert(r[i - l.len() - 1] == value);
            lemma_search_finds_present(n.right, value);
        }
    }
}

/// A key that was put into a search tree is found there.
pub proof fn lemma_inserted_is_found(t: BstNodeLink, key: i32)
    requires
        is_bst(t),
    ensures
        search_path(inserted(t, key), key) is Some,
{
    lemma_insert_keeps_order(t, key);
    lemma_insert_keys(t, key);
    assert(inorder(inserted(t, key))[insert_index(t, key)] == key);
    lemma_search_finds_present(inserted(t, key), key);
}

/// A key that is in a search tree at some node is still found after another
/// key was put in.
pub proof fn lemma_found_after_insert(t: BstNodeLink, key: i32, other: i32)
    requires
        is_bst(t),
        inorder(t).contains(key),
    ensures
        search_path(inserted(t, other), key) is Some,
{
    lemma_insert_keeps_order(t, other);
    lemma_insert_keys(t, other);
    let i = choose|i: int| 0 <= i < inorder(t).len() && inorder(t)[i] == key;
    let at = insert_index(t, other);
    let now = inorder(inserted(t, other));
    if i < at {
        assert(now[i] == key);
    } else {
        assert(now[i + 1] == key);
    }
    lemma_search_finds_present(inserted(t, other), key);
}

/// A key that is in a search tree at another node than the one deleted is
/// still found after the deletion.
pub proof fn lemma_found_after_delete(t: BstNodeLink, p: Seq<bool>, i: int)
    requires
        is_bst(t),
        valid_path(t, p),
        0 <= i < inorder(t).len(),
        i != position(t, p),
    ensures
        search_path(deleted(t, p), inorder(t)[i]) is Some,
{
    lemma_delete_keeps_order(t, p);
    lemma_delete_keys(t, p);
    let now = inorder(deleted(t, p));
    if i < position(t, p) {
        assert(now[i] == inorder(t)[i]);
    } else {
        assert(now[i - 1] == inorder(t)[i]);
    }
    lemma_search_finds_present(deleted(t, p), inorder(t)[i]);
}

/// The path to the rightmost node leads to a node, which has nothing to its
/// right and comes last in order.
pub proof fn lemma_max_path_valid(t: BstNodeLink)
    requires
        t is Some,
    ensures
        valid_path(t, max_path(t)),
        subtree_at(t, max_path(t)).unwrap().right is None,
        end_of(t, max_path(t)) == inorder(t).len(),
        position(t, max_path(t)) == inorder(t).len() - 1,
    decreases t,
{
    let n = t.unwrap();
    if n.right is Some {
        lemma_max_path_valid(n.right);
        assert(max_path(t).drop_first() =~= max_path(n.right));
        assert(max_path(t)[0]);
    } else {
        assert(inorder(n.right).len() == 0);
    }
    let last = subtree_at(t, max_path(t)).unwrap();
    assert(inorder(last.right).len() == 0);
    assert(inorder(subtree_at(t, max_path(t))).len() == inorder(last.left).len() + 1);
}

/// The key of the leftmost node of a tree is the first in order, and in a
/// search tree no key is smaller.
pub proof fn lemma_minimum_is_least(t: BstNodeLink)
    requires
        t is Some,
    ensures
        subtree_at(t, min_path(t)).unwrap().key == inorder(t)[0],
        is_bst(t) ==> forall|i: int| 0 <= i < inorder(t).len() ==> inorder(t)[0] <= #[trigger] inorder(t)[i],
{
    lemma_min_path_valid(t);
    lemma_subtree_keys(t, min_path(t));
    if is_bst(t) {
        lemma_bst_sorted(t);
    }
}

/// The key of the rightmost node of a tree is the last in order, and in a
/// search tree no key is larger.
pub proof fn lemma_maximum_is_greatest(t: BstNodeLink)
    requires
        t is Some,
    ensures
        subtree_at(t, max_path(t)).unwrap().key == inorder(t).last(),
        is_bst(t) ==> forall|i: int| 0 <= i < inorder(t).len() ==> #[trigger] inorder(t)[i] <= inorder(t).last(),
{
    lemma_max_path_valid(t);
    lemma_subtree_keys(t, max_path(t));
    if is_bst(t) {
        lemma_bst_sorted(t);
    }
}

/// The node above a node is a node.
pub proof fn lemma_parent_valid(t: BstNodeLink, p: Seq<bool>)
    requires
        valid_path(t, p),
        p.len() > 0,
    ensures
        valid_path(t, p.drop_last()),
        child(subtree_at(t, p.drop_last()), p.last()) == subtree_at(t, p),
{
    lemma_path_push(t, p.drop_last(), p.last());
    assert(p.drop_last().push(p.last()) =~= p);
}

/// On the way up from a node, the first node that has it to its left stands
/// in order just behind the keys of the node's subtree; where there is no
/// such node, those keys are the last.
pub proof fn lemma_first_left_turn(t: BstNodeLink, p: Seq<bool>)
    requires
        valid_path(t, p),
    ensures
        match first_left_turn(p) {
            Some(q) => valid_path(t, q) && position(t, q) == end_of(t, p),
            None => end_of(t, p) == inorder(t).len(),
        },
    decreases p.len(),
{
    if p.len() > 0 {
        let up = p.drop_last();
        lemma_parent_valid(t, p);
        lemma_path_push(t, up, p.last());
        assert(up.push(p.last()) =~= p);
        if p.last() {
            lemma_first_left_turn(t, up);
        }
    }
}

/// The successor of a node is the node next in order; a node without a
/// successor is the last in order.
pub proof fn lemma_successor_is_next(t: BstNodeLink, p: Seq<bool>)
    requires
        valid_path(t, p),
    ensures
        match successor_path(t, p) {
            Some(q) => valid_path(t, q) && position(t, q) == position(t, p) + 1,
            None => position(t, p) == inorder(t).len() - 1,
        },
        successor_path(t, p) is None <==> position(t, p) == inorder(t).len() - 1,
{
    lemma_successor_step(t, p);
    if successor_path(t, p) is Some {
        lemma_subtree_keys(t, successor_path(t, p).unwrap());
    }
}

/// The rightmost node of a tree has no successor.
pub proof fn lemma_maximum_has_no_successor(t: BstNodeLink)
    requires
        t is Some,
    ensures
        successor_path(t, max_path(t)) is None,
{
    lemma_max_path_valid(t);
    lemma_successor_is_next(t, max_path(t));
}

proof fn lemma_successor_step(t: BstNodeLink, p: Seq<bool>)
    requires
        valid_path(t, p),
    ensures
        match successor_path(t, p) {
            Some(q) => valid_path(t, q) && position(t, q) == position(t, p) + 1,
            None => position(t, p) == inorder(t).len() - 1,
        },
{
    let node = subtree_at(t, p).unwrap();
    if node.right is Some {
        let down = min_path(node.right);
        lemma_path_push(t, p, true);
        lemma_path_concat(t, p.push(true), down);
        lemma_min_path_valid(node.right);
        assert(inorder(subtree_at(node.right, down).unwrap().left).len() == 0);
    } else {
        assert(inorder(node.right).len() == 0);
        lemma_first_left_turn(t, p);
    }
}

/// In a search tree the successor's key is not smaller than the node's, and
/// no key of the tree lies strictly between the two.
pub proof fn lemma_successor_key(t: BstNodeLink, p: Seq<bool>)
    requires
        is_bst(t),
        valid_path(t, p),
        successor_path(t, p) is Some,
    ensures
        subtree_at(t, p).unwrap().key <= subtree_at(t, successor_path(t, p).unwrap()).unwrap().key,
        forall|i: int| 0 <= i < inorder(t).len() ==> !(subtree_at(t, p).unwrap().key < #[trigger] inorder(t)[i]
            < subtree_at(t, successor_path(t, p).unwrap()).unwrap().key),
{
    let q = successor_path(t, p).unwrap();
    lemma_successor_is_next(t, p);
    lemma_subtree_keys(t, p);
    lemma_subtree_keys(t, q);
    lemma_bst_sorted(t);
    let at = position(t, p);
    assert forall|i: int| 0 <= i < inorder(t).len() implies !(inorder(t)[at] < #[trigger] inorder(t)[i] < inorder(t)[at + 1]) by {
        if i < at {
            assert(inorder(t)[i] <= inorder(t)[at]);
        } else if i > at + 1 {
            assert(inorder(t)[at + 1] <= inorder(t)[i]);
        }
    }
}

/// Two nodes at one position in order are one node.
pub proof fn lemma_position_names_node(t: BstNodeLink, p: Seq<bool>, q: Seq<bool>)
    requires
        valid_path(t, p),
        valid_path(t, q),
        position(t, p) == position(t, q),
    ensures
        p == q,
    decreases p.len() + q.len(),
{
    lemma_subtree_keys(t, p);
    lemma_subtree_keys(t, q);
    if p.len() == 0 && q.len() == 0 {
        assert(p =~= q);
    } else if p.len() == 0 {
        if t is None {
            lemma_nothing_below_nothing(q);
        }
        lemma_subtree_keys(child(t, q[0]), q.drop_first());
    } else if q.len() == 0 {
        if t is None {
            lemma_nothing_below_nothing(p);
        }
        lemma_subtree_keys(child(t, p[0]), p.drop_first());
    } else {
        if t is None {
            lemma_nothing_below_nothing(p);
        }
        lemma_subtree_keys(child(t, p[0]), p.drop_first());
        lemma_subtree_keys(child(t, q[0]), q.drop_first());
        if p[0] == q[0] {
            lemma_position_names_node(child(t, p[0]), p.drop_first(), q.drop_first());
            assert(p =~= seq![p[0]] + p.drop_first());
            assert(q =~= seq![q[0]] + q.drop_first());
        }
    }
}

/// The way up ends at the root, which has no parent, and from the root it
/// ends where it is.
pub proof fn lemma_root_of(p: Seq<bool>)
    ensures
        root_of(p).len() == 0,
        root_of(root_of(p)) == root_of(p),
    decreases p.len(),
{
    if p.len() > 0 {
        lemma_root_of(p.drop_last());
    }
}

/// Whatever keys are put into a search tree and whatever nodes are taken out
/// of it, in whatever order, it stays a search tree, and its keys come out
/// in non-decreasing order. The empty tree is a search tree.
pub proof fn lemma_changes_keep_order(t: BstNodeLink, cs: Seq<Change>)
    requires
        is_bst(t),
        applicable(t, cs),
    ensures
        is_bst(changed_by_all(t, cs)),
        sorted(inorder(changed_by_all(t, cs))),
        is_bst(None),
    decreases cs.len(),
{
    if cs.len() > 0 {
        let before = changed_by_all(t, cs.drop_last());
        lemma_changes_keep_order(t, cs.drop_last());
        match cs.last() {
            Change::Insert(key) => {
                lemma_insert_keeps_order(before, key);
            },
            Change::Delete(p) => {
                lemma_delete_keeps_order(before, p);
            },
        }
    }
    lemma_bst_sorted(changed_by_all(t, cs));
}

} // verus!
