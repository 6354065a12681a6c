//! What a Huffman tree is: its nodes in one arena, and what holds of the
//! arena while it is filled and once it is finished.
use crate::graph::NodeID;
use vstd::prelude::*;

verus! {

/// What a tree node stands for. Nodes live in one sequence, the arena, and
/// name each other by position in it.
pub struct TreeNodeView {
    /// The position of the parent; `None` for the root and before the
    /// parents are assigned.
    pub parent: Option<int>,
    /// Whether the node is the right child of its parent; `None` before the
    /// node is merged, and for the root.
    pub is_right_child: Option<bool>,
    pub left: Option<int>,
    pub right: Option<int>,
    /// For a leaf the degree of its graph node, else the sum of the weights
    /// of the two children.
    pub weight: int,
    /// The graph node that a leaf stands for.
    pub leaf_id: Option<NodeID>,
    /// The number of the merge that made an inner node, counted from 0: the
    /// index of its output vector.
    pub tree_index: Option<int>,
}

/// The arena of a tree.
pub type TreeView = Seq<TreeNodeView>;

/// A position as an integer.
pub open spec fn opt_int(o: Option<usize>) -> Option<int> {
    match o {
        Some(v) => Some(v as int),
        None => None,
    }
}

/// A leaf stands for a graph node and has no children.
pub open spec fn leaf_shaped(n: TreeNodeView) -> bool {
    &&& n.left is None
    &&& n.right is None
    &&& n.tree_index is None
    &&& n.leaf_id is Some
}

/// An inner node made by merge number `k` has the two nodes that this merge
/// placed as its children: they stand at `2k` and `2k + 1`.
pub open spec fn inner_shaped(n: TreeNodeView) -> bool {
    &&& n.leaf_id is None
    &&& n.tree_index is Some
    &&& n.left == Some(2 * n.tree_index->0)
    &&& n.right == Some(2 * n.tree_index->0 + 1)
}

/// The number of inner nodes among `t`.
pub open spec fn num_inner(t: TreeView) -> nat
    decreases t.len(),
{
    if t.len() == 0 {
        0
    } else {
        num_inner(t.drop_last()) + if t.last().left is Some {
            1nat
        } else {
            0nat
        }
    }
}

/// The position of the inner node that merge number `k` made.
pub open spec fn holder(a: TreeView, k: int) -> int {
    choose|i: int| 0 <= i < a.len() && (#[trigger] a[i]).tree_index == Some(k)
}

/// The position of the parent of the node at `i`: the inner node of the
/// merge that placed it.
pub open spec fn parent_of(a: TreeView, i: int) -> int {
    holder(a, i / 2)
}

/// A node more is an inner node more if it has children.
pub proof fn lemma_num_inner_push(t: TreeView, n: TreeNodeView)
    ensures
        num_inner(t.push(n)) == num_inner(t) + if n.left is Some {
            1nat
        } else {
            0nat
        },
{
    assert(t.push(n).drop_last() =~= t);
}

/// Whether the tree holds a leaf of this graph node.
pub open spec fn has_leaf(t: TreeView, id: NodeID) -> bool {
    exists|i: int| 0 <= i < t.len() && (#[trigger] t[i]).leaf_id == Some(id)
}

/// The position of the leaf of `id`; meaningful where `has_leaf(t, id)`.
pub open spec fn leaf_index(t: TreeView, id: NodeID) -> int {
    choose|i: int| 0 <= i < t.len() && (#[trigger] t[i]).leaf_id == Some(id)
}

/// The last node of the arena is the root: the inner node of the last
/// merge, whose children stand right before it.
pub open spec fn root_shaped(t: TreeView) -> bool {
    let root = t.last();
    &&& root.parent is None
    &&& root.is_right_child is None
    &&& inner_shaped(root)
    &&& root.tree_index == Some((t.len() - 1) / 2 - 1)
    &&& root.weight >= 0
    &&& root.weight == t[t.len() - 3].weight + t[t.len() - 2].weight
}

/// No two inner nodes were made by one merge, and no two leaves stand for
/// one graph node.
pub open spec fn unique_numbers_and_ids(t: TreeView) -> bool {
    &&& forall|i: int, j: int|
        0 <= i < j < t.len() && (#[trigger] t[i]).tree_index is Some ==> t[i].tree_index != (
        #[trigger] t[j]).tree_index
    &&& forall|i: int, j: int|
        0 <= i < j < t.len() && (#[trigger] t[i]).leaf_id is Some ==> t[i].leaf_id != (
        #[trigger] t[j]).leaf_id
}

/// The node at `i` of a finished tree: it stands before its parent, which is
/// the inner node of the merge that placed it, as the left child if `i` is
/// even and as the right child if it is odd.
pub open spec fn settled(t: TreeView, i: int) -> bool {
    &&& t[i].is_right_child == Some(i % 2 == 1)
    &&& t[i].parent is Some
    &&& i < t[i].parent->0 < t.len()
    &&& t[t[i].parent->0].tree_index == Some(i / 2)
    &&& t[i].weight >= 0
    &&& leaf_shaped(t[i]) || {
        &&& inner_shaped(t[i])
        &&& 0 <= t[i].tree_index->0
        &&& 2 * t[i].tree_index->0 + 1 < i
        &&& t[i].weight == t[2 * t[i].tree_index->0].weight + t[2 * t[i].tree_index->0
            + 1].weight
    }
}

/// The invariant of a finished tree over `(t.len() + 1) / 2` leaves: a full
/// binary tree whose root stands last, with one inner node less than it has
/// leaves, no two leaves for one id, and every node but the root settled
/// under its parent.
pub open spec fn tree_wf(t: TreeView) -> bool {
    &&& t.len() >= 3
    &&& t.len() % 2 == 1
    &&& forall|i: int| 0 <= i < t.len() - 1 ==> #[trigger] settled(t, i)
    &&& root_shaped(t)
    &&& unique_numbers_and_ids(t)
    &&& num_inner(t) == (t.len() - 1) / 2
}

/// Arenas with the same children hold the same number of inner nodes.
pub proof fn lemma_num_inner_same_children(a: TreeView, b: TreeView)
    requires
        a.len() == b.len(),
        forall|i: int| 0 <= i < a.len() ==> (#[trigger] a[i]).left == b[i].left,
    ensures
        num_inner(a) == num_inner(b),
    decreases a.len(),
{
    if a.len() > 0 {
        lemma_num_inner_same_children(a.drop_last(), b.drop_last());
    }
}

/// The arena holds the nodes in the order of their weights, but that of
/// the two children of each merge the right one is the lighter: the right
/// child left the queues first. So each merge took the two lightest of the
/// nodes that were not merged before it.
pub open spec fn lightest_first(a: TreeView) -> bool {
    forall|i: int, j: int|
        0 <= i < j < a.len() ==> if i % 2 == 0 && j == i + 1 {
            (#[trigger] a[j]).weight <= (#[trigger] a[i]).weight
        } else {
            a[i].weight <= a[j].weight
        }
}

/// In a finished tree the leaf of an id is found at one position only.
pub proof fn lemma_leaf_index(t: TreeView, i: int)
    requires
        unique_numbers_and_ids(t),
        0 <= i < t.len(),
        t[i].leaf_id is Some,
    ensures
        has_leaf(t, t[i].leaf_id->0),
        leaf_index(t, t[i].leaf_id->0) == i,
{
    let j = leaf_index(t, t[i].leaf_id->0);
    assert(t[j].leaf_id == t[i].leaf_id);
    if j < i {
        assert(t[j].leaf_id != t[i].leaf_id);
    } else if i < j {
        assert(t[i].leaf_id != t[j].leaf_id);
    }
}

/// The node at `i` was merged: it knows which child it is, and an inner node
/// stands behind its children and weighs what they weigh together.
pub open spec fn placed(a: TreeView, i: int, placed_inner: int) -> bool {
    &&& a[i].parent is None
    &&& a[i].is_right_child == Some(i % 2 == 1)
    &&& a[i].weight >= 0
    &&& leaf_shaped(a[i]) || {
        &&& inner_shaped(a[i])
        &&& 0 <= a[i].tree_index->0 < placed_inner
        &&& 2 * a[i].tree_index->0 + 1 < i
        &&& a[i].weight == a[2 * a[i].tree_index->0].weight + a[2 * a[i].tree_index->0 + 1].weight
    }
}

/// The arena when all merges are done and no parent is assigned yet: the
/// root stands last, every other node was placed by a merge, and each merge
/// has its inner node.
pub open spec fn linked_down(t: TreeView) -> bool {
    let merges = (t.len() - 1) / 2;
    &&& t.len() >= 3
    &&& t.len() % 2 == 1
    &&& forall|i: int| 0 <= i < t.len() - 1 ==> #[trigger] placed(t, i, merges)
    &&& root_shaped(t)
    &&& forall|k: int|
        0 <= k < merges ==> 0 <= #[trigger] holder(t, k) < t.len() && t[holder(t, k)].tree_index
            == Some(k)
    &&& unique_numbers_and_ids(t)
    &&& num_inner(t) == merges
}

/// The arena with each node's parent assigned: the parent of the node at
/// `i` is the inner node of merge number `i / 2`.
pub open spec fn with_parents(t: TreeView) -> TreeView {
    Seq::new(
        t.len(),
        |i: int|
            TreeNodeView {
                parent: if i < t.len() - 1 {
                    Some(parent_of(t, i))
                } else {
                    None
                },
                ..t[i]
            },
    )
}

/// Assigning the parents to a finished arena gives a finished tree.
pub proof fn lemma_with_parents(t: TreeView)
    requires
        linked_down(t),
    ensures
        tree_wf(with_parents(t)),
        with_parents(t).len() == t.len(),
{
    let w = with_parents(t);
    let merges = (t.len() - 1) / 2;
    lemma_num_inner_same_children(t, w);
    assert forall|i: int| 0 <= i < w.len() - 1 implies #[trigger] settled(w, i) by {
        assert(placed(t, i, merges));
        let h = parent_of(t, i);
        assert(0 <= h < t.len() && t[h].tree_index == Some(i / 2));
        if h < t.len() - 1 {
            assert(placed(t, h, merges));
        }
    }
    assert forall|i: int, j: int|
        0 <= i < j < w.len() && (#[trigger] w[i]).tree_index is Some implies w[i].tree_index != (
    #[trigger] w[j]).tree_index by {
        assert(t[i].tree_index != t[j].tree_index);
    }
    assert forall|i: int, j: int|
        0 <= i < j < w.len() && (#[trigger] w[i]).leaf_id is Some implies w[i].leaf_id != (
    #[trigger] w[j]).leaf_id by {
        assert(t[i].leaf_id != t[j].leaf_id);
    }
}

} // verus!
