//! The path from a node of the tree up to its root, and what the paths of
//! two leaves have in common.
use crate::tree_model::{
    TreeNodeView, TreeView, inner_shaped, leaf_shaped, root_shaped, settled, tree_wf,
};
use vstd::prelude::*;

verus! {

/// The sign of the step from a node to its parent: `1` from a right child,
/// `-1` from a left child.
pub open spec fn sign_of(n: TreeNodeView) -> int {
    if n.is_right_child == Some(true) {
        1
    } else {
        -1
    }
}

/// Whether a step leads up from the node at `i`.
pub open spec fn has_parent(t: TreeView, i: int) -> bool {
    &&& 0 <= i < t.len()
    &&& t[i].parent is Some
    &&& i < t[i].parent->0 < t.len()
}

/// The number of steps from the node at `i` up to the root.
pub open spec fn depth(t: TreeView, i: int) -> nat
    decreases t.len() - i,
{
    if has_parent(t, i) {
        1 + depth(t, t[i].parent->0)
    } else {
        0
    }
}

/// The signs of the steps from the node at `i` up to the root.
pub open spec fn encoding_from(t: TreeView, i: int) -> Seq<int>
    decreases t.len() - i,
{
    if has_parent(t, i) {
        seq![sign_of(t[i])] + encoding_from(t, t[i].parent->0)
    } else {
        Seq::empty()
    }
}

/// The merge numbers of the inner nodes from the parent of the node at `i`
/// up to the root.
pub open spec fn indexes_from(t: TreeView, i: int) -> Seq<int>
    decreases t.len() - i,
{
    if has_parent(t, i) {
        seq![t[t[i].parent->0].tree_index->0] + indexes_from(t, t[i].parent->0)
    } else {
        Seq::empty()
    }
}

/// The path from the node at `i` up to the root: for each step the merge
/// number of the inner node that it reaches, and its sign.
pub open spec fn path_from(t: TreeView, i: int) -> Seq<(int, int)>
    decreases t.len() - i,
{
    if has_parent(t, i) {
        seq![(t[t[i].parent->0].tree_index->0, sign_of(t[i]))] + path_from(t, t[i].parent->0)
    } else {
        Seq::empty()
    }
}

/// An encoding as a sequence of integers.
pub open spec fn signs(encoding: Seq<i8>) -> Seq<int> {
    Seq::new(encoding.len(), |j: int| encoding[j] as int)
}

/// Indexes as a sequence of integers.
pub open spec fn positions(indexes: Seq<usize>) -> Seq<int> {
    Seq::new(indexes.len(), |j: int| indexes[j] as int)
}

/// A path as a sequence of pairs of integers.
pub open spec fn turns(path: Seq<(usize, i8)>) -> Seq<(int, int)> {
    Seq::new(path.len(), |j: int| (path[j].0 as int, path[j].1 as int))
}

/// A path is its indexes beside its signs, and as long as the node is deep.
pub proof fn lemma_path_parts(t: TreeView, i: int)
    ensures
        path_from(t, i).len() == depth(t, i),
        encoding_from(t, i).len() == depth(t, i),
        indexes_from(t, i).len() == depth(t, i),
        forall|j: int|
            0 <= j < depth(t, i) ==> (#[trigger] path_from(t, i)[j]) == (
                indexes_from(t, i)[j],
                encoding_from(t, i)[j],
            ),
    decreases t.len() - i,
{
    if has_parent(t, i) {
        let p = t[i].parent->0;
        lemma_path_parts(t, p);
        assert forall|j: int| 0 <= j < depth(t, i) implies (#[trigger] path_from(t, i)[j]) == (
            indexes_from(t, i)[j],
            encoding_from(t, i)[j],
        ) by {
            if j > 0 {
                assert(path_from(t, i)[j] == path_from(t, p)[j - 1]);
                assert(indexes_from(t, i)[j] == indexes_from(t, p)[j - 1]);
                assert(encoding_from(t, i)[j] == encoding_from(t, p)[j - 1]);
            }
        }
    }
}

/// The node reached from the node at `i` by `steps` steps towards the root.
pub open spec fn ancestor(t: TreeView, i: int, steps: nat) -> int
    decreases steps,
{
    if steps == 0 {
        i
    } else {
        ancestor(t, t[i].parent->0, (steps - 1) as nat)
    }
}

/// The position that a step of a path comes from: the left child of the
/// inner node of merge `index` stands at `2 * index`, its right child next
/// to it.
pub open spec fn child_at(step: (int, int)) -> int {
    2 * step.0 + if step.1 == 1 {
        1int
    } else {
        0int
    }
}

/// What step `j` of the path from the node at `i` says: it leads from the
/// `j`-th node above `i` to that node's parent, names the parent's merge
/// number, and is signed by the side on which the parent holds the node. The
/// rest of the path is the path from that node.
pub proof fn lemma_path_step(t: TreeView, i: int, j: nat)
    requires
        tree_wf(t),
        0 <= i < t.len(),
        j < depth(t, i),
    ensures
        ({
            let c = ancestor(t, i, j);
            let p = ancestor(t, i, j + 1);
            let step = path_from(t, i)[j as int];
            &&& 0 <= c < p < t.len()
            &&& t[c].parent == Some(p)
            &&& inner_shaped(t[p])
            &&& step == (t[p].tree_index->0, sign_of(t[c]))
            &&& c == child_at(step)
            &&& step.1 == 1 || step.1 == -1
            &&& step.1 == 1 ==> t[p].right == Some(c)
            &&& step.1 == -1 ==> t[p].left == Some(c)
            &&& depth(t, c) == depth(t, i) - j
            &&& path_from(t, i).skip(j as int) == path_from(t, c)
        }),
    decreases j,
{
    let parent = t[i].parent->0;
    assert(has_parent(t, i));
    assert(settled(t, i));
    lemma_path_parts(t, i);
    lemma_path_parts(t, parent);
    if j == 0 {
        if parent < t.len() - 1 {
            assert(settled(t, parent));
        } else {
            assert(root_shaped(t));
        }
        assert(ancestor(t, i, 1) == ancestor(t, parent, 0));
        assert(path_from(t, i).skip(0) =~= path_from(t, i));
    } else {
        lemma_path_step(t, parent, (j - 1) as nat);
        assert(ancestor(t, i, j + 1) == ancestor(t, parent, j as nat));
        assert(path_from(t, i)[j as int] == path_from(t, parent)[j - 1]);
        assert(path_from(t, i).skip(j as int) =~= path_from(t, parent).skip(j - 1));
    }
}

/// Each step of a path names one of the inner nodes, and is signed `1` or
/// `-1`.
pub proof fn lemma_path_in_range(t: TreeView, i: int, j: int)
    requires
        tree_wf(t),
        0 <= i < t.len(),
        0 <= j < depth(t, i),
    ensures
        0 <= path_from(t, i)[j].0 < (t.len() - 1) / 2,
        path_from(t, i)[j].1 == 1 || path_from(t, i)[j].1 == -1,
{
    lemma_path_step(t, i, j as nat);
    let p = ancestor(t, i, (j + 1) as nat);
    if p < t.len() - 1 {
        assert(settled(t, p));
    } else {
        assert(root_shaped(t));
    }
}

/// The chain of parents of every node ends at the root.
pub proof fn lemma_chain_ends_at_root(t: TreeView, i: int)
    requires
        tree_wf(t),
        0 <= i < t.len(),
    ensures
        ancestor(t, i, depth(t, i)) == t.len() - 1,
    decreases t.len() - i,
{
    if i < t.len() - 1 {
        assert(settled(t, i));
        lemma_chain_ends_at_root(t, t[i].parent->0);
    } else {
        assert(root_shaped(t));
    }
}

/// Where the paths of two nodes share a step, they come from one node
/// there, and share all that follows up to the root.
pub proof fn lemma_shared_step(t: TreeView, a: int, b: int, ja: nat, jb: nat)
    requires
        tree_wf(t),
        0 <= a < t.len(),
        0 <= b < t.len(),
        ja < depth(t, a),
        jb < depth(t, b),
        path_from(t, a)[ja as int] == path_from(t, b)[jb as int],
    ensures
        ancestor(t, a, ja) == ancestor(t, b, jb),
        path_from(t, a).skip(ja as int) == path_from(t, b).skip(jb as int),
        depth(t, a) - ja == depth(t, b) - jb,
{
    lemma_path_step(t, a, ja);
    lemma_path_step(t, b, jb);
}

/// Searches downward from the node that the two chains share at `m` steps
/// below the root for the node at which they part.
proof fn lemma_fork_below(t: TreeView, a: int, b: int, m: nat) -> (fork: (int, int))
    requires
        tree_wf(t),
        0 <= a < t.len(),
        0 <= b < t.len(),
        a != b,
        leaf_shaped(t[a]),
        leaf_shaped(t[b]),
        m <= depth(t, a),
        m <= depth(t, b),
        ancestor(t, a, (depth(t, a) - m) as nat) == ancestor(t, b, (depth(t, b) - m) as nat),
        path_from(t, a).skip(depth(t, a) - m) == path_from(t, b).skip(depth(t, b) - m),
    ensures
        0 <= fork.0 < depth(t, a),
        0 <= fork.1 < depth(t, b),
        path_from(t, a)[fork.0].0 == path_from(t, b)[fork.1].0,
        path_from(t, a)[fork.0].1 != path_from(t, b)[fork.1].1,
        path_from(t, a).skip(fork.0 + 1) == path_from(t, b).skip(fork.1 + 1),
    decreases depth(t, a) - m,
{
    let la = depth(t, a);
    let lb = depth(t, b);
    let pa = path_from(t, a);
    let pb = path_from(t, b);
    lemma_path_parts(t, a);
    lemma_path_parts(t, b);
    if m == la {
        // The leaf of `a` would stand on the chain of `b`.
        if m < lb {
            lemma_path_step(t, b, (lb - m - 1) as nat);
        }
        assert(false);
        (0, 0)
    } else if m == lb {
        lemma_path_step(t, a, (la - m - 1) as nat);
        assert(false);
        (0, 0)
    } else {
        let ja = la - m - 1;
        let jb = lb - m - 1;
        lemma_path_step(t, a, ja as nat);
        lemma_path_step(t, b, jb as nat);
        if pa[ja].1 != pb[jb].1 {
            (ja, jb)
        } else {
            assert(pa[ja] == pb[jb]);
            assert(pa.skip(ja) =~= seq![pa[ja]] + pa.skip(ja + 1));
            assert(pb.skip(jb) =~= seq![pb[jb]] + pb.skip(jb + 1));
            lemma_fork_below(t, a, b, m + 1)
        }
    }
}

/// The paths of two leaves part at one inner node, which the one reaches
/// from the left and the other from the right; above it they are the same.
/// So no path is the upper end of another, and a step that two paths share
/// belongs to an ancestor of both leaves.
pub proof fn lemma_leaves_part_ways(t: TreeView, a: int, b: int) -> (fork: (int, int))
    requires
        tree_wf(t),
        0 <= a < t.len(),
        0 <= b < t.len(),
        a != b,
        leaf_shaped(t[a]),
        leaf_shaped(t[b]),
    ensures
        0 <= fork.0 < depth(t, a),
        0 <= fork.1 < depth(t, b),
        path_from(t, a)[fork.0].0 == path_from(t, b)[fork.1].0,
        path_from(t, a)[fork.0].1 != path_from(t, b)[fork.1].1,
        path_from(t, a).skip(fork.0 + 1) == path_from(t, b).skip(fork.1 + 1),
{
    lemma_chain_ends_at_root(t, a);
    lemma_chain_ends_at_root(t, b);
    lemma_path_parts(t, a);
    lemma_path_parts(t, b);
    assert(path_from(t, a).skip(depth(t, a) as int) =~= Seq::<(int, int)>::empty());
    assert(path_from(t, b).skip(depth(t, b) as int) =~= Seq::<(int, int)>::empty());
    lemma_fork_below(t, a, b, 0)
}

/// Two arenas hold the same chain of parents above the node at `i`: the
/// same parents, the same sides, the same merge numbers.
pub open spec fn same_chain(t1: TreeView, t2: TreeView, i: int) -> bool
    decreases t1.len() - i,
{
    if has_parent(t1, i) {
        &&& has_parent(t2, i)
        &&& t2[i].parent == t1[i].parent
        &&& t2[i].is_right_child == t1[i].is_right_child
        &&& t2[t1[i].parent->0].tree_index == t1[t1[i].parent->0].tree_index
        &&& same_chain(t1, t2, t1[i].parent->0)
    } else {
        !has_parent(t2, i)
    }
}

/// The path of a node is read from its chain of parents alone: whatever
/// else two arenas hold, the same chain gives the same path.
pub proof fn lemma_path_of_chain(t1: TreeView, t2: TreeView, i: int)
    requires
        same_chain(t1, t2, i),
    ensures
        path_from(t1, i) == path_from(t2, i),
        depth(t1, i) == depth(t2, i),
    decreases t1.len() - i,
{
    if has_parent(t1, i) {
        lemma_path_of_chain(t1, t2, t1[i].parent->0);
    }
}

} // verus!
