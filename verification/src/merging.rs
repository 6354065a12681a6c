//! How the tree is made: the leaves wait in the order of their weights, and
//! merge after merge takes the two lightest nodes that wait.
use crate::graph::{GraphView, NodeID, distinct_ids, has_node, lemma_degree_bounded, total_degree};
use crate::leaf_order::{LeafKey, key_leq, key_order, key_sum, lemma_sort_by_permutes};
use crate::tree_model::{
    TreeNodeView, TreeView, has_leaf, holder, inner_shaped, leaf_index, leaf_shaped,
    lemma_num_inner_push, lemma_with_parents, lightest_first, linked_down, num_inner, placed,
    tree_wf, with_parents,
};
use vstd::prelude::*;

verus! {

/// The nodes that wait to be merged, and the arena of those that were.
pub struct Pending {
    /// The leaves, lightest first.
    pub leaves: TreeView,
    /// The inner nodes, in the order in which the merges made them.
    pub merged: TreeView,
    pub arena: TreeView,
}

/// Whether the next node to leave is a leaf: it is unless an inner node is
/// strictly lighter, or no leaf is left.
pub open spec fn leaf_is_next(p: Pending) -> bool {
    p.leaves.len() > 0 && (p.merged.len() == 0 || p.leaves[0].weight <= p.merged[0].weight)
}

/// The node that leaves next: the lighter of the two fronts.
pub open spec fn next_node(p: Pending) -> TreeNodeView {
    if leaf_is_next(p) {
        p.leaves[0]
    } else {
        p.merged[0]
    }
}

/// What waits once the next node has left.
pub open spec fn without_next(p: Pending) -> Pending {
    if leaf_is_next(p) {
        Pending { leaves: p.leaves.drop_first(), ..p }
    } else {
        Pending { merged: p.merged.drop_first(), ..p }
    }
}

/// One merge: the two lightest pending nodes leave, the first as the right
/// child and the second as the left child of a new inner node, which waits
/// behind the inner nodes made before it.
pub open spec fn merge_step(p: Pending) -> Pending {
    let right = next_node(p);
    let rest = without_next(p);
    let left = next_node(rest);
    let at = p.arena.len() as int;
    Pending {
        leaves: without_next(rest).leaves,
        merged: without_next(rest).merged.push(
            TreeNodeView {
                parent: None,
                is_right_child: None,
                left: Some(at),
                right: Some(at + 1),
                weight: left.weight + right.weight,
                leaf_id: None,
                tree_index: Some(at / 2),
            },
        ),
        arena: p.arena.push(TreeNodeView { is_right_child: Some(false), ..left }).push(
            TreeNodeView { is_right_child: Some(true), ..right },
        ),
    }
}

/// The arena once everything is merged: the last pending node is the root
/// and stands last.
pub open spec fn merge_all(p: Pending) -> TreeView
    decreases 2 * p.leaves.len() + p.merged.len(),
{
    if p.leaves.len() + p.merged.len() >= 2 {
        merge_all(merge_step(p))
    } else if p.merged.len() == 1 {
        p.arena.push(p.merged[0])
    } else {
        p.arena
    }
}

/// The sum of the weights of the nodes.
pub open spec fn total_weight(s: TreeView) -> int
    decreases s.len(),
{
    if s.len() == 0 {
        0
    } else {
        s[0].weight + total_weight(s.drop_first())
    }
}

/// A leaf that waits: it has no place in the tree yet.
pub open spec fn waiting_leaf(n: TreeNodeView) -> bool {
    &&& n.parent is None
    &&& n.is_right_child is None
    &&& leaf_shaped(n)
    &&& n.weight >= 0
}

/// An inner node that waits: merge number `k` made it of the two nodes
/// that it placed in the arena `a`, and it weighs what they weigh together.
pub open spec fn waiting_inner(n: TreeNodeView, k: int, a: TreeView) -> bool {
    &&& n.parent is None
    &&& n.is_right_child is None
    &&& inner_shaped(n)
    &&& n.tree_index == Some(k)
    &&& 0 <= k
    &&& 2 * k + 1 < a.len()
    &&& n.weight >= 0
    &&& n.weight == a[2 * k].weight + a[2 * k + 1].weight
}

/// What holds of the two queues when the first waiting inner node was made
/// by merge number `first`.
pub open spec fn queues_wf(p: Pending, first: int) -> bool {
    &&& forall|j: int| 0 <= j < p.leaves.len() ==> waiting_leaf(#[trigger] p.leaves[j])
    &&& forall|j: int|
        0 <= j < p.merged.len() ==> waiting_inner(#[trigger] p.merged[j], first + j, p.arena)
    &&& forall|i: int, j: int|
        0 <= i < j < p.leaves.len() ==> (#[trigger] p.leaves[i]).leaf_id != (
        #[trigger] p.leaves[j]).leaf_id
    &&& forall|i: int, j: int|
        0 <= i < p.arena.len() && 0 <= j < p.leaves.len() ==> (#[trigger] p.arena[i]).leaf_id != (
        #[trigger] p.leaves[j]).leaf_id
}

/// What holds of the arena when `placed_inner` of the inner nodes are
/// placed: they are those of the first merges, each once, and no two leaves
/// stand for one graph node.
pub open spec fn arena_wf(a: TreeView, placed_inner: int) -> bool {
    &&& forall|i: int| 0 <= i < a.len() ==> #[trigger] placed(a, i, placed_inner)
    &&& forall|k: int|
        0 <= k < placed_inner ==> 0 <= #[trigger] holder(a, k) < a.len() && a[holder(
            a,
            k,
        )].tree_index == Some(k)
    &&& forall|i: int, j: int|
        0 <= i < j < a.len() && (#[trigger] a[i]).tree_index is Some ==> a[i].tree_index != (
        #[trigger] a[j]).tree_index
    &&& forall|i: int, j: int|
        0 <= i < j < a.len() && (#[trigger] a[i]).leaf_id is Some ==> a[i].leaf_id != (
        #[trigger] a[j]).leaf_id
    &&& num_inner(a) == placed_inner
}

/// The invariant of the merging: two nodes are placed by each merge, and the
/// inner nodes are numbered in the order in which they were made, the placed
/// ones before the waiting ones.
pub open spec fn pending_wf(p: Pending) -> bool {
    let placed_inner = p.arena.len() / 2 - p.merged.len();
    &&& p.arena.len() % 2 == 0
    &&& placed_inner >= 0
    &&& p.merged.len() >= 1 || (p.arena.len() == 0 && p.leaves.len() >= 2)
    &&& arena_wf(p.arena, placed_inner)
    &&& queues_wf(p, placed_inner)
}

/// The weight that waits, which no merge changes.
pub open spec fn pending_weight(p: Pending) -> int {
    total_weight(p.leaves) + total_weight(p.merged)
}

/// A node more weighs its weight more.
pub proof fn lemma_total_weight_push(s: TreeView, n: TreeNodeView)
    ensures
        total_weight(s.push(n)) == total_weight(s) + n.weight,
    decreases s.len(),
{
    if s.len() == 0 {
        assert(s.push(n).drop_first() =~= s);
    } else {
        lemma_total_weight_push(s.drop_first(), n);
        assert(s.push(n).drop_first() =~= s.drop_first().push(n));
    }
}

/// Nodes of no negative weight weigh nothing negative together.
pub proof fn lemma_total_weight_nonneg(s: TreeView)
    requires
        forall|j: int| 0 <= j < s.len() ==> (#[trigger] s[j]).weight >= 0,
    ensures
        total_weight(s) >= 0,
    decreases s.len(),
{
    if s.len() > 0 {
        lemma_total_weight_nonneg(s.drop_first());
    }
}

/// Taking the next node out of the queues.
pub proof fn lemma_take_next(p: Pending, first: int)
    requires
        queues_wf(p, first),
        p.leaves.len() + p.merged.len() >= 1,
    ensures
        queues_wf(
            without_next(p),
            if leaf_is_next(p) {
                first
            } else {
                first + 1
            },
        ),
        pending_weight(without_next(p)) + next_node(p).weight == pending_weight(p),
        pending_weight(without_next(p)) >= 0,
        next_node(p).weight >= 0,
        without_next(p).arena == p.arena,
        leaf_is_next(p) ==> waiting_leaf(next_node(p)) && p.leaves.len() > 0 && next_node(p)
            == p.leaves[0] && without_next(p).leaves == p.leaves.drop_first() && without_next(
            p,
        ).merged == p.merged,
        !leaf_is_next(p) ==> waiting_inner(next_node(p), first, p.arena) && p.merged.len() > 0
            && next_node(p) == p.merged[0] && without_next(p).merged == p.merged.drop_first()
            && without_next(p).leaves == p.leaves,
{
    let q = without_next(p);
    if leaf_is_next(p) {
        assert(waiting_leaf(p.leaves[0]));
        assert forall|j: int| 0 <= j < q.leaves.len() implies waiting_leaf(
            #[trigger] q.leaves[j],
        ) by {
            assert(q.leaves[j] == p.leaves[j + 1]);
        }
        assert forall|i: int, j: int| 0 <= i < j < q.leaves.len() implies (
        #[trigger] q.leaves[i]).leaf_id != (#[trigger] q.leaves[j]).leaf_id by {
            assert(q.leaves[i] == p.leaves[i + 1]);
            assert(q.leaves[j] == p.leaves[j + 1]);
        }
        assert forall|i: int, j: int|
            0 <= i < q.arena.len() && 0 <= j < q.leaves.len() implies (
        #[trigger] q.arena[i]).leaf_id != (#[trigger] q.leaves[j]).leaf_id by {
            assert(q.leaves[j] == p.leaves[j + 1]);
        }
    } else {
        assert(waiting_inner(p.merged[0], first + 0, p.arena));
        assert forall|j: int| 0 <= j < q.merged.len() implies waiting_inner(
            #[trigger] q.merged[j],
            first + 1 + j,
            q.arena,
        ) by {
            assert(q.merged[j] == p.merged[j + 1]);
        }
    }
    assert forall|j: int| 0 <= j < q.leaves.len() implies (#[trigger] q.leaves[j]).weight
        >= 0 by {
        assert(waiting_leaf(q.leaves[j]));
    }
    assert forall|j: int| 0 <= j < q.merged.len() implies (#[trigger] q.merged[j]).weight
        >= 0 by {
        assert(waiting_inner(
            q.merged[j],
            (if leaf_is_next(p) {
                first
            } else {
                first + 1
            }) + j,
            q.arena,
        ));
    }
    lemma_total_weight_nonneg(q.leaves);
    lemma_total_weight_nonneg(q.merged);
}

/// One merge keeps the invariant and the weight that is pending, and leaves
/// one node fewer to merge.
pub proof fn lemma_merge_step(p: Pending)
    requires
        pending_wf(p),
        p.leaves.len() + p.merged.len() >= 2,
    ensures
        pending_wf(merge_step(p)),
        pending_weight(merge_step(p)) == pending_weight(p),
        merge_step(p).leaves.len() + merge_step(p).merged.len() + 1 == p.leaves.len()
            + p.merged.len(),
        merge_step(p).arena.len() == p.arena.len() + 2,
        next_node(p).weight + next_node(without_next(p)).weight <= pending_weight(p),
        forall|i: int| 0 <= i < p.arena.len() ==> merge_step(p).arena[i] == p.arena[i],
{
    let s = p.arena.len() / 2 - p.merged.len();
    let right = next_node(p);
    let once = without_next(p);
    lemma_take_next(p, s);
    let s1 = if leaf_is_next(p) {
        s
    } else {
        s + 1
    };
    let left = next_node(once);
    let twice = without_next(once);
    lemma_take_next(once, s1);
    let s2 = if leaf_is_next(once) {
        s1
    } else {
        s1 + 1
    };
    let q = merge_step(p);
    let a = p.arena;
    let at = a.len() as int;
    let b = q.arena;
    let fresh = q.merged.last();
    assert(q.leaves == twice.leaves);
    assert(q.merged == twice.merged.push(fresh));
    assert(b.len() == at + 2);
    assert(b[at] == TreeNodeView { is_right_child: Some(false), ..left });
    assert(b[at + 1] == TreeNodeView { is_right_child: Some(true), ..right });
    assert(forall|i: int| 0 <= i < at ==> b[i] == a[i]);
    lemma_total_weight_push(twice.merged, fresh);
    assert(s2 == b.len() / 2 - q.merged.len());

    assert(num_inner(b) == s2) by {
        lemma_num_inner_push(a, b[at]);
        lemma_num_inner_push(a.push(b[at]), b[at + 1]);
    }
    assert forall|i: int| 0 <= i < b.len() implies #[trigger] placed(b, i, s2) by {
        if i < at {
            assert(placed(a, i, s));
        }
    }
    assert forall|k: int| 0 <= k < s2 implies 0 <= #[trigger] holder(b, k) < b.len() && b[holder(
        b,
        k,
    )].tree_index == Some(k) by {
        if k < s {
            let h = holder(a, k);
            assert(b[h].tree_index == Some(k));
        } else if right.tree_index == Some(k) {
            assert(b[at + 1].tree_index == Some(k));
        } else {
            assert(b[at].tree_index == Some(k));
        }
    }
    assert forall|i: int, j: int|
        0 <= i < j < b.len() && (#[trigger] b[i]).tree_index is Some implies b[i].tree_index != (
    #[trigger] b[j]).tree_index by {
        if i < at {
            assert(placed(a, i, s));
        }
        if j < at {
            assert(placed(a, j, s));
        }
    }
    assert forall|i: int, j: int|
        0 <= i < j < b.len() && (#[trigger] b[i]).leaf_id is Some implies b[i].leaf_id != (
    #[trigger] b[j]).leaf_id by {
        if j >= at {
            if i < at {
                assert(b[i] == a[i]);
                if leaf_is_next(p) {
                    assert(a[i].leaf_id != p.leaves[0].leaf_id);
                    if leaf_is_next(once) {
                        assert(a[i].leaf_id != p.leaves[1].leaf_id);
                    }
                } else {
                    if leaf_is_next(once) {
                        assert(a[i].leaf_id != p.leaves[0].leaf_id);
                    }
                }
            } else {
                if leaf_is_next(p) && leaf_is_next(once) {
                    assert(p.leaves[0].leaf_id != p.leaves[1].leaf_id);
                }
            }
        }
    }
    assert forall|j: int| 0 <= j < q.merged.len() implies waiting_inner(
        #[trigger] q.merged[j],
        s2 + j,
        b,
    ) by {
        if j < twice.merged.len() {
            assert(waiting_inner(twice.merged[j], s2 + j, a));
        }
    }
    assert forall|i: int, j: int| 0 <= i < b.len() && 0 <= j < q.leaves.len() implies (
    #[trigger] b[i]).leaf_id != (#[trigger] q.leaves[j]).leaf_id by {
        if i < at {
            assert(twice.arena[i].leaf_id != twice.leaves[j].leaf_id);
        } else {
            if leaf_is_next(p) && leaf_is_next(once) {
                assert(q.leaves[j] == p.leaves[j + 2]);
            } else if leaf_is_next(p) || leaf_is_next(once) {
                assert(q.leaves[j] == p.leaves[j + 1]);
            }
        }
    }
}

/// When one inner node is left to merge, placing it last finishes the arena.
pub proof fn lemma_finish(p: Pending)
    requires
        pending_wf(p),
        p.leaves.len() == 0,
        p.merged.len() == 1,
    ensures
        merge_all(p) == p.arena.push(p.merged[0]),
        linked_down(merge_all(p)),
{
    let a = p.arena;
    let t = a.push(p.merged[0]);
    let merges = (t.len() - 1) / 2;
    let s = merges - 1;
    assert(waiting_inner(p.merged[0], s + 0, a));
    lemma_num_inner_push(a, p.merged[0]);
    assert forall|i: int| 0 <= i < t.len() - 1 implies #[trigger] placed(t, i, merges) by {
        assert(placed(a, i, s));
    }
    assert forall|k: int| 0 <= k < merges implies 0 <= #[trigger] holder(t, k) < t.len()
        && t[holder(t, k)].tree_index == Some(k) by {
        if k < s {
            let h = holder(a, k);
            assert(t[h].tree_index == Some(k));
        } else {
            assert(t[t.len() - 1].tree_index == Some(k));
        }
    }
    assert forall|i: int, j: int|
        0 <= i < j < t.len() && (#[trigger] t[i]).tree_index is Some implies t[i].tree_index != (
    #[trigger] t[j]).tree_index by {
        assert(placed(a, i, s));
    }
    assert forall|i: int, j: int|
        0 <= i < j < t.len() && (#[trigger] t[i]).leaf_id is Some implies t[i].leaf_id != (
    #[trigger] t[j]).leaf_id by {
        if j < a.len() {
            assert(a[i].leaf_id != a[j].leaf_id);
        }
    }
}

/// The keys of the graph's nodes, in the order in which the nodes are given.
pub open spec fn leaf_keys(nodes: GraphView) -> Seq<LeafKey> {
    Seq::new(
        nodes.len(),
        |j: int| (nodes[j].neighbors.len() as i32, (nodes.len() - 1 - j) as usize),
    )
}

/// The leaf of the node that has the key `key`.
pub open spec fn leaf_for(nodes: GraphView, key: LeafKey) -> TreeNodeView {
    TreeNodeView {
        parent: None,
        is_right_child: None,
        left: None,
        right: None,
        weight: key.0 as int,
        leaf_id: Some(nodes[nodes.len() - 1 - key.1].id),
        tree_index: None,
    }
}

/// The leaves as they wait to be merged: in the order of their keys.
pub open spec fn leaf_queue(nodes: GraphView) -> TreeView {
    let sorted = leaf_keys(nodes).sort_by(key_order());
    Seq::new(sorted.len(), |k: int| leaf_for(nodes, sorted[k]))
}

/// The start of the merging: every leaf waits, nothing is placed.
pub open spec fn start(nodes: GraphView) -> Pending {
    Pending { leaves: leaf_queue(nodes), merged: Seq::empty(), arena: Seq::empty() }
}

/// The Huffman tree of the nodes, weighted by degree.
pub open spec fn huffman_arena(nodes: GraphView) -> TreeView {
    with_parents(merge_all(start(nodes)))
}

/// The weight of the nodes is that of all but the last and of the last.
pub proof fn lemma_total_weight_drop_last(s: TreeView)
    requires
        s.len() > 0,
    ensures
        total_weight(s) == total_weight(s.drop_last()) + s.last().weight,
{
    lemma_total_weight_push(s.drop_last(), s.last());
    assert(s.drop_last().push(s.last()) =~= s);
}

/// Leaves weigh what their keys say.
proof fn lemma_weights_match_keys(q: TreeView, keys: Seq<LeafKey>)
    requires
        q.len() == keys.len(),
        forall|k: int| 0 <= k < q.len() ==> (#[trigger] q[k]).weight == keys[k].0,
    ensures
        total_weight(q) == key_sum(keys),
    decreases q.len(),
{
    if q.len() > 0 {
        lemma_total_weight_drop_last(q);
        lemma_weights_match_keys(q.drop_last(), keys.drop_last());
    }
}

/// Keys weigh what the degrees of their nodes say.
proof fn lemma_keys_match_degrees(keys: Seq<LeafKey>, nodes: GraphView)
    requires
        nodes.len() == keys.len(),
        forall|j: int| 0 <= j < keys.len() ==> (#[trigger] keys[j]).0 == nodes[j].neighbors.len(),
    ensures
        key_sum(keys) == total_degree(nodes),
    decreases keys.len(),
{
    if keys.len() > 0 {
        lemma_keys_match_degrees(keys.drop_last(), nodes.drop_last());
    }
}

/// The position, among the nodes as given, of the node whose leaf waits at
/// place `k`.
pub open spec fn queued_node(nodes: GraphView, k: int) -> int {
    nodes.len() - 1 - leaf_keys(nodes).sort_by(key_order())[k].1
}

/// Whether the leaf of the node given at `j` waits at some place.
pub open spec fn is_queued(nodes: GraphView, j: int) -> bool {
    exists|k: int| 0 <= k < nodes.len() && #[trigger] queued_node(nodes, k) == j
}

/// The sorted keys are the keys of the nodes, each once.
proof fn lemma_sorted_leaf_keys(nodes: GraphView)
    requires
        2 <= nodes.len() <= usize::MAX,
        total_degree(nodes) <= i32::MAX,
    ensures
        leaf_keys(nodes).sort_by(key_order()).len() == nodes.len(),
        key_sum(leaf_keys(nodes).sort_by(key_order())) == total_degree(nodes),
        forall|k: int|
            0 <= k < nodes.len() ==> {
                let j = #[trigger] queued_node(nodes, k);
                &&& 0 <= j < nodes.len()
                &&& leaf_keys(nodes).sort_by(key_order())[k].0 == nodes[j].neighbors.len()
            },
        forall|a: int, b: int|
            0 <= a < b < nodes.len() ==> #[trigger] queued_node(nodes, a) != #[trigger] queued_node(
                nodes,
                b,
            ),
        forall|j: int| 0 <= j < nodes.len() ==> #[trigger] is_queued(nodes, j),
{
    let n = nodes.len() as int;
    let keys = leaf_keys(nodes);
    let sorted = keys.sort_by(key_order());
    assert forall|j: int| 0 <= j < n implies (#[trigger] keys[j]).0
        == nodes[j].neighbors.len() && keys[j].1 == n - 1 - j by {
        lemma_degree_bounded(nodes, j);
    }
    assert(keys.no_duplicates()) by {
        assert forall|i: int, j: int| 0 <= i < n && 0 <= j < n && i != j implies keys[i]
            != keys[j] by {
            assert(keys[i].1 == n - 1 - i);
            assert(keys[j].1 == n - 1 - j);
        }
    }
    lemma_sort_by_permutes(keys);
    lemma_keys_match_degrees(keys, nodes);
    assert forall|k: int| 0 <= k < n implies {
        let j = #[trigger] queued_node(nodes, k);
        &&& 0 <= j < n
        &&& sorted[k] == keys[j]
        &&& sorted[k].0 == nodes[j].neighbors.len()
    } by {
        assert(keys.contains(sorted[k]));
        let j = keys.index_of(sorted[k]);
        assert(keys[j].1 == n - 1 - j);
    }
    assert forall|a: int, b: int| 0 <= a < b < n implies #[trigger] queued_node(nodes, a)
        != #[trigger] queued_node(nodes, b) by {
        assert(sorted[a] == keys[queued_node(nodes, a)]);
        assert(sorted[b] == keys[queued_node(nodes, b)]);
        assert(sorted[a] != sorted[b]);
    }
    assert forall|j: int| 0 <= j < n implies #[trigger] is_queued(nodes, j) by {
        assert(sorted.contains(keys[j]));
        let k = sorted.index_of(keys[j]);
        assert(queued_node(nodes, k) == j);
    }
}

/// The leaves that wait at the start are the nodes of the graph, each once
/// and with its degree as its weight, and they are ready to be merged.
pub proof fn lemma_start(nodes: GraphView)
    requires
        distinct_ids(nodes),
        2 <= nodes.len() <= usize::MAX,
        total_degree(nodes) <= i32::MAX,
    ensures
        pending_wf(start(nodes)),
        pending_weight(start(nodes)) == total_degree(nodes),
        leaf_queue(nodes).len() == nodes.len(),
        forall|k: int|
            0 <= k < nodes.len() ==> {
                let j = #[trigger] queued_node(nodes, k);
                &&& 0 <= j < nodes.len()
                &&& leaf_queue(nodes)[k].leaf_id == Some(nodes[j].id)
                &&& leaf_queue(nodes)[k].weight == nodes[j].neighbors.len()
            },
        forall|j: int| 0 <= j < nodes.len() ==> #[trigger] is_queued(nodes, j),
{
    let n = nodes.len() as int;
    let sorted = leaf_keys(nodes).sort_by(key_order());
    let q = leaf_queue(nodes);
    let p = start(nodes);
    lemma_sorted_leaf_keys(nodes);
    assert forall|k: int| 0 <= k < n implies {
        let j = #[trigger] queued_node(nodes, k);
        &&& 0 <= j < n
        &&& q[k].leaf_id == Some(nodes[j].id)
        &&& q[k].weight == nodes[j].neighbors.len()
        &&& q[k].weight == sorted[k].0
        &&& waiting_leaf(q[k])
    } by {
        lemma_degree_bounded(nodes, queued_node(nodes, k));
    }
    assert forall|k: int| 0 <= k < q.len() implies (#[trigger] q[k]).weight == sorted[k].0 by {
        assert(0 <= queued_node(nodes, k) < n);
    }
    lemma_weights_match_keys(q, sorted);
    assert(total_weight(p.merged) == 0);
    assert forall|k: int| 0 <= k < q.len() implies waiting_leaf(#[trigger] q[k]) by {
        assert(0 <= queued_node(nodes, k) < n);
    }
    assert forall|a: int, b: int| 0 <= a < b < q.len() implies (#[trigger] q[a]).leaf_id != (
    #[trigger] q[b]).leaf_id by {
        let ja = queued_node(nodes, a);
        let jb = queued_node(nodes, b);
        assert(ja != jb);
        if ja < jb {
            assert(nodes[ja].id != nodes[jb].id);
        } else {
            assert(nodes[jb].id != nodes[ja].id);
        }
    }
    assert(num_inner(p.arena) == 0);
}

/// Some leaf of `t` stands for the same node as `n` and weighs the same.
pub open spec fn leaf_placed(t: TreeView, n: TreeNodeView) -> bool {
    exists|i: int|
        0 <= i < t.len() && (#[trigger] t[i]).leaf_id == n.leaf_id && t[i].weight == n.weight
}

/// The id is that of a leaf that is placed or waits.
pub open spec fn leaf_known(p: Pending, id: Option<NodeID>) -> bool {
    ||| exists|i: int| 0 <= i < p.arena.len() && (#[trigger] p.arena[i]).leaf_id == id
    ||| exists|j: int| 0 <= j < p.leaves.len() && (#[trigger] p.leaves[j]).leaf_id == id
}

/// Merging until one node is left finishes the arena: it keeps what was
/// placed, places every waiting leaf, and holds no other leaf.
pub proof fn lemma_merge_all(p: Pending)
    requires
        pending_wf(p),
    ensures
        linked_down(merge_all(p)),
        merge_all(p).len() == p.arena.len() + 2 * (p.leaves.len() + p.merged.len()) - 1,
        forall|i: int| 0 <= i < p.arena.len() ==> (#[trigger] merge_all(p)[i]) == p.arena[i],
        forall|j: int|
            0 <= j < p.leaves.len() ==> leaf_placed(merge_all(p), #[trigger] p.leaves[j]),
        forall|i: int|
            0 <= i < merge_all(p).len() && (#[trigger] merge_all(p)[i]).leaf_id is Some
                ==> leaf_known(p, merge_all(p)[i].leaf_id),
    decreases 2 * p.leaves.len() + p.merged.len(),
{
    let t = merge_all(p);
    if p.leaves.len() + p.merged.len() >= 2 {
        let q = merge_step(p);
        lemma_merge_step(p);
        lemma_merge_all(q);
        let s = p.arena.len() / 2 - p.merged.len();
        lemma_take_next(p, s);
        let once = without_next(p);
        lemma_take_next(
            once,
            if leaf_is_next(p) {
                s
            } else {
                s + 1
            },
        );
        let at = p.arena.len() as int;
        assert(q.arena[at].leaf_id == next_node(once).leaf_id);
        assert(q.arena[at + 1].leaf_id == next_node(p).leaf_id);
        assert(t[at] == q.arena[at]);
        assert(t[at + 1] == q.arena[at + 1]);
        assert forall|i: int| 0 <= i < p.arena.len() implies (#[trigger] t[i]) == p.arena[i] by {
            assert(t[i] == q.arena[i]);
        }
        let dropped: int = (if leaf_is_next(p) {
            1int
        } else {
            0int
        }) + (if leaf_is_next(once) {
            1int
        } else {
            0int
        });
        assert(q.leaves.len() == p.leaves.len() - dropped);
        assert forall|j: int| 0 <= j < q.leaves.len() implies (#[trigger] q.leaves[j])
            == p.leaves[j + dropped] by {}
        assert forall|j: int| 0 <= j < p.leaves.len() implies leaf_placed(
            t,
            #[trigger] p.leaves[j],
        ) by {
            if j >= dropped {
                assert(q.leaves[j - dropped] == p.leaves[j]);
                assert(leaf_placed(t, q.leaves[j - dropped]));
            } else if j == 0 && leaf_is_next(p) {
                assert(t[at + 1].leaf_id == p.leaves[0].leaf_id);
            } else {
                assert(t[at].leaf_id == p.leaves[j].leaf_id);
            }
        }
        assert forall|i: int| 0 <= i < t.len() && (#[trigger] t[i]).leaf_id is Some implies leaf_known(
            p,
            t[i].leaf_id,
        ) by {
            let id = t[i].leaf_id;
            assert(leaf_known(q, id));
            if exists|a: int| 0 <= a < q.arena.len() && (#[trigger] q.arena[a]).leaf_id == id {
                let a = choose|a: int|
                    0 <= a < q.arena.len() && (#[trigger] q.arena[a]).leaf_id == id;
                if a < at {
                    assert(p.arena[a].leaf_id == id);
                } else if a == at {
                    assert(leaf_is_next(once));
                    assert(p.leaves[dropped - 1].leaf_id == id);
                } else {
                    assert(leaf_is_next(p));
                    assert(p.leaves[0].leaf_id == id);
                }
            } else {
                let j = choose|j: int|
                    0 <= j < q.leaves.len() && (#[trigger] q.leaves[j]).leaf_id == id;
                assert(p.leaves[j + dropped].leaf_id == id);
            }
        }
    } else {
        lemma_finish(p);
        assert forall|i: int| 0 <= i < t.len() && (#[trigger] t[i]).leaf_id is Some implies leaf_known(
            p,
            t[i].leaf_id,
        ) by {
            assert(waiting_inner(p.merged[0], p.arena.len() / 2 - 1 + 0, p.arena));
            assert(p.arena[i].leaf_id == t[i].leaf_id);
        }
    }
}

/// No node of the queue is lighter than one before it.
pub open spec fn sorted_by_weight(q: TreeView) -> bool {
    forall|i: int, j: int|
        0 <= i <= j < q.len() ==> (#[trigger] q[i]).weight <= (#[trigger] q[j]).weight
}

/// The weight of the left child of the last merge; no weight before the
/// first.
pub open spec fn last_taken(p: Pending) -> int {
    if p.arena.len() < 2 {
        0
    } else {
        p.arena[p.arena.len() - 2].weight
    }
}

/// What keeps the merging greedy: both queues are in the order of their
/// weights, nothing that waits is lighter than what was taken, and no inner
/// node that waits weighs more than twice the node that was taken last.
pub open spec fn greedy(p: Pending) -> bool {
    &&& p.arena.len() % 2 == 0
    &&& 0 <= last_taken(p)
    &&& lightest_first(p.arena)
    &&& sorted_by_weight(p.leaves)
    &&& sorted_by_weight(p.merged)
    &&& forall|j: int| 0 <= j < p.leaves.len() ==> last_taken(p) <= (#[trigger] p.leaves[j]).weight
    &&& forall|j: int|
        0 <= j < p.merged.len() ==> last_taken(p) <= (#[trigger] p.merged[j]).weight <= 2
            * last_taken(p)
}

/// Nothing in the arena is heavier than the node that was taken last.
proof fn lemma_last_taken_is_heaviest(p: Pending, i: int)
    requires
        greedy(p),
        0 <= i < p.arena.len(),
    ensures
        p.arena[i].weight <= last_taken(p),
{
    let a = p.arena;
    let at = a.len() as int;
    if i < at - 2 {
        assert(a[i].weight <= a[at - 2].weight);
    } else if i == at - 1 {
        assert(a[at - 1].weight <= a[at - 2].weight);
    }
}

/// The two nodes that a merge takes: the first is no heavier than the
/// second, and the second no heavier than any node that still waits.
proof fn lemma_two_lightest(p: Pending)
    requires
        greedy(p),
        p.leaves.len() + p.merged.len() >= 2,
    ensures
        last_taken(p) <= next_node(p).weight <= next_node(without_next(p)).weight,
        forall|j: int|
            0 <= j < merge_step(p).leaves.len() ==> next_node(without_next(p)).weight <= (
            #[trigger] merge_step(p).leaves[j]).weight,
        forall|j: int|
            0 <= j < merge_step(p).merged.len() - 1 ==> next_node(without_next(p)).weight <= (
            #[trigger] merge_step(p).merged[j]).weight <= 2 * last_taken(p),
        sorted_by_weight(merge_step(p).leaves),
        sorted_by_weight(merge_step(p).merged.drop_last()),
{
    let once = without_next(p);
    let twice = without_next(once);
    let left = next_node(once);
    let q = merge_step(p);
    let taken_leaves = p.leaves.len() - twice.leaves.len();
    let taken_merged = p.merged.len() - twice.merged.len();
    assert(q.leaves == twice.leaves);
    assert(q.merged.drop_last() =~= twice.merged);
    assert forall|j: int| 0 <= j < twice.leaves.len() implies (#[trigger] twice.leaves[j])
        == p.leaves[j + taken_leaves] by {}
    assert forall|j: int| 0 <= j < twice.merged.len() implies (#[trigger] twice.merged[j])
        == p.merged[j + taken_merged] by {}
    if leaf_is_next(p) {
        assert(p.leaves[0].weight >= last_taken(p));
        if leaf_is_next(once) {
            assert(p.leaves[0].weight <= p.leaves[1].weight);
        } else {
            assert(p.merged.len() > 0);
        }
    } else {
        assert(p.merged[0].weight >= last_taken(p));
        if !leaf_is_next(once) {
            assert(p.merged[0].weight <= p.merged[1].weight);
        }
    }
    assert forall|j: int| 0 <= j < twice.leaves.len() implies left.weight <= (
    #[trigger] twice.leaves[j]).weight by {
        assert(twice.leaves[j] == p.leaves[j + taken_leaves]);
        if leaf_is_next(once) {
            assert(left == p.leaves[taken_leaves - 1]);
            assert(p.leaves[taken_leaves - 1].weight <= p.leaves[j + taken_leaves].weight);
        } else {
            assert(once.leaves[0] == p.leaves[taken_leaves]);
            assert(p.leaves[taken_leaves].weight <= p.leaves[j + taken_leaves].weight);
        }
    }
    assert forall|j: int| 0 <= j < twice.merged.len() implies left.weight <= (
    #[trigger] twice.merged[j]).weight <= 2 * last_taken(p) by {
        assert(twice.merged[j] == p.merged[j + taken_merged]);
        if !leaf_is_next(once) {
            assert(left == p.merged[taken_merged - 1]);
            assert(p.merged[taken_merged - 1].weight <= p.merged[j + taken_merged].weight);
        } else {
            assert(once.merged[0] == p.merged[taken_merged]);
            assert(p.merged[taken_merged].weight <= p.merged[j + taken_merged].weight);
        }
    }
    assert forall|i: int, j: int| 0 <= i <= j < twice.leaves.len() implies (
    #[trigger] twice.leaves[i]).weight <= (#[trigger] twice.leaves[j]).weight by {
        assert(p.leaves[i + taken_leaves].weight <= p.leaves[j + taken_leaves].weight);
    }
    assert forall|i: int, j: int| 0 <= i <= j < twice.merged.len() implies (
    #[trigger] twice.merged[i]).weight <= (#[trigger] twice.merged[j]).weight by {
        assert(p.merged[i + taken_merged].weight <= p.merged[j + taken_merged].weight);
    }
}

/// One merge keeps the merging greedy.
pub proof fn lemma_merge_step_greedy(p: Pending)
    requires
        greedy(p),
        p.leaves.len() + p.merged.len() >= 2,
    ensures
        greedy(merge_step(p)),
{
    let right = next_node(p);
    let left = next_node(without_next(p));
    let q = merge_step(p);
    let a = p.arena;
    let at = a.len() as int;
    let b = q.arena;
    let m = last_taken(p);
    let waiting = q.merged.drop_last();
    let fresh = q.merged.last();
    lemma_two_lightest(p);
    assert(b.len() == at + 2);
    assert(b[at].weight == left.weight);
    assert(b[at + 1].weight == right.weight);
    assert(last_taken(q) == left.weight);
    assert(fresh.weight == left.weight + right.weight);
    assert forall|i: int, j: int| 0 <= i < j < b.len() implies if i % 2 == 0 && j == i + 1 {
        (#[trigger] b[j]).weight <= (#[trigger] b[i]).weight
    } else {
        b[i].weight <= b[j].weight
    } by {
        if j < at {
            assert(b[i] == a[i] && b[j] == a[j]);
        } else if i < at {
            assert(b[i] == a[i]);
            lemma_last_taken_is_heaviest(p, i);
        }
    }
    assert forall|j: int| 0 <= j < q.merged.len() implies left.weight <= (
    #[trigger] q.merged[j]).weight <= 2 * left.weight by {
        if j < q.merged.len() - 1 {
            assert(q.merged[j].weight <= 2 * m);
        }
    }
    assert forall|i: int, j: int| 0 <= i <= j < q.merged.len() implies (
    #[trigger] q.merged[i]).weight <= (#[trigger] q.merged[j]).weight by {
        if j < q.merged.len() - 1 {
            assert(q.merged[i] == waiting[i] && q.merged[j] == waiting[j]);
        } else if i < q.merged.len() - 1 {
            assert(q.merged[i].weight <= 2 * m);
        }
    }
}

/// Greedy merging fills the arena lightest first.
pub proof fn lemma_merge_all_greedy(p: Pending)
    requires
        greedy(p),
    ensures
        lightest_first(merge_all(p)),
    decreases 2 * p.leaves.len() + p.merged.len(),
{
    if p.leaves.len() + p.merged.len() >= 2 {
        lemma_merge_step_greedy(p);
        lemma_merge_all_greedy(merge_step(p));
    } else if p.merged.len() == 1 {
        let a = p.arena;
        let t = merge_all(p);
        let at = a.len() as int;
        assert forall|i: int, j: int| 0 <= i < j < t.len() implies if i % 2 == 0 && j == i + 1 {
            (#[trigger] t[j]).weight <= (#[trigger] t[i]).weight
        } else {
            t[i].weight <= t[j].weight
        } by {
            if j < at {
                assert(t[i] == a[i] && t[j] == a[j]);
            } else {
                assert(t[i] == a[i]);
                assert(t[j] == p.merged[0]);
                lemma_last_taken_is_heaviest(p, i);
            }
        }
    }
}

/// The leaves wait in the order of their weights.
pub proof fn lemma_start_greedy(nodes: GraphView)
    requires
        distinct_ids(nodes),
        2 <= nodes.len() <= usize::MAX,
        total_degree(nodes) <= i32::MAX,
    ensures
        greedy(start(nodes)),
{
    let keys = leaf_keys(nodes);
    let sorted = keys.sort_by(key_order());
    let q = leaf_queue(nodes);
    lemma_start(nodes);
    assert(keys.no_duplicates()) by {
        assert forall|i: int, j: int|
            0 <= i < keys.len() && 0 <= j < keys.len() && i != j implies keys[i] != keys[j] by {
            assert(keys[i].1 == nodes.len() - 1 - i);
            assert(keys[j].1 == nodes.len() - 1 - j);
        }
    }
    lemma_sort_by_permutes(keys);
    assert forall|i: int, j: int| 0 <= i <= j < q.len() implies (#[trigger] q[i]).weight <= (
    #[trigger] q[j]).weight by {
        if i < j {
            assert(key_order()(sorted[i], sorted[j]));
            assert(key_leq(sorted[i], sorted[j]));
        }
    }
    assert forall|j: int| 0 <= j < q.len() implies 0 <= (#[trigger] q[j]).weight by {
        assert(waiting_leaf(q[j]));
    }
}

/// The Huffman tree of a graph of `n >= 2` nodes is a finished tree of
/// `2n - 1` nodes, `n - 1` of them inner nodes; its leaves are the nodes of
/// the graph, each weighing its degree.
pub proof fn lemma_huffman_arena(nodes: GraphView)
    requires
        distinct_ids(nodes),
        2 <= nodes.len() <= usize::MAX,
        total_degree(nodes) <= i32::MAX,
    ensures
        linked_down(merge_all(start(nodes))),
        tree_wf(huffman_arena(nodes)),
        huffman_arena(nodes).len() == 2 * nodes.len() - 1,
        num_inner(huffman_arena(nodes)) == nodes.len() - 1,
        lightest_first(huffman_arena(nodes)),
        forall|id: NodeID| has_leaf(huffman_arena(nodes), id) <==> has_node(nodes, id),
        forall|j: int|
            0 <= j < nodes.len() ==> huffman_arena(nodes)[leaf_index(
                huffman_arena(nodes),
                (#[trigger] nodes[j]).id,
            )].weight == nodes[j].neighbors.len(),
{
    let p = start(nodes);
    let m = merge_all(p);
    let t = huffman_arena(nodes);
    let q = leaf_queue(nodes);
    lemma_start(nodes);
    lemma_merge_all(p);
    lemma_with_parents(m);
    lemma_start_greedy(nodes);
    lemma_merge_all_greedy(p);
    assert forall|i: int, j: int| 0 <= i < j < t.len() implies if i % 2 == 0 && j == i + 1 {
        (#[trigger] t[j]).weight <= (#[trigger] t[i]).weight
    } else {
        t[i].weight <= t[j].weight
    } by {
        assert(t[i].weight == m[i].weight && t[j].weight == m[j].weight);
        if i % 2 == 0 && j == i + 1 {
            assert(m[j].weight <= m[i].weight);
        } else {
            assert(m[i].weight <= m[j].weight);
        }
    }
    assert forall|id: NodeID| has_leaf(t, id) <==> has_node(nodes, id) by {
        if has_leaf(t, id) {
            let i = leaf_index(t, id);
            assert(m[i].leaf_id == Some(id));
            assert(leaf_known(p, Some(id)));
            let k = choose|k: int| 0 <= k < q.len() && (#[trigger] q[k]).leaf_id == Some(id);
            assert(nodes[queued_node(nodes, k)].id == id);
        }
        if has_node(nodes, id) {
            let j = crate::graph::index_of(nodes, id);
            assert(is_queued(nodes, j));
            let k = choose|k: int| 0 <= k < nodes.len() && #[trigger] queued_node(nodes, k) == j;
            assert(leaf_placed(m, q[k]));
            let i = choose|i: int|
                0 <= i < m.len() && (#[trigger] m[i]).leaf_id == q[k].leaf_id && m[i].weight
                    == q[k].weight;
            assert(t[i].leaf_id == Some(id));
        }
    }
    assert forall|j: int| 0 <= j < nodes.len() implies t[leaf_index(
        t,
        (#[trigger] nodes[j]).id,
    )].weight == nodes[j].neighbors.len() by {
        let id = nodes[j].id;
        assert(is_queued(nodes, j));
        let k = choose|k: int| 0 <= k < nodes.len() && #[trigger] queued_node(nodes, k) == j;
        assert(leaf_placed(m, q[k]));
        let i = choose|i: int|
            0 <= i < m.len() && (#[trigger] m[i]).leaf_id == q[k].leaf_id && m[i].weight
                == q[k].weight;
        assert(t[i].leaf_id == Some(id));
        let l = leaf_index(t, id);
        assert(t[l].leaf_id == Some(id));
        if l < i {
            assert(t[l].leaf_id != t[i].leaf_id);
        } else if i < l {
            assert(t[i].leaf_id != t[l].leaf_id);
        }
    }
}

} // verus!
