//! The Huffman tree over the nodes of a graph, weighted by degree, and the
//! path of binary decisions that leads from its root to each node.
use crate::graph::{
    GraphNode, GraphView, NodeID, distinct_ids, has_node, lemma_degree_bounded, total_degree,
};
use crate::leaf_order::{LeafKey, key_order, lemma_sorted_keys, sort_keys};
use crate::merging::{
    Pending, arena_wf, huffman_arena, leaf_for, leaf_is_next, leaf_keys, leaf_queue,
    lemma_finish, lemma_huffman_arena, lemma_merge_step, lemma_start, lemma_take_next,
    merge_all, merge_step, next_node, pending_weight, pending_wf, queued_node, start,
    without_next,
};
use crate::parent_pass::{
    arena_after, lemma_parent_pass_done, lemma_parent_pass_step, num_orphans, on_stack,
    parent_pass, stack_after,
};
use crate::tree_model::{
    TreeNodeView, TreeView, has_leaf, holder, leaf_index, lemma_leaf_index, lemma_with_parents,
    lightest_first, linked_down, num_inner, opt_int, parent_of, placed, root_shaped, settled,
    tree_wf, with_parents,
};
use crate::tree_paths::{
    depth, encoding_from, indexes_from, lemma_path_in_range, lemma_path_parts, path_from,
    positions, sign_of, signs, turns,
};
use std::cmp::Ordering;
use std::collections::{HashMap, VecDeque};
use vstd::prelude::*;
use vstd::std_specs::cmp::{PartialEqSpecImpl, PartialOrdSpecImpl};

verus! {

broadcast use {
    vstd::std_specs::hash::group_hash_axioms,
    vstd::std_specs::vecdeque::group_vec_dequeue_axioms,
};

/// One node of the tree.
#[derive(Eq, Debug)]
pub struct TreeNode {
    parent: Option<usize>,
    is_right_child: Option<bool>,
    left: Option<usize>,
    right: Option<usize>,
    weight: i32,
    leaf_id: Option<NodeID>,
    tree_index: Option<usize>,
}

impl View for TreeNode {
    type V = TreeNodeView;

    closed spec fn view(&self) -> TreeNodeView {
        TreeNodeView {
            parent: opt_int(self.parent),
            is_right_child: self.is_right_child,
            left: opt_int(self.left),
            right: opt_int(self.right),
            weight: self.weight as int,
            leaf_id: self.leaf_id,
            tree_index: opt_int(self.tree_index),
        }
    }
}

impl TreeNode {
    /// A node of this weight that stands alone: no parent, no children,
    /// neither a leaf id nor a merge number.
    pub fn new(weight: i32) -> (node: TreeNode)
        ensures
            node@ == (TreeNodeView {
                parent: None,
                is_right_child: None,
                left: None,
                right: None,
                weight: weight as int,
                leaf_id: None,
                tree_index: None,
            }),
    {
        TreeNode {
            parent: None,
            is_right_child: None,
            left: None,
            right: None,
            weight: weight,
            leaf_id: None,
            tree_index: None,
        }
    }

    /// Makes the node the leaf of the graph node `id`.
    pub fn set_leaf_id(&mut self, id: NodeID)
        ensures
            final(self)@ == (TreeNodeView { leaf_id: Some(id), ..old(self)@ }),
    {
        self.leaf_id = Some(id);
    }

    /// Gives the node its two children, by their positions in the arena.
    pub fn set_children(&mut self, left: usize, right: usize)
        ensures
            final(self)@ == (TreeNodeView {
                left: Some(left as int),
                right: Some(right as int),
                ..old(self)@
            }),
    {
        self.left = Some(left);
        self.right = Some(right);
    }

    /// Gives the node its parent, by its position in the arena.
    pub fn set_parent(&mut self, parent: usize)
        ensures
            final(self)@ == (TreeNodeView { parent: Some(parent as int), ..old(self)@ }),
    {
        self.parent = Some(parent);
    }

    /// Gives the node the number of the merge that made it.
    pub fn set_tree_index(&mut self, index: usize)
        ensures
            final(self)@ == (TreeNodeView { tree_index: Some(index as int), ..old(self)@ }),
    {
        self.tree_index = Some(index);
    }
}

/// Two nodes are equal if they weigh the same.
impl PartialEq for TreeNode {
    fn eq(&self, other: &TreeNode) -> (equal: bool) {
        self.weight == other.weight
    }
}

impl PartialEqSpecImpl for TreeNode {
    open spec fn obeys_eq_spec() -> bool {
        true
    }

    open spec fn eq_spec(&self, other: &TreeNode) -> bool {
        self@.weight == other@.weight
    }
}

/// Nodes are ordered by weight.
impl PartialOrd for TreeNode {
    fn partial_cmp(&self, other: &TreeNode) -> (order: Option<Ordering>) {
        if self.weight < other.weight {
            Some(Ordering::Less)
        } else if self.weight > other.weight {
            Some(Ordering::Greater)
        } else {
            Some(Ordering::Equal)
        }
    }
}

impl PartialOrdSpecImpl for TreeNode {
    open spec fn obeys_partial_cmp_spec() -> bool {
        true
    }

    open spec fn partial_cmp_spec(&self, other: &TreeNode) -> Option<Ordering> {
        if self@.weight < other@.weight {
            Some(Ordering::Less)
        } else if self@.weight > other@.weight {
            Some(Ordering::Greater)
        } else {
            Some(Ordering::Equal)
        }
    }
}

/// What the nodes of a queue stand for.
pub open spec fn views(nodes: Seq<TreeNode>) -> TreeView {
    Seq::new(nodes.len(), |i: int| nodes[i]@)
}

/// Takes the lighter of the two nodes at the fronts of the queues; the
/// front of the first queue, that of the leaves, where both weigh the same.
fn get_min_from_queues(
    first_queue: &mut VecDeque<TreeNode>,
    second_queue: &mut VecDeque<TreeNode>,
) -> (node: TreeNode)
    requires
        old(first_queue)@.len() + old(second_queue)@.len() > 0,
    ensures
        ({
            let p = Pending {
                leaves: views(old(first_queue)@),
                merged: views(old(second_queue)@),
                arena: Seq::empty(),
            };
            &&& node@ == next_node(p)
            &&& views(final(first_queue)@) == without_next(p).leaves
            &&& views(final(second_queue)@) == without_next(p).merged
        }),
{
    let from_first = if first_queue.len() == 0 {
        false
    } else if second_queue.len() == 0 {
        true
    } else {
        first_queue[0].weight <= second_queue[0].weight
    };
    let popped = if from_first {
        first_queue.pop_front()
    } else {
        second_queue.pop_front()
    };
    proof {
        if from_first {
            assert(views(first_queue@) =~= views(old(first_queue)@).drop_first());
        } else {
            assert(views(second_queue@) =~= views(old(second_queue)@).drop_first());
        }
    }
    match popped {
        Some(node) => node,
        None => unreached(),
    }
}

/// The Huffman tree: the arena of its nodes, and for each graph node the
/// position of its leaf.
#[derive(Debug)]
pub struct HuffmanTree {
    tree_vec: Vec<TreeNode>,
    leaf_id_idx_map: HashMap<NodeID, usize>,
}

impl View for HuffmanTree {
    type V = TreeView;

    closed spec fn view(&self) -> TreeView {
        views(self.tree_vec@)
    }
}

/// What the graph nodes stand for.
pub open spec fn node_views(graph: Seq<&GraphNode>) -> GraphView {
    Seq::new(graph.len(), |i: int| graph[i]@)
}

impl HuffmanTree {
    /// The leaf map holds the position of each leaf, and nothing else.
    pub closed spec fn indexed(&self) -> bool {
        &&& forall|id: NodeID| #[trigger]
            self.leaf_id_idx_map@.contains_key(id) ==> {
                &&& self.leaf_id_idx_map@[id] < self.tree_vec@.len()
                &&& self.tree_vec@[self.leaf_id_idx_map@[id] as int]@.leaf_id == Some(id)
            }
        &&& forall|i: int|
            0 <= i < self.tree_vec@.len() && (#[trigger] self.tree_vec@[i])@.leaf_id is Some ==> {
                &&& self.leaf_id_idx_map@.contains_key(self.tree_vec@[i]@.leaf_id->0)
                &&& self.leaf_id_idx_map@[self.tree_vec@[i]@.leaf_id->0] == i
            }
    }

    /// The invariant of a tree: the arena is a finished tree, and the leaf
    /// map finds its leaves.
    pub open spec fn wf(&self) -> bool {
        &&& self.indexed()
        &&& tree_wf(self@)
    }

    /// Places a node at the end of the arena.
    fn tree_vec_push(&mut self, tree_node: TreeNode)
        ensures
            final(self)@ == old(self)@.push(tree_node@),
            final(self).tree_vec@ == old(self).tree_vec@.push(tree_node),
            final(self).leaf_id_idx_map == old(self).leaf_id_idx_map,
    {
        self.tree_vec.push(tree_node);
        assert(self@ =~= old(self)@.push(tree_node@));
    }

    /// Builds the tree over the given graph nodes, each weighted by its
    /// degree. The leaves wait in ascending order of weight, of two equal
    /// weights the one that was given later first; the inner nodes wait in
    /// the order in which they are made. Each merge takes the two lightest
    /// waiting nodes, a leaf before an inner node of the same weight: the
    /// first taken becomes the right child and the second the left child
    /// of a new inner node. The last node left is the root.
    pub fn new(graph: Vec<&GraphNode>) -> (tree: HuffmanTree)
        requires
            graph@.len() >= 2,
            forall|i: int| 0 <= i < graph@.len() ==> (#[trigger] graph@[i]).wf(),
            distinct_ids(node_views(graph@)),
            total_degree(node_views(graph@)) <= i32::MAX,
        ensures
            tree.wf(),
            tree@ == huffman_arena(node_views(graph@)),
            tree@.len() == 2 * graph@.len() - 1,
            num_inner(tree@) == graph@.len() - 1,
            lightest_first(tree@),
            forall|id: NodeID| has_leaf(tree@, id) <==> has_node(node_views(graph@), id),
            forall|j: int|
                0 <= j < graph@.len() ==> tree@[leaf_index(tree@, (#[trigger] graph@[j])@.id)].weight
                    == graph@[j]@.neighbors.len(),
    {
        let ghost nodes = node_views(graph@);
        let n = graph.len();
        proof {
            lemma_huffman_arena(nodes);
            lemma_start(nodes);
        }
        let mut keys: Vec<LeafKey> = Vec::with_capacity(n);
        let mut j: usize = 0;
        while j < n
            invariant
                n == graph@.len(),
                nodes == node_views(graph@),
                forall|i: int| 0 <= i < graph@.len() ==> (#[trigger] graph@[i]).wf(),
                total_degree(nodes) <= i32::MAX,
                j <= n,
                keys@ == leaf_keys(nodes).take(j as int),
            decreases n - j,
        {
            proof {
                lemma_degree_bounded(nodes, j as int);
            }
            keys.push((graph[j].get_weight(), n - 1 - j));
            assert(keys@ =~= leaf_keys(nodes).take(j + 1));
            j += 1;
        }
        assert(keys@ =~= leaf_keys(nodes));
        sort_keys(&mut keys);
        proof {
            lemma_sorted_keys(leaf_keys(nodes), keys@);
        }
        let mut first_queue: VecDeque<TreeNode> = VecDeque::with_capacity(n);
        let mut k: usize = 0;
        while k < n
            invariant
                n == graph@.len(),
                nodes == node_views(graph@),
                keys@ == leaf_keys(nodes).sort_by(key_order()),
                leaf_queue(nodes).len() == n,
                forall|i: int| 0 <= i < n ==> 0 <= #[trigger] queued_node(nodes, i) < n,
                k <= n,
                views(first_queue@) == leaf_queue(nodes).take(k as int),
            decreases n - k,
        {
            let key = keys[k];
            assert(0 <= queued_node(nodes, k as int) < n);
            let gn = graph[n - 1 - key.1];
            let mut node = TreeNode::new(key.0);
            node.set_leaf_id(gn.get_id());
            let ghost queued = first_queue@;
            proof {
                assert(views(queued).len() == leaf_queue(nodes).take(k as int).len());
                assert(queued.len() == k);
                assert(nodes[n - 1 - key.1] == gn@);
                assert(leaf_queue(nodes)[k as int] == leaf_for(nodes, key));
                assert(node@ == leaf_for(nodes, key));
            }
            first_queue.push_back(node);
            proof {
                assert(first_queue@ == queued.push(node));
                assert forall|i: int| 0 <= i < k + 1 implies #[trigger] views(first_queue@)[i]
                    == leaf_queue(nodes).take(k + 1)[i] by {
                    if i < k {
                        assert(views(queued)[i] == leaf_queue(nodes).take(k as int)[i]);
                    }
                }
                assert(views(first_queue@) =~= leaf_queue(nodes).take(k + 1));
            }
            k += 1;
        }
        assert(views(first_queue@) =~= leaf_queue(nodes));
        let mut second_queue: VecDeque<TreeNode> = VecDeque::with_capacity(n);
        let mut tree_index: usize = 0;

        let mut ht = HuffmanTree { tree_vec: Vec::new(), leaf_id_idx_map: HashMap::new() };
        assert(ht@ =~= Seq::<TreeNodeView>::empty());
        assert(views(second_queue@) =~= Seq::<TreeNodeView>::empty());

        while (first_queue.len() > 0) || (second_queue.len() > 1)
            invariant
                pending_wf(
                    Pending {
                        leaves: views(first_queue@),
                        merged: views(second_queue@),
                        arena: ht@,
                    },
                ),
                pending_weight(
                    Pending {
                        leaves: views(first_queue@),
                        merged: views(second_queue@),
                        arena: ht@,
                    },
                ) <= i32::MAX,
                merge_all(
                    Pending {
                        leaves: views(first_queue@),
                        merged: views(second_queue@),
                        arena: ht@,
                    },
                ) == merge_all(start(nodes)),
                ht.indexed(),
                tree_index == ht@.len() / 2,
            decreases 2 * first_queue@.len() + second_queue@.len(),
        {
            let ghost p = Pending {
                leaves: views(first_queue@),
                merged: views(second_queue@),
                arena: ht@,
            };
            let ghost once = without_next(p);
            let ghost placed_inner = p.arena.len() / 2 - p.merged.len();
            proof {
                lemma_merge_step(p);
                lemma_take_next(p, placed_inner);
                lemma_take_next(
                    once,
                    if leaf_is_next(p) {
                        placed_inner
                    } else {
                        placed_inner + 1
                    },
                );
            }
            let ghost placed_nodes = ht.tree_vec@;
            let ghost placed_leaves = ht.leaf_id_idx_map@;
            let mut right_child = get_min_from_queues(&mut first_queue, &mut second_queue);
            let mut left_child = get_min_from_queues(&mut first_queue, &mut second_queue);
            proof {
                assert(right_child@ == next_node(p));
                assert(left_child@ == next_node(once));
                assert(views(first_queue@) == without_next(once).leaves);
                assert(views(second_queue@) == without_next(once).merged);
            }
            let new_weight = left_child.weight + right_child.weight;

            let left_child_idx = ht.tree_vec.len();
            if let Some(node_id) = left_child.leaf_id {
                ht.leaf_id_idx_map.insert(node_id, left_child_idx);
            }
            left_child.is_right_child = Some(false);
            ht.tree_vec_push(left_child);

            let right_child_idx = ht.tree_vec.len();
            if let Some(node_id) = right_child.leaf_id {
                ht.leaf_id_idx_map.insert(node_id, right_child_idx);
            }
            right_child.is_right_child = Some(true);
            ht.tree_vec_push(right_child);

            let mut new_node = TreeNode::new(new_weight);
            new_node.set_children(left_child_idx, right_child_idx);
            new_node.set_tree_index(tree_index);

            second_queue.push_back(new_node);
            tree_index += 1;
            proof {
                let q = Pending {
                    leaves: views(first_queue@),
                    merged: views(second_queue@),
                    arena: ht@,
                };
                assert(q.merged =~= merge_step(p).merged);
                assert(q.arena =~= merge_step(p).arena);
                assert(q == merge_step(p));
                assert(ht.indexed()) by {
                    let at = p.arena.len() as int;
                    let nodes_now = ht.tree_vec@;
                    let leaves_now = ht.leaf_id_idx_map@;
                    let lid = next_node(once).leaf_id;
                    let rid = next_node(p).leaf_id;
                    assert(nodes_now.len() == at + 2);
                    assert forall|i: int| 0 <= i < at implies (#[trigger] nodes_now[i])
                        == placed_nodes[i] by {
                        assert(q.arena[i] == p.arena[i]);
                    }
                    assert(nodes_now[at]@ == q.arena[at]);
                    assert(nodes_now[at + 1]@ == q.arena[at + 1]);
                    assert(nodes_now[at]@.leaf_id == lid);
                    assert(nodes_now[at + 1]@.leaf_id == rid);
                    assert(arena_wf(q.arena, q.arena.len() / 2 - q.merged.len()));
                    let with_left = if lid is Some {
                        placed_leaves.insert(lid->0, at as usize)
                    } else {
                        placed_leaves
                    };
                    assert(leaves_now == if rid is Some {
                        with_left.insert(rid->0, (at + 1) as usize)
                    } else {
                        with_left
                    });
                    // No placed leaf has the id of one that was taken now.
                    assert forall|i: int| 0 <= i < at implies (#[trigger] placed_nodes[i])@.leaf_id
                        is None || (placed_nodes[i]@.leaf_id != lid && placed_nodes[i]@.leaf_id
                        != rid) by {
                        assert(q.arena[i] == placed_nodes[i]@);
                        assert(q.arena[i].leaf_id is Some ==> q.arena[i].leaf_id
                            != q.arena[at].leaf_id);
                        assert(q.arena[i].leaf_id is Some ==> q.arena[i].leaf_id != q.arena[at
                            + 1].leaf_id);
                    }
                    assert(lid is Some ==> lid != rid) by {
                        assert(q.arena[at].leaf_id is Some ==> q.arena[at].leaf_id != q.arena[at
                            + 1].leaf_id);
                    }
                    assert forall|id: NodeID| #[trigger] leaves_now.contains_key(id) implies {
                        &&& leaves_now[id] < nodes_now.len()
                        &&& nodes_now[leaves_now[id] as int]@.leaf_id == Some(id)
                    } by {
                        if rid == Some(id) {
                        } else if lid == Some(id) {
                        } else {
                            assert(placed_leaves.contains_key(id));
                            assert(nodes_now[placed_leaves[id] as int]
                                == placed_nodes[placed_leaves[id] as int]);
                        }
                    }
                    assert forall|i: int|
                        0 <= i < nodes_now.len() && (#[trigger] nodes_now[i])@.leaf_id
                            is Some implies {
                        &&& leaves_now.contains_key(nodes_now[i]@.leaf_id->0)
                        &&& leaves_now[nodes_now[i]@.leaf_id->0] == i
                    } by {
                        if i < at {
                            assert(nodes_now[i] == placed_nodes[i]);
                            assert(placed_leaves.contains_key(placed_nodes[i]@.leaf_id->0));
                        }
                    }
                }
            }
        }

        proof {
            let p = Pending {
                leaves: views(first_queue@),
                merged: views(second_queue@),
                arena: ht@,
            };
            lemma_finish(p);
        }
        let root_node = match second_queue.pop_front() {
            Some(node) => node,
            None => unreached(),
        };
        let ghost placed_nodes = ht.tree_vec@;
        ht.tree_vec_push(root_node);
        proof {
            assert(ht@ == merge_all(start(nodes)));
            lemma_with_parents(ht@);
            assert(ht.indexed()) by {
                let nodes_now = ht.tree_vec@;
                let len = nodes_now.len() as int;
                assert(nodes_now == placed_nodes.push(root_node));
                assert(ht@[len - 1] == root_node@);
                assert(root_shaped(ht@));
                assert(root_node@.leaf_id is None);
                assert forall|i: int| 0 <= i < len - 1 implies (#[trigger] nodes_now[i])
                    == placed_nodes[i] by {}
                assert forall|id: NodeID| #[trigger]
                    ht.leaf_id_idx_map@.contains_key(id) implies {
                    &&& ht.leaf_id_idx_map@[id] < nodes_now.len()
                    &&& nodes_now[ht.leaf_id_idx_map@[id] as int]@.leaf_id == Some(id)
                } by {
                    assert(nodes_now[ht.leaf_id_idx_map@[id] as int]
                        == placed_nodes[ht.leaf_id_idx_map@[id] as int]);
                }
                assert forall|i: int|
                    0 <= i < nodes_now.len() && (#[trigger] nodes_now[i])@.leaf_id
                        is Some implies {
                    &&& ht.leaf_id_idx_map@.contains_key(nodes_now[i]@.leaf_id->0)
                    &&& ht.leaf_id_idx_map@[nodes_now[i]@.leaf_id->0] == i
                } by {
                    assert(i < len - 1);
                    assert(nodes_now[i] == placed_nodes[i]);
                }
            }
        }
        ht.update_parents();
        proof {
            assert forall|j: int| 0 <= j < graph@.len() implies ht@[leaf_index(
                ht@,
                (#[trigger] graph@[j])@.id,
            )].weight == graph@[j]@.neighbors.len() by {
                assert(nodes[j] == graph@[j]@);
            }
        }
        ht
    }

    /// The number of nodes of the tree, leaves and inner nodes together.
    pub fn num_nodes(&self) -> (n: usize)
        ensures
            n == self@.len(),
    {
        self.tree_vec.len()
    }

    /// The position of the leaf of `node_id`.
    fn leaf_position(&self, node_id: &NodeID) -> (index: usize)
        requires
            self.wf(),
            has_leaf(self@, *node_id),
        ensures
            index == leaf_index(self@, *node_id),
            index < self@.len(),
    {
        proof {
            let i = leaf_index(self@, *node_id);
            assert(self.tree_vec@[i]@.leaf_id == Some(*node_id));
            lemma_leaf_index(self@, i);
        }
        match self.leaf_id_idx_map.get(node_id) {
            Some(index) => *index,
            None => unreached(),
        }
    }

    /// The path from the leaf of `node_id` up to the root: for each step
    /// the index of the output vector of the inner node that it reaches,
    /// and `1` if it comes from that node's right child, `-1` if from its
    /// left child.
    pub fn get_indices_and_turns(&self, node_id: &NodeID) -> (path: Vec<(usize, i8)>)
        requires
            self.wf(),
            has_leaf(self@, *node_id),
        ensures
            turns(path@) == path_from(self@, leaf_index(self@, *node_id)),
            path@.len() == depth(self@, leaf_index(self@, *node_id)),
            forall|j: int|
                0 <= j < path@.len() ==> (#[trigger] path@[j]).0 < num_inner(self@) && (path@[j].1
                    == 1 || path@[j].1 == -1),
    {
        let is_right_child = self.get_encoding(node_id);
        let node_indexes = self.get_tree_indexes(node_id);
        let ghost leaf = leaf_index(self@, *node_id);
        proof {
            lemma_path_parts(self@, leaf);
            assert(signs(is_right_child@).len() == depth(self@, leaf));
            assert(positions(node_indexes@).len() == depth(self@, leaf));
        }
        let mut path: Vec<(usize, i8)> = Vec::new();
        let mut j: usize = 0;
        while j < node_indexes.len()
            invariant
                node_indexes@.len() == is_right_child@.len(),
                j <= node_indexes@.len(),
                path@.len() == j,
                forall|k: int|
                    0 <= k < j ==> (#[trigger] path@[k]) == (node_indexes@[k], is_right_child@[k]),
            decreases node_indexes@.len() - j,
        {
            path.push((node_indexes[j], is_right_child[j]));
            j += 1;
        }
        proof {
            assert forall|k: int| 0 <= k < path@.len() implies (#[trigger] turns(path@)[k])
                == path_from(self@, leaf)[k] by {
                assert(positions(node_indexes@)[k] == indexes_from(self@, leaf)[k]);
                assert(signs(is_right_child@)[k] == encoding_from(self@, leaf)[k]);
            }
            assert(turns(path@) =~= path_from(self@, leaf));
            assert forall|j: int| 0 <= j < path@.len() implies (#[trigger] path@[j]).0
                < num_inner(self@) && (path@[j].1 == 1 || path@[j].1 == -1) by {
                lemma_path_in_range(self@, leaf, j);
                assert(turns(path@)[j] == path_from(self@, leaf)[j]);
            }
        }
        path
    }

    /// The signs of the steps from the leaf of `node_id` up to the root:
    /// `1` for a step from a right child, `-1` for one from a left child.
    pub fn get_encoding(&self, node_id: &NodeID) -> (encoding: Vec<i8>)
        requires
            self.wf(),
            has_leaf(self@, *node_id),
        ensures
            signs(encoding@) == encoding_from(self@, leaf_index(self@, *node_id)),
    {
        let index = self.leaf_position(node_id);
        let mut encoding: Vec<i8> = Vec::new();
        let mut curr = &self.tree_vec[index];
        let ghost mut at: int = index as int;
        let ghost t = self@;
        assert(signs(encoding@) =~= Seq::<int>::empty());
        while curr.is_right_child.is_some()
            invariant
                self.wf(),
                t == self@,
                0 <= at < t.len(),
                *curr == self.tree_vec@[at],
                signs(encoding@) + encoding_from(t, at) == encoding_from(t, index as int),
            decreases t.len() - at,
        {
            let rc = match curr.is_right_child {
                Some(rc) => rc,
                None => unreached(),
            };
            proof {
                assert(settled(t, at));
            }
            let to_add: i8 = if rc {
                1
            } else {
                -1
            };
            let ghost before = signs(encoding@);
            encoding.push(to_add);
            let parent_id = match curr.parent {
                Some(parent_id) => parent_id,
                None => unreached(),
            };
            proof {
                assert(signs(encoding@) =~= before.push(sign_of(t[at])));
                assert(before.push(sign_of(t[at])) + encoding_from(t, parent_id as int) =~= before
                    + encoding_from(t, at));
            }
            curr = &self.tree_vec[parent_id];
            proof {
                at = parent_id as int;
            }
        }
        proof {
            assert(at == t.len() - 1) by {
                if at < t.len() - 1 {
                    assert(settled(t, at));
                }
            }
            assert(root_shaped(t));
            assert(encoding_from(t, at) =~= Seq::<int>::empty());
            assert(signs(encoding@) =~= signs(encoding@) + encoding_from(t, at));
        }
        encoding
    }

    /// The indexes of the inner nodes from the parent of the leaf of
    /// `node_id` up to the root.
    fn get_tree_indexes(&self, node_id: &NodeID) -> (indices: Vec<usize>)
        requires
            self.wf(),
            has_leaf(self@, *node_id),
        ensures
            positions(indices@) == indexes_from(self@, leaf_index(self@, *node_id)),
    {
        let index = self.leaf_position(node_id);
        let mut indices: Vec<usize> = Vec::new();
        let mut curr = &self.tree_vec[index];
        let ghost mut at: int = index as int;
        let ghost t = self@;
        assert(positions(indices@) =~= Seq::<int>::empty());
        while curr.parent.is_some()
            invariant
                self.wf(),
                t == self@,
                0 <= at < t.len(),
                *curr == self.tree_vec@[at],
                positions(indices@) + indexes_from(t, at) == indexes_from(t, index as int),
            decreases t.len() - at,
        {
            let p = match curr.parent {
                Some(p) => p,
                None => unreached(),
            };
            proof {
                if at < t.len() - 1 {
                    assert(settled(t, at));
                } else {
                    assert(root_shaped(t));
                }
                if p < t.len() - 1 {
                    assert(settled(t, p as int));
                } else {
                    assert(root_shaped(t));
                }
            }
            curr = &self.tree_vec[p];
            let tree_index = match curr.tree_index {
                Some(tree_index) => tree_index,
                None => unreached(),
            };
            let ghost before = positions(indices@);
            indices.push(tree_index);
            proof {
                assert(positions(indices@) =~= before.push(t[p as int].tree_index->0));
                assert(before.push(t[p as int].tree_index->0) + indexes_from(t, p as int)
                    =~= before + indexes_from(t, at));
                at = p as int;
            }
        }
        proof {
            assert(indexes_from(t, at) =~= Seq::<int>::empty());
            assert(positions(indices@) =~= positions(indices@) + indexes_from(t, at));
        }
        indices
    }

    /// Assigns each node but the root its parent, in one pass from the root
    /// down that keeps the nodes still to visit on a stack.
    fn update_parents(&mut self)
        requires
            linked_down(old(self)@),
            old(self).indexed(),
        ensures
            final(self)@ == with_parents(old(self)@),
            final(self).indexed(),
    {
        let ghost t0 = self@;
        let mut stack: Vec<(usize, usize)> = Vec::new();
        let n = self.tree_vec.len();
        let ghost merges = (n - 1) / 2;
        proof {
            assert(root_shaped(t0));
            assert(t0[n - 1] == self.tree_vec@[n - 1]@);
        }
        let root_left = match self.tree_vec[n - 1].left {
            Some(l) => l,
            None => unreached(),
        };
        let root_right = match self.tree_vec[n - 1].right {
            Some(r) => r,
            None => unreached(),
        };
        stack.push((root_left, n - 1));
        stack.push((root_right, n - 1));
        proof {
            let k = merges - 1;
            assert(root_left == 2 * k && root_right == 2 * k + 1);
            assert(root_left == n - 3 && root_right == n - 2);
            assert((2 * k) / 2 == k && (2 * k + 1) / 2 == k);
            // The inner node of the last merge is the root.
            let h = holder(t0, k);
            assert(0 <= h < n && t0[h].tree_index == Some(k));
            if h < n - 1 {
                assert(t0[h].tree_index != t0[n - 1].tree_index);
            }
            assert(parent_of(t0, root_left as int) == n - 1);
            assert(parent_of(t0, root_right as int) == n - 1);
            assert forall|i: int| 0 <= i < n implies (#[trigger] t0[i]).parent is None by {
                if i < n - 1 {
                    assert(placed(t0, i, merges));
                }
            }
            assert(stack@[0] == (root_left, (n - 1) as usize));
            assert(stack@[1] == (root_right, (n - 1) as usize));
            assert forall|i: int| 0 <= i < n - 1 implies {
                ||| t0[i].parent is Some
                ||| on_stack(stack@, i)
                ||| #[trigger] parent_of(t0, i) < n - 1 && t0[parent_of(t0, i)].parent is None
            } by {
                if i == n - 3 {
                    assert(stack@[0].0 == i);
                } else if i == n - 2 {
                    assert(stack@[1].0 == i);
                } else {
                    let h2 = holder(t0, i / 2);
                    assert(placed(t0, i, merges));
                    assert(0 <= i / 2 < merges);
                    assert(0 <= h2 < n && t0[h2].tree_index == Some(i / 2));
                }
            }
            assert(parent_pass(t0, t0, stack@));
        }
        while stack.len() > 0
            invariant
                linked_down(t0),
                t0.len() == n,
                self.tree_vec@.len() == n,
                parent_pass(t0, self@, stack@),
                self.leaf_id_idx_map == old(self).leaf_id_idx_map,
            decreases num_orphans(self@),
        {
            let ghost t = self@;
            let ghost before = stack@;
            proof {
                lemma_parent_pass_step(t0, t, before);
            }
            let (next, parent) = match stack.pop() {
                Some(entry) => entry,
                None => unreached(),
            };
            assert(stack@ =~= before.drop_last());
            self.tree_vec[next].set_parent(parent);
            assert(self@ =~= arena_after(t, before));
            match (self.tree_vec[next].left, self.tree_vec[next].right) {
                (Some(l), Some(r)) => {
                    stack.push((l, next));
                    stack.push((r, next));
                    ()
                },
                (_, _) => (),
            }
            assert(stack@ =~= stack_after(t, before));
        }
        proof {
            let t = self@;
            assert(stack@ =~= Seq::<(usize, usize)>::empty());
            assert forall|i: int| 0 <= i < n implies #[trigger] t[i] == with_parents(t0)[i] by {
                assert(t[i] == TreeNodeView { parent: t[i].parent, ..t0[i] });
                if i < n - 1 {
                    lemma_parent_pass_done(t0, t, i);
                    assert(t[i].parent == Some(parent_of(t0, i)));
                } else {
                    if t[i].parent is Some {
                        assert(t[i].parent == Some(parent_of(t0, i)));
                    }
                }
            }
            assert(t =~= with_parents(t0));
            assert(self.indexed()) by {
                assert forall|i: int| 0 <= i < n implies (#[trigger] self.tree_vec@[i])@.leaf_id
                    == old(self).tree_vec@[i]@.leaf_id by {
                    assert(t[i] == TreeNodeView { parent: t[i].parent, ..t0[i] });
                }
            }
        }
    }
}

} // verus!
