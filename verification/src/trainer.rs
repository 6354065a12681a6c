//! What a training run decides: the order of the epochs, the order in which
//! an epoch starts its walks, and for each walk the updates of the
//! sliding window.
use crate::graph::{Graph, GraphView, NodeID, has_node, index_of, is_walk};
use crate::tree_model::{TreeView, has_leaf, leaf_index, num_inner};
use crate::merging::huffman_arena;
use crate::huffman_tree::{HuffmanTree, node_views};
use crate::tree_paths::{path_from, turns};
use vstd::seq_lib::group_to_multiset_ensures;
use rand::seq::SliceRandom;
use vstd::prelude::*;

verus! {

/// The first position of the window around `position`.
pub open spec fn window_start(position: int, window_size: int) -> int {
    if position >= window_size {
        position - window_size
    } else {
        0
    }
}

/// The position behind the last one of the window around `position`.
pub open spec fn window_end(position: int, window_size: int, walk_len: int) -> int {
    if position + window_size <= walk_len {
        position + window_size
    } else {
        walk_len
    }
}

/// The number of context positions of `position`: those of its window but
/// itself.
pub open spec fn context_len(position: int, window_size: int, walk_len: int) -> int {
    let start = window_start(position, window_size);
    let end = window_end(position, window_size, walk_len);
    if end <= start {
        0
    } else if position < end {
        end - start - 1
    } else {
        end - start
    }
}

/// The `k`-th context position of `position`, in ascending order.
pub open spec fn context_at(position: int, window_size: int, k: int) -> int {
    let start = window_start(position, window_size);
    if start + k < position {
        start + k
    } else {
        start + k + 1
    }
}

/// The pairs of a target position and one of its context positions.
pub open spec fn pairs_at(position: int, window_size: int, walk_len: int) -> Seq<(int, int)> {
    Seq::new(
        context_len(position, window_size, walk_len) as nat,
        |k: int| (position, context_at(position, window_size, k)),
    )
}

/// The pairs of the first `upto` target positions of a walk, target by
/// target.
pub open spec fn window_pairs_upto(window_size: int, walk_len: int, upto: int) -> Seq<(int, int)>
    decreases upto,
{
    if upto <= 0 {
        Seq::empty()
    } else {
        window_pairs_upto(window_size, walk_len, upto - 1) + pairs_at(
            upto - 1,
            window_size,
            walk_len,
        )
    }
}

/// All pairs of a walk of `walk_len` steps.
pub open spec fn window_pairs_of(window_size: int, walk_len: int) -> Seq<(int, int)> {
    window_pairs_upto(window_size, walk_len, walk_len)
}

/// The pairs as pairs of integers.
pub open spec fn positions_of(pairs: Seq<(usize, usize)>) -> Seq<(int, int)> {
    Seq::new(pairs.len(), |k: int| (pairs[k].0 as int, pairs[k].1 as int))
}

/// Each pair holds two different positions of the walk, the second within
/// the window of the first.
pub proof fn lemma_window_pairs(window_size: int, walk_len: int, upto: int, k: int)
    requires
        0 <= window_size,
        0 <= upto <= walk_len,
        0 <= k < window_pairs_upto(window_size, walk_len, upto).len(),
    ensures
        ({
            let pair = window_pairs_upto(window_size, walk_len, upto)[k];
            &&& 0 <= pair.0 < upto
            &&& window_start(pair.0, window_size) <= pair.1 < window_end(
                pair.0,
                window_size,
                walk_len,
            )
            &&& 0 <= pair.1 < walk_len
            &&& pair.0 != pair.1
        }),
    decreases upto,
{
    let before = window_pairs_upto(window_size, walk_len, upto - 1);
    if k < before.len() {
        lemma_window_pairs(window_size, walk_len, upto - 1, k);
    }
}

/// The bounds of the window around `position`: it reaches `window_size`
/// positions back, as far as the walk goes, and ends `window_size`
/// positions on or with the walk.
pub fn context_window(position: usize, window_size: usize, walk_len: usize) -> (bounds: (
    usize,
    usize,
))
    ensures
        bounds.0 == window_start(position as int, window_size as int),
        bounds.1 == window_end(position as int, window_size as int, walk_len as int),
{
    let start = if window_size > position {
        0
    } else {
        position - window_size
    };
    let end = if position >= walk_len {
        walk_len
    } else if window_size >= walk_len - position {
        walk_len
    } else {
        position + window_size
    };
    (start, end)
}

/// The pairs of target and context position that the sliding window gives
/// on a walk of `walk_len` steps, in the order in which they are trained:
/// target by target, and for each target its context positions in
/// ascending order.
pub fn window_pairs(walk_len: usize, window_size: usize) -> (pairs: Vec<(usize, usize)>)
    ensures
        positions_of(pairs@) == window_pairs_of(window_size as int, walk_len as int),
{
    let mut pairs: Vec<(usize, usize)> = Vec::new();
    let mut v: usize = 0;
    assert(positions_of(pairs@) =~= window_pairs_upto(window_size as int, walk_len as int, 0));
    while v < walk_len
        invariant
            v <= walk_len,
            positions_of(pairs@) == window_pairs_upto(
                window_size as int,
                walk_len as int,
                v as int,
            ),
        decreases walk_len - v,
    {
        let (start, end) = context_window(v, window_size, walk_len);
        let ghost done = positions_of(pairs@);
        let ghost here = pairs_at(v as int, window_size as int, walk_len as int);
        let mut u = start;
        assert(done + here.take(0) =~= done);
        while u < end
            invariant
                v < walk_len,
                start == window_start(v as int, window_size as int),
                end == window_end(v as int, window_size as int, walk_len as int),
                here == pairs_at(v as int, window_size as int, walk_len as int),
                start <= u,
                u <= end || u == start,
                positions_of(pairs@) == done + here.take(
                    if u <= v {
                        u - start
                    } else {
                        u - start - 1
                    },
                ),
            decreases end - u,
        {
            if u != v {
                let ghost before = positions_of(pairs@);
                let ghost taken: int = if u <= v {
                    u - start
                } else {
                    u - start - 1
                };
                pairs.push((v, u));
                proof {
                    assert(here[taken] == (v as int, u as int));
                    assert(positions_of(pairs@) =~= before.push((v as int, u as int)));
                    assert(here.take(taken + 1) =~= here.take(taken).push(here[taken]));
                    assert(done + here.take(taken + 1) =~= (done + here.take(taken)).push(
                        here[taken],
                    ));
                }
            }
            u += 1;
        }
        proof {
            let taken: int = if u <= v {
                u - start
            } else {
                u - start - 1
            };
            assert(here.take(taken) =~= here);
        }
        v += 1;
    }
    pairs
}


/// The Huffman tree of the graph's nodes, taken in the order of their dense
/// indices; `None` for a graph of fewer than two nodes, which has no tree.
/// Every node of the graph has its leaf, and the tree has no other.
pub fn tree_of(graph: &Graph) -> (tree: Option<HuffmanTree>)
    requires
        graph.wf(),
    ensures
        tree is None <==> graph@.len() < 2,
        tree matches Some(t) ==> {
            &&& t.wf()
            &&& t@ == huffman_arena(graph@)
            &&& t@.len() == 2 * graph@.len() - 1
            &&& num_inner(t@) == graph@.len() - 1
            &&& forall|id: NodeID| has_leaf(t@, id) <==> has_node(graph@, id)
        },
{
    if graph.num_nodes() < 2 {
        None
    } else {
        let nodes = graph.get_node_iter();
        assert(node_views(nodes@) =~= graph@);
        Some(HuffmanTree::new(nodes))
    }
}

/// One update of the embedding: the dense index of the target node, whose
/// input vector is trained, and the path of the context node through the
/// tree, whose output vectors are trained with it.
#[derive(Debug)]
pub struct Update {
    pub target: usize,
    pub path: Vec<(usize, i8)>,
}

/// Whether `update` is the update of the pair of positions `pair` of `walk`.
pub open spec fn is_update_of(
    update: Update,
    graph: GraphView,
    tree: TreeView,
    walk: Seq<NodeID>,
    pair: (int, int),
) -> bool {
    &&& update.target == index_of(graph, walk[pair.0])
    &&& turns(update.path@) == path_from(tree, leaf_index(tree, walk[pair.1]))
}

/// The updates of one walk, in the order in which they are trained: for
/// each pair of the sliding window the target's dense index and the
/// context node's path. Every index fits the tables of a model of the
/// graph: a target is less than the number of nodes, a step of a path less
/// than the number of inner nodes of the tree.
pub fn walk_updates(
    graph: &Graph,
    huffman_tree: &HuffmanTree,
    walk: &Vec<NodeID>,
    window_size: usize,
) -> (updates: Vec<Update>)
    requires
        graph.wf(),
        huffman_tree.wf(),
        forall|i: int|
            0 <= i < walk@.len() ==> has_node(graph@, #[trigger] walk@[i]) && has_leaf(
                huffman_tree@,
                walk@[i],
            ),
    ensures
        updates@.len() == window_pairs_of(window_size as int, walk@.len() as int).len(),
        forall|k: int|
            0 <= k < updates@.len() ==> is_update_of(
                #[trigger] updates@[k],
                graph@,
                huffman_tree@,
                walk@,
                window_pairs_of(window_size as int, walk@.len() as int)[k],
            ),
        forall|k: int| 0 <= k < updates@.len() ==> (#[trigger] updates@[k]).target < graph@.len(),
        forall|k: int, j: int|
            0 <= k < updates@.len() && 0 <= j < updates@[k].path@.len() ==> (
            #[trigger] updates@[k].path@[j]).0 < num_inner(huffman_tree@) && (
            updates@[k].path@[j].1 == 1 || updates@[k].path@[j].1 == -1),
{
    let pairs = window_pairs(walk.len(), window_size);
    let ghost all = window_pairs_of(window_size as int, walk@.len() as int);
    let mut updates: Vec<Update> = Vec::with_capacity(pairs.len());
    let mut k: usize = 0;
    assert(positions_of(pairs@).len() == pairs@.len());
    while k < pairs.len()
        invariant
            graph.wf(),
            huffman_tree.wf(),
            forall|i: int|
                0 <= i < walk@.len() ==> has_node(graph@, #[trigger] walk@[i]) && has_leaf(
                    huffman_tree@,
                    walk@[i],
                ),
            all == window_pairs_of(window_size as int, walk@.len() as int),
            positions_of(pairs@) == all,
            all.len() == pairs@.len(),
            k <= pairs@.len(),
            updates@.len() == k,
            forall|m: int|
                0 <= m < k ==> is_update_of(
                    #[trigger] updates@[m],
                    graph@,
                    huffman_tree@,
                    walk@,
                    all[m],
                ),
            forall|m: int| 0 <= m < k ==> (#[trigger] updates@[m]).target < graph@.len(),
            forall|m: int, j: int|
                0 <= m < k && 0 <= j < updates@[m].path@.len() ==> (
                #[trigger] updates@[m].path@[j]).0 < num_inner(huffman_tree@) && (
                updates@[m].path@[j].1 == 1 || updates@[m].path@[j].1 == -1),
        decreases pairs@.len() - k,
    {
        let (v, u) = pairs[k];
        proof {
            lemma_window_pairs(
                window_size as int,
                walk@.len() as int,
                walk@.len() as int,
                k as int,
            );
            assert(positions_of(pairs@)[k as int] == (v as int, u as int));
        }
        let target = match graph.get_node_idx(&walk[v]) {
            Some(idx) => *idx,
            None => unreached(),
        };
        proof {
            let i = index_of(graph@, walk@[v as int]);
            assert(0 <= i < graph@.len());
        }
        let path = huffman_tree.get_indices_and_turns(&walk[u]);
        updates.push(Update { target, path });
        k += 1;
    }
    updates
}

/// The updates of the walk that starts at `node`: a random walk of
/// `walk_len` steps, and the updates of its sliding window. A node without
/// neighbours has no walk and so no updates.
pub fn node_updates(
    graph: &Graph,
    huffman_tree: &HuffmanTree,
    node: &NodeID,
    walk_len: usize,
    window_size: usize,
) -> (updates: Vec<Update>)
    requires
        graph.wf(),
        huffman_tree.wf(),
        forall|id: NodeID| has_node(graph@, id) ==> has_leaf(huffman_tree@, id),
        has_node(graph@, *node),
    ensures
        exists|walk: Seq<NodeID>|
            {
                &&& is_walk(graph@, *node, walk)
                &&& walk.len() == (if crate::graph::neighbors_of(graph@, *node).len() == 0 {
                    0
                } else {
                    walk_len as int
                })
                &&& #[trigger] window_pairs_of(window_size as int, walk.len() as int).len()
                    == updates@.len()
                &&& forall|k: int|
                    0 <= k < updates@.len() ==> is_update_of(
                        #[trigger] updates@[k],
                        graph@,
                        huffman_tree@,
                        walk,
                        window_pairs_of(window_size as int, walk.len() as int)[k],
                    )
            },
        forall|k: int| 0 <= k < updates@.len() ==> (#[trigger] updates@[k]).target < graph@.len(),
        forall|k: int, j: int|
            0 <= k < updates@.len() && 0 <= j < updates@[k].path@.len() ==> (
            #[trigger] updates@[k].path@[j]).0 < num_inner(huffman_tree@) && (
            updates@[k].path@[j].1 == 1 || updates@[k].path@[j].1 == -1),
{
    let walk = graph.random_walk(node, walk_len);
    let updates = walk_updates(graph, huffman_tree, &walk, window_size);
    assert(window_pairs_of(window_size as int, walk@.len() as int).len() == updates@.len());
    updates
}

/// The number of workers of an epoch: as many as are configured, but no
/// more than there are nodes to start a walk from.
pub fn pool_size(nthreads: usize, num_nodes: usize) -> (workers: usize)
    ensures
        workers == (if num_nodes > nthreads {
            nthreads
        } else {
            num_nodes
        }),
{
    if num_nodes > nthreads {
        nthreads
    } else {
        num_nodes
    }
}

/// The ids of the graph's nodes, in the order of their dense indices: the
/// working set that every epoch shuffles.
pub fn node_ids(graph: &Graph) -> (ids: Vec<NodeID>)
    requires
        graph.wf(),
    ensures
        ids@.len() == graph@.len(),
        forall|i: int| 0 <= i < ids@.len() ==> #[trigger] ids@[i] == graph@[i].id,
{
    let nodes = graph.get_node_iter();
    let mut ids: Vec<NodeID> = Vec::with_capacity(nodes.len());
    let mut i: usize = 0;
    while i < nodes.len()
        invariant
            nodes@.len() == graph@.len(),
            forall|j: int| 0 <= j < nodes@.len() ==> (#[trigger] nodes@[j])@ == graph@[j],
            i <= nodes@.len(),
            ids@.len() == i,
            forall|j: int| 0 <= j < i ==> #[trigger] ids@[j] == graph@[j].id,
        decreases nodes@.len() - i,
    {
        ids.push(nodes[i].get_id());
        i += 1;
    }
    ids
}

/// Calls `rand::seq::SliceRandom::shuffle` on the ids with the generator of
/// `rand::thread_rng`. Assumed of it: it only swaps entries, so the ids are
/// the same afterwards, each as often as before. Their order is left open.
#[verifier::external_body]
fn shuffle_in_place(ids: &mut Vec<NodeID>)
    ensures
        final(ids)@.to_multiset() == old(ids)@.to_multiset(),
{
    ids.shuffle(&mut rand::thread_rng());
}

/// Puts the node ids into a random order for the next epoch. Every id
/// stays, as often as it was there.
pub fn shuffle_nodes(node_ids: &mut Vec<NodeID>)
    ensures
        final(node_ids)@.to_multiset() == old(node_ids)@.to_multiset(),
        final(node_ids)@.len() == old(node_ids)@.len(),
        forall|i: int|
            0 <= i < final(node_ids)@.len() ==> old(node_ids)@.contains(
                #[trigger] final(node_ids)@[i],
            ),
        forall|i: int|
            0 <= i < old(node_ids)@.len() ==> final(node_ids)@.contains(
                #[trigger] old(node_ids)@[i],
            ),
{
    broadcast use group_to_multiset_ensures;

    shuffle_in_place(node_ids);
    proof {
        let before = old(node_ids)@;
        let after = node_ids@;
        assert(after.to_multiset().len() == after.len());
        assert(before.to_multiset().len() == before.len());
        assert forall|i: int| 0 <= i < after.len() implies before.contains(
            #[trigger] after[i],
        ) by {
            assert(after.contains(after[i]));
            assert(after.to_multiset().count(after[i]) > 0);
        }
        assert forall|i: int| 0 <= i < before.len() implies after.contains(
            #[trigger] before[i],
        ) by {
            assert(before.contains(before[i]));
            assert(before.to_multiset().count(before[i]) > 0);
        }
    }
}

/// Where a run stands: before its first epoch, in one of its epochs, which
/// are numbered from 0, or behind the last.
#[derive(Clone, Copy, Debug, PartialEq, Eq)]
pub enum TrainerState {
    Initialized,
    Epoch(usize),
    Finished,
}

/// The state that follows `state` in a run of `num_epochs` epochs.
pub open spec fn next_state(state: TrainerState, num_epochs: usize) -> TrainerState {
    match state {
        TrainerState::Initialized => if num_epochs > 0 {
            TrainerState::Epoch(0)
        } else {
            TrainerState::Finished
        },
        TrainerState::Epoch(epoch) => if epoch + 1 < num_epochs {
            TrainerState::Epoch((epoch + 1) as usize)
        } else {
            TrainerState::Finished
        },
        TrainerState::Finished => TrainerState::Finished,
    }
}

/// The state of a run of `num_epochs` epochs after `steps` steps.
pub open spec fn state_after(num_epochs: usize, steps: nat) -> TrainerState
    decreases steps,
{
    if steps == 0 {
        TrainerState::Initialized
    } else {
        next_state(state_after(num_epochs, (steps - 1) as nat), num_epochs)
    }
}

/// A run goes through its epochs in order, each once, and is finished
/// after the last: it ends after the configured number of epochs and never
/// earlier.
pub proof fn lemma_run_of_epochs(num_epochs: usize, steps: nat)
    ensures
        steps == 0 ==> state_after(num_epochs, steps) == TrainerState::Initialized,
        1 <= steps <= num_epochs ==> state_after(num_epochs, steps) == TrainerState::Epoch(
            (steps - 1) as usize,
        ),
        steps > num_epochs ==> state_after(num_epochs, steps) == TrainerState::Finished,
    decreases steps,
{
    if steps > 0 {
        lemma_run_of_epochs(num_epochs, (steps - 1) as nat);
    }
}

impl TrainerState {
    /// The start of a run.
    pub fn new() -> (state: TrainerState)
        ensures
            state == TrainerState::Initialized,
    {
        TrainerState::Initialized
    }

    /// The next state of a run of `num_epochs` epochs: the first epoch,
    /// the epoch after this one, or the end of the run.
    pub fn next(self, num_epochs: usize) -> (state: TrainerState)
        ensures
            state == next_state(self, num_epochs),
    {
        match self {
            TrainerState::Initialized => if num_epochs > 0 {
                TrainerState::Epoch(0)
            } else {
                TrainerState::Finished
            },
            TrainerState::Epoch(epoch) => if epoch < num_epochs && epoch + 1 < num_epochs {
                TrainerState::Epoch(epoch + 1)
            } else {
                TrainerState::Finished
            },
            TrainerState::Finished => TrainerState::Finished,
        }
    }
}

} // verus!
