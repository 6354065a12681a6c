//! An undirected multigraph held as adjacency lists, and random walks over it.
use crate::edge_list::{ParseError, edges_of, parse_edge_list};
use rand::seq::SliceRandom;
use std::collections::HashMap;
use vstd::prelude::*;

verus! {

broadcast use vstd::std_specs::hash::group_hash_axioms;

/// The identity of a node, as the edge list gives it.
pub type NodeID = i32;

/// What a node stands for: its identity and the sequence of its neighbours,
/// one entry for each edge end that touches it.
pub struct NodeView {
    pub id: NodeID,
    pub neighbors: Seq<NodeID>,
}

/// A graph is modelled as the sequence of its nodes in the order in which
/// they were first seen; a node's position is its dense index.
pub type GraphView = Seq<NodeView>;

/// Whether the graph holds a node of this id.
pub open spec fn has_node(g: GraphView, id: NodeID) -> bool {
    exists|i: int| 0 <= i < g.len() && (#[trigger] g[i]).id == id
}

/// The dense index of `id`; meaningful where `has_node(g, id)`.
pub open spec fn index_of(g: GraphView, id: NodeID) -> int {
    choose|i: int| 0 <= i < g.len() && (#[trigger] g[i]).id == id
}

/// The neighbour sequence of the node `id`; meaningful where
/// `has_node(g, id)`.
pub open spec fn neighbors_of(g: GraphView, id: NodeID) -> Seq<NodeID> {
    g[index_of(g, id)].neighbors
}

/// No two nodes have one id.
pub open spec fn distinct_ids(g: GraphView) -> bool {
    forall|i: int, j: int| 0 <= i < j < g.len() ==> (#[trigger] g[i]).id != (#[trigger] g[j]).id
}

/// Every neighbour is itself a node, and lists the node it was reached from.
pub open spec fn linked_both_ways(g: GraphView) -> bool {
    forall|i: int, k: int|
        0 <= i < g.len() && 0 <= k < g[i].neighbors.len() ==> {
            &&& has_node(g, #[trigger] g[i].neighbors[k])
            &&& neighbors_of(g, g[i].neighbors[k]).contains(g[i].id)
        }
}

/// What holds of every graph that was built from edges.
pub open spec fn graph_wf(g: GraphView) -> bool {
    &&& distinct_ids(g)
    &&& linked_both_ways(g)
}

/// The number of edge ends: the sum of all degrees.
pub open spec fn total_degree(g: GraphView) -> int
    decreases g.len(),
{
    if g.len() == 0 {
        0
    } else {
        total_degree(g.drop_last()) + g.last().neighbors.len()
    }
}

/// The graph with `id` present: unchanged if it was, else with a new isolated
/// node at the next dense index.
pub open spec fn touch(g: GraphView, id: NodeID) -> GraphView {
    if has_node(g, id) {
        g
    } else {
        g.push(NodeView { id, neighbors: Seq::empty() })
    }
}

/// The graph with `to` appended to the neighbours of `from`.
pub open spec fn link(g: GraphView, from: NodeID, to: NodeID) -> GraphView {
    let i = index_of(g, from);
    g.update(i, NodeView { id: from, neighbors: g[i].neighbors.push(to) })
}

/// The graph after the undirected edge `(u, v)` was added.
pub open spec fn add_edge(g: GraphView, u: NodeID, v: NodeID) -> GraphView {
    link(link(touch(touch(g, u), v), u, v), v, u)
}

/// The graph after the edges were added one after the other.
pub open spec fn build_from(g: GraphView, edges: Seq<(NodeID, NodeID)>) -> GraphView
    decreases edges.len(),
{
    if edges.len() == 0 {
        g
    } else {
        add_edge(build_from(g, edges.drop_last()), edges.last().0, edges.last().1)
    }
}

/// The pairs that a list of two-element edges holds.
pub open spec fn edge_pairs(edge_list: Seq<Vec<NodeID>>) -> Seq<(NodeID, NodeID)> {
    Seq::new(edge_list.len(), |i: int| (edge_list[i]@[0], edge_list[i]@[1]))
}

/// `path` can be walked from `start`: each step goes to a neighbour of the
/// node before it.
pub open spec fn is_walk(g: GraphView, start: NodeID, path: Seq<NodeID>) -> bool {
    forall|i: int|
        0 <= i < path.len() ==> {
            &&& has_node(g, #[trigger] path[i])
            &&& neighbors_of(g, if i == 0 { start } else { path[i - 1] }).contains(path[i])
        }
}

/// Where ids are distinct, the node at `i` is the node of its id.
pub proof fn lemma_index_of(g: GraphView, i: int)
    requires
        distinct_ids(g),
        0 <= i < g.len(),
    ensures
        has_node(g, g[i].id),
        index_of(g, g[i].id) == i,
{
    let j = index_of(g, g[i].id);
    assert(0 <= j < g.len() && g[j].id == g[i].id);
    if j < i {
        assert(g[j].id != g[i].id);
    } else if i < j {
        assert(g[i].id != g[j].id);
    }
}

/// A new node adds its degree to the sum.
pub proof fn lemma_total_degree_push(g: GraphView, n: NodeView)
    ensures
        total_degree(g.push(n)) == total_degree(g) + n.neighbors.len(),
{
    assert(g.push(n).drop_last() =~= g);
}

/// Replacing a node replaces its degree in the sum.
pub proof fn lemma_total_degree_update(g: GraphView, i: int, n: NodeView)
    requires
        0 <= i < g.len(),
    ensures
        total_degree(g.update(i, n)) == total_degree(g) - g[i].neighbors.len() + n.neighbors.len(),
    decreases g.len(),
{
    if i == g.len() - 1 {
        assert(g.update(i, n).drop_last() =~= g.drop_last());
    } else {
        lemma_total_degree_update(g.drop_last(), i, n);
        assert(g.update(i, n).drop_last() =~= g.drop_last().update(i, n));
    }
}

/// No degree is larger than the sum of all.
pub proof fn lemma_degree_bounded(g: GraphView, i: int)
    requires
        0 <= i < g.len(),
    ensures
        g[i].neighbors.len() <= total_degree(g),
        0 <= total_degree(g),
    decreases g.len(),
{
    lemma_total_degree_nonneg(g.drop_last());
    if i < g.len() - 1 {
        lemma_degree_bounded(g.drop_last(), i);
    }
}

/// The degrees of the first `i` nodes sum to no more than those of all,
/// and to that of the first `i + 1` less the degree of the node at `i`.
pub proof fn lemma_total_degree_take(g: GraphView, i: int)
    requires
        0 <= i <= g.len(),
    ensures
        0 <= total_degree(g.take(i)) <= total_degree(g),
        i < g.len() ==> total_degree(g.take(i + 1)) == total_degree(g.take(i))
            + g[i].neighbors.len(),
    decreases g.len(),
{
    lemma_total_degree_nonneg(g.take(i));
    if i == g.len() {
        assert(g.take(i) =~= g);
    } else {
        lemma_total_degree_take(g.drop_last(), i);
        assert(g.drop_last().take(i) =~= g.take(i));
        assert(g.take(i + 1).drop_last() =~= g.take(i));
    }
}

/// The sum of the degrees is not negative.
pub proof fn lemma_total_degree_nonneg(g: GraphView)
    ensures
        0 <= total_degree(g),
    decreases g.len(),
{
    if g.len() > 0 {
        lemma_total_degree_nonneg(g.drop_last());
    }
}


/// `b` holds every node of `a` at the same dense index, with the neighbours
/// of `a` as a prefix of its own.
pub open spec fn extends(a: GraphView, b: GraphView) -> bool {
    &&& a.len() <= b.len()
    &&& forall|i: int|
        0 <= i < a.len() ==> (#[trigger] b[i]).id == a[i].id && a[i].neighbors.is_prefix_of(
            b[i].neighbors,
        )
}

/// A graph that extends another holds its nodes where they were, and each
/// neighbour that they had.
pub proof fn lemma_extends_keeps_links(a: GraphView, b: GraphView, x: NodeID, y: NodeID)
    requires
        extends(a, b),
        distinct_ids(b),
        has_node(a, x),
        neighbors_of(a, x).contains(y),
    ensures
        has_node(b, x),
        index_of(b, x) == index_of(a, x),
        neighbors_of(b, x).contains(y),
{
    let i = index_of(a, x);
    assert(b[i].id == x);
    lemma_index_of(b, i);
    let k = neighbors_of(a, x).index_of(y);
    assert(a[i].neighbors[k] == y);
    assert(a[i].neighbors.is_prefix_of(b[i].neighbors));
    assert(b[i].neighbors[k] == y);
}

/// A graph that extends another holds its nodes where they were.
pub proof fn lemma_extends_keeps_nodes(a: GraphView, b: GraphView, x: NodeID)
    requires
        extends(a, b),
        distinct_ids(b),
        has_node(a, x),
    ensures
        has_node(b, x),
        index_of(b, x) == index_of(a, x),
{
    let i = index_of(a, x);
    assert(b[i].id == x);
    lemma_index_of(b, i);
}

/// Making sure that a node is there keeps the graph well formed and what it
/// held.
pub proof fn lemma_touch(g: GraphView, id: NodeID)
    requires
        graph_wf(g),
    ensures
        graph_wf(touch(g, id)),
        extends(g, touch(g, id)),
        has_node(touch(g, id), id),
        total_degree(touch(g, id)) == total_degree(g),
        touch(g, id).len() <= g.len() + 1,
{
    let t = touch(g, id);
    if has_node(g, id) {
    } else {
        let n = NodeView { id, neighbors: Seq::empty() };
        lemma_total_degree_push(g, n);
        assert(t[g.len() as int].id == id);
        assert forall|i: int, j: int| 0 <= i < j < t.len() implies (#[trigger] t[i]).id != (
        #[trigger] t[j]).id by {
            if j == g.len() {
                assert(g[i].id != id);
            }
        }
        assert forall|i: int, k: int| 0 <= i < t.len() && 0 <= k < t[i].neighbors.len() implies {
            &&& has_node(t, #[trigger] t[i].neighbors[k])
            &&& neighbors_of(t, t[i].neighbors[k]).contains(t[i].id)
        } by {
            assert(i < g.len());
            lemma_extends_keeps_links(g, t, g[i].neighbors[k], g[i].id);
        }
    }
}

/// What adding one edge does to a well-formed graph.
pub proof fn lemma_add_edge(g: GraphView, u: NodeID, v: NodeID)
    requires
        graph_wf(g),
    ensures
        graph_wf(add_edge(g, u, v)),
        extends(g, add_edge(g, u, v)),
        has_node(add_edge(g, u, v), u),
        has_node(add_edge(g, u, v), v),
        neighbors_of(add_edge(g, u, v), u).contains(v),
        neighbors_of(add_edge(g, u, v), v).contains(u),
        total_degree(add_edge(g, u, v)) == total_degree(g) + 2,
        add_edge(g, u, v).len() <= g.len() + 2,
{
    let g0 = touch(g, u);
    lemma_touch(g, u);
    let g1 = touch(g0, v);
    lemma_touch(g0, v);
    lemma_extends_keeps_nodes(g0, g1, u);
    let iu = index_of(g1, u);
    let iv = index_of(g1, v);
    let g2 = link(g1, u, v);
    lemma_total_degree_update(g1, iu, g2[iu]);
    assert(g2[iv].id == v);
    assert forall|i: int, j: int| 0 <= i < j < g2.len() implies (#[trigger] g2[i]).id != (
    #[trigger] g2[j]).id by {
        assert(g1[i].id != g1[j].id);
    }
    lemma_index_of(g2, iv);
    let g3 = link(g2, v, u);
    assert(g3 == add_edge(g, u, v));
    lemma_total_degree_update(g2, iv, g3[iv]);
    assert forall|i: int, j: int| 0 <= i < j < g3.len() implies (#[trigger] g3[i]).id != (
    #[trigger] g3[j]).id by {
        assert(g1[i].id != g1[j].id);
    }
    assert(extends(g1, g3)) by {
        assert forall|i: int| 0 <= i < g1.len() implies (#[trigger] g3[i]).id == g1[i].id
            && g1[i].neighbors.is_prefix_of(g3[i].neighbors) by {
            assert(g1[i].neighbors.is_prefix_of(g2[i].neighbors));
            assert(g2[i].neighbors.is_prefix_of(g3[i].neighbors));
        }
    }
    assert(extends(g, g3)) by {
        assert forall|i: int| 0 <= i < g.len() implies (#[trigger] g3[i]).id == g[i].id
            && g[i].neighbors.is_prefix_of(g3[i].neighbors) by {
            assert(g0[i].id == g[i].id && g[i].neighbors.is_prefix_of(g0[i].neighbors));
            assert(g1[i].id == g0[i].id && g0[i].neighbors.is_prefix_of(g1[i].neighbors));
            assert(g3[i].id == g1[i].id && g1[i].neighbors.is_prefix_of(g3[i].neighbors));
        }
    }
    lemma_index_of(g3, iu);
    lemma_index_of(g3, iv);
    let nu = g3[iu].neighbors;
    let nv = g3[iv].neighbors;
    assert(nv[nv.len() - 1] == u);
    assert(nu.contains(v)) by {
        if iu == iv {
            assert(nu[nu.len() - 2] == v);
        } else {
            assert(nu[nu.len() - 1] == v);
        }
    }
    assert forall|i: int, k: int| 0 <= i < g3.len() && 0 <= k < g3[i].neighbors.len() implies {
        &&& has_node(g3, #[trigger] g3[i].neighbors[k])
        &&& neighbors_of(g3, g3[i].neighbors[k]).contains(g3[i].id)
    } by {
        if k < g1[i].neighbors.len() {
            assert(g1[i].neighbors.is_prefix_of(g3[i].neighbors));
            assert(g3[i].neighbors[k] == g1[i].neighbors[k]);
            lemma_extends_keeps_links(g1, g3, g1[i].neighbors[k], g1[i].id);
        } else if i == iu && g3[i].neighbors[k] == v {
        } else {
            assert(i == iv && g3[i].neighbors[k] == u);
        }
    }
}


/// Building from a well-formed graph gives a well-formed graph that keeps
/// what was there and holds two more edge ends for each edge.
pub proof fn lemma_build_from(g: GraphView, edges: Seq<(NodeID, NodeID)>)
    requires
        graph_wf(g),
    ensures
        graph_wf(build_from(g, edges)),
        extends(g, build_from(g, edges)),
        total_degree(build_from(g, edges)) == total_degree(g) + 2 * edges.len(),
    decreases edges.len(),
{
    if edges.len() > 0 {
        let before = build_from(g, edges.drop_last());
        let after = build_from(g, edges);
        lemma_build_from(g, edges.drop_last());
        lemma_add_edge(before, edges.last().0, edges.last().1);
        assert forall|i: int| 0 <= i < g.len() implies (#[trigger] after[i]).id == g[i].id
            && g[i].neighbors.is_prefix_of(after[i].neighbors) by {
            assert(before[i].id == g[i].id && g[i].neighbors.is_prefix_of(before[i].neighbors));
            assert(after[i].id == before[i].id && before[i].neighbors.is_prefix_of(
                after[i].neighbors,
            ));
        }
    }
}

/// Once a list of edges is built, both ends of each of its edges are nodes
/// of the graph, and each end is among the neighbours of the other.
pub proof fn lemma_build_links_every_edge(g: GraphView, edges: Seq<(NodeID, NodeID)>, k: int)
    requires
        graph_wf(g),
        0 <= k < edges.len(),
    ensures
        has_node(build_from(g, edges), edges[k].0),
        has_node(build_from(g, edges), edges[k].1),
        neighbors_of(build_from(g, edges), edges[k].0).contains(edges[k].1),
        neighbors_of(build_from(g, edges), edges[k].1).contains(edges[k].0),
    decreases edges.len(),
{
    let before = build_from(g, edges.drop_last());
    let after = build_from(g, edges);
    lemma_build_from(g, edges.drop_last());
    lemma_add_edge(before, edges.last().0, edges.last().1);
    if k < edges.len() - 1 {
        lemma_build_links_every_edge(g, edges.drop_last(), k);
        lemma_extends_keeps_links(before, after, edges[k].0, edges[k].1);
        lemma_extends_keeps_links(before, after, edges[k].1, edges[k].0);
    }
}

/// One node: its id, the ids of its neighbours (one entry for each edge end,
/// so a repeated edge repeats the neighbour), and their count.
#[derive(Debug, PartialEq)]
pub struct GraphNode {
    node_id: NodeID,
    edge_list: Vec<NodeID>,
    num_edges: i32,
}

impl View for GraphNode {
    type V = NodeView;

    closed spec fn view(&self) -> NodeView {
        NodeView { id: self.node_id, neighbors: self.edge_list@ }
    }
}

impl GraphNode {
    /// The stored degree is the length of the neighbour sequence.
    pub closed spec fn wf(&self) -> bool {
        self.num_edges == self.edge_list@.len()
    }

    /// A node without neighbours.
    pub fn new(node_id: NodeID) -> (node: GraphNode)
        ensures
            node.wf(),
            node@ == (NodeView { id: node_id, neighbors: Seq::empty() }),
    {
        GraphNode { node_id, edge_list: Vec::new(), num_edges: 0 }
    }

    /// Appends `target` to the neighbours.
    pub fn add_edge(&mut self, target: NodeID)
        requires
            old(self).wf(),
            old(self)@.neighbors.len() < i32::MAX,
        ensures
            final(self).wf(),
            final(self)@ == (NodeView {
                id: old(self)@.id,
                neighbors: old(self)@.neighbors.push(target),
            }),
    {
        self.edge_list.push(target);
        self.num_edges += 1;
    }

    /// The degree, which is the weight of the node in the Huffman tree.
    pub fn get_weight(&self) -> (weight: i32)
        requires
            self.wf(),
        ensures
            weight == self@.neighbors.len(),
    {
        self.num_edges
    }

    /// The ids of the neighbours, in the order in which the edges came.
    pub fn neighbors(&self) -> (edges: &Vec<NodeID>)
        ensures
            edges@ == self@.neighbors,
    {
        &self.edge_list
    }

    /// The id of the node.
    pub fn get_id(&self) -> (id: NodeID)
        ensures
            id == self@.id,
    {
        self.node_id
    }

    /// One neighbour picked at random, each entry of the neighbour sequence
    /// being as likely as any other; `None` for a node without neighbours.
    pub fn random_step(&self) -> (step: Option<&NodeID>)
        ensures
            step is None <==> self@.neighbors.len() == 0,
            step matches Some(next) ==> self@.neighbors.contains(*next),
    {
        choose_entry(&self.edge_list)
    }
}

/// Calls `rand::seq::SliceRandom::choose` on the entries with the generator
/// of `rand::thread_rng`. Assumed of it: an empty slice gives `None`, and any
/// other gives a reference to one of its entries. Which one is left open.
#[verifier::external_body]
fn choose_entry(entries: &Vec<NodeID>) -> (picked: Option<&NodeID>)
    ensures
        picked is None <==> entries@.len() == 0,
        picked matches Some(entry) ==> entries@.contains(*entry),
{
    entries.choose(&mut rand::thread_rng())
}


/// Why the text of an edge list was not added to a graph.
#[derive(Clone, Copy, Debug, PartialEq, Eq)]
pub enum LoadError {
    /// The text is no edge list.
    Malformed(ParseError),
    /// With these edges the graph would hold more edge ends than a degree
    /// can count.
    TooManyEdges,
}

/// The graph: its nodes in first-seen order, and for each id the position of
/// its node, which is the node's dense index.
#[derive(Debug)]
pub struct Graph {
    nodes: Vec<GraphNode>,
    node_to_idx_map: HashMap<NodeID, usize>,
}

impl View for Graph {
    type V = GraphView;

    closed spec fn view(&self) -> GraphView {
        Seq::new(self.nodes@.len(), |i: int| self.nodes@[i]@)
    }
}

impl Graph {
    /// The index map and the node list agree, and every node is well formed.
    pub closed spec fn indexed(&self) -> bool {
        &&& forall|i: int| 0 <= i < self.nodes@.len() ==> (#[trigger] self.nodes@[i]).wf()
        &&& forall|id: NodeID| #[trigger]
            self.node_to_idx_map@.contains_key(id) ==> {
                &&& self.node_to_idx_map@[id] < self.nodes@.len()
                &&& self.nodes@[self.node_to_idx_map@[id] as int]@.id == id
            }
        &&& forall|i: int|
            0 <= i < self.nodes@.len() ==> {
                &&& self.node_to_idx_map@.contains_key((#[trigger] self.nodes@[i])@.id)
                &&& self.node_to_idx_map@[self.nodes@[i]@.id] == i
            }
    }

    /// The invariant of a graph: ids are unique, every edge is held from both
    /// of its ends, and the number of edge ends fits the degree counters.
    pub open spec fn wf(&self) -> bool {
        &&& self.indexed()
        &&& graph_wf(self@)
        &&& total_degree(self@) <= i32::MAX
    }

    /// What the index map says of the model: ids are distinct, and the map
    /// holds the dense index of each of them.
    proof fn lemma_indexed(&self)
        requires
            self.indexed(),
        ensures
            distinct_ids(self@),
            forall|id: NodeID|
                self.node_to_idx_map@.contains_key(id) <==> has_node(self@, id),
            forall|id: NodeID| #[trigger]
                self.node_to_idx_map@.contains_key(id) ==> self.node_to_idx_map@[id] == index_of(
                    self@,
                    id,
                ),
    {
        let g = self@;
        assert forall|i: int, j: int| 0 <= i < j < g.len() implies (#[trigger] g[i]).id != (
        #[trigger] g[j]).id by {
            assert(self.node_to_idx_map@[self.nodes@[i]@.id] == i);
            assert(self.node_to_idx_map@[self.nodes@[j]@.id] == j);
        }
        assert forall|id: NodeID|
            self.node_to_idx_map@.contains_key(id) <==> has_node(self@, id) by {
            if self.node_to_idx_map@.contains_key(id) {
                let i = self.node_to_idx_map@[id] as int;
                assert(g[i].id == id);
            }
            if has_node(g, id) {
                let i = index_of(g, id);
                assert(self.node_to_idx_map@.contains_key(self.nodes@[i]@.id));
            }
        }
        assert forall|id: NodeID| #[trigger]
            self.node_to_idx_map@.contains_key(id) implies self.node_to_idx_map@[id] == index_of(
            self@,
            id,
        ) by {
            let i = self.node_to_idx_map@[id] as int;
            assert(g[i].id == id);
            lemma_index_of(g, i);
        }
    }

    /// The graph without nodes.
    pub fn new() -> (graph: Graph)
        ensures
            graph.wf(),
            graph@ == Seq::<NodeView>::empty(),
    {
        let nodes: Vec<GraphNode> = Vec::new();
        let node_to_idx_map: HashMap<NodeID, usize> = HashMap::new();
        let graph = Graph { nodes, node_to_idx_map };
        assert(graph@ =~= Seq::<NodeView>::empty());
        graph
    }

    /// Makes sure that `id` has a node, and gives its dense index.
    fn ensure_node(&mut self, id: NodeID) -> (idx: usize)
        requires
            old(self).indexed(),
        ensures
            final(self).indexed(),
            final(self)@ == touch(old(self)@, id),
            idx < final(self)@.len(),
            final(self)@[idx as int].id == id,
    {
        proof {
            self.lemma_indexed();
        }
        match self.node_to_idx_map.get(&id) {
            Some(idx) => *idx,
            None => {
                let idx = self.nodes.len();
                self.node_to_idx_map.insert(id, idx);
                self.nodes.push(GraphNode::new(id));
                assert(self@ =~= old(self)@.push(NodeView { id, neighbors: Seq::empty() }));
                idx
            },
        }
    }

    /// Appends `to` to the neighbours of the node at `idx`.
    fn push_neighbor(&mut self, idx: usize, to: NodeID)
        requires
            old(self).indexed(),
            idx < old(self)@.len(),
            old(self)@[idx as int].neighbors.len() < i32::MAX,
        ensures
            final(self).indexed(),
            final(self)@ == old(self)@.update(
                idx as int,
                NodeView {
                    id: old(self)@[idx as int].id,
                    neighbors: old(self)@[idx as int].neighbors.push(to),
                },
            ),
    {
        self.nodes[idx].add_edge(to);
        assert(self@ =~= old(self)@.update(
            idx as int,
            NodeView {
                id: old(self)@[idx as int].id,
                neighbors: old(self)@[idx as int].neighbors.push(to),
            },
        ));
    }

    /// Adds the edges one after the other. Either end of an edge that the
    /// graph has not seen gets the next dense index, the first end before
    /// the second; then each end is appended to the other's neighbours.
    /// Loops and repeated edges are taken as they come.
    pub fn build(&mut self, edge_list: Vec<Vec<NodeID>>)
        requires
            old(self).wf(),
            forall|i: int| 0 <= i < edge_list@.len() ==> (#[trigger] edge_list@[i])@.len() == 2,
            total_degree(old(self)@) + 2 * edge_list@.len() <= i32::MAX,
        ensures
            final(self).wf(),
            final(self)@ == build_from(old(self)@, edge_pairs(edge_list@)),
            extends(old(self)@, final(self)@),
            total_degree(final(self)@) == total_degree(old(self)@) + 2 * edge_list@.len(),
    {
        let ghost edges = edge_pairs(edge_list@);
        let mut i: usize = 0;
        assert(edges.take(0) =~= Seq::empty());
        while i < edge_list.len()
            invariant
                i <= edge_list@.len(),
                edges == edge_pairs(edge_list@),
                forall|j: int|
                    0 <= j < edge_list@.len() ==> (#[trigger] edge_list@[j])@.len() == 2,
                self.indexed(),
                graph_wf(self@),
                self@ == build_from(old(self)@, edges.take(i as int)),
                extends(old(self)@, self@),
                total_degree(self@) == total_degree(old(self)@) + 2 * i,
                total_degree(old(self)@) + 2 * edge_list@.len() <= i32::MAX,
            decreases edge_list@.len() - i,
        {
            let edge = &edge_list[i];
            let node1 = edge[0];
            let node2 = edge[1];
            let ghost g = self@;
            let ghost g0 = touch(g, node1);
            let ghost g1 = touch(g0, node2);

            let idx1 = self.ensure_node(node1);
            let idx2 = self.ensure_node(node2);
            proof {
                lemma_touch(g, node1);
                lemma_touch(g0, node2);
                lemma_index_of(g0, idx1 as int);
                lemma_extends_keeps_nodes(g0, g1, node1);
                lemma_degree_bounded(g1, idx1 as int);
            }
            self.push_neighbor(idx1, node2);
            let ghost g2 = self@;
            proof {
                assert(g2 == link(g1, node1, node2));
                lemma_total_degree_update(g1, idx1 as int, g2[idx1 as int]);
                assert(distinct_ids(g2)) by {
                    assert forall|a: int, b: int| 0 <= a < b < g2.len() implies (
                    #[trigger] g2[a]).id != (#[trigger] g2[b]).id by {
                        assert(g1[a].id != g1[b].id);
                    }
                }
                lemma_index_of(g2, idx2 as int);
                lemma_degree_bounded(g2, idx2 as int);
            }
            self.push_neighbor(idx2, node1);
            proof {
                assert(self@ == add_edge(g, node1, node2));
                lemma_add_edge(g, node1, node2);
                let done = edges.take(i as int + 1);
                assert(done.drop_last() =~= edges.take(i as int));
                assert(done.last() == (node1, node2));
                assert(extends(old(self)@, self@)) by {
                    assert forall|a: int| 0 <= a < old(self)@.len() implies (
                    #[trigger] self@[a]).id == old(self)@[a].id && old(
                        self,
                    )@[a].neighbors.is_prefix_of(self@[a].neighbors) by {
                        assert(g[a].id == old(self)@[a].id && old(self)@[a].neighbors.is_prefix_of(
                            g[a].neighbors,
                        ));
                        assert(self@[a].id == g[a].id && g[a].neighbors.is_prefix_of(
                            self@[a].neighbors,
                        ));
                    }
                }
            }
            i += 1;
        }
        assert(edges.take(i as int) =~= edges);
    }

    /// A walk of `num_steps` random steps from `starting_node`, which is not
    /// itself part of the result. Each step goes to one entry of the current
    /// node's neighbour sequence, every entry being as likely as any other.
    /// From a node without neighbours the walk is empty.
    pub fn random_walk(&self, starting_node: &NodeID, num_steps: usize) -> (path: Vec<NodeID>)
        requires
            self.wf(),
            has_node(self@, *starting_node),
        ensures
            path@.len() == (if neighbors_of(self@, *starting_node).len() == 0 {
                0
            } else {
                num_steps as int
            }),
            is_walk(self@, *starting_node, path@),
    {
        let mut curr_node = match self.get_node(starting_node) {
            Some(node) => node,
            None => unreached(),
        };
        if curr_node.edge_list.len() == 0 {
            return Vec::new();
        }
        let mut path: Vec<NodeID> = Vec::new();
        let mut step: usize = 0;
        while step < num_steps
            invariant
                self.wf(),
                step <= num_steps,
                path@.len() == step,
                is_walk(self@, *starting_node, path@),
                has_node(self@, curr_node@.id),
                curr_node@ == self@[index_of(self@, curr_node@.id)],
                curr_node@.id == (if step == 0 {
                    *starting_node
                } else {
                    path@[step - 1]
                }),
                curr_node@.neighbors.len() > 0,
            decreases num_steps - step,
        {
            let next_node = match curr_node.random_step() {
                Some(next) => *next,
                None => unreached(),
            };
            let ghost here = index_of(self@, curr_node@.id);
            let ghost k = curr_node@.neighbors.index_of(next_node);
            proof {
                assert(self@[here].neighbors[k] == next_node);
                assert(has_node(self@, next_node));
                assert(neighbors_of(self@, next_node).contains(curr_node@.id));
            }
            curr_node = match self.get_node(&next_node) {
                Some(node) => node,
                None => unreached(),
            };
            path.push(next_node);
            step += 1;
        }
        path
    }

    /// The number of edge ends that the graph holds.
    fn edge_ends(&self) -> (total: i32)
        requires
            self.wf(),
        ensures
            total == total_degree(self@),
    {
        let mut total: i32 = 0;
        let mut i: usize = 0;
        while i < self.nodes.len()
            invariant
                self.wf(),
                i <= self.nodes@.len(),
                total == total_degree(self@.take(i as int)),
            decreases self.nodes@.len() - i,
        {
            proof {
                lemma_total_degree_take(self@, i as int);
                lemma_total_degree_take(self@, i + 1);
            }
            total = total + self.nodes[i].get_weight();
            i += 1;
        }
        assert(self@.take(i as int) =~= self@);
        total
    }

    /// Adds the edges that the contents of an edge-list file hold: one edge
    /// on each line, as two node ids with blanks between them. Nothing is
    /// added unless every line is an edge and the graph has room for all
    /// of them.
    pub fn build_graph_from_file(&mut self, contents: &[u8]) -> (loaded: Result<(), LoadError>)
        requires
            old(self).wf(),
        ensures
            final(self).wf(),
            match loaded {
                Ok(()) => {
                    &&& edges_of(contents@) is Ok
                    &&& final(self)@ == build_from(old(self)@, edges_of(contents@)->Ok_0)
                },
                Err(LoadError::Malformed(error)) => {
                    &&& edges_of(contents@) == Err::<Seq<(NodeID, NodeID)>, ParseError>(error)
                    &&& final(self)@ == old(self)@
                },
                Err(LoadError::TooManyEdges) => {
                    &&& edges_of(contents@) is Ok
                    &&& total_degree(old(self)@) + 2 * edges_of(contents@)->Ok_0.len() > i32::MAX
                    &&& final(self)@ == old(self)@
                },
            },
    {
        match parse_edge_list(contents) {
            Err(error) => Err(LoadError::Malformed(error)),
            Ok(edges) => {
                let used = self.edge_ends();
                proof {
                    lemma_total_degree_nonneg(self@);
                    assert(edge_pairs(edges@).len() == edges@.len());
                }
                let room = (i32::MAX - used) / 2;
                if edges.len() > room as usize {
                    Err(LoadError::TooManyEdges)
                } else {
                    self.build(edges);
                    Ok(())
                }
            },
        }
    }

    /// The number of nodes.
    pub fn num_nodes(&self) -> (n: usize)
        ensures
            n == self@.len(),
    {
        self.nodes.len()
    }

    /// The dense index of a node, or `None` for an id that the graph lacks.
    pub fn get_node_idx(&self, node_id: &NodeID) -> (idx: Option<&usize>)
        requires
            self.wf(),
        ensures
            idx is Some <==> has_node(self@, *node_id),
            idx matches Some(i) ==> *i == index_of(self@, *node_id),
    {
        proof {
            self.lemma_indexed();
        }
        self.node_to_idx_map.get(node_id)
    }

    /// The node of an id, or `None` for an id that the graph lacks.
    pub fn get_node(&self, node_id: &NodeID) -> (node: Option<&GraphNode>)
        requires
            self.wf(),
        ensures
            node is Some <==> has_node(self@, *node_id),
            node matches Some(n) ==> n.wf() && n@ == self@[index_of(self@, *node_id)],
    {
        proof {
            self.lemma_indexed();
        }
        match self.node_to_idx_map.get(node_id) {
            Some(idx) => Some(&self.nodes[*idx]),
            None => None,
        }
    }

    /// The nodes in the order of their dense indices.
    pub fn get_node_iter(&self) -> (nodes: Vec<&GraphNode>)
        requires
            self.wf(),
        ensures
            nodes@.len() == self@.len(),
            forall|i: int| 0 <= i < nodes@.len() ==> (#[trigger] nodes@[i]).wf() && nodes@[i]@ == self@[i],
    {
        let mut nodes: Vec<&GraphNode> = Vec::with_capacity(self.nodes.len());
        let mut i: usize = 0;
        while i < self.nodes.len()
            invariant
                self.indexed(),
                i <= self.nodes@.len(),
                nodes@.len() == i,
                forall|j: int|
                    0 <= j < i ==> (#[trigger] nodes@[j]).wf() && nodes@[j]@ == self@[j],
            decreases self.nodes@.len() - i,
        {
            nodes.push(&self.nodes[i]);
            i += 1;
        }
        nodes
    }
}

} // verus!
