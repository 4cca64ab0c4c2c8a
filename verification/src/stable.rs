//! The graph's storage: a `petgraph` stable graph of operator nodes and
//! slot-labelled edges, seen through trusted contracts over two maps.

use crate::op::Op;
use crate::op::OpModel;
use itertools::Itertools;
use petgraph::stable_graph::NodeIndex;
use petgraph::stable_graph::StableGraph;
use petgraph::visit::EdgeRef;
use petgraph::Directed;
use petgraph::Direction;
use std::collections::HashSet;
use vstd::prelude::*;

verus! {

/// `petgraph::stable_graph::StableGraph`, taken as it is: nothing is known
/// of a value but what the contracts below say.
#[verifier::external_type_specification]
#[verifier::external_body]
#[verifier::reject_recursive_types(N)]
#[verifier::reject_recursive_types(E)]
#[verifier::reject_recursive_types(Ty)]
#[verifier::reject_recursive_types(Ix)]
pub struct ExStableGraph<N, E, Ty, Ix>(StableGraph<N, E, Ty, Ix>);

/// `petgraph::Directed`, the marker of graphs whose edges have a direction.
#[verifier::external_type_specification]
#[verifier::external_body]
pub struct ExDirected(Directed);

/// What a node of the graph holds: its operator and the shape it declares for
/// its output.
#[derive(Clone, Debug)]
pub struct Node {
    pub op: Op,
    pub shape: Vec<usize>,
}

/// The mathematical content of a [`Node`].
pub struct NodeModel {
    pub op: OpModel,
    pub shape: Seq<usize>,
}

impl View for Node {
    type V = NodeModel;

    open spec fn view(&self) -> NodeModel {
        NodeModel { op: self.op@, shape: self.shape@ }
    }
}

/// A directed edge from a producer to the input slot of a consumer.
#[derive(Clone, Copy, Debug, PartialEq, Eq, Structural)]
pub struct Edge {
    pub source: usize,
    pub target: usize,
    pub slot: u8,
}

/// The side of a node on which edges are looked up.
#[derive(Clone, Copy, Debug, PartialEq, Eq, Structural)]
pub enum Way {
    Incoming,
    Outgoing,
}

/// The stable graph that stores the operators. Indices are `usize`, so the
/// index type sets no limit on the number of nodes or edges.
pub type OpGraph = StableGraph<Node, u8, Directed, usize>;

/// What the nodes of a stable graph hold, by node index.
pub uninterp spec fn graph_nodes(g: OpGraph) -> Map<usize, NodeModel>;

/// The edges that a stable graph holds, by edge index.
pub uninterp spec fn graph_edges(g: OpGraph) -> Map<usize, Edge>;

impl Edge {
    /// The endpoint of the edge that lies on the given side: the target of an
    /// incoming edge, the source of an outgoing one.
    pub open spec fn end(self, way: Way) -> usize {
        match way {
            Way::Incoming => self.target,
            Way::Outgoing => self.source,
        }
    }

    /// Whether the edge starts or ends in `a`.
    pub open spec fn touches(self, a: usize) -> bool {
        self.source == a || self.target == a
    }
}

/// The edges that remain when every edge with an endpoint in `a` leaves.
pub open spec fn edges_clear_of(edges: Map<usize, Edge>, a: usize) -> Map<usize, Edge> {
    Map::new(|e: usize| edges.dom().contains(e) && !edges[e].touches(a), |e: usize| edges[e])
}

/// Whether every edge leads from a lower rank to a higher one.
pub open spec fn ranked(edges: Map<usize, Edge>, rank: spec_fn(usize) -> int) -> bool {
    forall|e: usize| #[trigger]
        edges.dom().contains(e) ==> rank(edges[e].source) < rank(edges[e].target)
}

/// Whether `order` names every node once, each before all nodes that its
/// edges lead to.
pub open spec fn in_order(
    nodes: Map<usize, NodeModel>,
    edges: Map<usize, Edge>,
    order: Seq<usize>,
) -> bool {
    &&& order.no_duplicates()
    &&& forall|a: usize| nodes.dom().contains(a) <==> order.contains(a)
    &&& forall|e: usize, i: int, j: int|
        #![trigger edges.dom().contains(e), order[i], order[j]]
        edges.dom().contains(e) && 0 <= i < order.len() && 0 <= j < order.len() && order[i]
            == edges[e].source && order[j] == edges[e].target ==> i < j
}

/// `StableGraph::default`: a graph with no node and no edge.
#[verifier::external_body]
pub(crate) fn graph_new() -> (g: OpGraph)
    ensures
        graph_nodes(g) =~= Map::empty(),
        graph_edges(g) =~= Map::empty(),
{
    StableGraph::default()
}

/// `StableGraph::add_node`: the node is stored under an index that was not in
/// use, which is returned; nothing else changes. Which index it is depends on
/// earlier removals and is left open.
#[verifier::external_body]
pub(crate) fn graph_add_node(g: &mut OpGraph, weight: Node) -> (id: usize)
    ensures
        !graph_nodes(*old(g)).dom().contains(id),
        graph_nodes(*final(g)) == graph_nodes(*old(g)).insert(id, weight@),
        graph_edges(*final(g)) == graph_edges(*old(g)),
{
    g.add_node(weight).index()
}

/// `StableGraph::add_edge`, which panics unless both endpoints are nodes of
/// the graph: the edge is stored under an edge index that was not in use,
/// which is returned; parallel edges are kept; nothing else changes.
#[verifier::external_body]
pub(crate) fn graph_add_edge(g: &mut OpGraph, a: usize, b: usize, slot: u8) -> (id: usize)
    requires
        graph_nodes(*old(g)).dom().contains(a),
        graph_nodes(*old(g)).dom().contains(b),
    ensures
        !graph_edges(*old(g)).dom().contains(id),
        graph_edges(*final(g)) == graph_edges(*old(g)).insert(
            id,
            (Edge { source: a, target: b, slot }),
        ),
        graph_nodes(*final(g)) == graph_nodes(*old(g)),
{
    g.add_edge(NodeIndex::new(a), NodeIndex::new(b), slot).index()
}

/// `StableGraph::remove_node`: a node of the graph leaves together with every
/// edge that has an endpoint in it, and its weight is returned; for an index
/// that is no node, nothing changes and `None` is returned.
#[verifier::external_body]
pub(crate) fn graph_remove_node(g: &mut OpGraph, a: usize) -> (weight: Option<Node>)
    ensures
        weight.is_some() == graph_nodes(*old(g)).dom().contains(a),
        weight.is_some() ==> weight.unwrap()@ == graph_nodes(*old(g))[a],
        weight.is_some() ==> graph_nodes(*final(g)) == graph_nodes(*old(g)).remove(a),
        weight.is_some() ==> graph_edges(*final(g)) == edges_clear_of(graph_edges(*old(g)), a),
        weight.is_none() ==> graph_nodes(*final(g)) == graph_nodes(*old(g)),
        weight.is_none() ==> graph_edges(*final(g)) == graph_edges(*old(g)),
{
    g.remove_node(NodeIndex::new(a))
}

/// `StableGraph::node_weight`: the weight stored under an index, if the index
/// is a node of the graph.
#[verifier::external_body]
pub(crate) fn graph_node_weight(g: &OpGraph, a: usize) -> (weight: Option<&Node>)
    ensures
        weight.is_some() == graph_nodes(*g).dom().contains(a),
        weight.is_some() ==> weight.unwrap()@ == graph_nodes(*g)[a],
{
    g.node_weight(NodeIndex::new(a))
}

/// `StableGraph::node_indices`, collected: the indices of the graph's nodes,
/// each once, in increasing order.
#[verifier::external_body]
pub(crate) fn graph_node_indices(g: &OpGraph) -> (ids: Vec<usize>)
    ensures
        forall|i: int, j: int| 0 <= i < j < ids@.len() ==> ids@[i] < ids@[j],
        forall|a: usize| graph_nodes(*g).dom().contains(a) <==> ids@.contains(a),
{
    g.node_indices().map(|n| n.index()).collect_vec()
}

/// `StableGraph::edges_directed`, collected with each edge's index: every
/// entry is an edge of the graph that ends in `a` on the given side, and no
/// edge index comes twice. Where `a` is a node of the graph, every such edge
/// is listed; for any other index the list is empty. The order is left open.
#[verifier::external_body]
pub(crate) fn graph_edges_directed(g: &OpGraph, a: usize, way: Way) -> (list: Vec<(usize, Edge)>)
    ensures
        forall|k: int|
            0 <= k < list@.len() ==> {
                &&& graph_edges(*g).dom().contains(#[trigger] list@[k].0)
                &&& graph_edges(*g)[list@[k].0] == list@[k].1
                &&& list@[k].1.end(way) == a
            },
        forall|k: int, l: int| 0 <= k < l < list@.len() ==> list@[k].0 != list@[l].0,
        graph_nodes(*g).dom().contains(a) ==> forall|e: usize|
            graph_edges(*g).dom().contains(e) && graph_edges(*g)[e].end(way) == a
                ==> exists|k: int| 0 <= k < list@.len() && list@[k].0 == e,
        !graph_nodes(*g).dom().contains(a) ==> list@.len() == 0,
{
    let dir = match way {
        Way::Incoming => Direction::Incoming,
        Way::Outgoing => Direction::Outgoing,
    };
    g.edges_directed(NodeIndex::new(a), dir).map(
        |e| (e.id().index(), Edge { source: e.source().index(), target: e.target().index(), slot: *e.weight() }),
    ).collect_vec()
}

/// `petgraph::algo::toposort`: for a graph without a cycle, its nodes, each
/// once, in an order in which every node comes before its successors; for a
/// graph with a cycle (a self loop is one), nothing. A graph with a cycle is
/// one whose nodes cannot be ranked so that every edge ascends. Which of
/// several such orders comes is left open.
#[verifier::external_body]
pub(crate) fn graph_toposort(g: &OpGraph) -> (order: Option<Vec<usize>>)
    ensures
        order.is_some() ==> in_order(graph_nodes(*g), graph_edges(*g), order.unwrap()@),
        order.is_none() ==> !(exists|rank: spec_fn(usize) -> int| ranked(graph_edges(*g), rank)),
{
    match petgraph::algo::toposort(g, None) {
        Ok(order) => Some(order.into_iter().map(|n| n.index()).collect_vec()),
        Err(_) => None,
    }
}

/// `StableGraph::clone`: a graph that holds the same nodes and the same
/// edges under the same indices.
#[verifier::external_body]
pub(crate) fn graph_clone(g: &OpGraph) -> (copy: OpGraph)
    ensures
        graph_nodes(copy) == graph_nodes(*g),
        graph_edges(copy) == graph_edges(*g),
{
    g.clone()
}

/// `HashSet::clone`: a set of the same elements.
#[verifier::external_body]
pub(crate) fn set_clone(set: &HashSet<usize>) -> (copy: HashSet<usize>)
    ensures
        copy@ == set@,
{
    set.clone()
}

} // verus!
