//! The operator graph: nodes that own an operator and a declared output shape,
//! edges from producers to the input slots of consumers, and the sets of
//! nodes that the outside world refers to.

use crate::op::Op;
use crate::remap::redirected;
use crate::remap::RemapTable;
use crate::stable::graph_add_edge;
use crate::stable::graph_add_node;
use crate::stable::graph_clone;
use crate::stable::graph_edges;
use crate::stable::graph_edges_directed;
use crate::stable::graph_new;
use crate::stable::graph_node_indices;
use crate::stable::graph_node_weight;
use crate::stable::graph_nodes;
use crate::stable::set_clone;
use crate::stable::Edge;
use crate::stable::Node;
use crate::stable::NodeModel;
use crate::stable::OpGraph;
use crate::stable::Way;
use std::collections::HashSet;
use vstd::prelude::*;

verus! {

broadcast use vstd::std_specs::hash::group_hash_axioms;

/// A graph of operators under construction or rewriting.
pub struct Graph {
    pub(crate) graph: OpGraph,
    /// Where a node that was replaced has gone.
    pub(crate) id_remap: RemapTable,
    /// Nodes that no pass may remove.
    pub(crate) no_delete: HashSet<usize>,
    /// Nodes whose output is kept after execution.
    pub(crate) to_retrieve: HashSet<usize>,
}

/// The mathematical content of a [`Graph`].
pub struct GraphModel {
    pub nodes: Map<usize, NodeModel>,
    pub edges: Map<usize, Edge>,
    pub id_remap: Map<usize, usize>,
    pub no_delete: Set<usize>,
    pub to_retrieve: Set<usize>,
}

impl View for Graph {
    type V = GraphModel;

    open(crate) spec fn view(&self) -> GraphModel {
        GraphModel {
            nodes: graph_nodes(self.graph),
            edges: graph_edges(self.graph),
            id_remap: self.id_remap@,
            no_delete: self.no_delete@,
            to_retrieve: self.to_retrieve@,
        }
    }
}

/// Whether a list of edges is in ascending order of input slot.
pub open spec fn slots_ascend(list: Seq<(usize, Edge)>) -> bool {
    forall|k: int, l: int| 0 <= k < l < list.len() ==> list[k].1.slot <= list[l].1.slot
}

/// Whether no edge index occurs twice in a list of edges.
pub open spec fn ids_differ(list: Seq<(usize, Edge)>) -> bool {
    forall|k: int, l: int| 0 <= k < l < list.len() ==> list[k].0 != list[l].0
}

impl GraphModel {
    /// Whether `a` is a node of the graph.
    pub open spec fn has(self, a: usize) -> bool {
        self.nodes.dom().contains(a)
    }

    /// Whether `e` is an edge of the graph.
    pub open spec fn has_edge(self, e: usize) -> bool {
        self.edges.dom().contains(e)
    }

    /// Every edge runs between two nodes of the graph.
    pub open spec fn edges_closed(self) -> bool {
        forall|e: usize| #[trigger]
            self.has_edge(e) ==> self.has(self.edges[e].source) && self.has(self.edges[e].target)
    }

    /// Every edge leads from a lower rank to a higher one.
    pub open spec fn ranked_by(self, rank: spec_fn(usize) -> int) -> bool {
        forall|e: usize| #[trigger]
            self.has_edge(e) ==> rank(self.edges[e].source) < rank(self.edges[e].target)
    }

    /// The graph has no cycle: its nodes can be ranked so that every edge
    /// ascends.
    pub open spec fn acyclic(self) -> bool {
        exists|rank: spec_fn(usize) -> int| self.ranked_by(rank)
    }

    /// No input slot of a node is bound twice.
    pub open spec fn slots_distinct(self) -> bool {
        forall|d: usize, e: usize|
            #![trigger self.has_edge(d), self.has_edge(e)]
            self.has_edge(d) && self.has_edge(e) && d != e && self.edges[d].target
                == self.edges[e].target ==> self.edges[d].slot != self.edges[e].slot
    }

    /// The invariant of a graph: edges run between its nodes, form no cycle
    /// and bind each input slot at most once; every protected node is a node
    /// of the graph, and every retained node is protected.
    pub open spec fn wf(self) -> bool {
        &&& self.edges_closed()
        &&& self.acyclic()
        &&& self.slots_distinct()
        &&& self.no_delete.subset_of(self.nodes.dom())
        &&& self.to_retrieve.subset_of(self.no_delete)
    }

    /// `post` has, beyond the edges of `self`, one new edge for each entry of
    /// `inputs`, stored under the edge indices `es`: the edge from `inputs[i]`
    /// to slot `i` of node `id`.
    pub open spec fn wired(
        self,
        post: GraphModel,
        es: Seq<usize>,
        inputs: Seq<usize>,
        id: usize,
    ) -> bool {
        &&& es.len() == inputs.len()
        &&& es.no_duplicates()
        &&& forall|i: int| 0 <= i < es.len() ==> !self.has_edge(#[trigger] es[i])
        &&& forall|e: usize| #[trigger] post.has_edge(e) <==> self.has_edge(e) || es.contains(e)
        &&& forall|e: usize| #[trigger] self.has_edge(e) ==> post.edges[e] == self.edges[e]
        &&& forall|i: int|
            0 <= i < es.len() ==> post.edges[#[trigger] es[i]] == (Edge {
                source: inputs[i],
                target: id,
                slot: i as u8,
            })
    }

    /// `post` is `self` with one more node, `id`, which holds `node` and takes
    /// `inputs` in slot order; nothing else differs.
    pub open spec fn grown(
        self,
        post: GraphModel,
        id: usize,
        node: NodeModel,
        inputs: Seq<usize>,
    ) -> bool {
        &&& !self.has(id)
        &&& post.nodes == self.nodes.insert(id, node)
        &&& exists|es: Seq<usize>| self.wired(post, es, inputs, id)
        &&& post.id_remap == self.id_remap
        &&& post.no_delete == self.no_delete
        &&& post.to_retrieve == self.to_retrieve
    }

    /// `list` names, for each edge of `es` in turn, the node at the edge's
    /// `far` end together with what that node holds.
    pub open spec fn shows(self, es: Seq<(usize, Edge)>, far: Way, list: Seq<(usize, &Node)>) -> bool {
        &&& list.len() == es.len()
        &&& forall|k: int|
            0 <= k < list.len() ==> {
                &&& (#[trigger] list[k]).0 == es[k].1.end(far)
                &&& self.has(list[k].0)
                &&& list[k].1@ == self.nodes[list[k].0]
            }
    }

    /// The graph after every outside reference to `src` has moved to `trg`:
    /// the remap table is redirected from `src` to `trg`, and `trg` takes the
    /// place of `src` in the protected and the retained set.
    pub open spec fn moved(self, src: usize, trg: usize) -> GraphModel {
        GraphModel {
            id_remap: redirected(self.id_remap, src, trg),
            no_delete: if self.no_delete.contains(src) {
                self.no_delete.remove(src).insert(trg)
            } else {
                self.no_delete
            },
            to_retrieve: if self.to_retrieve.contains(src) {
                self.to_retrieve.remove(src).insert(trg)
            } else {
                self.to_retrieve
            },
            ..self
        }
    }

    /// `list` holds exactly the edges that end in `a` on the given side, each
    /// once with its index, in ascending order of slot.
    pub open spec fn lists(self, a: usize, way: Way, list: Seq<(usize, Edge)>) -> bool {
        &&& forall|k: int|
            0 <= k < list.len() ==> {
                &&& self.has_edge(#[trigger] list[k].0)
                &&& self.edges[list[k].0] == list[k].1
                &&& list[k].1.end(way) == a
            }
        &&& forall|e: usize| #[trigger]
            self.has_edge(e) && self.edges[e].end(way) == a ==> exists|k: int|
                0 <= k < list.len() && list[k].0 == e
        &&& ids_differ(list)
        &&& slots_ascend(list)
    }
}

/// Whether `x` is an entry of `list` that lies below slot `s`, or before
/// position `j`.
spec fn taken(list: Seq<(usize, Edge)>, x: (usize, Edge), s: int, j: int) -> bool {
    exists|i: int| 0 <= i < list.len() && list[i] == x && (list[i].1.slot < s || i < j)
}

/// Whether edges of one slot stand in `out` in the order in which they stand
/// in `list`.
pub open spec fn keeps_order(list: Seq<(usize, Edge)>, out: Seq<(usize, Edge)>) -> bool {
    forall|k: int, l: int, i: int, j: int|
        #![trigger out[k], out[l], list[i], list[j]]
        0 <= k < l < out.len() && 0 <= i < list.len() && 0 <= j < list.len() && out[k] == list[i]
            && out[l] == list[j] && out[k].1.slot == out[l].1.slot ==> i < j
}

/// Orders a list of edges by input slot; edges of one slot keep their order.
pub fn sort_by_slot(list: &Vec<(usize, Edge)>) -> (out: Vec<(usize, Edge)>)
    requires
        ids_differ(list@),
    ensures
        slots_ascend(out@),
        ids_differ(out@),
        forall|x: (usize, Edge)| out@.contains(x) <==> list@.contains(x),
        keeps_order(list@, out@),
{
    let n = list.len();
    let mut out: Vec<(usize, Edge)> = Vec::new();
    let mut s: usize = 0;
    while s < 256
        invariant
            s <= 256,
            n == list@.len(),
            ids_differ(list@),
            ids_differ(out@),
            slots_ascend(out@),
            keeps_order(list@, out@),
            forall|k: int| 0 <= k < out@.len() ==> (#[trigger] out@[k]).1.slot < s,
            forall|k: int| 0 <= k < out@.len() ==> list@.contains(#[trigger] out@[k]),
            forall|i: int|
                0 <= i < n && (#[trigger] list@[i]).1.slot < s ==> out@.contains(list@[i]),
        decreases 256 - s,
    {
        let mut j: usize = 0;
        proof {
            assert forall|k: int| 0 <= k < out@.len() implies taken(
                list@,
                #[trigger] out@[k],
                s as int,
                0,
            ) by {
                assert(list@.contains(out@[k]));
                let i = choose|i: int| 0 <= i < list@.len() && list@[i] == out@[k];
                assert(list@[i].1.slot < s);
            }
        }
        while j < n
            invariant
                s < 256,
                j <= n,
                n == list@.len(),
                ids_differ(list@),
                ids_differ(out@),
                slots_ascend(out@),
                keeps_order(list@, out@),
                forall|k: int| 0 <= k < out@.len() ==> (#[trigger] out@[k]).1.slot <= s,
                forall|k: int|
                    0 <= k < out@.len() ==> taken(list@, #[trigger] out@[k], s as int, j as int),
                forall|i: int|
                    0 <= i < n && ((#[trigger] list@[i]).1.slot < s || (list@[i].1.slot == s && i
                        < j)) ==> out@.contains(list@[i]),
            decreases n - j,
        {
            let item = list[j];
            proof {
                assert forall|k: int| 0 <= k < out@.len() implies taken(
                    list@,
                    #[trigger] out@[k],
                    s as int,
                    j + 1,
                ) by {
                    assert(taken(list@, out@[k], s as int, j as int));
                    let i = choose|i: int|
                        0 <= i < n && list@[i] == out@[k] && (list@[i].1.slot < s || i < j);
                    assert(list@[i] == out@[k] && (list@[i].1.slot < s || i < j + 1));
                }
            }
            if item.1.slot as usize == s {
                let ghost before = out@;
                out.push(item);
                proof {
                    assert forall|k: int, l: int, i: int, m: int|
                        #![trigger out@[k], out@[l], list@[i], list@[m]]
                        0 <= k < l < out@.len() && 0 <= i < n && 0 <= m < n && out@[k] == list@[i]
                            && out@[l] == list@[m] && out@[k].1.slot
                            == out@[l].1.slot implies i < m by {
                        if l == before.len() as int {
                            assert(out@[k] == before[k]);
                            assert(taken(list@, before[k], s as int, j as int));
                            let w = choose|w: int|
                                0 <= w < n && list@[w] == before[k] && (list@[w].1.slot < s || w
                                    < j);
                            if w < i {
                                assert(list@[w].0 != list@[i].0);
                            } else if i < w {
                                assert(list@[i].0 != list@[w].0);
                            }
                            if m < j {
                                assert(list@[m].0 != list@[j as int].0);
                            } else if j < m {
                                assert(list@[j as int].0 != list@[m].0);
                            }
                        } else {
                            assert(out@[k] == before[k] && out@[l] == before[l]);
                        }
                    }
                    assert forall|k: int, l: int| 0 <= k < l < out@.len() implies out@[k].0
                        != out@[l].0 by {
                        if l == before.len() as int {
                            assert(taken(list@, before[k], s as int, j as int));
                            let i = choose|i: int|
                                0 <= i < n && list@[i] == before[k] && (list@[i].1.slot < s || i
                                    < j);
                            assert(i != j as int);
                            if i < j {
                                assert(list@[i].0 != list@[j as int].0);
                            } else {
                                assert(list@[j as int].0 != list@[i].0);
                            }
                        } else {
                            assert(out@[k] == before[k] && out@[l] == before[l]);
                        }
                    }
                    assert forall|k: int| 0 <= k < out@.len() implies taken(
                        list@,
                        #[trigger] out@[k],
                        s as int,
                        j + 1,
                    ) by {
                        if k == before.len() as int {
                            assert(list@[j as int] == out@[k]);
                        } else {
                            assert(taken(list@, before[k], s as int, j as int));
                            let i = choose|i: int|
                                0 <= i < n && list@[i] == before[k] && (list@[i].1.slot < s || i
                                    < j);
                            assert(list@[i] == out@[k]);
                        }
                    }
                    assert forall|i: int|
                        0 <= i < n && ((#[trigger] list@[i]).1.slot < s || (list@[i].1.slot == s
                            && i < j + 1)) implies out@.contains(list@[i]) by {
                        if i == j as int {
                            assert(out@[before.len() as int] == list@[i]);
                        } else {
                            assert(before.contains(list@[i]));
                            let k = choose|k: int| 0 <= k < before.len() && before[k] == list@[i];
                            assert(out@[k] == list@[i]);
                        }
                    }
                }
            }
            j += 1;
        }
        proof {
            assert forall|k: int| 0 <= k < out@.len() implies list@.contains(#[trigger] out@[k]) by {
                assert(taken(list@, out@[k], s as int, j as int));
                let i = choose|i: int|
                    0 <= i < n && list@[i] == out@[k] && (list@[i].1.slot < s || i < j);
                assert(list@[i] == out@[k]);
            }
        }
        s += 1;
    }
    proof {
        assert forall|x: (usize, Edge)| list@.contains(x) implies out@.contains(x) by {
            let i = choose|i: int| 0 <= i < list@.len() && list@[i] == x;
            assert(list@[i].1.slot < 256);
        }
    }
    out
}

/// The invariant of a graph carries over to one with the same nodes and
/// edges whose protected nodes are nodes of the graph and whose retained
/// nodes are protected.
pub proof fn lemma_wf_same_edges(pre: GraphModel, post: GraphModel)
    requires
        pre.wf(),
        post.nodes == pre.nodes,
        post.edges == pre.edges,
        post.no_delete.subset_of(post.nodes.dom()),
        post.to_retrieve.subset_of(post.no_delete),
    ensures
        post.wf(),
{
    let rank = choose|rank: spec_fn(usize) -> int| pre.ranked_by(rank);
    assert forall|e: usize| #[trigger] post.has_edge(e) implies rank(post.edges[e].source) < rank(
        post.edges[e].target,
    ) && post.has(post.edges[e].source) && post.has(post.edges[e].target) by {
        assert(pre.has_edge(e));
    }
    assert(post.ranked_by(rank));
    assert forall|d: usize, e: usize|
        #![trigger post.has_edge(d), post.has_edge(e)]
        post.has_edge(d) && post.has_edge(e) && d != e && post.edges[d].target
            == post.edges[e].target implies post.edges[d].slot != post.edges[e].slot by {
        assert(pre.has_edge(d) && pre.has_edge(e));
    }
}

/// A rank above that of every node in `inputs`.
pub open spec fn rank_above(rank: spec_fn(usize) -> int, inputs: Seq<usize>) -> int
    decreases inputs.len(),
{
    if inputs.len() == 0 {
        0
    } else {
        let rest = rank_above(rank, inputs.drop_last());
        if rank(inputs.last()) < rest {
            rest
        } else {
            rank(inputs.last()) + 1
        }
    }
}

/// The rank above a list of nodes is above the rank of each of them.
pub proof fn lemma_rank_above(rank: spec_fn(usize) -> int, inputs: Seq<usize>, i: int)
    requires
        0 <= i < inputs.len(),
    ensures
        rank(inputs[i]) < rank_above(rank, inputs),
    decreases inputs.len(),
{
    if i < inputs.len() - 1 {
        lemma_rank_above(rank, inputs.drop_last(), i);
    }
}

/// An operator that is about to join a graph: the operator, the shape it
/// declares, and the nodes it reads, in slot order.
pub struct NewOp {
    pub op: Op,
    pub shape: Vec<usize>,
    pub inputs: Vec<usize>,
}

impl NewOp {
    /// Adds `src` as the next input.
    pub fn input(self, src: usize) -> (b: NewOp)
        ensures
            b.op == self.op,
            b.shape == self.shape,
            b.inputs@ == self.inputs@.push(src),
    {
        let mut b = self;
        b.inputs.push(src);
        b
    }

    /// Inserts the operator into `graph` with an edge from each input, and
    /// returns the index of the new node.
    pub fn finish(self, graph: &mut Graph) -> (id: usize)
        requires
            old(graph)@.wf(),
            self.inputs@.len() <= 256,
            forall|i: int| 0 <= i < self.inputs@.len() ==> old(graph)@.has(self.inputs@[i]),
        ensures
            final(graph)@.wf(),
            old(graph)@.grown(
                final(graph)@,
                id,
                (NodeModel { op: self.op@, shape: self.shape@ }),
                self.inputs@,
            ),
    {
        let ghost pre = graph@;
        let NewOp { op, shape, inputs } = self;
        let id = graph_add_node(&mut graph.graph, Node { op, shape });
        let ghost mid = graph@;
        let ghost es: Seq<usize> = Seq::empty();
        let n = inputs.len();
        let mut i: usize = 0;
        while i < n
            invariant
                i <= n,
                n == inputs@.len(),
                n <= 256,
                graph@.nodes == mid.nodes,
                graph@.id_remap == pre.id_remap,
                graph@.no_delete == pre.no_delete,
                graph@.to_retrieve == pre.to_retrieve,
                mid.nodes == pre.nodes.insert(id, (NodeModel { op: op@, shape: shape@ })),
                mid.edges == pre.edges,
                forall|k: int| 0 <= k < n ==> pre.has(#[trigger] inputs@[k]),
                pre.wired(graph@, es, inputs@.take(i as int), id),
            decreases n - i,
        {
            let ghost before = graph@;
            let e = graph_add_edge(&mut graph.graph, inputs[i], id, i as u8);
            proof {
                let es2 = es.push(e);
                let now = graph@;
                assert(inputs@.take(i + 1) =~= inputs@.take(i as int).push(inputs@[i as int]));
                assert(!before.has_edge(e));
                assert(!es.contains(e));
                assert forall|x: usize| #[trigger] now.has_edge(x) <==> pre.has_edge(x)
                    || es2.contains(x) by {
                    assert(now.has_edge(x) <==> x == e || before.has_edge(x));
                    if es.contains(x) {
                        let k = choose|k: int| 0 <= k < es.len() && es[k] == x;
                        assert(es2[k] == x);
                    }
                    if x == e {
                        assert(es2[es.len() as int] == x);
                    }
                    if es2.contains(x) {
                        let k = choose|k: int| 0 <= k < es2.len() && es2[k] == x;
                        if k < es.len() {
                            assert(es[k] == x);
                        }
                    }
                }
                assert forall|k: int| 0 <= k < es2.len() implies now.edges[#[trigger] es2[k]] == (
                Edge { source: inputs@.take(i + 1)[k], target: id, slot: k as u8 }) by {
                    if k < es.len() {
                        assert(es[k] == es2[k]);
                        assert(before.has_edge(es[k])) by {
                            assert(es.contains(es[k]));
                        }
                    }
                }
                es = es2;
            }
            i += 1;
        }
        proof {
            let post = graph@;
            assert(inputs@.take(n as int) =~= inputs@);
            assert(pre.wired(post, es, inputs@, id));
            let rank = choose|rank: spec_fn(usize) -> int| pre.ranked_by(rank);
            let top = rank_above(rank, inputs@);
            let rank2 = |a: usize|
                if a == id {
                    top
                } else {
                    rank(a)
                };
            assert forall|e: usize| #[trigger] post.has_edge(e) implies rank2(post.edges[e].source)
                < rank2(post.edges[e].target) && post.has(post.edges[e].source) && post.has(
                post.edges[e].target,
            ) by {
                if pre.has_edge(e) {
                    assert(pre.has(pre.edges[e].source) && pre.has(pre.edges[e].target));
                } else {
                    let k = choose|k: int| 0 <= k < es.len() && es[k] == e;
                    lemma_rank_above(rank, inputs@, k);
                    assert(pre.has(inputs@[k]));
                }
            }
            assert(post.ranked_by(rank2));
            assert forall|d: usize, e: usize|
                #![trigger post.has_edge(d), post.has_edge(e)]
                post.has_edge(d) && post.has_edge(e) && d != e && post.edges[d].target
                    == post.edges[e].target implies post.edges[d].slot != post.edges[e].slot by {
                if pre.has_edge(d) {
                    assert(pre.has(pre.edges[d].target));
                }
                if pre.has_edge(e) {
                    assert(pre.has(pre.edges[e].target));
                }
                if !pre.has_edge(d) && !pre.has_edge(e) {
                    let k = choose|k: int| 0 <= k < es.len() && es[k] == d;
                    let l = choose|l: int| 0 <= l < es.len() && es[l] == e;
                    assert(k != l);
                } else if !pre.has_edge(d) {
                    let k = choose|k: int| 0 <= k < es.len() && es[k] == d;
                } else if !pre.has_edge(e) {
                    let l = choose|l: int| 0 <= l < es.len() && es[l] == e;
                }
            }
        }
        id
    }
}

impl Graph {
    /// Starts a new operator with its declared output shape and no input.
    pub fn add_op(op: Op, shape: Vec<usize>) -> (b: NewOp)
        ensures
            b.op == op,
            b.shape == shape,
            b.inputs@ =~= Seq::empty(),
    {
        NewOp { op, shape, inputs: Vec::new() }
    }

    /// An empty graph.
    pub fn new() -> (g: Graph)
        ensures
            g@.wf(),
            g@.nodes =~= Map::empty(),
            g@.edges =~= Map::empty(),
            g@.id_remap =~= Map::empty(),
            g@.no_delete =~= Set::empty(),
            g@.to_retrieve =~= Set::empty(),
    {
        let g = Graph {
            graph: graph_new(),
            id_remap: RemapTable::new(),
            no_delete: HashSet::new(),
            to_retrieve: HashSet::new(),
        };
        proof {
            let rank = |a: usize| 0int;
            assert(g@.ranked_by(rank));
        }
        g
    }

    /// A copy of the graph as it stands, to go back to.
    pub fn snapshot(&self) -> (copy: Graph)
        ensures
            copy@ == self@,
    {
        Graph {
            graph: graph_clone(&self.graph),
            id_remap: self.id_remap.duplicate(),
            no_delete: set_clone(&self.no_delete),
            to_retrieve: set_clone(&self.to_retrieve),
        }
    }

    /// Whether `id` is a node of the graph.
    pub fn contains(&self, id: usize) -> (b: bool)
        ensures
            b == self@.has(id),
    {
        graph_node_weight(&self.graph, id).is_some()
    }

    /// The operator and declared shape of a node.
    pub fn node(&self, id: usize) -> (w: Option<&Node>)
        ensures
            w.is_some() == self@.has(id),
            w.is_some() ==> w.unwrap()@ == self@.nodes[id],
    {
        graph_node_weight(&self.graph, id)
    }

    /// The indices of the graph's nodes, in increasing order.
    pub fn node_ids(&self) -> (ids: Vec<usize>)
        ensures
            forall|i: int, j: int| 0 <= i < j < ids@.len() ==> ids@[i] < ids@[j],
            forall|a: usize| self@.has(a) <==> ids@.contains(a),
    {
        graph_node_indices(&self.graph)
    }

    /// The edges that end in `a` on the given side, in ascending order of
    /// slot.
    pub fn edges_at(&self, a: usize, way: Way) -> (list: Vec<(usize, Edge)>)
        requires
            self@.edges_closed(),
        ensures
            self@.lists(a, way, list@),
    {
        let raw = graph_edges_directed(&self.graph, a, way);
        let list = sort_by_slot(&raw);
        proof {
            let m = self@;
            assert forall|k: int| 0 <= k < list@.len() implies {
                &&& m.has_edge(#[trigger] list@[k].0)
                &&& m.edges[list@[k].0] == list@[k].1
                &&& list@[k].1.end(way) == a
            } by {
                assert(list@.contains(list@[k]));
                assert(raw@.contains(list@[k]));
                let i = choose|i: int| 0 <= i < raw@.len() && raw@[i] == list@[k];
                assert(m.has_edge(raw@[i].0));
            }
            assert forall|e: usize| #[trigger] m.has_edge(e) && m.edges[e].end(way) == a implies exists|
                k: int,
            | 0 <= k < list@.len() && list@[k].0 == e by {
                assert(m.has(a)) by {
                    assert(m.has(m.edges[e].source) && m.has(m.edges[e].target));
                }
                let i = choose|i: int| 0 <= i < raw@.len() && raw@[i].0 == e;
                assert(raw@.contains(raw@[i]));
                assert(list@.contains(raw@[i]));
                let k = choose|k: int| 0 <= k < list@.len() && list@[k] == raw@[i];
                assert(list@[k].0 == e);
            }
        }
        list
    }

    /// The nodes at the far end of the edges on one side of `id`, in ascending
    /// order of the edges' slots.
    fn neighbours(&self, id: usize, way: Way, far: Way) -> (list: Vec<(usize, &Node)>)
        requires
            self@.edges_closed(),
            way != far,
        ensures
            exists|es: Seq<(usize, Edge)>| self@.lists(id, way, es) && self@.shows(es, far, list@),
    {
        let es = self.edges_at(id, way);
        let mut list: Vec<(usize, &Node)> = Vec::new();
        let n = es.len();
        let mut k: usize = 0;
        while k < n
            invariant
                k <= n,
                n == es@.len(),
                way != far,
                self@.edges_closed(),
                self@.lists(id, way, es@),
                self@.shows(es@.take(k as int), far, list@),
            decreases n - k,
        {
            let edge = es[k].1;
            let other = match far {
                Way::Incoming => edge.target,
                Way::Outgoing => edge.source,
            };
            proof {
                assert(self@.has_edge(es@[k as int].0));
                assert(self@.has(edge.source) && self@.has(edge.target));
            }
            let weight = graph_node_weight(&self.graph, other);
            let node = weight.unwrap();
            let ghost before = list@;
            list.push((other, node));
            proof {
                let part = es@.take(k + 1);
                assert forall|j: int| 0 <= j < list@.len() implies {
                    &&& (#[trigger] list@[j]).0 == part[j].1.end(far)
                    &&& self@.has(list@[j].0)
                    &&& list@[j].1@ == self@.nodes[list@[j].0]
                } by {
                    if j < k {
                        assert(list@[j] == before[j]);
                        assert(es@.take(k as int)[j] == part[j]);
                    }
                }
            }
            k += 1;
        }
        proof {
            assert(es@.take(n as int) =~= es@);
        }
        list
    }

    /// The producers that node `id` reads, in slot order, each with what it
    /// holds.
    pub fn get_sources(&self, id: usize) -> (list: Vec<(usize, &Node)>)
        requires
            self@.edges_closed(),
        ensures
            exists|es: Seq<(usize, Edge)>|
                self@.lists(id, Way::Incoming, es) && self@.shows(es, Way::Outgoing, list@),
    {
        self.neighbours(id, Way::Incoming, Way::Outgoing)
    }

    /// The consumers that read node `id`, in the order of the slots they read
    /// it through, each with what it holds.
    pub fn get_dests(&self, id: usize) -> (list: Vec<(usize, &Node)>)
        requires
            self@.edges_closed(),
        ensures
            exists|es: Seq<(usize, Edge)>|
                self@.lists(id, Way::Outgoing, es) && self@.shows(es, Way::Incoming, list@),
    {
        self.neighbours(id, Way::Outgoing, Way::Incoming)
    }

    /// Protects node `id` from removal by any pass. Returns whether `id` is a
    /// node of the graph; if it is not, nothing changes.
    pub fn mark_no_delete(&mut self, id: usize) -> (done: bool)
        ensures
            done == old(self)@.has(id),
            done ==> final(self)@ == (GraphModel {
                no_delete: old(self)@.no_delete.insert(id),
                ..old(self)@
            }),
            !done ==> final(self)@ == old(self)@,
            old(self)@.wf() ==> final(self)@.wf(),
    {
        if !self.contains(id) {
            return false;
        }
        self.no_delete.insert(id);
        proof {
            if old(self)@.wf() {
                lemma_wf_same_edges(old(self)@, self@);
            }
        }
        true
    }

    /// Registers node `id` for retention: its output stays readable after
    /// execution, and no pass may remove it. Returns whether `id` is a node of
    /// the graph; if it is not, nothing changes.
    pub fn mark(&mut self, id: usize) -> (done: bool)
        ensures
            done == old(self)@.has(id),
            done ==> final(self)@ == (GraphModel {
                no_delete: old(self)@.no_delete.insert(id),
                to_retrieve: old(self)@.to_retrieve.insert(id),
                ..old(self)@
            }),
            !done ==> final(self)@ == old(self)@,
            old(self)@.wf() ==> final(self)@.wf(),
    {
        if !self.contains(id) {
            return false;
        }
        self.no_delete.insert(id);
        self.to_retrieve.insert(id);
        proof {
            if old(self)@.wf() {
                lemma_wf_same_edges(old(self)@, self@);
            }
        }
        true
    }

    /// Whether node `id` is protected from removal.
    pub fn is_no_delete(&self, id: usize) -> (b: bool)
        ensures
            b == self@.no_delete.contains(id),
    {
        self.no_delete.contains(&id)
    }

    /// Whether node `id` is registered for retention.
    pub fn is_retrieved(&self, id: usize) -> (b: bool)
        ensures
            b == self@.to_retrieve.contains(id),
    {
        self.to_retrieve.contains(&id)
    }

    /// Where the remap table sends `id`, if anywhere.
    pub fn remapped(&self, id: usize) -> (to: Option<usize>)
        ensures
            to == (if self@.id_remap.dom().contains(id) {
                Some(self@.id_remap[id])
            } else {
                None
            }),
    {
        self.id_remap.get(id)
    }

    /// Moves every outside reference from `src` to `trg`, for a pass that
    /// replaces node `src` by node `trg`.
    pub fn move_references(&mut self, src: usize, trg: usize)
        ensures
            final(self)@ == old(self)@.moved(src, trg),
            old(self)@.wf() && old(self)@.has(trg) ==> final(self)@.wf(),
    {
        self.id_remap.redirect(src, trg);
        if self.no_delete.remove(&src) {
            self.no_delete.insert(trg);
        }
        if self.to_retrieve.remove(&src) {
            self.to_retrieve.insert(trg);
        }
        proof {
            let want = old(self)@.moved(src, trg);
            assert(self@.id_remap =~= want.id_remap);
            assert(self@.no_delete =~= want.no_delete);
            assert(self@.to_retrieve =~= want.to_retrieve);
            if old(self)@.wf() && old(self)@.has(trg) {
                lemma_wf_same_edges(old(self)@, self@);
            }
        }
    }
}

} // verus!
