//! The CPU backend pass: it finds the broadcast-multiply-reduce form of a
//! matrix product and puts one matrix-product node in its place.

use crate::graph::Graph;
use crate::graph::GraphModel;
use crate::op::Op;
use crate::op::OpModel;
use crate::optimizers::carries;
use crate::optimizers::keeps_outputs;
use crate::optimizers::lemma_keeps_own;
use crate::optimizers::lemma_keeps_through;
use crate::optimizers::GraphOptimizer;
use crate::shape::capacity;
use crate::shape::lemma_locate_in_bounds;
use crate::shape::lemma_tail_bounds;
use crate::shape::tail_numel;
use crate::shape::numel;
use crate::shape::sum_from;
use crate::shape::ShapeTracker;
use crate::shape::TrackerModel;
use crate::stable::edges_clear_of;
use crate::stable::graph_add_edge;
use crate::stable::graph_remove_node;
use crate::stable::Edge;
use crate::stable::Node;
use crate::stable::Way;
use vstd::prelude::*;

verus! {

/// The nodes of one occurrence of the matrix-product pattern
/// `Permute → Expand → Mul ← Expand`, followed by `SumReduce`, with the two
/// nodes that feed it.
#[derive(Clone, Copy, Debug, PartialEq, Eq, Structural)]
pub struct MatMulSite {
    pub permute: usize,
    pub expand_1: usize,
    pub mul: usize,
    pub expand_2: usize,
    pub sum_reduce: usize,
    /// The left factor: what the second `Expand` reads.
    pub input_0: usize,
    /// The right factor: what the `Permute` reads.
    pub input_1: usize,
}

impl MatMulSite {
    /// The five nodes that a rewrite takes out of the graph.
    pub open spec fn removed(self) -> Set<usize> {
        set![self.permute, self.expand_1, self.expand_2, self.mul, self.sum_reduce]
    }
}

/// `e` is the one edge that ends in `a` on the given side.
pub open spec fn sole_edge(m: GraphModel, e: usize, a: usize, way: Way) -> bool {
    &&& m.has_edge(e)
    &&& m.edges[e].end(way) == a
    &&& forall|x: usize| #[trigger] m.has_edge(x) && m.edges[x].end(way) == a ==> x == e
}

/// Node `a` has exactly one outgoing edge, and it leads to `b`.
pub open spec fn only_dest(m: GraphModel, a: usize, b: usize) -> bool {
    exists|e: usize| sole_edge(m, e, a, Way::Outgoing) && m.edges[e].target == b
}

/// Leaving aside the edges from `skip`, node `a` has exactly one incoming
/// edge, and it comes from `s`.
pub open spec fn only_other_source(m: GraphModel, a: usize, skip: usize, s: usize) -> bool {
    exists|e: usize|
        {
            &&& m.has_edge(e)
            &&& m.edges[e].target == a
            &&& m.edges[e].source == s
            &&& s != skip
            &&& forall|x: usize| #[trigger]
                m.has_edge(x) && m.edges[x].target == a && m.edges[x].source != skip ==> x == e
        }
}

/// Node `s` feeds the highest bound input slot of node `a`.
pub open spec fn last_source(m: GraphModel, a: usize, s: usize) -> bool {
    exists|e: usize|
        {
            &&& m.has_edge(e)
            &&& m.edges[e].target == a
            &&& m.edges[e].source == s
            &&& forall|x: usize| #[trigger]
                m.has_edge(x) && m.edges[x].target == a ==> m.edges[x].slot <= m.edges[e].slot
        }
}

/// Whether `site` is an occurrence of the pattern that a pass may replace:
/// a two-dimensional `Permute` whose only consumer is a three-dimensional
/// `Expand`, whose only consumer is a three-dimensional `Mul`; the other
/// operand of the `Mul` is a three-dimensional `Expand` read by nothing else;
/// the only consumer of the `Mul` is a two-dimensional `SumReduce` over the
/// last axis; none of the four inner nodes is protected; the factors are what
/// the second `Expand` and the `Permute` read through their last slot; and
/// the `SumReduce` declares the rows of the left factor by the columns of
/// the right one.
pub open spec fn matches(m: GraphModel, site: MatMulSite) -> bool {
    &&& m.has(site.permute)
    &&& m.nodes[site.permute].op is Permute
    &&& m.nodes[site.permute].shape.len() == 2
    &&& only_dest(m, site.permute, site.expand_1)
    &&& m.nodes[site.expand_1].op is Expand
    &&& m.nodes[site.expand_1].shape.len() == 3
    &&& only_dest(m, site.expand_1, site.mul)
    &&& m.nodes[site.mul].op is Mul
    &&& m.nodes[site.mul].shape.len() == 3
    &&& only_other_source(m, site.mul, site.expand_1, site.expand_2)
    &&& m.nodes[site.expand_2].op is Expand
    &&& m.nodes[site.expand_2].shape.len() == 3
    &&& only_dest(m, site.expand_2, site.mul)
    &&& only_dest(m, site.mul, site.sum_reduce)
    &&& m.nodes[site.sum_reduce].op == OpModel::SumReduce(2)
    &&& m.nodes[site.sum_reduce].shape.len() == 2
    &&& !m.no_delete.contains(site.permute)
    &&& !m.no_delete.contains(site.expand_1)
    &&& !m.no_delete.contains(site.expand_2)
    &&& !m.no_delete.contains(site.mul)
    &&& last_source(m, site.expand_2, site.input_0)
    &&& last_source(m, site.permute, site.input_1)
    &&& m.nodes[site.input_0].shape.len() >= 1
    &&& m.nodes[site.input_1].shape.len() >= 2
    &&& m.nodes[site.sum_reduce].shape[0] == m.nodes[site.input_0].shape[0]
    &&& m.nodes[site.sum_reduce].shape[1] == m.nodes[site.input_1].shape[1]
}

/// A list of all edges on one side of a node has one entry exactly when the
/// node has a sole edge on that side, and the entry is that edge.
pub proof fn lemma_sole_edge(m: GraphModel, a: usize, way: Way, es: Seq<(usize, Edge)>)
    requires
        m.lists(a, way, es),
    ensures
        es.len() == 1 ==> sole_edge(m, es[0].0, a, way),
        forall|e: usize| sole_edge(m, e, a, way) ==> es.len() == 1 && es[0].0 == e,
{
    if es.len() == 1 {
        assert(m.has_edge(es[0].0));
        assert forall|x: usize| #[trigger] m.has_edge(x) && m.edges[x].end(way) == a implies x
            == es[0].0 by {
            let k = choose|k: int| 0 <= k < es.len() && es[k].0 == x;
        }
    }
    assert forall|e: usize| sole_edge(m, e, a, way) implies es.len() == 1 && es[0].0 == e by {
        assert(m.has_edge(e));
        let k = choose|k: int| 0 <= k < es.len() && es[k].0 == e;
        assert(m.has_edge(es[0].0));
        if es.len() >= 2 {
            assert(m.has_edge(es[1].0));
            assert(es[0].0 != es[1].0);
        }
    }
}

/// The last entry of a list of all incoming edges of a node comes from the
/// node's last source, and a node without incoming edges has no last source.
pub proof fn lemma_last_source(m: GraphModel, a: usize, es: Seq<(usize, Edge)>)
    requires
        m.lists(a, Way::Incoming, es),
        m.slots_distinct(),
    ensures
        es.len() > 0 ==> last_source(m, a, es.last().1.source),
        forall|s: usize| last_source(m, a, s) ==> es.len() > 0 && es.last().1.source == s,
{
    if es.len() > 0 {
        let e = es.last().0;
        assert(m.has_edge(e));
        assert forall|x: usize| #[trigger] m.has_edge(x) && m.edges[x].target == a implies m.edges[x].slot
            <= m.edges[e].slot by {
            let k = choose|k: int| 0 <= k < es.len() && es[k].0 == x;
            assert(m.has_edge(es[k].0));
        }
    }
    assert forall|s: usize| last_source(m, a, s) implies es.len() > 0 && es.last().1.source
        == s by {
        let e = choose|e: usize|
            {
                &&& m.has_edge(e)
                &&& m.edges[e].target == a
                &&& m.edges[e].source == s
                &&& forall|x: usize| #[trigger]
                    m.has_edge(x) && m.edges[x].target == a ==> m.edges[x].slot <= m.edges[e].slot
            };
        assert(m.has_edge(e));
        let k = choose|k: int| 0 <= k < es.len() && es[k].0 == e;
        let l = es.last().0;
        assert(m.has_edge(l));
        assert(m.edges[l].slot <= m.edges[e].slot);
        if k < es.len() - 1 {
            assert(es[k].1.slot <= es.last().1.slot);
            assert(m.has_edge(es[k].0));
            assert(l != e);
        }
    }
}

/// A node has at most one only consumer.
pub proof fn lemma_only_dest_unique(m: GraphModel, a: usize, b: usize, c: usize)
    requires
        only_dest(m, a, b),
        only_dest(m, a, c),
    ensures
        b == c,
{
    let e = choose|e: usize| sole_edge(m, e, a, Way::Outgoing) && m.edges[e].target == b;
    let f = choose|f: usize| sole_edge(m, f, a, Way::Outgoing) && m.edges[f].target == c;
    assert(m.has_edge(e) && m.has_edge(f));
}

/// A node has at most one only source beside a given one.
pub proof fn lemma_only_other_source_unique(m: GraphModel, a: usize, skip: usize, s: usize, t: usize)
    requires
        only_other_source(m, a, skip, s),
        only_other_source(m, a, skip, t),
    ensures
        s == t,
{
    let e = choose|e: usize|
        {
            &&& m.has_edge(e)
            &&& m.edges[e].target == a
            &&& m.edges[e].source == s
            &&& s != skip
            &&& forall|x: usize| #[trigger]
                m.has_edge(x) && m.edges[x].target == a && m.edges[x].source != skip ==> x == e
        };
    let f = choose|f: usize|
        {
            &&& m.has_edge(f)
            &&& m.edges[f].target == a
            &&& m.edges[f].source == t
            &&& t != skip
            &&& forall|x: usize| #[trigger]
                m.has_edge(x) && m.edges[x].target == a && m.edges[x].source != skip ==> x == f
        };
    assert(m.has_edge(e) && m.has_edge(f));
}

/// A node whose input slots are bound once each has at most one last source.
pub proof fn lemma_last_source_unique(m: GraphModel, a: usize, s: usize, t: usize)
    requires
        m.slots_distinct(),
        last_source(m, a, s),
        last_source(m, a, t),
    ensures
        s == t,
{
    let e = choose|e: usize|
        {
            &&& m.has_edge(e)
            &&& m.edges[e].target == a
            &&& m.edges[e].source == s
            &&& forall|x: usize| #[trigger]
                m.has_edge(x) && m.edges[x].target == a ==> m.edges[x].slot <= m.edges[e].slot
        };
    let f = choose|f: usize|
        {
            &&& m.has_edge(f)
            &&& m.edges[f].target == a
            &&& m.edges[f].source == t
            &&& forall|x: usize| #[trigger]
                m.has_edge(x) && m.edges[x].target == a ==> m.edges[x].slot <= m.edges[f].slot
        };
    assert(m.has_edge(e) && m.has_edge(f));
}

/// The only consumer of node `a` with what it holds, if `a` is read through
/// exactly one edge.
fn sole_dest(graph: &Graph, a: usize) -> (r: Option<(usize, &Node)>)
    requires
        graph@.edges_closed(),
    ensures
        match r {
            Some((b, w)) => only_dest(graph@, a, b) && graph@.has(b) && w@ == graph@.nodes[b],
            None => forall|b: usize| !only_dest(graph@, a, b),
        },
{
    let dests = graph.get_dests(a);
    proof {
        let es = choose|es: Seq<(usize, Edge)>|
            graph@.lists(a, Way::Outgoing, es) && graph@.shows(es, Way::Incoming, dests@);
        lemma_sole_edge(graph@, a, Way::Outgoing, es);
        if es.len() == 1 {
            assert(graph@.has_edge(es[0].0));
            assert(dests@[0].0 == es[0].1.target);
        }
    }
    if dests.len() != 1 {
        return None;
    }
    Some(dests[0])
}

/// The only source of node `a` beside `skip`, with what it holds, if there is
/// exactly one edge into `a` that does not come from `skip`.
fn other_source(graph: &Graph, a: usize, skip: usize) -> (r: Option<(usize, &Node)>)
    requires
        graph@.edges_closed(),
    ensures
        match r {
            Some((s, w)) => only_other_source(graph@, a, skip, s) && graph@.has(s) && w@
                == graph@.nodes[s],
            None => forall|s: usize| !only_other_source(graph@, a, skip, s),
        },
{
    let all = graph.get_sources(a);
    let ghost m = graph@;
    let ghost es = choose|es: Seq<(usize, Edge)>|
        m.lists(a, Way::Incoming, es) && m.shows(es, Way::Outgoing, all@);
    let ghost picked: Seq<int> = Seq::empty();
    let mut srcs: Vec<(usize, &Node)> = Vec::new();
    let n = all.len();
    let mut k: usize = 0;
    while k < n
        invariant
            k <= n,
            n == all@.len(),
            m == graph@,
            m.lists(a, Way::Incoming, es),
            m.shows(es, Way::Outgoing, all@),
            picked.len() == srcs@.len(),
            forall|j: int|
                0 <= j < picked.len() ==> 0 <= #[trigger] picked[j] < k && es[picked[j]].1.source
                    != skip && srcs@[j] == all@[picked[j]],
            forall|i: int, j: int| 0 <= i < j < picked.len() ==> picked[i] < picked[j],
            forall|i: int|
                0 <= i < k && (#[trigger] es[i]).1.source != skip ==> picked.contains(i),
        decreases n - k,
    {
        let entry = all[k];
        proof {
            assert(all@[k as int].0 == es[k as int].1.source);
        }
        if entry.0 != skip {
            let ghost before = picked;
            srcs.push(entry);
            proof {
                picked = picked.push(k as int);
                assert forall|i: int|
                    0 <= i < k + 1 && (#[trigger] es[i]).1.source != skip implies picked.contains(
                    i,
                ) by {
                    if i < k {
                        assert(before.contains(i));
                        let j = choose|j: int| 0 <= j < before.len() && before[j] == i;
                        assert(picked[j] == i);
                    } else {
                        assert(picked[before.len() as int] == i);
                    }
                }
            }
        }
        k += 1;
    }
    proof {
        if picked.len() > 0 {
            let e = es[picked[0]].0;
            assert(m.has_edge(e));
            assert(all@[picked[0]].0 == es[picked[0]].1.source);
        }
        if picked.len() == 1 {
            let e = es[picked[0]].0;
            assert forall|x: usize| #[trigger]
                m.has_edge(x) && m.edges[x].target == a && m.edges[x].source != skip implies x
                == e by {
                let i = choose|i: int| 0 <= i < es.len() && es[i].0 == x;
                assert(m.has_edge(es[i].0));
                assert(picked.contains(i));
            }
            assert(only_other_source(m, a, skip, srcs@[0].0));
        } else {
            assert forall|s: usize| !only_other_source(m, a, skip, s) by {
                if only_other_source(m, a, skip, s) {
                    let e = choose|e: usize|
                        {
                            &&& m.has_edge(e)
                            &&& m.edges[e].target == a
                            &&& m.edges[e].source == s
                            &&& s != skip
                            &&& forall|x: usize| #[trigger]
                                m.has_edge(x) && m.edges[x].target == a && m.edges[x].source
                                    != skip ==> x == e
                        };
                    assert(m.has_edge(e));
                    let i = choose|i: int| 0 <= i < es.len() && es[i].0 == e;
                    assert(m.has_edge(es[i].0));
                    assert(picked.contains(i));
                    assert(picked.len() >= 2);
                    assert(m.has_edge(es[picked[0]].0));
                    assert(m.has_edge(es[picked[1]].0));
                    assert(es[picked[0]].0 != es[picked[1]].0);
                }
            }
        }
    }
    if srcs.len() != 1 {
        return None;
    }
    Some(srcs[0])
}

/// The source that feeds the highest bound slot of node `a`, with what it
/// holds, if `a` has any input.
fn final_source(graph: &Graph, a: usize) -> (r: Option<(usize, &Node)>)
    requires
        graph@.edges_closed(),
        graph@.slots_distinct(),
    ensures
        match r {
            Some((s, w)) => last_source(graph@, a, s) && graph@.has(s) && w@ == graph@.nodes[s],
            None => forall|s: usize| !last_source(graph@, a, s),
        },
{
    let mut srcs = graph.get_sources(a);
    proof {
        let es = choose|es: Seq<(usize, Edge)>|
            graph@.lists(a, Way::Incoming, es) && graph@.shows(es, Way::Outgoing, srcs@);
        lemma_last_source(graph@, a, es);
        if es.len() > 0 {
            assert(srcs@[es.len() - 1].0 == es.last().1.source);
        }
    }
    srcs.pop()
}

/// How the edges of `post` come from those of `pre` when `site` is replaced
/// by node `new`: every edge clear of the five removed nodes stays as it is;
/// the edges `ins` lead from the two factors to slots 0 and 1 of `new`; each
/// edge `e` that left the `SumReduce` has a copy `outs[e]` that leaves `new`
/// for the same target and slot; and `post` has no other edge.
pub open spec fn rewired(
    pre: GraphModel,
    site: MatMulSite,
    new: usize,
    post: GraphModel,
    ins: Seq<usize>,
    outs: Map<usize, usize>,
) -> bool {
    &&& forall|e: usize| #[trigger]
        pre.has_edge(e) ==> (post.has_edge(e) <==> !site.removed().contains(pre.edges[e].source)
            && !site.removed().contains(pre.edges[e].target))
    &&& forall|e: usize| #[trigger]
        pre.has_edge(e) && post.has_edge(e) ==> post.edges[e] == pre.edges[e]
    &&& ins.len() == 2
    &&& !pre.has_edge(ins[0])
    &&& !pre.has_edge(ins[1])
    &&& post.has_edge(ins[0])
    &&& post.has_edge(ins[1])
    &&& post.edges[ins[0]] == (Edge { source: site.input_0, target: new, slot: 0 })
    &&& post.edges[ins[1]] == (Edge { source: site.input_1, target: new, slot: 1 })
    &&& forall|e: usize| #[trigger]
        outs.dom().contains(e) <==> pre.has_edge(e) && pre.edges[e].source == site.sum_reduce
    &&& forall|e: usize| #[trigger]
        outs.dom().contains(e) ==> {
            &&& !pre.has_edge(outs[e])
            &&& post.has_edge(outs[e])
            &&& post.edges[outs[e]] == (Edge {
                source: new,
                target: pre.edges[e].target,
                slot: pre.edges[e].slot,
            })
        }
    &&& forall|d: usize, e: usize|
        #![trigger outs.dom().contains(d), outs.dom().contains(e)]
        outs.dom().contains(d) && outs.dom().contains(e) && d != e ==> outs[d] != outs[e]
    &&& forall|x: usize| #[trigger]
        post.has_edge(x) ==> pre.has_edge(x) || x == ins[0] || x == ins[1] || exists|e: usize|
            outs.dom().contains(e) && outs[e] == x
}

/// `post` is `pre` with the occurrence `site` replaced by the one node `new`:
/// the five nodes of the pattern are gone and every other node is untouched;
/// `new` is a [`CPUMatMul2D`] that declares the rows of the left factor by
/// the columns of the right one; the edges are rewired; and every outside
/// reference to the `SumReduce` has moved to `new`.
pub open spec fn rewritten(pre: GraphModel, site: MatMulSite, new: usize, post: GraphModel) -> bool {
    &&& !pre.has(new)
    &&& post.has(new)
    &&& post.nodes == pre.nodes.remove_keys(site.removed()).insert(new, post.nodes[new])
    &&& post.nodes[new].op == OpModel::CPUMatMul2D
    &&& post.nodes[new].shape == seq![
        pre.nodes[site.input_0].shape[0],
        pre.nodes[site.input_1].shape[1],
    ]
    &&& exists|ins: Seq<usize>, outs: Map<usize, usize>| rewired(pre, site, new, post, ins, outs)
    &&& post.id_remap == pre.moved(site.sum_reduce, new).id_remap
    &&& post.no_delete == pre.moved(site.sum_reduce, new).no_delete
    &&& post.to_retrieve == pre.moved(site.sum_reduce, new).to_retrieve
}

/// What the invariant of a graph says of an occurrence of the pattern: under
/// a ranking of the graph the pattern ascends from the factors to the
/// `SumReduce`, its five inner nodes are five different nodes of the graph,
/// and neither factor is one of them.
pub proof fn lemma_site(m: GraphModel, site: MatMulSite, rank: spec_fn(usize) -> int)
    requires
        m.wf(),
        m.ranked_by(rank),
        matches(m, site),
    ensures
        m.has(site.permute),
        m.has(site.expand_1),
        m.has(site.mul),
        m.has(site.expand_2),
        m.has(site.sum_reduce),
        m.has(site.input_0),
        m.has(site.input_1),
        rank(site.input_1) < rank(site.permute) < rank(site.expand_1) < rank(site.mul) < rank(
            site.sum_reduce,
        ),
        rank(site.input_0) < rank(site.expand_2) < rank(site.mul),
        site.expand_2 != site.permute,
        site.expand_2 != site.expand_1,
        !site.removed().contains(site.input_0),
        !site.removed().contains(site.input_1),
{
    let a = choose|e: usize|
        sole_edge(m, e, site.permute, Way::Outgoing) && m.edges[e].target == site.expand_1;
    let b = choose|e: usize|
        sole_edge(m, e, site.expand_1, Way::Outgoing) && m.edges[e].target == site.mul;
    let c = choose|e: usize|
        {
            &&& m.has_edge(e)
            &&& m.edges[e].target == site.mul
            &&& m.edges[e].source == site.expand_2
            &&& site.expand_2 != site.expand_1
            &&& forall|x: usize| #[trigger]
                m.has_edge(x) && m.edges[x].target == site.mul && m.edges[x].source
                    != site.expand_1 ==> x == e
        };
    let d = choose|e: usize|
        sole_edge(m, e, site.mul, Way::Outgoing) && m.edges[e].target == site.sum_reduce;
    let f = choose|e: usize|
        sole_edge(m, e, site.expand_2, Way::Outgoing) && m.edges[e].target == site.mul;
    let g = choose|e: usize|
        {
            &&& m.has_edge(e)
            &&& m.edges[e].target == site.expand_2
            &&& m.edges[e].source == site.input_0
            &&& forall|x: usize| #[trigger]
                m.has_edge(x) && m.edges[x].target == site.expand_2 ==> m.edges[x].slot
                    <= m.edges[e].slot
        };
    let h = choose|e: usize|
        {
            &&& m.has_edge(e)
            &&& m.edges[e].target == site.permute
            &&& m.edges[e].source == site.input_1
            &&& forall|x: usize| #[trigger]
                m.has_edge(x) && m.edges[x].target == site.permute ==> m.edges[x].slot
                    <= m.edges[e].slot
        };
    assert(m.has_edge(a) && m.has_edge(b) && m.has_edge(c) && m.has_edge(d) && m.has_edge(f)
        && m.has_edge(g) && m.has_edge(h));
}

/// Every consumer of the `SumReduce` of an occurrence lies outside the
/// pattern.
pub proof fn lemma_site_dests(m: GraphModel, site: MatMulSite, e: usize)
    requires
        m.wf(),
        matches(m, site),
        m.has_edge(e),
        m.edges[e].source == site.sum_reduce,
    ensures
        m.has(m.edges[e].target),
        !site.removed().contains(m.edges[e].target),
{
    let rank = choose|rank: spec_fn(usize) -> int| m.ranked_by(rank);
    lemma_site(m, site, rank);
}

/// Replacing an occurrence of the pattern keeps the invariant of the graph:
/// no edge is left dangling, no cycle arises, no slot is bound twice, and
/// every protected and every retained node is still a node of the graph.
pub proof fn lemma_rewrite_keeps_wf(pre: GraphModel, site: MatMulSite, new: usize, post: GraphModel)
    requires
        pre.wf(),
        matches(pre, site),
        rewritten(pre, site, new, post),
    ensures
        post.wf(),
{
    let rank = choose|rank: spec_fn(usize) -> int| pre.ranked_by(rank);
    lemma_site(pre, site, rank);
    let (ins, outs) = choose|ins: Seq<usize>, outs: Map<usize, usize>|
        rewired(pre, site, new, post, ins, outs);
    let gone = site.removed();
    let top = rank(site.sum_reduce);
    let rank2 = |a: usize|
        if a == new {
            top
        } else {
            rank(a)
        };
    assert forall|x: usize| #[trigger] post.has_edge(x) implies {
        &&& post.has(post.edges[x].source)
        &&& post.has(post.edges[x].target)
        &&& rank2(post.edges[x].source) < rank2(post.edges[x].target)
    } by {
        if pre.has_edge(x) {
            assert(pre.has(pre.edges[x].source) && pre.has(pre.edges[x].target));
        } else if x == ins[0] || x == ins[1] {
        } else {
            let e = choose|e: usize| outs.dom().contains(e) && outs[e] == x;
            assert(pre.has_edge(e));
            lemma_site_dests(pre, site, e);
        }
    }
    assert(post.ranked_by(rank2));
    assert forall|d: usize, e: usize|
        #![trigger post.has_edge(d), post.has_edge(e)]
        post.has_edge(d) && post.has_edge(e) && d != e && post.edges[d].target
            == post.edges[e].target implies post.edges[d].slot != post.edges[e].slot by {
        lemma_rewired_slots(pre, site, new, post, ins, outs, d, e);
    }
    assert(post.no_delete.subset_of(post.nodes.dom()));
    assert(post.to_retrieve.subset_of(post.no_delete));
}

/// Two edges of a rewired graph that enter one node bind different slots.
proof fn lemma_rewired_slots(
    pre: GraphModel,
    site: MatMulSite,
    new: usize,
    post: GraphModel,
    ins: Seq<usize>,
    outs: Map<usize, usize>,
    d: usize,
    e: usize,
)
    requires
        pre.wf(),
        matches(pre, site),
        !pre.has(new),
        rewired(pre, site, new, post, ins, outs),
        post.has_edge(d),
        post.has_edge(e),
        d != e,
        post.edges[d].target == post.edges[e].target,
    ensures
        post.edges[d].slot != post.edges[e].slot,
{
    let d_out = !pre.has_edge(d) && d != ins[0] && d != ins[1];
    let e_out = !pre.has_edge(e) && e != ins[0] && e != ins[1];
    if pre.has_edge(d) {
        assert(pre.has(pre.edges[d].target));
    }
    if pre.has_edge(e) {
        assert(pre.has(pre.edges[e].target));
    }
    if d_out {
        let p = choose|p: usize| outs.dom().contains(p) && outs[p] == d;
        assert(pre.has_edge(p));
        lemma_site_dests(pre, site, p);
        if e_out {
            let q = choose|q: usize| outs.dom().contains(q) && outs[q] == e;
            assert(pre.has_edge(q));
        } else if pre.has_edge(e) {
            assert(p != e);
        }
    } else if e_out {
        let q = choose|q: usize| outs.dom().contains(q) && outs[q] == e;
        assert(pre.has_edge(q));
        lemma_site_dests(pre, site, q);
        if pre.has_edge(d) {
            assert(q != d);
        }
    }
}

/// A retained node survives a rewrite with its declared shape: the
/// `SumReduce` of the occurrence in the person of the new node, which
/// declares the same shape, and every other retained node as itself.
pub proof fn lemma_rewrite_keeps_retained(
    pre: GraphModel,
    site: MatMulSite,
    new: usize,
    post: GraphModel,
    r: usize,
)
    requires
        pre.wf(),
        matches(pre, site),
        rewritten(pre, site, new, post),
        pre.to_retrieve.contains(r),
    ensures
        ({
            let now = if r == site.sum_reduce {
                new
            } else {
                r
            };
            &&& post.to_retrieve.contains(now)
            &&& post.has(now)
            &&& post.nodes[now].shape == pre.nodes[r].shape
        }),
{
    assert(pre.no_delete.contains(r));
    assert(pre.has(r));
    if r == site.sum_reduce {
        assert(post.nodes[new].shape =~= pre.nodes[r].shape);
    } else {
        assert(!site.removed().contains(r));
        assert(r != new);
    }
}

/// One visit of the pass to `node`. A visit that hits replaces an occurrence
/// of the pattern whose `Permute` is `node`; one that misses finds no such
/// occurrence and leaves the graph as it is.
pub open spec fn visit(pre: GraphModel, node: usize, hit: bool, post: GraphModel) -> bool {
    if hit {
        exists|site: MatMulSite, new: usize|
            site.permute == node && matches(pre, site) && rewritten(pre, site, new, post)
    } else {
        post == pre && forall|site: MatMulSite| site.permute == node ==> !matches(pre, site)
    }
}

/// `order` names the nodes of `m`, each once, by increasing index.
pub open spec fn node_order(m: GraphModel, order: Seq<usize>) -> bool {
    &&& forall|i: int, j: int| 0 <= i < j < order.len() ==> order[i] < order[j]
    &&& forall|a: usize| m.has(a) <==> order.contains(a)
}

/// `trace` is the course of one pass: the graph before the first visit, then
/// the graph after each visit to the nodes of `order` in turn, with `hits`
/// telling which visits rewrote it.
pub open spec fn pass(order: Seq<usize>, hits: Seq<bool>, trace: Seq<GraphModel>) -> bool {
    &&& hits.len() == order.len()
    &&& trace.len() == order.len() + 1
    &&& forall|i: int|
        0 <= i < order.len() ==> visit(trace[i], order[i], #[trigger] hits[i], trace[i + 1])
}

/// A rewrite keeps every retained output: the new node stands for the
/// `SumReduce` of the occurrence, and every other retained node for itself.
pub proof fn lemma_rewrite_keeps_outputs(
    pre: GraphModel,
    site: MatMulSite,
    new: usize,
    post: GraphModel,
)
    requires
        pre.wf(),
        matches(pre, site),
        rewritten(pre, site, new, post),
    ensures
        keeps_outputs(pre, post),
{
    let heirs = Map::new(
        |r: usize| pre.to_retrieve.contains(r),
        |r: usize|
            if r == site.sum_reduce {
                new
            } else {
                r
            },
    );
    assert forall|r: usize| #[trigger] heirs.dom().contains(r) implies {
        &&& pre.has(r)
        &&& post.has(heirs[r])
        &&& post.to_retrieve.contains(heirs[r])
        &&& post.nodes[heirs[r]].shape == pre.nodes[r].shape
    } by {
        lemma_rewrite_keeps_retained(pre, site, new, post, r);
    }
    assert forall|r: usize, s: usize|
        #![trigger heirs.dom().contains(r), heirs.dom().contains(s)]
        heirs.dom().contains(r) && heirs.dom().contains(s) && r != s implies heirs[r] != heirs[s] by {
        assert(pre.no_delete.contains(r) && pre.no_delete.contains(s));
        assert(pre.has(r) && pre.has(s));
    }
    assert forall|t: usize| #[trigger] post.to_retrieve.contains(t) implies exists|r: usize|
        heirs.dom().contains(r) && heirs[r] == t by {
        if t == new {
            assert(pre.to_retrieve.contains(site.sum_reduce)) by {
                if !pre.to_retrieve.contains(site.sum_reduce) {
                    assert(pre.to_retrieve.contains(new));
                    assert(pre.no_delete.contains(new));
                }
            }
            assert(heirs.dom().contains(site.sum_reduce) && heirs[site.sum_reduce] == t);
        } else {
            assert(pre.to_retrieve.contains(t));
            assert(heirs.dom().contains(t) && heirs[t] == t);
        }
    }
    assert(carries(pre, post, heirs));
}

/// The pass that lifts the matrix-product pattern into [`CPUMatMul2D`] nodes.
#[derive(Debug, Default)]
pub struct CPUMatMulOptimizer;

/// The passes of the CPU backend.
pub type CPUOptimizer = CPUMatMulOptimizer;

impl CPUMatMulOptimizer {
    /// Looks for an occurrence of the pattern whose `Permute` is `node`.
    pub fn find(graph: &Graph, node: usize) -> (r: Option<MatMulSite>)
        requires
            graph@.wf(),
        ensures
            match r {
                Some(site) => site.permute == node && matches(graph@, site),
                None => forall|site: MatMulSite| site.permute == node ==> !matches(graph@, site),
            },
    {
        let ghost m = graph@;
        // Permute
        let permute = match graph.node(node) {
            Some(w) => w,
            None => {
                return None;
            },
        };
        let is_permute = match &permute.op {
            Op::Permute(_) => true,
            _ => false,
        };
        if !is_permute || permute.shape.len() != 2 {
            return None;
        }
        // Expand 1
        let (expand_1, expand_1_node) = match sole_dest(graph, node) {
            Some(d) => d,
            None => {
                return None;
            },
        };
        proof {
            assert forall|site: MatMulSite| site.permute == node && matches(m, site) implies site.expand_1
                == expand_1 by {
                lemma_only_dest_unique(m, node, site.expand_1, expand_1);
            }
        }
        let is_expand = match &expand_1_node.op {
            Op::Expand(_, _) => true,
            _ => false,
        };
        if !is_expand || expand_1_node.shape.len() != 3 {
            return None;
        }
        // Mul
        let (mul, mul_node) = match sole_dest(graph, expand_1) {
            Some(d) => d,
            None => {
                return None;
            },
        };
        proof {
            assert forall|site: MatMulSite| site.permute == node && matches(m, site) implies site.mul
                == mul by {
                lemma_only_dest_unique(m, expand_1, site.mul, mul);
            }
        }
        let is_mul = match &mul_node.op {
            Op::Mul => true,
            _ => false,
        };
        if !is_mul || mul_node.shape.len() != 3 {
            return None;
        }
        // Expand 2
        let (expand_2, expand_2_node) = match other_source(graph, mul, expand_1) {
            Some(d) => d,
            None => {
                return None;
            },
        };
        proof {
            assert forall|site: MatMulSite| site.permute == node && matches(m, site) implies site.expand_2
                == expand_2 by {
                lemma_only_other_source_unique(m, mul, expand_1, site.expand_2, expand_2);
            }
        }
        let is_expand = match &expand_2_node.op {
            Op::Expand(_, _) => true,
            _ => false,
        };
        if !is_expand || expand_2_node.shape.len() != 3 {
            return None;
        }
        // The second Expand may feed nothing but the Mul.
        let (reader, _) = match sole_dest(graph, expand_2) {
            Some(d) => d,
            None => {
                return None;
            },
        };
        proof {
            if reader != mul {
                assert forall|site: MatMulSite| site.permute == node implies !matches(m, site) by {
                    if matches(m, site) {
                        lemma_only_dest_unique(m, expand_2, mul, reader);
                    }
                }
            }
        }
        if reader != mul {
            return None;
        }
        // SumReduce
        let (sum_reduce, sum_reduce_node) = match sole_dest(graph, mul) {
            Some(d) => d,
            None => {
                return None;
            },
        };
        proof {
            assert forall|site: MatMulSite| site.permute == node && matches(m, site) implies site.sum_reduce
                == sum_reduce by {
                lemma_only_dest_unique(m, mul, site.sum_reduce, sum_reduce);
            }
        }
        let is_last_axis_sum = match &sum_reduce_node.op {
            Op::SumReduce(axis) => *axis == 2,
            _ => false,
        };
        if !is_last_axis_sum || sum_reduce_node.shape.len() != 2 {
            return None;
        }
        if graph.is_no_delete(node) || graph.is_no_delete(expand_1) || graph.is_no_delete(expand_2)
            || graph.is_no_delete(mul) {
            // A protected node cannot be removed.
            return None;
        }
        // The two factors
        let (input_0, input_0_node) = match final_source(graph, expand_2) {
            Some(d) => d,
            None => {
                return None;
            },
        };
        let (input_1, input_1_node) = match final_source(graph, node) {
            Some(d) => d,
            None => {
                return None;
            },
        };
        proof {
            assert forall|site: MatMulSite| site.permute == node && matches(m, site) implies site.input_0
                == input_0 && site.input_1 == input_1 by {
                lemma_last_source_unique(m, expand_2, site.input_0, input_0);
                lemma_last_source_unique(m, node, site.input_1, input_1);
            }
        }
        if input_0_node.shape.len() < 1 || input_1_node.shape.len() < 2 {
            return None;
        }
        if sum_reduce_node.shape[0] != input_0_node.shape[0] || sum_reduce_node.shape[1]
            != input_1_node.shape[1] {
            return None;
        }
        Some(MatMulSite { permute: node, expand_1, mul, expand_2, sum_reduce, input_0, input_1 })
    }

    /// Replaces the occurrence `site` by one [`CPUMatMul2D`] node that reads
    /// the two factors and feeds every consumer of the `SumReduce`, and
    /// returns the index of the new node.
    pub fn apply(graph: &mut Graph, site: &MatMulSite) -> (new_op: usize)
        requires
            old(graph)@.wf(),
            matches(old(graph)@, *site),
        ensures
            final(graph)@.wf(),
            rewritten(old(graph)@, *site, new_op, final(graph)@),
    {
        let ghost pre = graph@;
        let ghost gone = site.removed();
        proof {
            let rank = choose|rank: spec_fn(usize) -> int| pre.ranked_by(rank);
            lemma_site(pre, *site, rank);
        }
        let rows = graph.node(site.input_0).unwrap().shape[0];
        let cols = graph.node(site.input_1).unwrap().shape[1];
        let mut shape: Vec<usize> = Vec::new();
        shape.push(rows);
        shape.push(cols);
        // The product node, fed by the two factors.
        let matmul = Graph::add_op(Op::CPUMatMul2D, shape).input(site.input_0).input(site.input_1);
        assert(matmul.inputs@ =~= seq![site.input_0, site.input_1]);
        let new_op = matmul.finish(graph);
        let ghost g1 = graph@;
        let ghost ins = choose|es: Seq<usize>|
            pre.wired(g1, es, seq![site.input_0, site.input_1], new_op);
        proof {
            assert(g1.has_edge(ins[0])) by {
                assert(ins.contains(ins[0]));
            }
            assert(g1.has_edge(ins[1])) by {
                assert(ins.contains(ins[1]));
            }
        }
        // Every consumer of the SumReduce reads the product instead.
        let dests = graph.edges_at(site.sum_reduce, Way::Outgoing);
        let ghost outs: Map<usize, usize> = Map::empty();
        let n = dests.len();
        let mut k: usize = 0;
        while k < n
            invariant
                k <= n,
                n == dests@.len(),
                g1.edges_closed(),
                g1.has(new_op),
                g1.lists(site.sum_reduce, Way::Outgoing, dests@),
                graph@.nodes == g1.nodes,
                graph@.id_remap == g1.id_remap,
                graph@.no_delete == g1.no_delete,
                graph@.to_retrieve == g1.to_retrieve,
                forall|e: usize| #[trigger]
                    g1.has_edge(e) ==> graph@.has_edge(e) && graph@.edges[e] == g1.edges[e],
                forall|e: usize| #[trigger]
                    outs.dom().contains(e) <==> exists|j: int| 0 <= j < k && dests@[j].0 == e,
                forall|e: usize| #[trigger]
                    outs.dom().contains(e) ==> {
                        &&& !g1.has_edge(outs[e])
                        &&& graph@.has_edge(outs[e])
                        &&& graph@.edges[outs[e]] == (Edge {
                            source: new_op,
                            target: g1.edges[e].target,
                            slot: g1.edges[e].slot,
                        })
                    },
                forall|d: usize, e: usize|
                    #![trigger outs.dom().contains(d), outs.dom().contains(e)]
                    outs.dom().contains(d) && outs.dom().contains(e) && d != e ==> outs[d]
                        != outs[e],
                forall|x: usize| #[trigger]
                    graph@.has_edge(x) ==> g1.has_edge(x) || exists|e: usize|
                        outs.dom().contains(e) && outs[e] == x,
            decreases n - k,
        {
            let (old_edge, edge) = dests[k];
            let ghost before = graph@;
            let ghost outs0 = outs;
            proof {
                assert(g1.has_edge(dests@[k as int].0));
                assert(g1.has(edge.source) && g1.has(edge.target));
                assert(!outs0.dom().contains(old_edge)) by {
                    if outs0.dom().contains(old_edge) {
                        let j = choose|j: int| 0 <= j < k && dests@[j].0 == old_edge;
                    }
                }
            }
            let copy = graph_add_edge(&mut graph.graph, new_op, edge.target, edge.slot);
            proof {
                outs = outs0.insert(old_edge, copy);
                let now = graph@;
                assert(!g1.has_edge(copy)) by {
                    if g1.has_edge(copy) {
                        assert(before.has_edge(copy));
                    }
                }
                assert forall|e: usize| #[trigger] outs.dom().contains(e) <==> exists|j: int|
                    0 <= j < k + 1 && dests@[j].0 == e by {
                    if outs0.dom().contains(e) {
                        let j = choose|j: int| 0 <= j < k && dests@[j].0 == e;
                        assert(0 <= j < k + 1 && dests@[j].0 == e);
                    }
                    if e == old_edge {
                        assert(dests@[k as int].0 == e);
                    }
                    if exists|j: int| 0 <= j < k + 1 && dests@[j].0 == e {
                        let j = choose|j: int| 0 <= j < k + 1 && dests@[j].0 == e;
                        if j < k {
                            assert(outs0.dom().contains(e));
                        }
                    }
                }
                assert forall|e: usize| #[trigger] outs.dom().contains(e) implies {
                    &&& !g1.has_edge(outs[e])
                    &&& now.has_edge(outs[e])
                    &&& now.edges[outs[e]] == (Edge {
                        source: new_op,
                        target: g1.edges[e].target,
                        slot: g1.edges[e].slot,
                    })
                } by {
                    if e != old_edge {
                        assert(outs0.dom().contains(e));
                        assert(before.has_edge(outs0[e]));
                    }
                }
                assert forall|d: usize, e: usize|
                    #![trigger outs.dom().contains(d), outs.dom().contains(e)]
                    outs.dom().contains(d) && outs.dom().contains(e) && d != e implies outs[d]
                    != outs[e] by {
                    if d != old_edge {
                        assert(outs0.dom().contains(d));
                        assert(before.has_edge(outs0[d]));
                    }
                    if e != old_edge {
                        assert(outs0.dom().contains(e));
                        assert(before.has_edge(outs0[e]));
                    }
                }
                assert forall|x: usize| #[trigger] now.has_edge(x) implies g1.has_edge(x)
                    || exists|e: usize| outs.dom().contains(e) && outs[e] == x by {
                    if x == copy {
                        assert(outs.dom().contains(old_edge) && outs[old_edge] == x);
                    } else {
                        assert(before.has_edge(x));
                        if !g1.has_edge(x) {
                            let e = choose|e: usize| outs0.dom().contains(e) && outs0[e] == x;
                            assert(outs.dom().contains(e) && outs[e] == x);
                        }
                    }
                }
            }
            k += 1;
        }
        let ghost g2 = graph@;
        graph.move_references(site.sum_reduce, new_op);
        // The five nodes of the pattern leave.
        let _ = graph_remove_node(&mut graph.graph, site.expand_1);
        let _ = graph_remove_node(&mut graph.graph, site.expand_2);
        let _ = graph_remove_node(&mut graph.graph, site.permute);
        let _ = graph_remove_node(&mut graph.graph, site.mul);
        let _ = graph_remove_node(&mut graph.graph, site.sum_reduce);
        proof {
            let post = graph@;
            let rest = edges_clear_of(
                edges_clear_of(
                    edges_clear_of(
                        edges_clear_of(edges_clear_of(g2.edges, site.expand_1), site.expand_2),
                        site.permute,
                    ),
                    site.mul,
                ),
                site.sum_reduce,
            );
            assert(post.edges == rest);
            assert(post.nodes =~= pre.nodes.remove_keys(gone).insert(new_op, post.nodes[new_op]));
            assert(post.nodes[new_op].shape =~= seq![
                pre.nodes[site.input_0].shape[0],
                pre.nodes[site.input_1].shape[1],
            ]);
            assert forall|e: usize| #[trigger] outs.dom().contains(e) <==> pre.has_edge(e)
                && pre.edges[e].source == site.sum_reduce by {
                if outs.dom().contains(e) {
                    let j = choose|j: int| 0 <= j < n && dests@[j].0 == e;
                    assert(g1.has_edge(dests@[j].0));
                    if !pre.has_edge(e) {
                        let i = choose|i: int| 0 <= i < ins.len() && ins[i] == e;
                    }
                }
                if pre.has_edge(e) && pre.edges[e].source == site.sum_reduce {
                    assert(g1.has_edge(e));
                }
            }
            assert forall|e: usize| #[trigger] outs.dom().contains(e) implies {
                &&& !pre.has_edge(outs[e])
                &&& post.has_edge(outs[e])
                &&& post.edges[outs[e]] == (Edge {
                    source: new_op,
                    target: pre.edges[e].target,
                    slot: pre.edges[e].slot,
                })
            } by {
                assert(pre.has_edge(e));
                assert(g1.has_edge(e));
                lemma_site_dests(pre, *site, e);
                if pre.has_edge(outs[e]) {
                    assert(g1.has_edge(outs[e]));
                }
                assert(g2.has_edge(outs[e]));
            }
            assert forall|e: usize| #[trigger] pre.has_edge(e) implies (post.has_edge(e)
                <==> !gone.contains(pre.edges[e].source) && !gone.contains(pre.edges[e].target))
                && (post.has_edge(e) ==> post.edges[e] == pre.edges[e]) by {
                assert(g1.has_edge(e));
                assert(g2.has_edge(e));
            }
            assert forall|x: usize| #[trigger] post.has_edge(x) implies pre.has_edge(x) || x
                == ins[0] || x == ins[1] || exists|e: usize|
                outs.dom().contains(e) && outs[e] == x by {
                assert(g2.has_edge(x));
                if g1.has_edge(x) && !pre.has_edge(x) {
                    let i = choose|i: int| 0 <= i < ins.len() && ins[i] == x;
                }
            }
            assert(g2.has_edge(ins[0]) && g2.has_edge(ins[1]));
            assert(rewired(pre, *site, new_op, post, ins, outs));
            assert(post.id_remap == pre.moved(site.sum_reduce, new_op).id_remap);
            assert(post.no_delete == pre.moved(site.sum_reduce, new_op).no_delete);
            assert(post.to_retrieve == pre.moved(site.sum_reduce, new_op).to_retrieve);
            lemma_rewrite_keeps_wf(pre, *site, new_op, post);
        }
        new_op
    }
}

impl GraphOptimizer for CPUMatMulOptimizer {
    /// One run visits the nodes that the graph has at the start, by
    /// increasing index, and replaces each occurrence of the pattern that it
    /// finds on the way; it reports a change where any visit hit.
    open spec fn rewrites(&self, pre: GraphModel, post: GraphModel, changed: bool) -> bool {
        exists|order: Seq<usize>, hits: Seq<bool>, trace: Seq<GraphModel>|
            {
                &&& node_order(pre, order)
                &&& pass(order, hits, trace)
                &&& trace[0] == pre
                &&& trace.last() == post
                &&& changed == hits.contains(true)
            }
    }

    fn optimize(&self, graph: &mut Graph) -> (changed: bool) {
        let ghost start = graph@;
        let order = graph.node_ids();
        let ghost hits: Seq<bool> = Seq::empty();
        let ghost trace: Seq<GraphModel> = seq![graph@];
        proof {
            lemma_keeps_own(graph@);
        }
        let mut changed = false;
        let n = order.len();
        let mut i: usize = 0;
        // Visit every node that was there at the start.
        while i < n
            invariant
                i <= n,
                n == order@.len(),
                graph@.wf(),
                hits.len() == i,
                trace.len() == i + 1,
                trace[0] == start,
                trace[i as int] == graph@,
                forall|j: int|
                    0 <= j < i ==> visit(trace[j], order@[j], #[trigger] hits[j], trace[j + 1]),
                changed == hits.contains(true),
                !changed ==> graph@ == start,
                keeps_outputs(start, graph@),
            decreases n - i,
        {
            let ghost before = graph@;
            let ghost hits0 = hits;
            let ghost trace0 = trace;
            let found = Self::find(graph, order[i]);
            let hit = match found {
                Some(site) => {
                    let new_op = Self::apply(graph, &site);
                    proof {
                        lemma_rewrite_keeps_outputs(before, site, new_op, graph@);
                        lemma_keeps_through(start, before, graph@);
                    }
                    assert(visit(before, order@[i as int], true, graph@)) by {
                        assert(site.permute == order@[i as int] && matches(before, site)
                            && rewritten(before, site, new_op, graph@));
                    }
                    true
                },
                None => false,
            };
            proof {
                hits = hits0.push(hit);
                trace = trace0.push(graph@);
                assert forall|j: int| 0 <= j < i + 1 implies visit(
                    trace[j],
                    order@[j],
                    #[trigger] hits[j],
                    trace[j + 1],
                ) by {
                    if j < i {
                        assert(hits[j] == hits0[j]);
                        assert(trace[j] == trace0[j] && trace[j + 1] == trace0[j + 1]);
                    }
                }
                if hit {
                    assert(hits[i as int] == true);
                } else if hits.contains(true) {
                    let j = choose|j: int| 0 <= j < hits.len() && hits[j] == true;
                    assert(j < i);
                    assert(hits0[j] == true);
                }
                if hits0.contains(true) {
                    let j = choose|j: int| 0 <= j < hits0.len() && hits0[j] == true;
                    assert(hits[j] == true);
                }
            }
            if hit {
                changed = true;
            }
            i += 1;
        }
        proof {
            assert(node_order(start, order@));
            assert(pass(order@, hits, trace));
        }
        changed
    }
}

/// Why a matrix product cannot be run.
#[derive(Clone, Copy, Debug, PartialEq, Eq, Structural)]
pub enum MatMulError {
    /// An operand is not two-dimensional, or the columns of the left operand
    /// are not as many as the rows of the right one.
    IncompatibleShape,
    /// A buffer holds fewer elements than its tracker speaks of.
    BufferTooShort,
    /// The product has more elements than the machine can count.
    TooLarge,
}

/// How the kernel reads one operand of a matrix product.
#[derive(Clone, Copy, Debug, PartialEq, Eq, Structural)]
pub struct Operand {
    /// Whether the kernel reads the stored buffer itself by origin and
    /// strides. Otherwise the operand is first gathered, element by element
    /// through its tracker, into a dense row-major copy, which the origin
    /// and strides then describe.
    pub direct: bool,
    pub offset: usize,
    pub row_stride: usize,
    pub col_stride: usize,
}

/// A matrix product `[m, k] x [k, n]`, laid out for a strided kernel.
pub struct MatMulPlan {
    pub m: usize,
    pub k: usize,
    pub n: usize,
    pub a: Operand,
    pub b: Operand,
    /// The number of elements of the product, `m * n`, stored row-major.
    pub len: usize,
    /// The tracker of the product.
    pub out: ShapeTracker,
}

/// Whether the operands of a matrix product fit together.
pub open spec fn factors_fit(a: TrackerModel, b: TrackerModel) -> bool {
    &&& a.shape().len() == 2
    &&& b.shape().len() == 2
    &&& a.shape()[1] == b.shape()[0]
}

/// Whether a tracker is one view without padding, which a kernel can read by
/// origin and strides.
pub open spec fn is_direct(t: TrackerModel) -> bool {
    t.views.len() == 1 && t.top().unmasked()
}

/// The coordinate of row `i` and column `j` of a matrix.
pub open spec fn entry(i: int, j: int) -> Seq<int> {
    seq![i, j]
}

/// Whether `op` says how to read the `rows` by `cols` matrix that `t` tracks:
/// a direct operand by the origin and strides under which every element lies
/// where the tracker puts it; any other as a dense copy.
pub open spec fn reads(t: TrackerModel, op: Operand, rows: usize, cols: usize) -> bool {
    &&& op.direct == is_direct(t)
    &&& op.direct ==> {
        &&& forall|i: int, j: int|
            0 <= i < rows && 0 <= j < cols ==> t.index(#[trigger] entry(i, j)) == (
                op.offset + i * op.row_stride + j * op.col_stride,
                true,
            ) && op.offset + i * op.row_stride + j * op.col_stride < t.size
        &&& op.row_stride <= t.size
        &&& op.col_stride <= t.size
    }
    &&& !op.direct ==> op.offset == 0 && op.row_stride == cols && op.col_stride == 1
}

/// In a tracker that is one view without padding over a matrix, the entry of
/// row `i` and column `j` holds data and lies `i` row strides and `j` column
/// strides from the origin, inside the buffer.
pub proof fn lemma_direct_entry(t: TrackerModel, i: int, j: int)
    requires
        t.wf(),
        is_direct(t),
        t.shape().len() == 2,
        0 <= i < t.shape()[0],
        0 <= j < t.shape()[1],
    ensures
        t.index(entry(i, j)) == (
            t.top().offset + i * t.top().strides[0] + j * t.top().strides[1],
            true,
        ),
        0 <= t.top().offset + i * t.top().strides[0] + j * t.top().strides[1] < t.size,
{
    let v = t.top();
    let c = entry(i, j);
    assert(t.views[0] == v);
    assert(v.holds(c)) by {
        assert forall|x: int| 0 <= x < c.len() implies 0 <= #[trigger] c[x] < v.shape[x] by {
            if x == 0 {
            } else {
                assert(x == 1);
            }
        }
    }
    assert(v.valid(c)) by {
        assert forall|x: int| 0 <= x < v.shape.len() implies (#[trigger] v.mask[x]).0 <= c[x]
            < v.mask[x].1 by {
            assert(v.mask[x] == (0usize, v.shape[x]));
            if x == 0 {
            } else {
                assert(x == 1);
            }
        }
    }
    let terms = v.terms(c);
    assert(v.mask[0] == (0usize, v.shape[0]));
    assert(v.mask[1] == (0usize, v.shape[1]));
    assert(terms.len() == 2);
    assert(terms[0] == (i - 0) * v.strides[0]);
    assert(terms[1] == (j - 0) * v.strides[1]);
    assert(sum_from(terms, 2) == 0);
    assert(sum_from(terms, 1) == terms[1] + sum_from(terms, 2));
    assert(sum_from(terms, 0) == terms[0] + sum_from(terms, 1));
    assert(v.offset_of(c) == v.offset + i * v.strides[0] + j * v.strides[1]);
    assert(t.locate(0, c) == (v.offset_of(c), true));
    lemma_locate_in_bounds(t, 0, c);
}

/// The origin and strides of a matrix that is one view without padding say
/// how to read it; a stride along an axis with no second coordinate may be
/// given as zero.
pub proof fn lemma_direct_operand(t: TrackerModel, op: Operand)
    requires
        t.wf(),
        is_direct(t),
        t.shape().len() == 2,
        op.direct,
        op.offset == t.top().offset,
        op.row_stride == (if t.shape()[0] <= 1 || t.shape()[1] == 0 {
            0
        } else {
            t.top().strides[0]
        }),
        op.col_stride == (if t.shape()[1] <= 1 || t.shape()[0] == 0 {
            0
        } else {
            t.top().strides[1]
        }),
    ensures
        reads(t, op, t.shape()[0], t.shape()[1]),
{
    let v = t.top();
    let rows = t.shape()[0];
    let cols = t.shape()[1];
    let s0 = v.strides[0] as int;
    let s1 = v.strides[1] as int;
    assert forall|i: int, j: int| 0 <= i < rows && 0 <= j < cols implies t.index(
        #[trigger] entry(i, j),
    ) == (op.offset + i * op.row_stride + j * op.col_stride, true) && op.offset + i
        * op.row_stride + j * op.col_stride < t.size by {
        lemma_direct_entry(t, i, j);
        if rows <= 1 {
            assert(i * s0 == 0 && i * op.row_stride == 0) by (nonlinear_arith)
                requires
                    i == 0,
            ;
        }
        if cols <= 1 {
            assert(j * s1 == 0 && j * op.col_stride == 0) by (nonlinear_arith)
                requires
                    j == 0,
            ;
        }
    }
    assert(op.row_stride <= t.size) by {
        if rows >= 2 && cols >= 1 {
            lemma_direct_entry(t, 1, 0);
            assert(1 * s0 + 0 * s1 == s0) by (nonlinear_arith);
        }
    }
    assert(op.col_stride <= t.size) by {
        if cols >= 2 && rows >= 1 {
            lemma_direct_entry(t, 0, 1);
            assert(0 * s0 + 1 * s1 == s1) by (nonlinear_arith);
        }
    }
}

/// The matrix product of two two-dimensional tensors, as one operator.
#[derive(Debug, Default)]
pub struct CPUMatMul2D;

impl CPUMatMul2D {
    /// The stable identifier of the operator.
    pub fn name(&self) -> (name: &'static str)
        ensures
            name@ == Op::CPUMatMul2D.name_spec(),
    {
        "CPUMatMul2D"
    }

    /// How the kernel reads the two-dimensional tensor that `t` tracks.
    pub fn operand(t: &ShapeTracker) -> (op: Operand)
        requires
            t@.wf(),
            t@.shape().len() == 2,
        ensures
            reads(t@, op, t@.shape()[0], t@.shape()[1]),
    {
        let top = &t.views[t.views.len() - 1];
        proof {
            assert(t@.views[t@.views.len() - 1] == top@);
        }
        let rows = top.shape[0];
        let cols = top.shape[1];
        let (lo_0, hi_0) = top.mask[0];
        let (lo_1, hi_1) = top.mask[1];
        let direct = t.views.len() == 1 && lo_0 == 0 && hi_0 == rows && lo_1 == 0 && hi_1
            == cols;
        if !direct {
            proof {
                if t@.views.len() == 1 {
                    assert(top@.mask[0] != (0usize, top@.shape[0]) || top@.mask[1] != (
                        0usize,
                        top@.shape[1],
                    ));
                }
            }
            return Operand { direct: false, offset: 0, row_stride: cols, col_stride: 1 };
        }
        let row_stride = if rows <= 1 || cols == 0 {
            0
        } else {
            top.strides[0]
        };
        let col_stride = if cols <= 1 || rows == 0 {
            0
        } else {
            top.strides[1]
        };
        let op = Operand { direct: true, offset: top.offset, row_stride, col_stride };
        proof {
            let v = top@;
            assert(t@.top() == v);
            assert(v.unmasked()) by {
                assert forall|i: int| 0 <= i < v.shape.len() implies (#[trigger] v.mask[i]) == (
                    0usize,
                    v.shape[i],
                ) by {
                    if i == 0 {
                        assert(v.mask[0] == (0usize, v.shape[0]));
                    } else {
                        assert(i == 1);
                        assert(v.mask[1] == (0usize, v.shape[1]));
                    }
                }
            }
            lemma_direct_operand(t@, op);
        }
        op
    }

    /// Lays out the product of the matrices that `a` and `b` track, stored in
    /// buffers of `a_len` and `b_len` elements.
    pub fn plan(&self, a: &ShapeTracker, a_len: usize, b: &ShapeTracker, b_len: usize) -> (r:
        Result<MatMulPlan, MatMulError>)
        requires
            a@.wf(),
            b@.wf(),
        ensures
            match r {
                Ok(p) => {
                    &&& factors_fit(a@, b@)
                    &&& a@.size <= a_len
                    &&& b@.size <= b_len
                    &&& p.m == a@.shape()[0]
                    &&& p.k == a@.shape()[1]
                    &&& p.n == b@.shape()[1]
                    &&& p.len == p.m * p.n
                    &&& reads(a@, p.a, p.m, p.k)
                    &&& reads(b@, p.b, p.k, p.n)
                    &&& p.out@ == TrackerModel::fresh(seq![p.m, p.n])
                    &&& p.out@.wf()
                },
                Err(MatMulError::IncompatibleShape) => !factors_fit(a@, b@),
                Err(MatMulError::BufferTooShort) => factors_fit(a@, b@) && (a@.size > a_len
                    || b@.size > b_len),
                Err(MatMulError::TooLarge) => {
                    &&& factors_fit(a@, b@)
                    &&& a@.size <= a_len
                    &&& b@.size <= b_len
                    &&& capacity(seq![a@.shape()[0], b@.shape()[1]]) > usize::MAX
                },
            },
    {
        let a_shape = a.shape();
        let b_shape = b.shape();
        if a_shape.len() != 2 || b_shape.len() != 2 || a_shape[1] != b_shape[0] {
            return Err(MatMulError::IncompatibleShape);
        }
        if a.size > a_len || b.size > b_len {
            return Err(MatMulError::BufferTooShort);
        }
        let m = a_shape[0];
        let k = a_shape[1];
        let n = b_shape[1];
        let mut out_shape: Vec<usize> = Vec::new();
        out_shape.push(m);
        out_shape.push(n);
        assert(out_shape@ =~= seq![m, n]);
        let out = match ShapeTracker::new(out_shape) {
            Ok(t) => t,
            Err(_) => {
                return Err(MatMulError::TooLarge);
            },
        };
        proof {
            let s = seq![m, n];
            lemma_tail_bounds(s, 0);
            assert(numel(s) == m * n) by {
                assert(tail_numel(s, 2) == 1);
                assert(tail_numel(s, 1) == s[1] * tail_numel(s, 2));
                assert(tail_numel(s, 0) == s[0] * tail_numel(s, 1));
                assert(m * (n * 1) == m * n) by (nonlinear_arith);
            }
        }
        let len = m * n;
        Ok(MatMulPlan { m, k, n, a: Self::operand(a), b: Self::operand(b), len, out })
    }
}

} // verus!
