//! Passes that serve every backend.

use crate::executor::lemma_ranked;
use crate::graph::Graph;
use crate::graph::GraphModel;
use crate::optimizers::carries;
use crate::optimizers::keeps_outputs;
use crate::optimizers::GraphOptimizer;
use crate::stable::graph_remove_node;
use crate::stable::graph_toposort;
use crate::stable::in_order;
use crate::stable::Way;
use std::collections::HashSet;
use vstd::prelude::*;

verus! {

broadcast use vstd::std_specs::hash::group_hash_axioms;

/// Whether an edge leads from `a` to `b`.
pub open spec fn linked(m: GraphModel, a: usize, b: usize) -> bool {
    exists|e: usize| m.has_edge(e) && m.edges[e].source == a && m.edges[e].target == b
}

/// Whether `path` follows edges of the graph from its first node to its
/// last.
pub open spec fn walk(m: GraphModel, path: Seq<usize>) -> bool {
    &&& path.len() >= 1
    &&& forall|i: int| 0 <= i < path.len() - 1 ==> linked(m, #[trigger] path[i], path[i + 1])
}

/// Whether a path leads from node `a` to a protected node, so that the
/// tensor of `a` is needed. Every retained node is protected, and a
/// protected node is needed itself.
pub open spec fn needed(m: GraphModel, a: usize) -> bool {
    exists|path: Seq<usize>| walk(m, path) && path[0] == a && m.no_delete.contains(path.last())
}

/// Whether `order` names node `a` at position `k` or later.
pub open spec fn from_on(order: Seq<usize>, a: usize, k: int) -> bool {
    exists|j: int| k <= j < order.len() && order[j] == a
}

/// `post` is `pre` without the nodes that are not needed and without the
/// edges at them; nothing else differs.
pub open spec fn swept(pre: GraphModel, post: GraphModel) -> bool {
    &&& forall|a: usize| #[trigger] post.has(a) <==> pre.has(a) && needed(pre, a)
    &&& forall|a: usize| #[trigger] post.has(a) ==> post.nodes[a] == pre.nodes[a]
    &&& forall|e: usize| #[trigger]
        post.has_edge(e) <==> pre.has_edge(e) && needed(pre, pre.edges[e].source) && needed(
            pre,
            pre.edges[e].target,
        )
    &&& forall|e: usize| #[trigger] post.has_edge(e) ==> post.edges[e] == pre.edges[e]
    &&& post.id_remap == pre.id_remap
    &&& post.no_delete == pre.no_delete
    &&& post.to_retrieve == pre.to_retrieve
}

/// A node is needed exactly when it is protected or one of its edges leads
/// to a node that is needed.
pub proof fn lemma_needed(m: GraphModel, a: usize)
    ensures
        needed(m, a) <==> m.no_delete.contains(a) || exists|e: usize|
            m.has_edge(e) && m.edges[e].source == a && needed(m, m.edges[e].target),
{
    if m.no_delete.contains(a) {
        let path = seq![a];
        assert(walk(m, path) && path[0] == a && path.last() == a);
    }
    if exists|e: usize| m.has_edge(e) && m.edges[e].source == a && needed(m, m.edges[e].target) {
        let e = choose|e: usize|
            m.has_edge(e) && m.edges[e].source == a && needed(m, m.edges[e].target);
        let b = m.edges[e].target;
        let rest = choose|path: Seq<usize>|
            walk(m, path) && path[0] == b && m.no_delete.contains(path.last());
        let path = seq![a] + rest;
        assert forall|i: int| 0 <= i < path.len() - 1 implies linked(
            m,
            #[trigger] path[i],
            path[i + 1],
        ) by {
            if i == 0 {
                assert(path[1] == rest[0]);
            } else {
                assert(path[i] == rest[i - 1] && path[i + 1] == rest[i]);
                assert(linked(m, rest[i - 1], rest[i]));
            }
        }
        assert(path.last() == rest.last());
        assert(walk(m, path) && path[0] == a);
    }
    if needed(m, a) && !m.no_delete.contains(a) {
        let path = choose|path: Seq<usize>|
            walk(m, path) && path[0] == a && m.no_delete.contains(path.last());
        assert(path.len() >= 2);
        assert(linked(m, path[0], path[1]));
        let e = choose|e: usize|
            m.has_edge(e) && m.edges[e].source == path[0] && m.edges[e].target == path[1];
        let rest = path.drop_first();
        assert forall|i: int| 0 <= i < rest.len() - 1 implies linked(
            m,
            #[trigger] rest[i],
            rest[i + 1],
        ) by {
            assert(rest[i] == path[i + 1] && rest[i + 1] == path[i + 2]);
            assert(linked(m, path[i + 1], path[i + 2]));
        }
        assert(rest.last() == path.last());
        assert(walk(m, rest) && rest[0] == path[1]);
        assert(needed(m, m.edges[e].target));
    }
}

/// Sweeping the nodes that are not needed keeps the invariant of the graph.
pub proof fn lemma_swept_wf(pre: GraphModel, post: GraphModel)
    requires
        pre.wf(),
        swept(pre, post),
    ensures
        post.wf(),
{
    let rank = choose|rank: spec_fn(usize) -> int| pre.ranked_by(rank);
    assert forall|e: usize| #[trigger] post.has_edge(e) implies post.has(post.edges[e].source)
        && post.has(post.edges[e].target) && rank(post.edges[e].source) < rank(
        post.edges[e].target,
    ) by {
        assert(pre.has_edge(e));
        assert(pre.has(pre.edges[e].source) && pre.has(pre.edges[e].target));
    }
    assert(post.ranked_by(rank));
    assert forall|d: usize, e: usize|
        #![trigger post.has_edge(d), post.has_edge(e)]
        post.has_edge(d) && post.has_edge(e) && d != e && post.edges[d].target
            == post.edges[e].target implies post.edges[d].slot != post.edges[e].slot by {
        assert(pre.has_edge(d) && pre.has_edge(e));
    }
    assert forall|a: usize| post.no_delete.contains(a) implies post.nodes.dom().contains(a) by {
        lemma_needed(pre, a);
        assert(pre.has(a));
        assert(post.has(a));
    }
}

/// Sweeping the nodes that are not needed keeps every retained output as it
/// is.
pub proof fn lemma_swept_keeps_outputs(pre: GraphModel, post: GraphModel)
    requires
        pre.wf(),
        swept(pre, post),
    ensures
        keeps_outputs(pre, post),
{
    let heirs = Map::new(|r: usize| pre.to_retrieve.contains(r), |r: usize| r);
    assert forall|r: usize| #[trigger] heirs.dom().contains(r) implies {
        &&& pre.has(r)
        &&& post.has(heirs[r])
        &&& post.to_retrieve.contains(heirs[r])
        &&& post.nodes[heirs[r]].shape == pre.nodes[r].shape
    } by {
        assert(pre.no_delete.contains(r));
        lemma_needed(pre, r);
        assert(pre.has(r));
        assert(post.has(r));
    }
    assert forall|t: usize| #[trigger] post.to_retrieve.contains(t) implies exists|r: usize|
        heirs.dom().contains(r) && heirs[r] == t by {
        assert(heirs.dom().contains(t) && heirs[t] == t);
    }
    assert(carries(pre, post, heirs));
}

/// The pass that removes what nothing needs: every node from which no path
/// leads to a protected node.
#[derive(Debug, Default)]
pub struct RemoveUnusedNodes;

/// The passes that serve every backend.
pub type GenericOptimizer = RemoveUnusedNodes;

impl RemoveUnusedNodes {
    /// The nodes of the graph that are needed.
    pub fn needed_nodes(graph: &Graph) -> (alive: HashSet<usize>)
        requires
            graph@.wf(),
        ensures
            forall|a: usize| alive@.contains(a) <==> graph@.has(a) && needed(graph@, a),
    {
        let ghost m = graph@;
        let order = match graph_toposort(&graph.graph) {
            Some(order) => order,
            None => {
                proof {
                    let rank = choose|rank: spec_fn(usize) -> int| m.ranked_by(rank);
                    lemma_ranked(m, rank);
                    assert(false);
                }
                Vec::new()
            },
        };
        let n = order.len();
        let mut alive: HashSet<usize> = HashSet::new();
        let mut k: usize = n;
        while k > 0
            invariant
                k <= n,
                n == order@.len(),
                m == graph@,
                m.wf(),
                in_order(m.nodes, m.edges, order@),
                forall|a: usize| #[trigger]
                    alive@.contains(a) <==> needed(m, a) && from_on(order@, a, k as int),
            decreases k,
        {
            k -= 1;
            let a = order[k];
            let mut keep = graph.is_no_delete(a);
            let dests = graph.edges_at(a, Way::Outgoing);
            let mut i: usize = 0;
            while i < dests.len()
                invariant
                    i <= dests@.len(),
                    m == graph@,
                    m.lists(a, Way::Outgoing, dests@),
                    keep <==> m.no_delete.contains(a) || exists|x: int|
                        0 <= x < i && alive@.contains(dests@[x].1.target),
                decreases dests@.len() - i,
            {
                if alive.contains(&dests[i].1.target) {
                    keep = true;
                }
                i += 1;
            }
            proof {
                lemma_needed(m, a);
                if keep && !m.no_delete.contains(a) {
                    let x = choose|x: int|
                        0 <= x < dests@.len() && alive@.contains(dests@[x].1.target);
                    assert(m.has_edge(dests@[x].0));
                    assert(needed(m, m.edges[dests@[x].0].target));
                }
                if needed(m, a) && !m.no_delete.contains(a) {
                    let e = choose|e: usize|
                        m.has_edge(e) && m.edges[e].source == a && needed(m, m.edges[e].target);
                    let x = choose|x: int| 0 <= x < dests@.len() && dests@[x].0 == e;
                    assert(m.has_edge(dests@[x].0));
                    let b = m.edges[e].target;
                    assert(m.has(m.edges[e].source) && m.has(b));
                    assert(order@.contains(b));
                    let j = choose|j: int| 0 <= j < order@.len() && order@[j] == b;
                    assert(m.edges.dom().contains(e));
                    assert(order@[k as int] == m.edges[e].source);
                    assert(k < j);
                    assert(from_on(order@, b, k + 1));
                    assert(alive@.contains(b));
                }
                assert(keep <==> needed(m, a));
            }
            let ghost before = alive@;
            if keep {
                alive.insert(a);
            }
            proof {
                assert forall|b: usize| #[trigger]
                    alive@.contains(b) <==> needed(m, b) && from_on(order@, b, k as int) by {
                    if before.contains(b) {
                        assert(from_on(order@, b, k + 1));
                        let j = choose|j: int| k + 1 <= j < order@.len() && order@[j] == b;
                        assert(k <= j < order@.len() && order@[j] == b);
                    }
                    if b == a {
                        assert(order@[k as int] == b);
                    }
                    if needed(m, b) && from_on(order@, b, k as int) {
                        let j = choose|j: int| k <= j < order@.len() && order@[j] == b;
                        if j > k {
                            assert(k + 1 <= j < order@.len() && order@[j] == b);
                            assert(from_on(order@, b, k + 1));
                        }
                    }
                }
            }
        }
        proof {
            assert forall|a: usize| alive@.contains(a) <==> m.has(a) && needed(m, a) by {
                if alive@.contains(a) {
                    assert(from_on(order@, a, 0));
                    let j = choose|j: int| 0 <= j < order@.len() && order@[j] == a;
                    assert(order@.contains(a));
                }
                if m.has(a) && needed(m, a) {
                    assert(order@.contains(a));
                    let j = choose|j: int| 0 <= j < order@.len() && order@[j] == a;
                    assert(from_on(order@, a, 0));
                }
            }
        }
        alive
    }
}

impl GraphOptimizer for RemoveUnusedNodes {
    /// One run removes every node that is not needed, and reports a change
    /// where there was one.
    open spec fn rewrites(&self, pre: GraphModel, post: GraphModel, changed: bool) -> bool {
        swept(pre, post) && changed == (exists|a: usize| pre.has(a) && !needed(pre, a))
    }

    fn optimize(&self, graph: &mut Graph) -> (changed: bool) {
        let ghost pre = graph@;
        let alive = Self::needed_nodes(graph);
        let nodes = graph.node_ids();
        let n = nodes.len();
        let mut changed = false;
        let mut k: usize = 0;
        while k < n
            invariant
                k <= n,
                n == nodes@.len(),
                pre.wf(),
                forall|i: int, j: int| 0 <= i < j < n ==> nodes@[i] < nodes@[j],
                forall|a: usize| pre.has(a) <==> nodes@.contains(a),
                forall|a: usize| alive@.contains(a) <==> pre.has(a) && needed(pre, a),
                graph@.id_remap == pre.id_remap,
                graph@.no_delete == pre.no_delete,
                graph@.to_retrieve == pre.to_retrieve,
                forall|a: usize| #[trigger]
                    graph@.has(a) <==> pre.has(a) && (needed(pre, a) || from_on(
                        nodes@,
                        a,
                        k as int,
                    )),
                forall|a: usize| #[trigger] graph@.has(a) ==> graph@.nodes[a] == pre.nodes[a],
                forall|e: usize| #[trigger]
                    graph@.has_edge(e) <==> pre.has_edge(e) && graph@.has(pre.edges[e].source)
                        && graph@.has(pre.edges[e].target),
                forall|e: usize| #[trigger]
                    graph@.has_edge(e) ==> graph@.edges[e] == pre.edges[e],
                changed <==> exists|j: int| 0 <= j < k && !needed(pre, nodes@[j]),
                !changed ==> graph@ == pre,
            decreases n - k,
        {
            let a = nodes[k];
            let ghost before = graph@;
            proof {
                assert(nodes@.contains(a));
                assert(pre.has(a));
                assert(from_on(nodes@, a, k as int));
            }
            if !alive.contains(&a) {
                let _ = graph_remove_node(&mut graph.graph, a);
                changed = true;
                proof {
                    let now = graph@;
                    assert(before.has(a));
                    assert forall|b: usize| #[trigger]
                        now.has(b) <==> pre.has(b) && (needed(pre, b) || from_on(
                            nodes@,
                            b,
                            k + 1,
                        )) by {
                        if b != a {
                            assert(now.has(b) == before.has(b));
                            if from_on(nodes@, b, k as int) {
                                let j = choose|j: int| k <= j < nodes@.len() && nodes@[j] == b;
                                assert(k + 1 <= j < nodes@.len() && nodes@[j] == b);
                            }
                            if from_on(nodes@, b, k + 1) {
                                let j = choose|j: int| k + 1 <= j < nodes@.len() && nodes@[j] == b;
                                assert(k <= j < nodes@.len() && nodes@[j] == b);
                            }
                        } else {
                            if from_on(nodes@, b, k + 1) {
                                let j = choose|j: int| k + 1 <= j < nodes@.len() && nodes@[j] == b;
                                assert(nodes@[k as int] < nodes@[j]);
                            }
                        }
                    }
                    assert forall|b: usize| #[trigger] now.has(b) implies now.nodes[b]
                        == pre.nodes[b] by {
                        assert(before.has(b));
                    }
                    assert forall|e: usize| #[trigger]
                        now.has_edge(e) <==> pre.has_edge(e) && now.has(pre.edges[e].source)
                            && now.has(pre.edges[e].target) by {
                        if pre.has_edge(e) {
                            assert(pre.has(pre.edges[e].source) && pre.has(pre.edges[e].target));
                        }
                        assert(before.has_edge(e) ==> before.edges[e] == pre.edges[e]);
                        assert(now.has_edge(e) <==> before.has_edge(e) && !before.edges[e].touches(
                            a,
                        ));
                    }
                    assert forall|e: usize| #[trigger] now.has_edge(e) implies now.edges[e]
                        == pre.edges[e] by {
                        assert(before.has_edge(e));
                    }
                    assert(!needed(pre, nodes@[k as int]));
                }
            } else {
                proof {
                    assert forall|b: usize| #[trigger]
                        graph@.has(b) <==> pre.has(b) && (needed(pre, b) || from_on(
                            nodes@,
                            b,
                            k + 1,
                        )) by {
                        if from_on(nodes@, b, k as int) {
                            let j = choose|j: int| k <= j < nodes@.len() && nodes@[j] == b;
                            if j > k {
                                assert(k + 1 <= j < nodes@.len() && nodes@[j] == b);
                            }
                        }
                        if from_on(nodes@, b, k + 1) {
                            let j = choose|j: int| k + 1 <= j < nodes@.len() && nodes@[j] == b;
                            assert(k <= j < nodes@.len() && nodes@[j] == b);
                        }
                    }
                    if exists|j: int| 0 <= j < k + 1 && !needed(pre, nodes@[j]) {
                        let j = choose|j: int| 0 <= j < k + 1 && !needed(pre, nodes@[j]);
                        assert(j < k);
                    }
                }
            }
            k += 1;
        }
        proof {
            let post = graph@;
            assert forall|a: usize| #[trigger] post.has(a) <==> pre.has(a) && needed(pre, a) by {
                if from_on(nodes@, a, n as int) {
                    let j = choose|j: int| n <= j < nodes@.len() && nodes@[j] == a;
                }
            }
            assert forall|e: usize| #[trigger]
                post.has_edge(e) <==> pre.has_edge(e) && needed(pre, pre.edges[e].source)
                    && needed(pre, pre.edges[e].target) by {
                if pre.has_edge(e) {
                    assert(pre.has(pre.edges[e].source) && pre.has(pre.edges[e].target));
                }
            }
            assert(swept(pre, post));
            lemma_swept_wf(pre, post);
            lemma_swept_keeps_outputs(pre, post);
            if changed {
                let j = choose|j: int| 0 <= j < n && !needed(pre, nodes@[j]);
                assert(nodes@.contains(nodes@[j]));
                assert(pre.has(nodes@[j]) && !needed(pre, nodes@[j]));
            }
            if exists|a: usize| pre.has(a) && !needed(pre, a) {
                let a = choose|a: usize| pre.has(a) && !needed(pre, a);
                assert(nodes@.contains(a));
                let j = choose|j: int| 0 <= j < nodes@.len() && nodes@[j] == a;
                assert(0 <= j < n && !needed(pre, nodes@[j]));
            }
        }
        changed
    }
}

} // verus!
