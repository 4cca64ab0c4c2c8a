//! The executor's schedule: the order in which the nodes run, what each of
//! them reads, and which tensors can be dropped after each step.

use crate::graph::Graph;
use crate::graph::GraphModel;
use crate::stable::graph_toposort;
use crate::stable::in_order;
use crate::stable::ranked;
use crate::stable::Edge;
use crate::stable::Way;
use std::collections::HashMap;
use vstd::prelude::*;

verus! {

broadcast use vstd::std_specs::hash::group_hash_axioms;

/// One step of an execution: the node that runs, the nodes whose tensors it
/// reads, in slot order, and the nodes whose tensors are dropped once it has
/// run.
#[derive(Debug)]
pub struct Step {
    pub node: usize,
    pub inputs: Vec<usize>,
    pub release: Vec<usize>,
}

/// The mathematical content of a [`Step`].
pub struct StepModel {
    pub node: usize,
    pub inputs: Seq<usize>,
    pub release: Seq<usize>,
}

impl View for Step {
    type V = StepModel;

    open spec fn view(&self) -> StepModel {
        StepModel { node: self.node, inputs: self.inputs@, release: self.release@ }
    }
}

/// The steps of a schedule as mathematical values.
pub open spec fn views(steps: Seq<Step>) -> Seq<StepModel> {
    Seq::new(steps.len(), |k: int| steps[k]@)
}

/// The nodes of a schedule in the order in which they run.
pub open spec fn nodes_of(steps: Seq<StepModel>) -> Seq<usize> {
    Seq::new(steps.len(), |k: int| steps[k].node)
}

/// What the steps of a schedule read.
pub open spec fn reads_of(steps: Seq<StepModel>) -> Seq<Seq<usize>> {
    Seq::new(steps.len(), |k: int| steps[k].inputs)
}

/// Whether `inputs` names the producers that `node` reads, in slot order.
pub open spec fn feeds(m: GraphModel, node: usize, inputs: Seq<usize>) -> bool {
    exists|es: Seq<(usize, Edge)>|
        {
            &&& m.lists(node, Way::Incoming, es)
            &&& inputs.len() == es.len()
            &&& forall|i: int| 0 <= i < es.len() ==> inputs[i] == (#[trigger] es[i]).1.source
        }
}

/// Whether step `k` produces or reads the tensor of node `p`.
pub open spec fn uses(order: Seq<usize>, reads: Seq<Seq<usize>>, k: int, p: usize) -> bool {
    order[k] == p || reads[k].contains(p)
}

/// The last of the first `n` steps that produces or reads the tensor of
/// node `p`, or -1 if none does.
pub open spec fn last_use(order: Seq<usize>, reads: Seq<Seq<usize>>, p: usize, n: int) -> int
    decreases n,
{
    if n <= 0 {
        -1
    } else if uses(order, reads, n - 1, p) {
        n - 1
    } else {
        last_use(order, reads, p, n - 1)
    }
}

/// Whether `steps` is a schedule of the graph: the nodes run in an order in
/// which every node comes after all that it reads; each step reads the
/// producers of its node in slot order; and the tensor of every node that is
/// not retained is dropped once, right after the last step that produces or
/// reads it, while that of a retained node is never dropped.
pub open spec fn scheduled(m: GraphModel, steps: Seq<StepModel>) -> bool {
    &&& in_order(m.nodes, m.edges, nodes_of(steps))
    &&& forall|k: int| 0 <= k < steps.len() ==> feeds(m, (#[trigger] steps[k]).node, steps[k].inputs)
    &&& forall|k: int| 0 <= k < steps.len() ==> (#[trigger] steps[k]).release.no_duplicates()
    &&& forall|k: int, p: usize|
        0 <= k < steps.len() ==> (#[trigger] steps[k].release.contains(p) <==> m.has(p)
            && !m.to_retrieve.contains(p) && last_use(
            nodes_of(steps),
            reads_of(steps),
            p,
            steps.len() as int,
        ) == k)
}

/// The last use of a tensor among the first `n` steps is one of them and
/// uses it, and no later one of them does.
pub proof fn lemma_last_use(order: Seq<usize>, reads: Seq<Seq<usize>>, p: usize, n: int)
    requires
        0 <= n,
    ensures
        -1 <= last_use(order, reads, p, n) < n,
        last_use(order, reads, p, n) >= 0 ==> uses(order, reads, last_use(order, reads, p, n), p),
        forall|k: int|
            last_use(order, reads, p, n) < k < n ==> !#[trigger] uses(order, reads, k, p),
    decreases n,
{
    if n > 0 && !uses(order, reads, n - 1, p) {
        lemma_last_use(order, reads, p, n - 1);
    }
}

/// A ranking of a graph ranks its edges.
pub proof fn lemma_ranked(m: GraphModel, rank: spec_fn(usize) -> int)
    ensures
        m.ranked_by(rank) == ranked(m.edges, rank),
{
    if m.ranked_by(rank) {
        assert forall|e: usize| #[trigger] m.edges.dom().contains(e) implies rank(
            m.edges[e].source,
        ) < rank(m.edges[e].target) by {
            assert(m.has_edge(e));
        }
    }
    if ranked(m.edges, rank) {
        assert forall|e: usize| #[trigger] m.has_edge(e) implies rank(m.edges[e].source) < rank(
            m.edges[e].target,
        ) by {
            assert(m.edges.dom().contains(e));
        }
    }
}

/// When a step of a schedule runs, the tensor of each node that it reads is
/// there: an earlier step has produced it, and no earlier step has dropped
/// it.
pub proof fn lemma_inputs_alive(m: GraphModel, steps: Seq<StepModel>, k: int, i: int)
    requires
        m.edges_closed(),
        scheduled(m, steps),
        0 <= k < steps.len(),
        0 <= i < steps[k].inputs.len(),
    ensures
        exists|j: int| 0 <= j < k && steps[j].node == steps[k].inputs[i],
        forall|j: int| 0 <= j < k ==> !(#[trigger] steps[j]).release.contains(steps[k].inputs[i]),
{
    let order = nodes_of(steps);
    let reads = reads_of(steps);
    let p = steps[k].inputs[i];
    let es = choose|es: Seq<(usize, Edge)>|
        {
            &&& m.lists(steps[k].node, Way::Incoming, es)
            &&& steps[k].inputs.len() == es.len()
            &&& forall|x: int| 0 <= x < es.len() ==> steps[k].inputs[x] == (#[trigger] es[x]).1.source
        };
    let e = es[i].0;
    assert(m.has_edge(e));
    assert(m.edges[e] == es[i].1);
    assert(m.has(p));
    assert(order.contains(p));
    let j = choose|j: int| 0 <= j < order.len() && order[j] == p;
    assert(order[k] == m.edges[e].target);
    assert(m.edges.dom().contains(e));
    assert(j < k);
    assert(steps[j].node == p);
    assert(reads[k].contains(p)) by {
        assert(reads[k][i] == p);
    }
    assert(uses(order, reads, k, p));
    lemma_last_use(order, reads, p, steps.len() as int);
    assert forall|x: int| 0 <= x < k implies !(#[trigger] steps[x]).release.contains(p) by {
        if steps[x].release.contains(p) {
            assert(last_use(order, reads, p, steps.len() as int) == x);
        }
    }
}

/// The tensor of a node that is not retained is dropped by exactly one step
/// of a schedule, and no later step produces or reads it; the tensor of a
/// retained node is dropped by none.
pub proof fn lemma_released_once(m: GraphModel, steps: Seq<StepModel>, p: usize)
    requires
        scheduled(m, steps),
        m.has(p),
    ensures
        m.to_retrieve.contains(p) ==> forall|k: int|
            0 <= k < steps.len() ==> !(#[trigger] steps[k]).release.contains(p),
        !m.to_retrieve.contains(p) ==> exists|k: int|
            {
                &&& 0 <= k < steps.len()
                &&& steps[k].release.contains(p)
                &&& forall|j: int|
                    0 <= j < steps.len() && j != k ==> !(#[trigger] steps[j]).release.contains(p)
                &&& forall|j: int|
                    k < j < steps.len() ==> !uses(nodes_of(steps), reads_of(steps), j, p)
            },
{
    let order = nodes_of(steps);
    let reads = reads_of(steps);
    let n = steps.len() as int;
    lemma_last_use(order, reads, p, n);
    assert(order.contains(p));
    let j = choose|j: int| 0 <= j < order.len() && order[j] == p;
    assert(uses(order, reads, j, p));
    let k = last_use(order, reads, p, n);
    assert(k >= j);
    if !m.to_retrieve.contains(p) {
        assert(steps[k].release.contains(p));
    }
}

/// Lays out an execution of the graph.
pub fn schedule(graph: &Graph) -> (steps: Vec<Step>)
    requires
        graph@.wf(),
    ensures
        scheduled(graph@, views(steps@)),
{
    let ghost m = graph@;
    let order = match graph_toposort(&graph.graph) {
        Some(order) => order,
        None => {
            proof {
                let rank = choose|rank: spec_fn(usize) -> int| m.ranked_by(rank);
                lemma_ranked(m, rank);
                assert(false);
            }
            Vec::new()
        },
    };
    let n = order.len();
    // What each step reads.
    let mut steps: Vec<Step> = Vec::new();
    let mut k: usize = 0;
    while k < n
        invariant
            k <= n,
            n == order@.len(),
            m == graph@,
            m.wf(),
            steps@.len() == k,
            forall|j: int|
                0 <= j < k ==> {
                    &&& (#[trigger] steps@[j]).node == order@[j]
                    &&& feeds(m, order@[j], steps@[j].inputs@)
                    &&& steps@[j].release@.len() == 0
                },
        decreases n - k,
    {
        let node = order[k];
        let sources = graph.get_sources(node);
        let ghost es = choose|es: Seq<(usize, Edge)>|
            m.lists(node, Way::Incoming, es) && m.shows(es, Way::Outgoing, sources@);
        let mut inputs: Vec<usize> = Vec::new();
        let mut i: usize = 0;
        while i < sources.len()
            invariant
                i <= sources@.len(),
                sources@.len() == es.len(),
                m.shows(es, Way::Outgoing, sources@),
                inputs@.len() == i,
                forall|x: int| 0 <= x < i ==> inputs@[x] == (#[trigger] es[x]).1.source,
            decreases sources@.len() - i,
        {
            proof {
                assert(sources@[i as int].0 == es[i as int].1.source);
            }
            inputs.push(sources[i].0);
            i += 1;
        }
        steps.push(Step { node, inputs, release: Vec::new() });
        k += 1;
    }
    let ghost reads: Seq<Seq<usize>> = Seq::new(n as nat, |j: int| steps@[j].inputs@);
    // The last step that uses each tensor.
    let mut last: HashMap<usize, usize> = HashMap::new();
    let mut k: usize = 0;
    while k < n
        invariant
            k <= n,
            n == order@.len(),
            steps@.len() == n,
            reads.len() == n,
            forall|j: int|
                0 <= j < n ==> (#[trigger] steps@[j]).node == order@[j] && steps@[j].inputs@
                    == reads[j],
            forall|p: usize|
                last@.contains_key(p) <==> #[trigger] last_use(order@, reads, p, k as int) >= 0,
            forall|p: usize|
                last@.contains_key(p) ==> last@[p] == #[trigger] last_use(
                    order@,
                    reads,
                    p,
                    k as int,
                ),
        decreases n - k,
    {
        let step = &steps[k];
        let ghost before = last@;
        last.insert(step.node, k);
        let m_in = step.inputs.len();
        let mut i: usize = 0;
        while i < m_in
            invariant
                i <= m_in,
                k < n,
                n == order@.len(),
                steps@.len() == n,
                reads.len() == n,
                step == steps@[k as int],
                m_in == step.inputs@.len(),
                step.node == order@[k as int],
                step.inputs@ == reads[k as int],
                forall|p: usize|
                    before.contains_key(p) <==> #[trigger] last_use(order@, reads, p, k as int)
                        >= 0,
                forall|p: usize|
                    before.contains_key(p) ==> before[p] == #[trigger] last_use(
                        order@,
                        reads,
                        p,
                        k as int,
                    ),
                forall|p: usize|
                    #![trigger last@.contains_key(p)]
                    last@.contains_key(p) <==> before.contains_key(p) || p == step.node
                        || reads[k as int].take(i as int).contains(p),
                forall|p: usize|
                    #![trigger last@[p]]
                    last@.contains_key(p) ==> last@[p] == (if p == step.node
                        || reads[k as int].take(i as int).contains(p) {
                        k
                    } else {
                        before[p]
                    }),
            decreases m_in - i,
        {
            let q = step.inputs[i];
            let ghost mid = last@;
            last.insert(q, k);
            proof {
                let part = reads[k as int].take(i as int);
                let more = reads[k as int].take(i + 1);
                assert(more =~= part.push(q));
                assert forall|p: usize| more.contains(p) <==> part.contains(p) || p == q by {
                    if part.contains(p) {
                        let x = choose|x: int| 0 <= x < part.len() && part[x] == p;
                        assert(more[x] == p);
                    }
                    if p == q {
                        assert(more[i as int] == p);
                    }
                    if more.contains(p) {
                        let x = choose|x: int| 0 <= x < more.len() && more[x] == p;
                        if x < i {
                            assert(part[x] == p);
                        }
                    }
                }
            }
            i += 1;
        }
        proof {
            assert(reads[k as int].take(m_in as int) =~= reads[k as int]);
            assert forall|p: usize|
                last@.contains_key(p) <==> #[trigger] last_use(order@, reads, p, k + 1)
                    >= 0 by {
                lemma_last_use(order@, reads, p, k as int);
            }
            assert forall|p: usize| last@.contains_key(p) implies last@[p] == #[trigger] last_use(
                order@,
                reads,
                p,
                k + 1,
            ) by {
                lemma_last_use(order@, reads, p, k as int);
            }
        }
        k += 1;
    }
    // Drop each tensor after its last use, unless it is retained.
    let mut j: usize = 0;
    while j < n
        invariant
            j <= n,
            n == order@.len(),
            steps@.len() == n,
            reads.len() == n,
            m == graph@,
            order@.no_duplicates(),
            forall|x: int|
                0 <= x < n ==> (#[trigger] steps@[x]).node == order@[x] && steps@[x].inputs@
                    == reads[x],
            forall|p: usize|
                last@.contains_key(p) <==> #[trigger] last_use(order@, reads, p, n as int) >= 0,
            forall|p: usize|
                last@.contains_key(p) ==> last@[p] == #[trigger] last_use(
                    order@,
                    reads,
                    p,
                    n as int,
                ),
            forall|x: int| 0 <= x < n ==> (#[trigger] steps@[x]).release@.no_duplicates(),
            forall|x: int, p: usize|
                0 <= x < n ==> (#[trigger] steps@[x].release@.contains(p) <==> exists|y: int|
                    0 <= y < j && order@[y] == p && !m.to_retrieve.contains(p) && last_use(
                        order@,
                        reads,
                        p,
                        n as int,
                    ) == x),
        decreases n - j,
    {
        let p = order[j];
        proof {
            lemma_last_use(order@, reads, p, n as int);
            assert(uses(order@, reads, j as int, p));
        }
        if !graph.is_retrieved(p) {
            let found = last.get(&p);
            let at = *found.unwrap();
            let ghost old_steps = steps@;
            steps[at].release.push(p);
            proof {
                let now = steps@;
                assert forall|x: int| 0 <= x < n implies (#[trigger] now[x]).node == order@[x]
                    && now[x].inputs@ == reads[x] by {
                    assert(old_steps[x].node == order@[x]);
                }
                assert forall|x: int, q: usize| 0 <= x < n implies (
                #[trigger] now[x].release@.contains(q) <==> exists|y: int|
                    0 <= y < j + 1 && order@[y] == q && !m.to_retrieve.contains(q) && last_use(
                        order@,
                        reads,
                        q,
                        n as int,
                    ) == x) by {
                    let was = old_steps[x].release@;
                    let is = now[x].release@;
                    if x == at {
                        assert(is =~= was.push(p));
                        if was.contains(q) {
                            let z = choose|z: int| 0 <= z < was.len() && was[z] == q;
                            assert(is[z] == q);
                        }
                        if q == p {
                            assert(is[was.len() as int] == q);
                        }
                        if is.contains(q) {
                            let z = choose|z: int| 0 <= z < is.len() && is[z] == q;
                            if z < was.len() {
                                assert(was[z] == q);
                            }
                        }
                    } else {
                        assert(is == was);
                    }
                    if was.contains(q) {
                        let y = choose|y: int|
                            0 <= y < j && order@[y] == q && !m.to_retrieve.contains(q)
                                && last_use(order@, reads, q, n as int) == x;
                        assert(0 <= y < j + 1 && order@[y] == q);
                    }
                    if exists|y: int|
                        0 <= y < j + 1 && order@[y] == q && !m.to_retrieve.contains(q)
                            && last_use(order@, reads, q, n as int) == x {
                        let y = choose|y: int|
                            0 <= y < j + 1 && order@[y] == q && !m.to_retrieve.contains(q)
                                && last_use(order@, reads, q, n as int) == x;
                        if y < j {
                            assert(was.contains(q));
                        }
                    }
                }
                assert forall|x: int| 0 <= x < n implies (#[trigger] now[x]).release@.no_duplicates() by {
                    let was = old_steps[x].release@;
                    let is = now[x].release@;
                    if x == at {
                        assert(is =~= was.push(p));
                        if was.contains(p) {
                            let y = choose|y: int|
                                0 <= y < j && order@[y] == p && !m.to_retrieve.contains(p)
                                    && last_use(order@, reads, p, n as int) == x;
                            assert(order@[y] == order@[j as int]);
                        }
                        assert forall|a: int, b: int|
                            0 <= a < is.len() && 0 <= b < is.len() && a != b implies is[a]
                            != is[b] by {
                            if a == was.len() {
                                assert(was[b] == is[b]);
                                assert(was.contains(is[b]));
                            } else if b == was.len() {
                                assert(was[a] == is[a]);
                                assert(was.contains(is[a]));
                            } else {
                                assert(was[a] == is[a] && was[b] == is[b]);
                            }
                        }
                    } else {
                        assert(is == was);
                    }
                }
            }
        } else {
            proof {
                assert forall|x: int, q: usize| 0 <= x < n implies (
                #[trigger] steps@[x].release@.contains(q) <==> exists|y: int|
                    0 <= y < j + 1 && order@[y] == q && !m.to_retrieve.contains(q) && last_use(
                        order@,
                        reads,
                        q,
                        n as int,
                    ) == x) by {
                    if steps@[x].release@.contains(q) {
                        let y = choose|y: int|
                            0 <= y < j && order@[y] == q && !m.to_retrieve.contains(q)
                                && last_use(order@, reads, q, n as int) == x;
                        assert(0 <= y < j + 1 && order@[y] == q);
                    }
                }
            }
        }
        j += 1;
    }
    proof {
        let sv = views(steps@);
        assert(nodes_of(sv) =~= order@);
        assert(reads_of(sv) =~= reads);
        assert forall|x: int, p: usize| 0 <= x < sv.len() implies (
        #[trigger] sv[x].release.contains(p) <==> m.has(p) && !m.to_retrieve.contains(p)
            && last_use(nodes_of(sv), reads_of(sv), p, sv.len() as int) == x) by {
            assert(sv[x].release == steps@[x].release@);
            if sv[x].release.contains(p) {
                let y = choose|y: int|
                    0 <= y < n && order@[y] == p && !m.to_retrieve.contains(p) && last_use(
                        order@,
                        reads,
                        p,
                        n as int,
                    ) == x;
                assert(order@.contains(p));
            }
            if m.has(p) && !m.to_retrieve.contains(p) && last_use(order@, reads, p, n as int)
                == x {
                assert(order@.contains(p));
                let y = choose|y: int| 0 <= y < order@.len() && order@[y] == p;
                assert(0 <= y < n && order@[y] == p);
            }
        }
        assert forall|x: int| 0 <= x < sv.len() implies feeds(
            m,
            (#[trigger] sv[x]).node,
            sv[x].inputs,
        ) by {
            assert(steps@[x].node == order@[x]);
        }
        assert forall|x: int| 0 <= x < sv.len() implies (#[trigger] sv[x]).release.no_duplicates() by {
            assert(steps@[x].release@.no_duplicates());
        }
    }
    steps
}

} // verus!
