//! Rewriting passes over the operator graph, and the driver that runs them
//! until nothing changes.

use crate::graph::Graph;
use crate::graph::GraphModel;
use vstd::prelude::*;

pub mod cpu;
pub mod generic;

verus! {

/// `heirs` says which node of `post` stands for each retained node of `pre`:
/// a retained node of `post` that declares the same shape, another for each,
/// and every retained node of `post` stands for one of `pre`.
pub open spec fn carries(pre: GraphModel, post: GraphModel, heirs: Map<usize, usize>) -> bool {
    &&& forall|r: usize| #[trigger] heirs.dom().contains(r) <==> pre.to_retrieve.contains(r)
    &&& forall|r: usize| #[trigger]
        heirs.dom().contains(r) ==> {
            &&& pre.has(r)
            &&& post.has(heirs[r])
            &&& post.to_retrieve.contains(heirs[r])
            &&& post.nodes[heirs[r]].shape == pre.nodes[r].shape
        }
    &&& forall|r: usize, s: usize|
        #![trigger heirs.dom().contains(r), heirs.dom().contains(s)]
        heirs.dom().contains(r) && heirs.dom().contains(s) && r != s ==> heirs[r] != heirs[s]
    &&& forall|t: usize| #[trigger]
        post.to_retrieve.contains(t) ==> exists|r: usize| heirs.dom().contains(r) && heirs[r] == t
}

/// Whether every retained output of `pre` is still there in `post`: some
/// node of `post` stands for it, retained and of the same declared shape.
pub open spec fn keeps_outputs(pre: GraphModel, post: GraphModel) -> bool {
    exists|heirs: Map<usize, usize>| carries(pre, post, heirs)
}

/// A graph keeps its own outputs.
pub proof fn lemma_keeps_own(m: GraphModel)
    requires
        m.wf(),
    ensures
        keeps_outputs(m, m),
{
    let heirs = Map::new(|r: usize| m.to_retrieve.contains(r), |r: usize| r);
    assert forall|r: usize| #[trigger] heirs.dom().contains(r) implies m.has(r) by {
        assert(m.no_delete.contains(r));
    }
    assert forall|t: usize| #[trigger] m.to_retrieve.contains(t) implies exists|r: usize|
        heirs.dom().contains(r) && heirs[r] == t by {
        assert(heirs.dom().contains(t) && heirs[t] == t);
    }
    assert(carries(m, m, heirs));
}

/// Outputs that are kept from a first graph to a second, and from the second
/// to a third, are kept from the first to the third.
pub proof fn lemma_keeps_through(a: GraphModel, b: GraphModel, c: GraphModel)
    requires
        keeps_outputs(a, b),
        keeps_outputs(b, c),
    ensures
        keeps_outputs(a, c),
{
    let f = choose|heirs: Map<usize, usize>| carries(a, b, heirs);
    let g = choose|heirs: Map<usize, usize>| carries(b, c, heirs);
    let h = Map::new(|r: usize| f.dom().contains(r), |r: usize| g[f[r]]);
    assert forall|r: usize| #[trigger] h.dom().contains(r) implies {
        &&& a.has(r)
        &&& c.has(h[r])
        &&& c.to_retrieve.contains(h[r])
        &&& c.nodes[h[r]].shape == a.nodes[r].shape
    } by {
        assert(f.dom().contains(r));
        assert(g.dom().contains(f[r]));
    }
    assert forall|r: usize, s: usize|
        #![trigger h.dom().contains(r), h.dom().contains(s)]
        h.dom().contains(r) && h.dom().contains(s) && r != s implies h[r] != h[s] by {
        assert(f.dom().contains(r) && f.dom().contains(s));
        assert(g.dom().contains(f[r]) && g.dom().contains(f[s]));
    }
    assert forall|t: usize| #[trigger] c.to_retrieve.contains(t) implies exists|r: usize|
        h.dom().contains(r) && h[r] == t by {
        let m = choose|m: usize| g.dom().contains(m) && g[m] == t;
        assert(b.to_retrieve.contains(m));
        let r = choose|r: usize| f.dom().contains(r) && f[r] == m;
        assert(h.dom().contains(r) && h[r] == t);
    }
    assert(carries(a, c, h));
}

/// A pass over the graph. Whatever a pass rewrites, it leaves a graph that
/// still meets its invariant, so that every protected node is still there,
/// no edge dangles, and no cycle has arisen; and it keeps every retained
/// output, as a node of the same declared shape.
pub trait GraphOptimizer {
    /// What one run of the pass can make of a graph: whether it can turn
    /// `pre` into `post` and report `changed`. A pass that says nothing of
    /// itself can do anything that keeps the invariant.
    open spec fn rewrites(&self, pre: GraphModel, post: GraphModel, changed: bool) -> bool {
        true
    }

    /// Runs the pass once and says whether it changed the graph.
    fn optimize(&self, graph: &mut Graph) -> (changed: bool)
        requires
            old(graph)@.wf(),
        ensures
            final(graph)@.wf(),
            keeps_outputs(old(graph)@, final(graph)@),
            !changed ==> final(graph)@ == old(graph)@,
            self.rewrites(old(graph)@, final(graph)@, changed),
    ;
}

/// Two passes in sequence are a pass: the first runs, then the second, and
/// the pair reports a change where either does.
impl<A: GraphOptimizer, B: GraphOptimizer> GraphOptimizer for (A, B) {
    open spec fn rewrites(&self, pre: GraphModel, post: GraphModel, changed: bool) -> bool {
        exists|mid: GraphModel, first: bool, second: bool|
            {
                &&& self.0.rewrites(pre, mid, first)
                &&& self.1.rewrites(mid, post, second)
                &&& changed == (first || second)
            }
    }

    fn optimize(&self, graph: &mut Graph) -> (changed: bool) {
        let ghost pre = graph@;
        let first = self.0.optimize(graph);
        let ghost mid = graph@;
        let second = self.1.optimize(graph);
        proof {
            assert(self.0.rewrites(pre, mid, first) && self.1.rewrites(mid, graph@, second));
            lemma_keeps_through(pre, mid, graph@);
        }
        first || second
    }
}

/// Why a compilation gave up.
#[derive(Clone, Copy, Debug, PartialEq, Eq, Structural)]
pub enum CompileError {
    /// The passes still changed the graph in the last round that the cap
    /// allowed.
    OptimizationDivergence,
}

/// `trace` is a run of rounds of the pass, each of which changed the graph:
/// the graph at the start, then the graph after each round.
pub open spec fn rounds<P: GraphOptimizer>(pass: &P, trace: Seq<GraphModel>) -> bool {
    &&& trace.len() >= 1
    &&& forall|i: int|
        0 <= i < trace.len() - 1 ==> pass.rewrites(#[trigger] trace[i], trace[i + 1], true)
}

/// Runs the pass round after round until a round changes nothing, and
/// returns the number of rounds that changed the graph. At most `cap` rounds
/// are run; where the last of them still changed the graph, the compilation
/// fails with `OptimizationDivergence` and the graph is as it was at the
/// start.
pub fn compile<P: GraphOptimizer>(graph: &mut Graph, pass: &P, cap: usize) -> (r: Result<
    usize,
    CompileError,
>)
    requires
        old(graph)@.wf(),
    ensures
        final(graph)@.wf(),
        keeps_outputs(old(graph)@, final(graph)@),
        match r {
            Ok(n) => n < cap && exists|trace: Seq<GraphModel>|
                {
                    &&& trace.len() == n + 1
                    &&& trace[0] == old(graph)@
                    &&& trace.last() == final(graph)@
                    &&& rounds(pass, trace)
                    &&& pass.rewrites(final(graph)@, final(graph)@, false)
                },
            Err(e) => e == CompileError::OptimizationDivergence && final(graph)@ == old(graph)@
                && exists|trace: Seq<GraphModel>|
                {
                    &&& trace.len() == cap + 1
                    &&& trace[0] == old(graph)@
                    &&& rounds(pass, trace)
                },
        },
{
    let start = graph.snapshot();
    let ghost trace: Seq<GraphModel> = seq![graph@];
    proof {
        lemma_keeps_own(graph@);
    }
    let mut n: usize = 0;
    while n < cap
        invariant
            n <= cap,
            graph@.wf(),
            start@ == old(graph)@,
            trace.len() == n + 1,
            trace[0] == old(graph)@,
            trace.last() == graph@,
            rounds(pass, trace),
            old(graph)@.wf(),
            keeps_outputs(old(graph)@, graph@),
        decreases cap - n,
    {
        let ghost before = trace;
        let ghost was = graph@;
        let changed = pass.optimize(graph);
        proof {
            lemma_keeps_through(old(graph)@, was, graph@);
        }
        if !changed {
            return Ok(n);
        }
        proof {
            trace = before.push(graph@);
            assert forall|i: int| 0 <= i < trace.len() - 1 implies pass.rewrites(
                #[trigger] trace[i],
                trace[i + 1],
                true,
            ) by {
                if i < before.len() - 1 {
                    assert(trace[i] == before[i] && trace[i + 1] == before[i + 1]);
                    assert(pass.rewrites(before[i], before[i + 1], true));
                } else {
                    assert(trace[i] == before.last());
                }
            }
        }
        n += 1;
    }
    *graph = start;
    proof {
        lemma_keeps_own(graph@);
    }
    Err(CompileError::OptimizationDivergence)
}

} // verus!
