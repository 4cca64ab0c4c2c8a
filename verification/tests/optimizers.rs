use luminal::graph::Graph;
use luminal::op::Op;
use luminal::optimizers::compile;
use luminal::optimizers::cpu::CPUMatMulOptimizer;
use luminal::optimizers::CompileError;
use luminal::optimizers::GraphOptimizer;

/// A pass that never comes to rest: every run adds a node.
struct Restless;

impl GraphOptimizer for Restless {
    fn optimize(&self, graph: &mut Graph) -> bool {
        Graph::add_op(Op::Contiguous, vec![1]).finish(graph);
        true
    }
}

/// A pass that never changes anything.
struct Idle;

impl GraphOptimizer for Idle {
    fn optimize(&self, _graph: &mut Graph) -> bool {
        false
    }
}

fn chain(depth: usize) -> (Graph, usize) {
    // ((x @ w1) @ w2) @ ... with square matrices
    let mut cx = Graph::new();
    let mut x = Graph::add_op(Op::Load(0), vec![4, 4]).finish(&mut cx);
    for layer in 0..depth {
        let w = Graph::add_op(Op::Load(layer + 1), vec![4, 4]).finish(&mut cx);
        let p = Graph::add_op(Op::Permute(vec![1, 0]), vec![4, 4]).input(w).finish(&mut cx);
        let e1 = Graph::add_op(Op::Expand(0, 4), vec![4, 4, 4]).input(p).finish(&mut cx);
        let e2 = Graph::add_op(Op::Expand(1, 4), vec![4, 4, 4]).input(x).finish(&mut cx);
        let m = Graph::add_op(Op::Mul, vec![4, 4, 4]).input(e2).input(e1).finish(&mut cx);
        x = Graph::add_op(Op::SumReduce(2), vec![4, 4]).input(m).finish(&mut cx);
    }
    assert!(cx.mark(x));
    (cx, x)
}

#[test]
fn compile_runs_to_a_fixed_point() {
    let (mut cx, out) = chain(3);
    assert_eq!(cx.node_ids().len(), 1 + 3 * 6);
    // one round rewrites all three products, the second finds nothing
    assert_eq!(compile(&mut cx, &CPUMatMulOptimizer, 10), Ok(1));
    assert_eq!(cx.node_ids().len(), 1 + 3 * 2);
    let last = cx.remapped(out).unwrap();
    assert!(cx.is_retrieved(last));
    assert_eq!(cx.node(last).unwrap().op.name(), "CPUMatMul2D");
    assert_eq!(cx.node_ids().into_iter().filter(|id| cx.is_retrieved(*id)).count(), 1);
    // nothing is left to do
    assert_eq!(compile(&mut cx, &CPUMatMulOptimizer, 10), Ok(0));
    assert_eq!(compile(&mut cx, &Idle, 1), Ok(0));
}

#[test]
fn compile_fails_at_the_cap_and_rolls_back() {
    let (mut cx, out) = chain(2);
    let before = cx.node_ids();
    assert_eq!(
        compile(&mut cx, &Restless, 5),
        Err(CompileError::OptimizationDivergence)
    );
    assert_eq!(cx.node_ids(), before);
    assert!(cx.is_retrieved(out));
    assert_eq!(cx.remapped(out), None);

    // a cap that leaves no room for the quiet round
    assert_eq!(
        compile(&mut cx, &CPUMatMulOptimizer, 1),
        Err(CompileError::OptimizationDivergence)
    );
    assert_eq!(cx.node_ids(), before);
    assert_eq!(
        compile(&mut cx, &CPUMatMulOptimizer, 0),
        Err(CompileError::OptimizationDivergence)
    );
    assert_eq!(compile(&mut cx, &CPUMatMulOptimizer, 2), Ok(1));
}

#[test]
fn passes_in_sequence() {
    let (mut cx, _) = chain(2);
    let pair = (CPUMatMulOptimizer, Idle);
    assert!(pair.optimize(&mut cx));
    assert_eq!(cx.node_ids().len(), 1 + 2 * 2);
    assert!(!pair.optimize(&mut cx));
    assert!(!(Idle, Idle).optimize(&mut cx));
    assert!((Idle, Restless).optimize(&mut cx));

    let (mut cx, _) = chain(2);
    assert_eq!(compile(&mut cx, &(Idle, CPUMatMulOptimizer), 4), Ok(1));
    assert_eq!(
        compile(&mut cx, &(CPUMatMulOptimizer, Restless), 4),
        Err(CompileError::OptimizationDivergence)
    );
    assert_eq!(cx.node_ids().len(), 1 + 2 * 2);
}
