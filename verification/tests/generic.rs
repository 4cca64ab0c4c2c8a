use luminal::graph::Graph;
use luminal::op::Op;
use luminal::optimizers::compile;
use luminal::optimizers::cpu::CPUMatMulOptimizer;
use luminal::optimizers::generic::RemoveUnusedNodes;
use luminal::optimizers::GraphOptimizer;
use luminal::stable::Node;

fn ids(list: Vec<(usize, &Node)>) -> Vec<usize> {
    list.into_iter().map(|(id, _)| id).collect()
}

fn sorted(set: std::collections::HashSet<usize>) -> Vec<usize> {
    let mut list: Vec<usize> = set.into_iter().collect();
    list.sort();
    list
}

#[test]
fn unused_branches_are_removed() {
    let mut cx = Graph::new();
    let a = Graph::add_op(Op::Load(0), vec![4]).finish(&mut cx);
    let b = Graph::add_op(Op::Exp2, vec![4]).input(a).finish(&mut cx);
    let c = Graph::add_op(Op::Log2, vec![4]).input(a).finish(&mut cx);
    let d = Graph::add_op(Op::Add, vec![4]).input(c).input(b).finish(&mut cx);
    let e = Graph::add_op(Op::Sin, vec![4]).input(d).finish(&mut cx);
    let f = Graph::add_op(Op::Load(1), vec![4]).finish(&mut cx);
    assert!(cx.mark(b));

    assert_eq!(sorted(RemoveUnusedNodes::needed_nodes(&cx)), vec![a, b]);
    assert!(RemoveUnusedNodes.optimize(&mut cx));
    assert_eq!(cx.node_ids(), vec![a, b]);
    for gone in [c, d, e, f] {
        assert!(!cx.contains(gone));
    }
    assert_eq!(ids(cx.get_dests(a)), vec![b]);
    assert_eq!(ids(cx.get_sources(b)), vec![a]);
    assert!(cx.is_retrieved(b));

    // nothing is left to remove
    assert!(!RemoveUnusedNodes.optimize(&mut cx));
    assert_eq!(cx.node_ids(), vec![a, b]);
}

#[test]
fn what_a_protected_node_reads_stays() {
    let mut cx = Graph::new();
    let a = Graph::add_op(Op::Load(0), vec![4]).finish(&mut cx);
    let b = Graph::add_op(Op::Exp2, vec![4]).input(a).finish(&mut cx);
    let c = Graph::add_op(Op::Log2, vec![4]).input(b).finish(&mut cx);
    let d = Graph::add_op(Op::Sqrt, vec![4]).input(c).finish(&mut cx);
    assert!(cx.mark_no_delete(c));
    assert!(RemoveUnusedNodes.optimize(&mut cx));
    assert_eq!(cx.node_ids(), vec![a, b, c]);
    assert!(!cx.contains(d));
    assert_eq!(ids(cx.get_dests(c)), vec![]);
}

#[test]
fn a_graph_that_nothing_needs_is_emptied() {
    let mut cx = Graph::new();
    let a = Graph::add_op(Op::Load(0), vec![4]).finish(&mut cx);
    Graph::add_op(Op::Exp2, vec![4]).input(a).finish(&mut cx);
    assert!(RemoveUnusedNodes::needed_nodes(&cx).is_empty());
    assert!(RemoveUnusedNodes.optimize(&mut cx));
    assert_eq!(cx.node_ids(), Vec::<usize>::new());
    assert!(!RemoveUnusedNodes.optimize(&mut cx));
    assert!(!RemoveUnusedNodes.optimize(&mut Graph::new()));
}

#[test]
fn a_graph_that_is_all_needed_is_left_alone() {
    let mut cx = Graph::new();
    let a = Graph::add_op(Op::Load(0), vec![4]).finish(&mut cx);
    let b = Graph::add_op(Op::Load(1), vec![4]).finish(&mut cx);
    let c = Graph::add_op(Op::Max, vec![4]).input(a).input(b).finish(&mut cx);
    let d = Graph::add_op(Op::Recip, vec![4]).input(c).finish(&mut cx);
    assert!(cx.mark(d));
    assert_eq!(sorted(RemoveUnusedNodes::needed_nodes(&cx)), vec![a, b, c, d]);
    assert!(!RemoveUnusedNodes.optimize(&mut cx));
    assert_eq!(cx.node_ids(), vec![a, b, c, d]);
    assert_eq!(ids(cx.get_sources(c)), vec![a, b]);
}

#[test]
fn passes_together_reach_a_fixed_point() {
    let mut cx = Graph::new();
    let a = Graph::add_op(Op::Load(0), vec![2, 3]).finish(&mut cx);
    let b = Graph::add_op(Op::Load(1), vec![3, 3]).finish(&mut cx);
    let p = Graph::add_op(Op::Permute(vec![1, 0]), vec![3, 3]).input(b).finish(&mut cx);
    let e1 = Graph::add_op(Op::Expand(0, 2), vec![2, 3, 3]).input(p).finish(&mut cx);
    let e2 = Graph::add_op(Op::Expand(1, 3), vec![2, 3, 3]).input(a).finish(&mut cx);
    let m = Graph::add_op(Op::Mul, vec![2, 3, 3]).input(e2).input(e1).finish(&mut cx);
    let s = Graph::add_op(Op::SumReduce(2), vec![2, 3]).input(m).finish(&mut cx);
    // something that nothing needs hangs on the Mul and blocks the rewrite
    let probe = Graph::add_op(Op::Sin, vec![2, 3, 3]).input(m).finish(&mut cx);
    assert!(cx.mark(s));
    assert!(!CPUMatMulOptimizer.optimize(&mut cx));

    // round one removes the probe, round two rewrites, round three is quiet
    assert_eq!(
        compile(&mut cx, &(CPUMatMulOptimizer, RemoveUnusedNodes), 8),
        Ok(2)
    );
    // the index of a node that is gone may serve a new node
    assert!(cx.node(probe).map_or(true, |w| w.op.name() != "Sin"));
    assert_eq!(cx.node_ids().len(), 3);
    let c = cx.remapped(s).unwrap();
    assert_eq!(cx.node(c).unwrap().op.name(), "CPUMatMul2D");
    assert_eq!(ids(cx.get_sources(c)), vec![a, b]);
    assert!(cx.is_retrieved(c));
}
