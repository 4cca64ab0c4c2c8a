use luminal::executor::schedule;
use luminal::executor::Step;
use luminal::graph::Graph;
use luminal::op::Op;
use luminal::optimizers::cpu::CPUMatMulOptimizer;
use luminal::optimizers::GraphOptimizer;

fn position(steps: &[Step], node: usize) -> usize {
    steps.iter().position(|s| s.node == node).unwrap()
}

/// Runs the schedule on a store of tensors that only records which are
/// there, and returns what is left at the end.
fn replay(steps: &[Step]) -> Vec<usize> {
    let mut store: Vec<usize> = vec![];
    for step in steps {
        for input in &step.inputs {
            assert!(store.contains(input), "{} is read but not stored", input);
        }
        assert!(!store.contains(&step.node));
        store.push(step.node);
        for gone in &step.release {
            let at = store.iter().position(|x| x == gone).unwrap();
            store.remove(at);
        }
    }
    store.sort();
    store
}

#[test]
fn schedule_of_an_empty_graph() {
    assert!(schedule(&Graph::new()).is_empty());
}

#[test]
fn schedule_of_a_diamond() {
    let mut cx = Graph::new();
    let a = Graph::add_op(Op::Load(0), vec![4]).finish(&mut cx);
    let b = Graph::add_op(Op::Exp2, vec![4]).input(a).finish(&mut cx);
    let c = Graph::add_op(Op::Log2, vec![4]).input(a).finish(&mut cx);
    let d = Graph::add_op(Op::Add, vec![4]).input(c).input(b).finish(&mut cx);
    let e = Graph::add_op(Op::Sin, vec![4]).input(b).finish(&mut cx);
    assert!(cx.mark(d));

    let steps = schedule(&cx);
    assert_eq!(steps.len(), 5);
    let at = |node| position(&steps, node);
    assert!(at(a) < at(b) && at(a) < at(c));
    assert!(at(b) < at(d) && at(c) < at(d) && at(b) < at(e));

    assert_eq!(steps[at(a)].inputs, vec![]);
    assert_eq!(steps[at(b)].inputs, vec![a]);
    assert_eq!(steps[at(d)].inputs, vec![c, b]);
    assert_eq!(steps[at(e)].inputs, vec![b]);

    // a goes after the later of b and c, b after the later of d and e,
    // c after d, e at once, and d stays
    let released_at = |node| steps.iter().position(|s| s.release.contains(&node));
    assert_eq!(released_at(a), Some(at(b).max(at(c))));
    assert_eq!(released_at(b), Some(at(d).max(at(e))));
    assert_eq!(released_at(c), Some(at(d)));
    assert_eq!(released_at(e), Some(at(e)));
    assert_eq!(released_at(d), None);
    let dropped: usize = steps.iter().map(|s| s.release.len()).sum();
    assert_eq!(dropped, 4);

    assert_eq!(replay(&steps), vec![d]);
}

#[test]
fn schedule_keeps_what_is_retained() {
    let mut cx = Graph::new();
    let a = Graph::add_op(Op::Load(0), vec![4]).finish(&mut cx);
    let b = Graph::add_op(Op::Recip, vec![4]).input(a).finish(&mut cx);
    let c = Graph::add_op(Op::Mul, vec![4]).input(a).input(b).finish(&mut cx);
    assert!(cx.mark(a));
    assert!(cx.mark(c));
    // protection from passes alone does not retain a tensor
    assert!(cx.mark_no_delete(b));
    let steps = schedule(&cx);
    let nodes: Vec<usize> = steps.iter().map(|s| s.node).collect();
    assert_eq!(nodes, vec![a, b, c]);
    assert_eq!(steps[2].inputs, vec![a, b]);
    assert_eq!(steps[0].release, vec![]);
    assert_eq!(steps[1].release, vec![]);
    assert_eq!(steps[2].release, vec![b]);
    assert_eq!(replay(&steps), vec![a, c]);
}

#[test]
fn schedule_after_a_rewrite() {
    let mut cx = Graph::new();
    let a = Graph::add_op(Op::Load(0), vec![2, 3]).finish(&mut cx);
    let b = Graph::add_op(Op::Load(1), vec![3, 3]).finish(&mut cx);
    let p = Graph::add_op(Op::Permute(vec![1, 0]), vec![3, 3]).input(b).finish(&mut cx);
    let e1 = Graph::add_op(Op::Expand(0, 2), vec![2, 3, 3]).input(p).finish(&mut cx);
    let e2 = Graph::add_op(Op::Expand(1, 3), vec![2, 3, 3]).input(a).finish(&mut cx);
    let m = Graph::add_op(Op::Mul, vec![2, 3, 3]).input(e2).input(e1).finish(&mut cx);
    let s = Graph::add_op(Op::SumReduce(2), vec![2, 3]).input(m).finish(&mut cx);
    let out = Graph::add_op(Op::Exp2, vec![2, 3]).input(s).finish(&mut cx);
    assert!(cx.mark(out));

    let before = schedule(&cx);
    assert_eq!(before.len(), 8);
    assert_eq!(replay(&before), vec![out]);

    assert!(CPUMatMulOptimizer.optimize(&mut cx));
    let after = schedule(&cx);
    assert_eq!(after.len(), 4);
    let c = cx.remapped(s).unwrap();
    let at = |node| position(&after, node);
    assert!(at(a) < at(c) && at(b) < at(c) && at(c) < at(out));
    assert_eq!(after[at(c)].inputs, vec![a, b]);
    assert_eq!(after[at(out)].inputs, vec![c]);
    let mut gone = after[at(c)].release.clone();
    gone.sort();
    assert_eq!(gone, vec![a, b]);
    assert_eq!(after[at(out)].release, vec![c]);
    assert_eq!(replay(&after), vec![out]);
}
