use luminal::graph::Graph;
use luminal::op::Op;
use luminal::optimizers::cpu::CPUMatMul2D;
use luminal::optimizers::cpu::CPUMatMulOptimizer;
use luminal::optimizers::cpu::MatMulError;
use luminal::optimizers::cpu::MatMulPlan;
use luminal::optimizers::cpu::MatMulSite;
use luminal::optimizers::cpu::Operand;
use luminal::optimizers::GraphOptimizer;
use luminal::shape::ShapeTracker;
use luminal::stable::Node;

/// `a @ b` for `a` of shape `[m, k]` and `b` of shape `[k, n]`, spelled with
/// primitive operators. Returns the graph and the nodes
/// `[a, b, permute, expand_1, expand_2, mul, sum_reduce]`.
fn matmul_graph(m: usize, k: usize, n: usize) -> (Graph, [usize; 7]) {
    let mut cx = Graph::new();
    let a = Graph::add_op(Op::Load(0), vec![m, k]).finish(&mut cx);
    let b = Graph::add_op(Op::Load(1), vec![k, n]).finish(&mut cx);
    let rest = matmul_on(&mut cx, a, b, m, k, n);
    (cx, [a, b, rest[0], rest[1], rest[2], rest[3], rest[4]])
}

/// Adds the five nodes of `a @ b` and returns
/// `[permute, expand_1, expand_2, mul, sum_reduce]`.
fn matmul_on(cx: &mut Graph, a: usize, b: usize, m: usize, k: usize, n: usize) -> [usize; 5] {
    let permute = Graph::add_op(Op::Permute(vec![1, 0]), vec![n, k])
        .input(b)
        .finish(cx);
    let expand_1 = Graph::add_op(Op::Expand(0, m), vec![m, n, k])
        .input(permute)
        .finish(cx);
    let expand_2 = Graph::add_op(Op::Expand(1, n), vec![m, n, k])
        .input(a)
        .finish(cx);
    let mul = Graph::add_op(Op::Mul, vec![m, n, k])
        .input(expand_2)
        .input(expand_1)
        .finish(cx);
    let sum_reduce = Graph::add_op(Op::SumReduce(2), vec![m, n])
        .input(mul)
        .finish(cx);
    [permute, expand_1, expand_2, mul, sum_reduce]
}

fn ids(list: Vec<(usize, &Node)>) -> Vec<usize> {
    list.into_iter().map(|(id, _)| id).collect()
}

fn matmuls(cx: &Graph) -> Vec<usize> {
    cx.node_ids()
        .into_iter()
        .filter(|id| cx.node(*id).unwrap().op.name() == "CPUMatMul2D")
        .collect()
}

fn fresh(shape: &[usize]) -> ShapeTracker {
    ShapeTracker::new(shape.to_vec()).unwrap()
}

/// Reads an operand as the plan says: the buffer itself by origin and
/// strides, or a dense copy gathered through the tracker.
fn read(t: &ShapeTracker, data: &[f32], op: &Operand) -> Vec<f32> {
    if op.direct {
        data.to_vec()
    } else {
        (0..t.n_elements())
            .map(|i| match t.index_linear(i) {
                (offset, true) => data[offset],
                (_, false) => 0.0,
            })
            .collect()
    }
}

/// Runs a plan with a plain strided loop.
fn run(plan: &MatMulPlan, a: &[f32], b: &[f32]) -> Vec<f32> {
    let mut c = vec![0.0; plan.len];
    for i in 0..plan.m {
        for j in 0..plan.n {
            for p in 0..plan.k {
                c[i * plan.n + j] += a[plan.a.offset + i * plan.a.row_stride + p * plan.a.col_stride]
                    * b[plan.b.offset + p * plan.b.row_stride + j * plan.b.col_stride];
            }
        }
    }
    c
}

fn assert_close_data(a: &[f32], b: &[f32]) {
    assert_eq!(a.len(), b.len());
    for (x, y) in a.iter().zip(b.iter()) {
        assert!((x - y).abs() < 1e-3, "{} is not close to {}", x, y);
    }
}

#[test]
fn test_cpu_matmul_2_d() {
    let (mut cx, [a, b, permute, expand_1, expand_2, mul, sum_reduce]) = matmul_graph(2, 3, 3);
    let a_data = vec![1., 2., 3., 1., 2., 3.];
    let b_data = vec![1., 2., 3., 1., 2., 3., 1., 2., 3.];
    assert!(cx.mark(sum_reduce));

    // The primitive graph, run through the views of its nodes.
    let left = fresh(&[2, 3]).expand(1, 3).unwrap();
    let right = fresh(&[3, 3]).permute(&vec![1, 0]).expand(0, 2).unwrap();
    let mut unoptimized_c = vec![0.0; 6];
    for i in 0..2 {
        for j in 0..3 {
            for p in 0..3 {
                let (x, _) = left.index(&vec![i, j, p]);
                let (y, _) = right.index(&vec![i, j, p]);
                unoptimized_c[i * 3 + j] += a_data[x] * b_data[y];
            }
        }
    }

    assert!(CPUMatMulOptimizer::default().optimize(&mut cx));

    // Exactly one matmul node exists and the five nodes of the pattern are gone.
    assert_eq!(cx.node_ids().len(), 3);
    let found = matmuls(&cx);
    assert_eq!(found.len(), 1);
    let c = found[0];
    for gone in [permute, expand_1, expand_2, mul, sum_reduce] {
        assert!(gone == c || !cx.contains(gone));
    }
    assert_eq!(cx.node(c).unwrap().shape, vec![2, 3]);
    assert_eq!(ids(cx.get_sources(c)), vec![a, b]);
    assert_eq!(ids(cx.get_dests(a)), vec![c]);
    assert_eq!(ids(cx.get_dests(b)), vec![c]);

    // The output that was marked is now the matmul.
    assert!(cx.is_retrieved(c));
    assert!(cx.is_no_delete(c));
    assert_eq!(cx.remapped(sum_reduce), Some(c));

    // The matmul node, run as its plan says.
    let (a_view, b_view) = (fresh(&[2, 3]), fresh(&[3, 3]));
    let plan = CPUMatMul2D.plan(&a_view, 6, &b_view, 9).unwrap();
    let optimized_c = run(
        &plan,
        &read(&a_view, &a_data, &plan.a),
        &read(&b_view, &b_data, &plan.b),
    );
    assert_eq!(plan.out.shape(), cx.node(c).unwrap().shape);

    assert_close_data(&optimized_c, &unoptimized_c);
    assert_close_data(&optimized_c, &[6., 12., 18., 6., 12., 18.]);
}

#[test]
fn find_reports_the_site() {
    let (cx, [a, b, permute, expand_1, expand_2, mul, sum_reduce]) = matmul_graph(4, 5, 6);
    assert_eq!(
        CPUMatMulOptimizer::find(&cx, permute),
        Some(MatMulSite {
            permute,
            expand_1,
            mul,
            expand_2,
            sum_reduce,
            input_0: a,
            input_1: b,
        })
    );
    for other in [a, b, expand_1, expand_2, mul, sum_reduce, 99] {
        assert_eq!(CPUMatMulOptimizer::find(&cx, other), None);
    }
}

#[test]
fn apply_returns_the_new_node() {
    let (mut cx, nodes) = matmul_graph(4, 5, 6);
    let site = CPUMatMulOptimizer::find(&cx, nodes[2]).unwrap();
    let c = CPUMatMulOptimizer::apply(&mut cx, &site);
    assert_eq!(cx.node_ids().len(), 3);
    assert_eq!(cx.node(c).unwrap().op.name(), "CPUMatMul2D");
    assert_eq!(cx.node(c).unwrap().shape, vec![4, 6]);
    assert_eq!(cx.remapped(nodes[6]), Some(c));
    assert!(!cx.is_no_delete(c));
}

#[test]
fn consumers_move_to_the_matmul() {
    let (mut cx, [a, b, _, _, _, _, sum_reduce]) = matmul_graph(2, 3, 4);
    let bias = Graph::add_op(Op::Load(2), vec![2, 4]).finish(&mut cx);
    let add = Graph::add_op(Op::Add, vec![2, 4])
        .input(bias)
        .input(sum_reduce)
        .finish(&mut cx);
    let exp = Graph::add_op(Op::Exp2, vec![2, 4])
        .input(sum_reduce)
        .finish(&mut cx);
    let two = Graph::add_op(Op::Mul, vec![2, 4])
        .input(sum_reduce)
        .input(sum_reduce)
        .finish(&mut cx);
    assert!(cx.mark(add));

    assert!(CPUMatMulOptimizer.optimize(&mut cx));

    let found = matmuls(&cx);
    assert_eq!(found.len(), 1);
    let c = found[0];
    assert_eq!(ids(cx.get_sources(c)), vec![a, b]);
    assert_eq!(ids(cx.get_sources(add)), vec![bias, c]);
    assert_eq!(ids(cx.get_sources(exp)), vec![c]);
    assert_eq!(ids(cx.get_sources(two)), vec![c, c]);
    let mut readers = ids(cx.get_dests(c));
    readers.sort();
    let mut expected = vec![add, exp, two, two];
    expected.sort();
    assert_eq!(readers, expected);
    assert!(cx.is_retrieved(add));
    assert_eq!(cx.node_ids().len(), 7);

    // a second run finds nothing
    assert!(!CPUMatMulOptimizer.optimize(&mut cx));
    assert_eq!(cx.node_ids().len(), 7);
}

#[test]
fn two_products_in_one_graph() {
    let (mut cx, [a, _, _, _, _, _, first]) = matmul_graph(2, 3, 3);
    let w = Graph::add_op(Op::Load(2), vec![3, 5]).finish(&mut cx);
    let second = matmul_on(&mut cx, first, w, 2, 3, 5)[4];
    assert!(cx.mark(second));
    assert_eq!(cx.node_ids().len(), 13);

    assert!(CPUMatMulOptimizer.optimize(&mut cx));

    assert_eq!(cx.node_ids().len(), 5);
    let found = matmuls(&cx);
    assert_eq!(found.len(), 2);
    let (inner, outer) = if ids(cx.get_sources(found[0]))[0] == a {
        (found[0], found[1])
    } else {
        (found[1], found[0])
    };
    assert_eq!(ids(cx.get_sources(outer)), vec![inner, w]);
    assert_eq!(cx.node(inner).unwrap().shape, vec![2, 3]);
    assert_eq!(cx.node(outer).unwrap().shape, vec![2, 5]);
    assert!(cx.is_retrieved(outer));
    assert!(cx.contains(outer));
    assert!(!CPUMatMulOptimizer.optimize(&mut cx));
}

#[test]
fn protected_nodes_block_the_rewrite() {
    for protected in 2..6 {
        let (mut cx, nodes) = matmul_graph(2, 3, 3);
        assert!(cx.mark_no_delete(nodes[protected]));
        assert_eq!(CPUMatMulOptimizer::find(&cx, nodes[2]), None);
        assert!(!CPUMatMulOptimizer.optimize(&mut cx));
        assert_eq!(cx.node_ids().len(), 7);
        assert!(cx.contains(nodes[protected]));
    }
    // the factors and the SumReduce may be protected
    let (mut cx, nodes) = matmul_graph(2, 3, 3);
    assert!(cx.mark_no_delete(nodes[0]));
    assert!(cx.mark_no_delete(nodes[1]));
    assert!(cx.mark_no_delete(nodes[6]));
    assert!(CPUMatMulOptimizer.optimize(&mut cx));
    assert!(cx.contains(nodes[0]) && cx.contains(nodes[1]));
    assert!(cx.is_no_delete(matmuls(&cx)[0]));
}

#[test]
fn other_consumers_block_the_rewrite() {
    for shared in 2..6 {
        let (mut cx, nodes) = matmul_graph(2, 3, 3);
        let shape = cx.node(nodes[shared]).unwrap().shape.clone();
        Graph::add_op(Op::Sin, shape).input(nodes[shared]).finish(&mut cx);
        assert_eq!(CPUMatMulOptimizer::find(&cx, nodes[2]), None);
        assert!(!CPUMatMulOptimizer.optimize(&mut cx));
        assert_eq!(cx.node_ids().len(), 8);
    }
}

#[test]
fn near_misses_are_left_alone() {
    // a reduction over another axis
    let mut cx = Graph::new();
    let a = Graph::add_op(Op::Load(0), vec![2, 3]).finish(&mut cx);
    let b = Graph::add_op(Op::Load(1), vec![3, 3]).finish(&mut cx);
    let p = Graph::add_op(Op::Permute(vec![1, 0]), vec![3, 3]).input(b).finish(&mut cx);
    let e1 = Graph::add_op(Op::Expand(0, 2), vec![2, 3, 3]).input(p).finish(&mut cx);
    let e2 = Graph::add_op(Op::Expand(1, 3), vec![2, 3, 3]).input(a).finish(&mut cx);
    let m = Graph::add_op(Op::Mul, vec![2, 3, 3]).input(e2).input(e1).finish(&mut cx);
    Graph::add_op(Op::SumReduce(1), vec![2, 3]).input(m).finish(&mut cx);
    assert!(!CPUMatMulOptimizer.optimize(&mut cx));

    // a maximum in place of the sum
    let mut cx = Graph::new();
    let a = Graph::add_op(Op::Load(0), vec![2, 3]).finish(&mut cx);
    let b = Graph::add_op(Op::Load(1), vec![3, 3]).finish(&mut cx);
    let p = Graph::add_op(Op::Permute(vec![1, 0]), vec![3, 3]).input(b).finish(&mut cx);
    let e1 = Graph::add_op(Op::Expand(0, 2), vec![2, 3, 3]).input(p).finish(&mut cx);
    let e2 = Graph::add_op(Op::Expand(1, 3), vec![2, 3, 3]).input(a).finish(&mut cx);
    let m = Graph::add_op(Op::Mul, vec![2, 3, 3]).input(e2).input(e1).finish(&mut cx);
    Graph::add_op(Op::MaxReduce(2), vec![2, 3]).input(m).finish(&mut cx);
    assert!(!CPUMatMulOptimizer.optimize(&mut cx));

    // a declared shape that is not rows by columns
    let mut cx = Graph::new();
    let a = Graph::add_op(Op::Load(0), vec![2, 3]).finish(&mut cx);
    let b = Graph::add_op(Op::Load(1), vec![3, 4]).finish(&mut cx);
    let p = Graph::add_op(Op::Permute(vec![1, 0]), vec![4, 3]).input(b).finish(&mut cx);
    let e1 = Graph::add_op(Op::Expand(0, 2), vec![2, 4, 3]).input(p).finish(&mut cx);
    let e2 = Graph::add_op(Op::Expand(1, 4), vec![2, 4, 3]).input(a).finish(&mut cx);
    let m = Graph::add_op(Op::Mul, vec![2, 4, 3]).input(e2).input(e1).finish(&mut cx);
    Graph::add_op(Op::SumReduce(2), vec![4, 2]).input(m).finish(&mut cx);
    assert!(!CPUMatMulOptimizer.optimize(&mut cx));

    // a square of one expand: the Mul has no other operand
    let mut cx = Graph::new();
    let b = Graph::add_op(Op::Load(1), vec![3, 3]).finish(&mut cx);
    let p = Graph::add_op(Op::Permute(vec![1, 0]), vec![3, 3]).input(b).finish(&mut cx);
    let e1 = Graph::add_op(Op::Expand(0, 2), vec![2, 3, 3]).input(p).finish(&mut cx);
    let m = Graph::add_op(Op::Mul, vec![2, 3, 3]).input(e1).input(e1).finish(&mut cx);
    Graph::add_op(Op::SumReduce(2), vec![2, 3]).input(m).finish(&mut cx);
    assert!(!CPUMatMulOptimizer.optimize(&mut cx));
    assert_eq!(cx.node_ids().len(), 5);

    // wrong ranks
    let mut cx = Graph::new();
    let a = Graph::add_op(Op::Load(0), vec![2, 3]).finish(&mut cx);
    let b = Graph::add_op(Op::Load(1), vec![1, 3, 3]).finish(&mut cx);
    let p = Graph::add_op(Op::Permute(vec![0, 2, 1]), vec![1, 3, 3]).input(b).finish(&mut cx);
    let e1 = Graph::add_op(Op::Expand(0, 2), vec![2, 3, 3]).input(p).finish(&mut cx);
    let e2 = Graph::add_op(Op::Expand(1, 3), vec![2, 3, 3]).input(a).finish(&mut cx);
    let m = Graph::add_op(Op::Mul, vec![2, 3, 3]).input(e2).input(e1).finish(&mut cx);
    Graph::add_op(Op::SumReduce(2), vec![2, 3]).input(m).finish(&mut cx);
    assert!(!CPUMatMulOptimizer.optimize(&mut cx));

    // an empty graph
    assert!(!CPUMatMulOptimizer.optimize(&mut Graph::new()));
}

#[test]
fn matmul_name() {
    assert_eq!(CPUMatMul2D.name(), "CPUMatMul2D");
    assert_eq!(Op::CPUMatMul2D.name(), "CPUMatMul2D");
}

#[test]
fn plan_of_dense_operands() {
    let plan = CPUMatMul2D.plan(&fresh(&[2, 3]), 6, &fresh(&[3, 4]), 12).unwrap();
    assert_eq!((plan.m, plan.k, plan.n, plan.len), (2, 3, 4, 8));
    assert_eq!(
        plan.a,
        Operand { direct: true, offset: 0, row_stride: 3, col_stride: 1 }
    );
    assert_eq!(
        plan.b,
        Operand { direct: true, offset: 0, row_stride: 4, col_stride: 1 }
    );
    assert_eq!(plan.out.shape(), vec![2, 4]);
    assert!(plan.out.is_contiguous());
    assert_eq!(plan.out.size(), 8);
}

#[test]
fn plan_reads_views_by_stride() {
    // b is stored as its transpose, and a is a slice of a larger matrix
    let a_view = fresh(&[4, 3]).slice(&vec![(1, 3), (0, 3)]);
    let b_view = fresh(&[4, 3]).permute(&vec![1, 0]);
    let plan = CPUMatMul2D.plan(&a_view, 12, &b_view, 12).unwrap();
    assert_eq!((plan.m, plan.k, plan.n), (2, 3, 4));
    assert_eq!(
        plan.a,
        Operand { direct: true, offset: 3, row_stride: 3, col_stride: 1 }
    );
    assert_eq!(
        plan.b,
        Operand { direct: true, offset: 0, row_stride: 1, col_stride: 3 }
    );
    let a_data: Vec<f32> = (0..12).map(|x| x as f32).collect();
    let b_data: Vec<f32> = (0..12).map(|x| (x % 5) as f32).collect();
    let c = run(&plan, &a_data, &b_data);
    // a = [[3,4,5],[6,7,8]], b[p][j] = b_data[j*3 + p]
    let mut expected = vec![0.0; 8];
    for i in 0..2 {
        for j in 0..4 {
            for p in 0..3 {
                expected[i * 4 + j] += a_data[3 + i * 3 + p] * b_data[j * 3 + p];
            }
        }
    }
    assert_close_data(&c, &expected);
    assert_close_data(&c[0..4], &[14., 25., 26., 17.]);
}

#[test]
fn plan_gathers_what_strides_cannot_read() {
    // padding, and a view stacked by a reshape
    let a_view = fresh(&[1, 2]).pad(&vec![(0, 1), (1, 0)]).unwrap();
    let b_view = fresh(&[2, 3])
        .permute(&vec![1, 0])
        .reshape(vec![3, 2])
        .unwrap()
        .slice(&vec![(0, 3), (0, 2)]);
    let a_data = vec![5., 7.];
    let b_data = vec![1., 2., 3., 4., 5., 6.];
    let plan = CPUMatMul2D.plan(&a_view, 2, &b_view, 6).unwrap();
    assert_eq!((plan.m, plan.k, plan.n), (2, 3, 2));
    assert_eq!(
        plan.a,
        Operand { direct: false, offset: 0, row_stride: 3, col_stride: 1 }
    );
    assert_eq!(
        plan.b,
        Operand { direct: false, offset: 0, row_stride: 2, col_stride: 1 }
    );
    let a = read(&a_view, &a_data, &plan.a);
    let b = read(&b_view, &b_data, &plan.b);
    assert_eq!(a, vec![0., 5., 7., 0., 0., 0.]);
    assert_eq!(b, vec![1., 4., 2., 5., 3., 6.]);
    assert_close_data(&run(&plan, &a, &b), &[31., 67., 0., 0.]);
}

#[test]
fn plan_of_single_rows_and_columns() {
    // a stride that no second coordinate ever uses is given as zero
    let a_view = fresh(&[1, 3]);
    let b_view = fresh(&[3, 1]);
    let plan = CPUMatMul2D.plan(&a_view, 3, &b_view, 3).unwrap();
    assert_eq!(
        plan.a,
        Operand { direct: true, offset: 0, row_stride: 0, col_stride: 1 }
    );
    assert_eq!(
        plan.b,
        Operand { direct: true, offset: 0, row_stride: 1, col_stride: 0 }
    );
    assert_close_data(&run(&plan, &[1., 2., 3.], &[4., 5., 6.]), &[32.]);
}

#[test]
fn plan_of_empty_products() {
    let plan = CPUMatMul2D.plan(&fresh(&[0, 3]), 0, &fresh(&[3, 4]), 12).unwrap();
    assert_eq!((plan.m, plan.k, plan.n, plan.len), (0, 3, 4, 0));
    assert_eq!(plan.out.shape(), vec![0, 4]);
    assert_eq!(run(&plan, &[], &[0.0; 12]), Vec::<f32>::new());
    let plan = CPUMatMul2D.plan(&fresh(&[2, 0]), 0, &fresh(&[0, 2]), 0).unwrap();
    assert_eq!((plan.m, plan.k, plan.n, plan.len), (2, 0, 2, 4));
    assert_eq!(run(&plan, &[], &[]), vec![0.0; 4]);
}

#[test]
fn plan_errors() {
    let m23 = fresh(&[2, 3]);
    let m33 = fresh(&[3, 3]);
    assert!(matches!(
        CPUMatMul2D.plan(&m23, 6, &m23, 6),
        Err(MatMulError::IncompatibleShape)
    ));
    assert!(matches!(
        CPUMatMul2D.plan(&fresh(&[6]), 6, &m33, 9),
        Err(MatMulError::IncompatibleShape)
    ));
    assert!(matches!(
        CPUMatMul2D.plan(&m23, 6, &fresh(&[3, 3, 1]), 9),
        Err(MatMulError::IncompatibleShape)
    ));
    assert!(matches!(
        CPUMatMul2D.plan(&m23, 5, &m33, 9),
        Err(MatMulError::BufferTooShort)
    ));
    assert!(matches!(
        CPUMatMul2D.plan(&m23, 6, &m33, 8),
        Err(MatMulError::BufferTooShort)
    ));
    let tall = fresh(&[usize::MAX, 0]);
    let wide = fresh(&[0, usize::MAX]);
    assert!(matches!(
        CPUMatMul2D.plan(&tall, 0, &wide, 0),
        Err(MatMulError::TooLarge)
    ));
}

#[test]
fn plan_of_transposed_operands() {
    let (m, k, n) = (8, 5, 6);
    let value = |seed: usize, i: usize| ((seed * 31 + i * 7) % 11) as f32 - 5.0;
    // a as [m, k] and as [k, m]; b as [k, n] and as [n, k]
    let a_data: Vec<f32> = (0..m * k).map(|i| value(1, i)).collect();
    let a_t_data: Vec<f32> = (0..k * m).map(|i| value(2, i)).collect();
    let b_data: Vec<f32> = (0..k * n).map(|i| value(3, i)).collect();
    let b_t_data: Vec<f32> = (0..n * k).map(|i| value(4, i)).collect();
    let swap = vec![1, 0];
    let cases = [
        (fresh(&[m, k]), &a_data, false, fresh(&[k, n]), &b_data, false),
        (fresh(&[m, k]), &a_data, false, fresh(&[n, k]).permute(&swap), &b_t_data, true),
        (fresh(&[k, m]).permute(&swap), &a_t_data, true, fresh(&[k, n]), &b_data, false),
        (fresh(&[k, m]).permute(&swap), &a_t_data, true, fresh(&[n, k]).permute(&swap), &b_t_data, true),
    ];
    for (a_view, a, a_swapped, b_view, b, b_swapped) in cases {
        let plan = CPUMatMul2D.plan(&a_view, a.len(), &b_view, b.len()).unwrap();
        assert_eq!((plan.m, plan.k, plan.n), (m, k, n));
        assert!(plan.a.direct && plan.b.direct);
        let got = run(&plan, a, b);
        let mut expected = vec![0.0; m * n];
        for i in 0..m {
            for j in 0..n {
                for p in 0..k {
                    let x = if a_swapped { a[p * m + i] } else { a[i * k + p] };
                    let y = if b_swapped { b[j * k + p] } else { b[p * n + j] };
                    expected[i * n + j] += x * y;
                }
            }
        }
        assert_close_data(&got, &expected);
    }
}

#[test]
fn matmul_of_256_matches_reference() {
    // deterministic data in [-1, 1)
    let mut state: u32 = 0x2545_f491;
    let mut next = move || {
        state = state.wrapping_mul(1_664_525).wrapping_add(1_013_904_223);
        ((state >> 8) as f32) / ((1u32 << 23) as f32) - 1.0
    };
    let n = 256;
    let a_data: Vec<f32> = (0..n * n).map(|_| next()).collect();
    let b_data: Vec<f32> = (0..n * n).map(|_| next()).collect();

    // b is handed over as the transpose of what is stored
    let a_view = fresh(&[n, n]);
    let b_view = fresh(&[n, n]).permute(&vec![1, 0]);
    let plan = CPUMatMul2D.plan(&a_view, n * n, &b_view, n * n).unwrap();
    assert_eq!((plan.m, plan.k, plan.n, plan.len), (n, n, n, n * n));
    let c = run(&plan, &a_data, &b_data);

    for i in (0..n).step_by(17) {
        for j in (0..n).step_by(13) {
            let mut exact = 0.0f64;
            for p in 0..n {
                exact += a_data[i * n + p] as f64 * b_data[j * n + p] as f64;
            }
            let got = c[i * n + j] as f64;
            assert!(
                (got - exact).abs() <= 1e-4 * exact.abs().max(1.0),
                "c[{}][{}] = {} but the reference is {}",
                i,
                j,
                got,
                exact
            );
        }
    }
}
