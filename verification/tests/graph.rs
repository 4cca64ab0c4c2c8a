use luminal::graph::sort_by_slot;
use luminal::graph::Graph;
use luminal::op::Op;
use luminal::op::OpType;
use luminal::remap::RemapTable;
use luminal::shape::ShapeError;
use luminal::shape::ShapeTracker;
use luminal::stable::Edge;
use luminal::stable::Node;
use luminal::stable::Way;

fn names(list: Vec<(usize, &Node)>) -> Vec<(usize, &'static str)> {
    list.into_iter().map(|(id, w)| (id, w.op.name())).collect()
}

#[test]
fn op_names_and_tags() {
    assert_eq!(Op::Permute(vec![1, 0]).name(), "Permute");
    assert_eq!(Op::Expand(0, 3).name(), "Expand");
    assert_eq!(Op::Mul.name(), "Mul");
    assert_eq!(Op::SumReduce(2).name(), "SumReduce");
    assert_eq!(Op::Constant(0x3f80_0000).name(), "Constant");
    assert_eq!(Op::LessThan.name(), "LessThan");
    assert_eq!(Op::Load(3).type_tag(), OpType::Load);
    assert_eq!(Op::Arange(4).type_tag(), OpType::Constant);
    assert_eq!(Op::Recip.type_tag(), OpType::Arith);
    assert_eq!(Op::Mod.type_tag(), OpType::Arith);
    assert_eq!(Op::MaxReduce(0).type_tag(), OpType::Reduce);
    assert_eq!(Op::Pad(vec![(1, 1)]).type_tag(), OpType::View);
    assert_eq!(Op::CPUMatMul2D.type_tag(), OpType::CustomKernel);
}

#[test]
fn new_graph_is_empty() {
    let cx = Graph::new();
    assert_eq!(cx.node_ids(), Vec::<usize>::new());
    assert!(!cx.contains(0));
    assert!(cx.node(0).is_none());
    assert!(!cx.is_no_delete(0));
    assert!(!cx.is_retrieved(0));
    assert_eq!(cx.remapped(0), None);
}

#[test]
fn add_op_binds_slots_in_order() {
    let mut cx = Graph::new();
    let a = Graph::add_op(Op::Load(0), vec![4]).finish(&mut cx);
    let b = Graph::add_op(Op::Load(1), vec![4]).finish(&mut cx);
    let c = Graph::add_op(Op::Load(2), vec![4]).finish(&mut cx);
    let m = Graph::add_op(Op::Max, vec![4])
        .input(c)
        .input(a)
        .finish(&mut cx);
    let s = Graph::add_op(Op::Add, vec![4])
        .input(m)
        .input(b)
        .input(a)
        .finish(&mut cx);
    assert_eq!(cx.node_ids(), vec![a, b, c, m, s]);
    assert_eq!(cx.node(m).unwrap().shape, vec![4]);
    assert_eq!(names(cx.get_sources(m)), vec![(c, "Load"), (a, "Load")]);
    assert_eq!(
        names(cx.get_sources(s)),
        vec![(m, "Max"), (b, "Load"), (a, "Load")]
    );
    assert_eq!(names(cx.get_sources(a)), vec![]);
    // a is read through slot 1 of m and slot 2 of s
    assert_eq!(names(cx.get_dests(a)), vec![(m, "Max"), (s, "Add")]);
    assert_eq!(names(cx.get_dests(s)), vec![]);
    assert_eq!(names(cx.get_dests(99)), vec![]);

    let into_s = cx.edges_at(s, Way::Incoming);
    let edges: Vec<Edge> = into_s.iter().map(|(_, e)| *e).collect();
    assert_eq!(
        edges,
        vec![
            Edge { source: m, target: s, slot: 0 },
            Edge { source: b, target: s, slot: 1 },
            Edge { source: a, target: s, slot: 2 },
        ]
    );
    let out_of_a = cx.edges_at(a, Way::Outgoing);
    assert_eq!(out_of_a.len(), 2);
    assert_ne!(out_of_a[0].0, out_of_a[1].0);
}

#[test]
fn sort_by_slot_is_stable() {
    let e = |source: usize, slot: u8| Edge { source, target: 9, slot };
    let list = vec![
        (10, e(0, 2)),
        (11, e(1, 0)),
        (12, e(2, 2)),
        (13, e(3, 255)),
        (14, e(4, 0)),
        (15, e(5, 1)),
    ];
    assert_eq!(
        sort_by_slot(&list),
        vec![
            (11, e(1, 0)),
            (14, e(4, 0)),
            (15, e(5, 1)),
            (10, e(0, 2)),
            (12, e(2, 2)),
            (13, e(3, 255)),
        ]
    );
    assert_eq!(sort_by_slot(&vec![]), vec![]);
}

#[test]
fn marking() {
    let mut cx = Graph::new();
    let a = Graph::add_op(Op::Load(0), vec![4]).finish(&mut cx);
    let b = Graph::add_op(Op::Exp2, vec![4]).input(a).finish(&mut cx);
    assert!(cx.mark_no_delete(a));
    assert!(cx.is_no_delete(a));
    assert!(!cx.is_retrieved(a));
    assert!(cx.mark(b));
    assert!(cx.is_no_delete(b));
    assert!(cx.is_retrieved(b));
    assert!(!cx.mark(17));
    assert!(!cx.mark_no_delete(17));
    assert!(!cx.is_no_delete(17));
    assert!(!cx.is_retrieved(17));
}

#[test]
fn move_references_moves_all_three() {
    let mut cx = Graph::new();
    let a = Graph::add_op(Op::Load(0), vec![4]).finish(&mut cx);
    let b = Graph::add_op(Op::Exp2, vec![4]).input(a).finish(&mut cx);
    let c = Graph::add_op(Op::Log2, vec![4]).input(a).finish(&mut cx);
    let d = Graph::add_op(Op::Sin, vec![4]).input(a).finish(&mut cx);
    assert!(cx.mark(b));
    assert!(cx.mark_no_delete(c));

    cx.move_references(b, d);
    assert_eq!(cx.remapped(b), Some(d));
    assert!(!cx.is_retrieved(b) && !cx.is_no_delete(b));
    assert!(cx.is_retrieved(d) && cx.is_no_delete(d));

    cx.move_references(c, a);
    assert_eq!(cx.remapped(c), Some(a));
    assert!(!cx.is_no_delete(c));
    assert!(cx.is_no_delete(a));
    assert!(!cx.is_retrieved(a));

    // a node that nothing refers to leaves the sets alone
    let e = Graph::add_op(Op::Sqrt, vec![4]).input(a).finish(&mut cx);
    cx.move_references(e, b);
    assert_eq!(cx.remapped(e), Some(b));
    assert!(!cx.is_no_delete(b) && !cx.is_retrieved(b));
}

#[test]
fn remap_follows_later_replacements() {
    let mut cx = Graph::new();
    let mut ids = vec![];
    for i in 0..6 {
        ids.push(Graph::add_op(Op::Load(i), vec![1]).finish(&mut cx));
    }
    assert!(cx.mark(ids[0]));
    // 0 gives way to 1, then 1 to 2: whoever asks for 0 or 1 finds 2
    cx.move_references(ids[0], ids[1]);
    assert_eq!(cx.remapped(ids[0]), Some(ids[1]));
    cx.move_references(ids[1], ids[2]);
    assert_eq!(cx.remapped(ids[0]), Some(ids[2]));
    assert_eq!(cx.remapped(ids[1]), Some(ids[2]));
    assert_eq!(cx.remapped(ids[2]), None);
    assert!(cx.is_retrieved(ids[2]) && !cx.is_retrieved(ids[1]) && !cx.is_retrieved(ids[0]));
    // an unrelated replacement changes nothing of that
    cx.move_references(ids[3], ids[4]);
    assert_eq!(cx.remapped(ids[0]), Some(ids[2]));
    assert_eq!(cx.remapped(ids[3]), Some(ids[4]));
    // an index that the table knows keeps its first meaning when the node
    // that has it now gives way: 0 still stands for what it was, now at 5
    cx.move_references(ids[2], ids[0]);
    assert_eq!(cx.remapped(ids[1]), Some(ids[0]));
    assert_eq!(cx.remapped(ids[0]), Some(ids[0]));
    cx.move_references(ids[0], ids[5]);
    assert_eq!(cx.remapped(ids[0]), Some(ids[5]));
    assert_eq!(cx.remapped(ids[1]), Some(ids[5]));
    assert_eq!(cx.remapped(ids[2]), Some(ids[5]));
    assert!(cx.is_retrieved(ids[5]));
}

#[test]
fn view_operators_transform_trackers() {
    let input = ShapeTracker::new(vec![2, 3]).unwrap();
    let through = |op: Op| op.transform(&input);

    let t = through(Op::Permute(vec![1, 0])).unwrap().unwrap();
    assert_eq!((t.shape(), t.strides()), (vec![3, 2], vec![1, 3]));
    let t = through(Op::Expand(1, 4)).unwrap().unwrap();
    assert_eq!((t.shape(), t.strides()), (vec![2, 4, 3], vec![3, 0, 1]));
    let t = through(Op::Reshape(vec![6])).unwrap().unwrap();
    assert_eq!((t.shape(), t.depth()), (vec![6], 1));
    let t = through(Op::Slice(vec![(1, 2), (0, 2)])).unwrap().unwrap();
    assert_eq!((t.shape(), t.offset()), (vec![1, 2], 3));
    let t = through(Op::Pad(vec![(1, 0), (0, 1)])).unwrap().unwrap();
    assert_eq!(t.shape(), vec![3, 4]);
    assert_eq!(t.index(&vec![0, 0]), (0, false));
    let t = through(Op::Contiguous).unwrap().unwrap();
    assert_eq!((t.shape(), t.depth()), (vec![2, 3], 1));
    let permuted = input.permute(&vec![1, 0]);
    let t = Op::Contiguous.transform(&permuted).unwrap().unwrap();
    assert_eq!((t.shape(), t.depth()), (vec![3, 2], 2));

    // operators that compute have no tracker of their own
    assert!(through(Op::Add).unwrap().is_none());
    assert!(through(Op::SumReduce(1)).unwrap().is_none());
    assert!(through(Op::Load(0)).unwrap().is_none());
    assert!(through(Op::CPUMatMul2D).unwrap().is_none());

    // operators that do not fit
    let fails = |op: Op| through(op).err();
    assert_eq!(fails(Op::Permute(vec![0, 0])), Some(ShapeError::IncompatibleShape));
    assert_eq!(fails(Op::Permute(vec![0, 1, 2])), Some(ShapeError::IncompatibleShape));
    assert_eq!(fails(Op::Expand(3, 2)), Some(ShapeError::IncompatibleShape));
    assert_eq!(fails(Op::Expand(0, usize::MAX)), Some(ShapeError::TooLarge));
    assert_eq!(fails(Op::Reshape(vec![5])), Some(ShapeError::IncompatibleReshape));
    assert_eq!(fails(Op::Slice(vec![(0, 3), (0, 3)])), Some(ShapeError::IncompatibleShape));
    assert_eq!(fails(Op::Slice(vec![(0, 1)])), Some(ShapeError::IncompatibleShape));
    assert_eq!(fails(Op::Pad(vec![(0, 1)])), Some(ShapeError::IncompatibleShape));
    assert_eq!(
        fails(Op::Pad(vec![(usize::MAX, 1), (0, 0)])),
        Some(ShapeError::TooLarge)
    );
}

#[test]
fn remap_table() {
    let mut table = RemapTable::new();
    assert_eq!(table.get(3), None);
    table.redirect(3, 8);
    table.redirect(4, 3);
    assert_eq!(table.get(3), Some(8));
    assert_eq!(table.get(4), Some(3));
    assert_eq!(table.get(8), None);
    // 8 gives way to 9: what led to 8 leads to 9
    table.redirect(8, 9);
    assert_eq!(table.get(3), Some(9));
    assert_eq!(table.get(8), Some(9));
    assert_eq!(table.get(4), Some(3));
    // the index 3 is known: its entry stays, and what led to 3 moves on
    table.redirect(3, 5);
    assert_eq!(table.get(3), Some(9));
    assert_eq!(table.get(4), Some(5));
    let copy = table.duplicate();
    table.redirect(9, 1);
    assert_eq!(copy.get(3), Some(9));
    assert_eq!(table.get(3), Some(1));
}
