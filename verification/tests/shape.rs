use luminal::shape::check_permutation;
use luminal::shape::checked_capacity;
use luminal::shape::count;
use luminal::shape::row_major;
use luminal::shape::unravel_index;
use luminal::shape::ShapeError;
use luminal::shape::ShapeTracker;

fn fresh(shape: &[usize]) -> ShapeTracker {
    ShapeTracker::new(shape.to_vec()).unwrap()
}

/// The physical offsets of all logical elements in row-major order, with
/// `None` for padding.
fn layout(t: &ShapeTracker) -> Vec<Option<usize>> {
    (0..t.n_elements())
        .map(|i| {
            let (offset, valid) = t.index_linear(i);
            if valid {
                Some(offset)
            } else {
                None
            }
        })
        .collect()
}

fn same(a: &ShapeTracker, b: &ShapeTracker) -> bool {
    a.depth() == b.depth()
        && a.size() == b.size()
        && a.shape() == b.shape()
        && a.strides() == b.strides()
        && a.offset() == b.offset()
        && layout(a) == layout(b)
}

#[test]
fn capacity_and_count() {
    assert_eq!(checked_capacity(&vec![2, 3, 4]), Some(24));
    assert_eq!(checked_capacity(&vec![]), Some(1));
    assert_eq!(checked_capacity(&vec![5, 0, 7]), Some(35));
    assert_eq!(checked_capacity(&vec![usize::MAX, 2]), None);
    assert_eq!(checked_capacity(&vec![0, usize::MAX, 2]), None);
    assert_eq!(count(&vec![2, 3, 4]), 24);
    assert_eq!(count(&vec![5, 0, 7]), 0);
    assert_eq!(count(&vec![]), 1);
}

#[test]
fn row_major_strides() {
    assert_eq!(row_major(&vec![2, 3, 4]), vec![12, 4, 1]);
    assert_eq!(row_major(&vec![7]), vec![1]);
    assert_eq!(row_major(&vec![]), Vec::<usize>::new());
    assert_eq!(row_major(&vec![3, 0, 2]), vec![0, 2, 1]);
}

#[test]
fn unravel_is_row_major() {
    assert_eq!(unravel_index(&vec![2, 3, 4], 0), vec![0, 0, 0]);
    assert_eq!(unravel_index(&vec![2, 3, 4], 23), vec![1, 2, 3]);
    assert_eq!(unravel_index(&vec![2, 3, 4], 17), vec![1, 1, 1]);
    assert_eq!(unravel_index(&vec![], 0), Vec::<usize>::new());
}

#[test]
fn new_tracker_is_dense() {
    let t = fresh(&[2, 3]);
    assert_eq!(t.shape(), vec![2, 3]);
    assert_eq!(t.strides(), vec![3, 1]);
    assert_eq!(t.offset(), 0);
    assert_eq!(t.size(), 6);
    assert_eq!(t.depth(), 1);
    assert_eq!(t.n_elements(), 6);
    assert!(t.is_contiguous());
    assert_eq!(t.index(&vec![1, 2]), (5, true));
    assert_eq!(t.index(&vec![0, 0]), (0, true));
}

#[test]
fn new_rejects_what_cannot_be_counted() {
    assert!(matches!(
        ShapeTracker::new(vec![usize::MAX, 2]),
        Err(ShapeError::TooLarge)
    ));
    assert!(matches!(
        ShapeTracker::new(vec![0, usize::MAX, 2]),
        Err(ShapeError::TooLarge)
    ));
    assert!(ShapeTracker::new(vec![usize::MAX, 0]).is_ok());
}

#[test]
fn contiguous_index_is_linear() {
    let t = fresh(&[3, 4, 5]);
    let n = t.n_elements();
    assert_eq!(n, 60);
    for i in 0..n {
        assert_eq!(t.index_linear(i), (i, true));
    }
    // linearize(c) for c = [2, 1, 3] is 2*20 + 1*5 + 3
    assert_eq!(t.index(&vec![2, 1, 3]), (48, true));
}

#[test]
fn every_offset_is_inside_the_buffer() {
    let t = fresh(&[2, 3])
        .permute(&vec![1, 0])
        .expand(1, 4)
        .unwrap()
        .pad(&vec![(1, 0), (0, 2), (1, 1)])
        .unwrap()
        .reshape(vec![6, 16])
        .unwrap()
        .slice(&vec![(1, 6), (2, 15)]);
    assert_eq!(t.shape(), vec![5, 13]);
    let mut seen_data = false;
    let mut seen_padding = false;
    for (offset, valid) in (0..t.n_elements()).map(|i| t.index_linear(i)) {
        if valid {
            assert!(offset < t.size());
            seen_data = true;
        } else {
            assert_eq!(offset, 0);
            seen_padding = true;
        }
    }
    assert!(seen_data && seen_padding);
}

#[test]
fn permute_swaps_axes() {
    let t = fresh(&[2, 3]).permute(&vec![1, 0]);
    assert_eq!(t.shape(), vec![3, 2]);
    assert_eq!(t.strides(), vec![1, 3]);
    assert_eq!(t.depth(), 1);
    assert!(!t.is_contiguous());
    assert_eq!(t.index(&vec![2, 1]), (5, true));
    assert_eq!(
        layout(&t),
        vec![Some(0), Some(3), Some(1), Some(4), Some(2), Some(5)]
    );
}

#[test]
fn permute_then_inverse_is_identity() {
    let t = fresh(&[2, 3, 4]).expand(1, 5).unwrap();
    // inverse of [2, 0, 3, 1] is [1, 3, 0, 2]
    let there = t.permute(&vec![2, 0, 3, 1]);
    assert_eq!(there.shape(), vec![3, 2, 4, 5]);
    let back = there.permute(&vec![1, 3, 0, 2]);
    assert!(same(&back, &t));
    assert!(!same(&there, &t));
}

#[test]
fn expand_repeats_along_the_new_axis() {
    let t = fresh(&[2, 3]).expand(0, 4).unwrap();
    assert_eq!(t.shape(), vec![4, 2, 3]);
    assert_eq!(t.strides(), vec![0, 3, 1]);
    assert_eq!(t.size(), 6);
    for x in 0..4 {
        assert_eq!(t.index(&vec![x, 1, 2]), (5, true));
        assert_eq!(t.index(&vec![x, 0, 1]), (1, true));
    }
    let end = fresh(&[2, 3]).expand(2, 2).unwrap();
    assert_eq!(end.shape(), vec![2, 3, 2]);
    assert_eq!(end.strides(), vec![3, 1, 0]);
}

#[test]
fn expand_rejects_what_cannot_be_counted() {
    let t = fresh(&[2, 3]);
    assert!(matches!(
        t.expand(0, usize::MAX),
        Err(ShapeError::TooLarge)
    ));
    assert!(t.expand(0, usize::MAX / 6).is_ok());
    assert!(t.expand(1, 0).is_ok());
}

#[test]
fn slice_moves_the_origin() {
    let t = fresh(&[4, 3]).slice(&vec![(1, 3), (1, 3)]);
    assert_eq!(t.shape(), vec![2, 2]);
    assert_eq!(t.strides(), vec![3, 1]);
    assert_eq!(t.offset(), 4);
    assert_eq!(layout(&t), vec![Some(4), Some(5), Some(7), Some(8)]);
}

#[test]
fn empty_slice_has_a_zero_length_axis() {
    let t = fresh(&[4, 3]).slice(&vec![(2, 2), (0, 3)]);
    assert_eq!(t.shape(), vec![0, 3]);
    assert_eq!(t.n_elements(), 0);
    assert_eq!(layout(&t), vec![]);
    // emptiness goes through the other operations
    let p = t.permute(&vec![1, 0]);
    assert_eq!(p.shape(), vec![3, 0]);
    assert_eq!(p.n_elements(), 0);
    let e = p.expand(0, 7).unwrap();
    assert_eq!(e.shape(), vec![7, 3, 0]);
    assert_eq!(e.n_elements(), 0);
    let r = e.reshape(vec![0]).unwrap();
    assert_eq!(r.shape(), vec![0]);
    let q = r.pad(&vec![(0, 0)]).unwrap();
    assert_eq!(q.n_elements(), 0);
    assert_eq!(q.contiguous().n_elements(), 0);
}

#[test]
fn pad_marks_padding() {
    let t = fresh(&[2, 3]).pad(&vec![(1, 1), (0, 2)]).unwrap();
    assert_eq!(t.shape(), vec![4, 5]);
    assert_eq!(t.strides(), vec![3, 1]);
    assert_eq!(t.index(&vec![0, 0]), (0, false));
    assert_eq!(t.index(&vec![1, 0]), (0, true));
    assert_eq!(t.index(&vec![2, 2]), (5, true));
    assert_eq!(t.index(&vec![1, 3]), (0, false));
    assert_eq!(t.index(&vec![3, 1]), (0, false));
    assert!(!t.is_contiguous());
}

#[test]
fn pad_rejects_what_cannot_be_counted() {
    let t = fresh(&[2, 3]);
    assert!(matches!(
        t.pad(&vec![(usize::MAX, 0), (0, 0)]),
        Err(ShapeError::TooLarge)
    ));
    assert!(matches!(
        t.pad(&vec![(usize::MAX / 2, 0), (0, 0)]),
        Err(ShapeError::TooLarge)
    ));
}

#[test]
fn slice_of_padding() {
    let t = fresh(&[2, 3])
        .pad(&vec![(1, 1), (0, 2)])
        .unwrap()
        .slice(&vec![(0, 3), (1, 4)]);
    assert_eq!(t.shape(), vec![3, 3]);
    assert_eq!(
        layout(&t),
        vec![
            None,
            None,
            None,
            Some(1),
            Some(2),
            None,
            Some(4),
            Some(5),
            None
        ]
    );
    // a slice that lies in the padding alone
    let p = fresh(&[2, 3])
        .pad(&vec![(2, 0), (0, 0)])
        .unwrap()
        .slice(&vec![(0, 2), (0, 3)]);
    assert_eq!(layout(&p), vec![None; 6]);
}

#[test]
fn reshape_of_contiguous_replaces_the_view() {
    let t = fresh(&[2, 3]).reshape(vec![3, 2]).unwrap();
    assert_eq!(t.depth(), 1);
    assert_eq!(t.shape(), vec![3, 2]);
    assert_eq!(t.strides(), vec![2, 1]);
    assert!(t.is_contiguous());
    assert_eq!(layout(&t), (0..6).map(Some).collect::<Vec<_>>());
}

#[test]
fn reshape_round_trip() {
    let t = fresh(&[4, 6]).slice(&vec![(1, 3), (0, 6)]);
    assert!(t.is_contiguous());
    let there = t.reshape(vec![3, 2, 2]).unwrap();
    assert_eq!(there.offset(), 6);
    let back = there.reshape(vec![2, 6]).unwrap();
    assert!(same(&back, &t));
}

#[test]
fn reshape_of_permuted_stacks_a_view() {
    let t = fresh(&[2, 3]).permute(&vec![1, 0]).reshape(vec![6]).unwrap();
    assert_eq!(t.depth(), 2);
    assert_eq!(t.shape(), vec![6]);
    assert!(t.is_contiguous());
    assert_eq!(
        layout(&t),
        vec![Some(0), Some(3), Some(1), Some(4), Some(2), Some(5)]
    );
    let u = t.reshape(vec![2, 3]).unwrap();
    assert_eq!(u.depth(), 2);
    assert_eq!(u.index(&vec![1, 0]), (4, true));
}

#[test]
fn reshape_rejects_another_element_count() {
    let t = fresh(&[2, 3]);
    assert!(matches!(
        t.reshape(vec![4, 2]),
        Err(ShapeError::IncompatibleReshape)
    ));
    assert!(matches!(
        t.reshape(vec![usize::MAX, 2]),
        Err(ShapeError::IncompatibleReshape)
    ));
    let empty = fresh(&[0, 3]);
    assert!(matches!(
        empty.reshape(vec![0, usize::MAX, 2]),
        Err(ShapeError::TooLarge)
    ));
    assert!(matches!(
        empty.reshape(vec![1]),
        Err(ShapeError::IncompatibleReshape)
    ));
    assert!(empty.reshape(vec![5, 0]).is_ok());
}

#[test]
fn contiguous_stacks_a_dense_view() {
    let t = fresh(&[2, 3]).permute(&vec![1, 0]).expand(0, 2).unwrap();
    assert!(!t.is_contiguous());
    let c = t.contiguous();
    assert_eq!(c.shape(), vec![2, 3, 2]);
    assert_eq!(c.size(), 6);
    assert_eq!(c.depth(), 2);
    assert!(c.is_contiguous());
    assert_eq!(c.strides(), vec![6, 2, 1]);
    assert_eq!(layout(&c), layout(&t));
    assert_eq!(c.index(&vec![1, 2, 1]), (5, true));
    // a contiguous tracker stays as it is
    let d = fresh(&[4, 6]).slice(&vec![(1, 3), (0, 6)]);
    assert!(same(&d.contiguous(), &d));
    assert!(same(&c.contiguous(), &c));
}

#[test]
fn enlarge_repeats_along_the_axis() {
    let t = fresh(&[2, 1, 3]).enlarge(1, 4).unwrap();
    assert_eq!(t.shape(), vec![2, 4, 3]);
    assert_eq!(t.strides(), vec![3, 0, 1]);
    assert_eq!(t.size(), 6);
    for x in 0..4 {
        assert_eq!(t.index(&vec![1, x, 2]), (5, true));
        assert_eq!(t.index(&vec![0, x, 1]), (1, true));
    }
    // each stored element is read as many times as the axis is long
    let mut reads = vec![0; 6];
    for (offset, valid) in (0..t.n_elements()).map(|i| t.index_linear(i)) {
        assert!(valid);
        reads[offset] += 1;
    }
    assert_eq!(reads, vec![4; 6]);
    // an axis that is all padding stays padding
    let p = fresh(&[0, 3])
        .pad(&vec![(1, 0), (0, 0)])
        .unwrap()
        .enlarge(0, 2)
        .unwrap();
    assert_eq!(p.shape(), vec![2, 3]);
    assert_eq!(layout(&p), vec![None; 6]);
    assert!(matches!(
        fresh(&[2, 1]).enlarge(1, usize::MAX),
        Err(ShapeError::TooLarge)
    ));
    assert_eq!(fresh(&[2, 1]).enlarge(1, 0).unwrap().n_elements(), 0);
}

#[test]
fn permutations_are_recognised() {
    assert!(check_permutation(&vec![2, 0, 3, 1], 4));
    assert!(check_permutation(&vec![0], 1));
    assert!(check_permutation(&vec![], 0));
    assert!(!check_permutation(&vec![0, 0], 2));
    assert!(!check_permutation(&vec![0, 2], 2));
    assert!(!check_permutation(&vec![0, 1], 3));
    assert!(!check_permutation(&vec![0, 1, 2], 2));
    assert!(!check_permutation(&vec![1, 2, 3], 3));
}

#[test]
fn coordinates_and_ranges_are_checked() {
    let t = fresh(&[2, 3]).permute(&vec![1, 0]);
    assert!(t.holds(&vec![2, 1]));
    assert!(t.holds(&vec![0, 0]));
    assert!(!t.holds(&vec![1, 2]));
    assert!(!t.holds(&vec![3, 0]));
    assert!(!t.holds(&vec![0]));
    assert!(!t.holds(&vec![0, 0, 0]));
    assert!(t.accepts_ranges(&vec![(0, 3), (1, 2)]));
    assert!(t.accepts_ranges(&vec![(3, 3), (0, 0)]));
    assert!(!t.accepts_ranges(&vec![(0, 4), (0, 2)]));
    assert!(!t.accepts_ranges(&vec![(2, 1), (0, 2)]));
    assert!(!t.accepts_ranges(&vec![(0, 3)]));
    assert!(!fresh(&[0]).holds(&vec![0]));
    assert!(fresh(&[]).holds(&vec![]));
}

#[test]
fn duplicate_is_the_same_tracker() {
    let t = fresh(&[2, 3])
        .permute(&vec![1, 0])
        .reshape(vec![6])
        .unwrap()
        .pad(&vec![(1, 2)])
        .unwrap();
    assert!(same(&t.duplicate(), &t));
    assert_eq!(t.duplicate().depth(), 2);
}

#[test]
fn permute_then_reshape_reads_the_transpose() {
    // a [3, 4] tensor seen as its transpose and then as [12, 1]
    let data: Vec<f32> = (0..12).map(|i| i as f32 * 0.5 - 2.0).collect();
    let t = fresh(&[3, 4])
        .permute(&vec![1, 0])
        .reshape(vec![12, 1])
        .unwrap();
    assert_eq!(t.shape(), vec![12, 1]);
    let seen: Vec<f32> = layout(&t).into_iter().map(|o| data[o.unwrap()]).collect();
    let mut transposed = vec![];
    for column in 0..4 {
        for row in 0..3 {
            transposed.push(data[row * 4 + column]);
        }
    }
    assert_eq!(seen, transposed);
}
