//! Operator tags: what the graph and its pattern matchers know of an operator.

use crate::shape::capacity;
use crate::shape::check_permutation;
use crate::shape::is_permutation;
use crate::shape::numel;
use crate::shape::ShapeError;
use crate::shape::ShapeTracker;
use crate::shape::TrackerModel;
use vstd::prelude::*;

verus! {

/// The capability class of an operator, for coarse discrimination by passes.
#[derive(Clone, Copy, Debug, PartialEq, Eq, Structural)]
pub enum OpType {
    Constant,
    Load,
    Arith,
    Reduce,
    View,
    CustomKernel,
}

/// A primitive operator, or a kernel that a backend pass put in its place.
///
/// A constant carries the bit pattern of its value; element arithmetic itself
/// is the backend's business.
#[derive(Clone, Debug)]
pub enum Op {
    Constant(u32),
    Load(usize),
    Arange(usize),
    Log2,
    Exp2,
    Sin,
    Sqrt,
    Recip,
    Add,
    Mul,
    Mod,
    Max,
    LessThan,
    SumReduce(usize),
    MaxReduce(usize),
    Reshape(Vec<usize>),
    Permute(Vec<usize>),
    Expand(usize, usize),
    Contiguous,
    Slice(Vec<(usize, usize)>),
    Pad(Vec<(usize, usize)>),
    CPUMatMul2D,
}

/// The mathematical content of an [`Op`].
pub enum OpModel {
    Constant(u32),
    Load(usize),
    Arange(usize),
    Log2,
    Exp2,
    Sin,
    Sqrt,
    Recip,
    Add,
    Mul,
    Mod,
    Max,
    LessThan,
    SumReduce(usize),
    MaxReduce(usize),
    Reshape(Seq<usize>),
    Permute(Seq<usize>),
    Expand(usize, usize),
    Contiguous,
    Slice(Seq<(usize, usize)>),
    Pad(Seq<(usize, usize)>),
    CPUMatMul2D,
}

impl View for Op {
    type V = OpModel;

    open spec fn view(&self) -> OpModel {
        match *self {
            Op::Constant(bits) => OpModel::Constant(bits),
            Op::Load(id) => OpModel::Load(id),
            Op::Arange(n) => OpModel::Arange(n),
            Op::Log2 => OpModel::Log2,
            Op::Exp2 => OpModel::Exp2,
            Op::Sin => OpModel::Sin,
            Op::Sqrt => OpModel::Sqrt,
            Op::Recip => OpModel::Recip,
            Op::Add => OpModel::Add,
            Op::Mul => OpModel::Mul,
            Op::Mod => OpModel::Mod,
            Op::Max => OpModel::Max,
            Op::LessThan => OpModel::LessThan,
            Op::SumReduce(axis) => OpModel::SumReduce(axis),
            Op::MaxReduce(axis) => OpModel::MaxReduce(axis),
            Op::Reshape(shape) => OpModel::Reshape(shape@),
            Op::Permute(axes) => OpModel::Permute(axes@),
            Op::Expand(axis, size) => OpModel::Expand(axis, size),
            Op::Contiguous => OpModel::Contiguous,
            Op::Slice(ranges) => OpModel::Slice(ranges@),
            Op::Pad(pads) => OpModel::Pad(pads@),
            Op::CPUMatMul2D => OpModel::CPUMatMul2D,
        }
    }
}

impl Op {
    /// The stable identifier of the operator.
    pub open spec fn name_spec(self) -> Seq<char> {
        match self {
            Op::Constant(_) => "Constant"@,
            Op::Load(_) => "Load"@,
            Op::Arange(_) => "Arange"@,
            Op::Log2 => "Log2"@,
            Op::Exp2 => "Exp2"@,
            Op::Sin => "Sin"@,
            Op::Sqrt => "Sqrt"@,
            Op::Recip => "Recip"@,
            Op::Add => "Add"@,
            Op::Mul => "Mul"@,
            Op::Mod => "Mod"@,
            Op::Max => "Max"@,
            Op::LessThan => "LessThan"@,
            Op::SumReduce(_) => "SumReduce"@,
            Op::MaxReduce(_) => "MaxReduce"@,
            Op::Reshape(_) => "Reshape"@,
            Op::Permute(_) => "Permute"@,
            Op::Expand(_, _) => "Expand"@,
            Op::Contiguous => "Contiguous"@,
            Op::Slice(_) => "Slice"@,
            Op::Pad(_) => "Pad"@,
            Op::CPUMatMul2D => "CPUMatMul2D"@,
        }
    }

    /// The capability class of the operator.
    pub open spec fn type_tag_spec(self) -> OpType {
        match self {
            Op::Constant(_) | Op::Arange(_) => OpType::Constant,
            Op::Load(_) => OpType::Load,
            Op::Log2 | Op::Exp2 | Op::Sin | Op::Sqrt | Op::Recip => OpType::Arith,
            Op::Add | Op::Mul | Op::Mod | Op::Max | Op::LessThan => OpType::Arith,
            Op::SumReduce(_) | Op::MaxReduce(_) => OpType::Reduce,
            Op::Reshape(_) | Op::Permute(_) | Op::Expand(_, _) => OpType::View,
            Op::Contiguous | Op::Slice(_) | Op::Pad(_) => OpType::View,
            Op::CPUMatMul2D => OpType::CustomKernel,
        }
    }

    /// The stable identifier of the operator, by which pattern matchers know
    /// it.
    pub fn name(&self) -> (name: &'static str)
        ensures
            name@ == self.name_spec(),
    {
        match self {
            Op::Constant(_) => "Constant",
            Op::Load(_) => "Load",
            Op::Arange(_) => "Arange",
            Op::Log2 => "Log2",
            Op::Exp2 => "Exp2",
            Op::Sin => "Sin",
            Op::Sqrt => "Sqrt",
            Op::Recip => "Recip",
            Op::Add => "Add",
            Op::Mul => "Mul",
            Op::Mod => "Mod",
            Op::Max => "Max",
            Op::LessThan => "LessThan",
            Op::SumReduce(_) => "SumReduce",
            Op::MaxReduce(_) => "MaxReduce",
            Op::Reshape(_) => "Reshape",
            Op::Permute(_) => "Permute",
            Op::Expand(_, _) => "Expand",
            Op::Contiguous => "Contiguous",
            Op::Slice(_) => "Slice",
            Op::Pad(_) => "Pad",
            Op::CPUMatMul2D => "CPUMatMul2D",
        }
    }

    /// The capability class of the operator.
    pub fn type_tag(&self) -> (tag: OpType)
        ensures
            tag == self.type_tag_spec(),
    {
        match self {
            Op::Constant(_) | Op::Arange(_) => OpType::Constant,
            Op::Load(_) => OpType::Load,
            Op::Log2 | Op::Exp2 | Op::Sin | Op::Sqrt | Op::Recip => OpType::Arith,
            Op::Add | Op::Mul | Op::Mod | Op::Max | Op::LessThan => OpType::Arith,
            Op::SumReduce(_) | Op::MaxReduce(_) => OpType::Reduce,
            Op::Reshape(_) | Op::Permute(_) | Op::Expand(_, _) => OpType::View,
            Op::Contiguous | Op::Slice(_) | Op::Pad(_) => OpType::View,
            Op::CPUMatMul2D => OpType::CustomKernel,
        }
    }
}

impl OpModel {
    /// What a view operator makes of the tracker that it is applied to, and
    /// why it cannot be applied; nothing for an operator that computes.
    pub open spec fn transform_spec(self, t: TrackerModel) -> Result<
        Option<TrackerModel>,
        ShapeError,
    > {
        match self {
            OpModel::Reshape(shape) => if numel(shape) != numel(t.shape()) {
                Err(ShapeError::IncompatibleReshape)
            } else if capacity(shape) > usize::MAX {
                Err(ShapeError::TooLarge)
            } else {
                Ok(Some(t.reshaped(shape)))
            },
            OpModel::Permute(axes) => if !is_permutation(axes, t.shape().len()) {
                Err(ShapeError::IncompatibleShape)
            } else {
                Ok(Some(t.permuted(axes)))
            },
            OpModel::Expand(axis, size) => if axis > t.shape().len() {
                Err(ShapeError::IncompatibleShape)
            } else if capacity(t.shape().insert(axis as int, size)) > usize::MAX {
                Err(ShapeError::TooLarge)
            } else {
                Ok(Some(t.expanded(axis as int, size)))
            },
            OpModel::Contiguous => Ok(Some(t.reshaped(t.shape()))),
            OpModel::Slice(ranges) => if !t.top().ranges_ok(ranges) {
                Err(ShapeError::IncompatibleShape)
            } else {
                Ok(Some(t.sliced(ranges)))
            },
            OpModel::Pad(pads) => if pads.len() != t.shape().len() {
                Err(ShapeError::IncompatibleShape)
            } else if !t.top().pad_fits(pads) {
                Err(ShapeError::TooLarge)
            } else {
                Ok(Some(t.padded(pads)))
            },
            _ => Ok(None),
        }
    }
}

impl Op {
    /// The tracker through which the output of a view operator is read,
    /// given the tracker of its input: view operators compute nothing, they
    /// change how the same buffer is seen. Fails with `IncompatibleShape`
    /// where the operator does not fit the shape of the input, and as the
    /// tracker's own operations fail. An operator that computes has no such
    /// tracker.
    pub fn transform(&self, input: &ShapeTracker) -> (r: Result<Option<ShapeTracker>, ShapeError>)
        requires
            input@.wf(),
        ensures
            match r {
                Ok(Some(t)) => self@.transform_spec(input@) == Ok::<
                    Option<TrackerModel>,
                    ShapeError,
                >(Some(t@)) && t@.wf(),
                Ok(None) => self@.transform_spec(input@) == Ok::<Option<TrackerModel>, ShapeError>(
                    None,
                ),
                Err(e) => self@.transform_spec(input@) == Err::<Option<TrackerModel>, ShapeError>(
                    e,
                ),
            },
    {
        match self {
            Op::Reshape(shape) => {
                let mut dims: Vec<usize> = Vec::new();
                let mut i: usize = 0;
                while i < shape.len()
                    invariant
                        i <= shape@.len(),
                        dims@ == shape@.take(i as int),
                    decreases shape@.len() - i,
                {
                    dims.push(shape[i]);
                    proof {
                        assert(shape@.take(i + 1) =~= shape@.take(i as int).push(shape@[i as int]));
                    }
                    i += 1;
                }
                proof {
                    assert(shape@.take(shape@.len() as int) =~= shape@);
                }
                match input.reshape(dims) {
                    Ok(t) => Ok(Some(t)),
                    Err(e) => Err(e),
                }
            },
            Op::Permute(axes) => {
                if !check_permutation(axes, input.shape().len()) {
                    return Err(ShapeError::IncompatibleShape);
                }
                Ok(Some(input.permute(axes)))
            },
            Op::Expand(axis, size) => {
                if *axis > input.shape().len() {
                    return Err(ShapeError::IncompatibleShape);
                }
                match input.expand(*axis, *size) {
                    Ok(t) => Ok(Some(t)),
                    Err(e) => Err(e),
                }
            },
            Op::Contiguous => Ok(Some(input.contiguous())),
            Op::Slice(ranges) => {
                if !input.accepts_ranges(ranges) {
                    return Err(ShapeError::IncompatibleShape);
                }
                Ok(Some(input.slice(ranges)))
            },
            Op::Pad(pads) => {
                if pads.len() != input.shape().len() {
                    return Err(ShapeError::IncompatibleShape);
                }
                match input.pad(pads) {
                    Ok(t) => Ok(Some(t)),
                    Err(e) => Err(e),
                }
            },
            _ => Ok(None),
        }
    }
}

} // verus!
