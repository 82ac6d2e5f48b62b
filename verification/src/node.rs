//! Array graphs and their values.
use crate::float::Slice;
use crate::index::size;
use crate::op::{BinaryOp, Const, Kernel, ReduceOp, TernaryOp, UnaryOp};
use crate::tensor::{
    Elem, Model, Tensor, broadcast_to, concatenate, each, kernel, matmul, pad, permute,
    reduce_axes, reshape, scatter_add, slice, softmax, strided, tabulate, take, zip, zip3,
};
use std::sync::Arc;
use vstd::prelude::*;

verus! {

/// A node of an array graph: an input, a constant, or an operation on other
/// nodes. Shared operands are shared nodes.
#[derive(Debug, PartialEq)]
#[allow(inconsistent_fields)]
pub enum Node {
    /// An array that is already there, known by its identity.
    Input { id: u64, shape: Vec<i32> },
    /// A float of rank zero.
    Constant { value: Const },
    /// Float zeros.
    Zeros { shape: Vec<i32> },
    /// Integer zeros.
    IntZeros { shape: Vec<i32> },
    Ints { data: Vec<i32>, shape: Vec<i32> },
    Bools { data: Vec<bool>, shape: Vec<i32> },
    /// Floats given as quantized values, each with the bits of its scale.
    Scaled { values: Vec<i8>, scales: Vec<u32>, shape: Vec<i32> },
    Unary { op: UnaryOp, src: Arc<Node> },
    Binary { op: BinaryOp, lhs: Arc<Node>, rhs: Arc<Node> },
    Ternary { op: TernaryOp, a: Arc<Node>, b: Arc<Node>, c: Arc<Node> },
    /// Axis `k` of the result is axis `axes[k]` of `src`.
    Permute { src: Arc<Node>, axes: Vec<i32> },
    Reshape { src: Arc<Node>, shape: Vec<i32> },
    Broadcast { src: Arc<Node>, shape: Vec<i32> },
    Concatenate { srcs: Vec<Arc<Node>>, axis: i32 },
    /// Padding with the rank-zero `value`.
    Pad { src: Arc<Node>, low: Vec<i32>, high: Vec<i32>, value: Arc<Node> },
    /// A view on the elements of `src` in row-major order.
    Strided { src: Arc<Node>, shape: Vec<i32>, strides: Vec<i64> },
    /// Reduction of axes `first..last`.
    Reduce { op: ReduceOp, src: Arc<Node>, first: usize, last: usize },
    Take { src: Arc<Node>, indices: Arc<Node>, axis: i32 },
    /// One-dimensional `updates` added to one-dimensional `base` at `indices`.
    ScatterAdd { base: Arc<Node>, indices: Arc<Node>, updates: Arc<Node> },
    /// Along axis `k`, `shape[k]` entries from `start[k]` on, `step[k]` apart.
    Slice { src: Arc<Node>, start: Vec<i32>, step: Vec<i32>, shape: Vec<i32> },
    Matmul { lhs: Arc<Node>, rhs: Arc<Node> },
    /// Softmax over the last axis.
    Softmax { src: Arc<Node> },
    /// A numeric kernel, with the shape of its result.
    Kernel { op: Kernel, srcs: Vec<Arc<Node>>, shape: Vec<i32> },
}

/// A sequence of machine integers as a sequence of integers.
pub open spec fn ints(s: Seq<i32>) -> Seq<int> {
    Seq::new(s.len(), |k: int| s[k] as int)
}

pub open spec fn longs(s: Seq<i64>) -> Seq<int> {
    Seq::new(s.len(), |k: int| s[k] as int)
}

/// The value of a node under a model.
#[verifier::opaque]
pub open spec fn eval(m: Model, n: Node) -> Tensor
    decreases n,
{
    match n {
        Node::Input { id, shape } => {
            let s = ints(shape@);
            Tensor { shape: s, data: Seq::new(size(s) as nat, |p: int| (m.input)(id, p)) }
        },
        Node::Constant { value } => Tensor { shape: seq![], data: seq![(m.constant)(value)] },
        Node::Zeros { shape } => tabulate(
            ints(shape@),
            |i: Seq<int>| (m.constant)(Const::Zero),
        ),
        Node::IntZeros { shape } => tabulate(ints(shape@), |i: Seq<int>| Elem::Int(0)),
        Node::Ints { data, shape } => Tensor {
            shape: ints(shape@),
            data: Seq::new(data@.len(), |p: int| Elem::Int(data@[p] as int)),
        },
        Node::Bools { data, shape } => Tensor {
            shape: ints(shape@),
            data: Seq::new(data@.len(), |p: int| Elem::Bool(data@[p])),
        },
        Node::Scaled { values, scales, shape } => Tensor {
            shape: ints(shape@),
            data: Seq::new(values@.len(), |p: int| (m.scaled)(values@[p], scales@[p])),
        },
        Node::Unary { op, src } => each(m, op, eval(m, *src)),
        Node::Binary { op, lhs, rhs } => zip(m, op, eval(m, *lhs), eval(m, *rhs)),
        Node::Ternary { op, a, b, c } => zip3(m, op, eval(m, *a), eval(m, *b), eval(m, *c)),
        Node::Permute { src, axes } => permute(eval(m, *src), ints(axes@)),
        Node::Reshape { src, shape } => reshape(eval(m, *src), ints(shape@)),
        Node::Broadcast { src, shape } => broadcast_to(eval(m, *src), ints(shape@)),
        Node::Concatenate { srcs, axis } => concatenate(
            evals(m, srcs),
            axis as int,
        ),
        Node::Pad { src, low, high, value } => pad(
            eval(m, *src),
            ints(low@),
            ints(high@),
            eval(m, *value).data[0],
        ),
        Node::Strided { src, shape, strides } => strided(
            eval(m, *src),
            ints(shape@),
            longs(strides@),
        ),
        Node::Reduce { op, src, first, last } => reduce_axes(
            m,
            op,
            eval(m, *src),
            first as int,
            last as int,
        ),
        Node::Take { src, indices, axis } => take(eval(m, *src), eval(m, *indices), axis as int),
        Node::ScatterAdd { base, indices, updates } => scatter_add(
            m,
            eval(m, *base),
            eval(m, *indices),
            eval(m, *updates),
        ),
        Node::Slice { src, start, step, shape } => slice(
            eval(m, *src),
            ints(shape@),
            ints(start@),
            ints(step@),
        ),
        Node::Matmul { lhs, rhs } => matmul(m, eval(m, *lhs), eval(m, *rhs)),
        Node::Softmax { src } => softmax(m, eval(m, *src)),
        Node::Kernel { op, srcs, shape } => kernel(
            m,
            op,
            evals(m, srcs),
            ints(shape@),
        ),
    }
}

/// The values of a list of nodes under a model.
pub open spec fn evals(m: Model, srcs: Vec<Arc<Node>>) -> Seq<Tensor>
    decreases srcs,
{
    Seq::new(
        srcs@.len(),
        |k: int|
            if 0 <= k < srcs@.len() {
                eval(m, *srcs@[k])
            } else {
                arbitrary()
            },
    )
}

} // verus!
