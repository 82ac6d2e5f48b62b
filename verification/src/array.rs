//! Lazy arrays: graphs with known shapes.
//!
//! The methods of `Array` add one operation to the graph each. What a method
//! requires is what the operation accepts, and what it ensures is the shape and
//! the value of the result.
use crate::index::{is_shape, lemma_size_nonneg, size};
use crate::node::{Node, eval, evals, ints, longs};
use crate::op::{BinaryOp, Const, Kernel, ReduceOp, TernaryOp, UnaryOp};
use crate::tensor::{
    Elem, Model, Tensor, aligned, axis_total, batch, bool_tensor, broadcast_shape, broadcast_to,
    broadcasts_to, compatible, concatenate, constant_tensor, each, int_tensor, is_permutation,
    kernel, lemma_broadcast_is_shape, lemma_tabulate_wf, matmul, matmul_fits, matmul_shape,
    max_rank, pad, padded_shape, permute, permuted, reduce_axes, reshape, scalar, scaled_tensor,
    scatter_add, slice, slice_in_range, softmax, strided, strides_in_range, take, zip, zip3,
};
use std::sync::Arc;
use vstd::prelude::*;

verus! {

/// An array that has not been computed yet.
#[derive(Debug)]
pub struct Array {
    node: Arc<Node>,
    shape: Vec<i32>,
}

/// A copy of a slice of extents.
pub fn copy_i32(s: &[i32]) -> (r: Vec<i32>)
    ensures
        r@ == s@,
{
    let mut r: Vec<i32> = Vec::new();
    for k in 0..s.len()
        invariant
            r@ == s@.take(k as int),
    {
        r.push(s[k]);
        assert(s@.take(k + 1) == s@.take(k as int).push(s@[k as int]));
    }
    assert(s@.take(s@.len() as int) == s@);
    r
}

impl Array {
    /// What the array holds once it is computed, under a model.
    pub closed spec fn value(&self, m: Model) -> Tensor {
        eval(m, *self.node)
    }

    pub closed spec fn dims(&self) -> Seq<int> {
        ints(self.shape@)
    }

    /// The recorded extents are those of the value.
    pub open spec fn wf(&self) -> bool {
        &&& forall|k: int| 0 <= k < self.dims().len() ==> 0 <= #[trigger] self.dims()[k] <= i32::MAX
        &&& forall|m: Model|
            (#[trigger] self.value(m)).wf() && self.value(m).shape == self.dims()
    }

    /// The two arrays have the same shape and, under every model, the same value.
    pub open spec fn same(&self, other: &Array) -> bool {
        &&& self.dims() == other.dims()
        &&& forall|m: Model| #[trigger] self.value(m) == other.value(m)
    }

    pub fn shape(&self) -> (r: &Vec<i32>)
        ensures
            ints(r@) == self.dims(),
            r@.len() == self.dims().len(),
    {
        &self.shape
    }

    /// The root of the graph.
    pub fn node(&self) -> (r: &Arc<Node>)
        ensures
            forall|m: Model| eval(m, **r) == #[trigger] self.value(m),
    {
        &self.node
    }

    fn make(node: Node, shape: Vec<i32>) -> (r: Array)
        requires
            forall|m: Model|
                (#[trigger] eval(m, node)).wf() && eval(m, node).shape == ints(shape@),
            is_shape(ints(shape@)),
        ensures
            r.wf(),
            r.dims() == ints(shape@),
            forall|m: Model| #[trigger] r.value(m) == eval(m, node),
    {
        let r = Array { node: Arc::new(node), shape };
        assert forall|k: int| 0 <= k < r.dims().len() implies 0 <= #[trigger] r.dims()[k]
            <= i32::MAX by {
            assert(ints(shape@)[k] >= 0);
        }
        assert forall|m: Model|
            (#[trigger] r.value(m)).wf() && r.value(m).shape == r.dims() by {
            assert(eval(m, node).wf());
        }
        r
    }

    /// An array that is computed elsewhere and known by its identity.
    pub fn input(id: u64, shape: Vec<i32>) -> (r: Array)
        requires
            is_shape(ints(shape@)),
        ensures
            r.wf(),
            r.dims() == ints(shape@),
            forall|m: Model, p: int|
                0 <= p < size(r.dims()) ==> #[trigger] r.value(m).data[p] == (m.input)(id, p),
    {
        let recorded = copy_i32(shape.as_slice());
        let node = Node::Input { id, shape };
        proof {
            lemma_size_nonneg(ints(shape@));
            assert forall|m: Model|
                (#[trigger] eval(m, node)).wf() && eval(m, node).shape == ints(shape@) by {
                reveal(eval);
            }
        }
        let r = Array::make(node, recorded);
        proof {
            reveal(eval);
        }
        r
    }

    /// A float of rank zero.
    pub fn constant(value: Const) -> (r: Array)
        ensures
            r.wf(),
            r.dims() == Seq::<int>::empty(),
            forall|m: Model| #[trigger] r.value(m) == scalar((m.constant)(value)),
    {
        let node = Node::Constant { value };
        let shape: Vec<i32> = Vec::new();
        proof {
            assert(ints(shape@) == Seq::<int>::empty());
            assert forall|m: Model| #[trigger] eval(m, node) == scalar((m.constant)(value)) by {
                reveal(eval);
            }
        }
        Array::make(node, shape)
    }

    /// Float zeros.
    pub fn zeros(shape: &[i32]) -> (r: Array)
        requires
            is_shape(ints(shape@)),
        ensures
            r.wf(),
            r.dims() == ints(shape@),
            forall|m: Model|
                #[trigger] r.value(m) == constant_tensor(ints(shape@), (m.constant)(Const::Zero)),
    {
        let node = Node::Zeros { shape: copy_i32(shape) };
        proof {
            assert forall|m: Model|
                #[trigger] eval(m, node) == constant_tensor(
                    ints(shape@),
                    (m.constant)(Const::Zero),
                ) && eval(m, node).wf() by {
                reveal(eval);
                lemma_tabulate_wf(ints(shape@), |i: Seq<int>| (m.constant)(Const::Zero));
            }
        }
        Array::make(node, copy_i32(shape))
    }

    /// Integer zeros.
    pub fn int_zeros(shape: &[i32]) -> (r: Array)
        requires
            is_shape(ints(shape@)),
        ensures
            r.wf(),
            r.dims() == ints(shape@),
            forall|m: Model|
                #[trigger] r.value(m) == constant_tensor(ints(shape@), Elem::Int(0)),
    {
        let node = Node::IntZeros { shape: copy_i32(shape) };
        proof {
            assert forall|m: Model|
                #[trigger] eval(m, node) == constant_tensor(ints(shape@), Elem::Int(0)) && eval(
                    m,
                    node,
                ).wf() by {
                reveal(eval);
                lemma_tabulate_wf(ints(shape@), |i: Seq<int>| Elem::Int(0));
            }
        }
        Array::make(node, copy_i32(shape))
    }

    /// Integers in row-major order.
    pub fn from_ints(data: Vec<i32>, shape: &[i32]) -> (r: Array)
        requires
            is_shape(ints(shape@)),
            data@.len() == size(ints(shape@)),
        ensures
            r.wf(),
            r.dims() == ints(shape@),
            forall|m: Model| #[trigger] r.value(m) == int_tensor(ints(data@), ints(shape@)),
    {
        let node = Node::Ints { data, shape: copy_i32(shape) };
        proof {
            assert forall|m: Model|
                #[trigger] eval(m, node) == int_tensor(ints(data@), ints(shape@)) by {
                reveal(eval);
                assert(eval(m, node).data == int_tensor(ints(data@), ints(shape@)).data);
            }
        }
        Array::make(node, copy_i32(shape))
    }

    /// An integer of rank zero.
    pub fn from_int(x: i32) -> (r: Array)
        ensures
            r.wf(),
            r.dims() == Seq::<int>::empty(),
            forall|m: Model| #[trigger] r.value(m) == scalar(Elem::Int(x as int)),
    {
        let mut data: Vec<i32> = Vec::new();
        data.push(x);
        let shape: Vec<i32> = Vec::new();
        proof {
            assert(ints(shape@) == Seq::<int>::empty());
        }
        let r = Array::from_ints(data, shape.as_slice());
        proof {
            assert(int_tensor(ints(data@), ints(shape@)).data == seq![Elem::Int(x as int)]);
        }
        r
    }

    /// Booleans in row-major order.
    pub fn from_bools(data: Vec<bool>, shape: &[i32]) -> (r: Array)
        requires
            is_shape(ints(shape@)),
            data@.len() == size(ints(shape@)),
        ensures
            r.wf(),
            r.dims() == ints(shape@),
            forall|m: Model| #[trigger] r.value(m) == bool_tensor(data@, ints(shape@)),
    {
        let node = Node::Bools { data, shape: copy_i32(shape) };
        proof {
            assert forall|m: Model| #[trigger] eval(m, node) == bool_tensor(data@, ints(shape@)) by {
                reveal(eval);
            }
        }
        Array::make(node, copy_i32(shape))
    }

    /// The products of quantized values and their scales, in row-major order.
    pub fn from_scaled(values: Vec<i8>, scales: Vec<u32>, shape: &[i32]) -> (r: Array)
        requires
            is_shape(ints(shape@)),
            values@.len() == size(ints(shape@)),
            scales@.len() == values@.len(),
        ensures
            r.wf(),
            r.dims() == ints(shape@),
            forall|m: Model|
                #[trigger] r.value(m) == scaled_tensor(m, values@, scales@, ints(shape@)),
    {
        let node = Node::Scaled { values, scales, shape: copy_i32(shape) };
        proof {
            assert forall|m: Model|
                #[trigger] eval(m, node) == scaled_tensor(m, values@, scales@, ints(shape@)) by {
                reveal(eval);
            }
        }
        Array::make(node, copy_i32(shape))
    }

    pub fn unary(&self, op: UnaryOp) -> (r: Array)
        requires
            self.wf(),
        ensures
            r.wf(),
            r.dims() == self.dims(),
            forall|m: Model| #[trigger] r.value(m) == each(m, op, self.value(m)),
    {
        let node = Node::Unary { op, src: self.node.clone() };
        proof {
            assert(is_shape(self.dims()));
            assert forall|m: Model|
                #[trigger] eval(m, node) == each(m, op, self.value(m)) && eval(m, node).wf()
                    && eval(m, node).shape == self.dims() by {
                reveal(eval);
                assert(self.value(m).wf());
            }
        }
        Array::make(node, copy_i32(self.shape.as_slice()))
    }

    pub fn binary(&self, op: BinaryOp, other: &Array) -> (r: Array)
        requires
            self.wf(),
            other.wf(),
            compatible(self.dims(), other.dims()),
        ensures
            r.wf(),
            r.dims() == broadcast_shape(self.dims(), other.dims()),
            forall|m: Model| #[trigger] r.value(m) == zip(m, op, self.value(m), other.value(m)),
    {
        let shape = broadcast_dims(self.shape.as_slice(), other.shape.as_slice());
        let node = Node::Binary { op, lhs: self.node.clone(), rhs: other.node.clone() };
        proof {
            lemma_broadcast_is_shape(self.dims(), other.dims());
            assert forall|m: Model|
                #[trigger] eval(m, node) == zip(m, op, self.value(m), other.value(m)) && eval(
                    m,
                    node,
                ).wf() && eval(m, node).shape == ints(shape@) by {
                reveal(eval);
                assert(self.value(m).shape == self.dims());
                assert(other.value(m).shape == other.dims());
                lemma_size_nonneg(broadcast_shape(self.dims(), other.dims()));
            }
        }
        Array::make(node, shape)
    }

    pub fn ternary(op: TernaryOp, a: &Array, b: &Array, c: &Array) -> (r: Array)
        requires
            a.wf(),
            b.wf(),
            c.wf(),
            compatible(a.dims(), b.dims()),
            compatible(broadcast_shape(a.dims(), b.dims()), c.dims()),
        ensures
            r.wf(),
            r.dims() == broadcast_shape(broadcast_shape(a.dims(), b.dims()), c.dims()),
            forall|m: Model|
                #[trigger] r.value(m) == zip3(m, op, a.value(m), b.value(m), c.value(m)),
    {
        let ab = broadcast_dims(a.shape.as_slice(), b.shape.as_slice());
        proof {
            lemma_broadcast_is_shape(a.dims(), b.dims());
            lemma_broadcast_is_shape(ints(ab@), c.dims());
        }
        let shape = broadcast_dims(ab.as_slice(), c.shape.as_slice());
        let node = Node::Ternary {
            op,
            a: a.node.clone(),
            b: b.node.clone(),
            c: c.node.clone(),
        };
        proof {
            assert forall|m: Model|
                #[trigger] eval(m, node) == zip3(m, op, a.value(m), b.value(m), c.value(m))
                    && eval(m, node).wf() && eval(m, node).shape == ints(shape@) by {
                reveal(eval);
                assert(a.value(m).shape == a.dims());
                assert(b.value(m).shape == b.dims());
                assert(c.value(m).shape == c.dims());
                lemma_size_nonneg(ints(shape@));
            }
        }
        Array::make(node, shape)
    }

    /// Axis `k` of the result is axis `axes[k]`.
    pub fn transpose_axes(&self, axes: &[i32]) -> (r: Array)
        requires
            self.wf(),
            is_permutation(ints(axes@), self.dims().len() as int),
        ensures
            r.wf(),
            r.dims() == permuted(self.dims(), ints(axes@)),
            forall|m: Model| #[trigger] r.value(m) == permute(self.value(m), ints(axes@)),
    {
        let mut shape: Vec<i32> = Vec::new();
        for k in 0..axes.len()
            invariant
                is_permutation(ints(axes@), self.dims().len() as int),
                self.dims() == ints(self.shape@),
                shape@.len() == k,
                forall|j: int| 0 <= j < k ==> #[trigger] shape@[j] == self.shape@[axes@[j] as int],
        {
            assert(0 <= ints(axes@)[k as int] < self.dims().len());
            shape.push(self.shape[axes[k] as usize]);
        }
        let node = Node::Permute { src: self.node.clone(), axes: copy_i32(axes) };
        proof {
            let s = permuted(self.dims(), ints(axes@));
            assert(ints(shape@) == s) by {
                assert forall|j: int| 0 <= j < s.len() implies ints(shape@)[j] == s[j] by {
                    assert(0 <= ints(axes@)[j] < self.dims().len());
                    assert(shape@[j] == self.shape@[axes@[j] as int]);
                }
            }
            assert(is_shape(s)) by {
                assert forall|j: int| 0 <= j < s.len() implies #[trigger] s[j] >= 0 by {
                    assert(0 <= ints(axes@)[j] < self.dims().len());
                    assert(self.dims()[ints(axes@)[j]] >= 0);
                }
            }
            lemma_size_nonneg(s);
            assert forall|m: Model|
                #[trigger] eval(m, node) == permute(self.value(m), ints(axes@)) && eval(
                    m,
                    node,
                ).wf() && eval(m, node).shape == s by {
                reveal(eval);
                assert(self.value(m).shape == self.dims());
            }
        }
        Array::make(node, shape)
    }

    /// The same elements under another shape of the same size.
    pub fn reshape(&self, shape: &[i32]) -> (r: Array)
        requires
            self.wf(),
            is_shape(ints(shape@)),
            size(ints(shape@)) == size(self.dims()),
        ensures
            r.wf(),
            r.dims() == ints(shape@),
            forall|m: Model| #[trigger] r.value(m) == reshape(self.value(m), ints(shape@)),
    {
        let node = Node::Reshape { src: self.node.clone(), shape: copy_i32(shape) };
        proof {
            assert forall|m: Model|
                #[trigger] eval(m, node) == reshape(self.value(m), ints(shape@)) && eval(
                    m,
                    node,
                ).wf() by {
                reveal(eval);
                assert(self.value(m).wf());
            }
        }
        Array::make(node, copy_i32(shape))
    }

    pub fn broadcast_to(&self, shape: &[i32]) -> (r: Array)
        requires
            self.wf(),
            is_shape(ints(shape@)),
            broadcasts_to(self.dims(), ints(shape@)),
        ensures
            r.wf(),
            r.dims() == ints(shape@),
            forall|m: Model| #[trigger] r.value(m) == broadcast_to(self.value(m), ints(shape@)),
    {
        let node = Node::Broadcast { src: self.node.clone(), shape: copy_i32(shape) };
        proof {
            lemma_size_nonneg(ints(shape@));
            assert forall|m: Model|
                #[trigger] eval(m, node) == broadcast_to(self.value(m), ints(shape@)) && eval(
                    m,
                    node,
                ).wf() by {
                reveal(eval);
            }
        }
        Array::make(node, copy_i32(shape))
    }

    /// The arrays joined along an axis.
    pub fn concatenate(arrays: &[&Array], axis: i32) -> (r: Array)
        requires
            arrays@.len() > 0,
            forall|k: int| 0 <= k < arrays@.len() ==> (#[trigger] arrays@[k]).wf(),
            0 <= axis < arrays@[0].dims().len(),
            joinable(arrays@, axis as int),
            extent_total(arrays@, axis as int) <= i32::MAX,
        ensures
            r.wf(),
            r.dims() == arrays@[0].dims().update(
                axis as int,
                extent_total(arrays@, axis as int),
            ),
            forall|m: Model|
                #[trigger] r.value(m) == concatenate(values(arrays@, m), axis as int),
    {
        let mut srcs: Vec<Arc<Node>> = Vec::new();
        let mut total: i32 = 0;
        for k in 0..arrays.len()
            invariant
                forall|j: int| 0 <= j < arrays@.len() ==> (#[trigger] arrays@[j]).wf(),
                0 <= axis < arrays@[0].dims().len(),
                joinable(arrays@, axis as int),
                extent_total(arrays@, axis as int) <= i32::MAX,
                srcs@.len() == k,
                forall|j: int| 0 <= j < k ==> #[trigger] srcs@[j] == arrays@[j].node,
                total == extent_total(arrays@.take(k as int), axis as int),
        {
            let a: &Array = arrays[k];
            assert(a.wf());
            proof {
                assert(arrays@[k as int].dims().len() == arrays@[0].dims().len());
                assert(arrays@.take(k + 1).drop_last() == arrays@.take(k as int));
                lemma_extent_total_prefix(arrays@, axis as int, k + 1);
                assert(a.dims()[axis as int] >= 0);
            }
            total = total + a.shape[axis as usize];
            srcs.push(a.node.clone());
        }
        assert(arrays@.take(arrays@.len() as int) == arrays@);
        let mut shape = copy_i32(arrays[0].shape.as_slice());
        shape.set(axis as usize, total);
        let node = Node::Concatenate { srcs, axis };
        proof {
            let s = arrays@[0].dims().update(axis as int, total as int);
            assert(ints(shape@) == s);
            assert(arrays@[0].wf());
            lemma_extent_total_nonneg(arrays@, axis as int);
            assert(is_shape(s)) by {
                assert forall|k: int| 0 <= k < s.len() implies #[trigger] s[k] >= 0 by {
                    assert(arrays@[0].dims()[k] >= 0);
                }
            }
            lemma_size_nonneg(s);
            assert forall|m: Model|
                #[trigger] eval(m, node) == concatenate(values(arrays@, m), axis as int) && eval(
                    m,
                    node,
                ).wf() && eval(m, node).shape == s by {
                reveal(eval);
                lemma_evals(m, srcs, arrays@);
                lemma_extent_total(arrays@, axis as int, m);
                assert(arrays@[0].value(m).shape == arrays@[0].dims());
            }
        }
        Array::make(node, shape)
    }

    /// `low[k]` and `high[k]` copies of a rank-zero value before and behind axis
    /// `k`.
    pub fn pad(&self, low: &[i32], high: &[i32], value: &Array) -> (r: Array)
        requires
            self.wf(),
            value.wf(),
            value.dims() == Seq::<int>::empty(),
            low@.len() == self.dims().len(),
            high@.len() == self.dims().len(),
            forall|k: int| 0 <= k < low@.len() ==> #[trigger] low@[k] >= 0,
            forall|k: int| 0 <= k < high@.len() ==> #[trigger] high@[k] >= 0,
            forall|k: int|
                0 <= k < low@.len() ==> #[trigger] low@[k] + self.dims()[k] + high@[k] <= i32::MAX,
        ensures
            r.wf(),
            r.dims() == padded_shape(self.dims(), ints(low@), ints(high@)),
            forall|m: Model|
                #[trigger] r.value(m) == pad(
                    self.value(m),
                    ints(low@),
                    ints(high@),
                    value.value(m).data[0],
                ),
    {
        let mut shape: Vec<i32> = Vec::new();
        for k in 0..low.len()
            invariant
                self.wf(),
                low@.len() == self.dims().len(),
                high@.len() == self.dims().len(),
                forall|k: int| 0 <= k < low@.len() ==> #[trigger] low@[k] >= 0,
                forall|k: int| 0 <= k < high@.len() ==> #[trigger] high@[k] >= 0,
                forall|k: int|
                    0 <= k < low@.len() ==> #[trigger] low@[k] + self.dims()[k] + high@[k]
                        <= i32::MAX,
                shape@.len() == k,
                forall|j: int|
                    0 <= j < k ==> #[trigger] shape@[j] == padded_shape(
                        self.dims(),
                        ints(low@),
                        ints(high@),
                    )[j],
        {
            assert(self.dims()[k as int] >= 0);
            assert(low@[k as int] >= 0 && high@[k as int] >= 0);
            shape.push(low[k] + self.shape[k] + high[k]);
        }
        let node = Node::Pad {
            src: self.node.clone(),
            low: copy_i32(low),
            high: copy_i32(high),
            value: value.node.clone(),
        };
        proof {
            let s = padded_shape(self.dims(), ints(low@), ints(high@));
            assert(ints(shape@) == s);
            assert(is_shape(s)) by {
                assert forall|k: int| 0 <= k < s.len() implies #[trigger] s[k] >= 0 by {
                    assert(self.dims()[k] >= 0);
                    assert(low@[k] >= 0 && high@[k] >= 0);
                }
            }
            lemma_size_nonneg(s);
            assert forall|m: Model|
                #[trigger] eval(m, node) == pad(
                    self.value(m),
                    ints(low@),
                    ints(high@),
                    value.value(m).data[0],
                ) && eval(m, node).wf() && eval(m, node).shape == s by {
                reveal(eval);
                assert(self.value(m).shape == self.dims());
            }
        }
        Array::make(node, shape)
    }

    /// A view on the elements in row-major order, in which axis `k` advances by
    /// `strides[k]` elements.
    pub fn as_strided(&self, shape: &[i32], strides: Vec<i64>) -> (r: Array)
        requires
            self.wf(),
            is_shape(ints(shape@)),
            strides@.len() == shape@.len(),
            strides_in_range(ints(shape@), longs(strides@), size(self.dims())),
        ensures
            r.wf(),
            r.dims() == ints(shape@),
            forall|m: Model|
                #[trigger] r.value(m) == strided(self.value(m), ints(shape@), longs(strides@)),
    {
        let node = Node::Strided { src: self.node.clone(), shape: copy_i32(shape), strides };
        proof {
            lemma_size_nonneg(ints(shape@));
            assert forall|m: Model|
                #[trigger] eval(m, node) == strided(self.value(m), ints(shape@), longs(strides@))
                    && eval(m, node).wf() by {
                reveal(eval);
            }
        }
        Array::make(node, copy_i32(shape))
    }

    /// Axes `first..last` reduced to nothing.
    pub fn reduce(&self, op: ReduceOp, first: usize, last: usize) -> (r: Array)
        requires
            self.wf(),
            first <= last <= self.dims().len(),
            op is Max || op is ArgMax ==> size(self.dims()) > 0,
        ensures
            r.wf(),
            r.dims() == self.dims().take(first as int) + self.dims().skip(last as int),
            forall|m: Model|
                #[trigger] r.value(m) == reduce_axes(
                    m,
                    op,
                    self.value(m),
                    first as int,
                    last as int,
                ),
    {
        let mut shape: Vec<i32> = Vec::new();
        for k in 0..first
            invariant
                first <= self.shape@.len(),
                shape@ == self.shape@.take(k as int),
        {
            shape.push(self.shape[k]);
            assert(self.shape@.take(k + 1) == self.shape@.take(k as int).push(
                self.shape@[k as int],
            ));
        }
        for k in last..self.shape.len()
            invariant
                first <= last <= self.shape@.len(),
                shape@ == self.shape@.take(first as int) + self.shape@.subrange(
                    last as int,
                    k as int,
                ),
        {
            shape.push(self.shape[k]);
            assert(self.shape@.subrange(last as int, k + 1) == self.shape@.subrange(
                last as int,
                k as int,
            ).push(self.shape@[k as int]));
        }
        let node = Node::Reduce { op, src: self.node.clone(), first, last };
        proof {
            let s = self.dims().take(first as int) + self.dims().skip(last as int);
            assert(ints(shape@) == s);
            assert(is_shape(s)) by {
                assert forall|k: int| 0 <= k < s.len() implies #[trigger] s[k] >= 0 by {
                    let j = if k < first {
                        k
                    } else {
                        k - first + last
                    };
                    assert(self.dims()[j] >= 0);
                }
            }
            lemma_size_nonneg(s);
            assert forall|m: Model|
                #[trigger] eval(m, node) == reduce_axes(
                    m,
                    op,
                    self.value(m),
                    first as int,
                    last as int,
                ) && eval(m, node).wf() && eval(m, node).shape == s by {
                reveal(eval);
                assert(self.value(m).shape == self.dims());
            }
        }
        Array::make(node, shape)
    }

    /// The slices along an axis that `indices` lists.
    pub fn take_axis(&self, indices: &Array, axis: i32) -> (r: Array)
        requires
            self.wf(),
            indices.wf(),
            0 <= axis < self.dims().len(),
            size(self.dims()) > 0 || size(indices.dims()) == 0,
        ensures
            r.wf(),
            r.dims() == self.dims().take(axis as int) + indices.dims() + self.dims().skip(axis + 1),
            forall|m: Model|
                #[trigger] r.value(m) == take(self.value(m), indices.value(m), axis as int),
    {
        let mut shape: Vec<i32> = Vec::new();
        let ax = axis as usize;
        for k in 0..ax
            invariant
                ax <= self.shape@.len(),
                shape@ == self.shape@.take(k as int),
        {
            shape.push(self.shape[k]);
            assert(self.shape@.take(k + 1) == self.shape@.take(k as int).push(
                self.shape@[k as int],
            ));
        }
        for k in 0..indices.shape.len()
            invariant
                ax <= self.shape@.len(),
                shape@ == self.shape@.take(ax as int) + indices.shape@.take(k as int),
        {
            shape.push(indices.shape[k]);
            assert(indices.shape@.take(k + 1) == indices.shape@.take(k as int).push(
                indices.shape@[k as int],
            ));
        }
        for k in ax + 1..self.shape.len()
            invariant
                ax < self.shape@.len(),
                shape@ == self.shape@.take(ax as int) + indices.shape@ + self.shape@.subrange(
                    ax + 1,
                    k as int,
                ),
        {
            shape.push(self.shape[k]);
            assert(self.shape@.subrange(ax + 1, k + 1) == self.shape@.subrange(
                ax + 1,
                k as int,
            ).push(self.shape@[k as int]));
        }
        let node = Node::Take { src: self.node.clone(), indices: indices.node.clone(), axis };
        proof {
            let s = self.dims().take(axis as int) + indices.dims() + self.dims().skip(axis + 1);
            assert(ints(shape@) == s);
            assert(is_shape(s)) by {
                let n = indices.dims().len();
                assert forall|k: int| 0 <= k < s.len() implies #[trigger] s[k] >= 0 by {
                    if k < axis {
                        assert(self.dims()[k] >= 0);
                    } else if k < axis + n {
                        assert(indices.dims()[k - axis] >= 0);
                    } else {
                        assert(self.dims()[k - n + 1] >= 0);
                    }
                }
            }
            lemma_size_nonneg(s);
            assert forall|m: Model|
                #[trigger] eval(m, node) == take(self.value(m), indices.value(m), axis as int)
                    && eval(m, node).wf() && eval(m, node).shape == s by {
                reveal(eval);
                assert(self.value(m).shape == self.dims());
                assert(indices.value(m).shape == indices.dims());
            }
        }
        Array::make(node, shape)
    }

    /// One-dimensional `updates` added at the positions that `indices` lists.
    pub fn scatter_add(&self, indices: &Array, updates: &Array) -> (r: Array)
        requires
            self.wf(),
            indices.wf(),
            updates.wf(),
            self.dims().len() == 1,
            indices.dims().len() == 1,
            updates.dims() == indices.dims(),
        ensures
            r.wf(),
            r.dims() == self.dims(),
            forall|m: Model|
                #[trigger] r.value(m) == scatter_add(
                    m,
                    self.value(m),
                    indices.value(m),
                    updates.value(m),
                ),
    {
        let node = Node::ScatterAdd {
            base: self.node.clone(),
            indices: indices.node.clone(),
            updates: updates.node.clone(),
        };
        proof {
            assert(is_shape(self.dims()));
            assert forall|m: Model|
                #[trigger] eval(m, node) == scatter_add(
                    m,
                    self.value(m),
                    indices.value(m),
                    updates.value(m),
                ) && eval(m, node).wf() && eval(m, node).shape == self.dims() by {
                reveal(eval);
                assert(self.value(m).wf());
            }
        }
        Array::make(node, copy_i32(self.shape.as_slice()))
    }

    /// Along axis `k`, `shape[k]` entries from `start[k]` on, `step[k]` apart.
    pub fn slice(&self, start: &[i32], step: &[i32], shape: &[i32]) -> (r: Array)
        requires
            self.wf(),
            is_shape(ints(shape@)),
            start@.len() == self.dims().len(),
            step@.len() == self.dims().len(),
            shape@.len() == self.dims().len(),
            slice_in_range(self.dims(), ints(shape@), ints(start@), ints(step@)),
        ensures
            r.wf(),
            r.dims() == ints(shape@),
            forall|m: Model|
                #[trigger] r.value(m) == slice(
                    self.value(m),
                    ints(shape@),
                    ints(start@),
                    ints(step@),
                ),
    {
        let node = Node::Slice {
            src: self.node.clone(),
            start: copy_i32(start),
            step: copy_i32(step),
            shape: copy_i32(shape),
        };
        proof {
            lemma_size_nonneg(ints(shape@));
            assert forall|m: Model|
                #[trigger] eval(m, node) == slice(
                    self.value(m),
                    ints(shape@),
                    ints(start@),
                    ints(step@),
                ) && eval(m, node).wf() by {
                reveal(eval);
            }
        }
        Array::make(node, copy_i32(shape))
    }

    /// Matrix products over the last two axes, with the other axes broadcast.
    pub fn matmul(&self, other: &Array) -> (r: Array)
        requires
            self.wf(),
            other.wf(),
            matmul_fits(self.dims(), other.dims()),
        ensures
            r.wf(),
            r.dims() == matmul_shape(self.dims(), other.dims()),
            forall|m: Model| #[trigger] r.value(m) == matmul(m, self.value(m), other.value(m)),
    {
        let shape = matmul_dims(self.shape.as_slice(), other.shape.as_slice());
        let node = Node::Matmul { lhs: self.node.clone(), rhs: other.node.clone() };
        proof {
            let s = matmul_shape(self.dims(), other.dims());
            lemma_size_nonneg(s);
            assert forall|m: Model|
                #[trigger] eval(m, node) == matmul(m, self.value(m), other.value(m)) && eval(
                    m,
                    node,
                ).wf() && eval(m, node).shape == s by {
                reveal(eval);
                assert(self.value(m).shape == self.dims());
                assert(other.value(m).shape == other.dims());
            }
        }
        Array::make(node, shape)
    }

    /// Softmax over the last axis.
    pub fn softmax(&self) -> (r: Array)
        requires
            self.wf(),
            self.dims().len() > 0,
        ensures
            r.wf(),
            r.dims() == self.dims(),
            forall|m: Model| #[trigger] r.value(m) == softmax(m, self.value(m)),
    {
        let node = Node::Softmax { src: self.node.clone() };
        proof {
            assert(is_shape(self.dims()));
            lemma_size_nonneg(self.dims());
            assert forall|m: Model|
                #[trigger] eval(m, node) == softmax(m, self.value(m)) && eval(m, node).wf() && eval(
                    m,
                    node,
                ).shape == self.dims() by {
                reveal(eval);
                assert(self.value(m).shape == self.dims());
            }
        }
        Array::make(node, copy_i32(self.shape.as_slice()))
    }

    /// What a kernel makes of its operands, with the shape of the result.
    pub fn kernel(op: Kernel, args: &[&Array], shape: Vec<i32>) -> (r: Array)
        requires
            forall|k: int| 0 <= k < args@.len() ==> (#[trigger] args@[k]).wf(),
            is_shape(ints(shape@)),
        ensures
            r.wf(),
            r.dims() == ints(shape@),
            forall|m: Model|
                #[trigger] r.value(m) == kernel(m, op, values(args@, m), ints(shape@)),
    {
        let mut srcs: Vec<Arc<Node>> = Vec::new();
        for k in 0..args.len()
            invariant
                srcs@.len() == k,
                forall|j: int| 0 <= j < k ==> #[trigger] srcs@[j] == args@[j].node,
        {
            let a: &Array = args[k];
            srcs.push(a.node.clone());
        }
        let recorded = copy_i32(shape.as_slice());
        let node = Node::Kernel { op, srcs, shape };
        proof {
            lemma_size_nonneg(ints(shape@));
            assert forall|m: Model|
                #[trigger] eval(m, node) == kernel(m, op, values(args@, m), ints(shape@)) && eval(
                    m,
                    node,
                ).wf() by {
                reveal(eval);
                lemma_evals(m, srcs, args@);
            }
        }
        Array::make(node, recorded)
    }
}

impl Clone for Array {
    fn clone(&self) -> (r: Array)
        ensures
            r.same(self),
            self.wf() ==> r.wf(),
    {
        let r = Array { node: self.node.clone(), shape: copy_i32(self.shape.as_slice()) };
        proof {
            assert(r.dims() == self.dims());
            assert(forall|m: Model| #[trigger] r.value(m) == self.value(m));
            if self.wf() {
                assert forall|m: Model|
                    (#[trigger] r.value(m)).wf() && r.value(m).shape == r.dims() by {
                    assert(self.value(m).wf());
                }
            }
        }
        r
    }
}

/// The values of a list of arrays.
pub open spec fn values(arrays: Seq<&Array>, m: Model) -> Seq<Tensor> {
    Seq::new(arrays.len(), |k: int| arrays[k].value(m))
}

/// The arrays have the same extents but along `axis`.
pub open spec fn joinable(arrays: Seq<&Array>, axis: int) -> bool {
    forall|k: int|
        0 <= k < arrays.len() ==> (#[trigger] arrays[k]).dims().len() == arrays[0].dims().len()
            && arrays[k].dims() == arrays[0].dims().update(axis, arrays[k].dims()[axis])
}

/// The sum of the extents along `axis`.
pub open spec fn extent_total(arrays: Seq<&Array>, axis: int) -> int
    decreases arrays.len(),
{
    if arrays.len() == 0 {
        0
    } else {
        extent_total(arrays.drop_last(), axis) + arrays.last().dims()[axis]
    }
}

proof fn lemma_extent_total_nonneg(arrays: Seq<&Array>, axis: int)
    requires
        forall|k: int| 0 <= k < arrays.len() ==> (#[trigger] arrays[k]).wf(),
        0 <= axis,
        forall|k: int| 0 <= k < arrays.len() ==> axis < (#[trigger] arrays[k]).dims().len(),
    ensures
        extent_total(arrays, axis) >= 0,
    decreases arrays.len(),
{
    if arrays.len() > 0 {
        let front = arrays.drop_last();
        assert forall|k: int| 0 <= k < front.len() implies (#[trigger] front[k]).wf() by {
            assert(front[k] == arrays[k]);
        }
        assert forall|k: int| 0 <= k < front.len() implies axis < (
        #[trigger] front[k]).dims().len() by {
            assert(front[k] == arrays[k]);
        }
        lemma_extent_total_nonneg(front, axis);
        assert(arrays[arrays.len() - 1].wf());
        assert(arrays.last().dims()[axis] >= 0);
    }
}

proof fn lemma_extent_total_prefix(arrays: Seq<&Array>, axis: int, n: int)
    requires
        forall|k: int| 0 <= k < arrays.len() ==> (#[trigger] arrays[k]).wf(),
        0 <= axis,
        forall|k: int| 0 <= k < arrays.len() ==> axis < (#[trigger] arrays[k]).dims().len(),
        0 <= n <= arrays.len(),
    ensures
        0 <= extent_total(arrays.take(n), axis) <= extent_total(arrays, axis),
    decreases arrays.len(),
{
    let prefix = arrays.take(n);
    assert forall|k: int| 0 <= k < n implies (#[trigger] prefix[k]).wf() by {
        assert(prefix[k] == arrays[k]);
    }
    assert forall|k: int| 0 <= k < n implies axis < (#[trigger] prefix[k]).dims().len() by {
        assert(prefix[k] == arrays[k]);
    }
    lemma_extent_total_nonneg(prefix, axis);
    if n == arrays.len() {
        assert(arrays.take(n) == arrays);
    } else {
        let front = arrays.drop_last();
        assert forall|k: int| 0 <= k < front.len() implies (#[trigger] front[k]).wf() by {
            assert(front[k] == arrays[k]);
        }
        assert forall|k: int| 0 <= k < front.len() implies axis < (
        #[trigger] front[k]).dims().len() by {
            assert(front[k] == arrays[k]);
        }
        lemma_extent_total_prefix(front, axis, n);
        assert(front.take(n) == arrays.take(n));
        assert(arrays[arrays.len() - 1].wf());
        assert(arrays.last().dims()[axis] >= 0);
    }
}

proof fn lemma_extent_total(arrays: Seq<&Array>, axis: int, m: Model)
    requires
        forall|k: int| 0 <= k < arrays.len() ==> (#[trigger] arrays[k]).wf(),
    ensures
        axis_total(values(arrays, m), axis) == extent_total(arrays, axis),
    decreases arrays.len(),
{
    if arrays.len() > 0 {
        let front = arrays.drop_last();
        assert forall|k: int| 0 <= k < front.len() implies (#[trigger] front[k]).wf() by {
            assert(front[k] == arrays[k]);
        }
        lemma_extent_total(front, axis, m);
        assert(values(arrays, m).drop_last() == values(front, m));
        assert(arrays[arrays.len() - 1].wf());
        assert(arrays.last().value(m).shape == arrays.last().dims());
    }
}

proof fn lemma_evals(m: Model, srcs: Vec<Arc<Node>>, arrays: Seq<&Array>)
    requires
        srcs@.len() == arrays.len(),
        forall|k: int| 0 <= k < srcs@.len() ==> #[trigger] srcs@[k] == arrays[k].node,
    ensures
        evals(m, srcs) == values(arrays, m),
{
    reveal(eval);
    assert forall|k: int| 0 <= k < srcs@.len() implies evals(m, srcs)[k] == values(arrays, m)[k] by {
        assert(srcs@[k] == arrays[k].node);
    }
    assert(evals(m, srcs) == values(arrays, m));
}

/// The shape that two compatible shapes broadcast to.
pub fn broadcast_dims(a: &[i32], b: &[i32]) -> (r: Vec<i32>)
    requires
        compatible(ints(a@), ints(b@)),
    ensures
        ints(r@) == broadcast_shape(ints(a@), ints(b@)),
{
    let rank: usize = if a.len() >= b.len() {
        a.len()
    } else {
        b.len()
    };
    let mut r: Vec<i32> = Vec::new();
    for k in 0..rank
        invariant
            rank == max_rank(ints(a@), ints(b@)),
            r@.len() == k,
            forall|j: int|
                0 <= j < k ==> #[trigger] r@[j] == broadcast_shape(ints(a@), ints(b@))[j],
    {
        let da: i32 = if k < rank - a.len() {
            1
        } else {
            a[k - (rank - a.len())]
        };
        let db: i32 = if k < rank - b.len() {
            1
        } else {
            b[k - (rank - b.len())]
        };
        assert(da == aligned(ints(a@), rank as int, k as int));
        assert(db == aligned(ints(b@), rank as int, k as int));
        r.push(
            if da == 1 {
                db
            } else {
                da
            },
        );
    }
    assert(ints(r@) == broadcast_shape(ints(a@), ints(b@)));
    r
}

/// The shape of the product of stacks of matrices.
pub fn matmul_dims(a: &[i32], b: &[i32]) -> (r: Vec<i32>)
    requires
        is_shape(ints(a@)),
        is_shape(ints(b@)),
        matmul_fits(ints(a@), ints(b@)),
    ensures
        ints(r@) == matmul_shape(ints(a@), ints(b@)),
        is_shape(ints(r@)),
{
    let ghost (x, y) = (ints(a@), ints(b@));
    let n: usize = a.len();
    let k: usize = b.len();
    let mut outer_a = copy_i32(a);
    outer_a.truncate(n - 2);
    let mut outer_b = copy_i32(b);
    outer_b.truncate(k - 2);
    proof {
        assert(ints(outer_a@) == batch(x));
        assert(ints(outer_b@) == batch(y));
    }
    let mut shape = broadcast_dims(outer_a.as_slice(), outer_b.as_slice());
    let ghost outer = shape@;
    shape.push(a[n - 2]);
    shape.push(b[k - 1]);
    proof {
        let s = matmul_shape(x, y);
        assert(ints(shape@) == s) by {
            assert(ints(outer) == broadcast_shape(batch(x), batch(y)));
            assert(ints(shape@) == ints(outer) + seq![x[n - 2], y[k - 1]]);
        }
        assert(is_shape(batch(x))) by {
            assert forall|j: int| 0 <= j < n - 2 implies #[trigger] batch(x)[j] >= 0 by {
                assert(x[j] >= 0);
            }
        }
        assert(is_shape(batch(y))) by {
            assert forall|j: int| 0 <= j < k - 2 implies #[trigger] batch(y)[j] >= 0 by {
                assert(y[j] >= 0);
            }
        }
        lemma_broadcast_is_shape(batch(x), batch(y));
        let o = broadcast_shape(batch(x), batch(y));
        assert forall|j: int| 0 <= j < s.len() implies #[trigger] s[j] >= 0 by {
            if j < o.len() {
                assert(o[j] >= 0);
            } else if j == o.len() {
                assert(x[n - 2] >= 0);
            } else {
                assert(y[k - 1] >= 0);
            }
        }
    }
    shape
}

} // verus!
