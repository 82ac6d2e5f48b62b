//! Activation functions.
use crate::array::Array;
use crate::elementwise::{combine, mapped, with_constant};
use crate::index::{in_bounds, lemma_ravel_bound, lemma_size_nonneg};
use crate::op::{BinaryOp, Const, Scalar, TernaryOp, UnaryOp};
use crate::primitive::{Mlx, MlxTensorPrimitive};
use crate::tensor::{
    Elem, Model, Tensor, aligned, binary, broadcast_index, broadcast_shape, broadcasts_to,
    compatible, each, lemma_absorb, lemma_broadcast_index_same, lemma_broadcast_is_shape,
    lemma_broadcast_to_index, lemma_look_scalar, lemma_tabulate, lemma_tensor_ext, lemma_zip_look,
    look, max_rank, tabulate, ternary, unary,
};
use vstd::prelude::*;

verus! {

pub open spec fn relu(m: Model, e: Elem) -> Elem {
    binary(m, BinaryOp::Maximum, e, (m.constant)(Const::Zero))
}

/// `x * sigmoid(1.702 * x)`.
pub open spec fn gelu(m: Model, e: Elem) -> Elem {
    let coef = (m.constant)(Const::Ratio { num: 1702, den: 1000 });
    binary(
        m,
        BinaryOp::Multiply,
        e,
        unary(m, UnaryOp::Sigmoid, binary(m, BinaryOp::Multiply, e, coef)),
    )
}

/// `alpha * x + beta` within zero and one.
pub open spec fn hard_sigmoid(m: Model, alpha: Scalar, beta: Scalar, e: Elem) -> Elem {
    let scaled = binary(m, BinaryOp::Multiply, e, (m.constant)(Const::Value(alpha)));
    ternary(
        m,
        TernaryOp::Clip,
        binary(m, BinaryOp::Add, scaled, (m.constant)(Const::Value(beta))),
        (m.constant)(Const::Zero),
        (m.constant)(Const::One),
    )
}

/// `max(x, 0) + alpha * min(x, 0)`.
pub open spec fn prelu(m: Model, x: Elem, alpha: Elem) -> Elem {
    let zero = (m.constant)(Const::Zero);
    binary(
        m,
        BinaryOp::Add,
        binary(m, BinaryOp::Maximum, x, zero),
        binary(m, BinaryOp::Multiply, alpha, binary(m, BinaryOp::Minimum, x, zero)),
    )
}

/// The gradient `g` times one where `x` is positive, times zero elsewhere.
pub open spec fn relu_grad(m: Model, x: Elem, g: Elem) -> Elem {
    let positive = (m.greater)(x, (m.constant)(Const::Zero));
    binary(
        m,
        BinaryOp::Multiply,
        g,
        (m.constant)(
            if positive {
                Const::One
            } else {
                Const::Zero
            },
        ),
    )
}

/// The tensors `a` and `b` combined by `f`, in the shape that they broadcast to.
pub open spec fn paired(a: Tensor, b: Tensor, f: spec_fn(Elem, Elem) -> Elem) -> Tensor {
    tabulate(broadcast_shape(a.shape, b.shape), |i: Seq<int>| f(look(a, i), look(b, i)))
}

/// Where an operand of shape `a` is combined with one of shape `b`, each can be
/// repeated to the combined shape.
pub proof fn lemma_operands_repeat(a: Seq<int>, b: Seq<int>)
    requires
        compatible(a, b),
    ensures
        broadcasts_to(a, broadcast_shape(a, b)),
        broadcasts_to(b, broadcast_shape(a, b)),
{
    let r = max_rank(a, b);
    let s = broadcast_shape(a, b);
    assert forall|k: int| 0 <= k < a.len() implies #[trigger] a[k] == s[s.len() - a.len() + k]
        || a[k] == 1 by {
        assert(aligned(a, r, r - a.len() + k) == a[k]);
    }
    assert forall|k: int| 0 <= k < b.len() implies #[trigger] b[k] == s[s.len() - b.len() + k]
        || b[k] == 1 by {
        let j = r - b.len() + k;
        assert(aligned(b, r, j) == b[k]);
        assert(aligned(a, r, j) == aligned(b, r, j) || aligned(a, r, j) == 1 || aligned(b, r, j)
            == 1);
    }
}

/// What a mapped operand contributes is the map of what the operand does.
proof fn lemma_look_mapped(t: Tensor, f: spec_fn(Elem) -> Elem, s: Seq<int>, i: Seq<int>)
    requires
        t.wf(),
        broadcasts_to(t.shape, s),
        in_bounds(s, i),
    ensures
        look(mapped(t, f), i) == f(look(t, i)),
{
    lemma_broadcast_to_index(t.shape, s, i);
    lemma_ravel_bound(t.shape, broadcast_index(t.shape, i));
}

impl Mlx {
    pub fn relu(tensor: MlxTensorPrimitive) -> (r: MlxTensorPrimitive)
        requires
            tensor.wf(),
        ensures
            r.wf(),
            forall|m: Model| #[trigger] r.value(m) == mapped(tensor.value(m), |e: Elem| relu(m, e)),
    {
        let array = with_constant(&tensor.array, BinaryOp::Maximum, Const::Zero);
        proof {
            assert forall|m: Model|
                #[trigger] array.value(m) == mapped(tensor.value(m), |e: Elem| relu(m, e)) by {
                assert(array.value(m).data == mapped(tensor.value(m), |e: Elem| relu(m, e)).data);
            }
        }
        MlxTensorPrimitive::new(array)
    }

    pub fn sigmoid(tensor: MlxTensorPrimitive) -> (r: MlxTensorPrimitive)
        requires
            tensor.wf(),
        ensures
            r.wf(),
            forall|m: Model| #[trigger] r.value(m) == each(m, UnaryOp::Sigmoid, tensor.value(m)),
    {
        MlxTensorPrimitive::new(tensor.array.unary(UnaryOp::Sigmoid))
    }

    /// The Gaussian error linear unit, approximated by a sigmoid.
    pub fn gelu(tensor: MlxTensorPrimitive) -> (r: MlxTensorPrimitive)
        requires
            tensor.wf(),
        ensures
            r.wf(),
            forall|m: Model| #[trigger] r.value(m) == mapped(tensor.value(m), |e: Elem| gelu(m, e)),
    {
        let coef = Const::Ratio { num: 1702, den: 1000 };
        let scaled = with_constant(&tensor.array, BinaryOp::Multiply, coef);
        let sigmoid = scaled.unary(UnaryOp::Sigmoid);
        let ghost s = tensor.dims();
        proof {
            assert(broadcasts_to(s, s));
        }
        let array = combine(&tensor.array, BinaryOp::Multiply, &sigmoid);
        proof {
            assert forall|m: Model|
                #[trigger] array.value(m) == mapped(tensor.value(m), |e: Elem| gelu(m, e)) by {
                let (t, g) = (tensor.value(m), sigmoid.value(m));
                let spec = mapped(t, |e: Elem| gelu(m, e));
                lemma_size_nonneg(s);
                assert(t.wf());
                assert forall|i: Seq<int>| in_bounds(s, i) implies #[trigger] array.value(m).at(i)
                    == spec.at(i) by {
                    lemma_tabulate(
                        s,
                        |i: Seq<int>| binary(m, BinaryOp::Multiply, t.at(i), look(g, i)),
                        i,
                    );
                    lemma_broadcast_index_same(s, i);
                    lemma_ravel_bound(s, i);
                }
                lemma_tensor_ext(array.value(m), spec);
            }
        }
        MlxTensorPrimitive::new(array)
    }

    pub fn leaky_relu(tensor: MlxTensorPrimitive, negative_slope: Scalar) -> (r: MlxTensorPrimitive)
        requires
            tensor.wf(),
        ensures
            r.wf(),
            forall|m: Model|
                #[trigger] r.value(m) == each(
                    m,
                    UnaryOp::LeakyRelu(negative_slope),
                    tensor.value(m),
                ),
    {
        MlxTensorPrimitive::new(tensor.array.unary(UnaryOp::LeakyRelu(negative_slope)))
    }

    pub fn hard_sigmoid(tensor: MlxTensorPrimitive, alpha: Scalar, beta: Scalar) -> (r:
        MlxTensorPrimitive)
        requires
            tensor.wf(),
        ensures
            r.wf(),
            forall|m: Model|
                #[trigger] r.value(m) == mapped(
                    tensor.value(m),
                    |e: Elem| hard_sigmoid(m, alpha, beta, e),
                ),
    {
        let ghost s = tensor.dims();
        let ghost none = Seq::<int>::empty();
        let scaled = with_constant(&tensor.array, BinaryOp::Multiply, Const::Value(alpha));
        let shifted = with_constant(&scaled, BinaryOp::Add, Const::Value(beta));
        let zero = Array::constant(Const::Zero);
        let one = Array::constant(Const::One);
        proof {
            lemma_absorb(none, s);
        }
        let array = Array::ternary(TernaryOp::Clip, &shifted, &zero, &one);
        proof {
            assert forall|m: Model|
                #[trigger] array.value(m) == mapped(
                    tensor.value(m),
                    |e: Elem| hard_sigmoid(m, alpha, beta, e),
                ) by {
                let spec = mapped(tensor.value(m), |e: Elem| hard_sigmoid(m, alpha, beta, e));
                let (a, b, c) = (shifted.value(m), zero.value(m), one.value(m));
                lemma_size_nonneg(s);
                assert(tensor.value(m).wf());
                assert forall|i: Seq<int>| in_bounds(s, i) implies #[trigger] array.value(m).at(i)
                    == spec.at(i) by {
                    lemma_tabulate(
                        broadcast_shape(broadcast_shape(a.shape, b.shape), c.shape),
                        |i: Seq<int>|
                            ternary(
                                m,
                                TernaryOp::Clip,
                                a.at(broadcast_index(a.shape, i)),
                                b.at(broadcast_index(b.shape, i)),
                                c.at(broadcast_index(c.shape, i)),
                            ),
                        i,
                    );
                    lemma_broadcast_index_same(s, i);
                    lemma_ravel_bound(s, i);
                    lemma_look_scalar((m.constant)(Const::Zero), i);
                    lemma_look_scalar((m.constant)(Const::One), i);
                }
                lemma_tensor_ext(array.value(m), spec);
            }
        }
        MlxTensorPrimitive::new(array)
    }

    pub fn log_sigmoid(tensor: MlxTensorPrimitive) -> (r: MlxTensorPrimitive)
        requires
            tensor.wf(),
        ensures
            r.wf(),
            forall|m: Model|
                #[trigger] r.value(m) == mapped(
                    tensor.value(m),
                    |e: Elem| unary(m, UnaryOp::Log, unary(m, UnaryOp::Sigmoid, e)),
                ),
    {
        let sig = tensor.array.unary(UnaryOp::Sigmoid);
        let array = sig.unary(UnaryOp::Log);
        proof {
            assert forall|m: Model|
                #[trigger] array.value(m) == mapped(
                    tensor.value(m),
                    |e: Elem| unary(m, UnaryOp::Log, unary(m, UnaryOp::Sigmoid, e)),
                ) by {
                assert(array.value(m).data == mapped(
                    tensor.value(m),
                    |e: Elem| unary(m, UnaryOp::Log, unary(m, UnaryOp::Sigmoid, e)),
                ).data);
            }
        }
        MlxTensorPrimitive::new(array)
    }

    /// A rectifier whose slope below zero is an operand.
    pub fn prelu(tensor: MlxTensorPrimitive, alpha: MlxTensorPrimitive) -> (r: MlxTensorPrimitive)
        requires
            tensor.wf(),
            alpha.wf(),
            compatible(alpha.dims(), tensor.dims()),
        ensures
            r.wf(),
            forall|m: Model|
                #[trigger] r.value(m) == paired(
                    alpha.value(m),
                    tensor.value(m),
                    |a: Elem, x: Elem| prelu(m, x, a),
                ),
    {
        let ghost (ts, als) = (tensor.dims(), alpha.dims());
        let ghost s = broadcast_shape(als, ts);
        let pos = with_constant(&tensor.array, BinaryOp::Maximum, Const::Zero);
        let neg = with_constant(&tensor.array, BinaryOp::Minimum, Const::Zero);
        let scaled_neg = alpha.array.binary(BinaryOp::Multiply, &neg);
        proof {
            lemma_operands_repeat(als, ts);
            lemma_absorb(ts, s);
        }
        let array = pos.binary(BinaryOp::Add, &scaled_neg);
        proof {
            assert forall|m: Model|
                #[trigger] array.value(m) == paired(
                    alpha.value(m),
                    tensor.value(m),
                    |a: Elem, x: Elem| prelu(m, x, a),
                ) by {
                let (t, a) = (tensor.value(m), alpha.value(m));
                let f = |a: Elem, x: Elem| prelu(m, x, a);
                let zero = (m.constant)(Const::Zero);
                let (p, n, c) = (pos.value(m), neg.value(m), scaled_neg.value(m));
                lemma_broadcast_is_shape(als, ts);
                lemma_size_nonneg(s);
                assert(t.wf());
                assert forall|i: Seq<int>| in_bounds(s, i) implies #[trigger] array.value(m).at(i)
                    == paired(a, t, f).at(i) by {
                    lemma_tabulate(s, |i: Seq<int>| f(look(a, i), look(t, i)), i);
                    lemma_tabulate(
                        broadcast_shape(p.shape, c.shape),
                        |i: Seq<int>|
                            binary(
                                m,
                                BinaryOp::Add,
                                p.at(broadcast_index(p.shape, i)),
                                c.at(broadcast_index(c.shape, i)),
                            ),
                        i,
                    );
                    assert(broadcasts_to(s, s));
                    lemma_zip_look(m, BinaryOp::Multiply, a, n, s, i);
                    lemma_look_mapped(
                        t,
                        |e: Elem| binary(m, BinaryOp::Maximum, e, zero),
                        s,
                        i,
                    );
                    lemma_look_mapped(
                        t,
                        |e: Elem| binary(m, BinaryOp::Minimum, e, zero),
                        s,
                        i,
                    );
                }
                lemma_tensor_ext(array.value(m), paired(a, t, f));
            }
        }
        MlxTensorPrimitive::new(array)
    }

    /// The gradient of `gelu` is not computed: the gradient passes through.
    pub fn gelu_backward(_x: MlxTensorPrimitive, grad: MlxTensorPrimitive) -> (r:
        MlxTensorPrimitive)
        ensures
            r == grad,
    {
        grad
    }

    pub fn relu_backward(x: MlxTensorPrimitive, grad: MlxTensorPrimitive) -> (r: MlxTensorPrimitive)
        requires
            x.wf(),
            grad.wf(),
            compatible(grad.dims(), x.dims()),
        ensures
            r.wf(),
            forall|m: Model|
                #[trigger] r.value(m) == paired(
                    grad.value(m),
                    x.value(m),
                    |g: Elem, e: Elem| relu_grad(m, e, g),
                ),
    {
        let ghost (gs, xs) = (grad.dims(), x.dims());
        let ghost s = broadcast_shape(gs, xs);
        let mask = with_constant(&x.array, BinaryOp::Greater, Const::Zero);
        let mask_float = mask.unary(UnaryOp::CastFloat);
        let array = grad.array.binary(BinaryOp::Multiply, &mask_float);
        proof {
            assert forall|m: Model|
                #[trigger] array.value(m) == paired(
                    grad.value(m),
                    x.value(m),
                    |g: Elem, e: Elem| relu_grad(m, e, g),
                ) by {
                let (g, t) = (grad.value(m), x.value(m));
                let f = |g: Elem, e: Elem| relu_grad(m, e, g);
                let zero = (m.constant)(Const::Zero);
                let c = |e: Elem|
                    unary(m, UnaryOp::CastFloat, binary(m, BinaryOp::Greater, e, zero));
                let k = mask_float.value(m);
                assert(t.wf());
                assert(k.data == mapped(t, c).data);
                lemma_operands_repeat(gs, xs);
                lemma_broadcast_is_shape(gs, xs);
                lemma_size_nonneg(s);
                assert forall|i: Seq<int>| in_bounds(s, i) implies #[trigger] array.value(m).at(i)
                    == paired(g, t, f).at(i) by {
                    lemma_tabulate(s, |i: Seq<int>| f(look(g, i), look(t, i)), i);
                    lemma_tabulate(
                        broadcast_shape(g.shape, k.shape),
                        |i: Seq<int>|
                            binary(
                                m,
                                BinaryOp::Multiply,
                                g.at(broadcast_index(g.shape, i)),
                                k.at(broadcast_index(k.shape, i)),
                            ),
                        i,
                    );
                    lemma_look_mapped(t, c, s, i);
                }
                lemma_tensor_ext(array.value(m), paired(g, t, f));
            }
        }
        MlxTensorPrimitive::new(array)
    }
}

} // verus!
