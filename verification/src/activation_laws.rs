//! What the activation functions compute, in real numbers.
use crate::activation::{gelu, hard_sigmoid, prelu, relu, relu_grad};
use crate::elementwise::mapped;
use crate::exact::computes_reals;
use crate::index::{in_bounds, lemma_ravel_bound};
use crate::op::{BinaryOp, Const, Scalar, UnaryOp};
use crate::tensor::{Elem, Model, Tensor, binary, each, unary};
use vstd::prelude::*;

verus! {

/// A map goes element by element and keeps the shape.
pub proof fn law_mapped(t: Tensor, f: spec_fn(Elem) -> Elem, i: Seq<int>)
    requires
        t.wf(),
        in_bounds(t.shape, i),
    ensures
        mapped(t, f).shape == t.shape,
        mapped(t, f).at(i) == f(t.at(i)),
{
    lemma_ravel_bound(t.shape, i);
}

/// A primitive goes element by element and keeps the shape.
pub proof fn law_each(m: Model, op: UnaryOp, t: Tensor, i: Seq<int>)
    requires
        t.wf(),
        in_bounds(t.shape, i),
    ensures
        each(m, op, t).shape == t.shape,
        each(m, op, t).at(i) == unary(m, op, t.at(i)),
{
    lemma_ravel_bound(t.shape, i);
}

/// A rectifier passes what is positive and stops what is negative.
pub proof fn law_relu(m: Model, val: spec_fn(Elem) -> real, x: Elem)
    requires
        computes_reals(m, val),
        x is Float,
    ensures
        val(x) >= 0 as real ==> val(relu(m, x)) == val(x),
        val(x) <= 0 as real ==> val(relu(m, x)) == 0 as real,
{
    assert((m.constant)(Const::Zero) is Float);
}

/// A hard sigmoid is a straight line, `alpha` being its slope and `beta` its value at zero,
/// that is cut off at zero and at one.
pub proof fn law_hard_sigmoid(
    m: Model,
    val: spec_fn(Elem) -> real,
    alpha: Scalar,
    beta: Scalar,
    x: Elem,
)
    requires
        computes_reals(m, val),
        x is Float,
    ensures
        ({
            let line = val((m.constant)(Const::Value(alpha))) * val(x) + val(
                (m.constant)(Const::Value(beta)),
            );
            let y = val(hard_sigmoid(m, alpha, beta, x));
            &&& 0 as real <= line <= 1 as real ==> y == line
            &&& line <= 0 as real ==> y == 0 as real
            &&& line >= 1 as real ==> y == 1 as real
        }),
{
    let (a, b) = ((m.constant)(Const::Value(alpha)), (m.constant)(Const::Value(beta)));
    assert(a is Float && b is Float);
    assert((m.constant)(Const::Zero) is Float && (m.constant)(Const::One) is Float);
    let (u, v) = (val(a), val(x));
    assert(u * v == v * u) by (nonlinear_arith);
}

/// Between two points of its straight part a hard sigmoid rises by `alpha` times their
/// distance, and at zero it is `beta`.
pub proof fn law_hard_sigmoid_slope(
    m: Model,
    val: spec_fn(Elem) -> real,
    alpha: Scalar,
    beta: Scalar,
    x: Elem,
    y: Elem,
)
    requires
        computes_reals(m, val),
        x is Float,
        y is Float,
        (0 as real) < val(hard_sigmoid(m, alpha, beta, x)),
        val(hard_sigmoid(m, alpha, beta, x)) < (1 as real),
        (0 as real) < val(hard_sigmoid(m, alpha, beta, y)),
        val(hard_sigmoid(m, alpha, beta, y)) < (1 as real),
    ensures
        val(hard_sigmoid(m, alpha, beta, x)) - val(hard_sigmoid(m, alpha, beta, y)) == val(
            (m.constant)(Const::Value(alpha)),
        ) * (val(x) - val(y)),
        val(x) == 0 as real ==> val(hard_sigmoid(m, alpha, beta, x)) == val(
            (m.constant)(Const::Value(beta)),
        ),
{
    law_hard_sigmoid(m, val, alpha, beta, x);
    law_hard_sigmoid(m, val, alpha, beta, y);
    let a = val((m.constant)(Const::Value(alpha)));
    let (p, q) = (val(x), val(y));
    assert(a * p - a * q == a * (p - q)) by (nonlinear_arith);
    if p == 0 as real {
        assert(a * p == 0 as real) by (nonlinear_arith)
            requires
                p == 0 as real,
        ;
    }
}

/// Above zero a rectifier with a slope passes its input, below zero the slope times its input.
pub proof fn law_prelu(m: Model, val: spec_fn(Elem) -> real, x: Elem, alpha: Elem)
    requires
        computes_reals(m, val),
        x is Float,
        alpha is Float,
    ensures
        val(x) >= 0 as real ==> val(prelu(m, x, alpha)) == val(x),
        val(x) <= 0 as real ==> val(prelu(m, x, alpha)) == val(alpha) * val(x),
{
    let zero = (m.constant)(Const::Zero);
    assert(zero is Float);
    let low = binary(m, BinaryOp::Minimum, x, zero);
    let (a, b) = (val(alpha), val(low));
    if b == 0 as real {
        assert(a * b == 0 as real) by (nonlinear_arith)
            requires
                b == 0 as real,
        ;
    }
}

/// With a slope between zero and one, a leaky rectifier passes its input above zero and the
/// slope times its input below.
pub proof fn law_leaky_relu(m: Model, val: spec_fn(Elem) -> real, slope: Scalar, x: Elem)
    requires
        computes_reals(m, val),
        x is Float,
        0 as real <= val((m.constant)(Const::Single(slope))) <= 1 as real,
    ensures
        val(x) >= 0 as real ==> val(unary(m, UnaryOp::LeakyRelu(slope), x)) == val(x),
        val(x) <= 0 as real ==> val(unary(m, UnaryOp::LeakyRelu(slope), x)) == val(
            (m.constant)(Const::Single(slope)),
        ) * val(x),
{
    let c = (m.constant)(Const::Single(slope));
    assert(c is Float);
    let (s, v) = (val(c), val(x));
    if v >= 0 as real {
        assert(s * v <= v) by (nonlinear_arith)
            requires
                0 as real <= s <= 1 as real,
                v >= 0 as real,
        ;
    }
    if v <= 0 as real {
        assert(s * v >= v) by (nonlinear_arith)
            requires
                0 as real <= s <= 1 as real,
                v <= 0 as real,
        ;
    }
}

/// The gradient of a rectifier is passed on where the input is positive and stopped elsewhere.
pub proof fn law_relu_grad(m: Model, val: spec_fn(Elem) -> real, x: Elem, g: Elem)
    requires
        computes_reals(m, val),
        x is Float,
        g is Float,
    ensures
        val(x) > 0 as real ==> val(relu_grad(m, x, g)) == val(g),
        val(x) <= 0 as real ==> val(relu_grad(m, x, g)) == 0 as real,
{
    assert((m.constant)(Const::Zero) is Float && (m.constant)(Const::One) is Float);
    let v = val(g);
    assert(v * (1 as real) == v) by (nonlinear_arith);
    assert(v * (0 as real) == 0 as real) by (nonlinear_arith);
}

/// The sigmoid of the model is the function `sig`.
pub open spec fn sigmoid_is(
    m: Model,
    val: spec_fn(Elem) -> real,
    sig: spec_fn(real) -> real,
) -> bool {
    forall|e: Elem|
        e is Float ==> (#[trigger] (m.unary)(UnaryOp::Sigmoid, e)) is Float && val(
            (m.unary)(UnaryOp::Sigmoid, e),
        ) == sig(val(e))
}

/// The error linear unit weighs its input by the sigmoid at 1.702 times the input.
pub proof fn law_gelu(
    m: Model,
    val: spec_fn(Elem) -> real,
    sig: spec_fn(real) -> real,
    x: Elem,
    u: real,
)
    requires
        computes_reals(m, val),
        sigmoid_is(m, val, sig),
        x is Float,
        u * (1000 as real) == (1702 as real) * val(x),
    ensures
        val(gelu(m, x)) == val(x) * sig(u),
{
    let coef = (m.constant)(Const::Ratio { num: 1702, den: 1000 });
    assert(coef is Float);
    let (c, v) = (val(coef), val(x));
    assert(c * (1000u32 as real) == (1702u32 as real));
    let scaled = binary(m, BinaryOp::Multiply, x, coef);
    assert(scaled is Float && val(scaled) == v * c);
    assert(v * c == u) by (nonlinear_arith)
        requires
            c * (1000 as real) == (1702 as real),
            u * (1000 as real) == (1702 as real) * v,
    ;
    assert((m.unary)(UnaryOp::Sigmoid, scaled) is Float);
}

/// The error linear unit of a number and of its negative differ by the number, as they do for
/// any sigmoid that is symmetric.
pub proof fn law_gelu_symmetry(
    m: Model,
    val: spec_fn(Elem) -> real,
    sig: spec_fn(real) -> real,
    x: Elem,
    y: Elem,
)
    requires
        computes_reals(m, val),
        sigmoid_is(m, val, sig),
        forall|u: real| #[trigger] sig(0 as real - u) == 1 as real - sig(u),
        x is Float,
        y is Float,
        val(y) == 0 as real - val(x),
    ensures
        val(gelu(m, x)) - val(gelu(m, y)) == val(x),
{
    let v = val(x);
    let u = (1702 as real) * v / (1000 as real);
    let w = 0 as real - u;
    assert(u * (1000 as real) == (1702 as real) * v) by (nonlinear_arith)
        requires
            u == (1702 as real) * v / (1000 as real),
    ;
    assert(w * (1000 as real) == (1702 as real) * (0 as real - v)) by (nonlinear_arith)
        requires
            w == 0 as real - u,
            u * (1000 as real) == (1702 as real) * v,
    ;
    law_gelu(m, val, sig, x, u);
    law_gelu(m, val, sig, y, w);
    let s = sig(u);
    assert(sig(0 as real - u) == 1 as real - s);
    assert(v * s - (0 as real - v) * (1 as real - s) == v) by (nonlinear_arith);
}

} // verus!
