//! Element by element combinations that keep the shape of an array.
use crate::array::{Array, copy_i32};
use crate::index::{in_bounds, lemma_ravel_bound, lemma_size_nonneg};
use crate::op::{BinaryOp, Const, TernaryOp};
use crate::tensor::{
    Elem, Model, Tensor, binary, broadcast_index, broadcast_shape, broadcasts_to, compatible,
    lemma_absorb, lemma_broadcast_index_same, lemma_look_scalar, lemma_tabulate, lemma_tensor_ext,
    look, scalar, tabulate, ternary, zip,
};
use vstd::prelude::*;

verus! {

/// `f` applied to every element.
pub open spec fn mapped(t: Tensor, f: spec_fn(Elem) -> Elem) -> Tensor {
    Tensor { shape: t.shape, data: Seq::new(t.data.len(), |p: int| f(t.data[p])) }
}

/// Every element of `a` combined with what `b` contributes at its index.
pub open spec fn combined(m: Model, op: BinaryOp, a: Tensor, b: Tensor) -> Tensor {
    tabulate(a.shape, |i: Seq<int>| binary(m, op, a.at(i), look(b, i)))
}

/// `filler` where `mask` is true, the element of `t` where it is false.
pub open spec fn filled_where(m: Model, mask: Tensor, filler: Elem, t: Tensor) -> Tensor {
    tabulate(
        t.shape,
        |i: Seq<int>| ternary(m, TernaryOp::Where, look(mask, i), filler, t.at(i)),
    )
}

/// A combination with an operand that is repeated to the shape of the first.
pub proof fn lemma_zip_combined(m: Model, op: BinaryOp, a: Tensor, b: Tensor)
    requires
        a.wf(),
        b.wf(),
        broadcasts_to(b.shape, a.shape),
    ensures
        compatible(a.shape, b.shape),
        broadcast_shape(a.shape, b.shape) == a.shape,
        zip(m, op, a, b) == combined(m, op, a, b),
{
    let s = a.shape;
    lemma_absorb(b.shape, s);
    lemma_size_nonneg(s);
    assert forall|i: Seq<int>| in_bounds(s, i) implies #[trigger] zip(m, op, a, b).at(i)
        == combined(m, op, a, b).at(i) by {
        lemma_tabulate(
            broadcast_shape(a.shape, b.shape),
            |i: Seq<int>|
                binary(
                    m,
                    op,
                    a.at(broadcast_index(a.shape, i)),
                    b.at(broadcast_index(b.shape, i)),
                ),
            i,
        );
        lemma_tabulate(s, |i: Seq<int>| binary(m, op, a.at(i), look(b, i)), i);
        lemma_broadcast_index_same(s, i);
    }
    lemma_tensor_ext(zip(m, op, a, b), combined(m, op, a, b));
}

/// A combination with one value.
pub proof fn lemma_combined_scalar(m: Model, op: BinaryOp, a: Tensor, e: Elem)
    requires
        a.wf(),
    ensures
        compatible(a.shape, Seq::<int>::empty()),
        broadcast_shape(a.shape, Seq::<int>::empty()) == a.shape,
        zip(m, op, a, scalar(e)) == mapped(a, |x: Elem| binary(m, op, x, e)),
{
    let f = |x: Elem| binary(m, op, x, e);
    let s = a.shape;
    assert(scalar(e).wf());
    lemma_zip_combined(m, op, a, scalar(e));
    lemma_size_nonneg(s);
    assert forall|i: Seq<int>| in_bounds(s, i) implies #[trigger] combined(
        m,
        op,
        a,
        scalar(e),
    ).at(i) == mapped(a, f).at(i) by {
        lemma_tabulate(s, |i: Seq<int>| binary(m, op, a.at(i), look(scalar(e), i)), i);
        lemma_look_scalar(e, i);
        lemma_ravel_bound(s, i);
    }
    lemma_tensor_ext(combined(m, op, a, scalar(e)), mapped(a, f));
}

/// Combination of every element with a constant.
pub fn with_constant(x: &Array, op: BinaryOp, c: Const) -> (r: Array)
    requires
        x.wf(),
    ensures
        r.wf(),
        r.dims() == x.dims(),
        forall|m: Model|
            #[trigger] r.value(m) == mapped(
                x.value(m),
                |e: Elem| binary(m, op, e, (m.constant)(c)),
            ),
{
    let other = Array::constant(c);
    proof {
        lemma_absorb(Seq::<int>::empty(), x.dims());
    }
    let r = x.binary(op, &other);
    proof {
        assert forall|m: Model|
            #[trigger] r.value(m) == mapped(
                x.value(m),
                |e: Elem| binary(m, op, e, (m.constant)(c)),
            ) by {
            assert(x.value(m).wf());
            lemma_combined_scalar(m, op, x.value(m), (m.constant)(c));
        }
    }
    r
}

/// Combination with an array that is repeated to the shape of the first.
pub fn combine(x: &Array, op: BinaryOp, y: &Array) -> (r: Array)
    requires
        x.wf(),
        y.wf(),
        broadcasts_to(y.dims(), x.dims()),
    ensures
        r.wf(),
        r.dims() == x.dims(),
        forall|m: Model| #[trigger] r.value(m) == combined(m, op, x.value(m), y.value(m)),
{
    proof {
        lemma_absorb(y.dims(), x.dims());
    }
    let r = x.binary(op, y);
    proof {
        assert forall|m: Model| #[trigger] r.value(m) == combined(m, op, x.value(m), y.value(m)) by {
            assert(x.value(m).wf() && y.value(m).wf());
            lemma_zip_combined(m, op, x.value(m), y.value(m));
        }
    }
    r
}

/// `x` with a constant put where `mask` is true.
pub fn fill_where(mask: &Array, filler: Const, x: &Array) -> (r: Array)
    requires
        mask.wf(),
        x.wf(),
        broadcasts_to(mask.dims(), x.dims()),
    ensures
        r.wf(),
        r.dims() == x.dims(),
        forall|m: Model|
            #[trigger] r.value(m) == filled_where(
                m,
                mask.value(m),
                (m.constant)(filler),
                x.value(m),
            ),
{
    let ghost s = x.dims();
    let shape = copy_i32(x.shape().as_slice());
    let value = Array::constant(filler);
    let value_b = value.broadcast_to(shape.as_slice());
    proof {
        lemma_absorb(mask.dims(), s);
        lemma_absorb(s, s);
    }
    let r = Array::ternary(TernaryOp::Where, mask, &value_b, x);
    proof {
        assert forall|m: Model|
            #[trigger] r.value(m) == filled_where(
                m,
                mask.value(m),
                (m.constant)(filler),
                x.value(m),
            ) by {
            let (a, b, c) = (mask.value(m), value_b.value(m), x.value(m));
            let e = (m.constant)(filler);
            lemma_size_nonneg(s);
            assert forall|i: Seq<int>| in_bounds(s, i) implies #[trigger] r.value(m).at(i)
                == filled_where(m, a, e, c).at(i) by {
                lemma_tabulate(
                    broadcast_shape(broadcast_shape(a.shape, b.shape), c.shape),
                    |i: Seq<int>|
                        ternary(
                            m,
                            TernaryOp::Where,
                            a.at(broadcast_index(a.shape, i)),
                            b.at(broadcast_index(b.shape, i)),
                            c.at(broadcast_index(c.shape, i)),
                        ),
                    i,
                );
                lemma_tabulate(
                    s,
                    |i: Seq<int>| ternary(m, TernaryOp::Where, look(a, i), e, c.at(i)),
                    i,
                );
                lemma_broadcast_index_same(s, i);
                let v = scalar(e);
                lemma_tabulate(s, |i: Seq<int>| v.at(broadcast_index(v.shape, i)), i);
                lemma_look_scalar(e, i);
            }
            lemma_tensor_ext(r.value(m), filled_where(m, a, e, c));
        }
    }
    r
}

} // verus!
