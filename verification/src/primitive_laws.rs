//! What the primitive operations of array graphs mean.
use crate::activation::paired;
use crate::array::{extent_total, values};
use crate::attention::optional_value;
use crate::base::{MlxTensor, arrays_of, coordinates, holds_index};
use crate::conv::{bias_value, single_zero};
use crate::elementwise::{combined, filled_where};
use crate::exact::{all_floats, computes_exactly, lemma_sum_kept, lemma_total_ext, total};
use crate::index::{in_bounds, is_shape, lemma_ravel_unravel, offset, ravel, size, unravel};
use crate::node::{Node, eval, evals, ints, longs};
use crate::op::{BinaryOp, Const, Kernel, ReduceOp, TernaryOp, UnaryOp};
use crate::primitive::{MlxTensorPrimitive, sizes};
use crate::tensor::{
    Elem, Model, Tensor, aligned, all_ints, axis_total, batch, binary, broadcast_index, broadcast_shape,
    broadcast_to, compatible, concatenate, constant_tensor, each, kernel, lane, lemma_tabulate,
    look, matmul, matmul_fits, matmul_shape, max_rank, pad, padded_shape, permute,
    positions_valid, reduce, reduce_axes, reshape, row, scatter_add, slice, softmax, strided,
    take, ternary, unary, zip, zip3,
};
use std::sync::Arc;
use vstd::arithmetic::div_mod::*;
use vstd::arithmetic::mul::*;
use vstd::prelude::*;

verus! {

/// `j` is the index that an operand of shape `s` is read at for index `i` of a result of the
/// same or a higher rank: its axes are the last ones, and one of extent one is repeated.
pub open spec fn reads_at(s: Seq<int>, i: Seq<int>, j: Seq<int>) -> bool {
    &&& s.len() <= i.len()
    &&& j.len() == s.len()
    &&& forall|k: int|
        0 <= k < s.len() ==> #[trigger] j[k] == (if s[k] == 1 {
            0
        } else {
            i[i.len() - s.len() + k]
        })
}

proof fn lemma_reads_at(s: Seq<int>, i: Seq<int>, j: Seq<int>)
    requires
        reads_at(s, i, j),
    ensures
        broadcast_index(s, i) == j,
{
    assert forall|k: int| 0 <= k < s.len() implies broadcast_index(s, i)[k] == j[k] by {
        assert(j[k] == j[k]);
    }
}

/// Repeating a tensor to a broader shape.
pub proof fn law_broadcast_entry(t: Tensor, s: Seq<int>, i: Seq<int>, j: Seq<int>)
    requires
        in_bounds(s, i),
        reads_at(t.shape, i, j),
    ensures
        broadcast_to(t, s).shape == s,
        broadcast_to(t, s).at(i) == t.at(j),
{
    lemma_tabulate(s, |i: Seq<int>| t.at(broadcast_index(t.shape, i)), i);
    lemma_reads_at(t.shape, i, j);
}

/// The extent of a shape at place `e`, counted from its last axis. There are axes of extent one
/// before the first.
pub open spec fn extent_from_end(s: Seq<int>, e: int) -> int {
    if e < s.len() {
        s[s.len() - 1 - e]
    } else {
        1
    }
}

/// The shape that two operands combine to has their common extents, and the other extent where
/// one of them is one.
pub proof fn law_combined_shape(a: Seq<int>, b: Seq<int>, e: int)
    requires
        compatible(a, b),
        0 <= e < broadcast_shape(a, b).len(),
    ensures
        broadcast_shape(a, b).len() == (if a.len() < b.len() {
            b.len()
        } else {
            a.len()
        }),
        ({
            let (x, y) = (extent_from_end(a, e), extent_from_end(b, e));
            let z = extent_from_end(broadcast_shape(a, b), e);
            &&& x == 1 ==> z == y
            &&& y == 1 ==> z == x
            &&& x != 1 && y != 1 ==> z == x && z == y
        }),
{
    let r = max_rank(a, b);
    let k = r - 1 - e;
    assert(aligned(a, r, k) == extent_from_end(a, e));
    assert(aligned(b, r, k) == extent_from_end(b, e));
}

/// Two operands of different shapes are combined by `f` element by element, the first operand
/// being its first argument.
pub proof fn law_paired_entry(
    a: Tensor,
    b: Tensor,
    f: spec_fn(Elem, Elem) -> Elem,
    i: Seq<int>,
    ja: Seq<int>,
    jb: Seq<int>,
)
    requires
        in_bounds(broadcast_shape(a.shape, b.shape), i),
        reads_at(a.shape, i, ja),
        reads_at(b.shape, i, jb),
    ensures
        paired(a, b, f).shape == broadcast_shape(a.shape, b.shape),
        paired(a, b, f).at(i) == f(a.at(ja), b.at(jb)),
{
    lemma_tabulate(
        broadcast_shape(a.shape, b.shape),
        |i: Seq<int>| f(look(a, i), look(b, i)),
        i,
    );
    lemma_reads_at(a.shape, i, ja);
    lemma_reads_at(b.shape, i, jb);
}

/// Three operands are combined element by element, in the order in which they are given.
pub proof fn law_zip3_entry(
    m: Model,
    op: TernaryOp,
    a: Tensor,
    b: Tensor,
    c: Tensor,
    i: Seq<int>,
    ja: Seq<int>,
    jb: Seq<int>,
    jc: Seq<int>,
)
    requires
        in_bounds(broadcast_shape(broadcast_shape(a.shape, b.shape), c.shape), i),
        reads_at(a.shape, i, ja),
        reads_at(b.shape, i, jb),
        reads_at(c.shape, i, jc),
    ensures
        zip3(m, op, a, b, c).at(i) == ternary(m, op, a.at(ja), b.at(jb), c.at(jc)),
{
    lemma_tabulate(
        broadcast_shape(broadcast_shape(a.shape, b.shape), c.shape),
        |i: Seq<int>|
            ternary(
                m,
                op,
                a.at(broadcast_index(a.shape, i)),
                b.at(broadcast_index(b.shape, i)),
                c.at(broadcast_index(c.shape, i)),
            ),
        i,
    );
    lemma_reads_at(a.shape, i, ja);
    lemma_reads_at(b.shape, i, jb);
    lemma_reads_at(c.shape, i, jc);
}

/// An operand that is repeated to the shape of the first is the second argument.
pub proof fn law_combined_entry(
    m: Model,
    op: BinaryOp,
    a: Tensor,
    b: Tensor,
    i: Seq<int>,
    jb: Seq<int>,
)
    requires
        in_bounds(a.shape, i),
        reads_at(b.shape, i, jb),
    ensures
        combined(m, op, a, b).shape == a.shape,
        combined(m, op, a, b).at(i) == binary(m, op, a.at(i), b.at(jb)),
{
    lemma_tabulate(a.shape, |i: Seq<int>| binary(m, op, a.at(i), look(b, i)), i);
    lemma_reads_at(b.shape, i, jb);
}

/// An element is replaced where the mask is true, and kept where it is false.
pub proof fn law_filled_entry(
    m: Model,
    mask: Tensor,
    filler: Elem,
    t: Tensor,
    i: Seq<int>,
    jm: Seq<int>,
)
    requires
        in_bounds(t.shape, i),
        reads_at(mask.shape, i, jm),
    ensures
        filled_where(m, mask, filler, t).shape == t.shape,
        mask.at(jm) == Elem::Bool(true) ==> filled_where(m, mask, filler, t).at(i) == filler,
        mask.at(jm) == Elem::Bool(false) ==> filled_where(m, mask, filler, t).at(i) == t.at(i),
{
    lemma_tabulate(
        t.shape,
        |i: Seq<int>| ternary(m, TernaryOp::Where, look(mask, i), filler, t.at(i)),
        i,
    );
    lemma_reads_at(mask.shape, i, jm);
}

/// Integers are added, multiplied and divided as integers.
pub proof fn law_integer_operations(m: Model, x: int, y: int)
    ensures
        i32::MIN <= x + y <= i32::MAX ==> binary(m, BinaryOp::Add, Elem::Int(x), Elem::Int(y))
            == Elem::Int(x + y),
        i32::MIN <= x * y <= i32::MAX ==> binary(
            m,
            BinaryOp::Multiply,
            Elem::Int(x),
            Elem::Int(y),
        ) == Elem::Int(x * y),
        0 <= x <= i32::MAX && 0 < y ==> ({
            let q = binary(m, BinaryOp::FloorDivide, Elem::Int(x), Elem::Int(y));
            let r = binary(m, BinaryOp::Remainder, Elem::Int(x), Elem::Int(y));
            &&& q is Int
            &&& r is Int
            &&& x == q->Int_0 * y + r->Int_0
            &&& 0 <= r->Int_0 < y
        }),
{
    if 0 <= x <= i32::MAX && 0 < y {
        lemma_fundamental_div_mod(x, y);
        lemma_mod_bound(x, y);
        lemma_div_pos_is_pos(x, y);
        lemma_div_nonincreasing(x, y);
        lemma_mul_is_commutative(y, x / y);
        lemma_mod_decreases(x as nat, y as nat);
    }
}

/// The sum of integers starts at zero, and every integer adds to it.
pub proof fn law_integer_sum(m: Model, s: Seq<Elem>, a: int, x: int)
    requires
        forall|k: int| 0 <= k < s.len() ==> #[trigger] s[k] is Int,
        reduce(m, ReduceOp::Sum, s) == Elem::Int(a),
        i32::MIN <= a + x <= i32::MAX,
    ensures
        reduce(m, ReduceOp::Sum, seq![]) == Elem::Int(0),
        reduce(m, ReduceOp::Sum, s.push(Elem::Int(x))) == Elem::Int(a + x),
{
    let t = s.push(Elem::Int(x));
    assert(t.drop_last() == s);
    assert(all_ints(t));
    assert(all_ints(s));
    assert(all_ints(seq![]));
}

/// An operand that is not there has no value, and one that is there has its own.
pub proof fn law_optional(t: Option<MlxTensorPrimitive>, m: Model)
    ensures
        t is None ==> optional_value(t, m) is None && bias_value(t, m) is None,
        t matches Some(x) ==> optional_value(t, m) == Some(x.value(m)) && bias_value(t, m) == Some(
            x.value(m),
        ),
{
}

/// Operands are combined element by element, in the order in which they are given.
pub proof fn law_zip_entry(
    m: Model,
    op: BinaryOp,
    a: Tensor,
    b: Tensor,
    i: Seq<int>,
    ja: Seq<int>,
    jb: Seq<int>,
)
    requires
        in_bounds(broadcast_shape(a.shape, b.shape), i),
        reads_at(a.shape, i, ja),
        reads_at(b.shape, i, jb),
    ensures
        zip(m, op, a, b).shape == broadcast_shape(a.shape, b.shape),
        zip(m, op, a, b).at(i) == binary(m, op, a.at(ja), b.at(jb)),
{
    lemma_tabulate(
        broadcast_shape(a.shape, b.shape),
        |i: Seq<int>|
            binary(
                m,
                op,
                a.at(broadcast_index(a.shape, i)),
                b.at(broadcast_index(b.shape, i)),
            ),
        i,
    );
    lemma_reads_at(a.shape, i, ja);
    lemma_reads_at(b.shape, i, jb);
}

/// What is not an operation on integers is left to the model; a choice is made by its first
/// operand.
pub proof fn law_scalar_operations(m: Model, op: BinaryOp, u: UnaryOp, a: Elem, b: Elem, c: Elem)
    ensures
        a is Float && b is Float && !(op is Greater) ==> binary(m, op, a, b) == (m.binary)(
            op,
            a,
            b,
        ),
        binary(m, BinaryOp::Greater, a, b) == Elem::Bool((m.greater)(a, b)),
        a is Float && !(u is LeakyRelu) ==> unary(m, u, a) == (m.unary)(u, a),
        a == Elem::Bool(true) ==> ternary(m, TernaryOp::Where, a, b, c) == b && unary(
            m,
            UnaryOp::CastFloat,
            a,
        ) == (m.constant)(Const::One),
        a == Elem::Bool(false) ==> ternary(m, TernaryOp::Where, a, b, c) == c && unary(
            m,
            UnaryOp::CastFloat,
            a,
        ) == (m.constant)(Const::Zero),
        ternary(m, TernaryOp::Clip, a, b, c) == (m.clip)(a, b, c),
{
}

/// Entry `(.., y, x)` of a product of matrices is the inner product of row `y` of the first and
/// column `x` of the second, of the matrices that the leading axes select.
pub proof fn law_matmul_entry(
    m: Model,
    a: Tensor,
    b: Tensor,
    i: Seq<int>,
    ja: Seq<int>,
    jb: Seq<int>,
    y: int,
    x: int,
    row: Seq<Elem>,
    column: Seq<Elem>,
)
    requires
        matmul_fits(a.shape, b.shape),
        in_bounds(matmul(m, a, b).shape, i + seq![y, x]),
        i.len() + 2 == matmul(m, a, b).shape.len(),
        reads_at(a.shape.take(a.shape.len() - 2), i, ja),
        reads_at(b.shape.take(b.shape.len() - 2), i, jb),
        row.len() == a.shape[a.shape.len() - 1],
        column.len() == row.len(),
        forall|d: int| 0 <= d < row.len() ==> #[trigger] row[d] == a.at(ja + seq![y, d]),
        forall|d: int| 0 <= d < row.len() ==> #[trigger] column[d] == b.at(jb + seq![d, x]),
    ensures
        matmul_shape(a.shape, b.shape) == matmul(m, a, b).shape,
        matmul(m, a, b).shape[i.len() as int] == a.shape[a.shape.len() - 2],
        matmul(m, a, b).shape[(i.len() + 1) as int] == b.shape[b.shape.len() - 1],
        matmul(m, a, b).at(i + seq![y, x]) == (m.dot)(row, column),
{
    let outer = broadcast_shape(batch(a.shape), batch(b.shape));
    let r = outer.len() as int;
    let inner = a.shape[a.shape.len() - 1];
    let e = i + seq![y, x];
    assert(i.len() == r);
    assert(e.take(r) == i);
    assert(e[r] == y && e[r + 1] == x);
    lemma_tabulate(
        matmul_shape(a.shape, b.shape),
        |i: Seq<int>|
            (m.dot)(
                Seq::new(
                    inner as nat,
                    |k: int| a.at(broadcast_index(batch(a.shape), i.take(r)) + seq![i[r], k]),
                ),
                Seq::new(
                    inner as nat,
                    |k: int| b.at(broadcast_index(batch(b.shape), i.take(r)) + seq![k, i[r + 1]]),
                ),
            ),
        e,
    );
    lemma_reads_at(batch(a.shape), i, ja);
    lemma_reads_at(batch(b.shape), i, jb);
    assert(Seq::new(
        inner as nat,
        |k: int| a.at(broadcast_index(batch(a.shape), e.take(r)) + seq![e[r], k]),
    ) == row);
    assert(Seq::new(
        inner as nat,
        |k: int| b.at(broadcast_index(batch(b.shape), e.take(r)) + seq![k, e[r + 1]]),
    ) == column);
}

/// Softmax goes row by row along the last axis.
pub proof fn law_softmax_entry(m: Model, t: Tensor, i: Seq<int>, x: int, row: Seq<Elem>)
    requires
        t.shape.len() > 0,
        in_bounds(t.shape, i.push(x)),
        row.len() == t.shape[t.shape.len() - 1],
        forall|k: int| 0 <= k < row.len() ==> #[trigger] row[k] == t.at(i.push(k)),
    ensures
        softmax(m, t).shape == t.shape,
        softmax(m, t).at(i.push(x)) == (m.softmax)(row, x),
{
    let e = i.push(x);
    lemma_tabulate(t.shape, |i: Seq<int>| (m.softmax)(crate::tensor::row(t, i), i.last()), e);
    assert(e.drop_last() == i);
    assert(crate::tensor::row(t, e) == row);
}

/// Looking entries of an axis up puts the axes of the indices in the place of that axis.
pub proof fn law_take_entry(
    t: Tensor,
    indices: Tensor,
    axis: int,
    before: Seq<int>,
    i: Seq<int>,
    after: Seq<int>,
    x: int,
)
    requires
        0 <= axis < t.shape.len(),
        before.len() == axis,
        in_bounds(indices.shape, i),
        in_bounds(t.shape, before + seq![x] + after),
        indices.at(i) == Elem::Int(x),
    ensures
        take(t, indices, axis).shape == t.shape.take(axis) + indices.shape + t.shape.skip(axis + 1),
        in_bounds(take(t, indices, axis).shape, before + i + after),
        take(t, indices, axis).at(before + i + after) == t.at(before + seq![x] + after),
{
    let s = t.shape.take(axis) + indices.shape + t.shape.skip(axis + 1);
    let e = before + i + after;
    let f = before + seq![x] + after;
    let r = indices.shape.len() as int;
    assert(in_bounds(s, e)) by {
        assert forall|k: int| 0 <= k < s.len() implies 0 <= #[trigger] e[k] < s[k] by {
            if k < axis {
                assert(0 <= f[k] < t.shape[k]);
            } else if k < axis + r {
                assert(0 <= i[k - axis] < indices.shape[k - axis]);
            } else {
                let n = k - r + 1;
                assert(0 <= f[n] < t.shape[n]);
            }
        }
    }
    lemma_tabulate(
        s,
        |i: Seq<int>|
            {
                let r = indices.shape.len() as int;
                match indices.at(i.subrange(axis, axis + r)) {
                    Elem::Int(x) => if 0 <= x < t.shape[axis] {
                        t.at(i.take(axis).push(x) + i.skip(axis + r))
                    } else {
                        Elem::Undefined
                    },
                    _ => Elem::Undefined,
                }
            },
        e,
    );
    assert(e.subrange(axis, axis + r) == i);
    assert(0 <= f[axis] < t.shape[axis]);
    assert(e.take(axis).push(x) + e.skip(axis + r) == f);
}

/// Padding puts `low[k]` entries before axis `k` and `high[k]` entries behind it.
pub proof fn law_pad_entry(
    t: Tensor,
    low: Seq<int>,
    high: Seq<int>,
    v: Elem,
    i: Seq<int>,
    j: Seq<int>,
)
    requires
        low.len() == t.shape.len(),
        high.len() == t.shape.len(),
        in_bounds(pad(t, low, high, v).shape, i),
        j.len() == i.len(),
        forall|k: int| 0 <= k < i.len() ==> i[k] == #[trigger] j[k] + low[k],
    ensures
        pad(t, low, high, v).shape.len() == t.shape.len(),
        forall|k: int|
            0 <= k < t.shape.len() ==> #[trigger] pad(t, low, high, v).shape[k] == low[k]
                + t.shape[k] + high[k],
        in_bounds(t.shape, j) ==> pad(t, low, high, v).at(i) == t.at(j),
        !in_bounds(t.shape, j) ==> pad(t, low, high, v).at(i) == v,
{
    lemma_tabulate(
        padded_shape(t.shape, low, high),
        |i: Seq<int>|
            {
                let j = Seq::new(t.shape.len(), |k: int| i[k] - low[k]);
                if in_bounds(t.shape, j) {
                    t.at(j)
                } else {
                    v
                }
            },
        i,
    );
    assert(Seq::new(t.shape.len(), |k: int| i[k] - low[k]) == j) by {
        assert forall|k: int| 0 <= k < t.shape.len() implies i[k] - low[k] == #[trigger] j[k] by {}
    }
}

/// A constant tensor holds one value everywhere.
pub proof fn law_constant_entry(s: Seq<int>, e: Elem, i: Seq<int>)
    requires
        in_bounds(s, i),
    ensures
        constant_tensor(s, e).shape == s,
        constant_tensor(s, e).at(i) == e,
{
    lemma_tabulate(s, |i: Seq<int>| e, i);
}

/// A single zero is a tensor of four axes of extent one that holds zero.
pub proof fn law_single_zero(t: MlxTensorPrimitive, m: Model)
    requires
        single_zero(t),
    ensures
        t.dims() == seq![1int, 1, 1, 1],
        t.value(m).at(seq![0, 0, 0, 0]) == (m.constant)(Const::Zero),
{
    law_constant_entry(seq![1, 1, 1, 1], (m.constant)(Const::Zero), seq![0, 0, 0, 0]);
}

/// Machine sizes and extents stand for themselves.
pub proof fn law_extents(s: Seq<usize>, e: Seq<i32>, k: int)
    requires
        0 <= k < s.len(),
        0 <= k < e.len(),
    ensures
        sizes(s).len() == s.len(),
        sizes(s)[k] == s[k],
        ints(e).len() == e.len(),
        ints(e)[k] == e[k],
{
}

/// The coordinates for a place are what the indices hold there, along their last axis.
pub proof fn law_coordinates(indices: Tensor, i: Seq<int>, c: Seq<int>)
    requires
        indices.shape.len() > 0,
        indices.shape[indices.shape.len() - 1] == c.len(),
    ensures
        holds_index(coordinates(indices, i), c) <==> forall|j: int|
            0 <= j < c.len() ==> indices.at(#[trigger] i.push(j)) == Elem::Int(c[j]),
{
    let s = coordinates(indices, i);
    if holds_index(s, c) {
        assert forall|j: int| 0 <= j < c.len() implies indices.at(#[trigger] i.push(j))
            == Elem::Int(c[j]) by {
            assert(s[j] == Elem::Int(c[j]));
        }
    }
    if forall|j: int| 0 <= j < c.len() ==> indices.at(#[trigger] i.push(j)) == Elem::Int(c[j]) {
        assert forall|j: int| 0 <= j < s.len() implies #[trigger] s[j] == Elem::Int(c[j]) by {
            assert(indices.at(i.push(j)) == Elem::Int(c[j]));
        }
    }
}

/// Another shape keeps the elements in their row-major order.
pub proof fn law_reshape_entry(t: Tensor, s: Seq<int>, i: Seq<int>, j: Seq<int>)
    requires
        ravel(s, i) == ravel(t.shape, j),
    ensures
        reshape(t, s).shape == s,
        reshape(t, s).at(i) == t.at(j),
{
}

/// Axes `first` to `last` are reduced for every index of the others: `w` lists the elements
/// that share it.
pub proof fn law_reduce_entry(
    m: Model,
    op: ReduceOp,
    t: Tensor,
    first: int,
    last: int,
    before: Seq<int>,
    after: Seq<int>,
    w: Seq<Elem>,
)
    requires
        0 <= first <= last <= t.shape.len(),
        is_shape(t.shape),
        before.len() == first,
        in_bounds(reduce_axes(m, op, t, first, last).shape, before + after),
        w.len() == size(t.shape.subrange(first, last)),
        forall|j: Seq<int>|
            in_bounds(t.shape.subrange(first, last), j) ==> w[#[trigger] ravel(
                t.shape.subrange(first, last),
                j,
            )] == t.at(before + j + after),
    ensures
        reduce_axes(m, op, t, first, last).shape == t.shape.take(first) + t.shape.skip(last),
        reduce_axes(m, op, t, first, last).at(before + after) == reduce(m, op, w),
{
    let s = t.shape.take(first) + t.shape.skip(last);
    let i = before + after;
    let inner = t.shape.subrange(first, last);
    lemma_tabulate(s, |i: Seq<int>| reduce(m, op, lane(t, first, last, i)), i);
    assert(i.take(first) == before);
    assert(i.skip(first) == after);
    assert(is_shape(inner)) by {
        assert forall|k: int| 0 <= k < inner.len() implies #[trigger] inner[k] >= 0 by {
            assert(t.shape[first + k] >= 0);
        }
    }
    let u = lane(t, first, last, i);
    assert forall|q: int| 0 <= q < w.len() implies #[trigger] u[q] == w[q] by {
        lemma_ravel_unravel(inner, q);
        assert(w[ravel(inner, unravel(inner, q))] == w[q]);
    }
    assert(u == w);
}

/// A view of two axes on the elements of a tensor.
pub proof fn law_strided_entry(t: Tensor, s: Seq<int>, strides: Seq<int>, y: int, x: int)
    requires
        s.len() == 2,
        strides.len() == 2,
        in_bounds(s, seq![y, x]),
    ensures
        strided(t, s, strides).shape == s,
        strided(t, s, strides).at(seq![y, x]) == t.data[y * strides[0] + x * strides[1]],
{
    let i = seq![y, x];
    lemma_tabulate(s, |i: Seq<int>| t.data[offset(i, strides)], i);
    reveal_with_fuel(offset, 3);
    assert(i.drop_last().drop_last() == Seq::<int>::empty());
    assert(i.last() == x && i.drop_last().last() == y);
    assert(strides.last() == strides[1] && strides.drop_last().last() == strides[0]);
}

/// A regular part of a tensor: along axis `k`, every `step[k]`-th entry from `start[k]` on.
pub proof fn law_part_entry(
    t: Tensor,
    s: Seq<int>,
    start: Seq<int>,
    step: Seq<int>,
    i: Seq<int>,
    j: Seq<int>,
)
    requires
        in_bounds(s, i),
        j.len() == i.len(),
        forall|k: int| 0 <= k < i.len() ==> #[trigger] j[k] == start[k] + i[k] * step[k],
    ensures
        slice(t, s, start, step).shape == s,
        slice(t, s, start, step).at(i) == t.at(j),
{
    lemma_tabulate(
        s,
        |i: Seq<int>| t.at(Seq::new(s.len(), |k: int| start[k] + i[k] * step[k])),
        i,
    );
    assert(Seq::new(s.len(), |k: int| start[k] + i[k] * step[k]) == j) by {
        assert forall|k: int| 0 <= k < s.len() implies start[k] + i[k] * step[k] == j[k] by {
            assert(j[k] == start[k] + i[k] * step[k]);
        }
    }
}

/// Adding updates at positions: every element gets the sum of the updates for its position.
pub proof fn law_scatter_sum(
    m: Model,
    val: spec_fn(Elem) -> real,
    base: Tensor,
    indices: Tensor,
    updates: Tensor,
    p: int,
)
    requires
        computes_exactly(m, val),
        all_floats(base.data),
        all_floats(updates.data),
        indices.data.len() == updates.data.len(),
        positions_valid(indices.data, base.data.len() as int),
        0 <= p < base.data.len(),
    ensures
        scatter_add(m, base, indices, updates).shape == base.shape,
        scatter_add(m, base, indices, updates).data.len() == base.data.len(),
        val(scatter_add(m, base, indices, updates).data[p]) == val(base.data[p]) + total(
            updates.data.len() as int,
            |q: int|
                if indices.data[q] == Elem::Int(p) {
                    val(updates.data[q])
                } else {
                    0 as real
                },
        ),
{
    let list = Seq::new(indices.data.len(), |q: int| q);
    let keep = |q: int| indices.data[q] == Elem::Int(p);
    let get = |q: int| updates.data[q];
    let kept = list.filter(keep).map_values(get);
    lemma_sum_kept(list, keep, get, val);
    lemma_total_ext(
        list.len() as int,
        |q: int|
            if keep(list[q]) {
                val(get(list[q]))
            } else {
                0 as real
            },
        |q: int|
            if indices.data[q] == Elem::Int(p) {
                val(updates.data[q])
            } else {
                0 as real
            },
    );
    lemma_listed(list, keep);
    assert(all_floats(kept)) by {
        assert forall|x: int| 0 <= x < kept.len() implies #[trigger] kept[x] is Float by {
            let q = list.filter(keep)[x];
            assert(0 <= q < updates.data.len());
            assert(kept[x] == updates.data[q]);
        }
    }
    assert((m.accumulate)(base.data[p], kept.to_multiset()) is Float);
}

/// What a filter keeps was in the list.
proof fn lemma_listed(list: Seq<int>, keep: spec_fn(int) -> bool)
    requires
        forall|q: int| 0 <= q < list.len() ==> #[trigger] list[q] == q,
    ensures
        forall|x: int|
            0 <= x < list.filter(keep).len() ==> 0 <= #[trigger] list.filter(keep)[x] < list.len(),
    decreases list.len(),
{
    reveal(Seq::filter);
    if list.len() > 0 {
        let init = list.drop_last();
        assert forall|q: int| 0 <= q < init.len() implies #[trigger] init[q] == q by {
            assert(init[q] == list[q]);
        }
        lemma_listed(init, keep);
        let kept = list.filter(keep);
        assert forall|x: int| 0 <= x < kept.len() implies 0 <= #[trigger] kept[x] < list.len() by {
            if x < init.filter(keep).len() {
                assert(kept[x] == init.filter(keep)[x]);
            }
        }
    }
}

/// The extents of joined tensors add up.
pub proof fn law_joined_extent(ts: Seq<Tensor>, t: Tensor, axis: int)
    ensures
        axis_total(Seq::<Tensor>::empty(), axis) == 0,
        axis_total(ts.push(t), axis) == axis_total(ts, axis) + t.shape[axis],
        ts.len() > 0 ==> concatenate(ts, axis).shape == ts[0].shape.update(
            axis,
            axis_total(ts, axis),
        ),
{
    assert(ts.push(t).drop_last() == ts);
}

/// The values that are joined are those of the tensors, in their order, and the extent of the
/// result is theirs added up.
pub proof fn law_concat_operands(tensors: Seq<&MlxTensor>, t: &MlxTensor, m: Model, axis: int)
    ensures
        values(arrays_of(tensors), m).len() == tensors.len(),
        forall|k: int|
            0 <= k < tensors.len() ==> #[trigger] values(arrays_of(tensors), m)[k]
                == tensors[k].value(m),
        extent_total(arrays_of(Seq::<&MlxTensor>::empty()), axis) == 0,
        extent_total(arrays_of(tensors.push(t)), axis) == extent_total(arrays_of(tensors), axis)
            + t.dims()[axis],
{
    let all = arrays_of(tensors.push(t));
    assert(all.drop_last() == arrays_of(tensors));
    assert(all.last() == &t.array);
}

/// A graph is computed from the leaves up: every node applies its operation to the values of
/// its operands, in their order.
pub proof fn law_graph(m: Model, a: Arc<Node>, b: Arc<Node>, c: Arc<Node>)
    ensures
        forall|op: UnaryOp|
            #[trigger] eval(m, Node::Unary { op, src: a }) == each(m, op, eval(m, *a)),
        forall|op: BinaryOp|
            #[trigger] eval(m, Node::Binary { op, lhs: a, rhs: b }) == zip(
                m,
                op,
                eval(m, *a),
                eval(m, *b),
            ),
        forall|op: TernaryOp|
            #[trigger] eval(m, Node::Ternary { op, a, b, c }) == zip3(
                m,
                op,
                eval(m, *a),
                eval(m, *b),
                eval(m, *c),
            ),
        eval(m, Node::Matmul { lhs: a, rhs: b }) == matmul(m, eval(m, *a), eval(m, *b)),
        eval(m, Node::Softmax { src: a }) == softmax(m, eval(m, *a)),
        forall|axis: i32|
            #[trigger] eval(m, Node::Take { src: a, indices: b, axis }) == take(
                eval(m, *a),
                eval(m, *b),
                axis as int,
            ),
        eval(m, Node::ScatterAdd { base: a, indices: b, updates: c }) == scatter_add(
            m,
            eval(m, *a),
            eval(m, *b),
            eval(m, *c),
        ),
        forall|axes: Vec<i32>|
            #[trigger] eval(m, Node::Permute { src: a, axes }) == permute(
                eval(m, *a),
                ints(axes@),
            ),
        forall|shape: Vec<i32>|
            #[trigger] eval(m, Node::Reshape { src: a, shape }) == reshape(
                eval(m, *a),
                ints(shape@),
            ),
        forall|shape: Vec<i32>|
            #[trigger] eval(m, Node::Broadcast { src: a, shape }) == broadcast_to(
                eval(m, *a),
                ints(shape@),
            ),
        forall|low: Vec<i32>, high: Vec<i32>|
            #[trigger] eval(m, Node::Pad { src: a, low, high, value: b }) == pad(
                eval(m, *a),
                ints(low@),
                ints(high@),
                eval(m, *b).data[0],
            ),
        forall|shape: Vec<i32>, start: Vec<i32>, step: Vec<i32>|
            #[trigger] eval(m, Node::Slice { src: a, start, step, shape }) == slice(
                eval(m, *a),
                ints(shape@),
                ints(start@),
                ints(step@),
            ),
        forall|shape: Vec<i32>|
            #[trigger] eval(m, Node::Zeros { shape }) == constant_tensor(
                ints(shape@),
                (m.constant)(Const::Zero),
            ),
        forall|value: Const|
            (#[trigger] eval(m, Node::Constant { value })).data == seq![(m.constant)(value)],
        forall|op: ReduceOp, first: usize, last: usize|
            #[trigger] eval(m, Node::Reduce { op, src: a, first, last }) == reduce_axes(
                m,
                op,
                eval(m, *a),
                first as int,
                last as int,
            ),
{
    reveal(eval);
}

/// The leaves of a graph hold what they were made with, and a node with a list of operands is
/// given their values in the order of the list.
pub proof fn law_leaves_and_lists(m: Model, a: Arc<Node>, srcs: Vec<Arc<Node>>)
    ensures
        forall|data: Vec<i32>, shape: Vec<i32>, p: int|
            0 <= p < data@.len() ==> #[trigger] eval(m, Node::Ints { data, shape }).data[p]
                == Elem::Int(data@[p] as int),
        forall|data: Vec<bool>, shape: Vec<i32>, p: int|
            0 <= p < data@.len() ==> #[trigger] eval(m, Node::Bools { data, shape }).data[p]
                == Elem::Bool(data@[p]),
        forall|values: Vec<i8>, scales: Vec<u32>, shape: Vec<i32>, p: int|
            0 <= p < values@.len() ==> #[trigger] eval(
                m,
                Node::Scaled { values, scales, shape },
            ).data[p] == (m.scaled)(values@[p], scales@[p]),
        forall|shape: Vec<i32>, strides: Vec<i64>|
            #[trigger] eval(m, Node::Strided { src: a, shape, strides }) == strided(
                eval(m, *a),
                ints(shape@),
                longs(strides@),
            ),
        evals(m, srcs).len() == srcs@.len(),
        forall|k: int| 0 <= k < srcs@.len() ==> #[trigger] evals(m, srcs)[k] == eval(m, *srcs@[k]),
        forall|axis: i32|
            #[trigger] eval(m, Node::Concatenate { srcs, axis }) == concatenate(
                evals(m, srcs),
                axis as int,
            ),
        forall|op: Kernel, shape: Vec<i32>|
            #[trigger] eval(m, Node::Kernel { op, srcs, shape }) == kernel(
                m,
                op,
                evals(m, srcs),
                ints(shape@),
            ),
{
    reveal(eval);
}

} // verus!
