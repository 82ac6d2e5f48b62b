//! Base operations: reshaping, transposing, broadcasting, joining, gathering.
use crate::array::{Array, copy_i32, extent_total, joinable, values};
use crate::index::{
    in_bounds, is_shape, lemma_offset_is_ravel, lemma_rank1, lemma_rank2, lemma_ravel_bound,
    lemma_ravel_concat, lemma_size_concat, lemma_size_nonneg, lemma_unravel1, offset, ravel,
    row_strides, size,
};
use crate::layout::{lemma_permute_at, lemma_size_front, lemma_tail_is_shape, total_elements};
use crate::node::ints;
use crate::op::{BinaryOp, ReduceOp};
use crate::primitive::{MlxDevice, sizes};
use crate::tensor::{
    Elem, Model, Tensor, all_ints, binary, broadcast_index, broadcast_shape, broadcast_to,
    broadcasts_to, concatenate, int_sum, int_tensor, is_permutation, lane, lemma_absorb,
    lemma_broadcast_index_same, lemma_tabulate, lemma_tensor_ext, permuted, reduce, reduce_axes,
    reshape, tabulate, take, zip,
};
use vstd::arithmetic::div_mod::*;
use vstd::arithmetic::mul::*;
use vstd::prelude::*;

verus! {

/// An array of floats on a device.
#[derive(Debug)]
pub struct MlxTensor {
    pub array: Array,
    pub device: MlxDevice,
}

/// The axis whose extent is left to be inferred.
pub open spec fn inferred_axis(s: Seq<int>, k: int) -> bool {
    &&& 0 <= k < s.len()
    &&& s[k] == -1
    &&& forall|j: int| 0 <= j < s.len() && j != k ==> #[trigger] s[j] >= 0
}

/// The shape that `n` elements get when `s` is asked for: `s` itself, or `s` with
/// its one extent of -1 replaced by what makes the sizes equal.
pub open spec fn resolved_shape(s: Seq<int>, n: int) -> Seq<int> {
    if is_shape(s) {
        s
    } else {
        let k = choose|k: int| inferred_axis(s, k);
        s.update(k, n / size(s.update(k, 1)))
    }
}

/// `n` elements can be given the shape `s`.
pub open spec fn shape_accepted(s: Seq<int>, n: int) -> bool {
    ||| is_shape(s) && size(s) == n
    ||| exists|k: int|
        {
            &&& #[trigger] inferred_axis(s, k)
            &&& size(s.update(k, 1)) > 0
            &&& n % size(s.update(k, 1)) == 0
            &&& n / size(s.update(k, 1)) <= i32::MAX
        }
}

/// The tensor with its axes in reverse order.
pub open spec fn transposed(t: Tensor) -> Tensor {
    tabulate(t.shape.reverse(), |i: Seq<int>| t.at(i.reverse()))
}

pub proof fn lemma_inferred(s: Seq<int>, n: int, k: int)
    requires
        inferred_axis(s, k),
        n >= 0,
        size(s.update(k, 1)) > 0,
        n % size(s.update(k, 1)) == 0,
    ensures
        !is_shape(s),
        resolved_shape(s, n) == s.update(k, n / size(s.update(k, 1))),
        is_shape(resolved_shape(s, n)),
        size(resolved_shape(s, n)) == n,
{
    assert(s[k] == -1);
    let c = choose|c: int| inferred_axis(s, c);
    assert(inferred_axis(s, c));
    assert(c == k) by {
        if c != k {
            assert(s[k] >= 0);
        }
    }
    let one = s.update(k, 1);
    let d = n / size(one);
    let r = s.update(k, d);
    lemma_div_pos_is_pos(n, size(one));
    assert forall|j: int| 0 <= j < r.len() implies #[trigger] r[j] >= 0 by {
        if j != k {
            assert(s[j] >= 0);
        }
    }
    let (a, b) = (s.take(k), s.skip(k + 1));
    assert(one == a + seq![1int] + b);
    assert(r == a + seq![d] + b);
    lemma_size_concat(a, seq![1int]);
    lemma_size_concat(a + seq![1int], b);
    lemma_size_concat(a, seq![d]);
    lemma_size_concat(a + seq![d], b);
    lemma_rank1(seq![1int], seq![0]);
    lemma_rank1(seq![d], seq![0]);
    lemma_mul_basics(size(a));
    assert(size(a) * d * size(b) == size(a) * size(b) * d) by (nonlinear_arith);
    lemma_fundamental_div_mod(n, size(one));
}

/// A shape without an extent left open is accepted as it is.
proof fn lemma_complete(s: Seq<int>, n: int)
    requires
        is_shape(s),
        shape_accepted(s, n),
    ensures
        size(s) == n,
{
    if size(s) != n {
        let k = choose|k: int| #[trigger] inferred_axis(s, k) && size(s.update(k, 1)) > 0;
        assert(s[k] >= 0);
    }
}

/// Whether no extent is negative.
fn all_extents(shape: &[i32]) -> (r: bool)
    ensures
        r == is_shape(ints(shape@)),
{
    let ghost s = ints(shape@);
    for k in 0..shape.len()
        invariant
            s == ints(shape@),
            forall|j: int| 0 <= j < k ==> #[trigger] s[j] >= 0,
    {
        assert(s[k as int] == shape@[k as int]);
        if shape[k] < 0 {
            return false;
        }
    }
    true
}

/// The shape that `n` elements get when `shape` is asked for.
fn resolve(shape: &[i32], n: usize) -> (r: Vec<i32>)
    requires
        shape_accepted(ints(shape@), n as int),
    ensures
        ints(r@) == resolved_shape(ints(shape@), n as int),
        is_shape(ints(r@)),
        size(ints(r@)) == n,
{
    let ghost s = ints(shape@);
    let mut axis: usize = shape.len();
    for k in 0..shape.len()
        invariant_except_break
            axis == shape@.len(),
            forall|j: int| 0 <= j < k ==> #[trigger] s[j] != -1,
        invariant
            s == ints(shape@),
        ensures
            axis <= shape@.len(),
            axis < shape@.len() ==> s[axis as int] == -1,
            axis == shape@.len() ==> forall|j: int| 0 <= j < s.len() ==> #[trigger] s[j] != -1,
    {
        if shape[k] == -1 {
            axis = k;
            break;
        }
    }
    let mut r = copy_i32(shape);
    if axis == shape.len() {
        proof {
            assert(is_shape(s) && size(s) == n) by {
                if !(is_shape(s) && size(s) == n) {
                    let k = choose|k: int|
                        #[trigger] inferred_axis(s, k) && size(s.update(k, 1)) > 0;
                    assert(s[k] != -1);
                }
            }
        }
        r
    } else {
        let ghost k = axis as int;
        proof {
            assert(!is_shape(s)) by {
                assert(s[k] == -1);
            }
            let c = choose|c: int|
                {
                    &&& #[trigger] inferred_axis(s, c)
                    &&& size(s.update(c, 1)) > 0
                    &&& n as int % size(s.update(c, 1)) == 0
                    &&& n as int / size(s.update(c, 1)) <= i32::MAX
                };
            assert(inferred_axis(s, c));
            assert(c == k) by {
                if c != k {
                    assert(s[k] >= 0);
                }
            }
            lemma_inferred(s, n as int, k);
        }
        r.set(axis, 1);
        proof {
            assert(ints(r@) == s.update(k, 1));
            assert(is_shape(ints(r@))) by {
                assert forall|j: int| 0 <= j < s.len() implies #[trigger] ints(r@)[j] >= 0 by {
                    if j != k {
                        assert(s[j] >= 0);
                    }
                }
            }
            lemma_divisor_bound(n as int, size(s.update(k, 1)));
        }
        if n == 0 {
            r.set(axis, 0);
            proof {
                lemma_zero_div(size(s.update(k, 1)));
                assert(ints(r@) == s.update(k, 0));
            }
            r
        } else {
            let rest = total_elements(r.as_slice());
            r.set(axis, (n / rest) as i32);
            proof {
                assert(ints(r@) == s.update(k, n as int / size(s.update(k, 1))));
            }
            r
        }
    }
}

proof fn lemma_zero_div(d: int)
    requires
        d > 0,
    ensures
        0int / d == 0,
{
    lemma_basic_div(0, d);
}

/// A divisor of a positive number is no larger than it.
proof fn lemma_divisor_bound(n: int, d: int)
    requires
        n >= 0,
        d > 0,
        n % d == 0,
    ensures
        n > 0 ==> d <= n,
{
    if 0 < n < d {
        lemma_small_mod(n as nat, d as nat);
    }
}

impl MlxTensor {
    pub open spec fn wf(&self) -> bool {
        self.array.wf()
    }

    pub open spec fn value(&self, m: Model) -> Tensor {
        self.array.value(m)
    }

    pub open spec fn dims(&self) -> Seq<int> {
        self.array.dims()
    }

    /// The same elements under another shape. One extent may be -1: it is
    /// inferred.
    pub fn reshape_to(&self, shape: &[i32]) -> (r: MlxTensor)
        requires
            self.wf(),
            is_shape(ints(shape@)) || size(self.dims()) <= usize::MAX,
            shape_accepted(ints(shape@), size(self.dims())),
        ensures
            r.wf(),
            r.device == self.device,
            r.dims() == resolved_shape(ints(shape@), size(self.dims())),
            forall|m: Model| #[trigger] r.value(m) == reshape(self.value(m), r.dims()),
    {
        if all_extents(shape) {
            proof {
                lemma_complete(ints(shape@), size(self.dims()));
            }
            return MlxTensor { array: self.array.reshape(shape), device: self.device };
        }
        let current = self.array.shape();
        proof {
            assert(is_shape(self.dims()));
        }
        let n = total_elements(current.as_slice());
        let resolved = resolve(shape, n);
        MlxTensor { array: self.array.reshape(resolved.as_slice()), device: self.device }
    }

    /// The tensor with its axes in reverse order.
    pub fn transpose_all(&self) -> (r: MlxTensor)
        requires
            self.wf(),
            self.dims().len() <= i32::MAX,
        ensures
            r.wf(),
            r.device == self.device,
            r.dims() == self.dims().reverse(),
            forall|m: Model| #[trigger] r.value(m) == transposed(self.value(m)),
    {
        let rank: usize = self.array.shape().len();
        let mut axes: Vec<i32> = Vec::new();
        for k in 0..rank
            invariant
                rank <= i32::MAX,
                axes@.len() == k,
                forall|j: int| 0 <= j < k ==> #[trigger] axes@[j] == rank - 1 - j,
        {
            axes.push((rank - 1 - k) as i32);
        }
        let ghost ax = ints(axes@);
        proof {
            assert(is_permutation(ax, rank as int)) by {
                assert forall|i: int, j: int|
                    0 <= i < ax.len() && 0 <= j < ax.len() && i != j implies ax[i] != ax[j] by {
                    assert(axes@[i] == rank - 1 - i);
                    assert(axes@[j] == rank - 1 - j);
                }
            }
            assert(permuted(self.dims(), ax) == self.dims().reverse());
        }
        let array = self.array.transpose_axes(axes.as_slice());
        proof {
            assert forall|m: Model| #[trigger] array.value(m) == transposed(self.value(m)) by {
                let t = self.array.value(m);
                assert(t.wf());
                let s = t.shape.reverse();
                assert(array.value(m).wf());
                assert forall|i: Seq<int>| in_bounds(s, i) implies #[trigger] array.value(m).at(i)
                    == transposed(t).at(i) by {
                    lemma_permute_at(t, ax, ax, i);
                    assert(permuted(i, ax) == i.reverse());
                    lemma_tabulate(s, |i: Seq<int>| t.at(i.reverse()), i);
                }
                lemma_tensor_ext(array.value(m), transposed(t));
            }
        }
        MlxTensor { array, device: self.device }
    }

    /// The tensor repeated to a broader shape.
    pub fn broadcast_to(&self, shape: &[i32]) -> (r: MlxTensor)
        requires
            self.wf(),
            is_shape(ints(shape@)),
            broadcasts_to(self.dims(), ints(shape@)),
        ensures
            r.wf(),
            r.device == self.device,
            r.dims() == ints(shape@),
            forall|m: Model| #[trigger] r.value(m) == broadcast_to(self.value(m), ints(shape@)),
    {
        MlxTensor { array: self.array.broadcast_to(shape), device: self.device }
    }
}

/// The arrays of a list of tensors.
pub open spec fn arrays_of(tensors: Seq<&MlxTensor>) -> Seq<&Array> {
    Seq::new(tensors.len(), |k: int| &tensors[k].array)
}

/// The tensors joined along an axis, on the device of the first one.
pub fn concat(tensors: &[&MlxTensor], dim: usize) -> (r: MlxTensor)
    requires
        tensors@.len() > 0,
        forall|k: int| 0 <= k < tensors@.len() ==> (#[trigger] tensors@[k]).wf(),
        dim < tensors@[0].dims().len(),
        dim <= i32::MAX,
        joinable(arrays_of(tensors@), dim as int),
        extent_total(arrays_of(tensors@), dim as int) <= i32::MAX,
    ensures
        r.wf(),
        r.device == tensors@[0].device,
        r.dims() == tensors@[0].dims().update(
            dim as int,
            extent_total(arrays_of(tensors@), dim as int),
        ),
        forall|m: Model|
            #[trigger] r.value(m) == concatenate(values(arrays_of(tensors@), m), dim as int),
{
    let device = tensors[0].device;
    let mut arrays: Vec<&Array> = Vec::new();
    for k in 0..tensors.len()
        invariant
            arrays@.len() == k,
            forall|j: int| 0 <= j < k ==> #[trigger] arrays@[j] == &tensors@[j].array,
    {
        let t: &MlxTensor = tensors[k];
        arrays.push(&t.array);
    }
    proof {
        assert(arrays@ == arrays_of(tensors@));
        assert forall|k: int| 0 <= k < arrays@.len() implies (#[trigger] arrays@[k]).wf() by {
            assert(tensors@[k].wf());
        }
    }
    let array = Array::concatenate(arrays.as_slice(), dim as i32);
    MlxTensor { array, device }
}

/// The coordinates that `indices` holds for output position `i`.
pub open spec fn coordinates(indices: Tensor, i: Seq<int>) -> Seq<Elem> {
    Seq::new(indices.shape.last() as nat, |j: int| indices.at(i.push(j)))
}

/// The elements are the integer coordinates `c`.
pub open spec fn holds_index(s: Seq<Elem>, c: Seq<int>) -> bool {
    &&& s.len() == c.len()
    &&& forall|j: int| 0 <= j < s.len() ==> #[trigger] s[j] == Elem::Int(c[j])
}

/// Extents `from..to` of a shape.
fn extents(shape: &[usize], from: usize, to: usize) -> (r: Vec<i32>)
    requires
        from <= to <= shape@.len(),
        forall|j: int| 0 <= j < shape@.len() ==> #[trigger] shape@[j] <= i32::MAX,
    ensures
        ints(r@) == sizes(shape@).subrange(from as int, to as int),
        is_shape(ints(r@)),
{
    let mut r: Vec<i32> = Vec::new();
    for j in from..to
        invariant
            from <= to <= shape@.len(),
            forall|j: int| 0 <= j < shape@.len() ==> #[trigger] shape@[j] <= i32::MAX,
            r@.len() == j - from,
            forall|l: int| 0 <= l < r@.len() ==> #[trigger] r@[l] == shape@[from + l],
    {
        r.push(shape[j] as i32);
    }
    assert(ints(r@) == sizes(shape@).subrange(from as int, to as int));
    r
}

/// The row-major strides of a shape.
fn index_strides(shape: &[i32]) -> (r: Vec<i32>)
    requires
        is_shape(ints(shape@)),
        forall|j: int| 0 <= j <= shape@.len() ==> size(#[trigger] ints(shape@).skip(j)) <= i32::MAX,
    ensures
        ints(r@) == row_strides(ints(shape@)),
        r@.len() == shape@.len(),
{
    let ghost s = ints(shape@);
    let n: usize = shape.len();
    let mut r: Vec<i32> = copy_i32(shape);
    let mut acc: i32 = 1;
    let mut j: usize = n;
    proof {
        assert(s.skip(n as int) == Seq::<int>::empty());
    }
    while j > 0
        invariant
            j <= n,
            n == shape@.len(),
            s == ints(shape@),
            is_shape(s),
            forall|j: int| 0 <= j <= n ==> size(#[trigger] s.skip(j)) <= i32::MAX,
            r@.len() == n,
            acc == size(s.skip(j as int)),
            forall|l: int| j <= l < n ==> #[trigger] r@[l] == size(s.skip(l + 1)),
        decreases j,
    {
        j = j - 1;
        r.set(j, acc);
        proof {
            let t = s.skip(j as int);
            lemma_size_front(t);
            assert(t.skip(1) == s.skip(j + 1));
            assert(t[0] == shape@[j as int]);
            lemma_tail_is_shape(s, j as int);
            lemma_size_nonneg(t);
            lemma_mul_is_commutative(t[0], acc as int);
        }
        acc = acc * shape[j];
    }
    assert(ints(r@) == row_strides(s));
    r
}

/// The sum of the products of coordinates and strides is the offset.
proof fn lemma_sum_is_offset(s: Seq<Elem>, c: Seq<int>, strides: Seq<int>)
    requires
        s.len() == c.len(),
        strides.len() == c.len(),
        forall|j: int| 0 <= j < s.len() ==> #[trigger] s[j] == Elem::Int(c[j] * strides[j]),
    ensures
        all_ints(s),
        int_sum(s) == offset(c, strides),
    decreases s.len(),
{
    if s.len() > 0 {
        let (s0, c0, t0) = (s.drop_last(), c.drop_last(), strides.drop_last());
        assert forall|j: int| 0 <= j < s0.len() implies #[trigger] s0[j] == Elem::Int(
            c0[j] * t0[j],
        ) by {
            assert(s0[j] == s[j]);
        }
        lemma_sum_is_offset(s0, c0, t0);
        assert(s.last() == s[s.len() - 1]);
    }
}

/// One term of an index in bounds is at most the whole.
proof fn lemma_term_bound(s: Seq<int>, c: Seq<int>, j: int)
    requires
        is_shape(s),
        in_bounds(s, c),
        0 <= j < s.len(),
    ensures
        0 <= c[j] * row_strides(s)[j] <= ravel(s, c),
{
    let (a, b) = (s.take(j + 1), s.skip(j + 1));
    let (ca, cb) = (c.take(j + 1), c.skip(j + 1));
    assert(a + b == s);
    assert(ca + cb == c);
    lemma_ravel_concat(a, b, ca, cb);
    assert(in_bounds(b, cb)) by {
        assert forall|k: int| 0 <= k < b.len() implies 0 <= #[trigger] cb[k] < b[k] by {
            assert(0 <= c[j + 1 + k] < s[j + 1 + k]);
        }
    }
    lemma_ravel_bound(b, cb);
    assert(in_bounds(a.drop_last(), ca.drop_last())) by {
        assert forall|k: int| 0 <= k < j implies 0 <= #[trigger] ca.drop_last()[k]
            < a.drop_last()[k] by {
            assert(0 <= c[k] < s[k]);
        }
    }
    lemma_ravel_bound(a.drop_last(), ca.drop_last());
    assert(0 <= c[j] < s[j]);
    let (high, n, w) = (ravel(a.drop_last(), ca.drop_last()), size(b), s[j]);
    assert(ravel(a, ca) == high * w + c[j]);
    assert(0 <= c[j] * n <= (high * w + c[j]) * n) by (nonlinear_arith)
        requires
            high >= 0,
            w >= 0,
            n >= 0,
            c[j] >= 0,
    ;
}

/// The row numbers that the coordinates stand for.
pub open spec fn flat_rows(m: Model, indices: Tensor, strides: Seq<int>, n: int) -> Tensor {
    let k = strides.len() as int;
    reduce_axes(
        m,
        ReduceOp::Sum,
        zip(
            m,
            BinaryOp::Multiply,
            reshape(indices, seq![n, k]),
            int_tensor(strides, seq![1, k]),
        ),
        1,
        2,
    )
}

proof fn lemma_flat_row(
    m: Model,
    indices: Tensor,
    s: Seq<int>,
    n: int,
    i: Seq<int>,
    c: Seq<int>,
)
    requires
        indices.wf(),
        indices.shape.len() > 0,
        indices.shape.last() == s.len(),
        n == size(indices.shape.drop_last()),
        is_shape(s),
        size(s) <= i32::MAX,
        in_bounds(indices.shape.drop_last(), i),
        in_bounds(s, c),
        holds_index(coordinates(indices, i), c),
    ensures
        flat_rows(m, indices, row_strides(s), n).shape == seq![n],
        0 <= ravel(indices.shape.drop_last(), i) < n,
        flat_rows(m, indices, row_strides(s), n).data[ravel(indices.shape.drop_last(), i)]
            == Elem::Int(ravel(s, c)),
{
    let st = row_strides(s);
    let k = s.len() as int;
    let a = ravel(indices.shape.drop_last(), i);
    lemma_ravel_bound(indices.shape.drop_last(), i);
    let two = reshape(indices, seq![n, k]);
    let row = int_tensor(st, seq![1, k]);
    let prod = zip(m, BinaryOp::Multiply, two, row);
    lemma_absorb(row.shape, two.shape);
    assert(prod.shape == seq![n, k]);
    let rows = seq![n, k].take(1) + seq![n, k].skip(2);
    assert(rows == seq![n]);
    let at = seq![a];
    let terms = lane(prod, 1, 2, at);
    assert(prod.shape.subrange(1, 2) == seq![k]);
    lemma_rank1(seq![k], seq![0]);
    assert forall|q: int| 0 <= q < k implies #[trigger] terms[q] == Elem::Int(c[q] * st[q]) by {
        lemma_unravel1(seq![k], q);
        let j = seq![a, q];
        assert(at.take(1) + seq![q] + at.skip(1) == j);
        assert(in_bounds(seq![n, k], j));
        lemma_tabulate(
            broadcast_shape(two.shape, row.shape),
            |i: Seq<int>|
                binary(
                    m,
                    BinaryOp::Multiply,
                    two.at(broadcast_index(two.shape, i)),
                    row.at(broadcast_index(row.shape, i)),
                ),
            j,
        );
        lemma_broadcast_index_same(two.shape, j);
        lemma_rank2(seq![n, k], j);
        let low = broadcast_index(row.shape, j);
        lemma_rank2(seq![1, k], low);
        assert(low[0] == 0);
        assert(low[1] == q);
        assert(i.push(q).drop_last() == i);
        assert(two.at(j) == indices.at(i.push(q)));
        assert(coordinates(indices, i)[q] == Elem::Int(c[q]));
        lemma_term_bound(s, c, q);
        lemma_ravel_bound(s, c);
    }
    lemma_sum_is_offset(terms, c, st);
    lemma_offset_is_ravel(s, c);
    lemma_ravel_bound(s, c);
    lemma_tabulate(
        rows,
        |i: Seq<int>| reduce(m, ReduceOp::Sum, lane(prod, 1, 2, i)),
        at,
    );
    lemma_rank1(seq![n], at);
}

/// Reading row `x` of the data flattened to rows reads at the index that `x`
/// stands for.
proof fn lemma_gathered_row(
    data: Tensor,
    rows: Tensor,
    out: Seq<int>,
    k: int,
    idx: Seq<int>,
    i: Seq<int>,
    c: Seq<int>,
    s: Seq<int>,
)
    requires
        data.wf(),
        0 <= k <= data.shape.len(),
        rows.wf(),
        is_shape(idx),
        rows.shape == seq![size(idx)],
        out == idx + data.shape.skip(k),
        in_bounds(idx, i),
        in_bounds(data.shape.take(k), c),
        in_bounds(data.shape.skip(k), s),
        0 <= ravel(idx, i) < size(idx),
        rows.data[ravel(idx, i)] == Elem::Int(ravel(data.shape.take(k), c)),
    ensures
        reshape(
            take(
                reshape(data, seq![size(data.shape.take(k)), size(data.shape.skip(k))]),
                rows,
                0,
            ),
            out,
        ).at(i + s) == data.at(c + s),
{
    let (head, tail) = (data.shape.take(k), data.shape.skip(k));
    let (p, w, n) = (size(head), size(tail), size(idx));
    let flat = reshape(data, seq![p, w]);
    let (a, z, x) = (ravel(idx, i), ravel(tail, s), ravel(head, c));
    lemma_ravel_bound(head, c);
    lemma_ravel_bound(tail, s);
    lemma_ravel_concat(idx, tail, i, s);
    lemma_ravel_concat(head, tail, c, s);
    assert(head + tail == data.shape);
    let shape = flat.shape.take(0) + rows.shape + flat.shape.skip(1);
    assert(shape == seq![n, w]);
    let j = seq![a, z];
    assert(in_bounds(shape, j));
    lemma_rank2(shape, j);
    lemma_tabulate(
        shape,
        |i: Seq<int>|
            {
                let r = rows.shape.len() as int;
                match rows.at(i.subrange(0, 0 + r)) {
                    Elem::Int(x) => if 0 <= x < flat.shape[0] {
                        flat.at(i.take(0).push(x) + i.skip(0 + r))
                    } else {
                        Elem::Undefined
                    },
                    _ => Elem::Undefined,
                }
            },
        j,
    );
    assert(j.subrange(0, 1) == seq![a]);
    lemma_rank1(rows.shape, seq![a]);
    assert(j.take(0).push(x) + j.skip(1) == seq![x, z]);
    lemma_rank2(flat.shape, seq![x, z]);
}

/// The slices of `data` that the coordinates in the last axis of `indices` select:
/// `K` coordinates each, for the first `K` axes of `data`. Where a coordinate is
/// out of range, nothing is said of the slice.
pub fn gather_nd_array(
    data: &Array,
    data_shape: &[usize],
    indices: &Array,
    idx_shape: &[usize],
) -> (r: Array)
    requires
        data.wf(),
        indices.wf(),
        sizes(data_shape@) == data.dims(),
        sizes(idx_shape@) == indices.dims(),
        idx_shape@.len() > 0,
        idx_shape@.last() <= data_shape@.len(),
        size(data.dims()) > 0 || size(indices.dims().drop_last()) == 0,
        forall|j: int|
            0 <= j <= idx_shape@.last() ==> size(
                #[trigger] data.dims().take(idx_shape@.last() as int).skip(j),
            ) <= i32::MAX,
        size(data.dims().skip(idx_shape@.last() as int)) <= i32::MAX,
        size(indices.dims().drop_last()) <= i32::MAX,
    ensures
        r.wf(),
        r.dims() == indices.dims().drop_last() + data.dims().skip(idx_shape@.last() as int),
        forall|m: Model, i: Seq<int>, c: Seq<int>, s: Seq<int>|
            in_bounds(indices.dims().drop_last(), i) && in_bounds(
                data.dims().take(idx_shape@.last() as int),
                c,
            ) && in_bounds(data.dims().skip(idx_shape@.last() as int), s) && holds_index(
                coordinates(indices.value(m), i),
                c,
            ) ==> #[trigger] r.value(m).at(i + s) == #[trigger] data.value(m).at(c + s),
{
    let m: usize = idx_shape.len();
    let k: usize = idx_shape[m - 1];
    let ghost (d, x) = (data.dims(), indices.dims());
    let ghost head = d.take(k as int);
    let ghost tail = d.skip(k as int);
    let ghost idx = x.drop_last();
    proof {
        assert forall|j: int| 0 <= j < data_shape@.len() implies #[trigger] data_shape@[j]
            <= i32::MAX by {
            assert(d[j] == data_shape@[j]);
        }
        assert forall|j: int| 0 <= j < idx_shape@.len() implies #[trigger] idx_shape@[j]
            <= i32::MAX by {
            assert(x[j] == idx_shape@[j]);
        }
        assert(sizes(idx_shape@).subrange(0, m - 1) == idx);
        assert(sizes(data_shape@).subrange(0, k as int) == head);
        assert(sizes(data_shape@).subrange(k as int, data_shape@.len() as int) == tail);
        assert(head.skip(0) == head);
        assert(head + tail == d);
        lemma_size_concat(head, tail);
        assert(x == idx.push(k as int));
    }
    let outer = extents(idx_shape, 0, m - 1);
    let first = extents(data_shape, 0, k);
    let rest = extents(data_shape, k, data_shape.len());
    let num_indices: usize = total_elements(outer.as_slice());
    let slice_size: usize = total_elements(rest.as_slice());
    let p: usize = total_elements(first.as_slice());
    let strides = index_strides(first.as_slice());
    proof {
        lemma_rank2(seq![p as int, slice_size as int], seq![0, 0]);
        lemma_rank2(seq![num_indices as int, k as int], seq![0, 0]);
        lemma_rank2(seq![1, k as int], seq![0, 0]);
    }
    let rows_shape: [i32; 2] = [p as i32, slice_size as i32];
    let list_shape: [i32; 2] = [num_indices as i32, k as i32];
    let strides_shape: [i32; 2] = [1, k as i32];
    proof {
        assert(ints(rows_shape@) == seq![p as int, slice_size as int]);
        assert(ints(list_shape@) == seq![num_indices as int, k as int]);
        assert(ints(strides_shape@) == seq![1, k as int]);
    }
    let data_2d = data.reshape(rows_shape.as_slice());
    let idx_2d = indices.reshape(list_shape.as_slice());
    let pstride_arr = Array::from_ints(strides, strides_shape.as_slice());
    proof {
        lemma_absorb(pstride_arr.dims(), idx_2d.dims());
    }
    let prod = idx_2d.binary(BinaryOp::Multiply, &pstride_arr);
    let flat = prod.reduce(ReduceOp::Sum, 1, 2);
    proof {
        assert(flat.dims() == seq![num_indices as int]);
        lemma_rank1(flat.dims(), seq![0]);
    }
    let gathered = data_2d.take_axis(&flat, 0);
    let mut out_shape = outer;
    for j in 0..rest.len()
        invariant
            out_shape@ == outer@ + rest@.take(j as int),
    {
        out_shape.push(rest[j]);
        assert(rest@.take(j + 1) == rest@.take(j as int).push(rest@[j as int]));
    }
    proof {
        assert(rest@.take(rest@.len() as int) == rest@);
        assert(ints(out_shape@) == idx + tail);
        lemma_size_concat(idx, tail);
        assert(gathered.dims() == seq![num_indices as int, slice_size as int]);
        lemma_rank2(seq![num_indices as int, slice_size as int], seq![0, 0]);
    }
    let r = gathered.reshape(out_shape.as_slice());
    proof {
        assert forall|m: Model, i: Seq<int>, c: Seq<int>, s: Seq<int>|
            in_bounds(idx, i) && in_bounds(head, c) && in_bounds(tail, s) && holds_index(
                coordinates(indices.value(m), i),
                c,
            ) implies #[trigger] r.value(m).at(i + s) == #[trigger] data.value(m).at(c + s) by {
            assert(flat.value(m) == flat_rows(
                m,
                indices.value(m),
                row_strides(head),
                num_indices as int,
            ));
            assert(flat.value(m).wf());
            assert(data.value(m).wf());
            assert(indices.value(m).wf());
            lemma_flat_row(m, indices.value(m), head, num_indices as int, i, c);
            lemma_gathered_row(data.value(m), flat.value(m), idx + tail, k as int, idx, i, c, s);
        }
    }
    r
}

} // verus!
