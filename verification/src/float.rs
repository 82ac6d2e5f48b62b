//! Operations on float tensors.
use crate::array::copy_i32;
use crate::index::{in_bounds, is_shape, lemma_size_nonneg, size};
use crate::layout::lemma_permute_at;
use crate::node::ints;
use crate::primitive::{Mlx, MlxTensorPrimitive, sizes};
use crate::tensor::{
    Model, Tensor, broadcast_to, broadcasts_to, is_permutation, lemma_tabulate, lemma_tensor_ext,
    matmul, matmul_fits, matmul_shape, permute, permuted, reshape, tabulate, take,
};
use vstd::arithmetic::div_mod::*;
use vstd::prelude::*;

verus! {

/// The index with entries `a` and `b` exchanged.
pub open spec fn swapped(i: Seq<int>, a: int, b: int) -> Seq<int> {
    i.update(a, i[b]).update(b, i[a])
}

/// The tensor with axes `a` and `b` exchanged.
pub open spec fn swap_axes(t: Tensor, a: int, b: int) -> Tensor {
    tabulate(swapped(t.shape, a, b), |i: Seq<int>| t.at(swapped(i, a, b)))
}

/// The entry of shape `s` that index `i` reads once the listed axes are reversed.
pub open spec fn mirrored(s: Seq<int>, axes: Seq<int>, i: Seq<int>) -> Seq<int> {
    Seq::new(
        s.len(),
        |k: int|
            if axes.contains(k) {
                s[k] - 1 - i[k]
            } else {
                i[k]
            },
    )
}

/// The tensor with the order along the listed axes reversed.
pub open spec fn flipped(t: Tensor, axes: Seq<int>) -> Tensor {
    tabulate(t.shape, |i: Seq<int>| t.at(mirrored(t.shape, axes, i)))
}

/// A range of an axis. Negative bounds count from the end, bounds outside are
/// moved to the nearer end, and a missing end is the end of the axis. With a
/// negative step the range is walked from its last entry down.
#[derive(Clone, Copy, Debug, PartialEq, Eq)]
pub struct Slice {
    pub start: isize,
    pub end: Option<isize>,
    pub step: isize,
}

/// A bound on an axis of extent `n`.
pub open spec fn bound_of(b: int, n: int) -> int {
    if b < 0 {
        if n + b < 0 {
            0
        } else {
            n + b
        }
    } else if b < n {
        b
    } else {
        n
    }
}

impl Slice {
    /// The first entry of the range on an axis of extent `n`.
    pub open spec fn low(self, n: int) -> int {
        bound_of(self.start as int, n)
    }

    /// The entry behind the range on an axis of extent `n`.
    pub open spec fn high(self, n: int) -> int {
        match self.end {
            Some(e) => bound_of(e as int, n),
            None => n,
        }
    }

    /// How far apart the entries are.
    pub open spec fn pace(self) -> int {
        if self.step < 0 {
            -self.step
        } else {
            self.step as int
        }
    }

    /// How many entries of an axis of extent `n` are selected.
    pub open spec fn extent(self, n: int) -> int {
        if self.low(n) >= self.high(n) {
            0
        } else {
            (self.high(n) - self.low(n) - 1) / self.pace() + 1
        }
    }

    /// The entry of an axis of extent `n` that is selected first.
    pub open spec fn first(self, n: int) -> int {
        if self.step < 0 {
            self.high(n) - 1
        } else {
            self.low(n)
        }
    }

    /// The bound `b` on an axis of extent `n`.
    fn clamp_bound(b: isize, n: i32) -> (r: i32)
        requires
            n >= 0,
        ensures
            r == bound_of(b as int, n as int),
    {
        if b < 0 {
            if b < -(n as isize) {
                0
            } else {
                (n as isize + b) as i32
            }
        } else if b < n as isize {
            b as i32
        } else {
            n
        }
    }

    /// The first selected entry of an axis of extent `n`, and how many there are.
    fn resolve(&self, n: i32) -> (r: (i32, i32))
        requires
            n >= 0,
            self.step != 0,
            i32::MIN < self.step <= i32::MAX,
        ensures
            r.0 == self.first(n as int),
            r.1 == self.extent(n as int),
            0 <= r.1 <= n,
            forall|j: int|
                0 <= j < r.1 ==> 0 <= self.first(n as int) + #[trigger] (j * self.step) < n,
    {
        let low = Slice::clamp_bound(self.start, n);
        let high = match self.end {
            Some(e) => Slice::clamp_bound(e, n),
            None => n,
        };
        let pace: i32 = if self.step < 0 {
            -(self.step as i32)
        } else {
            self.step as i32
        };
        let count: i32 = if low >= high {
            0
        } else {
            proof {
                lemma_div_pos_is_pos(high - low - 1, pace as int);
                lemma_div_nonincreasing(high - low - 1, pace as int);
            }
            (high - low - 1) / pace + 1
        };
        let first: i32 = if self.step < 0 {
            high - 1
        } else {
            low
        };
        proof {
            assert forall|j: int| 0 <= j < count implies 0 <= first + #[trigger] (j * self.step)
                < n by {
                lemma_fundamental_div_mod(high - low - 1, pace as int);
                let top = (high - low - 1) / (pace as int);
                assert(j * pace <= top * pace) by (nonlinear_arith)
                    requires
                        0 <= j <= top,
                        pace > 0,
                ;
                assert(top * pace == pace * top) by (nonlinear_arith);
                assert(0 <= j * pace) by (nonlinear_arith)
                    requires
                        0 <= j,
                        pace > 0,
                ;
                if self.step < 0 {
                    assert(j * self.step == -(j * pace)) by (nonlinear_arith)
                        requires
                            pace == -self.step,
                    ;
                }
            }
        }
        (first, count)
    }
}

/// The range that is taken of axis `k`: the whole of it where none is listed.
pub open spec fn slice_of(slices: Seq<Slice>, k: int) -> Slice {
    if 0 <= k < slices.len() {
        slices[k]
    } else {
        Slice { start: 0, end: None, step: 1 }
    }
}

/// The ranges can be taken of an array of rank `r`.
pub open spec fn slices_fit(slices: Seq<Slice>, r: int) -> bool {
    &&& slices.len() <= r
    &&& forall|k: int|
        0 <= k < slices.len() ==> (#[trigger] slices[k]).step != 0 && i32::MIN < slices[k].step
            <= i32::MAX
}

/// The shape of the part of an array of shape `s` that the ranges select.
pub open spec fn sliced_shape(s: Seq<int>, slices: Seq<Slice>) -> Seq<int> {
    Seq::new(s.len(), |k: int| slice_of(slices, k).extent(s[k]))
}

/// The part of a tensor that the ranges select.
pub open spec fn sliced(t: Tensor, slices: Seq<Slice>) -> Tensor {
    tabulate(
        sliced_shape(t.shape, slices),
        |i: Seq<int>|
            t.at(
                Seq::new(
                    t.shape.len(),
                    |k: int|
                        slice_of(slices, k).first(t.shape[k]) + i[k] * slice_of(slices, k).step,
                ),
            ),
    )
}

/// Sizes as extents.
pub fn to_extents(shape: &[usize]) -> (r: Vec<i32>)
    requires
        forall|k: int| 0 <= k < shape@.len() ==> #[trigger] shape@[k] <= i32::MAX,
    ensures
        ints(r@) == sizes(shape@),
        is_shape(ints(r@)),
{
    let mut r: Vec<i32> = Vec::new();
    for k in 0..shape.len()
        invariant
            forall|k: int| 0 <= k < shape@.len() ==> #[trigger] shape@[k] <= i32::MAX,
            r@.len() == k,
            forall|j: int| 0 <= j < k ==> #[trigger] r@[j] == shape@[j],
    {
        r.push(shape[k] as i32);
    }
    assert(ints(r@) == sizes(shape@));
    r
}

/// Sizes that are extents.
pub open spec fn are_extents(shape: Seq<usize>) -> bool {
    forall|k: int| 0 <= k < shape.len() ==> #[trigger] shape[k] <= i32::MAX
}

impl Mlx {
    /// Matrix products over the last two axes.
    pub fn float_matmul(lhs: MlxTensorPrimitive, rhs: MlxTensorPrimitive) -> (r: MlxTensorPrimitive)
        requires
            lhs.wf(),
            rhs.wf(),
            matmul_fits(lhs.dims(), rhs.dims()),
        ensures
            r.wf(),
            r.dims() == matmul_shape(lhs.dims(), rhs.dims()),
            forall|m: Model| #[trigger] r.value(m) == matmul(m, lhs.value(m), rhs.value(m)),
    {
        MlxTensorPrimitive::new(lhs.array.matmul(&rhs.array))
    }

    /// The same elements under another shape.
    pub fn float_reshape(tensor: MlxTensorPrimitive, shape: &[usize]) -> (r: MlxTensorPrimitive)
        requires
            tensor.wf(),
            are_extents(shape@),
            size(sizes(shape@)) == size(tensor.dims()),
        ensures
            r.wf(),
            r.dims() == sizes(shape@),
            forall|m: Model| #[trigger] r.value(m) == reshape(tensor.value(m), sizes(shape@)),
    {
        let dims = to_extents(shape);
        MlxTensorPrimitive::new(tensor.array.reshape(dims.as_slice()))
    }

    /// Two axes exchanged.
    pub fn float_swap_dims(tensor: MlxTensorPrimitive, dim1: usize, dim2: usize) -> (r:
        MlxTensorPrimitive)
        requires
            tensor.wf(),
            tensor.dims().len() <= i32::MAX,
            dim1 < tensor.dims().len(),
            dim2 < tensor.dims().len(),
        ensures
            r.wf(),
            r.dims() == swapped(tensor.dims(), dim1 as int, dim2 as int),
            forall|m: Model|
                #[trigger] r.value(m) == swap_axes(tensor.value(m), dim1 as int, dim2 as int),
    {
        let ghost s = tensor.dims();
        let ghost (a, b) = (dim1 as int, dim2 as int);
        let rank: usize = tensor.array.shape().len();
        let mut axes: Vec<i32> = Vec::new();
        for k in 0..rank
            invariant
                rank <= i32::MAX,
                axes@.len() == k,
                forall|j: int| 0 <= j < k ==> #[trigger] axes@[j] == j,
        {
            axes.push(k as i32);
        }
        axes.set(dim1, dim2 as i32);
        axes.set(dim2, dim1 as i32);
        let ghost ax = ints(axes@);
        proof {
            assert forall|k: int| 0 <= k < rank implies #[trigger] ax[k] == (if k == b {
                a
            } else if k == a {
                b
            } else {
                k
            }) by {}
            assert(is_permutation(ax, rank as int));
            assert(permuted(s, ax) == swapped(s, a, b));
        }
        let array = tensor.array.transpose_axes(axes.as_slice());
        proof {
            assert forall|m: Model| #[trigger] array.value(m) == swap_axes(tensor.value(m), a, b) by {
                let t = tensor.value(m);
                let u = swapped(s, a, b);
                assert(is_shape(u));
                lemma_size_nonneg(u);
                assert forall|i: Seq<int>| in_bounds(u, i) implies #[trigger] array.value(m).at(i)
                    == swap_axes(t, a, b).at(i) by {
                    lemma_permute_at(t, ax, ax, i);
                    assert(permuted(i, ax) == swapped(i, a, b));
                    lemma_tabulate(u, |i: Seq<int>| t.at(swapped(i, a, b)), i);
                }
                lemma_tensor_ext(array.value(m), swap_axes(t, a, b));
            }
        }
        MlxTensorPrimitive::new(array)
    }

    /// The axes in another order.
    pub fn float_permute(tensor: MlxTensorPrimitive, axes: &[usize]) -> (r: MlxTensorPrimitive)
        requires
            tensor.wf(),
            tensor.dims().len() <= i32::MAX,
            is_permutation(sizes(axes@), tensor.dims().len() as int),
        ensures
            r.wf(),
            r.dims() == permuted(tensor.dims(), sizes(axes@)),
            forall|m: Model| #[trigger] r.value(m) == permute(tensor.value(m), sizes(axes@)),
    {
        proof {
            assert forall|k: int| 0 <= k < axes@.len() implies #[trigger] axes@[k] <= i32::MAX by {
                assert(sizes(axes@)[k] < tensor.dims().len());
            }
        }
        let order = to_extents(axes);
        MlxTensorPrimitive::new(tensor.array.transpose_axes(order.as_slice()))
    }

    /// The order along some axes reversed.
    pub fn float_flip(tensor: MlxTensorPrimitive, axes: &[usize]) -> (r: MlxTensorPrimitive)
        requires
            tensor.wf(),
            forall|k: int| 0 <= k < axes@.len() ==> #[trigger] axes@[k] < tensor.dims().len(),
        ensures
            r.wf(),
            r.dims() == tensor.dims(),
            forall|m: Model| #[trigger] r.value(m) == flipped(tensor.value(m), sizes(axes@)),
    {
        let ghost s = tensor.dims();
        let ghost ax = sizes(axes@);
        let shape = copy_i32(tensor.array.shape().as_slice());
        let rank: usize = shape.len();
        let mut start: Vec<i32> = Vec::new();
        let mut step: Vec<i32> = Vec::new();
        for k in 0..rank
            invariant
                rank == shape@.len(),
                start@.len() == k,
                step@.len() == k,
                forall|j: int| 0 <= j < k ==> #[trigger] start@[j] == 0,
                forall|j: int| 0 <= j < k ==> #[trigger] step@[j] == 1,
        {
            start.push(0);
            step.push(1);
        }
        proof {
            assert(s == ints(shape@));
            assert(ax.take(0) == Seq::<int>::empty());
        }
        for l in 0..axes.len()
            invariant
                s == ints(shape@),
                forall|k: int| 0 <= k < s.len() ==> 0 <= #[trigger] s[k] <= i32::MAX,
                ax == sizes(axes@),
                rank == shape@.len(),
                start@.len() == rank,
                step@.len() == rank,
                forall|k: int| 0 <= k < axes@.len() ==> #[trigger] axes@[k] < rank,
                forall|k: int|
                    0 <= k < rank ==> #[trigger] start@[k] == (if ax.take(l as int).contains(k) {
                        s[k] - 1
                    } else {
                        0
                    }),
                forall|k: int|
                    0 <= k < rank ==> #[trigger] step@[k] == (if ax.take(l as int).contains(k) {
                        -1int
                    } else {
                        1int
                    }),
        {
            let axis: usize = axes[l];
            proof {
                assert(s[axis as int] == shape@[axis as int]);
                let (p, q) = (ax.take(l as int), ax.take(l + 1));
                assert(q == p.push(axis as int));
                assert forall|k: int| q.contains(k) == (p.contains(k) || k == axis) by {
                    assert(q[l as int] == axis);
                    if p.contains(k) {
                        let j = p.index_of(k);
                        assert(q[j] == k);
                    }
                    if q.contains(k) && k != axis {
                        let j = q.index_of(k);
                        assert(p[j] == k);
                    }
                }
            }
            start.set(axis, shape[axis] - 1);
            step.set(axis, -1);
        }
        proof {
            assert(ax.take(axes@.len() as int) == ax);
            assert forall|k: int, j: int|
                0 <= k < s.len() && 0 <= j < ints(shape@)[k] implies 0 <= ints(start@)[k]
                + #[trigger] (j * ints(step@)[k]) < s[k] by {
                let d = ints(step@)[k];
                assert(ints(start@)[k] == start@[k] && d == step@[k]);
                if ax.contains(k) {
                    assert(j * d == -j) by (nonlinear_arith)
                        requires
                            d == -1,
                    ;
                } else {
                    assert(j * d == j) by (nonlinear_arith)
                        requires
                            d == 1,
                    ;
                }
            }
        }
        let array = tensor.array.slice(start.as_slice(), step.as_slice(), shape.as_slice());
        proof {
            assert forall|m: Model| #[trigger] array.value(m) == flipped(tensor.value(m), ax) by {
                let t = tensor.value(m);
                let (lo, by) = (ints(start@), ints(step@));
                lemma_size_nonneg(s);
                assert forall|i: Seq<int>| in_bounds(s, i) implies #[trigger] array.value(m).at(i)
                    == flipped(t, ax).at(i) by {
                    lemma_tabulate(
                        s,
                        |i: Seq<int>| t.at(Seq::new(s.len(), |k: int| lo[k] + i[k] * by[k])),
                        i,
                    );
                    lemma_tabulate(s, |i: Seq<int>| t.at(mirrored(s, ax, i)), i);
                    let j = Seq::new(s.len(), |k: int| lo[k] + i[k] * by[k]);
                    assert forall|k: int| 0 <= k < s.len() implies j[k] == mirrored(s, ax, i)[k] by {
                        assert(start@[k] == start@[k] && step@[k] == step@[k]);
                        if ax.contains(k) {
                            assert(i[k] * -1 == -i[k]);
                        }
                    }
                    assert(j == mirrored(s, ax, i));
                }
                lemma_tensor_ext(array.value(m), flipped(t, ax));
            }
        }
        MlxTensorPrimitive::new(array)
    }

    /// The slices along an axis that `indices` lists.
    pub fn float_select(tensor: MlxTensorPrimitive, dim: usize, indices: MlxTensorPrimitive) -> (r:
        MlxTensorPrimitive)
        requires
            tensor.wf(),
            indices.wf(),
            dim < tensor.dims().len() <= i32::MAX,
            size(tensor.dims()) > 0 || size(indices.dims()) == 0,
        ensures
            r.wf(),
            r.dims() == tensor.dims().take(dim as int) + indices.dims() + tensor.dims().skip(
                dim + 1,
            ),
            forall|m: Model|
                #[trigger] r.value(m) == take(tensor.value(m), indices.value(m), dim as int),
    {
        MlxTensorPrimitive::new(tensor.array.take_axis(&indices.array, dim as i32))
    }

    /// The part that ranges of the axes select.
    pub fn float_slice(tensor: MlxTensorPrimitive, slices: &[Slice]) -> (r: MlxTensorPrimitive)
        requires
            tensor.wf(),
            slices_fit(slices@, tensor.dims().len() as int),
        ensures
            r.wf(),
            r.dims() == sliced_shape(tensor.dims(), slices@),
            forall|m: Model| #[trigger] r.value(m) == sliced(tensor.value(m), slices@),
    {
        let ghost s = tensor.dims();
        let ghost sl = slices@;
        let dims = tensor.array.shape();
        let rank: usize = dims.len();
        let mut start: Vec<i32> = Vec::new();
        let mut step: Vec<i32> = Vec::new();
        let mut shape: Vec<i32> = Vec::new();
        for k in 0..rank
            invariant
                rank == dims@.len(),
                s == ints(dims@),
                sl == slices@,
                slices_fit(sl, rank as int),
                forall|j: int| 0 <= j < s.len() ==> #[trigger] s[j] >= 0,
                start@.len() == k,
                step@.len() == k,
                shape@.len() == k,
                forall|j: int| 0 <= j < k ==> #[trigger] start@[j] == slice_of(sl, j).first(s[j]),
                forall|j: int| 0 <= j < k ==> #[trigger] step@[j] == slice_of(sl, j).step,
                forall|j: int| 0 <= j < k ==> #[trigger] shape@[j] == slice_of(sl, j).extent(s[j]),
                forall|j: int| 0 <= j < k ==> #[trigger] shape@[j] >= 0,
                forall|j: int, l: int|
                    0 <= j < k && 0 <= l < shape@[j] ==> 0 <= start@[j] + #[trigger] (l * step@[j])
                        < s[j],
        {
            let range = if k < slices.len() {
                slices[k]
            } else {
                Slice { start: 0, end: None, step: 1 }
            };
            proof {
                assert(range == slice_of(sl, k as int));
                assert(s[k as int] == dims@[k as int]);
            }
            let (first, count) = range.resolve(dims[k]);
            start.push(first);
            step.push(range.step as i32);
            shape.push(count);
            proof {
                assert forall|j: int, l: int| 0 <= j < k + 1 && 0 <= l < shape@[j] implies 0
                    <= start@[j] + #[trigger] (l * step@[j]) < s[j] by {
                    if j == k {
                        let n = dims@[k as int];
                        assert(0 <= range.first(n as int) + l * range.step < n);
                    }
                }
            }
        }
        proof {
            assert(ints(shape@) == sliced_shape(s, sl));
            assert forall|k: int, j: int|
                0 <= k < s.len() && 0 <= j < ints(shape@)[k] implies 0 <= ints(start@)[k]
                + #[trigger] (j * ints(step@)[k]) < s[k] by {
                assert(0 <= start@[k] + (j * step@[k]) < s[k]);
            }
        }
        let array = tensor.array.slice(start.as_slice(), step.as_slice(), shape.as_slice());
        proof {
            assert forall|m: Model| #[trigger] array.value(m) == sliced(tensor.value(m), sl) by {
                let t = tensor.value(m);
                let u = ints(shape@);
                let (lo, by) = (ints(start@), ints(step@));
                lemma_size_nonneg(u);
                assert forall|i: Seq<int>| in_bounds(u, i) implies #[trigger] array.value(m).at(i)
                    == sliced(t, sl).at(i) by {
                    lemma_tabulate(
                        u,
                        |i: Seq<int>| t.at(Seq::new(u.len(), |k: int| lo[k] + i[k] * by[k])),
                        i,
                    );
                    lemma_tabulate(
                        u,
                        |i: Seq<int>|
                            t.at(
                                Seq::new(
                                    t.shape.len(),
                                    |k: int|
                                        slice_of(sl, k).first(t.shape[k]) + i[k] * slice_of(
                                            sl,
                                            k,
                                        ).step,
                                ),
                            ),
                        i,
                    );
                    let j = Seq::new(u.len(), |k: int| lo[k] + i[k] * by[k]);
                    let j2 = Seq::new(
                        t.shape.len(),
                        |k: int| slice_of(sl, k).first(t.shape[k]) + i[k] * slice_of(sl, k).step,
                    );
                    assert forall|k: int| 0 <= k < s.len() implies j[k] == j2[k] by {
                        assert(start@[k] == slice_of(sl, k).first(s[k]));
                        assert(step@[k] == slice_of(sl, k).step);
                    }
                    assert(j == j2);
                }
                lemma_tensor_ext(array.value(m), sliced(t, sl));
            }
        }
        MlxTensorPrimitive::new(array)
    }

    /// The tensor repeated to a broader shape.
    pub fn float_expand(tensor: MlxTensorPrimitive, shape: &[usize]) -> (r: MlxTensorPrimitive)
        requires
            tensor.wf(),
            are_extents(shape@),
            broadcasts_to(tensor.dims(), sizes(shape@)),
        ensures
            r.wf(),
            r.dims() == sizes(shape@),
            forall|m: Model| #[trigger] r.value(m) == broadcast_to(tensor.value(m), sizes(shape@)),
    {
        let dims = to_extents(shape);
        MlxTensorPrimitive::new(tensor.array.broadcast_to(dims.as_slice()))
    }
}

} // verus!
