//! Where the operations that move elements take them from.
use crate::base::transposed;
use crate::float::{
    Slice, flipped, mirrored, slice_of, sliced, sliced_shape, slices_fit, swap_axes, swapped,
};
use crate::index::{in_bounds, is_shape, lemma_size_nonneg};
use crate::tensor::{
    Tensor, is_permutation, lemma_tabulate, lemma_tabulate_wf, lemma_tensor_ext, permute,
    permuted,
};
use vstd::arithmetic::div_mod::*;
use vstd::arithmetic::mul::*;
use vstd::prelude::*;

verus! {

/// Exchanging two axes exchanges their extents and the two coordinates, and leaves the others.
pub proof fn law_swap_entry(t: Tensor, a: int, b: int, i: Seq<int>, j: Seq<int>)
    requires
        t.wf(),
        0 <= a < t.shape.len(),
        0 <= b < t.shape.len(),
        in_bounds(t.shape, j),
        i.len() == j.len(),
        i[a] == j[b],
        i[b] == j[a],
        forall|k: int| 0 <= k < j.len() && k != a && k != b ==> #[trigger] i[k] == j[k],
    ensures
        swapped(t.shape, a, b) == swap_axes(t, a, b).shape,
        swap_axes(t, a, b).shape.len() == t.shape.len(),
        swap_axes(t, a, b).shape[a] == t.shape[b],
        swap_axes(t, a, b).shape[b] == t.shape[a],
        forall|k: int|
            0 <= k < t.shape.len() && k != a && k != b ==> #[trigger] swap_axes(t, a, b).shape[k]
                == t.shape[k],
        in_bounds(swap_axes(t, a, b).shape, i),
        swap_axes(t, a, b).at(i) == t.at(j),
{
    let s = swapped(t.shape, a, b);
    assert(in_bounds(s, i)) by {
        assert forall|k: int| 0 <= k < s.len() implies 0 <= #[trigger] i[k] < s[k] by {
            assert(0 <= j[k] < t.shape[k]);
            assert(0 <= j[a] < t.shape[a] && 0 <= j[b] < t.shape[b]);
        }
    }
    lemma_tabulate(s, |i: Seq<int>| t.at(swapped(i, a, b)), i);
    assert(swapped(i, a, b) == j);
}

/// Reversing an axis counts its coordinate from the other end, and leaves the axes that are
/// not listed.
pub proof fn law_flip_entry(t: Tensor, axes: Seq<int>, i: Seq<int>, j: Seq<int>)
    requires
        t.wf(),
        in_bounds(t.shape, i),
        j.len() == i.len(),
        forall|k: int|
            0 <= k < i.len() ==> #[trigger] j[k] == (if exists|n: int|
                0 <= n < axes.len() && axes[n] == k {
                t.shape[k] - 1 - i[k]
            } else {
                i[k]
            }),
    ensures
        flipped(t, axes).shape == t.shape,
        flipped(t, axes).at(i) == t.at(j),
{
    lemma_tabulate(t.shape, |i: Seq<int>| t.at(mirrored(t.shape, axes, i)), i);
    assert(mirrored(t.shape, axes, i) == j) by {
        assert forall|k: int| 0 <= k < i.len() implies mirrored(t.shape, axes, i)[k] == j[k] by {
            if axes.contains(k) {
                let n = choose|n: int| 0 <= n < axes.len() && axes[n] == k;
                assert(axes[n] == k);
            }
        }
    }
}

/// A permutation lists every axis.
proof fn lemma_every_axis(axes: Seq<int>, r: int, k: int)
    requires
        is_permutation(axes, r),
        0 <= k < r,
    ensures
        axes.contains(k),
{
    let listed = axes.to_set();
    let all = vstd::set_lib::set_int_range(0, r);
    axes.unique_seq_to_set();
    vstd::set_lib::lemma_int_range(0, r);
    vstd::seq_lib::seq_to_set_is_finite(axes);
    assert(listed.subset_of(all)) by {
        assert forall|x: int| listed.contains(x) implies all.contains(x) by {
            let n = axes.index_of(x);
            assert(axes.contains(x));
            assert(0 <= axes[n] < r);
        }
    }
    vstd::set_lib::lemma_subset_equality(listed, all);
    assert(listed.contains(k));
}

/// Permuting the axes puts axis `axes[k]` at place `k`.
pub proof fn law_permute_entry(t: Tensor, axes: Seq<int>, i: Seq<int>, j: Seq<int>)
    requires
        t.wf(),
        is_permutation(axes, t.shape.len() as int),
        in_bounds(t.shape, j),
        i.len() == j.len(),
        forall|k: int| 0 <= k < j.len() ==> #[trigger] i[k] == j[axes[k]],
    ensures
        permuted(t.shape, axes) == permute(t, axes).shape,
        permute(t, axes).shape.len() == t.shape.len(),
        forall|k: int|
            0 <= k < t.shape.len() ==> #[trigger] permute(t, axes).shape[k] == t.shape[axes[k]],
        in_bounds(permute(t, axes).shape, i),
        permute(t, axes).at(i) == t.at(j),
{
    let s = permuted(t.shape, axes);
    let r = t.shape.len() as int;
    assert(in_bounds(s, i)) by {
        assert forall|k: int| 0 <= k < s.len() implies 0 <= #[trigger] i[k] < s[k] by {
            assert(0 <= axes[k] < r);
            assert(0 <= j[axes[k]] < t.shape[axes[k]]);
        }
    }
    lemma_tabulate(
        s,
        |i: Seq<int>| t.at(Seq::new(axes.len(), |k: int| i[axes.index_of(k)])),
        i,
    );
    let from = Seq::new(axes.len(), |k: int| i[axes.index_of(k)]);
    assert(from == j) by {
        assert forall|k: int| 0 <= k < r implies #[trigger] from[k] == j[k] by {
            lemma_every_axis(axes, r, k);
            let n = axes.index_of(k);
            assert(0 <= n < axes.len() && axes[n] == k);
            assert(i[n] == j[axes[n]]);
        }
    }
}

/// Reversing the order of the axes reverses every index.
pub proof fn law_transpose_entry(t: Tensor, i: Seq<int>, j: Seq<int>)
    requires
        t.wf(),
        in_bounds(t.shape, j),
        i.len() == j.len(),
        forall|k: int| 0 <= k < j.len() ==> #[trigger] i[k] == j[j.len() - 1 - k],
    ensures
        transposed(t).shape.len() == t.shape.len(),
        forall|k: int|
            0 <= k < t.shape.len() ==> #[trigger] transposed(t).shape[k] == t.shape[t.shape.len()
                - 1 - k],
        in_bounds(transposed(t).shape, i),
        transposed(t).at(i) == t.at(j),
{
    let s = t.shape.reverse();
    assert(in_bounds(s, i)) by {
        assert forall|k: int| 0 <= k < s.len() implies 0 <= #[trigger] i[k] < s[k] by {
            let n = j.len() - 1 - k;
            assert(0 <= j[n] < t.shape[n]);
        }
    }
    lemma_tabulate(s, |i: Seq<int>| t.at(i.reverse()), i);
    assert(i.reverse() == j) by {
        assert forall|k: int| 0 <= k < j.len() implies #[trigger] i.reverse()[k] == j[k] by {
            assert(i[j.len() - 1 - k] == j[j.len() - 1 - (j.len() - 1 - k)]);
        }
    }
}

/// Where a bound of a range lies on an axis of `n` entries: negative bounds count from the
/// end, and bounds outside are moved to the nearer end.
pub open spec fn place(b: int, n: int) -> int {
    if b < -n {
        0
    } else if b < 0 {
        n + b
    } else if b > n {
        n
    } else {
        b
    }
}

/// The first entry of a range of an axis of `n` entries, and the entry behind it.
pub open spec fn range_start(s: Slice, n: int) -> int {
    place(s.start as int, n)
}

pub open spec fn range_end(s: Slice, n: int) -> int {
    if s.end is Some {
        place(s.end->0 as int, n)
    } else {
        n
    }
}

/// A range selects `count` of the `n` entries of an axis: as many as there are places one step
/// apart in it.
pub open spec fn counts(s: Slice, n: int, count: int) -> bool {
    let (a, b) = (range_start(s, n), range_end(s, n));
    let pace = if s.step > 0 {
        s.step as int
    } else {
        0 - s.step
    };
    &&& a >= b ==> count == 0
    &&& a < b ==> (count - 1) * pace < b - a <= count * pace
}

/// Every listed range selects from its own axis, and the axes behind the list are kept whole.
pub proof fn law_slice_axis(t: Tensor, slices: Seq<Slice>, k: int)
    requires
        t.wf(),
        slices_fit(slices, t.shape.len() as int),
        0 <= k < t.shape.len(),
    ensures
        sliced(t, slices).shape.len() == t.shape.len(),
        sliced_shape(t.shape, slices) == sliced(t, slices).shape,
        sliced(t, slices).shape[k] >= 0,
        k < slices.len() ==> counts(slices[k], t.shape[k], sliced(t, slices).shape[k]),
        k >= slices.len() ==> sliced(t, slices).shape[k] == t.shape[k],
{
    let n = t.shape[k];
    assert(n >= 0);
    if k < slices.len() {
        let s = slices[k];
        assert(s.step != 0);
        assert(slice_of(slices, k) == s);
        let (a, b) = (range_start(s, n), range_end(s, n));
        assert(a == s.low(n) && b == s.high(n));
        let p = s.pace();
        assert(p > 0);
        if a < b {
            let d = b - a - 1;
            lemma_fundamental_div_mod(d, p);
            lemma_mod_bound(d, p);
            lemma_div_pos_is_pos(d, p);
            let q = d / p;
            assert(q * p <= d && d < (q + 1) * p) by (nonlinear_arith)
                requires
                    d == p * q + d % p,
                    0 <= d % p < p,
            ;
        }
    } else {
        let s = slice_of(slices, k);
        assert(s == Slice { start: 0, end: None, step: 1 });
        if n > 0 {
            lemma_div_basics(n - 1);
        }
    }
}

/// Every entry of a slice is the entry of the tensor that the ranges of all axes select.
pub proof fn law_slice_entry(t: Tensor, slices: Seq<Slice>, i: Seq<int>, j: Seq<int>)
    requires
        t.wf(),
        slices_fit(slices, t.shape.len() as int),
        in_bounds(sliced(t, slices).shape, i),
        j.len() == t.shape.len(),
        forall|k: int|
            0 <= k < t.shape.len() ==> #[trigger] j[k] == (if k >= slices.len() {
                i[k]
            } else if slices[k].step > 0 {
                range_start(slices[k], t.shape[k]) + i[k] * slices[k].step
            } else {
                range_end(slices[k], t.shape[k]) - 1 + i[k] * slices[k].step
            }),
    ensures
        in_bounds(t.shape, j),
        sliced(t, slices).at(i) == t.at(j),
{
    let s = sliced_shape(t.shape, slices);
    let r = t.shape.len() as int;
    lemma_tabulate(
        s,
        |i: Seq<int>|
            t.at(
                Seq::new(
                    t.shape.len(),
                    |k: int|
                        slice_of(slices, k).first(t.shape[k]) + i[k] * slice_of(slices, k).step,
                ),
            ),
        i,
    );
    let from = Seq::new(
        t.shape.len(),
        |k: int| slice_of(slices, k).first(t.shape[k]) + i[k] * slice_of(slices, k).step,
    );
    assert forall|k: int| 0 <= k < r implies #[trigger] from[k] == j[k] && 0 <= j[k] < t.shape[k] by {
        let n = t.shape[k];
        assert(n >= 0);
        law_slice_axis(t, slices, k);
        assert(0 <= i[k] < s[k]);
        if k < slices.len() {
            let c = slices[k];
            assert(c.step != 0);
            let (a, b) = (range_start(c, n), range_end(c, n));
            assert(a == c.low(n) && b == c.high(n));
            let (x, y, p) = (i[k], s[k], c.step as int);
            if p > 0 {
                assert(0 <= x * p <= (y - 1) * p) by (nonlinear_arith)
                    requires
                        0 <= x <= y - 1,
                        p > 0,
                ;
            } else {
                assert(0 <= x * (0 - p) <= (y - 1) * (0 - p)) by (nonlinear_arith)
                    requires
                        0 <= x <= y - 1,
                        p < 0,
                ;
                assert(x * p == 0 - x * (0 - p)) by (nonlinear_arith);
            }
        } else {
            assert(slice_of(slices, k) == Slice { start: 0, end: None, step: 1 });
        }
    }
    assert(from == j);
    assert(in_bounds(t.shape, j)) by {
        assert forall|k: int| 0 <= k < r implies 0 <= #[trigger] j[k] < t.shape[k] by {
            assert(from[k] == j[k]);
        }
    }
}

/// Ranges can be applied one axis after the other: slicing by a list is slicing by its first
/// ranges and then by the others, with the whole of the axes that were done.
pub proof fn law_slice_by_steps(t: Tensor, slices: Seq<Slice>, n: int)
    requires
        t.wf(),
        slices_fit(slices, t.shape.len() as int),
        0 <= n <= slices.len(),
    ensures
        ({
            let whole = Seq::new(n as nat, |k: int| Slice { start: 0, end: None, step: 1 });
            sliced(t, slices) == sliced(sliced(t, slices.take(n)), whole + slices.skip(n))
        }),
{
    let whole = Seq::new(n as nat, |k: int| Slice { start: 0, end: None, step: 1 });
    let (head, tail) = (slices.take(n), whole + slices.skip(n));
    let r = t.shape.len() as int;
    let u = sliced(t, head);
    lemma_sliced_wf(t, head);
    lemma_sliced_wf(t, slices);
    assert(slices_fit(tail, r)) by {
        assert forall|k: int| 0 <= k < tail.len() implies (#[trigger] tail[k]).step != 0
            && i32::MIN < tail[k].step <= i32::MAX by {
            if k >= n {
                assert(tail[k] == slices[k]);
            }
        }
    }
    lemma_sliced_wf(u, tail);
    let (x, y) = (sliced(t, slices), sliced(u, tail));
    assert forall|k: int| 0 <= k < r implies #[trigger] x.shape[k] == y.shape[k] by {
        lemma_whole(u.shape[k]);
        lemma_whole(t.shape[k]);
        assert(u.shape[k] >= 0 && t.shape[k] >= 0);
        if k < n {
            assert(slice_of(tail, k) == Slice { start: 0, end: None, step: 1 });
            assert(slice_of(head, k) == slices[k]);
        } else {
            assert(slice_of(head, k) == Slice { start: 0, end: None, step: 1 });
            if k < slices.len() {
                assert(slice_of(tail, k) == slices[k]);
            }
        }
    }
    assert(x.shape == y.shape);
    assert forall|i: Seq<int>| in_bounds(x.shape, i) implies #[trigger] x.at(i) == y.at(i) by {
        let j = Seq::new(
            r as nat,
            |k: int|
                if k >= tail.len() || k < n {
                    i[k]
                } else if tail[k].step > 0 {
                    range_start(tail[k], u.shape[k]) + i[k] * tail[k].step
                } else {
                    range_end(tail[k], u.shape[k]) - 1 + i[k] * tail[k].step
                },
        );
        law_slice_entry(u, tail, i, j);
        let e = Seq::new(
            r as nat,
            |k: int|
                if k >= slices.len() {
                    i[k]
                } else if slices[k].step > 0 {
                    range_start(slices[k], t.shape[k]) + i[k] * slices[k].step
                } else {
                    range_end(slices[k], t.shape[k]) - 1 + i[k] * slices[k].step
                },
        );
        law_slice_entry(t, slices, i, e);
        assert forall|k: int| 0 <= k < r implies #[trigger] e[k] == (if k >= head.len() {
            j[k]
        } else if head[k].step > 0 {
            range_start(head[k], t.shape[k]) + j[k] * head[k].step
        } else {
            range_end(head[k], t.shape[k]) - 1 + j[k] * head[k].step
        }) by {
            lemma_whole(t.shape[k]);
            assert(t.shape[k] >= 0);
            if k >= n {
                assert(slice_of(head, k) == Slice { start: 0, end: None, step: 1 });
                if k < slices.len() {
                    assert(tail[k] == slices[k]);
                }
            }
        }
        law_slice_entry(t, head, j, e);
    }
    lemma_tensor_ext(x, y);
}

proof fn lemma_sliced_wf(t: Tensor, slices: Seq<Slice>)
    requires
        t.wf(),
        slices_fit(slices, t.shape.len() as int),
    ensures
        sliced(t, slices).wf(),
        sliced(t, slices).shape.len() == t.shape.len(),
{
    let s = sliced_shape(t.shape, slices);
    assert(is_shape(s)) by {
        assert forall|k: int| 0 <= k < s.len() implies #[trigger] s[k] >= 0 by {
            law_slice_axis(t, slices, k);
            assert(t.shape[k] >= 0);
        }
    }
    lemma_size_nonneg(s);
    lemma_tabulate_wf(
        s,
        |i: Seq<int>|
            t.at(
                Seq::new(
                    t.shape.len(),
                    |k: int|
                        slice_of(slices, k).first(t.shape[k]) + i[k] * slice_of(slices, k).step,
                ),
            ),
    );
}

/// The whole of an axis.
proof fn lemma_whole(n: int)
    requires
        n >= 0,
    ensures
        (Slice { start: 0, end: None, step: 1 }).extent(n) == n,
        (Slice { start: 0, end: None, step: 1 }).first(n) == 0,
{
    if n > 0 {
        lemma_div_basics(n - 1);
    }
}

} // verus!
