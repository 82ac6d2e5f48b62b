//! Laws that relate the operations to each other.
use crate::attention::{
    attention_scale, attention_scores, mask_operand, matrix_transpose, needs_manual, scores_shape,
    shape_of, squashed, with_bias, with_causality, with_mask,
};
use crate::base::{inferred_axis, lemma_inferred, resolved_shape, shape_accepted, transposed};
use crate::float::{Slice, flipped, mirrored, slice_of, sliced, sliced_shape, swap_axes, swapped};
use crate::index::{
    in_bounds, is_shape, lemma_rank1, lemma_ravel_bound, lemma_ravel_concat,
    lemma_ravel_injective, lemma_ravel_unravel, lemma_size_concat, lemma_size_nonneg,
    lemma_unravel2, lemma_unravel_ravel, ravel, size, unravel,
};
use crate::layout::{channels_first, channels_last, lemma_permute_at, swap_last};
use crate::op::{BinaryOp, Const};
use crate::options::AttentionModuleOptions;
use crate::pool::{lemma_window_count_nonneg, lemma_window_entry};
use crate::pool_grad::{
    avg_pool2d_grad, max_pool2d_grad, nchw, padded_position, window_entries_shape,
};
use crate::pooling::{
    adaptive_fits, adaptive_kernel, adaptive_stride, lemma_adaptive, padded_planes_shape,
    padded_window2d, pool2d_positions, pool2d_shape, pooling2d_fits,
};
use crate::qtensor::{
    MlxQuantizedTensorPrimitive, TensorPrimitive, packed_product, q_product, unpacked,
};
use crate::quant::{BlockSize, QuantLevel, QuantScheme};
use crate::tensor::{
    Elem, Model, Tensor, argmax, axis_total, binary, broadcast_index, broadcast_to, broadcasts_to,
    concatenate, gathered, is_permutation, joined_at, lemma_broadcast_index_same,
    lemma_gathered_agree, lemma_tabulate, lemma_tabulate_wf, lemma_tensor_ext, look, matmul,
    matmul_fits, permute, permuted, positions_valid, reshape, take,
};
use vstd::arithmetic::div_mod::*;
use vstd::arithmetic::mul::*;
use vstd::prelude::*;

verus! {

/// Reversing the order of the axes twice gives the tensor back.
pub proof fn law_transpose_twice(t: Tensor)
    requires
        t.wf(),
    ensures
        transposed(transposed(t)) == t,
{
    let u = transposed(t);
    let s = t.shape.reverse();
    assert(is_shape(s));
    assert(s.reverse() == t.shape);
    lemma_tabulate_wf(s, |i: Seq<int>| t.at(i.reverse()));
    lemma_tabulate_wf(t.shape, |i: Seq<int>| u.at(i.reverse()));
    assert forall|i: Seq<int>| in_bounds(t.shape, i) implies #[trigger] transposed(u).at(i) == t.at(
        i,
    ) by {
        lemma_tabulate(t.shape, |i: Seq<int>| u.at(i.reverse()), i);
        let j = i.reverse();
        assert forall|k: int| 0 <= k < s.len() implies 0 <= #[trigger] j[k] < s[k] by {
            assert(0 <= i[i.len() - 1 - k] < t.shape[i.len() - 1 - k]);
        }
        lemma_tabulate(s, |i: Seq<int>| t.at(i.reverse()), j);
        assert(j.reverse() == i);
    }
    lemma_tensor_ext(transposed(u), t);
}

/// All elements are finite numbers.
pub open spec fn all_finite(t: Tensor, finite: spec_fn(Elem) -> bool) -> bool {
    forall|i: Seq<int>| in_bounds(t.shape, i) ==> finite(#[trigger] t.at(i))
}

/// Every element is a finite number or minus infinity.
pub open spec fn finite_or_least(m: Model, s: Seq<Elem>, finite: spec_fn(Elem) -> bool) -> bool {
    forall|k: int|
        0 <= k < s.len() ==> finite(#[trigger] s[k]) || s[k] == (m.constant)(Const::NegInfinity)
}

/// Giving a tensor another shape and then its own gives the tensor back.
pub proof fn law_reshape_back(t: Tensor, s: Seq<int>)
    ensures
        reshape(reshape(t, s), t.shape) == t,
{
}

/// Of two shapes that a tensor is given one after the other, the last one counts.
pub proof fn law_last_reshape_counts(t: Tensor, first: Seq<int>, last: Seq<int>)
    requires
        t.wf(),
        shape_accepted(first, size(t.shape)),
        shape_accepted(last, size(t.shape)),
    ensures
        ({
            let between = reshape(t, resolved_shape(first, size(t.shape)));
            &&& shape_accepted(last, size(between.shape))
            &&& reshape(between, resolved_shape(last, size(between.shape))) == reshape(
                t,
                resolved_shape(last, size(t.shape)),
            )
        }),
{
    lemma_size_nonneg(t.shape);
    law_inferred_extent(first, size(t.shape));
}

/// A shape with one extent left open gets the extent that keeps the number of
/// elements.
pub proof fn law_inferred_extent(s: Seq<int>, n: int)
    requires
        n >= 0,
        shape_accepted(s, n),
    ensures
        is_shape(resolved_shape(s, n)),
        size(resolved_shape(s, n)) == n,
        resolved_shape(s, n).len() == s.len(),
        forall|k: int| 0 <= k < s.len() && s[k] >= 0 ==> #[trigger] resolved_shape(s, n)[k] == s[k],
{
    if !(is_shape(s) && size(s) == n) {
        let k = choose|k: int|
            {
                &&& #[trigger] inferred_axis(s, k)
                &&& size(s.update(k, 1)) > 0
                &&& n % size(s.update(k, 1)) == 0
                &&& n / size(s.update(k, 1)) <= i32::MAX
            };
        lemma_inferred(s, n, k);
    }
}

/// Repeating a tensor to its own shape leaves it as it is.
pub proof fn law_broadcast_to_itself(t: Tensor)
    requires
        t.wf(),
    ensures
        broadcast_to(t, t.shape) == t,
{
    let f = |i: Seq<int>| t.at(broadcast_index(t.shape, i));
    lemma_tabulate_wf(t.shape, f);
    assert forall|i: Seq<int>| in_bounds(t.shape, i) implies #[trigger] broadcast_to(
        t,
        t.shape,
    ).at(i) == t.at(i) by {
        lemma_tabulate(t.shape, f, i);
        lemma_broadcast_index_same(t.shape, i);
    }
    lemma_tensor_ext(broadcast_to(t, t.shape), t);
}

/// The tensors have one shape but for the extent of `axis`.
pub open spec fn tensors_join(ts: Seq<Tensor>, axis: int) -> bool {
    &&& ts.len() > 0
    &&& 0 <= axis < ts[0].shape.len()
    &&& forall|k: int| 0 <= k < ts.len() ==> (#[trigger] ts[k]).wf()
    &&& forall|k: int|
        0 <= k < ts.len() ==> (#[trigger] ts[k]).shape == ts[0].shape.update(
            axis,
            ts[k].shape[axis],
        )
}

proof fn lemma_axis_total(ts: Seq<Tensor>, axis: int, k: int)
    requires
        0 <= k < ts.len(),
        forall|j: int| 0 <= j < ts.len() ==> (#[trigger] ts[j]).shape[axis] >= 0,
    ensures
        0 <= axis_total(ts.take(k), axis),
        axis_total(ts.take(k), axis) + ts[k].shape[axis] <= axis_total(ts, axis),
    decreases ts.len(),
{
    let init = ts.drop_last();
    if k == ts.len() - 1 {
        assert(ts.take(k) == init);
        if k > 0 {
            lemma_axis_total(init, axis, 0);
            assert(init.take(0) == Seq::<Tensor>::empty());
            assert(init[0].shape[axis] >= 0);
        }
    } else {
        lemma_axis_total(init, axis, k);
        assert(init.take(k) == ts.take(k));
        assert(ts[ts.len() - 1].shape[axis] >= 0);
    }
}

proof fn lemma_joined_at(ts: Seq<Tensor>, axis: int, k: int, i: Seq<int>)
    requires
        0 <= k < ts.len(),
        forall|j: int| 0 <= j < ts.len() ==> (#[trigger] ts[j]).shape[axis] >= 0,
        0 <= axis < i.len(),
        0 <= i[axis] < ts[k].shape[axis],
    ensures
        joined_at(ts, axis, i.update(axis, axis_total(ts.take(k), axis) + i[axis])) == ts[k].at(i),
    decreases ts.len(),
{
    let init = ts.drop_last();
    let at = i.update(axis, axis_total(ts.take(k), axis) + i[axis]);
    if k == ts.len() - 1 {
        assert(ts.take(k) == init);
        assert(at.update(axis, at[axis] - axis_total(init, axis)) == i);
    } else {
        lemma_axis_total(init, axis, k);
        assert(init.take(k) == ts.take(k));
        lemma_joined_at(init, axis, k, i);
    }
}

/// Joining loses nothing: every element of every tensor is found in the joined one,
/// behind the tensors before it.
pub proof fn law_concatenate_keeps(ts: Seq<Tensor>, axis: int, k: int, i: Seq<int>)
    requires
        tensors_join(ts, axis),
        0 <= k < ts.len(),
        in_bounds(ts[k].shape, i),
    ensures
        concatenate(ts, axis).at(i.update(axis, axis_total(ts.take(k), axis) + i[axis]))
            == ts[k].at(i),
{
    assert forall|j: int| 0 <= j < ts.len() implies (#[trigger] ts[j]).shape[axis] >= 0 by {
        assert(ts[j].wf());
        assert(ts[j].shape == ts[0].shape.update(axis, ts[j].shape[axis]));
        assert(ts[j].shape[axis] >= 0);
    }
    let s = ts[0].shape.update(axis, axis_total(ts, axis));
    let at = i.update(axis, axis_total(ts.take(k), axis) + i[axis]);
    assert(ts[k].shape == ts[0].shape.update(axis, ts[k].shape[axis]));
    assert(0 <= i[axis] < ts[k].shape[axis]);
    lemma_axis_total(ts, axis, k);
    assert forall|j: int| 0 <= j < s.len() implies 0 <= #[trigger] at[j] < s[j] by {
        assert(0 <= i[j] < ts[k].shape[j]);
    }
    lemma_tabulate(s, |i: Seq<int>| joined_at(ts, axis, i), at);
    lemma_joined_at(ts, axis, k, i);
}

/// Undoing a permutation of the axes gives the tensor back.
pub proof fn law_permute_inverse(t: Tensor, axes: Seq<int>, inverse: Seq<int>)
    requires
        t.wf(),
        is_permutation(axes, t.shape.len() as int),
        is_permutation(inverse, t.shape.len() as int),
        forall|k: int| 0 <= k < axes.len() ==> axes[#[trigger] inverse[k]] == k,
        forall|k: int| 0 <= k < axes.len() ==> inverse[#[trigger] axes[k]] == k,
    ensures
        permute(permute(t, axes), inverse) == t,
{
    let u = permute(t, axes);
    let s = permuted(t.shape, axes);
    assert forall|k: int| 0 <= k < s.len() implies #[trigger] s[k] >= 0 by {
        assert(t.shape[axes[k]] >= 0);
    }
    lemma_tabulate_wf(
        s,
        |i: Seq<int>| t.at(Seq::new(axes.len(), |k: int| i[axes.index_of(k)])),
    );
    assert(permuted(s, inverse) == t.shape) by {
        assert forall|k: int| 0 <= k < t.shape.len() implies permuted(s, inverse)[k]
            == t.shape[k] by {
            assert(axes[inverse[k]] == k);
        }
    }
    lemma_tabulate_wf(
        t.shape,
        |i: Seq<int>| u.at(Seq::new(inverse.len(), |k: int| i[inverse.index_of(k)])),
    );
    assert forall|i: Seq<int>| in_bounds(t.shape, i) implies #[trigger] permute(u, inverse).at(i)
        == t.at(i) by {
        lemma_permute_at(u, inverse, axes, i);
        let j = permuted(i, axes);
        lemma_permute_at(t, axes, inverse, j);
        assert(permuted(j, inverse) == i) by {
            assert forall|k: int| 0 <= k < i.len() implies permuted(j, inverse)[k] == i[k] by {
                assert(axes[inverse[k]] == k);
            }
        }
    }
    lemma_tensor_ext(permute(u, inverse), t);
}

/// Moving the channels last and then first again gives the tensor back, as does
/// exchanging the last two of three axes twice.
pub proof fn law_layout_round_trip(t: Tensor)
    requires
        t.wf(),
    ensures
        t.shape.len() == 4 ==> permute(permute(t, channels_last()), channels_first()) == t,
        t.shape.len() == 3 ==> permute(permute(t, swap_last()), swap_last()) == t,
{
    if t.shape.len() == 4 {
        law_permute_inverse(t, channels_last(), channels_first());
    }
    if t.shape.len() == 3 {
        law_permute_inverse(t, swap_last(), swap_last());
    }
}

/// Exchanging two axes twice gives the tensor back.
pub proof fn law_swap_twice(t: Tensor, a: int, b: int)
    requires
        t.wf(),
        0 <= a < t.shape.len(),
        0 <= b < t.shape.len(),
    ensures
        swap_axes(swap_axes(t, a, b), a, b) == t,
{
    let u = swap_axes(t, a, b);
    let s = swapped(t.shape, a, b);
    assert(is_shape(s));
    assert(swapped(s, a, b) == t.shape);
    lemma_tabulate_wf(s, |i: Seq<int>| t.at(swapped(i, a, b)));
    lemma_tabulate_wf(t.shape, |i: Seq<int>| u.at(swapped(i, a, b)));
    assert forall|i: Seq<int>| in_bounds(t.shape, i) implies #[trigger] swap_axes(u, a, b).at(i)
        == t.at(i) by {
        lemma_tabulate(t.shape, |i: Seq<int>| u.at(swapped(i, a, b)), i);
        let j = swapped(i, a, b);
        assert forall|k: int| 0 <= k < s.len() implies 0 <= #[trigger] j[k] < s[k] by {
            assert(0 <= i[a] < t.shape[a] && 0 <= i[b] < t.shape[b] && 0 <= i[k] < t.shape[k]);
        }
        lemma_tabulate(s, |i: Seq<int>| t.at(swapped(i, a, b)), j);
        assert(swapped(j, a, b) == i);
    }
    lemma_tensor_ext(swap_axes(u, a, b), t);
}

/// Reversing the order along the same axes twice gives the tensor back.
pub proof fn law_flip_twice(t: Tensor, axes: Seq<int>)
    requires
        t.wf(),
    ensures
        flipped(flipped(t, axes), axes) == t,
{
    let s = t.shape;
    let u = flipped(t, axes);
    lemma_tabulate_wf(s, |i: Seq<int>| t.at(mirrored(s, axes, i)));
    lemma_tabulate_wf(s, |i: Seq<int>| u.at(mirrored(s, axes, i)));
    assert forall|i: Seq<int>| in_bounds(s, i) implies #[trigger] flipped(u, axes).at(i) == t.at(
        i,
    ) by {
        lemma_tabulate(s, |i: Seq<int>| u.at(mirrored(s, axes, i)), i);
        let j = mirrored(s, axes, i);
        assert forall|k: int| 0 <= k < s.len() implies 0 <= #[trigger] j[k] < s[k] by {
            assert(0 <= i[k] < s[k]);
        }
        lemma_tabulate(s, |i: Seq<int>| t.at(mirrored(s, axes, i)), j);
        assert(mirrored(s, axes, j) == i);
    }
    lemma_tensor_ext(flipped(u, axes), t);
}

/// Listing no range takes the whole of a tensor.
pub proof fn law_slice_nothing(t: Tensor)
    requires
        t.wf(),
    ensures
        sliced(t, Seq::empty()) == t,
{
    let none = Seq::<Slice>::empty();
    let s = t.shape;
    assert forall|k: int| 0 <= k < s.len() implies sliced_shape(s, none)[k] == s[k] by {
        assert(s[k] >= 0);
        lemma_div_basics(s[k] - 1);
    }
    assert(sliced_shape(s, none) == s);
    let f = |i: Seq<int>|
        t.at(
            Seq::new(
                t.shape.len(),
                |k: int| slice_of(none, k).first(t.shape[k]) + i[k] * slice_of(none, k).step,
            ),
        );
    lemma_tabulate_wf(s, f);
    assert forall|i: Seq<int>| in_bounds(s, i) implies #[trigger] sliced(t, none).at(i) == t.at(i) by {
        lemma_tabulate(s, f, i);
        let j = Seq::new(
            t.shape.len(),
            |k: int| slice_of(none, k).first(t.shape[k]) + i[k] * slice_of(none, k).step,
        );
        assert forall|k: int| 0 <= k < s.len() implies j[k] == i[k] by {
            assert(0 <= i[k] < s[k]);
            lemma_mul_basics(i[k]);
        }
        assert(j == i);
    }
    lemma_tensor_ext(sliced(t, none), t);
}

/// Row `i` of a lookup is the row of the table that the index at `i` names.
pub proof fn law_lookup_row(t: Tensor, indices: Tensor, i: Seq<int>, x: int, s: Seq<int>)
    requires
        t.wf(),
        indices.wf(),
        t.shape.len() > 0,
        in_bounds(indices.shape, i),
        indices.at(i) == Elem::Int(x),
        0 <= x < t.shape[0],
        in_bounds(t.shape.skip(1), s),
    ensures
        take(t, indices, 0).at(i + s) == t.at(seq![x] + s),
{
    let shape = t.shape.take(0) + indices.shape + t.shape.skip(1);
    let j = i + s;
    assert forall|k: int| 0 <= k < shape.len() implies 0 <= #[trigger] j[k] < shape[k] by {
        if k < i.len() {
            assert(0 <= i[k] < indices.shape[k]);
        } else {
            assert(0 <= s[k - i.len()] < t.shape.skip(1)[k - i.len()]);
        }
    }
    lemma_tabulate(
        shape,
        |i: Seq<int>|
            {
                let r = indices.shape.len() as int;
                match indices.at(i.subrange(0, 0 + r)) {
                    Elem::Int(x) => if 0 <= x < t.shape[0] {
                        t.at(i.take(0).push(x) + i.skip(0 + r))
                    } else {
                        Elem::Undefined
                    },
                    _ => Elem::Undefined,
                }
            },
        j,
    );
    assert(j.subrange(0, i.len() as int) == i);
    assert(j.take(0).push(x) + j.skip(i.len() as int) == seq![x] + s);
}

/// The windows that an axis is divided into cover it: every entry is in one of them.
pub proof fn law_adaptive_covers(extent: int, output: int, y: int) -> (o: int)
    requires
        adaptive_fits(extent, output),
        0 <= y < extent,
    ensures
        0 <= o < output,
        o * adaptive_stride(extent, output) <= y < o * adaptive_stride(extent, output)
            + adaptive_kernel(extent, output),
{
    let s = adaptive_stride(extent, output);
    let k = adaptive_kernel(extent, output);
    lemma_adaptive(extent, output);
    lemma_fundamental_div_mod(extent, output);
    lemma_mod_bound(extent, output);
    let o = if y / s < output {
        y / s
    } else {
        output - 1
    };
    lemma_fundamental_div_mod(y, s);
    lemma_mod_bound(y, s);
    lemma_div_pos_is_pos(y, s);
    assert(k >= s) by (nonlinear_arith)
        requires
            k == extent - (output - 1) * s,
            extent == output * s + extent % output,
            0 <= extent % output,
    ;
    if y / s < output {
        lemma_mul_is_commutative(s, y / s);
    } else {
        assert((output - 1) * s <= s * (y / s)) by (nonlinear_arith)
            requires
                output - 1 <= y / s,
                s >= 1,
        ;
    }
    o
}

/// Where the axis can be divided evenly, the windows lie side by side.
pub proof fn law_adaptive_tiles(extent: int, output: int)
    requires
        adaptive_fits(extent, output),
        extent % output == 0,
    ensures
        adaptive_stride(extent, output) * output == extent,
        adaptive_kernel(extent, output) == adaptive_stride(extent, output),
{
    let s = adaptive_stride(extent, output);
    lemma_fundamental_div_mod(extent, output);
    lemma_mul_is_commutative(s, output);
    assert((output - 1) * s == output * s - s) by (nonlinear_arith);
}

/// The entry of an `[N, C, H, W]` tensor, counted from the corner of the padding, that
/// window `i` takes its largest value from.
pub open spec fn winner(
    m: Model,
    t: Tensor,
    kernel: (int, int),
    stride: (int, int),
    padding: (int, int),
    i: Seq<int>,
) -> (int, int) {
    let a = argmax(
        m,
        padded_window2d(t, kernel, stride, padding, (m.constant)(Const::NegInfinity), i),
    );
    (i[2] * stride.0 + a / kernel.1, i[3] * stride.1 + a % kernel.1)
}

/// The largest value of a window comes from that window.
pub proof fn law_winner_in_window(
    m: Model,
    t: Tensor,
    kernel: (int, int),
    stride: (int, int),
    padding: (int, int),
    i: Seq<int>,
)
    requires
        t.wf(),
        pooling2d_fits(t.shape, kernel, stride, padding),
        kernel.0 > 0,
        kernel.1 > 0,
        in_bounds(pool2d_shape(t.shape, kernel, stride, padding), i),
    ensures
        i[2] * stride.0 <= winner(m, t, kernel, stride, padding, i).0 < i[2] * stride.0 + kernel.0,
        i[3] * stride.1 <= winner(m, t, kernel, stride, padding, i).1 < i[3] * stride.1 + kernel.1,
        in_bounds(
            padded_planes_shape(t.shape, padding),
            seq![
                i[0],
                winner(m, t, kernel, stride, padding, i).0,
                winner(m, t, kernel, stride, padding, i).1,
                i[1],
            ],
        ),
{
    let u = pool2d_shape(t.shape, kernel, stride, padding);
    let w = padded_planes_shape(t.shape, padding);
    let v = (m.constant)(Const::NegInfinity);
    let window = padded_window2d(t, kernel, stride, padding, v, i);
    let a = argmax(m, window);
    assert(kernel.0 * kernel.1 > 0) by (nonlinear_arith)
        requires
            kernel.0 > 0,
            kernel.1 > 0,
    ;
    assert(window.len() == kernel.0 * kernel.1);
    lemma_mod_bound((m.argmax)(window), window.len() as int);
    lemma_unravel2(seq![kernel.0, kernel.1], a);
    assert(0 <= i[0] < u[0] && 0 <= i[1] < u[1] && 0 <= i[2] < u[2] && 0 <= i[3] < u[3]);
    lemma_window_entry(w[1], kernel.0, stride.0, i[2], a / kernel.1);
    lemma_window_entry(w[2], kernel.1, stride.1, i[3], a % kernel.1);
}

/// Every position that max pooling records is one of the padded array, so that the
/// positions can be handed to the gradient.
pub proof fn law_positions_valid(
    m: Model,
    t: Tensor,
    kernel: (int, int),
    stride: (int, int),
    padding: (int, int),
)
    requires
        t.wf(),
        pooling2d_fits(t.shape, kernel, stride, padding),
        kernel.0 > 0,
        kernel.1 > 0,
    ensures
        positions_valid(
            pool2d_positions(m, t, kernel, stride, padding).data,
            size(padded_planes_shape(t.shape, padding)),
        ),
{
    let u = pool2d_shape(t.shape, kernel, stride, padding);
    let w = padded_planes_shape(t.shape, padding);
    let p = pool2d_positions(m, t, kernel, stride, padding);
    assert(t.shape[0] >= 0 && t.shape[1] >= 0);
    lemma_window_count_nonneg(t.shape[2] + 2 * padding.0, kernel.0, stride.0);
    lemma_window_count_nonneg(t.shape[3] + 2 * padding.1, kernel.1, stride.1);
    lemma_size_nonneg(u);
    assert forall|q: int| 0 <= q < p.data.len() implies (#[trigger] p.data[q] matches Elem::Int(x)
        && 0 <= x < size(w)) by {
        let i = unravel(u, q);
        lemma_ravel_unravel(u, q);
        law_winner_in_window(m, t, kernel, stride, padding, i);
        let (y, x) = winner(m, t, kernel, stride, padding, i);
        lemma_ravel_bound(w, seq![i[0], y, x, i[1]]);
    }
}

/// The gradient of max pooling goes to where the maxima came from: every entry of the
/// input collects the output gradients of the windows whose largest entry it is.
pub proof fn law_max_pool_gradient(
    m: Model,
    t: Tensor,
    kernel: (int, int),
    stride: (int, int),
    padding: (int, int),
    grad: Tensor,
    i: Seq<int>,
)
    requires
        t.wf(),
        pooling2d_fits(t.shape, kernel, stride, padding),
        kernel.0 > 0,
        kernel.1 > 0,
        grad.wf(),
        grad.shape == pool2d_shape(t.shape, kernel, stride, padding),
        in_bounds(t.shape, i),
    ensures
        max_pool2d_grad(
            m,
            t.shape,
            padding,
            grad,
            pool2d_positions(m, t, kernel, stride, padding),
        ).at(i) == (m.accumulate)(
            (m.constant)(Const::Zero),
            gathered(
                seq![grad.shape[0], grad.shape[2], grad.shape[3], grad.shape[1]],
                |j: Seq<int>|
                    {
                        &&& j[0] == i[0]
                        &&& j[3] == i[1]
                        &&& winner(m, t, kernel, stride, padding, nchw(j)) == (
                            i[2] + padding.0,
                            i[3] + padding.1,
                        )
                    },
                |j: Seq<int>| grad.at(nchw(j)),
            ),
        ),
{
    let s = t.shape;
    let g = grad.shape;
    let w = padded_planes_shape(s, padding);
    let positions = pool2d_positions(m, t, kernel, stride, padding);
    let outer = seq![g[0], g[2], g[3], g[1]];
    let keep = |j: Seq<int>|
        positions.at(seq![j[0], j[3], j[1], j[2]]) == Elem::Int(padded_position(s, padding, i));
    let won = |j: Seq<int>|
        {
            &&& j[0] == i[0]
            &&& j[3] == i[1]
            &&& winner(m, t, kernel, stride, padding, nchw(j)) == (i[2] + padding.0, i[3] + padding.1)
        };
    let val = |j: Seq<int>| grad.at(seq![j[0], j[3], j[1], j[2]]);
    let val2 = |j: Seq<int>| grad.at(nchw(j));
    assert(val =~= val2);
    lemma_tabulate(
        s,
        |i: Seq<int>|
            (m.accumulate)(
                (m.constant)(Const::Zero),
                gathered(
                    seq![g[0], g[2], g[3], g[1]],
                    |j: Seq<int>|
                        positions.at(seq![j[0], j[3], j[1], j[2]]) == Elem::Int(
                            padded_position(s, padding, i),
                        ),
                    |j: Seq<int>| grad.at(seq![j[0], j[3], j[1], j[2]]),
                ),
            ),
        i,
    );
    assert(0 <= i[0] < s[0] && 0 <= i[1] < s[1] && 0 <= i[2] < s[2] && 0 <= i[3] < s[3]);
    let here = seq![i[0], i[2] + padding.0, i[3] + padding.1, i[1]];
    assert(in_bounds(w, here));
    assert(g[0] >= 0 && g[1] >= 0 && g[2] >= 0 && g[3] >= 0);
    assert forall|j: Seq<int>| in_bounds(outer, j) implies #[trigger] keep(j) == won(j) by {
        assert(0 <= j[0] < outer[0] && 0 <= j[1] < outer[1] && 0 <= j[2] < outer[2] && 0 <= j[3]
            < outer[3]);
        let o = nchw(j);
        assert(in_bounds(g, o));
        law_winner_in_window(m, t, kernel, stride, padding, o);
        let (y, x) = winner(m, t, kernel, stride, padding, o);
        let there = seq![o[0], y, x, o[1]];
        lemma_tabulate(
            g,
            |i: Seq<int>|
                {
                    let v = (m.constant)(Const::NegInfinity);
                    let a = argmax(m, padded_window2d(t, kernel, stride, padding, v, i));
                    Elem::Int(
                        ravel(
                            padded_planes_shape(t.shape, padding),
                            seq![
                                i[0],
                                i[2] * stride.0 + a / kernel.1,
                                i[3] * stride.1 + a % kernel.1,
                                i[1],
                            ],
                        ),
                    )
                },
            o,
        );
        if ravel(w, there) == ravel(w, here) {
            lemma_ravel_injective(w, there, here);
            assert(there[0] == here[0] && there[1] == here[1] && there[2] == here[2] && there[3]
                == here[3]);
        } else if won(j) {
            assert(there == here);
        }
    }
    lemma_gathered_agree(outer, keep, won, val);
}

/// All indices of a shape, in row-major order.
pub open spec fn indices_of(s: Seq<int>) -> Seq<Seq<int>> {
    Seq::new(size(s) as nat, |q: int| unravel(s, q))
}

/// Indices of two shapes joined.
proof fn lemma_unravel_joined(a: Seq<int>, b: Seq<int>, p: int, q: int)
    requires
        is_shape(a),
        is_shape(b),
        0 <= p < size(a),
        0 <= q < size(b),
    ensures
        0 <= p * size(b) + q < size(a + b),
        unravel(a + b, p * size(b) + q) == unravel(a, p) + unravel(b, q),
{
    let (i, j) = (unravel(a, p), unravel(b, q));
    lemma_ravel_unravel(a, p);
    lemma_ravel_unravel(b, q);
    lemma_ravel_concat(a, b, i, j);
    assert(in_bounds(a + b, i + j)) by {
        assert forall|k: int| 0 <= k < (a + b).len() implies 0 <= #[trigger] (i + j)[k] < (a
            + b)[k] by {
            if k < a.len() {
                assert(0 <= i[k] < a[k]);
            } else {
                assert(0 <= j[k - a.len()] < b[k - a.len()]);
            }
        }
    }
    lemma_ravel_bound(a + b, i + j);
    lemma_unravel_ravel(a + b, i + j);
}

/// Where nothing is kept, filtering leaves nothing.
proof fn lemma_filter_none<A>(s: Seq<A>, keep: spec_fn(A) -> bool)
    requires
        forall|q: int| 0 <= q < s.len() ==> !keep(#[trigger] s[q]),
    ensures
        s.filter(keep) == Seq::<A>::empty(),
    decreases s.len(),
{
    reveal(Seq::filter);
    if s.len() > 0 {
        let init = s.drop_last();
        assert forall|q: int| 0 <= q < init.len() implies !keep(#[trigger] init[q]) by {
            assert(init[q] == s[q]);
        }
        lemma_filter_none(init, keep);
        assert(!keep(s[s.len() - 1]));
    }
}

/// Where one entry is kept, filtering leaves that entry.
proof fn lemma_filter_one<A>(s: Seq<A>, keep: spec_fn(A) -> bool, at: int)
    requires
        0 <= at < s.len(),
        forall|q: int| 0 <= q < s.len() ==> keep(#[trigger] s[q]) == (q == at),
    ensures
        s.filter(keep) == seq![s[at]],
    decreases s.len(),
{
    reveal(Seq::filter);
    let init = s.drop_last();
    let n = s.len() - 1;
    assert(keep(s[n]) == (n == at));
    if n == at {
        assert forall|q: int| 0 <= q < init.len() implies !keep(#[trigger] init[q]) by {
            assert(init[q] == s[q]);
        }
        lemma_filter_none(init, keep);
    } else {
        assert forall|q: int| 0 <= q < init.len() implies keep(#[trigger] init[q]) == (q == at) by {
            assert(init[q] == s[q]);
        }
        lemma_filter_one(init, keep, at);
    }
}

/// Lists over `outer` joined with `a` and with `b` gather the same where, for every index
/// of `outer`, both keep nothing, or one entry each with the same value.
proof fn lemma_gather_per_window(
    outer: Seq<int>,
    a: Seq<int>,
    b: Seq<int>,
    keep_a: spec_fn(Seq<int>) -> bool,
    keep_b: spec_fn(Seq<int>) -> bool,
    val_a: spec_fn(Seq<int>) -> Elem,
    val_b: spec_fn(Seq<int>) -> Elem,
    hit: spec_fn(Seq<int>) -> bool,
    at_a: spec_fn(Seq<int>) -> Seq<int>,
    at_b: spec_fn(Seq<int>) -> Seq<int>,
    p: int,
)
    requires
        is_shape(outer),
        is_shape(a),
        is_shape(b),
        0 <= p <= size(outer),
        forall|w: Seq<int>|
            in_bounds(outer, w) && #[trigger] hit(w) ==> in_bounds(a, at_a(w)) && in_bounds(
                b,
                at_b(w),
            ) && val_a(w + at_a(w)) == val_b(w + at_b(w)),
        forall|w: Seq<int>, j: Seq<int>|
            in_bounds(outer, w) && in_bounds(a, j) ==> #[trigger] keep_a(w + j) == (hit(w) && j
                == at_a(w)),
        forall|w: Seq<int>, j: Seq<int>|
            in_bounds(outer, w) && in_bounds(b, j) ==> #[trigger] keep_b(w + j) == (hit(w) && j
                == at_b(w)),
    ensures
        indices_of(outer + a).take(p * size(a)).filter(keep_a).map_values(val_a) == indices_of(
            outer + b,
        ).take(p * size(b)).filter(keep_b).map_values(val_b),
    decreases p,
{
    let (la, lb) = (indices_of(outer + a), indices_of(outer + b));
    let (na, nb) = (size(a), size(b));
    lemma_size_nonneg(outer);
    lemma_size_nonneg(a);
    lemma_size_nonneg(b);
    lemma_size_concat(outer, a);
    lemma_size_concat(outer, b);
    reveal(Seq::filter);
    if p == 0 {
        assert(la.take(0) == Seq::<Seq<int>>::empty());
        assert(lb.take(0) == Seq::<Seq<int>>::empty());
        assert(la.take(0).filter(keep_a).map_values(val_a) == Seq::<Elem>::empty());
        assert(lb.take(0).filter(keep_b).map_values(val_b) == Seq::<Elem>::empty());
        lemma_mul_basics(na);
        lemma_mul_basics(nb);
    } else {
        let r = p - 1;
        lemma_gather_per_window(
            outer,
            a,
            b,
            keep_a,
            keep_b,
            val_a,
            val_b,
            hit,
            at_a,
            at_b,
            r,
        );
        let w = unravel(outer, r);
        lemma_ravel_unravel(outer, r);
        lemma_window_list(outer, a, r);
        lemma_window_list(outer, b, r);
        let ca = Seq::new(na as nat, |q: int| w + unravel(a, q));
        let cb = Seq::new(nb as nat, |q: int| w + unravel(b, q));
        Seq::filter_distributes_over_add(la.take(r * na), ca, keep_a);
        Seq::filter_distributes_over_add(lb.take(r * nb), cb, keep_b);
        lemma_window_entry_kept(w, outer, a, keep_a, hit(w), at_a(w));
        lemma_window_entry_kept(w, outer, b, keep_b, hit(w), at_b(w));
        let (fa, fb) = (ca.filter(keep_a), cb.filter(keep_b));
        assert(fa.map_values(val_a) == fb.map_values(val_b)) by {
            if hit(w) {
                assert(fa.map_values(val_a) == seq![val_a(w + at_a(w))]);
                assert(fb.map_values(val_b) == seq![val_b(w + at_b(w))]);
            } else {
                assert(fa.map_values(val_a) == Seq::<Elem>::empty());
                assert(fb.map_values(val_b) == Seq::<Elem>::empty());
            }
        }
        let (ga, gb) = (la.take(r * na).filter(keep_a), lb.take(r * nb).filter(keep_b));
        assert((ga + fa).map_values(val_a) == ga.map_values(val_a) + fa.map_values(val_a));
        assert((gb + fb).map_values(val_b) == gb.map_values(val_b) + fb.map_values(val_b));
    }
}

/// The indices of one more window are appended.
proof fn lemma_window_list(outer: Seq<int>, a: Seq<int>, r: int)
    requires
        is_shape(outer),
        is_shape(a),
        0 <= r < size(outer),
    ensures
        indices_of(outer + a).take((r + 1) * size(a)) == indices_of(outer + a).take(r * size(a))
            + Seq::new(size(a) as nat, |q: int| unravel(outer, r) + unravel(a, q)),
        0 <= r * size(a) <= (r + 1) * size(a) <= size(outer + a),
{
    let n = size(a);
    let l = indices_of(outer + a);
    let c = Seq::new(n as nat, |q: int| unravel(outer, r) + unravel(a, q));
    lemma_size_nonneg(a);
    lemma_size_concat(outer, a);
    assert((r + 1) * n == r * n + n && 0 <= r * n && (r + 1) * n <= size(outer) * n)
        by (nonlinear_arith)
        requires
            n >= 0,
            0 <= r < size(outer),
    ;
    let (x, y) = (l.take((r + 1) * n), l.take(r * n) + c);
    assert forall|k: int| 0 <= k < x.len() implies x[k] == y[k] by {
        if k >= r * n {
            lemma_unravel_joined(outer, a, r, k - r * n);
        }
    }
    assert(x == y);
}

/// What is kept of one window.
proof fn lemma_window_entry_kept(
    w: Seq<int>,
    outer: Seq<int>,
    a: Seq<int>,
    keep: spec_fn(Seq<int>) -> bool,
    hit: bool,
    at: Seq<int>,
)
    requires
        is_shape(a),
        in_bounds(outer, w),
        hit ==> in_bounds(a, at),
        forall|v: Seq<int>, j: Seq<int>|
            v == w && in_bounds(a, j) ==> #[trigger] keep(v + j) == (hit && j == at),
    ensures
        Seq::new(size(a) as nat, |q: int| w + unravel(a, q)).filter(keep) == (if hit {
            seq![w + at]
        } else {
            Seq::empty()
        }),
{
    let c = Seq::new(size(a) as nat, |q: int| w + unravel(a, q));
    lemma_size_nonneg(a);
    if hit {
        let e = ravel(a, at);
        lemma_ravel_bound(a, at);
        lemma_unravel_ravel(a, at);
        assert forall|q: int| 0 <= q < c.len() implies keep(#[trigger] c[q]) == (q == e) by {
            lemma_ravel_unravel(a, q);
            assert(keep(w + unravel(a, q)) == (unravel(a, q) == at));
        }
        lemma_filter_one(c, keep, e);
    } else {
        assert forall|q: int| 0 <= q < c.len() implies !keep(#[trigger] c[q]) by {
            lemma_ravel_unravel(a, q);
            assert(!keep(w + unravel(a, q)));
        }
        lemma_filter_none(c, keep);
    }
}

/// Entry `i` of an `[N, C, H, W]` tensor lies in the window of output `j`, an index of
/// `[N, OH, OW, C]`.
pub open spec fn in_window(
    kernel: (int, int),
    stride: (int, int),
    padding: (int, int),
    i: Seq<int>,
    j: Seq<int>,
) -> bool {
    &&& j[0] == i[0]
    &&& j[3] == i[1]
    &&& j[1] * stride.0 <= i[2] + padding.0 < j[1] * stride.0 + kernel.0
    &&& j[2] * stride.1 <= i[3] + padding.1 < j[2] * stride.1 + kernel.1
}

/// The gradient of mean pooling is shared by the window: every entry of the input collects
/// the output gradient of every window that it lies in, once, over the size of a window.
pub proof fn law_avg_pool_gradient(
    m: Model,
    s: Seq<int>,
    kernel: (int, int),
    stride: (int, int),
    padding: (int, int),
    grad: Tensor,
    i: Seq<int>,
)
    requires
        is_shape(s),
        pooling2d_fits(s, kernel, stride, padding),
        grad.wf(),
        grad.shape == pool2d_shape(s, kernel, stride, padding),
        in_bounds(s, i),
    ensures
        avg_pool2d_grad(m, s, kernel, stride, padding, grad).at(i) == (m.accumulate)(
            (m.constant)(Const::Zero),
            gathered(
                seq![grad.shape[0], grad.shape[2], grad.shape[3], grad.shape[1]],
                |j: Seq<int>| in_window(kernel, stride, padding, i, j),
                |j: Seq<int>|
                    binary(
                        m,
                        BinaryOp::Multiply,
                        grad.at(nchw(j)),
                        (m.constant)(Const::Reciprocal((kernel.0 * kernel.1) as usize)),
                    ),
            ),
        ),
{
    let g = grad.shape;
    let share = (m.constant)(Const::Reciprocal((kernel.0 * kernel.1) as usize));
    let outer = seq![g[0], g[2], g[3]];
    let (a, b) = (seq![kernel.0, kernel.1, g[1]], seq![g[1]]);
    let keep_a = |j: Seq<int>|
        j[0] == i[0] && j[5] == i[1] && j[1] * stride.0 + j[3] - padding.0 == i[2] && j[2]
            * stride.1 + j[4] - padding.1 == i[3];
    let val_a = |j: Seq<int>|
        binary(m, BinaryOp::Multiply, grad.at(seq![j[0], j[5], j[1], j[2]]), share);
    let keep_b = |j: Seq<int>| in_window(kernel, stride, padding, i, j);
    let val_b = |j: Seq<int>| binary(m, BinaryOp::Multiply, grad.at(nchw(j)), share);
    let hit = |w: Seq<int>|
        {
            &&& w[0] == i[0]
            &&& w[1] * stride.0 <= i[2] + padding.0 < w[1] * stride.0 + kernel.0
            &&& w[2] * stride.1 <= i[3] + padding.1 < w[2] * stride.1 + kernel.1
        };
    let at_a = |w: Seq<int>|
        seq![i[2] + padding.0 - w[1] * stride.0, i[3] + padding.1 - w[2] * stride.1, i[1]];
    let at_b = |w: Seq<int>| seq![i[1]];
    let entries = window_entries_shape(s, kernel, stride, padding);
    assert(g[0] >= 0 && g[1] >= 0 && g[2] >= 0 && g[3] >= 0);
    assert(outer + a == entries);
    assert(outer + b == seq![g[0], g[2], g[3], g[1]]);
    assert(0 <= i[0] < s[0] && 0 <= i[1] < s[1]);
    lemma_tabulate(
        s,
        |i: Seq<int>|
            (m.accumulate)(
                (m.constant)(Const::Zero),
                gathered(
                    window_entries_shape(s, kernel, stride, padding),
                    |j: Seq<int>|
                        j[0] == i[0] && j[5] == i[1] && j[1] * stride.0 + j[3] - padding.0 == i[2]
                            && j[2] * stride.1 + j[4] - padding.1 == i[3],
                    |j: Seq<int>|
                        binary(m, BinaryOp::Multiply, grad.at(seq![j[0], j[5], j[1], j[2]]), share),
                ),
            ),
        i,
    );
    assert forall|w: Seq<int>| in_bounds(outer, w) && #[trigger] hit(w) implies in_bounds(
        a,
        at_a(w),
    ) && in_bounds(b, at_b(w)) && val_a(w + at_a(w)) == val_b(w + at_b(w)) by {
        assert(0 <= w[0] < outer[0] && 0 <= w[1] < outer[1] && 0 <= w[2] < outer[2]);
        assert(in_bounds(a, at_a(w)));
        assert(in_bounds(b, at_b(w)));
        let (x, y) = (w + at_a(w), w + at_b(w));
        assert(seq![x[0], x[5], x[1], x[2]] == nchw(y));
    }
    assert forall|w: Seq<int>, j: Seq<int>|
        in_bounds(outer, w) && in_bounds(a, j) implies #[trigger] keep_a(w + j) == (hit(w) && j
        == at_a(w)) by {
        let x = w + j;
        assert(x[0] == w[0] && x[1] == w[1] && x[2] == w[2]);
        assert(x[3] == j[0] && x[4] == j[1] && x[5] == j[2]);
        assert(0 <= j[0] < a[0] && 0 <= j[1] < a[1] && 0 <= j[2] < a[2]);
        if keep_a(x) {
            assert(j == at_a(w));
        }
    }
    assert forall|w: Seq<int>, j: Seq<int>|
        in_bounds(outer, w) && in_bounds(b, j) implies #[trigger] keep_b(w + j) == (hit(w) && j
        == at_b(w)) by {
        let x = w + j;
        assert(x[0] == w[0] && x[1] == w[1] && x[2] == w[2] && x[3] == j[0]);
        if keep_b(x) {
            assert(j == at_b(w));
        }
    }
    let n = size(outer);
    lemma_size_nonneg(outer);
    lemma_gather_per_window(
        outer,
        a,
        b,
        keep_a,
        keep_b,
        val_a,
        val_b,
        hit,
        at_a,
        at_b,
        n,
    );
    lemma_size_concat(outer, a);
    lemma_size_concat(outer, b);
    lemma_size_nonneg(a);
    lemma_size_nonneg(b);
    lemma_mul_nonnegative(n, size(a));
    lemma_mul_nonnegative(n, size(b));
    assert(indices_of(outer + a).take(n * size(a)) == indices_of(outer + a));
    assert(indices_of(outer + b).take(n * size(b)) == indices_of(outer + b));
}

/// Where causal masking is asked for, no query attends to a later key: the score is
/// minus infinity.
pub proof fn law_no_attention_to_the_future(
    m: Model,
    q: Tensor,
    k: Tensor,
    mask: Option<Tensor>,
    bias: Option<Tensor>,
    o: AttentionModuleOptions,
    i: Seq<int>,
)
    requires
        o.is_causal,
        in_bounds(attention_scores(m, q, k, mask, bias, o).shape, i),
        i.len() >= 2,
        i[i.len() - 1] > i[i.len() - 2],
    ensures
        attention_scores(m, q, k, mask, bias, o).at(i) == (m.constant)(Const::NegInfinity),
{
    lemma_score_at(m, q, k, mask, bias, o, i);
}

/// No query attends to a key that the mask excludes.
pub proof fn law_no_attention_to_masked(
    m: Model,
    q: Tensor,
    k: Tensor,
    mask: Tensor,
    bias: Option<Tensor>,
    o: AttentionModuleOptions,
    i: Seq<int>,
)
    requires
        in_bounds(attention_scores(m, q, k, Some(mask), bias, o).shape, i),
        look(mask, i) == Elem::Bool(true),
    ensures
        attention_scores(m, q, k, Some(mask), bias, o).at(i) == (m.constant)(Const::NegInfinity),
{
    lemma_score_at(m, q, k, Some(mask), bias, o, i);
}

/// Where the mask lets everything pass, the scores are those without a mask.
pub proof fn law_idle_mask(
    m: Model,
    q: Tensor,
    k: Tensor,
    mask: Tensor,
    bias: Option<Tensor>,
    o: AttentionModuleOptions,
    i: Seq<int>,
)
    requires
        in_bounds(attention_scores(m, q, k, None, bias, o).shape, i),
        in_bounds(attention_scores(m, q, k, Some(mask), bias, o).shape, i),
        look(mask, i) == Elem::Bool(false),
    ensures
        attention_scores(m, q, k, Some(mask), bias, o).at(i) == attention_scores(
            m,
            q,
            k,
            None,
            bias,
            o,
        ).at(i),
{
    lemma_score_at(m, q, k, Some(mask), bias, o, i);
    lemma_score_at(m, q, k, None, bias, o, i);
}

pub proof fn lemma_score_at(
    m: Model,
    q: Tensor,
    k: Tensor,
    mask: Option<Tensor>,
    bias: Option<Tensor>,
    o: AttentionModuleOptions,
    i: Seq<int>,
)
    requires
        in_bounds(attention_scores(m, q, k, mask, bias, o).shape, i),
    ensures
        attention_scores(m, q, k, mask, bias, o).at(i) == with_causality(
            m,
            o.is_causal,
            i,
            with_mask(
                m,
                mask,
                i,
                with_bias(
                    m,
                    bias,
                    i,
                    squashed(
                        m,
                        o.softcap,
                        binary(
                            m,
                            BinaryOp::Multiply,
                            look(matmul(m, q, matrix_transpose(k)), i),
                            (m.constant)(Const::Scale(attention_scale(o, q.shape.last()))),
                        ),
                    ),
                ),
            ),
        ),
{
    let products = matmul(m, q, matrix_transpose(k));
    let scale = (m.constant)(Const::Scale(attention_scale(o, q.shape.last())));
    lemma_tabulate(
        scores_shape(q.shape, k.shape, shape_of(mask), shape_of(bias)),
        |i: Seq<int>|
            with_causality(
                m,
                o.is_causal,
                i,
                with_mask(
                    m,
                    mask,
                    i,
                    with_bias(
                        m,
                        bias,
                        i,
                        squashed(
                            m,
                            o.softcap,
                            binary(m, BinaryOp::Multiply, look(products, i), scale),
                        ),
                    ),
                ),
            ),
        i,
    );
}

/// The attention kernel is never given both causal masking and a mask operand, nor
/// used where scores are to be squashed.
pub proof fn law_kernel_masks_once(
    m: Model,
    mask: Option<Tensor>,
    bias: Option<Tensor>,
    o: AttentionModuleOptions,
)
    requires
        !needs_manual(o, mask is Some, bias is Some),
    ensures
        o.softcap is None,
        o.is_causal ==> mask_operand(m, mask, bias).len() == 0,
{
}

/// A quantized tensor that is only seen in another shape stands for the same floats.
pub proof fn law_relabelling_keeps_values(
    a: MlxQuantizedTensorPrimitive,
    b: MlxQuantizedTensorPrimitive,
    m: Model,
)
    requires
        a.same_arrays(&b),
    ensures
        a.stored() == b.stored(),
        a.dequantized(m) == b.dequantized(m),
{
}

/// What quantizing gives stands for an array of the shape that was quantized.
pub proof fn law_quantize_keeps_shape(
    r: MlxQuantizedTensorPrimitive,
    f: spec_fn(Model) -> Tensor,
    s: Seq<int>,
    scheme: QuantScheme,
    m: Model,
)
    requires
        r.quantizes(f, s, scheme),
    ensures
        r.dequantized(m).shape == s,
{
}

/// The product with packed values is the product with the floats that they stand for.
pub open spec fn kernel_multiplies_unpacked(m: Model) -> bool {
    forall|
        x: Tensor,
        packed: Tensor,
        scales: Tensor,
        biases: Tensor,
        group_size: i32,
        bits: i32,
    |
        {
            &&& x.wf()
            &&& packed.wf()
            &&& scales.wf()
            &&& biases.wf()
            &&& matmul_fits(x.shape, unpacked(m, packed, scales, biases, group_size, bits).shape)
        } ==> #[trigger] packed_product(m, x, packed, scales, biases, group_size, bits) == matmul(
            m,
            x,
            unpacked(m, packed, scales, biases, group_size, bits),
        )
}

/// A product of float and quantized matrices is the product of the floats that they stand
/// for, where the kernel that multiplies packed values computes that.
pub proof fn law_quantized_product(m: Model, lhs: TensorPrimitive, rhs: TensorPrimitive)
    requires
        lhs.wf(),
        rhs.wf(),
        matmul_fits(lhs.stored(), rhs.stored()),
        kernel_multiplies_unpacked(m),
    ensures
        q_product(m, lhs, rhs) == matmul(m, lhs.floats(m), rhs.floats(m)),
{
    if let (TensorPrimitive::Float(a), TensorPrimitive::QFloat(b)) = (lhs, rhs) {
        assert(a.value(m).wf() && a.value(m).shape == a.dims());
        assert(b.quantized.value(m).wf() && b.scales.value(m).wf() && b.biases.value(m).wf());
        assert(b.scales.value(m).shape == b.scales.dims());
    }
}

/// Equal floats quantize alike: the arrays have equal values and are read in the same way.
pub proof fn law_equal_floats_quantize_alike(
    a: MlxQuantizedTensorPrimitive,
    b: MlxQuantizedTensorPrimitive,
    f: spec_fn(Model) -> Tensor,
    g: spec_fn(Model) -> Tensor,
    s: Seq<int>,
    scheme: QuantScheme,
    m: Model,
)
    requires
        a.quantizes(f, s, scheme),
        b.quantizes(g, s, scheme),
        f(m) == g(m),
    ensures
        a.group_size == b.group_size,
        a.bits == b.bits,
        a.quantized.value(m) == b.quantized.value(m),
        a.scales.value(m) == b.scales.value(m),
        a.biases.value(m) == b.biases.value(m),
        a.dequantized(m) == b.dequantized(m),
{
}

/// `k` axes of extent one before the axes of `s`.
pub open spec fn after_ones(k: nat, s: Seq<int>) -> Seq<int> {
    Seq::new(k, |j: int| 1int) + s
}

proof fn lemma_size_ones(k: nat)
    ensures
        is_shape(Seq::new(k, |j: int| 1int)),
        size(Seq::new(k, |j: int| 1int)) == 1,
    decreases k,
{
    let s = Seq::new(k, |j: int| 1int);
    if k > 0 {
        lemma_size_ones((k - 1) as nat);
        let init = Seq::new((k - 1) as nat, |j: int| 1int);
        assert(s == init + seq![1int]);
        lemma_size_concat(init, seq![1int]);
        lemma_rank1(seq![1int], seq![0int]);
    }
}

/// Repeating a tensor along axes of extent one that are put before its own changes nothing
/// but the shape.
pub proof fn law_added_ones_change_the_shape_alone(t: Tensor, k: nat)
    requires
        t.wf(),
    ensures
        broadcasts_to(t.shape, after_ones(k, t.shape)),
        broadcast_to(t, after_ones(k, t.shape)) == reshape(t, after_ones(k, t.shape)),
{
    let s = t.shape;
    let ones = Seq::new(k, |j: int| 1int);
    let new = after_ones(k, s);
    lemma_size_ones(k);
    lemma_size_concat(ones, s);
    assert(is_shape(new)) by {
        assert forall|j: int| 0 <= j < new.len() implies #[trigger] new[j] >= 0 by {
            if j >= k {
                assert(s[j - k] >= 0);
            }
        }
    }
    let f = |i: Seq<int>| t.at(broadcast_index(s, i));
    lemma_tabulate_wf(new, f);
    let (u, w) = (broadcast_to(t, new), reshape(t, new));
    assert forall|i: Seq<int>| in_bounds(new, i) implies #[trigger] u.at(i) == w.at(i) by {
        lemma_tabulate(new, f, i);
        let (i1, i2) = (i.take(k as int), i.skip(k as int));
        assert(i == i1 + i2);
        assert(in_bounds(ones, i1)) by {
            assert forall|j: int| 0 <= j < k implies 0 <= #[trigger] i1[j] < ones[j] by {
                assert(0 <= i[j] < new[j]);
            }
        }
        assert(in_bounds(s, i2)) by {
            assert forall|j: int| 0 <= j < s.len() implies 0 <= #[trigger] i2[j] < s[j] by {
                assert(0 <= i[j + k] < new[j + k]);
            }
        }
        lemma_ravel_concat(ones, s, i1, i2);
        lemma_ravel_bound(ones, i1);
        assert(broadcast_index(s, i) == i2) by {
            assert forall|j: int| 0 <= j < s.len() implies broadcast_index(s, i)[j] == i2[j] by {
                assert(0 <= i2[j] < s[j]);
            }
        }
    }
    lemma_tensor_ext(u, w);
}

/// With blocks along one axis that make up all of the values, every value has a scale.
pub proof fn law_every_value_has_a_scale(scheme: QuantScheme, n: int, b: BlockSize)
    requires
        scheme.wf(),
        scheme.level == QuantLevel::Block(b),
        b.rank == 1,
        n > 0,
        n % scheme.group_size(n) == 0,
    ensures
        scheme.scale_count(n) * scheme.group_size(n) == n,
        (n - 1) / scheme.group_size(n) < scheme.scale_count(n),
{
    let g = scheme.group_size(n);
    assert(b.extents@[0] > 0);
    lemma_rank1(b.dims(), seq![0]);
    lemma_fundamental_div_mod(n, g);
    lemma_mul_is_commutative(g, n / g);
    assert((n - 1) / g < n / g) by {
        lemma_fundamental_div_mod(n - 1, g);
        lemma_mod_bound(n - 1, g);
        let (x, y) = ((n - 1) / g, n / g);
        assert(x < y) by (nonlinear_arith)
            requires
                g > 0,
                g * x <= n - 1,
                g * y == n,
        ;
    }
}

} // verus!
