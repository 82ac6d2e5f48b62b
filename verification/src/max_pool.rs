//! Maxima of sliding windows together with where they were found.
use crate::array::Array;
use crate::index::{
    in_bounds, is_shape, lemma_extents_positive, lemma_rank1, lemma_rank2, lemma_rank4,
    lemma_ravel_bound, lemma_size_concat, lemma_size_nonneg, lemma_size_positive, lemma_unravel2,
    ravel, size,
};
use crate::node::ints;
use crate::op::{BinaryOp, ReduceOp};
use crate::pool::{
    lemma_horner3, lemma_reduce_merged, lemma_window_count_nonneg, lemma_window_entry,
    lemma_windows2d, pair, pool2d_fits, view_windows2d, window2d, window_count, windows2d,
};
use crate::tensor::{
    Elem, Model, Tensor, argmax, binary, broadcast_index, int_tensor, lemma_absorb,
    lemma_broadcast_index_same, lemma_look_scalar, lemma_tabulate, lemma_tensor_ext,
    lemma_zip_look, look, reduce, tabulate,
};
use vstd::arithmetic::div_mod::*;
use vstd::arithmetic::mul::*;
use vstd::prelude::*;

verus! {

/// For every window of an `[N, H, W, C]` tensor, the row-major position in that
/// tensor of the entry that is taken as the window's largest.
pub open spec fn max_positions2d(
    m: Model,
    t: Tensor,
    kernel: (int, int),
    stride: (int, int),
) -> Tensor {
    tabulate(
        seq![
            t.shape[0],
            window_count(t.shape[1], kernel.0, stride.0),
            window_count(t.shape[2], kernel.1, stride.1),
            t.shape[3],
        ],
        |i: Seq<int>|
            {
                let y = i[1] * stride.0;
                let x = i[2] * stride.1;
                let a = argmax(m, window2d(t, kernel, i[0], y, x, i[3]));
                Elem::Int(
                    ravel(t.shape, seq![i[0], y + a / kernel.1, x + a % kernel.1, i[3]]),
                )
            },
    )
}

/// The first `n` integers.
fn arange(n: i32) -> (r: Vec<i32>)
    requires
        n >= 0,
    ensures
        r@.len() == n,
        forall|k: int| 0 <= k < n ==> #[trigger] r@[k] == k,
{
    let mut r: Vec<i32> = Vec::new();
    for k in 0..n
        invariant
            r@.len() == k,
            forall|j: int| 0 <= j < k ==> #[trigger] r@[j] == j,
    {
        r.push(k);
    }
    r
}

/// Positions along the only axis that is not trivial.
proof fn lemma_single_axis(s: Seq<int>, j: Seq<int>, axis: int)
    requires
        s.len() == 4,
        j.len() == 4,
        0 <= axis < 4,
        forall|k: int| 0 <= k < 4 && k != axis ==> #[trigger] s[k] == 1,
        forall|k: int| 0 <= k < 4 && k != axis ==> #[trigger] j[k] == 0,
    ensures
        size(s) == s[axis],
        ravel(s, j) == j[axis],
{
    lemma_rank4(s, j);
    let (a, b, c, d) = (s[0], s[1], s[2], s[3]);
    let (w, x, y, z) = (j[0], j[1], j[2], j[3]);
    if axis == 0 {
        assert(a * b * c * d == a && ((w * b + x) * c + y) * d + z == w) by (nonlinear_arith)
            requires
                b == 1 && c == 1 && d == 1 && x == 0 && y == 0 && z == 0,
        ;
    } else if axis == 1 {
        assert(a * b * c * d == b && ((w * b + x) * c + y) * d + z == x) by (nonlinear_arith)
            requires
                a == 1 && c == 1 && d == 1 && w == 0 && y == 0 && z == 0,
        ;
    } else if axis == 2 {
        assert(a * b * c * d == c && ((w * b + x) * c + y) * d + z == y) by (nonlinear_arith)
            requires
                a == 1 && b == 1 && d == 1 && w == 0 && x == 0 && z == 0,
        ;
    } else {
        assert(a * b * c * d == d && ((w * b + x) * c + y) * d + z == z) by (nonlinear_arith)
            requires
                a == 1 && b == 1 && c == 1 && w == 0 && x == 0 && y == 0,
        ;
    }
}

/// A rank-four array that holds, at every index, the coordinate along `axis`.
fn axis_positions(n: i32, axis: usize) -> (r: Array)
    requires
        n >= 0,
        axis < 4,
    ensures
        r.wf(),
        r.dims() == seq![1int, 1, 1, 1].update(axis as int, n as int),
        forall|m: Model, i: Seq<int>|
            i.len() == 4 && 0 <= i[axis as int] < n ==> #[trigger] look(r.value(m), i)
                == Elem::Int(i[axis as int]),
{
    let range = arange(n);
    let flat: Vec<i32> = vec![n];
    proof {
        assert(ints(flat@) == seq![n as int]);
        lemma_rank1(seq![n as int], seq![0]);
    }
    let ghost data = ints(range@);
    let positions = Array::from_ints(range, flat.as_slice());
    let mut shape: Vec<i32> = vec![1, 1, 1, 1];
    shape.set(axis, n);
    let ghost s = seq![1int, 1, 1, 1].update(axis as int, n as int);
    proof {
        assert(ints(shape@) == s);
        lemma_single_axis(s, seq![0, 0, 0, 0], axis as int);
    }
    let r = positions.reshape(shape.as_slice());
    proof {
        assert forall|m: Model, i: Seq<int>|
            i.len() == 4 && 0 <= i[axis as int] < n implies #[trigger] look(r.value(m), i)
            == Elem::Int(i[axis as int]) by {
            let j = broadcast_index(s, i);
            lemma_single_axis(s, j, axis as int);
            assert(j[axis as int] == i[axis as int]);
            assert(r.value(m).data == int_tensor(data, seq![n as int]).data);
        }
    }
    r
}

/// The value of a sum or product of integers that stays in range.
proof fn lemma_int_ops(m: Model, x: int, y: int)
    ensures
        i32::MIN <= x + y <= i32::MAX ==> binary(m, BinaryOp::Add, Elem::Int(x), Elem::Int(y))
            == Elem::Int(x + y),
        i32::MIN <= x * y <= i32::MAX ==> binary(m, BinaryOp::Multiply, Elem::Int(x), Elem::Int(y))
            == Elem::Int(x * y),
{
}

/// The parts of a position are no larger than the position.
proof fn lemma_position_parts(s: Seq<int>, i: Seq<int>)
    requires
        s.len() == 4,
        in_bounds(s, i),
    ensures
        0 <= i[0] * (s[1] * s[2] * s[3]),
        0 <= i[1] * (s[2] * s[3]),
        0 <= i[2] * s[3],
        i[0] * (s[1] * s[2] * s[3]) + i[1] * (s[2] * s[3]) + i[2] * s[3] + i[3] == ravel(s, i),
        0 <= ravel(s, i) < size(s),
{
    lemma_ravel_bound(s, i);
    lemma_rank4(s, i);
    lemma_horner3(i[0], i[1], i[2], s[1], s[2], s[3]);
    assert(0 <= i[0] < s[0] && 0 <= i[1] < s[1] && 0 <= i[2] < s[2] && 0 <= i[3] < s[3]);
    lemma_mul_nonnegative(s[1], s[2]);
    lemma_mul_nonnegative(s[1] * s[2], s[3]);
    lemma_mul_nonnegative(s[2], s[3]);
    lemma_mul_nonnegative(i[0], s[1] * s[2] * s[3]);
    lemma_mul_nonnegative(i[1], s[2] * s[3]);
    lemma_mul_nonnegative(i[2], s[3]);
}

/// Extents of a non-empty array and their products fit where its size does.
proof fn lemma_extents_bounded(s: Seq<int>)
    requires
        s.len() == 4,
        is_shape(s),
        0 < size(s),
    ensures
        s[0] > 0,
        s[1] > 0,
        s[2] > 0,
        s[3] > 0,
        0 < s[1] * s[2] * s[3] <= size(s),
        0 < s[2] * s[3] <= size(s),
        0 < s[1] * s[2] <= size(s),
{
    lemma_extents_positive(s);
    lemma_rank4(s, seq![0, 0, 0, 0]);
    let (a, b, c, d) = (s[0], s[1], s[2], s[3]);
    assert(a > 0 && b > 0 && c > 0 && d > 0);
    lemma_mul_strictly_positive(b, c);
    lemma_mul_strictly_positive(c, d);
    lemma_mul_strictly_positive(b * c, d);
    assert(a * b * c * d == a * (b * c * d)) by {
        lemma_mul_is_associative(a, b, c);
        lemma_mul_is_associative(a, b * c, d);
    }
    assert(b * c * d == b * (c * d)) by {
        lemma_mul_is_associative(b, c, d);
    }
    lemma_mul_increases(a, b * c * d);
    lemma_mul_increases(b, c * d);
    lemma_mul_increases(d, b * c);
    lemma_mul_is_commutative(d, b * c);
}

/// The maxima of the windows of a non-empty `[N, H, W, C]` array, and the
/// row-major positions in that array at which they were found.
pub fn max_pool2d_with_indices_impl(
    x: &Array,
    kernel_size: [usize; 2],
    stride: [usize; 2],
) -> (r: (Array, Array))
    requires
        x.wf(),
        pool2d_fits(x.dims(), pair(kernel_size), pair(stride)),
        kernel_size[0] > 0,
        kernel_size[1] > 0,
        0 < size(x.dims()) <= i32::MAX,
    ensures
        r.0.wf(),
        r.1.wf(),
        r.0.dims() == seq![
            x.dims()[0],
            window_count(x.dims()[1], kernel_size[0] as int, stride[0] as int),
            window_count(x.dims()[2], kernel_size[1] as int, stride[1] as int),
            x.dims()[3],
        ],
        r.1.dims() == r.0.dims(),
        forall|m: Model|
            #[trigger] r.0.value(m) == windows2d(
                m,
                ReduceOp::Max,
                x.value(m),
                pair(kernel_size),
                pair(stride),
            ),
        forall|m: Model|
            #[trigger] r.1.value(m) == max_positions2d(
                m,
                x.value(m),
                pair(kernel_size),
                pair(stride),
            ),
{
    let ghost s = x.dims();
    let ghost (k, st) = (pair(kernel_size), pair(stride));
    let shape = x.shape();
    let (n, h, w, c) = (shape[0], shape[1], shape[2], shape[3]);
    proof {
        assert(n == s[0] && h == s[1] && w == s[2] && c == s[3]);
        assert(is_shape(s));
        lemma_extents_bounded(s);
        assert(0 < k.0 * k.1 <= s[1] * s[2]) by (nonlinear_arith)
            requires
                0 < k.0 <= s[1],
                0 < k.1 <= s[2],
        ;
        lemma_window_count_nonneg(s[1], k.0, st.0);
        lemma_window_count_nonneg(s[2], k.1, st.1);
    }
    let strided = view_windows2d(x, kernel_size, stride);
    let view_shape = strided.shape();
    let (out_h, out_w) = (view_shape[1], view_shape[2]);
    let kh = kernel_size[0] as i32;
    let kw = kernel_size[1] as i32;
    let ghost v = strided.dims();
    let ghost out = seq![s[0], v[1], v[2], s[3]];
    proof {
        assert(ints(view_shape@)[1] == v[1]);
        assert(ints(view_shape@)[2] == v[2]);
    }
    // One axis of kh * kw window entries.
    let merged: Vec<i32> = vec![n, out_h, out_w, kh * kw, c];
    let ghost g = v.take(3) + seq![size(v.subrange(3, 5))] + v.skip(5);
    proof {
        assert(v.subrange(3, 5) == seq![k.0, k.1]);
        lemma_rank2(seq![k.0, k.1], seq![0, 0]);
        assert(ints(merged@) == g);
        lemma_size_concat(v.take(3), v.subrange(3, 5));
        lemma_size_concat(v.take(3) + v.subrange(3, 5), v.skip(5));
        lemma_size_concat(v.take(3), seq![size(v.subrange(3, 5))]);
        lemma_size_concat(v.take(3) + seq![size(v.subrange(3, 5))], v.skip(5));
        lemma_rank1(seq![size(v.subrange(3, 5))], seq![0]);
        assert(v.take(3) + v.subrange(3, 5) + v.skip(5) == v);
        assert forall|j: int| 0 <= j < v.len() implies #[trigger] v[j] > 0 by {
        }
        lemma_size_positive(v);
        assert(g.take(3) + g.skip(4) == out);
    }
    let reshaped = strided.reshape(merged.as_slice());
    let output = reshaped.reduce(ReduceOp::Max, 3, 4);
    let local_indices = reshaped.reduce(ReduceOp::ArgMax, 3, 4);
    proof {
        assert forall|m: Model|
            #[trigger] output.value(m) == windows2d(m, ReduceOp::Max, x.value(m), k, st) by {
            assert(x.value(m).wf());
            assert(strided.value(m).wf());
            lemma_reduce_merged(m, ReduceOp::Max, strided.value(m), 3, 5);
            lemma_windows2d(m, ReduceOp::Max, x.value(m), k, st);
        }
        assert forall|m: Model|
            #[trigger] local_indices.value(m) == windows2d(
                m,
                ReduceOp::ArgMax,
                x.value(m),
                k,
                st,
            ) by {
            assert(x.value(m).wf());
            assert(strided.value(m).wf());
            lemma_reduce_merged(m, ReduceOp::ArgMax, strided.value(m), 3, 5);
            lemma_windows2d(m, ReduceOp::ArgMax, x.value(m), k, st);
        }
    }
    let n_idx = axis_positions(n, 0);
    let oh_idx = axis_positions(out_h, 1);
    let ow_idx = axis_positions(out_w, 2);
    let c_idx = axis_positions(c, 3);
    let kw_arr = Array::from_int(kw);
    let sh_arr = Array::from_int(stride[0] as i32);
    let sw_arr = Array::from_int(stride[1] as i32);
    let ghost none = Seq::<int>::empty();
    proof {
        lemma_absorb(none, out);
        lemma_absorb(none, n_idx.dims());
        lemma_absorb(none, oh_idx.dims());
        lemma_absorb(none, ow_idx.dims());
        lemma_absorb(n_idx.dims(), out);
        lemma_absorb(oh_idx.dims(), out);
        lemma_absorb(ow_idx.dims(), out);
        lemma_absorb(c_idx.dims(), out);
        lemma_absorb(out, out);
    }
    let local_h = local_indices.binary(BinaryOp::FloorDivide, &kw_arr);
    let local_w = local_indices.binary(BinaryOp::Remainder, &kw_arr);
    let start_h = oh_idx.binary(BinaryOp::Multiply, &sh_arr);
    let start_w = ow_idx.binary(BinaryOp::Multiply, &sw_arr);
    let actual_h = start_h.binary(BinaryOp::Add, &local_h);
    let actual_w = start_w.binary(BinaryOp::Add, &local_w);
    proof {
        lemma_mul_is_associative(s[1], s[2], s[3]);
        lemma_mul_is_commutative(s[1], s[2] * s[3]);
    }
    let wc: i32 = w * c;
    let hwc_arr = Array::from_int(wc * h);
    let wc_arr = Array::from_int(wc);
    let c_arr = Array::from_int(c);
    let from_n = n_idx.binary(BinaryOp::Multiply, &hwc_arr);
    let from_h = actual_h.binary(BinaryOp::Multiply, &wc_arr);
    let from_w = actual_w.binary(BinaryOp::Multiply, &c_arr);
    let sum_nh = from_n.binary(BinaryOp::Add, &from_h);
    let sum_nhw = sum_nh.binary(BinaryOp::Add, &from_w);
    let flat_indices = sum_nhw.binary(BinaryOp::Add, &c_idx);
    proof {
        assert forall|m: Model|
            #[trigger] flat_indices.value(m) == max_positions2d(m, x.value(m), k, st) by {
            let t = x.value(m);
            let u = max_positions2d(m, t, k, st);
            assert(t.wf());
            lemma_size_nonneg(out);
            assert forall|i: Seq<int>| in_bounds(out, i) implies #[trigger] flat_indices.value(
                m,
            ).at(i) == u.at(i) by {
                let wnd = window2d(t, k, i[0], i[1] * st.0, i[2] * st.1, i[3]);
                let a = argmax(m, wnd);
                assert(0 <= i[0] < out[0] && 0 <= i[1] < out[1] && 0 <= i[2] < out[2] && 0 <= i[3]
                    < out[3]);
                lemma_mod_bound((m.argmax)(wnd), k.0 * k.1);
                lemma_unravel2(seq![k.0, k.1], a);
                lemma_tabulate(
                    out,
                    |i: Seq<int>|
                        reduce(
                            m,
                            ReduceOp::ArgMax,
                            window2d(t, k, i[0], i[1] * st.0, i[2] * st.1, i[3]),
                        ),
                    i,
                );
                lemma_broadcast_index_same(out, i);
                assert(look(local_indices.value(m), i) == Elem::Int(a));
                lemma_window_entry(s[1], k.0, st.0, i[1], 0);
                lemma_window_entry(s[2], k.1, st.1, i[2], 0);
                lemma_window_entry(s[1], k.0, st.0, i[1], a / k.1);
                lemma_window_entry(s[2], k.1, st.1, i[2], a % k.1);
                let (y, z) = (i[1] * st.0 + a / k.1, i[2] * st.1 + a % k.1);
                let at = seq![i[0], y, z, i[3]];
                assert(in_bounds(s, at));
                lemma_position_parts(s, at);
                lemma_look_scalar(Elem::Int(kw as int), i);
                lemma_look_scalar(Elem::Int(st.0), i);
                lemma_look_scalar(Elem::Int(st.1), i);
                lemma_look_scalar(Elem::Int(s[2] * s[3] * s[1]), i);
                lemma_look_scalar(Elem::Int(s[2] * s[3]), i);
                lemma_look_scalar(Elem::Int(s[3]), i);
                lemma_zip_look(
                    m,
                    BinaryOp::FloorDivide,
                    local_indices.value(m),
                    kw_arr.value(m),
                    out,
                    i,
                );
                lemma_zip_look(
                    m,
                    BinaryOp::Remainder,
                    local_indices.value(m),
                    kw_arr.value(m),
                    out,
                    i,
                );
                assert(look(local_h.value(m), i) == Elem::Int(a / k.1));
                assert(look(local_w.value(m), i) == Elem::Int(a % k.1));
                lemma_zip_look(
                    m,
                    BinaryOp::Multiply,
                    oh_idx.value(m),
                    sh_arr.value(m),
                    out,
                    i,
                );
                lemma_zip_look(
                    m,
                    BinaryOp::Multiply,
                    ow_idx.value(m),
                    sw_arr.value(m),
                    out,
                    i,
                );
                lemma_int_ops(m, i[1], st.0);
                lemma_int_ops(m, i[2], st.1);
                assert(look(start_h.value(m), i) == Elem::Int(i[1] * st.0));
                assert(look(start_w.value(m), i) == Elem::Int(i[2] * st.1));
                lemma_zip_look(
                    m,
                    BinaryOp::Add,
                    start_h.value(m),
                    local_h.value(m),
                    out,
                    i,
                );
                lemma_zip_look(
                    m,
                    BinaryOp::Add,
                    start_w.value(m),
                    local_w.value(m),
                    out,
                    i,
                );
                lemma_int_ops(m, i[1] * st.0, a / k.1);
                lemma_int_ops(m, i[2] * st.1, a % k.1);
                assert(look(actual_h.value(m), i) == Elem::Int(y));
                assert(look(actual_w.value(m), i) == Elem::Int(z));
                lemma_zip_look(m, BinaryOp::Multiply, n_idx.value(m), hwc_arr.value(m), out, i);
                lemma_zip_look(m, BinaryOp::Multiply, actual_h.value(m), wc_arr.value(m), out, i);
                lemma_zip_look(m, BinaryOp::Multiply, actual_w.value(m), c_arr.value(m), out, i);
                lemma_int_ops(m, i[0], s[2] * s[3] * s[1]);
                lemma_int_ops(m, y, s[2] * s[3]);
                lemma_int_ops(m, z, s[3]);
                assert(look(from_n.value(m), i) == Elem::Int(i[0] * (s[1] * s[2] * s[3])));
                assert(look(from_h.value(m), i) == Elem::Int(y * (s[2] * s[3])));
                assert(look(from_w.value(m), i) == Elem::Int(z * s[3]));
                lemma_zip_look(m, BinaryOp::Add, from_n.value(m), from_h.value(m), out, i);
                lemma_zip_look(m, BinaryOp::Add, sum_nh.value(m), from_w.value(m), out, i);
                lemma_zip_look(m, BinaryOp::Add, sum_nhw.value(m), c_idx.value(m), out, i);
                lemma_int_ops(m, i[0] * (s[1] * s[2] * s[3]), y * (s[2] * s[3]));
                lemma_int_ops(m, i[0] * (s[1] * s[2] * s[3]) + y * (s[2] * s[3]), z * s[3]);
                lemma_int_ops(
                    m,
                    i[0] * (s[1] * s[2] * s[3]) + y * (s[2] * s[3]) + z * s[3],
                    i[3],
                );
                assert(look(flat_indices.value(m), i) == Elem::Int(ravel(s, at)));
                lemma_tabulate(
                    out,
                    |i: Seq<int>|
                        {
                            let y = i[1] * st.0;
                            let x = i[2] * st.1;
                            let a = argmax(m, window2d(t, k, i[0], y, x, i[3]));
                            Elem::Int(
                                ravel(t.shape, seq![i[0], y + a / k.1, x + a % k.1, i[3]]),
                            )
                        },
                    i,
                );
            }
            lemma_tensor_ext(flat_indices.value(m), u);
        }
    }
    (output, flat_indices)
}

} // verus!
