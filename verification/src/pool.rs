//! Reductions over sliding windows of channels-last arrays.
use crate::array::Array;
use crate::index::{
    in_bounds, is_shape, lemma_extents_positive, lemma_merge_axes, lemma_rank1, lemma_rank2,
    lemma_rank3, lemma_rank4, lemma_ravel_bound, lemma_size_nonneg, lemma_size_positive,
    lemma_unravel1, lemma_unravel2, offset, ravel, row_strides, size, unravel,
};
use crate::layout::row_major_strides;
use crate::node::{ints, longs};
use crate::op::ReduceOp;
use crate::tensor::{
    Elem, Model, Tensor, lane, lemma_tabulate, lemma_tensor_ext, reduce, reduce_axes, reshape,
    tabulate,
};
use vstd::arithmetic::div_mod::*;
use vstd::arithmetic::mul::*;
use vstd::prelude::*;

verus! {

/// How many windows of `kernel` entries, `stride` apart, fit into an axis.
pub open spec fn window_count(extent: int, kernel: int, stride: int) -> int {
    (extent - kernel) / stride + 1
}

/// The entries of a one-dimensional window of `t`, whose shape is `[N, L, C]`.
pub open spec fn window1d(t: Tensor, kernel: int, n: int, y: int, c: int) -> Seq<Elem> {
    Seq::new(kernel as nat, |q: int| t.at(seq![n, y + q, c]))
}

/// Every window of an `[N, L, C]` tensor, reduced.
pub open spec fn windows1d(m: Model, op: ReduceOp, t: Tensor, kernel: int, stride: int) -> Tensor {
    tabulate(
        seq![t.shape[0], window_count(t.shape[1], kernel, stride), t.shape[2]],
        |i: Seq<int>| reduce(m, op, window1d(t, kernel, i[0], i[1] * stride, i[2])),
    )
}

/// The entries of a two-dimensional window of `t`, whose shape is
/// `[N, H, W, C]`, in row-major order.
pub open spec fn window2d(
    t: Tensor,
    kernel: (int, int),
    n: int,
    y: int,
    x: int,
    c: int,
) -> Seq<Elem> {
    Seq::new(
        (kernel.0 * kernel.1) as nat,
        |q: int| t.at(seq![n, y + q / kernel.1, x + q % kernel.1, c]),
    )
}

/// Every window of an `[N, H, W, C]` tensor, reduced.
pub open spec fn windows2d(
    m: Model,
    op: ReduceOp,
    t: Tensor,
    kernel: (int, int),
    stride: (int, int),
) -> Tensor {
    tabulate(
        seq![
            t.shape[0],
            window_count(t.shape[1], kernel.0, stride.0),
            window_count(t.shape[2], kernel.1, stride.1),
            t.shape[3],
        ],
        |i: Seq<int>|
            reduce(
                m,
                op,
                window2d(t, kernel, i[0], i[1] * stride.0, i[2] * stride.1, i[3]),
            ),
    )
}

/// A window fits into the axis, and the numbers into machine integers.
pub open spec fn axis_fits(extent: int, kernel: int, stride: int) -> bool {
    &&& 0 <= kernel <= extent
    &&& 0 < stride <= i32::MAX
    &&& window_count(extent, kernel, stride) <= i32::MAX
}

/// One-dimensional windows can be cut from an array of shape `s`.
pub open spec fn pool1d_fits(s: Seq<int>, kernel: int, stride: int) -> bool {
    &&& s.len() == 3
    &&& axis_fits(s[1], kernel, stride)
}

/// Two-dimensional windows can be cut from an array of shape `s`.
pub open spec fn pool2d_fits(s: Seq<int>, kernel: (int, int), stride: (int, int)) -> bool {
    &&& s.len() == 4
    &&& axis_fits(s[1], kernel.0, stride.0)
    &&& axis_fits(s[2], kernel.1, stride.1)
    &&& s[1] * s[2] * s[3] <= i64::MAX
    &&& s[2] * s[3] * stride.0 <= i64::MAX
}

/// Entry `j` of window `o` lies on the axis.
pub proof fn lemma_window_entry(extent: int, kernel: int, stride: int, o: int, j: int)
    requires
        0 <= kernel <= extent,
        0 < stride,
        0 <= o < window_count(extent, kernel, stride),
        0 <= j < kernel,
    ensures
        0 <= o * stride + j < extent,
{
    let d = extent - kernel;
    lemma_fundamental_div_mod(d, stride);
    assert(0 <= o * stride <= d) by (nonlinear_arith)
        requires
            0 < stride,
            0 <= o <= d / stride,
            d == stride * (d / stride) + d % stride,
            0 <= d % stride,
    ;
}

pub proof fn lemma_window_count_nonneg(extent: int, kernel: int, stride: int)
    requires
        0 <= kernel <= extent,
        0 < stride,
    ensures
        1 <= window_count(extent, kernel, stride) <= extent - kernel + 1,
{
    let d = extent - kernel;
    lemma_div_pos_is_pos(d, stride);
    lemma_div_is_ordered_by_denominator(d, 1, stride);
    lemma_div_basics(d);
}

/// The number of windows along an axis.
fn count_windows(extent: i32, kernel: usize, stride: usize) -> (r: i32)
    requires
        axis_fits(extent as int, kernel as int, stride as int),
    ensures
        r == window_count(extent as int, kernel as int, stride as int),
        r >= 1,
{
    proof {
        lemma_window_count_nonneg(extent as int, kernel as int, stride as int);
    }
    (extent - kernel as i32) / stride as i32 + 1
}

proof fn lemma_strides3(s: Seq<int>)
    requires
        s.len() == 3,
    ensures
        row_strides(s) == seq![s[1] * s[2], s[2], 1],
        size(s.skip(1)) == s[1] * s[2],
        size(s.skip(2)) == s[2],
        size(s.skip(3)) == 1,
{
    lemma_rank2(s.skip(1), seq![0, 0]);
    lemma_rank1(s.skip(2), seq![0]);
    assert(s.skip(3).len() == 0);
    assert(row_strides(s) == seq![s[1] * s[2], s[2], 1]);
}

proof fn lemma_strides4(s: Seq<int>)
    requires
        s.len() == 4,
    ensures
        row_strides(s) == seq![s[1] * s[2] * s[3], s[2] * s[3], s[3], 1],
        size(s.skip(1)) == s[1] * s[2] * s[3],
        size(s.skip(2)) == s[2] * s[3],
        size(s.skip(3)) == s[3],
        size(s.skip(4)) == 1,
{
    lemma_rank3(s.skip(1), seq![0, 0, 0]);
    lemma_rank2(s.skip(2), seq![0, 0]);
    lemma_rank1(s.skip(3), seq![0]);
    assert(s.skip(4).len() == 0);
    assert(row_strides(s) == seq![s[1] * s[2] * s[3], s[2] * s[3], s[3], 1]);
}

/// Where an index of the window view leads in the array.
proof fn lemma_view1d(s: Seq<int>, kernel: int, stride: int, i: Seq<int>)
    requires
        is_shape(s),
        pool1d_fits(s, kernel, stride),
        in_bounds(seq![s[0], window_count(s[1], kernel, stride), kernel, s[2]], i),
    ensures
        in_bounds(s, seq![i[0], i[1] * stride + i[2], i[3]]),
        offset(i, seq![s[1] * s[2], s[2] * stride, s[2], 1]) == ravel(
            s,
            seq![i[0], i[1] * stride + i[2], i[3]],
        ),
{
    let strides = seq![s[1] * s[2], s[2] * stride, s[2], 1];
    let j = seq![i[0], i[1] * stride + i[2], i[3]];
    let v = seq![s[0], window_count(s[1], kernel, stride), kernel, s[2]];
    assert(0 <= i[0] < v[0]);
    assert(0 <= i[1] < v[1]);
    assert(0 <= i[2] < v[2]);
    assert(0 <= i[3] < v[3]);
    lemma_window_entry(s[1], kernel, stride, i[1], i[2]);
    reveal_with_fuel(offset, 5);
    lemma_rank3(s, j);
    let (a, b, k, c) = (i[0], i[1], i[2], i[3]);
    let (l, d) = (s[1], s[2]);
    assert(offset(i, strides) == a * (l * d) + b * (d * stride) + k * d + c * 1);
    assert(a * (l * d) + b * (d * stride) + k * d + c * 1 == (a * l + (b * stride + k)) * d + c)
        by (nonlinear_arith);
}

proof fn lemma_view2d(s: Seq<int>, kernel: (int, int), stride: (int, int), i: Seq<int>)
    requires
        is_shape(s),
        pool2d_fits(s, kernel, stride),
        in_bounds(
            seq![
                s[0],
                window_count(s[1], kernel.0, stride.0),
                window_count(s[2], kernel.1, stride.1),
                kernel.0,
                kernel.1,
                s[3],
            ],
            i,
        ),
    ensures
        in_bounds(s, seq![i[0], i[1] * stride.0 + i[3], i[2] * stride.1 + i[4], i[5]]),
        offset(
            i,
            seq![
                s[1] * s[2] * s[3],
                s[2] * s[3] * stride.0,
                s[3] * stride.1,
                s[2] * s[3],
                s[3],
                1,
            ],
        ) == ravel(s, seq![i[0], i[1] * stride.0 + i[3], i[2] * stride.1 + i[4], i[5]]),
{
    let strides = seq![
        s[1] * s[2] * s[3],
        s[2] * s[3] * stride.0,
        s[3] * stride.1,
        s[2] * s[3],
        s[3],
        1,
    ];
    let j = seq![i[0], i[1] * stride.0 + i[3], i[2] * stride.1 + i[4], i[5]];
    let v = seq![
        s[0],
        window_count(s[1], kernel.0, stride.0),
        window_count(s[2], kernel.1, stride.1),
        kernel.0,
        kernel.1,
        s[3],
    ];
    assert(0 <= i[0] < v[0]);
    assert(0 <= i[1] < v[1]);
    assert(0 <= i[2] < v[2]);
    assert(0 <= i[3] < v[3]);
    assert(0 <= i[4] < v[4]);
    assert(0 <= i[5] < v[5]);
    lemma_window_entry(s[1], kernel.0, stride.0, i[1], i[3]);
    lemma_window_entry(s[2], kernel.1, stride.1, i[2], i[4]);
    reveal_with_fuel(offset, 7);
    lemma_rank4(s, j);
    let (n, oh, ow, kh, kw, c) = (i[0], i[1], i[2], i[3], i[4], i[5]);
    let (h, w, d) = (s[1], s[2], s[3]);
    let (sh, sw) = (stride.0, stride.1);
    assert(offset(i, strides) == n * (h * w * d) + oh * (w * d * sh) + ow * (d * sw) + kh * (w * d)
        + kw * d + c * 1);
    let (y, x, e) = (oh * sh + kh, ow * sw + kw, w * d);
    assert(y * e == oh * (e * sh) + kh * e) by (nonlinear_arith)
        requires
            y == oh * sh + kh,
    ;
    assert(x * d == ow * (d * sw) + kw * d) by (nonlinear_arith)
        requires
            x == ow * sw + kw,
    ;
    lemma_horner3(n, y, x, h, w, d);
}

/// Two forms of a position in three nested extents.
pub proof fn lemma_horner3(n: int, y: int, x: int, h: int, w: int, d: int)
    ensures
        ((n * h + y) * w + x) * d == n * (h * w * d) + y * (w * d) + x * d,
{
    let a = n * h + y;
    lemma_mul_is_distributive_add_other_way(d, a * w, x);
    lemma_mul_is_associative(a, w, d);
    lemma_mul_is_distributive_add_other_way(w * d, n * h, y);
    lemma_mul_is_associative(n, h, w * d);
    lemma_mul_is_associative(h, w, d);
}

/// The windows of an `[N, L, C]` tensor, as `[N, OL, K, C]`.
pub open spec fn view1d(t: Tensor, kernel: int, stride: int) -> Tensor {
    tabulate(
        seq![t.shape[0], window_count(t.shape[1], kernel, stride), kernel, t.shape[2]],
        |i: Seq<int>| t.at(seq![i[0], i[1] * stride + i[2], i[3]]),
    )
}

/// The windows of an `[N, H, W, C]` tensor, as `[N, OH, OW, KH, KW, C]`.
pub open spec fn view2d(t: Tensor, kernel: (int, int), stride: (int, int)) -> Tensor {
    tabulate(
        seq![
            t.shape[0],
            window_count(t.shape[1], kernel.0, stride.0),
            window_count(t.shape[2], kernel.1, stride.1),
            kernel.0,
            kernel.1,
            t.shape[3],
        ],
        |i: Seq<int>|
            t.at(seq![i[0], i[1] * stride.0 + i[3], i[2] * stride.1 + i[4], i[5]]),
    )
}

/// A view of the windows of an `[N, L, C]` array.
fn view_windows1d(x: &Array, kernel_size: usize, stride: usize) -> (r: Array)
    requires
        x.wf(),
        pool1d_fits(x.dims(), kernel_size as int, stride as int),
    ensures
        r.wf(),
        r.dims() == seq![
            x.dims()[0],
            window_count(x.dims()[1], kernel_size as int, stride as int),
            kernel_size as int,
            x.dims()[2],
        ],
        forall|m: Model|
            #[trigger] r.value(m) == view1d(x.value(m), kernel_size as int, stride as int),
{
    let shape = x.shape();
    let ghost s = x.dims();
    let ghost (k, st) = (kernel_size as int, stride as int);
    proof {
        assert(is_shape(s));
        assert(s[0] >= 0 && s[1] >= 0 && s[2] >= 0);
        lemma_strides3(s);
        assert forall|j: int| 0 < j <= 3 implies size(#[trigger] s.skip(j)) <= i64::MAX by {
            assert(s[1] * s[2] <= i32::MAX * i32::MAX) by (nonlinear_arith)
                requires
                    0 <= s[1] <= i32::MAX,
                    0 <= s[2] <= i32::MAX,
            ;
        }
        assert(s[2] * st <= i32::MAX * i32::MAX && s[2] * st >= 0) by (nonlinear_arith)
            requires
                0 <= s[2] <= i32::MAX,
                0 <= st <= i32::MAX,
        ;
    }
    let out_l = count_windows(shape[1], kernel_size, stride);
    let final_shape: Vec<i32> = vec![shape[0], out_l, kernel_size as i32, shape[2]];
    let orig_strides = row_major_strides(shape.as_slice());
    proof {
        assert(longs(orig_strides@)[0] == s[1] * s[2]);
        assert(longs(orig_strides@)[1] == s[2]);
        assert(longs(orig_strides@)[2] == 1);
    }
    let final_strides: Vec<i64> = vec![
        orig_strides[0],
        orig_strides[1] * stride as i64,
        orig_strides[1],
        orig_strides[2],
    ];
    let ghost v = seq![s[0], window_count(s[1], k, st), k, s[2]];
    let ghost strides = seq![s[1] * s[2], s[2] * st, s[2], 1];
    proof {
        assert(ints(final_shape@) == v);
        assert(longs(final_strides@) == strides);
        lemma_window_count_nonneg(s[1], k, st);
        assert forall|i: Seq<int>| in_bounds(v, i) implies 0 <= #[trigger] offset(i, strides)
            < size(s) by {
            lemma_view1d(s, k, st, i);
            lemma_ravel_bound(s, seq![i[0], i[1] * st + i[2], i[3]]);
        }
    }
    let r = x.as_strided(final_shape.as_slice(), final_strides);
    proof {
        assert forall|m: Model| #[trigger] r.value(m) == view1d(x.value(m), k, st) by {
            let t = x.value(m);
            assert(t.shape == s);
            let u = view1d(t, k, st);
            lemma_size_nonneg(v);
            assert forall|i: Seq<int>| in_bounds(v, i) implies #[trigger] r.value(m).at(i) == u.at(
                i,
            ) by {
                lemma_view1d(s, k, st, i);
                lemma_tabulate(v, |i: Seq<int>| t.data[offset(i, strides)], i);
                lemma_tabulate(v, |i: Seq<int>| t.at(seq![i[0], i[1] * st + i[2], i[3]]), i);
            }
            lemma_tensor_ext(r.value(m), u);
        }
    }
    r
}

/// A view of the windows of an `[N, H, W, C]` array.
pub(crate) fn view_windows2d(x: &Array, kernel_size: [usize; 2], stride: [usize; 2]) -> (r: Array)
    requires
        x.wf(),
        pool2d_fits(x.dims(), pair(kernel_size), pair(stride)),
    ensures
        r.wf(),
        r.dims() == seq![
            x.dims()[0],
            window_count(x.dims()[1], kernel_size[0] as int, stride[0] as int),
            window_count(x.dims()[2], kernel_size[1] as int, stride[1] as int),
            kernel_size[0] as int,
            kernel_size[1] as int,
            x.dims()[3],
        ],
        forall|m: Model|
            #[trigger] r.value(m) == view2d(x.value(m), pair(kernel_size), pair(stride)),
{
    let shape = x.shape();
    let ghost s = x.dims();
    let ghost (k, st) = (pair(kernel_size), pair(stride));
    proof {
        assert(is_shape(s));
        assert(s[0] >= 0 && s[1] >= 0 && s[2] >= 0 && s[3] >= 0);
        lemma_strides4(s);
        assert(0 <= s[2] * s[3] <= i32::MAX * i32::MAX) by (nonlinear_arith)
            requires
                0 <= s[2] <= i32::MAX,
                0 <= s[3] <= i32::MAX,
        ;
        assert forall|j: int| 0 < j <= 4 implies size(#[trigger] s.skip(j)) <= i64::MAX by {
        }
        assert(0 <= s[3] * st.1 <= i32::MAX * i32::MAX) by (nonlinear_arith)
            requires
                0 <= s[3] <= i32::MAX,
                0 <= st.1 <= i32::MAX,
        ;
        lemma_mul_nonnegative(s[2] * s[3], st.0);
    }
    let out_h = count_windows(shape[1], kernel_size[0], stride[0]);
    let out_w = count_windows(shape[2], kernel_size[1], stride[1]);
    let final_shape: Vec<i32> = vec![
        shape[0],
        out_h,
        out_w,
        kernel_size[0] as i32,
        kernel_size[1] as i32,
        shape[3],
    ];
    let orig_strides = row_major_strides(shape.as_slice());
    proof {
        assert(longs(orig_strides@)[0] == s[1] * s[2] * s[3]);
        assert(longs(orig_strides@)[1] == s[2] * s[3]);
        assert(longs(orig_strides@)[2] == s[3]);
        assert(longs(orig_strides@)[3] == 1);
    }
    let final_strides: Vec<i64> = vec![
        orig_strides[0],
        orig_strides[1] * stride[0] as i64,
        orig_strides[2] * stride[1] as i64,
        orig_strides[1],
        orig_strides[2],
        orig_strides[3],
    ];
    let ghost v = seq![
        s[0],
        window_count(s[1], k.0, st.0),
        window_count(s[2], k.1, st.1),
        k.0,
        k.1,
        s[3],
    ];
    let ghost strides = seq![
        s[1] * s[2] * s[3],
        s[2] * s[3] * st.0,
        s[3] * st.1,
        s[2] * s[3],
        s[3],
        1,
    ];
    proof {
        assert(ints(final_shape@) == v);
        assert(longs(final_strides@) == strides);
        lemma_window_count_nonneg(s[1], k.0, st.0);
        lemma_window_count_nonneg(s[2], k.1, st.1);
        assert forall|i: Seq<int>| in_bounds(v, i) implies 0 <= #[trigger] offset(i, strides)
            < size(s) by {
            lemma_view2d(s, k, st, i);
            lemma_ravel_bound(s, seq![i[0], i[1] * st.0 + i[3], i[2] * st.1 + i[4], i[5]]);
        }
    }
    let r = x.as_strided(final_shape.as_slice(), final_strides);
    proof {
        assert forall|m: Model| #[trigger] r.value(m) == view2d(x.value(m), k, st) by {
            let t = x.value(m);
            assert(t.shape == s);
            let u = view2d(t, k, st);
            lemma_size_nonneg(v);
            assert forall|i: Seq<int>| in_bounds(v, i) implies #[trigger] r.value(m).at(i) == u.at(
                i,
            ) by {
                lemma_view2d(s, k, st, i);
                lemma_tabulate(v, |i: Seq<int>| t.data[offset(i, strides)], i);
                lemma_tabulate(
                    v,
                    |i: Seq<int>|
                        t.at(seq![i[0], i[1] * st.0 + i[3], i[2] * st.1 + i[4], i[5]]),
                    i,
                );
            }
            lemma_tensor_ext(r.value(m), u);
        }
    }
    r
}

/// A reduced view holds the reduced windows.
proof fn lemma_windows1d(m: Model, op: ReduceOp, t: Tensor, kernel: int, stride: int)
    requires
        t.wf(),
        pool1d_fits(t.shape, kernel, stride),
    ensures
        reduce_axes(m, op, view1d(t, kernel, stride), 2, 3) == windows1d(m, op, t, kernel, stride),
{
    let s = t.shape;
    let o = window_count(s[1], kernel, stride);
    lemma_window_count_nonneg(s[1], kernel, stride);
    let v = seq![s[0], o, kernel, s[2]];
    let u = seq![s[0], o, s[2]];
    let view = view1d(t, kernel, stride);
    let reduced = reduce_axes(m, op, view, 2, 3);
    assert(v.take(2) + v.skip(3) == u);
    assert(v.subrange(2, 3) == seq![kernel]);
    lemma_rank1(seq![kernel], seq![0]);
    assert(s[0] >= 0 && s[2] >= 0);
    lemma_size_nonneg(u);
    let f = |i: Seq<int>| t.at(seq![i[0], i[1] * stride + i[2], i[3]]);
    assert forall|i: Seq<int>| in_bounds(u, i) implies #[trigger] reduced.at(i) == windows1d(
        m,
        op,
        t,
        kernel,
        stride,
    ).at(i) by {
        lemma_tabulate(u, |i: Seq<int>| reduce(m, op, lane(view, 2, 3, i)), i);
        lemma_tabulate(
            u,
            |i: Seq<int>| reduce(m, op, window1d(t, kernel, i[0], i[1] * stride, i[2])),
            i,
        );
        let w = window1d(t, kernel, i[0], i[1] * stride, i[2]);
        assert(0 <= i[0] < u[0] && 0 <= i[1] < u[1] && 0 <= i[2] < u[2]);
        assert forall|q: int| 0 <= q < kernel implies lane(view, 2, 3, i)[q] == w[q] by {
            lemma_unravel1(seq![kernel], q);
            let j = i.take(2) + unravel(v.subrange(2, 3), q) + i.skip(2);
            assert(j == seq![i[0], i[1], q, i[2]]);
            lemma_tabulate(v, f, j);
        }
        assert(lane(view, 2, 3, i) == w);
    }
    lemma_tensor_ext(reduced, windows1d(m, op, t, kernel, stride));
}

pub proof fn lemma_windows2d(
    m: Model,
    op: ReduceOp,
    t: Tensor,
    kernel: (int, int),
    stride: (int, int),
)
    requires
        t.wf(),
        pool2d_fits(t.shape, kernel, stride),
    ensures
        reduce_axes(m, op, view2d(t, kernel, stride), 3, 5) == windows2d(m, op, t, kernel, stride),
{
    let s = t.shape;
    let oh = window_count(s[1], kernel.0, stride.0);
    let ow = window_count(s[2], kernel.1, stride.1);
    lemma_window_count_nonneg(s[1], kernel.0, stride.0);
    lemma_window_count_nonneg(s[2], kernel.1, stride.1);
    let v = seq![s[0], oh, ow, kernel.0, kernel.1, s[3]];
    let u = seq![s[0], oh, ow, s[3]];
    let view = view2d(t, kernel, stride);
    let reduced = reduce_axes(m, op, view, 3, 5);
    assert(v.take(3) + v.skip(5) == u);
    let inner = seq![kernel.0, kernel.1];
    assert(v.subrange(3, 5) == inner);
    lemma_rank2(inner, seq![0, 0]);
    assert(s[0] >= 0 && s[3] >= 0);
    lemma_size_nonneg(u);
    let f = |i: Seq<int>| t.at(seq![i[0], i[1] * stride.0 + i[3], i[2] * stride.1 + i[4], i[5]]);
    assert forall|i: Seq<int>| in_bounds(u, i) implies #[trigger] reduced.at(i) == windows2d(
        m,
        op,
        t,
        kernel,
        stride,
    ).at(i) by {
        lemma_tabulate(u, |i: Seq<int>| reduce(m, op, lane(view, 3, 5, i)), i);
        lemma_tabulate(
            u,
            |i: Seq<int>|
                reduce(
                    m,
                    op,
                    window2d(t, kernel, i[0], i[1] * stride.0, i[2] * stride.1, i[3]),
                ),
            i,
        );
        let w = window2d(t, kernel, i[0], i[1] * stride.0, i[2] * stride.1, i[3]);
        assert(0 <= i[0] < u[0] && 0 <= i[1] < u[1] && 0 <= i[2] < u[2] && 0 <= i[3] < u[3]);
        assert forall|q: int| 0 <= q < kernel.0 * kernel.1 implies lane(view, 3, 5, i)[q]
            == w[q] by {
            lemma_unravel2(inner, q);
            let j = i.take(3) + unravel(v.subrange(3, 5), q) + i.skip(3);
            assert(j == seq![i[0], i[1], i[2], q / kernel.1, q % kernel.1, i[3]]);
            lemma_tabulate(v, f, j);
        }
        assert(lane(view, 3, 5, i) == w);
    }
    lemma_tensor_ext(reduced, windows2d(m, op, t, kernel, stride));
}

/// Every window of an `[N, L, C]` array reduced, as `[N, OL, C]`.
pub fn pool1d_strided(x: &Array, kernel_size: usize, stride: usize, op: ReduceOp) -> (r: Array)
    requires
        x.wf(),
        pool1d_fits(x.dims(), kernel_size as int, stride as int),
        op is Max || op is ArgMax ==> size(x.dims()) > 0 && kernel_size > 0,
    ensures
        r.wf(),
        r.dims() == seq![
            x.dims()[0],
            window_count(x.dims()[1], kernel_size as int, stride as int),
            x.dims()[2],
        ],
        forall|m: Model|
            #[trigger] r.value(m) == windows1d(
                m,
                op,
                x.value(m),
                kernel_size as int,
                stride as int,
            ),
{
    let view = view_windows1d(x, kernel_size, stride);
    let ghost (k, st) = (kernel_size as int, stride as int);
    proof {
        let s = x.dims();
        let v = view.dims();
        assert(v.take(2) + v.skip(3) == seq![s[0], window_count(s[1], k, st), s[2]]);
        if size(s) > 0 && k > 0 {
            lemma_window_count_nonneg(s[1], k, st);
            lemma_extents_positive(s);
            assert(s[0] > 0 && s[2] > 0);
            lemma_size_positive(v);
        }
    }
    let r = view.reduce(op, 2, 3);
    proof {
        assert forall|m: Model| #[trigger] r.value(m) == windows1d(m, op, x.value(m), k, st) by {
            assert(x.value(m).wf());
            lemma_windows1d(m, op, x.value(m), k, st);
        }
    }
    r
}

/// Every window of an `[N, H, W, C]` array reduced, as `[N, OH, OW, C]`.
pub fn pool2d_strided(
    x: &Array,
    kernel_size: [usize; 2],
    stride: [usize; 2],
    op: ReduceOp,
) -> (r: Array)
    requires
        x.wf(),
        pool2d_fits(x.dims(), pair(kernel_size), pair(stride)),
        op is Max || op is ArgMax ==> size(x.dims()) > 0 && kernel_size[0] > 0 && kernel_size[1]
            > 0,
    ensures
        r.wf(),
        r.dims() == seq![
            x.dims()[0],
            window_count(x.dims()[1], kernel_size[0] as int, stride[0] as int),
            window_count(x.dims()[2], kernel_size[1] as int, stride[1] as int),
            x.dims()[3],
        ],
        forall|m: Model|
            #[trigger] r.value(m) == windows2d(
                m,
                op,
                x.value(m),
                pair(kernel_size),
                pair(stride),
            ),
{
    let view = view_windows2d(x, kernel_size, stride);
    let ghost (k, st) = (pair(kernel_size), pair(stride));
    proof {
        let s = x.dims();
        let v = view.dims();
        assert(v.take(3) + v.skip(5) == seq![
            s[0],
            window_count(s[1], k.0, st.0),
            window_count(s[2], k.1, st.1),
            s[3],
        ]);
        if size(s) > 0 && k.0 > 0 && k.1 > 0 {
            lemma_window_count_nonneg(s[1], k.0, st.0);
            lemma_window_count_nonneg(s[2], k.1, st.1);
            lemma_extents_positive(s);
            assert(s[0] > 0 && s[3] > 0);
            lemma_size_positive(v);
        }
    }
    let r = view.reduce(op, 3, 5);
    proof {
        assert forall|m: Model| #[trigger] r.value(m) == windows2d(m, op, x.value(m), k, st) by {
            assert(x.value(m).wf());
            lemma_windows2d(m, op, x.value(m), k, st);
        }
    }
    r
}

/// Reducing merged axes is reducing the axes.
pub proof fn lemma_reduce_merged(m: Model, op: ReduceOp, t: Tensor, first: int, last: int)
    requires
        t.wf(),
        0 <= first <= last <= t.shape.len(),
    ensures
        reduce_axes(
            m,
            op,
            reshape(
                t,
                t.shape.take(first) + seq![size(t.shape.subrange(first, last))] + t.shape.skip(
                    last,
                ),
            ),
            first,
            first + 1,
        ) == reduce_axes(m, op, t, first, last),
{
    let s1 = t.shape.take(first);
    let mid = t.shape.subrange(first, last);
    let s2 = t.shape.skip(last);
    let merged = s1 + seq![size(mid)] + s2;
    let u = reshape(t, merged);
    let out = s1 + s2;
    assert(merged.take(first) + merged.skip(first + 1) == out);
    assert(merged.subrange(first, first + 1) == seq![size(mid)]);
    assert(s1 + mid + s2 == t.shape);
    assert(is_shape(mid)) by {
        assert forall|k: int| 0 <= k < mid.len() implies #[trigger] mid[k] >= 0 by {
            assert(t.shape[first + k] >= 0);
        }
    }
    lemma_size_nonneg(mid);
    lemma_rank1(seq![size(mid)], seq![0]);
    assert(is_shape(out)) by {
        assert forall|k: int| 0 <= k < out.len() implies #[trigger] out[k] >= 0 by {
            let j = if k < first {
                k
            } else {
                k - first + last
            };
            assert(t.shape[j] >= 0);
        }
    }
    lemma_size_nonneg(out);
    let x = reduce_axes(m, op, u, first, first + 1);
    let y = reduce_axes(m, op, t, first, last);
    assert forall|i: Seq<int>| in_bounds(out, i) implies #[trigger] x.at(i) == y.at(i) by {
        lemma_tabulate(out, |i: Seq<int>| reduce(m, op, lane(u, first, first + 1, i)), i);
        lemma_tabulate(out, |i: Seq<int>| reduce(m, op, lane(t, first, last, i)), i);
        assert forall|q: int| 0 <= q < size(mid) implies lane(u, first, first + 1, i)[q] == lane(
            t,
            first,
            last,
            i,
        )[q] by {
            lemma_unravel1(seq![size(mid)], q);
            lemma_merge_axes(s1, mid, s2, i.take(first), q, i.skip(first));
        }
        assert(lane(u, first, first + 1, i) == lane(t, first, last, i));
    }
    lemma_tensor_ext(x, y);
}

/// A pair of extents.
pub open spec fn pair(a: [usize; 2]) -> (int, int) {
    (a[0] as int, a[1] as int)
}

} // verus!
