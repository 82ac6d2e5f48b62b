//! Pooling of channels-first tensors.
use crate::array::Array;
use crate::index::{
    in_bounds, is_shape, lemma_size_nonneg, lemma_size_positive, lemma_unravel2, ravel, size,
};
use crate::layout::{
    channels_first, channels_last, lemma_channels_first, lemma_channels_last, lemma_swap_last,
    swap_last,
};
use crate::max_pool::max_pool2d_with_indices_impl;
use crate::node::ints;
use crate::op::{Const, ReduceOp};
use crate::pool::{
    axis_fits, lemma_window_count_nonneg, lemma_window_entry, pair, pool1d_strided, pool2d_fits,
    pool2d_strided, window1d, window2d, window_count,
};
use crate::primitive::{Mlx, MlxTensorPrimitive, sizes};
use crate::tensor::{
    Elem, Model, Tensor, argmax, constant_tensor, lemma_tabulate, lemma_tensor_ext, padded_shape,
    permuted, reduce, tabulate,
};
use vstd::arithmetic::div_mod::*;
use vstd::arithmetic::mul::*;
use vstd::prelude::*;

verus! {

/// Entry `y` of a lane of an `[N, C, L]` tensor, or `v` outside.
pub open spec fn padded1d(t: Tensor, v: Elem, n: int, c: int, y: int) -> Elem {
    if 0 <= y < t.shape[2] {
        t.at(seq![n, c, y])
    } else {
        v
    }
}

/// Every window of an `[N, C, L]` tensor reduced, as `[N, C, OL]`. The tensor is
/// continued by `padding` copies of `v` on either side.
pub open spec fn pool1d(
    m: Model,
    op: ReduceOp,
    t: Tensor,
    kernel: int,
    stride: int,
    padding: int,
    v: Elem,
) -> Tensor {
    tabulate(
        seq![
            t.shape[0],
            t.shape[1],
            window_count(t.shape[2] + 2 * padding, kernel, stride),
        ],
        |i: Seq<int>|
            reduce(
                m,
                op,
                Seq::new(
                    kernel as nat,
                    |q: int| padded1d(t, v, i[0], i[1], i[2] * stride + q - padding),
                ),
            ),
    )
}

/// Entry `(y, x)` of a plane of an `[N, C, H, W]` tensor, or `v` outside.
pub open spec fn padded2d(t: Tensor, v: Elem, n: int, c: int, y: int, x: int) -> Elem {
    if 0 <= y < t.shape[2] && 0 <= x < t.shape[3] {
        t.at(seq![n, c, y, x])
    } else {
        v
    }
}

/// The entries, in row-major order, of output window `(n, c, oh, ow)` of an
/// `[N, C, H, W]` tensor that is continued by copies of `v`.
pub open spec fn padded_window2d(
    t: Tensor,
    kernel: (int, int),
    stride: (int, int),
    padding: (int, int),
    v: Elem,
    i: Seq<int>,
) -> Seq<Elem> {
    Seq::new(
        (kernel.0 * kernel.1) as nat,
        |q: int|
            padded2d(
                t,
                v,
                i[0],
                i[1],
                i[2] * stride.0 + q / kernel.1 - padding.0,
                i[3] * stride.1 + q % kernel.1 - padding.1,
            ),
    )
}

/// The shape of what two-dimensional pooling gives.
pub open spec fn pool2d_shape(
    s: Seq<int>,
    kernel: (int, int),
    stride: (int, int),
    padding: (int, int),
) -> Seq<int> {
    seq![
        s[0],
        s[1],
        window_count(s[2] + 2 * padding.0, kernel.0, stride.0),
        window_count(s[3] + 2 * padding.1, kernel.1, stride.1),
    ]
}

/// Every window of an `[N, C, H, W]` tensor reduced, as `[N, C, OH, OW]`. The
/// tensor is continued by copies of `v` on every side.
pub open spec fn pool2d(
    m: Model,
    op: ReduceOp,
    t: Tensor,
    kernel: (int, int),
    stride: (int, int),
    padding: (int, int),
    v: Elem,
) -> Tensor {
    tabulate(
        pool2d_shape(t.shape, kernel, stride, padding),
        |i: Seq<int>| reduce(m, op, padded_window2d(t, kernel, stride, padding, v, i)),
    )
}

/// `[N, C, L]` tensors of shape `s` can be pooled.
pub open spec fn pooling1d_fits(s: Seq<int>, kernel: int, stride: int, padding: int) -> bool {
    &&& s.len() == 3
    &&& 0 <= padding
    &&& s[2] + 2 * padding <= i32::MAX
    &&& axis_fits(s[2] + 2 * padding, kernel, stride)
}

/// `[N, C, H, W]` tensors of shape `s` can be pooled.
pub open spec fn pooling2d_fits(
    s: Seq<int>,
    kernel: (int, int),
    stride: (int, int),
    padding: (int, int),
) -> bool {
    &&& s.len() == 4
    &&& 0 <= padding.0
    &&& 0 <= padding.1
    &&& s[2] + 2 * padding.0 <= i32::MAX
    &&& s[3] + 2 * padding.1 <= i32::MAX
    &&& pool2d_fits(
        seq![s[0], s[2] + 2 * padding.0, s[3] + 2 * padding.1, s[1]],
        kernel,
        stride,
    )
}

/// `[N, C, L]` as `[N, L, C]`, continued by `padding` copies of `v` on either
/// side.
pub open spec fn padded_lanes(t: Tensor, padding: int, v: Elem) -> Tensor {
    tabulate(
        seq![t.shape[0], t.shape[2] + 2 * padding, t.shape[1]],
        |i: Seq<int>| padded1d(t, v, i[0], i[2], i[1] - padding),
    )
}

/// `[N, C, H, W]` as `[N, H, W, C]`, continued by copies of `v` on every side.
pub open spec fn padded_planes(t: Tensor, padding: (int, int), v: Elem) -> Tensor {
    tabulate(
        seq![t.shape[0], t.shape[2] + 2 * padding.0, t.shape[3] + 2 * padding.1, t.shape[1]],
        |i: Seq<int>| padded2d(t, v, i[0], i[3], i[1] - padding.0, i[2] - padding.1),
    )
}

/// A channels-first array as a padded channels-last one.
fn pad_lanes(x: &Array, padding: usize, value: Const) -> (r: Array)
    requires
        x.wf(),
        x.dims().len() == 3,
        x.dims()[2] + 2 * padding <= i32::MAX,
    ensures
        r.wf(),
        r.dims() == seq![x.dims()[0], x.dims()[2] + 2 * padding, x.dims()[1]],
        forall|m: Model|
            #[trigger] r.value(m) == padded_lanes(
                x.value(m),
                padding as int,
                (m.constant)(value),
            ),
{
    let ghost s = x.dims();
    let ghost p = padding as int;
    let axes: Vec<i32> = vec![0, 2, 1];
    proof {
        assert(ints(axes@) == swap_last());
        assert(s[0] >= 0 && s[1] >= 0 && s[2] >= 0);
        assert(permuted(s, swap_last()) == seq![s[0], s[2], s[1]]);
    }
    let x_nlc = x.transpose_axes(axes.as_slice());
    let ghost u = seq![s[0], s[2] + 2 * p, s[1]];
    let r = if padding > 0 {
        let pad = padding as i32;
        let fill = Array::constant(value);
        let width: Vec<i32> = vec![0, pad, 0];
        proof {
            assert(x_nlc.dims()[1] == s[2]);
            assert(padded_shape(x_nlc.dims(), ints(width@), ints(width@)) == u);
        }
        let padded = x_nlc.pad(width.as_slice(), width.as_slice(), &fill);
        proof {
            assert forall|m: Model|
                #[trigger] padded.value(m) == padded_lanes(x.value(m), p, (m.constant)(value)) by {
                let v = (m.constant)(value);
                let t = x.value(m);
                let nlc = x_nlc.value(m);
                let low = ints(width@);
                assert(nlc.shape == seq![s[0], s[2], s[1]]);
                assert(fill.value(m).data[0] == v);
                lemma_size_nonneg(u);
                assert forall|i: Seq<int>| in_bounds(u, i) implies #[trigger] padded.value(m).at(i)
                    == padded_lanes(t, p, v).at(i) by {
                    assert(0 <= i[0] < u[0] && 0 <= i[1] < u[1] && 0 <= i[2] < u[2]);
                    let f = |i: Seq<int>|
                        {
                            let j = Seq::new(nlc.shape.len(), |k: int| i[k] - low[k]);
                            if in_bounds(nlc.shape, j) {
                                nlc.at(j)
                            } else {
                                v
                            }
                        };
                    lemma_tabulate(u, f, i);
                    lemma_tabulate(
                        u,
                        |i: Seq<int>| padded1d(t, v, i[0], i[2], i[1] - p),
                        i,
                    );
                    let j = Seq::new(nlc.shape.len(), |k: int| i[k] - low[k]);
                    assert(j == seq![i[0], i[1] - p, i[2]]);
                    if 0 <= i[1] - p < s[2] {
                        assert(in_bounds(nlc.shape, j));
                        lemma_swap_last(t, j);
                    } else {
                        assert(!(0 <= j[1] < nlc.shape[1]));
                    }
                }
                lemma_tensor_ext(padded.value(m), padded_lanes(t, p, v));
            }
        }
        padded
    } else {
        proof {
            assert forall|m: Model|
                #[trigger] x_nlc.value(m) == padded_lanes(x.value(m), p, (m.constant)(value)) by {
                let v = (m.constant)(value);
                let t = x.value(m);
                lemma_size_nonneg(u);
                assert forall|i: Seq<int>| in_bounds(u, i) implies #[trigger] x_nlc.value(m).at(i)
                    == padded_lanes(t, p, v).at(i) by {
                    assert(0 <= i[0] < u[0] && 0 <= i[1] < u[1] && 0 <= i[2] < u[2]);
                    lemma_tabulate(
                        u,
                        |i: Seq<int>| padded1d(t, v, i[0], i[2], i[1] - p),
                        i,
                    );
                    lemma_swap_last(t, i);
                }
                lemma_tensor_ext(x_nlc.value(m), padded_lanes(t, p, v));
            }
        }
        x_nlc
    };
    r
}

/// A channels-first array as a padded channels-last one.
fn pad_planes(x: &Array, padding: [usize; 2], value: Const) -> (r: Array)
    requires
        x.wf(),
        x.dims().len() == 4,
        x.dims()[2] + 2 * padding[0] <= i32::MAX,
        x.dims()[3] + 2 * padding[1] <= i32::MAX,
    ensures
        r.wf(),
        r.dims() == seq![
            x.dims()[0],
            x.dims()[2] + 2 * padding[0],
            x.dims()[3] + 2 * padding[1],
            x.dims()[1],
        ],
        forall|m: Model|
            #[trigger] r.value(m) == padded_planes(
                x.value(m),
                pair(padding),
                (m.constant)(value),
            ),
{
    let ghost s = x.dims();
    let ghost p = pair(padding);
    let axes: Vec<i32> = vec![0, 2, 3, 1];
    proof {
        assert(ints(axes@) == channels_last());
        assert(s[0] >= 0 && s[1] >= 0 && s[2] >= 0 && s[3] >= 0);
        assert(permuted(s, channels_last()) == seq![s[0], s[2], s[3], s[1]]);
    }
    let x_nhwc = x.transpose_axes(axes.as_slice());
    let ghost u = seq![s[0], s[2] + 2 * p.0, s[3] + 2 * p.1, s[1]];
    let r = if padding[0] > 0 || padding[1] > 0 {
        let pad_h = padding[0] as i32;
        let pad_w = padding[1] as i32;
        let fill = Array::constant(value);
        let width: Vec<i32> = vec![0, pad_h, pad_w, 0];
        proof {
            assert(x_nhwc.dims()[1] == s[2]);
            assert(x_nhwc.dims()[2] == s[3]);
            assert(padded_shape(x_nhwc.dims(), ints(width@), ints(width@)) == u);
        }
        let padded = x_nhwc.pad(width.as_slice(), width.as_slice(), &fill);
        proof {
            assert forall|m: Model|
                #[trigger] padded.value(m) == padded_planes(x.value(m), p, (m.constant)(value)) by {
                let v = (m.constant)(value);
                let t = x.value(m);
                let nhwc = x_nhwc.value(m);
                let low = ints(width@);
                assert(nhwc.shape == seq![s[0], s[2], s[3], s[1]]);
                assert(fill.value(m).data[0] == v);
                lemma_size_nonneg(u);
                assert forall|i: Seq<int>| in_bounds(u, i) implies #[trigger] padded.value(m).at(i)
                    == padded_planes(t, p, v).at(i) by {
                    assert(0 <= i[0] < u[0] && 0 <= i[1] < u[1] && 0 <= i[2] < u[2] && 0 <= i[3]
                        < u[3]);
                    let f = |i: Seq<int>|
                        {
                            let j = Seq::new(nhwc.shape.len(), |k: int| i[k] - low[k]);
                            if in_bounds(nhwc.shape, j) {
                                nhwc.at(j)
                            } else {
                                v
                            }
                        };
                    lemma_tabulate(u, f, i);
                    lemma_tabulate(
                        u,
                        |i: Seq<int>| padded2d(t, v, i[0], i[3], i[1] - p.0, i[2] - p.1),
                        i,
                    );
                    let j = Seq::new(nhwc.shape.len(), |k: int| i[k] - low[k]);
                    assert(j == seq![i[0], i[1] - p.0, i[2] - p.1, i[3]]);
                    if 0 <= i[1] - p.0 < s[2] && 0 <= i[2] - p.1 < s[3] {
                        assert(in_bounds(nhwc.shape, j));
                        lemma_channels_last(t, j);
                    } else {
                        assert(!(0 <= j[1] < nhwc.shape[1]) || !(0 <= j[2] < nhwc.shape[2]));
                    }
                }
                lemma_tensor_ext(padded.value(m), padded_planes(t, p, v));
            }
        }
        padded
    } else {
        proof {
            assert forall|m: Model|
                #[trigger] x_nhwc.value(m) == padded_planes(x.value(m), p, (m.constant)(value)) by {
                let v = (m.constant)(value);
                let t = x.value(m);
                lemma_size_nonneg(u);
                assert forall|i: Seq<int>| in_bounds(u, i) implies #[trigger] x_nhwc.value(m).at(i)
                    == padded_planes(t, p, v).at(i) by {
                    assert(0 <= i[0] < u[0] && 0 <= i[1] < u[1] && 0 <= i[2] < u[2] && 0 <= i[3]
                        < u[3]);
                    lemma_tabulate(
                        u,
                        |i: Seq<int>| padded2d(t, v, i[0], i[3], i[1] - p.0, i[2] - p.1),
                        i,
                    );
                    lemma_channels_last(t, i);
                }
                lemma_tensor_ext(x_nhwc.value(m), padded_planes(t, p, v));
            }
        }
        x_nhwc
    };
    r
}

/// Pooling of an `[N, C, L]` array, padded with a constant.
fn pool_lanes(
    x: &Array,
    kernel_size: usize,
    stride: usize,
    padding: usize,
    op: ReduceOp,
    value: Const,
) -> (r: Array)
    requires
        x.wf(),
        pooling1d_fits(x.dims(), kernel_size as int, stride as int, padding as int),
        op is Max || op is ArgMax ==> kernel_size > 0 && x.dims()[0] > 0 && x.dims()[1] > 0,
    ensures
        r.wf(),
        r.dims() == seq![
            x.dims()[0],
            x.dims()[1],
            window_count(x.dims()[2] + 2 * padding, kernel_size as int, stride as int),
        ],
        forall|m: Model|
            #[trigger] r.value(m) == pool1d(
                m,
                op,
                x.value(m),
                kernel_size as int,
                stride as int,
                padding as int,
                (m.constant)(value),
            ),
{
    let ghost s = x.dims();
    let ghost (k, st, p) = (kernel_size as int, stride as int, padding as int);
    let x_padded = pad_lanes(x, padding, value);
    proof {
        assert(s[0] >= 0 && s[1] >= 0 && s[2] >= 0);
        if op is Max || op is ArgMax {
            lemma_size_positive(x_padded.dims());
        }
    }
    let pooled = pool1d_strided(&x_padded, kernel_size, stride, op);
    let axes: Vec<i32> = vec![0, 2, 1];
    let ghost o = window_count(s[2] + 2 * p, k, st);
    let ghost u = seq![s[0], s[1], o];
    proof {
        assert(ints(axes@) == swap_last());
        assert(permuted(pooled.dims(), swap_last()) == u);
        lemma_window_count_nonneg(s[2] + 2 * p, k, st);
    }
    let output = pooled.transpose_axes(axes.as_slice());
    proof {
        assert forall|m: Model|
            #[trigger] output.value(m) == pool1d(m, op, x.value(m), k, st, p, (m.constant)(value)) by {
            let v = (m.constant)(value);
            let t = x.value(m);
            let lanes = x_padded.value(m);
            let w = seq![s[0], s[2] + 2 * p, s[1]];
            assert(lanes.shape == w);
            lemma_size_nonneg(u);
            assert forall|i: Seq<int>| in_bounds(u, i) implies #[trigger] output.value(m).at(i)
                == pool1d(m, op, t, k, st, p, v).at(i) by {
                assert(0 <= i[0] < u[0] && 0 <= i[1] < u[1] && 0 <= i[2] < u[2]);
                lemma_swap_last(pooled.value(m), i);
                let j = seq![i[0], i[2], i[1]];
                lemma_tabulate(
                    pooled.dims(),
                    |i: Seq<int>| reduce(m, op, window1d(lanes, k, i[0], i[1] * st, i[2])),
                    j,
                );
                lemma_tabulate(
                    u,
                    |i: Seq<int>|
                        reduce(
                            m,
                            op,
                            Seq::new(
                                k as nat,
                                |q: int| padded1d(t, v, i[0], i[1], i[2] * st + q - p),
                            ),
                        ),
                    i,
                );
                let a = window1d(lanes, k, i[0], i[2] * st, i[1]);
                let b = Seq::new(k as nat, |q: int| padded1d(t, v, i[0], i[1], i[2] * st + q - p));
                assert forall|q: int| 0 <= q < k implies a[q] == b[q] by {
                    lemma_window_entry(s[2] + 2 * p, k, st, i[2], q);
                    let e = seq![i[0], i[2] * st + q, i[1]];
                    assert(in_bounds(w, e));
                    lemma_tabulate(w, |i: Seq<int>| padded1d(t, v, i[0], i[2], i[1] - p), e);
                }
                assert(a == b);
            }
            lemma_tensor_ext(output.value(m), pool1d(m, op, t, k, st, p, v));
        }
    }
    output
}

/// A window of a padded channels-last tensor in terms of the tensor itself.
proof fn lemma_padded_window(
    t: Tensor,
    kernel: (int, int),
    stride: (int, int),
    padding: (int, int),
    v: Elem,
    i: Seq<int>,
)
    requires
        t.wf(),
        pooling2d_fits(t.shape, kernel, stride, padding),
        in_bounds(pool2d_shape(t.shape, kernel, stride, padding), i),
    ensures
        window2d(
            padded_planes(t, padding, v),
            kernel,
            i[0],
            i[2] * stride.0,
            i[3] * stride.1,
            i[1],
        ) == padded_window2d(t, kernel, stride, padding, v, i),
{
    let s = t.shape;
    let u = pool2d_shape(s, kernel, stride, padding);
    let w = seq![s[0], s[2] + 2 * padding.0, s[3] + 2 * padding.1, s[1]];
    let planes = padded_planes(t, padding, v);
    let a = window2d(planes, kernel, i[0], i[2] * stride.0, i[3] * stride.1, i[1]);
    let b = padded_window2d(t, kernel, stride, padding, v, i);
    assert(0 <= i[0] < u[0] && 0 <= i[1] < u[1] && 0 <= i[2] < u[2] && 0 <= i[3] < u[3]);
    assert forall|q: int| 0 <= q < kernel.0 * kernel.1 implies a[q] == b[q] by {
        lemma_unravel2(seq![kernel.0, kernel.1], q);
        lemma_window_entry(w[1], kernel.0, stride.0, i[2], q / kernel.1);
        lemma_window_entry(w[2], kernel.1, stride.1, i[3], q % kernel.1);
        let e = seq![
            i[0],
            i[2] * stride.0 + q / kernel.1,
            i[3] * stride.1 + q % kernel.1,
            i[1],
        ];
        assert(in_bounds(w, e));
        lemma_tabulate(
            w,
            |i: Seq<int>| padded2d(t, v, i[0], i[3], i[1] - padding.0, i[2] - padding.1),
            e,
        );
    }
    assert(a == b);
}

/// Pooling of an `[N, C, H, W]` array, padded with a constant.
fn pool_planes(
    x: &Array,
    kernel_size: [usize; 2],
    stride: [usize; 2],
    padding: [usize; 2],
    op: ReduceOp,
    value: Const,
) -> (r: Array)
    requires
        x.wf(),
        pooling2d_fits(x.dims(), pair(kernel_size), pair(stride), pair(padding)),
        op is Max || op is ArgMax ==> kernel_size[0] > 0 && kernel_size[1] > 0 && x.dims()[0] > 0
            && x.dims()[1] > 0,
    ensures
        r.wf(),
        r.dims() == pool2d_shape(x.dims(), pair(kernel_size), pair(stride), pair(padding)),
        forall|m: Model|
            #[trigger] r.value(m) == pool2d(
                m,
                op,
                x.value(m),
                pair(kernel_size),
                pair(stride),
                pair(padding),
                (m.constant)(value),
            ),
{
    let ghost s = x.dims();
    let ghost (k, st, p) = (pair(kernel_size), pair(stride), pair(padding));
    let x_padded = pad_planes(x, padding, value);
    proof {
        assert(s[0] >= 0 && s[1] >= 0 && s[2] >= 0 && s[3] >= 0);
        if op is Max || op is ArgMax {
            lemma_size_positive(x_padded.dims());
        }
    }
    let pooled = pool2d_strided(&x_padded, kernel_size, stride, op);
    let axes: Vec<i32> = vec![0, 3, 1, 2];
    let ghost u = pool2d_shape(s, k, st, p);
    proof {
        assert(ints(axes@) == channels_first());
        assert(permuted(pooled.dims(), channels_first()) == u);
        lemma_window_count_nonneg(s[2] + 2 * p.0, k.0, st.0);
        lemma_window_count_nonneg(s[3] + 2 * p.1, k.1, st.1);
    }
    let output = pooled.transpose_axes(axes.as_slice());
    proof {
        assert forall|m: Model|
            #[trigger] output.value(m) == pool2d(m, op, x.value(m), k, st, p, (m.constant)(value)) by {
            let v = (m.constant)(value);
            let t = x.value(m);
            assert(t.wf());
            let planes = x_padded.value(m);
            lemma_size_nonneg(u);
            assert forall|i: Seq<int>| in_bounds(u, i) implies #[trigger] output.value(m).at(i)
                == pool2d(m, op, t, k, st, p, v).at(i) by {
                assert(0 <= i[0] < u[0] && 0 <= i[1] < u[1] && 0 <= i[2] < u[2] && 0 <= i[3]
                    < u[3]);
                lemma_channels_first(pooled.value(m), i);
                let j = seq![i[0], i[2], i[3], i[1]];
                lemma_tabulate(
                    pooled.dims(),
                    |i: Seq<int>|
                        reduce(
                            m,
                            op,
                            window2d(planes, k, i[0], i[1] * st.0, i[2] * st.1, i[3]),
                        ),
                    j,
                );
                lemma_tabulate(
                    u,
                    |i: Seq<int>| reduce(m, op, padded_window2d(t, k, st, p, v, i)),
                    i,
                );
                lemma_padded_window(t, k, st, p, v, i);
            }
            lemma_tensor_ext(output.value(m), pool2d(m, op, t, k, st, p, v));
        }
    }
    output
}

/// Maxima of one-dimensional windows, with indices.
#[derive(Debug)]
pub struct MaxPool1dWithIndices {
    pub output: MlxTensorPrimitive,
    pub indices: MlxTensorPrimitive,
}

/// Maxima of two-dimensional windows, with the positions they come from.
#[derive(Debug)]
pub struct MaxPool2dWithIndices {
    pub output: MlxTensorPrimitive,
    pub indices: MlxTensorPrimitive,
}

/// The shape of the padded channels-last array that windows are cut from.
pub open spec fn padded_planes_shape(s: Seq<int>, padding: (int, int)) -> Seq<int> {
    seq![s[0], s[2] + 2 * padding.0, s[3] + 2 * padding.1, s[1]]
}

/// For every window of an `[N, C, H, W]` tensor, the row-major position, in the
/// padded channels-last array, of the entry that is taken as the largest.
pub open spec fn pool2d_positions(
    m: Model,
    t: Tensor,
    kernel: (int, int),
    stride: (int, int),
    padding: (int, int),
) -> Tensor {
    tabulate(
        pool2d_shape(t.shape, kernel, stride, padding),
        |i: Seq<int>|
            {
                let v = (m.constant)(Const::NegInfinity);
                let a = argmax(m, padded_window2d(t, kernel, stride, padding, v, i));
                Elem::Int(
                    ravel(
                        padded_planes_shape(t.shape, padding),
                        seq![
                            i[0],
                            i[2] * stride.0 + a / kernel.1,
                            i[3] * stride.1 + a % kernel.1,
                            i[1],
                        ],
                    ),
                )
            },
    )
}

/// The stride and window with which an axis is divided into `output` windows.
pub open spec fn adaptive_stride(extent: int, output: int) -> int {
    extent / output
}

pub open spec fn adaptive_kernel(extent: int, output: int) -> int {
    extent - (output - 1) * adaptive_stride(extent, output)
}

/// An axis can be divided into `output` windows.
pub open spec fn adaptive_fits(extent: int, output: int) -> bool {
    0 < output <= extent
}

/// Dividing an axis into a number of windows gives that number of windows, and
/// the last of them ends where the axis does.
pub proof fn lemma_adaptive(extent: int, output: int)
    requires
        adaptive_fits(extent, output),
    ensures
        adaptive_stride(extent, output) >= 1,
        1 <= adaptive_kernel(extent, output) <= extent,
        window_count(
            extent,
            adaptive_kernel(extent, output),
            adaptive_stride(extent, output),
        ) == output,
        (output - 1) * adaptive_stride(extent, output) + adaptive_kernel(extent, output) == extent,
{
    let s = adaptive_stride(extent, output);
    lemma_fundamental_div_mod(extent, output);
    lemma_mod_bound(extent, output);
    assert(s >= 1) by (nonlinear_arith)
        requires
            0 < output <= extent,
            extent == output * s + extent % output,
            0 <= extent % output < output,
    ;
    assert(0 <= (output - 1) * s && (output - 1) * s + 1 <= extent) by (nonlinear_arith)
        requires
            0 < output,
            s >= 1,
            extent == output * s + extent % output,
            0 <= extent % output,
    ;
    lemma_div_by_multiple(output - 1, s);
}

impl Mlx {
    /// Means of windows of an `[N, C, L]` tensor that is continued by zeros.
    pub fn avg_pool1d(
        x: MlxTensorPrimitive,
        kernel_size: usize,
        stride: usize,
        padding: usize,
        _count_include_pad: bool,
        _ceil_mode: bool,
    ) -> (r: MlxTensorPrimitive)
        requires
            x.wf(),
            pooling1d_fits(x.dims(), kernel_size as int, stride as int, padding as int),
        ensures
            r.wf(),
            r.dims() == seq![
                x.dims()[0],
                x.dims()[1],
                window_count(x.dims()[2] + 2 * padding, kernel_size as int, stride as int),
            ],
            forall|m: Model|
                #[trigger] r.value(m) == pool1d(
                    m,
                    ReduceOp::Mean,
                    x.value(m),
                    kernel_size as int,
                    stride as int,
                    padding as int,
                    (m.constant)(Const::Zero),
                ),
    {
        MlxTensorPrimitive::new(
            pool_lanes(&x.array, kernel_size, stride, padding, ReduceOp::Mean, Const::Zero),
        )
    }

    /// Means of windows of an `[N, C, H, W]` tensor that is continued by zeros.
    pub fn avg_pool2d(
        x: MlxTensorPrimitive,
        kernel_size: [usize; 2],
        stride: [usize; 2],
        padding: [usize; 2],
        _count_include_pad: bool,
        _ceil_mode: bool,
    ) -> (r: MlxTensorPrimitive)
        requires
            x.wf(),
            pooling2d_fits(x.dims(), pair(kernel_size), pair(stride), pair(padding)),
        ensures
            r.wf(),
            r.dims() == pool2d_shape(x.dims(), pair(kernel_size), pair(stride), pair(padding)),
            forall|m: Model|
                #[trigger] r.value(m) == pool2d(
                    m,
                    ReduceOp::Mean,
                    x.value(m),
                    pair(kernel_size),
                    pair(stride),
                    pair(padding),
                    (m.constant)(Const::Zero),
                ),
    {
        MlxTensorPrimitive::new(
            pool_planes(&x.array, kernel_size, stride, padding, ReduceOp::Mean, Const::Zero),
        )
    }

    /// Maxima of windows of an `[N, C, L]` tensor that is continued by negative
    /// infinity.
    pub fn max_pool1d(
        x: MlxTensorPrimitive,
        kernel_size: usize,
        stride: usize,
        padding: usize,
        _dilation: usize,
        _ceil_mode: bool,
    ) -> (r: MlxTensorPrimitive)
        requires
            x.wf(),
            pooling1d_fits(x.dims(), kernel_size as int, stride as int, padding as int),
            kernel_size > 0,
            x.dims()[0] > 0,
            x.dims()[1] > 0,
        ensures
            r.wf(),
            r.dims() == seq![
                x.dims()[0],
                x.dims()[1],
                window_count(x.dims()[2] + 2 * padding, kernel_size as int, stride as int),
            ],
            forall|m: Model|
                #[trigger] r.value(m) == pool1d(
                    m,
                    ReduceOp::Max,
                    x.value(m),
                    kernel_size as int,
                    stride as int,
                    padding as int,
                    (m.constant)(Const::NegInfinity),
                ),
    {
        MlxTensorPrimitive::new(
            pool_lanes(&x.array, kernel_size, stride, padding, ReduceOp::Max, Const::NegInfinity),
        )
    }

    /// Maxima of windows of an `[N, C, H, W]` tensor that is continued by
    /// negative infinity.
    pub fn max_pool2d(
        x: MlxTensorPrimitive,
        kernel_size: [usize; 2],
        stride: [usize; 2],
        padding: [usize; 2],
        _dilation: [usize; 2],
        _ceil_mode: bool,
    ) -> (r: MlxTensorPrimitive)
        requires
            x.wf(),
            pooling2d_fits(x.dims(), pair(kernel_size), pair(stride), pair(padding)),
            kernel_size[0] > 0,
            kernel_size[1] > 0,
            x.dims()[0] > 0,
            x.dims()[1] > 0,
        ensures
            r.wf(),
            r.dims() == pool2d_shape(x.dims(), pair(kernel_size), pair(stride), pair(padding)),
            forall|m: Model|
                #[trigger] r.value(m) == pool2d(
                    m,
                    ReduceOp::Max,
                    x.value(m),
                    pair(kernel_size),
                    pair(stride),
                    pair(padding),
                    (m.constant)(Const::NegInfinity),
                ),
    {
        MlxTensorPrimitive::new(
            pool_planes(&x.array, kernel_size, stride, padding, ReduceOp::Max, Const::NegInfinity),
        )
    }

    /// Maxima of windows of an `[N, C, L]` tensor. The indices are zeros.
    pub fn max_pool1d_with_indices(
        x: MlxTensorPrimitive,
        kernel_size: usize,
        stride: usize,
        padding: usize,
        dilation: usize,
        _ceil_mode: bool,
    ) -> (r: MaxPool1dWithIndices)
        requires
            x.wf(),
            pooling1d_fits(x.dims(), kernel_size as int, stride as int, padding as int),
            kernel_size > 0,
            x.dims()[0] > 0,
            x.dims()[1] > 0,
        ensures
            r.output.wf(),
            r.indices.wf(),
            r.output.dims() == seq![
                x.dims()[0],
                x.dims()[1],
                window_count(x.dims()[2] + 2 * padding, kernel_size as int, stride as int),
            ],
            r.indices.dims() == r.output.dims(),
            forall|m: Model|
                #[trigger] r.output.value(m) == pool1d(
                    m,
                    ReduceOp::Max,
                    x.value(m),
                    kernel_size as int,
                    stride as int,
                    padding as int,
                    (m.constant)(Const::NegInfinity),
                ),
            forall|m: Model|
                #[trigger] r.indices.value(m) == constant_tensor(r.output.dims(), Elem::Int(0)),
    {
        let output = Mlx::max_pool1d(x, kernel_size, stride, padding, dilation, false);
        proof {
            assert(is_shape(output.array.dims()));
        }
        let zeros = Array::int_zeros(output.array.shape().as_slice());
        let indices = MlxTensorPrimitive::new(zeros);
        MaxPool1dWithIndices { output, indices }
    }

    /// Maxima of windows of an `[N, C, H, W]` tensor, with their positions in the
    /// padded channels-last array.
    pub fn max_pool2d_with_indices(
        x: MlxTensorPrimitive,
        kernel_size: [usize; 2],
        stride: [usize; 2],
        padding: [usize; 2],
        _dilation: [usize; 2],
        _ceil_mode: bool,
    ) -> (r: MaxPool2dWithIndices)
        requires
            x.wf(),
            pooling2d_fits(x.dims(), pair(kernel_size), pair(stride), pair(padding)),
            kernel_size[0] > 0,
            kernel_size[1] > 0,
            x.dims()[0] > 0,
            x.dims()[1] > 0,
            size(padded_planes_shape(x.dims(), pair(padding))) <= i32::MAX,
        ensures
            r.output.wf(),
            r.indices.wf(),
            r.output.dims() == pool2d_shape(
                x.dims(),
                pair(kernel_size),
                pair(stride),
                pair(padding),
            ),
            r.indices.dims() == r.output.dims(),
            forall|m: Model|
                #[trigger] r.output.value(m) == pool2d(
                    m,
                    ReduceOp::Max,
                    x.value(m),
                    pair(kernel_size),
                    pair(stride),
                    pair(padding),
                    (m.constant)(Const::NegInfinity),
                ),
            forall|m: Model|
                #[trigger] r.indices.value(m) == pool2d_positions(
                    m,
                    x.value(m),
                    pair(kernel_size),
                    pair(stride),
                    pair(padding),
                ),
    {
        let ghost s = x.dims();
        let ghost (k, st, p) = (pair(kernel_size), pair(stride), pair(padding));
        let x_padded = pad_planes(&x.array, padding, Const::NegInfinity);
        proof {
            assert(s[0] >= 0 && s[1] >= 0 && s[2] >= 0 && s[3] >= 0);
            lemma_size_positive(x_padded.dims());
        }
        let (output_nhwc, indices_nhwc) = max_pool2d_with_indices_impl(
            &x_padded,
            kernel_size,
            stride,
        );
        let axes: Vec<i32> = vec![0, 3, 1, 2];
        let ghost u = pool2d_shape(s, k, st, p);
        proof {
            assert(ints(axes@) == channels_first());
            assert(permuted(output_nhwc.dims(), channels_first()) == u);
            lemma_window_count_nonneg(s[2] + 2 * p.0, k.0, st.0);
            lemma_window_count_nonneg(s[3] + 2 * p.1, k.1, st.1);
        }
        let output = output_nhwc.transpose_axes(axes.as_slice());
        let indices = indices_nhwc.transpose_axes(axes.as_slice());
        proof {
            assert forall|m: Model|
                #[trigger] output.value(m) == pool2d(
                    m,
                    ReduceOp::Max,
                    x.value(m),
                    k,
                    st,
                    p,
                    (m.constant)(Const::NegInfinity),
                ) by {
                let v = (m.constant)(Const::NegInfinity);
                let t = x.value(m);
                assert(x.array.value(m).wf());
                let planes = x_padded.value(m);
                lemma_size_nonneg(u);
                assert forall|i: Seq<int>| in_bounds(u, i) implies #[trigger] output.value(m).at(i)
                    == pool2d(m, ReduceOp::Max, t, k, st, p, v).at(i) by {
                    assert(0 <= i[0] < u[0] && 0 <= i[1] < u[1] && 0 <= i[2] < u[2] && 0 <= i[3]
                        < u[3]);
                    lemma_channels_first(output_nhwc.value(m), i);
                    lemma_tabulate(
                        output_nhwc.dims(),
                        |i: Seq<int>|
                            reduce(
                                m,
                                ReduceOp::Max,
                                window2d(planes, k, i[0], i[1] * st.0, i[2] * st.1, i[3]),
                            ),
                        seq![i[0], i[2], i[3], i[1]],
                    );
                    lemma_tabulate(
                        u,
                        |i: Seq<int>| reduce(m, ReduceOp::Max, padded_window2d(t, k, st, p, v, i)),
                        i,
                    );
                    lemma_padded_window(t, k, st, p, v, i);
                }
                lemma_tensor_ext(output.value(m), pool2d(m, ReduceOp::Max, t, k, st, p, v));
            }
            assert forall|m: Model|
                #[trigger] indices.value(m) == pool2d_positions(m, x.value(m), k, st, p) by {
                let v = (m.constant)(Const::NegInfinity);
                let t = x.value(m);
                assert(x.array.value(m).wf());
                let planes = x_padded.value(m);
                lemma_size_nonneg(u);
                assert forall|i: Seq<int>| in_bounds(u, i) implies #[trigger] indices.value(m).at(i)
                    == pool2d_positions(m, t, k, st, p).at(i) by {
                    assert(0 <= i[0] < u[0] && 0 <= i[1] < u[1] && 0 <= i[2] < u[2] && 0 <= i[3]
                        < u[3]);
                    lemma_channels_first(indices_nhwc.value(m), i);
                    lemma_tabulate(
                        indices_nhwc.dims(),
                        |i: Seq<int>|
                            {
                                let y = i[1] * st.0;
                                let x = i[2] * st.1;
                                let a = argmax(m, window2d(planes, k, i[0], y, x, i[3]));
                                Elem::Int(
                                    ravel(
                                        planes.shape,
                                        seq![i[0], y + a / k.1, x + a % k.1, i[3]],
                                    ),
                                )
                            },
                        seq![i[0], i[2], i[3], i[1]],
                    );
                    lemma_tabulate(
                        u,
                        |i: Seq<int>|
                            {
                                let v = (m.constant)(Const::NegInfinity);
                                let a = argmax(m, padded_window2d(t, k, st, p, v, i));
                                Elem::Int(
                                    ravel(
                                        padded_planes_shape(t.shape, p),
                                        seq![
                                            i[0],
                                            i[2] * st.0 + a / k.1,
                                            i[3] * st.1 + a % k.1,
                                            i[1],
                                        ],
                                    ),
                                )
                            },
                        i,
                    );
                    lemma_padded_window(t, k, st, p, v, i);
                }
                lemma_tensor_ext(indices.value(m), pool2d_positions(m, t, k, st, p));
            }
        }
        MaxPool2dWithIndices {
            output: MlxTensorPrimitive::new(output),
            indices: MlxTensorPrimitive::new(indices),
        }
    }

    /// Means over `output_size` windows of an `[N, C, L]` tensor.
    pub fn adaptive_avg_pool1d(x: MlxTensorPrimitive, output_size: usize) -> (r:
        MlxTensorPrimitive)
        requires
            x.wf(),
            x.dims().len() == 3,
            adaptive_fits(x.dims()[2], output_size as int),
        ensures
            r.wf(),
            r.dims() == seq![x.dims()[0], x.dims()[1], output_size as int],
            forall|m: Model|
                #[trigger] r.value(m) == pool1d(
                    m,
                    ReduceOp::Mean,
                    x.value(m),
                    adaptive_kernel(x.dims()[2], output_size as int),
                    adaptive_stride(x.dims()[2], output_size as int),
                    0,
                    (m.constant)(Const::Zero),
                ),
    {
        let input_size = x.shape()[2];
        proof {
            assert(sizes(x.shape@)[2] == x.dims()[2]);
            assert(x.dims()[2] <= i32::MAX);
            lemma_adaptive(input_size as int, output_size as int);
        }
        let stride = input_size / output_size;
        proof {
            lemma_div_is_ordered_by_denominator(input_size as int, 1, output_size as int);
            lemma_div_basics(input_size as int);
            lemma_mul_nonnegative(output_size - 1, stride as int);
        }
        let kernel_size = input_size - (output_size - 1) * stride;
        Mlx::avg_pool1d(x, kernel_size, stride, 0, true, false)
    }

    /// Means over a grid of `output_size` windows of an `[N, C, H, W]` tensor.
    pub fn adaptive_avg_pool2d(x: MlxTensorPrimitive, output_size: [usize; 2]) -> (r:
        MlxTensorPrimitive)
        requires
            x.wf(),
            x.dims().len() == 4,
            adaptive_fits(x.dims()[2], output_size[0] as int),
            adaptive_fits(x.dims()[3], output_size[1] as int),
            x.dims()[2] * x.dims()[3] * x.dims()[1] <= i64::MAX,
        ensures
            r.wf(),
            r.dims() == seq![
                x.dims()[0],
                x.dims()[1],
                output_size[0] as int,
                output_size[1] as int,
            ],
            forall|m: Model|
                #[trigger] r.value(m) == pool2d(
                    m,
                    ReduceOp::Mean,
                    x.value(m),
                    (
                        adaptive_kernel(x.dims()[2], output_size[0] as int),
                        adaptive_kernel(x.dims()[3], output_size[1] as int),
                    ),
                    (
                        adaptive_stride(x.dims()[2], output_size[0] as int),
                        adaptive_stride(x.dims()[3], output_size[1] as int),
                    ),
                    (0, 0),
                    (m.constant)(Const::Zero),
                ),
    {
        let ghost s = x.dims();
        let input_h = x.shape()[2];
        let input_w = x.shape()[3];
        proof {
            assert(sizes(x.shape@)[2] == s[2]);
            assert(sizes(x.shape@)[3] == s[3]);
            assert(s[1] >= 0 && s[2] <= i32::MAX && s[3] <= i32::MAX);
            lemma_adaptive(input_h as int, output_size[0] as int);
            lemma_adaptive(input_w as int, output_size[1] as int);
        }
        let stride_h = input_h / output_size[0];
        let stride_w = input_w / output_size[1];
        proof {
            lemma_div_is_ordered_by_denominator(input_h as int, 1, output_size[0] as int);
            lemma_div_basics(input_h as int);
            lemma_mul_nonnegative(output_size[0] - 1, stride_h as int);
            lemma_div_is_ordered_by_denominator(input_w as int, 1, output_size[1] as int);
            lemma_div_basics(input_w as int);
            lemma_mul_nonnegative(output_size[1] - 1, stride_w as int);
        }
        let kernel_h = input_h - (output_size[0] - 1) * stride_h;
        let kernel_w = input_w - (output_size[1] - 1) * stride_w;
        proof {
            let wc = s[3] * s[1];
            lemma_mul_nonnegative(s[3], s[1]);
            lemma_mul_is_associative(s[2], s[3], s[1]);
            lemma_mul_is_commutative(s[2], wc);
            assert(wc * stride_h <= wc * s[2]) by (nonlinear_arith)
                requires
                    wc >= 0,
                    stride_h <= s[2],
            ;
        }
        let zero: [usize; 2] = [0, 0];
        Mlx::avg_pool2d(x, [kernel_h, kernel_w], [stride_h, stride_w], zero, true, false)
    }
}

} // verus!
