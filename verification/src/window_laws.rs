//! Which entries the windows of the poolings hold.
use crate::conv_laws::{input1d, lemma_places, places};
use crate::exact::{all_floats, computes_exactly, lemma_gathered_total, lemma_total_ext, total};
use crate::index::{
    in_bounds, is_shape, lemma_rank4, lemma_ravel_bound, lemma_ravel_unravel, lemma_unravel2,
    ravel, size, unravel,
};
use crate::max_pool::max_positions2d;
use crate::op::{Const, ReduceOp};
use crate::pool::{
    pair, pool1d_fits, pool2d_fits, window1d, window2d, window_count, windows1d, windows2d,
};
use crate::pool_grad::{max_pool2d_grad, nchw, padded_position};
use crate::pool_laws::{lemma_reordered_total, nhwc};
use crate::pooling::{
    adaptive_fits, adaptive_kernel, adaptive_stride, padded1d, padded_planes_shape,
    padded_window2d, pool1d, pool2d, pool2d_positions, pool2d_shape, pooling1d_fits,
    pooling2d_fits,
};
use crate::tensor::{Elem, Model, Tensor, argmax, gathered, lemma_tabulate, reduce};
use vstd::arithmetic::div_mod::*;
use vstd::arithmetic::mul::*;
use vstd::prelude::*;

verus! {

/// The extents of a pair, rows before columns.
pub proof fn law_pair(a: [usize; 2])
    ensures
        pair(a).0 == a[0],
        pair(a).1 == a[1],
{
}

/// Windows of `kernel` entries, `stride` apart: the last of them still fits, and there is no
/// room for another.
pub proof fn law_window_count(extent: int, kernel: int, stride: int)
    requires
        0 <= kernel <= extent,
        stride >= 1,
    ensures
        places(extent, kernel, stride, window_count(extent, kernel, stride)),
        window_count(extent, kernel, stride) >= 1,
{
    lemma_places(extent, kernel, stride);
    lemma_div_pos_is_pos(extent - kernel, stride);
}

/// `w` lists the entries of the window at `y` of a lane of an `[N, C, L]` tensor, counted in
/// strides from the start of the padding; there is `v` in the padding.
pub open spec fn lists1d(
    t: Tensor,
    kernel: int,
    stride: int,
    padding: int,
    v: Elem,
    n: int,
    c: int,
    y: int,
    w: Seq<Elem>,
) -> bool {
    &&& w.len() == kernel
    &&& forall|q: int|
        0 <= q < kernel ==> #[trigger] w[q] == ({
            let p = y * stride + q - padding;
            if 0 <= p < t.shape[2] {
                t.at(seq![n, c, p])
            } else {
                v
            }
        })
}

/// Entry `(n, c, y)` of a one-dimensional pooling is its window, reduced.
pub proof fn law_pool1d(
    m: Model,
    op: ReduceOp,
    t: Tensor,
    kernel: int,
    stride: int,
    padding: int,
    v: Elem,
    n: int,
    c: int,
    y: int,
    w: Seq<Elem>,
)
    requires
        pooling1d_fits(t.shape, kernel, stride, padding),
        in_bounds(pool1d(m, op, t, kernel, stride, padding, v).shape, seq![n, c, y]),
        lists1d(t, kernel, stride, padding, v, n, c, y, w),
    ensures
        pool1d(m, op, t, kernel, stride, padding, v).shape.len() == 3,
        pool1d(m, op, t, kernel, stride, padding, v).shape[0] == t.shape[0],
        pool1d(m, op, t, kernel, stride, padding, v).shape[1] == t.shape[1],
        places(
            t.shape[2] + 2 * padding,
            kernel,
            stride,
            pool1d(m, op, t, kernel, stride, padding, v).shape[2],
        ),
        pool1d(m, op, t, kernel, stride, padding, v).at(seq![n, c, y]) == reduce(m, op, w),
{
    let i = seq![n, c, y];
    law_window_count(t.shape[2] + 2 * padding, kernel, stride);
    lemma_tabulate(
        seq![
            t.shape[0],
            t.shape[1],
            window_count(t.shape[2] + 2 * padding, kernel, stride),
        ],
        |i: Seq<int>|
            reduce(
                m,
                op,
                Seq::new(
                    kernel as nat,
                    |q: int| padded1d(t, v, i[0], i[1], i[2] * stride + q - padding),
                ),
            ),
        i,
    );
    assert(Seq::new(
        kernel as nat,
        |q: int| padded1d(t, v, i[0], i[1], i[2] * stride + q - padding),
    ) == w);
}

/// `w` lists, row by row, the entries of the window at `(y, x)` of a plane of an
/// `[N, C, H, W]` tensor, counted in strides from the corner of the padding; there is `v` in
/// the padding.
pub open spec fn lists2d(
    t: Tensor,
    kernel: (int, int),
    stride: (int, int),
    padding: (int, int),
    v: Elem,
    n: int,
    c: int,
    y: int,
    x: int,
    w: Seq<Elem>,
) -> bool {
    &&& w.len() == kernel.0 * kernel.1
    &&& forall|a: int, b: int|
        0 <= a < kernel.0 && 0 <= b < kernel.1 ==> w[#[trigger] (a * kernel.1 + b)] == ({
            let (p, r) = (y * stride.0 + a - padding.0, x * stride.1 + b - padding.1);
            if 0 <= p < t.shape[2] && 0 <= r < t.shape[3] {
                t.at(seq![n, c, p, r])
            } else {
                v
            }
        })
}

proof fn lemma_lists2d(
    t: Tensor,
    kernel: (int, int),
    stride: (int, int),
    padding: (int, int),
    v: Elem,
    n: int,
    c: int,
    y: int,
    x: int,
    w: Seq<Elem>,
)
    requires
        0 <= kernel.0,
        0 <= kernel.1,
        lists2d(t, kernel, stride, padding, v, n, c, y, x, w),
    ensures
        padded_window2d(t, kernel, stride, padding, v, seq![n, c, y, x]) == w,
{
    let i = seq![n, c, y, x];
    assert(kernel.0 * kernel.1 >= 0) by (nonlinear_arith)
        requires
            0 <= kernel.0,
            0 <= kernel.1,
    ;
    let u = padded_window2d(t, kernel, stride, padding, v, i);
    assert forall|q: int| 0 <= q < kernel.0 * kernel.1 implies #[trigger] u[q] == w[q] by {
        lemma_unravel2(seq![kernel.0, kernel.1], q);
        let (a, b) = (q / kernel.1, q % kernel.1);
        lemma_fundamental_div_mod(q, kernel.1);
        lemma_mul_is_commutative(kernel.1, a);
        assert(w[a * kernel.1 + b] == w[q]);
    }
}

/// Entry `(n, c, y, x)` of a two-dimensional pooling is its window, reduced.
pub proof fn law_pool2d(
    m: Model,
    op: ReduceOp,
    t: Tensor,
    kernel: (int, int),
    stride: (int, int),
    padding: (int, int),
    v: Elem,
    n: int,
    c: int,
    y: int,
    x: int,
    w: Seq<Elem>,
)
    requires
        pooling2d_fits(t.shape, kernel, stride, padding),
        in_bounds(pool2d(m, op, t, kernel, stride, padding, v).shape, seq![n, c, y, x]),
        lists2d(t, kernel, stride, padding, v, n, c, y, x, w),
    ensures
        ({
            let r = pool2d(m, op, t, kernel, stride, padding, v);
            &&& r.shape == pool2d_shape(t.shape, kernel, stride, padding)
            &&& r.shape.len() == 4
            &&& r.shape[0] == t.shape[0]
            &&& r.shape[1] == t.shape[1]
            &&& places(t.shape[2] + 2 * padding.0, kernel.0, stride.0, r.shape[2])
            &&& places(t.shape[3] + 2 * padding.1, kernel.1, stride.1, r.shape[3])
            &&& r.at(seq![n, c, y, x]) == reduce(m, op, w)
        }),
{
    let i = seq![n, c, y, x];
    law_window_count(t.shape[2] + 2 * padding.0, kernel.0, stride.0);
    law_window_count(t.shape[3] + 2 * padding.1, kernel.1, stride.1);
    lemma_tabulate(
        pool2d_shape(t.shape, kernel, stride, padding),
        |i: Seq<int>| reduce(m, op, padded_window2d(t, kernel, stride, padding, v, i)),
        i,
    );
    lemma_lists2d(t, kernel, stride, padding, v, n, c, y, x, w);
}

/// The number that max pooling records for `(n, c, y, x)` counts, image by image, row by row,
/// column by column and channel by channel of the padded input, the place of the largest entry
/// of the window.
pub proof fn law_pool2d_position(
    m: Model,
    t: Tensor,
    kernel: (int, int),
    stride: (int, int),
    padding: (int, int),
    n: int,
    c: int,
    y: int,
    x: int,
    w: Seq<Elem>,
    a: int,
    b: int,
)
    requires
        pooling2d_fits(t.shape, kernel, stride, padding),
        in_bounds(pool2d_positions(m, t, kernel, stride, padding).shape, seq![n, c, y, x]),
        lists2d(
            t,
            kernel,
            stride,
            padding,
            (m.constant)(Const::NegInfinity),
            n,
            c,
            y,
            x,
            w,
        ),
        0 <= a < kernel.0,
        0 <= b < kernel.1,
        argmax(m, w) == a * kernel.1 + b,
    ensures
        pool2d_positions(m, t, kernel, stride, padding).shape == pool2d(
            m,
            ReduceOp::Max,
            t,
            kernel,
            stride,
            padding,
            (m.constant)(Const::NegInfinity),
        ).shape,
        pool2d_positions(m, t, kernel, stride, padding).at(seq![n, c, y, x]) == Elem::Int(
            ((n * (t.shape[2] + 2 * padding.0) + (y * stride.0 + a)) * (t.shape[3] + 2
                * padding.1) + (x * stride.1 + b)) * t.shape[1] + c,
        ),
{
    let i = seq![n, c, y, x];
    let v = (m.constant)(Const::NegInfinity);
    lemma_lists2d(t, kernel, stride, padding, v, n, c, y, x, w);
    lemma_tabulate(
        pool2d_shape(t.shape, kernel, stride, padding),
        |i: Seq<int>|
            {
                let v = (m.constant)(Const::NegInfinity);
                let a = argmax(m, padded_window2d(t, kernel, stride, padding, v, i));
                Elem::Int(
                    ravel(
                        padded_planes_shape(t.shape, padding),
                        seq![
                            i[0],
                            i[2] * stride.0 + a / kernel.1,
                            i[3] * stride.1 + a % kernel.1,
                            i[1],
                        ],
                    ),
                )
            },
        i,
    );
    lemma_fundamental_div_mod_converse(a * kernel.1 + b, kernel.1, a, b);
    lemma_rank4(
        padded_planes_shape(t.shape, padding),
        seq![n, y * stride.0 + a, x * stride.1 + b, c],
    );
}

/// The place of an entry in the padded input, counted image by image, row by row, column by
/// column and channel by channel.
pub proof fn law_padded_position(s: Seq<int>, padding: (int, int), n: int, c: int, y: int, x: int)
    requires
        s.len() == 4,
    ensures
        padded_position(s, padding, seq![n, c, y, x]) == ((n * (s[2] + 2 * padding.0) + (y
            + padding.0)) * (s[3] + 2 * padding.1) + (x + padding.1)) * s[1] + c,
{
    lemma_rank4(
        padded_planes_shape(s, padding),
        seq![n, y + padding.0, x + padding.1, c],
    );
}

/// Entry `(n, y, c)` of the windows of an `[N, L, C]` array is its window, reduced.
pub proof fn law_windows1d(
    m: Model,
    op: ReduceOp,
    t: Tensor,
    kernel: int,
    stride: int,
    n: int,
    y: int,
    c: int,
    w: Seq<Elem>,
)
    requires
        pool1d_fits(t.shape, kernel, stride),
        in_bounds(windows1d(m, op, t, kernel, stride).shape, seq![n, y, c]),
        w.len() == kernel,
        forall|q: int| 0 <= q < kernel ==> #[trigger] w[q] == t.at(seq![n, y * stride + q, c]),
    ensures
        windows1d(m, op, t, kernel, stride).shape.len() == 3,
        windows1d(m, op, t, kernel, stride).shape[0] == t.shape[0],
        places(t.shape[1], kernel, stride, windows1d(m, op, t, kernel, stride).shape[1]),
        windows1d(m, op, t, kernel, stride).shape[2] == t.shape[2],
        windows1d(m, op, t, kernel, stride).at(seq![n, y, c]) == reduce(m, op, w),
{
    let i = seq![n, y, c];
    law_window_count(t.shape[1], kernel, stride);
    lemma_tabulate(
        seq![t.shape[0], window_count(t.shape[1], kernel, stride), t.shape[2]],
        |i: Seq<int>| reduce(m, op, window1d(t, kernel, i[0], i[1] * stride, i[2])),
        i,
    );
    assert(window1d(t, kernel, n, y * stride, c) == w);
}

/// `w` lists, row by row, the entries of the window at `(y, x)` of a plane of an
/// `[N, H, W, C]` array.
pub open spec fn lists_plane(
    t: Tensor,
    kernel: (int, int),
    stride: (int, int),
    n: int,
    y: int,
    x: int,
    c: int,
    w: Seq<Elem>,
) -> bool {
    &&& w.len() == kernel.0 * kernel.1
    &&& forall|a: int, b: int|
        0 <= a < kernel.0 && 0 <= b < kernel.1 ==> w[#[trigger] (a * kernel.1 + b)] == t.at(
            seq![n, y * stride.0 + a, x * stride.1 + b, c],
        )
}

proof fn lemma_lists_plane(
    t: Tensor,
    kernel: (int, int),
    stride: (int, int),
    n: int,
    y: int,
    x: int,
    c: int,
    w: Seq<Elem>,
)
    requires
        0 <= kernel.0,
        0 <= kernel.1,
        lists_plane(t, kernel, stride, n, y, x, c, w),
    ensures
        window2d(t, kernel, n, y * stride.0, x * stride.1, c) == w,
{
    assert(kernel.0 * kernel.1 >= 0) by (nonlinear_arith)
        requires
            0 <= kernel.0,
            0 <= kernel.1,
    ;
    let u = window2d(t, kernel, n, y * stride.0, x * stride.1, c);
    assert forall|q: int| 0 <= q < kernel.0 * kernel.1 implies #[trigger] u[q] == w[q] by {
        lemma_unravel2(seq![kernel.0, kernel.1], q);
        let (a, b) = (q / kernel.1, q % kernel.1);
        lemma_fundamental_div_mod(q, kernel.1);
        lemma_mul_is_commutative(kernel.1, a);
        assert(w[a * kernel.1 + b] == w[q]);
    }
}

/// Entry `(n, y, x, c)` of the windows of an `[N, H, W, C]` array is its window, reduced.
pub proof fn law_windows2d(
    m: Model,
    op: ReduceOp,
    t: Tensor,
    kernel: (int, int),
    stride: (int, int),
    n: int,
    y: int,
    x: int,
    c: int,
    w: Seq<Elem>,
)
    requires
        pool2d_fits(t.shape, kernel, stride),
        in_bounds(windows2d(m, op, t, kernel, stride).shape, seq![n, y, x, c]),
        lists_plane(t, kernel, stride, n, y, x, c, w),
    ensures
        ({
            let r = windows2d(m, op, t, kernel, stride);
            &&& r.shape.len() == 4
            &&& r.shape[0] == t.shape[0]
            &&& places(t.shape[1], kernel.0, stride.0, r.shape[1])
            &&& places(t.shape[2], kernel.1, stride.1, r.shape[2])
            &&& r.shape[3] == t.shape[3]
            &&& r.at(seq![n, y, x, c]) == reduce(m, op, w)
        }),
{
    let i = seq![n, y, x, c];
    law_window_count(t.shape[1], kernel.0, stride.0);
    law_window_count(t.shape[2], kernel.1, stride.1);
    lemma_tabulate(
        seq![
            t.shape[0],
            window_count(t.shape[1], kernel.0, stride.0),
            window_count(t.shape[2], kernel.1, stride.1),
            t.shape[3],
        ],
        |i: Seq<int>|
            reduce(
                m,
                op,
                window2d(t, kernel, i[0], i[1] * stride.0, i[2] * stride.1, i[3]),
            ),
        i,
    );
    lemma_lists_plane(t, kernel, stride, n, y, x, c, w);
}

/// The number that is recorded for window `(n, y, x, c)` of an `[N, H, W, C]` array is the
/// row-major place of the largest entry of the window.
pub proof fn law_max_position(
    m: Model,
    t: Tensor,
    kernel: (int, int),
    stride: (int, int),
    n: int,
    y: int,
    x: int,
    c: int,
    w: Seq<Elem>,
    a: int,
    b: int,
)
    requires
        pool2d_fits(t.shape, kernel, stride),
        in_bounds(max_positions2d(m, t, kernel, stride).shape, seq![n, y, x, c]),
        lists_plane(t, kernel, stride, n, y, x, c, w),
        0 <= a < kernel.0,
        0 <= b < kernel.1,
        argmax(m, w) == a * kernel.1 + b,
    ensures
        max_positions2d(m, t, kernel, stride).shape == windows2d(
            m,
            ReduceOp::Max,
            t,
            kernel,
            stride,
        ).shape,
        max_positions2d(m, t, kernel, stride).at(seq![n, y, x, c]) == Elem::Int(
            ((n * t.shape[1] + (y * stride.0 + a)) * t.shape[2] + (x * stride.1 + b)) * t.shape[3]
                + c,
        ),
{
    let i = seq![n, y, x, c];
    lemma_lists_plane(t, kernel, stride, n, y, x, c, w);
    lemma_tabulate(
        seq![
            t.shape[0],
            window_count(t.shape[1], kernel.0, stride.0),
            window_count(t.shape[2], kernel.1, stride.1),
            t.shape[3],
        ],
        |i: Seq<int>|
            {
                let y = i[1] * stride.0;
                let x = i[2] * stride.1;
                let a = argmax(m, window2d(t, kernel, i[0], y, x, i[3]));
                Elem::Int(
                    ravel(t.shape, seq![i[0], y + a / kernel.1, x + a % kernel.1, i[3]]),
                )
            },
        i,
    );
    lemma_fundamental_div_mod_converse(a * kernel.1 + b, kernel.1, a, b);
    lemma_rank4(t.shape, seq![n, y * stride.0 + a, x * stride.1 + b, c]);
}

/// The windows of an adaptive pooling are as far apart as whole entries allow, and the last of
/// them ends where the axis does.
pub proof fn law_adaptive_windows(extent: int, output: int)
    requires
        adaptive_fits(extent, output),
    ensures
        adaptive_stride(extent, output) >= 1,
        adaptive_stride(extent, output) * output <= extent,
        extent < (adaptive_stride(extent, output) + 1) * output,
        (output - 1) * adaptive_stride(extent, output) + adaptive_kernel(extent, output) == extent,
{
    let s = extent / output;
    lemma_fundamental_div_mod(extent, output);
    lemma_mod_bound(extent, output);
    assert(s * output <= extent < (s + 1) * output) by (nonlinear_arith)
        requires
            extent == output * s + extent % output,
            0 <= extent % output < output,
    ;
    assert(s >= 1) by (nonlinear_arith)
        requires
            extent < (s + 1) * output,
            output <= extent,
            output > 0,
    ;
}

/// The mean of a window is the sum of its entries over their number.
pub proof fn law_avg_pool1d_mean(
    m: Model,
    val: spec_fn(Elem) -> real,
    t: Tensor,
    kernel: int,
    stride: int,
    padding: int,
    n: int,
    c: int,
    y: int,
)
    requires
        computes_exactly(m, val),
        t.wf(),
        all_floats(t.data),
        pooling1d_fits(t.shape, kernel, stride, padding),
        kernel > 0,
        in_bounds(
            pool1d(
                m,
                ReduceOp::Mean,
                t,
                kernel,
                stride,
                padding,
                (m.constant)(Const::Zero),
            ).shape,
            seq![n, c, y],
        ),
    ensures
        val(
            pool1d(
                m,
                ReduceOp::Mean,
                t,
                kernel,
                stride,
                padding,
                (m.constant)(Const::Zero),
            ).at(seq![n, c, y]),
        ) * (kernel as real) == total(
            kernel,
            |q: int| input1d(t, val, n, c, y * stride + q - padding),
        ),
{
    let v = (m.constant)(Const::Zero);
    let s = pool1d(m, ReduceOp::Mean, t, kernel, stride, padding, v).shape;
    let w = Seq::new(
        kernel as nat,
        |q: int|
            {
                let p = y * stride + q - padding;
                if 0 <= p < t.shape[2] {
                    t.at(seq![n, c, p])
                } else {
                    v
                }
            },
    );
    law_pool1d(m, ReduceOp::Mean, t, kernel, stride, padding, v, n, c, y, w);
    let i = seq![n, c, y];
    assert(0 <= i[0] < s[0] && 0 <= i[1] < s[1]);
    assert forall|q: int| 0 <= q < w.len() implies (#[trigger] w[q]) is Float && val(w[q])
        == input1d(t, val, n, c, y * stride + q - padding) by {
        let p = y * stride + q - padding;
        if 0 <= p < t.shape[2] {
            let e = seq![n, c, p];
            assert(in_bounds(t.shape, e));
            lemma_ravel_bound(t.shape, e);
        }
    }
    assert(all_floats(w));
    assert(reduce(m, ReduceOp::Mean, w) is Float);
    lemma_total_ext(
        kernel,
        |p: int| val(w[p]),
        |q: int| input1d(t, val, n, c, y * stride + q - padding),
    );
}

/// Every entry of the input collects the output gradients that were recorded for its place in
/// the padded input, wherever the positions come from.
pub proof fn law_max_pool_gradient_sum(
    m: Model,
    val: spec_fn(Elem) -> real,
    s: Seq<int>,
    padding: (int, int),
    grad: Tensor,
    indices: Tensor,
    n: int,
    c: int,
    y: int,
    x: int,
)
    requires
        computes_exactly(m, val),
        is_shape(s),
        s.len() == 4,
        grad.wf(),
        grad.shape.len() == 4,
        indices.wf(),
        indices.shape == grad.shape,
        all_floats(grad.data),
        in_bounds(s, seq![n, c, y, x]),
    ensures
        max_pool2d_grad(m, s, padding, grad, indices).shape == s,
        val(max_pool2d_grad(m, s, padding, grad, indices).at(seq![n, c, y, x])) == total(
            size(grad.shape),
            |r: int|
                if indices.data[r] == Elem::Int(
                    ((n * (s[2] + 2 * padding.0) + (y + padding.0)) * (s[3] + 2 * padding.1) + (x
                        + padding.1)) * s[1] + c,
                ) {
                    val(grad.data[r])
                } else {
                    0 as real
                },
        ),
{
    let i = seq![n, c, y, x];
    let g = grad.shape;
    let l = nhwc(g);
    let at = padded_position(s, padding, i);
    law_padded_position(s, padding, n, c, y, x);
    let keep = |j: Seq<int>| indices.at(seq![j[0], j[3], j[1], j[2]]) == Elem::Int(at);
    let get = |j: Seq<int>| grad.at(seq![j[0], j[3], j[1], j[2]]);
    lemma_tabulate(
        s,
        |i: Seq<int>|
            (m.accumulate)(
                (m.constant)(Const::Zero),
                gathered(
                    seq![g[0], g[2], g[3], g[1]],
                    |j: Seq<int>|
                        indices.at(seq![j[0], j[3], j[1], j[2]]) == Elem::Int(
                            padded_position(s, padding, i),
                        ),
                    |j: Seq<int>| grad.at(seq![j[0], j[3], j[1], j[2]]),
                ),
            ),
        i,
    );
    assert(g[0] >= 0 && g[1] >= 0 && g[2] >= 0 && g[3] >= 0);
    assert(is_shape(l));
    assert forall|j: Seq<int>| in_bounds(l, j) implies (#[trigger] get(j)) is Float by {
        assert(0 <= j[0] < l[0] && 0 <= j[1] < l[1] && 0 <= j[2] < l[2] && 0 <= j[3] < l[3]);
        assert(in_bounds(g, nchw(j)));
        lemma_ravel_bound(g, nchw(j));
    }
    lemma_gathered_total(m, val, l, keep, get);
    let f = |o: Seq<int>|
        if indices.at(o) == Elem::Int(at) {
            val(grad.at(o))
        } else {
            0 as real
        };
    let flat = |q: int|
        if keep(unravel(l, q)) {
            val(get(unravel(l, q)))
        } else {
            0 as real
        };
    lemma_total_ext(size(l), flat, |q: int| f(nchw(unravel(l, q))));
    lemma_reordered_total(g, f);
    let by_index = |r: int| f(unravel(g, r));
    let by_position = |r: int|
        if indices.data[r] == Elem::Int(
            ((n * (s[2] + 2 * padding.0) + (y + padding.0)) * (s[3] + 2 * padding.1) + (x
                + padding.1)) * s[1] + c,
        ) {
            val(grad.data[r])
        } else {
            0 as real
        };
    assert forall|r: int| 0 <= r < size(g) implies #[trigger] by_index(r) == by_position(r) by {
        lemma_ravel_unravel(g, r);
    }
    lemma_total_ext(size(g), by_index, by_position);
}

} // verus!
