//! What the convolutions compute.
use crate::conv::{
    biased, conv1d, conv1d_fits, conv1d_inner_shape, conv2d, conv2d_fits, conv2d_inner_shape,
    covered1d, covered2d, filter1d, filter2d,
};
use crate::exact::{lemma_total_ext, total};
use crate::index::{
    in_bounds, is_shape, lemma_rank2, lemma_rank3, lemma_rank4, lemma_ravel_bound,
    lemma_size_nonneg, lemma_unravel2, lemma_unravel_ravel, size, unravel,
};
use crate::op::{BinaryOp, Kernel};
use crate::options::ConvOptions;
use crate::tensor::{
    Elem, Model, Tensor, conv1d_at, conv2d_at, conv_channel, kernel, lemma_tabulate, reshape, row,
};
use vstd::arithmetic::div_mod::*;
use vstd::arithmetic::mul::*;
use vstd::prelude::*;

verus! {

/// `count` places, `stride` apart, at which a filter that spans `span` entries fits into
/// `extent` entries.
pub open spec fn places(extent: int, span: int, stride: int, count: int) -> bool {
    (count - 1) * stride <= extent - span < count * stride
}

pub proof fn lemma_places(extent: int, span: int, stride: int)
    requires
        stride >= 1,
        span <= extent,
    ensures
        places(extent, span, stride, (extent - span) / stride + 1),
{
    let d = extent - span;
    let q = d / stride;
    lemma_fundamental_div_mod(d, stride);
    lemma_mod_bound(d, stride);
    assert(q * stride <= d < (q + 1) * stride) by (nonlinear_arith)
        requires
            d == stride * q + d % stride,
            0 <= d % stride < stride,
    ;
}

/// The shape of a one-dimensional convolution: an output channel for every filter, and an
/// entry for every place that the filter has on the padded axis.
pub proof fn law_conv1d_shape(
    m: Model,
    x: Tensor,
    w: Tensor,
    bias: Option<Tensor>,
    o: ConvOptions<1>,
)
    requires
        conv1d_fits(x.shape, w.shape, o),
    ensures
        ({
            let s = conv1d(m, x, w, bias, o).shape;
            &&& s.len() == 3
            &&& s[0] == x.shape[0]
            &&& s[1] == w.shape[0]
            &&& places(
                x.shape[2] + 2 * o.padding[0],
                o.dilation[0] * (w.shape[2] - 1) + 1,
                o.stride[0] as int,
                s[2],
            )
        }),
{
    lemma_places(
        x.shape[2] + 2 * o.padding[0],
        o.dilation[0] * (w.shape[2] - 1) + 1,
        o.stride[0] as int,
    );
}

/// The shape of a two-dimensional convolution: an output channel for every filter, and an
/// entry for every place that the filter has on each of the padded axes.
pub proof fn law_conv2d_shape(
    m: Model,
    x: Tensor,
    w: Tensor,
    bias: Option<Tensor>,
    o: ConvOptions<2>,
)
    requires
        conv2d_fits(x.shape, w.shape, o),
    ensures
        ({
            let s = conv2d(m, x, w, bias, o).shape;
            &&& s.len() == 4
            &&& s[0] == x.shape[0]
            &&& s[1] == w.shape[0]
            &&& places(
                x.shape[2] + 2 * o.padding[0],
                o.dilation[0] * (w.shape[2] - 1) + 1,
                o.stride[0] as int,
                s[2],
            )
            &&& places(
                x.shape[3] + 2 * o.padding[1],
                o.dilation[1] * (w.shape[3] - 1) + 1,
                o.stride[1] as int,
                s[3],
            )
        }),
{
    lemma_places(
        x.shape[2] + 2 * o.padding[0],
        o.dilation[0] * (w.shape[2] - 1) + 1,
        o.stride[0] as int,
    );
    lemma_places(
        x.shape[3] + 2 * o.padding[1],
        o.dilation[1] * (w.shape[3] - 1) + 1,
        o.stride[1] as int,
    );
}

/// What a filter makes of what it covers is the sum of the products, where padding counts for
/// nothing.
pub open spec fn convolves_exactly(m: Model, val: spec_fn(Elem) -> real) -> bool {
    forall|seen: Seq<Option<Elem>>, taps: Seq<Elem>|
        seen.len() == taps.len() ==> (#[trigger] (m.convolve)(seen, taps)) is Float && val(
            (m.convolve)(seen, taps),
        ) == total(
            seen.len() as int,
            |q: int|
                match seen[q] {
                    Some(e) => val(e) * val(taps[q]),
                    None => 0 as real,
                },
        )
}

/// Sums of floats are computed without rounding.
pub open spec fn adds_exactly(m: Model, val: spec_fn(Elem) -> real) -> bool {
    forall|a: Elem, b: Elem|
        a is Float && b is Float ==> val(#[trigger] (m.binary)(BinaryOp::Add, a, b)) == val(a)
            + val(b)
}

/// A sum over `n * k` terms, in `n` runs of `k`.
proof fn lemma_total_runs(n: int, k: int, f: spec_fn(int) -> real)
    requires
        n >= 0,
        k >= 0,
    ensures
        total(n * k, f) == total(n, |a: int| total(k, |b: int| f(a * k + b))),
    decreases n,
{
    let g = |a: int| total(k, |b: int| f(a * k + b));
    if n > 0 {
        lemma_total_runs(n - 1, k, f);
        let start = (n - 1) * k;
        assert(n * k == start + k) by (nonlinear_arith)
            requires
                start == (n - 1) * k,
        ;
        assert(start >= 0) by (nonlinear_arith)
            requires
                start == (n - 1) * k,
                n >= 1,
                k >= 0,
        ;
        lemma_total_from(start, k, f);
        lemma_total_ext(k, |b: int| f(start + b), |b: int| f((n - 1) * k + b));
    } else {
        assert(n * k == 0) by (nonlinear_arith)
            requires
                n == 0,
        ;
    }
}

/// A sum up to `start`, continued by `k` terms.
proof fn lemma_total_from(start: int, k: int, f: spec_fn(int) -> real)
    requires
        start >= 0,
        k >= 0,
    ensures
        total(start + k, f) == total(start, f) + total(k, |b: int| f(start + b)),
    decreases k,
{
    if k > 0 {
        lemma_total_from(start, k - 1, f);
    }
}

/// The input channel that depth `d` of filter `o` reads: the filters are divided evenly into
/// groups, and each group reads as many channels as a filter is deep, group after group.
pub open spec fn channel_read(filters: int, groups: int, depth: int, f: int, d: int) -> int {
    f / (filters / groups) * depth + d
}

/// The number at a place of an axis of the input, or zero in the padding.
pub open spec fn input1d(
    x: Tensor,
    val: spec_fn(Elem) -> real,
    n: int,
    c: int,
    p: int,
) -> real {
    if 0 <= p < x.shape[2] {
        val(x.at(seq![n, c, p]))
    } else {
        0 as real
    }
}

/// The number at a place of a plane of the input, or zero in the padding.
pub open spec fn input2d(
    x: Tensor,
    val: spec_fn(Elem) -> real,
    n: int,
    c: int,
    p: int,
    r: int,
) -> real {
    if 0 <= p < x.shape[2] && 0 <= r < x.shape[3] {
        val(x.at(seq![n, c, p, r]))
    } else {
        0 as real
    }
}

/// What tap `a` of filter `f` contributes, at depth `d`, to entry `(n, f, y)`: the filter times
/// the input that the tap lies on.
pub open spec fn product1d(
    x: Tensor,
    w: Tensor,
    o: ConvOptions<1>,
    val: spec_fn(Elem) -> real,
    n: int,
    f: int,
    y: int,
    a: int,
    d: int,
) -> real {
    input1d(
        x,
        val,
        n,
        channel_read(w.shape[0], o.groups as int, w.shape[1], f, d),
        y * o.stride[0] + a * o.dilation[0] - o.padding[0],
    ) * val(w.at(seq![f, d, a]))
}

/// What tap `(a, b)` of filter `f` contributes, at depth `d`, to entry `(n, f, y, z)`: the
/// filter times the input that the tap lies on.
pub open spec fn product2d(
    x: Tensor,
    w: Tensor,
    o: ConvOptions<2>,
    val: spec_fn(Elem) -> real,
    n: int,
    f: int,
    y: int,
    z: int,
    a: int,
    b: int,
    d: int,
) -> real {
    input2d(
        x,
        val,
        n,
        channel_read(w.shape[0], o.groups as int, w.shape[1], f, d),
        y * o.stride[0] + a * o.dilation[0] - o.padding[0],
        z * o.stride[1] + b * o.dilation[1] - o.padding[1],
    ) * val(w.at(seq![f, d, a, b]))
}

/// The bias of filter `f`, or nothing.
pub open spec fn offset_of(bias: Option<Tensor>, val: spec_fn(Elem) -> real, f: int) -> real {
    match bias {
        Some(b) => val(b.at(seq![f])),
        None => 0 as real,
    }
}

/// Entry `(n, f, y)` of a one-dimensional convolution is the sum, over the taps and the depth
/// of filter `f`, of the filter times the input that the tap lies on, plus the bias of the
/// filter.
pub proof fn law_conv1d_sum(
    m: Model,
    val: spec_fn(Elem) -> real,
    x: Tensor,
    w: Tensor,
    bias: Option<Tensor>,
    o: ConvOptions<1>,
    n: int,
    f: int,
    y: int,
)
    requires
        x.wf(),
        w.wf(),
        conv1d_fits(x.shape, w.shape, o),
        convolves_exactly(m, val),
        adds_exactly(m, val),
        bias matches Some(b) ==> b.at(seq![f]) is Float,
        in_bounds(conv1d(m, x, w, bias, o).shape, seq![n, f, y]),
    ensures
        val(conv1d(m, x, w, bias, o).at(seq![n, f, y])) == total(
            w.shape[2],
            |a: int| total(w.shape[1], |d: int| product1d(x, w, o, val, n, f, y, a, d)),
        ) + offset_of(bias, val, f),
{
    let i = seq![n, f, y];
    let (k, depth) = (w.shape[2], w.shape[1]);
    let s = conv1d_inner_shape(x.shape, w.shape, o);
    assert(i[0] == n && i[1] == f && i[2] == y);
    assert(k >= 0 && depth >= 0);
    lemma_tabulate(
        seq![s[0], s[2], s[1]],
        |i: Seq<int>|
            biased(
                m,
                (m.convolve)(covered1d(x, w.shape, o, i), filter1d(w, i[1])),
                bias,
                i[1],
            ),
        i,
    );
    let (seen, taps) = (covered1d(x, w.shape, o, i), filter1d(w, f));
    let shape = seq![k, depth];
    lemma_rank2(shape, seq![0, 0]);
    lemma_size_nonneg(shape);
    let flat = |q: int|
        match seen[q] {
            Some(e) => val(e) * val(taps[q]),
            None => 0 as real,
        };
    assert(val((m.convolve)(seen, taps)) == total(k * depth, flat));
    lemma_total_runs(k, depth, flat);
    let inner = |a: int| total(depth, |d: int| flat(a * depth + d));
    let wanted = |a: int| total(w.shape[1], |d: int| product1d(x, w, o, val, n, f, y, a, d));
    assert forall|a: int| 0 <= a < k implies #[trigger] inner(a) == wanted(a) by {
        let run = |d: int| flat(a * depth + d);
        assert forall|d: int| 0 <= d < depth implies #[trigger] run(d) == product1d(
            x,
            w,
            o,
            val,
            n,
            f,
            y,
            a,
            d,
        ) by {
            let q = a * depth + d;
            lemma_fundamental_div_mod_converse(q, depth, a, d);
            assert(0 <= q < k * depth) by (nonlinear_arith)
                requires
                    q == a * depth + d,
                    0 <= a <= k - 1,
                    0 <= d < depth,
            ;
            lemma_unravel2(shape, q);
            let e = val(w.at(seq![f, d, a]));
            assert((0 as real) * e == 0 as real) by (nonlinear_arith);
        }
        lemma_total_ext(depth, run, |d: int| product1d(x, w, o, val, n, f, y, a, d));
    }
    lemma_total_ext(k, inner, wanted);
}

/// Entry `(n, f, y, z)` of a two-dimensional convolution is the sum, over the taps and the
/// depth of filter `f`, of the filter times the input that the tap lies on, plus the bias of
/// the filter.
pub proof fn law_conv2d_sum(
    m: Model,
    val: spec_fn(Elem) -> real,
    x: Tensor,
    w: Tensor,
    bias: Option<Tensor>,
    o: ConvOptions<2>,
    n: int,
    f: int,
    y: int,
    z: int,
)
    requires
        x.wf(),
        w.wf(),
        conv2d_fits(x.shape, w.shape, o),
        convolves_exactly(m, val),
        adds_exactly(m, val),
        bias matches Some(b) ==> b.at(seq![f]) is Float,
        in_bounds(conv2d(m, x, w, bias, o).shape, seq![n, f, y, z]),
    ensures
        val(conv2d(m, x, w, bias, o).at(seq![n, f, y, z])) == total(
            w.shape[2],
            |a: int|
                total(
                    w.shape[3],
                    |b: int|
                        total(
                            w.shape[1],
                            |d: int| product2d(x, w, o, val, n, f, y, z, a, b, d),
                        ),
                ),
        ) + offset_of(bias, val, f),
{
    let i = seq![n, f, y, z];
    let (k, l, depth) = (w.shape[2], w.shape[3], w.shape[1]);
    let s = conv2d_inner_shape(x.shape, w.shape, o);
    assert(i[0] == n && i[1] == f && i[2] == y && i[3] == z);
    assert(k >= 0 && l >= 0 && depth >= 0);
    lemma_tabulate(
        seq![s[0], s[3], s[1], s[2]],
        |i: Seq<int>|
            biased(
                m,
                (m.convolve)(covered2d(x, w.shape, o, i), filter2d(w, i[1])),
                bias,
                i[1],
            ),
        i,
    );
    let (seen, taps) = (covered2d(x, w.shape, o, i), filter2d(w, f));
    let shape = seq![k, l, depth];
    lemma_rank3(shape, seq![0, 0, 0]);
    lemma_size_nonneg(shape);
    let flat = |q: int|
        match seen[q] {
            Some(e) => val(e) * val(taps[q]),
            None => 0 as real,
        };
    assert(k * l >= 0) by (nonlinear_arith)
        requires
            k >= 0,
            l >= 0,
    ;
    assert(val((m.convolve)(seen, taps)) == total(k * l * depth, flat));
    lemma_total_runs(k * l, depth, flat);
    let by_tap = |p: int| total(depth, |d: int| flat(p * depth + d));
    lemma_total_runs(k, l, by_tap);
    let rows = |a: int| total(l, |b: int| by_tap(a * l + b));
    let wanted = |a: int|
        total(
            w.shape[3],
            |b: int|
                total(w.shape[1], |d: int| product2d(x, w, o, val, n, f, y, z, a, b, d)),
        );
    assert forall|a: int| 0 <= a < k implies #[trigger] rows(a) == wanted(a) by {
        let row = |b: int| by_tap(a * l + b);
        let wanted_row = |b: int|
            total(w.shape[1], |d: int| product2d(x, w, o, val, n, f, y, z, a, b, d));
        assert forall|b: int| 0 <= b < l implies #[trigger] row(b) == wanted_row(b) by {
            let p = a * l + b;
            let run = |d: int| flat(p * depth + d);
            assert forall|d: int| 0 <= d < depth implies #[trigger] run(d) == product2d(
                x,
                w,
                o,
                val,
                n,
                f,
                y,
                z,
                a,
                b,
                d,
            ) by {
                let j = seq![a, b, d];
                lemma_rank3(shape, j);
                assert(in_bounds(shape, j));
                lemma_ravel_bound(shape, j);
                lemma_unravel_ravel(shape, j);
                let e = val(w.at(seq![f, d, a, b]));
                assert((0 as real) * e == 0 as real) by (nonlinear_arith);
            }
            lemma_total_ext(depth, run, |d: int| product2d(x, w, o, val, n, f, y, z, a, b, d));
        }
        lemma_total_ext(l, row, wanted_row);
    }
    lemma_total_ext(k, rows, wanted);
}

/// A stride skips places: entry `(n, f, y)` of a convolution with a stride is entry
/// `(n, f, y * stride)` of the convolution without one.
pub proof fn law_conv1d_stride(
    m: Model,
    x: Tensor,
    w: Tensor,
    bias: Option<Tensor>,
    o: ConvOptions<1>,
    every: ConvOptions<1>,
    n: int,
    f: int,
    y: int,
)
    requires
        conv1d_fits(x.shape, w.shape, o),
        every.stride[0] == 1,
        every.padding[0] == o.padding[0],
        every.dilation[0] == o.dilation[0],
        every.groups == o.groups,
        in_bounds(conv1d(m, x, w, bias, o).shape, seq![n, f, y]),
    ensures
        in_bounds(conv1d(m, x, w, bias, every).shape, seq![n, f, y * o.stride[0]]),
        conv1d(m, x, w, bias, o).at(seq![n, f, y]) == conv1d(m, x, w, bias, every).at(
            seq![n, f, y * o.stride[0]],
        ),
{
    let (i, j) = (seq![n, f, y], seq![n, f, y * o.stride[0]]);
    let (s, t) = (
        conv1d_inner_shape(x.shape, w.shape, o),
        conv1d_inner_shape(x.shape, w.shape, every),
    );
    let (u, v) = (seq![s[0], s[2], s[1]], seq![t[0], t[2], t[1]]);
    assert(0 <= i[0] < u[0] && 0 <= i[1] < u[1] && 0 <= i[2] < u[2]);
    let d = x.shape[2] + 2 * o.padding[0] - o.dilation[0] * (w.shape[2] - 1) - 1;
    lemma_skipped(d, o.stride[0] as int, y);
    assert(in_bounds(v, j));
    let g = |o: ConvOptions<1>|
        |i: Seq<int>|
            biased(
                m,
                (m.convolve)(covered1d(x, w.shape, o, i), filter1d(w, i[1])),
                bias,
                i[1],
            );
    lemma_tabulate(u, g(o), i);
    lemma_tabulate(v, g(every), j);
    assert(covered1d(x, w.shape, o, i) == covered1d(x, w.shape, every, j));
}

/// A place that is not skipped.
proof fn lemma_skipped(d: int, stride: int, y: int)
    requires
        d >= 0,
        stride >= 1,
        0 <= y < d / stride + 1,
    ensures
        0 <= y * stride < d / 1 + 1,
{
    lemma_div_basics(d);
    lemma_fundamental_div_mod(d, stride);
    lemma_mod_bound(d, stride);
    let q = d / stride;
    assert(0 <= y * stride <= d) by (nonlinear_arith)
        requires
            0 <= y <= q,
            stride >= 1,
            d == stride * q + d % stride,
            0 <= d % stride,
    ;
}

/// Strides skip places: entry `(n, f, y, z)` of a convolution with strides is the entry of the
/// convolution without strides at `y` times the first and `z` times the second.
pub proof fn law_conv2d_stride(
    m: Model,
    x: Tensor,
    w: Tensor,
    bias: Option<Tensor>,
    o: ConvOptions<2>,
    every: ConvOptions<2>,
    n: int,
    f: int,
    y: int,
    z: int,
)
    requires
        conv2d_fits(x.shape, w.shape, o),
        every.stride[0] == 1,
        every.stride[1] == 1,
        every.padding[0] == o.padding[0],
        every.padding[1] == o.padding[1],
        every.dilation[0] == o.dilation[0],
        every.dilation[1] == o.dilation[1],
        every.groups == o.groups,
        in_bounds(conv2d(m, x, w, bias, o).shape, seq![n, f, y, z]),
    ensures
        in_bounds(
            conv2d(m, x, w, bias, every).shape,
            seq![n, f, y * o.stride[0], z * o.stride[1]],
        ),
        conv2d(m, x, w, bias, o).at(seq![n, f, y, z]) == conv2d(m, x, w, bias, every).at(
            seq![n, f, y * o.stride[0], z * o.stride[1]],
        ),
{
    let (i, j) = (seq![n, f, y, z], seq![n, f, y * o.stride[0], z * o.stride[1]]);
    let (s, t) = (
        conv2d_inner_shape(x.shape, w.shape, o),
        conv2d_inner_shape(x.shape, w.shape, every),
    );
    let (u, v) = (seq![s[0], s[3], s[1], s[2]], seq![t[0], t[3], t[1], t[2]]);
    assert(0 <= i[0] < u[0] && 0 <= i[1] < u[1] && 0 <= i[2] < u[2] && 0 <= i[3] < u[3]);
    let d = x.shape[2] + 2 * o.padding[0] - o.dilation[0] * (w.shape[2] - 1) - 1;
    lemma_skipped(d, o.stride[0] as int, y);
    let e = x.shape[3] + 2 * o.padding[1] - o.dilation[1] * (w.shape[3] - 1) - 1;
    lemma_skipped(e, o.stride[1] as int, z);
    assert(in_bounds(v, j));
    let g = |o: ConvOptions<2>|
        |i: Seq<int>|
            biased(
                m,
                (m.convolve)(covered2d(x, w.shape, o, i), filter2d(w, i[1])),
                bias,
                i[1],
            );
    lemma_tabulate(u, g(o), i);
    lemma_tabulate(v, g(every), j);
    assert(covered2d(x, w.shape, o, i) == covered2d(x, w.shape, every, j));
}

/// What tap `(a, b)` contributes, at depth `d`, to entry `(n, y, z, f)` of a convolution of
/// arrays whose channels come last.
pub open spec fn kernel_product(
    x: Tensor,
    w: Tensor,
    stride: (int, int),
    padding: (int, int),
    dilation: (int, int),
    groups: int,
    val: spec_fn(Elem) -> real,
    n: int,
    y: int,
    z: int,
    f: int,
    a: int,
    b: int,
    d: int,
) -> real {
    let p = y * stride.0 + a * dilation.0 - padding.0;
    let r = z * stride.1 + b * dilation.1 - padding.1;
    let c = channel_read(w.shape[0], groups, w.shape[3], f, d);
    (if 0 <= p < x.shape[1] && 0 <= r < x.shape[2] {
        val(x.at(seq![n, p, r, c]))
    } else {
        0 as real
    }) * val(w.at(seq![f, a, b, d]))
}

/// Entry `(n, y, z, f)` of the convolution kernel is the sum, over the taps and the depth of
/// filter `f`, of the filter times the input that the tap lies on.
pub proof fn law_conv2d_kernel(
    m: Model,
    val: spec_fn(Elem) -> real,
    x: Tensor,
    w: Tensor,
    stride: (i32, i32),
    padding: (i32, i32),
    dilation: (i32, i32),
    groups: i32,
    s: Seq<int>,
    n: int,
    y: int,
    z: int,
    f: int,
)
    requires
        w.wf(),
        w.shape.len() == 4,
        convolves_exactly(m, val),
        s.len() == 4,
        in_bounds(s, seq![n, y, z, f]),
    ensures
        val(
            kernel(m, Kernel::Conv2d { stride, padding, dilation, groups }, seq![x, w], s).at(
                seq![n, y, z, f],
            ),
        ) == total(
            w.shape[1],
            |a: int|
                total(
                    w.shape[2],
                    |b: int|
                        total(
                            w.shape[3],
                            |d: int|
                                kernel_product(
                                    x,
                                    w,
                                    (stride.0 as int, stride.1 as int),
                                    (padding.0 as int, padding.1 as int),
                                    (dilation.0 as int, dilation.1 as int),
                                    groups as int,
                                    val,
                                    n,
                                    y,
                                    z,
                                    f,
                                    a,
                                    b,
                                    d,
                                ),
                        ),
                ),
        ),
{
    let i = seq![n, y, z, f];
    let (st, pd, dl) = (
        (stride.0 as int, stride.1 as int),
        (padding.0 as int, padding.1 as int),
        (dilation.0 as int, dilation.1 as int),
    );
    let g = groups as int;
    let args = seq![x, w];
    assert(args[0] == x && args[1] == w);
    lemma_tabulate(
        s,
        |i: Seq<int>|
            conv2d_at(
                m,
                args[0],
                args[1],
                (stride.0 as int, stride.1 as int),
                (padding.0 as int, padding.1 as int),
                (dilation.0 as int, dilation.1 as int),
                groups as int,
                i,
            ),
        i,
    );
    let shape = seq![w.shape[1], w.shape[2], w.shape[3]];
    let (k, l, depth) = (w.shape[1], w.shape[2], w.shape[3]);
    assert(k >= 0 && l >= 0 && depth >= 0);
    lemma_rank3(shape, seq![0, 0, 0]);
    lemma_size_nonneg(shape);
    let seen = Seq::new(
        size(shape) as nat,
        |q: int|
            {
                let j = unravel(shape, q);
                let p = i[1] * st.0 + j[0] * dl.0 - pd.0;
                let r = i[2] * st.1 + j[1] * dl.1 - pd.1;
                let c = channel_read(w.shape[0], g, w.shape[3], i[3], j[2]);
                if 0 <= p < x.shape[1] && 0 <= r < x.shape[2] {
                    Some(x.at(seq![i[0], p, r, c]))
                } else {
                    None
                }
            },
    );
    let taps = Seq::new(
        size(shape) as nat,
        |q: int|
            {
                let j = unravel(shape, q);
                w.at(seq![i[3], j[0], j[1], j[2]])
            },
    );
    assert(conv2d_at(m, x, w, st, pd, dl, g, i) == (m.convolve)(seen, taps)) by {
        let seen2 = Seq::new(
            size(shape) as nat,
            |q: int|
                {
                    let j = unravel(shape, q);
                    let y = i[1] * st.0 + j[0] * dl.0 - pd.0;
                    let z = i[2] * st.1 + j[1] * dl.1 - pd.1;
                    let c = conv_channel(i[3], w.shape[0], g, w.shape[3], j[2]);
                    if 0 <= y < x.shape[1] && 0 <= z < x.shape[2] {
                        Some(x.at(seq![i[0], y, z, c]))
                    } else {
                        None
                    }
                },
        );
        assert(seen2 == seen);
    }
    let flat = |q: int|
        match seen[q] {
            Some(e) => val(e) * val(taps[q]),
            None => 0 as real,
        };
    assert(k * l >= 0) by (nonlinear_arith)
        requires
            k >= 0,
            l >= 0,
    ;
    lemma_total_runs(k * l, depth, flat);
    let by_tap = |p: int| total(depth, |d: int| flat(p * depth + d));
    lemma_total_runs(k, l, by_tap);
    let rows = |a: int| total(l, |b: int| by_tap(a * l + b));
    let wanted = |a: int|
        total(
            w.shape[2],
            |b: int|
                total(
                    w.shape[3],
                    |d: int|
                        kernel_product(
                            x,
                            w,
                            (stride.0 as int, stride.1 as int),
                            (padding.0 as int, padding.1 as int),
                            (dilation.0 as int, dilation.1 as int),
                            groups as int,
                            val,
                            n,
                            y,
                            z,
                            f,
                            a,
                            b,
                            d,
                        ),
                ),
        );
    assert forall|a: int| 0 <= a < k implies #[trigger] rows(a) == wanted(a) by {
        let row = |b: int| by_tap(a * l + b);
        let wanted_row = |b: int|
            total(
                w.shape[3],
                |d: int|
                    kernel_product(
                        x,
                        w,
                        (stride.0 as int, stride.1 as int),
                        (padding.0 as int, padding.1 as int),
                        (dilation.0 as int, dilation.1 as int),
                        groups as int,
                        val,
                        n,
                        y,
                        z,
                        f,
                        a,
                        b,
                        d,
                    ),
            );
        assert forall|b: int| 0 <= b < l implies #[trigger] row(b) == wanted_row(b) by {
            let p = a * l + b;
            let run = |d: int| flat(p * depth + d);
            let wanted_run = |d: int|
                kernel_product(
                    x,
                    w,
                    (stride.0 as int, stride.1 as int),
                    (padding.0 as int, padding.1 as int),
                    (dilation.0 as int, dilation.1 as int),
                    groups as int,
                    val,
                    n,
                    y,
                    z,
                    f,
                    a,
                    b,
                    d,
                );
            assert forall|d: int| 0 <= d < depth implies #[trigger] run(d) == wanted_run(d) by {
                let j = seq![a, b, d];
                lemma_rank3(shape, j);
                assert(in_bounds(shape, j));
                lemma_ravel_bound(shape, j);
                lemma_unravel_ravel(shape, j);
                let e = val(w.at(seq![f, a, b, d]));
                assert((0 as real) * e == 0 as real) by (nonlinear_arith);
            }
            lemma_total_ext(depth, run, wanted_run);
        }
        lemma_total_ext(l, row, wanted_row);
    }
    lemma_total_ext(k, rows, wanted);
}

/// Entry `(n, y, f)` of the one-dimensional convolution kernel is that of the two-dimensional
/// one for planes of a single row.
pub proof fn law_conv1d_kernel(
    m: Model,
    x: Tensor,
    w: Tensor,
    stride: i32,
    padding: i32,
    dilation: i32,
    groups: i32,
    s: Seq<int>,
    n: int,
    y: int,
    f: int,
)
    requires
        x.shape.len() == 3,
        w.shape.len() == 3,
        is_shape(w.shape),
        s.len() == 3,
        in_bounds(s, seq![n, y, f]),
    ensures
        kernel(m, Kernel::Conv1d { stride, padding, dilation, groups }, seq![x, w], s).at(
            seq![n, y, f],
        ) == kernel(
            m,
            Kernel::Conv2d {
                stride: (1, stride),
                padding: (0, padding),
                dilation: (1, dilation),
                groups,
            },
            seq![
                reshape(x, seq![x.shape[0], 1, x.shape[1], x.shape[2]]),
                reshape(w, seq![w.shape[0], 1, w.shape[1], w.shape[2]]),
            ],
            seq![s[0], 1, s[1], s[2]],
        ).at(seq![n, 0, y, f]),
{
    let (i, e) = (seq![n, y, f], seq![n, 0, y, f]);
    let t = seq![s[0], 1, s[1], s[2]];
    let x2 = reshape(x, seq![x.shape[0], 1, x.shape[1], x.shape[2]]);
    let w2 = reshape(w, seq![w.shape[0], 1, w.shape[1], w.shape[2]]);
    let (args, args2) = (seq![x, w], seq![x2, w2]);
    assert(0 <= i[0] < s[0] && 0 <= i[1] < s[1] && 0 <= i[2] < s[2]);
    assert(in_bounds(t, e));
    lemma_tabulate(
        s,
        |i: Seq<int>|
            conv1d_at(
                m,
                args[0],
                args[1],
                stride as int,
                padding as int,
                dilation as int,
                groups as int,
                i,
            ),
        i,
    );
    let (st, pd, dl) = ((1i32, stride), (0i32, padding), (1i32, dilation));
    lemma_tabulate(
        t,
        |i: Seq<int>|
            conv2d_at(
                m,
                args2[0],
                args2[1],
                (st.0 as int, st.1 as int),
                (pd.0 as int, pd.1 as int),
                (dl.0 as int, dl.1 as int),
                groups as int,
                i,
            ),
        e,
    );
    let (u, v) = (seq![w.shape[1], w.shape[2]], seq![1, w.shape[1], w.shape[2]]);
    assert(w.shape[1] >= 0 && w.shape[2] >= 0);
    lemma_rank2(u, seq![0, 0]);
    lemma_rank3(v, seq![0, 0, 0]);
    let g = groups as int;
    let seen1 = Seq::new(
        size(u) as nat,
        |q: int|
            {
                let j = unravel(u, q);
                let y = i[1] * stride + j[0] * dilation - padding;
                let c = conv_channel(i[2], w.shape[0], g, w.shape[2], j[1]);
                if 0 <= y < x.shape[1] {
                    Some(x.at(seq![i[0], y, c]))
                } else {
                    None
                }
            },
    );
    let taps1 = Seq::new(
        size(u) as nat,
        |q: int|
            {
                let j = unravel(u, q);
                w.at(seq![i[2], j[0], j[1]])
            },
    );
    let seen2 = Seq::new(
        size(v) as nat,
        |q: int|
            {
                let j = unravel(v, q);
                let y = e[1] * st.0 + j[0] * dl.0 - pd.0;
                let z = e[2] * st.1 + j[1] * dl.1 - pd.1;
                let c = conv_channel(e[3], w2.shape[0], g, w2.shape[3], j[2]);
                if 0 <= y < x2.shape[1] && 0 <= z < x2.shape[2] {
                    Some(x2.at(seq![e[0], y, z, c]))
                } else {
                    None
                }
            },
    );
    let taps2 = Seq::new(
        size(v) as nat,
        |q: int|
            {
                let j = unravel(v, q);
                w2.at(seq![e[3], j[0], j[1], j[2]])
            },
    );
    assert forall|q: int| 0 <= q < size(u) implies #[trigger] seen1[q] == seen2[q] && taps1[q]
        == taps2[q] by {
        lemma_unravel2(u, q);
        let j = seq![0, q / u[1], q % u[1]];
        lemma_rank3(v, j);
        lemma_fundamental_div_mod(q, u[1]);
        lemma_mul_is_commutative(u[1], q / u[1]);
        assert(in_bounds(v, j));
        lemma_unravel_ravel(v, j);
        let (a, d) = (q / u[1], q % u[1]);
        let z = y * stride + a * dilation - padding;
        let c = conv_channel(f, w.shape[0], g, w.shape[2], d);
        lemma_rank3(x.shape, seq![n, z, c]);
        lemma_rank4(x2.shape, seq![n, 0, z, c]);
        lemma_rank3(w.shape, seq![f, a, d]);
        lemma_rank4(w2.shape, seq![f, 0, a, d]);
    }
    assert(seen1 == seen2);
    assert(taps1 == taps2) by {
        assert forall|q: int| 0 <= q < size(u) implies #[trigger] taps1[q] == taps2[q] by {
            assert(seen1[q] == seen2[q]);
        }
    }
}

} // verus!
