//! Convolution of channels-first tensors.
use crate::array::{Array, values};
use crate::index::{
    in_bounds, lemma_rank1, lemma_rank3, lemma_rank4, lemma_ravel_unravel, lemma_size_nonneg,
    size, unravel,
};
use crate::layout::{
    channels_first, channels_last, lemma_channels_first, lemma_channels_last, lemma_swap_last,
    swap_last,
};
use crate::node::ints;
use crate::op::{BinaryOp, Const, Kernel};
use crate::options::{ConvOptions, ConvTransposeOptions, DeformConvOptions};
use crate::pool::pair;
use crate::primitive::{Mlx, MlxTensorPrimitive};
use crate::tensor::{
    Elem, Model, Tensor, binary, broadcast_index, broadcasts_to, constant_tensor, conv1d_at,
    conv2d_at, conv_channel, kernel, lemma_absorb, lemma_broadcast_index_same, lemma_tabulate,
    lemma_tensor_ext, permute, permuted, tabulate,
};
use vstd::arithmetic::div_mod::*;
use vstd::arithmetic::mul::*;
use vstd::prelude::*;

verus! {

/// How many places a kernel of extent `k` has on an axis of extent `l`.
pub open spec fn conv_extent(l: int, k: int, stride: int, padding: int, dilation: int) -> int {
    (l + 2 * padding - dilation * (k - 1) - 1) / stride + 1
}

/// The kernel has a place on the padded axis.
pub open spec fn conv_axis_fits(
    l: int,
    k: int,
    stride: int,
    padding: int,
    dilation: int,
) -> bool {
    &&& 1 <= k
    &&& 1 <= stride <= i32::MAX
    &&& 1 <= dilation <= i32::MAX
    &&& 0 <= padding
    &&& l + 2 * padding <= i32::MAX
    &&& dilation * (k - 1) + 1 <= l + 2 * padding
}

/// Inputs with `channels` channels and weights of `out` filters with `depth`
/// channels each fit together.
pub open spec fn groups_fit(channels: int, out: int, depth: int, groups: int) -> bool {
    &&& 1 <= groups <= i32::MAX
    &&& channels == depth * groups
    &&& out % groups == 0
}

/// `[N, C, L]` inputs of shape `x` can be convolved with `[O, C / groups, K]`
/// weights of shape `w`.
pub open spec fn conv1d_fits(x: Seq<int>, w: Seq<int>, o: ConvOptions<1>) -> bool {
    &&& x.len() == 3
    &&& w.len() == 3
    &&& groups_fit(x[1], w[0], w[1], o.groups as int)
    &&& conv_axis_fits(
        x[2],
        w[2],
        o.stride[0] as int,
        o.padding[0] as int,
        o.dilation[0] as int,
    )
}

/// `[N, C, H, W]` inputs of shape `x` can be convolved with `[O, C / groups, KH, KW]`
/// weights of shape `w`.
pub open spec fn conv2d_fits(x: Seq<int>, w: Seq<int>, o: ConvOptions<2>) -> bool {
    &&& x.len() == 4
    &&& w.len() == 4
    &&& groups_fit(x[1], w[0], w[1], o.groups as int)
    &&& conv_axis_fits(
        x[2],
        w[2],
        o.stride[0] as int,
        o.padding[0] as int,
        o.dilation[0] as int,
    )
    &&& conv_axis_fits(
        x[3],
        w[3],
        o.stride[1] as int,
        o.padding[1] as int,
        o.dilation[1] as int,
    )
}

/// A bias, where there is one, holds one value per filter.
pub open spec fn bias_fits(bias: Option<MlxTensorPrimitive>, out: int) -> bool {
    match bias {
        Some(b) => b.wf() && b.dims() == seq![out],
        None => true,
    }
}

/// The value of a bias.
pub open spec fn bias_value(bias: Option<MlxTensorPrimitive>, m: Model) -> Option<Tensor> {
    match bias {
        Some(b) => Some(b.value(m)),
        None => None,
    }
}

/// `e` plus entry `c` of the bias.
pub open spec fn biased(m: Model, e: Elem, bias: Option<Tensor>, c: int) -> Elem {
    match bias {
        Some(b) => binary(m, BinaryOp::Add, e, b.at(seq![c])),
        None => e,
    }
}

/// The shape that the channels-last kernel gives: `[N, OL, O]`.
pub open spec fn conv1d_inner_shape(x: Seq<int>, w: Seq<int>, o: ConvOptions<1>) -> Seq<int> {
    seq![
        x[0],
        conv_extent(
            x[2],
            w[2],
            o.stride[0] as int,
            o.padding[0] as int,
            o.dilation[0] as int,
        ),
        w[0],
    ]
}

/// The shape that the channels-last kernel gives: `[N, OH, OW, O]`.
pub open spec fn conv2d_inner_shape(x: Seq<int>, w: Seq<int>, o: ConvOptions<2>) -> Seq<int> {
    seq![
        x[0],
        conv_extent(
            x[2],
            w[2],
            o.stride[0] as int,
            o.padding[0] as int,
            o.dilation[0] as int,
        ),
        conv_extent(
            x[3],
            w[3],
            o.stride[1] as int,
            o.padding[1] as int,
            o.dilation[1] as int,
        ),
        w[0],
    ]
}

/// What filter `i[1]` covers at place `i[2]` of an `[N, C, L]` tensor: for every tap and
/// channel, the entry there, or none in the padding.
pub open spec fn covered1d(x: Tensor, w: Seq<int>, o: ConvOptions<1>, i: Seq<int>) -> Seq<
    Option<Elem>,
> {
    let taps = seq![w[2], w[1]];
    Seq::new(
        size(taps) as nat,
        |q: int|
            {
                let j = unravel(taps, q);
                let y = i[2] * o.stride[0] + j[0] * o.dilation[0] - o.padding[0];
                let c = conv_channel(i[1], w[0], o.groups as int, w[1], j[1]);
                if 0 <= y < x.shape[2] {
                    Some(x.at(seq![i[0], c, y]))
                } else {
                    None
                }
            },
    )
}

/// The weights of filter `f`, by tap and channel.
pub open spec fn filter1d(w: Tensor, f: int) -> Seq<Elem> {
    let taps = seq![w.shape[2], w.shape[1]];
    Seq::new(
        size(taps) as nat,
        |q: int|
            {
                let j = unravel(taps, q);
                w.at(seq![f, j[1], j[0]])
            },
    )
}

/// The convolution of an `[N, C, L]` tensor with `[O, C / groups, K]` weights:
/// `[N, O, OL]`.
pub open spec fn conv1d(
    m: Model,
    x: Tensor,
    w: Tensor,
    bias: Option<Tensor>,
    o: ConvOptions<1>,
) -> Tensor {
    let s = conv1d_inner_shape(x.shape, w.shape, o);
    tabulate(
        seq![s[0], s[2], s[1]],
        |i: Seq<int>|
            biased(
                m,
                (m.convolve)(covered1d(x, w.shape, o, i), filter1d(w, i[1])),
                bias,
                i[1],
            ),
    )
}

/// What filter `i[1]` covers at place `(i[2], i[3])` of an `[N, C, H, W]` tensor: for
/// every tap and channel, the entry there, or none in the padding.
pub open spec fn covered2d(x: Tensor, w: Seq<int>, o: ConvOptions<2>, i: Seq<int>) -> Seq<
    Option<Elem>,
> {
    let taps = seq![w[2], w[3], w[1]];
    Seq::new(
        size(taps) as nat,
        |q: int|
            {
                let j = unravel(taps, q);
                let y = i[2] * o.stride[0] + j[0] * o.dilation[0] - o.padding[0];
                let z = i[3] * o.stride[1] + j[1] * o.dilation[1] - o.padding[1];
                let c = conv_channel(i[1], w[0], o.groups as int, w[1], j[2]);
                if 0 <= y < x.shape[2] && 0 <= z < x.shape[3] {
                    Some(x.at(seq![i[0], c, y, z]))
                } else {
                    None
                }
            },
    )
}

/// The weights of filter `f`, by tap and channel.
pub open spec fn filter2d(w: Tensor, f: int) -> Seq<Elem> {
    let taps = seq![w.shape[2], w.shape[3], w.shape[1]];
    Seq::new(
        size(taps) as nat,
        |q: int|
            {
                let j = unravel(taps, q);
                w.at(seq![f, j[2], j[0], j[1]])
            },
    )
}

/// The convolution of an `[N, C, H, W]` tensor with `[O, C / groups, KH, KW]` weights:
/// `[N, O, OH, OW]`.
pub open spec fn conv2d(
    m: Model,
    x: Tensor,
    w: Tensor,
    bias: Option<Tensor>,
    o: ConvOptions<2>,
) -> Tensor {
    let s = conv2d_inner_shape(x.shape, w.shape, o);
    tabulate(
        seq![s[0], s[3], s[1], s[2]],
        |i: Seq<int>|
            biased(
                m,
                (m.convolve)(covered2d(x, w.shape, o, i), filter2d(w, i[1])),
                bias,
                i[1],
            ),
    )
}

/// The channels that a filter reads are channels of the input.
proof fn lemma_conv_channel(o: int, filters: int, groups: int, depth: int, d: int)
    requires
        0 <= o < filters,
        groups >= 1,
        filters % groups == 0,
        0 <= d < depth,
    ensures
        0 <= conv_channel(o, filters, groups, depth, d) < depth * groups,
{
    let per = filters / groups;
    lemma_fundamental_div_mod(filters, groups);
    assert(per >= 1) by (nonlinear_arith)
        requires
            filters == groups * per,
            filters >= 1,
            groups >= 1,
    ;
    let g = o / per;
    lemma_fundamental_div_mod(o, per);
    lemma_mod_bound(o, per);
    lemma_div_pos_is_pos(o, per);
    assert(g < groups) by (nonlinear_arith)
        requires
            per * g <= o,
            o < groups * per,
            per >= 1,
    ;
    assert(0 <= g * depth + d < depth * groups) by (nonlinear_arith)
        requires
            0 <= g < groups,
            0 <= d < depth,
    ;
}

/// A convolution with the channels last, entry by entry.
proof fn lemma_conv1d_at(
    m: Model,
    x: Tensor,
    w: Tensor,
    o: ConvOptions<1>,
    i: Seq<int>,
)
    requires
        x.wf(),
        w.wf(),
        conv1d_fits(x.shape, w.shape, o),
        0 <= i[0] < x.shape[0],
        0 <= i[1] < w.shape[0],
        i.len() == 3,
    ensures
        conv1d_at(
            m,
            permute(x, swap_last()),
            permute(w, swap_last()),
            o.stride[0] as int,
            o.padding[0] as int,
            o.dilation[0] as int,
            o.groups as int,
            seq![i[0], i[2], i[1]],
        ) == (m.convolve)(covered1d(x, w.shape, o, i), filter1d(w, i[1])),
{
    let (px, pw) = (permute(x, swap_last()), permute(w, swap_last()));
    let t = seq![i[0], i[2], i[1]];
    let taps = seq![w.shape[2], w.shape[1]];
    assert(px.shape == seq![x.shape[0], x.shape[2], x.shape[1]]);
    assert(pw.shape == seq![w.shape[0], w.shape[2], w.shape[1]]);
    let a = Seq::new(
        size(taps) as nat,
        |q: int|
            {
                let j = unravel(taps, q);
                let y = t[1] * o.stride[0] + j[0] * o.dilation[0] - o.padding[0];
                let c = conv_channel(t[2], pw.shape[0], o.groups as int, pw.shape[2], j[1]);
                if 0 <= y < px.shape[1] {
                    Some(px.at(seq![t[0], y, c]))
                } else {
                    None
                }
            },
    );
    let b = Seq::new(
        size(taps) as nat,
        |q: int|
            {
                let j = unravel(taps, q);
                pw.at(seq![t[2], j[0], j[1]])
            },
    );
    assert(w.shape[2] >= 0 && w.shape[1] >= 0);
    lemma_size_nonneg(taps);
    assert forall|q: int| 0 <= q < size(taps) implies a[q] == covered1d(x, w.shape, o, i)[q]
        && b[q] == filter1d(w, i[1])[q] by {
        let j = unravel(taps, q);
        lemma_ravel_unravel(taps, q);
        assert(0 <= j[0] < taps[0] && 0 <= j[1] < taps[1]);
        let y = t[1] * o.stride[0] + j[0] * o.dilation[0] - o.padding[0];
        let c = conv_channel(i[1], w.shape[0], o.groups as int, w.shape[1], j[1]);
        lemma_conv_channel(i[1], w.shape[0], o.groups as int, w.shape[1], j[1]);
        if 0 <= y < x.shape[2] {
            lemma_swap_last(x, seq![i[0], y, c]);
        }
        lemma_swap_last(w, seq![i[1], j[0], j[1]]);
    }
    assert(a == covered1d(x, w.shape, o, i));
    assert(b == filter1d(w, i[1]));
    assert(taps == seq![pw.shape[1], pw.shape[2]]);
}

/// A convolution with the channels last, entry by entry.
proof fn lemma_conv2d_at(
    m: Model,
    x: Tensor,
    w: Tensor,
    o: ConvOptions<2>,
    i: Seq<int>,
)
    requires
        x.wf(),
        w.wf(),
        conv2d_fits(x.shape, w.shape, o),
        0 <= i[0] < x.shape[0],
        0 <= i[1] < w.shape[0],
        i.len() == 4,
    ensures
        conv2d_at(
            m,
            permute(x, channels_last()),
            permute(w, channels_last()),
            pair(o.stride),
            pair(o.padding),
            pair(o.dilation),
            o.groups as int,
            seq![i[0], i[2], i[3], i[1]],
        ) == (m.convolve)(covered2d(x, w.shape, o, i), filter2d(w, i[1])),
{
    let (px, pw) = (permute(x, channels_last()), permute(w, channels_last()));
    let t = seq![i[0], i[2], i[3], i[1]];
    let taps = seq![w.shape[2], w.shape[3], w.shape[1]];
    let (st, pad, dil) = (pair(o.stride), pair(o.padding), pair(o.dilation));
    assert(px.shape == seq![x.shape[0], x.shape[2], x.shape[3], x.shape[1]]);
    assert(pw.shape == seq![w.shape[0], w.shape[2], w.shape[3], w.shape[1]]);
    let a = Seq::new(
        size(taps) as nat,
        |q: int|
            {
                let j = unravel(taps, q);
                let y = t[1] * st.0 + j[0] * dil.0 - pad.0;
                let z = t[2] * st.1 + j[1] * dil.1 - pad.1;
                let c = conv_channel(t[3], pw.shape[0], o.groups as int, pw.shape[3], j[2]);
                if 0 <= y < px.shape[1] && 0 <= z < px.shape[2] {
                    Some(px.at(seq![t[0], y, z, c]))
                } else {
                    None
                }
            },
    );
    let b = Seq::new(
        size(taps) as nat,
        |q: int|
            {
                let j = unravel(taps, q);
                pw.at(seq![t[3], j[0], j[1], j[2]])
            },
    );
    assert(w.shape[1] >= 0 && w.shape[2] >= 0 && w.shape[3] >= 0);
    lemma_size_nonneg(taps);
    assert forall|q: int| 0 <= q < size(taps) implies a[q] == covered2d(x, w.shape, o, i)[q]
        && b[q] == filter2d(w, i[1])[q] by {
        let j = unravel(taps, q);
        lemma_ravel_unravel(taps, q);
        assert(0 <= j[0] < taps[0] && 0 <= j[1] < taps[1] && 0 <= j[2] < taps[2]);
        let y = t[1] * st.0 + j[0] * dil.0 - pad.0;
        let z = t[2] * st.1 + j[1] * dil.1 - pad.1;
        let c = conv_channel(i[1], w.shape[0], o.groups as int, w.shape[1], j[2]);
        lemma_conv_channel(i[1], w.shape[0], o.groups as int, w.shape[1], j[2]);
        if 0 <= y < x.shape[2] && 0 <= z < x.shape[3] {
            lemma_channels_last(x, seq![i[0], y, z, c]);
        }
        lemma_channels_last(w, seq![i[1], j[0], j[1], j[2]]);
    }
    assert(a == covered2d(x, w.shape, o, i));
    assert(b == filter2d(w, i[1]));
    assert(taps == seq![pw.shape[1], pw.shape[2], pw.shape[3]]);
}

/// The gradients of a deformable convolution.
#[derive(Debug)]
pub struct DeformConv2dBackward {
    pub x_grad: MlxTensorPrimitive,
    pub offset_grad: MlxTensorPrimitive,
    pub weight_grad: MlxTensorPrimitive,
    pub mask_grad: Option<MlxTensorPrimitive>,
    pub bias_grad: Option<MlxTensorPrimitive>,
}

/// The number of places of a kernel on an axis.
fn conv_places(l: i32, k: i32, stride: usize, padding: usize, dilation: usize) -> (r: i32)
    requires
        l >= 0,
        conv_axis_fits(l as int, k as int, stride as int, padding as int, dilation as int),
    ensures
        r == conv_extent(l as int, k as int, stride as int, padding as int, dilation as int),
        r >= 1,
{
    let ghost reach = dilation * (k - 1);
    proof {
        assert(reach >= 0) by (nonlinear_arith)
            requires
                reach == dilation * (k - 1),
                k >= 1,
        ;
    }
    let span: i64 = dilation as i64 * (k as i64 - 1);
    let free: i64 = l as i64 + 2 * padding as i64 - span - 1;
    proof {
        lemma_div_pos_is_pos(free as int, stride as int);
        lemma_div_nonincreasing(free as int, stride as int);
    }
    (free / stride as i64 + 1) as i32
}

/// Adding a bias of one value per channel.
fn add_bias(y: &Array, bias: &Array) -> (r: Array)
    requires
        y.wf(),
        bias.wf(),
        3 <= y.dims().len() <= 4,
        bias.dims() == seq![y.dims()[1]],
    ensures
        r.wf(),
        r.dims() == y.dims(),
        forall|m: Model|
            #[trigger] r.value(m) == tabulate(
                y.dims(),
                |i: Seq<int>|
                    binary(m, BinaryOp::Add, y.value(m).at(i), bias.value(m).at(seq![i[1]])),
            ),
{
    let ghost s = y.dims();
    let channels: i32 = bias.shape()[0];
    let mut shape: Vec<i32> = vec![1, channels];
    let rank: usize = y.shape().len();
    for k in 2..rank
        invariant
            3 <= rank <= 4,
            shape@.len() == k,
            shape@[0] == 1,
            shape@[1] == channels,
            k >= 3 ==> shape@[2] == 1,
            k >= 4 ==> shape@[3] == 1,
    {
        shape.push(1);
    }
    let ghost u = ints(shape@);
    proof {
        assert(channels == s[1]) by {
            assert(bias.dims()[0] == channels);
        }
        assert(s[1] >= 0);
        lemma_rank1(bias.dims(), seq![0]);
        if rank == 3 {
            assert(u == seq![1, s[1], 1]);
            lemma_rank3(u, seq![0, 0, 0]);
        } else {
            assert(u == seq![1, s[1], 1, 1]);
            lemma_rank4(u, seq![0, 0, 0, 0]);
        }
        lemma_mul_basics(s[1]);
        assert(broadcasts_to(u, s));
        lemma_absorb(u, s);
    }
    let b = bias.reshape(shape.as_slice());
    let r = y.binary(BinaryOp::Add, &b);
    proof {
        assert forall|m: Model|
            #[trigger] r.value(m) == tabulate(
                s,
                |i: Seq<int>|
                    binary(m, BinaryOp::Add, y.value(m).at(i), bias.value(m).at(seq![i[1]])),
            ) by {
            let (yv, bv, cv) = (y.value(m), bias.value(m), b.value(m));
            let f = |i: Seq<int>| binary(m, BinaryOp::Add, yv.at(i), bv.at(seq![i[1]]));
            lemma_size_nonneg(s);
            assert forall|i: Seq<int>| in_bounds(s, i) implies #[trigger] r.value(m).at(i)
                == tabulate(s, f).at(i) by {
                lemma_tabulate(s, f, i);
                lemma_tabulate(
                    s,
                    |i: Seq<int>|
                        binary(
                            m,
                            BinaryOp::Add,
                            yv.at(broadcast_index(yv.shape, i)),
                            cv.at(broadcast_index(cv.shape, i)),
                        ),
                    i,
                );
                lemma_broadcast_index_same(s, i);
                let j = broadcast_index(u, i);
                assert(0 <= i[1] < s[1]);
                assert(j[1] == i[1]);
                lemma_rank1(bv.shape, seq![i[1]]);
                if rank == 3 {
                    lemma_rank3(u, j);
                } else {
                    lemma_rank4(u, j);
                }
                lemma_mul_basics(s[1]);
                lemma_mul_basics(i[1]);
            }
            lemma_tensor_ext(r.value(m), tabulate(s, f));
        }
    }
    r
}

impl Mlx {
    /// One-dimensional convolution.
    pub fn conv1d(
        x: MlxTensorPrimitive,
        weight: MlxTensorPrimitive,
        bias: Option<MlxTensorPrimitive>,
        options: ConvOptions<1>,
    ) -> (r: MlxTensorPrimitive)
        requires
            x.wf(),
            weight.wf(),
            conv1d_fits(x.dims(), weight.dims(), options),
            bias_fits(bias, weight.dims()[0]),
        ensures
            r.wf(),
            forall|m: Model|
                #[trigger] r.value(m) == conv1d(
                    m,
                    x.value(m),
                    weight.value(m),
                    bias_value(bias, m),
                    options,
                ),
    {
        let ghost (s, ws) = (x.dims(), weight.dims());
        let ghost u = conv1d_inner_shape(s, ws, options);
        let ghost v = seq![u[0], u[2], u[1]];
        let axes: Vec<i32> = vec![0, 2, 1];
        proof {
            assert(ints(axes@) == swap_last());
            assert(s[0] >= 0 && s[2] >= 0 && ws[0] >= 0 && ws[2] >= 0);
        }
        let x_t = x.array.transpose_axes(axes.as_slice());
        let w_t = weight.array.transpose_axes(axes.as_slice());
        let xs = x.array.shape();
        let wsh = weight.array.shape();
        proof {
            assert(s[0] == xs@[0] && s[2] == xs@[2] && ws[0] == wsh@[0] && ws[2] == wsh@[2]);
        }
        let out = conv_places(
            xs[2],
            wsh[2],
            options.stride[0],
            options.padding[0],
            options.dilation[0],
        );
        let shape: Vec<i32> = vec![xs[0], out, wsh[0]];
        proof {
            assert(ints(shape@) == u);
        }
        let op = Kernel::Conv1d {
            stride: options.stride[0] as i32,
            padding: options.padding[0] as i32,
            dilation: options.dilation[0] as i32,
            groups: options.groups as i32,
        };
        let operands = [&x_t, &w_t];
        let result = Array::kernel(op, operands.as_slice(), shape);
        proof {
            assert(permuted(u, swap_last()) == v);
        }
        let output = result.transpose_axes(axes.as_slice());
        let ghost bare = output;
        proof {
            assert forall|m: Model, i: Seq<int>| in_bounds(v, i) implies #[trigger] bare.value(m).at(
                i,
            ) == (m.convolve)(
                covered1d(x.value(m), ws, options, i),
                filter1d(weight.value(m), i[1]),
            ) by {
                let args = seq![x_t.value(m), w_t.value(m)];
                assert(values(operands@, m) == args);
                assert(0 <= i[0] < v[0] && 0 <= i[1] < v[1] && 0 <= i[2] < v[2]);
                lemma_swap_last(result.value(m), i);
                lemma_tabulate(
                    u,
                    |i: Seq<int>|
                        conv1d_at(
                            m,
                            args[0],
                            args[1],
                            (options.stride[0] as i32) as int,
                            (options.padding[0] as i32) as int,
                            (options.dilation[0] as i32) as int,
                            (options.groups as i32) as int,
                            i,
                        ),
                    seq![i[0], i[2], i[1]],
                );
                lemma_conv1d_at(m, x.value(m), weight.value(m), options, i);
            }
        }
        let output = match &bias {
            Some(b) => add_bias(&output, &b.array),
            None => output,
        };
        proof {
            assert forall|m: Model|
                #[trigger] output.value(m) == conv1d(
                    m,
                    x.value(m),
                    weight.value(m),
                    bias_value(bias, m),
                    options,
                ) by {
                let spec = conv1d(m, x.value(m), weight.value(m), bias_value(bias, m), options);
                lemma_size_nonneg(v);
                assert forall|i: Seq<int>| in_bounds(v, i) implies #[trigger] output.value(m).at(i)
                    == spec.at(i) by {
                    lemma_tabulate(
                        v,
                        |i: Seq<int>|
                            biased(
                                m,
                                (m.convolve)(
                                    covered1d(x.value(m), ws, options, i),
                                    filter1d(weight.value(m), i[1]),
                                ),
                                bias_value(bias, m),
                                i[1],
                            ),
                        i,
                    );
                    if let Some(b) = bias {
                        lemma_tabulate(
                            v,
                            |i: Seq<int>|
                                binary(
                                    m,
                                    BinaryOp::Add,
                                    bare.value(m).at(i),
                                    b.array.value(m).at(seq![i[1]]),
                                ),
                            i,
                        );
                    }
                    assert(bare.value(m).at(i) == (m.convolve)(
                        covered1d(x.value(m), ws, options, i),
                        filter1d(weight.value(m), i[1]),
                    ));
                }
                lemma_tensor_ext(output.value(m), spec);
            }
        }
        MlxTensorPrimitive::new(output)
    }

    /// Two-dimensional convolution.
    pub fn conv2d(
        x: MlxTensorPrimitive,
        weight: MlxTensorPrimitive,
        bias: Option<MlxTensorPrimitive>,
        options: ConvOptions<2>,
    ) -> (r: MlxTensorPrimitive)
        requires
            x.wf(),
            weight.wf(),
            conv2d_fits(x.dims(), weight.dims(), options),
            bias_fits(bias, weight.dims()[0]),
        ensures
            r.wf(),
            forall|m: Model|
                #[trigger] r.value(m) == conv2d(
                    m,
                    x.value(m),
                    weight.value(m),
                    bias_value(bias, m),
                    options,
                ),
    {
        let ghost (s, ws) = (x.dims(), weight.dims());
        let ghost u = conv2d_inner_shape(s, ws, options);
        let ghost v = seq![u[0], u[3], u[1], u[2]];
        let axes: Vec<i32> = vec![0, 2, 3, 1];
        proof {
            assert(ints(axes@) == channels_last());
            assert(s[0] >= 0 && s[2] >= 0 && s[3] >= 0);
            assert(ws[0] >= 0 && ws[2] >= 0 && ws[3] >= 0);
        }
        let x_t = x.array.transpose_axes(axes.as_slice());
        let w_t = weight.array.transpose_axes(axes.as_slice());
        let xs = x.array.shape();
        let wsh = weight.array.shape();
        proof {
            assert(s[0] == xs@[0] && s[2] == xs@[2] && s[3] == xs@[3]);
            assert(ws[0] == wsh@[0] && ws[2] == wsh@[2] && ws[3] == wsh@[3]);
        }
        let out_h = conv_places(
            xs[2],
            wsh[2],
            options.stride[0],
            options.padding[0],
            options.dilation[0],
        );
        let out_w = conv_places(
            xs[3],
            wsh[3],
            options.stride[1],
            options.padding[1],
            options.dilation[1],
        );
        let shape: Vec<i32> = vec![xs[0], out_h, out_w, wsh[0]];
        proof {
            assert(ints(shape@) == u);
        }
        let op = Kernel::Conv2d {
            stride: (options.stride[0] as i32, options.stride[1] as i32),
            padding: (options.padding[0] as i32, options.padding[1] as i32),
            dilation: (options.dilation[0] as i32, options.dilation[1] as i32),
            groups: options.groups as i32,
        };
        let operands = [&x_t, &w_t];
        let result = Array::kernel(op, operands.as_slice(), shape);
        let back: Vec<i32> = vec![0, 3, 1, 2];
        proof {
            assert(ints(back@) == channels_first());
            assert(permuted(u, channels_first()) == v);
        }
        let output = result.transpose_axes(back.as_slice());
        let ghost bare = output;
        proof {
            assert forall|m: Model, i: Seq<int>| in_bounds(v, i) implies #[trigger] bare.value(m).at(
                i,
            ) == (m.convolve)(
                covered2d(x.value(m), ws, options, i),
                filter2d(weight.value(m), i[1]),
            ) by {
                let args = seq![x_t.value(m), w_t.value(m)];
                assert(values(operands@, m) == args);
                assert(0 <= i[0] < v[0] && 0 <= i[1] < v[1] && 0 <= i[2] < v[2] && 0 <= i[3] < v[3]);
                lemma_channels_first(result.value(m), i);
                lemma_tabulate(
                    u,
                    |i: Seq<int>|
                        conv2d_at(
                            m,
                            args[0],
                            args[1],
                            (
                                (options.stride[0] as i32) as int,
                                (options.stride[1] as i32) as int,
                            ),
                            (
                                (options.padding[0] as i32) as int,
                                (options.padding[1] as i32) as int,
                            ),
                            (
                                (options.dilation[0] as i32) as int,
                                (options.dilation[1] as i32) as int,
                            ),
                            (options.groups as i32) as int,
                            i,
                        ),
                    seq![i[0], i[2], i[3], i[1]],
                );
                lemma_conv2d_at(m, x.value(m), weight.value(m), options, i);
            }
        }
        let output = match &bias {
            Some(b) => add_bias(&output, &b.array),
            None => output,
        };
        proof {
            assert forall|m: Model|
                #[trigger] output.value(m) == conv2d(
                    m,
                    x.value(m),
                    weight.value(m),
                    bias_value(bias, m),
                    options,
                ) by {
                let spec = conv2d(m, x.value(m), weight.value(m), bias_value(bias, m), options);
                lemma_size_nonneg(v);
                assert forall|i: Seq<int>| in_bounds(v, i) implies #[trigger] output.value(m).at(i)
                    == spec.at(i) by {
                    lemma_tabulate(
                        v,
                        |i: Seq<int>|
                            biased(
                                m,
                                (m.convolve)(
                                    covered2d(x.value(m), ws, options, i),
                                    filter2d(weight.value(m), i[1]),
                                ),
                                bias_value(bias, m),
                                i[1],
                            ),
                        i,
                    );
                    if let Some(b) = bias {
                        lemma_tabulate(
                            v,
                            |i: Seq<int>|
                                binary(
                                    m,
                                    BinaryOp::Add,
                                    bare.value(m).at(i),
                                    b.array.value(m).at(seq![i[1]]),
                                ),
                            i,
                        );
                    }
                    assert(bare.value(m).at(i) == (m.convolve)(
                        covered2d(x.value(m), ws, options, i),
                        filter2d(weight.value(m), i[1]),
                    ));
                }
                lemma_tensor_ext(output.value(m), spec);
            }
        }
        MlxTensorPrimitive::new(output)
    }

    /// Three-dimensional convolution is not computed: the input comes back.
    pub fn conv3d(
        x: MlxTensorPrimitive,
        _weight: MlxTensorPrimitive,
        _bias: Option<MlxTensorPrimitive>,
        _options: ConvOptions<3>,
    ) -> (r: MlxTensorPrimitive)
        ensures
            r == x,
    {
        x
    }

    /// Transposed convolution is not computed: the input comes back.
    pub fn conv_transpose1d(
        x: MlxTensorPrimitive,
        _weight: MlxTensorPrimitive,
        _bias: Option<MlxTensorPrimitive>,
        _options: ConvTransposeOptions<1>,
    ) -> (r: MlxTensorPrimitive)
        ensures
            r == x,
    {
        x
    }

    /// Transposed convolution is not computed: the input comes back.
    pub fn conv_transpose2d(
        x: MlxTensorPrimitive,
        _weight: MlxTensorPrimitive,
        _bias: Option<MlxTensorPrimitive>,
        _options: ConvTransposeOptions<2>,
    ) -> (r: MlxTensorPrimitive)
        ensures
            r == x,
    {
        x
    }

    /// Transposed convolution is not computed: the input comes back.
    pub fn conv_transpose3d(
        x: MlxTensorPrimitive,
        _weight: MlxTensorPrimitive,
        _bias: Option<MlxTensorPrimitive>,
        _options: ConvTransposeOptions<3>,
    ) -> (r: MlxTensorPrimitive)
        ensures
            r == x,
    {
        x
    }

    /// Deformable convolution is not computed: a single zero takes its place.
    pub fn deform_conv2d(
        _x: MlxTensorPrimitive,
        _offset: MlxTensorPrimitive,
        _weight: MlxTensorPrimitive,
        _mask: Option<MlxTensorPrimitive>,
        _bias: Option<MlxTensorPrimitive>,
        _options: DeformConvOptions<2>,
    ) -> (r: MlxTensorPrimitive)
        ensures
            single_zero(r),
    {
        zero_placeholder()
    }

    /// The gradients of a deformable convolution are single zeros.
    pub fn deform_conv2d_backward(
        _x: MlxTensorPrimitive,
        _offset: MlxTensorPrimitive,
        _weight: MlxTensorPrimitive,
        _mask: Option<MlxTensorPrimitive>,
        _bias: Option<MlxTensorPrimitive>,
        _out_grad: MlxTensorPrimitive,
        _options: DeformConvOptions<2>,
    ) -> (r: DeformConv2dBackward)
        ensures
            single_zero(r.x_grad),
            single_zero(r.offset_grad),
            single_zero(r.weight_grad),
            r.mask_grad matches Some(g) && single_zero(g),
            r.bias_grad matches Some(g) && single_zero(g),
    {
        DeformConv2dBackward {
            x_grad: zero_placeholder(),
            offset_grad: zero_placeholder(),
            weight_grad: zero_placeholder(),
            mask_grad: Some(zero_placeholder()),
            bias_grad: Some(zero_placeholder()),
        }
    }
}

/// A tensor of shape `[1, 1, 1, 1]` that holds zero.
pub open spec fn single_zero(t: MlxTensorPrimitive) -> bool {
    &&& t.wf()
    &&& t.dims() == seq![1int, 1, 1, 1]
    &&& forall|m: Model|
        #[trigger] t.value(m) == constant_tensor(seq![1int, 1, 1, 1], (m.constant)(Const::Zero))
}

fn zero_placeholder() -> (r: MlxTensorPrimitive)
    ensures
        single_zero(r),
{
    let shape: [i32; 4] = [1, 1, 1, 1];
    proof {
        assert(ints(shape@) == seq![1int, 1, 1, 1]);
    }
    MlxTensorPrimitive::new(Array::zeros(shape.as_slice()))
}

} // verus!
