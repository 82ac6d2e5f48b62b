//! Laws of pooling and its gradients.
use crate::exact::{
    all_floats, computes_exactly, inner_product, lemma_gathered_total, lemma_total_ext,
    lemma_total_one, lemma_total_paired, lemma_total_scale, lemma_total_swap, sum_of, total,
};
use crate::index::{
    in_bounds, is_shape, lemma_ravel_bound, lemma_ravel_unravel, lemma_size_nonneg,
    lemma_unravel2, lemma_unravel_ravel, ravel, size, unravel,
};
use crate::laws::{
    all_finite, finite_or_least, in_window, law_avg_pool_gradient, law_max_pool_gradient,
    law_winner_in_window, winner,
};
use crate::op::{BinaryOp, Const, ReduceOp};
use crate::pool::{axis_fits, lemma_window_entry, window_count};
use crate::pool_grad::{avg_pool2d_grad, max_pool2d_grad, nchw, padded_position};
use crate::pooling::{
    padded2d, padded_planes_shape, padded_window2d, pool2d, pool2d_positions, pool2d_shape,
    pooling2d_fits,
};
use crate::tensor::{Elem, Model, Tensor, argmax, binary, lemma_tabulate, reduce, row};
use vstd::arithmetic::div_mod::*;
use vstd::arithmetic::mul::*;
use vstd::prelude::*;

verus! {

/// Of finite numbers and minus infinity, the largest is the one at the position of the
/// largest, and is minus infinity only where there is nothing else.
pub open spec fn takes_largest(m: Model, finite: spec_fn(Elem) -> bool) -> bool {
    let least = (m.constant)(Const::NegInfinity);
    &&& forall|s: Seq<Elem>|
        s.len() > 0 && finite_or_least(m, s, finite) ==> #[trigger] reduce(m, ReduceOp::Max, s)
            == s[argmax(m, s)]
    &&& forall|s: Seq<Elem>, k: int|
        0 <= k < s.len() && finite_or_least(m, s, finite) && #[trigger] s[k] != least
            ==> s[argmax(m, s)] != least
}

/// No element is minus infinity.
pub open spec fn above_least(m: Model, t: Tensor) -> bool {
    forall|i: Seq<int>|
        in_bounds(t.shape, i) ==> #[trigger] t.at(i) != (m.constant)(Const::NegInfinity)
}

/// The padding is narrower than the window, and there is something to pad.
pub open spec fn windows_touch(s: Seq<int>, kernel: (int, int), padding: (int, int)) -> bool {
    &&& padding.0 < kernel.0
    &&& padding.1 < kernel.1
    &&& s[2] > 0
    &&& s[3] > 0
}

/// The entry of an `[N, C, H, W]` tensor that window `i` takes its largest value from.
pub open spec fn source(
    m: Model,
    t: Tensor,
    kernel: (int, int),
    stride: (int, int),
    padding: (int, int),
    i: Seq<int>,
) -> Seq<int> {
    let (y, x) = winner(m, t, kernel, stride, padding, i);
    seq![i[0], i[1], y - padding.0, x - padding.1]
}

/// A window has an offset at which it meets the axis itself.
proof fn lemma_touch(extent: int, kernel: int, stride: int, padding: int, o: int) -> (a: int)
    requires
        0 <= padding < kernel,
        extent > 0,
        axis_fits(extent + 2 * padding, kernel, stride),
        0 <= o < window_count(extent + 2 * padding, kernel, stride),
    ensures
        0 <= a < kernel,
        0 <= o * stride + a - padding < extent,
{
    lemma_window_entry(extent + 2 * padding, kernel, stride, o, kernel - 1);
    lemma_window_entry(extent + 2 * padding, kernel, stride, o, 0);
    let start = o * stride;
    if start >= padding {
        0
    } else {
        padding - start
    }
}

/// The recorded position holds the maximum: it is the position of an entry of the tensor,
/// never of padding, and that entry equals the output.
pub proof fn law_recorded_position_holds_the_maximum(
    m: Model,
    finite: spec_fn(Elem) -> bool,
    t: Tensor,
    kernel: (int, int),
    stride: (int, int),
    padding: (int, int),
    i: Seq<int>,
)
    requires
        t.wf(),
        pooling2d_fits(t.shape, kernel, stride, padding),
        windows_touch(t.shape, kernel, padding),
        takes_largest(m, finite),
        all_finite(t, finite),
        above_least(m, t),
        in_bounds(pool2d_shape(t.shape, kernel, stride, padding), i),
    ensures
        in_bounds(t.shape, source(m, t, kernel, stride, padding, i)),
        t.at(source(m, t, kernel, stride, padding, i)) == pool2d(
            m,
            ReduceOp::Max,
            t,
            kernel,
            stride,
            padding,
            (m.constant)(Const::NegInfinity),
        ).at(i),
        pool2d_positions(m, t, kernel, stride, padding).at(i) == Elem::Int(
            padded_position(t.shape, padding, source(m, t, kernel, stride, padding, i)),
        ),
{
    let s = t.shape;
    let u = pool2d_shape(s, kernel, stride, padding);
    let v = (m.constant)(Const::NegInfinity);
    let window = padded_window2d(t, kernel, stride, padding, v, i);
    assert(0 <= i[0] < u[0] && 0 <= i[1] < u[1] && 0 <= i[2] < u[2] && 0 <= i[3] < u[3]);
    let a = lemma_touch(s[2], kernel.0, stride.0, padding.0, i[2]);
    let b = lemma_touch(s[3], kernel.1, stride.1, padding.1, i[3]);
    let q = a * kernel.1 + b;
    lemma_fundamental_div_mod_converse(q, kernel.1, a, b);
    assert(0 <= q < kernel.0 * kernel.1) by (nonlinear_arith)
        requires
            q == a * kernel.1 + b,
            0 <= a < kernel.0,
            0 <= b < kernel.1,
    ;
    let e = seq![
        i[0],
        i[1],
        i[2] * stride.0 + a - padding.0,
        i[3] * stride.1 + b - padding.1,
    ];
    assert(in_bounds(s, e));
    assert(window[q] == t.at(e));
    assert(finite_or_least(m, window, finite)) by {
        assert forall|q: int| 0 <= q < window.len() implies finite(#[trigger] window[q])
            || window[q] == v by {
            let y = i[2] * stride.0 + q / kernel.1 - padding.0;
            let x = i[3] * stride.1 + q % kernel.1 - padding.1;
            let e = seq![i[0], i[1], y, x];
            assert(window[q] == padded2d(t, v, i[0], i[1], y, x));
            if 0 <= y < s[2] && 0 <= x < s[3] {
                assert(in_bounds(s, e));
                assert(finite(t.at(e)));
            }
        }
    }
    let w = argmax(m, window);
    assert(window[w] != v);
    law_winner_in_window(m, t, kernel, stride, padding, i);
    lemma_mod_bound((m.argmax)(window), window.len() as int);
    let from = source(m, t, kernel, stride, padding, i);
    assert(window[w] == padded2d(t, v, i[0], i[1], from[2], from[3]));
    assert(in_bounds(s, from));
    lemma_tabulate(
        u,
        |i: Seq<int>|
            reduce(m, ReduceOp::Max, padded_window2d(t, kernel, stride, padding, v, i)),
        i,
    );
    lemma_tabulate(
        u,
        |i: Seq<int>|
            {
                let v = (m.constant)(Const::NegInfinity);
                let a = argmax(m, padded_window2d(t, kernel, stride, padding, v, i));
                Elem::Int(
                    ravel(
                        padded_planes_shape(t.shape, padding),
                        seq![
                            i[0],
                            i[2] * stride.0 + a / kernel.1,
                            i[3] * stride.1 + a % kernel.1,
                            i[1],
                        ],
                    ),
                )
            },
        i,
    );
    let (y, x) = winner(m, t, kernel, stride, padding, i);
    assert(seq![i[0], y, x, i[1]] == seq![
        from[0],
        from[2] + padding.0,
        from[3] + padding.1,
        from[1],
    ]);
}

/// A channels-first index as a channels-last one.
pub open spec fn nhwc(o: Seq<int>) -> Seq<int> {
    seq![o[0], o[2], o[3], o[1]]
}

/// A sum over the indices of a shape does not depend on where the channels stand.
pub proof fn lemma_reordered_total(g: Seq<int>, f: spec_fn(Seq<int>) -> real)
    requires
        is_shape(g),
        g.len() == 4,
    ensures
        total(size(nhwc(g)), |q: int| f(nchw(unravel(nhwc(g), q)))) == total(
            size(g),
            |r: int| f(unravel(g, r)),
        ),
{
    let l = nhwc(g);
    let a = |q: int| f(nchw(unravel(l, q)));
    let b = |r: int| f(unravel(g, r));
    let mate = |q: int, r: int| nchw(unravel(l, q)) == unravel(g, r);
    assert(g[0] >= 0 && g[1] >= 0 && g[2] >= 0 && g[3] >= 0);
    assert forall|q: int| 0 <= q < size(l) && #[trigger] a(q) != 0 as real implies exists|r: int|
        0 <= r < size(g) && #[trigger] mate(q, r) by {
        lemma_ravel_unravel(l, q);
        let j = unravel(l, q);
        assert(0 <= j[0] < l[0] && 0 <= j[1] < l[1] && 0 <= j[2] < l[2] && 0 <= j[3] < l[3]);
        let o = nchw(j);
        assert(in_bounds(g, o));
        lemma_ravel_bound(g, o);
        lemma_unravel_ravel(g, o);
        assert(mate(q, ravel(g, o)));
    }
    assert forall|r: int| 0 <= r < size(g) && #[trigger] b(r) != 0 as real implies exists|q: int|
        0 <= q < size(l) && #[trigger] mate(q, r) by {
        lemma_ravel_unravel(g, r);
        let o = unravel(g, r);
        assert(0 <= o[0] < g[0] && 0 <= o[1] < g[1] && 0 <= o[2] < g[2] && 0 <= o[3] < g[3]);
        let j = nhwc(o);
        assert(in_bounds(l, j));
        lemma_ravel_bound(l, j);
        lemma_unravel_ravel(l, j);
        assert(nchw(j) == o);
        assert(mate(ravel(l, j), r));
    }
    assert forall|p: int, q: int, r: int|
        0 <= p < size(l) && 0 <= q < size(g) && 0 <= r < size(g) && #[trigger] mate(p, q)
            && #[trigger] mate(p, r) implies q == r by {
        lemma_ravel_unravel(g, q);
        lemma_ravel_unravel(g, r);
    }
    assert forall|p: int, q: int, r: int|
        0 <= p < size(l) && 0 <= r < size(l) && 0 <= q < size(g) && #[trigger] mate(p, q)
            && #[trigger] mate(r, q) implies p == r by {
        lemma_ravel_unravel(l, p);
        lemma_ravel_unravel(l, r);
        let (x, y) = (unravel(l, p), unravel(l, r));
        let (ox, oy) = (nchw(x), nchw(y));
        assert(ox[0] == oy[0] && ox[1] == oy[1] && ox[2] == oy[2] && ox[3] == oy[3]);
        assert(x == y);
    }
    lemma_total_paired(size(l), size(g), a, b, mate);
}

/// The gradient of max pooling, with every entry given a weight: each output gradient counts
/// with the weight of the entry that it goes to.
proof fn lemma_routed(
    m: Model,
    finite: spec_fn(Elem) -> bool,
    val: spec_fn(Elem) -> real,
    t: Tensor,
    kernel: (int, int),
    stride: (int, int),
    padding: (int, int),
    grad: Tensor,
    weight: spec_fn(Seq<int>) -> real,
)
    requires
        t.wf(),
        pooling2d_fits(t.shape, kernel, stride, padding),
        windows_touch(t.shape, kernel, padding),
        takes_largest(m, finite),
        all_finite(t, finite),
        above_least(m, t),
        computes_exactly(m, val),
        grad.wf(),
        grad.shape == pool2d_shape(t.shape, kernel, stride, padding),
        all_floats(grad.data),
    ensures
        total(
            size(t.shape),
            |p: int|
                weight(unravel(t.shape, p)) * val(
                    max_pool2d_grad(
                        m,
                        t.shape,
                        padding,
                        grad,
                        pool2d_positions(m, t, kernel, stride, padding),
                    ).data[p],
                ),
        ) == total(
            size(grad.shape),
            |r: int|
                weight(source(m, t, kernel, stride, padding, unravel(grad.shape, r))) * val(
                    grad.data[r],
                ),
        ),
{
    let s = t.shape;
    let g = grad.shape;
    let l = nhwc(g);
    let back = max_pool2d_grad(
        m,
        s,
        padding,
        grad,
        pool2d_positions(m, t, kernel, stride, padding),
    );
    assert(g[0] >= 0 && g[1] >= 0 && g[2] >= 0 && g[3] >= 0);
    let won = |i: Seq<int>, j: Seq<int>|
        {
            &&& j[0] == i[0]
            &&& j[3] == i[1]
            &&& winner(m, t, kernel, stride, padding, nchw(j)) == (i[2] + padding.0, i[3] + padding.1)
        };
    let get = |j: Seq<int>| grad.at(nchw(j));
    let share = |q: int| val(get(unravel(l, q)));
    assert forall|j: Seq<int>| in_bounds(l, j) implies (#[trigger] get(j)) is Float && in_bounds(
        g,
        nchw(j),
    ) by {
        assert(0 <= j[0] < l[0] && 0 <= j[1] < l[1] && 0 <= j[2] < l[2] && 0 <= j[3] < l[3]);
        assert(in_bounds(g, nchw(j)));
        lemma_ravel_bound(g, nchw(j));
    }
    let w = |p: int, q: int|
        if won(unravel(s, p), unravel(l, q)) {
            weight(unravel(s, p)) * share(q)
        } else {
            0 as real
        };
    let left = |p: int| weight(unravel(s, p)) * val(back.data[p]);
    let rows = |p: int| total(size(l), |q: int| w(p, q));
    assert forall|p: int| 0 <= p < size(s) implies #[trigger] left(p) == rows(p) by {
        let i = unravel(s, p);
        lemma_ravel_unravel(s, p);
        law_max_pool_gradient(m, t, kernel, stride, padding, grad, i);
        let keep = |j: Seq<int>|
            {
                &&& j[0] == i[0]
                &&& j[3] == i[1]
                &&& winner(m, t, kernel, stride, padding, nchw(j)) == (
                    i[2] + padding.0,
                    i[3] + padding.1,
                )
            };
        lemma_gathered_total(m, val, l, keep, get);
        let f = |q: int|
            if keep(unravel(l, q)) {
                val(get(unravel(l, q)))
            } else {
                0 as real
            };
        lemma_total_scale(size(l), f, weight(i));
        let scaled = |q: int| weight(i) * f(q);
        let row = |q: int| w(p, q);
        assert forall|q: int| 0 <= q < size(l) implies #[trigger] scaled(q) == row(q) by {
            let x = weight(i);
            assert(x * (0 as real) == 0 as real) by (nonlinear_arith);
        }
        lemma_total_ext(size(l), scaled, row);
        assert(back.at(i) == back.data[p]);
    }
    lemma_total_ext(size(s), left, rows);
    lemma_total_swap(size(s), size(l), w);
    let columns = |q: int| total(size(s), |p: int| w(p, q));
    let f = |o: Seq<int>| weight(source(m, t, kernel, stride, padding, o)) * val(grad.at(o));
    let right = |q: int| f(nchw(unravel(l, q)));
    assert forall|q: int| 0 <= q < size(l) implies #[trigger] columns(q) == right(q) by {
        let j = unravel(l, q);
        lemma_ravel_unravel(l, q);
        assert(get(j) is Float);
        let o = nchw(j);
        law_recorded_position_holds_the_maximum(m, finite, t, kernel, stride, padding, o);
        let from = source(m, t, kernel, stride, padding, o);
        let at = ravel(s, from);
        lemma_ravel_bound(s, from);
        lemma_unravel_ravel(s, from);
        let column = |p: int| w(p, q);
        assert forall|p: int| 0 <= p < size(s) && p != at implies #[trigger] column(p)
            == 0 as real by {
            lemma_ravel_unravel(s, p);
            let i = unravel(s, p);
            if won(i, j) {
                assert(i == from);
            }
        }
        lemma_total_one(size(s), column, at);
        assert(won(from, j));
    }
    lemma_total_ext(size(l), columns, right);
    lemma_reordered_total(g, f);
    let by_position = |r: int|
        weight(source(m, t, kernel, stride, padding, unravel(g, r))) * val(grad.data[r]);
    let by_index = |r: int| f(unravel(g, r));
    assert forall|r: int| 0 <= r < size(g) implies #[trigger] by_index(r) == by_position(r) by {
        lemma_ravel_unravel(g, r);
    }
    lemma_total_ext(size(g), by_index, by_position);
}

/// Nothing of the gradient of max pooling is lost: the gradient of the input has the sum of
/// the gradient of the output, and weighed by the input the sum of the latter weighed by the
/// output.
pub proof fn law_max_pool_conserves(
    m: Model,
    finite: spec_fn(Elem) -> bool,
    val: spec_fn(Elem) -> real,
    t: Tensor,
    kernel: (int, int),
    stride: (int, int),
    padding: (int, int),
    grad: Tensor,
)
    requires
        t.wf(),
        pooling2d_fits(t.shape, kernel, stride, padding),
        windows_touch(t.shape, kernel, padding),
        takes_largest(m, finite),
        all_finite(t, finite),
        above_least(m, t),
        computes_exactly(m, val),
        grad.wf(),
        grad.shape == pool2d_shape(t.shape, kernel, stride, padding),
        all_floats(grad.data),
    ensures
        sum_of(
            max_pool2d_grad(
                m,
                t.shape,
                padding,
                grad,
                pool2d_positions(m, t, kernel, stride, padding),
            ).data,
            val,
        ) == sum_of(grad.data, val),
        inner_product(
            max_pool2d_grad(
                m,
                t.shape,
                padding,
                grad,
                pool2d_positions(m, t, kernel, stride, padding),
            ).data,
            t.data,
            val,
        ) == inner_product(
            grad.data,
            pool2d(
                m,
                ReduceOp::Max,
                t,
                kernel,
                stride,
                padding,
                (m.constant)(Const::NegInfinity),
            ).data,
            val,
        ),
{
    let s = t.shape;
    let g = grad.shape;
    let back = max_pool2d_grad(
        m,
        s,
        padding,
        grad,
        pool2d_positions(m, t, kernel, stride, padding),
    );
    let out = pool2d(
        m,
        ReduceOp::Max,
        t,
        kernel,
        stride,
        padding,
        (m.constant)(Const::NegInfinity),
    );
    lemma_size_nonneg(s);
    lemma_size_nonneg(g);
    let one = |i: Seq<int>| 1 as real;
    lemma_routed(m, finite, val, t, kernel, stride, padding, grad, one);
    let a1 = |p: int| one(unravel(s, p)) * val(back.data[p]);
    let a2 = |p: int| val(back.data[p]);
    lemma_total_ext(size(s), a1, a2);
    let b1 = |r: int|
        one(source(m, t, kernel, stride, padding, unravel(g, r))) * val(grad.data[r]);
    let b2 = |r: int| val(grad.data[r]);
    lemma_total_ext(size(g), b1, b2);
    let here = |i: Seq<int>| val(t.at(i));
    lemma_routed(m, finite, val, t, kernel, stride, padding, grad, here);
    let c1 = |p: int| here(unravel(s, p)) * val(back.data[p]);
    let c2 = |p: int| val(back.data[p]) * val(t.data[p]);
    assert forall|p: int| 0 <= p < size(s) implies #[trigger] c1(p) == c2(p) by {
        lemma_ravel_unravel(s, p);
        let (x, y) = (val(t.data[p]), val(back.data[p]));
        assert(x * y == y * x) by (nonlinear_arith);
    }
    lemma_total_ext(size(s), c1, c2);
    let d1 = |r: int|
        here(source(m, t, kernel, stride, padding, unravel(g, r))) * val(grad.data[r]);
    let d2 = |r: int| val(grad.data[r]) * val(out.data[r]);
    assert forall|r: int| 0 <= r < size(g) implies #[trigger] d1(r) == d2(r) by {
        lemma_ravel_unravel(g, r);
        let o = unravel(g, r);
        law_recorded_position_holds_the_maximum(m, finite, t, kernel, stride, padding, o);
        let (x, y) = (val(out.data[r]), val(grad.data[r]));
        assert(x * y == y * x) by (nonlinear_arith);
    }
    lemma_total_ext(size(g), d1, d2);
}

/// The sum over a window is the sum over the entries of the tensor that lie in it.
proof fn lemma_window_sum(
    m: Model,
    val: spec_fn(Elem) -> real,
    t: Tensor,
    kernel: (int, int),
    stride: (int, int),
    padding: (int, int),
    o: Seq<int>,
)
    requires
        t.wf(),
        pooling2d_fits(t.shape, kernel, stride, padding),
        kernel.0 > 0,
        kernel.1 > 0,
        computes_exactly(m, val),
        in_bounds(pool2d_shape(t.shape, kernel, stride, padding), o),
    ensures
        sum_of(
            padded_window2d(t, kernel, stride, padding, (m.constant)(Const::Zero), o),
            val,
        ) == total(
            size(t.shape),
            |p: int|
                if in_window(kernel, stride, padding, unravel(t.shape, p), nhwc(o)) {
                    val(t.data[p])
                } else {
                    0 as real
                },
        ),
{
    let s = t.shape;
    let zero = (m.constant)(Const::Zero);
    let u = pool2d_shape(s, kernel, stride, padding);
    let window = padded_window2d(t, kernel, stride, padding, zero, o);
    let n = kernel.0 * kernel.1;
    assert(n > 0) by (nonlinear_arith)
        requires
            n == kernel.0 * kernel.1,
            kernel.0 > 0,
            kernel.1 > 0,
    ;
    assert(0 <= o[0] < u[0] && 0 <= o[1] < u[1]);
    let entry = |q: int|
        seq![
            o[0],
            o[1],
            o[2] * stride.0 + q / kernel.1 - padding.0,
            o[3] * stride.1 + q % kernel.1 - padding.1,
        ];
    let f = |q: int| val(window[q]);
    let h = |p: int|
        if in_window(kernel, stride, padding, unravel(s, p), nhwc(o)) {
            val(t.data[p])
        } else {
            0 as real
        };
    let mate = |q: int, p: int| unravel(s, p) == entry(q);
    assert forall|q: int, p: int| 0 <= q < n && 0 <= p < size(s) && #[trigger] mate(q, p) implies f(
        q,
    ) == h(p) by {
        lemma_ravel_unravel(s, p);
        lemma_unravel2(seq![kernel.0, kernel.1], q);
        let i = unravel(s, p);
        assert(i[0] == o[0] && i[1] == o[1]);
        assert(0 <= i[2] < s[2] && 0 <= i[3] < s[3]);
        assert(window[q] == t.at(i)) by {
            assert(seq![o[0], o[1], i[2], i[3]] == i);
        }
    }
    assert forall|q: int, p: int, r: int|
        0 <= q < n && 0 <= p < size(s) && 0 <= r < size(s) && #[trigger] mate(q, p)
            && #[trigger] mate(q, r) implies p == r by {
        lemma_ravel_unravel(s, p);
        lemma_ravel_unravel(s, r);
    }
    assert forall|q: int, p: int, r: int|
        0 <= q < n && 0 <= r < n && 0 <= p < size(s) && #[trigger] mate(q, p)
            && #[trigger] mate(r, p) implies q == r by {
        let (x, y) = (entry(q), entry(r));
        assert(x[2] == y[2] && x[3] == y[3]);
        lemma_fundamental_div_mod(q, kernel.1);
        lemma_fundamental_div_mod(r, kernel.1);
    }
    assert forall|q: int| 0 <= q < n && #[trigger] f(q) != 0 as real implies exists|p: int|
        0 <= p < size(s) && #[trigger] mate(q, p) by {
        let e = entry(q);
        assert(in_bounds(s, e));
        lemma_ravel_bound(s, e);
        lemma_unravel_ravel(s, e);
        assert(mate(q, ravel(s, e)));
    }
    assert forall|p: int| 0 <= p < size(s) && #[trigger] h(p) != 0 as real implies exists|q: int|
        0 <= q < n && #[trigger] mate(q, p) by {
        lemma_ravel_unravel(s, p);
        let i = unravel(s, p);
        let (a, b) = (i[2] + padding.0 - o[2] * stride.0, i[3] + padding.1 - o[3] * stride.1);
        let q = a * kernel.1 + b;
        lemma_fundamental_div_mod_converse(q, kernel.1, a, b);
        assert(0 <= q < n) by (nonlinear_arith)
            requires
                n == kernel.0 * kernel.1,
                q == a * kernel.1 + b,
                0 <= a < kernel.0,
                0 <= b < kernel.1,
        ;
        assert(i == entry(q));
        assert(mate(q, p));
    }
    lemma_total_paired(n, size(s), f, h, mate);
}

/// The gradient of mean pooling is the adjoint of mean pooling: the products of outputs and
/// output gradients have the sum of the products of inputs and input gradients.
pub proof fn law_avg_pool_adjoint(
    m: Model,
    val: spec_fn(Elem) -> real,
    t: Tensor,
    kernel: (int, int),
    stride: (int, int),
    padding: (int, int),
    grad: Tensor,
)
    requires
        t.wf(),
        pooling2d_fits(t.shape, kernel, stride, padding),
        kernel.0 > 0,
        kernel.1 > 0,
        kernel.0 * kernel.1 <= usize::MAX,
        computes_exactly(m, val),
        all_floats(t.data),
        grad.wf(),
        grad.shape == pool2d_shape(t.shape, kernel, stride, padding),
        all_floats(grad.data),
    ensures
        inner_product(
            pool2d(
                m,
                ReduceOp::Mean,
                t,
                kernel,
                stride,
                padding,
                (m.constant)(Const::Zero),
            ).data,
            grad.data,
            val,
        ) == inner_product(
            t.data,
            avg_pool2d_grad(m, t.shape, kernel, stride, padding, grad).data,
            val,
        ),
{
    let s = t.shape;
    let g = grad.shape;
    let zero = (m.constant)(Const::Zero);
    let out = pool2d(m, ReduceOp::Mean, t, kernel, stride, padding, zero);
    let back = avg_pool2d_grad(m, s, kernel, stride, padding, grad);
    let n = kernel.0 * kernel.1;
    assert(n > 0) by (nonlinear_arith)
        requires
            n == kernel.0 * kernel.1,
            kernel.0 > 0,
            kernel.1 > 0,
    ;
    let part = (m.constant)(Const::Reciprocal(n as usize));
    let c = val(part);
    assert(c * ((n as usize) as real) == 1 as real);
    lemma_size_nonneg(s);
    lemma_size_nonneg(g);
    let inside = |p: int, r: int|
        in_window(kernel, stride, padding, unravel(s, p), nhwc(unravel(g, r)));
    let term = |p: int, r: int| c * (val(t.data[p]) * val(grad.data[r]));
    let w = |r: int, p: int|
        if inside(p, r) {
            term(p, r)
        } else {
            0 as real
        };
    let left = |r: int| val(out.data[r]) * val(grad.data[r]);
    let rows = |r: int| total(size(s), |p: int| w(r, p));
    assert forall|r: int| 0 <= r < size(g) implies #[trigger] left(r) == rows(r) by {
        lemma_output_row(m, val, t, kernel, stride, padding, grad, r);
        let row = |p: int| w(r, p);
        let given = |p: int|
            if in_window(kernel, stride, padding, unravel(s, p), nhwc(unravel(g, r))) {
                c * (val(t.data[p]) * val(grad.data[r]))
            } else {
                0 as real
            };
        lemma_total_ext(size(s), given, row);
    }
    lemma_total_ext(size(g), left, rows);
    lemma_total_swap(size(g), size(s), w);
    let columns = |p: int| total(size(g), |r: int| w(r, p));
    let right = |p: int| val(t.data[p]) * val(back.data[p]);
    assert forall|p: int| 0 <= p < size(s) implies #[trigger] columns(p) == right(p) by {
        lemma_input_column(m, val, t, kernel, stride, padding, grad, p);
        let column = |r: int| w(r, p);
        let given = |r: int|
            if in_window(kernel, stride, padding, unravel(s, p), nhwc(unravel(g, r))) {
                c * (val(t.data[p]) * val(grad.data[r]))
            } else {
                0 as real
            };
        lemma_total_ext(size(g), given, column);
    }
    lemma_total_ext(size(s), columns, right);
}

/// An output of mean pooling times its gradient.
proof fn lemma_output_row(
    m: Model,
    val: spec_fn(Elem) -> real,
    t: Tensor,
    kernel: (int, int),
    stride: (int, int),
    padding: (int, int),
    grad: Tensor,
    r: int,
)
    requires
        t.wf(),
        pooling2d_fits(t.shape, kernel, stride, padding),
        kernel.0 > 0,
        kernel.1 > 0,
        0 < kernel.0 * kernel.1 <= usize::MAX,
        computes_exactly(m, val),
        all_floats(t.data),
        grad.wf(),
        grad.shape == pool2d_shape(t.shape, kernel, stride, padding),
        0 <= r < size(grad.shape),
    ensures
        val(
            pool2d(
                m,
                ReduceOp::Mean,
                t,
                kernel,
                stride,
                padding,
                (m.constant)(Const::Zero),
            ).data[r],
        ) * val(grad.data[r]) == total(
            size(t.shape),
            |p: int|
                if in_window(
                    kernel,
                    stride,
                    padding,
                    unravel(t.shape, p),
                    nhwc(unravel(grad.shape, r)),
                ) {
                    val((m.constant)(Const::Reciprocal((kernel.0 * kernel.1) as usize))) * (val(
                        t.data[p],
                    ) * val(grad.data[r]))
                } else {
                    0 as real
                },
        ),
{
    let s = t.shape;
    let g = grad.shape;
    let n = kernel.0 * kernel.1;
    let zero = (m.constant)(Const::Zero);
    let c = val((m.constant)(Const::Reciprocal(n as usize)));
    let out = pool2d(m, ReduceOp::Mean, t, kernel, stride, padding, zero);
    let o = unravel(g, r);
    lemma_ravel_unravel(g, r);
    assert(0 <= o[0] < g[0] && 0 <= o[1] < g[1]);
    let window = padded_window2d(t, kernel, stride, padding, zero, o);
    assert(window.len() == n);
    assert(all_floats(window)) by {
        assert forall|q: int| 0 <= q < window.len() implies #[trigger] window[q] is Float by {
            let (y, x) = (
                o[2] * stride.0 + q / kernel.1 - padding.0,
                o[3] * stride.1 + q % kernel.1 - padding.1,
            );
            if 0 <= y < s[2] && 0 <= x < s[3] {
                let e = seq![o[0], o[1], y, x];
                assert(in_bounds(s, e));
                lemma_ravel_bound(s, e);
                assert(window[q] == t.data[ravel(s, e)]);
            }
        }
    }
    lemma_window_sum(m, val, t, kernel, stride, padding, o);
    let h = |p: int|
        if in_window(kernel, stride, padding, unravel(s, p), nhwc(o)) {
            val(t.data[p])
        } else {
            0 as real
        };
    let sum = total(size(s), h);
    let e = reduce(m, ReduceOp::Mean, window);
    assert(out.data[r] == e);
    let (a, k, y) = (val(e), n as real, val(grad.data[r]));
    assert(a * k == sum);
    assert(c * k == 1 as real);
    assert(a == c * sum) by (nonlinear_arith)
        requires
            a * k == sum,
            c * k == 1 as real,
    ;
    let d = c * y;
    assert(a * y == d * sum) by (nonlinear_arith)
        requires
            a == c * sum,
            d == c * y,
    ;
    lemma_total_scale(size(s), h, d);
    let scaled = |p: int| d * h(p);
    let given = |p: int|
        if in_window(kernel, stride, padding, unravel(s, p), nhwc(o)) {
            c * (val(t.data[p]) * y)
        } else {
            0 as real
        };
    assert forall|p: int| 0 <= p < size(s) implies #[trigger] scaled(p) == given(p) by {
        let x = val(t.data[p]);
        assert(d * x == c * (x * y)) by (nonlinear_arith)
            requires
                d == c * y,
        ;
        assert(d * (0 as real) == 0 as real) by (nonlinear_arith);
    }
    lemma_total_ext(size(s), scaled, given);
}

/// An input of mean pooling times its gradient.
proof fn lemma_input_column(
    m: Model,
    val: spec_fn(Elem) -> real,
    t: Tensor,
    kernel: (int, int),
    stride: (int, int),
    padding: (int, int),
    grad: Tensor,
    p: int,
)
    requires
        t.wf(),
        pooling2d_fits(t.shape, kernel, stride, padding),
        kernel.0 > 0,
        kernel.1 > 0,
        0 < kernel.0 * kernel.1 <= usize::MAX,
        computes_exactly(m, val),
        grad.wf(),
        grad.shape == pool2d_shape(t.shape, kernel, stride, padding),
        all_floats(grad.data),
        0 <= p < size(t.shape),
    ensures
        val(t.data[p]) * val(
            avg_pool2d_grad(m, t.shape, kernel, stride, padding, grad).data[p],
        ) == total(
            size(grad.shape),
            |r: int|
                if in_window(
                    kernel,
                    stride,
                    padding,
                    unravel(t.shape, p),
                    nhwc(unravel(grad.shape, r)),
                ) {
                    val((m.constant)(Const::Reciprocal((kernel.0 * kernel.1) as usize))) * (val(
                        t.data[p],
                    ) * val(grad.data[r]))
                } else {
                    0 as real
                },
        ),
{
    let s = t.shape;
    let g = grad.shape;
    let l = nhwc(g);
    let part = (m.constant)(Const::Reciprocal((kernel.0 * kernel.1) as usize));
    let c = val(part);
    let i = unravel(s, p);
    lemma_ravel_unravel(s, p);
    let back = avg_pool2d_grad(m, s, kernel, stride, padding, grad);
    law_avg_pool_gradient(m, s, kernel, stride, padding, grad, i);
    let keep = |j: Seq<int>| in_window(kernel, stride, padding, i, j);
    let get = |j: Seq<int>| binary(m, BinaryOp::Multiply, grad.at(nchw(j)), part);
    assert(g[0] >= 0 && g[1] >= 0 && g[2] >= 0 && g[3] >= 0);
    assert(part is Float);
    assert forall|j: Seq<int>| in_bounds(l, j) implies (#[trigger] get(j)) is Float && val(get(j))
        == val(grad.at(nchw(j))) * c by {
        assert(0 <= j[0] < l[0] && 0 <= j[1] < l[1] && 0 <= j[2] < l[2] && 0 <= j[3] < l[3]);
        assert(in_bounds(g, nchw(j)));
        lemma_ravel_bound(g, nchw(j));
        assert(grad.at(nchw(j)) is Float);
    }
    lemma_gathered_total(m, val, l, keep, get);
    let y = val(t.data[p]);
    let f = |q: int|
        if keep(unravel(l, q)) {
            val(get(unravel(l, q)))
        } else {
            0 as real
        };
    lemma_total_scale(size(l), f, y);
    let scaled = |q: int| y * f(q);
    let by_index = |o: Seq<int>|
        if in_window(kernel, stride, padding, i, nhwc(o)) {
            c * (y * val(grad.at(o)))
        } else {
            0 as real
        };
    let moved = |q: int| by_index(nchw(unravel(l, q)));
    assert forall|q: int| 0 <= q < size(l) implies #[trigger] scaled(q) == moved(q) by {
        let j = unravel(l, q);
        lemma_ravel_unravel(l, q);
        assert(get(j) is Float);
        assert(nhwc(nchw(j)) == j);
        let x = val(grad.at(nchw(j)));
        assert(y * (x * c) == c * (y * x)) by (nonlinear_arith);
        assert(y * (0 as real) == 0 as real) by (nonlinear_arith);
    }
    lemma_total_ext(size(l), scaled, moved);
    lemma_reordered_total(g, by_index);
    let placed = |r: int| by_index(unravel(g, r));
    let given = |r: int|
        if in_window(kernel, stride, padding, i, nhwc(unravel(g, r))) {
            c * (y * val(grad.data[r]))
        } else {
            0 as real
        };
    assert forall|r: int| 0 <= r < size(g) implies #[trigger] placed(r) == given(r) by {
        lemma_ravel_unravel(g, r);
    }
    lemma_total_ext(size(g), placed, given);
    assert(back.data[p] == back.at(i));
}

} // verus!
