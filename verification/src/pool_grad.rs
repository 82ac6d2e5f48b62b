//! Gradients of two-dimensional pooling.
use crate::array::Array;
use crate::index::{
    in_bounds, is_shape, lemma_extents_positive, lemma_rank1, lemma_rank4, lemma_rank6,
    lemma_ravel_bound, lemma_ravel_injective, lemma_ravel_unravel, lemma_size_nonneg,
    lemma_size_positive, lemma_unravel_ravel, ravel, size, unravel,
};
use crate::layout::{
    channels_first, channels_last, flatten, lemma_channels_first, lemma_channels_last,
    total_elements,
};
use crate::node::ints;
use crate::op::{BinaryOp, Const};
use crate::pool::{lemma_window_count_nonneg, lemma_window_entry, pair, window_count};
use crate::pooling::{padded_planes_shape, pool2d_shape, pooling2d_fits};
use crate::primitive::{Mlx, MlxTensorPrimitive, sizes};
use crate::tensor::{
    Elem, Model, Tensor, binary, constant_tensor, gathered, lemma_absorb,
    lemma_broadcast_index_same, lemma_look_scalar, lemma_tabulate, lemma_take_list,
    lemma_tensor_ext, lemma_updates_gathered, lemma_zip_look, permuted, positions_valid,
    scatter_add, tabulate,
};
use vstd::arithmetic::mul::*;
use vstd::prelude::*;

verus! {

/// The gradient with respect to the input of pooling.
#[derive(Debug)]
pub struct MaxPool2dBackward {
    pub x_grad: MlxTensorPrimitive,
}

/// The row-major position, in the padded channels-last array, of entry `i` of an
/// `[N, C, H, W]` tensor.
pub open spec fn padded_position(s: Seq<int>, padding: (int, int), i: Seq<int>) -> int {
    ravel(
        padded_planes_shape(s, padding),
        seq![i[0], i[2] + padding.0, i[3] + padding.1, i[1]],
    )
}

/// The `[N, C, H, W]` tensor of shape `s` that a padded channels-last array
/// surrounds.
pub open spec fn unpadded(flat: Tensor, s: Seq<int>, padding: (int, int)) -> Tensor {
    tabulate(s, |i: Seq<int>| flat.data[padded_position(s, padding, i)])
}

/// The gradient of an `[N, C, H, W]` tensor of shape `s`: every entry collects
/// the output gradients whose index is its position.
pub open spec fn max_pool2d_grad(
    m: Model,
    s: Seq<int>,
    padding: (int, int),
    grad: Tensor,
    indices: Tensor,
) -> Tensor {
    let g = grad.shape;
    tabulate(
        s,
        |i: Seq<int>|
            (m.accumulate)(
                (m.constant)(Const::Zero),
                gathered(
                    seq![g[0], g[2], g[3], g[1]],
                    |j: Seq<int>|
                        indices.at(seq![j[0], j[3], j[1], j[2]]) == Elem::Int(
                            padded_position(s, padding, i),
                        ),
                    |j: Seq<int>| grad.at(seq![j[0], j[3], j[1], j[2]]),
                ),
            ),
    )
}

proof fn lemma_padded_position(s: Seq<int>, padding: (int, int), i: Seq<int>)
    requires
        s.len() == 4,
        in_bounds(s, i),
        0 <= padding.0,
        0 <= padding.1,
    ensures
        in_bounds(
            padded_planes_shape(s, padding),
            seq![i[0], i[2] + padding.0, i[3] + padding.1, i[1]],
        ),
        0 <= padded_position(s, padding, i) < size(padded_planes_shape(s, padding)),
{
    assert(0 <= i[0] < s[0] && 0 <= i[1] < s[1] && 0 <= i[2] < s[2] && 0 <= i[3] < s[3]);
    lemma_ravel_bound(
        padded_planes_shape(s, padding),
        seq![i[0], i[2] + padding.0, i[3] + padding.1, i[1]],
    );
}

/// The channels-first tensor inside a flat padded channels-last one.
fn unpad_planes(
    flat: &Array,
    n: usize,
    c: usize,
    h: usize,
    w: usize,
    padding: [usize; 2],
) -> (r: Array)
    requires
        flat.wf(),
        n <= i32::MAX,
        c <= i32::MAX,
        h + 2 * padding[0] <= i32::MAX,
        w + 2 * padding[1] <= i32::MAX,
        flat.dims() == seq![
            size(
                padded_planes_shape(
                    seq![n as int, c as int, h as int, w as int],
                    pair(padding),
                ),
            ),
        ],
    ensures
        r.wf(),
        r.dims() == seq![n as int, c as int, h as int, w as int],
        forall|m: Model|
            #[trigger] r.value(m) == unpadded(
                flat.value(m),
                seq![n as int, c as int, h as int, w as int],
                pair(padding),
            ),
{
    let ghost s = seq![n as int, c as int, h as int, w as int];
    let ghost p = pair(padding);
    let ghost big = padded_planes_shape(s, p);
    let pad_h = padding[0];
    let pad_w = padding[1];
    let padded: Vec<i32> = vec![
        n as i32,
        (h + 2 * pad_h) as i32,
        (w + 2 * pad_w) as i32,
        c as i32,
    ];
    proof {
        assert(ints(padded@) == big);
        lemma_rank1(seq![size(big)], seq![0]);
    }
    let result_nhwc = flat.reshape(padded.as_slice());
    let ghost inner = seq![s[0], s[2], s[3], s[1]];
    let result_unpadded = if pad_h > 0 || pad_w > 0 {
        let start: Vec<i32> = vec![0, pad_h as i32, pad_w as i32, 0];
        let step: Vec<i32> = vec![1, 1, 1, 1];
        let shape: Vec<i32> = vec![n as i32, h as i32, w as i32, c as i32];
        proof {
            assert(ints(shape@) == inner);
            assert forall|k: int, j: int|
                0 <= k < big.len() && 0 <= j < inner[k] implies 0 <= ints(start@)[k] + #[trigger] (j
                * ints(step@)[k]) < big[k] by {
                lemma_mul_basics(j);
                assert(ints(step@)[k] == 1);
            }
        }
        let sliced = result_nhwc.slice(start.as_slice(), step.as_slice(), shape.as_slice());
        proof {
            assert forall|m: Model, i: Seq<int>| in_bounds(inner, i) implies #[trigger] sliced.value(
                m,
            ).at(i) == result_nhwc.value(m).at(seq![i[0], i[1] + p.0, i[2] + p.1, i[3]]) by {
                let t = result_nhwc.value(m);
                let (a, b) = (ints(start@), ints(step@));
                lemma_tabulate(
                    inner,
                    |i: Seq<int>| t.at(Seq::new(inner.len(), |k: int| a[k] + i[k] * b[k])),
                    i,
                );
                assert(Seq::new(inner.len(), |k: int| a[k] + i[k] * b[k]) == seq![
                    i[0],
                    i[1] + p.0,
                    i[2] + p.1,
                    i[3],
                ]) by {
                    assert forall|k: int| 0 <= k < 4 implies #[trigger] (i[k] * b[k]) == i[k] by {
                        lemma_mul_basics(i[k]);
                        assert(b[k] == 1);
                    }
                }
            }
        }
        sliced
    } else {
        proof {
            assert(big == inner);
            assert forall|m: Model, i: Seq<int>|
                in_bounds(inner, i) implies #[trigger] result_nhwc.value(m).at(i)
                == result_nhwc.value(m).at(seq![i[0], i[1] + p.0, i[2] + p.1, i[3]]) by {
                assert(i == seq![i[0], i[1] + p.0, i[2] + p.1, i[3]]);
            }
        }
        result_nhwc.clone()
    };
    let axes: Vec<i32> = vec![0, 3, 1, 2];
    proof {
        assert(ints(axes@) == channels_first());
        assert(permuted(inner, channels_first()) == s);
    }
    let output = result_unpadded.transpose_axes(axes.as_slice());
    proof {
        assert forall|m: Model| #[trigger] output.value(m) == unpadded(flat.value(m), s, p) by {
            let t = flat.value(m);
            lemma_size_nonneg(s);
            assert forall|i: Seq<int>| in_bounds(s, i) implies #[trigger] output.value(m).at(i)
                == unpadded(t, s, p).at(i) by {
                assert(0 <= i[0] < s[0] && 0 <= i[1] < s[1] && 0 <= i[2] < s[2] && 0 <= i[3] < s[3]);
                assert(result_unpadded.value(m).shape == inner);
                lemma_channels_first(result_unpadded.value(m), i);
                lemma_tabulate(s, |i: Seq<int>| t.data[padded_position(s, p, i)], i);
                let j = seq![i[0], i[2], i[3], i[1]];
                assert(in_bounds(inner, j));
                assert(result_unpadded.value(m).at(j) == result_nhwc.value(m).at(
                    seq![j[0], j[1] + p.0, j[2] + p.1, j[3]],
                ));
            }
            lemma_tensor_ext(output.value(m), unpadded(t, s, p));
        }
    }
    output
}

/// The indices of all entries of all windows: image, window row and column, row
/// and column in the window, channel.
pub open spec fn window_entries_shape(
    s: Seq<int>,
    kernel: (int, int),
    stride: (int, int),
    padding: (int, int),
) -> Seq<int> {
    let o = pool2d_shape(s, kernel, stride, padding);
    seq![s[0], o[2], o[3], kernel.0, kernel.1, s[1]]
}

/// The gradient of an `[N, C, H, W]` tensor of shape `s` under mean pooling: every
/// entry collects, from every place it has in a window, the output gradient of
/// that window over the size of a window.
pub open spec fn avg_pool2d_grad(
    m: Model,
    s: Seq<int>,
    kernel: (int, int),
    stride: (int, int),
    padding: (int, int),
    grad: Tensor,
) -> Tensor {
    let share = (m.constant)(Const::Reciprocal((kernel.0 * kernel.1) as usize));
    tabulate(
        s,
        |i: Seq<int>|
            (m.accumulate)(
                (m.constant)(Const::Zero),
                gathered(
                    window_entries_shape(s, kernel, stride, padding),
                    |j: Seq<int>|
                        j[0] == i[0] && j[5] == i[1] && j[1] * stride.0 + j[3] - padding.0 == i[2]
                            && j[2] * stride.1 + j[4] - padding.1 == i[3],
                    |j: Seq<int>|
                        binary(m, BinaryOp::Multiply, grad.at(seq![j[0], j[5], j[1], j[2]]), share),
                ),
            ),
    )
}

/// A position below a bound, computed axis by axis, never exceeds the bound.
proof fn lemma_horner_bounds(s: Seq<int>, i: Seq<int>)
    requires
        s.len() == 4,
        in_bounds(s, i),
    ensures
        0 <= i[0] * s[1],
        0 <= i[0] * s[1] + i[1],
        0 <= (i[0] * s[1] + i[1]) * s[2],
        0 <= (i[0] * s[1] + i[1]) * s[2] + i[2],
        0 <= ((i[0] * s[1] + i[1]) * s[2] + i[2]) * s[3],
        i[0] * s[1] + i[1] <= size(s),
        (i[0] * s[1] + i[1]) * s[2] + i[2] <= size(s),
        ((i[0] * s[1] + i[1]) * s[2] + i[2]) * s[3] + i[3] == ravel(s, i),
        0 <= ravel(s, i) < size(s),
{
    assert(0 <= i[0] < s[0] && 0 <= i[1] < s[1] && 0 <= i[2] < s[2] && 0 <= i[3] < s[3]);
    lemma_ravel_bound(s, i);
    lemma_rank4(s, i);
    lemma_mul_nonnegative(i[0], s[1]);
    let a = i[0] * s[1] + i[1];
    lemma_mul_nonnegative(a, s[2]);
    let b = a * s[2] + i[2];
    lemma_mul_nonnegative(b, s[3]);
    assert(a <= b) by (nonlinear_arith)
        requires
            b == a * s[2] + i[2],
            0 <= a,
            0 < s[2],
            0 <= i[2],
    ;
    assert(b <= b * s[3]) by (nonlinear_arith)
        requires
            0 <= b,
            0 < s[3],
    ;
}

/// The extents that window entries are enumerated by.
struct Grid {
    n: usize,
    c: usize,
    h_padded: usize,
    w_padded: usize,
    out_h: usize,
    out_w: usize,
    kh: usize,
    kw: usize,
    sh: usize,
    sw: usize,
}

impl Grid {
    spec fn padded(&self) -> Seq<int> {
        seq![self.n as int, self.h_padded as int, self.w_padded as int, self.c as int]
    }

    spec fn windows(&self) -> Seq<int> {
        seq![self.n as int, self.out_h as int, self.out_w as int, self.c as int]
    }

    spec fn entries(&self) -> Seq<int> {
        seq![
            self.n as int,
            self.out_h as int,
            self.out_w as int,
            self.kh as int,
            self.kw as int,
            self.c as int,
        ]
    }

    /// The position in the padded array that an entry covers.
    spec fn covered(&self, j: Seq<int>) -> int {
        ravel(self.padded(), seq![j[0], j[1] * self.sh + j[3], j[2] * self.sw + j[4], j[5]])
    }

    /// The position of an entry's window.
    spec fn window(&self, j: Seq<int>) -> int {
        ravel(self.windows(), seq![j[0], j[1], j[2], j[5]])
    }

    spec fn wf(&self) -> bool {
        &&& self.kh <= self.h_padded
        &&& self.kw <= self.w_padded
        &&& self.sh > 0
        &&& self.sw > 0
        &&& self.out_h == window_count(self.h_padded as int, self.kh as int, self.sh as int)
        &&& self.out_w == window_count(self.w_padded as int, self.kw as int, self.sw as int)
        &&& size(self.padded()) <= i32::MAX
        &&& size(self.windows()) <= i32::MAX
    }

    /// Both lists hold what belongs to the entries, in order, up to some point.
    #[verifier::opaque]
    spec fn listed(&self, positions: Seq<i32>, windows: Seq<i32>) -> bool {
        &&& positions.len() == windows.len()
        &&& forall|q: int|
            0 <= q < positions.len() ==> #[trigger] positions[q] == self.covered(
                unravel(self.entries(), q),
            )
        &&& forall|q: int|
            0 <= q < windows.len() ==> #[trigger] windows[q] == self.window(
                unravel(self.entries(), q),
            )
    }

    /// Lists the channels of one entry of one window.
    fn list_channels(
        &self,
        ni: usize,
        ohi: usize,
        owi: usize,
        khi: usize,
        kwi: usize,
        positions: &mut Vec<i32>,
        windows: &mut Vec<i32>,
    )
        requires
            self.wf(),
            ni < self.n,
            ohi < self.out_h,
            owi < self.out_w,
            khi < self.kh,
            kwi < self.kw,
            self.listed(old(positions)@, old(windows)@),
            old(positions)@.len() == ((((ni * self.out_h + ohi) * self.out_w + owi) * self.kh + khi)
                * self.kw + kwi) * self.c,
        ensures
            self.listed(final(positions)@, final(windows)@),
            final(positions)@.len() == ((((ni * self.out_h + ohi) * self.out_w + owi) * self.kh
                + khi) * self.kw + kwi + 1) * self.c,
    {
        let ghost e = (((ni * self.out_h + ohi) * self.out_w + owi) * self.kh + khi) * self.kw + kwi;
        proof {
            lemma_window_entry(
                self.h_padded as int,
                self.kh as int,
                self.sh as int,
                ohi as int,
                khi as int,
            );
            lemma_window_entry(
                self.w_padded as int,
                self.kw as int,
                self.sw as int,
                owi as int,
                kwi as int,
            );
            lemma_mul_nonnegative(ohi as int, self.sh as int);
            lemma_mul_nonnegative(owi as int, self.sw as int);
        }
        let hi = ohi * self.sh + khi;
        let wi = owi * self.sw + kwi;
        for ci in 0..self.c
            invariant
                self.wf(),
                ni < self.n,
                ohi < self.out_h,
                owi < self.out_w,
                khi < self.kh,
                kwi < self.kw,
                hi == ohi * self.sh + khi,
                wi == owi * self.sw + kwi,
                hi < self.h_padded,
                wi < self.w_padded,
                e == (((ni * self.out_h + ohi) * self.out_w + owi) * self.kh + khi) * self.kw + kwi,
                self.listed(positions@, windows@),
                positions@.len() == e * self.c + ci,
        {
            let ghost j = seq![
                ni as int,
                ohi as int,
                owi as int,
                khi as int,
                kwi as int,
                ci as int,
            ];
            let ghost a = seq![ni as int, hi as int, wi as int, ci as int];
            let ghost b = seq![ni as int, ohi as int, owi as int, ci as int];
            proof {
                assert(in_bounds(self.entries(), j));
                assert(in_bounds(self.padded(), a));
                assert(in_bounds(self.windows(), b));
                lemma_rank6(self.entries(), j);
                lemma_unravel_ravel(self.entries(), j);
                lemma_horner_bounds(self.padded(), a);
                lemma_horner_bounds(self.windows(), b);
            }
            let position = ((ni * self.h_padded + hi) * self.w_padded + wi) * self.c + ci;
            let window = ((ni * self.out_h + ohi) * self.out_w + owi) * self.c + ci;
            proof {
                reveal(Grid::listed);
                assert(seq![j[0], j[1] * self.sh + j[3], j[2] * self.sw + j[4], j[5]] == a);
                assert(seq![j[0], j[1], j[2], j[5]] == b);
            }
            positions.push(position as i32);
            windows.push(window as i32);
        }
        proof {
            lemma_next(e, self.c as int);
        }
    }

    /// Lists the entries of one window.
    fn list_window(
        &self,
        ni: usize,
        ohi: usize,
        owi: usize,
        positions: &mut Vec<i32>,
        windows: &mut Vec<i32>,
    )
        requires
            self.wf(),
            ni < self.n,
            ohi < self.out_h,
            owi < self.out_w,
            self.listed(old(positions)@, old(windows)@),
            old(positions)@.len() == ((ni * self.out_h + ohi) * self.out_w + owi) * self.kh
                * self.kw * self.c,
        ensures
            self.listed(final(positions)@, final(windows)@),
            final(positions)@.len() == ((ni * self.out_h + ohi) * self.out_w + owi + 1) * self.kh
                * self.kw * self.c,
    {
        let ghost b = (ni * self.out_h + ohi) * self.out_w + owi;
        for khi in 0..self.kh
            invariant
                self.wf(),
                ni < self.n,
                ohi < self.out_h,
                owi < self.out_w,
                b == (ni * self.out_h + ohi) * self.out_w + owi,
                self.listed(positions@, windows@),
                positions@.len() == (b * self.kh + khi) * self.kw * self.c,
        {
            for kwi in 0..self.kw
                invariant
                    self.wf(),
                    ni < self.n,
                    ohi < self.out_h,
                    owi < self.out_w,
                    khi < self.kh,
                    b == (ni * self.out_h + ohi) * self.out_w + owi,
                    self.listed(positions@, windows@),
                    positions@.len() == ((b * self.kh + khi) * self.kw + kwi) * self.c,
            {
                self.list_channels(ni, ohi, owi, khi, kwi, positions, windows);
            }
            proof {
                lemma_next(b * self.kh + khi, self.kw as int);
            }
        }
        proof {
            lemma_next(b, self.kh as int);
        }
    }

    /// For every entry of every window, the position it covers in the padded
    /// array and the position of its window.
    fn list_entries(&self) -> (r: (Vec<i32>, Vec<i32>))
        requires
            self.wf(),
        ensures
            self.listed(r.0@, r.1@),
            r.0@.len() == size(self.entries()),
    {
        let mut positions: Vec<i32> = Vec::new();
        let mut windows: Vec<i32> = Vec::new();
        proof {
            reveal(Grid::listed);
            lemma_mul_basics(self.out_h as int);
            lemma_mul_basics(self.out_w as int);
            lemma_mul_basics(self.kh as int);
            lemma_mul_basics(self.kw as int);
            lemma_mul_basics(self.c as int);
        }
        for ni in 0..self.n
            invariant
                self.wf(),
                self.listed(positions@, windows@),
                positions@.len() == ni * self.out_h * self.out_w * self.kh * self.kw * self.c,
        {
            for ohi in 0..self.out_h
                invariant
                    self.wf(),
                    ni < self.n,
                    self.listed(positions@, windows@),
                    positions@.len() == (ni * self.out_h + ohi) * self.out_w * self.kh * self.kw
                        * self.c,
            {
                for owi in 0..self.out_w
                    invariant
                        self.wf(),
                        ni < self.n,
                        ohi < self.out_h,
                        self.listed(positions@, windows@),
                        positions@.len() == ((ni * self.out_h + ohi) * self.out_w + owi) * self.kh
                            * self.kw * self.c,
                {
                    self.list_window(ni, ohi, owi, &mut positions, &mut windows);
                }
                proof {
                    lemma_next(ni * self.out_h + ohi, self.out_w as int);
                }
            }
            proof {
                lemma_next(ni as int, self.out_h as int);
            }
        }
        proof {
            lemma_rank6(self.entries(), seq![0, 0, 0, 0, 0, 0]);
        }
        (positions, windows)
    }
}

proof fn lemma_next(a: int, d: int)
    ensures
        a * d + d == (a + 1) * d,
{
    lemma_mul_is_distributive_add_other_way(d, a, 1);
    lemma_mul_basics(d);
}

impl Grid {
    /// An entry covers a position of the padded array and belongs to a window.
    proof fn lemma_entry(&self, j: Seq<int>)
        requires
            self.wf(),
            in_bounds(self.entries(), j),
        ensures
            in_bounds(
                self.padded(),
                seq![j[0], j[1] * self.sh + j[3], j[2] * self.sw + j[4], j[5]],
            ),
            in_bounds(self.windows(), seq![j[0], j[1], j[2], j[5]]),
            0 <= self.covered(j) < size(self.padded()),
            0 <= self.window(j) < size(self.windows()),
    {
        let v = self.entries();
        assert(0 <= j[0] < v[0] && 0 <= j[1] < v[1] && 0 <= j[2] < v[2] && 0 <= j[3] < v[3] && 0
            <= j[4] < v[4] && 0 <= j[5] < v[5]);
        lemma_window_entry(self.h_padded as int, self.kh as int, self.sh as int, j[1], j[3]);
        lemma_window_entry(self.w_padded as int, self.kw as int, self.sw as int, j[2], j[4]);
        lemma_ravel_bound(
            self.padded(),
            seq![j[0], j[1] * self.sh + j[3], j[2] * self.sw + j[4], j[5]],
        );
        lemma_ravel_bound(self.windows(), seq![j[0], j[1], j[2], j[5]]);
    }
}

/// Entry `q` sends its window's share to the position that it covers.
spec fn entry_holds(
    m: Model,
    grid: Grid,
    grad: Tensor,
    share: Elem,
    indices: Seq<Elem>,
    updates: Seq<Elem>,
    q: int,
) -> bool {
    let j = unravel(grid.entries(), q);
    &&& indices[q] == Elem::Int(grid.covered(j))
    &&& updates[q] == binary(
        m,
        BinaryOp::Multiply,
        grad.at(seq![j[0], j[5], j[1], j[2]]),
        share,
    )
}

proof fn lemma_avg_grad(
    m: Model,
    grid: Grid,
    s: Seq<int>,
    k: (int, int),
    st: (int, int),
    p: (int, int),
    grad: Tensor,
    base: Tensor,
    indices: Tensor,
    updates: Tensor,
)
    requires
        grid.wf(),
        s.len() == 4,
        is_shape(s),
        p.0 >= 0,
        p.1 >= 0,
        st == (grid.sh as int, grid.sw as int),
        grid.padded() == padded_planes_shape(s, p),
        grid.entries() == window_entries_shape(s, k, st, p),
        base == constant_tensor(
            seq![size(padded_planes_shape(s, p))],
            (m.constant)(Const::Zero),
        ),
        indices.data.len() == size(grid.entries()),
        forall|q: int|
            0 <= q < size(grid.entries()) ==> #[trigger] entry_holds(
                m,
                grid,
                grad,
                (m.constant)(Const::Reciprocal((k.0 * k.1) as usize)),
                indices.data,
                updates.data,
                q,
            ),
    ensures
        unpadded(scatter_add(m, base, indices, updates), s, p) == avg_pool2d_grad(
            m,
            s,
            k,
            st,
            p,
            grad,
        ),
{
    let v = grid.entries();
    let big = padded_planes_shape(s, p);
    let share = (m.constant)(Const::Reciprocal((k.0 * k.1) as usize));
    let zero = (m.constant)(Const::Zero);
    let (idx, upd) = (indices.data, updates.data);
    let flat = scatter_add(m, base, indices, updates);
    lemma_rank1(seq![size(big)], seq![0]);
    assert(is_shape(big)) by {
        assert(s[0] >= 0 && s[1] >= 0 && s[2] >= 0 && s[3] >= 0);
    }
    lemma_size_nonneg(big);
    assert(positions_valid(idx, size(big))) by {
        assert forall|q: int| 0 <= q < idx.len() implies (#[trigger] idx[q] matches Elem::Int(e)
            && 0 <= e < size(big)) by {
            assert(entry_holds(m, grid, grad, share, idx, upd, q));
            lemma_ravel_unravel(v, q);
            grid.lemma_entry(unravel(v, q));
        }
    }
    let x = unpadded(flat, s, p);
    let y = avg_pool2d_grad(m, s, k, st, p, grad);
    lemma_size_nonneg(s);
    assert forall|i: Seq<int>| in_bounds(s, i) implies #[trigger] x.at(i) == y.at(i) by {
        let at = padded_position(s, p, i);
        lemma_padded_position(s, p, i);
        lemma_tabulate(s, |i: Seq<int>| flat.data[padded_position(s, p, i)], i);
        let keep = |j: Seq<int>|
            j[0] == i[0] && j[5] == i[1] && j[1] * st.0 + j[3] - p.0 == i[2] && j[2] * st.1 + j[4]
                - p.1 == i[3];
        let val = |j: Seq<int>|
            binary(m, BinaryOp::Multiply, grad.at(seq![j[0], j[5], j[1], j[2]]), share);
        assert forall|q: int| 0 <= q < size(v) implies (#[trigger] idx[q] == Elem::Int(at)) == keep(
            unravel(v, q),
        ) by {
            assert(entry_holds(m, grid, grad, share, idx, upd, q));
            lemma_ravel_unravel(v, q);
            let j = unravel(v, q);
            grid.lemma_entry(j);
            let a = seq![j[0], j[1] * grid.sh + j[3], j[2] * grid.sw + j[4], j[5]];
            let b = seq![i[0], i[2] + p.0, i[3] + p.1, i[1]];
            if grid.covered(j) == at {
                lemma_ravel_injective(big, a, b);
                assert(a[0] == b[0] && a[1] == b[1] && a[2] == b[2] && a[3] == b[3]);
            } else if keep(j) {
                assert(a == b);
            }
        }
        assert forall|q: int|
            0 <= q < size(v) && keep(unravel(v, q)) implies #[trigger] upd[q] == val(
            unravel(v, q),
        ) by {
            assert(entry_holds(m, grid, grad, share, idx, upd, q));
        }
        lemma_updates_gathered(idx, upd, at, v, keep, val);
        lemma_tabulate(
            s,
            |i: Seq<int>|
                (m.accumulate)(
                    (m.constant)(Const::Zero),
                    gathered(
                        window_entries_shape(s, k, st, p),
                        |j: Seq<int>|
                            j[0] == i[0] && j[5] == i[1] && j[1] * st.0 + j[3] - p.0 == i[2] && j[2]
                                * st.1 + j[4] - p.1 == i[3],
                        |j: Seq<int>|
                            binary(
                                m,
                                BinaryOp::Multiply,
                                grad.at(seq![j[0], j[5], j[1], j[2]]),
                                share,
                            ),
                    ),
                ),
            i,
        );
        assert(base.data[at] == zero);
    }
    lemma_tensor_ext(x, y);
}

impl Mlx {
    /// The gradient of mean pooling.
    pub fn avg_pool2d_backward(
        x: MlxTensorPrimitive,
        grad: MlxTensorPrimitive,
        kernel_size: [usize; 2],
        stride: [usize; 2],
        padding: [usize; 2],
        _count_include_pad: bool,
        _ceil_mode: bool,
    ) -> (r: MlxTensorPrimitive)
        requires
            x.wf(),
            grad.wf(),
            pooling2d_fits(x.dims(), pair(kernel_size), pair(stride), pair(padding)),
            grad.dims() == pool2d_shape(
                x.dims(),
                pair(kernel_size),
                pair(stride),
                pair(padding),
            ),
            kernel_size[0] * kernel_size[1] <= usize::MAX,
            size(padded_planes_shape(x.dims(), pair(padding))) <= i32::MAX,
            size(grad.dims()) <= i32::MAX,
            size(
                window_entries_shape(
                    x.dims(),
                    pair(kernel_size),
                    pair(stride),
                    pair(padding),
                ),
            ) <= i32::MAX,
        ensures
            r.wf(),
            r.dims() == x.dims(),
            forall|m: Model|
                #[trigger] r.value(m) == avg_pool2d_grad(
                    m,
                    x.dims(),
                    pair(kernel_size),
                    pair(stride),
                    pair(padding),
                    grad.value(m),
                ),
    {
        let ghost s = x.dims();
        let ghost (k, st, p) = (pair(kernel_size), pair(stride), pair(padding));
        let ghost big = padded_planes_shape(s, p);
        let input_shape = x.shape();
        let n = input_shape[0];
        let c = input_shape[1];
        let h = input_shape[2];
        let w = input_shape[3];
        proof {
            assert(sizes(x.shape@)[0] == s[0]);
            assert(sizes(x.shape@)[1] == s[1]);
            assert(sizes(x.shape@)[2] == s[2]);
            assert(sizes(x.shape@)[3] == s[3]);
            assert(s[0] <= i32::MAX && s[1] <= i32::MAX && s[2] >= 0 && s[3] >= 0);
            assert(s == seq![n as int, c as int, h as int, w as int]);
            lemma_window_count_nonneg(s[2] + 2 * p.0, k.0, st.0);
            lemma_window_count_nonneg(s[3] + 2 * p.1, k.1, st.1);
            lemma_mul_nonnegative(k.0, k.1);
        }
        let (kh, kw) = (kernel_size[0], kernel_size[1]);
        let (sh, sw) = (stride[0], stride[1]);
        let h_padded = h + 2 * padding[0];
        let w_padded = w + 2 * padding[1];
        let out_h = (h_padded - kh) / sh + 1;
        let out_w = (w_padded - kw) / sw + 1;
        let ghost g = grad.dims();
        let ghost gl = seq![g[0], g[2], g[3], g[1]];
        let axes: Vec<i32> = vec![0, 2, 3, 1];
        proof {
            assert(ints(axes@) == channels_last());
            assert(permuted(g, channels_last()) == gl);
            lemma_rank4(g, seq![0, 0, 0, 0]);
            lemma_rank4(gl, seq![0, 0, 0, 0]);
            lemma_mul_rotate(g[0], g[1], g[2], g[3]);
            lemma_absorb(Seq::<int>::empty(), gl);
        }
        let grad_nhwc = grad.array.transpose_axes(axes.as_slice());
        let scale = Array::constant(Const::Reciprocal(kh * kw));
        let grad_scaled = grad_nhwc.binary(BinaryOp::Multiply, &scale);
        let grid = Grid { n, c, h_padded, w_padded, out_h, out_w, kh, kw, sh, sw };
        let ghost v = window_entries_shape(s, k, st, p);
        proof {
            assert(grid.padded() == big);
            assert(grid.windows() == gl);
            assert(grid.entries() == v);
        }
        let (all_indices, update_indices) = grid.list_entries();
        proof {
            reveal(Grid::listed);
        }
        let list_shape: Vec<i32> = vec![all_indices.len() as i32];
        let ghost ls = seq![size(v)];
        proof {
            assert(ints(list_shape@) == ls);
            lemma_rank1(ls, seq![0]);
        }
        let ghost (positions, windows) = (all_indices@, update_indices@);
        let grad_flat = flatten(&grad_scaled);
        let update_idx_arr = Array::from_ints(update_indices, list_shape.as_slice());
        proof {
            lemma_rank1(grad_flat.dims(), seq![0]);
            if size(v) > 0 {
                lemma_extents_positive(v);
                assert(v[0] > 0 && v[1] > 0 && v[2] > 0 && v[5] > 0);
                assert(g[0] == v[0] && g[1] == v[5] && g[2] == v[1] && g[3] == v[2]);
                lemma_size_positive(gl);
            }
        }
        let updates = grad_flat.take_axis(&update_idx_arr, 0);
        proof {
            assert(grad_flat.dims().take(0) + ls + grad_flat.dims().skip(1) == ls);
        }
        let total_size = padded_size(n, c, h, w, padding);
        let flat_shape: Vec<i32> = vec![total_size];
        proof {
            assert(is_shape(big));
            lemma_size_nonneg(big);
            assert(ints(flat_shape@) == seq![size(big)]);
            lemma_rank1(seq![size(big)], seq![0]);
        }
        let grad_input_flat = Array::zeros(flat_shape.as_slice());
        let indices_arr = Array::from_ints(all_indices, list_shape.as_slice());
        let result_flat = grad_input_flat.scatter_add(&indices_arr, &updates);
        let output = unpad_planes(&result_flat, n, c, h, w, padding);
        proof {
            assert forall|m: Model|
                #[trigger] output.value(m) == avg_pool2d_grad(m, s, k, st, p, grad.value(m)) by {
                let gt = grad.value(m);
                let share = (m.constant)(Const::Reciprocal((k.0 * k.1) as usize));
                let idx = indices_arr.value(m).data;
                let upd = updates.value(m).data;
                assert(grad.array.value(m).wf());
                assert(grad_nhwc.value(m).wf());
                assert(grad_scaled.value(m).wf());
                assert(grad_flat.value(m).wf());
                assert forall|q: int| 0 <= q < size(v) implies entry_holds(
                    m,
                    grid,
                    gt,
                    share,
                    idx,
                    upd,
                    q,
                ) by {
                    let j = unravel(v, q);
                    lemma_ravel_unravel(v, q);
                    grid.lemma_entry(j);
                    assert(positions[q] == grid.covered(j));
                    assert(windows[q] == grid.window(j));
                    let b = seq![j[0], j[1], j[2], j[5]];
                    lemma_take_list(
                        grad_flat.value(m),
                        update_idx_arr.value(m),
                        q,
                        grid.window(j),
                    );
                    lemma_zip_look(
                        m,
                        BinaryOp::Multiply,
                        grad_nhwc.value(m),
                        scale.value(m),
                        gl,
                        b,
                    );
                    lemma_broadcast_index_same(gl, b);
                    lemma_look_scalar(share, b);
                    lemma_channels_last(gt, b);
                }
                lemma_avg_grad(
                    m,
                    grid,
                    s,
                    k,
                    st,
                    p,
                    gt,
                    grad_input_flat.value(m),
                    indices_arr.value(m),
                    updates.value(m),
                );
            }
        }
        MlxTensorPrimitive::new(output)
    }

    /// The gradient of max pooling, given the positions that the maxima came
    /// from. It is what it should be where all positions are valid.
    pub fn max_pool2d_with_indices_backward(
        x: MlxTensorPrimitive,
        _kernel_size: [usize; 2],
        _stride: [usize; 2],
        padding: [usize; 2],
        _dilation: [usize; 2],
        _ceil_mode: bool,
        output_grad: MlxTensorPrimitive,
        indices: MlxTensorPrimitive,
    ) -> (r: MaxPool2dBackward)
        requires
            x.wf(),
            output_grad.wf(),
            indices.wf(),
            x.dims().len() == 4,
            x.dims()[2] + 2 * padding[0] <= i32::MAX,
            x.dims()[3] + 2 * padding[1] <= i32::MAX,
            size(padded_planes_shape(x.dims(), pair(padding))) <= i32::MAX,
            output_grad.dims().len() == 4,
            indices.dims() == output_grad.dims(),
            size(output_grad.dims()) <= i32::MAX,
        ensures
            r.x_grad.wf(),
            r.x_grad.dims() == x.dims(),
            forall|m: Model|
                positions_valid(
                    indices.value(m).data,
                    size(padded_planes_shape(x.dims(), pair(padding))),
                ) ==> #[trigger] r.x_grad.value(m) == max_pool2d_grad(
                    m,
                    x.dims(),
                    pair(padding),
                    output_grad.value(m),
                    indices.value(m),
                ),
    {
        let ghost s = x.dims();
        let ghost p = pair(padding);
        let ghost big = padded_planes_shape(s, p);
        let input_shape = x.shape();
        let n = input_shape[0];
        let c = input_shape[1];
        let h = input_shape[2];
        let w = input_shape[3];
        proof {
            assert(sizes(x.shape@)[0] == s[0]);
            assert(sizes(x.shape@)[1] == s[1]);
            assert(sizes(x.shape@)[2] == s[2]);
            assert(sizes(x.shape@)[3] == s[3]);
            assert(s[0] <= i32::MAX && s[1] <= i32::MAX && s[2] >= 0 && s[3] >= 0);
            assert(s == seq![n as int, c as int, h as int, w as int]);
            assert(is_shape(big));
            lemma_size_nonneg(big);
        }
        let total_size = padded_size(n, c, h, w, padding);
        let flat_shape: Vec<i32> = vec![total_size];
        proof {
            assert(ints(flat_shape@) == seq![size(big)]);
        }
        let grad_input_flat = Array::zeros(flat_shape.as_slice());
        let axes: Vec<i32> = vec![0, 2, 3, 1];
        proof {
            assert(ints(axes@) == channels_last());
        }
        let grad_nhwc = output_grad.array.transpose_axes(axes.as_slice());
        let indices_nhwc = indices.array.transpose_axes(axes.as_slice());
        let ghost g = output_grad.dims();
        let ghost gl = seq![g[0], g[2], g[3], g[1]];
        proof {
            assert(permuted(g, channels_last()) == gl);
            lemma_rank4(g, seq![0, 0, 0, 0]);
            lemma_rank4(gl, seq![0, 0, 0, 0]);
            lemma_mul_rotate(g[0], g[1], g[2], g[3]);
            assert(g[0] >= 0 && g[1] >= 0 && g[2] >= 0 && g[3] >= 0);
        }
        let grad_flat = flatten(&grad_nhwc);
        let indices_flat = flatten(&indices_nhwc);
        let result_flat = grad_input_flat.scatter_add(&indices_flat, &grad_flat);
        let output = unpad_planes(&result_flat, n, c, h, w, padding);
        proof {
            assert forall|m: Model|
                positions_valid(indices.value(m).data, size(big)) implies #[trigger] output.value(m)
                == max_pool2d_grad(m, s, p, output_grad.value(m), indices.value(m)) by {
                let (gt, it) = (output_grad.value(m), indices.value(m));
                assert(output_grad.array.value(m).wf());
                assert(indices.array.value(m).wf());
                assert(indices_nhwc.value(m).wf());
                assert(grad_nhwc.value(m).wf());
                let idx = indices_flat.value(m).data;
                let upd = grad_flat.value(m).data;
                lemma_size_nonneg(gl);
                assert forall|q: int| 0 <= q < size(gl) implies #[trigger] idx[q] == it.at(
                    nchw(unravel(gl, q)),
                ) && upd[q] == gt.at(nchw(unravel(gl, q))) && in_bounds(
                    g,
                    nchw(unravel(gl, q)),
                ) by {
                    lemma_ravel_unravel(gl, q);
                    let j = unravel(gl, q);
                    lemma_channels_last(it, j);
                    lemma_channels_last(gt, j);
                }
                assert(positions_valid(idx, size(big))) by {
                    assert forall|q: int| 0 <= q < idx.len() implies (
                    #[trigger] idx[q] matches Elem::Int(e) && 0 <= e < size(big)) by {
                        let j = nchw(unravel(gl, q));
                        assert(idx[q] == it.at(j));
                        lemma_ravel_bound(g, j);
                    }
                }
                let zero = (m.constant)(Const::Zero);
                let u = max_pool2d_grad(m, s, p, gt, it);
                lemma_size_nonneg(s);
                assert forall|i: Seq<int>| in_bounds(s, i) implies #[trigger] output.value(m).at(i)
                    == u.at(i) by {
                    let flat = result_flat.value(m);
                    let at = padded_position(s, p, i);
                    lemma_padded_position(s, p, i);
                    lemma_tabulate(s, |i: Seq<int>| flat.data[padded_position(s, p, i)], i);
                    let keep = |j: Seq<int>|
                        it.at(seq![j[0], j[3], j[1], j[2]]) == Elem::Int(
                            padded_position(s, p, i),
                        );
                    let val = |j: Seq<int>| gt.at(seq![j[0], j[3], j[1], j[2]]);
                    assert forall|q: int| 0 <= q < size(gl) implies #[trigger] upd[q] == val(
                        unravel(gl, q),
                    ) by {
                        assert(idx[q] == it.at(nchw(unravel(gl, q))));
                    }
                    lemma_updates_gathered(idx, upd, at, gl, keep, val);
                    lemma_tabulate(
                        s,
                        |i: Seq<int>|
                            (m.accumulate)(
                                (m.constant)(Const::Zero),
                                gathered(
                                    gl,
                                    |j: Seq<int>|
                                        it.at(seq![j[0], j[3], j[1], j[2]]) == Elem::Int(
                                            padded_position(s, p, i),
                                        ),
                                    |j: Seq<int>| gt.at(seq![j[0], j[3], j[1], j[2]]),
                                ),
                            ),
                        i,
                    );
                    lemma_rank1(seq![size(big)], seq![0]);
                    assert(grad_input_flat.value(m).data[at] == zero);
                }
                lemma_tensor_ext(output.value(m), u);
            }
        }
        MaxPool2dBackward { x_grad: MlxTensorPrimitive::new(output) }
    }
}

/// A channels-last index as a channels-first one.
pub open spec fn nchw(j: Seq<int>) -> Seq<int> {
    seq![j[0], j[3], j[1], j[2]]
}

proof fn lemma_mul_rotate(a: int, b: int, c: int, d: int)
    ensures
        a * b * c * d == a * c * d * b,
{
    lemma_mul_is_associative(a, b, c);
    lemma_mul_is_commutative(b, c);
    lemma_mul_is_associative(a, c, b);
    lemma_mul_is_associative(a * c, b, d);
    lemma_mul_is_commutative(b, d);
    lemma_mul_is_associative(a * c, d, b);
}

/// The number of elements of the padded channels-last array.
fn padded_size(n: usize, c: usize, h: usize, w: usize, padding: [usize; 2]) -> (r: i32)
    requires
        n <= i32::MAX,
        c <= i32::MAX,
        h + 2 * padding[0] <= i32::MAX,
        w + 2 * padding[1] <= i32::MAX,
        size(
            padded_planes_shape(seq![n as int, c as int, h as int, w as int], pair(padding)),
        ) <= i32::MAX,
    ensures
        r == size(
            padded_planes_shape(seq![n as int, c as int, h as int, w as int], pair(padding)),
        ),
{
    let shape: Vec<i32> = vec![
        n as i32,
        (h + 2 * padding[0]) as i32,
        (w + 2 * padding[1]) as i32,
        c as i32,
    ];
    proof {
        assert(ints(shape@) == padded_planes_shape(
            seq![n as int, c as int, h as int, w as int],
            pair(padding),
        ));
    }
    total_elements(shape.as_slice()) as i32
}

} // verus!
