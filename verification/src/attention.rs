//! Scaled dot-product attention.
use crate::activation::lemma_operands_repeat;
use crate::array::{Array, copy_i32, values};
use crate::elementwise::{fill_where, mapped, with_constant};
use crate::index::{in_bounds, is_shape, lemma_rank2, lemma_ravel_bound, lemma_size_nonneg};
use crate::layout::lemma_permute_at;
use crate::node::ints;
use crate::op::{BinaryOp, Const, Kernel, Scalar, Scale, TernaryOp, UnaryOp};
use crate::options::AttentionModuleOptions;
use crate::primitive::{Mlx, MlxTensorPrimitive};
use crate::tensor::{
    Elem, Model, Tensor, aligned, binary, broadcast_index, broadcast_shape, broadcasts_to,
    compatible, is_permutation, kernel, lemma_absorb, lemma_broadcast_commutes,
    lemma_broadcast_index_same, lemma_broadcast_to_index, lemma_broadcasts_through,
    lemma_look_scalar, lemma_tabulate, lemma_tensor_ext, lemma_zip_look, look, matmul,
    matmul_fits, matmul_shape, max_rank, permuted, scalar, softmax, tabulate, ternary, unary, zip,
};
use vstd::arithmetic::div_mod::*;
use vstd::prelude::*;

verus! {

/// The index with its last two entries exchanged.
pub open spec fn exchange(i: Seq<int>) -> Seq<int> {
    let r = i.len() as int;
    i.update(r - 2, i[r - 1]).update(r - 1, i[r - 2])
}

/// Every matrix of a stack transposed.
pub open spec fn matrix_transpose(t: Tensor) -> Tensor {
    tabulate(exchange(t.shape), |i: Seq<int>| t.at(exchange(i)))
}

/// The attention kernel does not squash scores, and takes either causal masking or
/// a mask of its own, not both: the scores are computed one step at a time then.
pub open spec fn needs_manual(o: AttentionModuleOptions, mask: bool, bias: bool) -> bool {
    o.softcap is Some || (o.is_causal && (mask || bias))
}

/// The factor on the scores.
pub open spec fn attention_scale(o: AttentionModuleOptions, head_dim: int) -> Scale {
    match o.scale {
        Some(s) => Scale::Given(s),
        None => Scale::InvSqrt(head_dim as usize),
    }
}

/// The score `e` squashed to the bound.
pub open spec fn squashed(m: Model, softcap: Option<Scalar>, e: Elem) -> Elem {
    match softcap {
        Some(c) => {
            let cap = (m.constant)(Const::Value(c));
            binary(
                m,
                BinaryOp::Multiply,
                unary(m, UnaryOp::Tanh, binary(m, BinaryOp::Divide, e, cap)),
                cap,
            )
        },
        None => e,
    }
}

/// The score `e` at index `i` with what the bias contributes there.
pub open spec fn with_bias(m: Model, bias: Option<Tensor>, i: Seq<int>, e: Elem) -> Elem {
    match bias {
        Some(b) => binary(m, BinaryOp::Add, e, look(b, i)),
        None => e,
    }
}

/// The score `e` at index `i`, or minus infinity where the mask is true.
pub open spec fn with_mask(m: Model, mask: Option<Tensor>, i: Seq<int>, e: Elem) -> Elem {
    match mask {
        Some(b) => ternary(
            m,
            TernaryOp::Where,
            look(b, i),
            (m.constant)(Const::NegInfinity),
            e,
        ),
        None => e,
    }
}

/// The score `e` at index `i`, or minus infinity where the key comes after the
/// query.
pub open spec fn with_causality(m: Model, causal: bool, i: Seq<int>, e: Elem) -> Elem {
    if causal && i[i.len() - 1] > i[i.len() - 2] {
        (m.constant)(Const::NegInfinity)
    } else {
        e
    }
}

pub open spec fn shape_of(t: Option<Tensor>) -> Option<Seq<int>> {
    match t {
        Some(x) => Some(x.shape),
        None => None,
    }
}

/// An optional operand can be combined with an array of shape `s`.
pub open spec fn combines(s: Seq<int>, t: Option<Seq<int>>) -> bool {
    match t {
        Some(x) => compatible(s, x),
        None => true,
    }
}

/// The shape of what an array of shape `s` and an optional operand combine to.
pub open spec fn widened(s: Seq<int>, t: Option<Seq<int>>) -> Seq<int> {
    match t {
        Some(x) => broadcast_shape(s, x),
        None => s,
    }
}

/// The shape of the products of all queries and keys.
pub open spec fn products_shape(q: Seq<int>, k: Seq<int>) -> Seq<int> {
    matmul_shape(q, exchange(k))
}

/// The shape of the scores: that of the products, unless a bias or a mask is broader.
pub open spec fn scores_shape(
    q: Seq<int>,
    k: Seq<int>,
    mask: Option<Seq<int>>,
    bias: Option<Seq<int>>,
) -> Seq<int> {
    widened(widened(products_shape(q, k), bias), mask)
}

/// The scores of all pairs of query and key positions: products of query and key,
/// scaled, squashed, biased, and masked.
pub open spec fn attention_scores(
    m: Model,
    q: Tensor,
    k: Tensor,
    mask: Option<Tensor>,
    bias: Option<Tensor>,
    o: AttentionModuleOptions,
) -> Tensor {
    let products = matmul(m, q, matrix_transpose(k));
    let scale = (m.constant)(Const::Scale(attention_scale(o, q.shape.last())));
    tabulate(
        scores_shape(q.shape, k.shape, shape_of(mask), shape_of(bias)),
        |i: Seq<int>|
            with_causality(
                m,
                o.is_causal,
                i,
                with_mask(
                    m,
                    mask,
                    i,
                    with_bias(
                        m,
                        bias,
                        i,
                        squashed(
                            m,
                            o.softcap,
                            binary(m, BinaryOp::Multiply, look(products, i), scale),
                        ),
                    ),
                ),
            ),
    )
}

/// What is added to the scores for a mask: minus infinity where it is true, zero
/// where it is false.
pub open spec fn additive_mask(m: Model, mask: Tensor) -> Tensor {
    tabulate(
        mask.shape,
        |i: Seq<int>|
            ternary(
                m,
                TernaryOp::Where,
                mask.at(i),
                (m.constant)(Const::NegInfinity),
                (m.constant)(Const::Zero),
            ),
    )
}

/// The mask operand of the attention kernel, if there is one.
pub open spec fn mask_operand(m: Model, mask: Option<Tensor>, bias: Option<Tensor>) -> Seq<Tensor> {
    match (mask, bias) {
        (None, None) => seq![],
        (Some(a), None) => seq![additive_mask(m, a)],
        (None, Some(b)) => seq![b],
        (Some(a), Some(b)) => seq![zip(m, BinaryOp::Add, additive_mask(m, a), b)],
    }
}

/// Attention.
pub open spec fn attention(
    m: Model,
    q: Tensor,
    k: Tensor,
    v: Tensor,
    mask: Option<Tensor>,
    bias: Option<Tensor>,
    o: AttentionModuleOptions,
) -> Tensor {
    if needs_manual(o, mask is Some, bias is Some) {
        matmul(m, softmax(m, attention_scores(m, q, k, mask, bias, o)), v)
    } else {
        kernel(
            m,
            Kernel::Attention {
                scale: attention_scale(o, q.shape.last()),
                causal: o.is_causal,
            },
            seq![q, k, v] + mask_operand(m, mask, bias),
            seq![q.shape[0], q.shape[1], q.shape[2], v.shape[3]],
        )
    }
}

pub open spec fn optional_value(t: Option<MlxTensorPrimitive>, m: Model) -> Option<Tensor> {
    match t {
        Some(x) => Some(x.value(m)),
        None => None,
    }
}

pub open spec fn optional_dims(t: Option<MlxTensorPrimitive>) -> Option<Seq<int>> {
    match t {
        Some(x) => Some(x.dims()),
        None => None,
    }
}

pub open spec fn optional_wf(t: Option<MlxTensorPrimitive>) -> bool {
    match t {
        Some(x) => x.wf(),
        None => true,
    }
}

/// An optional operand can be repeated to shape `s`.
pub open spec fn optional_fits(t: Option<MlxTensorPrimitive>, s: Seq<int>) -> bool {
    match t {
        Some(x) => x.wf() && broadcasts_to(x.dims(), s),
        None => true,
    }
}

/// Query, key and value fit the attention kernel: `[B, H, LQ, D]`, `[B, G, LK, D]`
/// and `[B, G, LK, E]`, where every group of `H / G` query heads shares a key head.
pub open spec fn kernel_fits(q: Seq<int>, k: Seq<int>, v: Seq<int>) -> bool {
    &&& q.len() == 4
    &&& k.len() == 4
    &&& v.len() == 4
    &&& k[0] == q[0]
    &&& v[0] == q[0]
    &&& v[1] == k[1]
    &&& k[1] > 0
    &&& q[1] % k[1] == 0
    &&& k[2] == v[2]
    &&& q[3] == k[3]
}

/// Query, key and value are stacks of matrices that can be multiplied, and a bias and a mask
/// can be combined with the products. Where later keys are masked, neither adds an axis.
pub open spec fn stepwise_fits(
    q: Seq<int>,
    k: Seq<int>,
    v: Seq<int>,
    mask: Option<Seq<int>>,
    bias: Option<Seq<int>>,
    causal: bool,
) -> bool {
    &&& q.len() >= 2
    &&& k.len() == q.len()
    &&& matmul_fits(q, exchange(k))
    &&& combines(products_shape(q, k), bias)
    &&& combines(widened(products_shape(q, k), bias), mask)
    &&& causal ==> scores_shape(q, k, mask, bias).len() == q.len()
    &&& matmul_fits(scores_shape(q, k, mask, bias), v)
}

/// The operands of attention fit together.
pub open spec fn attention_fits(
    q: Seq<int>,
    k: Seq<int>,
    v: Seq<int>,
    mask: Option<MlxTensorPrimitive>,
    bias: Option<MlxTensorPrimitive>,
    o: AttentionModuleOptions,
) -> bool {
    if needs_manual(o, mask is Some, bias is Some) {
        &&& optional_wf(mask)
        &&& optional_wf(bias)
        &&& stepwise_fits(q, k, v, optional_dims(mask), optional_dims(bias), o.is_causal)
    } else {
        &&& kernel_fits(q, k, v)
        &&& optional_fits(mask, seq![q[0], q[1], q[2], k[2]])
        &&& optional_fits(bias, seq![q[0], q[1], q[2], k[2]])
    }
}

/// The products can be repeated to the shape of the scores.
pub proof fn lemma_scores_broader(p: Seq<int>, bias: Option<Seq<int>>, mask: Option<Seq<int>>)
    requires
        combines(p, bias),
        combines(widened(p, bias), mask),
    ensures
        broadcasts_to(p, widened(widened(p, bias), mask)),
        broadcasts_to(widened(p, bias), widened(widened(p, bias), mask)),
        bias is Some ==> broadcasts_to(bias->0, widened(widened(p, bias), mask)),
        mask is Some ==> broadcasts_to(mask->0, widened(widened(p, bias), mask)),
{
    let w = widened(p, bias);
    let f = widened(w, mask);
    assert(broadcasts_to(p, p));
    assert(broadcasts_to(w, w));
    if let Some(b) = bias {
        lemma_operands_repeat(p, b);
    }
    if let Some(b) = mask {
        lemma_operands_repeat(w, b);
    }
    lemma_broadcasts_through(p, w, f);
    if let Some(b) = bias {
        lemma_broadcasts_through(b, w, f);
    }
}

/// Arrays that can both be repeated to one shape can be combined.
pub proof fn lemma_both_repeated(a: Seq<int>, b: Seq<int>, s: Seq<int>)
    requires
        broadcasts_to(a, s),
        broadcasts_to(b, s),
    ensures
        compatible(a, b),
{
    let r = max_rank(a, b);
    assert forall|k: int| 0 <= k < r implies #[trigger] aligned(a, r, k) == aligned(b, r, k)
        || aligned(a, r, k) == 1 || aligned(b, r, k) == 1 by {
        if k >= r - a.len() {
            let j = k - (r - a.len());
            assert(a[j] == s[s.len() - a.len() + j] || a[j] == 1);
        }
        if k >= r - b.len() {
            let j = k - (r - b.len());
            assert(b[j] == s[s.len() - b.len() + j] || b[j] == 1);
        }
    }
}

/// Every matrix of a stack transposed.
fn transpose_matrices(x: &Array) -> (r: Array)
    requires
        x.wf(),
        2 <= x.dims().len() <= i32::MAX,
    ensures
        r.wf(),
        r.dims() == exchange(x.dims()),
        forall|m: Model| #[trigger] r.value(m) == matrix_transpose(x.value(m)),
{
    let rank: usize = x.shape().len();
    let ghost s = x.dims();
    let mut axes: Vec<i32> = Vec::new();
    for k in 0..rank
        invariant
            rank <= i32::MAX,
            axes@.len() == k,
            forall|j: int| 0 <= j < k ==> #[trigger] axes@[j] == j,
    {
        axes.push(k as i32);
    }
    axes.set(rank - 1, (rank - 2) as i32);
    axes.set(rank - 2, (rank - 1) as i32);
    let ghost ax = ints(axes@);
    proof {
        assert forall|k: int| 0 <= k < rank implies #[trigger] ax[k] == (if k == rank - 1 {
            rank - 2
        } else if k == rank - 2 {
            rank - 1
        } else {
            k
        }) by {}
        assert(is_permutation(ax, rank as int));
        assert(permuted(s, ax) == exchange(s));
    }
    let r = x.transpose_axes(axes.as_slice());
    proof {
        assert forall|m: Model| #[trigger] r.value(m) == matrix_transpose(x.value(m)) by {
            let t = x.value(m);
            let u = exchange(s);
            assert(is_shape(u));
            lemma_size_nonneg(u);
            assert forall|i: Seq<int>| in_bounds(u, i) implies #[trigger] r.value(m).at(i)
                == matrix_transpose(t).at(i) by {
                lemma_permute_at(t, ax, ax, i);
                assert(permuted(i, ax) == exchange(i));
                lemma_tabulate(u, |i: Seq<int>| t.at(exchange(i)), i);
            }
            lemma_tensor_ext(r.value(m), matrix_transpose(t));
        }
    }
    r
}

/// Which of `keys` key positions come after each of `queries` query positions.
fn future_positions(queries: usize, keys: usize) -> (r: Vec<bool>)
    ensures
        r@.len() == queries * keys,
        forall|i: int, j: int|
            0 <= i < queries && 0 <= j < keys ==> #[trigger] r@[i * keys + j] == (j > i),
{
    let mut r: Vec<bool> = Vec::new();
    for i in 0..queries
        invariant
            r@.len() == i * keys,
            keys > 0 ==> forall|p: int|
                0 <= p < r@.len() ==> #[trigger] r@[p] == (p % (keys as int) > p / (keys as int)),
    {
        for j in 0..keys
            invariant
                r@.len() == i * keys + j,
                keys > 0 ==> forall|p: int|
                    0 <= p < r@.len() ==> #[trigger] r@[p] == (p % (keys as int) > p / (
                    keys as int)),
        {
            proof {
                lemma_fundamental_div_mod_converse(
                    i * keys + j,
                    keys as int,
                    i as int,
                    j as int,
                );
            }
            r.push(j > i);
        }
        assert((i + 1) * keys == i * keys + keys) by (nonlinear_arith);
    }
    proof {
        assert forall|i: int, j: int| 0 <= i < queries && 0 <= j < keys implies #[trigger] r@[i
            * keys + j] == (j > i) by {
            lemma_fundamental_div_mod_converse(i * keys + j, keys as int, i, j);
            assert(0 <= i * keys + j < queries * keys) by (nonlinear_arith)
                requires
                    0 <= i < queries,
                    0 <= j < keys,
            ;
        }
    }
    r
}

/// The scores with minus infinity where the key comes after the query.
fn mask_future(scores: &Array) -> (r: Array)
    requires
        scores.wf(),
        scores.dims().len() >= 2,
    ensures
        r.wf(),
        r.dims() == scores.dims(),
        forall|m: Model|
            #[trigger] r.value(m) == tabulate(
                scores.dims(),
                |i: Seq<int>| with_causality(m, true, i, scores.value(m).at(i)),
            ),
{
    let ghost s = scores.dims();
    let rank: usize = scores.shape().len();
    let seq_q: i32 = scores.shape()[rank - 2];
    let seq_k: i32 = scores.shape()[rank - 1];
    let ghost (a, b) = (s[rank - 2], s[rank - 1]);
    proof {
        assert(a == seq_q && b == seq_k);
        assert(a >= 0 && b >= 0);
    }
    let tri = future_positions(seq_q as usize, seq_k as usize);
    let tri_shape: [i32; 2] = [seq_q, seq_k];
    proof {
        assert(ints(tri_shape@) == seq![a, b]);
        lemma_rank2(seq![a, b], seq![0, 0]);
    }
    let ghost late = tri@;
    let tri_arr = Array::from_bools(tri, tri_shape.as_slice());
    let shape = copy_i32(scores.shape().as_slice());
    proof {
        assert(broadcasts_to(seq![a, b], s));
    }
    let tri_b = tri_arr.broadcast_to(shape.as_slice());
    proof {
        lemma_absorb(s, s);
        assert(broadcasts_to(s, s));
    }
    let r = fill_where(&tri_b, Const::NegInfinity, scores);
    proof {
        assert forall|m: Model|
            #[trigger] r.value(m) == tabulate(
                s,
                |i: Seq<int>| with_causality(m, true, i, scores.value(m).at(i)),
            ) by {
            let t = scores.value(m);
            let e = (m.constant)(Const::NegInfinity);
            let (small, big) = (tri_arr.value(m), tri_b.value(m));
            let f = |i: Seq<int>| with_causality(m, true, i, t.at(i));
            lemma_size_nonneg(s);
            assert forall|i: Seq<int>| in_bounds(s, i) implies #[trigger] r.value(m).at(i)
                == tabulate(s, f).at(i) by {
                lemma_tabulate(s, f, i);
                lemma_tabulate(
                    s,
                    |i: Seq<int>| ternary(m, TernaryOp::Where, look(big, i), e, t.at(i)),
                    i,
                );
                lemma_broadcast_index_same(s, i);
                lemma_tabulate(s, |i: Seq<int>| small.at(broadcast_index(small.shape, i)), i);
                let (y, x) = (i[rank - 2], i[rank - 1]);
                assert(0 <= y < a && 0 <= x < b);
                let j = broadcast_index(small.shape, i);
                assert(j == seq![y, x]);
                lemma_rank2(seq![a, b], j);
                assert(late[y * b + x] == (x > y));
                lemma_ravel_bound(seq![a, b], j);
            }
            lemma_tensor_ext(r.value(m), tabulate(s, f));
        }
    }
    r
}

/// The scores with minus infinity where the mask is true.
fn mask_scores(mask: &Array, scores: &Array) -> (r: Array)
    requires
        mask.wf(),
        scores.wf(),
        compatible(scores.dims(), mask.dims()),
    ensures
        r.wf(),
        r.dims() == broadcast_shape(scores.dims(), mask.dims()),
        forall|m: Model|
            #[trigger] r.value(m) == tabulate(
                r.dims(),
                |i: Seq<int>|
                    ternary(
                        m,
                        TernaryOp::Where,
                        look(mask.value(m), i),
                        (m.constant)(Const::NegInfinity),
                        look(scores.value(m), i),
                    ),
            ),
{
    let ghost (s, t) = (scores.dims(), mask.dims());
    let ghost f = broadcast_shape(s, t);
    let shape = copy_i32(scores.shape().as_slice());
    let neg_inf = Array::constant(Const::NegInfinity);
    let neg_inf_b = neg_inf.broadcast_to(shape.as_slice());
    proof {
        lemma_broadcast_commutes(s, t);
        lemma_operands_repeat(s, t);
        lemma_absorb(s, f);
    }
    let r = Array::ternary(TernaryOp::Where, mask, &neg_inf_b, scores);
    proof {
        assert forall|m: Model|
            #[trigger] r.value(m) == tabulate(
                f,
                |i: Seq<int>|
                    ternary(
                        m,
                        TernaryOp::Where,
                        look(mask.value(m), i),
                        (m.constant)(Const::NegInfinity),
                        look(scores.value(m), i),
                    ),
            ) by {
            let (a, b, c) = (mask.value(m), neg_inf_b.value(m), scores.value(m));
            let e = (m.constant)(Const::NegInfinity);
            let g = |i: Seq<int>| ternary(m, TernaryOp::Where, look(a, i), e, look(c, i));
            lemma_size_nonneg(f);
            assert forall|i: Seq<int>| in_bounds(f, i) implies #[trigger] r.value(m).at(i)
                == tabulate(f, g).at(i) by {
                lemma_tabulate(f, g, i);
                lemma_tabulate(
                    broadcast_shape(broadcast_shape(a.shape, b.shape), c.shape),
                    |i: Seq<int>|
                        ternary(
                            m,
                            TernaryOp::Where,
                            a.at(broadcast_index(a.shape, i)),
                            b.at(broadcast_index(b.shape, i)),
                            c.at(broadcast_index(c.shape, i)),
                        ),
                    i,
                );
                let j = broadcast_index(s, i);
                lemma_broadcast_to_index(s, f, i);
                let v = scalar(e);
                lemma_tabulate(s, |i: Seq<int>| v.at(broadcast_index(v.shape, i)), j);
                lemma_look_scalar(e, j);
            }
            lemma_tensor_ext(r.value(m), tabulate(f, g));
        }
    }
    r
}

/// Scores squashed to a bound.
fn squash(scores: &Array, softcap: Option<Scalar>) -> (r: Array)
    requires
        scores.wf(),
    ensures
        r.wf(),
        r.dims() == scores.dims(),
        forall|m: Model|
            #[trigger] r.value(m) == mapped(scores.value(m), |e: Elem| squashed(m, softcap, e)),
{
    match softcap {
        Some(c) => {
            let divided = with_constant(scores, BinaryOp::Divide, Const::Value(c));
            let tanh = divided.unary(UnaryOp::Tanh);
            let r = with_constant(&tanh, BinaryOp::Multiply, Const::Value(c));
            proof {
                assert forall|m: Model|
                    #[trigger] r.value(m) == mapped(
                        scores.value(m),
                        |e: Elem| squashed(m, softcap, e),
                    ) by {
                    let spec = mapped(scores.value(m), |e: Elem| squashed(m, softcap, e));
                    assert(tanh.value(m).data.len() == spec.data.len());
                    assert(r.value(m).data == spec.data);
                }
            }
            r
        },
        None => {
            let r = scores.clone();
            proof {
                assert forall|m: Model|
                    #[trigger] r.value(m) == mapped(
                        scores.value(m),
                        |e: Elem| squashed(m, softcap, e),
                    ) by {
                    let spec = mapped(scores.value(m), |e: Elem| squashed(m, softcap, e));
                    assert(scores.value(m).data == spec.data);
                }
            }
            r
        },
    }
}

/// Scaling and squashing, then a bias, then a mask, then causal masking give the scores.
proof fn lemma_steps(
    m: Model,
    q: Tensor,
    k: Tensor,
    mask: Option<Tensor>,
    bias: Option<Tensor>,
    o: AttentionModuleOptions,
    capped: Tensor,
    biased: Tensor,
    masked: Tensor,
    result: Tensor,
)
    requires
        matmul(m, q, matrix_transpose(k)).wf(),
        combines(products_shape(q.shape, k.shape), shape_of(bias)),
        combines(widened(products_shape(q.shape, k.shape), shape_of(bias)), shape_of(mask)),
        is_shape(scores_shape(q.shape, k.shape, shape_of(mask), shape_of(bias))),
        capped == mapped(
            mapped(
                matmul(m, q, matrix_transpose(k)),
                |e: Elem|
                    binary(
                        m,
                        BinaryOp::Multiply,
                        e,
                        (m.constant)(Const::Scale(attention_scale(o, q.shape.last()))),
                    ),
            ),
            |e: Elem| squashed(m, o.softcap, e),
        ),
        biased == (match bias {
            Some(b) => zip(m, BinaryOp::Add, capped, b),
            None => capped,
        }),
        masked == (match mask {
            Some(b) => tabulate(
                broadcast_shape(biased.shape, b.shape),
                |i: Seq<int>|
                    ternary(
                        m,
                        TernaryOp::Where,
                        look(b, i),
                        (m.constant)(Const::NegInfinity),
                        look(biased, i),
                    ),
            ),
            None => biased,
        }),
        result == (if o.is_causal {
            tabulate(masked.shape, |i: Seq<int>| with_causality(m, true, i, masked.at(i)))
        } else {
            masked
        }),
        result.wf(),
    ensures
        result == attention_scores(m, q, k, mask, bias, o),
{
    let p = products_shape(q.shape, k.shape);
    let s = scores_shape(q.shape, k.shape, shape_of(mask), shape_of(bias));
    let spec = attention_scores(m, q, k, mask, bias, o);
    let products = matmul(m, q, matrix_transpose(k));
    let scale = (m.constant)(Const::Scale(attention_scale(o, q.shape.last())));
    let neg = (m.constant)(Const::NegInfinity);
    lemma_scores_broader(p, shape_of(bias), shape_of(mask));
    lemma_size_nonneg(s);
    assert(products.shape == p);
    assert forall|i: Seq<int>| in_bounds(s, i) implies #[trigger] result.at(i) == spec.at(i) by {
        lemma_tabulate(
            s,
            |i: Seq<int>|
                with_causality(
                    m,
                    o.is_causal,
                    i,
                    with_mask(
                        m,
                        mask,
                        i,
                        with_bias(
                            m,
                            bias,
                            i,
                            squashed(
                                m,
                                o.softcap,
                                binary(m, BinaryOp::Multiply, look(products, i), scale),
                            ),
                        ),
                    ),
                ),
            i,
        );
        lemma_broadcast_to_index(p, s, i);
        lemma_ravel_bound(p, broadcast_index(p, i));
        if let Some(b) = bias {
            lemma_zip_look(m, BinaryOp::Add, capped, b, s, i);
        }
        if let Some(b) = mask {
            lemma_tabulate(
                s,
                |i: Seq<int>| ternary(m, TernaryOp::Where, look(b, i), neg, look(biased, i)),
                i,
            );
        } else {
            lemma_broadcast_index_same(s, i);
        }
        assert(masked.at(i) == with_mask(m, mask, i, look(biased, i)));
        if o.is_causal {
            lemma_tabulate(s, |i: Seq<int>| with_causality(m, true, i, masked.at(i)), i);
        }
    }
    lemma_tensor_ext(result, spec);
}

/// The scores of all pairs of query and key positions.
fn score(
    query: &Array,
    key: &Array,
    mask: &Option<MlxTensorPrimitive>,
    bias: &Option<MlxTensorPrimitive>,
    options: AttentionModuleOptions,
) -> (r: Array)
    requires
        query.wf(),
        key.wf(),
        2 <= query.dims().len() <= i32::MAX,
        key.dims().len() == query.dims().len(),
        matmul_fits(query.dims(), exchange(key.dims())),
        optional_wf(*mask),
        optional_wf(*bias),
        combines(products_shape(query.dims(), key.dims()), optional_dims(*bias)),
        combines(
            widened(products_shape(query.dims(), key.dims()), optional_dims(*bias)),
            optional_dims(*mask),
        ),
    ensures
        r.wf(),
        r.dims() == scores_shape(
            query.dims(),
            key.dims(),
            optional_dims(*mask),
            optional_dims(*bias),
        ),
        forall|m: Model|
            #[trigger] r.value(m) == attention_scores(
                m,
                query.value(m),
                key.value(m),
                optional_value(*mask, m),
                optional_value(*bias, m),
                options,
            ),
{
    let rank: usize = query.shape().len();
    let head_dim: i32 = query.shape()[rank - 1];
    let scale = match options.scale {
        Some(s) => Scale::Given(s),
        None => Scale::InvSqrt(head_dim as usize),
    };
    let ghost p = products_shape(query.dims(), key.dims());
    let ghost s = scores_shape(
        query.dims(),
        key.dims(),
        optional_dims(*mask),
        optional_dims(*bias),
    );
    proof {
        lemma_scores_broader(p, optional_dims(*bias), optional_dims(*mask));
        assert(query.dims()[rank - 1] == head_dim);
        assert(scale == attention_scale(options, query.dims().last()));
    }
    let k_t = transpose_matrices(key);
    let products = query.matmul(&k_t);
    let scaled = with_constant(&products, BinaryOp::Multiply, Const::Scale(scale));
    let capped = squash(&scaled, options.softcap);
    let biased = match bias {
        Some(b) => capped.binary(BinaryOp::Add, &b.array),
        None => capped.clone(),
    };
    let masked = match mask {
        Some(b) => mask_scores(&b.array, &biased),
        None => biased.clone(),
    };
    let r = if options.is_causal {
        mask_future(&masked)
    } else {
        masked.clone()
    };
    proof {
        assert forall|m: Model|
            #[trigger] r.value(m) == attention_scores(
                m,
                query.value(m),
                key.value(m),
                optional_value(*mask, m),
                optional_value(*bias, m),
                options,
            ) by {
            let (mv, bv) = (optional_value(*mask, m), optional_value(*bias, m));
            assert(shape_of(mv) == optional_dims(*mask));
            assert(shape_of(bv) == optional_dims(*bias));
            assert(products.value(m).wf());
            let spec = mapped(scaled.value(m), |e: Elem| squashed(m, options.softcap, e));
            assert(capped.value(m) == spec);
            lemma_steps(
                m,
                query.value(m),
                key.value(m),
                mv,
                bv,
                options,
                capped.value(m),
                biased.value(m),
                masked.value(m),
                r.value(m),
            );
        }
    }
    r
}

/// What is added to the scores for a mask.
fn add_mask(mask: &Array) -> (r: Array)
    requires
        mask.wf(),
    ensures
        r.wf(),
        r.dims() == mask.dims(),
        forall|m: Model| #[trigger] r.value(m) == additive_mask(m, mask.value(m)),
{
    let ghost s = mask.dims();
    let shape = copy_i32(mask.shape().as_slice());
    let zero = Array::constant(Const::Zero);
    let zero_b = zero.broadcast_to(shape.as_slice());
    proof {
        assert(broadcasts_to(s, s));
    }
    let r = fill_where(mask, Const::NegInfinity, &zero_b);
    proof {
        assert forall|m: Model| #[trigger] r.value(m) == additive_mask(m, mask.value(m)) by {
            let (a, z) = (mask.value(m), zero_b.value(m));
            let neg = (m.constant)(Const::NegInfinity);
            let nil = (m.constant)(Const::Zero);
            lemma_size_nonneg(s);
            assert forall|i: Seq<int>| in_bounds(s, i) implies #[trigger] r.value(m).at(i)
                == additive_mask(m, a).at(i) by {
                lemma_tabulate(
                    s,
                    |i: Seq<int>| ternary(m, TernaryOp::Where, look(a, i), neg, z.at(i)),
                    i,
                );
                lemma_tabulate(
                    s,
                    |i: Seq<int>| ternary(m, TernaryOp::Where, a.at(i), neg, nil),
                    i,
                );
                lemma_broadcast_index_same(s, i);
                let v = scalar(nil);
                lemma_tabulate(s, |i: Seq<int>| v.at(broadcast_index(v.shape, i)), i);
                lemma_look_scalar(nil, i);
            }
            lemma_tensor_ext(r.value(m), additive_mask(m, a));
        }
    }
    r
}

impl Mlx {
    /// Attention of `query` to `key` and `value`.
    pub fn attention(
        query: MlxTensorPrimitive,
        key: MlxTensorPrimitive,
        value: MlxTensorPrimitive,
        mask: Option<MlxTensorPrimitive>,
        attn_bias: Option<MlxTensorPrimitive>,
        options: AttentionModuleOptions,
    ) -> (r: MlxTensorPrimitive)
        requires
            query.wf(),
            key.wf(),
            value.wf(),
            query.dims().len() <= i32::MAX,
            attention_fits(
                query.dims(),
                key.dims(),
                value.dims(),
                mask,
                attn_bias,
                options,
            ),
        ensures
            r.wf(),
            forall|m: Model|
                #[trigger] r.value(m) == attention(
                    m,
                    query.value(m),
                    key.value(m),
                    value.value(m),
                    optional_value(mask, m),
                    optional_value(attn_bias, m),
                    options,
                ),
    {
        let manual: bool = options.softcap.is_some() || (options.is_causal && (mask.is_some()
            || attn_bias.is_some()));
        if manual {
            let scores = score(&query.array, &key.array, &mask, &attn_bias, options);
            let weights = scores.softmax();
            let out = weights.matmul(&value.array);
            return MlxTensorPrimitive::new(out);
        }
        let ghost (s, t) = (query.dims(), value.dims());
        let q_shape = query.array.shape();
        let v_shape = value.array.shape();
        proof {
            assert(s[0] == q_shape@[0] && s[1] == q_shape@[1] && s[2] == q_shape@[2]);
            assert(s[3] == q_shape@[3] && t[3] == v_shape@[3]);
            assert(s[0] >= 0 && s[1] >= 0 && s[2] >= 0 && s[3] >= 0 && t[3] >= 0);
        }
        let scale = match options.scale {
            Some(c) => Scale::Given(c),
            None => Scale::InvSqrt(q_shape[3] as usize),
        };
        let shape: Vec<i32> = vec![q_shape[0], q_shape[1], q_shape[2], v_shape[3]];
        proof {
            assert(ints(shape@) == seq![s[0], s[1], s[2], t[3]]);
        }
        let additive: Option<Array> = match (&mask, &attn_bias) {
            (None, None) => None,
            (Some(a), None) => Some(add_mask(&a.array)),
            (None, Some(b)) => Some(b.array.clone()),
            (Some(a), Some(b)) => {
                let mask_add = add_mask(&a.array);
                proof {
                    lemma_both_repeated(
                        a.dims(),
                        b.dims(),
                        seq![s[0], s[1], s[2], key.dims()[2]],
                    );
                }
                Some(mask_add.binary(BinaryOp::Add, &b.array))
            },
        };
        let op = Kernel::Attention { scale, causal: options.is_causal };
        let mut operands: Vec<&Array> = vec![&query.array, &key.array, &value.array];
        if let Some(a) = &additive {
            operands.push(a);
        }
        let result = Array::kernel(op, operands.as_slice(), shape);
        proof {
            assert forall|m: Model|
                #[trigger] result.value(m) == attention(
                    m,
                    query.value(m),
                    key.value(m),
                    value.value(m),
                    optional_value(mask, m),
                    optional_value(attn_bias, m),
                    options,
                ) by {
                assert(values(operands@, m) == seq![query.value(m), key.value(m), value.value(m)]
                    + mask_operand(m, optional_value(mask, m), optional_value(attn_bias, m)));
            }
        }
        MlxTensorPrimitive::new(result)
    }
}

} // verus!
