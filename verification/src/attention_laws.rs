//! Laws of attention.
use crate::activation::lemma_operands_repeat;
use crate::attention::{
    additive_mask, attention, attention_scale, attention_scores, combines, exchange,
    lemma_both_repeated, lemma_scores_broader, mask_operand, matrix_transpose, needs_manual,
    products_shape, scores_shape, shape_of, squashed, stepwise_fits, widened, with_bias,
    with_causality, with_mask,
};
use crate::elementwise::mapped;
use crate::exact::{
    computes_reals, inner_product, lemma_total_ext, lemma_total_order, lemma_total_scale, total,
};
use crate::float::{swap_axes, swapped};
use crate::index::{in_bounds, is_shape, lemma_ravel_bound, lemma_size_nonneg, size};
use crate::laws::{all_finite, finite_or_least, lemma_score_at};
use crate::op::{BinaryOp, Const, Kernel, Scalar, Scale, TernaryOp, UnaryOp};
use crate::options::AttentionModuleOptions;
use crate::tensor::{
    Elem, Model, Tensor, batch, binary, broadcast_index, broadcast_shape, broadcasts_to,
    lemma_absorb, lemma_broadcast_commutes, lemma_broadcast_index_same, lemma_broadcast_is_shape,
    lemma_broadcast_regroups, lemma_broadcast_to_index, lemma_index_through, lemma_join,
    lemma_tabulate, lemma_tensor_ext, lemma_zip_look, look, matmul, matmul_fits, matmul_shape,
    row, softmax, ternary, unary, zip,
};
use vstd::prelude::*;

verus! {

/// Attention one step at a time: scores, softmax over the keys, and the weighted values.
pub open spec fn stepwise(
    m: Model,
    q: Tensor,
    k: Tensor,
    v: Tensor,
    mask: Option<Tensor>,
    bias: Option<Tensor>,
    o: AttentionModuleOptions,
) -> Tensor {
    matmul(m, softmax(m, attention_scores(m, q, k, mask, bias, o)), v)
}

/// The scores before bias and masks.
pub open spec fn plain_score(
    m: Model,
    q: Tensor,
    k: Tensor,
    o: AttentionModuleOptions,
    i: Seq<int>,
) -> Elem {
    squashed(
        m,
        o.softcap,
        binary(
            m,
            BinaryOp::Multiply,
            look(matmul(m, q, matrix_transpose(k)), i),
            (m.constant)(Const::Scale(attention_scale(o, q.shape.last()))),
        ),
    )
}

/// The shape of the scores.
pub open spec fn score_dims(
    q: Tensor,
    k: Tensor,
    mask: Option<Tensor>,
    bias: Option<Tensor>,
) -> Seq<int> {
    scores_shape(q.shape, k.shape, shape_of(mask), shape_of(bias))
}

pub open spec fn operand_wf(t: Option<Tensor>) -> bool {
    match t {
        Some(x) => x.wf(),
        None => true,
    }
}

/// A bias and a mask can be combined with the products of queries and keys.
pub open spec fn operands_combine(
    q: Tensor,
    k: Tensor,
    mask: Option<Tensor>,
    bias: Option<Tensor>,
) -> bool {
    &&& operand_wf(mask)
    &&& operand_wf(bias)
    &&& combines(products_shape(q.shape, k.shape), shape_of(bias))
    &&& combines(widened(products_shape(q.shape, k.shape), shape_of(bias)), shape_of(mask))
}

/// Query `[B, H, LQ, D]`, key `[B, H, LK, D]` and value `[B, H, LK, E]`.
pub open spec fn heads_fit(q: Seq<int>, k: Seq<int>, v: Seq<int>) -> bool {
    &&& q.len() == 4
    &&& k.len() == 4
    &&& v.len() == 4
    &&& k[0] == q[0]
    &&& v[0] == q[0]
    &&& k[1] == q[1]
    &&& v[1] == q[1]
    &&& k[2] == v[2]
    &&& k[3] == q[3]
}

/// An optional operand that can be repeated to shape `s`.
pub open spec fn operand_fits(t: Option<Tensor>, s: Seq<int>) -> bool {
    match t {
        Some(x) => x.wf() && broadcasts_to(x.shape, s),
        None => true,
    }
}

/// What the attention kernel is given to add to the scores.
pub open spec fn added(m: Model, mask: Option<Tensor>, bias: Option<Tensor>) -> Option<Tensor> {
    match (mask, bias) {
        (None, None) => None,
        _ => Some(mask_operand(m, mask, bias)[0]),
    }
}

/// The attention kernel computes what the single steps do, with its mask operand as the
/// bias, where as many keys as queries are masked causally.
pub open spec fn kernel_follows_steps(m: Model) -> bool {
    forall|
        q: Tensor,
        k: Tensor,
        v: Tensor,
        mask: Option<Tensor>,
        bias: Option<Tensor>,
        o: AttentionModuleOptions,
    |
        {
            &&& q.wf()
            &&& k.wf()
            &&& v.wf()
            &&& heads_fit(q.shape, k.shape, v.shape)
            &&& operand_fits(mask, products_shape(q.shape, k.shape))
            &&& operand_fits(bias, products_shape(q.shape, k.shape))
            &&& !needs_manual(o, mask is Some, bias is Some)
            &&& o.is_causal ==> q.shape[2] == k.shape[2]
        } ==> #[trigger] attention(m, q, k, v, mask, bias, o) == stepwise(
            m,
            q,
            k,
            v,
            None,
            added(m, mask, bias),
            o,
        )
}

/// Attention is computed one step at a time, or by a kernel that does the same.
pub open spec fn follows_steps(
    m: Model,
    q: Tensor,
    k: Tensor,
    v: Tensor,
    mask: Option<Tensor>,
    bias: Option<Tensor>,
    o: AttentionModuleOptions,
) -> bool {
    ||| needs_manual(o, mask is Some, bias is Some)
    ||| {
        &&& kernel_follows_steps(m)
        &&& heads_fit(q.shape, k.shape, v.shape)
        &&& operand_fits(mask, products_shape(q.shape, k.shape))
        &&& operand_fits(bias, products_shape(q.shape, k.shape))
        &&& o.is_causal ==> q.shape[2] == k.shape[2]
    }
}

/// A row is made of finite numbers and minus infinity, and is not all minus infinity.
pub open spec fn has_weight(m: Model, s: Seq<Elem>, finite: spec_fn(Elem) -> bool) -> bool {
    &&& finite_or_least(m, s, finite)
    &&& exists|j: int| 0 <= j < s.len() && #[trigger] s[j] != (m.constant)(Const::NegInfinity)
}

/// Softmax gives no weight to minus infinity, where there is anything else in the row.
pub open spec fn softmax_ignores_least(m: Model, finite: spec_fn(Elem) -> bool) -> bool {
    forall|s: Seq<Elem>, k: int|
        has_weight(m, s, finite) && 0 <= k < s.len() && s[k] == (m.constant)(Const::NegInfinity)
            ==> #[trigger] (m.softmax)(s, k) == (m.constant)(Const::Zero)
}

/// A weight of zero adds nothing to a weighted sum of finite values.
pub open spec fn zero_weight_adds_nothing(m: Model, finite: spec_fn(Elem) -> bool) -> bool {
    forall|w: Seq<Elem>, a: Seq<Elem>, b: Seq<Elem>|
        {
            &&& a.len() == w.len()
            &&& b.len() == w.len()
            &&& forall|k: int| 0 <= k < a.len() ==> finite(#[trigger] a[k])
            &&& forall|k: int| 0 <= k < b.len() ==> finite(#[trigger] b[k])
            &&& forall|k: int|
                0 <= k < w.len() && #[trigger] w[k] != (m.constant)(Const::Zero) ==> a[k] == b[k]
        } ==> #[trigger] (m.dot)(w, a) == #[trigger] (m.dot)(w, b)
}

/// To a finite number, minus infinity adds up to minus infinity, and zero changes nothing.
pub open spec fn adds_least_and_zero(m: Model, finite: spec_fn(Elem) -> bool) -> bool {
    let least = (m.constant)(Const::NegInfinity);
    let zero = (m.constant)(Const::Zero);
    forall|x: Elem| #[trigger]
        finite(x) ==> {
            &&& binary(m, BinaryOp::Add, x, least) == least
            &&& binary(m, BinaryOp::Add, least, x) == least
            &&& binary(m, BinaryOp::Add, x, zero) == x
            &&& binary(m, BinaryOp::Add, zero, x) == x
        }
}

/// The scores before bias and masks, and the bias, are finite wherever scores of shape `s`
/// read them.
pub open spec fn finite_scores(
    m: Model,
    q: Tensor,
    k: Tensor,
    bias: Option<Tensor>,
    o: AttentionModuleOptions,
    finite: spec_fn(Elem) -> bool,
    s: Seq<int>,
) -> bool {
    &&& forall|i: Seq<int>| in_bounds(s, i) ==> finite(#[trigger] plain_score(m, q, k, o, i))
    &&& match bias {
        Some(b) => forall|i: Seq<int>| in_bounds(s, i) ==> finite(#[trigger] look(b, i)),
        None => true,
    }
}

/// A mask holds truth values.
pub open spec fn mask_of_bools(mask: Option<Tensor>, s: Seq<int>) -> bool {
    match mask {
        Some(b) => forall|i: Seq<int>| in_bounds(s, i) ==> (#[trigger] look(b, i)) is Bool,
        None => true,
    }
}

proof fn lemma_score(
    m: Model,
    q: Tensor,
    k: Tensor,
    mask: Option<Tensor>,
    bias: Option<Tensor>,
    o: AttentionModuleOptions,
    i: Seq<int>,
)
    requires
        in_bounds(score_dims(q, k, mask, bias), i),
    ensures
        attention_scores(m, q, k, mask, bias, o).at(i) == with_causality(
            m,
            o.is_causal,
            i,
            with_mask(m, mask, i, with_bias(m, bias, i, plain_score(m, q, k, o, i))),
        ),
{
    lemma_score_at(m, q, k, mask, bias, o, i);
}

proof fn lemma_scores_wf(q: Tensor, k: Tensor, mask: Option<Tensor>, bias: Option<Tensor>)
    requires
        q.wf(),
        k.wf(),
        q.shape.len() >= 2,
        k.shape.len() == q.shape.len(),
        operand_wf(mask),
        operand_wf(bias),
    ensures
        is_shape(score_dims(q, k, mask, bias)),
        size(score_dims(q, k, mask, bias)) >= 0,
        products_shape(q.shape, k.shape).len() == q.shape.len(),
        score_dims(q, k, mask, bias).len() >= q.shape.len(),
{
    let s = products_shape(q.shape, k.shape);
    let (a, b) = (batch(q.shape), batch(exchange(k.shape)));
    let r = q.shape.len();
    assert(is_shape(a)) by {
        assert forall|j: int| 0 <= j < a.len() implies #[trigger] a[j] >= 0 by {
            assert(q.shape[j] >= 0);
        }
    }
    assert(is_shape(b)) by {
        assert forall|j: int| 0 <= j < b.len() implies #[trigger] b[j] >= 0 by {
            assert(k.shape[j] >= 0);
        }
    }
    lemma_broadcast_is_shape(a, b);
    let o = broadcast_shape(a, b);
    assert(q.shape[r - 2] >= 0 && k.shape[r - 2] >= 0);
    assert(exchange(k.shape)[r - 1] == k.shape[r - 2]);
    assert forall|j: int| 0 <= j < s.len() implies #[trigger] s[j] >= 0 by {
        if j < o.len() {
            assert(o[j] >= 0);
        }
    }
    if let Some(x) = bias {
        lemma_broadcast_is_shape(s, x.shape);
    }
    if let Some(x) = mask {
        lemma_broadcast_is_shape(widened(s, shape_of(bias)), x.shape);
    }
    lemma_size_nonneg(score_dims(q, k, mask, bias));
}

proof fn lemma_scores_equal(
    m: Model,
    q: Tensor,
    k: Tensor,
    mask1: Option<Tensor>,
    bias1: Option<Tensor>,
    o1: AttentionModuleOptions,
    mask2: Option<Tensor>,
    bias2: Option<Tensor>,
    o2: AttentionModuleOptions,
)
    requires
        q.wf(),
        k.wf(),
        q.shape.len() >= 2,
        k.shape.len() == q.shape.len(),
        operand_wf(mask1),
        operand_wf(bias1),
        score_dims(q, k, mask2, bias2) == score_dims(q, k, mask1, bias1),
        forall|i: Seq<int>|
            in_bounds(score_dims(q, k, mask1, bias1), i) ==> #[trigger] attention_scores(
                m,
                q,
                k,
                mask1,
                bias1,
                o1,
            ).at(i) == attention_scores(m, q, k, mask2, bias2, o2).at(i),
    ensures
        attention_scores(m, q, k, mask1, bias1, o1) == attention_scores(
            m,
            q,
            k,
            mask2,
            bias2,
            o2,
        ),
{
    lemma_scores_wf(q, k, mask1, bias1);
    lemma_tensor_ext(
        attention_scores(m, q, k, mask1, bias1, o1),
        attention_scores(m, q, k, mask2, bias2, o2),
    );
}

/// Where a bias and a mask can be repeated to the shape of the products, that is the shape of
/// the scores.
proof fn lemma_fits_combine(p: Seq<int>, mask: Option<Tensor>, bias: Option<Tensor>)
    requires
        operand_fits(mask, p),
        operand_fits(bias, p),
    ensures
        combines(p, shape_of(bias)),
        widened(p, shape_of(bias)) == p,
        combines(p, shape_of(mask)),
        widened(p, shape_of(mask)) == p,
{
    if let Some(x) = bias {
        lemma_absorb(x.shape, p);
    }
    if let Some(x) = mask {
        lemma_absorb(x.shape, p);
    }
}

/// `later` masks, among scores of shape `s`, what `mask` does and every key that comes after
/// the query.
pub open spec fn masks_future(later: Tensor, mask: Option<Tensor>, s: Seq<int>) -> bool {
    forall|i: Seq<int>|
        in_bounds(s, i) ==> #[trigger] look(later, i) == Elem::Bool(
            i[i.len() - 1] > i[i.len() - 2] || (match mask {
                Some(b) => look(b, i) == Elem::Bool(true),
                None => false,
            }),
        )
}

/// The causal flag is a mask: the scores with the flag are the scores without it under the
/// mask that also excludes every key after the query.
pub proof fn law_causal_flag_is_a_mask(
    m: Model,
    q: Tensor,
    k: Tensor,
    mask: Option<Tensor>,
    later: Tensor,
    bias: Option<Tensor>,
    o: AttentionModuleOptions,
)
    requires
        q.wf(),
        k.wf(),
        q.shape.len() >= 2,
        k.shape.len() == q.shape.len(),
        o.is_causal,
        operand_wf(mask),
        operand_wf(bias),
        score_dims(q, k, Some(later), bias) == score_dims(q, k, mask, bias),
        mask_of_bools(mask, score_dims(q, k, mask, bias)),
        masks_future(later, mask, score_dims(q, k, mask, bias)),
    ensures
        attention_scores(m, q, k, mask, bias, o) == attention_scores(
            m,
            q,
            k,
            Some(later),
            bias,
            (AttentionModuleOptions { is_causal: false, ..o }),
        ),
{
    let s = score_dims(q, k, mask, bias);
    let free = AttentionModuleOptions { is_causal: false, ..o };
    assert forall|i: Seq<int>| in_bounds(s, i) implies #[trigger] attention_scores(
        m,
        q,
        k,
        mask,
        bias,
        o,
    ).at(i) == attention_scores(m, q, k, Some(later), bias, free).at(i) by {
        lemma_score(m, q, k, mask, bias, o, i);
        lemma_score(m, q, k, Some(later), bias, free, i);
        assert(look(later, i) is Bool);
        assert(plain_score(m, q, k, o, i) == plain_score(m, q, k, free, i));
        if let Some(b) = mask {
            assert(look(b, i) is Bool);
        }
    }
    lemma_scores_equal(m, q, k, mask, bias, o, Some(later), bias, free);
}

/// What an additive mask contributes.
proof fn lemma_additive_look(m: Model, mask: Tensor, s: Seq<int>, i: Seq<int>)
    requires
        mask.wf(),
        broadcasts_to(mask.shape, s),
        in_bounds(s, i),
    ensures
        look(additive_mask(m, mask), i) == ternary(
            m,
            TernaryOp::Where,
            look(mask, i),
            (m.constant)(Const::NegInfinity),
            (m.constant)(Const::Zero),
        ),
{
    let j = broadcast_index(mask.shape, i);
    lemma_broadcast_to_index(mask.shape, s, i);
    lemma_tabulate(
        mask.shape,
        |i: Seq<int>|
            ternary(
                m,
                TernaryOp::Where,
                mask.at(i),
                (m.constant)(Const::NegInfinity),
                (m.constant)(Const::Zero),
            ),
        j,
    );
}

/// The bias that does what a mask and a bias do together.
pub open spec fn mask_as_bias(m: Model, mask: Tensor, bias: Option<Tensor>) -> Tensor {
    match bias {
        Some(b) => zip(m, BinaryOp::Add, additive_mask(m, mask), b),
        None => additive_mask(m, mask),
    }
}

/// A mask is a bias: the scores under a mask of truth values are the scores under the bias
/// that is minus infinity where the mask is true and zero elsewhere, plus the bias that was
/// there.
pub proof fn law_mask_is_a_bias(
    m: Model,
    q: Tensor,
    k: Tensor,
    mask: Tensor,
    bias: Option<Tensor>,
    o: AttentionModuleOptions,
    finite: spec_fn(Elem) -> bool,
)
    requires
        q.wf(),
        k.wf(),
        q.shape.len() >= 2,
        k.shape.len() == q.shape.len(),
        operands_combine(q, k, Some(mask), bias),
        mask_of_bools(Some(mask), score_dims(q, k, Some(mask), bias)),
        adds_least_and_zero(m, finite),
        finite_scores(m, q, k, bias, o, finite, score_dims(q, k, Some(mask), bias)),
    ensures
        attention_scores(m, q, k, Some(mask), bias, o) == attention_scores(
            m,
            q,
            k,
            None,
            Some(mask_as_bias(m, mask, bias)),
            o,
        ),
{
    let p = products_shape(q.shape, k.shape);
    let s = score_dims(q, k, Some(mask), bias);
    let shift = mask_as_bias(m, mask, bias);
    lemma_scores_broader(p, shape_of(bias), Some(mask.shape));
    if let Some(b) = bias {
        lemma_broadcast_regroups(p, b.shape, mask.shape);
        lemma_broadcast_commutes(b.shape, mask.shape);
        lemma_join(mask.shape, b.shape, s);
    }
    assert(score_dims(q, k, None, Some(shift)) == s);
    let least = (m.constant)(Const::NegInfinity);
    let zero = (m.constant)(Const::Zero);
    assert forall|i: Seq<int>| in_bounds(s, i) implies #[trigger] attention_scores(
        m,
        q,
        k,
        Some(mask),
        bias,
        o,
    ).at(i) == attention_scores(m, q, k, None, Some(shift), o).at(i) by {
        lemma_score(m, q, k, Some(mask), bias, o, i);
        lemma_score(m, q, k, None, Some(shift), o, i);
        lemma_additive_look(m, mask, s, i);
        let e = plain_score(m, q, k, o, i);
        assert(finite(e));
        assert(look(mask, i) is Bool);
        if let Some(b) = bias {
            let c = additive_mask(m, mask);
            lemma_zip_look(m, BinaryOp::Add, c, b, s, i);
            assert(finite(look(b, i)));
        }
    }
    lemma_scores_equal(m, q, k, Some(mask), bias, o, None, Some(shift), o);
}

/// Attention under a mask of truth values is attention under the bias that does the same.
pub proof fn law_attention_mask_is_a_bias(
    m: Model,
    q: Tensor,
    k: Tensor,
    v: Tensor,
    mask: Tensor,
    bias: Option<Tensor>,
    o: AttentionModuleOptions,
    finite: spec_fn(Elem) -> bool,
)
    requires
        q.wf(),
        k.wf(),
        q.shape.len() >= 2,
        k.shape.len() == q.shape.len(),
        operands_combine(q, k, Some(mask), bias),
        mask_of_bools(Some(mask), score_dims(q, k, Some(mask), bias)),
        adds_least_and_zero(m, finite),
        finite_scores(m, q, k, bias, o, finite, score_dims(q, k, Some(mask), bias)),
    ensures
        attention(m, q, k, v, Some(mask), bias, o) == attention(
            m,
            q,
            k,
            v,
            None,
            Some(mask_as_bias(m, mask, bias)),
            o,
        ),
{
    law_mask_is_a_bias(m, q, k, mask, bias, o, finite);
}

/// The causal flag is a mask for attention as a whole too.
pub proof fn law_attention_causal_flag_is_a_mask(
    m: Model,
    q: Tensor,
    k: Tensor,
    v: Tensor,
    mask: Option<Tensor>,
    later: Tensor,
    bias: Option<Tensor>,
    o: AttentionModuleOptions,
    finite: spec_fn(Elem) -> bool,
)
    requires
        q.wf(),
        k.wf(),
        v.wf(),
        q.shape.len() >= 2,
        k.shape.len() == q.shape.len(),
        o.is_causal,
        operand_wf(mask),
        operand_wf(bias),
        score_dims(q, k, Some(later), bias) == score_dims(q, k, mask, bias),
        mask_of_bools(mask, score_dims(q, k, mask, bias)),
        masks_future(later, mask, score_dims(q, k, mask, bias)),
        follows_steps(m, q, k, v, mask, bias, o),
        follows_steps(
            m,
            q,
            k,
            v,
            Some(later),
            bias,
            (AttentionModuleOptions { is_causal: false, ..o }),
        ),
        o.softcap is None ==> adds_least_and_zero(m, finite) && finite_scores(
            m,
            q,
            k,
            bias,
            o,
            finite,
            score_dims(q, k, mask, bias),
        ),
    ensures
        attention(m, q, k, v, mask, bias, o) == attention(
            m,
            q,
            k,
            v,
            Some(later),
            bias,
            (AttentionModuleOptions { is_causal: false, ..o }),
        ),
{
    let s = score_dims(q, k, mask, bias);
    let free = AttentionModuleOptions { is_causal: false, ..o };
    law_causal_flag_is_a_mask(m, q, k, mask, later, bias, o);
    assert(attention(m, q, k, v, mask, bias, o) == stepwise(m, q, k, v, mask, bias, o));
    if !needs_manual(free, true, bias is Some) {
        assert forall|i: Seq<int>| in_bounds(s, i) implies finite(
            #[trigger] plain_score(m, q, k, free, i),
        ) by {
            assert(plain_score(m, q, k, o, i) == plain_score(m, q, k, free, i));
        }
        lemma_fits_combine(products_shape(q.shape, k.shape), Some(later), bias);
        law_mask_is_a_bias(m, q, k, later, bias, free, finite);
        assert(added(m, Some(later), bias) == Some(mask_as_bias(m, later, bias)));
        assert(attention(m, q, k, v, Some(later), bias, free) == stepwise(
            m,
            q,
            k,
            v,
            None,
            added(m, Some(later), bias),
            free,
        ));
    }
}

/// The scale that stands for one over the square root of `d` is the given one.
pub open spec fn scales_agree(m: Model, d: usize, c: Scalar) -> bool {
    &&& (m.constant)(Const::Scale(Scale::InvSqrt(d))) == (m.constant)(
        Const::Scale(Scale::Given(c)),
    )
    &&& forall|causal: bool, args: Seq<Tensor>, p: int|
        #[trigger] (m.kernel)(Kernel::Attention { scale: Scale::InvSqrt(d), causal }, args, p) == (
        m.kernel)(Kernel::Attention { scale: Scale::Given(c), causal }, args, p)
}

/// The scale is one over the square root of the head dimension unless another is given: giving
/// that one changes nothing.
pub proof fn law_default_scale(
    m: Model,
    q: Tensor,
    k: Tensor,
    v: Tensor,
    mask: Option<Tensor>,
    bias: Option<Tensor>,
    o: AttentionModuleOptions,
    c: Scalar,
)
    requires
        q.wf(),
        k.wf(),
        v.wf(),
        q.shape.len() >= 2,
        k.shape.len() == q.shape.len(),
        operand_wf(mask),
        operand_wf(bias),
        scales_agree(m, q.shape.last() as usize, c),
    ensures
        attention(m, q, k, v, mask, bias, AttentionModuleOptions { scale: None, ..o })
            == attention(m, q, k, v, mask, bias, AttentionModuleOptions { scale: Some(c), ..o }),
{
    let o1 = AttentionModuleOptions { scale: None, ..o };
    let o2 = AttentionModuleOptions { scale: Some(c), ..o };
    let s = score_dims(q, k, mask, bias);
    assert forall|i: Seq<int>| in_bounds(s, i) implies #[trigger] attention_scores(
        m,
        q,
        k,
        mask,
        bias,
        o1,
    ).at(i) == attention_scores(m, q, k, mask, bias, o2).at(i) by {
        lemma_score(m, q, k, mask, bias, o1, i);
        lemma_score(m, q, k, mask, bias, o2, i);
    }
    lemma_scores_equal(m, q, k, mask, bias, o1, mask, bias, o2);
    if !needs_manual(o1, mask is Some, bias is Some) {
        let a = attention(m, q, k, v, mask, bias, o1);
        let b = attention(m, q, k, v, mask, bias, o2);
        assert(a.data == b.data);
    }
}

/// The scores of one query, which stands at index `w`.
pub open spec fn score_row(scores: Tensor, w: Seq<int>) -> Seq<Elem> {
    Seq::new(scores.shape.last() as nat, |j: int| scores.at(w.push(j)))
}

/// Query `i` has, for every index of the batch, a key that it attends to.
pub open spec fn row_attends(
    m: Model,
    scores: Tensor,
    i: int,
    finite: spec_fn(Elem) -> bool,
) -> bool {
    forall|w: Seq<int>|
        in_bounds(scores.shape.drop_last(), w) && w[w.len() - 1] == i ==> has_weight(
            m,
            #[trigger] score_row(scores, w),
            finite,
        )
}

/// The tensors agree in the rows that are kept.
pub open spec fn rows_agree(a: Tensor, b: Tensor, keep: spec_fn(int) -> bool) -> bool {
    &&& a.shape == b.shape
    &&& forall|j: Seq<int>|
        in_bounds(a.shape, j) && keep(j[a.shape.len() - 2]) ==> #[trigger] a.at(j) == b.at(j)
}

/// The query and the key at index `w` of the scores are kept apart: the key comes after the
/// query where that matters, or the mask is true.
pub open spec fn excluded(mask: Option<Tensor>, causal: bool, w: Seq<int>) -> bool {
    ||| causal && w[w.len() - 1] > w[w.len() - 2]
    ||| mask is Some && look(mask->0, w) == Elem::Bool(true)
}

/// Query `i` is kept apart from every key that is not kept.
pub open spec fn rest_excluded(
    mask: Option<Tensor>,
    causal: bool,
    s: Seq<int>,
    i: int,
    keep: spec_fn(int) -> bool,
) -> bool {
    forall|w: Seq<int>| #[trigger]
        in_bounds(s, w) && w[w.len() - 2] == i && !keep(w[w.len() - 1]) ==> excluded(
            mask,
            causal,
            w,
        )
}

proof fn lemma_excluded(
    m: Model,
    q: Tensor,
    k: Tensor,
    mask: Option<Tensor>,
    bias: Option<Tensor>,
    o: AttentionModuleOptions,
    w: Seq<int>,
)
    requires
        in_bounds(score_dims(q, k, mask, bias), w),
        mask_of_bools(mask, score_dims(q, k, mask, bias)),
        excluded(mask, o.is_causal, w),
    ensures
        attention_scores(m, q, k, mask, bias, o).at(w) == (m.constant)(Const::NegInfinity),
{
    lemma_score(m, q, k, mask, bias, o, w);
}

/// Scores of a query do not depend on excluded keys.
proof fn lemma_scores_agree(
    m: Model,
    q: Tensor,
    k1: Tensor,
    k2: Tensor,
    mask: Option<Tensor>,
    bias: Option<Tensor>,
    o: AttentionModuleOptions,
    i: int,
    keep: spec_fn(int) -> bool,
    w: Seq<int>,
)
    requires
        q.wf(),
        k1.wf(),
        k2.wf(),
        q.shape.len() >= 2,
        k1.shape.len() == q.shape.len(),
        matmul_fits(q.shape, exchange(k1.shape)),
        operands_combine(q, k1, mask, bias),
        k1.shape[k1.shape.len() - 2] == score_dims(q, k1, mask, bias).last(),
        mask_of_bools(mask, score_dims(q, k1, mask, bias)),
        rest_excluded(mask, o.is_causal, score_dims(q, k1, mask, bias), i, keep),
        rows_agree(k1, k2, keep),
        in_bounds(score_dims(q, k1, mask, bias), w),
        w[w.len() - 2] == i,
    ensures
        attention_scores(m, q, k1, mask, bias, o).at(w) == attention_scores(
            m,
            q,
            k2,
            mask,
            bias,
            o,
        ).at(w),
{
    let f = score_dims(q, k1, mask, bias);
    let s = products_shape(q.shape, k1.shape);
    let r = q.shape.len() as int;
    lemma_scores_wf(q, k1, mask, bias);
    lemma_scores_broader(s, shape_of(bias), shape_of(mask));
    lemma_score(m, q, k1, mask, bias, o, w);
    lemma_score(m, q, k2, mask, bias, o, w);
    if !keep(w[w.len() - 1]) {
        lemma_excluded(m, q, k1, mask, bias, o, w);
        lemma_excluded(m, q, k2, mask, bias, o, w);
    } else {
        let y = broadcast_index(s, w);
        lemma_broadcast_to_index(s, f, w);
        assert(s[r - 1] == k1.shape[r - 2]);
        assert(0 <= w[w.len() - 1] < f[f.len() - 1]);
        assert(y[r - 1] == w[w.len() - 1]);
        let (t1, t2) = (matrix_transpose(k1), matrix_transpose(k2));
        let outer = broadcast_shape(batch(q.shape), batch(t1.shape));
        let inner = q.shape[r - 1];
        let n = outer.len() as int;
        assert(n == r - 2);
        let b = broadcast_index(batch(t1.shape), y.take(n));
        let row = Seq::new(
            inner as nat,
            |x: int| q.at(broadcast_index(batch(q.shape), y.take(n)) + seq![y[n], x]),
        );
        let c1 = Seq::new(inner as nat, |x: int| t1.at(b + seq![x, y[n + 1]]));
        let c2 = Seq::new(inner as nat, |x: int| t2.at(b + seq![x, y[n + 1]]));
        assert(in_bounds(outer, y.take(n))) by {
            assert forall|j: int| 0 <= j < n implies 0 <= #[trigger] y.take(n)[j] < outer[j] by {
                assert(0 <= y[j] < s[j]);
            }
        }
        lemma_operands_repeat(batch(q.shape), batch(t1.shape));
        lemma_broadcast_to_index(batch(t1.shape), outer, y.take(n));
        assert forall|x: int| 0 <= x < inner implies c1[x] == c2[x] by {
            let e = b + seq![x, y[n + 1]];
            assert(0 <= y[n + 1] < s[n + 1]);
            assert(in_bounds(t1.shape, e)) by {
                assert forall|j: int| 0 <= j < r implies 0 <= #[trigger] e[j] < t1.shape[j] by {
                    if j < n {
                        assert(0 <= b[j] < batch(t1.shape)[j]);
                    }
                }
            }
            lemma_tabulate(t1.shape, |i: Seq<int>| k1.at(exchange(i)), e);
            lemma_tabulate(t1.shape, |i: Seq<int>| k2.at(exchange(i)), e);
            let g = exchange(e);
            assert(in_bounds(k1.shape, g)) by {
                assert forall|j: int| 0 <= j < r implies 0 <= #[trigger] g[j] < k1.shape[j] by {
                    assert(0 <= e[j] < t1.shape[j]);
                    assert(0 <= e[r - 1] < t1.shape[r - 1] && 0 <= e[r - 2] < t1.shape[r - 2]);
                }
            }
            assert(g[r - 2] == y[n + 1]);
            assert(k1.at(g) == k2.at(g));
        }
        assert(c1 == c2);
        lemma_product_at(m, q, t1, y);
        lemma_product_at(m, q, t2, y);
    }
}

/// An entry of a product of matrices.
proof fn lemma_product_at(m: Model, a: Tensor, b: Tensor, i: Seq<int>)
    requires
        in_bounds(matmul_shape(a.shape, b.shape), i),
    ensures
        matmul(m, a, b).at(i) == ({
            let r = broadcast_shape(batch(a.shape), batch(b.shape)).len() as int;
            let inner = a.shape[a.shape.len() - 1];
            (m.dot)(
                Seq::new(
                    inner as nat,
                    |k: int| a.at(broadcast_index(batch(a.shape), i.take(r)) + seq![i[r], k]),
                ),
                Seq::new(
                    inner as nat,
                    |k: int| b.at(broadcast_index(batch(b.shape), i.take(r)) + seq![k, i[r + 1]]),
                ),
            )
        }),
{
    let outer = broadcast_shape(batch(a.shape), batch(b.shape));
    let r = outer.len() as int;
    let inner = a.shape[a.shape.len() - 1];
    lemma_tabulate(
        matmul_shape(a.shape, b.shape),
        |i: Seq<int>|
            (m.dot)(
                Seq::new(
                    inner as nat,
                    |k: int| a.at(broadcast_index(batch(a.shape), i.take(r)) + seq![i[r], k]),
                ),
                Seq::new(
                    inner as nat,
                    |k: int| b.at(broadcast_index(batch(b.shape), i.take(r)) + seq![k, i[r + 1]]),
                ),
            ),
        i,
    );
}

/// The indices that entry `x` of a product of weights and values reads.
proof fn lemma_reads(a: Seq<int>, v: Seq<int>, x: Seq<int>, j: int)
    requires
        matmul_fits(a, v),
        in_bounds(matmul_shape(a, v), x),
        0 <= j < a.last(),
    ensures
        ({
            let n = broadcast_shape(batch(a), batch(v)).len() as int;
            let w = broadcast_index(batch(a), x.take(n)).push(x[n]);
            &&& x.len() == n + 2
            &&& in_bounds(a.drop_last(), w)
            &&& w[a.len() - 2] == x[n]
            &&& w.push(j) == broadcast_index(batch(a), x.take(n)) + seq![x[n], j]
            &&& in_bounds(a, w.push(j))
            &&& in_bounds(v, broadcast_index(batch(v), x.take(n)) + seq![j, x[n + 1]])
        }),
{
    let outer = broadcast_shape(batch(a), batch(v));
    let n = outer.len() as int;
    let s = matmul_shape(a, v);
    let ba = broadcast_index(batch(a), x.take(n));
    let bv = broadcast_index(batch(v), x.take(n));
    assert(in_bounds(outer, x.take(n))) by {
        assert forall|j: int| 0 <= j < n implies 0 <= #[trigger] x.take(n)[j] < outer[j] by {
            assert(0 <= x[j] < s[j]);
        }
    }
    lemma_operands_repeat(batch(a), batch(v));
    lemma_broadcast_to_index(batch(a), outer, x.take(n));
    lemma_broadcast_to_index(batch(v), outer, x.take(n));
    assert(0 <= x[n] < s[n] && 0 <= x[n + 1] < s[n + 1]);
    let w = ba.push(x[n]);
    assert(w.push(j) == ba + seq![x[n], j]);
    assert forall|l: int| 0 <= l < a.len() implies 0 <= #[trigger] w.push(j)[l] < a[l] by {
        if l < a.len() - 2 {
            assert(0 <= ba[l] < batch(a)[l]);
        }
    }
    assert forall|l: int| 0 <= l < a.len() - 1 implies 0 <= #[trigger] w[l] < a.drop_last()[l] by {
        assert(0 <= w.push(j)[l] < a[l]);
    }
    let e = bv + seq![j, x[n + 1]];
    assert forall|l: int| 0 <= l < v.len() implies 0 <= #[trigger] e[l] < v[l] by {
        if l < v.len() - 2 {
            assert(0 <= bv[l] < batch(v)[l]);
        }
    }
}

/// The weight of a key is zero where its score is minus infinity.
proof fn lemma_weight(
    m: Model,
    scores: Tensor,
    w: Seq<int>,
    j: int,
    finite: spec_fn(Elem) -> bool,
)
    requires
        softmax_ignores_least(m, finite),
        has_weight(m, score_row(scores, w), finite),
        scores.shape.len() >= 2,
        in_bounds(scores.shape, w.push(j)),
    ensures
        row(scores, w.push(j)) == score_row(scores, w),
        softmax(m, scores).at(w.push(j)) == (m.softmax)(score_row(scores, w), j),
        scores.at(w.push(j)) == (m.constant)(Const::NegInfinity) ==> softmax(m, scores).at(
            w.push(j),
        ) == (m.constant)(Const::Zero),
{
    let s = scores.shape;
    let y = w.push(j);
    lemma_tabulate(s, |i: Seq<int>| (m.softmax)(row(scores, i), i.last()), y);
    assert(y.drop_last() == w);
    assert(y[y.len() - 1] == j);
    assert(row(scores, y) == score_row(scores, w));
    assert(0 <= y[s.len() - 1] < s[s.len() - 1]);
    assert(score_row(scores, w)[j] == scores.at(y));
}

/// An excluded key and its value have no influence, one step at a time: two calls whose keys
/// and values agree wherever query `i` may attend to them give the same row `i`.
pub proof fn law_steps_ignore_excluded_keys(
    m: Model,
    q: Tensor,
    k1: Tensor,
    k2: Tensor,
    v1: Tensor,
    v2: Tensor,
    mask: Option<Tensor>,
    bias: Option<Tensor>,
    o: AttentionModuleOptions,
    finite: spec_fn(Elem) -> bool,
    i: int,
    keep: spec_fn(int) -> bool,
    x: Seq<int>,
)
    requires
        q.wf(),
        k1.wf(),
        k2.wf(),
        v1.wf(),
        v2.wf(),
        stepwise_fits(q.shape, k1.shape, v1.shape, shape_of(mask), shape_of(bias), o.is_causal),
        operand_wf(mask),
        operand_wf(bias),
        k1.shape[k1.shape.len() - 2] == v1.shape[v1.shape.len() - 2],
        mask_of_bools(mask, score_dims(q, k1, mask, bias)),
        rest_excluded(mask, o.is_causal, score_dims(q, k1, mask, bias), i, keep),
        rows_agree(k1, k2, keep),
        rows_agree(v1, v2, keep),
        all_finite(v1, finite),
        all_finite(v2, finite),
        row_attends(m, attention_scores(m, q, k1, mask, bias, o), i, finite),
        softmax_ignores_least(m, finite),
        zero_weight_adds_nothing(m, finite),
        in_bounds(stepwise(m, q, k1, v1, mask, bias, o).shape, x),
        x[x.len() - 2] == i,
    ensures
        stepwise(m, q, k1, v1, mask, bias, o).at(x) == stepwise(m, q, k2, v2, mask, bias, o).at(x),
{
    let sc1 = attention_scores(m, q, k1, mask, bias, o);
    let sc2 = attention_scores(m, q, k2, mask, bias, o);
    let s = score_dims(q, k1, mask, bias);
    let (w1, w2) = (softmax(m, sc1), softmax(m, sc2));
    lemma_scores_wf(q, k1, mask, bias);
    let outer = broadcast_shape(batch(s), batch(v1.shape));
    let n = outer.len() as int;
    let inner = s[s.len() - 1];
    let line = broadcast_index(batch(s), x.take(n)).push(x[n]);
    let bv = broadcast_index(batch(v1.shape), x.take(n));
    let a1 = Seq::new(
        inner as nat,
        |j: int| w1.at(broadcast_index(batch(s), x.take(n)) + seq![x[n], j]),
    );
    let a2 = Seq::new(
        inner as nat,
        |j: int| w2.at(broadcast_index(batch(s), x.take(n)) + seq![x[n], j]),
    );
    let c1 = Seq::new(inner as nat, |j: int| v1.at(bv + seq![j, x[n + 1]]));
    let c2 = Seq::new(inner as nat, |j: int| v2.at(bv + seq![j, x[n + 1]]));
    let rv = v1.shape.len() as int;
    assert forall|j: int| 0 <= j < inner implies #[trigger] sc1.at(line.push(j)) == sc2.at(
        line.push(j),
    ) by {
        lemma_reads(s, v1.shape, x, j);
        lemma_scores_agree(m, q, k1, k2, mask, bias, o, i, keep, line.push(j));
    }
    assert forall|j: int| 0 <= j < inner implies a1[j] == a2[j] && (#[trigger] a1[j] != (
    m.constant)(Const::Zero) ==> c1[j] == c2[j]) by {
        lemma_reads(s, v1.shape, x, j);
        assert(has_weight(m, score_row(sc1, line), finite));
        lemma_weight(m, sc1, line, j, finite);
        let y = line.push(j);
        assert(y.drop_last() == line);
        lemma_tabulate(s, |i: Seq<int>| (m.softmax)(row(sc2, i), i.last()), y);
        assert(row(sc1, y) == row(sc2, y)) by {
            assert forall|h: int| 0 <= h < inner implies row(sc1, y)[h] == row(sc2, y)[h] by {
                assert(sc1.at(line.push(h)) == sc2.at(line.push(h)));
            }
        }
        assert(y[y.len() - 1] == j && y[y.len() - 2] == i);
        if !keep(j) {
            lemma_excluded(m, q, k1, mask, bias, o, y);
        } else {
            let e = bv + seq![j, x[n + 1]];
            assert(e[rv - 2] == j);
            assert(v1.at(e) == v2.at(e));
        }
    }
    assert(a1 == a2);
    assert forall|j: int| 0 <= j < c1.len() implies finite(#[trigger] c1[j]) by {
        lemma_reads(s, v1.shape, x, j);
        assert(finite(v1.at(bv + seq![j, x[n + 1]])));
    }
    assert forall|j: int| 0 <= j < c2.len() implies finite(#[trigger] c2[j]) by {
        lemma_reads(s, v1.shape, x, j);
        assert(finite(v2.at(bv + seq![j, x[n + 1]])));
    }
    lemma_product_at(m, w1, v1, x);
    lemma_product_at(m, w2, v2, x);
    assert((m.dot)(a1, c1) == (m.dot)(a1, c2));
}

/// An excluded key and its value have no influence on attention: two calls whose keys and
/// values agree wherever query `i` may attend to them give the same row `i`.
pub proof fn law_attention_ignores_excluded_keys(
    m: Model,
    q: Tensor,
    k1: Tensor,
    k2: Tensor,
    v1: Tensor,
    v2: Tensor,
    mask: Option<Tensor>,
    bias: Option<Tensor>,
    o: AttentionModuleOptions,
    finite: spec_fn(Elem) -> bool,
    i: int,
    keep: spec_fn(int) -> bool,
    x: Seq<int>,
)
    requires
        q.wf(),
        k1.wf(),
        k2.wf(),
        v1.wf(),
        v2.wf(),
        stepwise_fits(q.shape, k1.shape, v1.shape, shape_of(mask), shape_of(bias), o.is_causal),
        operand_wf(mask),
        operand_wf(bias),
        k1.shape[k1.shape.len() - 2] == v1.shape[v1.shape.len() - 2],
        follows_steps(m, q, k1, v1, mask, bias, o),
        mask_of_bools(mask, score_dims(q, k1, mask, bias)),
        rest_excluded(mask, o.is_causal, score_dims(q, k1, mask, bias), i, keep),
        rows_agree(k1, k2, keep),
        rows_agree(v1, v2, keep),
        all_finite(v1, finite),
        all_finite(v2, finite),
        row_attends(m, attention_scores(m, q, k1, mask, bias, o), i, finite),
        softmax_ignores_least(m, finite),
        zero_weight_adds_nothing(m, finite),
        mask is Some && !needs_manual(o, true, bias is Some) ==> {
            &&& adds_least_and_zero(m, finite)
            &&& finite_scores(m, q, k1, bias, o, finite, score_dims(q, k1, mask, bias))
            &&& finite_scores(m, q, k2, bias, o, finite, score_dims(q, k1, mask, bias))
        },
        in_bounds(attention(m, q, k1, v1, mask, bias, o).shape, x),
        x[x.len() - 2] == i,
    ensures
        attention(m, q, k1, v1, mask, bias, o).at(x) == attention(m, q, k2, v2, mask, bias, o).at(
            x,
        ),
{
    if !needs_manual(o, mask is Some, bias is Some) {
        let extra = added(m, mask, bias);
        lemma_heads(q.shape, k1.shape, v1.shape);
        lemma_fits_combine(products_shape(q.shape, k1.shape), mask, bias);
        assert(attention(m, q, k1, v1, mask, bias, o) == stepwise(m, q, k1, v1, None, extra, o));
        assert(attention(m, q, k2, v2, mask, bias, o) == stepwise(m, q, k2, v2, None, extra, o));
        if let Some(b) = mask {
            assert(extra == Some(mask_as_bias(m, b, bias)));
            law_mask_is_a_bias(m, q, k1, b, bias, o, finite);
            law_mask_is_a_bias(m, q, k2, b, bias, o, finite);
        } else {
            assert(extra == bias);
        }
    }
    law_steps_ignore_excluded_keys(m, q, k1, k2, v1, v2, mask, bias, o, finite, i, keep, x);
}

/// No query of causal attention sees a key or a value in its future: two calls whose keys
/// and values agree up to row `i` give the same row `i`.
pub proof fn law_attention_ignores_the_future(
    m: Model,
    q: Tensor,
    k1: Tensor,
    k2: Tensor,
    v1: Tensor,
    v2: Tensor,
    mask: Option<Tensor>,
    bias: Option<Tensor>,
    o: AttentionModuleOptions,
    finite: spec_fn(Elem) -> bool,
    i: int,
    x: Seq<int>,
)
    requires
        q.wf(),
        k1.wf(),
        k2.wf(),
        v1.wf(),
        v2.wf(),
        stepwise_fits(q.shape, k1.shape, v1.shape, shape_of(mask), shape_of(bias), o.is_causal),
        operand_wf(mask),
        operand_wf(bias),
        k1.shape[k1.shape.len() - 2] == v1.shape[v1.shape.len() - 2],
        follows_steps(m, q, k1, v1, mask, bias, o),
        mask_of_bools(mask, score_dims(q, k1, mask, bias)),
        o.is_causal,
        rows_agree(k1, k2, |j: int| j <= i),
        rows_agree(v1, v2, |j: int| j <= i),
        all_finite(v1, finite),
        all_finite(v2, finite),
        row_attends(m, attention_scores(m, q, k1, mask, bias, o), i, finite),
        softmax_ignores_least(m, finite),
        zero_weight_adds_nothing(m, finite),
        in_bounds(attention(m, q, k1, v1, mask, bias, o).shape, x),
        x[x.len() - 2] == i,
    ensures
        attention(m, q, k1, v1, mask, bias, o).at(x) == attention(m, q, k2, v2, mask, bias, o).at(
            x,
        ),
{
    let keep = |j: int| j <= i;
    law_attention_ignores_excluded_keys(m, q, k1, k2, v1, v2, mask, bias, o, finite, i, keep, x);
}

/// The shapes of attention with the same heads throughout.
proof fn lemma_heads(q: Seq<int>, k: Seq<int>, v: Seq<int>)
    requires
        heads_fit(q, k, v),
    ensures
        matmul_fits(q, exchange(k)),
        matmul_fits(products_shape(q, k), v),
        products_shape(q, k) == seq![q[0], q[1], q[2], k[2]],
        matmul_shape(products_shape(q, k), v) == seq![q[0], q[1], q[2], v[3]],
{
    let kt = exchange(k);
    let b = seq![q[0], q[1]];
    assert(batch(q) == b);
    assert(batch(kt) == b);
    assert(batch(v) == b);
    assert(broadcasts_to(b, b));
    lemma_absorb(b, b);
    let s = matmul_shape(q, kt);
    assert(s == seq![q[0], q[1], q[2], k[2]]);
    assert(batch(s) == b);
    assert(matmul_shape(s, v) == seq![q[0], q[1], q[2], v[3]]);
}

/// The scores that attention weighs the values by.
pub open spec fn weighed_scores(
    m: Model,
    q: Tensor,
    k: Tensor,
    mask: Option<Tensor>,
    bias: Option<Tensor>,
    o: AttentionModuleOptions,
) -> Tensor {
    if needs_manual(o, mask is Some, bias is Some) {
        attention_scores(m, q, k, mask, bias, o)
    } else {
        attention_scores(m, q, k, None, added(m, mask, bias), o)
    }
}

/// The score of key `j` for entry `x` of the result.
pub open spec fn score_read(scores: Tensor, x: Seq<int>, j: int) -> Elem {
    let n = x.len() - 2;
    scores.at(broadcast_index(batch(scores.shape), x.take(n)) + seq![x[n], j])
}

/// The value of key `j` for entry `x` of the result.
pub open spec fn value_read(v: Tensor, x: Seq<int>, j: int) -> Elem {
    let n = x.len() - 2;
    v.at(broadcast_index(batch(v.shape), x.take(n)) + seq![j, x[n + 1]])
}

/// The weights of a row that has any are finite, not negative, and add up to one.
pub open spec fn softmax_weighs(
    m: Model,
    val: spec_fn(Elem) -> real,
    finite: spec_fn(Elem) -> bool,
) -> bool {
    &&& val((m.constant)(Const::Zero)) == 0 as real
    &&& softmax_ignores_least(m, finite)
    &&& forall|s: Seq<Elem>| #[trigger]
        has_weight(m, s, finite) ==> {
            &&& forall|k: int|
                0 <= k < s.len() ==> finite(#[trigger] (m.softmax)(s, k)) && val((m.softmax)(s, k))
                    >= 0 as real
            &&& total(s.len() as int, |k: int| val((m.softmax)(s, k))) == 1 as real
        }
}

/// Inner products of finite numbers are computed without rounding.
pub open spec fn multiplies_exactly(
    m: Model,
    val: spec_fn(Elem) -> real,
    finite: spec_fn(Elem) -> bool,
) -> bool {
    forall|a: Seq<Elem>, b: Seq<Elem>|
        {
            &&& a.len() == b.len()
            &&& forall|k: int| 0 <= k < a.len() ==> finite(#[trigger] a[k])
            &&& forall|k: int| 0 <= k < b.len() ==> finite(#[trigger] b[k])
        } ==> val(#[trigger] (m.dot)(a, b)) == inner_product(a, b, val)
}

/// A weighted mean lies between the bounds of what has weight.
proof fn lemma_mean_between(
    n: int,
    w: spec_fn(int) -> real,
    a: spec_fn(int) -> real,
    low: real,
    high: real,
)
    requires
        forall|p: int| 0 <= p < n ==> #[trigger] w(p) >= 0 as real,
        forall|p: int|
            0 <= p < n && #[trigger] w(p) != 0 as real ==> low <= a(p) && a(p) <= high,
        total(n, w) == 1 as real,
    ensures
        low <= total(n, |p: int| w(p) * a(p)),
        total(n, |p: int| w(p) * a(p)) <= high,
{
    let mean = |p: int| w(p) * a(p);
    let least = |p: int| low * w(p);
    let most = |p: int| high * w(p);
    assert forall|p: int| 0 <= p < n implies least(p) <= #[trigger] mean(p) && mean(p) <= most(
        p,
    ) by {
        let (x, y) = (w(p), a(p));
        if x == 0 as real {
            assert(low * x == x * y && x * y == high * x) by (nonlinear_arith)
                requires
                    x == 0 as real,
            ;
        } else {
            assert(low * x <= x * y && x * y <= high * x) by (nonlinear_arith)
                requires
                    x >= 0 as real,
                    low <= y,
                    y <= high,
            ;
        }
    }
    lemma_total_order(n, least, mean);
    lemma_total_order(n, mean, most);
    lemma_total_scale(n, w, low);
    lemma_total_scale(n, w, high);
    assert(low * (1 as real) == low) by (nonlinear_arith);
    assert(high * (1 as real) == high) by (nonlinear_arith);
}

/// Every result of attention lies between the least and the greatest of the values that the
/// query attends to.
pub proof fn law_attention_stays_in_range(
    m: Model,
    q: Tensor,
    k: Tensor,
    v: Tensor,
    mask: Option<Tensor>,
    bias: Option<Tensor>,
    o: AttentionModuleOptions,
    val: spec_fn(Elem) -> real,
    finite: spec_fn(Elem) -> bool,
    x: Seq<int>,
    low: real,
    high: real,
)
    requires
        q.wf(),
        k.wf(),
        v.wf(),
        stepwise_fits(q.shape, k.shape, v.shape, shape_of(mask), shape_of(bias), o.is_causal),
        operand_wf(mask),
        operand_wf(bias),
        follows_steps(m, q, k, v, mask, bias, o),
        softmax_weighs(m, val, finite),
        multiplies_exactly(m, val, finite),
        all_finite(v, finite),
        in_bounds(attention(m, q, k, v, mask, bias, o).shape, x),
        row_attends(m, weighed_scores(m, q, k, mask, bias, o), x[x.len() - 2], finite),
        forall|j: int|
            0 <= j < v.shape[v.shape.len() - 2] && score_read(
                weighed_scores(m, q, k, mask, bias, o),
                x,
                j,
            ) != (m.constant)(Const::NegInfinity) ==> low <= val(#[trigger] value_read(v, x, j))
                && val(value_read(v, x, j)) <= high,
    ensures
        low <= val(attention(m, q, k, v, mask, bias, o).at(x)),
        val(attention(m, q, k, v, mask, bias, o).at(x)) <= high,
{
    let scores = weighed_scores(m, q, k, mask, bias, o);
    let s = scores.shape;
    let weights = softmax(m, scores);
    if !needs_manual(o, mask is Some, bias is Some) {
        let p = products_shape(q.shape, k.shape);
        lemma_heads(q.shape, k.shape, v.shape);
        lemma_fits_combine(p, mask, bias);
        if mask is Some && bias is Some {
            lemma_join(mask->0.shape, bias->0.shape, p);
        }
        if let Some(x) = added(m, mask, bias) {
            lemma_absorb(x.shape, p);
        }
        assert(attention(m, q, k, v, mask, bias, o) == stepwise(
            m,
            q,
            k,
            v,
            None,
            added(m, mask, bias),
            o,
        ));
    }
    assert(attention(m, q, k, v, mask, bias, o) == matmul(m, weights, v));
    lemma_scores_wf(q, k, mask, bias);
    let n = broadcast_shape(batch(s), batch(v.shape)).len() as int;
    let inner = s[s.len() - 1];
    assert(inner >= 0);
    let bs = broadcast_index(batch(s), x.take(n));
    let line = bs.push(x[n]);
    let bv = broadcast_index(batch(v.shape), x.take(n));
    let a = Seq::new(inner as nat, |j: int| weights.at(bs + seq![x[n], j]));
    let c = Seq::new(inner as nat, |j: int| v.at(bv + seq![j, x[n + 1]]));
    lemma_product_at(m, weights, v, x);
    assert(x.len() == n + 2);
    lemma_line(s, v.shape, x);
    let cells = score_row(scores, line);
    assert(has_weight(m, cells, finite));
    let w = |p: int| val((m.softmax)(cells, p));
    let y = |p: int| val(c[p]);
    assert forall|j: int| 0 <= j < inner implies #[trigger] a[j] == (m.softmax)(cells, j) && (
    w(j) != 0 as real ==> low <= y(j) && y(j) <= high) by {
        lemma_reads(s, v.shape, x, j);
        lemma_weight(m, scores, line, j, finite);
        assert(value_read(v, x, j) == c[j]);
    }
    assert forall|p: int| 0 <= p < inner implies #[trigger] w(p) >= 0 as real && finite(
        a[p],
    ) && finite(c[p]) by {
        assert(a[p] == (m.softmax)(cells, p));
        lemma_reads(s, v.shape, x, p);
        assert(finite(v.at(bv + seq![p, x[n + 1]])));
    }
    assert forall|p: int| 0 <= p < a.len() implies finite(#[trigger] a[p]) by {
        assert(w(p) >= 0 as real);
    }
    assert forall|p: int| 0 <= p < c.len() implies finite(#[trigger] c[p]) by {
        assert(w(p) >= 0 as real);
    }
    assert forall|p: int| 0 <= p < inner && #[trigger] w(p) != 0 as real implies low <= y(p) && y(
        p,
    ) <= high by {
        assert(a[p] == (m.softmax)(cells, p));
    }
    lemma_mean_between(inner, w, y, low, high);
    lemma_total_ext(inner, |p: int| val(a[p]) * val(c[p]), |p: int| w(p) * y(p));
}

/// The row of scores that entry `x` of a product of weights and values reads.
proof fn lemma_line(a: Seq<int>, v: Seq<int>, x: Seq<int>)
    requires
        matmul_fits(a, v),
        in_bounds(matmul_shape(a, v), x),
    ensures
        ({
            let n = broadcast_shape(batch(a), batch(v)).len() as int;
            let w = broadcast_index(batch(a), x.take(n)).push(x[n]);
            in_bounds(a.drop_last(), w) && w[a.len() - 2] == x[n]
        }),
{
    let outer = broadcast_shape(batch(a), batch(v));
    let n = outer.len() as int;
    let s = matmul_shape(a, v);
    let ba = broadcast_index(batch(a), x.take(n));
    assert(in_bounds(outer, x.take(n))) by {
        assert forall|j: int| 0 <= j < n implies 0 <= #[trigger] x.take(n)[j] < outer[j] by {
            assert(0 <= x[j] < s[j]);
        }
    }
    lemma_operands_repeat(batch(a), batch(v));
    lemma_broadcast_to_index(batch(a), outer, x.take(n));
    assert(0 <= x[n] < s[n]);
    let w = ba.push(x[n]);
    assert forall|l: int| 0 <= l < a.len() - 1 implies 0 <= #[trigger] w[l] < a.drop_last()[l] by {
        if l < a.len() - 2 {
            assert(0 <= ba[l] < batch(a)[l]);
        }
    }
}

/// The products of queries and keys: matrix products with the key, its last two axes exchanged.
pub open spec fn query_key_products(m: Model, q: Tensor, k: Tensor) -> Tensor {
    matmul(m, q, swap_axes(k, k.shape.len() - 2, k.shape.len() - 1))
}

proof fn lemma_products(m: Model, q: Tensor, k: Tensor)
    requires
        k.wf(),
        k.shape.len() >= 2,
    ensures
        matmul(m, q, matrix_transpose(k)) == query_key_products(m, q, k),
        products_shape(q.shape, k.shape) == query_key_products(m, q, k).shape,
{
    let r = k.shape.len() as int;
    let u = exchange(k.shape);
    let t = swap_axes(k, r - 2, r - 1);
    assert(u == swapped(k.shape, r - 2, r - 1));
    assert(is_shape(u)) by {
        assert forall|j: int| 0 <= j < u.len() implies #[trigger] u[j] >= 0 by {
            assert(k.shape[j] >= 0 && k.shape[r - 1] >= 0 && k.shape[r - 2] >= 0);
        }
    }
    lemma_size_nonneg(u);
    assert forall|i: Seq<int>| in_bounds(u, i) implies #[trigger] matrix_transpose(k).at(i) == t.at(
        i,
    ) by {
        lemma_tabulate(u, |i: Seq<int>| k.at(exchange(i)), i);
        lemma_tabulate(u, |i: Seq<int>| k.at(swapped(i, r - 2, r - 1)), i);
        assert(exchange(i) == swapped(i, r - 2, r - 1));
    }
    lemma_tensor_ext(matrix_transpose(k), t);
}

/// Without softcap, bias and masks, a score is the product of the query and the key times the
/// scale: the one that is given, or else one over the square root of the head dimension.
pub proof fn law_score_is_scaled_product(
    m: Model,
    q: Tensor,
    k: Tensor,
    o: AttentionModuleOptions,
    i: Seq<int>,
)
    requires
        k.wf(),
        k.shape.len() >= 2,
        o.softcap is None,
        !o.is_causal,
        in_bounds(attention_scores(m, q, k, None, None, o).shape, i),
    ensures
        attention_scores(m, q, k, None, None, o).shape == query_key_products(m, q, k).shape,
        o.scale matches Some(c) ==> attention_scores(m, q, k, None, None, o).at(i) == binary(
            m,
            BinaryOp::Multiply,
            query_key_products(m, q, k).at(i),
            (m.constant)(Const::Scale(Scale::Given(c))),
        ),
        o.scale is None ==> attention_scores(m, q, k, None, None, o).at(i) == binary(
            m,
            BinaryOp::Multiply,
            query_key_products(m, q, k).at(i),
            (m.constant)(
                Const::Scale(Scale::InvSqrt(q.shape[q.shape.len() - 1] as usize)),
            ),
        ),
{
    lemma_products(m, q, k);
    lemma_score(m, q, k, None, None, o, i);
    lemma_broadcast_index_same(products_shape(q.shape, k.shape), i);
}

/// A softcap `c` squashes the scores of the same call without it: a score `s` becomes the
/// hyperbolic tangent of `s / c`, times `c`.
pub proof fn law_softcap_squashes(
    m: Model,
    q: Tensor,
    k: Tensor,
    o: AttentionModuleOptions,
    c: Scalar,
    i: Seq<int>,
)
    requires
        !o.is_causal,
        in_bounds(attention_scores(m, q, k, None, None, o).shape, i),
    ensures
        ({
            let plain = AttentionModuleOptions { softcap: None, ..o };
            let capped = AttentionModuleOptions { softcap: Some(c), ..o };
            let cap = (m.constant)(Const::Value(c));
            attention_scores(m, q, k, None, None, capped).at(i) == binary(
                m,
                BinaryOp::Multiply,
                unary(
                    m,
                    UnaryOp::Tanh,
                    binary(
                        m,
                        BinaryOp::Divide,
                        attention_scores(m, q, k, None, None, plain).at(i),
                        cap,
                    ),
                ),
                cap,
            )
        }),
{
    let plain = AttentionModuleOptions { softcap: None, ..o };
    let capped = AttentionModuleOptions { softcap: Some(c), ..o };
    lemma_score(m, q, k, None, None, plain, i);
    lemma_score(m, q, k, None, None, capped, i);
}

/// Where hyperbolic tangents lie between minus one and one, a softcap bounds the scores: none
/// is larger than it or smaller than its negative.
pub proof fn law_softcap_bounds(
    m: Model,
    val: spec_fn(Elem) -> real,
    q: Tensor,
    k: Tensor,
    o: AttentionModuleOptions,
    c: Scalar,
    i: Seq<int>,
)
    requires
        computes_reals(m, val),
        forall|e: Elem|
            (#[trigger] (m.unary)(UnaryOp::Tanh, e)) is Float && 0 as real - 1 as real <= val(
                (m.unary)(UnaryOp::Tanh, e),
            ) <= 1 as real,
        val((m.constant)(Const::Value(c))) >= 0 as real,
        !o.is_causal,
        o.softcap == Some(c),
        in_bounds(attention_scores(m, q, k, None, None, o).shape, i),
    ensures
        val(attention_scores(m, q, k, None, None, o).at(i)) <= val((m.constant)(Const::Value(c))),
        0 as real - val((m.constant)(Const::Value(c))) <= val(
            attention_scores(m, q, k, None, None, o).at(i),
        ),
{
    law_softcap_squashes(m, q, k, o, c, i);
    let plain = AttentionModuleOptions { softcap: None, ..o };
    let capped = AttentionModuleOptions { softcap: Some(c), ..o };
    assert(capped == o);
    let cap = (m.constant)(Const::Value(c));
    assert(cap is Float);
    let d = binary(
        m,
        BinaryOp::Divide,
        attention_scores(m, q, k, None, None, plain).at(i),
        cap,
    );
    let t = (m.unary)(UnaryOp::Tanh, d);
    assert(d !is Bool ==> unary(m, UnaryOp::Tanh, d) == t);
    let (x, y) = (val(t), val(cap));
    assert(x * y <= y && 0 as real - y <= x * y) by (nonlinear_arith)
        requires
            0 as real - 1 as real <= x <= 1 as real,
            y >= 0 as real,
    ;
}

/// A bias is added to the scores of the same call without it, which are repeated where the
/// bias is broader.
pub proof fn law_bias_is_added(
    m: Model,
    q: Tensor,
    k: Tensor,
    bias: Tensor,
    o: AttentionModuleOptions,
    i: Seq<int>,
)
    requires
        operands_combine(q, k, None, Some(bias)),
        !o.is_causal,
        in_bounds(attention_scores(m, q, k, None, Some(bias), o).shape, i),
    ensures
        attention_scores(m, q, k, None, Some(bias), o).shape == broadcast_shape(
            attention_scores(m, q, k, None, None, o).shape,
            bias.shape,
        ),
        attention_scores(m, q, k, None, Some(bias), o).at(i) == binary(
            m,
            BinaryOp::Add,
            look(attention_scores(m, q, k, None, None, o), i),
            look(bias, i),
        ),
{
    let p = products_shape(q.shape, k.shape);
    let s = score_dims(q, k, None, Some(bias));
    lemma_scores_broader(p, Some(bias.shape), None);
    let j = broadcast_index(p, i);
    lemma_broadcast_to_index(p, s, i);
    lemma_broadcast_index_same(p, j);
    lemma_score(m, q, k, None, None, o, j);
    lemma_score(m, q, k, None, Some(bias), o, i);
}

/// A mask and causal masking leave every score that they do not exclude as it is in the same
/// call without them, and put minus infinity for the others. Scores are repeated where the
/// mask is broader.
pub proof fn law_masking_excludes(
    m: Model,
    q: Tensor,
    k: Tensor,
    mask: Option<Tensor>,
    bias: Option<Tensor>,
    o: AttentionModuleOptions,
    i: Seq<int>,
)
    requires
        operands_combine(q, k, mask, bias),
        in_bounds(attention_scores(m, q, k, mask, bias, o).shape, i),
        mask matches Some(b) ==> look(b, i) is Bool,
    ensures
        ({
            let later = o.is_causal && i[i.len() - 1] > i[i.len() - 2];
            let masked = mask is Some && look(mask->0, i) == Elem::Bool(true);
            let free = AttentionModuleOptions { is_causal: false, ..o };
            let open = attention_scores(m, q, k, None, bias, free);
            &&& attention_scores(m, q, k, mask, bias, o).at(i) == (if later || masked {
                (m.constant)(Const::NegInfinity)
            } else {
                look(open, i)
            })
            &&& attention_scores(m, q, k, mask, bias, o).shape == (match mask {
                Some(b) => broadcast_shape(open.shape, b.shape),
                None => open.shape,
            })
        }),
{
    let free = AttentionModuleOptions { is_causal: false, ..o };
    let p = products_shape(q.shape, k.shape);
    let w = score_dims(q, k, None, bias);
    let s = score_dims(q, k, mask, bias);
    lemma_scores_broader(p, shape_of(bias), shape_of(mask));
    lemma_scores_broader(p, shape_of(bias), None);
    let j = broadcast_index(w, i);
    lemma_broadcast_to_index(w, s, i);
    lemma_index_through(p, w, s, i);
    if let Some(b) = bias {
        lemma_index_through(b.shape, w, s, i);
    }
    lemma_score(m, q, k, mask, bias, o, i);
    lemma_score(m, q, k, None, bias, free, j);
    assert(plain_score(m, q, k, o, i) == plain_score(m, q, k, free, j));
}

/// Scaling a product by `c` is scaling the query by `c` first, with `one` for the scale.
pub open spec fn scale_moves_to_query(m: Model, c: Scalar, one: Scalar) -> bool {
    let (by, unit) = (
        (m.constant)(Const::Scale(Scale::Given(c))),
        (m.constant)(Const::Scale(Scale::Given(one))),
    );
    forall|w: Seq<Elem>, v: Seq<Elem>, a: Seq<Elem>|
        #![trigger (m.dot)(w, a), (m.dot)(v, a)]
        v == Seq::new(w.len(), |j: int| binary(m, BinaryOp::Multiply, w[j], by)) ==> binary(
            m,
            BinaryOp::Multiply,
            (m.dot)(w, a),
            by,
        ) == binary(m, BinaryOp::Multiply, (m.dot)(v, a), unit)
}

/// An entry of a product of matrices, scaled.
proof fn lemma_scaled_product(
    m: Model,
    q: Tensor,
    t: Tensor,
    c: Scalar,
    one: Scalar,
    y: Seq<int>,
)
    requires
        q.wf(),
        matmul_fits(q.shape, t.shape),
        scale_moves_to_query(m, c, one),
        in_bounds(matmul_shape(q.shape, t.shape), y),
    ensures
        ({
            let by = (m.constant)(Const::Scale(Scale::Given(c)));
            let scaled = mapped(q, |e: Elem| binary(m, BinaryOp::Multiply, e, by));
            binary(m, BinaryOp::Multiply, matmul(m, q, t).at(y), by) == binary(
                m,
                BinaryOp::Multiply,
                matmul(m, scaled, t).at(y),
                (m.constant)(Const::Scale(Scale::Given(one))),
            )
        }),
{
    let by = (m.constant)(Const::Scale(Scale::Given(c)));
    let scaled = mapped(q, |e: Elem| binary(m, BinaryOp::Multiply, e, by));
    let p = matmul_shape(q.shape, t.shape);
    lemma_product_at(m, q, t, y);
    lemma_product_at(m, scaled, t, y);
    let outer = broadcast_shape(batch(q.shape), batch(t.shape));
    let n = outer.len() as int;
    let inner = q.shape[q.shape.len() - 1];
    let b = broadcast_index(batch(q.shape), y.take(n));
    let w = Seq::new(inner as nat, |x: int| q.at(b + seq![y[n], x]));
    let v = Seq::new(inner as nat, |x: int| scaled.at(b + seq![y[n], x]));
    lemma_operands_repeat(batch(q.shape), batch(t.shape));
    assert(in_bounds(outer, y.take(n))) by {
        assert forall|j: int| 0 <= j < n implies 0 <= #[trigger] y.take(n)[j] < outer[j] by {
            assert(0 <= y[j] < p[j]);
        }
    }
    lemma_broadcast_to_index(batch(q.shape), outer, y.take(n));
    assert forall|x: int| 0 <= x < inner implies #[trigger] v[x] == binary(
        m,
        BinaryOp::Multiply,
        w[x],
        by,
    ) by {
        let e = b + seq![y[n], x];
        assert(in_bounds(q.shape, e)) by {
            assert(0 <= y[n] < p[n]);
            assert forall|j: int| 0 <= j < q.shape.len() implies 0 <= #[trigger] e[j]
                < q.shape[j] by {
                if j < q.shape.len() - 2 {
                    assert(0 <= b[j] < batch(q.shape)[j]);
                }
            }
        }
        lemma_ravel_bound(q.shape, e);
    }
    assert(v == Seq::new(w.len(), |j: int| binary(m, BinaryOp::Multiply, w[j], by)));
}

/// Whatever the softcap, the masks and the bias, a scale that is given multiplies the query:
/// the scores are those of the query times the scale, with one for the scale.
pub proof fn law_scale_multiplies_the_query(
    m: Model,
    q: Tensor,
    k: Tensor,
    mask: Option<Tensor>,
    bias: Option<Tensor>,
    o: AttentionModuleOptions,
    c: Scalar,
    one: Scalar,
)
    requires
        q.wf(),
        k.wf(),
        q.shape.len() >= 2,
        k.shape.len() == q.shape.len(),
        matmul_fits(q.shape, exchange(k.shape)),
        operands_combine(q, k, mask, bias),
        scale_moves_to_query(m, c, one),
    ensures
        ({
            let by = (m.constant)(Const::Scale(Scale::Given(c)));
            let scaled = mapped(q, |e: Elem| binary(m, BinaryOp::Multiply, e, by));
            attention_scores(
                m,
                q,
                k,
                mask,
                bias,
                (AttentionModuleOptions { scale: Some(c), ..o }),
            ) == attention_scores(
                m,
                scaled,
                k,
                mask,
                bias,
                (AttentionModuleOptions { scale: Some(one), ..o }),
            )
        }),
{
    let by = (m.constant)(Const::Scale(Scale::Given(c)));
    let unit = (m.constant)(Const::Scale(Scale::Given(one)));
    let scaled = mapped(q, |e: Elem| binary(m, BinaryOp::Multiply, e, by));
    let o1 = AttentionModuleOptions { scale: Some(c), ..o };
    let o2 = AttentionModuleOptions { scale: Some(one), ..o };
    let p = products_shape(q.shape, k.shape);
    let s = score_dims(q, k, mask, bias);
    lemma_scores_wf(q, k, mask, bias);
    lemma_scores_broader(p, shape_of(bias), shape_of(mask));
    assert forall|i: Seq<int>| in_bounds(s, i) implies #[trigger] attention_scores(
        m,
        q,
        k,
        mask,
        bias,
        o1,
    ).at(i) == attention_scores(m, scaled, k, mask, bias, o2).at(i) by {
        lemma_score(m, q, k, mask, bias, o1, i);
        lemma_score(m, scaled, k, mask, bias, o2, i);
        lemma_broadcast_to_index(p, s, i);
        lemma_scaled_product(m, q, matrix_transpose(k), c, one, broadcast_index(p, i));
    }
    lemma_tensor_ext(
        attention_scores(m, q, k, mask, bias, o1),
        attention_scores(m, scaled, k, mask, bias, o2),
    );
}

/// The weights of attention are the softmax of the scores, row by row, and the result the
/// product of the weights and the values, wherever a softcap is set or causal masking meets a
/// mask or a bias.
pub proof fn law_attention_by_steps(
    m: Model,
    q: Tensor,
    k: Tensor,
    v: Tensor,
    mask: Option<Tensor>,
    bias: Option<Tensor>,
    o: AttentionModuleOptions,
)
    requires
        o.softcap is Some || (o.is_causal && (mask is Some || bias is Some)),
    ensures
        attention(m, q, k, v, mask, bias, o) == matmul(
            m,
            softmax(m, attention_scores(m, q, k, mask, bias, o)),
            v,
        ),
{
}

/// Elsewhere the kernel is given the query, the key and the value, the scale, the causal flag,
/// and what is to be added to the scores: the bias, minus infinity where the mask is true, or
/// both.
pub proof fn law_attention_by_kernel(
    m: Model,
    q: Tensor,
    k: Tensor,
    v: Tensor,
    mask: Option<Tensor>,
    bias: Option<Tensor>,
    o: AttentionModuleOptions,
    extra: Seq<Tensor>,
    p: int,
)
    requires
        o.softcap is None,
        o.is_causal ==> mask is None && bias is None,
        operand_fits(mask, seq![q.shape[0], q.shape[1], q.shape[2], k.shape[2]]),
        operand_fits(bias, seq![q.shape[0], q.shape[1], q.shape[2], k.shape[2]]),
        mask is None && bias is None ==> extra.len() == 0,
        mask is Some || bias is Some ==> extra.len() == 1 && extra[0].wf(),
        mask is None && bias is Some ==> extra[0] == bias->0,
        mask is Some && bias is None ==> extra[0].shape == mask->0.shape && forall|i: Seq<int>|
            in_bounds(extra[0].shape, i) ==> #[trigger] extra[0].at(i) == ternary(
                m,
                TernaryOp::Where,
                mask->0.at(i),
                (m.constant)(Const::NegInfinity),
                (m.constant)(Const::Zero),
            ),
        mask is Some && bias is Some ==> extra[0].shape == broadcast_shape(
            mask->0.shape,
            bias->0.shape,
        ) && forall|i: Seq<int>|
            in_bounds(extra[0].shape, i) ==> #[trigger] extra[0].at(i) == binary(
                m,
                BinaryOp::Add,
                ternary(
                    m,
                    TernaryOp::Where,
                    look(mask->0, i),
                    (m.constant)(Const::NegInfinity),
                    (m.constant)(Const::Zero),
                ),
                look(bias->0, i),
            ),
        0 <= p < size(seq![q.shape[0], q.shape[1], q.shape[2], v.shape[3]]),
    ensures
        attention(m, q, k, v, mask, bias, o).shape == seq![
            q.shape[0],
            q.shape[1],
            q.shape[2],
            v.shape[3],
        ],
        o.scale matches Some(c) ==> attention(m, q, k, v, mask, bias, o).data[p] == (m.kernel)(
            Kernel::Attention { scale: Scale::Given(c), causal: o.is_causal },
            seq![q, k, v] + extra,
            p,
        ),
        o.scale is None ==> attention(m, q, k, v, mask, bias, o).data[p] == (m.kernel)(
            Kernel::Attention {
                scale: Scale::InvSqrt(q.shape[q.shape.len() - 1] as usize),
                causal: o.is_causal,
            },
            seq![q, k, v] + extra,
            p,
        ),
{
    let s = seq![q.shape[0], q.shape[1], q.shape[2], k.shape[2]];
    if let Some(a) = mask {
        let c = additive_mask(m, a);
        lemma_size_nonneg(a.shape);
        if let Some(b) = bias {
            lemma_both_repeated(a.shape, b.shape, s);
            let f = broadcast_shape(a.shape, b.shape);
            lemma_broadcast_is_shape(a.shape, b.shape);
            lemma_size_nonneg(f);
            lemma_operands_repeat(a.shape, b.shape);
            assert(broadcasts_to(f, f));
            let both = zip(m, BinaryOp::Add, c, b);
            assert forall|i: Seq<int>| in_bounds(f, i) implies #[trigger] both.at(i)
                == extra[0].at(i) by {
                lemma_zip_look(m, BinaryOp::Add, c, b, f, i);
                lemma_broadcast_index_same(f, i);
                lemma_additive_look(m, a, f, i);
            }
            lemma_tensor_ext(both, extra[0]);
        } else {
            assert forall|i: Seq<int>| in_bounds(a.shape, i) implies #[trigger] c.at(i)
                == extra[0].at(i) by {
                assert(broadcasts_to(a.shape, a.shape));
                lemma_additive_look(m, a, a.shape, i);
                lemma_broadcast_index_same(a.shape, i);
            }
            lemma_tensor_ext(c, extra[0]);
        }
    }
    assert(mask_operand(m, mask, bias) == extra);
}

} // verus!
