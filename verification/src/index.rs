//! Row-major indexing of multi-dimensional shapes.
//!
//! A shape is a sequence of extents and an index is a sequence of coordinates,
//! one per axis. `ravel` maps an index to its position in row-major order and
//! `unravel` maps a position back to its index.
use vstd::arithmetic::div_mod::*;
use vstd::arithmetic::mul::*;
use vstd::prelude::*;

verus! {

/// Every extent is non-negative.
pub open spec fn is_shape(s: Seq<int>) -> bool {
    forall|k: int| 0 <= k < s.len() ==> #[trigger] s[k] >= 0
}

/// The number of elements of an array of shape `s`.
pub open spec fn size(s: Seq<int>) -> int
    decreases s.len(),
{
    if s.len() == 0 {
        1
    } else {
        size(s.drop_last()) * s.last()
    }
}

/// `i` addresses an element of an array of shape `s`.
pub open spec fn in_bounds(s: Seq<int>, i: Seq<int>) -> bool {
    &&& i.len() == s.len()
    &&& forall|k: int| 0 <= k < s.len() ==> 0 <= #[trigger] i[k] < s[k]
}

/// The row-major position of index `i` in an array of shape `s`.
pub open spec fn ravel(s: Seq<int>, i: Seq<int>) -> int
    decreases s.len(),
{
    if s.len() == 0 {
        0
    } else {
        ravel(s.drop_last(), i.drop_last()) * s.last() + i.last()
    }
}

/// The index of row-major position `p` in an array of shape `s`.
pub open spec fn unravel(s: Seq<int>, p: int) -> Seq<int>
    decreases s.len(),
{
    if s.len() == 0 {
        seq![]
    } else {
        unravel(s.drop_last(), p / s.last()).push(p % s.last())
    }
}

/// The position that index `i` addresses when axis `k` advances by
/// `strides[k]`.
pub open spec fn offset(i: Seq<int>, strides: Seq<int>) -> int
    decreases i.len(),
{
    if i.len() == 0 {
        0
    } else {
        offset(i.drop_last(), strides.drop_last()) + i.last() * strides.last()
    }
}

/// The row-major strides of shape `s`: axis `k` advances by the number of
/// elements of one slice behind it.
pub open spec fn row_strides(s: Seq<int>) -> Seq<int> {
    Seq::new(s.len(), |k: int| size(s.skip(k + 1)))
}

pub proof fn lemma_size_nonneg(s: Seq<int>)
    requires
        is_shape(s),
    ensures
        size(s) >= 0,
    decreases s.len(),
{
    if s.len() > 0 {
        assert forall|k: int| 0 <= k < s.drop_last().len() implies #[trigger] s.drop_last()[k]
            >= 0 by {
            assert(s.drop_last()[k] == s[k]);
        }
        lemma_size_nonneg(s.drop_last());
        assert(s.last() >= 0) by {
            assert(s[s.len() - 1] >= 0);
        }
        lemma_mul_nonnegative(size(s.drop_last()), s.last());
    }
}

pub proof fn lemma_size_positive(s: Seq<int>)
    requires
        forall|k: int| 0 <= k < s.len() ==> #[trigger] s[k] > 0,
    ensures
        size(s) > 0,
    decreases s.len(),
{
    if s.len() > 0 {
        assert forall|k: int| 0 <= k < s.drop_last().len() implies #[trigger] s.drop_last()[k]
            > 0 by {
            assert(s.drop_last()[k] == s[k]);
        }
        lemma_size_positive(s.drop_last());
        assert(s[s.len() - 1] > 0);
        lemma_mul_strictly_positive(size(s.drop_last()), s.last());
    }
}

pub proof fn lemma_extents_positive(s: Seq<int>)
    requires
        is_shape(s),
        size(s) > 0,
    ensures
        forall|k: int| 0 <= k < s.len() ==> #[trigger] s[k] > 0,
    decreases s.len(),
{
    if s.len() > 0 {
        let s0 = s.drop_last();
        assert forall|k: int| 0 <= k < s0.len() implies #[trigger] s0[k] >= 0 by {
            assert(s0[k] == s[k]);
        }
        lemma_size_nonneg(s0);
        assert(s[s.len() - 1] >= 0);
        assert(size(s0) > 0 && s.last() > 0) by (nonlinear_arith)
            requires
                size(s0) * s.last() > 0,
                size(s0) >= 0,
                s.last() >= 0,
        ;
        lemma_extents_positive(s0);
        assert forall|k: int| 0 <= k < s.len() implies #[trigger] s[k] > 0 by {
            if k < s0.len() {
                assert(s0[k] > 0);
            }
        }
    }
}

pub proof fn lemma_ravel_bound(s: Seq<int>, i: Seq<int>)
    requires
        in_bounds(s, i),
    ensures
        0 <= ravel(s, i) < size(s),
    decreases s.len(),
{
    if s.len() > 0 {
        let s0 = s.drop_last();
        let i0 = i.drop_last();
        assert forall|k: int| 0 <= k < s0.len() implies 0 <= #[trigger] i0[k] < s0[k] by {
            assert(i0[k] == i[k]);
        }
        lemma_ravel_bound(s0, i0);
        let r = ravel(s0, i0);
        let z = size(s0);
        let d = s.last();
        let j = i.last();
        assert(0 <= i[s.len() - 1] < s[s.len() - 1]);
        assert(0 <= r * d + j < z * d) by (nonlinear_arith)
            requires
                0 <= r < z,
                0 <= j < d,
        ;
    }
}

pub proof fn lemma_unravel_ravel(s: Seq<int>, i: Seq<int>)
    requires
        in_bounds(s, i),
    ensures
        unravel(s, ravel(s, i)) == i,
    decreases s.len(),
{
    if s.len() > 0 {
        let s0 = s.drop_last();
        let i0 = i.drop_last();
        assert forall|k: int| 0 <= k < s0.len() implies 0 <= #[trigger] i0[k] < s0[k] by {
            assert(i0[k] == i[k]);
        }
        lemma_unravel_ravel(s0, i0);
        let r = ravel(s0, i0);
        let d = s.last();
        let j = i.last();
        assert(0 <= i[s.len() - 1] < s[s.len() - 1]);
        lemma_fundamental_div_mod_converse(r * d + j, d, r, j);
        assert(i0.push(j) == i);
    } else {
        assert(i == Seq::<int>::empty());
    }
}

pub proof fn lemma_ravel_unravel(s: Seq<int>, p: int)
    requires
        is_shape(s),
        0 <= p < size(s),
    ensures
        in_bounds(s, unravel(s, p)),
        ravel(s, unravel(s, p)) == p,
    decreases s.len(),
{
    if s.len() > 0 {
        let s0 = s.drop_last();
        let d = s.last();
        assert forall|k: int| 0 <= k < s0.len() implies #[trigger] s0[k] >= 0 by {
            assert(s0[k] == s[k]);
        }
        lemma_size_nonneg(s0);
        assert(s[s.len() - 1] >= 0);
        assert(d > 0) by (nonlinear_arith)
            requires
                0 <= p < size(s0) * d,
                d >= 0,
        ;
        lemma_fundamental_div_mod(p, d);
        lemma_mod_bound(p, d);
        let q = p / d;
        assert(0 <= q < size(s0)) by (nonlinear_arith)
            requires
                0 <= p < size(s0) * d,
                d > 0,
                p == d * q + p % d,
                0 <= p % d < d,
        ;
        lemma_ravel_unravel(s0, q);
        let u = unravel(s, p);
        assert(u.drop_last() == unravel(s0, q));
        lemma_mul_is_commutative(q, d);
        assert forall|k: int| 0 <= k < s.len() implies 0 <= #[trigger] u[k] < s[k] by {
            if k < s.len() - 1 {
                assert(u[k] == unravel(s0, q)[k]);
                assert(s0[k] == s[k]);
            }
        }
    }
}

pub proof fn lemma_size_concat(s1: Seq<int>, s2: Seq<int>)
    ensures
        size(s1 + s2) == size(s1) * size(s2),
    decreases s2.len(),
{
    if s2.len() == 0 {
        assert(s1 + s2 == s1);
        lemma_mul_basics(size(s1));
    } else {
        assert((s1 + s2).drop_last() == s1 + s2.drop_last());
        lemma_size_concat(s1, s2.drop_last());
        lemma_mul_is_associative(size(s1), size(s2.drop_last()), s2.last());
    }
}

pub proof fn lemma_ravel_concat(s1: Seq<int>, s2: Seq<int>, i1: Seq<int>, i2: Seq<int>)
    requires
        i1.len() == s1.len(),
        i2.len() == s2.len(),
    ensures
        ravel(s1 + s2, i1 + i2) == ravel(s1, i1) * size(s2) + ravel(s2, i2),
    decreases s2.len(),
{
    if s2.len() == 0 {
        assert(s1 + s2 == s1);
        assert(i1 + i2 == i1);
        lemma_mul_basics(ravel(s1, i1));
    } else {
        assert((s1 + s2).drop_last() == s1 + s2.drop_last());
        assert((i1 + i2).drop_last() == i1 + i2.drop_last());
        lemma_ravel_concat(s1, s2.drop_last(), i1, i2.drop_last());
        let r = ravel(s1, i1);
        let z = size(s2.drop_last());
        let q = ravel(s2.drop_last(), i2.drop_last());
        let d = s2.last();
        assert((r * z + q) * d == r * (z * d) + q * d) by (nonlinear_arith);
    }
}

pub proof fn lemma_rank1(s: Seq<int>, i: Seq<int>)
    requires
        s.len() == 1,
        i.len() == 1,
    ensures
        size(s) == s[0],
        ravel(s, i) == i[0],
{
    reveal_with_fuel(size, 2);
    reveal_with_fuel(ravel, 2);
}

pub proof fn lemma_rank2(s: Seq<int>, i: Seq<int>)
    requires
        s.len() == 2,
        i.len() == 2,
    ensures
        size(s) == s[0] * s[1],
        ravel(s, i) == i[0] * s[1] + i[1],
{
    reveal_with_fuel(size, 3);
    reveal_with_fuel(ravel, 3);
}

pub proof fn lemma_rank3(s: Seq<int>, i: Seq<int>)
    requires
        s.len() == 3,
        i.len() == 3,
    ensures
        size(s) == s[0] * s[1] * s[2],
        ravel(s, i) == (i[0] * s[1] + i[1]) * s[2] + i[2],
{
    lemma_rank2(s.drop_last(), i.drop_last());
}

pub proof fn lemma_rank4(s: Seq<int>, i: Seq<int>)
    requires
        s.len() == 4,
        i.len() == 4,
    ensures
        size(s) == s[0] * s[1] * s[2] * s[3],
        ravel(s, i) == ((i[0] * s[1] + i[1]) * s[2] + i[2]) * s[3] + i[3],
{
    lemma_rank3(s.drop_last(), i.drop_last());
}

pub proof fn lemma_rank6(s: Seq<int>, i: Seq<int>)
    requires
        s.len() == 6,
        i.len() == 6,
    ensures
        size(s) == s[0] * s[1] * s[2] * s[3] * s[4] * s[5],
        ravel(s, i) == ((((i[0] * s[1] + i[1]) * s[2] + i[2]) * s[3] + i[3]) * s[4] + i[4]) * s[5]
            + i[5],
{
    reveal_with_fuel(size, 3);
    reveal_with_fuel(ravel, 3);
    let (s5, i5) = (s.drop_last(), i.drop_last());
    lemma_rank4(s5.drop_last(), i5.drop_last());
}

pub proof fn lemma_unravel1(s: Seq<int>, q: int)
    requires
        s.len() == 1,
        0 <= q < s[0],
    ensures
        size(s) == s[0],
        unravel(s, q) == seq![q],
{
    lemma_rank1(s, seq![q]);
    lemma_unravel_ravel(s, seq![q]);
}

pub proof fn lemma_unravel2(s: Seq<int>, q: int)
    requires
        s.len() == 2,
        0 <= s[0],
        0 <= s[1],
        0 <= q < s[0] * s[1],
    ensures
        size(s) == s[0] * s[1],
        0 <= q / s[1] < s[0],
        0 <= q % s[1] < s[1],
        unravel(s, q) == seq![q / s[1], q % s[1]],
{
    let (a, b) = (s[0], s[1]);
    assert(b > 0) by (nonlinear_arith)
        requires
            0 <= q < a * b,
            0 <= b,
    ;
    lemma_fundamental_div_mod(q, b);
    lemma_mod_bound(q, b);
    let d = q / b;
    assert(0 <= d < a) by (nonlinear_arith)
        requires
            0 <= q < a * b,
            b > 0,
            q == b * d + q % b,
            0 <= q % b < b,
    ;
    lemma_rank2(s, seq![d, q % b]);
    lemma_mul_is_commutative(b, d);
    lemma_unravel_ravel(s, seq![d, q % b]);
}

/// Merging adjacent axes keeps positions.
pub proof fn lemma_merge_axes(
    s1: Seq<int>,
    mid: Seq<int>,
    s2: Seq<int>,
    i1: Seq<int>,
    q: int,
    i2: Seq<int>,
)
    requires
        is_shape(mid),
        i1.len() == s1.len(),
        i2.len() == s2.len(),
        0 <= q < size(mid),
    ensures
        ravel(s1 + mid + s2, i1 + unravel(mid, q) + i2) == ravel(
            s1 + seq![size(mid)] + s2,
            i1 + seq![q] + i2,
        ),
{
    lemma_ravel_unravel(mid, q);
    let u = unravel(mid, q);
    lemma_ravel_concat(s1 + mid, s2, i1 + u, i2);
    lemma_ravel_concat(s1, mid, i1, u);
    lemma_ravel_concat(s1 + seq![size(mid)], s2, i1 + seq![q], i2);
    lemma_ravel_concat(s1, seq![size(mid)], i1, seq![q]);
    lemma_rank1(seq![size(mid)], seq![q]);
}

proof fn lemma_offset_front(i: Seq<int>, strides: Seq<int>)
    requires
        i.len() > 0,
        strides.len() == i.len(),
    ensures
        offset(i, strides) == i[0] * strides[0] + offset(i.skip(1), strides.skip(1)),
    decreases i.len(),
{
    reveal_with_fuel(offset, 2);
    if i.len() == 1 {
        assert(i.skip(1).len() == 0);
        assert(i.drop_last().len() == 0);
    } else {
        lemma_offset_front(i.drop_last(), strides.drop_last());
        assert(i.skip(1).drop_last() == i.drop_last().skip(1));
        assert(strides.skip(1).drop_last() == strides.drop_last().skip(1));
    }
}

/// Row-major strides lead to row-major positions.
pub proof fn lemma_offset_is_ravel(s: Seq<int>, i: Seq<int>)
    requires
        i.len() == s.len(),
    ensures
        offset(i, row_strides(s)) == ravel(s, i),
    decreases s.len(),
{
    if s.len() > 0 {
        lemma_offset_front(i, row_strides(s));
        lemma_offset_is_ravel(s.skip(1), i.skip(1));
        assert(row_strides(s).skip(1) == row_strides(s.skip(1))) by {
            assert forall|k: int| 0 <= k < s.len() - 1 implies row_strides(s).skip(1)[k]
                == row_strides(s.skip(1))[k] by {
                assert(s.skip(1).skip(k + 1) == s.skip(k + 2));
            }
        }
        assert(s == seq![s[0]] + s.skip(1));
        assert(i == seq![i[0]] + i.skip(1));
        lemma_ravel_concat(seq![s[0]], s.skip(1), seq![i[0]], i.skip(1));
        lemma_rank1(seq![s[0]], seq![i[0]]);
    }
}

/// Different in-bounds indices have different positions.
pub proof fn lemma_ravel_injective(s: Seq<int>, i: Seq<int>, j: Seq<int>)
    requires
        in_bounds(s, i),
        in_bounds(s, j),
        ravel(s, i) == ravel(s, j),
    ensures
        i == j,
{
    lemma_unravel_ravel(s, i);
    lemma_unravel_ravel(s, j);
}

} // verus!
