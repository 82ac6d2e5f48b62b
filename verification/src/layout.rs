//! Axis orders and row-major strides.
//!
//! Module operations take channels-first arrays, while windows are cut from
//! channels-last ones.
use crate::array::Array;
use crate::index::{
    in_bounds, is_shape, lemma_rank1, lemma_size_concat, lemma_size_nonneg, lemma_size_positive,
    row_strides, size,
};
use crate::node::{ints, longs};
use crate::tensor::{Model, Tensor, is_permutation, lemma_tabulate, permute, permuted, reshape};
use vstd::arithmetic::mul::*;
use vstd::prelude::*;

verus! {

/// What a permuted tensor holds at `i`, given the inverse of the permutation.
pub proof fn lemma_permute_at(t: Tensor, axes: Seq<int>, inverse: Seq<int>, i: Seq<int>)
    requires
        is_permutation(axes, t.shape.len() as int),
        inverse.len() == axes.len(),
        forall|k: int|
            0 <= k < inverse.len() ==> 0 <= #[trigger] inverse[k] < axes.len() && axes[inverse[k]]
                == k,
        in_bounds(permuted(t.shape, axes), i),
    ensures
        in_bounds(t.shape, permuted(i, inverse)),
        permute(t, axes).at(i) == t.at(permuted(i, inverse)),
{
    let j = permuted(i, inverse);
    let s = permuted(t.shape, axes);
    assert forall|k: int| 0 <= k < t.shape.len() implies 0 <= #[trigger] j[k] < t.shape[k] by {
        assert(axes[inverse[k]] == k);
        assert(0 <= i[inverse[k]] < s[inverse[k]]);
    }
    let f = |i: Seq<int>| t.at(Seq::new(axes.len(), |k: int| i[axes.index_of(k)]));
    lemma_tabulate(s, f, i);
    assert(Seq::new(axes.len(), |k: int| i[axes.index_of(k)]) == j) by {
        assert forall|k: int| 0 <= k < axes.len() implies axes.index_of(k) == inverse[k] by {
            assert(axes[inverse[k]] == k);
            let x = axes.index_of(k);
            assert(axes.contains(k));
            assert(0 <= x < axes.len() && axes[x] == k);
        }
    }
}

/// `[N, C, L]` as `[N, L, C]`, and back.
pub open spec fn swap_last() -> Seq<int> {
    seq![0, 2, 1]
}

/// `[N, C, H, W]` as `[N, H, W, C]`.
pub open spec fn channels_last() -> Seq<int> {
    seq![0, 2, 3, 1]
}

/// `[N, H, W, C]` as `[N, C, H, W]`.
pub open spec fn channels_first() -> Seq<int> {
    seq![0, 3, 1, 2]
}

pub proof fn lemma_swap_last(t: Tensor, i: Seq<int>)
    requires
        t.shape.len() == 3,
        in_bounds(seq![t.shape[0], t.shape[2], t.shape[1]], i),
    ensures
        is_permutation(swap_last(), 3),
        permuted(t.shape, swap_last()) == seq![t.shape[0], t.shape[2], t.shape[1]],
        in_bounds(t.shape, seq![i[0], i[2], i[1]]),
        permute(t, swap_last()).at(i) == t.at(seq![i[0], i[2], i[1]]),
{
    assert(permuted(t.shape, swap_last()) == seq![t.shape[0], t.shape[2], t.shape[1]]);
    lemma_permute_at(t, swap_last(), swap_last(), i);
    assert(permuted(i, swap_last()) == seq![i[0], i[2], i[1]]);
}

pub proof fn lemma_channels_last(t: Tensor, i: Seq<int>)
    requires
        t.shape.len() == 4,
        in_bounds(seq![t.shape[0], t.shape[2], t.shape[3], t.shape[1]], i),
    ensures
        is_permutation(channels_last(), 4),
        permuted(t.shape, channels_last()) == seq![
            t.shape[0],
            t.shape[2],
            t.shape[3],
            t.shape[1],
        ],
        in_bounds(t.shape, seq![i[0], i[3], i[1], i[2]]),
        permute(t, channels_last()).at(i) == t.at(seq![i[0], i[3], i[1], i[2]]),
{
    assert(permuted(t.shape, channels_last()) == seq![
        t.shape[0],
        t.shape[2],
        t.shape[3],
        t.shape[1],
    ]);
    lemma_permute_at(t, channels_last(), channels_first(), i);
    assert(permuted(i, channels_first()) == seq![i[0], i[3], i[1], i[2]]);
}

pub proof fn lemma_channels_first(t: Tensor, i: Seq<int>)
    requires
        t.shape.len() == 4,
        in_bounds(seq![t.shape[0], t.shape[3], t.shape[1], t.shape[2]], i),
    ensures
        is_permutation(channels_first(), 4),
        permuted(t.shape, channels_first()) == seq![
            t.shape[0],
            t.shape[3],
            t.shape[1],
            t.shape[2],
        ],
        in_bounds(t.shape, seq![i[0], i[2], i[3], i[1]]),
        permute(t, channels_first()).at(i) == t.at(seq![i[0], i[2], i[3], i[1]]),
{
    assert(permuted(t.shape, channels_first()) == seq![
        t.shape[0],
        t.shape[3],
        t.shape[1],
        t.shape[2],
    ]);
    lemma_permute_at(t, channels_first(), channels_last(), i);
    assert(permuted(i, channels_last()) == seq![i[0], i[2], i[3], i[1]]);
}

pub proof fn lemma_size_front(s: Seq<int>)
    requires
        s.len() > 0,
    ensures
        size(s) == s[0] * size(s.skip(1)),
{
    assert(s == seq![s[0]] + s.skip(1));
    lemma_size_concat(seq![s[0]], s.skip(1));
    lemma_rank1(seq![s[0]], seq![0]);
}

/// The row-major strides of a shape.
pub fn row_major_strides(shape: &[i32]) -> (r: Vec<i64>)
    requires
        shape@.len() > 0,
        is_shape(ints(shape@)),
        forall|k: int|
            0 < k <= shape@.len() ==> size(#[trigger] ints(shape@).skip(k)) <= i64::MAX,
    ensures
        longs(r@) == row_strides(ints(shape@)),
        r@.len() == shape@.len(),
{
    let ghost s = ints(shape@);
    let n: usize = shape.len();
    let mut r: Vec<i64> = vec![1i64; n];
    let mut k: usize = n - 1;
    proof {
        assert(s.skip(n as int).len() == 0);
    }
    while k > 0
        invariant
            s == ints(shape@),
            is_shape(s),
            shape@.len() == n,
            k < n,
            r@.len() == n,
            forall|j: int| 0 < j <= n ==> size(#[trigger] s.skip(j)) <= i64::MAX,
            forall|j: int| k <= j < n ==> #[trigger] r@[j] == size(s.skip(j + 1)),
        decreases k,
    {
        proof {
            lemma_size_front(s.skip(k as int));
            assert(s.skip(k as int).skip(1) == s.skip(k + 1));
            assert(s.skip(k as int)[0] == s[k as int]);
            assert(r@[k as int] == size(s.skip(k + 1)));
            lemma_mul_is_commutative(s[k as int], size(s.skip(k + 1)));
            assert(s.skip(k as int).len() > 0);
            lemma_tail_is_shape(s, k as int);
            lemma_size_nonneg(s.skip(k as int));
        }
        let d: i64 = r[k] * shape[k] as i64;
        k = k - 1;
        r.set(k, d);
    }
    assert(longs(r@) == row_strides(s)) by {
        assert forall|j: int| 0 <= j < n implies longs(r@)[j] == row_strides(s)[j] by {
            assert(r@[j] == size(s.skip(j + 1)));
        }
    }
    r
}

pub proof fn lemma_tail_is_shape(s: Seq<int>, k: int)
    requires
        is_shape(s),
        0 <= k <= s.len(),
    ensures
        is_shape(s.skip(k)),
{
    assert forall|j: int| 0 <= j < s.skip(k).len() implies #[trigger] s.skip(k)[j] >= 0 by {
        assert(s[k + j] >= 0);
    }
}

/// The same elements along one axis.
pub fn flatten(x: &Array) -> (r: Array)
    requires
        x.wf(),
        size(x.dims()) <= i32::MAX,
    ensures
        r.wf(),
        r.dims() == seq![size(x.dims())],
        forall|m: Model| #[trigger] r.value(m) == reshape(x.value(m), seq![size(x.dims())]),
{
    let shape = x.shape();
    let n = total_elements(shape.as_slice());
    let flat: Vec<i32> = vec![n as i32];
    proof {
        assert(ints(flat@) == seq![size(x.dims())]);
        lemma_rank1(seq![size(x.dims())], seq![0]);
    }
    x.reshape(flat.as_slice())
}

/// The number of elements of a shape.
pub fn total_elements(shape: &[i32]) -> (r: usize)
    requires
        is_shape(ints(shape@)),
        size(ints(shape@)) <= usize::MAX,
    ensures
        r == size(ints(shape@)),
{
    let ghost s = ints(shape@);
    // An extent of zero settles the product, whatever the others are.
    for k in 0..shape.len()
        invariant
            s == ints(shape@),
            is_shape(s),
            forall|j: int| 0 <= j < k ==> #[trigger] s[j] > 0,
    {
        if shape[k] == 0 {
            proof {
                assert(s[k as int] == 0);
                lemma_zero_extent(s, k as int);
            }
            return 0;
        }
        assert(s[k as int] >= 0);
    }
    let mut r: usize = 1;
    for k in 0..shape.len()
        invariant
            s == ints(shape@),
            size(s) <= usize::MAX,
            forall|j: int| 0 <= j < s.len() ==> #[trigger] s[j] > 0,
            r == size(s.take(k as int)),
            r > 0,
    {
        proof {
            lemma_size_prefix(s, k + 1);
            assert(s.take(k + 1).drop_last() == s.take(k as int));
        }
        r = r * shape[k] as usize;
    }
    assert(s.take(s.len() as int) == s);
    r
}

pub proof fn lemma_zero_extent(s: Seq<int>, k: int)
    requires
        0 <= k < s.len(),
        s[k] == 0,
    ensures
        size(s) == 0,
{
    assert(s == s.take(k) + seq![0int] + s.skip(k + 1));
    lemma_size_concat(s.take(k), seq![0int]);
    lemma_size_concat(s.take(k) + seq![0int], s.skip(k + 1));
    lemma_rank1(seq![0int], seq![0]);
    lemma_mul_basics(size(s.take(k)));
    lemma_mul_basics(size(s.skip(k + 1)));
}

/// Leading extents of a positive shape multiply to no more than all of them.
pub proof fn lemma_size_prefix(s: Seq<int>, k: int)
    requires
        0 <= k <= s.len(),
        forall|j: int| 0 <= j < s.len() ==> #[trigger] s[j] > 0,
    ensures
        0 < size(s.take(k)) <= size(s),
{
    assert(s == s.take(k) + s.skip(k));
    lemma_size_concat(s.take(k), s.skip(k));
    assert forall|j: int| 0 <= j < s.take(k).len() implies #[trigger] s.take(k)[j] > 0 by {
        assert(s[j] > 0);
    }
    assert forall|j: int| 0 <= j < s.skip(k).len() implies #[trigger] s.skip(k)[j] > 0 by {
        assert(s[k + j] > 0);
    }
    lemma_size_positive(s.take(k));
    lemma_size_positive(s.skip(k));
    lemma_mul_increases(size(s.skip(k)), size(s.take(k)));
    lemma_mul_is_commutative(size(s.skip(k)), size(s.take(k)));
}

} // verus!
