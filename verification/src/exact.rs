//! Exact arithmetic: sums of real numbers, and models that compute them.
use crate::index::{in_bounds, is_shape, lemma_ravel_unravel, lemma_size_nonneg, size, unravel};
use crate::op::{BinaryOp, Const, ReduceOp};
use crate::tensor::{Elem, Model, binary, gathered, reduce};
use vstd::prelude::*;

verus! {

/// The sum of `f(0)` to `f(n - 1)`.
pub open spec fn total(n: int, f: spec_fn(int) -> real) -> real
    decreases n,
{
    if n <= 0 {
        0 as real
    } else {
        total(n - 1, f) + f(n - 1)
    }
}

/// The sum of the values of elements.
pub open spec fn sum_of(s: Seq<Elem>, val: spec_fn(Elem) -> real) -> real {
    total(s.len() as int, |p: int| val(s[p]))
}

/// The sum of the products of elements at the same position.
pub open spec fn inner_product(a: Seq<Elem>, b: Seq<Elem>, val: spec_fn(Elem) -> real) -> real {
    total(a.len() as int, |p: int| val(a[p]) * val(b[p]))
}

pub open spec fn all_floats(s: Seq<Elem>) -> bool {
    forall|p: int| 0 <= p < s.len() ==> #[trigger] s[p] is Float
}

/// `val` gives the number that a float stands for, and the model computes on these
/// numbers without rounding.
pub open spec fn computes_exactly(m: Model, val: spec_fn(Elem) -> real) -> bool {
    &&& (m.constant)(Const::Zero) is Float
    &&& val((m.constant)(Const::Zero)) == 0 as real
    &&& forall|n: usize|
        n > 0 ==> (#[trigger] (m.constant)(Const::Reciprocal(n))) is Float && val(
            (m.constant)(Const::Reciprocal(n)),
        ) * (n as real) == 1 as real
    &&& forall|a: Elem, b: Elem|
        a is Float && b is Float ==> (#[trigger] binary(m, BinaryOp::Multiply, a, b)) is Float
            && val(binary(m, BinaryOp::Multiply, a, b)) == val(a) * val(b)
    &&& forall|s: Seq<Elem>|
        s.len() > 0 && all_floats(s) ==> (#[trigger] reduce(m, ReduceOp::Mean, s)) is Float && val(
            reduce(m, ReduceOp::Mean, s),
        ) * (s.len() as real) == sum_of(s, val)
    &&& forall|e: Elem, s: Seq<Elem>|
        e is Float && all_floats(s) ==> (#[trigger] (m.accumulate)(e, s.to_multiset())) is Float
            && val((m.accumulate)(e, s.to_multiset())) == val(e) + sum_of(s, val)
}

/// `val` gives the number that a float stands for, and the model adds, multiplies, compares
/// and bounds these numbers as the real numbers that they are.
pub open spec fn computes_reals(m: Model, val: spec_fn(Elem) -> real) -> bool {
    &&& forall|c: Const| (#[trigger] (m.constant)(c)) is Float
    &&& val((m.constant)(Const::Zero)) == 0 as real
    &&& val((m.constant)(Const::One)) == 1 as real
    &&& forall|num: u32, den: u32|
        den > 0 ==> val(#[trigger] (m.constant)(Const::Ratio { num, den })) * (den as real) == (
        num as real)
    &&& forall|op: BinaryOp, a: Elem, b: Elem|
        a is Float && b is Float && (op is Add || op is Multiply || op is Divide || op is Maximum
            || op is Minimum) ==> (#[trigger] (m.binary)(op, a, b)) is Float
    &&& forall|a: Elem, b: Elem|
        a is Float && b is Float ==> val(#[trigger] (m.binary)(BinaryOp::Add, a, b)) == val(a)
            + val(b)
    &&& forall|a: Elem, b: Elem|
        a is Float && b is Float ==> val(#[trigger] (m.binary)(BinaryOp::Multiply, a, b)) == val(a)
            * val(b)
    &&& forall|a: Elem, b: Elem|
        a is Float && b is Float && val(b) != 0 as real ==> val(
            #[trigger] (m.binary)(BinaryOp::Divide, a, b),
        ) * val(b) == val(a)
    &&& forall|a: Elem, b: Elem|
        a is Float && b is Float ==> val(#[trigger] (m.binary)(BinaryOp::Maximum, a, b)) == (
        if val(a) < val(b) {
            val(b)
        } else {
            val(a)
        })
    &&& forall|a: Elem, b: Elem|
        a is Float && b is Float ==> val(#[trigger] (m.binary)(BinaryOp::Minimum, a, b)) == (
        if val(a) < val(b) {
            val(a)
        } else {
            val(b)
        })
    &&& forall|a: Elem, b: Elem|
        a is Float && b is Float ==> #[trigger] (m.greater)(a, b) == (val(a) > val(b))
    &&& forall|a: Elem, low: Elem, high: Elem|
        a is Float && low is Float && high is Float && val(low) <= val(high) ==> val(
            #[trigger] (m.clip)(a, low, high),
        ) == (if val(a) < val(low) {
            val(low)
        } else if val(a) > val(high) {
            val(high)
        } else {
            val(a)
        })
}

pub proof fn lemma_total_ext(n: int, f: spec_fn(int) -> real, g: spec_fn(int) -> real)
    requires
        forall|p: int| 0 <= p < n ==> #[trigger] f(p) == g(p),
    ensures
        total(n, f) == total(n, g),
    decreases n,
{
    if n > 0 {
        lemma_total_ext(n - 1, f, g);
        assert(f(n - 1) == g(n - 1));
    }
}

pub proof fn lemma_total_zero(n: int, f: spec_fn(int) -> real)
    requires
        forall|p: int| 0 <= p < n ==> #[trigger] f(p) == 0 as real,
    ensures
        total(n, f) == 0 as real,
    decreases n,
{
    if n > 0 {
        lemma_total_zero(n - 1, f);
        assert(f(n - 1) == 0 as real);
    }
}

/// A sum with one term.
pub proof fn lemma_total_one(n: int, f: spec_fn(int) -> real, at: int)
    requires
        0 <= at < n,
        forall|p: int| 0 <= p < n && p != at ==> #[trigger] f(p) == 0 as real,
    ensures
        total(n, f) == f(at),
    decreases n,
{
    if at == n - 1 {
        lemma_total_zero(n - 1, f);
    } else {
        lemma_total_one(n - 1, f, at);
        assert(f(n - 1) == 0 as real);
    }
}

pub proof fn lemma_total_add(n: int, f: spec_fn(int) -> real, g: spec_fn(int) -> real)
    ensures
        total(n, |p: int| f(p) + g(p)) == total(n, f) + total(n, g),
    decreases n,
{
    if n > 0 {
        lemma_total_add(n - 1, f, g);
    }
}

pub proof fn lemma_total_scale(n: int, f: spec_fn(int) -> real, c: real)
    ensures
        total(n, |p: int| c * f(p)) == c * total(n, f),
    decreases n,
{
    if n > 0 {
        lemma_total_scale(n - 1, f, c);
        let (x, y) = (total(n - 1, f), f(n - 1));
        assert(c * (x + y) == c * x + c * y) by (nonlinear_arith);
    } else {
        assert(c * (0 as real) == 0 as real) by (nonlinear_arith);
    }
}

pub proof fn lemma_total_order(n: int, f: spec_fn(int) -> real, g: spec_fn(int) -> real)
    requires
        forall|p: int| 0 <= p < n ==> #[trigger] f(p) <= g(p),
    ensures
        total(n, f) <= total(n, g),
    decreases n,
{
    if n > 0 {
        lemma_total_order(n - 1, f, g);
        assert(f(n - 1) <= g(n - 1));
    }
}

/// The order of two summations does not matter.
pub proof fn lemma_total_swap(n: int, k: int, w: spec_fn(int, int) -> real)
    ensures
        total(n, |p: int| total(k, |q: int| w(p, q))) == total(
            k,
            |q: int| total(n, |p: int| w(p, q)),
        ),
    decreases n,
{
    let f = |p: int| total(k, |q: int| w(p, q));
    let g = |q: int| total(n, |p: int| w(p, q));
    if n <= 0 {
        lemma_total_zero(k, g);
    } else {
        lemma_total_swap(n - 1, k, w);
        let h = |q: int| total(n - 1, |p: int| w(p, q));
        let l = |q: int| w(n - 1, q);
        lemma_total_add(k, h, l);
        let sum = |q: int| h(q) + l(q);
        lemma_total_ext(k, g, sum);
        assert(f(n - 1) == total(k, l));
        assert(total(n - 1, f) == total(k, h));
    }
}

/// Sums are equal where the terms that are not zero can be paired off.
pub proof fn lemma_total_paired(
    n: int,
    k: int,
    f: spec_fn(int) -> real,
    g: spec_fn(int) -> real,
    mate: spec_fn(int, int) -> bool,
)
    requires
        forall|p: int, q: int|
            0 <= p < n && 0 <= q < k && #[trigger] mate(p, q) ==> f(p) == g(q),
        forall|p: int, q: int, r: int|
            0 <= p < n && 0 <= q < k && 0 <= r < k && #[trigger] mate(p, q) && #[trigger] mate(p, r)
                ==> q == r,
        forall|p: int, q: int, r: int|
            0 <= p < n && 0 <= r < n && 0 <= q < k && #[trigger] mate(p, q) && #[trigger] mate(r, q)
                ==> p == r,
        forall|p: int|
            0 <= p < n && #[trigger] f(p) != 0 as real ==> exists|q: int|
                0 <= q < k && #[trigger] mate(p, q),
        forall|q: int|
            0 <= q < k && #[trigger] g(q) != 0 as real ==> exists|p: int|
                0 <= p < n && #[trigger] mate(p, q),
    ensures
        total(n, f) == total(k, g),
{
    let w = |p: int, q: int|
        if mate(p, q) {
            f(p)
        } else {
            0 as real
        };
    let rows = |p: int| total(k, |q: int| w(p, q));
    let columns = |q: int| total(n, |p: int| w(p, q));
    assert forall|p: int| 0 <= p < n implies #[trigger] rows(p) == f(p) by {
        let r = |q: int| w(p, q);
        if exists|q: int| 0 <= q < k && #[trigger] mate(p, q) {
            let q = choose|q: int| 0 <= q < k && #[trigger] mate(p, q);
            lemma_total_one(k, r, q);
        } else {
            assert(f(p) == 0 as real);
            lemma_total_zero(k, r);
        }
    }
    assert forall|q: int| 0 <= q < k implies #[trigger] columns(q) == g(q) by {
        let r = |p: int| w(p, q);
        if exists|p: int| 0 <= p < n && #[trigger] mate(p, q) {
            let p = choose|p: int| 0 <= p < n && #[trigger] mate(p, q);
            lemma_total_one(n, r, p);
            assert(r(p) == f(p));
        } else {
            assert(g(q) == 0 as real);
            lemma_total_zero(n, r);
        }
    }
    lemma_total_ext(n, rows, f);
    lemma_total_ext(k, columns, g);
    lemma_total_swap(n, k, w);
}

/// The sum over what a filter keeps.
pub proof fn lemma_sum_kept<A>(
    s: Seq<A>,
    keep: spec_fn(A) -> bool,
    get: spec_fn(A) -> Elem,
    val: spec_fn(Elem) -> real,
)
    ensures
        sum_of(s.filter(keep).map_values(get), val) == total(
            s.len() as int,
            |q: int|
                if keep(s[q]) {
                    val(get(s[q]))
                } else {
                    0 as real
                },
        ),
    decreases s.len(),
{
    reveal(Seq::filter);
    let f = |q: int|
        if keep(s[q]) {
            val(get(s[q]))
        } else {
            0 as real
        };
    let kept = s.filter(keep).map_values(get);
    if s.len() > 0 {
        let init = s.drop_last();
        lemma_sum_kept(init, keep, get, val);
        let f0 = |q: int|
            if keep(init[q]) {
                val(get(init[q]))
            } else {
                0 as real
            };
        lemma_total_ext(init.len() as int, f0, f);
        let kept0 = init.filter(keep).map_values(get);
        let n = kept0.len() as int;
        if keep(s.last()) {
            assert(s.filter(keep) == init.filter(keep).push(s.last()));
            assert(kept == kept0.push(get(s.last())));
            lemma_total_ext(n, |p: int| val(kept0[p]), |p: int| val(kept[p]));
        } else {
            assert(kept == kept0);
        }
    } else {
        assert(kept.len() == 0);
    }
}

/// What a gathered collection adds.
pub proof fn lemma_gathered_total(
    m: Model,
    val: spec_fn(Elem) -> real,
    s: Seq<int>,
    keep: spec_fn(Seq<int>) -> bool,
    get: spec_fn(Seq<int>) -> Elem,
)
    requires
        computes_exactly(m, val),
        is_shape(s),
        forall|j: Seq<int>| in_bounds(s, j) ==> (#[trigger] get(j)) is Float,
    ensures
        (m.accumulate)((m.constant)(Const::Zero), gathered(s, keep, get)) is Float,
        val((m.accumulate)((m.constant)(Const::Zero), gathered(s, keep, get))) == total(
            size(s),
            |q: int|
                if keep(unravel(s, q)) {
                    val(get(unravel(s, q)))
                } else {
                    0 as real
                },
        ),
{
    let list = Seq::new(size(s) as nat, |q: int| unravel(s, q));
    let kept = list.filter(keep).map_values(get);
    lemma_size_nonneg(s);
    lemma_kept_in_bounds(list, keep, s);
    assert(all_floats(kept)) by {
        assert forall|p: int| 0 <= p < kept.len() implies #[trigger] kept[p] is Float by {
            let j = list.filter(keep)[p];
            assert(in_bounds(s, j));
            assert(kept[p] == get(j));
        }
    }
    assert forall|q: int| 0 <= q < list.len() implies in_bounds(s, #[trigger] list[q]) by {
        lemma_ravel_unravel(s, q);
    }
    lemma_sum_kept(list, keep, get, val);
    let zero = (m.constant)(Const::Zero);
    assert((m.accumulate)(zero, kept.to_multiset()) is Float);
    let f = |q: int|
        if keep(list[q]) {
            val(get(list[q]))
        } else {
            0 as real
        };
    let g = |q: int|
        if keep(unravel(s, q)) {
            val(get(unravel(s, q)))
        } else {
            0 as real
        };
    lemma_total_ext(size(s), f, g);
}

proof fn lemma_kept_in_bounds(list: Seq<Seq<int>>, keep: spec_fn(Seq<int>) -> bool, s: Seq<int>)
    requires
        is_shape(s),
        list.len() <= size(s),
        forall|q: int| 0 <= q < list.len() ==> #[trigger] list[q] == unravel(s, q),
    ensures
        forall|p: int|
            0 <= p < list.filter(keep).len() ==> in_bounds(s, #[trigger] list.filter(keep)[p]),
    decreases list.len(),
{
    reveal(Seq::filter);
    if list.len() > 0 {
        let init = list.drop_last();
        assert forall|q: int| 0 <= q < init.len() implies #[trigger] init[q] == unravel(s, q) by {
            assert(init[q] == list[q]);
        }
        lemma_kept_in_bounds(init, keep, s);
        lemma_ravel_unravel(s, list.len() - 1);
        assert(list[list.len() - 1] == unravel(s, list.len() - 1));
        let kept = list.filter(keep);
        assert forall|p: int| 0 <= p < kept.len() implies in_bounds(s, #[trigger] kept[p]) by {
            if p < init.filter(keep).len() {
                assert(kept[p] == init.filter(keep)[p]);
            }
        }
    }
}

} // verus!
