//! What arrays and array operations mean.
//!
//! A `Tensor` is the value of an array: a shape and the elements in row-major
//! order. Operations that move elements are defined here by which element goes
//! where. What the floating-point primitives compute is left to a `Model`, so
//! that a statement about all models holds for any arithmetic.
use crate::index::{
    in_bounds, is_shape, lemma_rank1, lemma_ravel_bound, lemma_ravel_unravel, lemma_size_nonneg,
    lemma_unravel_ravel, offset, ravel, size, unravel,
};
use crate::op::{BinaryOp, Const, Kernel, ReduceOp, TernaryOp, UnaryOp};
use vstd::multiset::Multiset;
use vstd::prelude::*;

verus! {

/// One array element. The payload of `Float` is opaque. `Undefined` stands for
/// an element that no operation promises anything about: an integer outside
/// the `i32` range, or a read at an index out of range.
pub enum Elem {
    Int(int),
    Bool(bool),
    Float(int),
    Undefined,
}

/// The value of an array.
pub struct Tensor {
    pub shape: Seq<int>,
    pub data: Seq<Elem>,
}

impl Tensor {
    pub open spec fn wf(self) -> bool {
        &&& is_shape(self.shape)
        &&& self.data.len() == size(self.shape)
    }

    /// The element at index `i`.
    pub open spec fn at(self, i: Seq<int>) -> Elem {
        self.data[ravel(self.shape, i)]
    }
}

/// An interpretation of what this crate does not compute itself: the input
/// arrays and the floating-point primitives.
pub struct Model {
    /// Element `p`, in row-major order, of input array `id`.
    pub input: spec_fn(u64, int) -> Elem,
    pub constant: spec_fn(Const) -> Elem,
    /// The product of a quantized value and the scale with the given bits.
    pub scaled: spec_fn(i8, u32) -> Elem,
    pub unary: spec_fn(UnaryOp, Elem) -> Elem,
    pub binary: spec_fn(BinaryOp, Elem, Elem) -> Elem,
    pub greater: spec_fn(Elem, Elem) -> bool,
    pub clip: spec_fn(Elem, Elem, Elem) -> Elem,
    pub reduce: spec_fn(ReduceOp, Seq<Elem>) -> Elem,
    /// Which of the elements is taken as the largest, up to multiples of their
    /// number.
    pub argmax: spec_fn(Seq<Elem>) -> int,
    /// The inner product of a row and a column.
    pub dot: spec_fn(Seq<Elem>, Seq<Elem>) -> Elem,
    /// Element `k` of the softmax of a row.
    pub softmax: spec_fn(Seq<Elem>, int) -> Elem,
    /// What a filter makes of the entries that it covers. Where it covers padding
    /// there is no entry.
    pub convolve: spec_fn(Seq<Option<Elem>>, Seq<Elem>) -> Elem,
    /// An element after a collection of updates was added to it.
    pub accumulate: spec_fn(Elem, Multiset<Elem>) -> Elem,
    /// Element `p`, in row-major order, of what a kernel makes of its operands.
    pub kernel: spec_fn(Kernel, Seq<Tensor>, int) -> Elem,
}

/// The integer `x` as an element.
pub open spec fn int_elem(x: int) -> Elem {
    if i32::MIN <= x <= i32::MAX {
        Elem::Int(x)
    } else {
        Elem::Undefined
    }
}

/// A leaky rectifier is the larger of the element and its multiple. A truth value
/// is converted to one or zero. The rest is the model's.
pub open spec fn unary(m: Model, op: UnaryOp, a: Elem) -> Elem {
    match (op, a) {
        (UnaryOp::LeakyRelu(slope), _) => binary(
            m,
            BinaryOp::Maximum,
            binary(m, BinaryOp::Multiply, (m.constant)(Const::Single(slope)), a),
            a,
        ),
        (UnaryOp::CastFloat, Elem::Bool(t)) => (m.constant)(
            if t {
                Const::One
            } else {
                Const::Zero
            },
        ),
        _ => (m.unary)(op, a),
    }
}

/// Sums, products, quotients and remainders of integers are integers, and
/// comparisons are truth values. The rest is the model's.
pub open spec fn binary(m: Model, op: BinaryOp, a: Elem, b: Elem) -> Elem {
    match (op, a, b) {
        (BinaryOp::Add, Elem::Int(x), Elem::Int(y)) => int_elem(x + y),
        (BinaryOp::Multiply, Elem::Int(x), Elem::Int(y)) => int_elem(x * y),
        (BinaryOp::FloorDivide, Elem::Int(x), Elem::Int(y)) => if y > 0 {
            int_elem(x / y)
        } else {
            Elem::Undefined
        },
        (BinaryOp::Remainder, Elem::Int(x), Elem::Int(y)) => if y > 0 {
            int_elem(x % y)
        } else {
            Elem::Undefined
        },
        (BinaryOp::Greater, _, _) => Elem::Bool((m.greater)(a, b)),
        _ => (m.binary)(op, a, b),
    }
}

pub open spec fn ternary(m: Model, op: TernaryOp, a: Elem, b: Elem, c: Elem) -> Elem {
    match op {
        TernaryOp::Where => match a {
            Elem::Bool(t) => if t {
                b
            } else {
                c
            },
            _ => Elem::Undefined,
        },
        TernaryOp::Clip => (m.clip)(a, b, c),
    }
}

pub open spec fn all_ints(s: Seq<Elem>) -> bool {
    forall|k: int| 0 <= k < s.len() ==> #[trigger] s[k] is Int
}

/// The sum of a sequence of integer elements.
pub open spec fn int_sum(s: Seq<Elem>) -> int
    decreases s.len(),
{
    if s.len() == 0 {
        0
    } else {
        int_sum(s.drop_last()) + s.last()->Int_0
    }
}

/// The position of the largest of the elements.
pub open spec fn argmax(m: Model, s: Seq<Elem>) -> int {
    (m.argmax)(s) % (s.len() as int)
}

pub open spec fn reduce(m: Model, op: ReduceOp, s: Seq<Elem>) -> Elem {
    match op {
        ReduceOp::ArgMax => Elem::Int(argmax(m, s)),
        ReduceOp::Sum => if all_ints(s) {
            int_elem(int_sum(s))
        } else {
            (m.reduce)(op, s)
        },
        _ => (m.reduce)(op, s),
    }
}

/// The tensor of shape `s` whose element at index `i` is `f(i)`.
pub open spec fn tabulate(s: Seq<int>, f: spec_fn(Seq<int>) -> Elem) -> Tensor {
    Tensor { shape: s, data: Seq::new(size(s) as nat, |p: int| f(unravel(s, p))) }
}

/// A tensor of rank zero.
pub open spec fn scalar(e: Elem) -> Tensor {
    Tensor { shape: seq![], data: seq![e] }
}

pub open spec fn constant_tensor(s: Seq<int>, e: Elem) -> Tensor {
    tabulate(s, |i: Seq<int>| e)
}

pub open spec fn int_tensor(data: Seq<int>, s: Seq<int>) -> Tensor {
    Tensor { shape: s, data: Seq::new(data.len(), |p: int| Elem::Int(data[p])) }
}

pub open spec fn bool_tensor(data: Seq<bool>, s: Seq<int>) -> Tensor {
    Tensor { shape: s, data: Seq::new(data.len(), |p: int| Elem::Bool(data[p])) }
}

/// The products of quantized values and the scales with the given bits.
pub open spec fn scaled_tensor(m: Model, values: Seq<i8>, scales: Seq<u32>, s: Seq<int>) -> Tensor {
    Tensor { shape: s, data: Seq::new(values.len(), |p: int| (m.scaled)(values[p], scales[p])) }
}

pub proof fn lemma_tabulate(s: Seq<int>, f: spec_fn(Seq<int>) -> Elem, i: Seq<int>)
    requires
        in_bounds(s, i),
    ensures
        tabulate(s, f).at(i) == f(i),
{
    lemma_ravel_bound(s, i);
    lemma_unravel_ravel(s, i);
}

pub proof fn lemma_tabulate_wf(s: Seq<int>, f: spec_fn(Seq<int>) -> Elem)
    requires
        is_shape(s),
    ensures
        tabulate(s, f).wf(),
{
    lemma_size_nonneg(s);
}

/// Tensors of one shape that agree at every index are equal.
pub proof fn lemma_tensor_ext(t: Tensor, u: Tensor)
    requires
        t.wf(),
        u.wf(),
        t.shape == u.shape,
        forall|i: Seq<int>| in_bounds(t.shape, i) ==> #[trigger] t.at(i) == u.at(i),
    ensures
        t == u,
{
    assert forall|p: int| 0 <= p < t.data.len() implies t.data[p] == u.data[p] by {
        lemma_ravel_unravel(t.shape, p);
        assert(t.at(unravel(t.shape, p)) == u.at(unravel(t.shape, p)));
    }
    assert(t.data == u.data);
}

/// The index in an array of shape `s` that index `i` of a broader array reads:
/// axes are aligned at the end, and an axis of extent one is repeated.
pub open spec fn broadcast_index(s: Seq<int>, i: Seq<int>) -> Seq<int> {
    Seq::new(
        s.len(),
        |k: int|
            if s[k] == 1 {
                0
            } else {
                i[i.len() - s.len() + k]
            },
    )
}

/// An array of shape `s` can be repeated to shape `t`.
pub open spec fn broadcasts_to(s: Seq<int>, t: Seq<int>) -> bool {
    &&& s.len() <= t.len()
    &&& forall|k: int|
        0 <= k < s.len() ==> #[trigger] s[k] == t[t.len() - s.len() + k] || s[k] == 1
}

/// The extent of axis `k` of shape `s` seen as a shape of rank `r`.
pub open spec fn aligned(s: Seq<int>, r: int, k: int) -> int {
    if k < r - s.len() {
        1
    } else {
        s[k - (r - s.len())]
    }
}

pub open spec fn max_rank(a: Seq<int>, b: Seq<int>) -> int {
    if a.len() >= b.len() {
        a.len() as int
    } else {
        b.len() as int
    }
}

/// Arrays of shapes `a` and `b` can be combined element by element.
pub open spec fn compatible(a: Seq<int>, b: Seq<int>) -> bool {
    let r = max_rank(a, b);
    forall|k: int|
        0 <= k < r ==> #[trigger] aligned(a, r, k) == aligned(b, r, k) || aligned(a, r, k) == 1
            || aligned(b, r, k) == 1
}

/// The shape of what arrays of shapes `a` and `b` combine to.
pub open spec fn broadcast_shape(a: Seq<int>, b: Seq<int>) -> Seq<int> {
    let r = max_rank(a, b);
    Seq::new(
        r as nat,
        |k: int|
            if aligned(a, r, k) == 1 {
                aligned(b, r, k)
            } else {
                aligned(a, r, k)
            },
    )
}

pub open spec fn broadcast_to(t: Tensor, s: Seq<int>) -> Tensor {
    tabulate(s, |i: Seq<int>| t.at(broadcast_index(t.shape, i)))
}

pub open spec fn each(m: Model, op: UnaryOp, t: Tensor) -> Tensor {
    Tensor { shape: t.shape, data: Seq::new(t.data.len(), |p: int| unary(m, op, t.data[p])) }
}

pub open spec fn zip(m: Model, op: BinaryOp, a: Tensor, b: Tensor) -> Tensor {
    tabulate(
        broadcast_shape(a.shape, b.shape),
        |i: Seq<int>|
            binary(
                m,
                op,
                a.at(broadcast_index(a.shape, i)),
                b.at(broadcast_index(b.shape, i)),
            ),
    )
}

pub open spec fn zip3(m: Model, op: TernaryOp, a: Tensor, b: Tensor, c: Tensor) -> Tensor {
    tabulate(
        broadcast_shape(broadcast_shape(a.shape, b.shape), c.shape),
        |i: Seq<int>|
            ternary(
                m,
                op,
                a.at(broadcast_index(a.shape, i)),
                b.at(broadcast_index(b.shape, i)),
                c.at(broadcast_index(c.shape, i)),
            ),
    )
}

pub proof fn lemma_broadcast_is_shape(a: Seq<int>, b: Seq<int>)
    requires
        is_shape(a),
        is_shape(b),
    ensures
        is_shape(broadcast_shape(a, b)),
{
    let r = max_rank(a, b);
    assert forall|k: int| 0 <= k < r implies #[trigger] broadcast_shape(a, b)[k] >= 0 by {
        if k >= r - a.len() {
            assert(a[k - (r - a.len())] >= 0);
        }
        if k >= r - b.len() {
            assert(b[k - (r - b.len())] >= 0);
        }
    }
}

/// What an index of the broader shape reads is in bounds.
pub proof fn lemma_broadcast_to_index(s: Seq<int>, t: Seq<int>, i: Seq<int>)
    requires
        broadcasts_to(s, t),
        in_bounds(t, i),
    ensures
        in_bounds(s, broadcast_index(s, i)),
{
    let is = broadcast_index(s, i);
    assert forall|k: int| 0 <= k < s.len() implies 0 <= #[trigger] is[k] < s[k] by {
        assert(s[k] == t[t.len() - s.len() + k] || s[k] == 1);
        assert(0 <= i[t.len() - s.len() + k] < t[t.len() - s.len() + k]);
    }
}

/// An array is read at the index itself where nothing is repeated.
pub proof fn lemma_broadcast_index_same(s: Seq<int>, i: Seq<int>)
    requires
        in_bounds(s, i),
    ensures
        broadcast_index(s, i) == i,
{
    assert forall|k: int| 0 <= k < s.len() implies #[trigger] broadcast_index(s, i)[k] == i[k] by {
        assert(0 <= i[k] < s[k]);
    }
    assert(broadcast_index(s, i) == i);
}

/// What an operand of shape `t.shape` contributes at index `i` of a broader
/// array.
pub open spec fn look(t: Tensor, i: Seq<int>) -> Elem {
    t.at(broadcast_index(t.shape, i))
}

/// Reading through a combined shape is reading directly.
pub proof fn lemma_broadcast_index_compose(a: Seq<int>, b: Seq<int>, s: Seq<int>, i: Seq<int>)
    requires
        compatible(a, b),
        broadcasts_to(broadcast_shape(a, b), s),
        in_bounds(s, i),
    ensures
        broadcast_index(a, broadcast_index(broadcast_shape(a, b), i)) == broadcast_index(a, i),
        broadcast_index(b, broadcast_index(broadcast_shape(a, b), i)) == broadcast_index(b, i),
{
    let r = max_rank(a, b);
    let c = broadcast_shape(a, b);
    let j = broadcast_index(c, i);
    assert forall|k: int| 0 <= k < a.len() implies #[trigger] broadcast_index(a, j)[k]
        == broadcast_index(a, i)[k] by {
        let x = r - a.len() + k;
        assert(aligned(a, r, x) == a[k]);
        assert(c[x] == c[x]);
    }
    assert forall|k: int| 0 <= k < b.len() implies #[trigger] broadcast_index(b, j)[k]
        == broadcast_index(b, i)[k] by {
        let x = r - b.len() + k;
        assert(aligned(b, r, x) == b[k]);
        assert(aligned(a, r, x) == aligned(b, r, x) || aligned(a, r, x) == 1 || aligned(b, r, x)
            == 1);
        assert(c[x] == c[x]);
    }
    assert(broadcast_index(a, j) == broadcast_index(a, i));
    assert(broadcast_index(b, j) == broadcast_index(b, i));
}

/// What a combination contributes is the combination of what its operands do.
pub proof fn lemma_zip_look(
    m: Model,
    op: BinaryOp,
    a: Tensor,
    b: Tensor,
    s: Seq<int>,
    i: Seq<int>,
)
    requires
        compatible(a.shape, b.shape),
        broadcasts_to(broadcast_shape(a.shape, b.shape), s),
        in_bounds(s, i),
    ensures
        look(zip(m, op, a, b), i) == binary(m, op, look(a, i), look(b, i)),
{
    let c = broadcast_shape(a.shape, b.shape);
    let j = broadcast_index(c, i);
    lemma_broadcast_to_index(c, s, i);
    lemma_broadcast_index_compose(a.shape, b.shape, s, i);
    lemma_tabulate(
        c,
        |i: Seq<int>|
            binary(
                m,
                op,
                a.at(broadcast_index(a.shape, i)),
                b.at(broadcast_index(b.shape, i)),
            ),
        j,
    );
}

/// An operand that is repeated to a shape leaves that shape as it is.
pub proof fn lemma_absorb(a: Seq<int>, s: Seq<int>)
    requires
        broadcasts_to(a, s),
    ensures
        compatible(a, s),
        compatible(s, a),
        broadcast_shape(a, s) == s,
        broadcast_shape(s, a) == s,
{
    let r = s.len() as int;
    assert forall|k: int| 0 <= k < r implies #[trigger] aligned(a, r, k) == aligned(s, r, k)
        || aligned(a, r, k) == 1 by {
        if k >= r - a.len() {
            let j = k - (r - a.len());
            assert(a[j] == s[s.len() - a.len() + j] || a[j] == 1);
        }
    }
    assert forall|k: int| 0 <= k < r implies #[trigger] aligned(s, r, k) == aligned(a, r, k)
        || aligned(a, r, k) == 1 by {
        assert(aligned(a, r, k) == aligned(s, r, k) || aligned(a, r, k) == 1);
    }
    assert(broadcast_shape(a, s) == s) by {
        assert forall|k: int| 0 <= k < r implies broadcast_shape(a, s)[k] == s[k] by {
            assert(aligned(a, r, k) == aligned(s, r, k) || aligned(a, r, k) == 1);
        }
    }
    assert(broadcast_shape(s, a) == s) by {
        assert forall|k: int| 0 <= k < r implies broadcast_shape(s, a)[k] == s[k] by {
            assert(aligned(a, r, k) == aligned(s, r, k) || aligned(a, r, k) == 1);
        }
    }
}

pub proof fn lemma_broadcasts_through(a: Seq<int>, b: Seq<int>, c: Seq<int>)
    requires
        broadcasts_to(a, b),
        broadcasts_to(b, c),
    ensures
        broadcasts_to(a, c),
{
    assert forall|k: int| 0 <= k < a.len() implies #[trigger] a[k] == c[c.len() - a.len() + k]
        || a[k] == 1 by {
        let j = b.len() - a.len() + k;
        assert(a[k] == b[j] || a[k] == 1);
        assert(b[j] == c[c.len() - b.len() + j] || b[j] == 1);
    }
}

/// Reading through a shape in between is reading directly.
pub proof fn lemma_index_through(a: Seq<int>, b: Seq<int>, s: Seq<int>, i: Seq<int>)
    requires
        broadcasts_to(a, b),
        broadcasts_to(b, s),
        in_bounds(s, i),
    ensures
        broadcast_index(a, broadcast_index(b, i)) == broadcast_index(a, i),
{
    let j = broadcast_index(b, i);
    assert forall|k: int| 0 <= k < a.len() implies #[trigger] broadcast_index(a, j)[k]
        == broadcast_index(a, i)[k] by {
        let x = b.len() - a.len() + k;
        assert(a[k] == b[x] || a[k] == 1);
    }
}

/// The order of two operands does not matter for the shape that they combine to.
pub proof fn lemma_broadcast_commutes(a: Seq<int>, b: Seq<int>)
    requires
        compatible(a, b),
    ensures
        compatible(b, a),
        broadcast_shape(b, a) == broadcast_shape(a, b),
{
    let r = max_rank(a, b);
    assert forall|k: int| 0 <= k < r implies #[trigger] aligned(b, r, k) == aligned(a, r, k)
        || aligned(b, r, k) == 1 || aligned(a, r, k) == 1 by {
        assert(aligned(a, r, k) == aligned(b, r, k) || aligned(a, r, k) == 1 || aligned(b, r, k)
            == 1);
    }
    assert forall|k: int| 0 <= k < r implies broadcast_shape(b, a)[k] == broadcast_shape(a, b)[k] by {
        assert(aligned(a, r, k) == aligned(b, r, k) || aligned(a, r, k) == 1 || aligned(b, r, k)
            == 1);
    }
}

/// What operands combine to can be repeated to any shape that both can be repeated to.
pub proof fn lemma_join(a: Seq<int>, b: Seq<int>, s: Seq<int>)
    requires
        broadcasts_to(a, s),
        broadcasts_to(b, s),
    ensures
        broadcasts_to(broadcast_shape(a, b), s),
{
    let r = max_rank(a, b);
    let c = broadcast_shape(a, b);
    assert forall|k: int| 0 <= k < r implies #[trigger] c[k] == s[s.len() - r + k] || c[k]
        == 1 by {
        if k >= r - a.len() {
            let j = k - (r - a.len());
            assert(a[j] == s[s.len() - a.len() + j] || a[j] == 1);
        }
        if k >= r - b.len() {
            let j = k - (r - b.len());
            assert(b[j] == s[s.len() - b.len() + j] || b[j] == 1);
        }
    }
}

/// The extents of a combination, seen as a shape of rank `r`.
pub proof fn lemma_aligned_broadcast(a: Seq<int>, b: Seq<int>, r: int, k: int)
    requires
        max_rank(a, b) <= r,
        0 <= k < r,
    ensures
        aligned(broadcast_shape(a, b), r, k) == (if aligned(a, r, k) == 1 {
            aligned(b, r, k)
        } else {
            aligned(a, r, k)
        }),
{
    let n = max_rank(a, b);
    if k >= r - n {
        let j = k - (r - n);
        assert(aligned(a, n, j) == aligned(a, r, k));
        assert(aligned(b, n, j) == aligned(b, r, k));
    }
}

/// Of three operands, the last two can be combined first.
pub proof fn lemma_broadcast_regroups(a: Seq<int>, b: Seq<int>, c: Seq<int>)
    requires
        compatible(a, b),
        compatible(broadcast_shape(a, b), c),
    ensures
        compatible(b, c),
        compatible(a, broadcast_shape(b, c)),
        broadcast_shape(a, broadcast_shape(b, c)) == broadcast_shape(broadcast_shape(a, b), c),
{
    let (ab, bc) = (broadcast_shape(a, b), broadcast_shape(b, c));
    let r = max_rank(ab, c);
    assert forall|k: int|
        0 <= k < r implies agrees(#[trigger] aligned(a, r, k), aligned(b, r, k)) && agrees(
        aligned(ab, r, k),
        aligned(c, r, k),
    ) by {
        let n = max_rank(a, b);
        if k >= r - n {
            let j = k - (r - n);
            assert(aligned(a, n, j) == aligned(a, r, k));
            assert(aligned(b, n, j) == aligned(b, r, k));
            assert(agrees(aligned(a, n, j), aligned(b, n, j)));
        }
        assert(aligned(ab, r, k) == aligned(c, r, k) || aligned(ab, r, k) == 1 || aligned(c, r, k)
            == 1);
    }
    let n = max_rank(b, c);
    assert forall|k: int| 0 <= k < n implies #[trigger] aligned(b, n, k) == aligned(c, n, k)
        || aligned(b, n, k) == 1 || aligned(c, n, k) == 1 by {
        let j = k + (r - n);
        assert(aligned(b, n, k) == aligned(b, r, j));
        assert(aligned(c, n, k) == aligned(c, r, j));
        assert(agrees(aligned(a, r, j), aligned(b, r, j)));
        lemma_aligned_broadcast(a, b, r, j);
    }
    assert(max_rank(a, bc) == r);
    assert forall|k: int| 0 <= k < r implies #[trigger] aligned(a, r, k) == aligned(bc, r, k)
        || aligned(a, r, k) == 1 || aligned(bc, r, k) == 1 by {
        assert(agrees(aligned(a, r, k), aligned(b, r, k)));
        lemma_aligned_broadcast(a, b, r, k);
        lemma_aligned_broadcast(b, c, r, k);
    }
    assert forall|k: int| 0 <= k < r implies broadcast_shape(a, bc)[k] == broadcast_shape(
        ab,
        c,
    )[k] by {
        lemma_aligned_broadcast(a, b, r, k);
        lemma_aligned_broadcast(b, c, r, k);
    }
}

/// Two extents are equal, or one of them is one.
spec fn agrees(x: int, y: int) -> bool {
    x == y || x == 1 || y == 1
}

pub proof fn lemma_look_scalar(e: Elem, i: Seq<int>)
    ensures
        look(scalar(e), i) == e,
{
    let s = Seq::<int>::empty();
    assert(broadcast_index(s, i) == s);
}

/// `axes` lists every axis of a rank-`r` array once.
pub open spec fn is_permutation(axes: Seq<int>, r: int) -> bool {
    &&& axes.len() == r
    &&& axes.no_duplicates()
    &&& forall|k: int| 0 <= k < axes.len() ==> 0 <= #[trigger] axes[k] < r
}

/// The extents of shape `s` in the order of `axes`.
pub open spec fn permuted(s: Seq<int>, axes: Seq<int>) -> Seq<int> {
    Seq::new(axes.len(), |k: int| s[axes[k]])
}

/// Axis `k` of the result is axis `axes[k]` of `t`.
pub open spec fn permute(t: Tensor, axes: Seq<int>) -> Tensor {
    tabulate(
        permuted(t.shape, axes),
        |i: Seq<int>| t.at(Seq::new(axes.len(), |k: int| i[axes.index_of(k)])),
    )
}

pub open spec fn reshape(t: Tensor, s: Seq<int>) -> Tensor {
    Tensor { shape: s, data: t.data }
}

pub open spec fn padded_shape(s: Seq<int>, low: Seq<int>, high: Seq<int>) -> Seq<int> {
    Seq::new(s.len(), |k: int| low[k] + s[k] + high[k])
}

/// `t` with `low[k]` and `high[k]` copies of `v` before and behind axis `k`.
pub open spec fn pad(t: Tensor, low: Seq<int>, high: Seq<int>, v: Elem) -> Tensor {
    tabulate(
        padded_shape(t.shape, low, high),
        |i: Seq<int>|
            {
                let j = Seq::new(t.shape.len(), |k: int| i[k] - low[k]);
                if in_bounds(t.shape, j) {
                    t.at(j)
                } else {
                    v
                }
            },
    )
}

/// Every index of shape `s` addresses one of the first `n` elements.
pub open spec fn strides_in_range(s: Seq<int>, strides: Seq<int>, n: int) -> bool {
    forall|i: Seq<int>| in_bounds(s, i) ==> 0 <= #[trigger] offset(i, strides) < n
}

/// The view of shape `s` on the row-major elements of `t` in which axis `k`
/// advances by `strides[k]` elements.
pub open spec fn strided(t: Tensor, s: Seq<int>, strides: Seq<int>) -> Tensor {
    tabulate(s, |i: Seq<int>| t.data[offset(i, strides)])
}

/// The elements of `t` whose index is `i` once axes `first..last` are taken out,
/// in row-major order of those axes.
pub open spec fn lane(t: Tensor, first: int, last: int, i: Seq<int>) -> Seq<Elem> {
    let inner = t.shape.subrange(first, last);
    Seq::new(
        size(inner) as nat,
        |q: int| t.at(i.take(first) + unravel(inner, q) + i.skip(first)),
    )
}

/// `t` with axes `first..last` reduced.
pub open spec fn reduce_axes(m: Model, op: ReduceOp, t: Tensor, first: int, last: int) -> Tensor {
    tabulate(
        t.shape.take(first) + t.shape.skip(last),
        |i: Seq<int>| reduce(m, op, lane(t, first, last, i)),
    )
}

/// The slices of `t` along `axis` that `indices` lists.
pub open spec fn take(t: Tensor, indices: Tensor, axis: int) -> Tensor {
    tabulate(
        t.shape.take(axis) + indices.shape + t.shape.skip(axis + 1),
        |i: Seq<int>|
            {
                let r = indices.shape.len() as int;
                match indices.at(i.subrange(axis, axis + r)) {
                    Elem::Int(x) => if 0 <= x < t.shape[axis] {
                        t.at(i.take(axis).push(x) + i.skip(axis + r))
                    } else {
                        Elem::Undefined
                    },
                    _ => Elem::Undefined,
                }
            },
    )
}

/// Entry `q` of a list of elements.
pub proof fn lemma_take_list(t: Tensor, indices: Tensor, q: int, x: int)
    requires
        t.wf(),
        t.shape.len() == 1,
        indices.wf(),
        indices.shape.len() == 1,
        0 <= q < indices.shape[0],
        indices.data[q] == Elem::Int(x),
        0 <= x < t.shape[0],
    ensures
        take(t, indices, 0).shape == indices.shape,
        take(t, indices, 0).data[q] == t.data[x],
{
    let s = t.shape.take(0) + indices.shape + t.shape.skip(1);
    assert(s == indices.shape);
    let i = seq![q];
    lemma_rank1(indices.shape, i);
    lemma_rank1(t.shape, seq![x]);
    assert(in_bounds(s, i));
    let f = |i: Seq<int>|
        {
            let r = indices.shape.len() as int;
            match indices.at(i.subrange(0, 0 + r)) {
                Elem::Int(x) => if 0 <= x < t.shape[0] {
                    t.at(i.take(0).push(x) + i.skip(0 + r))
                } else {
                    Elem::Undefined
                },
                _ => Elem::Undefined,
            }
        };
    lemma_tabulate(s, f, i);
    assert(i.subrange(0, 1) == i);
    assert(i.take(0).push(x) + i.skip(1) == seq![x]);
}

/// The updates that are directed at position `p`.
pub open spec fn updates_at(indices: Seq<Elem>, updates: Seq<Elem>, p: int) -> Multiset<Elem> {
    Seq::new(indices.len(), |q: int| q).filter(|q: int| indices[q] == Elem::Int(p)).map_values(
        |q: int| updates[q],
    ).to_multiset()
}

/// Every index is the position of one of `n` elements.
pub open spec fn positions_valid(indices: Seq<Elem>, n: int) -> bool {
    forall|q: int|
        0 <= q < indices.len() ==> (#[trigger] indices[q] matches Elem::Int(p) && 0 <= p < n)
}

/// The one-dimensional `base` with `updates[q]` added at position `indices[q]`,
/// for every `q`. Nothing is promised unless all positions are valid.
pub open spec fn scatter_add(m: Model, base: Tensor, indices: Tensor, updates: Tensor) -> Tensor {
    Tensor {
        shape: base.shape,
        data: Seq::new(
            base.data.len(),
            |p: int|
                if positions_valid(indices.data, base.data.len() as int) {
                    (m.accumulate)(base.data[p], updates_at(indices.data, updates.data, p))
                } else {
                    Elem::Undefined
                },
        ),
    }
}

/// The values, with repetition, of `val` at the indices of shape `s` that `keep`
/// selects.
pub open spec fn gathered(
    s: Seq<int>,
    keep: spec_fn(Seq<int>) -> bool,
    val: spec_fn(Seq<int>) -> Elem,
) -> Multiset<Elem> {
    Seq::new(size(s) as nat, |q: int| unravel(s, q)).filter(keep).map_values(val).to_multiset()
}

proof fn lemma_filters_agree<A, B>(
    a: Seq<A>,
    b: Seq<B>,
    fa: spec_fn(A) -> bool,
    fb: spec_fn(B) -> bool,
    va: spec_fn(A) -> Elem,
    vb: spec_fn(B) -> Elem,
)
    requires
        a.len() == b.len(),
        forall|q: int| 0 <= q < a.len() ==> #[trigger] fa(a[q]) == fb(b[q]),
        forall|q: int| 0 <= q < a.len() && fa(#[trigger] a[q]) ==> va(a[q]) == vb(b[q]),
    ensures
        a.filter(fa).map_values(va) == b.filter(fb).map_values(vb),
    decreases a.len(),
{
    reveal(Seq::filter);
    if a.len() > 0 {
        let (a0, b0) = (a.drop_last(), b.drop_last());
        assert forall|q: int| 0 <= q < a0.len() implies #[trigger] fa(a0[q]) == fb(b0[q]) by {
            assert(fa(a[q]) == fb(b[q]));
        }
        assert forall|q: int| 0 <= q < a0.len() && fa(#[trigger] a0[q]) implies va(a0[q]) == vb(
            b0[q],
        ) by {
            assert(a0[q] == a[q] && b0[q] == b[q]);
        }
        lemma_filters_agree(a0, b0, fa, fb, va, vb);
        let n = a.len() - 1;
        assert(fa(a[n]) == fb(b[n]));
        if fa(a[n]) {
            assert(a.filter(fa) == a0.filter(fa).push(a.last()));
            assert(b.filter(fb) == b0.filter(fb).push(b.last()));
            assert(a.filter(fa).map_values(va) == a0.filter(fa).map_values(va).push(
                va(a.last()),
            ));
            assert(b.filter(fb).map_values(vb) == b0.filter(fb).map_values(vb).push(
                vb(b.last()),
            ));
        }
    } else {
        assert(a.filter(fa).map_values(va) == b.filter(fb).map_values(vb));
    }
}

/// Gathering depends on the indices of the shape only.
pub proof fn lemma_gathered_agree(
    s: Seq<int>,
    keep: spec_fn(Seq<int>) -> bool,
    other: spec_fn(Seq<int>) -> bool,
    val: spec_fn(Seq<int>) -> Elem,
)
    requires
        is_shape(s),
        forall|i: Seq<int>| in_bounds(s, i) ==> #[trigger] keep(i) == other(i),
    ensures
        gathered(s, keep, val) == gathered(s, other, val),
{
    let a = Seq::new(size(s) as nat, |q: int| unravel(s, q));
    lemma_size_nonneg(s);
    assert forall|q: int| 0 <= q < a.len() implies #[trigger] keep(a[q]) == other(a[q]) by {
        lemma_ravel_unravel(s, q);
    }
    lemma_filters_agree(a, a, keep, other, val, val);
}

/// The updates directed at a position, by the index they are laid out at.
pub proof fn lemma_updates_gathered(
    indices: Seq<Elem>,
    updates: Seq<Elem>,
    p: int,
    s: Seq<int>,
    keep: spec_fn(Seq<int>) -> bool,
    val: spec_fn(Seq<int>) -> Elem,
)
    requires
        indices.len() == size(s),
        forall|q: int|
            0 <= q < size(s) ==> (#[trigger] indices[q] == Elem::Int(p)) == keep(unravel(s, q)),
        forall|q: int|
            0 <= q < size(s) && keep(unravel(s, q)) ==> #[trigger] updates[q] == val(
                unravel(s, q),
            ),
    ensures
        updates_at(indices, updates, p) == gathered(s, keep, val),
{
    let a = Seq::new(indices.len(), |q: int| q);
    let b = Seq::new(size(s) as nat, |q: int| unravel(s, q));
    let fa = |q: int| indices[q] == Elem::Int(p);
    let va = |q: int| updates[q];
    assert forall|q: int| 0 <= q < a.len() implies #[trigger] fa(a[q]) == keep(b[q]) by {
        assert((indices[q] == Elem::Int(p)) == keep(unravel(s, q)));
    }
    assert forall|q: int| 0 <= q < a.len() && fa(#[trigger] a[q]) implies va(a[q]) == val(
        b[q],
    ) by {
        assert((indices[q] == Elem::Int(p)) == keep(unravel(s, q)));
    }
    lemma_filters_agree(a, b, fa, keep, va, val);
}

/// Every entry of the slice lies within shape `t`.
pub open spec fn slice_in_range(
    t: Seq<int>,
    s: Seq<int>,
    start: Seq<int>,
    step: Seq<int>,
) -> bool {
    forall|k: int, j: int|
        0 <= k < t.len() && 0 <= j < s[k] ==> 0 <= start[k] + #[trigger] (j * step[k]) < t[k]
}

/// Axis `k` of the result holds every `step[k]`-th entry of axis `k` of `t`,
/// from `start[k]` on.
pub open spec fn slice(t: Tensor, s: Seq<int>, start: Seq<int>, step: Seq<int>) -> Tensor {
    tabulate(s, |i: Seq<int>| t.at(Seq::new(s.len(), |k: int| start[k] + i[k] * step[k])))
}

pub open spec fn axis_total(ts: Seq<Tensor>, axis: int) -> int
    decreases ts.len(),
{
    if ts.len() == 0 {
        0
    } else {
        axis_total(ts.drop_last(), axis) + ts.last().shape[axis]
    }
}

/// The element at index `i` of the tensors joined along `axis`.
pub open spec fn joined_at(ts: Seq<Tensor>, axis: int, i: Seq<int>) -> Elem
    decreases ts.len(),
{
    if ts.len() == 0 {
        Elem::Undefined
    } else {
        let before = axis_total(ts.drop_last(), axis);
        if i[axis] < before {
            joined_at(ts.drop_last(), axis, i)
        } else {
            ts.last().at(i.update(axis, i[axis] - before))
        }
    }
}

/// The tensors joined along `axis`.
pub open spec fn concatenate(ts: Seq<Tensor>, axis: int) -> Tensor {
    tabulate(
        ts[0].shape.update(axis, axis_total(ts, axis)),
        |i: Seq<int>| joined_at(ts, axis, i),
    )
}

/// The batch axes of a matrix operand.
pub open spec fn batch(s: Seq<int>) -> Seq<int> {
    s.take(s.len() - 2)
}

/// The operands of a matrix product fit together.
pub open spec fn matmul_fits(a: Seq<int>, b: Seq<int>) -> bool {
    &&& a.len() >= 2
    &&& b.len() >= 2
    &&& a[a.len() - 1] == b[b.len() - 2]
    &&& compatible(batch(a), batch(b))
}

pub open spec fn matmul_shape(a: Seq<int>, b: Seq<int>) -> Seq<int> {
    broadcast_shape(batch(a), batch(b)) + seq![a[a.len() - 2], b[b.len() - 1]]
}

/// Matrix products over the last two axes, with the other axes broadcast.
pub open spec fn matmul(m: Model, a: Tensor, b: Tensor) -> Tensor {
    let outer = broadcast_shape(batch(a.shape), batch(b.shape));
    let r = outer.len() as int;
    let inner = a.shape[a.shape.len() - 1];
    tabulate(
        matmul_shape(a.shape, b.shape),
        |i: Seq<int>|
            (m.dot)(
                Seq::new(
                    inner as nat,
                    |k: int| a.at(broadcast_index(batch(a.shape), i.take(r)) + seq![i[r], k]),
                ),
                Seq::new(
                    inner as nat,
                    |k: int| b.at(broadcast_index(batch(b.shape), i.take(r)) + seq![k, i[r + 1]]),
                ),
            ),
    )
}

/// The row of `t` that index `i` lies in.
pub open spec fn row(t: Tensor, i: Seq<int>) -> Seq<Elem> {
    Seq::new(t.shape.last() as nat, |k: int| t.at(i.drop_last().push(k)))
}

/// Softmax over the last axis.
pub open spec fn softmax(m: Model, t: Tensor) -> Tensor {
    tabulate(t.shape, |i: Seq<int>| (m.softmax)(row(t, i), i.last()))
}

/// The input channel that tap `d` of filter `o` reads. Each of the groups of filters
/// reads `depth` channels of its own.
pub open spec fn conv_channel(o: int, filters: int, groups: int, depth: int, d: int) -> int {
    o / (filters / groups) * depth + d
}

/// Entry `i`, of `[N, OL, O]`, of the convolution of an `[N, L, C]` input with
/// `[O, K, C / groups]` weights.
pub open spec fn conv1d_at(
    m: Model,
    x: Tensor,
    w: Tensor,
    stride: int,
    padding: int,
    dilation: int,
    groups: int,
    i: Seq<int>,
) -> Elem {
    let taps = seq![w.shape[1], w.shape[2]];
    (m.convolve)(
        Seq::new(
            size(taps) as nat,
            |q: int|
                {
                    let j = unravel(taps, q);
                    let y = i[1] * stride + j[0] * dilation - padding;
                    let c = conv_channel(i[2], w.shape[0], groups, w.shape[2], j[1]);
                    if 0 <= y < x.shape[1] {
                        Some(x.at(seq![i[0], y, c]))
                    } else {
                        None
                    }
                },
        ),
        Seq::new(
            size(taps) as nat,
            |q: int|
                {
                    let j = unravel(taps, q);
                    w.at(seq![i[2], j[0], j[1]])
                },
        ),
    )
}

/// Entry `i`, of `[N, OH, OW, O]`, of the convolution of an `[N, H, W, C]` input with
/// `[O, KH, KW, C / groups]` weights.
pub open spec fn conv2d_at(
    m: Model,
    x: Tensor,
    w: Tensor,
    stride: (int, int),
    padding: (int, int),
    dilation: (int, int),
    groups: int,
    i: Seq<int>,
) -> Elem {
    let taps = seq![w.shape[1], w.shape[2], w.shape[3]];
    (m.convolve)(
        Seq::new(
            size(taps) as nat,
            |q: int|
                {
                    let j = unravel(taps, q);
                    let y = i[1] * stride.0 + j[0] * dilation.0 - padding.0;
                    let z = i[2] * stride.1 + j[1] * dilation.1 - padding.1;
                    let c = conv_channel(i[3], w.shape[0], groups, w.shape[3], j[2]);
                    if 0 <= y < x.shape[1] && 0 <= z < x.shape[2] {
                        Some(x.at(seq![i[0], y, z, c]))
                    } else {
                        None
                    }
                },
        ),
        Seq::new(
            size(taps) as nat,
            |q: int|
                {
                    let j = unravel(taps, q);
                    w.at(seq![i[3], j[0], j[1], j[2]])
                },
        ),
    )
}

/// A tensor of shape `s` that a kernel computes. Convolutions go filter by filter. The
/// other kernels are the model's.
pub open spec fn kernel(m: Model, op: Kernel, args: Seq<Tensor>, s: Seq<int>) -> Tensor {
    match op {
        Kernel::Conv1d { stride, padding, dilation, groups } => tabulate(
            s,
            |i: Seq<int>|
                conv1d_at(
                    m,
                    args[0],
                    args[1],
                    stride as int,
                    padding as int,
                    dilation as int,
                    groups as int,
                    i,
                ),
        ),
        Kernel::Conv2d { stride, padding, dilation, groups } => tabulate(
            s,
            |i: Seq<int>|
                conv2d_at(
                    m,
                    args[0],
                    args[1],
                    (stride.0 as int, stride.1 as int),
                    (padding.0 as int, padding.1 as int),
                    (dilation.0 as int, dilation.1 as int),
                    groups as int,
                    i,
                ),
        ),
        _ => Tensor { shape: s, data: Seq::new(size(s) as nat, |p: int| (m.kernel)(op, args, p)) },
    }
}

} // verus!
