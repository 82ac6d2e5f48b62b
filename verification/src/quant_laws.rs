//! What quantized tensors are made of.
use crate::index::{lemma_size_nonneg, lemma_size_positive, size};
use crate::op::{Kernel, QuantPart, UnaryOp};
use crate::qtensor::{
    MlxQuantizedTensorPrimitive, TensorPrimitive, only_ones_added, q_product, requantized,
    same_matrices, spread,
};
use crate::quant::{BlockSize, QuantLevel, QuantScheme, holds_values, signed, unpacks_to, word_at};
use crate::tensor::{Model, Tensor, matmul, matmul_shape, scaled_tensor, unary};
use vstd::arithmetic::div_mod::*;
use vstd::arithmetic::mul::*;
use vstd::arithmetic::power::*;
use vstd::prelude::*;

verus! {

/// A scheme tells the bits of a value, how many values share a scale, and whether two values
/// share a byte.
pub proof fn law_scheme(scheme: QuantScheme, n: int)
    ensures
        scheme.value is Q8F || scheme.value is Q8S ==> scheme.bits() == 8,
        scheme.value is Q4F || scheme.value is Q4S ==> scheme.bits() == 4,
        scheme.level is Tensor ==> scheme.group_size(n) == n && scheme.scale_count(n) == 1,
        scheme.level matches QuantLevel::Block(b) ==> scheme.group_size(n) == b.extents@[0],
        scheme.packs_nibbles() <==> scheme.store is PackedU32 && (scheme.value is Q4F
            || scheme.value is Q4S),
{
}

/// There are as many scales as whole blocks, and a block has as many values as the product of
/// its extents.
pub proof fn law_scale_count(scheme: QuantScheme, b: BlockSize, n: int)
    requires
        scheme.wf(),
        scheme.level == QuantLevel::Block(b),
        n >= 0,
    ensures
        b.dims().len() == b.rank,
        forall|k: int| 0 <= k < b.rank ==> #[trigger] b.dims()[k] == b.extents@[k],
        scheme.scale_count(n) * size(b.dims()) <= n,
        n < (scheme.scale_count(n) + 1) * size(b.dims()),
{
    let d = b.dims();
    assert forall|k: int| 0 <= k < d.len() implies #[trigger] d[k] > 0 by {
        assert(b.extents@[k] > 0);
    }
    lemma_size_positive(d);
    let g = size(d);
    lemma_fundamental_div_mod(n, g);
    lemma_mod_bound(n, g);
    let q = n / g;
    assert(q * g <= n < (q + 1) * g) by (nonlinear_arith)
        requires
            n == g * q + n % g,
            0 <= n % g < g,
    ;
}

/// Values `k * g` to `k * g + g - 1` are multiplied by scale `k`.
pub proof fn law_spread(scales: Seq<u32>, g: int, n: int, e: int, k: int)
    requires
        g > 0,
        0 <= e < n,
        k * g <= e < (k + 1) * g,
    ensures
        spread(scales, g, n).len() == n,
        spread(scales, g, n)[e] == scales[k],
{
    assert((k + 1) * g == k * g + g) by (nonlinear_arith);
    lemma_fundamental_div_mod_converse(e, g, k, e - k * g);
}

/// A number of two's complement differs from the number of its bits by a multiple of the
/// number of bit patterns, and lies around zero.
pub proof fn law_signed(x: int, half: int)
    requires
        0 <= x < 2 * half,
    ensures
        -half <= signed(x, half) < half,
        signed(x, half) == x || signed(x, half) == x - 2 * half,
{
}

/// A word is the sum of its bytes, each with its weight.
pub proof fn law_word(bytes: Seq<u8>, p: int)
    ensures
        word_at(bytes, p, false) == bytes[p] + 256 * bytes[p + 1] + 65536 * bytes[p + 2] + 16777216
            * bytes[p + 3],
        word_at(bytes, p, true) == bytes[p + 3] + 256 * bytes[p + 2] + 65536 * bytes[p + 1]
            + 16777216 * bytes[p],
{
}

/// Where values take a byte each, byte `e` is value `e` in two's complement.
pub proof fn law_byte_values(
    bytes: Seq<u8>,
    scheme: QuantScheme,
    n: int,
    values: Seq<i8>,
    scales: Seq<u32>,
    big: bool,
    e: int,
)
    requires
        unpacks_to(bytes, scheme, n, values, scales, big),
        !(scheme.store is PackedU32) || scheme.value is Q8F || scheme.value is Q8S,
        0 <= e < n,
    ensures
        values.len() == n,
        values[e] == bytes[e] || values[e] == bytes[e] - 256,
{
}

/// The digit to base 16 that stands above `low`.
proof fn lemma_digit(w: int, d: int, low: int, digit: int, high: int)
    requires
        0 <= low < d,
        0 <= digit < 16,
        w == d * (16 * high + digit) + low,
    ensures
        w / d % 16 == digit,
{
    let q = 16 * high + digit;
    assert(w == q * d + low) by (nonlinear_arith)
        requires
            w == d * q + low,
    ;
    lemma_fundamental_div_mod_converse(w, d, q, low);
    lemma_fundamental_div_mod_converse(q, 16, high, digit);
}

proof fn lemma_powers()
    ensures
        pow(16, 0) == 1,
        pow(16, 1) == 16,
        pow(16, 2) == 256,
        pow(16, 3) == 4096,
        pow(16, 4) == 65536,
        pow(16, 5) == 1048576,
        pow(16, 6) == 16777216,
        pow(16, 7) == 268435456,
{
    reveal(pow);
    reveal_with_fuel(pow, 9);
}

/// What four of the bits of a word are.
proof fn lemma_nibble(w: int, b0: int, b1: int, b2: int, b3: int, j: int)
    requires
        0 <= b0 < 256,
        0 <= b1 < 256,
        0 <= b2 < 256,
        0 <= b3 < 256,
        0 <= j < 8,
        w == b0 + 256 * b1 + 65536 * b2 + 16777216 * b3,
    ensures
        ({
            let b = if j < 2 {
                b0
            } else if j < 4 {
                b1
            } else if j < 6 {
                b2
            } else {
                b3
            };
            w / pow(16, j as nat) % 16 == (if j % 2 == 0 {
                b % 16
            } else {
                b / 16
            })
        }),
{
    lemma_powers();
    let (l0, l1, l2, l3) = (b0 % 16, b1 % 16, b2 % 16, b3 % 16);
    let (h0, h1, h2, h3) = (b0 / 16, b1 / 16, b2 / 16, b3 / 16);
    if j == 0 {
        lemma_digit(w, 1, 0, l0, h0 + 16 * b1 + 4096 * b2 + 1048576 * b3);
    } else if j == 1 {
        lemma_digit(w, 16, l0, h0, b1 + 256 * b2 + 65536 * b3);
    } else if j == 2 {
        lemma_digit(w, 256, b0, l1, h1 + 16 * b2 + 4096 * b3);
    } else if j == 3 {
        lemma_digit(w, 4096, b0 + 256 * l1, h1, b2 + 256 * b3);
    } else if j == 4 {
        lemma_digit(w, 65536, b0 + 256 * b1, l2, h2 + 16 * b3);
    } else if j == 5 {
        lemma_digit(w, 1048576, b0 + 256 * b1 + 65536 * l2, h2, b3);
    } else if j == 6 {
        lemma_digit(w, 16777216, b0 + 256 * b1 + 65536 * b2, l3, h3);
    } else {
        lemma_digit(w, 268435456, b0 + 256 * b1 + 65536 * b2 + 16777216 * l3, h3, 0);
    }
}

/// Where values take four bits each, a byte holds two of them that follow each other, the first
/// in its lower half. The bytes of a word are in order, or in reverse order where the most
/// significant one is first.
pub proof fn law_nibble_values(
    bytes: Seq<u8>,
    scheme: QuantScheme,
    n: int,
    values: Seq<i8>,
    scales: Seq<u32>,
    big: bool,
    word: int,
    j: int,
)
    requires
        unpacks_to(bytes, scheme, n, values, scales, big),
        scheme.store is PackedU32,
        scheme.value is Q4F || scheme.value is Q4S,
        0 <= word,
        0 <= j < 8,
        8 * word + j < n,
    ensures
        values.len() == n,
        -8 <= values[8 * word + j] < 8,
        ({
            let b = bytes[4 * word + (if big {
                3 - j / 2
            } else {
                j / 2
            })];
            let bits = values[8 * word + j] + (if values[8 * word + j] < 0 {
                16int
            } else {
                0
            });
            if j % 2 == 0 {
                bits == b % 16
            } else {
                bits == b / 16
            }
        }),
{
    let e = 8 * word + j;
    assert(e / 8 == word && e % 8 == j);
    let p = 4 * word;
    let (b0, b1, b2, b3) = if big {
        (bytes[p + 3], bytes[p + 2], bytes[p + 1], bytes[p])
    } else {
        (bytes[p], bytes[p + 1], bytes[p + 2], bytes[p + 3])
    };
    law_word(bytes, p);
    lemma_nibble(word_at(bytes, p, big), b0 as int, b1 as int, b2 as int, b3 as int, j);
    assert(values[e] == values[e]);
}

/// Any bytes of the right number hold values and scales, in either byte order.
pub proof fn law_bytes_hold_values(bytes: Seq<u8>, scheme: QuantScheme, n: int, big: bool)
    requires
        n >= 0,
        holds_values(bytes, scheme, n),
    ensures
        exists|values: Seq<i8>, scales: Seq<u32>|
            unpacks_to(bytes, scheme, n, values, scales, big),
{
    let end = bytes.len() - 4 * scheme.scale_count(n);
    let number = |e: int|
        if scheme.packs_nibbles() {
            signed(word_at(bytes, e / 8 * 4, big) / pow(16, (e % 8) as nat) % 16, 8)
        } else {
            signed(bytes[e] as int, 128)
        };
    let values = Seq::new(n as nat, |e: int| number(e) as i8);
    let scales = Seq::new(
        scheme.scale_count(n) as nat,
        |k: int| word_at(bytes, end + 4 * k, big) as u32,
    );
    assert forall|e: int| 0 <= e < n implies #[trigger] values[e] == number(e) by {
        lemma_mod_bound(word_at(bytes, e / 8 * 4, big) / pow(16, (e % 8) as nat), 16);
        assert(-128 <= number(e) < 128);
    }
    assert(scheme.scale_count(n) >= 0) by {
        if let QuantLevel::Block(b) = scheme.level {
            law_scale_count(scheme, b, n);
            assert forall|k: int| 0 <= k < b.dims().len() implies #[trigger] b.dims()[k] > 0 by {
                assert(b.extents@[k] > 0);
            }
            lemma_size_positive(b.dims());
            lemma_div_pos_is_pos(n, size(b.dims()));
        }
    }
    assert forall|k: int| 0 <= k < scales.len() implies #[trigger] scales[k] == word_at(
        bytes,
        end + 4 * k,
        big,
    ) by {
        law_word(bytes, end + 4 * k);
    }
    assert(unpacks_to(bytes, scheme, n, values, scales, big));
}

/// The scales are the last of the bytes, four for each.
pub proof fn law_scales_last(
    bytes: Seq<u8>,
    scheme: QuantScheme,
    n: int,
    values: Seq<i8>,
    scales: Seq<u32>,
    big: bool,
    k: int,
)
    requires
        unpacks_to(bytes, scheme, n, values, scales, big),
        0 <= k < scales.len(),
    ensures
        scales.len() == scheme.scale_count(n),
        ({
            let after = scales.len() - k;
            scales[k] == word_at(bytes, bytes.len() - 4 * after, big)
        }),
{
}

/// `t` has the shape `s` but for the last extent, which is `n`.
pub open spec fn shaped_like(t: Seq<int>, s: Seq<int>, n: int) -> bool {
    &&& t.len() == s.len()
    &&& forall|k: int| 0 <= k < s.len() - 1 ==> #[trigger] t[k] == s[k]
    &&& t[s.len() - 1] == n
}

/// Quantizing a tensor keeps its shape and the scheme, takes the bits and the group size from
/// the scheme, and hands the tensor to the kernel for each of the three parts. There is a scale
/// and a bias for every group of a row, and a word for every 32 bits of one.
pub proof fn law_quantizes(
    r: MlxQuantizedTensorPrimitive,
    f: spec_fn(Model) -> Tensor,
    s: Seq<int>,
    scheme: QuantScheme,
    m: Model,
)
    requires
        r.quantizes(f, s, scheme),
        f(m).shape == s,
    ensures
        r.scheme == scheme,
        r.dims() == s,
        scheme.value is Q8F || scheme.value is Q8S ==> r.bits == 8,
        scheme.value is Q4F || scheme.value is Q4S ==> r.bits == 4,
        scheme.level is Tensor ==> r.group_size == size(s),
        scheme.level matches QuantLevel::Block(b) ==> r.group_size == b.extents@[0],
        exists|groups: int|
            {
                &&& #[trigger] (groups * r.group_size) == s[s.len() - 1]
                &&& shaped_like(r.scales.dims(), s, groups)
                &&& shaped_like(r.biases.dims(), s, groups)
            },
        shaped_like(r.quantized.dims(), s, s[s.len() - 1] * r.bits / 32),
        forall|p: int|
            0 <= p < size(r.quantized.dims()) ==> #[trigger] r.quantized.value(m).data[p] == (
            m.kernel)(
                Kernel::Quantize {
                    group_size: r.group_size,
                    bits: r.bits,
                    part: QuantPart::Packed,
                },
                seq![f(m)],
                p,
            ),
        forall|p: int|
            0 <= p < size(r.scales.dims()) ==> #[trigger] r.scales.value(m).data[p] == (m.kernel)(
                Kernel::Quantize {
                    group_size: r.group_size,
                    bits: r.bits,
                    part: QuantPart::Scales,
                },
                seq![f(m)],
                p,
            ),
        forall|p: int|
            0 <= p < size(r.biases.dims()) ==> #[trigger] r.biases.value(m).data[p] == (m.kernel)(
                Kernel::Quantize {
                    group_size: r.group_size,
                    bits: r.bits,
                    part: QuantPart::Biases,
                },
                seq![f(m)],
                p,
            ),
{
    let d = r.scales.dims();
    let groups = d[d.len() - 1];
    assert(r.stored() == s);
    assert(groups * r.group_size == s[s.len() - 1]);
    assert(shaped_like(d, s, groups)) by {
        assert forall|k: int| 0 <= k < s.len() - 1 implies #[trigger] d[k] == s[k] by {
            assert(r.stored()[k] == d[k]);
        }
    }
    assert(r.quantized.value(m).shape == r.quantized.dims());
    assert(r.scales.value(m).shape == r.scales.dims());
    assert(r.biases.value(m).shape == r.biases.dims());
    lemma_size_nonneg(r.quantized.dims());
    lemma_size_nonneg(r.scales.dims());
    lemma_size_nonneg(r.biases.dims());
}

/// The floats that a quantized tensor stands for are what the kernel makes of its three
/// arrays, as many in a row as there are groups in it times their size.
pub proof fn law_dequantized(t: MlxQuantizedTensorPrimitive, m: Model, p: int)
    requires
        t.wf(),
        0 <= p < size(t.dequantized(m).shape),
    ensures
        shaped_like(
            t.dequantized(m).shape,
            t.scales.dims(),
            t.scales.dims()[t.scales.dims().len() - 1] * t.group_size,
        ),
        t.stored() == t.dequantized(m).shape,
        t.dequantized(m).data[p] == unary(
            m,
            UnaryOp::CastFloat,
            (m.kernel)(
                Kernel::Dequantize { group_size: t.group_size, bits: t.bits },
                seq![t.quantized.value(m), t.scales.value(m), t.biases.value(m)],
                p,
            ),
        ),
{
    assert(t.scales.value(m).shape == t.scales.dims());
}

/// The product of a float matrix and a quantized one is left to the kernel, which is given the
/// float matrix, the three arrays and how to read them, and does not transpose. All other
/// products are those of the floats.
pub proof fn law_q_product(m: Model, lhs: TensorPrimitive, rhs: TensorPrimitive, p: int)
    requires
        lhs.wf(),
        rhs.wf(),
        0 <= p < size(q_product(m, lhs, rhs).shape),
    ensures
        (match (lhs, rhs) {
            (TensorPrimitive::Float(a), TensorPrimitive::QFloat(b)) => {
                &&& q_product(m, lhs, rhs).shape == matmul_shape(lhs.stored(), rhs.stored())
                &&& q_product(m, lhs, rhs).data[p] == unary(
                    m,
                    UnaryOp::CastFloat,
                    (m.kernel)(
                        Kernel::QuantizedMatmul {
                            transpose: false,
                            group_size: b.group_size,
                            bits: b.bits,
                        },
                        seq![
                            a.value(m),
                            b.quantized.value(m),
                            b.scales.value(m),
                            b.biases.value(m),
                        ],
                        p,
                    ),
                )
            },
            _ => q_product(m, lhs, rhs) == matmul(m, lhs.floats(m), rhs.floats(m)),
        }),
        lhs matches TensorPrimitive::Float(a) ==> lhs.floats(m) == a.value(m),
        lhs matches TensorPrimitive::QFloat(a) ==> lhs.floats(m) == a.dequantized(m),
{
    if let (TensorPrimitive::Float(a), TensorPrimitive::QFloat(b)) = (lhs, rhs) {
        assert(a.value(m).shape == a.dims());
        assert(b.scales.value(m).shape == b.scales.dims());
    }
}

/// What bytes are read to is quantized again as the products of the values and the scales of
/// their groups.
pub proof fn law_requantized(
    r: MlxQuantizedTensorPrimitive,
    values: Seq<i8>,
    scales: Seq<u32>,
    shape: Seq<int>,
    scheme: QuantScheme,
    m: Model,
    t: Tensor,
)
    requires
        requantized(r, values, scales, shape, scheme),
        t.shape == shape,
        t.data.len() == values.len(),
        scheme.level is Tensor ==> forall|e: int|
            0 <= e < values.len() ==> #[trigger] t.data[e] == (m.scaled)(values[e], scales[0]),
        scheme.level matches QuantLevel::Block(b) ==> forall|e: int|
            0 <= e < values.len() ==> #[trigger] t.data[e] == (m.scaled)(
                values[e],
                scales[e / (b.extents@[0] as int)],
            ),
    ensures
        r.scheme == scheme,
        r.dims() == shape,
        forall|p: int|
            0 <= p < size(r.quantized.dims()) ==> #[trigger] r.quantized.value(m).data[p] == (
            m.kernel)(
                Kernel::Quantize {
                    group_size: r.group_size,
                    bits: r.bits,
                    part: QuantPart::Packed,
                },
                seq![t],
                p,
            ),
{
    let n = values.len() as int;
    let f = |m: Model| scaled_tensor(m, values, spread(scales, scheme.group_size(n), n), shape);
    assert(f(m) == t) by {
        assert forall|e: int| 0 <= e < n implies #[trigger] f(m).data[e] == t.data[e] by {
            if scheme.level is Tensor {
                lemma_basic_div(e, n);
            }
        }
        assert(f(m).data == t.data);
    }
    law_quantizes(r, f, shape, scheme, m);
}

/// A change of shape keeps the matrices where the last two extents stay, and only adds axes of
/// extent one where every extent in front is one.
pub proof fn law_relabels(old: Seq<int>, new: Seq<int>)
    requires
        old.len() >= 2,
        new.len() >= 2,
    ensures
        same_matrices(old, new) <==> old[old.len() - 2] == new[new.len() - 2] && old[old.len() - 1]
            == new[new.len() - 1],
        only_ones_added(old, new) <==> forall|k: int|
            0 <= k < new.len() - old.len() ==> #[trigger] new[k] == 1,
{
}

/// A tensor that is only seen in another shape keeps its arrays and how they are read.
pub proof fn law_same_arrays(a: MlxQuantizedTensorPrimitive, b: MlxQuantizedTensorPrimitive)
    ensures
        a.same_arrays(&b) <==> a == (MlxQuantizedTensorPrimitive { shape: a.shape, ..b }),
{
}

} // verus!
