//! Quantized tensors.
use crate::array::{Array, copy_i32, matmul_dims, values};
use crate::float::{
    Slice, are_extents, flipped, sliced, sliced_shape, slices_fit, swap_axes, swapped, to_extents,
};
use crate::index::{is_shape, size};
use crate::layout::total_elements;
use crate::node::ints;
use crate::op::{Kernel, QuantPart, UnaryOp};
use crate::primitive::{Mlx, MlxDevice, MlxTensorPrimitive, sizes};
use crate::quant::{
    BlockSize, QuantLevel, QuantScheme, holds_values, into_vec_i8, scheme_to_mlx_params,
    unpacks_to,
};
use crate::tensor::{
    Model, Tensor, broadcast_to, broadcasts_to, each, is_permutation, kernel, matmul, matmul_fits,
    matmul_shape, permute, permuted, reshape, scaled_tensor, take,
};
use vstd::arithmetic::div_mod::*;
use vstd::arithmetic::mul::*;
use vstd::prelude::*;

verus! {

/// The type of the elements of tensor data.
#[derive(Clone, Copy, Debug, PartialEq, Eq)]
pub enum DType {
    F64,
    F32,
    Flex32,
    F16,
    BF16,
    I64,
    I32,
    I16,
    I8,
    U64,
    U32,
    U16,
    U8,
    Bool,
    QFloat(QuantScheme),
}

/// The elements of a tensor as bytes.
#[derive(Debug)]
pub struct TensorData {
    pub bytes: Vec<u8>,
    pub shape: Vec<usize>,
    pub dtype: DType,
}

/// A quantized tensor: packed values, and a scale and a bias for every group of
/// values in a row. `shape` is the shape that the tensor is seen in; only its last two
/// extents tell how the arrays are laid out.
#[derive(Debug)]
pub struct MlxQuantizedTensorPrimitive {
    pub quantized: Array,
    pub scales: Array,
    pub biases: Array,
    pub shape: Vec<usize>,
    pub group_size: i32,
    pub bits: i32,
    pub scheme: QuantScheme,
}

/// Parameters of a quantization.
#[derive(Debug)]
pub struct QuantizationParametersPrimitive {
    pub scales: MlxTensorPrimitive,
}

/// A float or a quantized tensor.
#[derive(Debug)]
pub enum TensorPrimitive {
    Float(MlxTensorPrimitive),
    QFloat(MlxQuantizedTensorPrimitive),
}

/// The sizes of groups that can be quantized together.
pub open spec fn group_supported(g: int) -> bool {
    g == 32 || g == 64 || g == 128
}

/// The last extent of a shape.
pub open spec fn last_extent(s: Seq<int>) -> int {
    s[s.len() - 1]
}

/// `s` with another last extent.
pub open spec fn with_last(s: Seq<int>, n: int) -> Seq<int> {
    s.update(s.len() - 1, n)
}

/// The shape of the packed values of an array of shape `s`.
pub open spec fn packed_shape(s: Seq<int>, bits: int) -> Seq<int> {
    with_last(s, last_extent(s) * bits / 32)
}

/// The shape of the scales, and of the biases, of an array of shape `s`.
pub open spec fn groups_shape(s: Seq<int>, group_size: int) -> Seq<int> {
    with_last(s, last_extent(s) / group_size)
}

/// An array of shape `s` can be quantized under a scheme.
pub open spec fn quantizable(s: Seq<int>, scheme: QuantScheme) -> bool {
    &&& scheme.wf()
    &&& s.len() >= 2
    &&& size(s) <= usize::MAX
    &&& group_supported(scheme.group_size(size(s)))
    &&& last_extent(s) % scheme.group_size(size(s)) == 0
}

/// The extent of axis `k` of a block in an array of rank `r`. The axes of a block are
/// the last ones of the array.
pub open spec fn block_extent(b: BlockSize, r: int, k: int) -> int {
    if b.rank >= r {
        b.extents@[k] as int
    } else if k < r - b.rank {
        1
    } else {
        b.extents@[k - (r - b.rank)] as int
    }
}

/// An array of shape `s` is made of whole blocks, as many as it takes to cover its axes.
pub open spec fn blocks_cover(s: Seq<int>, scheme: QuantScheme) -> bool {
    match scheme.level {
        QuantLevel::Tensor => true,
        QuantLevel::Block(b) => {
            let along = Seq::new(
                s.len(),
                |k: int|
                    (s[k] + block_extent(b, s.len() as int, k) - 1) / block_extent(
                        b,
                        s.len() as int,
                        k,
                    ),
            );
            &&& size(s) % size(b.dims()) == 0
            &&& size(along) == size(s) / size(b.dims())
        },
    }
}

/// An array of shape `s` can be quantized with parameters that are found block by
/// block.
pub open spec fn requantizable(s: Seq<int>, scheme: QuantScheme) -> bool {
    quantizable(s, scheme) && blocks_cover(s, scheme)
}

/// One of the three arrays that quantizing a tensor gives.
pub open spec fn quantized_part(
    m: Model,
    t: Tensor,
    group_size: i32,
    bits: i32,
    part: QuantPart,
) -> Tensor {
    kernel(
        m,
        Kernel::Quantize { group_size, bits, part },
        seq![t],
        match part {
            QuantPart::Packed => packed_shape(t.shape, bits as int),
            QuantPart::Scales | QuantPart::Biases => groups_shape(t.shape, group_size as int),
        },
    )
}

/// The floats that packed values with their scales and biases stand for.
pub open spec fn unpacked(
    m: Model,
    packed: Tensor,
    scales: Tensor,
    biases: Tensor,
    group_size: i32,
    bits: i32,
) -> Tensor {
    each(
        m,
        UnaryOp::CastFloat,
        kernel(
            m,
            Kernel::Dequantize { group_size, bits },
            seq![packed, scales, biases],
            with_last(scales.shape, last_extent(scales.shape) * group_size),
        ),
    )
}

/// The product of a float matrix and packed values with their scales and biases.
pub open spec fn packed_product(
    m: Model,
    x: Tensor,
    packed: Tensor,
    scales: Tensor,
    biases: Tensor,
    group_size: i32,
    bits: i32,
) -> Tensor {
    each(
        m,
        UnaryOp::CastFloat,
        kernel(
            m,
            Kernel::QuantizedMatmul { transpose: false, group_size, bits },
            seq![x, packed, scales, biases],
            matmul_shape(
                x.shape,
                with_last(scales.shape, last_extent(scales.shape) * group_size),
            ),
        ),
    )
}

impl MlxQuantizedTensorPrimitive {
    /// The shape of the array that the packed values stand for.
    pub open spec fn stored(&self) -> Seq<int> {
        with_last(self.scales.dims(), last_extent(self.scales.dims()) * self.group_size)
    }

    pub open spec fn dims(&self) -> Seq<int> {
        sizes(self.shape@)
    }

    /// The three arrays belong together, and the last two extents of the shape are
    /// theirs.
    pub open spec fn wf(&self) -> bool {
        let (s, d) = (self.stored(), self.dims());
        &&& self.quantized.wf()
        &&& self.scales.wf()
        &&& self.biases.wf()
        &&& self.scheme.wf()
        &&& self.bits == self.scheme.bits()
        &&& group_supported(self.group_size as int)
        &&& self.scales.dims().len() >= 2
        &&& self.biases.dims() == self.scales.dims()
        &&& self.quantized.dims() == packed_shape(s, self.bits as int)
        &&& last_extent(s) <= i32::MAX
        &&& d.len() >= 2
        &&& d[d.len() - 2] == s[s.len() - 2]
        &&& d[d.len() - 1] == s[s.len() - 1]
    }

    /// The array that the packed values stand for, as floats.
    pub open spec fn dequantized(&self, m: Model) -> Tensor {
        unpacked(
            m,
            self.quantized.value(m),
            self.scales.value(m),
            self.biases.value(m),
            self.group_size,
            self.bits,
        )
    }

    /// The arrays, and how they are to be read, are those of `other`.
    pub open spec fn same_arrays(&self, other: &MlxQuantizedTensorPrimitive) -> bool {
        &&& self.quantized == other.quantized
        &&& self.scales == other.scales
        &&& self.biases == other.biases
        &&& self.group_size == other.group_size
        &&& self.bits == other.bits
        &&& self.scheme == other.scheme
    }

    /// The tensor is what quantizing the float values `f`, of shape `s`, under `scheme`
    /// gives.
    pub open spec fn quantizes(
        &self,
        f: spec_fn(Model) -> Tensor,
        s: Seq<int>,
        scheme: QuantScheme,
    ) -> bool {
        &&& self.wf()
        &&& self.scheme == scheme
        &&& self.group_size == scheme.group_size(size(s))
        &&& self.dims() == s
        &&& self.stored() == s
        &&& forall|m: Model|
            #[trigger] self.quantized.value(m) == quantized_part(
                m,
                f(m),
                self.group_size,
                self.bits,
                QuantPart::Packed,
            )
        &&& forall|m: Model|
            #[trigger] self.scales.value(m) == quantized_part(
                m,
                f(m),
                self.group_size,
                self.bits,
                QuantPart::Scales,
            )
        &&& forall|m: Model|
            #[trigger] self.biases.value(m) == quantized_part(
                m,
                f(m),
                self.group_size,
                self.bits,
                QuantPart::Biases,
            )
    }
}

impl MlxQuantizedTensorPrimitive {
    /// The shape of the array that the packed values stand for.
    fn stored_shape(&self) -> (r: Vec<i32>)
        requires
            self.wf(),
        ensures
            ints(r@) == self.stored(),
            is_shape(ints(r@)),
    {
        let ghost s = self.stored();
        let dims = self.scales.shape();
        let rank: usize = dims.len();
        let groups: i32 = dims[rank - 1];
        proof {
            assert(self.scales.dims()[rank - 1] == groups);
            assert(groups >= 0);
            assert(0 <= groups * self.group_size) by (nonlinear_arith)
                requires
                    0 <= groups,
                    self.group_size >= 0,
            ;
        }
        let mut shape = copy_i32(dims.as_slice());
        shape.set(rank - 1, groups * self.group_size);
        proof {
            assert(ints(shape@) == s);
            assert forall|k: int| 0 <= k < rank implies #[trigger] s[k] >= 0 by {
                assert(self.scales.dims()[k] >= 0);
            }
        }
        shape
    }
}

impl TensorPrimitive {
    pub open spec fn wf(&self) -> bool {
        match self {
            TensorPrimitive::Float(t) => t.wf(),
            TensorPrimitive::QFloat(t) => t.wf(),
        }
    }

    /// The shape of the float values.
    pub open spec fn stored(&self) -> Seq<int> {
        match self {
            TensorPrimitive::Float(t) => t.dims(),
            TensorPrimitive::QFloat(t) => t.stored(),
        }
    }

    /// The float values.
    pub open spec fn floats(&self, m: Model) -> Tensor {
        match self {
            TensorPrimitive::Float(t) => t.value(m),
            TensorPrimitive::QFloat(t) => t.dequantized(m),
        }
    }
}

/// The scale of every value, where runs of `group_size` values share one.
pub open spec fn spread(scales: Seq<u32>, group_size: int, n: int) -> Seq<u32> {
    Seq::new(n as nat, |e: int| scales[e / group_size])
}

/// The tensor is what quantizing the products of `values` and their scales gives.
pub open spec fn requantized(
    r: MlxQuantizedTensorPrimitive,
    values: Seq<i8>,
    scales: Seq<u32>,
    shape: Seq<int>,
    scheme: QuantScheme,
) -> bool {
    let n = values.len() as int;
    r.quantizes(
        |m: Model| scaled_tensor(m, values, spread(scales, scheme.group_size(n), n), shape),
        shape,
        scheme,
    )
}

/// The product of matrices of which the right one may be quantized. Where it is and the
/// left one is not, the packed values are multiplied directly.
pub open spec fn q_product(m: Model, lhs: TensorPrimitive, rhs: TensorPrimitive) -> Tensor {
    match (lhs, rhs) {
        (TensorPrimitive::Float(a), TensorPrimitive::QFloat(b)) => packed_product(
            m,
            a.value(m),
            b.quantized.value(m),
            b.scales.value(m),
            b.biases.value(m),
            b.group_size,
            b.bits,
        ),
        _ => matmul(m, lhs.floats(m), rhs.floats(m)),
    }
}

/// The last two extents are the same.
pub open spec fn same_matrices(old: Seq<int>, new: Seq<int>) -> bool {
    &&& old.len() >= 2
    &&& new.len() >= 2
    &&& old[old.len() - 2] == new[new.len() - 2]
    &&& old[old.len() - 1] == new[new.len() - 1]
}

/// All axes that `new` has more than `old` have extent one.
pub open spec fn only_ones_added(old: Seq<int>, new: Seq<int>) -> bool {
    forall|k: int| 0 <= k < new.len() - old.len() ==> #[trigger] new[k] == 1
}

/// Whether the last two extents are the same.
fn keeps_matrices(old: &[usize], new: &[usize]) -> (r: bool)
    ensures
        r == same_matrices(sizes(old@), sizes(new@)),
{
    old.len() >= 2 && new.len() >= 2 && old[old.len() - 2] == new[new.len() - 2] && old[old.len()
        - 1] == new[new.len() - 1]
}

/// A copy of a slice of sizes.
fn copy_sizes(s: &[usize]) -> (r: Vec<usize>)
    ensures
        r@ == s@,
{
    let mut r: Vec<usize> = Vec::new();
    for k in 0..s.len()
        invariant
            r@ == s@.take(k as int),
    {
        r.push(s[k]);
        assert(s@.take(k + 1) == s@.take(k as int).push(s@[k as int]));
    }
    assert(s@.take(s@.len() as int) == s@);
    r
}

/// The three arrays that quantizing an array gives.
fn quantize_array(
    x: &Array,
    shape: Vec<usize>,
    num_elements: usize,
    scheme: QuantScheme,
    Ghost(f): Ghost<spec_fn(Model) -> Tensor>,
) -> (r: MlxQuantizedTensorPrimitive)
    requires
        x.wf(),
        sizes(shape@) == x.dims(),
        num_elements == size(x.dims()),
        quantizable(x.dims(), scheme),
        forall|m: Model| #[trigger] x.value(m) == f(m),
    ensures
        r.quantizes(f, x.dims(), scheme),
{
    let ghost s = x.dims();
    proof {
        if scheme.level is Tensor {
            assert(num_elements <= 128);
        }
    }
    let (bits, group_size) = scheme_to_mlx_params(&scheme, num_elements);
    let dims = x.shape();
    let rank: usize = dims.len();
    let last: i32 = dims[rank - 1];
    let ghost l = last_extent(s);
    proof {
        assert(l == last);
        assert(s[s.len() - 1] >= 0);
        lemma_div_pos_is_pos(l, group_size as int);
        lemma_div_nonincreasing(l, group_size as int);
        lemma_fundamental_div_mod(l, group_size as int);
        lemma_mul_is_commutative(group_size as int, l / (group_size as int));
        assert(0 <= l * bits <= 8 * l) by (nonlinear_arith)
            requires
                0 <= bits <= 8,
                0 <= l,
        ;
    }
    let mut packed = copy_i32(dims.as_slice());
    packed.set(rank - 1, (last as i64 * bits as i64 / 32) as i32);
    let mut groups = copy_i32(dims.as_slice());
    groups.set(rank - 1, last / group_size);
    let groups2 = copy_i32(groups.as_slice());
    proof {
        assert(ints(packed@) == packed_shape(s, bits as int));
        assert(ints(groups@) == groups_shape(s, group_size as int));
        assert forall|k: int| 0 <= k < rank implies #[trigger] ints(packed@)[k] >= 0 by {
            assert(s[k] >= 0);
        }
        assert forall|k: int| 0 <= k < rank implies #[trigger] ints(groups@)[k] >= 0 by {
            assert(s[k] >= 0);
        }
    }
    let operands = [x];
    let quantized = Array::kernel(
        Kernel::Quantize { group_size, bits, part: QuantPart::Packed },
        operands.as_slice(),
        packed,
    );
    let scales = Array::kernel(
        Kernel::Quantize { group_size, bits, part: QuantPart::Scales },
        operands.as_slice(),
        groups,
    );
    let biases = Array::kernel(
        Kernel::Quantize { group_size, bits, part: QuantPart::Biases },
        operands.as_slice(),
        groups2,
    );
    proof {
        assert forall|m: Model| #[trigger] values(operands@, m) == seq![f(m)] by {
            assert(x.value(m) == f(m));
            assert(values(operands@, m) == seq![f(m)]);
        }
        assert forall|m: Model| (#[trigger] f(m)).shape == s by {
            assert(x.value(m) == f(m));
        }
        assert(with_last(scales.dims(), last_extent(scales.dims()) * group_size) == s);
    }
    MlxQuantizedTensorPrimitive { quantized, scales, biases, shape, group_size, bits, scheme }
}

/// The quantized form of a tensor with the float values `f`.
fn quantize_tensor(
    tensor: MlxTensorPrimitive,
    scheme: QuantScheme,
    Ghost(f): Ghost<spec_fn(Model) -> Tensor>,
) -> (r: MlxQuantizedTensorPrimitive)
    requires
        tensor.wf(),
        quantizable(tensor.dims(), scheme),
        forall|m: Model| #[trigger] tensor.value(m) == f(m),
    ensures
        r.quantizes(f, tensor.dims(), scheme),
{
    let num_elements: usize = total_elements(tensor.array.shape().as_slice());
    proof {
        assert forall|m: Model| #[trigger] tensor.array.value(m) == f(m) by {
            assert(tensor.value(m) == f(m));
        }
    }
    quantize_array(&tensor.array, tensor.shape, num_elements, scheme, Ghost(f))
}

impl Mlx {
    /// The quantized tensor for the products of `values` and their scales, given by
    /// their bits. Every group of values shares a scale.
    pub fn q_from_values(
        values: Vec<i8>,
        scales: Vec<u32>,
        shape: Vec<usize>,
        scheme: QuantScheme,
    ) -> (r: MlxQuantizedTensorPrimitive)
        requires
            are_extents(shape@),
            quantizable(sizes(shape@), scheme),
            values@.len() == size(sizes(shape@)),
            values@.len() > 0 ==> (values@.len() - 1) / scheme.group_size(values@.len() as int)
                < scales@.len(),
        ensures
            requantized(r, values@, scales@, sizes(shape@), scheme),
    {
        let n: usize = values.len();
        let ghost s = sizes(shape@);
        let ghost g = scheme.group_size(n as int);
        let (_, group_size) = scheme_to_mlx_params(&scheme, n);
        let group: usize = group_size as usize;
        let mut each_scale: Vec<u32> = Vec::new();
        for e in 0..n
            invariant
                group == g,
                group > 0,
                n > 0 ==> (n - 1) / g < scales@.len(),
                each_scale@.len() == e,
                forall|j: int| 0 <= j < e ==> #[trigger] each_scale@[j] == scales@[j / g],
        {
            proof {
                lemma_div_is_ordered(e as int, n - 1, g);
                lemma_div_pos_is_pos(e as int, g);
            }
            each_scale.push(scales[e / group]);
        }
        proof {
            assert(each_scale@ == spread(scales@, g, n as int));
        }
        let dims = to_extents(shape.as_slice());
        let ghost v = values@;
        let x = Array::from_scaled(values, each_scale, dims.as_slice());
        quantize_array(
            &x,
            shape,
            n,
            scheme,
            Ghost(|m: Model| scaled_tensor(m, v, spread(scales@, scheme.group_size(n as int), n as int), s)),
        )
    }

    /// A quantized tensor from its bytes. Values are multiplied by their scales and
    /// quantized again.
    pub fn q_from_data(data: TensorData, _device: &MlxDevice) -> (r: MlxQuantizedTensorPrimitive)
        requires
            data.dtype is QFloat,
            are_extents(data.shape@),
            quantizable(sizes(data.shape@), data.dtype->QFloat_0),
            holds_values(data.bytes@, data.dtype->QFloat_0, size(sizes(data.shape@))),
            size(sizes(data.shape@)) > 0 ==> (size(sizes(data.shape@)) - 1) / (
            data.dtype->QFloat_0).group_size(size(sizes(data.shape@))) < (data.dtype->QFloat_0).scale_count(size(sizes(data.shape@))),
        ensures
            exists|values: Seq<i8>, scales: Seq<u32>, big: bool|
                {
                    &&& #[trigger] unpacks_to(
                        data.bytes@,
                        data.dtype->QFloat_0,
                        size(sizes(data.shape@)),
                        values,
                        scales,
                        big,
                    )
                    &&& requantized(
                        r,
                        values,
                        scales,
                        sizes(data.shape@),
                        data.dtype->QFloat_0,
                    )
                },
    {
        let scheme = match data.dtype {
            DType::QFloat(scheme) => scheme,
            _ => vstd::pervasive::unreached(),
        };
        let dims = to_extents(data.shape.as_slice());
        let num_elements: usize = total_elements(dims.as_slice());
        let (values, scales) = into_vec_i8(data.bytes, scheme, num_elements);
        Mlx::q_from_values(values, scales, data.shape, scheme)
    }

    /// The quantized form of a tensor. The parameters are found anew.
    pub fn quantize(
        tensor: MlxTensorPrimitive,
        scheme: &QuantScheme,
        _qparams: QuantizationParametersPrimitive,
    ) -> (r: MlxQuantizedTensorPrimitive)
        requires
            tensor.wf(),
            quantizable(tensor.dims(), *scheme),
        ensures
            r.quantizes(|m: Model| tensor.value(m), tensor.dims(), *scheme),
    {
        quantize_tensor(tensor, *scheme, Ghost(|m: Model| tensor.value(m)))
    }

    /// The quantized form of a tensor.
    pub fn quantize_dynamic(tensor: MlxTensorPrimitive, scheme: &QuantScheme) -> (r:
        MlxQuantizedTensorPrimitive)
        requires
            tensor.wf(),
            requantizable(tensor.dims(), *scheme),
        ensures
            r.quantizes(|m: Model| tensor.value(m), tensor.dims(), *scheme),
    {
        quantize_tensor(tensor, *scheme, Ghost(|m: Model| tensor.value(m)))
    }

    /// The float values of a quantized tensor.
    pub fn dequantize(tensor: MlxQuantizedTensorPrimitive) -> (r: MlxTensorPrimitive)
        requires
            tensor.wf(),
        ensures
            r.wf(),
            r.dims() == tensor.stored(),
            forall|m: Model| #[trigger] r.value(m) == tensor.dequantized(m),
    {
        let shape = tensor.stored_shape();
        let operands = [&tensor.quantized, &tensor.scales, &tensor.biases];
        let array = Array::kernel(
            Kernel::Dequantize { group_size: tensor.group_size, bits: tensor.bits },
            operands.as_slice(),
            shape,
        );
        let floats = array.unary(UnaryOp::CastFloat);
        proof {
            assert forall|m: Model| #[trigger] floats.value(m) == tensor.dequantized(m) by {
                assert(values(operands@, m) == seq![
                    tensor.quantized.value(m),
                    tensor.scales.value(m),
                    tensor.biases.value(m),
                ]);
            }
        }
        MlxTensorPrimitive::new(floats)
    }

    /// Matrix products of float and quantized tensors.
    pub fn q_matmul(lhs: TensorPrimitive, rhs: TensorPrimitive) -> (r: TensorPrimitive)
        requires
            lhs.wf(),
            rhs.wf(),
            matmul_fits(lhs.stored(), rhs.stored()),
        ensures
            r.wf(),
            r is Float,
            r.stored() == matmul_shape(lhs.stored(), rhs.stored()),
            forall|m: Model| #[trigger] r.floats(m) == q_product(m, lhs, rhs),
    {
        match (lhs, rhs) {
            (TensorPrimitive::Float(a), TensorPrimitive::QFloat(b)) => {
                let stored = b.stored_shape();
                let shape = matmul_dims(a.array.shape().as_slice(), stored.as_slice());
                let operands = [&a.array, &b.quantized, &b.scales, &b.biases];
                let array = Array::kernel(
                    Kernel::QuantizedMatmul {
                        transpose: false,
                        group_size: b.group_size,
                        bits: b.bits,
                    },
                    operands.as_slice(),
                    shape,
                );
                let floats = array.unary(UnaryOp::CastFloat);
                proof {
                    assert forall|m: Model|
                        #[trigger] floats.value(m) == q_product(m, lhs, rhs) by {
                        assert(values(operands@, m) == seq![
                            a.value(m),
                            b.quantized.value(m),
                            b.scales.value(m),
                            b.biases.value(m),
                        ]);
                    }
                }
                TensorPrimitive::Float(MlxTensorPrimitive::new(floats))
            },
            (TensorPrimitive::QFloat(a), TensorPrimitive::Float(b)) => {
                let lhs_f = Mlx::dequantize(a);
                TensorPrimitive::Float(Mlx::float_matmul(lhs_f, b))
            },
            (TensorPrimitive::QFloat(a), TensorPrimitive::QFloat(b)) => {
                let lhs_f = Mlx::dequantize(a);
                let rhs_f = Mlx::dequantize(b);
                TensorPrimitive::Float(Mlx::float_matmul(lhs_f, rhs_f))
            },
            (TensorPrimitive::Float(a), TensorPrimitive::Float(b)) => {
                TensorPrimitive::Float(Mlx::float_matmul(a, b))
            },
        }
    }

    pub fn q_device(_tensor: &MlxQuantizedTensorPrimitive) -> (r: MlxDevice)
        ensures
            r == MlxDevice::Gpu,
    {
        MlxDevice::Gpu
    }

    pub fn q_to_device(tensor: MlxQuantizedTensorPrimitive, _device: &MlxDevice) -> (r:
        MlxQuantizedTensorPrimitive)
        ensures
            r == tensor,
    {
        tensor
    }

    /// The tensor in another shape. Where the last two extents stay, only the shape that
    /// the tensor is seen in changes.
    pub fn q_reshape(tensor: MlxQuantizedTensorPrimitive, shape: Vec<usize>) -> (r:
        MlxQuantizedTensorPrimitive)
        requires
            tensor.wf(),
            !same_matrices(tensor.dims(), sizes(shape@)) ==> {
                &&& are_extents(shape@)
                &&& size(sizes(shape@)) == size(tensor.stored())
                &&& requantizable(sizes(shape@), tensor.scheme)
            },
        ensures
            r.wf(),
            if same_matrices(tensor.dims(), sizes(shape@)) {
                r.same_arrays(&tensor) && r.shape@ == shape@
            } else {
                r.quantizes(
                    |m: Model| reshape(tensor.dequantized(m), sizes(shape@)),
                    sizes(shape@),
                    tensor.scheme,
                )
            },
    {
        if keeps_matrices(tensor.shape.as_slice(), shape.as_slice()) {
            return MlxQuantizedTensorPrimitive { shape, ..tensor };
        }
        let scheme = tensor.scheme;
        let ghost d = sizes(shape@);
        let ghost f = |m: Model| reshape(tensor.dequantized(m), d);
        let float_tensor = Mlx::dequantize(tensor);
        let reshaped = Mlx::float_reshape(float_tensor, shape.as_slice());
        quantize_tensor(reshaped, scheme, Ghost(f))
    }

    /// The tensor with two axes exchanged. Among the axes before the last two, only the
    /// shape that the tensor is seen in changes.
    pub fn q_swap_dims(tensor: MlxQuantizedTensorPrimitive, dim1: usize, dim2: usize) -> (r:
        MlxQuantizedTensorPrimitive)
        requires
            tensor.wf(),
            !(dim1 < tensor.dims().len() - 2 && dim2 < tensor.dims().len() - 2) ==> {
                &&& dim1 < tensor.stored().len()
                &&& dim2 < tensor.stored().len()
                &&& tensor.stored().len() <= i32::MAX
                &&& requantizable(
                    swapped(tensor.stored(), dim1 as int, dim2 as int),
                    tensor.scheme,
                )
            },
        ensures
            r.wf(),
            if dim1 < tensor.dims().len() - 2 && dim2 < tensor.dims().len() - 2 {
                &&& r.same_arrays(&tensor)
                &&& r.dims() == swapped(tensor.dims(), dim1 as int, dim2 as int)
            } else {
                r.quantizes(
                    |m: Model| swap_axes(tensor.dequantized(m), dim1 as int, dim2 as int),
                    swapped(tensor.stored(), dim1 as int, dim2 as int),
                    tensor.scheme,
                )
            },
    {
        let ndim: usize = tensor.shape.len();
        if dim1 < ndim - 2 && dim2 < ndim - 2 {
            let mut shape = copy_sizes(tensor.shape.as_slice());
            shape.set(dim1, tensor.shape[dim2]);
            shape.set(dim2, tensor.shape[dim1]);
            proof {
                assert(sizes(shape@) == swapped(tensor.dims(), dim1 as int, dim2 as int));
            }
            return MlxQuantizedTensorPrimitive { shape, ..tensor };
        }
        let scheme = tensor.scheme;
        let ghost f = |m: Model| swap_axes(tensor.dequantized(m), dim1 as int, dim2 as int);
        let float_tensor = Mlx::dequantize(tensor);
        let swapped_tensor = Mlx::float_swap_dims(float_tensor, dim1, dim2);
        quantize_tensor(swapped_tensor, scheme, Ghost(f))
    }

    /// The tensor with its axes in another order.
    pub fn q_permute(tensor: MlxQuantizedTensorPrimitive, axes: &[usize]) -> (r:
        MlxQuantizedTensorPrimitive)
        requires
            tensor.wf(),
            tensor.stored().len() <= i32::MAX,
            is_permutation(sizes(axes@), tensor.stored().len() as int),
            requantizable(permuted(tensor.stored(), sizes(axes@)), tensor.scheme),
        ensures
            r.quantizes(
                |m: Model| permute(tensor.dequantized(m), sizes(axes@)),
                permuted(tensor.stored(), sizes(axes@)),
                tensor.scheme,
            ),
    {
        let scheme = tensor.scheme;
        let ghost f = |m: Model| permute(tensor.dequantized(m), sizes(axes@));
        let float_tensor = Mlx::dequantize(tensor);
        let moved = Mlx::float_permute(float_tensor, axes);
        quantize_tensor(moved, scheme, Ghost(f))
    }

    /// The tensor with the order along some axes reversed.
    pub fn q_flip(tensor: MlxQuantizedTensorPrimitive, axes: &[usize]) -> (r:
        MlxQuantizedTensorPrimitive)
        requires
            tensor.wf(),
            forall|k: int| 0 <= k < axes@.len() ==> #[trigger] axes@[k] < tensor.stored().len(),
            requantizable(tensor.stored(), tensor.scheme),
        ensures
            r.quantizes(
                |m: Model| flipped(tensor.dequantized(m), sizes(axes@)),
                tensor.stored(),
                tensor.scheme,
            ),
    {
        let scheme = tensor.scheme;
        let ghost f = |m: Model| flipped(tensor.dequantized(m), sizes(axes@));
        let float_tensor = Mlx::dequantize(tensor);
        let mirror = Mlx::float_flip(float_tensor, axes);
        quantize_tensor(mirror, scheme, Ghost(f))
    }

    /// The slices along an axis that `indices` lists.
    pub fn q_select(
        tensor: MlxQuantizedTensorPrimitive,
        dim: usize,
        indices: MlxTensorPrimitive,
    ) -> (r: MlxQuantizedTensorPrimitive)
        requires
            tensor.wf(),
            indices.wf(),
            dim < tensor.stored().len() <= i32::MAX,
            size(tensor.stored()) > 0 || size(indices.dims()) == 0,
            requantizable(
                tensor.stored().take(dim as int) + indices.dims() + tensor.stored().skip(dim + 1),
                tensor.scheme,
            ),
        ensures
            r.quantizes(
                |m: Model| take(tensor.dequantized(m), indices.value(m), dim as int),
                tensor.stored().take(dim as int) + indices.dims() + tensor.stored().skip(dim + 1),
                tensor.scheme,
            ),
    {
        let scheme = tensor.scheme;
        let ghost f = |m: Model| take(tensor.dequantized(m), indices.value(m), dim as int);
        let float_tensor = Mlx::dequantize(tensor);
        let selected = Mlx::float_select(float_tensor, dim, indices);
        quantize_tensor(selected, scheme, Ghost(f))
    }

    /// The part that ranges of the axes select.
    pub fn q_slice(tensor: MlxQuantizedTensorPrimitive, slices: &[Slice]) -> (r:
        MlxQuantizedTensorPrimitive)
        requires
            tensor.wf(),
            slices_fit(slices@, tensor.stored().len() as int),
            requantizable(sliced_shape(tensor.stored(), slices@), tensor.scheme),
        ensures
            r.quantizes(
                |m: Model| sliced(tensor.dequantized(m), slices@),
                sliced_shape(tensor.stored(), slices@),
                tensor.scheme,
            ),
    {
        let scheme = tensor.scheme;
        let ghost f = |m: Model| sliced(tensor.dequantized(m), slices@);
        let float_tensor = Mlx::dequantize(tensor);
        let part = Mlx::float_slice(float_tensor, slices);
        quantize_tensor(part, scheme, Ghost(f))
    }

    /// The tensor repeated to a broader shape. Where the last two extents stay and only
    /// axes of extent one are added, only the shape that the tensor is seen in changes.
    pub fn q_expand(tensor: MlxQuantizedTensorPrimitive, shape: Vec<usize>) -> (r:
        MlxQuantizedTensorPrimitive)
        requires
            tensor.wf(),
            !(same_matrices(tensor.dims(), sizes(shape@)) && only_ones_added(
                tensor.dims(),
                sizes(shape@),
            )) ==> {
                &&& are_extents(shape@)
                &&& broadcasts_to(tensor.stored(), sizes(shape@))
                &&& requantizable(sizes(shape@), tensor.scheme)
            },
        ensures
            r.wf(),
            if same_matrices(tensor.dims(), sizes(shape@)) && only_ones_added(
                tensor.dims(),
                sizes(shape@),
            ) {
                r.same_arrays(&tensor) && r.shape@ == shape@
            } else {
                r.quantizes(
                    |m: Model| broadcast_to(tensor.dequantized(m), sizes(shape@)),
                    sizes(shape@),
                    tensor.scheme,
                )
            },
    {
        let ghost (old, new) = (tensor.dims(), sizes(shape@));
        if keeps_matrices(tensor.shape.as_slice(), shape.as_slice()) {
            let extra: usize = if shape.len() > tensor.shape.len() {
                shape.len() - tensor.shape.len()
            } else {
                0
            };
            let mut ones: bool = true;
            for k in 0..extra
                invariant
                    extra <= shape@.len(),
                    new == sizes(shape@),
                    ones == (forall|j: int| 0 <= j < k ==> #[trigger] new[j] == 1),
            {
                proof {
                    assert(new[k as int] == shape@[k as int]);
                }
                if shape[k] != 1 {
                    ones = false;
                }
            }
            if ones {
                return MlxQuantizedTensorPrimitive { shape, ..tensor };
            }
        }
        let scheme = tensor.scheme;
        let ghost f = |m: Model| broadcast_to(tensor.dequantized(m), new);
        let float_tensor = Mlx::dequantize(tensor);
        let expanded = Mlx::float_expand(float_tensor, shape.as_slice());
        quantize_tensor(expanded, scheme, Ghost(f))
    }
}

} // verus!
