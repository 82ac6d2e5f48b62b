//! Quantization schemes and packed quantized data.
use crate::index::size;
use crate::tensor::Tensor;
use burn_tensor::quantization::{
    QuantLevel as Level, QuantScheme as Scheme, QuantStore as Store, QuantValue as Value,
    QuantizedBytes,
};
use burn_tensor::Bytes;
use vstd::arithmetic::power::pow;
use vstd::prelude::*;

verus! {

/// What a quantized value is: eight or four bits, over the full range or one
/// symmetric around zero.
#[derive(Clone, Copy, Debug, PartialEq, Eq)]
pub enum QuantValue {
    Q8F,
    Q8S,
    Q4F,
    Q4S,
}

/// The precision of the scales.
#[derive(Clone, Copy, Debug, PartialEq, Eq)]
pub enum QuantParam {
    F32,
    F16,
    BF16,
    UE8M0,
    UE4M3,
}

/// How quantized values are stored. The number is the axis that is packed, counted
/// from the innermost one.
#[derive(Clone, Copy, Debug, PartialEq, Eq)]
pub enum QuantStore {
    /// One value per byte.
    Native,
    PackedNative(usize),
    /// Values packed into 32-bit words.
    PackedU32(usize),
}

/// The extents of a block: the first `rank` entries of `extents`.
#[derive(Clone, Copy, Debug, PartialEq, Eq)]
pub struct BlockSize {
    pub extents: [u8; 5],
    pub rank: usize,
}

/// Which values share a scale.
#[derive(Clone, Copy, Debug, PartialEq, Eq)]
pub enum QuantLevel {
    Tensor,
    Block(BlockSize),
}

/// How a scale is applied.
#[derive(Clone, Copy, Debug, PartialEq, Eq)]
pub enum QuantMode {
    Symmetric,
}

/// A quantization scheme.
#[derive(Clone, Copy, Debug, PartialEq, Eq)]
pub struct QuantScheme {
    pub value: QuantValue,
    pub param: QuantParam,
    pub store: QuantStore,
    pub level: QuantLevel,
    pub mode: QuantMode,
}

impl BlockSize {
    pub open spec fn dims(self) -> Seq<int> {
        Seq::new(self.rank as nat, |k: int| self.extents@[k] as int)
    }
}

impl QuantScheme {
    /// A block has at least one axis, and none of extent zero.
    pub open spec fn wf(self) -> bool {
        match self.level {
            QuantLevel::Tensor => true,
            QuantLevel::Block(b) => {
                &&& 1 <= b.rank <= 5
                &&& forall|k: int| 0 <= k < b.rank ==> #[trigger] b.extents@[k] > 0
            },
        }
    }

    /// Bits per value.
    pub open spec fn bits(self) -> int {
        match self.value {
            QuantValue::Q8F | QuantValue::Q8S => 8,
            QuantValue::Q4F | QuantValue::Q4S => 4,
        }
    }

    /// How many values of a tensor of `n` elements share a scale: all of them, or as
    /// many as the first extent of a block.
    pub open spec fn group_size(self, n: int) -> int {
        match self.level {
            QuantLevel::Tensor => n,
            QuantLevel::Block(b) => b.extents@[0] as int,
        }
    }

    /// How many scales come with `n` values.
    pub open spec fn scale_count(self, n: int) -> int {
        match self.level {
            QuantLevel::Tensor => 1,
            QuantLevel::Block(b) => n / size(b.dims()),
        }
    }

    /// Two values share a byte.
    pub open spec fn packs_nibbles(self) -> bool {
        self.store is PackedU32 && self.bits() == 4
    }
}

/// The bits per value and the group size of a scheme. An element count is truncated to
/// 32 bits.
pub fn scheme_to_mlx_params(scheme: &QuantScheme, num_elements: usize) -> (r: (i32, i32))
    requires
        scheme.level matches QuantLevel::Block(b) ==> b.rank >= 1,
    ensures
        r.0 == scheme.bits(),
        scheme.level is Tensor ==> r.1 == num_elements as i32,
        scheme.level is Block || num_elements <= i32::MAX ==> r.1 == scheme.group_size(
            num_elements as int,
        ),
{
    let bits: i32 = match scheme.value {
        QuantValue::Q8F | QuantValue::Q8S => 8,
        QuantValue::Q4F | QuantValue::Q4S => 4,
    };
    let group_size: i32 = match scheme.level {
        QuantLevel::Block(b) => b.extents[0] as i32,
        QuantLevel::Tensor => #[verifier::truncate] (num_elements as i32),
    };
    (bits, group_size)
}

/// The 32-bit word at byte `p`, with the most significant byte first or last.
pub open spec fn word_at(bytes: Seq<u8>, p: int, big: bool) -> int {
    if big {
        ((bytes[p] * 256 + bytes[p + 1]) * 256 + bytes[p + 2]) * 256 + bytes[p + 3]
    } else {
        ((bytes[p + 3] * 256 + bytes[p + 2]) * 256 + bytes[p + 1]) * 256 + bytes[p]
    }
}

/// `x`, below `2 * half`, as a number in two's complement.
pub open spec fn signed(x: int, half: int) -> int {
    if x < half {
        x
    } else {
        x - 2 * half
    }
}

/// The words that hold `n` packed values end in the last word that any of them is in,
/// or in one more that holds none.
pub open spec fn words_fit(words: int, n: int) -> bool {
    n <= 8 * words <= n + 8
}

/// `bytes` hold `n` values under `scheme`, followed by the scales.
pub open spec fn holds_values(bytes: Seq<u8>, scheme: QuantScheme, n: int) -> bool {
    let end = bytes.len() - 4 * scheme.scale_count(n);
    &&& scheme.wf()
    &&& scheme.store !is PackedNative
    &&& scheme.store matches QuantStore::PackedU32(d) ==> d == 0
    &&& scheme.packs_nibbles() || (n > 0 && scheme.scale_count(n) > 0)
    &&& if scheme.packs_nibbles() {
        &&& bytes.len() % 4 == 0
        &&& end >= 0
        &&& words_fit(end / 4, n)
    } else {
        end == n
    }
}

/// `bytes` hold these values and the bits of these scales. Words are in the byte order
/// that `big` tells.
pub open spec fn unpacks_to(
    bytes: Seq<u8>,
    scheme: QuantScheme,
    n: int,
    values: Seq<i8>,
    scales: Seq<u32>,
    big: bool,
) -> bool {
    let end = bytes.len() - 4 * scheme.scale_count(n);
    &&& values.len() == n
    &&& forall|e: int|
        0 <= e < n ==> #[trigger] values[e] == (if scheme.packs_nibbles() {
            signed(word_at(bytes, e / 8 * 4, big) / pow(16, (e % 8) as nat) % 16, 8)
        } else {
            signed(bytes[e] as int, 128)
        })
    &&& scales.len() == scheme.scale_count(n)
    &&& forall|k: int|
        0 <= k < scales.len() ==> #[trigger] scales[k] == word_at(bytes, end + 4 * k, big)
}

/// `QuantizedBytes::into_vec_i8` of burn. The scales, four bytes each, are the last of
/// the bytes. The values before them take a byte each, or, where four-bit values are
/// packed, are the groups of four bits of the words, the lowest group first. Values are
/// in two's complement. Words are in the byte order of the machine, which is left open
/// here. The scales are floats, of which this gives the bits. Where values take a byte each
/// the function needs a scale: it does not split off an empty list. It splits the
/// scales off into an allocation of their own and relies on the allocator to align it to
/// four bytes.
#[verifier::external_body]
pub(crate) fn into_vec_i8(bytes: Vec<u8>, scheme: QuantScheme, num_elements: usize) -> (r: (Vec<i8>, Vec<u32>))
    requires
        holds_values(bytes@, scheme, num_elements as int),
    ensures
        exists|big: bool|
            #[trigger] unpacks_to(bytes@, scheme, num_elements as int, r.0@, r.1@, big),
{
    let value = match scheme.value {
        QuantValue::Q8F => Value::Q8F, QuantValue::Q8S => Value::Q8S,
        QuantValue::Q4F => Value::Q4F, QuantValue::Q4S => Value::Q4S,
    };
    let store = match scheme.store {
        QuantStore::Native => Store::Native, QuantStore::PackedNative(d) => Store::PackedNative(d),
        QuantStore::PackedU32(d) => Store::PackedU32(d),
    };
    let level = match scheme.level {
        QuantLevel::Tensor => Level::Tensor, QuantLevel::Block(b) => Level::block(&b.extents[..b.rank]),
    };
    let (values, params) = QuantizedBytes {
        bytes: Bytes::from_bytes_vec(bytes), scheme: Scheme { value, store, level, ..Scheme::default() }, num_elements,
    }.into_vec_i8();
    (values, params.scales.iter().map(|s| s.to_bits()).collect())
}

} // verus!
