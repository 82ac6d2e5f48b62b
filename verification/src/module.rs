//! Lookup tables and resampling.
use crate::array::{Array, copy_i32};
use crate::index::size;
use crate::op::Const;
use crate::options::InterpolateOptions;
use crate::primitive::{Mlx, MlxTensorPrimitive};
use crate::tensor::{Model, constant_tensor, take};
use vstd::prelude::*;

verus! {

/// A tensor of float zeros in the shape of `x`.
fn zeros_like(x: &MlxTensorPrimitive) -> (r: MlxTensorPrimitive)
    requires
        x.wf(),
    ensures
        r.wf(),
        r.dims() == x.dims(),
        forall|m: Model|
            #[trigger] r.value(m) == constant_tensor(x.dims(), (m.constant)(Const::Zero)),
{
    let shape = copy_i32(x.array.shape().as_slice());
    MlxTensorPrimitive::new(Array::zeros(shape.as_slice()))
}

impl Mlx {
    /// The gradient of adaptive mean pooling is not computed: zeros take its
    /// place.
    pub fn adaptive_avg_pool2d_backward(
        x: MlxTensorPrimitive,
        _grad: MlxTensorPrimitive,
    ) -> (r: MlxTensorPrimitive)
        requires
            x.wf(),
        ensures
            r.wf(),
            r.dims() == x.dims(),
            forall|m: Model|
                #[trigger] r.value(m) == constant_tensor(x.dims(), (m.constant)(Const::Zero)),
    {
        zeros_like(&x)
    }

    /// Interpolation is not computed: the input comes back.
    pub fn interpolate(
        x: MlxTensorPrimitive,
        _output_size: [usize; 2],
        _options: InterpolateOptions,
    ) -> (r: MlxTensorPrimitive)
        ensures
            r == x,
    {
        x
    }

    /// The gradient of interpolation is not computed: zeros take its place.
    pub fn interpolate_backward(
        x: MlxTensorPrimitive,
        _grad: MlxTensorPrimitive,
        _output_size: [usize; 2],
        _options: InterpolateOptions,
    ) -> (r: MlxTensorPrimitive)
        requires
            x.wf(),
        ensures
            r.wf(),
            r.dims() == x.dims(),
            forall|m: Model|
                #[trigger] r.value(m) == constant_tensor(x.dims(), (m.constant)(Const::Zero)),
    {
        zeros_like(&x)
    }

    /// The rows of `weights` that `indices` lists.
    pub fn embedding(weights: MlxTensorPrimitive, indices: MlxTensorPrimitive) -> (r:
        MlxTensorPrimitive)
        requires
            weights.wf(),
            indices.wf(),
            weights.dims().len() > 0,
            size(weights.dims()) > 0 || size(indices.dims()) == 0,
        ensures
            r.wf(),
            r.dims() == indices.dims() + weights.dims().skip(1),
            forall|m: Model|
                #[trigger] r.value(m) == take(weights.value(m), indices.value(m), 0),
    {
        let array = weights.array.take_axis(&indices.array, 0);
        proof {
            assert(array.dims() == indices.dims() + weights.dims().skip(1));
        }
        MlxTensorPrimitive::new(array)
    }

    /// The gradient of a lookup is not computed: the weights come back.
    pub fn embedding_backward(
        weights: MlxTensorPrimitive,
        _output_grad: MlxTensorPrimitive,
        _indices: MlxTensorPrimitive,
    ) -> (r: MlxTensorPrimitive)
        ensures
            r == weights,
    {
        weights
    }
}

} // verus!
