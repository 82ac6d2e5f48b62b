//! The tensor handles that the operations take and give.
use crate::array::Array;
use crate::node::ints;
use crate::tensor::{Model, Tensor};
use vstd::prelude::*;

verus! {

/// The backend. Its operations are the associated functions.
pub struct Mlx {}

/// Where arrays are computed.
#[derive(Clone, Copy, Debug, PartialEq, Eq)]
pub enum MlxDevice {
    Cpu,
    Gpu,
}

/// A sequence of sizes as a sequence of integers.
pub open spec fn sizes(s: Seq<usize>) -> Seq<int> {
    Seq::new(s.len(), |k: int| s[k] as int)
}

/// An array together with its shape.
#[derive(Debug)]
pub struct MlxTensorPrimitive {
    pub array: Array,
    pub shape: Vec<usize>,
}

impl MlxTensorPrimitive {
    pub open spec fn wf(&self) -> bool {
        &&& self.array.wf()
        &&& sizes(self.shape@) == self.array.dims()
    }

    /// The value of the array under a model.
    pub open spec fn value(&self, m: Model) -> Tensor {
        self.array.value(m)
    }

    pub open spec fn dims(&self) -> Seq<int> {
        self.array.dims()
    }

    pub fn new(array: Array) -> (r: MlxTensorPrimitive)
        requires
            array.wf(),
        ensures
            r.wf(),
            r.array == array,
    {
        let mut shape: Vec<usize> = Vec::new();
        let s = array.shape();
        for k in 0..s.len()
            invariant
                array.wf(),
                ints(s@) == array.dims(),
                shape@.len() == k,
                forall|j: int| 0 <= j < k ==> #[trigger] shape@[j] == s@[j],
        {
            assert(array.dims()[k as int] >= 0);
            assert(ints(s@)[k as int] == s@[k as int]);
            shape.push(s[k] as usize);
        }
        proof {
            assert(sizes(shape@) == ints(s@));
        }
        MlxTensorPrimitive { array, shape }
    }

    pub fn shape(&self) -> (r: &Vec<usize>)
        ensures
            *r == self.shape,
    {
        &self.shape
    }
}

} // verus!
