//! Neural network operations of a tensor backend, as graphs of array operations.
//!
//! An operation takes tensors, whose arrays are graphs, and gives the graph of its
//! result. The contract of an operation says what that graph computes, for every
//! interpretation of the floating-point primitives.
pub mod activation;
pub mod activation_laws;
pub mod array;
pub mod attention;
pub mod attention_laws;
pub mod base;
pub mod conv;
pub mod conv_laws;
pub mod elementwise;
pub mod exact;
pub mod float;
pub mod float_laws;
pub mod index;
pub mod laws;
pub mod layout;
pub mod max_pool;
pub mod module;
pub mod node;
pub mod op;
pub mod options;
pub mod pool;
pub mod pool_grad;
pub mod pool_laws;
pub mod pooling;
pub mod primitive;
pub mod primitive_laws;
pub mod qtensor;
pub mod quant;
pub mod quant_laws;
pub mod tensor;
pub mod window_laws;
