# mlx_ops

Neural network operations of a tensor backend for MLX, verified with Verus.

An operation of the library does not compute numbers. It builds a graph of
primitive array operations, and its contract says what the graph computes: which
element of the result is made from which elements of the operands, and how. What
the floating-point primitives do to single numbers is left to a model, and every
contract holds for all models.

- `src/` is the verified library. `index`, `tensor` and `op` say what arrays and
  primitive operations mean, `node` and `array` are the graphs, and the other
  modules are the operations: `base`, `pool`, `max_pool`, `pooling`, `pool_grad`,
  `conv`, `attention`, `activation`, `module`, `float`, `quant` and `qtensor`.
  `laws`, `pool_laws` and `attention_laws` relate operations to each other. Where a
  law does not hold of all models, it says what it asks of one: `exact`
  is about models that compute with real numbers.
- `app/` runs graphs with MLX, one call per node, and converts the options and
  quantized data of Burn.
- `tests/` runs the operations on concrete values with a small interpreter.
