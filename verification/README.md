# rustgpt

A strided tensor library with zero-copy views, broadcasting elementwise
operations, reductions, a reference matrix product, a cache-blocked product
and its row-band split for parallel workers, and a xorshift64* generator.
The library is written in Verus: every function carries a contract, and
every function but three small trusted wrappers is proved against it. The
wrappers are the only code that touches the reference count of a buffer, in
`src/buffer.rs`: `new_buffer` (`Rc::new`), `share` (`Rc::clone`) and
`same_allocation` (`Rc::ptr_eq`). Each buffer carries the identity of its
allocation as a ghost value; the contracts of the views state that a view
reads the same allocation as its source, and `shares_storage_with` answers
exactly whether two tensors have the same allocation.

## Layout

- `src/shape.rs`: shapes as sequences, row-major strides, raveling and
  unraveling indices, the broadcasting rule, and the shape error type.
- `src/buffer.rs`: the shared buffer and its allocation identity.
- `src/tensor.rs`: the tensor (a shared buffer with shape, strides and
  offset), its well-formedness, construction, element access, and the views
  `permute`, `transpose`, `reshape`, `slice`, `broadcast_to`, plus
  `contiguous` and `to_vec`.
- `src/elementwise.rs`: `map`, `zip_with` and the operators built on them.
- `src/order.rs`: the maximum of two scalars with the NaN rule.
- `src/reduce.rs`: `sum_axis`, `max_axis`, the pairwise `sum_all`, and what
  `keepdim` changes.
- `src/matmul.rs`: `matmul_naive`, the blocked kernel (`matmul_row_band`,
  `matmul_blocked`), the batched `matmul`, and the agreement of the products.
- `src/bands.rs`: the row-band plan of the parallel product and the join of
  the band outputs.
- `src/rng.rs`: the generator's integer state machine.
- `app/lib.rs`: what rests on float arithmetic or threads: the `Scalar`
  trait for `f32` and `f64`, the float maps and `mean_axis`, uniform and
  normal draws, the scoped-thread `matmul_parallel`, and a displayable copy
  of the shape error.
- `tests/`: the acceptance tests and property tests, run against the
  compiled library.

Element types are generic. Results are stated through the specifications
that `vstd` gives the operator traits (`T::add`, `T::mul`, ...), so each sum
and dot product is fixed to its exact order of operations.
