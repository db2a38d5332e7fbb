# cpu_storage

Array storage on the CPU, verified with Verus: one vector of elements of one type, strided layouts
over it, and the operations that an array library builds on.

* `src/shape.rs`, `src/layout.rs`: extents, strides and the row-major walk over an array.
* `src/elementwise.rs`, `src/convert.rs`, `src/op.rs`: maps over one or two arrays, selections,
  copies and conversions.
* `src/reduce.rs`, `src/normalize.rs`: sums over dimensions, and division by the sum over one.
* `src/embedding.rs`, `src/matmul.rs`: selection of rows and products of batches of matrices.
* `src/storage.rs`: `CpuStorage`, which brings these together for every element type.
* `src/numbers.rs`: floating-point elements as bit patterns. `bf16` arithmetic is that of the `half`
  crate; the rest comes from an implementation of `FloatOps`.

`app/` holds the native side: a storage of native floats, the implementation of `FloatOps`, and the
matrix products of the `gemm` crate. The functions named `*_is_within` and `*_are_within` test at
run time what the operations require of their layouts.
