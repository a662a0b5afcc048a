# cubek_qa

Matrix products with quantized weights and quantized activations, verified with Verus.

Weights and activations are stored as dense codes, `bits` per value without padding, with
one scale per sixteen codes. A code is an index into a table of centroids, or a signed
number where the value is symmetric. Activations are quantized in rotated space, after a
randomized Hadamard transform of every block of thirty-two.

## Layout

- `arith`: the traits that kernels compute and store with; `fixed`: a fixed-point format.
- `scheme`, `codebook`: value types, their widths and ranges, tables.
- `dense`: packing and extraction of codes. `rht`: the rotation.
- `product`, `panel`, `gemv`: the kernels of the products; `weights`: dequantization.
- `quantize`: the kernels of both quantizers.
- `qa_matmul`: the launches, which run a kernel on every unit of a grid (`grid`).
- `qa_gemv`: the matrix-vector routine, from a problem to a launch; `definition`: its
  vocabulary.
- `exact`, `laws`: what holds of the kernels together, such as that a product is an inner
  product wherever no operation rounds.

The contracts say which operations a kernel makes, in which order. How an operation rounds
is left to the format: `app/` computes in single precision and stores in half precision,
on buffers of a compute client.

Three functions of `cubecl_common` are called behind wrappers in `scheme`: the width of a
value, whether it is symmetric, and the largest number of its range.
