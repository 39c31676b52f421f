# skrub_rust

TF-IDF vectorisation of short texts into sparse rows, and Frequent-Directions
embedding of sparse rows into a few dense columns, verified with Verus.

- `src/` is the library. Its numeric kernels are generic over `scalar::Scalar`; the
  contracts say which operations are applied to which operands and in which order.
  Text functions and dense linear algebra come in through the traits
  `tokenize::Tokenizer` and `linalg::LinearAlgebra`, of which nothing is promised.
  `tables` and `random` hold what is taken on trust of `ahash` and `rand`; `laws`,
  `row_laws`, `text_laws`, `order_laws`, `stacking`, `embed_laws` and `reproducible` state
  what holds of several functions or calls together.
- `tests/` runs the library on concrete values.
- `app/` is the Python extension module around it: NumPy arrays, `f32`, LAPACK,
  threads, timing output.
