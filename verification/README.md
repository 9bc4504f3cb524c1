# vecnorm

Bulk vector operations on `f32` scores, with the selection logic verified by
Verus.

- `src/` is the verified library. Scores are IEEE-754 binary32 bit patterns
  (`u32`); `score.rs` defines their order (numeric, `-0.0 == 0.0`, NaN
  lowest) and the single argmax, `heap.rs` a binary heap whose root is the
  lowest-ranked entry, `topk.rs` top-k selection with its laws (uniqueness,
  prefix, full length, agreement with argmax), `matrix.rs` the row-wise batch
  form, serial or over rayon's pool, and `error.rs` the error type and the
  shared shape check.
- `app/` is the `ndarray` and Python front end: it converts `f32` views to
  bit patterns and back, and holds the floating-point kernels (L2
  normalization, dot product, cosine similarity and distances).
- `tests/` runs the library on concrete values.
