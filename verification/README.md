# burn-sct

Linear layers for [Burn](https://burn.dev) that are stored as a truncated singular value
decomposition, `W = U diag(s) V^T`. The dense matrix is never formed. After each step of an
optimizer the factors `U` and `V` are retracted to orthonormal columns by a QR decomposition.

```
y = (x U) * s V^T          x: [batch, in], U: [in, k], s: [k], V: [out, k]
```

`src/` is a verified library, written in Rust and proved with Verus; `app/` is the burn module
around it: parameters, random draws, threads, the CUDA kernel.

| Module | What it holds |
|--------|---------------|
| `scalar` | the arithmetic that the kernels are written in |
| `grid`, `lanes`, `matmul` | flat buffers, vector kernels, the product of two matrices |
| `house`, `wave` | Householder QR, and the same shared out among threads |
| `cholesky` | the triangular factor by Cholesky, the orthonormal one by substitution |
| `svd`, `dense` | one-sided Jacobi SVD, and the SVD of a dense matrix by way of QR |
| `tensor`, `outcome`, `qr` | matrices on a device, and QR with matrix operations |
| `layer`, `plan`, `words` | the layer, how work is shared out, numbers in and out of words |
| `residue` | an exact arithmetic to try the kernels out in |
| `algebra`, `exact`, `mirror`, `winding` | the mathematics that the proofs use |
| `qr_laws`, `unique_laws`, `chol_laws`, `svd_laws`, `sweep_laws`, `best_laws`, `tensor_laws`, `layer_laws` | what the kernels and the layer are in exact arithmetic |

The contract of a kernel says which operations it applies to which operands in which order, for any
arithmetic, and so for any number of threads. The laws are about the same functions over the
mathematical numbers, on the one hypothesis that these have square roots:

- Householder QR: `A = Q R`, `Q` has orthonormal columns and `R` is upper triangular with a diagonal
  that is not negative, for every matrix. Where the columns of `A` are independent, there are no
  other such factors.
- QR with matrix operations takes a column for 0 whose norm is `1e-8` or less. `Q` is orthonormal for
  every matrix; `R` is upper triangular up to that threshold in every entry, and `A = Q R` up to
  twice the threshold in every column. Where the diagonal of `R` has no entry between 0 and `1e-8`,
  the factors are those of the other QR, up to the signs.
- Cholesky of `A^T A` keeps the squares on its diagonal at `1e-30` or above, and the diagonal is
  positive for every matrix. Where no square had to be raised, the factors are those of QR.
- Singular value decomposition: after any number of sweeps the triplets multiply back to the matrix,
  the right vectors are orthonormal, the left ones have length 1, and the values descend, for every
  matrix of every rank. What the triplets that were left out add up to is what the others miss. The
  left vectors are orthogonal up to `1e-12` once a sweep has found all pairs settled. Every rotation
  brings the columns closer to that; how many sweeps it takes is not proved. Then no sum of as many
  products of two vectors comes closer to the matrix than the first triplets do, up to the threshold.
- The layer: retraction makes the columns orthonormal and leaves orthonormal ones alone; a layer made
  from a dense weight misses what the singular values left out add up to, no other weight of its
  rank misses less, and at full rank it gives what the dense layer gives.
