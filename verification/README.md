# graph_embedding

Embedding of a graph of nearest neighbours in a space of few dimensions, verified with Verus.

1. `scale`: the distances to the neighbours of a node become transition probabilities.
2. `laplacian`: the normalized symmetric laplacian of the graph of probabilities, full or sparse.
   `sparse` compresses sparse matrices, with the crate `sprs`; rows of full ones are summed by `ndarray`.
3. `spectral`: the singular vectors of the laplacian give the initial embedding. The decomposition
   itself is done by a solver that the caller passes.
4. `entropy`: the embedding is optimized by gradient descent on a cross entropy.
5. `embedder`: the whole process.

`dichotomy` finds roots by bisection, `graph` and `matrix` hold the data.

The algorithms are generic in the arithmetic (`number`). Contracts say which operation was applied to which
operands; nothing is presumed of an operation. Laws name the properties of the arithmetic that they need:

- `unique`: in a deterministic arithmetic each contract leaves one outcome.
- `exact`: in exact arithmetic probabilities sum to 1, the square roots of the degrees are in the kernel of the
  laplacian, the cross entropy is the sum over the edges, descent keeps the centroid, and weights fall with distance.
- `invariance`: what outcomes do not depend on, such as the unit of distance.
- `symmetry`: the laplacian is symmetric.

`app/` is the front end in floating point arithmetic, with LAPACK as the solver. `tests/` runs the library in single
and double precision.
