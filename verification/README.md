# hybit

A hybrid sparse solver for real symmetric positive definite systems in CSR
form with 32-bit indices: preconditioned conjugate gradients with a Jacobi
probe that escalates to local dense Cholesky corrections on hard regions,
an optional algebraic two-level base, and a rigid-body two-level path for
3-D structural systems with node coordinates.

## Layout

- `src/` is the verified library (Verus). It holds the index, structure,
  region, aggregation, policy and format logic of the solver:
  - `mask`: bit masks over DOFs;
  - `csr`: CSR structure checks, block node adjacency, matrix signatures;
  - `abtm`: the adaptive bitmap tile layout of a CSR pattern;
  - `aggregate`: breadth-first graph aggregation with small-aggregate merging;
  - `coarse`: aggregate sizes, assignments and coarse index arithmetic;
  - `escalation`: hard-region discovery and halo growth;
  - `regions`: region merging, factor-memory estimates and budgets, overlap
    multiplicities;
  - `policy`: options, their validation and the execution policies;
  - `matrix_market`: the Matrix Market text format;
  - `codes`: the numeric codes of the C interface;
  - `laws`: properties that relate several operations.
- `app/` is the floating-point part around it (not verified): SpMV, PCG,
  the preconditioners and their factorizations, the automatic controller,
  the structural solver, Matrix Market file I/O and the C interface.
- `tests/` exercises the library.
