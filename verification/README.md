# hauksbee-solve

A circuit solver's core, verified with Verus: sparse factorization, device stamps,
compiled stamp plans, partitioning into islands, the exchange between islands, the
decisions of the stiff-tear and staged executors, and the reports of the analyses.

- `src/` is the library. Everything numeric is generic over `Scalar`; for a scalar with
  exact arithmetic the factorization is proved to solve the system. A rounding scalar
  gets the same operations in the same order: `sparse::frozen` and `sparse::pivoting`
  state both factorizations, pivots and all, as functions of the matrix.
- `tests/` runs the library in double precision.
- `app/` holds what is floating point or runs threads: the double as a scalar, the time
  loops, and the trait through which the numeric kernels (Newton's method, time
  stepping, conduction analysis) are supplied.

| Module | What it is |
| --- | --- |
| `sparse` | compressed columns, elimination order, symbolic and numeric factorization, with static or dynamic pivots |
| `stamp`, `plan` | what each device adds to the system, interpreted or compiled |
| `system`, `circuit`, `subcircuit`, `duplicate` | circuits, their unknowns, and extracted pieces |
| `partition`, `partitioned` | islands, and marching them against each other |
| `orchestrate` | rail balance, stiff captures, composed groups, staged runs |
| `sim`, `rawfile` | probes, operating point, transient, sweeps, and their files |
