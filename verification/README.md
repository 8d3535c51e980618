# lau_eigenfunction_policy

Optimal reinforcement-learning policies as Dirichlet eigenfunctions: under the
Hopf-Cole change of variables `z = exp(-V/λ)` the Bellman equation of a
linearly-solvable MDP becomes a linear eigenproblem for the operator
`L = P · diag(exp(-c/λ))` with absorbing (Dirichlet) rows at terminal states.

Layout:

- `src/` — the Verus-verified library: the index structure of the problem.
  - `dirichlet`: the absorbing boundary condition on an operator's rows,
    interior states, the interior submatrix, and the boundary states outside a
    target set, with laws (interior/boundary partition and count, the interior
    submatrix does not depend on the boundary condition, idempotence).
  - `linear_mdp`: the transition graphs of the grid-world and chain MDPs, with
    laws (grid adjacency is symmetric, 2 to 4 distinct neighbours, the grid is
    connected; the chain's last state is absorbing and reached from every state).
  Matrix entries are a type parameter and are only moved, never computed on.
- `app/` — the floating-point numerics on `nalgebra` matrices (power iteration,
  Hopf-Cole transform, Doob h-transform, spectral and WKB analysis), with the
  serde-enabled types; it calls the library for the structure above.
- `tests/` — tests of the library.
