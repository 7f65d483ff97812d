# booleanlab_discovery

Exact Boolean-function discovery, screening and sparsity-control primitives,
written in Verus. The public functions of `src/` carry `requires`/`ensures`
contracts that the verifier proves. The exceptions are the few
`#[verifier::external_body]` wrappers around `biodivine-lib-bdd` in
`src/bounded_bdd.rs`: their contracts are trusted, not proved, and their doc
comments say what each one claims of the outside crate.

Layout:

- `src/bitwise.rs`, `src/spectral.rs`, `src/function.rs`: truth tables, the
  algebraic normal form, Walsh spectra and the derived metrics
  (degree, nonlinearity, balance, resilience, plateau values).
- `src/circuit.rs`, `src/baseline.rs`: deterministic circuit generation, exact
  deduplication of the functions they compute and the Pareto front.
- `src/equivalence_screen.rs`, `src/input_permutation_screen.rs`: exact,
  output-complement and input-permutation screens and the affine-invariant
  signature.
- `src/affine_invariance.rs`: the weight, algebraic degree, sorted
  absolute Walsh spectrum and signature are unchanged by
  `g(x) = f(Ax + b) XOR c` for every invertible `A` (proved through
  permutations, elementary changes `x_i <- x_i XOR x_j`, translations and
  Gaussian elimination), so the affine-invariant screen never excludes such a
  match.
- `src/sparsity_*.rs`, `src/search_comparison.rs`: Boolean rules over mask
  features, their exhaustive and counterexample-guided search, freezing and
  held-out reporting, and the admission of matched-density baseline requests.
- `src/tropical.rs`, `src/tropical_search.rs`: max-plus polynomials and the
  bounded search over their comparison predicates.
- `src/elastic_interop_vectors.rs`: the reverse-Polish expression vectors.
- `src/bounded_bdd.rs`: size-bounded BDD construction through
  `biodivine-lib-bdd`, replayed against the exact truth table.
- `src/gf2.rs`: component functions of a field inversion table.
- `app/main.rs`: the command-line driver that prints the reports.
- `tests/`: executable tests of the library.
