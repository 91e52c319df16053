# tig_circuit_tools

Random R1CS circuit instances for the TIG ZK challenge, with their witness
computation, an R1CS witness solver and a baseline alias-removing optimizer,
verified with Verus.

## Layout

- `src/` — the verified library.
  - `dag/` — circuit nodes, the DAG, and `DagBuilder`, the generation state
    machine: it asks for each random draw and applies the outcome.
  - `field.rs` — elements of the Curve25519 scalar field, over `curve25519-dalek`.
  - `converters/` — the column layout, `dag_to_spartan` (rows in evaluation
    order), `compute_witness`, `solve_witness_from_r1cs`, `remove_aliases`,
    `dag_to_circom`, and the proofs that tie them together: the witness satisfies
    the instance, its rows come in evaluation order, the solver reproduces the
    witness, and alias removal keeps every solution, keeps the rows linear and
    leaves an instance on which the solver converges to the same outputs.
  - `analysis/` — DAG analysis, Spartan metrics, and the parsing of the Circom
    compiler's report (over `regex`).
  - `text.rs` — decimal formatting used by the converters.
- `tests/` — tests run against the compiled library; `tests/generation.rs`
  drives `DagBuilder` with SHA-256 and ChaCha20, as `app/` does.
- `app/` — the `tig-tool` command line: seeded generation (random draws and the
  floating-point ratios), file and process I/O, JSON, reports with percentages.
