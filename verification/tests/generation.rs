use curve25519_dalek::scalar::Scalar;
use rand::{Rng, SeedableRng};
use rand_chacha::ChaCha20Rng;
use sha2::{Digest, Sha256};
use std::collections::HashSet;
use tig_circuit_tools::{
    analyze_dag, analyze_spartan_instance, compute_witness, dag_to_circom, dag_to_spartan,
    remove_aliases, solve_witness_from_r1cs, Bias, Category, DagBuilder, Draw, FieldElement, Outcome,
    SpartanInstance, DAG,
};

/// Generates a DAG from a seed at a difficulty, with the default ratios
/// (redundancy 0.25, power 0.15, alias 0.15, linear 0.20).
fn generate_dag(seed: &str, difficulty: u32) -> DAG {
    let num_constraints = (difficulty as usize) * 1000;
    let (redundancy, power, alias, linear) = (0.25f64, 0.15f64, 0.15f64, 0.20f64);
    let mut hasher = Sha256::new();
    hasher.update(seed.as_bytes());
    let mut rng = ChaCha20Rng::from_seed(hasher.finalize().into());
    let num_outputs: usize = rng.gen_range(1..=3);
    let mut builder = DagBuilder::new(num_constraints, num_outputs);
    loop {
        let outcome = match builder.next_draw() {
            Draw::Done => break,
            Draw::Category => {
                let v: f64 = rng.gen_range(0.0..1.0);
                let t_alias = alias;
                let t_lin = t_alias + linear;
                let t_pow = t_lin + power;
                Outcome::Category(if v < t_alias {
                    Category::Alias
                } else if v < t_lin {
                    Category::Linear
                } else if v < t_pow {
                    Category::Power
                } else {
                    Category::Arith
                })
            }
            Draw::Coin(bias) => Outcome::Coin(rng.gen_bool(match bias {
                Bias::Never => 0.0,
                Bias::Redundancy => redundancy,
                Bias::Even => 0.5,
            })),
            Draw::Index(count) => Outcome::Index(rng.gen_range(0..count)),
            Draw::Scale => Outcome::Scale(rng.gen_range(2..1000)),
        };
        assert!(builder.step(outcome));
    }
    builder.finish()
}

/// Values 1, 2, ... for the circuit inputs (the inputs that are not outputs).
fn input_values(dag: &DAG) -> Vec<FieldElement> {
    let output_set: HashSet<usize> = (0..dag.num_outputs).collect();
    let count = dag
        .nodes
        .iter()
        .filter(|n| n.is_input() && !output_set.contains(&n.id))
        .count();
    (0..count).map(|i| FieldElement::from_u64((i + 1) as u64)).collect()
}

/// Takes the rows in sequence, with the constant and the circuit inputs known, and
/// checks that each row holds at most one column that no earlier row holds.
fn rows_in_evaluation_order(si: &SpartanInstance, num_outputs: usize) -> bool {
    let width = si.num_vars + 1 + si.num_inputs;
    let mut known = vec![false; width];
    known[si.num_vars] = true;
    for c in (si.num_vars + 1 + num_outputs)..width {
        known[c] = true;
    }
    let mut rows: Vec<Vec<usize>> = vec![Vec::new(); si.num_cons];
    for &(row, col, _) in si.A.iter().chain(si.B.iter()).chain(si.C.iter()) {
        rows[row].push(col);
    }
    for cols in &rows {
        let mut unknown: Vec<usize> = cols.iter().copied().filter(|&c| !known[c]).collect();
        unknown.sort();
        unknown.dedup();
        if unknown.len() > 1 {
            return false;
        }
        for &c in cols {
            known[c] = true;
        }
    }
    true
}

fn scalar(bytes: [u8; 32]) -> Scalar {
    Option::<Scalar>::from(Scalar::from_canonical_bytes(bytes)).expect("canonical scalar")
}

/// Whether `(vars, 1, public_io)` satisfies every row of the instance.
fn is_sat(si: &SpartanInstance, vars: &[FieldElement], public_io: &[FieldElement]) -> bool {
    if vars.len() != si.num_vars || public_io.len() != si.num_inputs {
        return false;
    }
    let mut z: Vec<Scalar> = vars.iter().map(|v| scalar(v.to_bytes())).collect();
    z.push(Scalar::ONE);
    z.extend(public_io.iter().map(|v| scalar(v.to_bytes())));
    let dot = |m: &Vec<(usize, usize, [u8; 32])>| {
        let mut acc = vec![Scalar::ZERO; si.num_cons];
        for &(row, col, bytes) in m {
            acc[row] += scalar(bytes) * z[col];
        }
        acc
    };
    let (a, b, c) = (dot(&si.A), dot(&si.B), dot(&si.C));
    (0..si.num_cons).all(|r| a[r] * b[r] == c[r])
}

#[test]
fn test_deterministic_generation() {
    let dag1 = generate_dag("test_seed", 1);
    let dag2 = generate_dag("test_seed", 1);

    assert_eq!(dag1.nodes.len(), dag2.nodes.len());
    assert_eq!(dag1.num_inputs, dag2.num_inputs);
    assert_eq!(dag1.num_outputs, dag2.num_outputs);
}

#[test]
fn test_different_seeds_produce_different_dags() {
    let dag1 = generate_dag("seed1", 1);
    let dag2 = generate_dag("seed2", 1);

    assert_ne!(dag1.nodes.len(), dag2.nodes.len());
}

#[test]
fn test_dag_has_outputs() {
    let dag = generate_dag("test", 1);

    assert!(dag.num_outputs >= 1 && dag.num_outputs <= 3);
}

#[test]
fn test_full_workflow() {
    let dag = generate_dag("integration_test", 1);

    let analysis = analyze_dag(&dag);
    assert!(analysis.baseline_constraints > 0);

    let circom = dag_to_circom(&dag);
    assert!(circom.contains("pragma circom"));

    let spartan = dag_to_spartan(&dag);
    assert_eq!(spartan.num_cons, analysis.baseline_constraints);

    let spartan_metrics = analyze_spartan_instance(&spartan);
    assert_eq!(spartan_metrics.total_constraints, analysis.baseline_constraints);
}

#[test]
fn test_determinism() {
    let dag1 = generate_dag("determinism_test", 1);
    let dag2 = generate_dag("determinism_test", 1);

    assert_eq!(dag1.nodes.len(), dag2.nodes.len());
    assert_eq!(dag1.total_constraints(), dag2.total_constraints());
}

#[test]
fn test_parity_check() {
    let dag = generate_dag("parity_test", 1);

    let analysis = analyze_dag(&dag);
    let spartan = dag_to_spartan(&dag);

    assert_eq!(
        analysis.baseline_constraints, spartan.num_cons,
        "Circom and Spartan constraint counts must match!"
    );
}

#[test]
fn test_circom_generation() {
    let dag = generate_dag("test", 1);
    let circom = dag_to_circom(&dag);

    assert!(circom.contains("pragma circom 2.0.0"));
    assert!(circom.contains("template Challenge()"));
    assert!(circom.contains("component main = Challenge()"));
}

#[test]
fn test_circom_has_inputs_outputs() {
    let dag = generate_dag("test", 1);
    let circom = dag_to_circom(&dag);

    assert!(circom.contains("signal input in["));
    assert!(circom.contains("signal output out["));
}

#[test]
fn test_spartan_generation() {
    let dag = generate_dag("test", 1);
    let spartan = dag_to_spartan(&dag);

    assert!(spartan.num_cons > 0);
    assert!(spartan.num_vars > 0);
    assert!(spartan.num_inputs > 0);
}

#[test]
fn test_constraint_count_matches_dag() {
    let dag = generate_dag("test", 1);
    let spartan = dag_to_spartan(&dag);

    let expected_constraints = dag.total_constraints();
    assert_eq!(spartan.num_cons, expected_constraints);
}

#[test]
fn test_column_bounds() {
    let dag = generate_dag("bounds_test", 1);
    let si = dag_to_spartan(&dag);

    let max_col = si.num_vars + 1 + si.num_inputs;
    for &(row, col, _) in si.A.iter().chain(si.B.iter()).chain(si.C.iter()) {
        assert!(row < si.num_cons, "row {} >= num_cons {}", row, si.num_cons);
        assert!(col < max_col, "col {} >= max_col {}", col, max_col);
    }
}

#[test]
fn test_compute_witness_basic() {
    let dag = generate_dag("witness_test", 1);
    let si = dag_to_spartan(&dag);
    let inputs = input_values(&dag);

    let (vars, public_io) = compute_witness(&dag, &inputs);

    assert_eq!(vars.len(), si.num_vars);
    assert_eq!(public_io.len(), si.num_inputs);
}

#[test]
fn test_circuit_satisfiability() {
    let seeds = ["test1", "test2", "test3", "validation", "edge_case"];
    let difficulties = [1u32, 2, 4];

    for seed in &seeds {
        for &diff in &difficulties {
            let dag = generate_dag(seed, diff);
            let si = dag_to_spartan(&dag);
            let inputs = input_values(&dag);

            let (vars, public_io) = compute_witness(&dag, &inputs);

            assert!(
                is_sat(&si, &vars, &public_io),
                "Circuit NOT satisfiable for seed='{}' difficulty={}",
                seed,
                diff
            );
        }
    }
}

#[test]
fn test_solve_witness_from_r1cs() {
    let seeds = ["test1", "test2", "test3", "validation", "edge_case"];
    let difficulties = [1u32, 2, 4];

    for seed in &seeds {
        for &diff in &difficulties {
            let dag = generate_dag(seed, diff);
            let si = dag_to_spartan(&dag);
            let inputs = input_values(&dag);

            let (vars_dag, public_io_dag) = compute_witness(&dag, &inputs);

            let (vars_solver, public_io_solver) = solve_witness_from_r1cs(&si, dag.num_outputs, &inputs)
                .unwrap_or_else(|e| {
                    panic!(
                        "solve_witness_from_r1cs failed for seed='{}' diff={}: {:?}",
                        seed, diff, e
                    )
                });

            assert_eq!(
                vars_dag.len(),
                vars_solver.len(),
                "vars length mismatch for seed='{}' diff={}",
                seed,
                diff
            );
            for (i, (a, b)) in vars_dag.iter().zip(vars_solver.iter()).enumerate() {
                assert_eq!(
                    a.to_bytes(),
                    b.to_bytes(),
                    "vars[{}] mismatch for seed='{}' diff={}",
                    i,
                    seed,
                    diff
                );
            }

            assert_eq!(
                public_io_dag.len(),
                public_io_solver.len(),
                "public_io length mismatch for seed='{}' diff={}",
                seed,
                diff
            );
            for (i, (a, b)) in public_io_dag.iter().zip(public_io_solver.iter()).enumerate() {
                assert_eq!(
                    a.to_bytes(),
                    b.to_bytes(),
                    "public_io[{}] mismatch for seed='{}' diff={}",
                    i,
                    seed,
                    diff
                );
            }
        }
    }
}

#[test]
fn test_remove_aliases_reduces_constraints() {
    let seeds = ["test1", "test2", "test3", "validation", "edge_case"];
    let difficulties = [1u32, 2, 4];

    for seed in &seeds {
        for &diff in &difficulties {
            let dag = generate_dag(seed, diff);
            let si = dag_to_spartan(&dag);
            let analysis = analyze_dag(&dag);

            let optimized = remove_aliases(&si);

            assert_eq!(
                optimized.num_cons,
                si.num_cons - analysis.alias_removable,
                "Wrong constraint count for seed='{}' diff={}: expected {} - {} = {}, got {}",
                seed,
                diff,
                si.num_cons,
                analysis.alias_removable,
                si.num_cons - analysis.alias_removable,
                optimized.num_cons
            );

            assert!(
                optimized.num_vars <= si.num_vars,
                "num_vars should not increase for seed='{}' diff={}",
                seed,
                diff
            );

            assert_eq!(
                optimized.num_inputs, si.num_inputs,
                "num_inputs changed for seed='{}' diff={}",
                seed,
                diff
            );

            let inputs = input_values(&dag);

            let (vars_opt, public_io_opt) = solve_witness_from_r1cs(&optimized, dag.num_outputs, &inputs)
                .unwrap_or_else(|e| {
                    panic!(
                        "solve_witness_from_r1cs failed on optimized circuit for seed='{}' diff={}: {:?}",
                        seed, diff, e
                    )
                });

            assert!(
                is_sat(&optimized, &vars_opt, &public_io_opt),
                "Optimized circuit NOT satisfiable for seed='{}' difficulty={}",
                seed,
                diff
            );

            let (_, public_io_orig) = compute_witness(&dag, &inputs);
            for i in 0..dag.num_outputs {
                assert_eq!(
                    public_io_orig[i].to_bytes(),
                    public_io_opt[i].to_bytes(),
                    "Output {} mismatch for seed='{}' diff={}",
                    i,
                    seed,
                    diff
                );
            }
        }
    }
}

#[test]
fn test_analysis_on_generated_dag() {
    let dag = generate_dag("test", 1);
    let analysis = analyze_dag(&dag);

    let baseline = analysis.baseline_constraints as f64;
    let total_possible_reduction = 1.0 - (analysis.optimized_constraints() as f64 / baseline);
    assert!(analysis.baseline_constraints > 0);
    assert!(total_possible_reduction >= 0.0);
    assert!(total_possible_reduction <= 1.0);
}

#[test]
fn test_baseline_matches_dag_constraints() {
    let dag = generate_dag("test", 1);
    let analysis = analyze_dag(&dag);

    assert_eq!(analysis.baseline_constraints, dag.total_constraints());
}

#[test]
fn test_analyze_spartan_instance() {
    let dag = generate_dag("test", 1);
    let spartan = dag_to_spartan(&dag);
    let metrics = analyze_spartan_instance(&spartan);

    assert_eq!(metrics.total_constraints, spartan.num_cons);
    assert_eq!(metrics.total_variables, spartan.num_vars);
    assert_eq!(metrics.public_inputs, spartan.num_inputs);
}

#[test]
fn generated_dags_are_well_formed_and_within_budget() {
    for seed in ["a", "b", "c", "d"] {
        for diff in [1u32, 3] {
            let dag = generate_dag(seed, diff);
            assert!(dag.total_constraints() <= diff as usize * 1000);
            for (i, node) in dag.nodes.iter().enumerate() {
                assert_eq!(node.id, i);
                assert!(!matches!(node.op, tig_circuit_tools::OpType::Undefined | tig_circuit_tools::OpType::Output));
            }
            assert_eq!(dag.num_inputs, dag.inputs().len());
            assert!(dag.outputs().is_empty());
            for o in 0..dag.num_outputs {
                assert!(!dag.nodes[o].is_input());
            }
        }
    }
}

#[test]
fn generated_rows_come_in_evaluation_order() {
    for seed in &["test1", "test2", "test3", "validation", "edge_case"] {
        for &diff in &[1u32, 2] {
            let dag = generate_dag(seed, diff);
            let si = dag_to_spartan(&dag);
            assert!(
                rows_in_evaluation_order(&si, dag.num_outputs),
                "rows out of evaluation order for seed='{}' diff={}",
                seed,
                diff
            );
        }
    }
}
