use std::collections::HashMap;
use tig_circuit_tools::converters::circom::get_signal_name;
use tig_circuit_tools::converters::layout::{assign_columns, columns_assignable_check};
use tig_circuit_tools::converters::solver::instance_fits_check;
use tig_circuit_tools::{
    compute_witness, dag_to_circom, dag_to_spartan, remove_aliases, solve_witness_from_r1cs,
    FieldElement, Node, OpType, SpartanInstance, WitnessError, DAG,
};

fn one() -> [u8; 32] {
    FieldElement::one().to_bytes()
}

fn fe(v: u64) -> FieldElement {
    FieldElement::from_u64(v)
}

fn entries(m: &[(usize, usize, [u8; 32])]) -> Vec<(usize, usize)> {
    m.iter()
        .map(|&(r, c, b)| {
            assert_eq!(b, one());
            (r, c)
        })
        .collect()
}

/// out0 = n1 + n2, n1 = n3, n2 = n3^5, n3 an input.
fn sample_dag() -> DAG {
    DAG {
        nodes: vec![
            Node::new(0, OpType::Add(1, 2)),
            Node::new(1, OpType::Alias(3)),
            Node::new(2, OpType::Pow5(3)),
            Node::new(3, OpType::Input),
        ],
        num_inputs: 1,
        num_outputs: 1,
    }
}

#[test]
fn spartan_rows_of_a_small_dag() {
    let si = dag_to_spartan(&sample_dag());
    assert_eq!((si.num_cons, si.num_vars, si.num_inputs), (5, 4, 2));
    // Rows in evaluation order: the three rows of n2 = n3^5, then n1 = n3, then out0.
    assert_eq!(entries(&si.A), vec![(0, 6), (1, 2), (2, 3), (3, 0), (4, 0), (4, 1)]);
    assert_eq!(entries(&si.B), vec![(0, 6), (1, 2), (2, 6), (3, 4), (4, 4)]);
    assert_eq!(entries(&si.C), vec![(0, 2), (1, 3), (2, 1), (3, 6), (4, 5)]);
}

#[test]
fn spartan_scale_coefficient_and_mul_row() {
    let dag = DAG {
        nodes: vec![
            Node::new(0, OpType::Mul(1, 2)),
            Node::new(1, OpType::Scale(2, 7)),
            Node::new(2, OpType::Input),
        ],
        num_inputs: 1,
        num_outputs: 1,
    };
    let si = dag_to_spartan(&dag);
    // Columns: n1 -> 0 (private), constant 1, n0 -> 2, n2 -> 3.
    assert_eq!((si.num_cons, si.num_vars, si.num_inputs), (2, 1, 2));
    // Row 0 is the scaling n1 = 7 * n2, row 1 the product out0 = n1 * n2.
    assert_eq!(si.A[0], (0, 3, fe(7).to_bytes()));
    assert_eq!(si.B[0], (0, 1, one()));
    assert_eq!(si.C[0], (0, 0, one()));
    assert_eq!(si.A[1], (1, 0, one()));
    assert_eq!(si.B[1], (1, 3, one()));
    assert_eq!(si.C[1], (1, 2, one()));
}

#[test]
fn witness_of_a_small_dag() {
    let dag = sample_dag();
    let (vars, public_io) = compute_witness(&dag, &[fe(3)]);
    let vars: Vec<[u8; 32]> = vars.iter().map(|v| v.to_bytes()).collect();
    let io: Vec<[u8; 32]> = public_io.iter().map(|v| v.to_bytes()).collect();
    assert_eq!(vars, vec![fe(3).to_bytes(), fe(243).to_bytes(), fe(9).to_bytes(), fe(81).to_bytes()]);
    assert_eq!(io, vec![fe(246).to_bytes(), fe(3).to_bytes()]);
}

#[test]
fn solver_matches_witness_on_a_small_dag() {
    let dag = sample_dag();
    let si = dag_to_spartan(&dag);
    let (vars, public_io) = compute_witness(&dag, &[fe(3)]);
    let (svars, sio) = solve_witness_from_r1cs(&si, 1, &[fe(3)]).unwrap();
    assert_eq!(vars, svars);
    assert_eq!(public_io, sio);
}

#[test]
fn solver_reports_wrong_input_count() {
    let si = dag_to_spartan(&sample_dag());
    assert_eq!(
        solve_witness_from_r1cs(&si, 1, &[]),
        Err(WitnessError::InvalidInputs { expected: 1, got: 0 })
    );
    assert_eq!(
        solve_witness_from_r1cs(&si, 1, &[fe(1), fe(2)]),
        Err(WitnessError::InvalidInputs { expected: 1, got: 2 })
    );
}

#[test]
fn solver_reports_being_stuck() {
    // One private variable and one output, and no row that determines them.
    let si = SpartanInstance { num_cons: 0, num_vars: 1, num_inputs: 1, A: vec![], B: vec![], C: vec![] };
    assert_eq!(
        solve_witness_from_r1cs(&si, 1, &[]),
        Err(WitnessError::SolverStuck { solved: 0, total: 2 })
    );
    // x * x = 4 has no linear solution step: the solver does not guess a root.
    let si = SpartanInstance {
        num_cons: 1,
        num_vars: 1,
        num_inputs: 1,
        A: vec![(0, 0, one())],
        B: vec![(0, 0, one())],
        C: vec![(0, 2, one())],
    };
    assert_eq!(
        solve_witness_from_r1cs(&si, 0, &[fe(4)]),
        Err(WitnessError::SolverStuck { solved: 0, total: 1 })
    );
}

#[test]
fn solver_solves_backwards_through_a_scaling() {
    // out = 5 * x with x private: row (5 x) * 1 = out; the input is out.
    let si = SpartanInstance {
        num_cons: 1,
        num_vars: 1,
        num_inputs: 1,
        A: vec![(0, 0, fe(5).to_bytes())],
        B: vec![(0, 1, one())],
        C: vec![(0, 2, one())],
    };
    let (vars, io) = solve_witness_from_r1cs(&si, 0, &[fe(10)]).unwrap();
    assert_eq!(vars, vec![fe(2)]);
    assert_eq!(io, vec![fe(10)]);
}

#[test]
fn remove_aliases_on_a_small_dag() {
    let si = dag_to_spartan(&sample_dag());
    let out = remove_aliases(&si);
    assert_eq!((out.num_cons, out.num_vars, out.num_inputs), (4, 3, 2));
    assert_eq!(entries(&out.A), vec![(0, 5), (1, 1), (2, 2), (3, 5), (3, 0)]);
    assert_eq!(entries(&out.B), vec![(0, 5), (1, 1), (2, 5), (3, 3)]);
    assert_eq!(entries(&out.C), vec![(0, 1), (1, 2), (2, 0), (3, 4)]);
    // The solver still converges and gives the same outputs.
    let (_, io) = solve_witness_from_r1cs(&out, 1, &[fe(3)]).unwrap();
    assert_eq!(io, vec![fe(246), fe(3)]);
}

#[test]
fn remove_aliases_keeps_an_instance_without_aliases() {
    let dag = DAG {
        nodes: vec![Node::new(0, OpType::Mul(1, 1)), Node::new(1, OpType::Input)],
        num_inputs: 1,
        num_outputs: 1,
    };
    let si = dag_to_spartan(&dag);
    let out = remove_aliases(&si);
    assert_eq!((out.num_cons, out.num_vars, out.num_inputs), (si.num_cons, si.num_vars, si.num_inputs));
    assert_eq!(out.A, si.A);
    assert_eq!(out.B, si.B);
    assert_eq!(out.C, si.C);
}

#[test]
fn remove_aliases_keeps_an_alias_between_public_columns() {
    // An output that aliases an input: both columns are public, the row stays.
    let dag = DAG {
        nodes: vec![Node::new(0, OpType::Alias(1)), Node::new(1, OpType::Input)],
        num_inputs: 1,
        num_outputs: 1,
    };
    let si = dag_to_spartan(&dag);
    let out = remove_aliases(&si);
    assert_eq!(out.num_cons, 1);
    assert_eq!(out.A, si.A);
}

#[test]
fn remove_aliases_merges_columns_and_drops_zero_sums() {
    // Row 0: x0 * 1 = x1 (alias, x0 -> x1). Row 1: (x0 - x1) * 1 = out.
    let minus_one = FieldElement::zero().sub(&FieldElement::one()).to_bytes();
    let si = SpartanInstance {
        num_cons: 2,
        num_vars: 2,
        num_inputs: 1,
        A: vec![(0, 0, one()), (1, 0, one()), (1, 1, minus_one)],
        B: vec![(0, 2, one()), (1, 2, one())],
        C: vec![(0, 1, one()), (1, 3, one())],
    };
    let out = remove_aliases(&si);
    assert_eq!((out.num_cons, out.num_vars, out.num_inputs), (1, 0, 1));
    assert!(out.A.is_empty());
    assert_eq!(out.B, vec![(0, 0, one())]);
    assert_eq!(out.C, vec![(0, 1, one())]);
}

#[test]
fn circom_text_of_a_small_dag() {
    let code = dag_to_circom(&sample_dag());
    assert!(code.starts_with("pragma circom 2.0.0;"));
    assert!(code.contains("signal input in[1];"));
    assert!(code.contains("signal output out[1];"));
    assert!(code.contains("component main = Challenge();"));
}

#[test]
fn signal_names() {
    let mut inputs = HashMap::new();
    inputs.insert(7usize, 2usize);
    assert_eq!(get_signal_name(7, &inputs), "in[2]");
    assert_eq!(get_signal_name(12, &inputs), "s_12");
}

#[test]
fn field_arithmetic() {
    let a = fe(6);
    let b = fe(7);
    assert_eq!(a.add(&b), fe(13));
    assert_eq!(a.mul(&b), fe(42));
    assert_eq!(b.sub(&a), fe(1));
    assert_eq!(fe(42).mul(&b.invert()), a);
    assert!(FieldElement::zero().is_zero());
    assert!(!a.is_zero());
    assert!(a.equals(&fe(6)));
    // ℓ - 1 + 1 wraps to 0.
    let minus_one = FieldElement::zero().sub(&FieldElement::one());
    assert!(minus_one.add(&FieldElement::one()).is_zero());
    assert!(FieldElement::from_canonical_bytes(minus_one.to_bytes()).is_some());
    assert!(FieldElement::from_canonical_bytes([0xff; 32]).is_none());
}

#[test]
fn remove_aliases_also_removes_a_scaling_by_one() {
    // out0 = n1 * n1 with n1 = 1 * n2 (private) and n2 an input: the scaling row has
    // the alias shape, so it goes as well, though the analysis counts no alias.
    let dag = DAG {
        nodes: vec![
            Node::new(0, OpType::Mul(1, 1)),
            Node::new(1, OpType::Scale(2, 1)),
            Node::new(2, OpType::Input),
        ],
        num_inputs: 1,
        num_outputs: 1,
    };
    let si = dag_to_spartan(&dag);
    assert_eq!((si.num_cons, si.num_vars, si.num_inputs), (2, 1, 2));
    assert_eq!(tig_circuit_tools::analyze_dag(&dag).alias_removable, 0);
    let out = remove_aliases(&si);
    assert_eq!((out.num_cons, out.num_vars, out.num_inputs), (1, 0, 2));
    assert_eq!(entries(&out.A), vec![(0, 2)]);
    assert_eq!(entries(&out.B), vec![(0, 2)]);
    assert_eq!(entries(&out.C), vec![(0, 1)]);
    let (_, io) = solve_witness_from_r1cs(&out, 1, &[fe(7)]).unwrap();
    assert_eq!(io, vec![fe(49), fe(7)]);
}

#[test]
fn remove_aliases_keeps_a_second_alias_row_on_one_column() {
    // out0 = n1 and n1 = n2 (an input): both rows are alias rows on the private column
    // n1. The first (n1 -> n2) is removed; the second is kept, substituted into
    // out0 * 1 = n2, so out0 stays tied to the input.
    let dag = DAG {
        nodes: vec![
            Node::new(0, OpType::Alias(1)),
            Node::new(1, OpType::Alias(2)),
            Node::new(2, OpType::Input),
        ],
        num_inputs: 1,
        num_outputs: 1,
    };
    let si = dag_to_spartan(&dag);
    assert_eq!((si.num_cons, si.num_vars, si.num_inputs), (2, 1, 2));
    let (_, io) = solve_witness_from_r1cs(&si, 1, &[fe(5)]).unwrap();
    assert_eq!(io, vec![fe(5), fe(5)]);
    let out = remove_aliases(&si);
    assert_eq!((out.num_cons, out.num_vars, out.num_inputs), (1, 0, 2));
    assert_eq!(entries(&out.A), vec![(0, 1)]);
    assert_eq!(entries(&out.B), vec![(0, 0)]);
    assert_eq!(entries(&out.C), vec![(0, 2)]);
    let (_, io) = solve_witness_from_r1cs(&out, 1, &[fe(5)]).unwrap();
    assert_eq!(io, vec![fe(5), fe(5)]);
}

#[test]
fn remove_aliases_keeps_out_tied_to_in_through_a_shared_column() {
    // Row 0: out * 1 = q, row 1: q * 1 = in; columns q = 0, constant 1, out 2, in 3.
    let si = SpartanInstance {
        num_cons: 2,
        num_vars: 1,
        num_inputs: 2,
        A: vec![(0, 2, one()), (1, 0, one())],
        B: vec![(0, 1, one()), (1, 1, one())],
        C: vec![(0, 0, one()), (1, 3, one())],
    };
    let out = remove_aliases(&si);
    assert_eq!((out.num_cons, out.num_vars, out.num_inputs), (1, 0, 2));
    assert_eq!(entries(&out.A), vec![(0, 1)]);
    assert_eq!(entries(&out.B), vec![(0, 0)]);
    assert_eq!(entries(&out.C), vec![(0, 2)]);
    let (_, io) = solve_witness_from_r1cs(&out, 1, &[fe(9)]).unwrap();
    assert_eq!(io, vec![fe(9), fe(9)]);
}

#[test]
fn rows_of_a_small_dag_come_in_evaluation_order() {
    // Taken in sequence, each row of the sample DAG introduces exactly one column:
    // the square, the fourth power, n2, n1, and last the output.
    let si = dag_to_spartan(&sample_dag());
    let introduced: Vec<usize> = vec![2, 3, 1, 0, 5];
    let mut known = vec![false; si.num_vars + 1 + si.num_inputs];
    known[4] = true;
    known[6] = true;
    for (row, &col) in introduced.iter().enumerate() {
        let mut cols: Vec<usize> = si
            .A
            .iter()
            .chain(si.B.iter())
            .chain(si.C.iter())
            .filter(|e| e.0 == row)
            .map(|e| e.1)
            .filter(|&c| !known[c])
            .collect();
        cols.dedup();
        assert_eq!(cols, vec![col]);
        known[col] = true;
    }
}

#[test]
fn remove_aliases_returns_an_instance_without_alias_rows_unchanged_whatever_it_holds() {
    // No alias row; a coefficient that is not canonical and a column past the width.
    let si = SpartanInstance {
        num_cons: 2,
        num_vars: 1,
        num_inputs: 1,
        A: vec![(0, 0, [0xff; 32]), (1, 7, one())],
        B: vec![(0, 1, one())],
        C: vec![(1, 2, one()), (0, 0, one())],
    };
    assert!(!instance_fits_check(&si));
    let out = remove_aliases(&si);
    assert_eq!((out.num_cons, out.num_vars, out.num_inputs), (2, 1, 1));
    assert_eq!(out.A, si.A);
    assert_eq!(out.B, si.B);
    assert_eq!(out.C, si.C);
}

#[test]
fn instance_fits_check_finds_each_misfit() {
    let good = SpartanInstance {
        num_cons: 1,
        num_vars: 1,
        num_inputs: 1,
        A: vec![(0, 0, one())],
        B: vec![(0, 1, one())],
        C: vec![(0, 2, one())],
    };
    assert!(instance_fits_check(&good));
    assert!(instance_fits_check(&dag_to_spartan(&sample_dag())));
    let mut wide = good.clone();
    wide.C = vec![(0, 3, one())];
    assert!(!instance_fits_check(&wide));
    let mut tall = good.clone();
    tall.B = vec![(1, 1, one())];
    assert!(!instance_fits_check(&tall));
    let mut raw = good.clone();
    raw.A = vec![(0, 0, [0xff; 32])];
    assert!(!instance_fits_check(&raw));
    let mut huge = good.clone();
    huge.num_vars = usize::MAX;
    assert!(!instance_fits_check(&huge));
}

#[test]
fn checked_total_constraints_sums_the_node_counts() {
    // Add, Alias and Pow5: 1 + 1 + 3.
    assert_eq!(sample_dag().checked_total_constraints(), Some(5));
    assert_eq!(sample_dag().total_constraints(), 5);
}

#[test]
fn columns_assignable_check_finds_each_misfit() {
    assert!(columns_assignable_check(&sample_dag()));
    let mut far = sample_dag();
    far.nodes[1] = Node::new(1, OpType::Alias(4));
    assert!(!columns_assignable_check(&far));
    let mut far_right = sample_dag();
    far_right.nodes[0] = Node::new(0, OpType::Add(1, 9));
    assert!(!columns_assignable_check(&far_right));
    let mut shuffled = sample_dag();
    shuffled.nodes[2] = Node::new(5, OpType::Pow5(3));
    assert!(!columns_assignable_check(&shuffled));
    let mut many_outputs = sample_dag();
    many_outputs.num_outputs = 5;
    assert!(!columns_assignable_check(&many_outputs));
}

#[test]
fn assign_columns_does_not_read_operands() {
    // Node 1's operand is no node id; the layout is that of the sample DAG.
    let mut dag = sample_dag();
    dag.nodes[1] = Node::new(1, OpType::Alias(40));
    let cols = assign_columns(&dag);
    assert_eq!(cols.num_private_vars, 4);
    assert_eq!(cols.col_const_one, 4);
    assert_eq!(cols.num_public_inputs, 2);
    assert_eq!(cols.output_node_order, vec![0]);
    assert_eq!(cols.input_node_order, vec![3]);
}

#[test]
fn circom_source_has_one_arrow_per_constraint_and_output() {
    // Five constraints (Add, Alias, Pow5) and one output.
    let code = dag_to_circom(&sample_dag());
    assert_eq!(code.matches("<==").count(), 6);
    assert_eq!(code.chars().filter(|&c| c == '<').count(), 6);
}

/// Rows `x * 1 = first`, `x * 1 = second`, `y * (x - 5) = 1`; columns x = 0, y = 1,
/// constant 2, no public input.
fn scan_order_instance(first: u64, second: u64) -> SpartanInstance {
    let minus_five = fe(0).sub(&fe(5)).to_bytes();
    SpartanInstance {
        num_cons: 3,
        num_vars: 2,
        num_inputs: 0,
        A: vec![(0, 0, one()), (1, 0, one()), (2, 1, one())],
        B: vec![(0, 2, one()), (1, 2, one()), (2, 0, one()), (2, 2, minus_five)],
        C: vec![(0, 2, fe(first).to_bytes()), (1, 2, fe(second).to_bytes()), (2, 2, one())],
    }
}

#[test]
fn solver_scans_rows_in_index_order() {
    // Row 0 fixes x = 5 first; row 2 then has a zero denominator.
    assert_eq!(
        solve_witness_from_r1cs(&scan_order_instance(5, 7), 0, &[]),
        Err(WitnessError::SolverStuck { solved: 1, total: 2 })
    );
    // With the rows' constants swapped, x = 7 and y = 1/2.
    let (vars, io) = solve_witness_from_r1cs(&scan_order_instance(7, 5), 0, &[]).unwrap();
    assert_eq!(vars[0], fe(7));
    assert_eq!(vars[1].mul(&fe(2)), fe(1));
    assert!(io.is_empty());
}
