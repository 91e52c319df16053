//! Generation, conversion and analysis of R1CS circuits built from random
//! arithmetic DAGs.
//!
//! - [`dag`]: the circuit DAG, its nodes and the step-by-step generator
//! - [`field`]: elements of the scalar field of Curve25519
//! - [`converters`]: DAG to Circom text and to Spartan R1CS, witness computation,
//!   the R1CS witness solver and the alias-removing optimizer
//! - [`analysis`]: constraint and matrix metrics
pub mod dag;
pub mod field;
pub mod text;
pub mod analysis;
pub mod converters;

pub use analysis::{
    analyze_dag, analyze_spartan_instance, parse_circom_output, AnalysisResult, CircomMetrics, OptLevel,
    SpartanMetrics,
};
pub use converters::{
    compute_witness, dag_to_circom, dag_to_spartan, remove_aliases, solve_witness_from_r1cs, R1CSMatrix,
    SpartanInstance, WitnessError,
};
pub use dag::generator::{Bias, Category, DagBuilder, Draw, Outcome};
pub use dag::{Node, OpType, DAG};
pub use field::FieldElement;
