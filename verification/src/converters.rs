//! DAG to circuit format converters, witness computation and R1CS transformations.
pub mod agreement;
pub mod alias_convergence;
pub mod alias_linear;
pub mod alias_rows;
pub mod alias_solutions;
pub mod aliases;
pub mod circom;
pub mod circom_count;
pub mod circom_semantics;
pub mod layout;
pub mod r1cs;
pub mod row_order;
pub mod solver;
pub mod spartan;
pub mod witness;

pub use aliases::remove_aliases;
pub use circom::dag_to_circom;
pub use solver::{solve_witness_from_r1cs, WitnessError};
pub use spartan::{dag_to_spartan, R1CSMatrix, SpartanInstance};
pub use witness::compute_witness;
