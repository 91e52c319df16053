//! Circuit analysis: DAG optimization potential, Spartan instance metrics and
//! Circom compiler output.
pub mod circom_tools;
pub mod dag_analysis;
pub mod spartan_tools;

pub use circom_tools::{parse_circom_output, CircomMetrics, OptLevel};
pub use dag_analysis::{analyze_dag, AnalysisResult};
pub use spartan_tools::{analyze_spartan_instance, SpartanMetrics};
