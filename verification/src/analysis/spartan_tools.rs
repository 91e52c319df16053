//! Structural metrics of a Spartan R1CS instance.
use crate::converters::spartan::SpartanInstance;
use vstd::prelude::*;

verus! {

/// Metrics extracted from a Spartan circuit.
#[derive(Clone, Copy, Debug)]
pub struct SpartanMetrics {
    /// Total number of constraints
    pub total_constraints: usize,
    /// Total number of variables
    pub total_variables: usize,
    /// Number of public inputs
    pub public_inputs: usize,
    /// Number of non-zero entries in A matrix
    pub matrix_a_nonzeros: usize,
    /// Number of non-zero entries in B matrix
    pub matrix_b_nonzeros: usize,
    /// Number of non-zero entries in C matrix
    pub matrix_c_nonzeros: usize,
}

impl SpartanMetrics {
    /// Returns the total number of non-zero entries across all matrices.
    pub fn total_nonzeros(&self) -> (total: usize)
        requires
            self.matrix_a_nonzeros + self.matrix_b_nonzeros + self.matrix_c_nonzeros
                <= usize::MAX,
        ensures
            total == self.matrix_a_nonzeros + self.matrix_b_nonzeros + self.matrix_c_nonzeros,
    {
        self.matrix_a_nonzeros + self.matrix_b_nonzeros + self.matrix_c_nonzeros
    }
}

/// Analyzes a Spartan instance directly.
pub fn analyze_spartan_instance(instance: &SpartanInstance) -> (metrics: SpartanMetrics)
    ensures
        metrics.total_constraints == instance.num_cons,
        metrics.total_variables == instance.num_vars,
        metrics.public_inputs == instance.num_inputs,
        metrics.matrix_a_nonzeros == instance.A.len(),
        metrics.matrix_b_nonzeros == instance.B.len(),
        metrics.matrix_c_nonzeros == instance.C.len(),
{
    SpartanMetrics {
        total_constraints: instance.num_cons,
        total_variables: instance.num_vars,
        public_inputs: instance.num_inputs,
        matrix_a_nonzeros: instance.A.len(),
        matrix_b_nonzeros: instance.B.len(),
        matrix_c_nonzeros: instance.C.len(),
    }
}

} // verus!
