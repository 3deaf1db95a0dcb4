//! Solver configuration and quantum-shot scheduling.
use vstd::prelude::*;
use crate::lehmer::{LehmerDecoder, route_count};

verus! {

/// Tuning parameters of the solver.
#[derive(Debug, Clone)]
pub struct SolverConfig {
    pub max_circuit_depth: usize,
    pub max_qubits: usize,
    pub enable_classical_fallback: bool,
    pub enable_iterative_refinement: bool,
    pub max_refinement_iterations: usize,
    pub enable_2opt_polish: bool,
    pub enable_3opt_polish: bool,
    pub decomposition_method: String,
    pub max_subproblem_size: usize,
    pub shots: usize,
    pub parallel_workers: usize,
}

impl Default for SolverConfig {
    /// Depth 200, 12 qubits, fallback and refinement on (3 passes), 2-opt on,
    /// 3-opt off, "auto" decomposition, subproblems of 6 cities, 512 shots, 4 workers.
    fn default() -> (c: Self)
        ensures
            c.max_circuit_depth == 200,
            c.max_qubits == 12,
            c.enable_classical_fallback,
            c.enable_iterative_refinement,
            c.max_refinement_iterations == 3,
            c.enable_2opt_polish,
            !c.enable_3opt_polish,
            c.decomposition_method@ == "auto"@,
            c.max_subproblem_size == 6,
            c.shots == 512,
            c.parallel_workers == 4,
    {
        SolverConfig {
            max_circuit_depth: 200,
            max_qubits: 12,
            enable_classical_fallback: true,
            enable_iterative_refinement: true,
            max_refinement_iterations: 3,
            enable_2opt_polish: true,
            enable_3opt_polish: false,
            decomposition_method: "auto".to_string(),
            max_subproblem_size: 6,
            shots: 512,
            parallel_workers: 4,
        }
    }
}

/// Adaptive allocation of quantum measurement shots.
pub struct ShotScheduler {
    base_shots: usize,
}

impl ShotScheduler {
    /// Number of shots before scaling.
    pub closed spec fn spec_base_shots(self) -> nat {
        self.base_shots as nat
    }

    /// A scheduler with `base_shots` shots before scaling.
    pub fn new(base_shots: usize) -> (s: Self)
        ensures
            s.spec_base_shots() == base_shots,
    {
        Self { base_shots }
    }

    /// Number of shots before scaling.
    pub fn base_shots(&self) -> (b: usize)
        ensures
            b == self.spec_base_shots(),
    {
        self.base_shots
    }

    /// Whether Grover search over the decoder's routes pays off: the square
    /// root of the route count exceeds 10, that is, there are more than 100 routes.
    pub fn quantum_advantage_viable(&self, decoder: &LehmerDecoder) -> (viable: bool)
        ensures
            viable == (route_count(decoder@) > 100),
    {
        decoder.total_permutations() > 100
    }
}

} // verus!
