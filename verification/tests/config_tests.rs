use hdqtsp_lehmer::api::{decode_route, total_routes, version};
use hdqtsp_lehmer::config::{ShotScheduler, SolverConfig};
use hdqtsp_lehmer::lehmer::LehmerDecoder;

#[test]
fn default_config() {
    let c = SolverConfig::default();
    assert_eq!(c.max_circuit_depth, 200);
    assert_eq!(c.max_qubits, 12);
    assert!(c.enable_classical_fallback);
    assert!(c.enable_iterative_refinement);
    assert_eq!(c.max_refinement_iterations, 3);
    assert!(c.enable_2opt_polish);
    assert!(!c.enable_3opt_polish);
    assert_eq!(c.decomposition_method, "auto");
    assert_eq!(c.max_subproblem_size, 6);
    assert_eq!(c.shots, 512);
    assert_eq!(c.parallel_workers, 4);
}

#[test]
fn quantum_advantage_threshold() {
    let s = ShotScheduler::new(512);
    assert_eq!(s.base_shots(), 512);
    assert!(!s.quantum_advantage_viable(&LehmerDecoder::new(5)));
    assert!(s.quantum_advantage_viable(&LehmerDecoder::new(6)));
}

#[test]
fn browser_entry_points() {
    assert_eq!(version(), "HDQTS v6.2 Rust/WASM — Lehmer-Enhanced Edition");
    assert_eq!(total_routes(8), 5040);
    assert_eq!(total_routes(1), 1);
    assert_eq!(decode_route(4, 5), vec![0, 3, 2, 1]);
}
